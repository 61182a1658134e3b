//! Section kinds, their marker strings, the line classifier, the delimiter
//! scanner and the section slicer.
//!
//! A cartridge body is split into sections by marker lines.  The scanner
//! walks every line once and records a delimiter (kind, line number, byte
//! offset) for each line that starts with a marker; the slicer turns the
//! ordered delimiters into byte spans, each covering exactly the bytes
//! between its marker line and the next marker (or the end of the buffer).

use vstd::prelude::*;

use crate::bytes::{lemma_line_step, spec_lines, spec_lines_state, spec_state_size, NewlineIter};

verus! {

/// The kind of one section of a cartridge file.
#[derive(Clone, Copy, Debug, PartialEq, Eq, Structural)]
pub enum SectionType {
    /// The code section, subdivided into up to sixteen tabs.
    Lua,
    /// The sprite sheet; the one mandatory section.
    Gfx,
    /// The sprite flags.
    Gff,
    /// The cartridge label image.
    Label,
    /// The tile map.
    TileMap,
    /// The sound effects.
    Sfx,
    /// The music patterns.
    Music,
}

/// The marker string of a section kind, as the bytes that open its marker
/// line.
pub open spec fn spec_marker(ty: SectionType) -> Seq<u8> {
    match ty {
        SectionType::Lua => seq![95u8, 95u8, 108u8, 117u8, 97u8, 95u8, 95u8],
        SectionType::Gfx => seq![95u8, 95u8, 103u8, 102u8, 120u8, 95u8, 95u8],
        SectionType::Gff => seq![95u8, 95u8, 103u8, 102u8, 102u8, 95u8, 95u8],
        SectionType::Label => seq![95u8, 95u8, 108u8, 97u8, 98u8, 101u8, 108u8, 95u8, 95u8],
        SectionType::TileMap => seq![95u8, 95u8, 109u8, 97u8, 112u8, 95u8, 95u8],
        SectionType::Sfx => seq![95u8, 95u8, 115u8, 102u8, 120u8, 95u8, 95u8],
        SectionType::Music => seq![95u8, 95u8, 109u8, 117u8, 115u8, 105u8, 99u8, 95u8, 95u8],
    }
}

/// The marker string of a section kind, as a fresh vector.
pub fn marker_bytes(ty: SectionType) -> (r: Vec<u8>)
    ensures
        r@ == spec_marker(ty),
        2 <= r@.len() <= 9,
{
    let mut v: Vec<u8> = Vec::new();
    v.push(95u8);
    v.push(95u8);
    match ty {
        SectionType::Lua => {
            v.push(108u8);
            v.push(117u8);
            v.push(97u8);
        },
        SectionType::Gfx => {
            v.push(103u8);
            v.push(102u8);
            v.push(120u8);
        },
        SectionType::Gff => {
            v.push(103u8);
            v.push(102u8);
            v.push(102u8);
        },
        SectionType::Label => {
            v.push(108u8);
            v.push(97u8);
            v.push(98u8);
            v.push(101u8);
            v.push(108u8);
        },
        SectionType::TileMap => {
            v.push(109u8);
            v.push(97u8);
            v.push(112u8);
        },
        SectionType::Sfx => {
            v.push(115u8);
            v.push(102u8);
            v.push(120u8);
        },
        SectionType::Music => {
            v.push(109u8);
            v.push(117u8);
            v.push(115u8);
            v.push(105u8);
            v.push(99u8);
        },
    }
    v.push(95u8);
    v.push(95u8);
    proof {
        assert(v@ =~= spec_marker(ty));
    }
    v
}

/// Classifies a line: the first section kind, in declaration order, whose
/// marker is a byte prefix of the line; `None` when no marker matches.
pub open spec fn spec_classify(line: Seq<u8>) -> Option<SectionType> {
    if spec_marker(SectionType::Lua).is_prefix_of(line) {
        Some(SectionType::Lua)
    } else if spec_marker(SectionType::Gfx).is_prefix_of(line) {
        Some(SectionType::Gfx)
    } else if spec_marker(SectionType::Gff).is_prefix_of(line) {
        Some(SectionType::Gff)
    } else if spec_marker(SectionType::Label).is_prefix_of(line) {
        Some(SectionType::Label)
    } else if spec_marker(SectionType::TileMap).is_prefix_of(line) {
        Some(SectionType::TileMap)
    } else if spec_marker(SectionType::Sfx).is_prefix_of(line) {
        Some(SectionType::Sfx)
    } else if spec_marker(SectionType::Music).is_prefix_of(line) {
        Some(SectionType::Music)
    } else {
        None
    }
}

/// Whether the marker of `ty` is a byte prefix of `line`.
fn starts_with_marker(line: &[u8], ty: SectionType) -> (r: bool)
    ensures
        r == spec_marker(ty).is_prefix_of(line@),
{
    let m = marker_bytes(ty);
    if m.len() > line.len() {
        return false;
    }
    let head = vstd::slice::slice_subrange(line, 0, m.len());
    crate::bytes::slices_equal(head, m.as_slice())
}

/// Classifies a line: the first section kind whose marker opens it.
pub fn get_line_type(line_src: &[u8]) -> (r: Option<SectionType>)
    ensures
        r == spec_classify(line_src@),
{
    if starts_with_marker(line_src, SectionType::Lua) {
        Some(SectionType::Lua)
    } else if starts_with_marker(line_src, SectionType::Gfx) {
        Some(SectionType::Gfx)
    } else if starts_with_marker(line_src, SectionType::Gff) {
        Some(SectionType::Gff)
    } else if starts_with_marker(line_src, SectionType::Label) {
        Some(SectionType::Label)
    } else if starts_with_marker(line_src, SectionType::TileMap) {
        Some(SectionType::TileMap)
    } else if starts_with_marker(line_src, SectionType::Sfx) {
        Some(SectionType::Sfx)
    } else if starts_with_marker(line_src, SectionType::Music) {
        Some(SectionType::Music)
    } else {
        None
    }
}

/// The mathematical form of a delimiter: a marker line's kind, line number
/// and byte offset.
pub ghost struct DelimiterV {
    /// The section kind of the marker.
    pub section_type: SectionType,
    /// The 1-based line number of the marker line, counted across the whole
    /// file, header included.
    pub line_number: int,
    /// The byte offset of the marker line's first byte, relative to the
    /// post-header remainder.
    pub byte_offset: int,
}

/// A marker line found while scanning the post-header remainder.
#[derive(Clone, Copy, Debug, PartialEq, Eq, Structural)]
pub struct SectionDelimiter {
    /// The section kind of the marker.
    pub section_type: SectionType,
    /// The 1-based line number of the marker line, counted across the whole
    /// file, header included.
    pub line_number: usize,
    /// The byte offset of the marker line's first byte, relative to the
    /// post-header remainder.
    pub byte_offset: usize,
}

impl View for SectionDelimiter {
    type V = DelimiterV;

    open spec fn view(&self) -> DelimiterV {
        DelimiterV {
            section_type: self.section_type,
            line_number: self.line_number as int,
            byte_offset: self.byte_offset as int,
        }
    }
}

impl DeepView for SectionDelimiter {
    type V = DelimiterV;

    open spec fn deep_view(&self) -> DelimiterV {
        self.view()
    }
}

/// The delimiters of a list of lines, walked in order with a running line
/// number and a running byte offset.
pub open spec fn spec_delims(lines: Seq<Seq<u8>>, line_no: int, off: int) -> Seq<DelimiterV>
    decreases lines.len(),
{
    if lines.len() == 0 {
        Seq::empty()
    } else {
        let rest = spec_delims(lines.drop_first(), line_no + 1, off + lines[0].len());
        match spec_classify(lines[0]) {
            Some(ty) => seq![
                DelimiterV { section_type: ty, line_number: line_no, byte_offset: off },
            ] + rest,
            None => rest,
        }
    }
}

/// Delimiters are listed in strictly increasing line-number order, with
/// line numbers at least the starting counter and byte offsets at least the
/// starting offset.
pub proof fn lemma_delims_sorted(lines: Seq<Seq<u8>>, line_no: int, off: int)
    ensures
        forall|k: int|
            0 <= k < spec_delims(lines, line_no, off).len() ==> line_no <= (
            #[trigger] spec_delims(lines, line_no, off)[k]).line_number && off <= spec_delims(
                lines,
                line_no,
                off,
            )[k].byte_offset,
        forall|k1: int, k2: int|
            0 <= k1 < k2 < spec_delims(lines, line_no, off).len() ==> (#[trigger] spec_delims(
                lines,
                line_no,
                off,
            )[k1]).line_number < (#[trigger] spec_delims(lines, line_no, off)[k2]).line_number,
    decreases lines.len(),
{
    if lines.len() > 0 {
        lemma_delims_sorted(lines.drop_first(), line_no + 1, off + lines[0].len() as int);
        let rest = spec_delims(lines.drop_first(), line_no + 1, off + lines[0].len() as int);
        match spec_classify(lines[0]) {
            Some(ty) => {
                let head = DelimiterV {
                    section_type: ty,
                    line_number: line_no,
                    byte_offset: off,
                };
                assert((seq![head] + rest).drop_first() =~= rest);
            },
            None => {},
        }
    }
}

/// When every line holds at least one byte, a delimiter's line number grows
/// no faster than its byte offset.
pub proof fn lemma_delims_line_offset(lines: Seq<Seq<u8>>, line_no: int, off: int)
    requires
        forall|j: int| 0 <= j < lines.len() ==> (#[trigger] lines[j]).len() >= 1,
    ensures
        forall|k: int|
            0 <= k < spec_delims(lines, line_no, off).len() ==> (#[trigger] spec_delims(
                lines,
                line_no,
                off,
            )[k]).line_number - line_no <= spec_delims(lines, line_no, off)[k].byte_offset - off,
    decreases lines.len(),
{
    if lines.len() > 0 {
        assert forall|j: int|
            0 <= j < lines.drop_first().len() implies (#[trigger] lines.drop_first()[j]).len()
            >= 1 by {
            assert(lines[j + 1].len() >= 1);
        }
        lemma_delims_line_offset(lines.drop_first(), line_no + 1, off + lines[0].len() as int);
        let rest = spec_delims(lines.drop_first(), line_no + 1, off + lines[0].len() as int);
        match spec_classify(lines[0]) {
            Some(ty) => {
                let head = DelimiterV {
                    section_type: ty,
                    line_number: line_no,
                    byte_offset: off,
                };
                assert((seq![head] + rest).drop_first() =~= rest);
            },
            None => {},
        }
    }
}

/// When every delimiter's line number is at most its byte offset plus `c`,
/// every sliced section's line number plus payload length is at most the
/// buffer length plus `c`.
pub proof fn lemma_sections_bounds(buf: Seq<u8>, ds: Seq<DelimiterV>, c: int)
    requires
        forall|k: int|
            0 <= k < ds.len() ==> (#[trigger] ds[k]).line_number <= ds[k].byte_offset + c,
        forall|k: int| 0 <= k < ds.len() ==> (#[trigger] ds[k]).byte_offset >= 0,
    ensures
        forall|k: int|
            0 <= k < spec_sections(buf, ds).len() ==> (#[trigger] spec_sections(buf, ds)[k])
                .line_number + spec_sections(buf, ds)[k].data.len() <= buf.len() + c,
    decreases ds.len(),
{
    if ds.len() > 0 {
        assert forall|k: int|
            0 <= k < ds.drop_first().len() implies (#[trigger] ds.drop_first()[k]).line_number
            <= ds.drop_first()[k].byte_offset + c && ds.drop_first()[k].byte_offset >= 0 by {
            assert(ds[k + 1].line_number <= ds[k + 1].byte_offset + c);
            assert(ds[k + 1].byte_offset >= 0);
        }
        lemma_sections_bounds(buf, ds.drop_first(), c);
        let rest = spec_sections(buf, ds.drop_first());
        let d = ds[0];
        let start = d.byte_offset + spec_marker(d.section_type).len() + 1;
        let end = if ds.len() == 1 {
            buf.len() as int
        } else {
            ds[1].byte_offset
        };
        assert(ds[0].line_number <= ds[0].byte_offset + c);
        if start <= end && end <= buf.len() {
            let head = SectionV {
                section_type: d.section_type,
                line_number: d.line_number,
                data: buf.subrange(start, end),
            };
            assert((seq![head] + rest).drop_first() =~= rest);
            assert forall|k: int|
                0 <= k < spec_sections(buf, ds).len() implies (#[trigger] spec_sections(
                buf,
                ds,
            )[k]).line_number + spec_sections(buf, ds)[k].data.len() <= buf.len() + c by {
                if k == 0 {
                    assert(spec_sections(buf, ds)[0] == head);
                } else {
                    assert(spec_sections(buf, ds)[k] == rest[k - 1]);
                }
            }
        } else {
            assert(spec_sections(buf, ds) == Seq::<SectionV>::empty() + rest);
            assert forall|k: int|
                0 <= k < spec_sections(buf, ds).len() implies (#[trigger] spec_sections(
                buf,
                ds,
            )[k]).line_number + spec_sections(buf, ds)[k].data.len() <= buf.len() + c by {
                assert(spec_sections(buf, ds)[k] == rest[k]);
                assert(rest[k].line_number + rest[k].data.len() <= buf.len() + c);
            }
        }
    }
}

/// Every marker ends with an underscore, not a newline, and is at least
/// seven bytes long.
pub proof fn lemma_marker_shape(ty: SectionType)
    ensures
        spec_marker(ty).len() >= 7,
        spec_marker(ty).last() == 95u8,
        forall|i: int| 0 <= i < spec_marker(ty).len() ==> #[trigger] spec_marker(ty)[i] != 10u8,
{
    match ty {
        SectionType::Lua => {},
        SectionType::Gfx => {},
        SectionType::Gff => {},
        SectionType::Label => {},
        SectionType::TileMap => {},
        SectionType::Sfx => {},
        SectionType::Music => {},
    }
}

/// A section's marker line, the marker and its newline, classifies to that
/// very section kind, and its lines are just itself.
pub proof fn lemma_marker_line_classify(ty: SectionType)
    ensures
        spec_classify(spec_marker(ty) + seq![10u8]) == Some(ty),
        crate::bytes::spec_lines(spec_marker(ty) + seq![10u8]) == seq![spec_marker(ty) + seq![10u8]],
        (spec_marker(ty) + seq![10u8]).len() == spec_marker(ty).len() + 1,
        (spec_marker(ty) + seq![10u8]).last() == 10u8,
    {
    let line = spec_marker(ty) + seq![10u8];
    lemma_marker_shape(ty);
    assert(spec_marker(ty).is_prefix_of(line)) by {
        assert(line.subrange(0, spec_marker(ty).len() as int) =~= spec_marker(ty));
    }
    match ty {
        SectionType::Lua => {},
        SectionType::Gfx => {
            assert(!spec_marker(SectionType::Lua).is_prefix_of(line)) by {
                if spec_marker(SectionType::Lua).is_prefix_of(line) {
                    assert(spec_marker(SectionType::Lua)[2] == line[2]);
                }
            }
        },
        SectionType::Gff => {
            assert(!spec_marker(SectionType::Lua).is_prefix_of(line)) by {
                if spec_marker(SectionType::Lua).is_prefix_of(line) {
                    assert(spec_marker(SectionType::Lua)[2] == line[2]);
                }
            }
            assert(!spec_marker(SectionType::Gfx).is_prefix_of(line)) by {
                if spec_marker(SectionType::Gfx).is_prefix_of(line) {
                    assert(spec_marker(SectionType::Gfx)[4] == line[4]);
                }
            }
        },
        SectionType::Label => {
            assert(!spec_marker(SectionType::Lua).is_prefix_of(line)) by {
                if spec_marker(SectionType::Lua).is_prefix_of(line) {
                    assert(spec_marker(SectionType::Lua)[3] == line[3]);
                }
            }
            assert(!spec_marker(SectionType::Gfx).is_prefix_of(line)) by {
                if spec_marker(SectionType::Gfx).is_prefix_of(line) {
                    assert(spec_marker(SectionType::Gfx)[2] == line[2]);
                }
            }
            assert(!spec_marker(SectionType::Gff).is_prefix_of(line)) by {
                if spec_marker(SectionType::Gff).is_prefix_of(line) {
                    assert(spec_marker(SectionType::Gff)[2] == line[2]);
                }
            }
        },
        SectionType::TileMap => {
            assert(!spec_marker(SectionType::Lua).is_prefix_of(line)) by {
                if spec_marker(SectionType::Lua).is_prefix_of(line) {
                    assert(spec_marker(SectionType::Lua)[2] == line[2]);
                }
            }
            assert(!spec_marker(SectionType::Gfx).is_prefix_of(line)) by {
                if spec_marker(SectionType::Gfx).is_prefix_of(line) {
                    assert(spec_marker(SectionType::Gfx)[2] == line[2]);
                }
            }
            assert(!spec_marker(SectionType::Gff).is_prefix_of(line)) by {
                if spec_marker(SectionType::Gff).is_prefix_of(line) {
                    assert(spec_marker(SectionType::Gff)[2] == line[2]);
                }
            }
            assert(!spec_marker(SectionType::Label).is_prefix_of(line)) by {
                if spec_marker(SectionType::Label).is_prefix_of(line) {
                    assert(spec_marker(SectionType::Label)[2] == line[2]);
                }
            }
        },
        SectionType::Sfx => {
            assert(!spec_marker(SectionType::Lua).is_prefix_of(line)) by {
                if spec_marker(SectionType::Lua).is_prefix_of(line) {
                    assert(spec_marker(SectionType::Lua)[2] == line[2]);
                }
            }
            assert(!spec_marker(SectionType::Gfx).is_prefix_of(line)) by {
                if spec_marker(SectionType::Gfx).is_prefix_of(line) {
                    assert(spec_marker(SectionType::Gfx)[2] == line[2]);
                }
            }
            assert(!spec_marker(SectionType::Gff).is_prefix_of(line)) by {
                if spec_marker(SectionType::Gff).is_prefix_of(line) {
                    assert(spec_marker(SectionType::Gff)[2] == line[2]);
                }
            }
            assert(!spec_marker(SectionType::Label).is_prefix_of(line)) by {
                if spec_marker(SectionType::Label).is_prefix_of(line) {
                    assert(spec_marker(SectionType::Label)[2] == line[2]);
                }
            }
            assert(!spec_marker(SectionType::TileMap).is_prefix_of(line)) by {
                if spec_marker(SectionType::TileMap).is_prefix_of(line) {
                    assert(spec_marker(SectionType::TileMap)[2] == line[2]);
                }
            }
        },
        SectionType::Music => {
            assert(!spec_marker(SectionType::Lua).is_prefix_of(line)) by {
                if spec_marker(SectionType::Lua).is_prefix_of(line) {
                    assert(spec_marker(SectionType::Lua)[2] == line[2]);
                }
            }
            assert(!spec_marker(SectionType::Gfx).is_prefix_of(line)) by {
                if spec_marker(SectionType::Gfx).is_prefix_of(line) {
                    assert(spec_marker(SectionType::Gfx)[2] == line[2]);
                }
            }
            assert(!spec_marker(SectionType::Gff).is_prefix_of(line)) by {
                if spec_marker(SectionType::Gff).is_prefix_of(line) {
                    assert(spec_marker(SectionType::Gff)[2] == line[2]);
                }
            }
            assert(!spec_marker(SectionType::Label).is_prefix_of(line)) by {
                if spec_marker(SectionType::Label).is_prefix_of(line) {
                    assert(spec_marker(SectionType::Label)[2] == line[2]);
                }
            }
            assert(!spec_marker(SectionType::TileMap).is_prefix_of(line)) by {
                if spec_marker(SectionType::TileMap).is_prefix_of(line) {
                    assert(spec_marker(SectionType::TileMap)[3] == line[3]);
                }
            }
            assert(!spec_marker(SectionType::Sfx).is_prefix_of(line)) by {
                if spec_marker(SectionType::Sfx).is_prefix_of(line) {
                    assert(spec_marker(SectionType::Sfx)[2] == line[2]);
                }
            }
        },
    }
    assert(line.last() == 10u8);
    assert forall|i: int| 0 <= i < line.len() - 1 implies line[i] != 10u8 by {
        assert(line[i] == spec_marker(ty)[i]);
    }
    crate::bytes::lemma_lines_single(line);
}

/// Where a delimiter's slice ends: the next delimiter's offset, or `end`
/// for the last delimiter.
pub open spec fn delim_end(ds: Seq<DelimiterV>, j: int, end: int) -> int {
    if j + 1 < ds.len() {
        ds[j + 1].byte_offset
    } else {
        end
    }
}

/// Each delimiter's gap, up to where its slice ends, leaves room for its
/// whole marker line: marker plus newline.
pub open spec fn delims_gap_ok(ds: Seq<DelimiterV>, end: int) -> bool {
    forall|j: int|
        0 <= j < ds.len() ==> #[trigger] delim_end(ds, j, end) >= ds[j].byte_offset + spec_marker(
            ds[j].section_type,
        ).len() + 1
}

/// The delimiters of a newline-terminated buffer satisfy the gap property,
/// with the buffer's end at `off` plus its length.
#[verifier::rlimit(100)]
#[verifier::spinoff_prover]
pub proof fn lemma_delims_gaps(s: Seq<u8>, line_no: int, off: int)
    requires
        s.len() == 0 || s.last() == 10u8,
    ensures
        delims_gap_ok(spec_delims(spec_lines(s), line_no, off), off + s.len()),
    decreases s.len(),
{
    if s.len() > 0 {
        crate::bytes::lemma_find_byte_spec(s, 10u8);
        match crate::bytes::spec_find_byte(s, 10u8) {
            Some(i) => {
                let l0 = s.subrange(0, i + 1);
                let rest = s.subrange(i + 1, s.len() as int);
                if rest.len() > 0 {
                    assert(rest.last() == s.last());
                }
                lemma_delims_gaps(rest, line_no + 1, off + l0.len() as int);
                lemma_delims_sorted(spec_lines(rest), line_no + 1, off + l0.len() as int);
                let ds = spec_delims(spec_lines(s), line_no, off);
                let ds_rest = spec_delims(spec_lines(rest), line_no + 1, off + l0.len() as int);
                assert(spec_lines(s) == seq![l0] + spec_lines(rest));
                assert((seq![l0] + spec_lines(rest)).drop_first() =~= spec_lines(rest));
                assert((seq![l0] + spec_lines(rest))[0] == l0);
                assert(off + l0.len() + rest.len() == off + s.len());
                match spec_classify(l0) {
                    Some(ty0) => {
                        let d0 = DelimiterV {
                            section_type: ty0,
                            line_number: line_no,
                            byte_offset: off,
                        };
                        assert(ds == seq![d0] + ds_rest);
                        lemma_marker_shape(ty0);
                        assert(spec_marker(ty0).len() + 1 <= l0.len()) by {
                            if l0.len() <= spec_marker(ty0).len() {
                                assert(l0 =~= spec_marker(ty0));
                                assert(l0.last() == 95u8);
                                assert(l0.last() == s[i]);
                            }
                        }
                        if ds_rest.len() > 0 {
                            assert(ds_rest[0].byte_offset >= off + l0.len());
                        }
                        lemma_gap_ok_cons(d0, ds_rest, off + s.len());
                    },
                    None => {
                        assert(ds == ds_rest);
                    },
                }
            },
            None => {
                assert(s[s.len() - 1] == 10u8);
            },
        }
    }
}

/// Under the gap property, every delimiter's whole marker line fits the
/// buffer.
pub proof fn lemma_gaps_offsets_bounded(buf_len: int, ds: Seq<DelimiterV>)
    requires
        delims_gap_ok(ds, buf_len),
    ensures
        forall|j: int|
            0 <= j < ds.len() ==> (#[trigger] ds[j]).byte_offset + spec_marker(
                ds[j].section_type,
            ).len() + 1 <= buf_len,
    decreases ds.len(),
{
    if ds.len() > 0 {
        lemma_gap_ok_drop_first(buf_len, ds);
        lemma_gaps_offsets_bounded(buf_len, ds.drop_first());
        assert forall|j: int|
            0 <= j < ds.len() implies (#[trigger] ds[j]).byte_offset + spec_marker(
            ds[j].section_type,
        ).len() + 1 <= buf_len by {
            assert(delim_end(ds, j, buf_len) >= ds[j].byte_offset + spec_marker(
                ds[j].section_type,
            ).len() + 1);
            if j == 0 {
                if ds.len() > 1 {
                    assert(ds.drop_first()[0] == ds[1]);
                    assert(ds[1].byte_offset + spec_marker(ds[1].section_type).len() + 1
                        <= buf_len);
                }
            } else {
                assert(ds.drop_first()[j - 1] == ds[j]);
            }
        }
    }
}

/// The gap property carries over to the tail of a delimiter list.
proof fn lemma_gap_ok_drop_first(end: int, ds: Seq<DelimiterV>)
    requires
        delims_gap_ok(ds, end),
        ds.len() > 0,
    ensures
        delims_gap_ok(ds.drop_first(), end),
{
    let rest = ds.drop_first();
    assert forall|j: int| 0 <= j < rest.len() implies #[trigger] delim_end(rest, j, end)
        >= rest[j].byte_offset + spec_marker(rest[j].section_type).len() + 1 by {
        assert(rest[j] == ds[j + 1]);
        if j + 1 < rest.len() {
            assert(rest[j + 1] == ds[j + 2]);
        }
        assert(delim_end(ds, j + 1, end) >= ds[j + 1].byte_offset + spec_marker(
            ds[j + 1].section_type,
        ).len() + 1);
    }
}

/// The gap property extends over a new first delimiter whose marker line
/// fits before the old first delimiter (or before `end` when none follows).
proof fn lemma_gap_ok_cons(d0: DelimiterV, rest: Seq<DelimiterV>, end: int)
    requires
        delims_gap_ok(rest, end),
        rest.len() > 0 ==> rest[0].byte_offset >= d0.byte_offset + spec_marker(
            d0.section_type,
        ).len() + 1,
        rest.len() == 0 ==> end >= d0.byte_offset + spec_marker(d0.section_type).len() + 1,
    ensures
        delims_gap_ok(seq![d0] + rest, end),
{
    let ds = seq![d0] + rest;
    assert forall|j: int| 0 <= j < ds.len() implies #[trigger] delim_end(ds, j, end)
        >= ds[j].byte_offset + spec_marker(ds[j].section_type).len() + 1 by {
        if j == 0 {
            if ds.len() > 1 {
                assert(ds[1] == rest[0]);
            }
        } else {
            assert(ds[j] == rest[j - 1]);
            if j + 1 < ds.len() {
                assert(ds[j + 1] == rest[j]);
            }
            assert(delim_end(rest, j - 1, end) >= rest[j - 1].byte_offset + spec_marker(
                rest[j - 1].section_type,
            ).len() + 1);
        }
    }
}

/// Under the gap property, with non-negative offsets, every delimiter
/// yields a section: the slicer drops nothing, and each section carries its
/// delimiter's kind and line number and the bytes from the end of its
/// marker line to the next delimiter's offset (or the buffer's end).
pub open spec fn sections_match(buf: Seq<u8>, ds: Seq<DelimiterV>, secs: Seq<SectionV>) -> bool {
    &&& secs.len() == ds.len()
    &&& forall|j: int|
        0 <= j < ds.len() ==> (#[trigger] secs[j]).section_type == ds[j].section_type
            && secs[j].line_number == ds[j].line_number && secs[j].data == buf.subrange(
            ds[j].byte_offset + spec_marker(ds[j].section_type).len() + 1,
            delim_end(ds, j, buf.len() as int),
        )
}

/// A matching tail and a matching first section match the whole list.
proof fn lemma_sections_match_cons(
    buf: Seq<u8>,
    ds: Seq<DelimiterV>,
    head: SectionV,
    rest_secs: Seq<SectionV>,
)
    requires
        ds.len() > 0,
        sections_match(buf, ds.drop_first(), rest_secs),
        head.section_type == ds[0].section_type,
        head.line_number == ds[0].line_number,
        head.data == buf.subrange(
            ds[0].byte_offset + spec_marker(ds[0].section_type).len() + 1,
            delim_end(ds, 0, buf.len() as int),
        ),
    ensures
        sections_match(buf, ds, seq![head] + rest_secs),
{
    let secs = seq![head] + rest_secs;
    assert forall|j: int|
        0 <= j < ds.len() implies (#[trigger] secs[j]).section_type == ds[j].section_type
        && secs[j].line_number == ds[j].line_number && secs[j].data == buf.subrange(
        ds[j].byte_offset + spec_marker(ds[j].section_type).len() + 1,
        delim_end(ds, j, buf.len() as int),
    ) by {
        if j > 0 {
            assert(secs[j] == rest_secs[j - 1]);
            assert(ds.drop_first()[j - 1] == ds[j]);
            if j + 1 < ds.len() {
                assert(ds.drop_first()[j] == ds[j + 1]);
            }
            assert((#[trigger] rest_secs[j - 1]).section_type == ds.drop_first()[j
                - 1].section_type && rest_secs[j - 1].line_number == ds.drop_first()[j
                - 1].line_number && rest_secs[j - 1].data == buf.subrange(
                ds.drop_first()[j - 1].byte_offset + spec_marker(
                    ds.drop_first()[j - 1].section_type,
                ).len() + 1,
                delim_end(ds.drop_first(), j - 1, buf.len() as int),
            ));
        }
    }
}

/// Under the gap property, with non-negative offsets, the slicer drops
/// nothing: the sections match the delimiters one for one.
pub proof fn lemma_sections_emit_all(buf: Seq<u8>, ds: Seq<DelimiterV>)
    requires
        forall|j: int| 0 <= j < ds.len() ==> (#[trigger] ds[j]).byte_offset >= 0,
        delims_gap_ok(ds, buf.len() as int),
    ensures
        sections_match(buf, ds, spec_sections(buf, ds)),
    decreases ds.len(),
{
    if ds.len() > 0 {
        lemma_gaps_offsets_bounded(buf.len() as int, ds);
        lemma_gap_ok_drop_first(buf.len() as int, ds);
        assert forall|j: int|
            0 <= j < ds.drop_first().len() implies (#[trigger] ds.drop_first()[j]).byte_offset
            >= 0 by {
            assert(ds.drop_first()[j] == ds[j + 1]);
        }
        lemma_sections_emit_all(buf, ds.drop_first());
        let d = ds[0];
        let start = d.byte_offset + spec_marker(d.section_type).len() + 1;
        let end = if ds.len() == 1 {
            buf.len() as int
        } else {
            ds[1].byte_offset
        };
        assert(end == delim_end(ds, 0, buf.len() as int));
        assert(start <= end) by {
            assert(delim_end(ds, 0, buf.len() as int) >= ds[0].byte_offset + spec_marker(
                ds[0].section_type,
            ).len() + 1);
        }
        assert(end <= buf.len()) by {
            if ds.len() > 1 {
                assert(ds[1].byte_offset + spec_marker(ds[1].section_type).len() + 1 <= buf.len());
            }
        }
        let head = SectionV {
            section_type: d.section_type,
            line_number: d.line_number,
            data: buf.subrange(start, end),
        };
        assert(spec_sections(buf, ds) == seq![head] + spec_sections(buf, ds.drop_first()));
        lemma_sections_match_cons(buf, ds, head, spec_sections(buf, ds.drop_first()));
    }
}

/// The delimiters of two line lists in sequence are the delimiters of the
/// first followed by those of the second, with its counters advanced over
/// the first list.
pub proof fn lemma_delims_append(la: Seq<Seq<u8>>, lb: Seq<Seq<u8>>, line_no: int, off: int)
    ensures
        spec_delims(la + lb, line_no, off) == spec_delims(la, line_no, off) + spec_delims(
            lb,
            line_no + la.len(),
            off + crate::bytes::spec_sum_lens(la, la.len() as int),
        ),
    decreases la.len(),
{
    if la.len() == 0 {
        assert(la + lb =~= lb);
        assert(crate::bytes::spec_sum_lens(la, 0) == 0);
        assert(spec_delims(la, line_no, off) + spec_delims(lb, line_no, off) =~= spec_delims(
            lb,
            line_no,
            off,
        ));
    } else {
        assert((la + lb).drop_first() =~= la.drop_first() + lb);
        assert((la + lb)[0] == la[0]);
        lemma_delims_append(la.drop_first(), lb, line_no + 1, off + la[0].len() as int);
        crate::bytes::lemma_sum_lens_shift(la, la.len() as int);
        match spec_classify(la[0]) {
            Some(ty) => {
                let d0 = DelimiterV {
                    section_type: ty,
                    line_number: line_no,
                    byte_offset: off,
                };
                assert(spec_delims(la + lb, line_no, off) =~= (seq![d0] + spec_delims(
                    la.drop_first(),
                    line_no + 1,
                    off + la[0].len() as int,
                )) + spec_delims(
                    lb,
                    line_no + la.len(),
                    off + crate::bytes::spec_sum_lens(la, la.len() as int),
                ));
                assert(spec_delims(la, line_no, off) == seq![d0] + spec_delims(
                    la.drop_first(),
                    line_no + 1,
                    off + la[0].len() as int,
                ));
            },
            None => {},
        }
    }
}

/// Shifts every delimiter's byte offset by `d`.
pub open spec fn shift_delims(ds: Seq<DelimiterV>, d: int) -> Seq<DelimiterV> {
    ds.map_values(
        |x: DelimiterV|
            DelimiterV {
                section_type: x.section_type,
                line_number: x.line_number,
                byte_offset: x.byte_offset + d,
            },
    )
}

/// Scanning with a moved byte-offset counter shifts every delimiter's
/// offset by the move.
pub proof fn lemma_delims_shift(lines: Seq<Seq<u8>>, line_no: int, off: int, d: int)
    ensures
        spec_delims(lines, line_no, off + d) == shift_delims(spec_delims(lines, line_no, off), d),
    decreases lines.len(),
{
    if lines.len() == 0 {
        assert(spec_delims(lines, line_no, off + d) =~= shift_delims(
            spec_delims(lines, line_no, off),
            d,
        ));
    } else {
        lemma_delims_shift(lines.drop_first(), line_no + 1, off + lines[0].len() as int, d);
        match spec_classify(lines[0]) {
            Some(ty) => {
                assert(spec_delims(lines, line_no, off + d) =~= shift_delims(
                    spec_delims(lines, line_no, off),
                    d,
                ));
            },
            None => {
                assert(spec_delims(lines, line_no, off + d) =~= shift_delims(
                    spec_delims(lines, line_no, off),
                    d,
                ));
            },
        }
    }
}

/// Slicing a suffix buffer with delimiters shifted past a prefix gives the
/// same sections as slicing the suffix alone.
pub proof fn lemma_sections_shift(a: Seq<u8>, b: Seq<u8>, ds: Seq<DelimiterV>)
    requires
        forall|k: int| 0 <= k < ds.len() ==> (#[trigger] ds[k]).byte_offset >= 0,
    ensures
        spec_sections(a + b, shift_delims(ds, a.len() as int)) == spec_sections(b, ds),
    decreases ds.len(),
{
    let shifted = shift_delims(ds, a.len() as int);
    if ds.len() == 0 {
        assert(shifted =~= Seq::<DelimiterV>::empty());
    } else {
        assert forall|k: int|
            0 <= k < ds.drop_first().len() implies (#[trigger] ds.drop_first()[k]).byte_offset
            >= 0 by {
            assert(ds[k + 1].byte_offset >= 0);
        }
        lemma_sections_shift(a, b, ds.drop_first());
        assert(shifted.drop_first() =~= shift_delims(ds.drop_first(), a.len() as int));
        let d = ds[0];
        let start = d.byte_offset + spec_marker(d.section_type).len() + 1;
        let end = if ds.len() == 1 {
            b.len() as int
        } else {
            ds[1].byte_offset
        };
        let start_s = start + a.len();
        let end_s = if shifted.len() == 1 {
            (a + b).len() as int
        } else {
            shifted[1].byte_offset
        };
        assert(shifted[0] == (DelimiterV {
            section_type: d.section_type,
            line_number: d.line_number,
            byte_offset: d.byte_offset + a.len(),
        }));
        if ds.len() > 1 {
            assert(shifted[1].byte_offset == ds[1].byte_offset + a.len());
        }
        assert(end_s == end + a.len());
        if start <= end && end <= b.len() {
            assert((a + b).subrange(start_s, end_s) =~= b.subrange(start, end));
            assert(spec_sections(a + b, shifted) =~= spec_sections(b, ds));
        } else {
            assert(spec_sections(a + b, shifted) =~= spec_sections(b, ds));
        }
    }
}

/// A line that classifies to a kind gives a delimiter of that kind.
pub proof fn lemma_delims_has_type(lines: Seq<Seq<u8>>, line_no: int, off: int, ty: SectionType)
    requires
        exists|k: int|
            0 <= k < lines.len() && spec_classify(#[trigger] lines[k]) == Some(ty),
    ensures
        exists|j: int|
            0 <= j < spec_delims(lines, line_no, off).len() && (#[trigger] spec_delims(
                lines,
                line_no,
                off,
            )[j]).section_type == ty,
    decreases lines.len(),
{
    let k = choose|k: int| 0 <= k < lines.len() && spec_classify(#[trigger] lines[k]) == Some(ty);
    let ds = spec_delims(lines, line_no, off);
    let ds_rest = spec_delims(lines.drop_first(), line_no + 1, off + lines[0].len() as int);
    if k == 0 {
        assert(ds[0].section_type == ty);
    } else {
        assert(spec_classify(lines.drop_first()[k - 1]) == Some(ty));
        lemma_delims_has_type(lines.drop_first(), line_no + 1, off + lines[0].len() as int, ty);
        let j = choose|j: int|
            0 <= j < ds_rest.len() && (#[trigger] ds_rest[j]).section_type == ty;
        match spec_classify(lines[0]) {
            Some(ty0) => {
                let d0 = DelimiterV {
                    section_type: ty0,
                    line_number: line_no,
                    byte_offset: off,
                };
                assert(ds == seq![d0] + ds_rest);
                assert(ds[j + 1] == ds_rest[j]);
                assert(0 <= j + 1 < ds.len() && ds[j + 1].section_type == ty);
            },
            None => {
                assert(ds == ds_rest);
                assert(0 <= j < ds.len() && ds[j].section_type == ty);
            },
        }
    }
}

/// Returns the section delimiters of the buffer, in line order: one for
/// each line that starts with a section marker, carrying the line's number
/// (seeded at `line_number_offset + 1`, or at 1 when no offset is given)
/// and the byte offset of the line's first byte.
pub fn get_section_delimiters(cart_src: &[u8], line_number_offset: Option<usize>) -> (r: Vec<
    SectionDelimiter,
>)
    requires
        (match line_number_offset {
            Some(o) => o as int,
            None => 0,
        }) + cart_src@.len() + 1 <= usize::MAX,
    ensures
        r.deep_view() == spec_delims(
            spec_lines(cart_src@),
            (match line_number_offset {
                Some(o) => o as int,
                None => 0,
            }) + 1,
            0,
        ),
{
    let base: usize = match line_number_offset {
        Some(o) => o,
        None => 0,
    };
    let ghost src_len = cart_src@.len() as int;
    let ghost full = spec_delims(spec_lines(cart_src@), base + 1, 0);
    let mut it = NewlineIter::new(cart_src);
    let mut out: Vec<SectionDelimiter> = Vec::new();
    let mut ln: usize = base + 1;
    let mut off: usize = 0;
    loop
        invariant_except_break
            out.deep_view() + spec_delims(spec_lines_state(it@), ln as int, off as int) == full,
            ln as int - (base + 1) <= off as int,
            base + src_len + 1 <= usize::MAX,
            match it@ {
                Some(s) => off + s.len() == src_len,
                None => off <= src_len,
            },
        ensures
            out.deep_view() == full,
        decreases spec_state_size(it@),
    {
        proof {
            lemma_line_step(it@);
        }
        let ghost prev_state = spec_lines_state(it@);
        let ghost prev_out = out.deep_view();
        match it.next_const() {
            Some(line) => {
                proof {
                    assert(prev_state =~= seq![line@] + spec_lines_state(it@));
                    assert((seq![line@] + spec_lines_state(it@)).drop_first()
                        =~= spec_lines_state(it@));
                    assert(line@.len() >= 1);
                }
                match get_line_type(line.as_slice()) {
                    Some(ty) => {
                        out.push(
                            SectionDelimiter {
                                section_type: ty,
                                line_number: ln,
                                byte_offset: off,
                            },
                        );
                        proof {
                            let head = DelimiterV {
                                section_type: ty,
                                line_number: ln as int,
                                byte_offset: off as int,
                            };
                            assert(out.deep_view() =~= prev_out + seq![head]);
                            assert(spec_delims(prev_state, ln as int, off as int) == seq![head]
                                + spec_delims(
                                spec_lines_state(it@),
                                ln as int + 1,
                                off as int + line@.len(),
                            ));
                            assert(out.deep_view() + spec_delims(
                                spec_lines_state(it@),
                                ln as int + 1,
                                off as int + line@.len(),
                            ) =~= full);
                        }
                    },
                    None => {
                        proof {
                            assert(spec_delims(prev_state, ln as int, off as int) == spec_delims(
                                spec_lines_state(it@),
                                ln as int + 1,
                                off as int + line@.len(),
                            ));
                        }
                    },
                }
                ln = ln + 1;
                off = off + line.len();
            },
            None => {
                proof {
                    assert(spec_delims(spec_lines_state(it@), ln as int, off as int)
                        =~= Seq::<DelimiterV>::empty());
                    assert(out.deep_view() =~= full);
                }
                break;
            },
        }
    }
    out
}

/// The mathematical form of a section view: its kind, the line number of
/// its marker line, and the bytes between its marker line and the next
/// marker (or the end of the buffer).
pub ghost struct SectionV {
    /// The section kind.
    pub section_type: SectionType,
    /// The 1-based line number of the section's marker line.
    pub line_number: int,
    /// The section's payload bytes, marker line excluded.
    pub data: Seq<u8>,
}

/// One marked region of the cartridge body: its kind, the line number of
/// its marker line, and its payload bytes.  The payload never includes the
/// section's own marker line nor the following marker's bytes; it may be
/// empty.
#[derive(Debug)]
pub struct Section {
    section_type: SectionType,
    line_number: usize,
    data: Vec<u8>,
}

impl View for Section {
    type V = SectionV;

    closed spec fn view(&self) -> SectionV {
        SectionV {
            section_type: self.section_type,
            line_number: self.line_number as int,
            data: self.data@,
        }
    }
}

impl DeepView for Section {
    type V = SectionV;

    open spec fn deep_view(&self) -> SectionV {
        self.view()
    }
}

impl Section {
    /// Builds a section from its parts.
    pub fn new(section_type: SectionType, line_number: usize, data: Vec<u8>) -> (r: Section)
        ensures
            r@ == (SectionV { section_type, line_number: line_number as int, data: data@ }),
    {
        Section { section_type, line_number, data }
    }

    /// The 1-based line number of the section's marker line.
    pub fn line_number(&self) -> (r: usize)
        ensures
            r as int == self@.line_number,
    {
        self.line_number
    }

    /// The section's payload bytes.
    pub fn data(&self) -> (r: &Vec<u8>)
        ensures
            r@ == self@.data,
    {
        &self.data
    }

    /// The section's kind.
    pub fn get_type(&self) -> (r: SectionType)
        ensures
            r == self@.section_type,
    {
        self.section_type
    }

    /// Takes the section apart into its kind, line number and payload.
    pub fn into_parts(self) -> (r: (SectionType, usize, Vec<u8>))
        ensures
            r.0 == self@.section_type,
            r.1 as int == self@.line_number,
            r.2@ == self@.data,
    {
        let Section { section_type, line_number, data } = self;
        (section_type, line_number, data)
    }

    /// Detaches the section from any shared storage.  Every section of this
    /// library already owns its bytes, so this returns the section
    /// unchanged.
    pub fn into_owned(self) -> (r: Section)
        ensures
            r@ == self@,
    {
        self
    }
}

/// The sections carved out of `buf` by a delimiter list: each delimiter's
/// payload starts right after its marker line's newline (marker length plus
/// one byte past its offset) and ends at the next delimiter's offset, or at
/// the end of the buffer for the last delimiter.  A delimiter whose
/// computed range does not fit the buffer yields no section.
pub open spec fn spec_sections(buf: Seq<u8>, ds: Seq<DelimiterV>) -> Seq<SectionV>
    decreases ds.len(),
{
    if ds.len() == 0 {
        Seq::empty()
    } else {
        let d = ds[0];
        let start = d.byte_offset + spec_marker(d.section_type).len() + 1;
        let end = if ds.len() == 1 {
            buf.len() as int
        } else {
            ds[1].byte_offset
        };
        let head = if start <= end && end <= buf.len() {
            seq![
                SectionV {
                    section_type: d.section_type,
                    line_number: d.line_number,
                    data: buf.subrange(start, end),
                },
            ]
        } else {
            Seq::empty()
        };
        head + spec_sections(buf, ds.drop_first())
    }
}

/// Slices the buffer into sections along the given delimiters.  The
/// delimiters are expected in ascending line order with in-bounds offsets,
/// as the scanner yields them; a delimiter whose computed byte range does
/// not fit the buffer is dropped rather than failing the whole parse.
pub fn get_sections(cart_src: &[u8], delimiters: Vec<SectionDelimiter>) -> (r: Vec<Section>)
    ensures
        r.deep_view() == spec_sections(cart_src@, delimiters.deep_view()),
{
    let n = delimiters.len();
    let buf_len = cart_src.len();
    let mut out: Vec<Section> = Vec::new();
    let mut i: usize = 0;
    proof {
        assert(delimiters.deep_view().subrange(0, n as int) =~= delimiters.deep_view());
        assert(out.deep_view() + spec_sections(cart_src@, delimiters.deep_view())
            =~= spec_sections(cart_src@, delimiters.deep_view()));
    }
    while i < n
        invariant
            0 <= i <= n,
            n == delimiters@.len(),
            buf_len == cart_src@.len(),
            out.deep_view() + spec_sections(
                cart_src@,
                delimiters.deep_view().subrange(i as int, n as int),
            ) == spec_sections(cart_src@, delimiters.deep_view()),
        decreases n - i,
    {
        let ghost tail = delimiters.deep_view().subrange(i as int, n as int);
        let ghost prev_out = out.deep_view();
        proof {
            assert(tail.drop_first() =~= delimiters.deep_view().subrange(i + 1, n as int));
            assert(tail[0] == delimiters@[i as int].deep_view());
        }
        let d = delimiters[i];
        let marker = marker_bytes(d.section_type);
        let end: usize = if i + 1 < n {
            delimiters[i + 1].byte_offset
        } else {
            buf_len
        };
        proof {
            if i + 1 < n {
                assert(tail[1] == delimiters@[i + 1].deep_view());
            }
        }
        if end <= buf_len && d.byte_offset <= end && end - d.byte_offset > marker.len() {
            let start = d.byte_offset + marker.len() + 1;
            let data = crate::bytes::subrange_vec(cart_src, start, end);
            out.push(Section::new(d.section_type, d.line_number, data));
            proof {
                let head = SectionV {
                    section_type: d@.section_type,
                    line_number: d@.line_number,
                    data: cart_src@.subrange(start as int, end as int),
                };
                assert(out.deep_view() =~= prev_out + seq![head]);
                assert(spec_sections(cart_src@, tail) == seq![head] + spec_sections(
                    cart_src@,
                    tail.drop_first(),
                ));
            }
        } else {
            proof {
                assert(spec_sections(cart_src@, tail) == spec_sections(
                    cart_src@,
                    tail.drop_first(),
                ));
            }
        }
        i = i + 1;
    }
    proof {
        assert(delimiters.deep_view().subrange(n as int, n as int)
            =~= Seq::<DelimiterV>::empty());
        assert(out.deep_view() =~= spec_sections(cart_src@, delimiters.deep_view()));
    }
    out
}

} // verus!
