//! The round-trip law: a cartridge whose fields still look like the output
//! of a parse re-parses, after serialization, into a structurally equal
//! cartridge.
//!
//! The proof works block by block: the serialized output is the header
//! followed by one block per present section, each block a marker line and
//! its payload; scanning such a body finds exactly one delimiter per block,
//! slicing recovers each payload, and folding reassigns each slot once.

use vstd::prelude::*;

use crate::bytes::{
    join_bytes, lemma_concat_len, lemma_lines_append, lemma_lines_concat, lemma_lines_total_len,
    lemma_spans_of_join, matches_at, spec_lines, spec_spans, spec_sum_lens, spec_tab_sep_line,
};
use crate::cart::{
    lemma_delims_empty, spec_apply, spec_empty_builder, spec_empty_tabs, spec_fold,
    spec_has_tab, spec_marker_line, spec_parse, spec_serialize, spec_tabs_bytes, spec_tabs_of,
    AssetV, BuilderV, CartV, TabV,
};
use crate::header::spec_split_header;
use crate::section::{
    lemma_delims_append, lemma_delims_shift, lemma_delims_sorted, lemma_marker_line_classify,
    lemma_sections_shift, shift_delims, spec_classify, spec_delims, spec_marker, spec_sections,
    DelimiterV, SectionType, SectionV,
};

verus! {

/// No line of the payload classifies as a section marker.
pub open spec fn data_clean(d: Seq<u8>) -> bool {
    forall|k: int|
        0 <= k < spec_lines(d).len() ==> spec_classify(#[trigger] spec_lines(d)[k]) is None
}

/// The payload is empty or ends with a newline.
pub open spec fn term_or_empty(d: Seq<u8>) -> bool {
    d.len() == 0 || d.last() == 10u8
}

/// One serialized block: a section kind and its payload.
pub ghost struct BlockV {
    /// The section kind whose marker line opens the block.
    pub section_type: SectionType,
    /// The payload that follows the marker line.
    pub data: Seq<u8>,
}

/// The bytes of a list of blocks: each block is its marker line followed by
/// its payload.
pub open spec fn blocks_bytes(bs: Seq<BlockV>) -> Seq<u8>
    decreases bs.len(),
{
    if bs.len() == 0 {
        Seq::empty()
    } else {
        (spec_marker_line(bs[0].section_type) + bs[0].data) + blocks_bytes(bs.drop_first())
    }
}

/// Block bytes distribute over concatenation of block lists.
pub proof fn lemma_blocks_bytes_append(b1: Seq<BlockV>, b2: Seq<BlockV>)
    ensures
        blocks_bytes(b1 + b2) == blocks_bytes(b1) + blocks_bytes(b2),
    decreases b1.len(),
{
    if b1.len() == 0 {
        assert(b1 + b2 =~= b2);
        assert(blocks_bytes(b1) + blocks_bytes(b2) =~= blocks_bytes(b2));
    } else {
        assert((b1 + b2).drop_first() =~= b1.drop_first() + b2);
        assert((b1 + b2)[0] == b1[0]);
        lemma_blocks_bytes_append(b1.drop_first(), b2);
        assert(blocks_bytes(b1 + b2) =~= blocks_bytes(b1) + blocks_bytes(b2));
    }
}

/// The delimiters a block list's bytes produce, scanning from line `ln`.
pub open spec fn body_delims(bs: Seq<BlockV>, ln: int) -> Seq<DelimiterV> {
    spec_delims(spec_lines(blocks_bytes(bs)), ln, 0)
}

/// The sections a block list's bytes slice into.
pub open spec fn body_sections(bs: Seq<BlockV>, ln: int) -> Seq<SectionV> {
    spec_sections(blocks_bytes(bs), body_delims(bs, ln))
}

/// Parsing the bytes of a clean block list recovers the blocks: one section
/// per block, with the block's kind and payload.  Every payload must be
/// free of marker lines, and every payload but the last newline-terminated
/// or empty.
pub proof fn lemma_body_parse(bs: Seq<BlockV>, ln: int)
    requires
        forall|k: int| 0 <= k < bs.len() ==> data_clean((#[trigger] bs[k]).data),
        forall|k: int| 0 <= k < bs.len() - 1 ==> term_or_empty((#[trigger] bs[k]).data),
    ensures
        body_delims(bs, ln).len() == bs.len(),
        bs.len() > 0 ==> body_delims(bs, ln)[0].byte_offset == 0,
        body_sections(bs, ln).len() == bs.len(),
        forall|k: int|
            0 <= k < bs.len() ==> (#[trigger] body_sections(bs, ln)[k]).section_type
                == bs[k].section_type && body_sections(bs, ln)[k].data == bs[k].data,
    decreases bs.len(),
{
    if bs.len() > 0 {
        let b0 = bs[0];
        let ml0 = spec_marker_line(b0.section_type);
        let block0 = ml0 + b0.data;
        let rest = bs.drop_first();
        let rest_bytes = blocks_bytes(rest);
        let body = blocks_bytes(bs);
        assert(body == block0 + rest_bytes);
        lemma_marker_line_classify(b0.section_type);
        assert(spec_lines(ml0) == seq![ml0]);
        let d0 = DelimiterV {
            section_type: b0.section_type,
            line_number: ln,
            byte_offset: 0,
        };
        assert(data_clean(b0.data));
        if rest.len() == 0 {
            assert(rest_bytes =~= Seq::<u8>::empty());
            assert(body =~= ml0 + b0.data);
            lemma_lines_append(ml0, b0.data);
            assert(spec_lines(body) == seq![ml0] + spec_lines(b0.data));
            lemma_delims_append(seq![ml0], spec_lines(b0.data), ln, 0);
            assert(seq![ml0] + spec_lines(b0.data) =~= Seq::<Seq<u8>>::empty().push(ml0)
                + spec_lines(b0.data));
            assert(spec_delims(seq![ml0], ln, 0) =~= seq![d0]) by {
                assert(seq![ml0].drop_first() =~= Seq::<Seq<u8>>::empty());
                assert(spec_delims(Seq::<Seq<u8>>::empty(), ln + 1, 0 + seq![ml0][0].len() as int)
                    =~= Seq::<DelimiterV>::empty());
                assert(spec_classify(seq![ml0][0]) == Some(b0.section_type));
            }
            lemma_delims_empty(spec_lines(b0.data), ln + 1, spec_sum_lens(seq![ml0], 1));
            assert(body_delims(bs, ln) =~= seq![d0]);
            let start: int = spec_marker(b0.section_type).len() as int + 1;
            assert(start == ml0.len());
            let end = body.len() as int;
            assert(start <= end && end <= body.len());
            let head = SectionV {
                section_type: b0.section_type,
                line_number: ln,
                data: body.subrange(start, end),
            };
            assert(head.data =~= b0.data);
            assert(body_sections(bs, ln) =~= seq![head]) by {
                assert(seq![d0].drop_first() =~= Seq::<DelimiterV>::empty());
                assert(spec_sections(body, Seq::<DelimiterV>::empty()) =~= Seq::<SectionV>::empty());
                assert(seq![d0][0] == d0);
                assert(spec_sections(body, seq![d0]) =~= seq![head] + Seq::<SectionV>::empty());
            }
        } else {
            assert(term_or_empty(b0.data));
            assert forall|k: int| 0 <= k < rest.len() implies data_clean(
                (#[trigger] rest[k]).data,
            ) by {
                assert(rest[k] == bs[k + 1]);
            }
            assert forall|k: int| 0 <= k < rest.len() - 1 implies term_or_empty(
                (#[trigger] rest[k]).data,
            ) by {
                assert(rest[k] == bs[k + 1]);
            }
            let ln2 = ln + 1 + spec_lines(b0.data).len();
            lemma_body_parse(rest, ln2);
            // the line structure of the body
            lemma_lines_append(b0.data, rest_bytes);
            lemma_lines_append(ml0, b0.data + rest_bytes);
            assert(body =~= ml0 + (b0.data + rest_bytes));
            assert(spec_lines(body) == seq![ml0] + (spec_lines(b0.data) + spec_lines(rest_bytes)));
            let la = seq![ml0] + spec_lines(b0.data);
            let lb = spec_lines(rest_bytes);
            assert(spec_lines(body) =~= la + lb);
            // delimiters of the body
            lemma_delims_append(la, lb, ln, 0);
            assert(spec_sum_lens(la, la.len() as int) == block0.len()) by {
                lemma_concat_len(la);
                assert(crate::bytes::concat_bytes(la) =~= ml0 + crate::bytes::concat_bytes(
                    spec_lines(b0.data),
                )) by {
                    assert(la.drop_first() =~= spec_lines(b0.data));
                }
                lemma_lines_concat(b0.data);
            }
            lemma_delims_append(seq![ml0], spec_lines(b0.data), ln, 0);
            assert(la =~= seq![ml0] + spec_lines(b0.data));
            assert(spec_delims(seq![ml0], ln, 0) =~= seq![d0]) by {
                assert(seq![ml0].drop_first() =~= Seq::<Seq<u8>>::empty());
                assert(spec_delims(Seq::<Seq<u8>>::empty(), ln + 1, 0 + seq![ml0][0].len() as int)
                    =~= Seq::<DelimiterV>::empty());
                assert(spec_classify(seq![ml0][0]) == Some(b0.section_type));
            }
            lemma_delims_empty(spec_lines(b0.data), ln + 1, spec_sum_lens(seq![ml0], 1));
            assert(spec_delims(la, ln, 0) =~= seq![d0]);
            assert(la.len() == 1 + spec_lines(b0.data).len());
            let ds_rest = body_delims(rest, ln2);
            lemma_delims_shift(lb, ln2, 0, block0.len() as int);
            assert(spec_delims(lb, ln2, block0.len() as int) == shift_delims(
                ds_rest,
                block0.len() as int,
            ));
            let shifted = shift_delims(ds_rest, block0.len() as int);
            assert(body_delims(bs, ln) == seq![d0] + shifted);
            assert(body_delims(bs, ln).len() == bs.len());
            assert(body_delims(bs, ln)[0].byte_offset == 0);
            // sections of the body
            let ds = seq![d0] + shifted;
            assert(ds[1] == shifted[0]);
            assert(shifted[0].byte_offset == ds_rest[0].byte_offset + block0.len());
            assert(ds_rest[0].byte_offset == 0);
            let start: int = spec_marker(b0.section_type).len() as int + 1;
            assert(start == ml0.len());
            let end = ds[1].byte_offset;
            assert(end == block0.len());
            assert(start <= end && end <= body.len());
            let head = SectionV {
                section_type: b0.section_type,
                line_number: ln,
                data: body.subrange(start, end),
            };
            assert(head.data =~= b0.data);
            assert(ds.drop_first() =~= shifted);
            lemma_delims_sorted(lb, ln2, 0);
            assert forall|k: int| 0 <= k < ds_rest.len() implies (#[trigger] ds_rest[k]).byte_offset
                >= 0 by {}
            lemma_sections_shift(block0, rest_bytes, ds_rest);
            assert(spec_sections(body, shifted) == body_sections(rest, ln2));
            assert(body_sections(bs, ln) == seq![head] + body_sections(rest, ln2));
            assert forall|k: int|
                0 <= k < bs.len() implies (#[trigger] body_sections(bs, ln)[k]).section_type
                == bs[k].section_type && body_sections(bs, ln)[k].data == bs[k].data by {
                if k > 0 {
                    assert(body_sections(bs, ln)[k] == body_sections(rest, ln2)[k - 1]);
                    assert(rest[k - 1] == bs[k]);
                }
            }
        }
    }
}

/// The index of the first empty tab slot at or after `i`, or the array's
/// length when every slot from `i` on is occupied.
pub open spec fn occupied_count(tabs: Seq<Option<TabV>>, i: int) -> int
    decreases tabs.len() - i,
{
    if i < 0 || i >= tabs.len() {
        i
    } else if tabs[i] is Some {
        occupied_count(tabs, i + 1)
    } else {
        i
    }
}

/// The slots before the first empty one are occupied, and the first empty
/// one, if inside the array, is empty.
pub proof fn lemma_occupied_count(tabs: Seq<Option<TabV>>, i: int)
    requires
        0 <= i <= tabs.len(),
    ensures
        i <= occupied_count(tabs, i) <= tabs.len(),
        forall|k: int| i <= k < occupied_count(tabs, i) ==> tabs[k] is Some,
        occupied_count(tabs, i) < tabs.len() ==> tabs[occupied_count(tabs, i)] is None,
    decreases tabs.len() - i,
{
    if i < tabs.len() && tabs[i] is Some {
        lemma_occupied_count(tabs, i + 1);
    }
}

/// The codes of the occupied slots `i` up to `m`, in order.
pub open spec fn occupied_codes(tabs: Seq<Option<TabV>>, i: int, m: int) -> Seq<Seq<u8>> {
    Seq::new((m - i) as nat, |k: int| tabs[i + k]->Some_0.code_data)
}

/// Tab slots that are all empty from `i` on contribute no bytes.
pub proof fn lemma_tabs_bytes_none(tabs: Seq<Option<TabV>>, i: int)
    requires
        0 <= i,
        forall|k: int| i <= k < tabs.len() ==> tabs[k] is None,
    ensures
        spec_tabs_bytes(tabs, i) == Seq::<u8>::empty(),
    decreases tabs.len() - i,
{
    if i < tabs.len() {
        lemma_tabs_bytes_none(tabs, i + 1);
        assert(spec_tabs_bytes(tabs, i) =~= Seq::<u8>::empty());
    }
}

/// From any occupied slot past the first, the tab bytes are the separator
/// line followed by the remaining codes joined with it.
proof fn lemma_tabs_bytes_join_from(tabs: Seq<Option<TabV>>, m: int, i: int)
    requires
        1 <= i <= m <= tabs.len(),
        forall|k: int| 0 <= k < m ==> tabs[k] is Some,
        forall|k: int| m <= k < tabs.len() ==> tabs[k] is None,
    ensures
        spec_tabs_bytes(tabs, i) == if i < m {
            spec_tab_sep_line() + join_bytes(occupied_codes(tabs, i, m), spec_tab_sep_line())
        } else {
            Seq::<u8>::empty()
        },
    decreases m - i,
{
    let sep = spec_tab_sep_line();
    if i == m {
        lemma_tabs_bytes_none(tabs, i);
    } else {
        lemma_tabs_bytes_join_from(tabs, m, i + 1);
        let cs = occupied_codes(tabs, i, m);
        assert(cs[0] == tabs[i]->Some_0.code_data);
        if i + 1 == m {
            assert(cs.len() == 1);
            assert(spec_tabs_bytes(tabs, i) =~= sep + join_bytes(cs, sep));
        } else {
            assert(cs.drop_first() =~= occupied_codes(tabs, i + 1, m));
            assert(join_bytes(cs, sep) == cs[0] + sep + join_bytes(
                occupied_codes(tabs, i + 1, m),
                sep,
            ));
            assert(spec_tabs_bytes(tabs, i) =~= sep + join_bytes(cs, sep));
        }
    }
}

/// With `m` occupied slots at the front, the tab bytes are the occupied
/// codes joined with the separator line.
pub proof fn lemma_tabs_bytes_join(tabs: Seq<Option<TabV>>, m: int)
    requires
        1 <= m <= tabs.len(),
        forall|k: int| 0 <= k < m ==> tabs[k] is Some,
        forall|k: int| m <= k < tabs.len() ==> tabs[k] is None,
    ensures
        spec_tabs_bytes(tabs, 0) == join_bytes(occupied_codes(tabs, 0, m), spec_tab_sep_line()),
    decreases m,
{
    let sep = spec_tab_sep_line();
    let cs = occupied_codes(tabs, 0, m);
    assert(cs[0] == tabs[0]->Some_0.code_data);
    lemma_tabs_bytes_join_from(tabs, m, 1);
    if m == 1 {
        assert(cs.len() == 1);
        assert(spec_tabs_bytes(tabs, 0) =~= join_bytes(cs, sep));
    } else {
        assert(cs.drop_first() =~= occupied_codes(tabs, 1, m));
        assert(join_bytes(cs, sep) == cs[0] + sep + join_bytes(occupied_codes(tabs, 1, m), sep));
        assert(spec_tabs_bytes(tabs, 0) =~= join_bytes(cs, sep));
    }
}

/// Folding a concatenation folds the first part, then the second.
pub proof fn lemma_fold_append(s1: Seq<SectionV>, s2: Seq<SectionV>, acc: BuilderV)
    ensures
        spec_fold(s1 + s2, acc) == spec_fold(s2, spec_fold(s1, acc)),
    decreases s1.len(),
{
    if s1.len() == 0 {
        assert(s1 + s2 =~= s2);
    } else {
        assert((s1 + s2).drop_first() =~= s1.drop_first() + s2);
        assert((s1 + s2)[0] == s1[0]);
        lemma_fold_append(s1.drop_first(), s2, spec_apply(acc, s1[0]));
    }
}

/// Folding a single section applies it once.
pub proof fn lemma_fold_singleton(sec: SectionV, acc: BuilderV)
    ensures
        spec_fold(seq![sec], acc) == spec_apply(acc, sec),
{
    assert(seq![sec].drop_first() =~= Seq::<SectionV>::empty());
    assert(spec_fold(Seq::<SectionV>::empty(), spec_apply(acc, sec)) == spec_apply(acc, sec));
}

/// Two tab slots agree structurally: equally absent, or holding the same
/// code bytes.
pub open spec fn tab_slot_like(x: Option<TabV>, y: Option<TabV>) -> bool {
    match x {
        Option::None => y is None,
        Option::Some(a) => match y {
            Option::None => false,
            Option::Some(b) => a.code_data == b.code_data,
        },
    }
}

/// Two optional sections agree structurally: equally absent, or holding the
/// same payload bytes.
pub open spec fn asset_like(x: Option<AssetV>, y: Option<AssetV>) -> bool {
    match x {
        Option::None => y is None,
        Option::Some(a) => match y {
            Option::None => false,
            Option::Some(b) => a.asset_data == b.asset_data,
        },
    }
}

/// Two cartridges agree structurally: same header bytes (hence the same
/// version), the same set of present sections with the same payload bytes,
/// and the same tab slots with the same code bytes.  Line numbers are
/// bookkeeping recomputed by every parse and take no part.
pub open spec fn structurally_equal(a: CartV, b: CartV) -> bool {
    &&& a.header == b.header
    &&& a.code_tabs.len() == b.code_tabs.len()
    &&& forall|i: int|
        0 <= i < a.code_tabs.len() ==> tab_slot_like(
            #[trigger] a.code_tabs[i],
            b.code_tabs[i],
        )
    &&& a.gfx.asset_data == b.gfx.asset_data
    &&& asset_like(a.label, b.label)
    &&& asset_like(a.gff, b.gff)
    &&& asset_like(a.tile_map, b.tile_map)
    &&& asset_like(a.sfx, b.sfx)
    &&& asset_like(a.music, b.music)
}

/// A cartridge in the shape every successful parse produces, which is the
/// shape that survives a serialize-and-reparse round trip:
/// - the header is exactly two newline-terminated lines, the second one
///   valid UTF-8;
/// - the sixteen tab slots are occupied from slot 0 on without holes, no
///   tab's code reaches a separator line before the separator that
///   serialization re-inserts after it, and the last occupied tab's code
///   holds no separator line at all;
/// - no payload contains a line that classifies as a section marker;
/// - every payload that another section follows in the canonical output
///   order (code, graphics, label, sprite flags, tile map, sound, music)
///   ends with a newline or is empty.
pub open spec fn round_trip_ready(c: CartV) -> bool {
    &&& spec_lines(c.header).len() == 2
    &&& c.header.len() > 0
    &&& c.header.last() == 10u8
    &&& vstd::utf8::valid_utf8(spec_lines(c.header)[1])
    &&& c.code_tabs.len() == 16
    &&& (forall|i: int, j: int|
        0 <= i < j < 16 && (#[trigger] c.code_tabs[j]) is Some ==> (
        #[trigger] c.code_tabs[i]) is Some)
    &&& (forall|i: int, p: int|
        0 <= i < 15 && c.code_tabs[i] is Some && c.code_tabs[i + 1] is Some && 0 <= p
            < c.code_tabs[i]->Some_0.code_data.len() ==> !(#[trigger] matches_at(
            c.code_tabs[i]->Some_0.code_data + spec_tab_sep_line(),
            spec_tab_sep_line(),
            p,
        )))
    &&& (forall|i: int, p: int|
        0 <= i < 16 && c.code_tabs[i] is Some && (i == 15 || c.code_tabs[i + 1] is None)
            ==> !(#[trigger] matches_at(
            c.code_tabs[i]->Some_0.code_data,
            spec_tab_sep_line(),
            p,
        )))
    &&& data_clean(spec_tabs_bytes(c.code_tabs, 0))
    &&& data_clean(c.gfx.asset_data)
    &&& (c.label matches Some(a) ==> data_clean(a.asset_data))
    &&& (c.gff matches Some(a) ==> data_clean(a.asset_data))
    &&& (c.tile_map matches Some(a) ==> data_clean(a.asset_data))
    &&& (c.sfx matches Some(a) ==> data_clean(a.asset_data))
    &&& (c.music matches Some(a) ==> data_clean(a.asset_data))
    &&& (spec_has_tab(c.code_tabs) ==> term_or_empty(spec_tabs_bytes(c.code_tabs, 0)))
    &&& ((c.label is Some || c.gff is Some || c.tile_map is Some || c.sfx is Some
        || c.music is Some) ==> term_or_empty(c.gfx.asset_data))
    &&& ((c.gff is Some || c.tile_map is Some || c.sfx is Some || c.music is Some)
        && c.label is Some ==> term_or_empty(c.label->Some_0.asset_data))
    &&& ((c.tile_map is Some || c.sfx is Some || c.music is Some) && c.gff is Some
        ==> term_or_empty(c.gff->Some_0.asset_data))
    &&& ((c.sfx is Some || c.music is Some) && c.tile_map is Some ==> term_or_empty(
        c.tile_map->Some_0.asset_data,
    ))
    &&& (c.music is Some && c.sfx is Some ==> term_or_empty(c.sfx->Some_0.asset_data))
}
/// The blocks a cartridge serializes to, in canonical order: the code
/// section when any tab slot is occupied, the graphics section, then each
/// present optional section.
pub open spec fn spec_blocks(c: CartV) -> Seq<BlockV> {
    (if spec_has_tab(c.code_tabs) {
        seq![BlockV { section_type: SectionType::Lua, data: spec_tabs_bytes(c.code_tabs, 0) }]
    } else {
        Seq::<BlockV>::empty()
    }) + seq![BlockV { section_type: SectionType::Gfx, data: c.gfx.asset_data }] + (match c.label {
        Option::Some(a) => seq![BlockV { section_type: SectionType::Label, data: a.asset_data }],
        Option::None => Seq::<BlockV>::empty(),
    }) + (match c.gff {
        Option::Some(a) => seq![BlockV { section_type: SectionType::Gff, data: a.asset_data }],
        Option::None => Seq::<BlockV>::empty(),
    }) + (match c.tile_map {
        Option::Some(a) => seq![BlockV { section_type: SectionType::TileMap, data: a.asset_data }],
        Option::None => Seq::<BlockV>::empty(),
    }) + (match c.sfx {
        Option::Some(a) => seq![BlockV { section_type: SectionType::Sfx, data: a.asset_data }],
        Option::None => Seq::<BlockV>::empty(),
    }) + (match c.music {
        Option::Some(a) => seq![BlockV { section_type: SectionType::Music, data: a.asset_data }],
        Option::None => Seq::<BlockV>::empty(),
    })
}

/// A single block's bytes are its marker line and its payload.
proof fn lemma_block_singleton(b: BlockV)
    ensures
        blocks_bytes(seq![b]) == spec_marker_line(b.section_type) + b.data,
{
    assert(seq![b].drop_first() =~= Seq::<BlockV>::empty());
    assert(blocks_bytes(Seq::<BlockV>::empty()) =~= Seq::<u8>::empty());
    assert(blocks_bytes(seq![b]) =~= spec_marker_line(b.section_type) + b.data);
}

/// Concatenation of byte sequences regroups freely.
proof fn lemma_concat_regroup(
    h: Seq<u8>,
    x1: Seq<u8>,
    x2: Seq<u8>,
    x3: Seq<u8>,
    x4: Seq<u8>,
    x5: Seq<u8>,
    x6: Seq<u8>,
    x7: Seq<u8>,
    x8: Seq<u8>,
)
    ensures
        h + x1 + x2 + x3 + x4 + x5 + x6 + x7 + x8 == h + ((((((x1 + (x2 + x3)) + x4) + x5) + x6)
            + x7) + x8),
{
    assert(h + x1 + x2 + x3 + x4 + x5 + x6 + x7 + x8 =~= h + ((((((x1 + (x2 + x3)) + x4) + x5)
        + x6) + x7) + x8));
}

/// Serializing a well-formed cartridge emits the header followed by its
/// blocks' bytes.
proof fn lemma_serialize_blocks(c: CartV)
    ensures
        spec_serialize(c) == c.header + blocks_bytes(spec_blocks(c)),
{
    let bs_lua: Seq<BlockV> = if spec_has_tab(c.code_tabs) {
        seq![BlockV { section_type: SectionType::Lua, data: spec_tabs_bytes(c.code_tabs, 0) }]
    } else {
        Seq::<BlockV>::empty()
    };
    let bs_gfx = seq![BlockV { section_type: SectionType::Gfx, data: c.gfx.asset_data }];
    let bs_label: Seq<BlockV> = match c.label {
        Option::Some(a) => seq![BlockV { section_type: SectionType::Label, data: a.asset_data }],
        Option::None => Seq::<BlockV>::empty(),
    };
    let bs_gff: Seq<BlockV> = match c.gff {
        Option::Some(a) => seq![BlockV { section_type: SectionType::Gff, data: a.asset_data }],
        Option::None => Seq::<BlockV>::empty(),
    };
    let bs_map: Seq<BlockV> = match c.tile_map {
        Option::Some(a) => seq![BlockV { section_type: SectionType::TileMap, data: a.asset_data }],
        Option::None => Seq::<BlockV>::empty(),
    };
    let bs_sfx: Seq<BlockV> = match c.sfx {
        Option::Some(a) => seq![BlockV { section_type: SectionType::Sfx, data: a.asset_data }],
        Option::None => Seq::<BlockV>::empty(),
    };
    let bs_music: Seq<BlockV> = match c.music {
        Option::Some(a) => seq![BlockV { section_type: SectionType::Music, data: a.asset_data }],
        Option::None => Seq::<BlockV>::empty(),
    };
    let upto_gfx = bs_lua + bs_gfx;
    let upto_label = upto_gfx + bs_label;
    let upto_gff = upto_label + bs_gff;
    let upto_map = upto_gff + bs_map;
    let upto_sfx = upto_map + bs_sfx;
    lemma_blocks_bytes_append(bs_lua, bs_gfx);
    lemma_blocks_bytes_append(upto_gfx, bs_label);
    lemma_blocks_bytes_append(upto_label, bs_gff);
    lemma_blocks_bytes_append(upto_gff, bs_map);
    lemma_blocks_bytes_append(upto_map, bs_sfx);
    lemma_blocks_bytes_append(upto_sfx, bs_music);
    assert(blocks_bytes(Seq::<BlockV>::empty()) == Seq::<u8>::empty());
    let t_lua = crate::cart::spec_lua_block(c.code_tabs);
    assert(blocks_bytes(bs_lua) == t_lua) by {
        if spec_has_tab(c.code_tabs) {
            lemma_block_singleton(bs_lua[0]);
            assert(bs_lua =~= seq![bs_lua[0]]);
        }
    }
    assert(blocks_bytes(bs_gfx) == spec_marker_line(SectionType::Gfx) + c.gfx.asset_data) by {
        lemma_block_singleton(bs_gfx[0]);
        assert(bs_gfx =~= seq![bs_gfx[0]]);
    }
    let t_label = crate::cart::spec_opt_block(SectionType::Label, c.label);
    assert(blocks_bytes(bs_label) == t_label) by {
        if c.label is Some {
            lemma_block_singleton(bs_label[0]);
            assert(bs_label =~= seq![bs_label[0]]);
        }
    }
    let t_gff = crate::cart::spec_opt_block(SectionType::Gff, c.gff);
    assert(blocks_bytes(bs_gff) == t_gff) by {
        if c.gff is Some {
            lemma_block_singleton(bs_gff[0]);
            assert(bs_gff =~= seq![bs_gff[0]]);
        }
    }
    let t_map = crate::cart::spec_opt_block(SectionType::TileMap, c.tile_map);
    assert(blocks_bytes(bs_map) == t_map) by {
        if c.tile_map is Some {
            lemma_block_singleton(bs_map[0]);
            assert(bs_map =~= seq![bs_map[0]]);
        }
    }
    let t_sfx = crate::cart::spec_opt_block(SectionType::Sfx, c.sfx);
    assert(blocks_bytes(bs_sfx) == t_sfx) by {
        if c.sfx is Some {
            lemma_block_singleton(bs_sfx[0]);
            assert(bs_sfx =~= seq![bs_sfx[0]]);
        }
    }
    let t_music = crate::cart::spec_opt_block(SectionType::Music, c.music);
    assert(blocks_bytes(bs_music) == t_music) by {
        if c.music is Some {
            lemma_block_singleton(bs_music[0]);
            assert(bs_music =~= seq![bs_music[0]]);
        }
    }
    assert(spec_blocks(c) == upto_sfx + bs_music);
    assert(blocks_bytes(spec_blocks(c)) == ((((((t_lua + (spec_marker_line(SectionType::Gfx)
        + c.gfx.asset_data)) + t_label) + t_gff) + t_map) + t_sfx) + t_music));
    lemma_concat_regroup(
        c.header,
        t_lua,
        spec_marker_line(SectionType::Gfx),
        c.gfx.asset_data,
        t_label,
        t_gff,
        t_map,
        t_sfx,
        t_music,
    );
}

/// Appending anything to a two-line header still splits off exactly the
/// header.
proof fn lemma_header_splits(header: Seq<u8>, body: Seq<u8>)
    requires
        spec_lines(header).len() == 2,
        header.len() > 0,
        header.last() == 10u8,
        vstd::utf8::valid_utf8(spec_lines(header)[1]),
    ensures
        spec_split_header(header + body) == Some((header, body)),
{
    let out = header + body;
    lemma_lines_append(header, body);
    assert(spec_lines(out) == spec_lines(header) + spec_lines(body));
    assert(spec_lines(out)[0] == spec_lines(header)[0]);
    assert(spec_lines(out)[1] == spec_lines(header)[1]);
    lemma_lines_total_len(header);
    assert(spec_sum_lens(spec_lines(header), 2) == spec_lines(header)[0].len() + spec_lines(
        header,
    )[1].len()) by {
        assert(spec_sum_lens(spec_lines(header), 0) == 0);
        assert(spec_sum_lens(spec_lines(header), 1) == spec_sum_lens(spec_lines(header), 0)
            + spec_lines(header)[0].len());
    }
    let hlen = spec_lines(out)[0].len() + spec_lines(out)[1].len();
    assert(hlen == header.len());
    assert(out.subrange(0, hlen as int) =~= header);
    assert(out.subrange(hlen as int, out.len() as int) =~= body);
}

/// The block list a ready cartridge serializes to is clean throughout, and
/// newline-terminated everywhere but in its last block.
proof fn lemma_block_conditions(c: CartV)
    requires
        round_trip_ready(c),
    ensures
        forall|k: int|
            0 <= k < spec_blocks(c).len() ==> data_clean((#[trigger] spec_blocks(c)[k]).data),
        forall|k: int|
            0 <= k < spec_blocks(c).len() - 1 ==> term_or_empty(
                (#[trigger] spec_blocks(c)[k]).data,
            ),
{
    let bs = spec_blocks(c);
    let n_lua: int = if spec_has_tab(c.code_tabs) {
        1
    } else {
        0
    };
    let n_label: int = if c.label is Some {
        1
    } else {
        0
    };
    let n_gff: int = if c.gff is Some {
        1
    } else {
        0
    };
    let n_map: int = if c.tile_map is Some {
        1
    } else {
        0
    };
    let n_sfx: int = if c.sfx is Some {
        1
    } else {
        0
    };
    assert(bs.len() == n_lua + 1 + n_label + n_gff + n_map + n_sfx + (if c.music is Some {
        1int
    } else {
        0int
    }));
    assert forall|k: int| 0 <= k < bs.len() implies data_clean((#[trigger] bs[k]).data) && (k
        < bs.len() - 1 ==> term_or_empty(bs[k].data)) by {
        if k < n_lua {
            assert(bs[k].data == spec_tabs_bytes(c.code_tabs, 0));
        } else if k == n_lua {
            assert(bs[k].data == c.gfx.asset_data);
            if k < bs.len() - 1 {
                assert(c.label is Some || c.gff is Some || c.tile_map is Some || c.sfx is Some
                    || c.music is Some);
            }
        } else if k < n_lua + 1 + n_label {
            assert(bs[k].data == c.label->Some_0.asset_data);
            if k < bs.len() - 1 {
                assert(c.gff is Some || c.tile_map is Some || c.sfx is Some || c.music is Some);
            }
        } else if k < n_lua + 1 + n_label + n_gff {
            assert(bs[k].data == c.gff->Some_0.asset_data);
            if k < bs.len() - 1 {
                assert(c.tile_map is Some || c.sfx is Some || c.music is Some);
            }
        } else if k < n_lua + 1 + n_label + n_gff + n_map {
            assert(bs[k].data == c.tile_map->Some_0.asset_data);
            if k < bs.len() - 1 {
                assert(c.sfx is Some || c.music is Some);
            }
        } else if k < n_lua + 1 + n_label + n_gff + n_map + n_sfx {
            assert(bs[k].data == c.sfx->Some_0.asset_data);
            if k < bs.len() - 1 {
                assert(c.music is Some);
            }
        } else {
            assert(bs[k].data == c.music->Some_0.asset_data);
        }
    }
}

/// Folding sections that match a cartridge's blocks one for one fills each
/// slot with that cartridge's bytes.
#[verifier::rlimit(100)]
#[verifier::spinoff_prover]
proof fn lemma_fold_blocks(c: CartV, secs: Seq<SectionV>)
    requires
        secs.len() == spec_blocks(c).len(),
        forall|k: int|
            0 <= k < secs.len() ==> (#[trigger] secs[k]).section_type == spec_blocks(
                c,
            )[k].section_type && secs[k].data == spec_blocks(c)[k].data,
    ensures
        spec_fold(secs, spec_empty_builder()).gfx matches Some(g) && g.asset_data
            == c.gfx.asset_data,
        asset_like(c.label, spec_fold(secs, spec_empty_builder()).label),
        asset_like(c.gff, spec_fold(secs, spec_empty_builder()).gff),
        asset_like(c.tile_map, spec_fold(secs, spec_empty_builder()).tile_map),
        asset_like(c.sfx, spec_fold(secs, spec_empty_builder()).sfx),
        asset_like(c.music, spec_fold(secs, spec_empty_builder()).music),
        spec_fold(secs, spec_empty_builder()).code_tabs == if spec_has_tab(c.code_tabs) {
            spec_tabs_of(secs[0].line_number, spec_tabs_bytes(c.code_tabs, 0))
        } else {
            spec_empty_tabs()
        },
{
    let e = spec_empty_builder();
    let bs = spec_blocks(c);
    let has_lua = spec_has_tab(c.code_tabs);
    let n_lua: int = if has_lua {
        1
    } else {
        0
    };
    let n_label: int = if c.label is Some {
        1
    } else {
        0
    };
    let n_gff: int = if c.gff is Some {
        1
    } else {
        0
    };
    let n_map: int = if c.tile_map is Some {
        1
    } else {
        0
    };
    let n_sfx: int = if c.sfx is Some {
        1
    } else {
        0
    };
    let n_music: int = if c.music is Some {
        1
    } else {
        0
    };
    assert(bs.len() == n_lua + 1 + n_label + n_gff + n_map + n_sfx + n_music);
    let s_lua = secs.subrange(0, n_lua);
    let s_gfx = secs.subrange(n_lua, n_lua + 1);
    let s_label = secs.subrange(n_lua + 1, n_lua + 1 + n_label);
    let s_gff = secs.subrange(n_lua + 1 + n_label, n_lua + 1 + n_label + n_gff);
    let s_map = secs.subrange(n_lua + 1 + n_label + n_gff, n_lua + 1 + n_label + n_gff + n_map);
    let s_sfx = secs.subrange(
        n_lua + 1 + n_label + n_gff + n_map,
        n_lua + 1 + n_label + n_gff + n_map + n_sfx,
    );
    let s_music = secs.subrange(
        n_lua + 1 + n_label + n_gff + n_map + n_sfx,
        n_lua + 1 + n_label + n_gff + n_map + n_sfx + n_music,
    );
    let secs_upto_gfx = s_lua + s_gfx;
    let secs_upto_label = secs_upto_gfx + s_label;
    let secs_upto_gff = secs_upto_label + s_gff;
    let secs_upto_map = secs_upto_gff + s_map;
    let secs_upto_sfx = secs_upto_map + s_sfx;
    assert(secs =~= secs_upto_sfx + s_music);
    lemma_fold_append(secs_upto_sfx, s_music, e);
    lemma_fold_append(secs_upto_map, s_sfx, e);
    lemma_fold_append(secs_upto_gff, s_map, e);
    lemma_fold_append(secs_upto_label, s_gff, e);
    lemma_fold_append(secs_upto_gfx, s_label, e);
    lemma_fold_append(s_lua, s_gfx, e);
    let acc_lua = if has_lua {
        lemma_fold_singleton(secs[0], e);
        assert(s_lua =~= seq![secs[0]]);
        assert(secs[0].section_type == SectionType::Lua);
        spec_apply(e, secs[0])
    } else {
        assert(s_lua =~= Seq::<SectionV>::empty());
        e
    };
    assert(spec_fold(s_lua, e) == acc_lua);
    assert(secs[n_lua].section_type == SectionType::Gfx);
    assert(s_gfx =~= seq![secs[n_lua]]);
    lemma_fold_singleton(secs[n_lua], acc_lua);
    let acc_gfx = spec_apply(acc_lua, secs[n_lua]);
    assert(spec_fold(secs_upto_gfx, e) == acc_gfx);
    let acc_label = if c.label is Some {
        assert(secs[n_lua + 1].section_type == SectionType::Label);
        assert(s_label =~= seq![secs[n_lua + 1]]);
        lemma_fold_singleton(secs[n_lua + 1], acc_gfx);
        spec_apply(acc_gfx, secs[n_lua + 1])
    } else {
        assert(s_label =~= Seq::<SectionV>::empty());
        acc_gfx
    };
    assert(spec_fold(secs_upto_label, e) == acc_label);
    let acc_gff = if c.gff is Some {
        assert(secs[n_lua + 1 + n_label].section_type == SectionType::Gff);
        assert(s_gff =~= seq![secs[n_lua + 1 + n_label]]);
        lemma_fold_singleton(secs[n_lua + 1 + n_label], acc_label);
        spec_apply(acc_label, secs[n_lua + 1 + n_label])
    } else {
        assert(s_gff =~= Seq::<SectionV>::empty());
        acc_label
    };
    assert(spec_fold(secs_upto_gff, e) == acc_gff);
    let acc_map = if c.tile_map is Some {
        assert(secs[n_lua + 1 + n_label + n_gff].section_type == SectionType::TileMap);
        assert(s_map =~= seq![secs[n_lua + 1 + n_label + n_gff]]);
        lemma_fold_singleton(secs[n_lua + 1 + n_label + n_gff], acc_gff);
        spec_apply(acc_gff, secs[n_lua + 1 + n_label + n_gff])
    } else {
        assert(s_map =~= Seq::<SectionV>::empty());
        acc_gff
    };
    assert(spec_fold(secs_upto_map, e) == acc_map);
    let acc_sfx = if c.sfx is Some {
        assert(secs[n_lua + 1 + n_label + n_gff + n_map].section_type == SectionType::Sfx);
        assert(s_sfx =~= seq![secs[n_lua + 1 + n_label + n_gff + n_map]]);
        lemma_fold_singleton(secs[n_lua + 1 + n_label + n_gff + n_map], acc_map);
        spec_apply(acc_map, secs[n_lua + 1 + n_label + n_gff + n_map])
    } else {
        assert(s_sfx =~= Seq::<SectionV>::empty());
        acc_map
    };
    assert(spec_fold(secs_upto_sfx, e) == acc_sfx);
    let acc_music = if c.music is Some {
        assert(secs[n_lua + 1 + n_label + n_gff + n_map + n_sfx].section_type
            == SectionType::Music);
        assert(s_music =~= seq![secs[n_lua + 1 + n_label + n_gff + n_map + n_sfx]]);
        lemma_fold_singleton(secs[n_lua + 1 + n_label + n_gff + n_map + n_sfx], acc_sfx);
        spec_apply(acc_sfx, secs[n_lua + 1 + n_label + n_gff + n_map + n_sfx])
    } else {
        assert(s_music =~= Seq::<SectionV>::empty());
        acc_sfx
    };
    assert(spec_fold(secs, e) == acc_music);
}

/// Splitting the joined tab codes on the separator line recovers each
/// occupied slot's code in its own slot, and leaves the other slots empty.
proof fn lemma_tabs_recover(c: CartV, ln: int)
    requires
        round_trip_ready(c),
        spec_has_tab(c.code_tabs),
    ensures
        forall|i: int|
            0 <= i < 16 ==> tab_slot_like(
                #[trigger] c.code_tabs[i],
                spec_tabs_of(ln, spec_tabs_bytes(c.code_tabs, 0))[i],
            ),
{
    let sep = spec_tab_sep_line();
    let joined = spec_tabs_bytes(c.code_tabs, 0);
    lemma_occupied_count(c.code_tabs, 0);
    let m = occupied_count(c.code_tabs, 0);
    assert(m >= 1) by {
        let w = choose|i: int| 0 <= i < 16 && c.code_tabs[i] is Some;
        assert(c.code_tabs[0] is Some);
    }
    assert forall|k: int| m <= k < 16 implies c.code_tabs[k] is None by {
        if c.code_tabs[k] is Some && k > m {
            assert(c.code_tabs[m] is Some);
        }
    }
    lemma_tabs_bytes_join(c.code_tabs, m);
    let codes = occupied_codes(c.code_tabs, 0, m);
    assert forall|i: int, p: int|
        0 <= i < codes.len() - 1 && 0 <= p < codes[i].len() implies !(#[trigger] matches_at(
        codes[i] + sep,
        sep,
        p,
    )) by {
        assert(codes[i] == c.code_tabs[i]->Some_0.code_data);
        assert(c.code_tabs[i] is Some && c.code_tabs[i + 1] is Some);
    }
    assert forall|p: int| !(#[trigger] matches_at(codes.last(), sep, p)) by {
        assert(codes.last() == c.code_tabs[m - 1]->Some_0.code_data);
        assert(c.code_tabs[m - 1] is Some);
        assert(m - 1 == 15 || c.code_tabs[m] is None);
    }
    lemma_spans_of_join(codes, sep);
    assert(spec_spans(joined, sep) == codes);
    assert forall|i: int| 0 <= i < 16 implies tab_slot_like(
        #[trigger] c.code_tabs[i],
        spec_tabs_of(ln, joined)[i],
    ) by {
        if i < m {
            assert(spec_tabs_of(ln, joined)[i] == Some(
                TabV {
                    line_number: ln + 1 + i + crate::bytes::spec_sum_count(codes, i, 10u8),
                    code_data: codes[i],
                },
            ));
            assert(codes[i] == c.code_tabs[i]->Some_0.code_data);
        } else {
            assert(spec_tabs_of(ln, joined)[i] is None);
            assert(c.code_tabs[i] is None);
        }
    }
}

/// Round-trip idempotence: serializing a cartridge in parse shape and
/// parsing the output again yields a structurally equal cartridge — the
/// same header, the same set of present sections with the same bytes, and
/// the same tab slots with the same code.
pub proof fn lemma_round_trip(c: CartV)
    requires
        round_trip_ready(c),
    ensures
        spec_parse(spec_serialize(c)) is Some,
        structurally_equal(c, spec_parse(spec_serialize(c))->Some_0),
{
    let out = spec_serialize(c);
    let bs = spec_blocks(c);
    let body = blocks_bytes(bs);
    let has_lua = spec_has_tab(c.code_tabs);
    lemma_serialize_blocks(c);
    lemma_header_splits(c.header, body);
    assert(spec_split_header(out) == Some((c.header, body)));
    lemma_block_conditions(c);
    lemma_body_parse(bs, 3);
    let secs = body_sections(bs, 3);
    assert(spec_sections(body, spec_delims(spec_lines(body), 3, 0)) == secs);
    lemma_fold_blocks(c, secs);
    let b = spec_fold(secs, spec_empty_builder());
    assert(b.gfx is Some);
    assert(spec_parse(out) is Some);
    let c2 = spec_parse(out)->Some_0;
    assert(c2.header == c.header);
    assert(c2.gfx.asset_data == c.gfx.asset_data);
    assert(c2.code_tabs == b.code_tabs);
    if has_lua {
        assert(secs[0].section_type == SectionType::Lua);
        lemma_tabs_recover(c, secs[0].line_number);
        assert(b.code_tabs == spec_tabs_of(secs[0].line_number, spec_tabs_bytes(c.code_tabs, 0)));
    } else {
        assert(b.code_tabs == spec_empty_tabs());
        assert forall|i: int| 0 <= i < 16 implies tab_slot_like(
            #[trigger] c.code_tabs[i],
            c2.code_tabs[i],
        ) by {
            assert(!(c.code_tabs[i] is Some));
            assert(spec_empty_tabs()[i] is None);
        }
    }
    assert(structurally_equal(c, c2));
}

} // verus!
