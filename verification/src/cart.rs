//! The structured cartridge: code tabs, asset sections, the builder fold
//! that groups sliced sections into a cartridge record, and the serializer
//! that emits the record back as bytes.

use vstd::prelude::*;

use crate::bytes::{
    count_newlines, lemma_lines_nonempty, lemma_spans_count_bound, spec_lines, spec_spans,
    spec_sum_count, spec_tab_sep_line, split_tab_spans, subrange_vec,
};
use crate::header::{spec_header_version, spec_split_header, Header};
use crate::section::{
    get_section_delimiters, get_sections, lemma_delims_line_offset, lemma_delims_sorted,
    lemma_sections_bounds, marker_bytes, spec_delims, spec_marker, spec_sections, Section,
    SectionType, SectionV,
};
use crate::{FormatError, StructuralError};

verus! {

/// The number of code-tab slots of a cartridge: a hard format constraint.
pub const TAB_SLOT_COUNT: usize = 16;

/// The mathematical form of one code tab.
pub ghost struct TabV {
    /// The 1-based line number of the tab's first source line.
    pub line_number: int,
    /// The tab's code bytes, tab-separator lines excluded.
    pub code_data: Seq<u8>,
}

/// One of up to sixteen ordered sub-divisions of the code section.
#[derive(Debug)]
pub struct Tab {
    /// The 1-based line number of the tab's first source line.
    pub line_number: usize,
    /// The tab's code bytes, tab-separator lines excluded.
    pub code_data: Vec<u8>,
}

impl View for Tab {
    type V = TabV;

    open spec fn view(&self) -> TabV {
        TabV { line_number: self.line_number as int, code_data: self.code_data@ }
    }
}

impl DeepView for Tab {
    type V = TabV;

    open spec fn deep_view(&self) -> TabV {
        self.view()
    }
}

impl Tab {
    /// Detaches the tab from any shared storage.  Every tab of this library
    /// already owns its bytes, so this returns the tab unchanged.
    pub fn into_owned(self) -> (r: Tab)
        ensures
            r@ == self@,
    {
        self
    }
}

/// The mathematical form of one asset section's payload.
pub ghost struct AssetV {
    /// The 1-based line number of the section's marker line.
    pub line_number: int,
    /// The section's payload bytes.
    pub asset_data: Seq<u8>,
}

/// One asset section's payload and the line number of its marker line.
#[derive(Debug)]
pub struct Asset {
    /// The 1-based line number of the section's marker line.
    pub line_number: usize,
    /// The section's payload bytes.
    pub asset_data: Vec<u8>,
}

impl View for Asset {
    type V = AssetV;

    open spec fn view(&self) -> AssetV {
        AssetV { line_number: self.line_number as int, asset_data: self.asset_data@ }
    }
}

impl DeepView for Asset {
    type V = AssetV;

    open spec fn deep_view(&self) -> AssetV {
        self.view()
    }
}

impl Asset {
    /// Detaches the asset from any shared storage.  Every asset of this
    /// library already owns its bytes, so this returns the asset unchanged.
    pub fn into_owned(self) -> (r: Asset)
        ensures
            r@ == self@,
    {
        self
    }
}

/// The sixteen tab slots carved out of a code section that starts at
/// `marker_line`: slot `i` holds the `i`-th span around the tab-separator
/// line, starting at line `marker_line + 1 + i` plus the newlines of all
/// earlier spans (one extra line per separator consumed); slots past the
/// spans stay empty, so spans past the sixteenth are dropped.
pub open spec fn spec_tabs_of(marker_line: int, data: Seq<u8>) -> Seq<Option<TabV>> {
    let spans = spec_spans(data, spec_tab_sep_line());
    Seq::new(
        16,
        |i: int|
            if i < spans.len() {
                Some(
                    TabV {
                        line_number: marker_line + 1 + i + spec_sum_count(spans, i, 10u8),
                        code_data: spans[i],
                    },
                )
            } else {
                None
            },
    )
}

/// Expands a code section into its sixteen tab slots, in source order.
/// Line numbers start one past the section's marker line and advance over
/// each tab's newlines and each separator line; spans past the sixteenth
/// are dropped silently.
pub fn get_code_tabs_from_lua_section(line_number: usize, section_data: &[u8]) -> (r: Vec<
    Option<Tab>,
>)
    requires
        line_number + section_data@.len() + 17 <= usize::MAX,
    ensures
        r.deep_view() == spec_tabs_of(line_number as int, section_data@),
        r@.len() == 16,
{
    let spans = split_tab_spans(section_data);
    let ghost spans_sv = spec_spans(section_data@, spec_tab_sep_line());
    proof {
        assert(spans.deep_view() == spans_sv);
        assert(spans@.len() == spans_sv.len());
    }
    let mut tabs: Vec<Option<Tab>> = Vec::new();
    let mut ln: usize = line_number + 1;
    let mut i: usize = 0;
    while i < TAB_SLOT_COUNT
        invariant
            0 <= i <= 16,
            tabs@.len() == i,
            spans@.len() == spans_sv.len(),
            spans.deep_view() == spans_sv,
            spans_sv == spec_spans(section_data@, spec_tab_sep_line()),
            line_number + section_data@.len() + 17 <= usize::MAX,
            i < spans_sv.len() ==> ln as int == line_number + 1 + (if i > 0 {
                (i - 1) as int
            } else {
                0int
            }) + spec_sum_count(spans_sv, i as int, 10u8),
            forall|k: int|
                0 <= k < i ==> tabs.deep_view()[k] == spec_tabs_of(
                    line_number as int,
                    section_data@,
                )[k],
        decreases 16 - i,
    {
        let ghost prev_dv = tabs.deep_view();
        if i < spans.len() {
            proof {
                lemma_spans_count_bound(section_data@, spec_tab_sep_line(), i as int, 10u8);
                lemma_spans_count_bound(section_data@, spec_tab_sep_line(), i + 1, 10u8);
            }
            if i > 0 {
                ln = ln + 1;
            }
            let span = &spans[i];
            proof {
                assert(span@ == spans_sv[i as int]);
            }
            let code = subrange_vec(span.as_slice(), 0, span.len());
            proof {
                assert(code@ =~= spans_sv[i as int]);
            }
            let tab_line = ln;
            tabs.push(Some(Tab { line_number: tab_line, code_data: code }));
            proof {
                assert(tabs.deep_view() =~~= prev_dv + seq![
                    Some(TabV { line_number: tab_line as int, code_data: spans_sv[i as int] }),
                ]);
                assert(spec_tabs_of(line_number as int, section_data@)[i as int] == Some(
                    TabV {
                        line_number: tab_line as int,
                        code_data: spans_sv[i as int],
                    },
                ));
            }
            let cnt = count_newlines(span.as_slice());
            proof {
                assert(cnt as int + spec_sum_count(spans_sv, i as int, 10u8) == spec_sum_count(
                    spans_sv,
                    i + 1,
                    10u8,
                ));
            }
            ln = ln + cnt;
        } else {
            tabs.push(None);
            proof {
                assert(tabs.deep_view() =~~= prev_dv + seq![Option::<TabV>::None]);
                assert(spec_tabs_of(line_number as int, section_data@)[i as int] is None);
            }
        }
        i = i + 1;
    }
    proof {
        assert(tabs.deep_view() =~~= spec_tabs_of(line_number as int, section_data@));
    }
    tabs
}

/// Folds a list of tabs into the sixteen tab slots, in order: slot `i`
/// takes the `i`-th tab, and the remaining slots stay empty.
pub fn compile_tabs(tabs: Vec<Tab>) -> (r: Vec<Option<Tab>>)
    requires
        tabs@.len() <= 16,
    ensures
        r@.len() == 16,
        forall|i: int|
            0 <= i < tabs@.len() ==> r.deep_view()[i] == Some(#[trigger] tabs@[i].deep_view()),
        forall|i: int| tabs@.len() <= i < 16 ==> r.deep_view()[i] is None,
{
    let ghost orig = tabs@;
    let mut tabs = tabs;
    let mut out: Vec<Option<Tab>> = Vec::new();
    while tabs.len() > 0
        invariant
            orig.len() <= 16,
            out@.len() + tabs@.len() == orig.len(),
            forall|i: int| 0 <= i < tabs@.len() ==> tabs@[i] == orig[out@.len() + i],
            forall|i: int|
                0 <= i < out@.len() ==> out.deep_view()[i] == Some(#[trigger] orig[i].deep_view()),
        decreases tabs@.len(),
    {
        let ghost prev_dv = out.deep_view();
        let t = tabs.remove(0);
        let ghost tv = t.deep_view();
        out.push(Some(t));
        proof {
            assert(out.deep_view() =~~= prev_dv + seq![Some(tv)]);
        }
    }
    while out.len() < TAB_SLOT_COUNT
        invariant
            orig.len() <= out@.len() <= 16,
            forall|i: int|
                0 <= i < orig.len() ==> out.deep_view()[i] == Some(#[trigger] orig[i].deep_view()),
            forall|i: int| orig.len() <= i < out@.len() ==> out.deep_view()[i] is None,
        decreases 16 - out@.len(),
    {
        let ghost prev_dv = out.deep_view();
        out.push(None);
        proof {
            assert(out.deep_view() =~~= prev_dv + seq![Option::<TabV>::None]);
        }
    }
    out
}

/// Sixteen empty tab slots.
pub open spec fn spec_empty_tabs() -> Seq<Option<TabV>> {
    Seq::new(16, |i: int| None)
}

/// Sixteen empty tab slots, as a fresh vector.
pub fn new_empty_tabs() -> (r: Vec<Option<Tab>>)
    ensures
        r.deep_view() == spec_empty_tabs(),
        r@.len() == 16,
{
    let mut out: Vec<Option<Tab>> = Vec::new();
    let mut i: usize = 0;
    while i < TAB_SLOT_COUNT
        invariant
            0 <= i <= 16,
            out@.len() == i,
            forall|k: int| 0 <= k < i ==> out.deep_view()[k] is None,
        decreases 16 - i,
    {
        let ghost prev_dv = out.deep_view();
        out.push(None);
        proof {
            assert(out.deep_view() =~~= prev_dv + seq![Option::<TabV>::None]);
        }
        i = i + 1;
    }
    proof {
        assert(out.deep_view() =~~= spec_empty_tabs());
    }
    out
}

/// The slots a cartridge builder fills while folding sections: one per
/// asset kind, and the sixteen tab slots for the code section.
pub ghost struct BuilderV {
    /// The sixteen tab slots, filled by the last code section seen.
    pub code_tabs: Seq<Option<TabV>>,
    /// The label section's slot.
    pub label: Option<AssetV>,
    /// The graphics section's slot; the one that must be filled.
    pub gfx: Option<AssetV>,
    /// The sprite-flag section's slot.
    pub gff: Option<AssetV>,
    /// The tile-map section's slot.
    pub tile_map: Option<AssetV>,
    /// The sound-effect section's slot.
    pub sfx: Option<AssetV>,
    /// The music section's slot.
    pub music: Option<AssetV>,
}

/// The builder before any section was folded in: every slot empty.
pub open spec fn spec_empty_builder() -> BuilderV {
    BuilderV {
        code_tabs: spec_empty_tabs(),
        label: None,
        gfx: None,
        gff: None,
        tile_map: None,
        sfx: None,
        music: None,
    }
}

/// Folding one section into the builder: a code section replaces the whole
/// tab array, any other section replaces its kind's slot, so a later
/// section of the same kind wins.
pub open spec fn spec_apply(acc: BuilderV, sec: SectionV) -> BuilderV {
    let asset = Some(AssetV { line_number: sec.line_number, asset_data: sec.data });
    match sec.section_type {
        SectionType::Lua => BuilderV {
            code_tabs: spec_tabs_of(sec.line_number, sec.data),
            ..acc
        },
        SectionType::Gfx => BuilderV { gfx: asset, ..acc },
        SectionType::Gff => BuilderV { gff: asset, ..acc },
        SectionType::Label => BuilderV { label: asset, ..acc },
        SectionType::TileMap => BuilderV { tile_map: asset, ..acc },
        SectionType::Sfx => BuilderV { sfx: asset, ..acc },
        SectionType::Music => BuilderV { music: asset, ..acc },
    }
}

/// Folding a list of sections into the builder, in order.
pub open spec fn spec_fold(secs: Seq<SectionV>, acc: BuilderV) -> BuilderV
    decreases secs.len(),
{
    if secs.len() == 0 {
        acc
    } else {
        spec_fold(secs.drop_first(), spec_apply(acc, secs[0]))
    }
}

/// The mathematical form of a parsed cartridge.
pub ghost struct CartV {
    /// The two-line header, byte for byte.
    pub header: Seq<u8>,
    /// The label section, if present.
    pub label: Option<AssetV>,
    /// The sixteen code-tab slots.
    pub code_tabs: Seq<Option<TabV>>,
    /// The graphics section; the one mandatory section.
    pub gfx: AssetV,
    /// The sprite-flag section, if present.
    pub gff: Option<AssetV>,
    /// The tile-map section, if present.
    pub tile_map: Option<AssetV>,
    /// The sound-effect section, if present.
    pub sfx: Option<AssetV>,
    /// The music section, if present.
    pub music: Option<AssetV>,
}

/// Parsing a cartridge source: split the header off, scan the remainder's
/// marker lines (the remainder's first line is line 3 of the file), slice
/// the sections, fold them into the builder, and demand the graphics
/// section.
pub open spec fn spec_parse(src: Seq<u8>) -> Option<CartV> {
    match spec_split_header(src) {
        None => None,
        Some((h, rem)) => {
            let b = spec_fold(
                spec_sections(rem, spec_delims(spec_lines(rem), 3, 0)),
                spec_empty_builder(),
            );
            match b.gfx {
                Some(gfx) => Some(
                    CartV {
                        header: h,
                        label: b.label,
                        code_tabs: b.code_tabs,
                        gfx,
                        gff: b.gff,
                        tile_map: b.tile_map,
                        sfx: b.sfx,
                        music: b.music,
                    },
                ),
                None => None,
            }
        },
    }
}

/// The error a failed parse reports: a header failure when the header
/// cannot be split off, a missing graphics section otherwise.
pub open spec fn spec_parse_err(src: Seq<u8>) -> StructuralError {
    if spec_split_header(src) is None {
        StructuralError::MalformedHeader
    } else {
        StructuralError::MissingGfx
    }
}

/// The fully structured form of one cartridge file: the header, the sixteen
/// code-tab slots, the mandatory graphics section, and the optional label,
/// sprite-flag, tile-map, sound and music sections.
#[derive(Debug)]
pub struct CartData {
    header: Header,
    label: Option<Asset>,
    code_tabs: Vec<Option<Tab>>,
    gfx: Asset,
    gff: Option<Asset>,
    tile_map: Option<Asset>,
    sfx: Option<Asset>,
    music: Option<Asset>,
}

impl View for CartData {
    type V = CartV;

    closed spec fn view(&self) -> CartV {
        CartV {
            header: self.header@,
            label: self.label.deep_view(),
            code_tabs: self.code_tabs.deep_view(),
            gfx: self.gfx@,
            gff: self.gff.deep_view(),
            tile_map: self.tile_map.deep_view(),
            sfx: self.sfx.deep_view(),
            music: self.music.deep_view(),
        }
    }
}

impl CartData {
    /// A well-formed cartridge holds exactly the sixteen tab slots.
    pub open spec fn wf(&self) -> bool {
        self@.code_tabs.len() == 16
    }

    /// Parses a cartridge source into its structured form.  Succeeds
    /// exactly when the two-line header splits off and a graphics section
    /// is found; a malformed version line does not fail the parse, since
    /// the version is read lazily.
    pub fn from_cart_source(cart_src: &[u8]) -> (r: Result<CartData, StructuralError>)
        requires
            cart_src@.len() + 20 <= usize::MAX,
        ensures
            match r {
                Ok(c) => c.wf() && spec_parse(cart_src@) == Some(c@),
                Err(e) => spec_parse(cart_src@) is None && e == spec_parse_err(cart_src@),
            },
    {
        let (header, remainder) = match crate::header::split_from(cart_src) {
            Some(p) => p,
            None => {
                return Err(StructuralError::MalformedHeader);
            },
        };
        let ghost rem = remainder@;
        let ghost delims_sv = spec_delims(spec_lines(rem), 3, 0);
        let ghost secs_sv = spec_sections(rem, delims_sv);
        proof {
            crate::header::lemma_header_lines(cart_src@);
            assert(rem.len() <= cart_src@.len());
        }
        let delims = get_section_delimiters(remainder.as_slice(), Some(2));
        let mut sections = get_sections(remainder.as_slice(), delims);
        proof {
            lemma_lines_nonempty(rem);
            lemma_delims_line_offset(spec_lines(rem), 3, 0);
            lemma_delims_sorted(spec_lines(rem), 3, 0);
            lemma_sections_bounds(rem, delims_sv, 3);
        }
        let mut code_tabs: Vec<Option<Tab>> = new_empty_tabs();
        let mut label: Option<Asset> = None;
        let mut gfx: Option<Asset> = None;
        let mut gff: Option<Asset> = None;
        let mut tile_map: Option<Asset> = None;
        let mut sfx: Option<Asset> = None;
        let mut music: Option<Asset> = None;
        let ghost target = spec_fold(secs_sv, spec_empty_builder());
        proof {
            assert(sections.deep_view() == secs_sv);
            assert forall|k: int|
                0 <= k < sections@.len() implies #[trigger] sections@[k].deep_view().line_number
                + sections@[k].deep_view().data.len() <= rem.len() + 3 by {
                assert(sections.deep_view()[k] == sections@[k].deep_view());
                assert(secs_sv[k].line_number + secs_sv[k].data.len() <= rem.len() + 3);
            }
        }
        while sections.len() > 0
            invariant
                cart_src@.len() + 20 <= usize::MAX,
                rem.len() <= cart_src@.len(),
                forall|k: int|
                    0 <= k < sections@.len() ==> #[trigger] sections@[k].deep_view().line_number
                        + sections@[k].deep_view().data.len() <= rem.len() + 3,
                code_tabs@.len() == 16,
                spec_fold(
                    sections.deep_view(),
                    BuilderV {
                        code_tabs: code_tabs.deep_view(),
                        label: label.deep_view(),
                        gfx: gfx.deep_view(),
                        gff: gff.deep_view(),
                        tile_map: tile_map.deep_view(),
                        sfx: sfx.deep_view(),
                        music: music.deep_view(),
                    },
                ) == target,
            decreases sections@.len(),
        {
            let ghost pre_secs = sections.deep_view();
            let ghost pre_acc = BuilderV {
                code_tabs: code_tabs.deep_view(),
                label: label.deep_view(),
                gfx: gfx.deep_view(),
                gff: gff.deep_view(),
                tile_map: tile_map.deep_view(),
                sfx: sfx.deep_view(),
                music: music.deep_view(),
            };
            let sec = sections.remove(0);
            proof {
                assert(sections.deep_view() =~= pre_secs.drop_first());
                assert(sec.deep_view() == pre_secs[0]);
            }
            let (ty, ln, data) = sec.into_parts();
            match ty {
                SectionType::Lua => {
                    code_tabs = get_code_tabs_from_lua_section(ln, data.as_slice());
                },
                SectionType::Gfx => {
                    gfx = Some(Asset { line_number: ln, asset_data: data });
                },
                SectionType::Gff => {
                    gff = Some(Asset { line_number: ln, asset_data: data });
                },
                SectionType::Label => {
                    label = Some(Asset { line_number: ln, asset_data: data });
                },
                SectionType::TileMap => {
                    tile_map = Some(Asset { line_number: ln, asset_data: data });
                },
                SectionType::Sfx => {
                    sfx = Some(Asset { line_number: ln, asset_data: data });
                },
                SectionType::Music => {
                    music = Some(Asset { line_number: ln, asset_data: data });
                },
            }
            proof {
                let post_acc = BuilderV {
                    code_tabs: code_tabs.deep_view(),
                    label: label.deep_view(),
                    gfx: gfx.deep_view(),
                    gff: gff.deep_view(),
                    tile_map: tile_map.deep_view(),
                    sfx: sfx.deep_view(),
                    music: music.deep_view(),
                };
                assert(post_acc == spec_apply(pre_acc, pre_secs[0]));
                assert(spec_fold(pre_secs, pre_acc) == spec_fold(pre_secs.drop_first(), post_acc));
            }
        }
        proof {
            assert(sections.deep_view() =~= Seq::<SectionV>::empty());
        }
        match gfx {
            Some(g) => {
                let cart = CartData {
                    header,
                    label,
                    code_tabs,
                    gfx: g,
                    gff,
                    tile_map,
                    sfx,
                    music,
                };
                proof {
                    assert(spec_parse(cart_src@) == Some(cart@));
                }
                Ok(cart)
            },
            None => Err(StructuralError::MissingGfx),
        }
    }
}

/// A buffer whose lines all fail to classify yields no delimiters.
pub proof fn lemma_delims_empty(lines: Seq<Seq<u8>>, line_no: int, off: int)
    requires
        forall|k: int|
            0 <= k < lines.len() ==> crate::section::spec_classify(#[trigger] lines[k]) is None,
    ensures
        spec_delims(lines, line_no, off) == Seq::<crate::section::DelimiterV>::empty(),
    decreases lines.len(),
{
    if lines.len() > 0 {
        assert forall|k: int|
            0 <= k < lines.drop_first().len() implies crate::section::spec_classify(
            #[trigger] lines.drop_first()[k],
        ) is None by {
            assert(crate::section::spec_classify(lines[k + 1]) is None);
        }
        lemma_delims_empty(lines.drop_first(), line_no + 1, off + lines[0].len() as int);
    }
}

/// Mandatory-field enforcement: a source whose header splits off but whose
/// remainder holds no section-marker line fails to parse, because the
/// graphics section is missing.
pub proof fn lemma_parse_no_markers(src: Seq<u8>)
    requires
        spec_split_header(src) is Some,
        forall|k: int|
            0 <= k < spec_lines((spec_split_header(src)->Some_0).1).len()
                ==> crate::section::spec_classify(
                #[trigger] spec_lines((spec_split_header(src)->Some_0).1)[k],
            ) is None,
    ensures
        spec_parse(src) is None,
        spec_parse_err(src) == StructuralError::MissingGfx,
{
    let rem = (spec_split_header(src)->Some_0).1;
    lemma_delims_empty(spec_lines(rem), 3, 0);
    assert(spec_sections(rem, spec_delims(spec_lines(rem), 3, 0)) == Seq::<SectionV>::empty());
    assert(spec_fold(Seq::<SectionV>::empty(), spec_empty_builder()) == spec_empty_builder());
}

/// Folding preserves a filled graphics slot: no section kind empties it.
pub proof fn lemma_fold_gfx_preserved(secs: Seq<SectionV>, acc: BuilderV)
    requires
        acc.gfx is Some,
    ensures
        spec_fold(secs, acc).gfx is Some,
    decreases secs.len(),
{
    if secs.len() > 0 {
        lemma_fold_gfx_preserved(secs.drop_first(), spec_apply(acc, secs[0]));
    }
}

/// Folding a section list that holds a graphics section fills the graphics
/// slot.
pub proof fn lemma_fold_gfx(secs: Seq<SectionV>, acc: BuilderV)
    requires
        exists|k: int|
            0 <= k < secs.len() && (#[trigger] secs[k]).section_type == SectionType::Gfx,
    ensures
        spec_fold(secs, acc).gfx is Some,
    decreases secs.len(),
{
    let k = choose|k: int|
        0 <= k < secs.len() && (#[trigger] secs[k]).section_type == SectionType::Gfx;
    if k == 0 {
        lemma_fold_gfx_preserved(secs.drop_first(), spec_apply(acc, secs[0]));
    } else {
        assert(secs.drop_first()[k - 1].section_type == SectionType::Gfx);
        lemma_fold_gfx(secs.drop_first(), spec_apply(acc, secs[0]));
    }
}

/// Section completeness: a source whose header splits off, whose remainder
/// ends with a newline, and whose remainder holds a line that classifies as
/// the graphics marker, parses successfully; the parsed cartridge then
/// carries its graphics data, which is a mandatory field.
pub proof fn lemma_parse_complete(src: Seq<u8>)
    requires
        spec_split_header(src) is Some,
        ((spec_split_header(src)->Some_0).1).len() == 0 || ((
        spec_split_header(src)->Some_0).1).last() == 10u8,
        exists|k: int|
            0 <= k < spec_lines((spec_split_header(src)->Some_0).1).len()
                && crate::section::spec_classify(
                #[trigger] spec_lines((spec_split_header(src)->Some_0).1)[k],
            ) == Some(SectionType::Gfx),
    ensures
        spec_parse(src) is Some,
{
    let rem = (spec_split_header(src)->Some_0).1;
    let ds = spec_delims(spec_lines(rem), 3, 0);
    let secs = spec_sections(rem, ds);
    crate::section::lemma_delims_has_type(spec_lines(rem), 3, 0, SectionType::Gfx);
    crate::section::lemma_delims_gaps(rem, 3, 0);
    lemma_delims_sorted(spec_lines(rem), 3, 0);
    assert forall|j: int| 0 <= j < ds.len() implies (#[trigger] ds[j]).byte_offset >= 0 by {}
    crate::section::lemma_sections_emit_all(rem, ds);
    let j = choose|j: int| 0 <= j < ds.len() && (#[trigger] ds[j]).section_type
        == SectionType::Gfx;
    assert(secs[j].section_type == SectionType::Gfx);
    lemma_fold_gfx(secs, spec_empty_builder());
}

/// The total line count of the first `i` tab slots' codes; an absent slot
/// counts no lines.
pub open spec fn spec_code_lines(tabs: Seq<Option<TabV>>, i: int) -> int
    decreases i,
{
    if i <= 0 {
        0
    } else {
        spec_code_lines(tabs, i - 1) + (match tabs[i - 1] {
            Option::Some(t) => spec_lines(t.code_data).len() as int,
            Option::None => 0int,
        })
    }
}

/// Prefix sums of code lines grow with the prefix.
pub proof fn lemma_code_lines_mono(tabs: Seq<Option<TabV>>, i: int, j: int)
    requires
        i <= j,
    ensures
        spec_code_lines(tabs, i) <= spec_code_lines(tabs, j),
        spec_code_lines(tabs, 0) == 0,
    decreases j - i,
{
    if i < j {
        lemma_code_lines_mono(tabs, i, j - 1);
    }
}

/// A section's whole marker line: the marker bytes and their newline.
pub open spec fn spec_marker_line(ty: SectionType) -> Seq<u8> {
    spec_marker(ty) + seq![10u8]
}

/// The bytes an optional section contributes to the output: nothing when
/// absent, its marker line followed by its payload when present.
pub open spec fn spec_opt_block(ty: SectionType, a: Option<AssetV>) -> Seq<u8> {
    match a {
        None => Seq::empty(),
        Some(asset) => spec_marker_line(ty) + asset.asset_data,
    }
}

/// Whether any tab slot is occupied.
pub open spec fn spec_has_tab(tabs: Seq<Option<TabV>>) -> bool {
    exists|i: int| 0 <= i < tabs.len() && tabs[i] is Some
}

/// The bytes the tab slots from `i` on contribute to the code section:
/// each occupied slot's code, every occupied slot but slot 0 prefixed with
/// the tab-separator line; absent slots contribute nothing.
pub open spec fn spec_tabs_bytes(tabs: Seq<Option<TabV>>, i: int) -> Seq<u8>
    decreases tabs.len() - i,
{
    if i < 0 || i >= tabs.len() {
        Seq::empty()
    } else {
        (match tabs[i] {
            None => Seq::<u8>::empty(),
            Some(t) => if i == 0 {
                t.code_data
            } else {
                spec_tab_sep_line() + t.code_data
            },
        }) + spec_tabs_bytes(tabs, i + 1)
    }
}

/// The bytes the code section contributes to the output: nothing when no
/// tab slot is occupied, its marker line and the joined tabs otherwise.
pub open spec fn spec_lua_block(tabs: Seq<Option<TabV>>) -> Seq<u8> {
    if spec_has_tab(tabs) {
        spec_marker_line(SectionType::Lua) + spec_tabs_bytes(tabs, 0)
    } else {
        Seq::empty()
    }
}

/// Serializing a cartridge: the header verbatim, then the code section (only
/// when some tab slot is occupied), then the mandatory graphics section,
/// then the optional sections in the fixed order label, sprite flags, tile
/// map, sound, music.
pub open spec fn spec_serialize(c: CartV) -> Seq<u8> {
    c.header + spec_lua_block(c.code_tabs) + spec_marker_line(SectionType::Gfx) + c.gfx.asset_data
        + spec_opt_block(SectionType::Label, c.label) + spec_opt_block(SectionType::Gff, c.gff)
        + spec_opt_block(SectionType::TileMap, c.tile_map) + spec_opt_block(
        SectionType::Sfx,
        c.sfx,
    ) + spec_opt_block(SectionType::Music, c.music)
}

/// Appends a byte slice to the end of a vector.
pub fn append_bytes(out: &mut Vec<u8>, data: &[u8])
    ensures
        final(out)@ == old(out)@ + data@,
{
    let mut k: usize = 0;
    while k < data.len()
        invariant
            0 <= k <= data@.len(),
            out@ == old(out)@ + data@.subrange(0, k as int),
        decreases data@.len() - k,
    {
        out.push(data[k]);
        proof {
            assert(old(out)@ + data@.subrange(0, k as int) + seq![data@[k as int]] =~= old(out)@
                + data@.subrange(0, k + 1));
        }
        k = k + 1;
    }
    proof {
        assert(data@.subrange(0, data@.len() as int) =~= data@);
    }
}

/// Appends a section's marker line: its marker bytes and a newline.
fn append_marker_line(out: &mut Vec<u8>, ty: SectionType)
    ensures
        final(out)@ == old(out)@ + spec_marker_line(ty),
{
    let marker = marker_bytes(ty);
    append_bytes(out, marker.as_slice());
    out.push(10u8);
    proof {
        assert(old(out)@ + spec_marker(ty) + seq![10u8] =~= old(out)@ + spec_marker_line(ty));
    }
}

/// Appends an optional section's bytes: nothing when absent, the marker
/// line and the payload when present.
fn append_opt_block(out: &mut Vec<u8>, ty: SectionType, asset: &Option<Asset>)
    ensures
        final(out)@ == old(out)@ + spec_opt_block(ty, asset.deep_view()),
{
    match asset {
        Some(a) => {
            append_marker_line(out, ty);
            append_bytes(out, a.asset_data.as_slice());
            proof {
                assert(old(out)@ + spec_marker_line(ty) + a.asset_data@ =~= old(out)@
                    + spec_opt_block(ty, asset.deep_view()));
            }
        },
        None => {
            proof {
                assert(old(out)@ + spec_opt_block(ty, asset.deep_view()) =~= old(out)@);
            }
        },
    }
}

impl CartData {
    /// Replaces the whole tab array; the only supported mutation.
    pub fn set_code_data(&mut self, code_tabs: Vec<Option<Tab>>)
        requires
            code_tabs@.len() == 16,
        ensures
            final(self)@ == (CartV { code_tabs: code_tabs.deep_view(), ..old(self)@ }),
            final(self).wf(),
    {
        self.code_tabs = code_tabs;
    }

    /// Detaches the cartridge from any shared storage.  Every cartridge of
    /// this library already owns its bytes, so this returns it unchanged.
    pub fn into_owned(self) -> (r: CartData)
        ensures
            r@ == self@,
    {
        self
    }

    /// The cartridge's header, verbatim.
    pub fn header(&self) -> (r: &Header)
        ensures
            r@ == self@.header,
    {
        &self.header
    }

    /// The format version read lazily out of the header's version line.
    pub fn version(&self) -> (r: Result<u32, FormatError>)
        ensures
            match r {
                Ok(v) => spec_header_version(self@.header) == Some(v),
                Err(e) => spec_header_version(self@.header) is None && e
                    == FormatError::InvalidVersion,
            },
    {
        match self.header.get_version() {
            Some(v) => v.parse(),
            None => Err(FormatError::InvalidVersion),
        }
    }

    /// The label section, if present.
    pub fn label(&self) -> (r: &Option<Asset>)
        ensures
            r.deep_view() == self@.label,
    {
        &self.label
    }

    /// The sixteen code-tab slots.
    pub fn code_tabs(&self) -> (r: &Vec<Option<Tab>>)
        ensures
            r.deep_view() == self@.code_tabs,
    {
        &self.code_tabs
    }

    /// The graphics section; always present.
    pub fn gfx(&self) -> (r: &Asset)
        ensures
            r@ == self@.gfx,
    {
        &self.gfx
    }

    /// The sprite-flag section, if present.
    pub fn gff(&self) -> (r: &Option<Asset>)
        ensures
            r.deep_view() == self@.gff,
    {
        &self.gff
    }

    /// The tile-map section, if present.
    pub fn tile_map(&self) -> (r: &Option<Asset>)
        ensures
            r.deep_view() == self@.tile_map,
    {
        &self.tile_map
    }

    /// The sound-effect section, if present.
    pub fn sfx(&self) -> (r: &Option<Asset>)
        ensures
            r.deep_view() == self@.sfx,
    {
        &self.sfx
    }

    /// The music section, if present.
    pub fn music(&self) -> (r: &Option<Asset>)
        ensures
            r.deep_view() == self@.music,
    {
        &self.music
    }

    /// Builds a cartridge from its parts: a header, the sixteen tab slots
    /// and the graphics payload.  Every optional section is absent; the
    /// graphics section's line number is the count of header lines plus the
    /// count of code lines, as the section would sit in the rebuilt file.
    pub fn from_parts(header: Header, code_tabs: Vec<Option<Tab>>, gfx_data: Vec<u8>) -> (r:
        CartData)
        requires
            code_tabs@.len() == 16,
            spec_lines(header@).len() + spec_code_lines(code_tabs.deep_view(), 16)
                <= usize::MAX,
        ensures
            r.wf(),
            r@.header == header@,
            r@.code_tabs == code_tabs.deep_view(),
            r@.gfx.asset_data == gfx_data@,
            r@.gfx.line_number == spec_lines(header@).len() + spec_code_lines(
                code_tabs.deep_view(),
                16,
            ),
            r@.label is None,
            r@.gff is None,
            r@.tile_map is None,
            r@.sfx is None,
            r@.music is None,
    {
        let lines_in_header = crate::bytes::count_lines(header.as_bytes().as_slice());
        let mut lines_in_code: usize = 0;
        let mut i: usize = 0;
        proof {
            lemma_code_lines_mono(code_tabs.deep_view(), 0, 16);
        }
        while i < TAB_SLOT_COUNT
            invariant
                0 <= i <= 16,
                code_tabs@.len() == 16,
                spec_lines(header@).len() + spec_code_lines(code_tabs.deep_view(), 16)
                    <= usize::MAX,
                lines_in_header == spec_lines(header@).len(),
                lines_in_code == spec_code_lines(code_tabs.deep_view(), i as int),
            decreases 16 - i,
        {
            proof {
                lemma_code_lines_mono(code_tabs.deep_view(), i + 1, 16);
                assert(code_tabs.deep_view()[i as int] == code_tabs@[i as int].deep_view());
            }
            match &code_tabs[i] {
                Some(tab) => {
                    let cnt = crate::bytes::count_lines(tab.code_data.as_slice());
                    lines_in_code = lines_in_code + cnt;
                },
                None => {},
            }
            i = i + 1;
        }
        let gfx_line_number = lines_in_header + lines_in_code;
        CartData {
            header,
            label: None,
            code_tabs,
            gfx: Asset { line_number: gfx_line_number, asset_data: gfx_data },
            gff: None,
            tile_map: None,
            sfx: None,
            music: None,
        }
    }

    /// Serializes the cartridge back into one byte buffer, consuming it:
    /// the header verbatim, the code section when any tab slot is occupied,
    /// the mandatory graphics section, and the optional sections in
    /// canonical order.
    pub fn into_cart_source(self) -> (r: Vec<u8>)
        requires
            self.wf(),
        ensures
            r@ == spec_serialize(self@),
    {
        let ghost cv = self@;
        let CartData { header, label, code_tabs, gfx, gff, tile_map, sfx, music } = self;
        let mut out: Vec<u8> = Vec::new();
        append_bytes(&mut out, header.as_bytes().as_slice());
        proof {
            assert(out@ =~= cv.header);
        }

        let mut any_tab = false;
        let mut i: usize = 0;
        while i < TAB_SLOT_COUNT
            invariant
                0 <= i <= 16,
                code_tabs@.len() == 16,
                code_tabs.deep_view() == cv.code_tabs,
                any_tab == exists|k: int| 0 <= k < i && cv.code_tabs[k] is Some,
            decreases 16 - i,
        {
            proof {
                assert(code_tabs.deep_view()[i as int] == code_tabs@[i as int].deep_view());
            }
            if code_tabs[i].is_some() {
                any_tab = true;
            }
            i = i + 1;
        }
        proof {
            assert(any_tab == spec_has_tab(cv.code_tabs));
        }

        if any_tab {
            append_marker_line(&mut out, SectionType::Lua);
            let ghost lua_target = cv.header + spec_marker_line(SectionType::Lua)
                + spec_tabs_bytes(cv.code_tabs, 0);
            let mut i: usize = 0;
            while i < TAB_SLOT_COUNT
                invariant
                    0 <= i <= 16,
                    code_tabs@.len() == 16,
                    code_tabs.deep_view() == cv.code_tabs,
                    out@ + spec_tabs_bytes(cv.code_tabs, i as int) == lua_target,
                decreases 16 - i,
            {
                let ghost pre = out@;
                proof {
                    assert(code_tabs.deep_view()[i as int] == code_tabs@[i as int].deep_view());
                }
                match &code_tabs[i] {
                    Some(t) => {
                        if i > 0 {
                            let sep = crate::bytes::tab_separator_line();
                            append_bytes(&mut out, sep.as_slice());
                        }
                        append_bytes(&mut out, t.code_data.as_slice());
                        proof {
                            if i > 0 {
                                assert(out@ =~= pre + (spec_tab_sep_line()
                                    + cv.code_tabs[i as int]->Some_0.code_data));
                            }
                            assert(out@ + spec_tabs_bytes(cv.code_tabs, i + 1) =~= lua_target);
                        }
                    },
                    None => {
                        proof {
                            assert(out@ + spec_tabs_bytes(cv.code_tabs, i + 1) =~= lua_target);
                        }
                    },
                }
                i = i + 1;
            }
            proof {
                assert(spec_tabs_bytes(cv.code_tabs, 16) =~= Seq::<u8>::empty());
                assert(out@ =~= cv.header + spec_lua_block(cv.code_tabs));
            }
        } else {
            proof {
                assert(out@ =~= cv.header + spec_lua_block(cv.code_tabs));
            }
        }

        append_marker_line(&mut out, SectionType::Gfx);
        append_bytes(&mut out, gfx.asset_data.as_slice());
        append_opt_block(&mut out, SectionType::Label, &label);
        append_opt_block(&mut out, SectionType::Gff, &gff);
        append_opt_block(&mut out, SectionType::TileMap, &tile_map);
        append_opt_block(&mut out, SectionType::Sfx, &sfx);
        append_opt_block(&mut out, SectionType::Music, &music);
        proof {
            assert(label.deep_view() == cv.label);
            assert(gff.deep_view() == cv.gff);
            assert(tile_map.deep_view() == cv.tile_map);
            assert(sfx.deep_view() == cv.sfx);
            assert(music.deep_view() == cv.music);
            assert(out@ =~= spec_serialize(cv));
        }
        out
    }
}

} // verus!
