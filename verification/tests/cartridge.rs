//! Tests for parsing and serializing whole cartridges.

use pico_build::cart::{get_code_tabs_from_lua_section, CartData, Tab};
use pico_build::section::{get_line_type, SectionType};
use pico_build::{FormatError, StructuralError};

#[test]
fn parses_metadata() {}

fn tab_code(tabs: &Vec<Option<Tab>>, i: usize) -> Vec<u8> {
    tabs[i].as_ref().unwrap().code_data.clone()
}

#[test]
fn concrete_cartridge_round_trips_byte_for_byte() {
    let src: &[u8] = b"pico-8 cartridge // http://www.pico-8.com\nversion 43\n__lua__\nprint(\"a\")\n-->8\nprint(\"b\")\n__gfx__\n0011\n";
    let cart = CartData::from_cart_source(src).unwrap();
    assert_eq!(cart.version(), Ok(43));
    let tabs = cart.code_tabs();
    assert_eq!(tab_code(tabs, 0), b"print(\"a\")\n".to_vec());
    assert_eq!(tab_code(tabs, 1), b"print(\"b\")\n".to_vec());
    assert!(tabs[2].is_none());
    assert_eq!(cart.gfx().asset_data, b"0011\n".to_vec());
    assert!(cart.label().is_none());
    assert!(cart.gff().is_none());
    assert!(cart.tile_map().is_none());
    assert!(cart.sfx().is_none());
    assert!(cart.music().is_none());
    let rebuilt = cart.into_cart_source();
    assert_eq!(rebuilt, src.to_vec());
}

#[test]
fn unterminated_final_section_keeps_its_bytes() {
    // the slicer's convention for the last section: the bytes run to the end
    // of the buffer, with no trailing newline added or removed
    let src: &[u8] = b"pico-8 cartridge // http://www.pico-8.com\nversion 43\n__gfx__\n0011";
    let cart = CartData::from_cart_source(src).unwrap();
    assert_eq!(cart.gfx().asset_data, b"0011".to_vec());
}

#[test]
fn empty_input_is_rejected_structurally() {
    assert_eq!(
        CartData::from_cart_source(b"").unwrap_err(),
        StructuralError::MalformedHeader
    );
}

#[test]
fn header_without_sections_misses_gfx() {
    let src: &[u8] = b"pico-8 cartridge // http://www.pico-8.com\nversion 43\njust text\n";
    assert_eq!(
        CartData::from_cart_source(src).unwrap_err(),
        StructuralError::MissingGfx
    );
}

#[test]
fn one_line_input_is_rejected_structurally() {
    assert_eq!(
        CartData::from_cart_source(b"pico-8 cartridge\n").unwrap_err(),
        StructuralError::MalformedHeader
    );
}

#[test]
fn invalid_utf8_version_line_is_rejected() {
    let src: &[u8] = &[b'h', b'\n', 0xff, 0xfe, b'\n', b'x', b'\n'];
    assert_eq!(
        CartData::from_cart_source(src).unwrap_err(),
        StructuralError::MalformedHeader
    );
}

#[test]
fn twenty_separators_fill_exactly_sixteen_tabs() {
    let mut lua: Vec<u8> = Vec::new();
    for i in 0..21 {
        if i > 0 {
            lua.extend_from_slice(b"-->8\n");
        }
        lua.extend_from_slice(format!("-- tab {i}\n").as_bytes());
    }
    let tabs = get_code_tabs_from_lua_section(3, &lua);
    assert_eq!(tabs.len(), 16);
    for (i, tab) in tabs.iter().enumerate() {
        let tab = tab.as_ref().unwrap();
        assert_eq!(tab.code_data, format!("-- tab {i}\n").into_bytes());
    }
    // content after the sixteenth separator is dropped, not an error
    assert_eq!(tab_code(&tabs, 15), b"-- tab 15\n".to_vec());
}

#[test]
fn tab_line_numbers_advance_over_code_and_separators() {
    // marker on line 3; tab 0 starts at line 4; each separator line and each
    // code line advances the counter
    let lua: Vec<u8> = b"a\nb\n-->8\nc\n".to_vec();
    let tabs = get_code_tabs_from_lua_section(3, &lua);
    assert_eq!(tabs[0].as_ref().unwrap().line_number, 4);
    assert_eq!(tabs[1].as_ref().unwrap().line_number, 7);
    assert!(tabs[2].is_none());
}

#[test]
fn lazy_version_parse_fails_only_on_demand() {
    // a malformed version number still parses structurally
    let src: &[u8] = b"pico-8 cartridge // http://www.pico-8.com\nversion abc\n__gfx__\n00\n";
    let cart = CartData::from_cart_source(src).unwrap();
    assert_eq!(cart.version(), Err(FormatError::InvalidVersion));

    // a version line without any space has no numeric token at all
    let src2: &[u8] = b"pico-8 cartridge // http://www.pico-8.com\nversion\n__gfx__\n00\n";
    let cart2 = CartData::from_cart_source(src2).unwrap();
    assert_eq!(cart2.version(), Err(FormatError::InvalidVersion));

    // an overflowing version number is rejected, not wrapped
    let src3: &[u8] = b"h\nversion 99999999999999999999\n__gfx__\n00\n";
    let cart3 = CartData::from_cart_source(src3).unwrap();
    assert_eq!(cart3.version(), Err(FormatError::InvalidVersion));
}

#[test]
fn all_sections_come_back_in_canonical_order() {
    let src: &[u8] = b"h\nversion 8\n__music__\nM\n__gff__\nF\n__lua__\nL\n__gfx__\nG\n__label__\nB\n__map__\nP\n__sfx__\nS\n";
    let cart = CartData::from_cart_source(src).unwrap();
    assert_eq!(cart.gfx().asset_data, b"G\n".to_vec());
    assert_eq!(cart.label().as_ref().unwrap().asset_data, b"B\n".to_vec());
    assert_eq!(cart.gff().as_ref().unwrap().asset_data, b"F\n".to_vec());
    assert_eq!(cart.tile_map().as_ref().unwrap().asset_data, b"P\n".to_vec());
    assert_eq!(cart.sfx().as_ref().unwrap().asset_data, b"S\n".to_vec());
    assert_eq!(cart.music().as_ref().unwrap().asset_data, b"M\n".to_vec());
    let rebuilt = cart.into_cart_source();
    let expected: &[u8] = b"h\nversion 8\n__lua__\nL\n__gfx__\nG\n__label__\nB\n__gff__\nF\n__map__\nP\n__sfx__\nS\n__music__\nM\n";
    assert_eq!(rebuilt, expected.to_vec());
}

#[test]
fn reparse_after_serialize_is_structurally_equal() {
    // round-trip idempotence on a cartridge whose sections sat in a
    // different order in the file
    let src: &[u8] = b"h\nversion 8\n__sfx__\nS\n__lua__\nt0\n-->8\nt1\n__gfx__\nG\n";
    let cart = CartData::from_cart_source(src).unwrap();
    let bytes = cart.into_cart_source();
    let again = CartData::from_cart_source(&bytes).unwrap();
    assert_eq!(again.version(), Ok(8));
    assert_eq!(tab_code(again.code_tabs(), 0), b"t0\n".to_vec());
    assert_eq!(tab_code(again.code_tabs(), 1), b"t1\n".to_vec());
    assert!(again.code_tabs()[2].is_none());
    assert_eq!(again.gfx().asset_data, b"G\n".to_vec());
    assert_eq!(again.sfx().as_ref().unwrap().asset_data, b"S\n".to_vec());
    assert!(again.label().is_none());
    // serializing the canonical form again is byte-stable
    let bytes2 = again.into_cart_source();
    assert_eq!(bytes, bytes2);
}

#[test]
fn duplicate_sections_resolve_to_the_last_one() {
    let src: &[u8] = b"h\nversion 1\n__gfx__\nfirst\n__gfx__\nsecond\n";
    let cart = CartData::from_cart_source(src).unwrap();
    assert_eq!(cart.gfx().asset_data, b"second\n".to_vec());
}

#[test]
fn bare_trailing_marker_is_dropped_silently() {
    // a marker line at the very end of the buffer without its newline has no
    // room for a payload; that one section is dropped, the parse goes on
    let src: &[u8] = b"h\nversion 1\n__gfx__\nG\n__music__";
    let cart = CartData::from_cart_source(src).unwrap();
    assert_eq!(cart.gfx().asset_data, b"G\n".to_vec());
    assert!(cart.music().is_none());
}

#[test]
fn empty_lua_section_occupies_tab_zero() {
    let src: &[u8] = b"h\nversion 1\n__lua__\n__gfx__\nG\n";
    let cart = CartData::from_cart_source(src).unwrap();
    assert_eq!(tab_code(cart.code_tabs(), 0), Vec::<u8>::new());
    assert!(cart.code_tabs()[1].is_none());
    // a present-but-empty code section serializes back with its marker,
    // since tab slot 0 is occupied
    let rebuilt = cart.into_cart_source();
    assert_eq!(rebuilt, src.to_vec());
}

#[test]
fn cart_without_tabs_serializes_without_lua_marker() {
    let src: &[u8] = b"h\nversion 1\n__gfx__\nG\n";
    let cart = CartData::from_cart_source(src).unwrap();
    assert!(cart.code_tabs().iter().all(|t| t.is_none()));
    let rebuilt = cart.into_cart_source();
    assert_eq!(rebuilt, src.to_vec());
}

#[test]
fn replacing_the_tabs_is_a_whole_slot_overwrite() {
    let src: &[u8] = b"h\nversion 1\n__lua__\nold\n__gfx__\nG\n";
    let mut cart = CartData::from_cart_source(src).unwrap();
    let mut new_tabs = pico_build::cart::new_empty_tabs();
    new_tabs[0] = Some(Tab { line_number: 4, code_data: b"new\n".to_vec() });
    cart.set_code_data(new_tabs);
    let rebuilt = cart.into_cart_source();
    assert_eq!(rebuilt, b"h\nversion 1\n__lua__\nnew\n__gfx__\nG\n".to_vec());
}

#[test]
fn from_parts_positions_gfx_after_header_and_code() {
    let (header, _) = pico_build::header::split_from(b"h\nversion 2\n").unwrap();
    let mut tabs = pico_build::cart::new_empty_tabs();
    tabs[0] = Some(Tab { line_number: 4, code_data: b"a\nb\n".to_vec() });
    let cart = CartData::from_parts(header, tabs, b"G\n".to_vec());
    // two header lines plus two code lines
    assert_eq!(cart.gfx().line_number, 4);
    assert!(cart.label().is_none());
    let rebuilt = cart.into_cart_source();
    assert_eq!(rebuilt, b"h\nversion 2\n__lua__\na\nb\n__gfx__\nG\n".to_vec());
}

#[test]
fn line_classifier_matches_marker_prefixes() {
    assert_eq!(get_line_type(b"__lua__\n"), Some(SectionType::Lua));
    assert_eq!(get_line_type(b"__gfx__ trailing\n"), Some(SectionType::Gfx));
    assert_eq!(get_line_type(b"__gff__\n"), Some(SectionType::Gff));
    assert_eq!(get_line_type(b"__label__\n"), Some(SectionType::Label));
    assert_eq!(get_line_type(b"__map__\n"), Some(SectionType::TileMap));
    assert_eq!(get_line_type(b"__sfx__\n"), Some(SectionType::Sfx));
    assert_eq!(get_line_type(b"__music__\n"), Some(SectionType::Music));
    assert_eq!(get_line_type(b" __gfx__\n"), None);
    assert_eq!(get_line_type(b"__gfx_\n"), None);
    assert_eq!(get_line_type(b""), None);
}
