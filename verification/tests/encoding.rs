//! Tests for the UTF-8 validator used on the header's version line,
//! compared against the standard library's decoder.

use pico_build::header::is_valid_utf8;

#[test]
fn validator_agrees_with_std_on_edge_cases() {
    let cases: Vec<Vec<u8>> = vec![
        vec![],
        b"plain ascii".to_vec(),
        "äöü".as_bytes().to_vec(),
        "数字".as_bytes().to_vec(),
        "🙂".as_bytes().to_vec(),
        vec![0x80],                      // lone continuation byte
        vec![0xc0, 0xaf],                // overlong two-byte encoding
        vec![0xc1, 0xbf],                // overlong two-byte encoding
        vec![0xc2],                      // truncated two-byte encoding
        vec![0xc2, 0x41],                // missing continuation byte
        vec![0xc2, 0x80],                // smallest two-byte scalar
        vec![0xdf, 0xbf],                // largest two-byte scalar
        vec![0xe0, 0x9f, 0xbf],          // overlong three-byte encoding
        vec![0xe0, 0xa0, 0x80],          // smallest three-byte scalar
        vec![0xed, 0x9f, 0xbf],          // last scalar before the surrogates
        vec![0xed, 0xa0, 0x80],          // first surrogate
        vec![0xed, 0xbf, 0xbf],          // last surrogate
        vec![0xee, 0x80, 0x80],          // first scalar after the surrogates
        vec![0xe1, 0x80],                // truncated three-byte encoding
        vec![0xe1, 0x80, 0x41],          // missing continuation byte
        vec![0xf0, 0x8f, 0xbf, 0xbf],    // overlong four-byte encoding
        vec![0xf0, 0x90, 0x80, 0x80],    // smallest four-byte scalar
        vec![0xf4, 0x8f, 0xbf, 0xbf],    // the largest scalar
        vec![0xf4, 0x90, 0x80, 0x80],    // one past the largest scalar
        vec![0xf5, 0x80, 0x80, 0x80],    // leading byte past every scalar
        vec![0xf8, 0x80, 0x80, 0x80],    // five-byte pattern
        vec![0xff],
        vec![0xf0, 0x90, 0x80],          // truncated four-byte encoding
        b"mixed \xc3\xa9 text".to_vec(),
        b"broken \xc3 text".to_vec(),
    ];
    for bytes in cases {
        assert_eq!(
            is_valid_utf8(&bytes),
            core::str::from_utf8(&bytes).is_ok(),
            "disagreement on {bytes:?}",
        );
    }
}
