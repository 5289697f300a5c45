//! Known-answer tests from the MD6 reference definition.

use md6::{hash, Md6};

fn oneshot(bits: i32, data: &[u8]) -> Vec<u8> {
    let mut out = Vec::new();
    hash(bits, data, &mut out).unwrap();
    out
}

#[test]
fn empty_message_256() {
    assert_eq!(
        oneshot(256, b""),
        vec![
            0xBC, 0xA3, 0x8B, 0x24, 0xA8, 0x04, 0xAA, 0x37, 0xD8, 0x21, 0xD3, 0x1A, 0xF0, 0x0F,
            0x55, 0x98, 0x23, 0x01, 0x22, 0xC5, 0xBB, 0xFC, 0x4C, 0x4A, 0xD5, 0xED, 0x40, 0xE4,
            0x25, 0x8F, 0x04, 0xCA,
        ]
    );
}

#[test]
fn empty_message_512() {
    assert_eq!(
        oneshot(512, b""),
        vec![
            0x6B, 0x7F, 0x33, 0x82, 0x1A, 0x2C, 0x06, 0x0E, 0xCD, 0xD8, 0x1A, 0xEF, 0xDD, 0xEA,
            0x2F, 0xD3, 0xC4, 0x72, 0x02, 0x70, 0xE1, 0x86, 0x54, 0xF4, 0xCB, 0x08, 0xEC, 0xE4,
            0x9C, 0xCB, 0x46, 0x9F, 0x8B, 0xEE, 0xEE, 0x7C, 0x83, 0x12, 0x06, 0xBD, 0x57, 0x7F,
            0x9F, 0x26, 0x30, 0xD9, 0x17, 0x79, 0x79, 0x20, 0x3A, 0x94, 0x89, 0xE4, 0x7E, 0x04,
            0xDF, 0x4E, 0x6D, 0xEA, 0xA0, 0xF8, 0xE0, 0xC0,
        ]
    );
}

#[test]
fn lazy_fox_256() {
    assert_eq!(
        oneshot(256, b"The lazy fox jumps over the lazy dog"),
        vec![
            0xE4, 0x55, 0x51, 0xAA, 0xE2, 0x66, 0xE1, 0x48, 0x2A, 0xC9, 0x8E, 0x24, 0x22, 0x9B,
            0x3E, 0x90, 0xDC, 0x06, 0x61, 0x77, 0xF8, 0xFB, 0x1A, 0x52, 0x6E, 0x9D, 0xA2, 0xCC,
            0x95, 0x71, 0x97, 0xAA,
        ]
    );
}

#[test]
fn incremental_chunks_256() {
    let mut state = Md6::new(256).unwrap();
    state.update(b"Abolish ");
    state.update(b"the ");
    state.update(b"bourgeoisie");
    state.update(b"!");
    let mut result = Vec::new();
    state.finalise(&mut result);
    assert_eq!(
        result,
        vec![
            0x49, 0x23, 0xE7, 0xB0, 0x53, 0x32, 0x05, 0xB0, 0x25, 0xC5, 0xD4, 0xDB, 0x37, 0xB8,
            0x99, 0x12, 0x16, 0x2E, 0xFD, 0xF4, 0xDA, 0xC2, 0x2C, 0xFF, 0xE6, 0x27, 0xF1, 0x11,
            0xEC, 0x05, 0x2F, 0xB5,
        ]
    );
    assert_eq!(result, oneshot(256, b"Abolish the bourgeoisie!"));
}

#[test]
fn incremental_multibyte_512() {
    let mut state = Md6::new(512).unwrap();
    state.update(b"Za\xc5\xbc\xc3\xb3\xc5\x82\xc4\x87 ");
    state.update(b"g\xc4\x99\xc5\x9bl\xc4\x85 ");
    state.update(b"ja\xc5\xba\xc5\x84");
    let mut result = Vec::new();
    state.finalise(&mut result);
    assert_eq!(
        result,
        vec![
            0x92, 0x4E, 0x91, 0x6A, 0x01, 0x2C, 0x1A, 0x8D, 0x0F, 0xB7, 0x9A, 0x4A, 0xD4, 0x9C,
            0x55, 0x5E, 0xBD, 0xCA, 0x59, 0xB8, 0x1B, 0x4C, 0x13, 0x41, 0x2E, 0x32, 0xA5, 0xC9,
            0x3B, 0x61, 0xAD, 0xB8, 0x4D, 0xB3, 0xF9, 0x0C, 0x03, 0x51, 0xB2, 0x9E, 0x7B, 0xAE,
            0x46, 0x9F, 0x8D, 0x60, 0x5D, 0xED, 0xFF, 0x51, 0x72, 0xDE, 0xA1, 0x6F, 0x00, 0xF7,
            0xB4, 0x82, 0xEF, 0x87, 0xED, 0x77, 0xD9, 0x1A,
        ]
    );
}

#[test]
fn all_output_sizes_dot_message() {
    let msg: &[u8] = b"The lazy fox jumps over the lazy dog.";
    assert_eq!(oneshot(64, msg), vec![0xF3, 0x50, 0x60, 0xAE, 0xD7, 0xF0, 0xB0, 0x96]);
    assert_eq!(
        oneshot(128, msg),
        vec![
            0x08, 0x5E, 0xA5, 0xF6, 0x6D, 0x2A, 0xC1, 0xF3, 0xCF, 0xC5, 0x6F, 0xA3, 0x7D, 0x1B,
            0xEC, 0x9C,
        ]
    );
    assert_eq!(
        oneshot(256, msg),
        vec![
            0x06, 0x60, 0xBB, 0x89, 0x85, 0x06, 0xE4, 0xD9, 0x29, 0x8C, 0xD1, 0xB0, 0x40, 0x73,
            0x49, 0x60, 0x47, 0x3E, 0x25, 0xA4, 0x9D, 0x52, 0x34, 0xBB, 0x2A, 0xCA, 0x31, 0x57,
            0xD1, 0xAF, 0x27, 0xAA,
        ]
    );
    assert_eq!(
        oneshot(512, msg),
        vec![
            0xA5, 0xFE, 0xC7, 0x36, 0x81, 0xFA, 0x64, 0xBE, 0xE7, 0x2D, 0xB6, 0x05, 0x35, 0x26,
            0x6C, 0x00, 0x6B, 0x2A, 0x49, 0x54, 0x04, 0x7E, 0x39, 0x05, 0xD1, 0xFE, 0xB3, 0x25,
            0x21, 0x01, 0x81, 0x2D, 0xF2, 0x20, 0xC9, 0x09, 0xD4, 0xD7, 0xB7, 0x94, 0x53, 0xB4,
            0x2D, 0xAD, 0x6D, 0x75, 0x52, 0xC7, 0x82, 0xE8, 0x4E, 0xFC, 0x3C, 0x34, 0x5B, 0x0C,
            0xFF, 0x72, 0x1B, 0x56, 0x73, 0x05, 0x6B, 0x75,
        ]
    );
}

#[test]
fn multi_equals_single_64() {
    let mut state = Md6::new(64).unwrap();
    state.update(b"Za\xc5\xbc\xc3\xb3\xc5\x82\xc4\x87 ");
    state.update(b"g\xc4\x99\xc5\x9bl\xc4\x85 ");
    state.update(b"ja\xc5\xba\xc5\x84");
    let mut result_multi = Vec::new();
    state.finalise(&mut result_multi);
    let result_single = oneshot(64, b"Za\xc5\xbc\xc3\xb3\xc5\x82\xc4\x87 g\xc4\x99\xc5\x9bl\xc4\x85 ja\xc5\xba\xc5\x84");
    assert_eq!(result_multi, result_single);
}
