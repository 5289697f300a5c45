//! Property tests: parameter rejection, digest length, determinism, chunking
//! independence and block-capacity boundaries.

use md6::{hash, Md6, Md6Error};

fn oneshot(bits: i32, data: &[u8]) -> Vec<u8> {
    let mut out = Vec::new();
    hash(bits, data, &mut out).unwrap();
    out
}

fn chunked(bits: i32, chunks: &[&[u8]]) -> Vec<u8> {
    let mut state = Md6::new(bits).unwrap();
    for c in chunks {
        state.update(c);
    }
    let mut out = Vec::new();
    state.finalise(&mut out);
    out
}

#[test]
fn rejects_bad_hashbitlen() {
    let mut out = Vec::new();
    assert_eq!(hash(0, b"x", &mut out), Err(Md6Error::BadHashbitlen));
    assert_eq!(hash(1024, b"x", &mut out), Err(Md6Error::BadHashbitlen));
    assert_eq!(hash(-7, b"x", &mut out), Err(Md6Error::BadHashbitlen));
    assert_eq!(Md6::new(0).map(|_| ()), Err(Md6Error::BadHashbitlen));
    assert_eq!(Md6::new(1024).map(|_| ()), Err(Md6Error::BadHashbitlen));
    assert_eq!(Md6::new(513).map(|_| ()), Err(Md6Error::BadHashbitlen));
    assert!(Md6::new(1).is_ok());
    assert!(Md6::new(512).is_ok());
    assert!(hash(1, b"x", &mut out).is_ok());
    assert!(hash(512, b"x", &mut out).is_ok());
}

#[test]
fn error_leaves_output_untouched() {
    let mut out = vec![0xAAu8, 0xBB];
    assert_eq!(hash(0, b"x", &mut out), Err(Md6Error::BadHashbitlen));
    assert_eq!(out, vec![0xAAu8, 0xBB]);
}

#[test]
fn digest_length_is_ceil_bits_over_8() {
    for &(bits, len) in
        &[(1i32, 1usize), (7, 1), (8, 1), (9, 2), (63, 8), (64, 8), (65, 9), (255, 32), (256, 32), (511, 64), (512, 64)]
    {
        assert_eq!(oneshot(bits, b"abc").len(), len, "bits={}", bits);
        assert_eq!(oneshot(bits, b"").len(), len, "bits={}", bits);
    }
}

#[test]
fn deterministic() {
    let data = b"determinism check".as_slice();
    assert_eq!(oneshot(256, data), oneshot(256, data));
    assert_eq!(oneshot(1, data), oneshot(1, data));
    assert_eq!(chunked(200, &[b"deter", b"minism check"]), chunked(200, &[b"det", b"erminism check"]));
}

#[test]
fn chunking_independence_small() {
    let data = b"The scheduler must not care where the chunk boundaries fall.";
    let one = oneshot(256, data);
    assert_eq!(one, chunked(256, &[data.as_slice()]));
    assert_eq!(one, chunked(256, &[&data[..1], &data[1..]]));
    assert_eq!(one, chunked(256, &[&data[..17], &data[17..40], &data[40..]]));
    let singles: Vec<&[u8]> = data.chunks(1).collect();
    assert_eq!(one, chunked(256, &singles));
    assert_eq!(one, chunked(256, &[b"", data.as_slice(), b""]));
}

#[test]
fn empty_update_calls_are_no_ops() {
    let mut state = Md6::new(256).unwrap();
    state.update(b"");
    state.update(b"");
    let mut out = Vec::new();
    state.finalise(&mut out);
    assert_eq!(out, oneshot(256, b""));
}

/// One leaf block holds 512 bytes; these sizes sit exactly on, just below and
/// just above the capacity boundaries where the compression cascade triggers.
#[test]
fn block_capacity_boundaries() {
    for &n in &[511usize, 512, 513, 1023, 1024, 1025, 2047, 2048, 2049, 2560] {
        let data: Vec<u8> = (0..n).map(|i| (i % 251) as u8).collect();
        let one = oneshot(256, &data);
        assert_eq!(one.len(), 32, "n={}", n);
        // split exactly at the capacity boundary
        let mid = if n >= 512 { 512 } else { n / 2 };
        assert_eq!(one, chunked(256, &[&data[..mid], &data[mid..]]), "n={}", n);
        // split at an unaligned point
        assert_eq!(one, chunked(256, &[&data[..n / 3], &data[n / 3..]]), "n={}", n);
    }
}

#[test]
fn boundary_sizes_differ_from_neighbours() {
    let d511 = oneshot(256, &vec![0u8; 511]);
    let d512 = oneshot(256, &vec![0u8; 512]);
    let d513 = oneshot(256, &vec![0u8; 513]);
    assert_ne!(d511, d512);
    assert_ne!(d512, d513);
    assert_ne!(d511, d513);
}

#[test]
fn keyed_hashing() {
    let mut st = Md6::new_with_key(256, b"secret key").unwrap();
    st.update(b"payload");
    let mut keyed = Vec::new();
    st.finalise(&mut keyed);
    assert_eq!(keyed.len(), 32);
    // keyed digest differs from the unkeyed one
    assert_ne!(keyed, oneshot(256, b"payload"));
    // deterministic and chunk-independent under a key as well
    let mut st2 = Md6::new_with_key(256, b"secret key").unwrap();
    st2.update(b"pay");
    st2.update(b"load");
    let mut keyed2 = Vec::new();
    st2.finalise(&mut keyed2);
    assert_eq!(keyed, keyed2);
    // a different key gives a different digest
    let mut st3 = Md6::new_with_key(256, b"secret kez").unwrap();
    st3.update(b"payload");
    let mut keyed3 = Vec::new();
    st3.finalise(&mut keyed3);
    assert_ne!(keyed, keyed3);
}

#[test]
fn empty_key_matches_unkeyed() {
    let mut st = md6::Md6::new_with_key(256, b"").unwrap();
    st.update(b"same bytes");
    let mut out = Vec::new();
    st.finalise(&mut out);
    assert_eq!(out, oneshot(256, b"same bytes"));
}

#[test]
fn keyed_rejects_long_key() {
    assert_eq!(Md6::new_with_key(256, &[7u8; 65]).map(|_| ()), Err(Md6Error::BadHashbitlen));
    assert!(Md6::new_with_key(256, &[7u8; 64]).is_ok());
}
