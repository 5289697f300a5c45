//! The MD6 compression primitive: a fixed-width mixing function that turns a
//! 89-word input (constants, key, node identifier, control word, data block)
//! into a 16-word chaining value by `r` rounds of 16 bitwise steps each.

use vstd::prelude::*;

verus! {

/// Words per chaining value.
pub const MD6_C: usize = 16;
/// Words per level data block.
pub const MD6_B: usize = 64;
/// Words of key.
pub const MD6_K: usize = 8;
/// Words of compression input: 15 constants + 8 key + node id + control + 64 data.
pub const MD6_N: usize = 89;
/// Mode parameter: number of tree levels before the scheduler goes sequential.
pub const MD6_L: u64 = 64;

/// Initial value of the round constant.
pub const MD6_S0: u64 = 0x0123456789abcdef;
/// Mask folded into the round constant each round.
pub const MD6_SMASK: u64 = 0x7311c2812425cfa0;

/// The fifteen fixed initialisation words (fractional part of sqrt(6)).
pub open spec fn q_words() -> Seq<u64> {
    seq![
        0x7311c2812425cfa0u64,
        0x6432286434aac8e7u64,
        0xb60450e9ef68b7c1u64,
        0xe8fb23908d9f06f1u64,
        0xdd2e76cba691e5bfu64,
        0x0cd0d63b2c30bc41u64,
        0x1f8ccf6823058f8au64,
        0x54e5ed5b88e3775du64,
        0x4ad12aae0a6d6031u64,
        0x3e7f16bb88222e0du64,
        0x8af8671d3fb50c2cu64,
        0x995ad1178bd25c31u64,
        0xc878c1dd04c4b633u64,
        0x3b72066c7a1552acu64,
        0x0d6f3522631effcbu64,
    ]
}

/// Right-shift distance for step `i` within a round.
pub open spec fn spec_rs(i: int) -> u64 {
    if i == 0 { 10 } else if i == 1 { 5 } else if i == 2 { 13 } else if i == 3 { 10 }
    else if i == 4 { 11 } else if i == 5 { 12 } else if i == 6 { 2 } else if i == 7 { 7 }
    else if i == 8 { 14 } else if i == 9 { 15 } else if i == 10 { 7 } else if i == 11 { 13 }
    else if i == 12 { 11 } else if i == 13 { 7 } else if i == 14 { 6 } else { 12 }
}

/// Left-shift distance for step `i` within a round.
pub open spec fn spec_ls(i: int) -> u64 {
    if i == 0 { 11 } else if i == 1 { 24 } else if i == 2 { 9 } else if i == 3 { 16 }
    else if i == 4 { 15 } else if i == 5 { 9 } else if i == 6 { 27 } else if i == 7 { 15 }
    else if i == 8 { 6 } else if i == 9 { 2 } else if i == 10 { 29 } else if i == 11 { 8 }
    else if i == 12 { 15 } else if i == 13 { 5 } else if i == 14 { 31 } else { 9 }
}

fn rs_for(i: usize) -> (r: u64)
    requires
        i < 16,
    ensures
        r == spec_rs(i as int),
        r < 64,
{
    match i {
        0 => 10, 1 => 5, 2 => 13, 3 => 10,
        4 => 11, 5 => 12, 6 => 2, 7 => 7,
        8 => 14, 9 => 15, 10 => 7, 11 => 13,
        12 => 11, 13 => 7, 14 => 6, _ => 12,
    }
}

fn ls_for(i: usize) -> (r: u64)
    requires
        i < 16,
    ensures
        r == spec_ls(i as int),
        r < 64,
{
    match i {
        0 => 11, 1 => 24, 2 => 9, 3 => 16,
        4 => 15, 5 => 9, 6 => 27, 7 => 15,
        8 => 6, 9 => 2, 10 => 29, 11 => 8,
        12 => 15, 13 => 5, 14 => 31, _ => 9,
    }
}

/// Unique identifier of one compression node: level number and position.
pub open spec fn spec_node_id(ell: u64, i: u64) -> u64 {
    (ell << 56) | i
}

/// Control word: rounds, mode parameter, root flag `z`, padding bit count `p`,
/// key length in bytes, digest length in bits.
pub open spec fn spec_control_word(r: u64, z: u64, p: u64, keylen: u64, d: u64) -> u64 {
    (r << 48) | (MD6_L << 40) | (z << 36) | (p << 20) | (keylen << 12) | d
}

/// Evolution of the round constant from one round to the next.
pub open spec fn spec_s_next(s: u64) -> u64 {
    ((s << 1) ^ (s >> 63)) ^ (s & MD6_SMASK)
}

/// The word produced by the next step of the main loop, given the words so far
/// and the current round constant.
pub open spec fn spec_step(a: Seq<u64>, s: u64) -> u64 {
    let i = a.len() as int;
    let idx = (i - 89) % 16;
    let x0 = s ^ a[i - 89] ^ a[i - 17] ^ (a[i - 18] & a[i - 21]) ^ (a[i - 31] & a[i - 67]);
    let x1 = x0 ^ (x0 >> spec_rs(idx));
    x1 ^ (x1 << spec_ls(idx))
}

/// Run `left` more steps of the main loop.
pub open spec fn spec_rounds(a: Seq<u64>, s: u64, left: nat) -> Seq<u64>
    decreases left,
{
    if left == 0 {
        a
    } else {
        let idx = ((a.len() as int) - 89) % 16;
        let s2 = if idx == 15 { spec_s_next(s) } else { s };
        spec_rounds(a.push(spec_step(a, s)), s2, (left - 1) as nat)
    }
}

/// The complete 89-word compression input.
pub open spec fn spec_pack_input(
    key: Seq<u64>, ell: u64, i: u64, r: u64, z: u64, p: u64, keylen: u64, d: u64, b: Seq<u64>,
) -> Seq<u64> {
    q_words() + key + seq![spec_node_id(ell, i), spec_control_word(r, z, p, keylen, d)] + b
}

/// The chaining value produced by one compression call: the last 16 words of
/// the expanded array after `16 * r` steps.
pub open spec fn spec_compress(
    key: Seq<u64>, ell: u64, i: u64, r: u64, z: u64, p: u64, keylen: u64, d: u64, b: Seq<u64>,
) -> Seq<u64> {
    let afin = spec_rounds(spec_pack_input(key, ell, i, r, z, p, keylen, d, b), MD6_S0, (16 * r) as nat);
    afin.subrange(afin.len() - 16, afin.len() as int)
}

/// One compression call of the primitive.
pub fn compress_block(
    key: &Vec<u64>, ell: u64, i: u64, r: u64, z: u64, p: u64, keylen: u64, d: u64, b: &Vec<u64>,
) -> (c: Vec<u64>)
    requires
        key@.len() == 8,
        b@.len() == 64,
        1 <= r <= 255,
    ensures
        c@ == spec_compress(key@, ell, i, r, z, p, keylen, d, b@),
        c@.len() == 16,
{
    let mut a: Vec<u64> = Vec::new();
    a.push(0x7311c2812425cfa0u64);
    a.push(0x6432286434aac8e7u64);
    a.push(0xb60450e9ef68b7c1u64);
    a.push(0xe8fb23908d9f06f1u64);
    a.push(0xdd2e76cba691e5bfu64);
    a.push(0x0cd0d63b2c30bc41u64);
    a.push(0x1f8ccf6823058f8au64);
    a.push(0x54e5ed5b88e3775du64);
    a.push(0x4ad12aae0a6d6031u64);
    a.push(0x3e7f16bb88222e0du64);
    a.push(0x8af8671d3fb50c2cu64);
    a.push(0x995ad1178bd25c31u64);
    a.push(0xc878c1dd04c4b633u64);
    a.push(0x3b72066c7a1552acu64);
    a.push(0x0d6f3522631effcbu64);
    assert(a@ =~= q_words());
    let mut j: usize = 0;
    while j < 8
        invariant
            key@.len() == 8,
            j <= 8,
            a@ =~= q_words() + key@.subrange(0, j as int),
        decreases 8 - j,
    {
        a.push(key[j]);
        j += 1;
        assert(a@ =~= q_words() + key@.subrange(0, j as int));
    }
    assert(key@.subrange(0, 8) =~= key@);
    a.push((ell << 56) | i);
    a.push((r << 48) | (MD6_L << 40) | (z << 36) | (p << 20) | (keylen << 12) | d);
    let mut j: usize = 0;
    while j < 64
        invariant
            b@.len() == 64,
            key@.len() == 8,
            j <= 64,
            a@ =~= q_words() + key@ + seq![spec_node_id(ell, i), spec_control_word(r, z, p, keylen, d)]
                + b@.subrange(0, j as int),
        decreases 64 - j,
    {
        a.push(b[j]);
        j += 1;
        assert(a@ =~= q_words() + key@ + seq![spec_node_id(ell, i), spec_control_word(r, z, p, keylen, d)]
            + b@.subrange(0, j as int));
    }
    assert(b@.subrange(0, 64) =~= b@);
    assert(a@ =~= spec_pack_input(key@, ell, i, r, z, p, keylen, d, b@));
    let ghost n0 = a@;

    let total: usize = 16 * (r as usize);
    let mut s: u64 = MD6_S0;
    let mut done: usize = 0;
    while done < total
        invariant
            total == 16 * r,
            done <= total,
            a@.len() == 89 + done,
            spec_rounds(a@, s, (total - done) as nat) == spec_rounds(n0, MD6_S0, total as nat),
        decreases total - done,
    {
        let ghost a_pre = a@;
        let ghost s_pre = s;
        let alen = a.len();
        let idx = (alen - 89) % 16;
        assert(idx == ((a@.len() as int) - 89) % 16);
        let rs = rs_for(idx);
        let ls = ls_for(idx);
        let x0 = s ^ a[alen - 89] ^ a[alen - 17] ^ (a[alen - 18] & a[alen - 21])
            ^ (a[alen - 31] & a[alen - 67]);
        let x1 = x0 ^ (x0 >> rs);
        let x = x1 ^ (x1 << ls);
        assert(x == spec_step(a_pre, s_pre));
        a.push(x);
        if idx == 15 {
            s = ((s << 1) ^ (s >> 63)) ^ (s & MD6_SMASK);
        }
        done += 1;
        proof {
            assert(spec_rounds(a_pre, s_pre, (total - done + 1) as nat)
                == spec_rounds(a@, s, (total - done) as nat));
        }
    }
    assert(spec_rounds(a@, s, 0) == a@);
    let base = a.len() - 16;
    let mut c: Vec<u64> = Vec::new();
    let mut j: usize = 0;
    while j < 16
        invariant
            base + 16 == a@.len(),
            a@.len() <= usize::MAX,
            a@.len() >= 16 + 89,
            j <= 16,
            c@ =~= a@.subrange(base as int, base + j),
        decreases 16 - j,
    {
        c.push(a[base + j]);
        j += 1;
        assert(c@ =~= a@.subrange(base as int, base + j));
    }
    assert(c@ =~= spec_compress(key@, ell, i, r, z, p, keylen, d, b@));
    c
}

} // verus!
