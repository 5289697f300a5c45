//! Mathematical model of the tree-mode scheduler: a stack of levels, each a
//! 64-word accumulation buffer with an occupancy count in bits and a node
//! counter.  Absorption is defined byte by byte, so that the state after any
//! sequence of appends is a function of the concatenated bytes alone; that is
//! what makes the digest independent of how the input was chunked.

use vstd::prelude::*;
use vstd::arithmetic::div_mod::{lemma_fundamental_div_mod, lemma_fundamental_div_mod_converse};
use crate::compress::{spec_compress, MD6_L};

verus! {

/// One level of the scheduler stack.
#[verifier::ext_equal]
pub ghost struct LevelModel {
    /// The 64-word accumulation buffer.
    pub words: Seq<u64>,
    /// Occupancy in bits.
    pub bits: nat,
    /// How many compressions this level has fed: the node position index.
    pub i: u64,
}

/// The fixed parameters of one hash computation.
#[verifier::ext_equal]
pub ghost struct ParamsModel {
    /// Requested digest length in bits, 1 to 512.
    pub d: u64,
    /// Key length in bytes, 0 to 64.
    pub keylen: u64,
    /// The key packed into 8 big-endian words.
    pub key: Seq<u64>,
    /// Round count.
    pub r: u64,
}

/// Capacity of a level buffer, in bits.
pub open spec fn block_bits() -> nat {
    4096
}

pub open spec fn empty_level() -> LevelModel {
    LevelModel { words: Seq::new(64, |j: int| 0u64), bits: 0, i: 0 }
}

/// The scheduler starts with a single empty leaf level.
pub open spec fn init_levels() -> Seq<LevelModel> {
    seq![empty_level()]
}

/// The 64-bit node counter of a level, stepped as machine words are.
pub open spec fn inc_i(i: u64) -> u64 {
    if i == u64::MAX { 0 } else { (i + 1) as u64 }
}

pub open spec fn cleared(l: LevelModel) -> LevelModel {
    LevelModel { words: Seq::new(64, |j: int| 0u64), bits: 0, i: inc_i(l.i) }
}

/// Write a 16-word chaining value into a level at its current word offset.
pub open spec fn level_with_cv(l: LevelModel, cv: Seq<u64>) -> LevelModel {
    let off = l.bits / 64;
    LevelModel {
        words: Seq::new(64, |j: int| if off <= j < off + 16 { cv[j - off] } else { l.words[j] }),
        bits: (l.bits + 1024) as nat,
        i: l.i,
    }
}

/// Pack one more message byte into the leaf buffer, big-endian within words.
pub open spec fn leaf_with_byte(l: LevelModel, b: u8) -> LevelModel {
    let off = l.bits / 64;
    let sh = 56 - 8 * ((l.bits / 8) % 8);
    LevelModel {
        words: l.words.update(off as int, l.words[off as int] | ((b as u64) << sh)),
        bits: (l.bits + 8) as nat,
        i: l.i,
    }
}

/// The chaining value produced by compressing level `ell` (0-based; the
/// primitive numbers levels from 1) with root flag `z`; padding is the unused
/// part of the block.
pub open spec fn level_cv(p: ParamsModel, ell: int, l: LevelModel, z: u64) -> Seq<u64> {
    spec_compress(
        p.key, (ell + 1) as u64, l.i, p.r, z, (block_bits() - l.bits) as u64, p.keylen, p.d, l.words,
    )
}

/// Structural well-formedness of the stack: one leaf plus at most 64 parent
/// levels; the leaf holds whole bytes, parents hold whole chaining values and
/// always have room for one more.
pub open spec fn stack_wf(ls: Seq<LevelModel>) -> bool {
    &&& 1 <= ls.len() <= MD6_L + 1
    &&& forall|j: int| 0 <= j < ls.len() ==> (#[trigger] ls[j]).words.len() == 64
    &&& ls[0].bits % 8 == 0 && ls[0].bits <= block_bits()
    &&& forall|j: int| 1 <= j < ls.len() ==> (#[trigger] ls[j]).bits % 1024 == 0 && ls[j].bits <= 3072
}

/// Deliver a chaining value to level `ell`, compressing and cascading upward
/// while buffers fill; at the last level the chain value feeds back into the
/// same level (sequential mode).
pub open spec fn push_cv(p: ParamsModel, ls: Seq<LevelModel>, ell: int, cv: Seq<u64>) -> Seq<LevelModel>
    decreases MD6_L + 1 - ell,
{
    let ls1 = if ell >= ls.len() { ls.push(empty_level()) } else { ls };
    let l0 = ls1[ell];
    let l1 = if ell == MD6_L && l0.bits == 0 && l0.i == 0 {
        LevelModel { words: l0.words, bits: 1024, i: l0.i }
    } else {
        l0
    };
    let l2 = level_with_cv(l1, cv);
    if l2.bits == block_bits() && ell < MD6_L && ell < ls.len() {
        let cv2 = level_cv(p, ell, l2, 0);
        push_cv(p, ls1.update(ell, cleared(l2)), ell + 1, cv2)
    } else if l2.bits == block_bits() {
        let cv2 = level_cv(p, ell, l2, 0);
        ls1.update(ell, level_with_cv(cleared(l2), cv2))
    } else {
        ls1.update(ell, l2)
    }
}

/// Absorb one message byte: if the leaf block is full, compress it first and
/// send the chaining value up, then append the byte.
pub open spec fn absorb_byte(p: ParamsModel, ls: Seq<LevelModel>, b: u8) -> Seq<LevelModel> {
    let ls1 = if ls[0].bits == block_bits() {
        push_cv(p, ls.update(0, cleared(ls[0])), 1, level_cv(p, 0, ls[0], 0))
    } else {
        ls
    };
    ls1.update(0, leaf_with_byte(ls1[0], b))
}

/// Absorb a byte sequence, left to right.
pub open spec fn absorb_seq(p: ParamsModel, ls: Seq<LevelModel>, data: Seq<u8>) -> Seq<LevelModel>
    decreases data.len(),
{
    if data.len() == 0 {
        ls
    } else {
        absorb_byte(p, absorb_seq(p, ls, data.drop_last()), data.last())
    }
}

/// Drain the stack from level `ell` up: every level below the top is padded,
/// compressed as an inner node and fed upward; the top level is compressed
/// with the root flag set, and its output is the root chaining value.
pub open spec fn drain_from(p: ParamsModel, ls: Seq<LevelModel>, ell: int) -> Seq<u64>
    decreases ls.len() - ell
    via drain_from_dec
{
    if ell >= ls.len() - 1 || ell < 0 {
        level_cv(p, ell, ls[ell], 1)
    } else {
        let cv = level_cv(p, ell, ls[ell], 0);
        let lnext = ls[ell + 1];
        let lnext1 = if ell + 1 == MD6_L && lnext.bits == 0 && lnext.i == 0 {
            LevelModel { words: lnext.words, bits: 1024, i: lnext.i }
        } else {
            lnext
        };
        drain_from(p, ls.update(ell + 1, level_with_cv(lnext1, cv)), ell + 1)
    }
}

#[via_fn]
proof fn drain_from_dec(p: ParamsModel, ls: Seq<LevelModel>, ell: int) {
    if 0 <= ell && ell < ls.len() - 1 {
        assert(forall|x: LevelModel| (#[trigger] ls.update(ell + 1, x)).len() == ls.len());
    }
}

/// The 128 bytes of a chaining value, each word big-endian.
pub open spec fn cv_bytes(cv: Seq<u64>) -> Seq<u8> {
    Seq::new(128, |j: int| ((cv[j / 8] >> (56 - 8 * (j % 8))) & 0xff) as u8)
}

/// The digest: the low-order `d` bits of the root chaining value, left-aligned
/// in `ceil(d / 8)` bytes.
pub open spec fn trim_digest(cv: Seq<u64>, d: u64) -> Seq<u8> {
    let nb = ((d + 7) / 8) as int;
    let tail = cv_bytes(cv).subrange(128 - nb, 128);
    if d % 8 == 0 {
        tail
    } else {
        Seq::new(nb as nat, |j: int| shifted_byte(tail, nb, d % 8, j))
    }
}

/// One byte of a digest whose bit length is not a whole number of bytes:
/// shifted left so the digest bits are left-aligned, pulling from the next byte.
pub open spec fn shifted_byte(tail: Seq<u8>, nb: int, dmod: u64, j: int) -> u8 {
    ((((tail[j] as u64) << ((8 - dmod) as u64))
        | (if j + 1 < nb { (tail[j + 1] as u64) >> dmod } else { 0 })) & 0xff) as u8
}

/// One byte of the key, zero beyond its length.
pub open spec fn key_byte(key: Seq<u8>, j: int) -> u64 {
    if 0 <= j < key.len() { key[j] as u64 } else { 0 }
}

/// One packed big-endian key word.
pub open spec fn key_word(key: Seq<u8>, w: int) -> u64 {
    (key_byte(key, 8 * w) << 56) | (key_byte(key, 8 * w + 1) << 48)
        | (key_byte(key, 8 * w + 2) << 40) | (key_byte(key, 8 * w + 3) << 32)
        | (key_byte(key, 8 * w + 4) << 24) | (key_byte(key, 8 * w + 5) << 16)
        | (key_byte(key, 8 * w + 6) << 8) | key_byte(key, 8 * w + 7)
}

/// The key packed into 8 big-endian words, zero-padded.
pub open spec fn pack_key(key: Seq<u8>) -> Seq<u64> {
    Seq::new(8, |w: int| key_word(key, w))
}

/// Round count for a digest length: larger outputs take more rounds, and a
/// keyed computation takes at least 80.
pub open spec fn rounds_for(d: u64, keylen: u64) -> u64 {
    let base = (40 + d / 4) as u64;
    if keylen > 0 && base < 80 { 80 } else { base }
}

/// The parameters derived from a digest length and key.
pub open spec fn params_for(d: u64, key: Seq<u8>) -> ParamsModel {
    ParamsModel {
        d,
        keylen: key.len() as u64,
        key: pack_key(key),
        r: rounds_for(d, key.len() as u64),
    }
}

/// The MD6 digest of `data` under digest length `d` and `key`: absorb every
/// byte, drain the stack, truncate the root chaining value.
pub open spec fn md6_digest(d: u64, key: Seq<u8>, data: Seq<u8>) -> Seq<u8> {
    let p = params_for(d, key);
    trim_digest(drain_from(p, absorb_seq(p, init_levels(), data), 0), d)
}

/// Delivering a chaining value keeps the stack well formed and touches no
/// level below the one it is delivered to.
pub proof fn lemma_push_cv_wf(p: ParamsModel, ls: Seq<LevelModel>, ell: int, cv: Seq<u64>)
    requires
        stack_wf(ls),
        1 <= ell <= ls.len(),
        ell <= MD6_L,
    ensures
        stack_wf(push_cv(p, ls, ell, cv)),
        push_cv(p, ls, ell, cv).len() >= ls.len(),
        forall|j: int| 0 <= j < ell ==> push_cv(p, ls, ell, cv)[j] == ls[j],
    decreases MD6_L + 1 - ell,
{
    let ls1 = if ell >= ls.len() { ls.push(empty_level()) } else { ls };
    assert(stack_wf(ls1));
    let l0 = ls1[ell];
    let l1 = if ell == MD6_L && l0.bits == 0 && l0.i == 0 {
        LevelModel { words: l0.words, bits: 1024, i: l0.i }
    } else {
        l0
    };
    let l2 = level_with_cv(l1, cv);
    if l2.bits == block_bits() && ell < MD6_L && ell < ls.len() {
        let cv2 = level_cv(p, ell, l2, 0);
        let ls2 = ls1.update(ell, cleared(l2));
        assert(stack_wf(ls2));
        lemma_push_cv_wf(p, ls2, ell + 1, cv2);
        assert(push_cv(p, ls, ell, cv) == push_cv(p, ls2, ell + 1, cv2));
        assert forall|j: int| 0 <= j < ell implies push_cv(p, ls2, ell + 1, cv2)[j] == ls[j] by {
            assert(push_cv(p, ls2, ell + 1, cv2)[j] == ls2[j]);
            assert(ls2[j] == ls[j]);
        }
    } else if l2.bits == block_bits() {
        assert(stack_wf(ls1.update(ell, level_with_cv(cleared(l2), cv2_any(p, ell, l2)))));
    } else {
        assert(stack_wf(ls1.update(ell, l2)));
    }
}

/// Helper naming the chaining value of a full block, to keep the proof above readable.
pub open spec fn cv2_any(p: ParamsModel, ell: int, l2: LevelModel) -> Seq<u64> {
    level_cv(p, ell, l2, 0)
}

/// Absorbing one byte keeps the stack well formed.
pub proof fn lemma_absorb_byte_wf(p: ParamsModel, ls: Seq<LevelModel>, b: u8)
    requires
        stack_wf(ls),
    ensures
        stack_wf(absorb_byte(p, ls, b)),
{
    if ls[0].bits == block_bits() {
        let ls2 = ls.update(0, cleared(ls[0]));
        assert(stack_wf(ls2));
        lemma_push_cv_wf(p, ls2, 1, level_cv(p, 0, ls[0], 0));
    }
}

/// Absorbing any byte sequence keeps the stack well formed.
pub proof fn lemma_absorb_seq_wf(p: ParamsModel, ls: Seq<LevelModel>, data: Seq<u8>)
    requires
        stack_wf(ls),
    ensures
        stack_wf(absorb_seq(p, ls, data)),
    decreases data.len(),
{
    if data.len() > 0 {
        lemma_absorb_seq_wf(p, ls, data.drop_last());
        lemma_absorb_byte_wf(p, absorb_seq(p, ls, data.drop_last()), data.last());
    }
}

/// Chunking independence: absorbing a concatenation is absorbing its parts in
/// order, so any way of splitting a message across calls reaches the same state.
pub proof fn lemma_absorb_seq_concat(p: ParamsModel, ls: Seq<LevelModel>, a: Seq<u8>, b: Seq<u8>)
    ensures
        absorb_seq(p, ls, a + b) == absorb_seq(p, absorb_seq(p, ls, a), b),
    decreases b.len(),
{
    if b.len() == 0 {
        assert(a + b =~= a);
    } else {
        lemma_absorb_seq_concat(p, ls, a, b.drop_last());
        assert((a + b).drop_last() =~= a + b.drop_last());
        assert((a + b).last() == b.last());
        assert(absorb_seq(p, ls, a + b)
            == absorb_byte(p, absorb_seq(p, ls, (a + b).drop_last()), (a + b).last()));
    }
}

/// The digest always has exactly `ceil(d / 8)` bytes.
pub proof fn lemma_digest_len(d: u64, key: Seq<u8>, data: Seq<u8>)
    requires
        1 <= d <= 512,
    ensures
        md6_digest(d, key, data).len() == (d + 7) / 8,
{
}

/// Absorb a sequence of chunks, one after the other.
pub open spec fn absorb_chunks(p: ParamsModel, ls: Seq<LevelModel>, chunks: Seq<Seq<u8>>) -> Seq<
    LevelModel,
>
    decreases chunks.len(),
{
    if chunks.len() == 0 {
        ls
    } else {
        absorb_chunks(p, absorb_seq(p, ls, chunks.first()), chunks.drop_first())
    }
}

/// Chunking independence: absorbing a message chunk by chunk, under any
/// partition whatsoever, reaches exactly the state of absorbing the
/// concatenated message in one piece — so the digests agree too.
pub proof fn lemma_chunking_independence(p: ParamsModel, ls: Seq<LevelModel>, chunks: Seq<Seq<u8>>)
    ensures
        absorb_chunks(p, ls, chunks) == absorb_seq(p, ls, chunks.flatten()),
    decreases chunks.len(),
{
    if chunks.len() == 0 {
        assert(chunks.flatten() =~= Seq::<u8>::empty());
    } else {
        lemma_chunking_independence(p, absorb_seq(p, ls, chunks.first()), chunks.drop_first());
        lemma_absorb_seq_concat(p, ls, chunks.first(), chunks.drop_first().flatten());
        assert(chunks.flatten() == chunks.first() + chunks.drop_first().flatten());
    }
}

/// Chunking independence at digest level: draining the state reached through
/// any partition of a message yields the digest of the whole message.
pub proof fn lemma_digest_of_chunks(d: u64, key: Seq<u8>, chunks: Seq<Seq<u8>>)
    ensures
        trim_digest(
            drain_from(params_for(d, key), absorb_chunks(params_for(d, key), init_levels(), chunks), 0),
            d,
        ) == md6_digest(d, key, chunks.flatten()),
{
    lemma_chunking_independence(params_for(d, key), init_levels(), chunks);
}

/// How one more unit moves a counter split into 512-sized blocks.
proof fn lemma_counter_step(q: int)
    requires
        q >= 0,
    ensures
        q % 512 == 511 ==> (q + 1) % 512 == 0 && (q + 1) / 512 == q / 512 + 1,
        q % 512 != 511 ==> (q + 1) % 512 == q % 512 + 1 && (q + 1) / 512 == q / 512,
{
    lemma_fundamental_div_mod(q, 512);
    if q % 512 == 511 {
        lemma_fundamental_div_mod_converse(q + 1, 512, q / 512 + 1, 0);
    } else {
        lemma_fundamental_div_mod_converse(q + 1, 512, q / 512, q % 512 + 1);
    }
}

/// The leaf level fills and compresses exactly at the 512-byte block
/// boundary: after absorbing `n > 0` bytes it buffers `((n - 1) % 512) + 1`
/// bytes and has compressed `(n - 1) / 512` blocks — so the cascade triggers
/// neither early nor late, and exactly once per block.
pub proof fn lemma_leaf_block_boundary(p: ParamsModel, data: Seq<u8>)
    requires
        data.len() <= u64::MAX,
    ensures
        data.len() == 0 ==> absorb_seq(p, init_levels(), data)[0].bits == 0 && absorb_seq(
            p, init_levels(), data)[0].i == 0,
        data.len() > 0 ==> absorb_seq(p, init_levels(), data)[0].bits == 8 * (((data.len() - 1)
            % 512) + 1) && absorb_seq(p, init_levels(), data)[0].i == (data.len() - 1) / 512,
    decreases data.len(),
{
    if data.len() > 0 {
        let prev = data.drop_last();
        lemma_leaf_block_boundary(p, prev);
        lemma_absorb_seq_wf(p, init_levels(), prev);
        let lsp = absorb_seq(p, init_levels(), prev);
        let b = data.last();
        assert(absorb_seq(p, init_levels(), data) == absorb_byte(p, lsp, b));
        if prev.len() == 0 {
            assert(lsp[0].bits == 0);
            assert(absorb_byte(p, lsp, b)[0] == leaf_with_byte(lsp[0], b));
        } else {
            let q = prev.len() - 1;
            lemma_counter_step(q);
            if lsp[0].bits == block_bits() {
                assert(q % 512 == 511);
                let ls2 = lsp.update(0, cleared(lsp[0]));
                assert(stack_wf(ls2));
                lemma_push_cv_wf(p, ls2, 1, level_cv(p, 0, lsp[0], 0));
                let ls3 = push_cv(p, ls2, 1, level_cv(p, 0, lsp[0], 0));
                assert(ls3[0] == cleared(lsp[0]));
                assert(lsp[0].i < u64::MAX) by {
                    assert(lsp[0].i == q / 512);
                    assert(q / 512 < u64::MAX);
                }
                assert(ls3[0].i == lsp[0].i + 1);
                assert(absorb_byte(p, lsp, b)[0] == leaf_with_byte(ls3[0], b));
            } else {
                assert(q % 512 != 511);
                assert(absorb_byte(p, lsp, b)[0] == leaf_with_byte(lsp[0], b));
            }
        }
    }
}

} // verus!
