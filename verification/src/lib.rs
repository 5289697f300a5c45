//! An implementation of the MD6 hash function: a tree-mode scheduler that
//! absorbs input in fixed-size blocks, cascades chaining values through a
//! stack of levels, and finalises by draining every pending level into a
//! single root compression whose output is truncated to the requested length.
//!
//! There are two APIs provided: one for single-chunk hashing and one for
//! hashing of multiple data segments.  Every digest a `Md6` state produces is
//! proved equal to `model::md6_digest` of the bytes appended so far, so the
//! result never depends on how the input was split across `update` calls.

pub mod compress;
pub mod model;

use vstd::prelude::*;
use crate::compress::compress_block;
use crate::model::{
    LevelModel, ParamsModel, absorb_byte, absorb_seq, block_bits, cleared, cv_bytes, drain_from,
    empty_level, inc_i, init_levels, key_byte, key_word, leaf_with_byte, lemma_absorb_seq_wf,
    lemma_push_cv_wf, level_cv, level_with_cv, md6_digest, pack_key, params_for, push_cv,
    rounds_for, shifted_byte, stack_wf, trim_digest,
};

verus! {

/// Some functions in the library can fail, this enum represents all the possible ways they can.
#[derive(Debug, Clone, Copy, Hash, PartialEq, Eq, Structural)]
pub enum Md6Error {
    /// Generic failure state
    Fail,
    /// `hashbitlen` passed to `Md6::new()` or `hash()` incorrect
    BadHashbitlen,
}

/// One live level of the scheduler stack.
struct Level {
    words: Vec<u64>,
    bits: usize,
    i: u64,
}

impl View for Level {
    type V = LevelModel;

    closed spec fn view(&self) -> LevelModel {
        LevelModel { words: self.words@, bits: self.bits as nat, i: self.i }
    }
}

spec fn levels_view(ls: Seq<Level>) -> Seq<LevelModel> {
    Seq::new(ls.len(), |j: int| ls[j]@)
}

/// What a hashing state means to callers: its parameters, the bytes appended
/// so far, and whether it has been finalised.
#[verifier::ext_equal]
pub ghost struct Md6View {
    /// Requested digest length in bits.
    pub d: u64,
    /// The key bytes (empty unless the state was created with a key).
    pub key: Seq<u8>,
    /// Every byte appended so far, in order.
    pub absorbed: Seq<u8>,
    /// Whether `finalise` has been called.
    pub finalized: bool,
}

fn zero_words() -> (v: Vec<u64>)
    ensures
        v@ == Seq::new(64, |j: int| 0u64),
{
    let mut v: Vec<u64> = Vec::new();
    let mut j: usize = 0;
    while j < 64
        invariant
            j <= 64,
            v@.len() == j,
            forall|jj: int| 0 <= jj < j ==> v@[jj] == 0u64,
        decreases 64 - j,
    {
        v.push(0u64);
        j += 1;
    }
    proof {
        assert(v@ =~= Seq::new(64, |j: int| 0u64));
    }
    v
}

fn new_level() -> (l: Level)
    ensures
        l@ == empty_level(),
{
    let l = Level { words: zero_words(), bits: 0, i: 0 };
    proof {
        assert(l@ =~= empty_level());
    }
    l
}

fn inc_exec(i: u64) -> (r: u64)
    ensures
        r == inc_i(i),
{
    if i == u64::MAX { 0 } else { i + 1 }
}

fn key_byte_at(key: &[u8], j: usize) -> (b: u64)
    ensures
        b == key_byte(key@, j as int),
{
    if j < key.len() { key[j] as u64 } else { 0 }
}

fn pack_key_exec(key: &[u8]) -> (v: Vec<u64>)
    ensures
        v@ == pack_key(key@),
        v@.len() == 8,
{
    let mut v: Vec<u64> = Vec::new();
    let mut w: usize = 0;
    while w < 8
        invariant
            w <= 8,
            v@.len() == w,
            forall|ww: int| 0 <= ww < w ==> v@[ww] == key_word(key@, ww),
        decreases 8 - w,
    {
        let word = (key_byte_at(key, 8 * w) << 56) | (key_byte_at(key, 8 * w + 1) << 48)
            | (key_byte_at(key, 8 * w + 2) << 40) | (key_byte_at(key, 8 * w + 3) << 32)
            | (key_byte_at(key, 8 * w + 4) << 24) | (key_byte_at(key, 8 * w + 5) << 16)
            | (key_byte_at(key, 8 * w + 6) << 8) | key_byte_at(key, 8 * w + 7);
        assert(word == key_word(key@, w as int));
        v.push(word);
        w += 1;
    }
    proof {
        assert(v@ =~= pack_key(key@));
    }
    v
}

fn low_byte(x: u64) -> (b: u8)
    ensures
        b == ((x & 0xff) as u8),
{
    assert(x & 0xff < 256) by (bit_vector);
    (x & 0xff) as u8
}

/// Write a 16-word chaining value into a level buffer at its word offset.
fn level_append_cv(l: &mut Level, cv: &Vec<u64>)
    requires
        old(l)@.words.len() == 64,
        old(l)@.bits <= 3072,
        cv@.len() == 16,
    ensures
        final(l)@ == level_with_cv(old(l)@, cv@),
{
    let off = l.bits / 64;
    assert(off + 16 <= 64);
    let mut j: usize = 0;
    while j < 16
        invariant
            off == old(l)@.bits / 64,
            off + 16 <= 64,
            l.bits == old(l).bits,
            l.i == old(l).i,
            cv@.len() == 16,
            l.words@.len() == 64,
            j <= 16,
            forall|jj: int| 0 <= jj < 64 ==> l.words@[jj] == (
                if off <= jj < off + j { cv@[jj - off] } else { old(l)@.words[jj] }),
        decreases 16 - j,
    {
        l.words[off + j] = cv[j];
        j += 1;
    }
    l.bits = l.bits + 1024;
    proof {
        assert(l@.words =~= level_with_cv(old(l)@, cv@).words);
        assert(l@ =~= level_with_cv(old(l)@, cv@));
    }
}

/// Deliver a chaining value to level `ell`, compressing and cascading upward
/// while buffers fill.
fn push_cv_exec(
    levels: &mut Vec<Level>, key: &Vec<u64>, keylen: u64, d: u64, r: u64, ell: usize, cv: &Vec<u64>,
)
    requires
        key@.len() == 8,
        1 <= r <= 255,
        stack_wf(levels_view(old(levels)@)),
        1 <= ell <= old(levels)@.len(),
        ell <= 64,
        cv@.len() == 16,
    ensures
        levels_view(final(levels)@) == push_cv(
            (ParamsModel { d, keylen, key: key@, r }), levels_view(old(levels)@), ell as int, cv@),
    decreases 65 - ell,
{
    let ghost p = (ParamsModel { d, keylen, key: key@, r });
    let ghost ls0 = levels_view(levels@);
    if ell == levels.len() {
        levels.push(new_level());
    }
    let ghost ls1 = if ell >= ls0.len() { ls0.push(empty_level()) } else { ls0 };
    proof {
        assert(levels_view(levels@) =~= ls1);
        assert(stack_wf(ls1));
    }
    let mut l = levels.remove(ell);
    proof {
        assert(l@ == ls1[ell as int]);
    }
    if ell == 64 && l.bits == 0 && l.i == 0 {
        l.bits = 1024;
    }
    let ghost l1 = if ell == 64 && ls1[ell as int].bits == 0 && ls1[ell as int].i == 0 {
        LevelModel { words: ls1[ell as int].words, bits: 1024, i: ls1[ell as int].i }
    } else {
        ls1[ell as int]
    };
    proof {
        assert(l@ == l1);
        assert(l1.bits <= 3072);
    }
    level_append_cv(&mut l, cv);
    proof {
        assert(l@ == level_with_cv(l1, cv@));
    }
    if l.bits == 4096 && ell < 64 {
        let cv2 = compress_block(key, (ell as u64) + 1, l.i, r, 0, 0, keylen, d, &l.words);
        proof {
            assert(cv2@ == level_cv(p, ell as int, l@, 0));
        }
        let ghost l2 = l@;
        let lnew = Level { words: zero_words(), bits: 0, i: inc_exec(l.i) };
        proof {
            assert(lnew@ =~= cleared(l2));
        }
        levels.insert(ell, lnew);
        proof {
            assert(levels_view(levels@) =~= ls1.update(ell as int, cleared(l2)));
            assert(stack_wf(levels_view(levels@)));
        }
        push_cv_exec(levels, key, keylen, d, r, ell + 1, &cv2);
        proof {
            assert(push_cv(p, ls0, ell as int, cv@)
                == push_cv(p, ls1.update(ell as int, cleared(l2)), ell as int + 1, cv2@));
        }
    } else if l.bits == 4096 {
        let cv2 = compress_block(key, (ell as u64) + 1, l.i, r, 0, 0, keylen, d, &l.words);
        proof {
            assert(cv2@ == level_cv(p, ell as int, l@, 0));
        }
        let ghost l2 = l@;
        let mut lnew = Level { words: zero_words(), bits: 0, i: inc_exec(l.i) };
        proof {
            assert(lnew@ =~= cleared(l2));
        }
        level_append_cv(&mut lnew, &cv2);
        levels.insert(ell, lnew);
        proof {
            assert(levels_view(levels@) =~= ls1.update(
                ell as int, level_with_cv(cleared(l2), cv2@)));
        }
    } else {
        let ghost l2 = l@;
        levels.insert(ell, l);
        proof {
            assert(levels_view(levels@) =~= ls1.update(ell as int, l2));
        }
    }
}

/// Hashing state for multiple data segments.
///
/// Create it with [`Md6::new`], feed it with [`Md6::update`], and read the
/// digest with [`Md6::finalise`].  The digest is proved equal to the one-shot
/// digest of the concatenation of everything passed to `update`.
pub struct Md6 {
    d: u64,
    keylen: u64,
    key: Vec<u64>,
    r: u64,
    levels: Vec<Level>,
    finalized: bool,
    key_bytes: Ghost<Seq<u8>>,
    absorbed: Ghost<Seq<u8>>,
}

impl View for Md6 {
    type V = Md6View;

    closed spec fn view(&self) -> Md6View {
        Md6View {
            d: self.d,
            key: self.key_bytes@,
            absorbed: self.absorbed@,
            finalized: self.finalized,
        }
    }
}

impl Md6 {
    pub closed spec fn params(&self) -> ParamsModel {
        ParamsModel { d: self.d, keylen: self.keylen, key: self.key@, r: self.r }
    }

    /// The state is valid: parameters in range and the level stack equal to
    /// the model state reached by absorbing exactly the appended bytes.
    pub closed spec fn wf(&self) -> bool {
        &&& 1 <= self.d <= 512
        &&& self.keylen == self.key_bytes@.len()
        &&& self.keylen <= 64
        &&& self.key@ == pack_key(self.key_bytes@)
        &&& self.r == rounds_for(self.d, self.keylen)
        &&& self.params() == params_for(self.d, self.key_bytes@)
        &&& 1 <= self.r <= 255
        &&& !self.finalized ==> levels_view(self.levels@) == absorb_seq(
            self.params(), init_levels(), self.absorbed@)
    }

    /// Create a new hash state and initialise it with the given bit length.
    ///
    /// `hashbitlen` is the hash output length. Must be between `1` and `512`.
    ///
    /// Returns:
    ///
    ///   * `Err(Md6Error::BadHashbitlen)` if `hashbitlen` is not any of the mentioned above, or
    ///   * `Ok(Md6)` if initialisation succeeds.
    pub fn new(hashbitlen: i32) -> (res: Result<Md6, Md6Error>)
        ensures
            res is Ok <==> 1 <= hashbitlen <= 512,
            !(1 <= hashbitlen <= 512) ==> res == Err::<Md6, Md6Error>(Md6Error::BadHashbitlen),
            res matches Ok(m) ==> m.wf() && m@ == (Md6View {
                d: hashbitlen as u64,
                key: Seq::empty(),
                absorbed: Seq::empty(),
                finalized: false,
            }),
    {
        let empty: Vec<u8> = Vec::new();
        Md6::new_with_key(hashbitlen, empty.as_slice())
    }

    /// Create a keyed hash state: same as [`Md6::new`], with a key of at most
    /// 64 bytes folded into every compression.
    pub fn new_with_key(hashbitlen: i32, key: &[u8]) -> (res: Result<Md6, Md6Error>)
        ensures
            res is Ok <==> (1 <= hashbitlen <= 512 && key@.len() <= 64),
            !(1 <= hashbitlen <= 512 && key@.len() <= 64) ==> res == Err::<Md6, Md6Error>(
                Md6Error::BadHashbitlen),
            res matches Ok(m) ==> m.wf() && m@ == (Md6View {
                d: hashbitlen as u64,
                key: key@,
                absorbed: Seq::empty(),
                finalized: false,
            }),
    {
        if hashbitlen < 1 || hashbitlen > 512 {
            return Err(Md6Error::BadHashbitlen);
        }
        if key.len() > 64 {
            return Err(Md6Error::BadHashbitlen);
        }
        let d = hashbitlen as u64;
        let keylen = key.len() as u64;
        let base = 40 + d / 4;
        let r = if keylen > 0 && base < 80 { 80 } else { base };
        let kw = pack_key_exec(key);
        let mut levels: Vec<Level> = Vec::new();
        levels.push(new_level());
        let m = Md6 {
            d,
            keylen,
            key: kw,
            r,
            levels,
            finalized: false,
            key_bytes: Ghost(key@),
            absorbed: Ghost(Seq::empty()),
        };
        proof {
            assert(levels_view(m.levels@) =~= init_levels());
            assert(m.params() =~= params_for(d, key@));
            assert(m@ =~= (Md6View { d, key: key@, absorbed: Seq::empty(), finalized: false }));
        }
        Ok(m)
    }

    /// Absorb one byte: compress the leaf block first if it is full.
    fn absorb_one(&mut self, b: u8)
        requires
            old(self).wf(),
            !old(self)@.finalized,
        ensures
            final(self).wf(),
            final(self)@ == (Md6View { absorbed: old(self)@.absorbed.push(b), ..old(self)@ }),
    {
        let ghost p = self.params();
        let ghost ls0 = levels_view(self.levels@);
        proof {
            lemma_absorb_seq_wf(p, init_levels(), self.absorbed@);
            assert(stack_wf(ls0));
        }
        if self.levels[0].bits == 4096 {
            let l = self.levels.remove(0);
            let cv = compress_block(&self.key, 1, l.i, self.r, 0, 0, self.keylen, self.d, &l.words);
            proof {
                assert(cv@ == level_cv(p, 0, ls0[0], 0));
            }
            let lnew = Level { words: zero_words(), bits: 0, i: inc_exec(l.i) };
            proof {
                assert(lnew@ =~= cleared(ls0[0]));
            }
            self.levels.insert(0, lnew);
            proof {
                assert(levels_view(self.levels@) =~= ls0.update(0, cleared(ls0[0])));
                assert(stack_wf(levels_view(self.levels@)));
            }
            push_cv_exec(&mut self.levels, &self.key, self.keylen, self.d, self.r, 1, &cv);
            proof {
                lemma_push_cv_wf(p, ls0.update(0, cleared(ls0[0])), 1, cv@);
            }
        }
        let ghost ls1 = levels_view(self.levels@);
        proof {
            assert(ls1 == if ls0[0].bits == block_bits() {
                push_cv(p, ls0.update(0, cleared(ls0[0])), 1, level_cv(p, 0, ls0[0], 0))
            } else {
                ls0
            });
            assert(ls1[0].bits < 4096 && ls1[0].bits % 8 == 0 && ls1[0].words.len() == 64) by {
                if ls0[0].bits == block_bits() {
                    lemma_push_cv_wf(p, ls0.update(0, cleared(ls0[0])), 1, level_cv(p, 0, ls0[0], 0));
                    assert(ls1[0] == cleared(ls0[0]));
                }
            }
        }
        let mut l = self.levels.remove(0);
        let off = l.bits / 64;
        let bytepos = (l.bits / 8) % 8;
        let sh = (56 - 8 * bytepos) as u64;
        let w = l.words[off];
        l.words[off] = w | ((b as u64) << sh);
        l.bits = l.bits + 8;
        proof {
            assert(l@ =~= leaf_with_byte(ls1[0], b));
        }
        self.levels.insert(0, l);
        self.absorbed = Ghost(self.absorbed@.push(b));
        proof {
            assert(levels_view(self.levels@) =~= ls1.update(0, leaf_with_byte(ls1[0], b)));
            assert(levels_view(self.levels@) == absorb_byte(p, ls0, b));
            assert(self.absorbed@.drop_last() =~= old(self).absorbed@);
            assert(absorb_seq(p, init_levels(), self.absorbed@)
                == absorb_byte(p, absorb_seq(p, init_levels(), old(self).absorbed@), b));
            assert(self@ =~= (Md6View { absorbed: old(self)@.absorbed.push(b), ..old(self)@ }));
        }
    }

    /// Append the provided data to the hash function.
    #[verifier::loop_isolation(false)]
    pub fn update(&mut self, data: &[u8])
        requires
            old(self).wf(),
            !old(self)@.finalized,
        ensures
            final(self).wf(),
            final(self)@ == (Md6View { absorbed: old(self)@.absorbed + data@, ..old(self)@ }),
    {
        let mut k: usize = 0;
        while k < data.len()
            invariant
                self.wf(),
                k <= data@.len(),
                self@ == (Md6View { absorbed: old(self)@.absorbed + data@.take(k as int), ..old(self)@ }),
            decreases data@.len() - k,
        {
            let b = data[k];
            self.absorb_one(b);
            proof {
                assert((old(self)@.absorbed + data@.take(k as int)).push(b)
                    =~= old(self)@.absorbed + data@.take(k as int + 1));
            }
            k += 1;
        }
        proof {
            assert(data@.take(data@.len() as int) =~= data@);
        }
    }

    /// Finish hashing and store the output result in the provided space.
    ///
    /// Replaces the contents of `hashval` with the digest, which is exactly
    /// `ceil(hashbitlen / 8)` bytes.  The state must not be used for further
    /// `update` or `finalise` calls afterwards.
    #[verifier::loop_isolation(false)]
    pub fn finalise(&mut self, hashval: &mut Vec<u8>)
        requires
            old(self).wf(),
            !old(self)@.finalized,
        ensures
            final(self).wf(),
            final(self)@ == (Md6View { finalized: true, ..old(self)@ }),
            final(hashval)@ == md6_digest(old(self)@.d, old(self)@.key, old(self)@.absorbed),
            final(hashval)@.len() == (old(self)@.d + 7) / 8,
    {
        let ghost p = self.params();
        let ghost root = drain_from(p, levels_view(self.levels@), 0);
        proof {
            lemma_absorb_seq_wf(p, init_levels(), self.absorbed@);
        }
        let mut ell: usize = 0;
        while ell + 1 < self.levels.len()
            invariant
                self.d == old(self).d,
                self.r == old(self).r,
                self.keylen == old(self).keylen,
                self.key == old(self).key,
                self.key_bytes == old(self).key_bytes,
                self.absorbed == old(self).absorbed,
                self.finalized == old(self).finalized,
                self.key@.len() == 8,
                1 <= self.r <= 255,
                ell < self.levels@.len(),
                self.levels@.len() <= 65,
                forall|j: int| 0 <= j < self.levels@.len() ==> (#[trigger] levels_view(
                    self.levels@)[j]).words.len() == 64,
                forall|j: int| 0 <= j < self.levels@.len() ==> (#[trigger] levels_view(
                    self.levels@)[j]).bits <= (if j <= ell { 4096nat } else { 3072nat }),
                drain_from(p, levels_view(self.levels@), ell as int) == root,
            decreases self.levels@.len() - ell,
        {
            let ghost lscur = levels_view(self.levels@);
            let lref = &self.levels[ell];
            let pad = (4096 - lref.bits) as u64;
            let cv = compress_block(
                &self.key, (ell as u64) + 1, lref.i, self.r, 0, pad, self.keylen, self.d,
                &lref.words,
            );
            proof {
                assert(cv@ == level_cv(p, ell as int, lscur[ell as int], 0));
            }
            let mut l2 = self.levels.remove(ell + 1);
            proof {
                assert(l2@ == lscur[ell as int + 1]);
            }
            if ell + 1 == 64 && l2.bits == 0 && l2.i == 0 {
                l2.bits = 1024;
            }
            let ghost lnext1 = if ell as int + 1 == 64 && lscur[ell as int + 1].bits == 0
                && lscur[ell as int + 1].i == 0 {
                LevelModel {
                    words: lscur[ell as int + 1].words,
                    bits: 1024,
                    i: lscur[ell as int + 1].i,
                }
            } else {
                lscur[ell as int + 1]
            };
            proof {
                assert(l2@ == lnext1);
            }
            level_append_cv(&mut l2, &cv);
            self.levels.insert(ell + 1, l2);
            proof {
                assert(levels_view(self.levels@) =~= lscur.update(
                    ell as int + 1, level_with_cv(lnext1, cv@)));
                assert(drain_from(p, levels_view(self.levels@), ell as int + 1) == root);
            }
            ell += 1;
        }
        let lref = &self.levels[ell];
        let pad = (4096 - lref.bits) as u64;
        let cv = compress_block(
            &self.key, (ell as u64) + 1, lref.i, self.r, 1, pad, self.keylen, self.d, &lref.words,
        );
        proof {
            assert(cv@ == root);
        }
        let bytes = cv_to_bytes(&cv);
        let d = self.d;
        let nb = ((d + 7) / 8) as usize;
        let mut out: Vec<u8> = Vec::new();
        let mut j: usize = 0;
        while j < nb
            invariant
                bytes@ == cv_bytes(cv@),
                j <= nb,
                out@.len() == j,
                forall|jj: int| 0 <= jj < j ==> out@[jj] == bytes@[128 - nb + jj],
            decreases nb - j,
        {
            out.push(bytes[128 - nb + j]);
            j += 1;
        }
        proof {
            assert(out@ =~= cv_bytes(cv@).subrange(128 - nb as int, 128));
        }
        if d % 8 != 0 {
            let dm = d % 8;
            let sh = 8 - dm;
            let ghost tail = out@;
            let mut out2: Vec<u8> = Vec::new();
            let mut j: usize = 0;
            while j < nb
                invariant
                    out@ == tail,
                    j <= nb,
                    out2@.len() == j,
                    forall|jj: int| 0 <= jj < j ==> out2@[jj] == shifted_byte(
                        tail, nb as int, d % 8, jj),
                decreases nb - j,
            {
                let hi = out[j] as u64;
                let lo: u64 = if j + 1 < nb { out[j + 1] as u64 } else { 0 };
                let v = low_byte((hi << sh) | (lo >> dm));
                proof {
                    if j + 1 >= nb {
                        assert(0u64 >> dm == 0u64) by (bit_vector);
                    }
                    assert(v == shifted_byte(tail, nb as int, d % 8, j as int));
                }
                out2.push(v);
                j += 1;
            }
            out = out2;
        }
        proof {
            assert(out@ =~= trim_digest(root, d));
        }
        *hashval = out;
        self.finalized = true;
        proof {
            assert(self@ =~= (Md6View { finalized: true, ..old(self)@ }));
        }
    }
}

fn cv_to_bytes(cv: &Vec<u64>) -> (out: Vec<u8>)
    requires
        cv@.len() == 16,
    ensures
        out@ == cv_bytes(cv@),
        out@.len() == 128,
{
    let mut out: Vec<u8> = Vec::new();
    let mut j: usize = 0;
    while j < 128
        invariant
            cv@.len() == 16,
            j <= 128,
            out@.len() == j,
            forall|jj: int| 0 <= jj < j ==> out@[jj] == cv_bytes(cv@)[jj],
        decreases 128 - j,
    {
        let w = cv[j / 8];
        let sh = (56 - 8 * (j % 8)) as u64;
        out.push(low_byte(w >> sh));
        j += 1;
    }
    proof {
        assert(out@ =~= cv_bytes(cv@));
    }
    out
}

/// Hash all data in one fell swoop.
///
/// Replaces the contents of `hashval` with the `ceil(hashbitlen / 8)`-byte
/// digest of `data`; fails with `BadHashbitlen` (leaving `hashval` untouched)
/// when `hashbitlen` is outside `1..=512`.
pub fn hash(hashbitlen: i32, data: &[u8], hashval: &mut Vec<u8>) -> (res: Result<(), Md6Error>)
    ensures
        res is Ok <==> 1 <= hashbitlen <= 512,
        !(1 <= hashbitlen <= 512) ==> res == Err::<(), Md6Error>(Md6Error::BadHashbitlen)
            && final(hashval)@ == old(hashval)@,
        res is Ok ==> final(hashval)@ == md6_digest(hashbitlen as u64, Seq::empty(), data@)
            && final(hashval)@.len() == ((hashbitlen as u64) + 7) / 8,
{
    match Md6::new(hashbitlen) {
        Ok(mut state) => {
            state.update(data);
            state.finalise(hashval);
            proof {
                assert(Seq::empty() + data@ =~= data@);
            }
            Ok(())
        },
        Err(e) => Err(e),
    }
}

} // verus!
