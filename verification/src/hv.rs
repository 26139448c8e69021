//! The 1-bit signal space the mixture of experts reasons in: fixed-width binary
//! hypervectors, a code window bound into one vector, Hamming distance between vectors,
//! and the per-bit majority bundle of a set of vectors.
//!
//! A token's vector depends on its text and its position in the window: the FNV-1a hash
//! of the token's characters, mixed with its position, seeds a splitmix64 stream whose
//! successive outputs are the vector's words. A window's vector is the XOR of its tokens'
//! vectors, so equal windows bind to equal vectors and windows that differ anywhere land
//! about half the bits apart.

use vstd::prelude::*;

verus! {

/// The number of 64-bit words in a hypervector.
pub const HV_WORDS: usize = 160;

/// The number of bits in a hypervector.
pub const HV_BITS: u32 = 10240;

/// The FNV-1a offset basis.
pub const FNV_OFFSET: u64 = 0xcbf2_9ce4_8422_2325;

/// The FNV-1a prime.
pub const FNV_PRIME: u64 = 0x0000_0100_0000_01b3;

/// The splitmix64 increment.
pub const GAMMA: u64 = 0x9e37_79b9_7f4a_7c15;

/// The FNV-1a hash of a token's characters (each character taken by its code point).
pub open spec fn fnv(t: Seq<char>) -> u64
    decreases t.len(),
{
    if t.len() == 0 {
        FNV_OFFSET
    } else {
        (fnv(t.drop_last()) ^ ((t.last() as u32) as u64)).wrapping_mul(FNV_PRIME)
    }
}

/// The splitmix64 finaliser.
pub open spec fn mix(z: u64) -> u64 {
    let a = (z ^ (z >> 30u64)).wrapping_mul(0xbf58_476d_1ce4_e5b9u64);
    let b = (a ^ (a >> 27u64)).wrapping_mul(0x94d0_49bb_1331_11ebu64);
    b ^ (b >> 31u64)
}

/// The stream seed of a token at a window position.
pub open spec fn token_seed(t: Seq<char>, pos: u64) -> u64 {
    fnv(t) ^ mix(pos.wrapping_add(1))
}

/// Word `k` of the vector of token `t` at position `pos`.
pub open spec fn token_word(t: Seq<char>, pos: u64, k: u64) -> u64 {
    mix(token_seed(t, pos).wrapping_add((k.wrapping_add(1)).wrapping_mul(GAMMA)))
}

/// Word `k` of the vector a window binds to: the XOR of its tokens' words.
pub open spec fn bind_word(w: Seq<Seq<char>>, k: u64) -> u64
    decreases w.len(),
{
    if w.len() == 0 {
        0
    } else {
        bind_word(w.drop_last(), k) ^ token_word(w.last(), (w.len() - 1) as u64, k)
    }
}

/// The vector a window binds to.
pub open spec fn signal(w: Seq<Seq<char>>) -> Seq<u64> {
    Seq::new(HV_WORDS as nat, |k: int| bind_word(w, k as u64))
}

/// The number of set bits among the low `j` bits of `x`.
pub open spec fn pop(x: u64, j: nat) -> nat
    decreases j,
{
    if j == 0 {
        0
    } else {
        pop(x, (j - 1) as nat) + ((x >> ((j - 1) as u64)) & 1u64) as nat
    }
}

/// The Hamming distance between the first `k` words of `a` and `b`.
pub open spec fn dist_upto(a: Seq<u64>, b: Seq<u64>, k: nat) -> nat
    decreases k,
{
    if k == 0 {
        0
    } else {
        dist_upto(a, b, (k - 1) as nat) + pop(a[k - 1] ^ b[k - 1], 64)
    }
}

/// The Hamming distance between two hypervectors.
pub open spec fn dist(a: Seq<u64>, b: Seq<u64>) -> nat {
    dist_upto(a, b, HV_WORDS as nat)
}

/// How many of `hs` have bit `j` of word `k` set.
pub open spec fn ones(hs: Seq<Seq<u64>>, k: int, j: u64) -> nat
    decreases hs.len(),
{
    if hs.len() == 0 {
        0
    } else {
        ones(hs.drop_last(), k, j) + if (hs.last()[k] >> j) & 1u64 == 1u64 {
            1nat
        } else {
            0nat
        }
    }
}

/// The low `j` bits of word `k` of the majority bundle of `hs`: a bit is set when more than
/// half of `hs` set it.
pub open spec fn bundle_word(hs: Seq<Seq<u64>>, k: int, j: u64) -> u64
    decreases j,
{
    if j == 0 {
        0
    } else {
        bundle_word(hs, k, (j - 1) as u64) | if 2 * ones(hs, k, (j - 1) as u64) > hs.len() {
            1u64 << ((j - 1) as u64)
        } else {
            0u64
        }
    }
}

/// The per-bit majority bundle of `hs`.
pub open spec fn bundle(hs: Seq<Seq<u64>>) -> Seq<u64> {
    Seq::new(HV_WORDS as nat, |k: int| bundle_word(hs, k, 64))
}

/// A binary hypervector of [`HV_WORDS`] words.
pub struct Hv {
    words: Vec<u64>,
}

impl View for Hv {
    type V = Seq<u64>;

    closed spec fn view(&self) -> Seq<u64> {
        self.words@
    }
}

/// The views of a sequence of hypervectors.
pub open spec fn hv_views(v: Seq<Hv>) -> Seq<Seq<u64>> {
    v.map_values(|h: Hv| h@)
}

impl Hv {
    /// Whether the vector has its full width.
    pub open spec fn wf(&self) -> bool {
        self@.len() == HV_WORDS
    }

    /// The vector's words, for storage.
    pub fn as_words(&self) -> (r: Vec<u64>)
        ensures
            r@ == self@,
    {
        let mut out: Vec<u64> = Vec::new();
        let mut i: usize = 0;
        while i < self.words.len()
            invariant
                i <= self.words@.len(),
                out@ == self.words@.take(i as int),
            decreases self.words@.len() - i,
        {
            out.push(self.words[i]);
            i = i + 1;
            assert(out@ =~= self.words@.take(i as int));
        }
        assert(self.words@.take(i as int) =~= self.words@);
        out
    }

    /// The vector with the given words, when there are exactly [`HV_WORDS`] of them.
    pub fn from_words(w: &[u64]) -> (r: Option<Hv>)
        ensures
            match r {
                Some(h) => w@.len() == HV_WORDS && h@ == w@,
                None => w@.len() != HV_WORDS,
            },
    {
        if w.len() != HV_WORDS {
            return None;
        }
        let mut out: Vec<u64> = Vec::new();
        let mut i: usize = 0;
        while i < w.len()
            invariant
                i <= w@.len(),
                out@ == w@.take(i as int),
            decreases w@.len() - i,
        {
            out.push(w[i]);
            i = i + 1;
            assert(out@ =~= w@.take(i as int));
        }
        assert(w@.take(i as int) =~= w@);
        Some(Hv { words: out })
    }

    /// A copy of the vector.
    pub fn copy(&self) -> (r: Hv)
        ensures
            r@ == self@,
    {
        Hv { words: self.as_words() }
    }

    /// The Hamming distance to `other`.
    pub fn distance(&self, other: &Hv) -> (r: u32)
        requires
            self.wf(),
            other.wf(),
        ensures
            r == dist(self@, other@),
            r <= HV_BITS,
    {
        let mut total: u32 = 0;
        let mut k: usize = 0;
        while k < HV_WORDS
            invariant
                self@.len() == HV_WORDS,
                other@.len() == HV_WORDS,
                k <= HV_WORDS,
                total == dist_upto(self@, other@, k as nat),
                total <= 64 * k,
            decreases HV_WORDS - k,
        {
            let p = popcount(self.words[k] ^ other.words[k]);
            total = total + p;
            k = k + 1;
        }
        total
    }
}

proof fn lemma_low_bit(y: u64)
    ensures
        y & 1u64 <= 1u64,
{
    assert(y & 1u64 <= 1u64) by (bit_vector);
}

/// The number of set bits of `x`.
pub fn popcount(x: u64) -> (r: u32)
    ensures
        r == pop(x, 64),
        r <= 64,
{
    let mut c: u32 = 0;
    let mut j: u64 = 0;
    while j < 64
        invariant
            j <= 64,
            c == pop(x, j as nat),
            c <= j,
        decreases 64 - j,
    {
        proof {
            lemma_low_bit(x >> j);
        }
        let b = (x >> j) & 1u64;
        c = c + (b as u32);
        j = j + 1;
    }
    c
}

/// The FNV-1a hash of `t` (see [`fnv`]).
pub fn fnv_hash(t: &[char]) -> (r: u64)
    ensures
        r == fnv(t@),
{
    let mut h: u64 = FNV_OFFSET;
    let mut i: usize = 0;
    while i < t.len()
        invariant
            i <= t@.len(),
            h == fnv(t@.take(i as int)),
        decreases t@.len() - i,
    {
        proof {
            assert(t@.take(i + 1).drop_last() =~= t@.take(i as int));
        }
        h = (h ^ ((t[i] as u32) as u64)).wrapping_mul(FNV_PRIME);
        i = i + 1;
    }
    assert(t@.take(i as int) =~= t@);
    h
}

/// The splitmix64 finaliser (see [`mix`]).
pub fn mix_word(z: u64) -> (r: u64)
    ensures
        r == mix(z),
{
    let a = (z ^ (z >> 30u64)).wrapping_mul(0xbf58_476d_1ce4_e5b9u64);
    let b = (a ^ (a >> 27u64)).wrapping_mul(0x94d0_49bb_1331_11ebu64);
    b ^ (b >> 31u64)
}

/// The vector a window of tokens binds to (see [`signal`]).
pub fn bind(w: &[Vec<char>]) -> (r: Hv)
    ensures
        r@ == signal(w@.map_values(|t: Vec<char>| t@)),
        r.wf(),
{
    let ghost ws = w@.map_values(|t: Vec<char>| t@);
    let mut seeds: Vec<u64> = Vec::new();
    let mut i: usize = 0;
    while i < w.len()
        invariant
            i <= w@.len(),
            ws == w@.map_values(|t: Vec<char>| t@),
            seeds@.len() == i,
            forall|m: int| 0 <= m < i ==> seeds@[m] == token_seed(#[trigger] ws[m], m as u64),
        decreases w@.len() - i,
    {
        let h = fnv_hash(w[i].as_slice());
        let p = mix_word((i as u64).wrapping_add(1));
        seeds.push(h ^ p);
        i = i + 1;
    }
    let mut words: Vec<u64> = Vec::new();
    let mut k: usize = 0;
    while k < HV_WORDS
        invariant
            k <= HV_WORDS,
            seeds@.len() == ws.len(),
            ws.len() <= usize::MAX,
            forall|m: int| 0 <= m < ws.len() ==> seeds@[m] == token_seed(#[trigger] ws[m], m as u64),
            words@.len() == k,
            forall|q: int| 0 <= q < k ==> words@[q] == #[trigger] bind_word(ws, q as u64),
        decreases HV_WORDS - k,
    {
        let step = ((k as u64) + 1).wrapping_mul(GAMMA);
        let mut acc: u64 = 0;
        let mut m: usize = 0;
        while m < seeds.len()
            invariant
                m <= seeds@.len(),
                k < HV_WORDS,
                seeds@.len() == ws.len(),
                ws.len() <= usize::MAX,
                step == ((k as u64).wrapping_add(1)).wrapping_mul(GAMMA),
                forall|t: int| 0 <= t < ws.len() ==> seeds@[t] == token_seed(#[trigger] ws[t], t as u64),
                acc == bind_word(ws.take(m as int), k as u64),
            decreases seeds@.len() - m,
        {
            proof {
                assert(ws.take(m + 1).drop_last() =~= ws.take(m as int));
                assert(ws.take(m + 1).last() == ws[m as int]);
            }
            acc = acc ^ mix_word(seeds[m].wrapping_add(step));
            m = m + 1;
        }
        proof {
            assert(ws.take(m as int) =~= ws);
        }
        words.push(acc);
        k = k + 1;
    }
    let r = Hv { words };
    assert(r@ =~= signal(ws));
    r
}

/// The per-bit majority bundle of `hs` (see [`bundle`]).
pub fn bundle_of(hs: &Vec<Hv>) -> (r: Hv)
    requires
        forall|i: int| 0 <= i < hs@.len() ==> (#[trigger] hs@[i]).wf(),
    ensures
        r@ == bundle(hv_views(hs@)),
        r.wf(),
{
    let ghost vs = hv_views(hs@);
    let mut words: Vec<u64> = Vec::new();
    let mut k: usize = 0;
    while k < HV_WORDS
        invariant
            k <= HV_WORDS,
            vs == hv_views(hs@),
            forall|i: int| 0 <= i < hs@.len() ==> (#[trigger] hs@[i]).wf(),
            words@.len() == k,
            forall|q: int| 0 <= q < k ==> words@[q] == #[trigger] bundle_word(vs, q, 64),
        decreases HV_WORDS - k,
    {
        let mut word: u64 = 0;
        let mut j: u64 = 0;
        while j < 64
            invariant
                j <= 64,
                k < HV_WORDS,
                vs == hv_views(hs@),
                forall|i: int| 0 <= i < hs@.len() ==> (#[trigger] hs@[i]).wf(),
                word == bundle_word(vs, k as int, j),
            decreases 64 - j,
        {
            let mut count: usize = 0;
            let mut i: usize = 0;
            while i < hs.len()
                invariant
                    i <= hs@.len(),
                    k < HV_WORDS,
                    j < 64,
                    vs == hv_views(hs@),
                    forall|t: int| 0 <= t < hs@.len() ==> (#[trigger] hs@[t]).wf(),
                    count == ones(vs.take(i as int), k as int, j),
                    count <= i,
                decreases hs@.len() - i,
            {
                proof {
                    assert(vs.take(i + 1).drop_last() =~= vs.take(i as int));
                    assert(vs.take(i + 1).last() == hs@[i as int]@);
                    assert(hs@[i as int].wf());
                }
                if (hs[i].words[k] >> j) & 1u64 == 1u64 {
                    count = count + 1;
                }
                i = i + 1;
            }
            proof {
                assert(vs.take(i as int) =~= vs);
            }
            if count > hs.len() - count {
                word = word | (1u64 << j);
            } else {
                word = word | 0u64;
            }
            j = j + 1;
        }
        words.push(word);
        k = k + 1;
    }
    let r = Hv { words };
    assert(r@ =~= bundle(vs));
    r
}


} // verus!
