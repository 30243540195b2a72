//! A small, fast hash for table keys: the multiply-rotate hash, fed eight
//! bytes at a time.
use vstd::prelude::*;

verus! {

pub const SEED: u64 = 0x517c_c1b7_2722_0a95;

/// What one more word does to a hash.
pub open spec fn mixed(hash: u64, word: u64) -> u64 {
    wrapping_product(((hash << 5u64) | (hash >> 59u64)) ^ word, SEED)
}

/// The low 64 bits of a product.
pub open spec fn wrapping_product(a: u64, b: u64) -> u64 {
    ((a as int * b as int) % 0x1_0000_0000_0000_0000) as u64
}

/// `n` bytes starting at `at`, the first of them lowest.
pub open spec fn word_at(bytes: Seq<u8>, at: int, n: nat) -> u64
    decreases n,
{
    if n == 0 {
        0
    } else {
        (bytes[at] + 256 * word_at(bytes, at + 1, (n - 1) as nat)) as u64
    }
}

/// The hash after feeding it bytes: eight at a time while there are eight,
/// then four if there are four, then one by one.
pub open spec fn hashed(hash: u64, bytes: Seq<u8>) -> u64
    decreases bytes.len(),
{
    if bytes.len() >= 8 {
        hashed(mixed(hash, word_at(bytes, 0, 8)), bytes.skip(8))
    } else if bytes.len() >= 4 {
        hashed(mixed(hash, word_at(bytes, 0, 4)), bytes.skip(4))
    } else if bytes.len() > 0 {
        hashed(mixed(hash, bytes[0] as u64), bytes.skip(1))
    } else {
        hash
    }
}

/// The hash of a string's bytes, closed with a byte no text holds.
pub open spec fn text_hash(bytes: Seq<u8>) -> u64 {
    mixed(hashed(0, bytes), 0xff)
}

#[derive(Clone, Copy)]
pub struct FxHasher {
    hash: u64,
}

impl View for FxHasher {
    type V = u64;

    closed spec fn view(&self) -> u64 {
        self.hash
    }
}

impl Default for FxHasher {
    fn default() -> (r: FxHasher)
        ensures
            r@ == 0,
    {
        FxHasher { hash: 0 }
    }
}

proof fn lemma_word_bound(bytes: Seq<u8>, at: int, n: nat)
    requires
        n <= 8,
    ensures
        word_at(bytes, at, n) < vstd::arithmetic::power2::pow2(8 * n)
            || n == 8,
        n > 0 ==> word_at(bytes, at, n) == bytes[at] + 256 * word_at(bytes, at + 1, (n - 1) as nat),
    decreases n,
{
    vstd::arithmetic::power2::lemma2_to64();
    if n > 0 {
        lemma_word_bound(bytes, at + 1, (n - 1) as nat);
        vstd::arithmetic::power2::lemma2_to64_rest();
        let m = (n - 1) as nat;
        assert(m == 0 || m == 1 || m == 2 || m == 3 || m == 4 || m == 5 || m == 6 || m == 7);
    }
}

fn word_of(bytes: &[u8], at: usize, n: usize) -> (r: u64)
    requires
        n <= 8,
        at + n <= bytes@.len(),
    ensures
        r == word_at(bytes@, at as int, n as nat),
    decreases n,
{
    if n == 0 {
        return 0;
    }
    let _total: usize = bytes.len();
    let rest: u64 = word_of(bytes, at + 1, n - 1);
    proof {
        lemma_word_bound(bytes@, at as int, n as nat);
    }
    bytes[at] as u64 + 256 * rest
}

impl FxHasher {
    /// Mix in one word.
    pub fn add(&mut self, word: u64)
        ensures
            final(self)@ == mixed(old(self)@, word),
    {
        let turned: u64 = (self.hash << 5u64) | (self.hash >> 59u64);
        self.hash = (turned ^ word).wrapping_mul(SEED);
    }

    /// Mix in a run of bytes.
    pub fn write(&mut self, bytes: &[u8])
        ensures
            final(self)@ == hashed(old(self)@, bytes@),
    {
        let mut at: usize = 0;
        let n: usize = bytes.len();
        let ghost all = bytes@;
        assert(all.skip(0) == all);
        while at < n
            invariant
                at <= n == all.len(),
                bytes@ == all,
                hashed(self@, all.skip(at as int)) == hashed(old(self)@, all),
            decreases n - at,
        {
            let ghost rest = all.skip(at as int);
            let take: usize = if n - at >= 8 {
                8
            } else if n - at >= 4 {
                4
            } else {
                1
            };
            let word: u64 = word_of(bytes, at, take);
            proof {
                lemma_word_shift(all, at as int, take as nat);
                assert(rest.skip(take as int) == all.skip(at + take));
                reveal_with_fuel(word_at, 2);
                assert(word_at(rest, 0, 1) == rest[0] as u64);
            }
            self.add(word);
            at = at + take;
        }
    }

    pub fn finish(&self) -> (r: u64)
        ensures
            r == self@,
    {
        self.hash
    }
}

proof fn lemma_word_shift(all: Seq<u8>, at: int, n: nat)
    requires
        0 <= at,
        at + n <= all.len(),
    ensures
        word_at(all.skip(at), 0, n) == word_at(all, at, n),
{
    lemma_word_shift_from(all, at, 0, n);
}

proof fn lemma_word_shift_from(all: Seq<u8>, at: int, k: int, n: nat)
    requires
        0 <= at,
        0 <= k,
        at + k + n <= all.len(),
    ensures
        word_at(all.skip(at), k, n) == word_at(all, at + k, n),
    decreases n,
{
    if n > 0 {
        lemma_word_shift_from(all, at, k + 1, (n - 1) as nat);
    }
}

/// The hash of a string, computed once when the string is made.
pub fn str_hash(s: &str) -> (r: u64)
    ensures
        r == text_hash(vstd::utf8::encode_utf8(s@)),
{
    let mut h = FxHasher::default();
    h.write(s.as_bytes());
    h.add(0xff);
    h.finish()
}

pub const FNV_START: u64 = 0xcbf2_9ce4_8422_2325;

pub const FNV_PRIME: u64 = 0x1000_0000_01b3;

/// A hash of some bytes in the manner of FNV-1a: the same in every process, which is what
/// names a file that is looked for again.
pub open spec fn fnv(bytes: Seq<u8>) -> u64
    decreases bytes.len(),
{
    if bytes.len() == 0 {
        FNV_START
    } else {
        wrapping_product(fnv(bytes.drop_last()) ^ (bytes.last() as u64), FNV_PRIME)
    }
}

/// A stable hash of a text.
pub fn source_hash(src: &str) -> (r: u64)
    ensures
        r == fnv(vstd::utf8::encode_utf8(src@)),
{
    let bytes = src.as_bytes();
    let mut h: u64 = FNV_START;
    let mut i: usize = 0;
    while i < bytes.len()
        invariant
            i <= bytes@.len(),
            h == fnv(bytes@.take(i as int)),
        decreases bytes@.len() - i,
    {
        assert(bytes@.take(i as int + 1).drop_last() =~= bytes@.take(i as int));
        h = (h ^ (bytes[i] as u64)).wrapping_mul(FNV_PRIME);
        i = i + 1;
    }
    assert(bytes@.take(bytes@.len() as int) =~= bytes@);
    h
}

/// Whole words may be mixed in one run after the other.
pub proof fn lemma_hashed_in_two(h: u64, a: Seq<u8>, b: Seq<u8>)
    requires
        a.len() % 8 == 0,
    ensures
        hashed(h, a + b) == hashed(hashed(h, a), b),
    decreases a.len(),
{
    if a.len() == 0 {
        assert(a + b =~= b);
    } else {
        let all = a + b;
        let word = word_at(a, 0, 8);
        lemma_word_in(a, b, 0, 8);
        assert(all.skip(8) =~= a.skip(8) + b);
        lemma_hashed_in_two(mixed(h, word as u64), a.skip(8), b);
    }
}

proof fn lemma_word_in(a: Seq<u8>, b: Seq<u8>, at: int, n: nat)
    requires
        0 <= at,
        at + n <= a.len(),
    ensures
        word_at(a + b, at, n) == word_at(a, at, n),
    decreases n,
{
    if n > 0 {
        lemma_word_in(a, b, at + 1, (n - 1) as nat);
    }
}

} // verus!
