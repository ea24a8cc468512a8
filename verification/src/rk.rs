use vstd::prelude::*;
use vstd::arithmetic::div_mod::{
    lemma_add_mod_noop,
    lemma_mod_add_multiples_vanish,
    lemma_mul_mod_noop_left,
    lemma_mul_mod_noop_right,
    lemma_small_mod,
    lemma_sub_mod_noop,
};
use crate::arch::mips::{normalize_words, normalized_words};
use crate::MIPSFamily;

verus! {

/// The radix of the hash: one instruction word.
pub const DEFAULT_RADIX: u64 = 0x0000000100000000;

/// The default modulus, `2^32 - 17`, which keeps nearly all of 32 bits.
pub const DEFAULT_MODULUS: u64 = 0x00000000FFFFFFEF;

/// The modulus `2^32 - 1`, under which zero words at the end do not show.
pub const FLETCHER_64_MODULUS: u64 = 0x00000000FFFFFFFF;

/// One Horner step: shift the accumulator by one digit of the radix, add the
/// new digit, reduce.
pub open spec fn horner_step(acc: int, s: int, radix: int, q: int) -> int {
    (radix * acc + s) % q
}

/// The Horner fold of `words`, most significant first, starting from `acc`.
pub open spec fn horner_fold(acc: int, words: Seq<u32>, radix: int, q: int) -> int
    decreases words.len(),
{
    if words.len() == 0 {
        acc
    } else {
        horner_step(horner_fold(acc, words.drop_last(), radix, q), words.last() as int, radix, q)
    }
}

/// The hash of the `n` words of `words` that start at word `p`.
pub open spec fn window_hash(words: Seq<u32>, p: int, n: int, radix: int, q: int) -> int {
    horner_fold(0, words.subrange(p, p + n), radix, q)
}

/// `p` is the first window of `n` words inside `[start, end)` whose hash is
/// `needle`.
pub open spec fn is_first_match(
    needle: int,
    n: int,
    words: Seq<u32>,
    start: int,
    end: int,
    radix: int,
    q: int,
    p: int,
) -> bool {
    &&& start <= p
    &&& p + n <= end
    &&& window_hash(words, p, n, radix, q) == needle
    &&& forall|k: int| start <= k < p ==> #[trigger] window_hash(words, k, n, radix, q) != needle
}

/// Where a rolling search for `needle` over the words `[start, end)` stops:
/// at `start` for an empty needle, else at the first window of `n` words
/// that hashes to `needle`, if there is one.
pub open spec fn find_in_words(
    needle: int,
    n: int,
    words: Seq<u32>,
    start: int,
    end: int,
    radix: int,
    q: int,
) -> Option<int> {
    if n == 0 {
        Some(start)
    } else if exists|p: int| is_first_match(needle, n, words, start, end, radix, q, p) {
        Some(choose|p: int| is_first_match(needle, n, words, start, end, radix, q, p))
    } else {
        None
    }
}

/// The byte offset at which a search for `needle`, the hash of `size` bytes
/// of code, stops in `bytes`.
pub open spec fn find_in_bytes(
    needle: int,
    size: int,
    bytes: Seq<u8>,
    family: MIPSFamily,
    radix: int,
    q: int,
) -> Option<int> {
    let words = normalized_words(bytes, family);
    match find_in_words(needle, size / 4, words, 0, words.len() as int, radix, q) {
        Some(p) => Some(4 * p),
        None => None,
    }
}

/// A first match, where there is one, is the only one.
pub proof fn lemma_first_match_unique(
    needle: int,
    n: int,
    words: Seq<u32>,
    start: int,
    end: int,
    radix: int,
    q: int,
    p: int,
)
    requires
        n != 0,
        is_first_match(needle, n, words, start, end, radix, q, p),
    ensures
        find_in_words(needle, n, words, start, end, radix, q) == Some(p),
{
    let c = choose|c: int| is_first_match(needle, n, words, start, end, radix, q, c);
    if c < p {
        assert(window_hash(words, c, n, radix, q) != needle);
    } else if p < c {
        assert(window_hash(words, p, n, radix, q) != needle);
    }
}

/// The value of `words` read as a number in base `radix`, most significant
/// digit first.
pub open spec fn digits_value(words: Seq<u32>, radix: int) -> int
    decreases words.len(),
{
    if words.len() == 0 {
        0
    } else {
        radix * digits_value(words.drop_last(), radix) + words.last() as int
    }
}

/// `radix` to the power `e`.
pub open spec fn power(radix: int, e: nat) -> int
    decreases e,
{
    if e == 0 {
        1
    } else {
        radix * power(radix, (e - 1) as nat)
    }
}

/// A Horner fold from a reduced accumulator is reduced.
pub proof fn lemma_fold_is_reduced(acc: int, words: Seq<u32>, radix: int, q: int)
    requires
        q > 0,
        0 <= acc < q,
    ensures
        0 <= horner_fold(acc, words, radix, q) < q,
{
    if words.len() > 0 {
        let before = horner_fold(acc, words.drop_last(), radix, q);
        vstd::arithmetic::div_mod::lemma_mod_bound(radix * before + words.last() as int, q);
    }
}

/// A Horner fold from zero is the value of the digits, reduced.
pub proof fn lemma_fold_is_value(words: Seq<u32>, radix: int, q: int)
    requires
        q > 0,
    ensures
        horner_fold(0, words, radix, q) == digits_value(words, radix) % q,
    decreases words.len(),
{
    if words.len() == 0 {
        lemma_small_mod(0, q as nat);
    } else {
        let front = words.drop_last();
        let last = words.last() as int;
        lemma_fold_is_value(front, radix, q);
        let v = digits_value(front, radix);
        lemma_mul_mod_noop_right(radix, v, q);
        lemma_add_mod_noop(radix * (v % q), last, q);
        lemma_add_mod_noop(radix * v, last, q);
    }
}

/// The leading digit carries the weight `radix^(len - 1)`.
pub proof fn lemma_value_split_head(words: Seq<u32>, radix: int)
    requires
        words.len() > 0,
    ensures
        digits_value(words, radix) == words[0] as int * power(radix, (words.len() - 1) as nat)
            + digits_value(words.subrange(1, words.len() as int), radix),
    decreases words.len(),
{
    let n = words.len() as int;
    if n == 1 {
        assert(words.drop_last().len() == 0);
        assert(words.subrange(1, n).len() == 0);
        assert(digits_value(words.drop_last(), radix) == 0);
        assert(radix * 0 == 0);
        assert(words[0] as int * 1 == words[0] as int);
    } else {
        let front = words.drop_last();
        let tail = words.subrange(1, n);
        lemma_value_split_head(front, radix);
        assert(front.subrange(1, n - 1) =~= tail.drop_last());
        assert(tail.last() == words.last());
        assert(front[0] == words[0]);
        let w0 = words[0] as int;
        let pw = power(radix, (n - 2) as nat);
        let dv = digits_value(tail.drop_last(), radix);
        assert(power(radix, (n - 1) as nat) == radix * pw);
        assert(radix * (w0 * pw + dv) == w0 * (radix * pw) + radix * dv) by (nonlinear_arith);
    }
}

/// Dropping the head of a window and appending the next word turns the hash
/// of the window at `p` into the hash of the window at `p + 1`.
pub proof fn lemma_roll(words: Seq<u32>, p: int, n: int, radix: int, q: int, rm: int)
    requires
        q > 0,
        n >= 1,
        0 <= p,
        p + n + 1 <= words.len(),
        rm == power(radix, (n - 1) as nat) % q,
    ensures
        horner_step(
            (window_hash(words, p, n, radix, q) + q - (rm * words[p] as int) % q) % q,
            words[p + n] as int,
            radix,
            q,
        ) == window_hash(words, p + 1, n, radix, q),
{
    let a = words.subrange(p, p + n);
    let b = words.subrange(p + 1, p + n);
    let c = words.subrange(p + 1, p + n + 1);
    let w0 = words[p] as int;
    let wn = words[p + n] as int;
    let pw = power(radix, (n - 1) as nat);
    let va = digits_value(a, radix);
    let vb = digits_value(b, radix);
    let h = window_hash(words, p, n, radix, q);
    lemma_fold_is_value(a, radix, q);
    lemma_fold_is_value(c, radix, q);
    lemma_value_split_head(a, radix);
    assert(a.subrange(1, n) =~= b);
    assert(a[0] == words[p]);
    assert(va == w0 * pw + vb);
    assert(c.drop_last() =~= b);
    assert(c.last() == words[p + n]);
    assert(digits_value(c, radix) == radix * vb + wn);
    let x = (rm * w0) % q;
    lemma_mul_mod_noop_left(pw, w0, q);
    assert(x == (pw * w0) % q);
    lemma_mod_add_multiples_vanish(h - x, q);
    assert((h + q - x) % q == (h - x) % q);
    lemma_sub_mod_noop(va, pw * w0, q);
    assert(pw * w0 == w0 * pw) by (nonlinear_arith);
    assert((h - x) % q == vb % q);
    let h1 = (h + q - x) % q;
    lemma_mul_mod_noop_right(radix, vb, q);
    lemma_add_mod_noop(radix * (vb % q), wn, q);
    lemma_add_mod_noop(radix * vb, wn, q);
}

/// Under the Fletcher-64 modulus the radix is congruent to one, so a zero
/// word leaves a reduced hash as it is: padding with `nop` does not show.
pub proof fn lemma_fletcher_ignores_zero_words(acc: int)
    requires
        0 <= acc < FLETCHER_64_MODULUS,
    ensures
        horner_step(acc, 0, DEFAULT_RADIX as int, FLETCHER_64_MODULUS as int) == acc,
{
    let q = FLETCHER_64_MODULUS as int;
    assert(DEFAULT_RADIX as int * acc + 0 == q * acc + acc) by (nonlinear_arith)
        requires
            q == DEFAULT_RADIX as int - 1,
    ;
    vstd::arithmetic::div_mod::lemma_mod_multiples_vanish(acc, acc, q);
    lemma_small_mod(acc as nat, q as nat);
}

/// `((radix * acc) + s) mod q`, computed without overflow.
pub fn horner_hash(acc: u64, s: u32, radix: u64, q: u64) -> (hash: u64)
    requires
        q > 0,
    ensures
        hash == horner_step(acc as int, s as int, radix as int, q as int),
{
    assert(radix as int * acc as int <= 0xFFFF_FFFF_FFFF_FFFF * 0xFFFF_FFFF_FFFF_FFFF)
        by (nonlinear_arith)
        requires
            0 <= radix as int <= 0xFFFF_FFFF_FFFF_FFFF,
            0 <= acc as int <= 0xFFFF_FFFF_FFFF_FFFF,
    ;
    let wide: u128 = (radix as u128) * (acc as u128) + (s as u128);
    (wide % (q as u128)) as u64
}

/// `radix^e mod q`.
pub fn power_mod(radix: u64, e: usize, q: u64) -> (rm: u64)
    requires
        q > 0,
    ensures
        rm == power(radix as int, e as nat) % (q as int),
{
    let mut rm: u64 = (1u64 % q);
    let mut i: usize = 0;
    while i < e
        invariant
            q > 0,
            i <= e,
            rm == power(radix as int, i as nat) % (q as int),
        decreases e - i,
    {
        proof {
            lemma_mul_mod_noop_right(radix as int, power(radix as int, i as nat), q as int);
            assert(radix as int * rm as int + 0 == radix as int * rm as int);
        }
        rm = horner_hash(rm, 0, radix, q);
        i += 1;
    }
    rm
}

/// Slides a window of `n` words over `words[start..end]` and returns the
/// first position whose hash is `needle`.
pub fn find_window(
    needle: u64,
    n: usize,
    words: &[u32],
    start: usize,
    end: usize,
    radix: u64,
    q: u64,
) -> (found: Option<usize>)
    requires
        q > 0,
        start <= end <= words@.len(),
    ensures
        match found {
            Some(p) => find_in_words(
                needle as int,
                n as int,
                words@,
                start as int,
                end as int,
                radix as int,
                q as int,
            ) == Some(p as int),
            None => find_in_words(
                needle as int,
                n as int,
                words@,
                start as int,
                end as int,
                radix as int,
                q as int,
            ) is None,
        },
{
    if n == 0 {
        return Some(start);
    }
    if n > end - start {
        return None;
    }
    let mut hash: u64 = 0;
    let mut i: usize = start;
    while i < start + n
        invariant
            q > 0,
            start <= i <= start + n <= end <= words@.len(),
            hash == horner_fold(0, words@.subrange(start as int, i as int), radix as int, q as int),
        decreases start + n - i,
    {
        proof {
            let next = words@.subrange(start as int, i + 1);
            assert(next.drop_last() =~= words@.subrange(start as int, i as int));
            assert(next.last() == words@[i as int]);
        }
        hash = horner_hash(hash, words[i], radix, q);
        i += 1;
    }
    let rm = power_mod(radix, n - 1, q);
    let mut p: usize = start;
    while hash != needle && p + n < end
        invariant
            q > 0,
            n >= 1,
            start <= p,
            p + n <= end <= words@.len(),
            rm == power(radix as int, (n - 1) as nat) % (q as int),
            hash == window_hash(words@, p as int, n as int, radix as int, q as int),
            forall|k: int|
                start <= k < p ==> #[trigger] window_hash(
                    words@,
                    k,
                    n as int,
                    radix as int,
                    q as int,
                ) != needle,
        decreases end - p,
    {
        let first: u32 = words[p];
        let new: u32 = words[p + n];
        proof {
            lemma_roll(words@, p as int, n as int, radix as int, q as int, rm as int);
            assert(rm as int * first as int <= 0xFFFF_FFFF_FFFF_FFFF * 0xFFFF_FFFF)
                by (nonlinear_arith)
                requires
                    0 <= rm as int <= 0xFFFF_FFFF_FFFF_FFFF,
                    0 <= first as int <= 0xFFFF_FFFF,
            ;
        }
        let dropped: u128 = ((rm as u128) * (first as u128)) % (q as u128);
        let head: u64 = (((hash as u128) + (q as u128) - dropped) % (q as u128)) as u64;
        hash = horner_hash(head, new, radix, q);
        p += 1;
    }
    if hash == needle {
        proof {
            lemma_first_match_unique(
                needle as int,
                n as int,
                words@,
                start as int,
                end as int,
                radix as int,
                q as int,
                p as int,
            );
        }
        Some(p)
    } else {
        assert forall|c: int|
            !is_first_match(
                needle as int,
                n as int,
                words@,
                start as int,
                end as int,
                radix as int,
                q as int,
                c,
            ) by {
            if start <= c && c + n <= end {
                assert(c <= p);
            }
        }
        None
    }
}

/// An optional machine offset as an optional mathematical integer.
pub open spec fn offset_of(found: Option<usize>) -> Option<int> {
    match found {
        Some(p) => Some(p as int),
        None => None,
    }
}

/// A needle that occurs in a haystack at an aligned offset, with no earlier
/// aligned window of the same length hashing to the same value, is found at
/// exactly that offset.
pub proof fn lemma_find_locates_needle(
    needle: Seq<u8>,
    haystack: Seq<u8>,
    p: int,
    family: MIPSFamily,
    radix: int,
    q: int,
)
    requires
        q > 0,
        needle.len() > 0,
        needle.len() % 4 == 0,
        0 <= p,
        p % 4 == 0,
        p + needle.len() <= haystack.len(),
        haystack.subrange(p, p + needle.len()) == needle,
        forall|j: int|
            0 <= j < p / 4 ==> #[trigger] window_hash(
                normalized_words(haystack, family),
                j,
                needle.len() as int / 4,
                radix,
                q,
            ) != horner_fold(0, normalized_words(needle, family), radix, q),
    ensures
        find_in_bytes(
            horner_fold(0, normalized_words(needle, family), radix, q),
            needle.len() as int,
            haystack,
            family,
            radix,
            q,
        ) == Some(p),
{
    let words = normalized_words(haystack, family);
    let k = needle.len() as int / 4;
    let at = p / 4;
    let window = words.subrange(at, at + k);
    let target = normalized_words(needle, family);
    assert(window.len() == target.len());
    assert forall|i: int| 0 <= i < k implies window[i] == target[i] by {
        assert(needle[4 * i] == haystack.subrange(p, p + needle.len())[4 * i]);
        assert(needle[4 * i + 1] == haystack.subrange(p, p + needle.len())[4 * i + 1]);
        assert(needle[4 * i + 2] == haystack.subrange(p, p + needle.len())[4 * i + 2]);
        assert(needle[4 * i + 3] == haystack.subrange(p, p + needle.len())[4 * i + 3]);
    }
    assert(window =~= target);
    let h = horner_fold(0, target, radix, q);
    assert(is_first_match(h, k, words, 0, words.len() as int, radix, q, at));
    lemma_first_match_unique(h, k, words, 0, words.len() as int, radix, q, at);
}

/// A Rabin-Karp rolling hasher over normalised MIPS instructions.
///
/// With the default modulus every trailing word changes the hash. With the
/// Fletcher-64 modulus `0xFFFFFFFF` the radix is congruent to one, so a run
/// of trailing `nop` words leaves the hash as it was.
#[derive(Debug)]
pub struct RabinKarpMIPSHasher {
    radix: u64,
    modulus: u64,
    family: MIPSFamily,
    hash: u64,
}

impl RabinKarpMIPSHasher {
    /// The hasher can reduce: its modulus is positive and its radix is one
    /// instruction word.
    pub open spec fn wf(&self) -> bool {
        self.spec_modulus() > 0 && self.spec_radix() == DEFAULT_RADIX
    }

    /// The radix of the hasher.
    pub closed spec fn spec_radix(&self) -> u64 {
        self.radix
    }

    /// The modulus of the hasher.
    pub closed spec fn spec_modulus(&self) -> u64 {
        self.modulus
    }

    /// The family whose instructions the hasher reads.
    pub closed spec fn spec_family(&self) -> MIPSFamily {
        self.family
    }

    /// The hash of everything written so far.
    pub closed spec fn state(&self) -> u64 {
        self.hash
    }

    /// A hasher with the default modulus that has seen nothing yet.
    pub fn new(family: MIPSFamily) -> (hasher: Self)
        ensures
            hasher.wf(),
            hasher.spec_modulus() == DEFAULT_MODULUS,
            hasher.spec_family() == family,
            hasher.state() == 0,
    {
        Self::new_with_modulus(family, DEFAULT_MODULUS)
    }

    /// A hasher with the Fletcher-64 modulus that has seen nothing yet.
    pub fn new_fletcher_64(family: MIPSFamily) -> (hasher: Self)
        ensures
            hasher.wf(),
            hasher.spec_modulus() == FLETCHER_64_MODULUS,
            hasher.spec_family() == family,
            hasher.state() == 0,
    {
        Self::new_with_modulus(family, FLETCHER_64_MODULUS)
    }

    /// A hasher with the given modulus that has seen nothing yet.
    pub fn new_with_modulus(family: MIPSFamily, modulus: u64) -> (hasher: Self)
        requires
            modulus > 0,
        ensures
            hasher.wf(),
            hasher.spec_modulus() == modulus,
            hasher.spec_family() == family,
            hasher.state() == 0,
    {
        Self { radix: DEFAULT_RADIX, modulus, family, hash: 0 }
    }

    /// Searches `bytes` for code of `size` bytes whose hash is `needle` and
    /// returns the byte offset of the first aligned window that matches.
    pub fn find(&self, needle: u64, size: usize, bytes: &[u8]) -> (found: Option<usize>)
        requires
            self.wf(),
            size % 4 == 0,
        ensures
            offset_of(found) == find_in_bytes(
                needle as int,
                size as int,
                bytes@,
                self.spec_family(),
                DEFAULT_RADIX as int,
                self.spec_modulus() as int,
            ),
    {
        let words = normalize_words(bytes, self.family);
        match find_window(
            needle,
            size / 4,
            words.as_slice(),
            0,
            words.len(),
            self.radix,
            self.modulus,
        ) {
            Some(p) => {
                proof {
                    assert(p <= words@.len());
                    if size as int / 4 != 0 {
                        assert(is_first_match(
                            needle as int,
                            size as int / 4,
                            words@,
                            0,
                            words@.len() as int,
                            DEFAULT_RADIX as int,
                            self.modulus as int,
                            p as int,
                        ));
                    }
                }
                Some(4 * p)
            },
            None => None,
        }
    }

    /// One Horner step under the radix and modulus of the hasher.
    pub fn horner_hash(&self, acc: u64, s: u32) -> (hash: u64)
        requires
            self.wf(),
        ensures
            hash == horner_step(
                acc as int,
                s as int,
                DEFAULT_RADIX as int,
                self.spec_modulus() as int,
            ),
    {
        self::horner_hash(acc, s, self.radix, self.modulus)
    }

    /// Folds the instructions of `bytes` into `hash`.
    pub fn hash_be_mips_bytes(&self, hash: u64, bytes: &[u8]) -> (folded: u64)
        requires
            self.wf(),
            bytes@.len() % 4 == 0,
        ensures
            folded == horner_fold(
                hash as int,
                normalized_words(bytes@, self.spec_family()),
                DEFAULT_RADIX as int,
                self.spec_modulus() as int,
            ),
    {
        let words = normalize_words(bytes, self.family);
        let mut acc: u64 = hash;
        let mut i: usize = 0;
        while i < words.len()
            invariant
                self.wf(),
                i <= words@.len(),
                acc == horner_fold(
                    hash as int,
                    words@.subrange(0, i as int),
                    DEFAULT_RADIX as int,
                    self.modulus as int,
                ),
            decreases words@.len() - i,
        {
            proof {
                let next = words@.subrange(0, i + 1);
                assert(next.drop_last() =~= words@.subrange(0, i as int));
                assert(next.last() == words@[i as int]);
            }
            acc = self.horner_hash(acc, words[i]);
            i += 1;
        }
        assert(words@.subrange(0, words@.len() as int) =~= words@);
        acc
    }

    /// Feeds the instructions of `bytes` to the hasher.
    pub fn write(&mut self, bytes: &[u8])
        requires
            old(self).wf(),
            bytes@.len() % 4 == 0,
        ensures
            final(self).wf(),
            final(self).spec_modulus() == old(self).spec_modulus(),
            final(self).spec_family() == old(self).spec_family(),
            final(self).state() == horner_fold(
                old(self).state() as int,
                normalized_words(bytes@, old(self).spec_family()),
                DEFAULT_RADIX as int,
                old(self).spec_modulus() as int,
            ),
    {
        self.hash = self.hash_be_mips_bytes(self.hash, bytes);
    }

    /// The hash of everything written so far.
    pub fn finish(&self) -> (hash: u64)
        ensures
            hash == self.state(),
    {
        self.hash
    }
}

} // verus!
