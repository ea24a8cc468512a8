use vstd::prelude::*;
use vstd::string::*;
use crate::arch::mips::{normalize_instruction, normalized_words, read_word_at};
use crate::elf::TextSection;
use crate::map::{object_stem_text, ObjectMap};
use crate::rk::{horner_fold, lemma_fold_is_reduced, RabinKarpMIPSHasher, DEFAULT_RADIX};
use crate::{FunctionSignature, Options, RODataSignature, SegmentSignature};
use crate::text::{
    lemma_number_text,
    lemma_parse_number_text,
    number_text,
    parse_number,
    parse_u64,
    push_number,
};

verus! {

/// The modulus that a fingerprint has where it names none.
pub const MODULUS_V0: u64 = 0xFFFFFFEF;

/// The text every version 0 fingerprint starts with.
pub open spec fn prefix_text() -> Seq<char> {
    "urn:decomp:match:fingerprint:0:"@
}

/// The text every version 0 fingerprint starts with.
pub fn fingerprint_v0_prefix() -> (prefix: &'static str)
    ensures
        prefix@ == prefix_text(),
{
    "urn:decomp:match:fingerprint:0:"
}

/// Why a text could not be read as a fingerprint.
#[derive(Debug, Clone, Copy, PartialEq, Eq, Hash)]
pub enum FingerprintErrorKind {
    FormatError(&'static str),
    ParseIntError,
}

/// The error of reading a fingerprint.
#[derive(Debug, Clone, Copy, PartialEq, Eq)]
pub struct FingerprintError {
    pub kind: FingerprintErrorKind,
}

/// Why a text is no version 0 fingerprint.
pub enum Malformed {
    Prefix,
    TooFewParts,
    TooManyParts,
    Number,
}

impl FingerprintError {
    /// The error that reports `why`.
    pub open spec fn reports(self, why: Malformed) -> bool {
        match why {
            Malformed::Prefix => self.kind matches FingerprintErrorKind::FormatError(r) && r@
                == "prefix"@,
            Malformed::TooFewParts => self.kind matches FingerprintErrorKind::FormatError(r) && r@
                == "parts: < 2"@,
            Malformed::TooManyParts => self.kind matches FingerprintErrorKind::FormatError(r)
                && r@ == "parts: > 3"@,
            Malformed::Number => self.kind is ParseIntError,
        }
    }
}

/// Fingerprint version 0: the size in bytes of the code, its hash, and the
/// modulus of the hash where it is not the default one.
#[derive(Debug, Clone, Copy, PartialEq, Eq, Hash, Structural)]
pub struct FingerprintV0 {
    size: u64,
    hash: u64,
    modulus: Option<u64>,
}

/// The least index from `from` on at which `s` holds a colon, or the length
/// of `s` where it holds none.
pub open spec fn first_colon_from(s: Seq<char>, from: int) -> int
    decreases s.len() - from,
{
    if from < 0 || from >= s.len() {
        s.len() as int
    } else if s[from] == ':' {
        from
    } else {
        first_colon_from(s, from + 1)
    }
}

/// `s` starts with the version 0 prefix.
pub open spec fn has_prefix(s: Seq<char>) -> bool {
    s.len() >= prefix_text().len() && s.subrange(0, prefix_text().len() as int) == prefix_text()
}

/// What the text `s` stands for: after the prefix come two or three fields
/// with colons between them, the size in base 10, the hash in base 16 and,
/// optionally, the modulus in base 10.
pub open spec fn parse_v0(s: Seq<char>) -> Result<FingerprintV0, Malformed> {
    let p = prefix_text().len() as int;
    let n = s.len() as int;
    let c1 = first_colon_from(s, p);
    let c2 = first_colon_from(s, c1 + 1);
    let c3 = first_colon_from(s, c2 + 1);
    if !has_prefix(s) {
        Err(Malformed::Prefix)
    } else if c1 >= n {
        Err(Malformed::TooFewParts)
    } else if c2 < n && c3 < n {
        Err(Malformed::TooManyParts)
    } else {
        match parse_number(s.subrange(p, c1), 10) {
            None => Err(Malformed::Number),
            Some(size) => match parse_number(s.subrange(c1 + 1, c2), 16) {
                None => Err(Malformed::Number),
                Some(hash) => if c2 >= n {
                    Ok(FingerprintV0::of(size, hash, MODULUS_V0))
                } else {
                    match parse_number(s.subrange(c2 + 1, n), 10) {
                        None => Err(Malformed::Number),
                        Some(modulus) => Ok(FingerprintV0::of(size, hash, modulus)),
                    }
                },
            },
        }
    }
}

/// The index of the first colon of `s` at or after `from`, or the length of
/// `s` in characters.
pub fn find_colon(s: &str, from: usize, len: usize) -> (at: usize)
    requires
        len == s@.len(),
    ensures
        at == first_colon_from(s@, from as int),
        at <= len,
        from <= len ==> from <= at,
{
    if from >= len {
        return len;
    }
    let mut i: usize = from;
    while i < len
        invariant
            len == s@.len(),
            from <= i <= len,
            first_colon_from(s@, from as int) == first_colon_from(s@, i as int),
        decreases len - i,
    {
        if s.get_char(i) == ':' {
            return i;
        }
        i += 1;
    }
    i
}

/// Whether `s` starts with the version 0 prefix.
pub fn starts_with_prefix(s: &str, len: usize) -> (yes: bool)
    requires
        len == s@.len(),
    ensures
        yes == has_prefix(s@),
{
    let prefix = fingerprint_v0_prefix();
    let p = prefix.unicode_len();
    if len < p {
        return false;
    }
    let mut i: usize = 0;
    while i < p
        invariant
            p == prefix@.len(),
            prefix@ == prefix_text(),
            p <= len == s@.len(),
            i <= p,
            s@.subrange(0, i as int) == prefix@.subrange(0, i as int),
        decreases p - i,
    {
        if s.get_char(i) != prefix.get_char(i) {
            assert(s@.subrange(0, p as int)[i as int] != prefix@[i as int]);
            return false;
        }
        assert(s@.subrange(0, i + 1) =~= s@.subrange(0, i as int).push(s@[i as int]));
        assert(prefix@.subrange(0, i + 1) =~= prefix@.subrange(0, i as int).push(prefix@[i as int]));
        i += 1;
    }
    assert(prefix@.subrange(0, p as int) =~= prefix@);
    true
}

impl FingerprintV0 {
    /// The fingerprint with these parts, the default modulus left unnamed.
    pub open spec fn of(size: u64, hash: u64, modulus: u64) -> FingerprintV0 {
        if modulus == MODULUS_V0 {
            FingerprintV0::with_parts(size, hash, None)
        } else {
            FingerprintV0::with_parts(size, hash, Some(modulus))
        }
    }

    /// The fingerprint made of exactly these parts.
    pub closed spec fn with_parts(size: u64, hash: u64, modulus: Option<u64>) -> FingerprintV0 {
        FingerprintV0 { size, hash, modulus }
    }

    /// The size in bytes of the code.
    pub closed spec fn spec_size(self) -> u64 {
        self.size
    }

    /// The hash of the code.
    pub closed spec fn spec_hash(self) -> u64 {
        self.hash
    }

    /// The modulus, where it is named.
    pub closed spec fn spec_modulus(self) -> Option<u64> {
        self.modulus
    }

    /// The modulus under which the hash was taken.
    pub open spec fn effective_modulus(self) -> u64 {
        match self.spec_modulus() {
            Some(m) => m,
            None => MODULUS_V0,
        }
    }

    /// The default modulus is never named.
    pub open spec fn wf(self) -> bool {
        self.spec_modulus() != Some(MODULUS_V0)
    }

    /// A fingerprint is its three parts and nothing else.
    pub proof fn lemma_parts(self)
        ensures
            self == FingerprintV0::with_parts(
                self.spec_size(),
                self.spec_hash(),
                self.spec_modulus(),
            ),
            self.wf() ==> self == FingerprintV0::of(
                self.spec_size(),
                self.spec_hash(),
                self.effective_modulus(),
            ),
    {
    }

    /// The parts of a fingerprint are those it was made of.
    pub proof fn lemma_with_parts(size: u64, hash: u64, modulus: Option<u64>)
        ensures
            FingerprintV0::with_parts(size, hash, modulus).spec_size() == size,
            FingerprintV0::with_parts(size, hash, modulus).spec_hash() == hash,
            FingerprintV0::with_parts(size, hash, modulus).spec_modulus() == modulus,
    {
    }

    /// A fingerprint under the default modulus.
    pub fn new(size: u64, hash: u64) -> (f: Self)
        ensures
            f == FingerprintV0::with_parts(size, hash, None),
            f == FingerprintV0::of(size, hash, MODULUS_V0),
            f.spec_size() == size,
            f.spec_hash() == hash,
            f.spec_modulus() is None,
            f.wf(),
    {
        Self { size, hash, modulus: None }
    }

    /// A fingerprint under the given modulus, which is named unless it is the
    /// default one.
    pub fn new_with_modulus(size: u64, hash: u64, modulus: u64) -> (f: Self)
        ensures
            f == FingerprintV0::of(size, hash, modulus),
            f.spec_size() == size,
            f.spec_hash() == hash,
            f.effective_modulus() == modulus,
            f.wf(),
    {
        if modulus == MODULUS_V0 {
            Self::new(size, hash)
        } else {
            Self { size, hash, modulus: Some(modulus) }
        }
    }

    /// The version of this fingerprint format.
    pub fn version() -> (v: String)
        ensures
            v@ == "0"@,
    {
        String::from_str("0")
    }

    /// The version of the format of this fingerprint.
    pub fn ver(&self) -> (v: String)
        ensures
            v@ == "0"@,
    {
        Self::version()
    }

    /// The size in bytes of the code.
    pub fn size(&self) -> (size: u64)
        ensures
            size == self.spec_size(),
    {
        self.size
    }

    /// The hash of the code.
    pub fn hash(&self) -> (hash: u64)
        ensures
            hash == self.spec_hash(),
    {
        self.hash
    }

    /// The modulus, where it is not the default one.
    pub fn modulus(&self) -> (modulus: Option<u64>)
        ensures
            modulus == self.spec_modulus(),
    {
        self.modulus
    }

    /// The canonical text of this fingerprint: the prefix, the size in base
    /// 10, the hash in lower-case base 16 and, where one is named, the
    /// modulus in base 10.
    pub open spec fn text(self) -> Seq<char> {
        let base = prefix_text() + number_text(self.spec_size() as nat, 10, false) + seq![':']
            + number_text(self.spec_hash() as nat, 16, false);
        match self.spec_modulus() {
            Some(m) => base + seq![':'] + number_text(m as nat, 10, false),
            None => base,
        }
    }

    /// Writes the canonical text of this fingerprint.
    pub fn to_string(&self) -> (s: String)
        ensures
            s@ == self.text(),
    {
        let mut s = String::from_str(fingerprint_v0_prefix());
        push_number(&mut s, self.size, 10, false);
        s.push(':');
        push_number(&mut s, self.hash, 16, false);
        if let Some(m) = self.modulus {
            s.push(':');
            push_number(&mut s, m, 10, false);
        }
        proof {
            let a = number_text(self.size as nat, 10, false);
            let b = number_text(self.hash as nat, 16, false);
            assert((prefix_text() + a).push(':') =~= prefix_text() + a + seq![':']);
            if let Some(m) = self.modulus {
                assert((prefix_text() + a + seq![':'] + b).push(':') =~= prefix_text() + a
                    + seq![':'] + b + seq![':']);
            }
        }
        s
    }

    /// Reads a version 0 fingerprint from its text.
    pub fn from_str(s: &str) -> (parsed: Result<FingerprintV0, FingerprintError>)
        ensures
            match parsed {
                Ok(f) => parse_v0(s@) == Ok::<FingerprintV0, Malformed>(f) && f.wf(),
                Err(e) => parse_v0(s@) is Err && e.reports(parse_v0(s@)->Err_0),
            },
    {
        let n = s.unicode_len();
        if !starts_with_prefix(s, n) {
            return Err(FingerprintError { kind: FingerprintErrorKind::FormatError("prefix") });
        }
        let p = fingerprint_v0_prefix().unicode_len();
        let c1 = find_colon(s, p, n);
        if c1 >= n {
            return Err(
                FingerprintError { kind: FingerprintErrorKind::FormatError("parts: < 2") },
            );
        }
        let c2 = find_colon(s, c1 + 1, n);
        if c2 < n {
            let c3 = find_colon(s, c2 + 1, n);
            if c3 < n {
                return Err(
                    FingerprintError { kind: FingerprintErrorKind::FormatError("parts: > 3") },
                );
            }
        }
        let size = match parse_u64(s, p, c1, 10) {
            Some(v) => v,
            None => {
                return Err(FingerprintError { kind: FingerprintErrorKind::ParseIntError });
            },
        };
        let hash = match parse_u64(s, c1 + 1, c2, 16) {
            Some(v) => v,
            None => {
                return Err(FingerprintError { kind: FingerprintErrorKind::ParseIntError });
            },
        };
        if c2 >= n {
            return Ok(Self::new(size, hash));
        }
        match parse_u64(s, c2 + 1, n, 10) {
            Some(m) => Ok(Self::new_with_modulus(size, hash, m)),
            None => Err(FingerprintError { kind: FingerprintErrorKind::ParseIntError }),
        }
    }
}

/// A colon with none between `from` and it is the first colon from `from`.
pub proof fn lemma_first_colon_found(s: Seq<char>, from: int, at: int)
    requires
        0 <= from <= at < s.len(),
        s[at] == ':',
        forall|k: int| from <= k < at ==> s[k] != ':',
    ensures
        first_colon_from(s, from) == at,
    decreases at - from,
{
    if from < at {
        lemma_first_colon_found(s, from + 1, at);
    }
}

/// Where no colon follows, the search runs to the end.
pub proof fn lemma_first_colon_absent(s: Seq<char>, from: int)
    requires
        0 <= from,
        forall|k: int| from <= k < s.len() ==> s[k] != ':',
    ensures
        first_colon_from(s, from) == s.len(),
    decreases s.len() - from,
{
    if from < s.len() {
        lemma_first_colon_absent(s, from + 1);
    }
}

/// Reading the canonical text of a fingerprint gives the fingerprint back.
pub proof fn lemma_text_round_trip(f: FingerprintV0)
    requires
        f.wf(),
    ensures
        parse_v0(f.text()) == Ok::<FingerprintV0, Malformed>(f),
{
    let s = f.text();
    let pre = prefix_text();
    let p = pre.len() as int;
    let a = number_text(f.spec_size() as nat, 10, false);
    let b = number_text(f.spec_hash() as nat, 16, false);
    lemma_number_text(f.spec_size() as nat, 10, false);
    lemma_number_text(f.spec_hash() as nat, 16, false);
    lemma_parse_number_text(f.spec_size(), 10, false);
    lemma_parse_number_text(f.spec_hash(), 16, false);
    f.lemma_parts();
    let c1 = p + a.len();
    let c2 = c1 + 1 + b.len();
    assert(s.subrange(0, p) =~= pre);
    assert forall|k: int| p <= k < c1 implies s[k] != ':' by {
        assert(s[k] == a[k - p]);
    }
    assert(s[c1] == ':');
    lemma_first_colon_found(s, p, c1);
    assert(s.subrange(p, c1) =~= a);
    match f.spec_modulus() {
        None => {
            assert(s.len() == c2);
            assert forall|k: int| c1 + 1 <= k < s.len() implies s[k] != ':' by {
                assert(s[k] == b[k - c1 - 1]);
            }
            lemma_first_colon_absent(s, c1 + 1);
            assert(s.subrange(c1 + 1, c2) =~= b);
        },
        Some(m) => {
            let c = number_text(m as nat, 10, false);
            lemma_number_text(m as nat, 10, false);
            lemma_parse_number_text(m, 10, false);
            assert(s.len() == c2 + 1 + c.len());
            assert forall|k: int| c1 + 1 <= k < c2 implies s[k] != ':' by {
                assert(s[k] == b[k - c1 - 1]);
            }
            assert(s[c2] == ':');
            lemma_first_colon_found(s, c1 + 1, c2);
            assert forall|k: int| c2 + 1 <= k < s.len() implies s[k] != ':' by {
                assert(s[k] == c[k - c2 - 1]);
            }
            lemma_first_colon_absent(s, c2 + 1);
            assert(s.subrange(c1 + 1, c2) =~= b);
            assert(s.subrange(c2 + 1, s.len() as int) =~= c);
        },
    }
}

/// A versioned identifier of a stretch of machine code. Only version 0
/// exists.
#[derive(Debug, Clone, Copy, PartialEq, Eq, Hash, Structural)]
pub enum Fingerprint {
    V0(FingerprintV0),
}

/// What the text `s` stands for as a fingerprint of any version.
pub open spec fn parse_fingerprint(s: Seq<char>) -> Option<Result<Fingerprint, Malformed>> {
    if has_prefix(s) {
        Some(
            match parse_v0(s) {
                Ok(f) => Ok(Fingerprint::V0(f)),
                Err(why) => Err(why),
            },
        )
    } else {
        None
    }
}

impl Fingerprint {
    /// The version 0 fingerprint inside.
    pub open spec fn v0(self) -> FingerprintV0 {
        match self {
            Fingerprint::V0(f) => f,
        }
    }

    /// A version 0 fingerprint under the default modulus.
    pub fn new_v0(size: u64, hash: u64) -> (f: Self)
        ensures
            f == Fingerprint::V0(FingerprintV0::of(size, hash, MODULUS_V0)),
            f.v0().spec_size() == size,
            f.v0().spec_hash() == hash,
            f.v0().spec_modulus() is None,
    {
        Fingerprint::V0(FingerprintV0::new(size, hash))
    }

    /// The version of the format of this fingerprint.
    pub fn ver(&self) -> (v: String)
        ensures
            v@ == "0"@,
    {
        match self {
            Fingerprint::V0(f) => f.ver(),
        }
    }

    /// The size in bytes of the code behind this fingerprint.
    pub fn size(&self) -> (size: u64)
        ensures
            size == self.v0().spec_size(),
    {
        match self {
            Fingerprint::V0(f) => f.size(),
        }
    }

    /// The hash of the code behind this fingerprint.
    pub fn hash(&self) -> (hash: u64)
        ensures
            hash == self.v0().spec_hash(),
    {
        match self {
            Fingerprint::V0(f) => f.hash(),
        }
    }

    /// Writes the canonical text of this fingerprint.
    pub fn to_string(&self) -> (s: String)
        ensures
            s@ == self.v0().text(),
    {
        match self {
            Fingerprint::V0(f) => f.to_string(),
        }
    }

    /// Reads a fingerprint from its text. A text that does not start with a
    /// known version prefix is reported as `FormatError("bad version")`.
    pub fn from_str(s: &str) -> (parsed: Result<Fingerprint, FingerprintError>)
        ensures
            match parsed {
                Ok(f) => parse_fingerprint(s@) == Some(Ok::<Fingerprint, Malformed>(f)) && f.v0().wf(),
                Err(e) => match parse_fingerprint(s@) {
                    Some(Err(why)) => e.reports(why),
                    Some(Ok(_)) => false,
                    None => e.kind matches FingerprintErrorKind::FormatError(r) && r@
                        == "bad version"@,
                },
            },
    {
        let n = s.unicode_len();
        if starts_with_prefix(s, n) {
            match FingerprintV0::from_str(s) {
                Ok(f) => Ok(Fingerprint::V0(f)),
                Err(e) => Err(e),
            }
        } else {
            Err(FingerprintError { kind: FingerprintErrorKind::FormatError("bad version") })
        }
    }
}

/// How many words of `words` there are up to the last one that is not zero.
pub open spec fn code_words(words: Seq<u32>) -> nat
    decreases words.len(),
{
    if words.len() == 0 {
        0
    } else if words.last() != 0 {
        words.len()
    } else {
        code_words(words.drop_last())
    }
}

/// How many words are left once the zero words at the end are cut down to
/// one.
pub open spec fn trimmed_words(words: Seq<u32>) -> nat {
    if code_words(words) + 1 <= words.len() {
        code_words(words) + 1
    } else {
        words.len()
    }
}

/// The fingerprint of exactly these bytes.
pub open spec fn window_fingerprint(bytes: Seq<u8>, options: Options) -> Fingerprint {
    Fingerprint::V0(
        FingerprintV0::of(
            bytes.len() as u64,
            horner_fold(
                0,
                normalized_words(bytes, options.mips_family),
                DEFAULT_RADIX as int,
                options.modulus as int,
            ) as u64,
            options.modulus,
        ),
    )
}

/// The fingerprint of these bytes without the padding at their end: of a
/// run of zero instructions at the end only the first is hashed.
pub open spec fn trimmed_fingerprint(bytes: Seq<u8>, options: Options) -> Fingerprint {
    window_fingerprint(
        bytes.subrange(
            0,
            4 * (trimmed_words(normalized_words(bytes, options.mips_family)) as int),
        ),
        options,
    )
}

/// The fingerprint of exactly the instructions in `bytes`.
pub fn exact_sig_for_range(bytes: &[u8], options: &Options) -> (fingerprint: Fingerprint)
    requires
        bytes@.len() % 4 == 0,
        options.modulus > 0,
    ensures
        fingerprint == window_fingerprint(bytes@, *options),
        fingerprint.v0().wf(),
        fingerprint.v0().spec_size() == bytes@.len(),
        fingerprint.v0().spec_hash() < options.modulus,
        fingerprint.v0().effective_modulus() == options.modulus,
{
    let mut hasher = RabinKarpMIPSHasher::new_with_modulus(options.mips_family, options.modulus);
    hasher.write(bytes);
    proof {
        lemma_fold_is_reduced(
            0,
            normalized_words(bytes@, options.mips_family),
            DEFAULT_RADIX as int,
            options.modulus as int,
        );
    }
    Fingerprint::V0(
        FingerprintV0::new_with_modulus(bytes.len() as u64, hasher.finish(), options.modulus),
    )
}

/// The fingerprint of the instructions in `bytes` with the padding at
/// their end cut down to one instruction.
pub fn sig_for_range(bytes: &[u8], options: &Options) -> (fingerprint: Fingerprint)
    requires
        bytes@.len() % 4 == 0,
        options.modulus > 0,
    ensures
        fingerprint == trimmed_fingerprint(bytes@, *options),
        fingerprint.v0().wf(),
        fingerprint.v0().spec_size() % 4 == 0,
        fingerprint.v0().spec_size() <= bytes@.len(),
        fingerprint.v0().spec_hash() < options.modulus,
        fingerprint.v0().effective_modulus() == options.modulus,
{
    let ghost words = normalized_words(bytes@, options.mips_family);
    let mut unpadded: usize = bytes.len() / 4;
    assert(words.subrange(0, unpadded as int) =~= words);
    let mut done: bool = false;
    while unpadded > 0 && !done
        invariant
            bytes@.len() % 4 == 0,
            4 * unpadded <= bytes@.len() <= usize::MAX,
            words == normalized_words(bytes@, options.mips_family),
            code_words(words) == code_words(words.subrange(0, unpadded as int)),
            done ==> unpadded > 0 && words[unpadded - 1] != 0,
        decreases unpadded + if done { 0int } else { 1int },
    {
        let word = normalize_instruction(
            read_word_at(bytes, 4 * (unpadded - 1), options.mips_family),
            options.mips_family,
        );
        let ghost head = words.subrange(0, unpadded as int);
        assert(head.last() == words[unpadded - 1]);
        if word != 0 {
            done = true;
        } else {
            assert(head.drop_last() =~= words.subrange(0, unpadded - 1));
            unpadded -= 1;
        }
    }
    proof {
        let head = words.subrange(0, unpadded as int);
        if unpadded > 0 {
            assert(head.last() == words[unpadded - 1]);
        }
        assert(code_words(words) == unpadded);
    }
    let total: usize = bytes.len() / 4;
    let kept: usize = if unpadded + 1 <= total {
        unpadded + 1
    } else {
        total
    };
    exact_sig_for_range(vstd::slice::slice_subrange(bytes, 0, 4 * kept), options)
}

/// Classifies the read-only data of an object by where its jump tables
/// are. No object is classified yet: the answer is always `None`.
pub fn calculate_rodata_signature(map: &ObjectMap, bytes: &[u8], options: &Options) -> (signature:
    Option<RODataSignature>)
    ensures
        signature is None,
{
    None
}

/// `signature` is the signature of `map` over the image `bytes`: the
/// trimmed fingerprint of its text and the exact fingerprint of each of its
/// functions, in the order of the map.
pub open spec fn is_signature_of(
    signature: SegmentSignature,
    map: ObjectMap,
    bytes: Seq<u8>,
    options: Options,
) -> bool {
    let start = map.offset - map.vrom;
    &&& signature.fingerprint == trimmed_fingerprint(
        bytes.subrange(start, start + map.size),
        options,
    )
    &&& signature.size == map.size
    &&& signature.family == options.mips_family
    &&& signature.rodata is None
    &&& signature.functions@.len() == map.text_symbols@.len()
    &&& forall|i: int|
        0 <= i < map.text_symbols@.len() ==> {
            let symbol = map.text_symbols@[i];
            let at = symbol.offset - map.vrom;
            &&& (#[trigger] signature.functions@[i]).name@ == symbol.name@
            &&& signature.functions@[i].size == symbol.size
            &&& signature.functions@[i].fingerprint == window_fingerprint(
                bytes.subrange(at, at + symbol.size),
                options,
            )
        }
}

/// Computes the signature of an object that goes by `name`, where its text
/// and its functions lie inside `bytes`.
pub fn object_signature(name: String, map: &ObjectMap, bytes: &[u8], options: &Options) -> (signature:
    Option<SegmentSignature>)
    requires
        options.modulus > 0,
    ensures
        signature is Some <==> map.fits(bytes@.len() as int),
        signature is Some ==> signature->Some_0.name == name && is_signature_of(
            signature->Some_0,
            *map,
            bytes@,
            *options,
        ),
{
    if !map.fits_in(bytes.len()) {
        return None;
    }
    let start: usize = map.offset - map.vrom;
    let end: usize = start + map.size;
    let object_hash = sig_for_range(vstd::slice::slice_subrange(bytes, start, end), options);
    let mut functions: Vec<FunctionSignature> = Vec::new();
    let mut i: usize = 0;
    while i < map.text_symbols.len()
        invariant
            options.modulus > 0,
            map.fits(bytes@.len() as int),
            bytes@.len() <= usize::MAX,
            i <= map.text_symbols@.len(),
            functions@.len() == i,
            forall|k: int|
                0 <= k < i ==> {
                    let symbol = map.text_symbols@[k];
                    let at = symbol.offset - map.vrom;
                    &&& (#[trigger] functions@[k]).name@ == symbol.name@
                    &&& functions@[k].size == symbol.size
                    &&& functions@[k].fingerprint == window_fingerprint(
                        bytes@.subrange(at, at + symbol.size),
                        *options,
                    )
                },
        decreases map.text_symbols@.len() - i,
    {
        let symbol = &map.text_symbols[i];
        assert(map.vrom <= map.text_symbols@[i as int].offset);
        let at: usize = symbol.offset - map.vrom;
        let function_hash = exact_sig_for_range(
            vstd::slice::slice_subrange(bytes, at, at + symbol.size),
            options,
        );
        functions.push(
            FunctionSignature {
                name: symbol.name.clone(),
                fingerprint: function_hash,
                size: symbol.size,
            },
        );
        i += 1;
    }
    let rodata = calculate_rodata_signature(map, bytes, options);
    Some(
        SegmentSignature {
            name,
            fingerprint: object_hash,
            size: map.size,
            family: options.mips_family,
            rodata,
            functions,
        },
    )
}

/// Computes the signature of an object from the image that holds its text.
/// There is none where the object or one of its functions does not lie
/// inside the image, or where its path has no last component to name it by.
pub fn calculate_object_hashes(map: &ObjectMap, bytes: &[u8], options: &Options) -> (signature:
    Option<SegmentSignature>)
    requires
        options.modulus > 0,
    ensures
        signature is Some ==> {
            &&& map.fits(bytes@.len() as int)
            &&& is_signature_of(signature->Some_0, *map, bytes@, *options)
            &&& exists|file_name: Seq<char>|
                signature->Some_0.name@ == #[trigger] object_stem_text(file_name)
        },
{
    match map.name() {
        Some(name) => object_signature(name, map, bytes, options),
        None => None,
    }
}

/// The section at `i` holds the address at which `segment` runs.
pub open spec fn holds_segment(data: Seq<TextSection>, segment: ObjectMap, i: int) -> bool {
    0 <= i < data.len() && data[i].vram <= segment.vram < data[i].vram + data[i].data@.len()
}

/// The first section that holds `segment`, where there is one.
pub open spec fn section_of(data: Seq<TextSection>, segment: ObjectMap, n: nat) -> Option<int>
    decreases n,
{
    if n == 0 {
        None
    } else {
        match section_of(data, segment, (n - 1) as nat) {
            Some(i) => Some(i),
            None => if holds_segment(data, segment, n - 1) {
                Some(n - 1)
            } else {
                None
            },
        }
    }
}

/// Picks the bytes of the first section into which `segment` is loaded.
pub fn data_for_segment<'a>(data: &'a Vec<TextSection>, segment: &ObjectMap) -> (found: Option<
    &'a Vec<u8>,
>)
    ensures
        match section_of(data@, *segment, data@.len()) {
            Some(i) => found == Some(&data@[i].data),
            None => found is None,
        },
{
    let mut i: usize = 0;
    while i < data.len()
        invariant
            i <= data@.len(),
            section_of(data@, *segment, i as nat) is None,
        decreases data@.len() - i,
    {
        let addr: usize = data[i].vram;
        if segment.vram >= addr && segment.vram - addr < data[i].data.len() {
            proof {
                lemma_section_found(data@, *segment, i as int, data@.len());
            }
            return Some(&data[i].data);
        }
        i += 1;
    }
    None
}

/// Once a section is found among the first sections, it stays the answer.
pub proof fn lemma_section_found(data: Seq<TextSection>, segment: ObjectMap, i: int, n: nat)
    requires
        0 <= i < n,
        section_of(data, segment, i as nat) is None,
        holds_segment(data, segment, i),
    ensures
        section_of(data, segment, n) == Some(i),
    decreases n,
{
    if n > i + 1 {
        lemma_section_found(data, segment, i, (n - 1) as nat);
    }
}

/// Every object that is loaded into a section lies inside that section.
pub open spec fn all_fit(segments: Seq<ObjectMap>, data: Seq<TextSection>) -> bool {
    forall|i: int|
        0 <= i < segments.len() ==> match section_of(data, #[trigger] segments[i], data.len()) {
            Some(s) => segments[i].fits(data[s].data@.len() as int),
            None => true,
        }
}

/// Checks that every object that is loaded into a section lies inside it.
pub fn objects_fit(segments: &Vec<ObjectMap>, data: &Vec<TextSection>) -> (yes: bool)
    ensures
        yes == all_fit(segments@, data@),
{
    let mut i: usize = 0;
    while i < segments.len()
        invariant
            i <= segments@.len(),
            forall|k: int|
                0 <= k < i ==> match section_of(data@, #[trigger] segments@[k], data@.len()) {
                    Some(s) => segments@[k].fits(data@[s].data@.len() as int),
                    None => true,
                },
        decreases segments@.len() - i,
    {
        if let Some(bytes) = data_for_segment(data, &segments[i]) {
            if !segments[i].fits_in(bytes.len()) {
                return false;
            }
        }
        i += 1;
    }
    true
}

/// The object at `i` gets a signature: it is loaded into a section and has
/// a name.
pub open spec fn is_signed(
    segments: Seq<ObjectMap>,
    names: Seq<Option<String>>,
    data: Seq<TextSection>,
    i: int,
) -> bool {
    section_of(data, segments[i], data.len()) is Some && names[i] is Some
}

/// Those of the first `n` objects that get a signature, in their order.
pub open spec fn signed_objects(
    segments: Seq<ObjectMap>,
    names: Seq<Option<String>>,
    data: Seq<TextSection>,
    n: nat,
) -> Seq<int>
    decreases n,
{
    if n == 0 {
        Seq::empty()
    } else {
        let before = signed_objects(segments, names, data, (n - 1) as nat);
        if is_signed(segments, names, data, n - 1) {
            before.push(n - 1)
        } else {
            before
        }
    }
}

/// `signatures` are the signatures of the objects that `source` names, one
/// for one, each under its name and over the section into which its object
/// is loaded.
pub open spec fn are_signatures_of(
    signatures: Seq<SegmentSignature>,
    source: Seq<int>,
    segments: Seq<ObjectMap>,
    names: Seq<Option<String>>,
    data: Seq<TextSection>,
    options: Options,
) -> bool {
    &&& source.len() == signatures.len()
    &&& forall|a: int|
        0 <= a < source.len() ==> {
            let i = #[trigger] source[a];
            &&& 0 <= i < segments.len()
            &&& is_signed(segments, names, data, i)
            &&& signatures[a].name == names[i]->Some_0
            &&& is_signature_of(
                signatures[a],
                segments[i],
                data[section_of(data, segments[i], data.len())->Some_0].data@,
                options,
            )
        }
}

/// Fingerprints the objects of a linker map under the names given for
/// them: one signature for each object that is loaded into one of the
/// sections and has a name, in the order of the map.
pub fn fingerprint_with_names(
    segments: &Vec<ObjectMap>,
    names: &Vec<Option<String>>,
    data: &Vec<TextSection>,
    options: &Options,
) -> (signatures: Vec<SegmentSignature>)
    requires
        options.modulus > 0,
        all_fit(segments@, data@),
        names@.len() == segments@.len(),
    ensures
        are_signatures_of(
            signatures@,
            signed_objects(segments@, names@, data@, segments@.len()),
            segments@,
            names@,
            data@,
            *options,
        ),
{
    let mut signatures: Vec<SegmentSignature> = Vec::new();
    let mut i: usize = 0;
    while i < segments.len()
        invariant
            options.modulus > 0,
            all_fit(segments@, data@),
            names@.len() == segments@.len(),
            i <= segments@.len(),
            forall|a: int|
                0 <= a < signed_objects(segments@, names@, data@, i as nat).len()
                    ==> #[trigger] signed_objects(segments@, names@, data@, i as nat)[a] < i,
            are_signatures_of(
                signatures@,
                signed_objects(segments@, names@, data@, i as nat),
                segments@,
                names@,
                data@,
                *options,
            ),
        decreases segments@.len() - i,
    {
        let ghost before = signed_objects(segments@, names@, data@, i as nat);
        let ghost before_signatures = signatures@;
        if let Some(bytes) = data_for_segment(data, &segments[i]) {
            if let Some(name) = &names[i] {
                assert(segments@[i as int].fits(bytes@.len() as int));
                let signature = object_signature(
                    name.clone(),
                    &segments[i],
                    bytes.as_slice(),
                    options,
                );
                assert(signature is Some);
                if let Some(signature) = signature {
                    signatures.push(signature);
                }
                proof {
                    let source = signed_objects(segments@, names@, data@, (i + 1) as nat);
                    assert(source == before.push(i as int));
                    assert forall|a: int| 0 <= a < source.len() implies {
                        let x = #[trigger] source[a];
                        &&& 0 <= x < segments@.len()
                        &&& is_signed(segments@, names@, data@, x)
                        &&& signatures@[a].name == names@[x]->Some_0
                        &&& is_signature_of(
                            signatures@[a],
                            segments@[x],
                            data@[section_of(data@, segments@[x], data@.len())->Some_0].data@,
                            *options,
                        )
                    } by {
                        if a < before.len() {
                            assert(source[a] == before[a]);
                            assert(signatures@[a] == before_signatures[a]);
                        }
                    }
                }
            }
        }
        i += 1;
    }
    signatures
}

/// The names of the objects, each where its path has a last component.
pub fn object_names(segments: &Vec<ObjectMap>) -> (names: Vec<Option<String>>)
    ensures
        names@.len() == segments@.len(),
        forall|i: int|
            0 <= i < names@.len() && (#[trigger] names@[i]) is Some ==> exists|file_name: Seq<char>|
                names@[i]->Some_0@ == #[trigger] object_stem_text(file_name),
{
    let mut names: Vec<Option<String>> = Vec::new();
    let mut i: usize = 0;
    while i < segments.len()
        invariant
            i <= segments@.len(),
            names@.len() == i,
            forall|k: int|
                0 <= k < names@.len() && (#[trigger] names@[k]) is Some ==> exists|
                    file_name: Seq<char>,
                | names@[k]->Some_0@ == #[trigger] object_stem_text(file_name),
        decreases segments@.len() - i,
    {
        names.push(segments[i].name());
        i += 1;
    }
    names
}

/// Fingerprints the objects of a linker map: one signature for each object
/// that is loaded into one of the sections, in the order of the map, under
/// the name that its path gives it. An object whose path has no last
/// component gets no signature.
pub fn fingerprint(segments: &Vec<ObjectMap>, data: &Vec<TextSection>, options: &Options) -> (signatures:
    Vec<SegmentSignature>)
    requires
        options.modulus > 0,
        all_fit(segments@, data@),
    ensures
        exists|names: Seq<Option<String>>|
            names.len() == segments@.len() && #[trigger] are_signatures_of(
                signatures@,
                signed_objects(segments@, names, data@, segments@.len()),
                segments@,
                names,
                data@,
                *options,
            ),
{
    let names = object_names(segments);
    fingerprint_with_names(segments, &names, data, options)
}

} // verus!
