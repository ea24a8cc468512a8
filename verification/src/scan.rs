use vstd::prelude::*;
use vstd::string::*;
use crate::arch::mips::{native_word_at, normalize_words, normalized_words, read_word_at};
use crate::order::{is_scan_order, lemma_scan_order_sizes, scan_order, scan_order_of};
use crate::rk::{find_in_words, find_window, is_first_match, offset_of};
use crate::{
    FunctionOffset,
    FunctionSignature,
    MIPSFamily,
    Options,
    RODataOffset,
    RODataSignature,
    RODataSignatureType,
    SegmentOffset,
    SegmentSignature,
};

verus! {

/// The byte offset at which a search over `[start, end)` of `words` stops,
/// where the range lies inside `words`.
pub open spec fn find_offset(
    needle: int,
    n: int,
    words: Seq<u32>,
    start: int,
    end: int,
    radix: int,
    q: int,
) -> Option<int> {
    if start > end || end > words.len() {
        None
    } else {
        match find_in_words(needle, n, words, start, end, radix, q) {
            Some(p) => Some(4 * p),
            None => None,
        }
    }
}

/// A found offset is the aligned start of a window that lies in the range.
pub proof fn lemma_find_offset_in_range(
    needle: int,
    n: int,
    words: Seq<u32>,
    start: int,
    end: int,
    radix: int,
    q: int,
)
    requires
        0 <= n,
        0 <= start,
    ensures
        match find_offset(needle, n, words, start, end, radix, q) {
            Some(at) => at % 4 == 0 && 4 * start <= at && at + 4 * n <= 4 * end && end
                <= words.len(),
            None => true,
        },
{
    if start <= end && end <= words.len() && n != 0 {
        if exists|p: int| is_first_match(needle, n, words, start, end, radix, q, p) {
            let p = choose|p: int| is_first_match(needle, n, words, start, end, radix, q, p);
            assert(is_first_match(needle, n, words, start, end, radix, q, p));
        }
    }
}

/// Searches the instructions `[start, end)` for a run of `size` words whose
/// hash is `fingerprint`, and returns the byte offset of the first one.
pub fn find(
    fingerprint: u64,
    size: usize,
    instructions: &[u32],
    start: usize,
    end: usize,
    options: &Options,
) -> (found: Option<usize>)
    requires
        options.modulus > 0,
        4 * instructions@.len() <= usize::MAX,
    ensures
        offset_of(found) == find_offset(
            fingerprint as int,
            size as int,
            instructions@,
            start as int,
            end as int,
            options.radix as int,
            options.modulus as int,
        ),
{
    if start > end || end > instructions.len() {
        return None;
    }
    match find_window(fingerprint, size, instructions, start, end, options.radix, options.modulus) {
        Some(p) => {
            proof {
                lemma_find_offset_in_range(
                    fingerprint as int,
                    size as int,
                    instructions@,
                    start as int,
                    end as int,
                    options.radix as int,
                    options.modulus as int,
                );
            }
            Some(4 * p)
        },
        None => None,
    }
}

/// Whether the block `[offset, offset + size)` starts inside the claimed
/// block `[block_start, block_start + block_size)` or ends inside it, the
/// end of the claimed block included.
pub open spec fn overlaps_claim(offset: int, size: int, block_start: int, block_size: int) -> bool {
    let end = offset + size;
    let block_end = block_start + block_size;
    (block_start <= offset < block_end) || (block_start < end <= block_end)
}

/// Whether the block overlaps one of the claimed blocks.
pub open spec fn is_claimed(offset: int, size: int, claims: Seq<(usize, usize)>) -> bool {
    exists|i: int|
        0 <= i < claims.len() && overlaps_claim(
            offset,
            size,
            (#[trigger] claims[i]).0 as int,
            claims[i].1 as int,
        )
}

/// Decides whether the block given by `offset` and `size` overlaps address
/// space that was claimed before.
pub fn address_space_is_used(
    offset: usize,
    size: usize,
    allocated_address_space: &Vec<(usize, usize)>,
) -> (used: bool)
    ensures
        used == is_claimed(offset as int, size as int, allocated_address_space@),
{
    let end: u128 = offset as u128 + size as u128;
    let mut i: usize = 0;
    while i < allocated_address_space.len()
        invariant
            i <= allocated_address_space@.len(),
            end == offset + size,
            forall|k: int|
                0 <= k < i ==> !overlaps_claim(
                    offset as int,
                    size as int,
                    (#[trigger] allocated_address_space@[k]).0 as int,
                    allocated_address_space@[k].1 as int,
                ),
        decreases allocated_address_space@.len() - i,
    {
        let block_start: usize = allocated_address_space[i].0;
        let block_size: usize = allocated_address_space[i].1;
        let block_end: u128 = block_start as u128 + block_size as u128;
        if (offset >= block_start && (offset as u128) < block_end) || (end > block_start as u128
            && end <= block_end) {
            return true;
        }
        i += 1;
    }
    false
}

/// How many of the first `n` names read `name`.
pub open spec fn occurrences(names: Seq<String>, name: Seq<char>, n: nat) -> nat
    decreases n,
{
    if n == 0 {
        0
    } else {
        occurrences(names, name, (n - 1) as nat) + if names[n - 1]@ == name {
            1nat
        } else {
            0nat
        }
    }
}

/// How often the name at `i` occurs in the whole list.
pub open spec fn votes(names: Seq<String>, i: int) -> nat {
    occurrences(names, names[i]@, names.len())
}

/// `b` is the first place of a name that no other name outnumbers.
pub open spec fn is_best_index(names: Seq<String>, b: int) -> bool {
    &&& 0 <= b < names.len()
    &&& forall|j: int| 0 <= j < names.len() ==> votes(names, j) <= votes(names, b)
    &&& forall|j: int| 0 <= j < b ==> votes(names, j) < votes(names, b)
}

/// How often `name` occurs in `names`.
pub fn count_name(names: &Vec<String>, name: &String) -> (count: usize)
    ensures
        count == occurrences(names@, name@, names@.len()),
{
    let mut count: usize = 0;
    let mut i: usize = 0;
    while i < names.len()
        invariant
            i <= names@.len(),
            count <= i,
            count == occurrences(names@, name@, i as nat),
        decreases names@.len() - i,
    {
        if names[i] == *name {
            count += 1;
        }
        i += 1;
    }
    count
}

/// The index of the most common name, the earliest among equals.
pub fn best_name_index(names: &Vec<String>) -> (best: usize)
    requires
        names@.len() > 0,
    ensures
        is_best_index(names@, best as int),
{
    let mut best: usize = 0;
    let mut best_votes: usize = count_name(names, &names[0]);
    let mut i: usize = 1;
    while i < names.len()
        invariant
            1 <= i <= names@.len(),
            best < i,
            best_votes == votes(names@, best as int),
            forall|j: int| 0 <= j < i ==> votes(names@, j) <= best_votes,
            forall|j: int| 0 <= j < best ==> votes(names@, j) < best_votes,
        decreases names@.len() - i,
    {
        let v = count_name(names, &names[i]);
        if v > best_votes {
            best = i;
            best_votes = v;
        }
        i += 1;
    }
    best
}

/// The most common of `names`; among equally common ones, the one that
/// comes first. `None` for an empty list.
pub fn best_name(names: &Vec<String>) -> (name: Option<String>)
    ensures
        names@.len() == 0 ==> name is None,
        names@.len() > 0 ==> name is Some && exists|b: int|
            is_best_index(names@, b) && name->Some_0@ == (#[trigger] names@[b])@,
{
    if names.len() == 0 {
        return None;
    }
    let best = best_name_index(names);
    Some(names[best].clone())
}

/// The best index is unique.
pub proof fn lemma_best_index_unique(names: Seq<String>, a: int, b: int)
    requires
        is_best_index(names, a),
        is_best_index(names, b),
    ensures
        a == b,
{
    if a < b {
        assert(votes(names, a) < votes(names, b));
        assert(votes(names, b) <= votes(names, a));
    } else if b < a {
        assert(votes(names, b) < votes(names, a));
        assert(votes(names, a) <= votes(names, b));
    }
}

/// What a search for jump tables looks at: an image, how its words are
/// read, the address range of the text that table entries point into, and
/// the part of the image that holds that text and is passed over.
pub struct TableSearch {
    pub bytes: Seq<u8>,
    pub family: MIPSFamily,
    pub segment_start: int,
    pub segment_end: int,
    pub vrom_start: int,
    pub vrom_end: int,
}

impl TableSearch {
    /// The number of complete words of the image.
    pub open spec fn words(self) -> int {
        self.bytes.len() as int / 4
    }

    /// Word `k` lies in the text itself.
    pub open spec fn is_skipped(self, k: int) -> bool {
        self.vrom_start <= 4 * k < self.vrom_end
    }

    /// Word `k`, read as an address, lies strictly inside the text.
    pub open spec fn points_inside(self, k: int) -> bool {
        self.segment_start < native_word_at(self.bytes, 4 * k, self.family) < self.segment_end
    }

    /// Word `k` is outside the text and points into it.
    pub open spec fn is_entry(self, k: int) -> bool {
        !self.is_skipped(k) && self.points_inside(k)
    }

    /// The byte offset of the first run of entries that is `size` bytes long
    /// when a word outside the text that is no entry ends it. The walk is at
    /// word `k`; `run` is the byte offset at which the open run began. Words
    /// of the text neither extend nor end a run, and a run that is still
    /// open at the end of the image is not reported.
    pub open spec fn first_run_from(self, size: int, k: int, run: Option<int>) -> Option<int>
        decreases self.words() - k,
    {
        if k < 0 || k >= self.words() {
            None
        } else if self.is_skipped(k) {
            self.first_run_from(size, k + 1, run)
        } else if self.points_inside(k) {
            self.first_run_from(
                size,
                k + 1,
                match run {
                    Some(r) => Some(r),
                    None => Some(4 * k),
                },
            )
        } else {
            match run {
                Some(r) => if 4 * k - r == size {
                    Some(r)
                } else {
                    self.first_run_from(size, k + 1, None)
                },
                None => self.first_run_from(size, k + 1, None),
            }
        }
    }

    /// The last entry among the first `n` words.
    pub open spec fn last_entry(self, n: int) -> Option<int>
        decreases n,
    {
        if n <= 0 {
            None
        } else if self.is_entry(n - 1) {
            Some(n - 1)
        } else {
            self.last_entry(n - 1)
        }
    }

    /// The block of `size` bytes that ends with the last entry of the image,
    /// where it starts inside the image.
    pub open spec fn block_before_last_entry(self, size: int) -> Option<int> {
        match self.last_entry(self.words()) {
            Some(k) => {
                let offset = 4 * k + 4 - size;
                if 0 <= offset < self.bytes.len() {
                    Some(offset)
                } else {
                    None
                }
            },
            None => None,
        }
    }
}

/// What a reported run is: it starts at the word `r` with an entry, holds
/// nothing but entries and words of the text, and ends before the word
/// `t`, which lies outside the text and is no entry.
pub open spec fn is_table_run(search: TableSearch, r: int, t: int) -> bool {
    &&& 0 <= r < t < search.words()
    &&& search.is_entry(r)
    &&& !search.is_skipped(t)
    &&& !search.points_inside(t)
    &&& forall|j: int| r < j < t ==> search.is_skipped(j) || search.points_inside(j)
}

/// The run that a search reports is a run of entries of exactly the size
/// that was asked for.
pub proof fn lemma_first_run_is_a_run(search: TableSearch, size: int, k: int, run: Option<int>)
    requires
        0 <= k <= search.words(),
        match run {
            Some(r) => {
                &&& r % 4 == 0
                &&& 0 <= r / 4 < k
                &&& search.is_entry(r / 4)
                &&& forall|j: int| r / 4 < j < k ==> search.is_skipped(j) || search.points_inside(j)
            },
            None => true,
        },
    ensures
        match search.first_run_from(size, k, run) {
            Some(r) => r % 4 == 0 && exists|t: int|
                #[trigger] is_table_run(search, r / 4, t) && 4 * t - r == size,
            None => true,
        },
    decreases search.words() - k,
{
    if k < search.words() {
        if search.is_skipped(k) {
            lemma_first_run_is_a_run(search, size, k + 1, run);
        } else if search.points_inside(k) {
            match run {
                Some(r) => {
                    lemma_first_run_is_a_run(search, size, k + 1, Some(r));
                },
                None => {
                    lemma_first_run_is_a_run(search, size, k + 1, Some(4 * k));
                },
            }
        } else {
            match run {
                Some(r) => {
                    if 4 * k - r == size {
                        assert(is_table_run(search, r / 4, k));
                    } else {
                        lemma_first_run_is_a_run(search, size, k + 1, None);
                    }
                },
                None => {
                    lemma_first_run_is_a_run(search, size, k + 1, None);
                },
            }
        }
    }
}

/// A located block as a pair of mathematical integers.
pub open spec fn block_of(found: Option<RODataOffset>) -> Option<(int, int)> {
    match found {
        Some(block) => Some((block.offset as int, block.size as int)),
        None => None,
    }
}

/// A block of `size` bytes at an offset, where there is an offset.
pub open spec fn sized(offset: Option<int>, size: int) -> Option<(int, int)> {
    match offset {
        Some(at) => Some((at, size)),
        None => None,
    }
}

/// Looks for read-only data that consists of jump tables only: the first
/// run of words outside the text that all point into the text and that is
/// exactly `rodata_size` bytes long.
pub fn find_only_jump_tables(
    segment_start: usize,
    segment_end: usize,
    vrom_start: usize,
    vrom_end: usize,
    rodata_size: usize,
    mips_family: MIPSFamily,
    bytes: &[u8],
) -> (found: Option<RODataOffset>)
    ensures
        block_of(found) == sized(
            (TableSearch {
                bytes: bytes@,
                family: mips_family,
                segment_start: segment_start as int,
                segment_end: segment_end as int,
                vrom_start: vrom_start as int,
                vrom_end: vrom_end as int,
            }).first_run_from(rodata_size as int, 0, None),
            rodata_size as int,
        ),
{
    let ghost search = TableSearch {
        bytes: bytes@,
        family: mips_family,
        segment_start: segment_start as int,
        segment_end: segment_end as int,
        vrom_start: vrom_start as int,
        vrom_end: vrom_end as int,
    };
    let n: usize = bytes.len() / 4;
    let mut found_segment_addr: bool = false;
    let mut range_start: usize = 0;
    let mut k: usize = 0;
    while k < n
        invariant
            n == bytes@.len() / 4,
            4 * n <= bytes@.len() <= usize::MAX,
            k <= n,
            search.bytes == bytes@,
            search.family == mips_family,
            search.segment_start == segment_start,
            search.segment_end == segment_end,
            search.vrom_start == vrom_start,
            search.vrom_end == vrom_end,
            found_segment_addr ==> range_start <= 4 * k,
            search.first_run_from(rodata_size as int, 0, None) == search.first_run_from(
                rodata_size as int,
                k as int,
                if found_segment_addr {
                    Some(range_start as int)
                } else {
                    None
                },
            ),
        decreases n - k,
    {
        let i: usize = 4 * k;
        if i >= vrom_start && i < vrom_end {
            k += 1;
            continue ;
        }
        let addr: u32 = read_word_at(bytes, i, mips_family);
        if (addr as u64) > (segment_start as u64) && (addr as u64) < (segment_end as u64) {
            if !found_segment_addr {
                found_segment_addr = true;
                range_start = i;
            }
        } else if found_segment_addr {
            found_segment_addr = false;
            if i - range_start == rodata_size {
                return Some(RODataOffset { offset: range_start, size: rodata_size });
            }
        }
        k += 1;
    }
    None
}

/// Looks for read-only data that ends with a jump table: the block of
/// `rodata_size` bytes whose last word is the last word outside the text
/// that points into the text, where that block starts inside the image.
pub fn find_ends_with_jump_table(
    segment_start: usize,
    segment_end: usize,
    vrom_start: usize,
    vrom_end: usize,
    rodata_size: usize,
    mips_family: MIPSFamily,
    bytes: &[u8],
) -> (found: Option<RODataOffset>)
    ensures
        block_of(found) == sized(
            (TableSearch {
                bytes: bytes@,
                family: mips_family,
                segment_start: segment_start as int,
                segment_end: segment_end as int,
                vrom_start: vrom_start as int,
                vrom_end: vrom_end as int,
            }).block_before_last_entry(rodata_size as int),
            rodata_size as int,
        ),
{
    let ghost search = TableSearch {
        bytes: bytes@,
        family: mips_family,
        segment_start: segment_start as int,
        segment_end: segment_end as int,
        vrom_start: vrom_start as int,
        vrom_end: vrom_end as int,
    };
    let n: usize = bytes.len() / 4;
    let mut found_segment_addr: bool = false;
    let mut last_offset: usize = 0;
    let mut k: usize = 0;
    while k < n
        invariant
            n == bytes@.len() / 4,
            4 * n <= bytes@.len() <= usize::MAX,
            k <= n,
            search.bytes == bytes@,
            search.family == mips_family,
            search.segment_start == segment_start,
            search.segment_end == segment_end,
            search.vrom_start == vrom_start,
            search.vrom_end == vrom_end,
            found_segment_addr ==> last_offset % 4 == 0 && last_offset < 4 * k
                && search.last_entry(k as int) == Some(last_offset as int / 4),
            !found_segment_addr ==> search.last_entry(k as int) is None,
        decreases n - k,
    {
        let i: usize = 4 * k;
        if !(i >= vrom_start && i < vrom_end) {
            let addr: u32 = read_word_at(bytes, i, mips_family);
            if (addr as u64) > (segment_start as u64) && (addr as u64) < (segment_end as u64) {
                found_segment_addr = true;
                last_offset = i;
            }
        }
        k += 1;
    }
    if !found_segment_addr {
        return None;
    }
    if last_offset + 4 < rodata_size {
        return None;
    }
    let rodata_offset: usize = last_offset + 4 - rodata_size;
    if rodata_offset < bytes.len() {
        Some(RODataOffset { offset: rodata_offset, size: rodata_size })
    } else {
        None
    }
}

/// Where the read-only data of a segment found at `segment_offset` lies,
/// as far as its kind can be located: only jump tables, or a jump table at
/// the end. Without a classification or a load address there is nothing to
/// look for.
pub open spec fn locate_rodata(
    rodata: Option<RODataSignature>,
    vram_start: Option<usize>,
    segment_offset: int,
    segment_size: int,
    family: MIPSFamily,
    bytes: Seq<u8>,
) -> Option<(int, int)> {
    match (rodata, vram_start) {
        (Some(signature), Some(base)) => {
            let search = TableSearch {
                bytes,
                family,
                segment_start: base + segment_offset,
                segment_end: base + segment_offset + segment_size,
                vrom_start: segment_offset,
                vrom_end: segment_offset + segment_size,
            };
            match signature.rodata_type {
                RODataSignatureType::OnlyJumpTables => sized(
                    search.first_run_from(signature.size as int, 0, None),
                    signature.size as int,
                ),
                RODataSignatureType::EndsWithJumpTable => sized(
                    search.block_before_last_entry(signature.size as int),
                    signature.size as int,
                ),
                _ => None,
            }
        },
        _ => None,
    }
}

/// Locates the read-only data that belongs to a segment found at
/// `segment_offset`.
pub fn find_rodata(
    rodata: &Option<RODataSignature>,
    vram_start: &Option<usize>,
    segment_offset: usize,
    segment_size: usize,
    mips_family: MIPSFamily,
    bytes: &[u8],
) -> (found: Option<RODataOffset>)
    requires
        vram_start is Some ==> vram_start->Some_0 + segment_offset + segment_size <= usize::MAX,
    ensures
        block_of(found) == locate_rodata(
            *rodata,
            *vram_start,
            segment_offset as int,
            segment_size as int,
            mips_family,
            bytes@,
        ),
{
    let signature = match rodata {
        Some(signature) => signature,
        None => {
            return None;
        },
    };
    let base: usize = match vram_start {
        Some(base) => *base,
        None => {
            return None;
        },
    };
    let segment_start: usize = base + segment_offset;
    let segment_end: usize = segment_start + segment_size;
    match signature.rodata_type {
        RODataSignatureType::OnlyJumpTables => find_only_jump_tables(
            segment_start,
            segment_end,
            segment_offset,
            segment_offset + segment_size,
            signature.size,
            mips_family,
            bytes,
        ),
        RODataSignatureType::EndsWithJumpTable => find_ends_with_jump_table(
            segment_start,
            segment_end,
            segment_offset,
            segment_offset + segment_size,
            signature.size,
            mips_family,
            bytes,
        ),
        _ => None,
    }
}

/// A located function as mathematical values.
pub struct SymbolModel {
    pub name: Seq<char>,
    pub offset: int,
    pub size: int,
}

impl View for FunctionOffset {
    type V = SymbolModel;

    open spec fn view(&self) -> SymbolModel {
        SymbolModel { name: self.name@, offset: self.offset as int, size: self.size as int }
    }
}

/// The located functions of a list, one model each.
pub open spec fn symbol_models(symbols: Seq<FunctionOffset>) -> Seq<SymbolModel> {
    Seq::new(symbols.len(), |i: int| symbols[i]@)
}

/// A located segment as mathematical values.
pub struct SegmentOffsetModel {
    pub name: Seq<char>,
    pub offset: int,
    pub size: int,
    pub rodata: Option<(int, int)>,
    pub symbols: Seq<SymbolModel>,
}

impl View for SegmentOffset {
    type V = SegmentOffsetModel;

    open spec fn view(&self) -> SegmentOffsetModel {
        SegmentOffsetModel {
            name: self.name@,
            offset: self.offset as int,
            size: self.size as int,
            rodata: block_of(self.rodata),
            symbols: symbol_models(self.symbols@),
        }
    }
}

/// The located segments of a list, one model each.
pub open spec fn segment_models(found: Seq<SegmentOffset>) -> Seq<SegmentOffsetModel> {
    Seq::new(found.len(), |i: int| found[i]@)
}

/// `front` before the rest, where there is a rest.
pub open spec fn prepend<T>(front: Seq<T>, rest: Option<Seq<T>>) -> Option<Seq<T>> {
    match rest {
        Some(r) => Some(front + r),
        None => None,
    }
}

/// Where the functions from the `k`-th on are found when each is searched
/// for from the byte `position` on, up to the word `end`, and the search
/// for the next starts behind it; `None` where one of them is not found.
pub open spec fn locate_functions(
    functions: Seq<FunctionSignature>,
    words: Seq<u32>,
    k: int,
    position: int,
    end: int,
    radix: int,
    q: int,
) -> Option<Seq<SymbolModel>>
    decreases functions.len() - k,
{
    if k < 0 || k >= functions.len() {
        Some(Seq::empty())
    } else {
        let f = functions[k];
        match find_offset(
            f.fingerprint.v0().spec_hash() as int,
            f.size as int / 4,
            words,
            position / 4,
            end,
            radix,
            q,
        ) {
            None => None,
            Some(at) => prepend(
                seq![SymbolModel { name: f.name@, offset: at, size: f.size as int }],
                locate_functions(functions, words, k + 1, at + f.size, end, radix, q),
            ),
        }
    }
}

/// Each symbol of the list lies whole words behind the one before it.
pub open spec fn symbols_ascend(symbols: Seq<SymbolModel>) -> bool {
    forall|a: int, b: int|
        0 <= a < b < symbols.len() ==> (#[trigger] symbols[a]).offset + 4 * (symbols[a].size / 4)
            <= (#[trigger] symbols[b]).offset
}

/// Located functions carry the names and sizes of their signatures, lie
/// between the start of the search and its end, and follow one another in
/// the order of the signatures: each starts no earlier than the whole words
/// of the one before it end. Functions of at least one word are therefore
/// found at strictly ascending offsets.
pub proof fn lemma_located_functions_ascend(
    functions: Seq<FunctionSignature>,
    words: Seq<u32>,
    k: int,
    position: int,
    end: int,
    radix: int,
    q: int,
)
    requires
        0 <= k <= functions.len(),
        0 <= position,
    ensures
        match locate_functions(functions, words, k, position, end, radix, q) {
            Some(symbols) => {
                &&& symbols.len() == functions.len() - k
                &&& forall|i: int|
                    0 <= i < symbols.len() ==> {
                        &&& (#[trigger] symbols[i]).name == functions[k + i].name@
                        &&& symbols[i].size == functions[k + i].size
                        &&& symbols[i].offset % 4 == 0
                        &&& 4 * (position / 4) <= symbols[i].offset
                        &&& symbols[i].offset + 4 * (symbols[i].size / 4) <= 4 * end
                    }
                &&& symbols_ascend(symbols)
            },
            None => true,
        },
    decreases functions.len() - k,
{
    if k < functions.len() {
        let f = functions[k];
        let n = f.size as int / 4;
        lemma_find_offset_in_range(
            f.fingerprint.v0().spec_hash() as int,
            n,
            words,
            position / 4,
            end,
            radix,
            q,
        );
        match find_offset(
            f.fingerprint.v0().spec_hash() as int,
            n,
            words,
            position / 4,
            end,
            radix,
            q,
        ) {
            None => {},
            Some(at) => {
                lemma_located_functions_ascend(functions, words, k + 1, at + f.size, end, radix, q);
                match locate_functions(functions, words, k + 1, at + f.size, end, radix, q) {
                    None => {},
                    Some(rest) => {
                        let head = SymbolModel { name: f.name@, offset: at, size: f.size as int };
                        let symbols = seq![head] + rest;
                        assert(symbols[0] == head);
                        assert forall|i: int| 1 <= i < symbols.len() implies symbols[i] == rest[i
                            - 1] by {}
                        assert forall|i: int| 0 <= i < symbols.len() implies {
                            &&& (#[trigger] symbols[i]).name == functions[k + i].name@
                            &&& symbols[i].size == functions[k + i].size
                            &&& symbols[i].offset % 4 == 0
                            &&& 4 * (position / 4) <= symbols[i].offset
                            &&& symbols[i].offset + 4 * (symbols[i].size / 4) <= 4 * end
                        } by {
                            if i > 0 {
                                assert(symbols[i] == rest[i - 1]);
                            }
                        }
                        assert forall|a: int, b: int| 0 <= a < b < symbols.len() implies (
                        #[trigger] symbols[a]).offset + 4 * (symbols[a].size / 4) <= (
                        #[trigger] symbols[b]).offset by {
                            assert(symbols[b] == rest[b - 1]);
                            if a > 0 {
                                assert(symbols[a] == rest[a - 1]);
                            }
                        }
                    },
                }
            },
        }
    }
}

/// Functions of at least one word each are found at strictly ascending
/// offsets.
pub proof fn lemma_symbols_strictly_ascend(symbols: Seq<SymbolModel>)
    requires
        symbols_ascend(symbols),
        forall|i: int| 0 <= i < symbols.len() ==> (#[trigger] symbols[i]).size >= 4,
    ensures
        forall|a: int, b: int|
            0 <= a < b < symbols.len() ==> (#[trigger] symbols[a]).offset < (
            #[trigger] symbols[b]).offset,
{
    assert forall|a: int, b: int| 0 <= a < b < symbols.len() implies (#[trigger] symbols[a]).offset
        < (#[trigger] symbols[b]).offset by {
        assert(symbols[a].offset + 4 * (symbols[a].size / 4) <= symbols[b].offset);
        assert(symbols[a].size >= 4);
    }
}

/// The models of located functions, where there are any.
pub open spec fn located(found: Option<Vec<FunctionOffset>>) -> Option<Seq<SymbolModel>> {
    match found {
        Some(symbols) => Some(symbol_models(symbols@)),
        None => None,
    }
}

/// Searches for the functions of a segment one after the other, each from
/// behind the one before it, between the byte `offset` and the word `end`.
/// Returns their places where all of them are found.
pub fn match_functions(
    functions: &Vec<FunctionSignature>,
    words: &[u32],
    offset: usize,
    end: usize,
    options: &Options,
) -> (found: Option<Vec<FunctionOffset>>)
    requires
        options.modulus > 0,
        4 * words@.len() <= usize::MAX,
    ensures
        located(found) == locate_functions(
            functions@,
            words@,
            0,
            offset as int,
            end as int,
            options.radix as int,
            options.modulus as int,
        ),
{
    let mut out: Vec<FunctionOffset> = Vec::new();
    let mut position: u128 = offset as u128;
    let mut k: usize = 0;
    assert(symbol_models(out@) =~= Seq::<SymbolModel>::empty());
    while k < functions.len()
        invariant
            options.modulus > 0,
            4 * words@.len() <= usize::MAX,
            k <= functions@.len(),
            position <= 2 * usize::MAX,
            locate_functions(
                functions@,
                words@,
                0,
                offset as int,
                end as int,
                options.radix as int,
                options.modulus as int,
            ) == prepend(
                symbol_models(out@),
                locate_functions(
                    functions@,
                    words@,
                    k as int,
                    position as int,
                    end as int,
                    options.radix as int,
                    options.modulus as int,
                ),
            ),
        decreases functions@.len() - k,
    {
        let f = &functions[k];
        let start_wide: u128 = position / 4;
        if start_wide > end as u128 {
            return None;
        }
        let start: usize = start_wide as usize;
        match find(f.fingerprint.hash(), f.size / 4, words, start, end, options) {
            None => {
                return None;
            },
            Some(at) => {
                let ghost before = symbol_models(out@);
                let ghost rest = locate_functions(
                    functions@,
                    words@,
                    k + 1,
                    at + f.size,
                    end as int,
                    options.radix as int,
                    options.modulus as int,
                );
                let symbol = FunctionOffset { name: f.name.clone(), offset: at, size: f.size };
                let ghost model = symbol@;
                out.push(symbol);
                position = at as u128 + f.size as u128;
                proof {
                    assert(symbol_models(out@) =~= before.push(model));
                    match rest {
                        Some(r) => {
                            assert(before + (seq![model] + r) =~= before.push(model) + r);
                        },
                        None => {},
                    }
                }
            },
        }
        k += 1;
    }
    proof {
        assert(symbol_models(out@) + Seq::<SymbolModel>::empty() =~= symbol_models(out@));
    }
    Some(out)
}

/// The names of those among the first `n` segments whose hash is `hash`, in
/// the order of the library.
pub open spec fn names_voting(segments: Seq<SegmentSignature>, hash: u64, n: nat) -> Seq<String>
    decreases n,
{
    if n == 0 {
        Seq::empty()
    } else {
        let before = names_voting(segments, hash, (n - 1) as nat);
        if segments[n - 1].fingerprint.v0().spec_hash() == hash {
            before.push(segments[n - 1].name)
        } else {
            before
        }
    }
}

/// Collects the names under which the library knows code with this hash.
pub fn names_for_hash(segments: &Vec<SegmentSignature>, hash: u64) -> (names: Vec<String>)
    ensures
        names@ == names_voting(segments@, hash, segments@.len()),
{
    let mut names: Vec<String> = Vec::new();
    let mut i: usize = 0;
    while i < segments.len()
        invariant
            i <= segments@.len(),
            names@ == names_voting(segments@, hash, i as nat),
        decreases segments@.len() - i,
    {
        if segments[i].fingerprint.hash() == hash {
            names.push(segments[i].name.clone());
        }
        i += 1;
    }
    names
}

/// The name a found segment goes by: the most common of `names`, the
/// earliest among equally common ones, or its own name where there are none.
pub open spec fn chosen_name(names: Seq<String>, own: Seq<char>) -> Seq<char> {
    if names.len() == 0 {
        own
    } else {
        names[choose|b: int| is_best_index(names, b)]@
    }
}

/// Picks the name for a found segment.
pub fn choose_name(names: &Vec<String>, own: &String) -> (name: String)
    ensures
        name@ == chosen_name(names@, own@),
{
    match best_name(names) {
        Some(name) => {
            proof {
                let b = choose|b: int|
                    is_best_index(names@, b) && name@ == (#[trigger] names@[b])@;
                let c = choose|c: int| is_best_index(names@, c);
                lemma_best_index_unique(names@, b, c);
            }
            name
        },
        None => own.clone(),
    }
}

/// Two blocks share no byte.
pub open spec fn blocks_disjoint(a_offset: int, a_size: int, b_offset: int, b_size: int) -> bool {
    a_offset + a_size <= b_offset || b_offset + b_size <= a_offset
}

/// A block that no claim stops, and that is no larger than any claimed
/// block, shares no byte with any of them.
pub proof fn lemma_unclaimed_is_disjoint(offset: int, size: int, claims: Seq<(usize, usize)>, i: int)
    requires
        0 <= size,
        !is_claimed(offset, size, claims),
        0 <= i < claims.len(),
        size <= claims[i].1,
    ensures
        blocks_disjoint(offset, size, claims[i].0 as int, claims[i].1 as int),
{
    assert(!overlaps_claim(offset, size, claims[i].0 as int, claims[i].1 as int));
}

/// What a scan works on: the library, the order in which its distinct
/// segments are tried, the image and its normalised words, and the
/// parameters of the search.
pub struct ScanInput {
    pub segments: Seq<SegmentSignature>,
    pub order: Seq<usize>,
    pub words: Seq<u32>,
    pub bytes: Seq<u8>,
    pub family: MIPSFamily,
    pub vram_start: Option<usize>,
    pub radix: int,
    pub q: int,
}

impl ScanInput {
    /// The segment tried at step `k`.
    pub open spec fn candidate(self, k: int) -> SegmentSignature {
        self.segments[self.order[k] as int]
    }

    /// Where the candidate of step `k` is found as a whole.
    pub open spec fn candidate_offset(self, k: int) -> Option<int> {
        let segment = self.candidate(k);
        find_offset(
            segment.fingerprint.v0().spec_hash() as int,
            segment.size as int / 4,
            self.words,
            0,
            self.words.len() as int,
            self.radix,
            self.q,
        )
    }

    /// The read-only data reported for a segment found at `at`: none where
    /// its addresses would not fit the machine word.
    pub open spec fn rodata_at(self, segment: SegmentSignature, at: int) -> Option<(int, int)> {
        if self.vram_start is Some && self.vram_start->Some_0 + at + segment.size > usize::MAX {
            None
        } else {
            locate_rodata(
                segment.rodata,
                self.vram_start,
                at,
                segment.size as int,
                self.family,
                self.bytes,
            )
        }
    }

    /// What is reported for the candidate of step `k` found at `at`, where
    /// all of its functions are found inside it.
    pub open spec fn report(self, k: int, at: int) -> Option<SegmentOffsetModel> {
        let segment = self.candidate(k);
        match locate_functions(
            segment.functions@,
            self.words,
            0,
            at,
            (at + segment.size) / 4,
            self.radix,
            self.q,
        ) {
            None => None,
            Some(symbols) => Some(
                SegmentOffsetModel {
                    name: chosen_name(
                        names_voting(
                            self.segments,
                            segment.fingerprint.v0().spec_hash(),
                            self.segments.len(),
                        ),
                        segment.name@,
                    ),
                    offset: at,
                    size: segment.size as int,
                    rodata: self.rodata_at(segment, at),
                    symbols,
                },
            ),
        }
    }

    /// What the steps from `k` on report, given the blocks claimed so far.
    /// A candidate that is found as a whole outside every claim claims its
    /// block, whether or not its functions are then found in it.
    pub open spec fn scan_from(self, k: int, claims: Seq<(usize, usize)>) -> Seq<SegmentOffsetModel>
        decreases self.order.len() - k,
    {
        if k < 0 || k >= self.order.len() {
            Seq::empty()
        } else {
            let segment = self.candidate(k);
            match self.candidate_offset(k) {
                None => self.scan_from(k + 1, claims),
                Some(at) => if is_claimed(at, segment.size as int, claims) {
                    self.scan_from(k + 1, claims)
                } else {
                    let rest = self.scan_from(k + 1, claims.push((at as usize, segment.size)));
                    match self.report(k, at) {
                        Some(model) => seq![model] + rest,
                        None => rest,
                    }
                },
            }
        }
    }
}

/// The family under which an image is scanned: that of the first segment
/// of the library, or the configured one for an empty library.
pub open spec fn scan_family(segments: Seq<SegmentSignature>, configured: MIPSFamily) -> MIPSFamily {
    if segments.len() > 0 {
        segments[0].family
    } else {
        configured
    }
}

/// The reported symbols of every segment ascend.
pub open spec fn all_symbols_ascend(found: Seq<SegmentOffset>) -> bool {
    forall|s: int| 0 <= s < found.len() ==> symbols_ascend((#[trigger] found[s])@.symbols)
}

/// No two reported segments share a byte.
pub open spec fn all_blocks_disjoint(found: Seq<SegmentOffset>) -> bool {
    forall|s: int, t: int|
        0 <= s < t < found.len() ==> blocks_disjoint(
            (#[trigger] found[s]).offset as int,
            found[s].size as int,
            (#[trigger] found[t]).offset as int,
            found[t].size as int,
        )
}

/// Scans an image for the segments of a library. The distinct segments are
/// tried from the largest down; each is searched for as a whole, must not
/// overlap a block claimed before, claims its block, and is reported where
/// all of its functions are found inside it, one behind the other.
pub fn scan(
    segments: &Vec<SegmentSignature>,
    bytes: &[u8],
    vram_start: Option<usize>,
    options: &Options,
) -> (found: Vec<SegmentOffset>)
    requires
        options.modulus > 0,
    ensures
        segment_models(found@) == (ScanInput {
            segments: segments@,
            order: scan_order_of(segments@),
            words: normalized_words(bytes@, scan_family(segments@, options.mips_family)),
            bytes: bytes@,
            family: scan_family(segments@, options.mips_family),
            vram_start,
            radix: options.radix as int,
            q: options.modulus as int,
        }).scan_from(0, Seq::empty()),
        all_symbols_ascend(found@),
        all_blocks_disjoint(found@),
{
    let family: MIPSFamily = if segments.len() > 0 {
        segments[0].family
    } else {
        options.mips_family
    };
    let words = normalize_words(bytes, family);
    let order = scan_order(segments);
    let ghost input = ScanInput {
        segments: segments@,
        order: order@,
        words: words@,
        bytes: bytes@,
        family,
        vram_start,
        radix: options.radix as int,
        q: options.modulus as int,
    };
    let mut claims: Vec<(usize, usize)> = Vec::new();
    let mut found: Vec<SegmentOffset> = Vec::new();
    let ghost mut claim_of: Seq<int> = Seq::empty();
    let mut k: usize = 0;
    assert(segment_models(found@) =~= Seq::<SegmentOffsetModel>::empty());
    while k < order.len()
        invariant
            options.modulus > 0,
            4 * words@.len() <= bytes@.len() <= usize::MAX,
            k <= order@.len(),
            is_scan_order(segments@, order@),
            input.segments == segments@,
            input.order == order@,
            input.words == words@,
            input.bytes == bytes@,
            input.family == family,
            input.vram_start == vram_start,
            input.radix == options.radix,
            input.q == options.modulus,
            input.scan_from(0, Seq::empty()) == segment_models(found@) + input.scan_from(
                k as int,
                claims@,
            ),
            all_symbols_ascend(found@),
            all_blocks_disjoint(found@),
            k < order@.len() ==> forall|c: int|
                0 <= c < claims@.len() ==> segments@[order@[k as int] as int].size <= (
                #[trigger] claims@[c]).1,
            claim_of.len() == found@.len(),
            forall|s: int|
                0 <= s < found@.len() ==> 0 <= #[trigger] claim_of[s] < claims@.len() && claims@[claim_of[s]]
                    == (found@[s].offset, found@[s].size),
        decreases order@.len() - k,
    {
        let index: usize = order[k];
        assert(crate::order::is_first_copy(segments@, order@[k as int] as int));
        let segment = &segments[index];
        let hit = find(
            segment.fingerprint.hash(),
            segment.size / 4,
            words.as_slice(),
            0,
            words.len(),
            options,
        );
        if let Some(offset) = hit {
            if !address_space_is_used(offset, segment.size, &claims) {
                let ghost old_claims = claims@;
                let ghost old_found = found@;
                proof {
                    lemma_find_offset_in_range(
                        segment.fingerprint.v0().spec_hash() as int,
                        segment.size as int / 4,
                        words@,
                        0,
                        words@.len() as int,
                        options.radix as int,
                        options.modulus as int,
                    );
                }
                claims.push((offset, segment.size));
                let end: usize = offset / 4 + segment.size / 4;
                assert(end as int == (offset + segment.size) / 4);
                let symbols = match_functions(
                    &segment.functions,
                    words.as_slice(),
                    offset,
                    end,
                    options,
                );
                if let Some(symbols) = symbols {
                    let names = names_for_hash(segments, segment.fingerprint.hash());
                    let name = choose_name(&names, &segment.name);
                    let fits = match vram_start {
                        Some(base) => (base as u128) + (offset as u128) + (segment.size as u128)
                            <= (usize::MAX as u128),
                        None => true,
                    };
                    let rodata = if fits {
                        find_rodata(
                            &segment.rodata,
                            &vram_start,
                            offset,
                            segment.size,
                            family,
                            bytes,
                        )
                    } else {
                        None
                    };
                    let report = SegmentOffset {
                        name,
                        offset,
                        size: segment.size,
                        rodata,
                        symbols,
                    };
                    proof {
                        lemma_located_functions_ascend(
                            segment.functions@,
                            words@,
                            0,
                            offset as int,
                            end as int,
                            options.radix as int,
                            options.modulus as int,
                        );
                        assert(input.report(k as int, offset as int) == Some(report@));
                        assert forall|s: int| 0 <= s < old_found.len() implies blocks_disjoint(
                            (#[trigger] old_found[s]).offset as int,
                            old_found[s].size as int,
                            offset as int,
                            segment.size as int,
                        ) by {
                            let c = claim_of[s];
                            assert(claims@[c] == old_claims[c]);
                            lemma_unclaimed_is_disjoint(
                                offset as int,
                                segment.size as int,
                                old_claims,
                                c,
                            );
                        }
                    }
                    found.push(report);
                    proof {
                        assert(segment_models(found@) =~= segment_models(old_found).push(report@));
                        let rest = input.scan_from(k + 1, claims@);
                        assert(segment_models(old_found) + (seq![report@] + rest)
                            =~= segment_models(found@) + rest);
                        assert(claims@[old_claims.len() as int] == (offset, segment.size));
                        let old_claim_of = claim_of;
                        claim_of = old_claim_of.push(old_claims.len() as int);
                        assert forall|s: int| 0 <= s < found@.len() implies 0 <= #[trigger] claim_of[s]
                            < claims@.len() && claims@[claim_of[s]] == (
                            found@[s].offset,
                            found@[s].size,
                        ) by {
                            if s < old_found.len() {
                                assert(claim_of[s] == old_claim_of[s]);
                                assert(claims@[old_claim_of[s]] == old_claims[old_claim_of[s]]);
                                assert(found@[s] == old_found[s]);
                            }
                        }
                    }
                } else {
                    proof {
                        assert(input.report(k as int, offset as int) is None);
                        assert forall|s: int| 0 <= s < found@.len() implies 0 <= #[trigger] claim_of[s]
                            < claims@.len() && claims@[claim_of[s]] == (
                            found@[s].offset,
                            found@[s].size,
                        ) by {
                            assert(claims@[claim_of[s]] == old_claims[claim_of[s]]);
                        }
                    }
                }
            }
        }
        proof {
            if k + 1 < order@.len() {
                lemma_scan_order_sizes(segments@, order@, k as int, k + 1);
            }
        }
        k += 1;
    }
    proof {
        assert(segment_models(found@) + Seq::<SegmentOffsetModel>::empty() =~= segment_models(
            found@,
        ));
    }
    found
}

} // verus!
