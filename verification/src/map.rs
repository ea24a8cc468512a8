use vstd::prelude::*;
use vstd::string::*;

verus! {

/// A function symbol: its name, where it lives in the image, where it
/// runs, and its size in bytes.
#[derive(Clone, Debug, PartialEq, Eq)]
pub struct FunctionEntry {
    pub name: String,
    pub offset: usize,
    pub vram: usize,
    pub size: usize,
}

/// Where a stretch of a segment runs, where it lives in the image, and its
/// size in bytes.
#[derive(Copy, Clone, Debug, PartialEq, Eq, Structural)]
pub struct SegmentInfo {
    pub vram: usize,
    pub vrom: usize,
    pub size: usize,
}

/// The text of one object file as a linker map describes it.
#[derive(Clone, Debug, PartialEq, Eq)]
pub struct ObjectMap {
    pub object: String,
    pub offset: usize,
    pub vram: usize,
    pub vrom: usize,
    pub size: usize,
    pub rodata: Option<SegmentInfo>,
    pub text_symbols: Vec<FunctionEntry>,
}

/// `s` ends with `pat`.
pub open spec fn ends_with(s: Seq<char>, pat: Seq<char>) -> bool {
    pat.len() <= s.len() && s.subrange(s.len() - pat.len(), s.len() as int) == pat
}

/// `s` without any run of `pat` at its end.
pub open spec fn trim_end(s: Seq<char>, pat: Seq<char>) -> Seq<char>
    decreases s.len(),
{
    if pat.len() > 0 && ends_with(s, pat) {
        trim_end(s.subrange(0, s.len() - pat.len()), pat)
    } else {
        s
    }
}

/// The name of an object without the endings that compilers and
/// assemblers give to object files.
pub open spec fn object_stem_text(file_name: Seq<char>) -> Seq<char> {
    trim_end(trim_end(trim_end(file_name, ".c.o"@), ".s.o"@), ".o"@)
}

/// Whether the first `len` characters of `s` end with `pat`.
pub fn ends_with_at(s: &str, len: usize, pat: &str, pat_len: usize) -> (yes: bool)
    requires
        len <= s@.len(),
        pat_len == pat@.len(),
    ensures
        yes == ends_with(s@.subrange(0, len as int), pat@),
{
    if pat_len > len {
        return false;
    }
    let from: usize = len - pat_len;
    let ghost head = s@.subrange(0, len as int);
    let ghost tail = head.subrange(from as int, len as int);
    let mut i: usize = 0;
    while i < pat_len
        invariant
            i <= pat_len == pat@.len(),
            from + pat_len == len <= s@.len(),
            head == s@.subrange(0, len as int),
            tail == head.subrange(from as int, len as int),
            forall|k: int| 0 <= k < i ==> tail[k] == pat@[k],
        decreases pat_len - i,
    {
        if s.get_char(from + i) != pat.get_char(i) {
            assert(tail[i as int] != pat@[i as int]);
            return false;
        }
        i += 1;
    }
    assert(tail =~= pat@);
    true
}

/// The length that is left of the first `len` characters of `s` once every
/// `pat` at their end is gone.
pub fn trimmed_len(s: &str, len: usize, pat: &str) -> (left: usize)
    requires
        len <= s@.len(),
        pat@.len() > 0,
    ensures
        left <= len,
        s@.subrange(0, left as int) == trim_end(s@.subrange(0, len as int), pat@),
{
    let pat_len = pat.unicode_len();
    let mut left: usize = len;
    while ends_with_at(s, left, pat, pat_len)
        invariant
            left <= len <= s@.len(),
            pat_len == pat@.len(),
            pat_len > 0,
            trim_end(s@.subrange(0, left as int), pat@) == trim_end(
                s@.subrange(0, len as int),
                pat@,
            ),
        decreases left,
    {
        proof {
            let head = s@.subrange(0, left as int);
            assert(head.subrange(0, head.len() - pat@.len()) =~= s@.subrange(0, left - pat_len));
        }
        left -= pat_len;
    }
    left
}

/// Strips the endings `.c.o`, `.s.o` and `.o`, in this order and each as
/// often as it occurs, from the file name of an object.
pub fn object_stem(file_name: &str) -> (stem: String)
    ensures
        stem@ == object_stem_text(file_name@),
{
    proof {
        reveal_strlit(".c.o");
        reveal_strlit(".s.o");
        reveal_strlit(".o");
    }
    let len = file_name.unicode_len();
    assert(file_name@.subrange(0, len as int) =~= file_name@);
    let a = trimmed_len(file_name, len, ".c.o");
    let b = trimmed_len(file_name, a, ".s.o");
    let c = trimmed_len(file_name, b, ".o");
    String::from_str(file_name.substring_char(0, c))
}

/// `Path::file_name` of the standard library: the last component of a path,
/// where it has one. What counts as a separator depends on the platform, so
/// nothing is claimed of the result.
#[verifier::external_body]
fn file_name_of(path: &str) -> (name: Option<String>) {
    match std::path::Path::new(path).file_name() {
        Some(name) => match name.to_str() {
            Some(text) => Some(text.to_string()),
            None => None,
        },
        None => None,
    }
}

impl ObjectMap {
    /// The name of the object: the last component of its path without the
    /// endings of object files. `None` where the path has no last component.
    pub fn name(&self) -> (name: Option<String>)
        ensures
            name is Some ==> exists|file_name: Seq<char>|
                name->Some_0@ == #[trigger] object_stem_text(file_name),
    {
        match file_name_of(self.object.as_str()) {
            Some(file_name) => Some(object_stem(file_name.as_str())),
            None => None,
        }
    }

    /// `addr` lies strictly inside the function at `i`.
    pub open spec fn inside_function(self, addr: int, i: int) -> bool {
        self.text_symbols@[i].vram < addr < self.text_symbols@[i].vram + self.text_symbols@[i].size
    }

    /// Whether `addr` lies strictly inside one of the functions of the
    /// object: behind its first byte and before its end.
    pub fn is_address_inside_function(&self, addr: usize) -> (inside: bool)
        ensures
            inside == exists|i: int|
                0 <= i < self.text_symbols@.len() && self.inside_function(addr as int, i),
    {
        let mut i: usize = 0;
        while i < self.text_symbols.len()
            invariant
                i <= self.text_symbols@.len(),
                forall|k: int| 0 <= k < i ==> !self.inside_function(addr as int, k),
            decreases self.text_symbols@.len() - i,
        {
            let start: usize = self.text_symbols[i].vram;
            let size: usize = self.text_symbols[i].size;
            if addr > start && addr - start < size {
                assert(self.inside_function(addr as int, i as int));
                return true;
            }
            i += 1;
        }
        false
    }

    /// The text of the object and of each of its functions lies inside an
    /// image of `len` bytes that starts at `vrom`, in whole words.
    pub open spec fn fits(self, len: int) -> bool {
        &&& self.vrom <= self.offset
        &&& self.offset - self.vrom + self.size <= len
        &&& self.size % 4 == 0
        &&& forall|i: int|
            0 <= i < self.text_symbols@.len() ==> {
                &&& self.vrom <= (#[trigger] self.text_symbols@[i]).offset
                &&& self.text_symbols@[i].offset - self.vrom + self.text_symbols@[i].size <= len
                &&& self.text_symbols@[i].size % 4 == 0
            }
    }

    /// Checks that the object and its functions lie inside an image of
    /// `len` bytes, in whole words.
    pub fn fits_in(&self, len: usize) -> (yes: bool)
        ensures
            yes == self.fits(len as int),
    {
        if self.vrom > self.offset || self.size % 4 != 0 {
            return false;
        }
        let start: usize = self.offset - self.vrom;
        if start > len || self.size > len - start {
            return false;
        }
        let mut i: usize = 0;
        while i < self.text_symbols.len()
            invariant
                i <= self.text_symbols@.len(),
                forall|k: int|
                    0 <= k < i ==> {
                        &&& self.vrom <= (#[trigger] self.text_symbols@[k]).offset
                        &&& self.text_symbols@[k].offset - self.vrom + self.text_symbols@[k].size
                            <= len
                        &&& self.text_symbols@[k].size % 4 == 0
                    },
            decreases self.text_symbols@.len() - i,
        {
            let symbol = &self.text_symbols[i];
            if self.vrom > symbol.offset || symbol.size % 4 != 0 {
                return false;
            }
            let at: usize = symbol.offset - self.vrom;
            if at > len || symbol.size > len - at {
                return false;
            }
            i += 1;
        }
        true
    }
}

/// The symbol at `i` runs inside `[offset, offset + size)`.
pub open spec fn is_selected(symbols: Seq<FunctionEntry>, offset: int, size: int, i: int) -> bool {
    0 <= i < symbols.len() && offset <= symbols[i].vram < offset + size
}

/// The symbol at `i` comes before the one at `j` in a segment: the one at
/// the lower address first, and of two at one address the one listed first.
pub open spec fn listed_before(symbols: Seq<FunctionEntry>, i: int, j: int) -> bool {
    symbols[i].vram < symbols[j].vram || (symbols[i].vram == symbols[j].vram && i < j)
}

/// A function symbol as mathematical values.
pub struct EntryModel {
    pub name: Seq<char>,
    pub offset: int,
    pub vram: int,
    pub size: int,
}

impl View for FunctionEntry {
    type V = EntryModel;

    open spec fn view(&self) -> EntryModel {
        EntryModel {
            name: self.name@,
            offset: self.offset as int,
            vram: self.vram as int,
            size: self.size as int,
        }
    }
}

/// The function symbols of a list, one model each.
pub open spec fn entry_models(entries: Seq<FunctionEntry>) -> Seq<EntryModel> {
    Seq::new(entries.len(), |i: int| entries[i]@)
}

/// Where a symbol at the address `vram` goes into `entries`: behind the
/// last of their first `at` that does not run at a higher address.
pub open spec fn entry_place(entries: Seq<EntryModel>, vram: int, at: int) -> int
    decreases at,
{
    if 0 < at <= entries.len() && entries[at - 1].vram > vram {
        entry_place(entries, vram, at - 1)
    } else {
        at
    }
}

/// Those of the first `n` symbols that run inside `[offset, offset + size)`,
/// by ascending address and with their addresses translated to places in
/// the image; symbols at one address keep the order in which they are
/// listed.
pub open spec fn picked_symbols(
    vram: int,
    vrom_offset: int,
    offset: int,
    size: int,
    symbols: Seq<FunctionEntry>,
    n: nat,
) -> Seq<EntryModel>
    decreases n,
{
    if n == 0 {
        Seq::empty()
    } else {
        let before = picked_symbols(vram, vrom_offset, offset, size, symbols, (n - 1) as nat);
        let symbol = symbols[n - 1];
        if is_selected(symbols, offset, size, n - 1) {
            before.insert(
                entry_place(before, symbol.vram as int, before.len() as int),
                EntryModel {
                    name: symbol.name@,
                    offset: symbol.vram - vram + vrom_offset,
                    vram: symbol.vram as int,
                    size: symbol.size as int,
                },
            )
        } else {
            before
        }
    }
}

/// `entries` are the symbols that run inside `[offset, offset + size)`,
/// each once, by ascending address, with their addresses translated to
/// places in the image; `source` gives for each entry the symbol it is
/// made from.
pub open spec fn is_segment_symbols(
    vram: int,
    vrom_offset: int,
    offset: int,
    size: int,
    symbols: Seq<FunctionEntry>,
    entries: Seq<FunctionEntry>,
    source: Seq<int>,
) -> bool {
    &&& source.len() == entries.len()
    &&& forall|a: int|
        0 <= a < entries.len() ==> {
            &&& is_selected(symbols, offset, size, #[trigger] source[a])
            &&& entries[a].name@ == symbols[source[a]].name@
            &&& entries[a].vram == symbols[source[a]].vram
            &&& entries[a].size == symbols[source[a]].size
            &&& entries[a].offset == symbols[source[a]].vram - vram + vrom_offset
        }
    &&& forall|a: int, b: int|
        0 <= a < b < entries.len() ==> listed_before(symbols, #[trigger] source[a], #[trigger] source[b])
    &&& forall|i: int|
        is_selected(symbols, offset, size, i) ==> exists|a: int|
            0 <= a < source.len() && #[trigger] source[a] == i
}

/// Picks the function symbols that run inside one file of a segment and
/// translates their addresses to places in the image.
pub fn symbols_to_segment_symbols(
    vram: usize,
    vrom_offset: usize,
    offset: usize,
    size: usize,
    symbols: &[FunctionEntry],
) -> (entries: Vec<FunctionEntry>)
    requires
        vram <= offset,
        offset + size - vram + vrom_offset <= usize::MAX,
    ensures
        entry_models(entries@) == picked_symbols(
            vram as int,
            vrom_offset as int,
            offset as int,
            size as int,
            symbols@,
            symbols@.len(),
        ),
        exists|source: Seq<int>|
            is_segment_symbols(
                vram as int,
                vrom_offset as int,
                offset as int,
                size as int,
                symbols@,
                entries@,
                source,
            ),
{
    let mut entries: Vec<FunctionEntry> = Vec::new();
    let ghost mut source: Seq<int> = Seq::empty();
    let mut i: usize = 0;
    assert(entry_models(entries@) =~= Seq::<EntryModel>::empty());
    while i < symbols.len()
        invariant
            i <= symbols@.len(),
            vram <= offset,
            offset + size - vram + vrom_offset <= usize::MAX,
            source.len() == entries@.len(),
            entry_models(entries@) == picked_symbols(
                vram as int,
                vrom_offset as int,
                offset as int,
                size as int,
                symbols@,
                i as nat,
            ),
            forall|a: int|
                0 <= a < entries@.len() ==> {
                    &&& (#[trigger] source[a]) < i
                    &&& is_selected(symbols@, offset as int, size as int, source[a])
                    &&& entries@[a].name@ == symbols@[source[a]].name@
                    &&& entries@[a].vram == symbols@[source[a]].vram
                    &&& entries@[a].size == symbols@[source[a]].size
                    &&& entries@[a].offset == symbols@[source[a]].vram - vram + vrom_offset
                },
            forall|a: int, b: int|
                0 <= a < b < entries@.len() ==> listed_before(
                    symbols@,
                    #[trigger] source[a],
                    #[trigger] source[b],
                ),
            forall|x: int|
                0 <= x < i && is_selected(symbols@, offset as int, size as int, x) ==> exists|
                    a: int,
                | 0 <= a < source.len() && #[trigger] source[a] == x,
        decreases symbols@.len() - i,
    {
        let entry = &symbols[i];
        if entry.vram >= offset && entry.vram - offset < size {
            let mut at: usize = entries.len();
            while at > 0 && entries[at - 1].vram > entry.vram
                invariant
                    at <= entries@.len(),
                    i < symbols@.len(),
                    source.len() == entries@.len(),
                    *entry == symbols@[i as int],
                    entry_place(
                        entry_models(entries@),
                        entry.vram as int,
                        entries@.len() as int,
                    ) == entry_place(entry_models(entries@), entry.vram as int, at as int),
                    forall|a: int|
                        0 <= a < entries@.len() ==> 0 <= (#[trigger] source[a]) < i
                            && entries@[a].vram == symbols@[source[a]].vram,
                    forall|a: int|
                        at <= a < entries@.len() ==> listed_before(
                            symbols@,
                            i as int,
                            #[trigger] source[a],
                        ),
                decreases at,
            {
                at -= 1;
            }
            let ghost before = source;
            let ghost before_entries = entries@;
            proof {
                assert forall|a: int| 0 <= a < at implies listed_before(
                    symbols@,
                    #[trigger] before[a],
                    i as int,
                ) by {
                    if a < at - 1 {
                        assert(listed_before(symbols@, before[a], before[at - 1]));
                    }
                }
            }
            entries.insert(
                at,
                FunctionEntry {
                    name: entry.name.clone(),
                    vram: entry.vram,
                    offset: entry.vram - vram + vrom_offset,
                    size: entry.size,
                },
            );
            proof {
                assert(entry_models(entries@) =~= entry_models(before_entries).insert(
                    at as int,
                    entries@[at as int]@,
                ));
                source = before.insert(at as int, i as int);
                assert forall|a: int| 0 <= a < entries@.len() implies {
                    &&& (#[trigger] source[a]) < i + 1
                    &&& is_selected(symbols@, offset as int, size as int, source[a])
                    &&& entries@[a].name@ == symbols@[source[a]].name@
                    &&& entries@[a].vram == symbols@[source[a]].vram
                    &&& entries@[a].size == symbols@[source[a]].size
                    &&& entries@[a].offset == symbols@[source[a]].vram - vram + vrom_offset
                } by {
                    if a < at {
                        assert(source[a] == before[a]);
                        assert(entries@[a] == before_entries[a]);
                    } else if a > at {
                        assert(source[a] == before[a - 1]);
                        assert(entries@[a] == before_entries[a - 1]);
                    }
                }
                assert forall|a: int, b: int| 0 <= a < b < entries@.len() implies listed_before(
                    symbols@,
                    #[trigger] source[a],
                    #[trigger] source[b],
                ) by {
                    let oa = if a < at { a } else { a - 1 };
                    let ob = if b < at { b } else { b - 1 };
                    if a != at && b != at {
                        assert(listed_before(symbols@, before[oa], before[ob]));
                    } else if a == at {
                        assert(listed_before(symbols@, i as int, before[ob]));
                    } else {
                        assert(listed_before(symbols@, before[oa], i as int));
                    }
                }
                assert forall|x: int|
                    0 <= x < i + 1 && is_selected(
                        symbols@,
                        offset as int,
                        size as int,
                        x,
                    ) implies exists|a: int| 0 <= a < source.len() && #[trigger] source[a] == x by {
                    if x == i {
                        assert(source[at as int] == x);
                    } else {
                        let a0 = choose|a: int| 0 <= a < before.len() && #[trigger] before[a] == x;
                        if a0 < at {
                            assert(source[a0] == x);
                        } else {
                            assert(source[a0 + 1] == x);
                        }
                    }
                }
            }
        }
        i += 1;
    }
    proof {
        assert(is_segment_symbols(
            vram as int,
            vrom_offset as int,
            offset as int,
            size as int,
            symbols@,
            entries@,
            source,
        ));
    }
    entries
}

/// One line of a linker map: a stretch of one section of an input file.
#[derive(Clone, Debug, PartialEq, Eq)]
pub struct MapSection {
    pub filepath: String,
    pub vram: usize,
    pub size: usize,
    pub vrom: Option<usize>,
}

/// A segment of a linker map with those of its sections that are of one
/// section type.
#[derive(Clone, Debug, PartialEq, Eq)]
pub struct MapSegment {
    pub vram: usize,
    pub vrom: usize,
    pub sections: Vec<MapSection>,
}

/// An object as mathematical values.
pub struct ObjectModel {
    pub object: Seq<char>,
    pub offset: int,
    pub vram: int,
    pub vrom: int,
    pub size: int,
    pub rodata: Option<SegmentInfo>,
    pub text_symbols: Seq<EntryModel>,
}

impl View for ObjectMap {
    type V = ObjectModel;

    open spec fn view(&self) -> ObjectModel {
        ObjectModel {
            object: self.object@,
            offset: self.offset as int,
            vram: self.vram as int,
            vrom: self.vrom as int,
            size: self.size as int,
            rodata: self.rodata,
            text_symbols: entry_models(self.text_symbols@),
        }
    }
}

/// The objects of a list, one model each.
pub open spec fn object_models(objects: Seq<ObjectMap>) -> Seq<ObjectModel> {
    Seq::new(objects.len(), |i: int| objects[i]@)
}

impl MapSegment {
    /// The section at `i` comes from an object file.
    pub open spec fn is_object(self, i: int) -> bool {
        ends_with(self.sections@[i].filepath@, ".o"@)
    }

    /// Every section has a place in the image and ends inside the address
    /// space, and no section ends before an earlier one starts.
    pub open spec fn spans_fit(self) -> bool {
        &&& forall|i: int|
            0 <= i < self.sections@.len() ==> (#[trigger] self.sections@[i]).vrom is Some
                && self.sections@[i].vram + self.sections@[i].size <= usize::MAX
        &&& forall|i: int, j: int|
            0 <= i <= j < self.sections@.len() ==> (#[trigger] self.sections@[i]).vram <= (
            #[trigger] self.sections@[j]).vram + self.sections@[j].size
    }

    /// The sections lie behind the start of the segment, and their places
    /// in the image fit the machine word.
    pub open spec fn places_fit(self) -> bool {
        forall|i: int|
            0 <= i < self.sections@.len() ==> self.vram <= (#[trigger] self.sections@[i]).vram
                && self.sections@[i].vram + self.sections@[i].size - self.vram + self.vrom
                <= usize::MAX
    }

    /// Checks `spans_fit`.
    pub fn check_spans(&self) -> (yes: bool)
        ensures
            yes == self.spans_fit(),
    {
        let mut highest: usize = 0;
        let ghost mut holder: int = 0;
        let mut k: usize = 0;
        while k < self.sections.len()
            invariant
                k <= self.sections@.len(),
                forall|i: int|
                    0 <= i < k ==> (#[trigger] self.sections@[i]).vrom is Some
                        && self.sections@[i].vram + self.sections@[i].size <= usize::MAX,
                forall|i: int, j: int|
                    0 <= i <= j < k ==> (#[trigger] self.sections@[i]).vram <= (
                    #[trigger] self.sections@[j]).vram + self.sections@[j].size,
                forall|i: int| 0 <= i < k ==> (#[trigger] self.sections@[i]).vram <= highest,
                k > 0 ==> 0 <= holder < k && self.sections@[holder].vram == highest,
            decreases self.sections@.len() - k,
        {
            let section = &self.sections[k];
            if section.vrom.is_none() || section.size > usize::MAX - section.vram {
                assert(!(self.sections@[k as int].vrom is Some && self.sections@[k as int].vram
                    + self.sections@[k as int].size <= usize::MAX));
                return false;
            }
            if k > 0 && highest > section.vram + section.size {
                assert(!(self.sections@[holder].vram <= self.sections@[k as int].vram
                    + self.sections@[k as int].size));
                return false;
            }
            if k == 0 || section.vram > highest {
                highest = section.vram;
                proof {
                    holder = k as int;
                }
            }
            k += 1;
        }
        true
    }

    /// Checks `places_fit`.
    pub fn check_places(&self) -> (yes: bool)
        ensures
            yes == self.places_fit(),
    {
        let mut k: usize = 0;
        while k < self.sections.len()
            invariant
                k <= self.sections@.len(),
                forall|i: int|
                    0 <= i < k ==> self.vram <= (#[trigger] self.sections@[i]).vram
                        && self.sections@[i].vram + self.sections@[i].size - self.vram + self.vrom
                        <= usize::MAX,
            decreases self.sections@.len() - k,
        {
            let section = &self.sections[k];
            if self.vram > section.vram {
                return false;
            }
            let wide: u128 = section.vram as u128 + section.size as u128 - self.vram as u128
                + self.vrom as u128;
            if wide > usize::MAX as u128 {
                return false;
            }
            k += 1;
        }
        true
    }

    /// The first of the first `n` sections that comes from the file
    /// `object`.
    pub open spec fn first_of(self, object: Seq<char>, n: nat) -> Option<int>
        decreases n,
    {
        if n == 0 {
            None
        } else {
            match self.first_of(object, (n - 1) as nat) {
                Some(i) => Some(i),
                None => if self.sections@[n - 1].filepath@ == object {
                    Some(n - 1)
                } else {
                    None
                },
            }
        }
    }

    /// The last of the first `n` sections that comes from the file
    /// `object`.
    pub open spec fn last_of(self, object: Seq<char>, n: nat) -> Option<int>
        decreases n,
    {
        if n == 0 {
            None
        } else if self.sections@[n - 1].filepath@ == object {
            Some(n - 1)
        } else {
            self.last_of(object, (n - 1) as nat)
        }
    }

    /// What the sections of the file `object` in this segment span: from
    /// the start of the first to the end of the last.
    pub open spec fn span_of(self, object: Seq<char>) -> Option<SegmentInfo> {
        match (
            self.first_of(object, self.sections@.len()),
            self.last_of(object, self.sections@.len()),
        ) {
            (Some(first), Some(last)) => Some(
                SegmentInfo {
                    vram: self.sections@[first].vram,
                    vrom: self.sections@[first].vrom->Some_0,
                    size: (self.sections@[last].vram + self.sections@[last].size
                        - self.sections@[first].vram) as usize,
                },
            ),
            _ => None,
        }
    }

    /// Computes `span_of`.
    pub fn object_span(&self, object: &String) -> (span: Option<SegmentInfo>)
        requires
            self.spans_fit(),
        ensures
            span == self.span_of(object@),
    {
        let mut first: Option<usize> = None;
        let mut last: usize = 0;
        let mut k: usize = 0;
        while k < self.sections.len()
            invariant
                k <= self.sections@.len(),
                self.spans_fit(),
                match first {
                    Some(f) => self.first_of(object@, k as nat) == Some(f as int)
                        && self.last_of(object@, k as nat) == Some(last as int) && f <= last < k,
                    None => self.first_of(object@, k as nat) is None && self.last_of(
                        object@,
                        k as nat,
                    ) is None,
                },
            decreases self.sections@.len() - k,
        {
            if self.sections[k].filepath == *object {
                if first.is_none() {
                    first = Some(k);
                }
                last = k;
            }
            k += 1;
        }
        match first {
            Some(f) => {
                assert(self.sections@[f as int].vram <= self.sections@[last as int].vram
                    + self.sections@[last as int].size);
                assert(self.sections@[f as int].vrom is Some);
                assert(self.sections@[last as int].vram + self.sections@[last as int].size
                    <= usize::MAX);
                let section = &self.sections[f];
                let end = &self.sections[last];
                let vrom: usize = match section.vrom {
                    Some(vrom) => vrom,
                    None => 0,
                };
                Some(SegmentInfo { vram: section.vram, vrom, size: end.vram + end.size - section.vram })
            },
            None => None,
        }
    }

    /// The nearest section before `i` that comes from an object file.
    pub open spec fn object_before(self, i: int) -> Option<int>
        decreases i,
    {
        if i <= 0 {
            None
        } else if self.is_object(i - 1) {
            Some(i - 1)
        } else {
            self.object_before(i - 1)
        }
    }

    /// A new object starts at `i`: the section comes from an object file,
    /// and the object section before it, if there is one, from another.
    pub open spec fn starts_object(self, i: int) -> bool {
        self.is_object(i) && match self.object_before(i) {
            Some(p) => self.sections@[p].filepath@ != self.sections@[i].filepath@,
            None => true,
        }
    }

    /// The last section of the object whose sections come from `path`,
    /// seen from the section `j` on, when `last` is the last one so far.
    pub open spec fn object_end(self, path: Seq<char>, j: int, last: int) -> int
        decreases self.sections@.len() - j,
    {
        if j < 0 || j >= self.sections@.len() {
            last
        } else if !self.is_object(j) {
            self.object_end(path, j + 1, last)
        } else if self.sections@[j].filepath@ == path {
            self.object_end(path, j + 1, j)
        } else {
            last
        }
    }

    /// The function symbols of the sections of one object from the section
    /// `j` on: section by section, those of each by ascending address.
    pub open spec fn object_symbols(self, symbols: Seq<FunctionEntry>, path: Seq<char>, j: int) -> Seq<
        EntryModel,
    >
        decreases self.sections@.len() - j,
    {
        if j < 0 || j >= self.sections@.len() {
            Seq::empty()
        } else if !self.is_object(j) {
            self.object_symbols(symbols, path, j + 1)
        } else if self.sections@[j].filepath@ == path {
            picked_symbols(
                self.vram as int,
                self.vrom as int,
                self.sections@[j].vram as int,
                self.sections@[j].size as int,
                symbols,
                symbols.len(),
            ) + self.object_symbols(symbols, path, j + 1)
        } else {
            Seq::empty()
        }
    }

    /// The object that starts with the section `i`: it spans from the start
    /// of that section to the end of the last section that follows from the
    /// same file with no other object file between them.
    pub open spec fn object_at(
        self,
        i: int,
        rodata: Seq<MapSegment>,
        symbols: Seq<FunctionEntry>,
    ) -> ObjectModel {
        let path = self.sections@[i].filepath@;
        let last = self.object_end(path, i + 1, i);
        ObjectModel {
            object: path,
            offset: self.sections@[i].vrom->Some_0 as int,
            vram: self.sections@[i].vram as int,
            vrom: self.vrom as int,
            size: self.sections@[last].vram + self.sections@[last].size - self.sections@[i].vram,
            rodata: rodata_of(rodata, path, rodata.len()),
            text_symbols: self.object_symbols(symbols, path, i),
        }
    }

    /// The objects that start among the first `n` sections.
    pub open spec fn objects(self, rodata: Seq<MapSegment>, symbols: Seq<FunctionEntry>, n: nat) -> Seq<
        ObjectModel,
    >
        decreases n,
    {
        if n == 0 {
            Seq::empty()
        } else {
            let before = self.objects(rodata, symbols, (n - 1) as nat);
            if self.starts_object(n - 1) {
                before.push(self.object_at(n - 1, rodata, symbols))
            } else {
                before
            }
        }
    }

    /// Builds the object that starts with the section `i`.
    pub fn read_object(
        &self,
        i: usize,
        rodata: &Vec<MapSegment>,
        symbols: &Vec<FunctionEntry>,
    ) -> (object: ObjectMap)
        requires
            i < self.sections@.len(),
            self.is_object(i as int),
            self.spans_fit(),
            self.places_fit(),
            all_spans_fit(rodata@),
        ensures
            object@ == self.object_at(i as int, rodata@, symbols@),
    {
        let count: usize = self.sections.len();
        let first = &self.sections[i];
        let mut last: usize = i;
        assert(self.vram <= self.sections@[i as int].vram);
        let mut text_symbols = symbols_to_segment_symbols(
            self.vram,
            self.vrom,
            first.vram,
            first.size,
            symbols.as_slice(),
        );
        let ghost head = entry_models(text_symbols@);
        let mut j: usize = i + 1;
        let mut open: bool = true;
        proof {
            assert(head + Seq::<EntryModel>::empty() =~= head);
        }
        while j < count && open
            invariant
                count == self.sections@.len(),
                i <= last < j <= self.sections@.len(),
                self.spans_fit(),
                self.places_fit(),
                *first == self.sections@[i as int],
                self.object_end(first.filepath@, i + 1, i as int) == if open {
                    self.object_end(first.filepath@, j as int, last as int)
                } else {
                    last as int
                },
                self.object_symbols(symbols@, first.filepath@, i as int) == entry_models(
                    text_symbols@,
                ) + if open {
                    self.object_symbols(symbols@, first.filepath@, j as int)
                } else {
                    Seq::<EntryModel>::empty()
                },
            decreases self.sections@.len() - j + if open { 1int } else { 0int },
        {
            let section = &self.sections[j];
            if !is_object_path(section.filepath.as_str()) {
                j += 1;
            } else if section.filepath == first.filepath {
                assert(self.vram <= self.sections@[j as int].vram);
                let mut more = symbols_to_segment_symbols(
                    self.vram,
                    self.vrom,
                    section.vram,
                    section.size,
                    symbols.as_slice(),
                );
                let ghost so_far = entry_models(text_symbols@);
                let ghost added = entry_models(more@);
                let ghost rest = self.object_symbols(symbols@, first.filepath@, j + 1);
                text_symbols.append(&mut more);
                proof {
                    assert(entry_models(text_symbols@) =~= so_far + added);
                    assert(so_far + (added + rest) =~= (so_far + added) + rest);
                }
                last = j;
                j += 1;
            } else {
                open = false;
            }
        }
        proof {
            assert(entry_models(text_symbols@) + Seq::<EntryModel>::empty() =~= entry_models(
                text_symbols@,
            ));
            assert(self.sections@[i as int].vram <= self.sections@[last as int].vram
                + self.sections@[last as int].size);
            assert(self.sections@[i as int].vrom is Some);
            assert(self.sections@[last as int].vram + self.sections@[last as int].size
                <= usize::MAX);
        }
        let end = &self.sections[last];
        let offset: usize = match first.vrom {
            Some(vrom) => vrom,
            None => 0,
        };
        ObjectMap {
            object: first.filepath.clone(),
            offset,
            vram: first.vram,
            vrom: self.vrom,
            size: end.vram + end.size - first.vram,
            rodata: read_rodata(rodata, &first.filepath),
            text_symbols,
        }
    }
}

/// Whether a path names an object file.
pub fn is_object_path(path: &str) -> (yes: bool)
    ensures
        yes == ends_with(path@, ".o"@),
{
    let len = path.unicode_len();
    assert(path@.subrange(0, len as int) =~= path@);
    let pattern = ".o";
    ends_with_at(path, len, pattern, pattern.unicode_len())
}

/// The spans of the sections of every segment fit.
pub open spec fn all_spans_fit(segments: Seq<MapSegment>) -> bool {
    forall|s: int| 0 <= s < segments.len() ==> (#[trigger] segments[s]).spans_fit()
}

/// The places of the sections of every segment fit.
pub open spec fn all_places_fit(segments: Seq<MapSegment>) -> bool {
    forall|s: int| 0 <= s < segments.len() ==> (#[trigger] segments[s]).places_fit()
}

/// The read-only data of the file `object`: its span in the first of the
/// first `n` segments that holds a section of it.
pub open spec fn rodata_of(segments: Seq<MapSegment>, object: Seq<char>, n: nat) -> Option<SegmentInfo>
    decreases n,
{
    if n == 0 {
        None
    } else {
        match rodata_of(segments, object, (n - 1) as nat) {
            Some(info) => Some(info),
            None => segments[n - 1].span_of(object),
        }
    }
}

/// Finds the read-only data of the file `object` among the segments of the
/// read-only data of a map.
pub fn read_rodata(segments: &Vec<MapSegment>, object: &String) -> (info: Option<SegmentInfo>)
    requires
        all_spans_fit(segments@),
    ensures
        info == rodata_of(segments@, object@, segments@.len()),
{
    let mut k: usize = 0;
    while k < segments.len()
        invariant
            k <= segments@.len(),
            all_spans_fit(segments@),
            rodata_of(segments@, object@, k as nat) is None,
        decreases segments@.len() - k,
    {
        assert(segments@[k as int].spans_fit());
        if let Some(info) = segments[k].object_span(object) {
            proof {
                lemma_rodata_found(segments@, object@, k as int, segments@.len());
            }
            return Some(info);
        }
        k += 1;
    }
    None
}

/// Once a segment holds the read-only data, it stays the answer.
pub proof fn lemma_rodata_found(segments: Seq<MapSegment>, object: Seq<char>, k: int, n: nat)
    requires
        0 <= k < n,
        rodata_of(segments, object, k as nat) is None,
        segments[k].span_of(object) is Some,
    ensures
        rodata_of(segments, object, n) == segments[k].span_of(object),
    decreases n,
{
    if n > k + 1 {
        lemma_rodata_found(segments, object, k, (n - 1) as nat);
    }
}

/// The objects of the first `n` segments, segment by segment.
pub open spec fn objects_of(
    text: Seq<MapSegment>,
    rodata: Seq<MapSegment>,
    symbols: Seq<FunctionEntry>,
    n: nat,
) -> Seq<ObjectModel>
    decreases n,
{
    if n == 0 {
        Seq::empty()
    } else {
        objects_of(text, rodata, symbols, (n - 1) as nat) + text[n - 1].objects(
            rodata,
            symbols,
            text[n - 1].sections@.len(),
        )
    }
}

/// Checks that the spans of all sections of all segments fit.
pub fn check_all_spans(segments: &Vec<MapSegment>) -> (yes: bool)
    ensures
        yes == all_spans_fit(segments@),
{
    let mut k: usize = 0;
    while k < segments.len()
        invariant
            k <= segments@.len(),
            forall|s: int| 0 <= s < k ==> (#[trigger] segments@[s]).spans_fit(),
        decreases segments@.len() - k,
    {
        if !segments[k].check_spans() {
            return false;
        }
        k += 1;
    }
    true
}

/// Checks that the places of all sections of all segments fit.
pub fn check_all_places(segments: &Vec<MapSegment>) -> (yes: bool)
    ensures
        yes == all_places_fit(segments@),
{
    let mut k: usize = 0;
    while k < segments.len()
        invariant
            k <= segments@.len(),
            forall|s: int| 0 <= s < k ==> (#[trigger] segments@[s]).places_fit(),
        decreases segments@.len() - k,
    {
        if !segments[k].check_places() {
            return false;
        }
        k += 1;
    }
    true
}

/// Reads the objects of a linker map from the segments of its text and of
/// its read-only data: one object for each run of sections that come from
/// one object file, with the function symbols that run inside it. There is
/// no answer for a map whose sections lack a place in the image, do not
/// ascend, or lie outside what the machine word can address.
pub fn read_segments(
    text: &Vec<MapSegment>,
    rodata: &Vec<MapSegment>,
    function_symbols: &Vec<FunctionEntry>,
) -> (objects: Option<Vec<ObjectMap>>)
    ensures
        objects is Some <==> all_spans_fit(text@) && all_places_fit(text@) && all_spans_fit(
            rodata@,
        ),
        objects is Some ==> object_models(objects->Some_0@) == objects_of(
            text@,
            rodata@,
            function_symbols@,
            text@.len(),
        ),
{
    if !check_all_spans(text) || !check_all_places(text) || !check_all_spans(rodata) {
        return None;
    }
    let mut objects: Vec<ObjectMap> = Vec::new();
    let mut s: usize = 0;
    assert(object_models(objects@) =~= Seq::<ObjectModel>::empty());
    while s < text.len()
        invariant
            s <= text@.len(),
            all_spans_fit(text@),
            all_places_fit(text@),
            all_spans_fit(rodata@),
            object_models(objects@) == objects_of(text@, rodata@, function_symbols@, s as nat),
        decreases text@.len() - s,
    {
        let segment = &text[s];
        assert(text@[s as int].spans_fit());
        assert(text@[s as int].places_fit());
        let ghost before = object_models(objects@);
        let mut previous: Option<usize> = None;
        let mut i: usize = 0;
        proof {
            assert(before + Seq::<ObjectModel>::empty() =~= before);
        }
        while i < segment.sections.len()
            invariant
                i <= segment.sections@.len(),
                segment.spans_fit(),
                segment.places_fit(),
                all_spans_fit(rodata@),
                match previous {
                    Some(p) => segment.object_before(i as int) == Some(p as int) && p < i,
                    None => segment.object_before(i as int) is None,
                },
                object_models(objects@) == before + segment.objects(
                    rodata@,
                    function_symbols@,
                    i as nat,
                ),
            decreases segment.sections@.len() - i,
        {
            if is_object_path(segment.sections[i].filepath.as_str()) {
                let starts = match previous {
                    Some(p) => !(segment.sections[p].filepath == segment.sections[i].filepath),
                    None => true,
                };
                if starts {
                    let object = segment.read_object(i, rodata, function_symbols);
                    let ghost so_far = object_models(objects@);
                    let ghost model = object@;
                    objects.push(object);
                    proof {
                        assert(object_models(objects@) =~= so_far.push(model));
                        assert(before + segment.objects(
                            rodata@,
                            function_symbols@,
                            i as nat,
                        ).push(model) =~= so_far.push(model));
                    }
                }
                previous = Some(i);
            }
            i += 1;
        }
        s += 1;
    }
    Some(objects)
}

} // verus!
