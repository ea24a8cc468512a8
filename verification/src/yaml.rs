use vstd::prelude::*;
use vstd::string::*;
use crate::text::{number_text, push_number};
use crate::{
    FunctionOffset,
    FunctionSignature,
    MIPSFamily,
    RODataSignatureType,
    SegmentOffset,
    SegmentSignature,
};

verus! {

/// `serde_yaml::Error`, the error of the YAML writer, as an opaque value.
#[verifier::external_type_specification]
#[verifier::external_body]
pub struct ExYamlError(serde_yaml::Error);

/// The YAML document that `serde_yaml::to_string` writes for a string, or
/// `None` where it reports an error.
pub uninterp spec fn yaml_document(value: Seq<char>) -> Option<Seq<char>>;

/// `serde_yaml::to_string` on a string: the document that holds the string
/// as its only scalar, quoted where YAML needs it. The same string always
/// gives the same document.
#[verifier::external_body]
fn yaml_string(value: &str) -> (document: Result<String, serde_yaml::Error>)
    ensures
        match document {
            Ok(text) => yaml_document(value@) == Some(text@),
            Err(_) => yaml_document(value@) is None,
        },
{
    serde_yaml::to_string(value)
}

/// A string could not be written as a YAML scalar.
#[derive(Copy, Clone, Debug, PartialEq, Eq, Structural)]
pub enum YamlError {
    Scalar,
}

/// White space as the standard library's `char::is_whitespace` knows it.
pub open spec fn is_space(c: char) -> bool {
    let u = c as u32;
    u == 0x20 || (0x09 <= u <= 0x0D) || u == 0x85 || u == 0xA0 || u == 0x1680 || (0x2000 <= u
        <= 0x200A) || u == 0x2028 || u == 0x2029 || u == 0x202F || u == 0x205F || u == 0x3000
}

/// The index of the first character from `from` on that is no white space,
/// or the length of `s`.
pub open spec fn text_start(s: Seq<char>, from: int) -> int
    decreases s.len() - from,
{
    if from < 0 || from >= s.len() {
        s.len() as int
    } else if !is_space(s[from]) {
        from
    } else {
        text_start(s, from + 1)
    }
}

/// The length of `s` without the white space at the end of its first `len`
/// characters.
pub open spec fn text_end(s: Seq<char>, len: int) -> int
    decreases len,
{
    if len <= 0 || len > s.len() {
        0
    } else if !is_space(s[len - 1]) {
        len
    } else {
        text_end(s, len - 1)
    }
}

/// `s` without the white space around it.
pub open spec fn trimmed(s: Seq<char>) -> Seq<char> {
    let start = text_start(s, 0);
    let end = text_end(s, s.len() as int);
    if start < end {
        s.subrange(start, end)
    } else {
        Seq::empty()
    }
}

/// Whether `c` is white space.
pub fn char_is_space(c: char) -> (yes: bool)
    ensures
        yes == is_space(c),
{
    let u: u32 = c as u32;
    u == 0x20 || (0x09 <= u && u <= 0x0D) || u == 0x85 || u == 0xA0 || u == 0x1680 || (0x2000 <= u
        && u <= 0x200A) || u == 0x2028 || u == 0x2029 || u == 0x202F || u == 0x205F || u == 0x3000
}

/// Cuts the white space off both ends of `s`.
pub fn trim(s: &str) -> (text: String)
    ensures
        text@ == trimmed(s@),
{
    let len = s.unicode_len();
    let mut start: usize = 0;
    let mut searching: bool = true;
    while start < len && searching
        invariant
            start <= len == s@.len(),
            text_start(s@, 0) == text_start(s@, start as int),
            !searching ==> start < len && !is_space(s@[start as int]),
        decreases len - start + if searching { 1int } else { 0int },
    {
        if char_is_space(s.get_char(start)) {
            start += 1;
        } else {
            searching = false;
        }
    }
    let mut end: usize = len;
    searching = true;
    while end > 0 && searching
        invariant
            end <= len == s@.len(),
            text_end(s@, len as int) == text_end(s@, end as int),
            !searching ==> end > 0 && !is_space(s@[end - 1]),
        decreases end + if searching { 1int } else { 0int },
    {
        if char_is_space(s.get_char(end - 1)) {
            end -= 1;
        } else {
            searching = false;
        }
    }
    if start < end {
        String::from_str(s.substring_char(start, end))
    } else {
        String::new()
    }
}

/// A string as a YAML scalar on one line.
pub open spec fn scalar_text(value: Seq<char>) -> Option<Seq<char>> {
    match yaml_document(value) {
        Some(document) => Some(trimmed(document)),
        None => None,
    }
}

/// Takes the document that the YAML writer made of one string and returns
/// the scalar in it.
pub fn scalar_of(document: Result<String, serde_yaml::Error>) -> (scalar: Result<String, YamlError>)
    ensures
        match document {
            Ok(text) => scalar == Ok::<String, YamlError>(scalar->Ok_0) && scalar->Ok_0@ == trimmed(
                text@,
            ),
            Err(_) => scalar == Err::<String, YamlError>(YamlError::Scalar),
        },
{
    match document {
        Ok(text) => Ok(trim(text.as_str())),
        Err(_) => Err(YamlError::Scalar),
    }
}

/// Writes a string as a YAML scalar.
pub fn scalar(value: &str) -> (text: Result<String, YamlError>)
    ensures
        match text {
            Ok(t) => scalar_text(value@) == Some(t@),
            Err(e) => scalar_text(value@) is None && e == YamlError::Scalar,
        },
{
    scalar_of(yaml_string(value))
}

/// Two blanks for each level.
pub open spec fn indent_text(level: nat) -> Seq<char>
    decreases level,
{
    if level == 0 {
        Seq::empty()
    } else {
        indent_text((level - 1) as nat).push(' ').push(' ')
    }
}

/// Two blanks for each level.
pub fn indent(level: usize) -> (text: String)
    ensures
        text@ == indent_text(level as nat),
{
    let mut text = String::new();
    let mut i: usize = 0;
    while i < level
        invariant
            i <= level,
            text@ == indent_text(i as nat),
        decreases level - i,
    {
        text.push(' ');
        text.push(' ');
        i += 1;
    }
    text
}

/// `out` with one more line: the indent, a key and a value.
pub open spec fn with_line(out: Seq<char>, indent: Seq<char>, key: Seq<char>, value: Seq<char>) -> Seq<
    char,
> {
    (out + indent + key + value).push('\n')
}

/// Appends one line to `out`: the indent, a key and a value.
pub fn push_line(out: &mut String, indent: &str, key: &str, value: &str)
    ensures
        final(out)@ == with_line(old(out)@, indent@, key@, value@),
{
    out.append(indent);
    out.append(key);
    out.append(value);
    out.push('\n');
}

/// A number as YAML shows it: `0x` and upper-case hexadecimal digits.
pub open spec fn hex_text(x: nat) -> Seq<char> {
    "0x"@ + number_text(x, 16, true)
}

/// Writes a number as YAML shows it.
pub fn hex(x: usize) -> (text: String)
    ensures
        text@ == hex_text(x as nat),
{
    let mut text = String::from_str("0x");
    push_number(&mut text, x as u64, 16, true);
    text
}

/// The name of a family in a document.
pub open spec fn family_name(family: MIPSFamily) -> Seq<char> {
    match family {
        MIPSFamily::R3000GTE => "R3000GTE"@,
        MIPSFamily::R4000 => "R4000"@,
        MIPSFamily::R4000Allegrex => "R4000Allegrex"@,
        MIPSFamily::R5900 => "R5900"@,
    }
}

/// The name of a family in a document.
pub fn family_str(family: MIPSFamily) -> (name: &'static str)
    ensures
        name@ == family_name(family),
{
    match family {
        MIPSFamily::R3000GTE => "R3000GTE",
        MIPSFamily::R4000 => "R4000",
        MIPSFamily::R4000Allegrex => "R4000Allegrex",
        MIPSFamily::R5900 => "R5900",
    }
}

/// The name of a kind of read-only data in a document.
pub open spec fn rodata_type_name(kind: RODataSignatureType) -> Seq<char> {
    match kind {
        RODataSignatureType::OnlyJumpTables => "OnlyJumpTables"@,
        RODataSignatureType::StartsAndEndsWithJumpTable => "StartsAndEndsWithJumpTable"@,
        RODataSignatureType::StartsWithJumpTable => "StartsWithJumpTable"@,
        RODataSignatureType::EndsWithJumpTable => "EndsWithJumpTable"@,
        RODataSignatureType::Unknown => "Unknown"@,
    }
}

/// The name of a kind of read-only data in a document.
pub fn rodata_type_str(kind: RODataSignatureType) -> (name: &'static str)
    ensures
        name@ == rodata_type_name(kind),
{
    match kind {
        RODataSignatureType::OnlyJumpTables => "OnlyJumpTables",
        RODataSignatureType::StartsAndEndsWithJumpTable => "StartsAndEndsWithJumpTable",
        RODataSignatureType::StartsWithJumpTable => "StartsWithJumpTable",
        RODataSignatureType::EndsWithJumpTable => "EndsWithJumpTable",
        RODataSignatureType::Unknown => "Unknown",
    }
}

/// `out` with the three lines of each of the first `n` functions; `None`
/// where the name of one of them cannot be written.
pub open spec fn with_functions(
    out: Seq<char>,
    indent: Seq<char>,
    functions: Seq<FunctionSignature>,
    n: nat,
) -> Option<Seq<char>>
    decreases n,
{
    if n == 0 {
        Some(out)
    } else {
        match (
            with_functions(out, indent, functions, (n - 1) as nat),
            scalar_text(functions[n - 1].name@),
        ) {
            (Some(before), Some(name)) => Some(
                with_line(
                    with_line(
                        with_line(before, indent, "- name: "@, name),
                        indent,
                        "  fingerprint: "@,
                        functions[n - 1].fingerprint.v0().text(),
                    ),
                    indent,
                    "  size: "@,
                    hex_text(functions[n - 1].size as nat),
                ),
            ),
            _ => None,
        }
    }
}

/// The head of a signature document: its name, fingerprint, size and
/// family, and the kind and size of its read-only data where it has one.
pub open spec fn signature_head(signature: SegmentSignature, indent: Seq<char>, name: Seq<char>) -> Seq<
    char,
> {
    let basics = with_line(
        with_line(
            with_line(
                with_line(Seq::empty(), indent, "name: "@, name),
                indent,
                "fingerprint: "@,
                signature.fingerprint.v0().text(),
            ),
            indent,
            "size: "@,
            hex_text(signature.size as nat),
        ),
        indent,
        "family: "@,
        family_name(signature.family),
    );
    let with_rodata = match signature.rodata {
        Some(rodata) => with_line(
            with_line(
                with_line(basics, indent, "rodata:"@, Seq::empty()),
                indent,
                "  rodataType: "@,
                rodata_type_name(rodata.rodata_type),
            ),
            indent,
            "  size: "@,
            hex_text(rodata.size as nat),
        ),
        None => basics,
    };
    with_line(with_rodata, indent, "functions:"@, Seq::empty())
}

/// The document that describes a signature, indented by `level`.
pub open spec fn signature_yaml(signature: SegmentSignature, level: nat) -> Option<Seq<char>> {
    match scalar_text(signature.name@) {
        Some(name) => with_functions(
            signature_head(signature, indent_text(level), name),
            indent_text(level),
            signature.functions@,
            signature.functions@.len(),
        ),
        None => None,
    }
}

/// The symbol at `i` is shown before the one at `j`: the one at the lower
/// offset first, and of two at one offset the one listed first.
pub open spec fn shown_before(symbols: Seq<FunctionOffset>, i: int, j: int) -> bool {
    symbols[i].offset < symbols[j].offset || (symbols[i].offset == symbols[j].offset && i < j)
}

/// `order` lists every symbol once, by ascending offset.
pub open spec fn is_symbol_order(symbols: Seq<FunctionOffset>, order: Seq<usize>) -> bool {
    &&& order.len() == symbols.len()
    &&& forall|a: int| 0 <= a < order.len() ==> (#[trigger] order[a]) < symbols.len()
    &&& forall|a: int, b: int|
        0 <= a < b < order.len() ==> shown_before(
            symbols,
            #[trigger] order[a] as int,
            #[trigger] order[b] as int,
        )
}

/// Where a symbol at `offset` goes into `order`: behind the last of its
/// first `at` entries that does not lie at a higher offset.
pub open spec fn place_of(symbols: Seq<FunctionOffset>, order: Seq<usize>, offset: usize, at: int) -> int
    decreases at,
{
    if 0 < at <= order.len() && symbols[order[at - 1] as int].offset > offset {
        place_of(symbols, order, offset, at - 1)
    } else {
        at
    }
}

/// The first `n` symbols by ascending offset; symbols at one offset keep
/// the order in which they are listed.
pub open spec fn ordered_symbols(symbols: Seq<FunctionOffset>, n: nat) -> Seq<usize>
    decreases n,
{
    if n == 0 {
        Seq::empty()
    } else {
        let before = ordered_symbols(symbols, (n - 1) as nat);
        before.insert(
            place_of(symbols, before, symbols[n - 1].offset, before.len() as int),
            (n - 1) as usize,
        )
    }
}

/// Lists the symbols by ascending offset.
pub fn symbol_order(symbols: &Vec<FunctionOffset>) -> (order: Vec<usize>)
    ensures
        order@ == ordered_symbols(symbols@, symbols@.len()),
        is_symbol_order(symbols@, order@),
{
    let mut order: Vec<usize> = Vec::new();
    let mut i: usize = 0;
    while i < symbols.len()
        invariant
            i <= symbols@.len(),
            order@.len() == i,
            order@ == ordered_symbols(symbols@, i as nat),
            forall|a: int| 0 <= a < order@.len() ==> (#[trigger] order@[a]) < i,
            forall|a: int, b: int|
                0 <= a < b < order@.len() ==> shown_before(
                    symbols@,
                    #[trigger] order@[a] as int,
                    #[trigger] order@[b] as int,
                ),
        decreases symbols@.len() - i,
    {
        let offset: usize = symbols[i].offset;
        let mut at: usize = order.len();
        while at > 0 && symbols[order[at - 1]].offset > offset
            invariant
                at <= order@.len(),
                i < symbols@.len(),
                offset == symbols@[i as int].offset,
                place_of(symbols@, order@, offset, order@.len() as int) == place_of(
                    symbols@,
                    order@,
                    offset,
                    at as int,
                ),
                forall|a: int| 0 <= a < order@.len() ==> (#[trigger] order@[a]) < i,
                forall|a: int|
                    at <= a < order@.len() ==> shown_before(
                        symbols@,
                        i as int,
                        #[trigger] order@[a] as int,
                    ),
            decreases at,
        {
            at -= 1;
        }
        let ghost before = order@;
        proof {
            assert forall|a: int| 0 <= a < at implies shown_before(
                symbols@,
                #[trigger] before[a] as int,
                i as int,
            ) by {
                if a < at - 1 {
                    assert(shown_before(symbols@, before[a] as int, before[at - 1] as int));
                }
            }
        }
        order.insert(at, i);
        proof {
            assert forall|a: int| 0 <= a < order@.len() implies (#[trigger] order@[a]) < i + 1 by {
                if a < at {
                    assert(order@[a] == before[a]);
                } else if a > at {
                    assert(order@[a] == before[a - 1]);
                }
            }
            assert forall|a: int, b: int| 0 <= a < b < order@.len() implies shown_before(
                symbols@,
                #[trigger] order@[a] as int,
                #[trigger] order@[b] as int,
            ) by {
                let oa = if a < at { a } else { a - 1 };
                let ob = if b < at { b } else { b - 1 };
                if a != at && b != at {
                    assert(shown_before(symbols@, before[oa] as int, before[ob] as int));
                } else if a == at {
                    assert(shown_before(symbols@, i as int, before[ob] as int));
                } else {
                    assert(shown_before(symbols@, before[oa] as int, i as int));
                }
            }
        }
        i += 1;
    }
    order
}

/// `out` with one line for each of the first `n` symbols that `order`
/// names; `None` where the name of one of them cannot be written.
pub open spec fn with_symbols(
    out: Seq<char>,
    indent: Seq<char>,
    symbols: Seq<FunctionOffset>,
    order: Seq<usize>,
    n: nat,
) -> Option<Seq<char>>
    decreases n,
{
    if n == 0 {
        Some(out)
    } else {
        let symbol = symbols[order[n - 1] as int];
        match (with_symbols(out, indent, symbols, order, (n - 1) as nat), scalar_text(symbol.name@)) {
            (Some(before), Some(name)) => Some(
                with_line(before, indent + "  "@ + name, ": "@, hex_text(symbol.offset as nat)),
            ),
            _ => None,
        }
    }
}

/// The head of a result document: the name, offset and size of the
/// segment, and the offset and size of its read-only data where it was
/// located.
pub open spec fn offset_head(found: SegmentOffset, indent: Seq<char>, name: Seq<char>) -> Seq<char> {
    let basics = with_line(
        with_line(
            with_line(Seq::empty(), indent, "name: "@, name),
            indent,
            "offset: "@,
            hex_text(found.offset as nat),
        ),
        indent,
        "size: "@,
        hex_text(found.size as nat),
    );
    let with_rodata = match found.rodata {
        Some(rodata) => with_line(
            with_line(
                with_line(basics, indent, "rodata:"@, Seq::empty()),
                indent,
                "  offset: "@,
                hex_text(rodata.offset as nat),
            ),
            indent,
            "  size: "@,
            hex_text(rodata.size as nat),
        ),
        None => basics,
    };
    with_line(with_rodata, indent, "symbols:"@, Seq::empty())
}

/// The text of an optional string.
pub open spec fn text_of(rendered: Result<String, YamlError>) -> Option<Seq<char>> {
    match rendered {
        Ok(text) => Some(text@),
        Err(_) => None,
    }
}

/// Values that can be written as a YAML document with numbers in
/// hexadecimal.
pub trait SerializeToYAML {
    /// The document for this value, indented by `level`, where it has one.
    spec fn yaml_text(&self, level: nat) -> Option<Seq<char>>;

    /// Writes the document for this value, indented by `level`.
    fn serialize_to_yaml_at_level(&self, level: usize) -> (text: Result<String, YamlError>)
        ensures
            text_of(text) == self.yaml_text(level as nat),
            text is Err ==> text == Err::<String, YamlError>(YamlError::Scalar),
    ;

    /// Writes the document for this value.
    fn serialize_to_yaml(&self) -> (text: Result<String, YamlError>)
        ensures
            text_of(text) == self.yaml_text(0),
            text is Err ==> text == Err::<String, YamlError>(YamlError::Scalar),
    {
        self.serialize_to_yaml_at_level(0)
    }
}

impl SerializeToYAML for SegmentSignature {
    open spec fn yaml_text(&self, level: nat) -> Option<Seq<char>> {
        signature_yaml(*self, level)
    }

    fn serialize_to_yaml_at_level(&self, level: usize) -> (text: Result<String, YamlError>) {
        let indent = indent(level);
        let name = match scalar(self.name.as_str()) {
            Ok(name) => name,
            Err(e) => {
                return Err(e);
            },
        };
        let mut out = String::new();
        push_line(&mut out, indent.as_str(), "name: ", name.as_str());
        push_line(
            &mut out,
            indent.as_str(),
            "fingerprint: ",
            self.fingerprint.to_string().as_str(),
        );
        push_line(&mut out, indent.as_str(), "size: ", hex(self.size).as_str());
        push_line(&mut out, indent.as_str(), "family: ", family_str(self.family));
        if let Some(rodata) = &self.rodata {
            push_line(&mut out, indent.as_str(), "rodata:", "");
            push_line(
                &mut out,
                indent.as_str(),
                "  rodataType: ",
                rodata_type_str(rodata.rodata_type),
            );
            push_line(&mut out, indent.as_str(), "  size: ", hex(rodata.size).as_str());
        }
        push_line(&mut out, indent.as_str(), "functions:", "");
        proof {
            reveal_strlit("");
            assert(""@ =~= Seq::<char>::empty());
        }
        let mut i: usize = 0;
        while i < self.functions.len()
            invariant
                i <= self.functions@.len(),
                indent@ == indent_text(level as nat),
                scalar_text(self.name@) == Some(name@),
                with_functions(
                    signature_head(*self, indent@, name@),
                    indent@,
                    self.functions@,
                    i as nat,
                ) == Some(out@),
            decreases self.functions@.len() - i,
        {
            let function = &self.functions[i];
            let function_name = match scalar(function.name.as_str()) {
                Ok(function_name) => function_name,
                Err(e) => {
                    proof {
                        lemma_functions_fail(
                            signature_head(*self, indent@, name@),
                            indent@,
                            self.functions@,
                            i as int,
                            self.functions@.len(),
                        );
                    }
                    return Err(e);
                },
            };
            push_line(&mut out, indent.as_str(), "- name: ", function_name.as_str());
            push_line(
                &mut out,
                indent.as_str(),
                "  fingerprint: ",
                function.fingerprint.to_string().as_str(),
            );
            push_line(&mut out, indent.as_str(), "  size: ", hex(function.size).as_str());
            i += 1;
        }
        Ok(out)
    }
}

/// Where the name of one function cannot be written, the list of
/// functions cannot be written.
pub proof fn lemma_functions_fail(
    out: Seq<char>,
    indent: Seq<char>,
    functions: Seq<FunctionSignature>,
    i: int,
    n: nat,
)
    requires
        0 <= i < n,
        scalar_text(functions[i].name@) is None,
    ensures
        with_functions(out, indent, functions, n) is None,
    decreases n,
{
    if n > i + 1 {
        lemma_functions_fail(out, indent, functions, i, (n - 1) as nat);
    }
}

/// Where the name of one symbol cannot be written, the list of symbols
/// cannot be written.
pub proof fn lemma_symbols_fail(
    out: Seq<char>,
    indent: Seq<char>,
    symbols: Seq<FunctionOffset>,
    order: Seq<usize>,
    i: int,
    n: nat,
)
    requires
        0 <= i < n,
        scalar_text(symbols[order[i] as int].name@) is None,
    ensures
        with_symbols(out, indent, symbols, order, n) is None,
    decreases n,
{
    if n > i + 1 {
        lemma_symbols_fail(out, indent, symbols, order, i, (n - 1) as nat);
    }
}

/// The document that describes a found segment when its symbols are shown
/// in `order`.
pub open spec fn offset_yaml(found: SegmentOffset, order: Seq<usize>, level: nat) -> Option<Seq<char>> {
    match scalar_text(found.name@) {
        Some(name) => with_symbols(
            offset_head(found, indent_text(level), name),
            indent_text(level),
            found.symbols@,
            order,
            order.len(),
        ),
        None => None,
    }
}

/// Writes the document of a found segment with its symbols in `order`.
pub fn write_offset(found: &SegmentOffset, order: &Vec<usize>, level: usize) -> (text: Result<
    String,
    YamlError,
>)
    requires
        forall|a: int| 0 <= a < order@.len() ==> (#[trigger] order@[a]) < found.symbols@.len(),
    ensures
        text_of(text) == offset_yaml(*found, order@, level as nat),
        text is Err ==> text == Err::<String, YamlError>(YamlError::Scalar),
{
    let indent = indent(level);
    let name = match scalar(found.name.as_str()) {
        Ok(name) => name,
        Err(e) => {
            return Err(e);
        },
    };
    let mut out = String::new();
    push_line(&mut out, indent.as_str(), "name: ", name.as_str());
    push_line(&mut out, indent.as_str(), "offset: ", hex(found.offset).as_str());
    push_line(&mut out, indent.as_str(), "size: ", hex(found.size).as_str());
    if let Some(rodata) = &found.rodata {
        push_line(&mut out, indent.as_str(), "rodata:", "");
        push_line(&mut out, indent.as_str(), "  offset: ", hex(rodata.offset).as_str());
        push_line(&mut out, indent.as_str(), "  size: ", hex(rodata.size).as_str());
    }
    push_line(&mut out, indent.as_str(), "symbols:", "");
    proof {
        reveal_strlit("");
        assert(""@ =~= Seq::<char>::empty());
    }
    let mut i: usize = 0;
    while i < order.len()
        invariant
            i <= order@.len(),
            indent@ == indent_text(level as nat),
            scalar_text(found.name@) == Some(name@),
            forall|a: int| 0 <= a < order@.len() ==> (#[trigger] order@[a]) < found.symbols@.len(),
            with_symbols(
                offset_head(*found, indent@, name@),
                indent@,
                found.symbols@,
                order@,
                i as nat,
            ) == Some(out@),
        decreases order@.len() - i,
    {
        let symbol = &found.symbols[order[i]];
        let symbol_name = match scalar(symbol.name.as_str()) {
            Ok(symbol_name) => symbol_name,
            Err(e) => {
                proof {
                    lemma_symbols_fail(
                        offset_head(*found, indent@, name@),
                        indent@,
                        found.symbols@,
                        order@,
                        i as int,
                        order@.len(),
                    );
                }
                return Err(e);
            },
        };
        let mut key = indent.clone();
        key.append("  ");
        key.append(symbol_name.as_str());
        push_line(&mut out, key.as_str(), ": ", hex(symbol.offset).as_str());
        i += 1;
    }
    Ok(out)
}

impl SerializeToYAML for SegmentOffset {
    open spec fn yaml_text(&self, level: nat) -> Option<Seq<char>> {
        offset_yaml(*self, ordered_symbols(self.symbols@, self.symbols@.len()), level)
    }

    fn serialize_to_yaml_at_level(&self, level: usize) -> (text: Result<String, YamlError>) {
        let order = symbol_order(&self.symbols);
        write_offset(self, &order, level)
    }
}

} // verus!
