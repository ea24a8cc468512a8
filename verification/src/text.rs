use vstd::prelude::*;
use vstd::string::*;
use vstd::arithmetic::div_mod::lemma_small_mod;

verus! {

/// `String::push` appends one character and changes nothing else.
pub assume_specification[ String::push ](s: &mut String, ch: char)
    ensures
        final(s)@ == old(s)@.push(ch),
;

/// The value of `c` as a digit (letters of either case count from ten), or
/// `-1` where `c` is no digit.
pub open spec fn digit_of(c: char) -> int {
    let u = c as u32 as int;
    if 0x30 <= u <= 0x39 {
        u - 0x30
    } else if 0x61 <= u <= 0x7a {
        u - 0x61 + 10
    } else if 0x41 <= u <= 0x5a {
        u - 0x41 + 10
    } else {
        -1
    }
}

/// The character for the digit `d`, `0 <= d < 36`.
pub open spec fn char_of_digit(d: int, upper: bool) -> char {
    if d < 10 {
        ((0x30 + d) as u8) as char
    } else if upper {
        ((0x41 + d - 10) as u8) as char
    } else {
        ((0x61 + d - 10) as u8) as char
    }
}

/// `c` is a digit of base `radix`.
pub open spec fn is_digit(c: char, radix: int) -> bool {
    0 <= digit_of(c) < radix
}

/// `s` holds digits of base `radix` only.
pub open spec fn all_digits(s: Seq<char>, radix: int) -> bool {
    forall|i: int| 0 <= i < s.len() ==> is_digit(#[trigger] s[i], radix)
}

/// The number that the digits of `s` spell in base `radix`.
pub open spec fn digits_number(s: Seq<char>, radix: int) -> int
    decreases s.len(),
{
    if s.len() == 0 {
        0
    } else {
        digits_number(s.drop_last(), radix) * radix + digit_of(s.last())
    }
}

/// What is left of `s` after one optional leading plus sign.
pub open spec fn unsigned_body(s: Seq<char>) -> Seq<char> {
    if s.len() > 0 && s[0] == '+' {
        s.subrange(1, s.len() as int)
    } else {
        s
    }
}

/// Reads `s` as an unsigned 64-bit number in base `radix`: an optional plus
/// sign, then at least one digit and nothing else, with a value that fits.
pub open spec fn parse_number(s: Seq<char>, radix: int) -> Option<u64> {
    let body = unsigned_body(s);
    if body.len() == 0 || !all_digits(body, radix) || digits_number(body, radix) > u64::MAX {
        None
    } else {
        Some(digits_number(body, radix) as u64)
    }
}

/// The shortest spelling of `x` in base `radix`.
pub open spec fn number_text(x: nat, radix: nat, upper: bool) -> Seq<char>
    decreases x,
    via number_text_decreases
{
    if radix < 2 || x < radix {
        seq![char_of_digit(x as int, upper)]
    } else {
        number_text(x / radix, radix, upper).push(char_of_digit((x % radix) as int, upper))
    }
}

#[via_fn]
proof fn number_text_decreases(x: nat, radix: nat, upper: bool) {
    if !(radix < 2 || x < radix) {
        lemma_quotient_smaller(x, radix);
    }
}

/// Dividing a positive number by two or more makes it smaller.
pub proof fn lemma_quotient_smaller(x: nat, radix: nat)
    requires
        radix >= 2,
        x >= radix,
    ensures
        x / radix < x,
{
    assert(x / radix < x) by (nonlinear_arith)
        requires
            radix >= 2,
            x >= radix,
    ;
}

/// The character of a digit reads as that digit, and is neither a colon nor
/// a sign.
pub proof fn lemma_digit_round_trip(d: int, upper: bool)
    requires
        0 <= d < 36,
    ensures
        digit_of(char_of_digit(d, upper)) == d,
        char_of_digit(d, upper) != ':',
        char_of_digit(d, upper) != '+',
{
}

/// A spelled number holds only digits, is not empty, and spells the number
/// it was made from.
pub proof fn lemma_number_text(x: nat, radix: nat, upper: bool)
    requires
        2 <= radix <= 36,
    ensures
        number_text(x, radix, upper).len() > 0,
        all_digits(number_text(x, radix, upper), radix as int),
        digits_number(number_text(x, radix, upper), radix as int) == x,
        forall|i: int|
            0 <= i < number_text(x, radix, upper).len() ==> #[trigger] number_text(
                x,
                radix,
                upper,
            )[i] != ':' && number_text(x, radix, upper)[i] != '+',
    decreases x,
{
    let t = number_text(x, radix, upper);
    if x < radix {
        lemma_digit_round_trip(x as int, upper);
        assert(t.drop_last().len() == 0);
        assert(digits_number(t.drop_last(), radix as int) == 0);
        assert(t.last() == char_of_digit(x as int, upper));
        assert(0 * (radix as int) == 0);
    } else {
        let front = number_text(x / radix, radix, upper);
        lemma_number_text(x / radix, radix, upper);
        lemma_digit_round_trip((x % radix) as int, upper);
        assert(t.drop_last() =~= front);
        assert(t.last() == char_of_digit((x % radix) as int, upper));
        assert((x / radix) * radix + x % radix == x) by (nonlinear_arith)
            requires
                radix > 0,
        ;
        assert forall|i: int| 0 <= i < t.len() implies is_digit(#[trigger] t[i], radix as int) by {
            if i < front.len() {
                assert(t[i] == front[i]);
            }
        }
        assert forall|i: int| 0 <= i < t.len() implies #[trigger] t[i] != ':' && t[i] != '+' by {
            if i < front.len() {
                assert(t[i] == front[i]);
            }
        }
    }
}

/// Reading back a spelled number gives the number.
pub proof fn lemma_parse_number_text(x: u64, radix: nat, upper: bool)
    requires
        2 <= radix <= 36,
    ensures
        parse_number(number_text(x as nat, radix, upper), radix as int) == Some(x),
{
    lemma_number_text(x as nat, radix, upper);
    let t = number_text(x as nat, radix, upper);
    assert(t[0] != '+');
    assert(unsigned_body(t) == t);
}

/// The digit value of `c` in base `radix`, if it is one.
pub fn char_to_digit(c: char, radix: u64) -> (d: Option<u64>)
    requires
        2 <= radix <= 36,
    ensures
        match d {
            Some(v) => is_digit(c, radix as int) && v == digit_of(c),
            None => !is_digit(c, radix as int),
        },
{
    let u: u32 = c as u32;
    let v: u32 = if 0x30 <= u && u <= 0x39 {
        u - 0x30
    } else if 0x61 <= u && u <= 0x7a {
        u - 0x61 + 10
    } else if 0x41 <= u && u <= 0x5a {
        u - 0x41 + 10
    } else {
        return None;
    };
    if (v as u64) < radix {
        Some(v as u64)
    } else {
        None
    }
}

/// The character that spells the digit `d`.
pub fn digit_to_char(d: u64, upper: bool) -> (c: char)
    requires
        d < 36,
    ensures
        c == char_of_digit(d as int, upper),
{
    if d < 10 {
        ((0x30 + d) as u8) as char
    } else if upper {
        ((0x41 + d - 10) as u8) as char
    } else {
        ((0x61 + d - 10) as u8) as char
    }
}

/// Appends the spelling of `x` in base `radix` to `out`.
pub fn push_number(out: &mut String, x: u64, radix: u64, upper: bool)
    requires
        2 <= radix <= 36,
    ensures
        final(out)@ == old(out)@ + number_text(x as nat, radix as nat, upper),
    decreases x,
{
    if x >= radix {
        proof {
            lemma_quotient_smaller(x as nat, radix as nat);
        }
        push_number(out, x / radix, radix, upper);
    }
    out.push(digit_to_char(x % radix, upper));
    proof {
        let t = number_text(x as nat, radix as nat, upper);
        if x >= radix {
            let front = number_text((x / radix) as nat, radix as nat, upper);
            assert((x as nat) / (radix as nat) == (x / radix) as nat);
            assert(t == front.push(char_of_digit((x % radix) as int, upper)));
            assert(old(out)@ + front.push(char_of_digit((x % radix) as int, upper)) =~= (old(
                out,
            )@ + front).push(char_of_digit((x % radix) as int, upper)));
        } else {
            lemma_small_mod(x as nat, radix as nat);
            assert(t == seq![char_of_digit(x as int, upper)]);
            assert(old(out)@ + t =~= old(out)@.push(char_of_digit(x as int, upper)));
        }
    }
}

/// Reads the characters `[from, to)` of `s` as an unsigned number in base
/// `radix`.
pub fn parse_u64(s: &str, from: usize, to: usize, radix: u64) -> (value: Option<u64>)
    requires
        2 <= radix <= 36,
        from <= to <= s@.len(),
    ensures
        value == parse_number(s@.subrange(from as int, to as int), radix as int),
{
    let ghost field = s@.subrange(from as int, to as int);
    let mut i: usize = from;
    if from < to && s.get_char(from) == '+' {
        i = from + 1;
    }
    let ghost body = unsigned_body(field);
    assert(body =~= s@.subrange(i as int, to as int));
    if i == to {
        return None;
    }
    let begin: usize = i;
    let mut acc: u64 = 0;
    let mut fits: bool = true;
    while i < to
        invariant
            2 <= radix <= 36,
            from <= begin <= i <= to <= s@.len(),
            body == unsigned_body(s@.subrange(from as int, to as int)),
            body == s@.subrange(begin as int, to as int),
            all_digits(s@.subrange(begin as int, i as int), radix as int),
            fits ==> acc == digits_number(s@.subrange(begin as int, i as int), radix as int),
            !fits ==> digits_number(s@.subrange(begin as int, i as int), radix as int) > u64::MAX,
        decreases to - i,
    {
        let c = s.get_char(i);
        let ghost before = s@.subrange(begin as int, i as int);
        let ghost after = s@.subrange(begin as int, i + 1);
        assert(after.drop_last() =~= before);
        assert(after.last() == c);
        match char_to_digit(c, radix) {
            None => {
                assert(body[i - begin] == c);
                assert(!is_digit(body[i - begin], radix as int));
                assert(!all_digits(body, radix as int));
                return None;
            },
            Some(d) => {
                assert forall|k: int| 0 <= k < after.len() implies is_digit(
                    #[trigger] after[k],
                    radix as int,
                ) by {
                    if k < before.len() {
                        assert(after[k] == before[k]);
                    }
                }
                let ghost v = digits_number(before, radix as int);
                if fits {
                    assert(acc as int * radix as int <= 0xFFFF_FFFF_FFFF_FFFF * 36)
                        by (nonlinear_arith)
                        requires
                            0 <= acc as int <= 0xFFFF_FFFF_FFFF_FFFF,
                            0 <= radix as int <= 36,
                    ;
                    let wide: u128 = (acc as u128) * (radix as u128) + (d as u128);
                    if wide > 0xFFFF_FFFF_FFFF_FFFFu128 {
                        fits = false;
                    } else {
                        acc = wide as u64;
                    }
                } else {
                    assert(v * (radix as int) + d >= v) by (nonlinear_arith)
                        requires
                            v >= 0,
                            radix >= 1,
                            d >= 0,
                    ;
                }
            },
        }
        i += 1;
    }
    assert(s@.subrange(begin as int, to as int) =~= body);
    if fits {
        Some(acc)
    } else {
        None
    }
}

} // verus!
