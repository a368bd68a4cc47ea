//! Numbers inside stylesheet text: bytes written in hexadecimal or decimal,
//! and the numeric literals whose text the stylesheet keeps.

use vstd::prelude::*;

verus! {

#[verifier::external_type_specification]
#[verifier::external_body]
pub struct ExParseIntError(std::num::ParseIntError);

/// The value of `c` as a digit in base `radix`, if it is one: `0`-`9`, then
/// `a`-`z` or `A`-`Z` for the values from ten on.
pub open spec fn digit_value(c: char, radix: nat) -> Option<nat> {
    let v: int = if '0' <= c <= '9' {
        c as int - '0' as int
    } else if 'a' <= c <= 'z' {
        c as int - 'a' as int + 10
    } else if 'A' <= c <= 'Z' {
        c as int - 'A' as int + 10
    } else {
        -1
    };
    if 0 <= v < radix {
        Some(v as nat)
    } else {
        None
    }
}

/// The value of a run of digits in base `radix`, if every character is one.
pub open spec fn digits_value(d: Seq<char>, radix: nat) -> Option<nat>
    decreases d.len(),
{
    if d.len() == 0 {
        Some(0)
    } else {
        match (digits_value(d.drop_last(), radix), digit_value(d.last(), radix)) {
            (Some(high), Some(low)) => Some(high * radix + low),
            _ => None,
        }
    }
}

/// What the standard library reads as a `u8` from text in base `radix`: an
/// optional `+` followed by at least one digit, with a value below 256.
pub open spec fn u8_from_text(s: Seq<char>, radix: nat) -> Option<u8> {
    let d = if s.len() > 0 && s[0] == '+' { s.drop_first() } else { s };
    if d.len() == 0 {
        None
    } else {
        match digits_value(d, radix) {
            Some(v) => if v <= 255 { Some(v as u8) } else { None },
            None => None,
        }
    }
}

/// Calls `u8::from_str_radix`. Its documentation says the text must be an
/// optional `+` followed by digits of the radix (`0`-`9`, `a`-`z`, `A`-`Z`),
/// that anything else or a value too large for `u8` is an error, and that a
/// radix outside 2..=36 panics.
#[verifier::external_body]
fn u8_from_str_radix(text: &str, radix: u32) -> (r: Result<u8, std::num::ParseIntError>)
    requires
        2 <= radix <= 36,
    ensures
        match r {
            Ok(v) => u8_from_text(text@, radix as nat) == Some(v),
            Err(_) => u8_from_text(text@, radix as nat) is None,
        },
{
    u8::from_str_radix(text, radix)
}

/// Calls `<u8 as FromStr>::from_str`, which the standard library documents as
/// reading a decimal `u8` with the rules of `u8::from_str_radix` in base 10.
#[verifier::external_body]
fn u8_from_decimal_str(text: &str) -> (r: Result<u8, std::num::ParseIntError>)
    ensures
        match r {
            Ok(v) => u8_from_text(text@, 10) == Some(v),
            Err(_) => u8_from_text(text@, 10) is None,
        },
{
    <u8 as std::str::FromStr>::from_str(text)
}

/// What the standard library reads as a decimal `u32` from text: an
/// optional `+` followed by at least one decimal digit, with a value that
/// fits in a `u32`.
pub open spec fn u32_from_text(s: Seq<char>) -> Option<u32> {
    let d = if s.len() > 0 && s[0] == '+' { s.drop_first() } else { s };
    if d.len() == 0 {
        None
    } else {
        match digits_value(d, 10) {
            Some(v) => if v <= u32::MAX { Some(v as u32) } else { None },
            None => None,
        }
    }
}

/// Calls `<u32 as FromStr>::from_str`, which the standard library documents
/// as reading a decimal `u32` with the rules of `u32::from_str_radix` in
/// base 10: an optional `+` and digits; anything else, or a value too large
/// for `u32`, is an error.
#[verifier::external_body]
fn u32_from_decimal_str(text: &str) -> (r: Result<u32, std::num::ParseIntError>)
    ensures
        match r {
            Ok(v) => u32_from_text(text@) == Some(v),
            Err(_) => u32_from_text(text@) is None,
        },
{
    <u32 as std::str::FromStr>::from_str(text)
}

/// Reads a decimal `u32`.
pub fn u32_from_decimal(input: &str) -> (r: Option<u32>)
    ensures
        r == u32_from_text(input@),
{
    match u32_from_decimal_str(input) {
        Ok(v) => Some(v),
        Err(_) => None,
    }
}

/// Converts a hex string into an `u8`.
pub fn from_hex(input: &str) -> (r: Result<u8, std::num::ParseIntError>)
    ensures
        match r {
            Ok(v) => u8_from_text(input@, 16) == Some(v),
            Err(_) => u8_from_text(input@, 16) is None,
        },
{
    u8_from_str_radix(input, 16)
}

/// Reads a decimal `u8`.
pub fn from_decimal(input: &str) -> (r: Option<u8>)
    ensures
        r == u8_from_text(input@, 10),
{
    match u8_from_decimal_str(input) {
        Ok(v) => Some(v),
        Err(_) => None,
    }
}

/// Builds the text made of the characters `chars`, calling
/// `String::from_iter`, which collects the characters in order.
#[verifier::external_body]
pub(crate) fn text_from_chars(chars: &[char]) -> (r: String)
    ensures
        r@ == chars@,
{
    String::from_iter(chars)
}

/// The outcome of looking for a floating point literal at the start of a text.
pub enum NumberScan {
    /// A literal made of the first `n` characters.
    Found(usize),
    /// The text does not start with a literal.
    NotANumber,
    /// The text starts like a literal with an exponent marker (`e` or `E`,
    /// after an optional sign) that no digit follows.
    Malformed,
}

/// What `nom`'s float recognizer finds at the start of `input`.
pub uninterp spec fn scanned_number(input: Seq<char>) -> NumberScan;

/// The end of the run of decimal digits (`0`-`9`) from `i` on.
pub open spec fn digits_end(s: Seq<char>, i: int) -> int
    decreases s.len() - i,
{
    if 0 <= i < s.len() && '0' <= s[i] <= '9' {
        digits_end(s, i + 1)
    } else {
        i
    }
}

/// How a decimal floating point literal reads at the start of a text.
pub enum FloatForm {
    /// A literal made of the first `n` characters.
    Literal(int),
    /// An exponent marker that no digit follows.
    Malformed,
    /// No literal.
    Absent,
}

/// The decimal literal at the start of `s`: an optional sign; digits with an
/// optional `.` and optional digits after it, or a `.` and digits; then an
/// optional exponent, `e` or `E` with an optional sign, that must have
/// digits.
pub open spec fn float_form(s: Seq<char>) -> FloatForm {
    let a: int = if s.len() > 0 && (s[0] == '+' || s[0] == '-') { 1 } else { 0 };
    let b = digits_end(s, a);
    let c: int = if b > a {
        if b < s.len() && s[b] == '.' { digits_end(s, b + 1) } else { b }
    } else if a < s.len() && s[a] == '.' && digits_end(s, a + 1) > a + 1 {
        digits_end(s, a + 1)
    } else {
        -1
    };
    if c < 0 {
        FloatForm::Absent
    } else if c < s.len() && (s[c] == 'e' || s[c] == 'E') {
        let d: int = if c + 1 < s.len() && (s[c + 1] == '+' || s[c + 1] == '-') { c + 2 } else { c + 1 };
        if digits_end(s, d) > d {
            FloatForm::Literal(digits_end(s, d))
        } else {
            FloatForm::Malformed
        }
    } else {
        FloatForm::Literal(c)
    }
}

/// `c` in lower case, for an ASCII letter.
pub open spec fn ascii_lower(c: char) -> char {
    if 'A' <= c <= 'Z' {
        (c as int + 32) as char
    } else {
        c
    }
}

/// `s` starts with the lower-case ASCII word `t`, in either case, written
/// in ASCII.
pub open spec fn ascii_prefix(s: Seq<char>, t: Seq<char>) -> bool {
    &&& s.len() >= t.len()
    &&& forall|i: int| 0 <= i < t.len() ==> (s[i] as int) < 128 && #[trigger] ascii_lower(s[i]) == t[i]
}

/// `s` does not start with the lower-case ASCII word `t` in any case: an
/// ASCII character of `s` differs from `t` at the same place, or `s` is all
/// ASCII and shorter than `t`.
pub open spec fn ascii_mismatch(s: Seq<char>, t: Seq<char>) -> bool {
    ||| exists|i: int| 0 <= i < s.len() && i < t.len() && (s[i] as int) < 128 && #[trigger] ascii_lower(s[i]) != t[i]
    ||| (s.len() < t.len() && forall|i: int| 0 <= i < s.len() ==> (#[trigger] s[i] as int) < 128)
}

/// Calls `nom::number::complete::recognize_float_or_exceptions`, the
/// recognizer behind `nom`'s `float` parser. Its source reads a decimal
/// literal (`float_form`); a missing exponent digit is a failure (`cut`);
/// where no literal starts the text it tries, in this order, `nan`,
/// `infinity` and `inf` in any case, comparing characters by Unicode lower
/// case. The result depends on the text alone and is named
/// `scanned_number`. For a text where no literal starts and the comparison
/// rests on non-ASCII characters, the result is not stated here.
#[verifier::external_body]
fn scan_number(input: &str) -> (r: NumberScan)
    ensures
        r == scanned_number(input@),
        r matches NumberScan::Found(n) ==> n <= input@.len(),
        float_form(input@) matches FloatForm::Literal(k) ==> r == NumberScan::Found(k as usize),
        float_form(input@) is Malformed ==> r is Malformed,
        float_form(input@) is Absent && ascii_prefix(input@, seq!['n', 'a', 'n'])
            ==> r == NumberScan::Found(3),
        float_form(input@) is Absent && ascii_mismatch(input@, seq!['n', 'a', 'n'])
            && ascii_prefix(input@, seq!['i', 'n', 'f', 'i', 'n', 'i', 't', 'y'])
            ==> r == NumberScan::Found(8),
        float_form(input@) is Absent && ascii_mismatch(input@, seq!['n', 'a', 'n'])
            && ascii_mismatch(input@, seq!['i', 'n', 'f', 'i', 'n', 'i', 't', 'y'])
            && ascii_prefix(input@, seq!['i', 'n', 'f']) ==> r == NumberScan::Found(3),
        float_form(input@) is Absent && ascii_mismatch(input@, seq!['n', 'a', 'n'])
            && ascii_mismatch(input@, seq!['i', 'n', 'f', 'i', 'n', 'i', 't', 'y'])
            && ascii_mismatch(input@, seq!['i', 'n', 'f']) ==> r is NotANumber,
{
    match nom::number::complete::recognize_float_or_exceptions::<&str, nom::error::Error<&str>>(input) {
        Ok((_, literal)) => NumberScan::Found(literal.chars().count()),
        Err(nom::Err::Failure(_)) => NumberScan::Malformed,
        Err(_) => NumberScan::NotANumber,
    }
}

/// Looks for a floating point literal at position `i` of `s`.
pub(crate) fn scan_number_at(s: &[char], i: usize) -> (r: NumberScan)
    requires
        i <= s@.len(),
    ensures
        r == scanned_number(s@.subrange(i as int, s@.len() as int)),
        r matches NumberScan::Found(n) ==> i + n <= s@.len(),
{
    let text = text_from_chars(&s[i..s.len()]);
    scan_number(text.as_str())
}

/// The decimal digit character for `d` (`0` to `9`).
pub open spec fn digit_char(d: nat) -> char {
    (d + '0' as int) as char
}

/// The decimal notation of `n`, without leading zeros.
pub open spec fn decimal(n: nat) -> Seq<char>
    decreases n,
{
    if n < 10 {
        seq![digit_char(n)]
    } else {
        decimal(n / 10).push(digit_char(n % 10))
    }
}

/// Decimal notation reads back: the decimal digits of `n`, read in base 10,
/// give `n`, and they are all decimal digits.
pub proof fn lemma_decimal_reads_back(n: nat)
    ensures
        digits_value(decimal(n), 10) == Some(n),
        decimal(n).len() >= 1,
        forall|i: int| 0 <= i < decimal(n).len() ==> '0' <= #[trigger] decimal(n)[i] && decimal(n)[i] <= '9',
    decreases n,
{
    let d = decimal(n);
    if n < 10 {
        assert(d.drop_last().len() == 0);
        assert(digits_value(d.drop_last(), 10) == Some(0nat));
        assert(digit_value(d.last(), 10) == Some(n));
    } else {
        lemma_decimal_reads_back(n / 10);
        assert(d.drop_last() =~= decimal(n / 10));
        assert(digit_value(d.last(), 10) == Some(n % 10));
        assert(n == (n / 10) * 10 + n % 10);
        assert forall|i: int| 0 <= i < d.len() implies '0' <= #[trigger] d[i] && d[i] <= '9' by {
            if i < d.len() - 1 {
                assert(d[i] == decimal(n / 10)[i]);
            }
        }
    }
}

/// Calls `ToString::to_string` on a `u64`, which writes it through its
/// `Display` impl: in decimal, without sign or leading zeros.
#[verifier::external_body]
pub(crate) fn decimal_text(n: u64) -> (r: String)
    ensures
        r@ == decimal(n as nat),
{
    n.to_string()
}

} // verus!
