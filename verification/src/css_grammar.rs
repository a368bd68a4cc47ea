//! The stylesheet language, stated over the characters of a stylesheet.
//!
//! Every scanner starts at a position `i` of the text `s` and either stops at
//! a position with a value (`Done`), does not apply there (`Error`, after
//! which an alternative may be tried), or rejects the text outright
//! (`Failure`, which ends the whole parse).

use vstd::prelude::*;
use crate::css::{empty_selector, CSSValueView, ColorView, NumberView, RuleView, SelectorView};
use crate::numbers::{scanned_number, u8_from_text, NumberScan};

verus! {

/// The outcome of a scanner that starts at a position of a text.
pub enum Scan<T> {
    Done(int, T),
    Error,
    Failure,
}

/// The kinds of characters that runs of a stylesheet are made of.
#[derive(Clone, Copy)]
pub enum CharClass {
    /// Space, tab, carriage return, line feed.
    Space,
    /// A character whose low byte is an ASCII letter or digit.
    Alnum,
    /// `Alnum` or `-`: the characters of a property name.
    Name,
    /// `Alnum`, `-` or a space: the characters of a text value.
    Text,
    /// An ASCII digit.
    Digit,
    /// An ASCII hexadecimal digit.
    HexDigit,
}

/// A character whose low byte is an ASCII letter or digit.
pub open spec fn low_byte_alnum(c: char) -> bool {
    let b = (c as u32) % 256;
    (48 <= b <= 57) || (65 <= b <= 90) || (97 <= b <= 122)
}

pub open spec fn in_class(c: char, k: CharClass) -> bool {
    match k {
        CharClass::Space => c == ' ' || c == '\t' || c == '\r' || c == '\n',
        CharClass::Alnum => low_byte_alnum(c),
        CharClass::Name => low_byte_alnum(c) || c == '-',
        CharClass::Text => low_byte_alnum(c) || c == '-' || c == ' ',
        CharClass::Digit => '0' <= c <= '9',
        CharClass::HexDigit => ('0' <= c <= '9') || ('a' <= c <= 'f') || ('A' <= c <= 'F'),
    }
}

/// The end of the longest run of characters of class `k` starting at `i`.
pub open spec fn span_end(s: Seq<char>, i: int, k: CharClass) -> int
    decreases s.len() - i,
{
    if 0 <= i < s.len() && in_class(s[i], k) {
        span_end(s, i + 1, k)
    } else {
        i
    }
}

/// The end of the whitespace starting at `i`.
pub open spec fn ws_end(s: Seq<char>, i: int) -> int {
    span_end(s, i, CharClass::Space)
}

/// One part of a selector after its type.
pub enum PartView {
    Class(Seq<char>),
    Id(Seq<char>),
    Any(Seq<char>, Seq<char>),
}

/// `.class`
pub open spec fn scan_class(s: Seq<char>, i: int) -> Scan<PartView> {
    if 0 <= i < s.len() && s[i] == '.' {
        let j = span_end(s, i + 1, CharClass::Alnum);
        Scan::Done(j, PartView::Class(s.subrange(i + 1, j)))
    } else {
        Scan::Error
    }
}

/// `#id`
pub open spec fn scan_id(s: Seq<char>, i: int) -> Scan<PartView> {
    if 0 <= i < s.len() && s[i] == '#' {
        let j = span_end(s, i + 1, CharClass::Alnum);
        Scan::Done(j, PartView::Id(s.subrange(i + 1, j)))
    } else {
        Scan::Error
    }
}

/// `[key=value]`, or, where quoted values are taken (`quoted`), also
/// `[key="value"]`.
pub open spec fn scan_any(s: Seq<char>, i: int, quoted: bool) -> Scan<PartView> {
    if 0 <= i < s.len() && s[i] == '[' {
        let a = span_end(s, i + 1, CharClass::Alnum);
        if a < s.len() && s[a] == '=' {
            let key = s.subrange(i + 1, a);
            if quoted && a + 1 < s.len() && s[a + 1] == '"' {
                let b = span_end(s, a + 2, CharClass::Alnum);
                if b + 1 < s.len() && s[b] == '"' && s[b + 1] == ']' {
                    Scan::Done(b + 2, PartView::Any(key, s.subrange(a + 2, b)))
                } else {
                    Scan::Error
                }
            } else {
                let b = span_end(s, a + 1, CharClass::Alnum);
                if b < s.len() && s[b] == ']' {
                    Scan::Done(b + 1, PartView::Any(key, s.subrange(a + 1, b)))
                } else {
                    Scan::Error
                }
            }
        } else {
            Scan::Error
        }
    } else {
        Scan::Error
    }
}

/// The first of two alternatives that applies.
pub open spec fn first_of<T>(a: Scan<T>, b: Scan<T>) -> Scan<T> {
    if a is Error {
        b
    } else {
        a
    }
}

/// A class, an id or a key/value pair.
pub open spec fn scan_part(s: Seq<char>, i: int, quoted: bool) -> Scan<PartView> {
    first_of(scan_class(s, i), first_of(scan_id(s, i), scan_any(s, i, quoted)))
}

/// Adds one part to a selector: a class is appended, an id replaces the id,
/// a key/value pair is stored under its key.
pub open spec fn apply_part(sel: SelectorView, part: PartView) -> SelectorView {
    match part {
        PartView::Class(c) => SelectorView { classes: sel.classes.push(c), ..sel },
        PartView::Id(v) => SelectorView { id: Some(v), ..sel },
        PartView::Any(k, v) => SelectorView { any: sel.any.insert(k, v), ..sel },
    }
}

/// The parts from `i` on, added to `acc` one by one. Every part takes at
/// least one character, so the run ends at the first position where no part
/// applies.
pub open spec fn parts_from(s: Seq<char>, i: int, quoted: bool, acc: SelectorView) -> (int, SelectorView)
    decreases s.len() - i,
{
    match scan_part(s, i, quoted) {
        Scan::Done(j, part) => if i < j <= s.len() {
            parts_from(s, j, quoted, apply_part(acc, part))
        } else {
            (i, acc)
        },
        _ => (i, acc),
    }
}

/// A selector: an optional type followed by its parts.
pub open spec fn scan_selector(s: Seq<char>, i: int, quoted: bool) -> (int, SelectorView) {
    let t = span_end(s, i, CharClass::Alnum);
    let typ = if t > i { Some(s.subrange(i, t)) } else { None };
    parts_from(s, t, quoted, SelectorView { typ: typ, ..empty_selector() })
}

/// Two hexadecimal digits read as a byte.
pub open spec fn hex_pair(s: Seq<char>, i: int) -> Option<u8> {
    if 0 <= i && i + 2 <= s.len() && in_class(s[i], CharClass::HexDigit)
        && in_class(s[i + 1], CharClass::HexDigit) {
        u8_from_text(s.subrange(i, i + 2), 16)
    } else {
        None
    }
}

/// `#rrggbb`
pub open spec fn scan_hex_color(s: Seq<char>, i: int) -> Scan<CSSValueView> {
    if 0 <= i < s.len() && s[i] == '#' {
        match (hex_pair(s, i + 1), hex_pair(s, i + 3), hex_pair(s, i + 5)) {
            (Some(r), Some(g), Some(b)) => Scan::Done(
                i + 7,
                CSSValueView::Color(ColorView { r: r, g: g, b: b, a: None }),
            ),
            _ => Scan::Error,
        }
    } else {
        Scan::Error
    }
}

/// A decimal byte.
pub open spec fn scan_byte(s: Seq<char>, i: int) -> Scan<u8> {
    let t = span_end(s, i, CharClass::Digit);
    match u8_from_text(s.subrange(i, t), 10) {
        Some(v) => Scan::Done(t, v),
        None => Scan::Error,
    }
}

/// A comma with whitespace around it; the position after it.
pub open spec fn scan_comma(s: Seq<char>, i: int) -> Option<int> {
    let e = ws_end(s, i);
    if 0 <= e < s.len() && s[e] == ',' {
        Some(ws_end(s, e + 1))
    } else {
        None
    }
}

/// The text `w` at position `i`.
pub open spec fn has_word(s: Seq<char>, i: int, w: Seq<char>) -> bool {
    0 <= i && i + w.len() <= s.len() && s.subrange(i, i + w.len()) == w
}

/// A floating point literal at `i`: its end.
pub open spec fn scan_literal(s: Seq<char>, i: int) -> Scan<int> {
    match scanned_number(s.subrange(i, s.len() as int)) {
        NumberScan::Found(n) => Scan::Done(i + n, i + n),
        NumberScan::NotANumber => Scan::Error,
        NumberScan::Malformed => Scan::Failure,
    }
}

/// Three bytes separated by commas, starting at `i`: the bytes and the end.
pub open spec fn scan_three_bytes(s: Seq<char>, i: int) -> Scan<(u8, u8, u8)> {
    match scan_byte(s, i) {
        Scan::Done(d1, r) => match scan_comma(s, d1) {
            Some(f1) => match scan_byte(s, f1) {
                Scan::Done(d2, g) => match scan_comma(s, d2) {
                    Some(f2) => match scan_byte(s, f2) {
                        Scan::Done(d3, b) => Scan::Done(d3, (r, g, b)),
                        _ => Scan::Error,
                    },
                    None => Scan::Error,
                },
                _ => Scan::Error,
            },
            None => Scan::Error,
        },
        _ => Scan::Error,
    }
}

/// `rgba(r, g, b, a)`
pub open spec fn scan_rgba_color(s: Seq<char>, i: int) -> Scan<CSSValueView> {
    let b = ws_end(s, i);
    if has_word(s, b, seq!['r', 'g', 'b', 'a', '(']) {
        match scan_three_bytes(s, ws_end(s, b + 5)) {
            Scan::Done(d, rgb) => match scan_comma(s, d) {
                Some(f) => match scan_literal(s, f) {
                    Scan::Done(e, _) => if e < s.len() && s[e] == ')' {
                        Scan::Done(
                            e + 1,
                            CSSValueView::Color(
                                ColorView { r: rgb.0, g: rgb.1, b: rgb.2, a: Some(s.subrange(f, e)) },
                            ),
                        )
                    } else {
                        Scan::Error
                    },
                    Scan::Error => Scan::Error,
                    Scan::Failure => Scan::Failure,
                },
                None => Scan::Error,
            },
            _ => Scan::Error,
        }
    } else {
        Scan::Error
    }
}

/// `rgb(r, g, b)`
pub open spec fn scan_rgb_color(s: Seq<char>, i: int) -> Scan<CSSValueView> {
    let b = ws_end(s, i);
    if has_word(s, b, seq!['r', 'g', 'b', '(']) {
        match scan_three_bytes(s, ws_end(s, b + 4)) {
            Scan::Done(d, rgb) => if d < s.len() && s[d] == ')' {
                Scan::Done(
                    d + 1,
                    CSSValueView::Color(ColorView { r: rgb.0, g: rgb.1, b: rgb.2, a: None }),
                )
            } else {
                Scan::Error
            },
            _ => Scan::Error,
        }
    } else {
        Scan::Error
    }
}

/// A literal followed by the unit `unit`, made into a number by `make`.
pub open spec fn scan_with_unit(s: Seq<char>, i: int, unit: Seq<char>, px: bool) -> Scan<CSSValueView> {
    match scan_literal(s, i) {
        Scan::Done(e, _) => if has_word(s, e, unit) {
            let lit = s.subrange(i, e);
            Scan::Done(
                e + unit.len(),
                CSSValueView::Number(if px { NumberView::Px(lit) } else { NumberView::World(lit) }),
            )
        } else {
            Scan::Error
        },
        Scan::Error => Scan::Error,
        Scan::Failure => Scan::Failure,
    }
}

/// `12.5px`
pub open spec fn scan_px(s: Seq<char>, i: int) -> Scan<CSSValueView> {
    scan_with_unit(s, i, seq!['p', 'x'], true)
}

/// `3w`
pub open spec fn scan_world(s: Seq<char>, i: int) -> Scan<CSSValueView> {
    scan_with_unit(s, i, seq!['w'], false)
}

/// `0.5`
pub open spec fn scan_unitless(s: Seq<char>, i: int) -> Scan<CSSValueView> {
    match scan_literal(s, i) {
        Scan::Done(e, _) => Scan::Done(e, CSSValueView::Number(NumberView::Unitless(s.subrange(i, e)))),
        Scan::Error => Scan::Error,
        Scan::Failure => Scan::Failure,
    }
}

/// Letters, digits, `-` and spaces, after leading whitespace.
pub open spec fn scan_text(s: Seq<char>, i: int) -> Scan<CSSValueView> {
    let b = ws_end(s, i);
    let t = span_end(s, b, CharClass::Text);
    Scan::Done(ws_end(s, t), CSSValueView::Text(s.subrange(b, t)))
}

/// A scanner's outcome with the whitespace after its end taken too.
pub open spec fn then_ws<T>(s: Seq<char>, r: Scan<T>) -> Scan<T> {
    match r {
        Scan::Done(j, v) => Scan::Done(ws_end(s, j), v),
        Scan::Error => Scan::Error,
        Scan::Failure => Scan::Failure,
    }
}

/// A value: the first of a hex color, an `rgba` color, an `rgb` color, a px
/// number, a world number, a unitless number and a text that applies, each
/// with the whitespace around it.
pub open spec fn scan_value(s: Seq<char>, i: int) -> Scan<CSSValueView> {
    let a = ws_end(s, i);
    first_of(
        then_ws(s, scan_hex_color(s, a)),
        first_of(
            then_ws(s, scan_rgba_color(s, a)),
            first_of(
                then_ws(s, scan_rgb_color(s, a)),
                first_of(
                    then_ws(s, scan_px(s, a)),
                    first_of(
                        then_ws(s, scan_world(s, a)),
                        first_of(then_ws(s, scan_unitless(s, a)), then_ws(s, scan_text(s, a))),
                    ),
                ),
            ),
        ),
    )
}

/// `name: value;`
pub open spec fn scan_kv(s: Seq<char>, i: int) -> Scan<(Seq<char>, CSSValueView)> {
    let a = ws_end(s, i);
    let n = span_end(s, a, CharClass::Name);
    let b = ws_end(s, n);
    if 0 <= b < s.len() && s[b] == ':' {
        match scan_value(s, b + 1) {
            Scan::Done(c, v) => if 0 <= c < s.len() && s[c] == ';' {
                Scan::Done(c + 1, (s.subrange(a, n), v))
            } else {
                Scan::Error
            },
            Scan::Error => Scan::Error,
            Scan::Failure => Scan::Failure,
        }
    } else {
        Scan::Error
    }
}

/// The key/value pairs from `i` on, stored into `acc` in order (a later pair
/// replaces an earlier one with the same key).
pub open spec fn body_from(s: Seq<char>, i: int, acc: Map<Seq<char>, CSSValueView>) -> Scan<
    Map<Seq<char>, CSSValueView>,
>
    decreases s.len() - i,
{
    match scan_kv(s, i) {
        Scan::Done(j, kv) => if i < j <= s.len() {
            body_from(s, j, acc.insert(kv.0, kv.1))
        } else {
            Scan::Error
        },
        Scan::Error => Scan::Done(i, acc),
        Scan::Failure => Scan::Failure,
    }
}

/// `selector { name: value; ... }`
pub open spec fn scan_rule(s: Seq<char>, i: int, quoted: bool) -> Scan<RuleView> {
    let a = ws_end(s, i);
    let (b, sel) = scan_selector(s, a, quoted);
    let c = ws_end(s, b);
    if 0 <= c < s.len() && s[c] == '{' {
        match body_from(s, ws_end(s, c + 1), Map::empty()) {
            Scan::Done(e, kvs) => {
                let f = ws_end(s, e);
                if 0 <= f < s.len() && s[f] == '}' {
                    Scan::Done(ws_end(s, f + 1), RuleView { selector: sel, kvs: kvs })
                } else {
                    Scan::Error
                }
            },
            Scan::Error => Scan::Error,
            Scan::Failure => Scan::Failure,
        }
    } else {
        Scan::Error
    }
}

/// The rules from `i` on, appended to `acc`, up to the first position where
/// no rule applies.
pub open spec fn rules_from(s: Seq<char>, i: int, quoted: bool, acc: Seq<RuleView>) -> Scan<
    Seq<RuleView>,
>
    decreases s.len() - i,
{
    match scan_rule(s, i, quoted) {
        Scan::Done(j, r) => if i < j <= s.len() {
            rules_from(s, j, quoted, acc.push(r))
        } else {
            Scan::Error
        },
        Scan::Error => Scan::Done(i, acc),
        Scan::Failure => Scan::Failure,
    }
}

/// The rules of a stylesheet: those that can be read from its start, up to
/// the first place where no rule can be read; none when the text is rejected.
pub open spec fn parse_stylesheet(s: Seq<char>, quoted: bool) -> Option<Seq<RuleView>> {
    match rules_from(s, 0, quoted, Seq::empty()) {
        Scan::Done(_, rules) => Some(rules),
        _ => None,
    }
}

} // verus!
