//! What holds of selectors, rule lookup, hex colors and comment stripping.

use vstd::prelude::*;
use crate::comments::{blank, find_pair, strip_from, stripped};
use crate::css::{
    empty_selector, matching_rules, selector_matches, CSSValueView, ColorView, RuleView, SelectorView,
};
use crate::css_grammar::{in_class, scan_hex_color, CharClass, Scan};
use crate::numbers::{digit_value, digits_value, u8_from_text};

verus! {

/// A selector matches itself.
pub proof fn lemma_matches_reflexive(s: SelectorView)
    ensures
        selector_matches(s, s),
{
    assert forall|i: int| 0 <= i < s.classes.len() implies s.classes.contains(#[trigger] s.classes[i]) by {
        assert(s.classes[i] == s.classes[i]);
    }
}

/// If `a` matches `b` and `b` matches `c`, then `a` matches `c`.
pub proof fn lemma_matches_transitive(a: SelectorView, b: SelectorView, c: SelectorView)
    requires
        selector_matches(a, b),
        selector_matches(b, c),
    ensures
        selector_matches(a, c),
{
    assert forall|k: Seq<char>| #[trigger] c.any.contains_key(k) implies a.any.contains_key(k) && a.any[k]
        == c.any[k] by {
        assert(b.any.contains_key(k));
    }
    assert forall|i: int| 0 <= i < c.classes.len() implies a.classes.contains(#[trigger] c.classes[i]) by {
        let j = choose|j: int| 0 <= j < b.classes.len() && b.classes[j] == c.classes[i];
        assert(a.classes.contains(b.classes[j]));
    }
}

/// Every selector matches the selector that names no criteria, and that
/// selector matches exactly the selectors that name none either.
pub proof fn lemma_matches_empty(s: SelectorView)
    ensures
        selector_matches(s, empty_selector()),
        selector_matches(empty_selector(), s) <==> (s.typ is None && s.id is None && s.classes.len()
            == 0 && s.any.dom().is_empty()),
{
    if selector_matches(empty_selector(), s) {
        if s.classes.len() > 0 {
            assert(empty_selector().classes.contains(s.classes[0]));
        }
        if !s.any.dom().is_empty() {
            let k = s.any.dom().choose();
            assert(s.any.contains_key(k));
        }
    }
}

/// A selector with a class added matches everything the selector matched,
/// and the selector itself.
pub proof fn lemma_class_refines(s: SelectorView, o: SelectorView, class: Seq<char>)
    requires
        selector_matches(s, o),
    ensures
        selector_matches(SelectorView { classes: s.classes.push(class), ..s }, o),
        selector_matches(SelectorView { classes: s.classes.push(class), ..s }, s),
{
    let t = SelectorView { classes: s.classes.push(class), ..s };
    assert forall|i: int| 0 <= i < o.classes.len() implies t.classes.contains(#[trigger] o.classes[i]) by {
        let j = choose|j: int| 0 <= j < s.classes.len() && s.classes[j] == o.classes[i];
        assert(t.classes[j] == o.classes[i]);
    }
    assert forall|i: int| 0 <= i < s.classes.len() implies t.classes.contains(#[trigger] s.classes[i]) by {
        assert(t.classes[i] == s.classes[i]);
    }
}

/// A selector with a key/value pair added matches everything the selector
/// matched that does not name another value for the key, and it matches the
/// selector itself unless the selector named another value for the key.
pub proof fn lemma_any_refines(s: SelectorView, o: SelectorView, key: Seq<char>, value: Seq<char>)
    ensures
        selector_matches(s, o) && (o.any.contains_key(key) ==> o.any[key] == value) ==> selector_matches(
            SelectorView { any: s.any.insert(key, value), ..s },
            o,
        ),
        selector_matches(SelectorView { any: s.any.insert(key, value), ..s }, s) <==> (s.any.contains_key(key)
            ==> s.any[key] == value),
{
    let t = SelectorView { any: s.any.insert(key, value), ..s };
    lemma_matches_reflexive(s);
    if s.any.contains_key(key) && s.any[key] != value {
        assert(s.any.contains_key(key) && t.any[key] != s.any[key]);
    }
}

/// A selector given a type matches the selector itself exactly when the
/// selector had no type or that type.
pub proof fn lemma_type_refines(s: SelectorView, typ: Seq<char>)
    ensures
        selector_matches(SelectorView { typ: Some(typ), ..s }, s) <==> (s.typ is None || s.typ == Some(
            typ,
        )),
{
    lemma_matches_reflexive(s);
}

/// The number of line feeds in a text.
pub open spec fn newlines(s: Seq<char>) -> nat
    decreases s.len(),
{
    if s.len() == 0 {
        0
    } else {
        newlines(s.drop_last()) + if s.last() == '\n' { 1nat } else { 0nat }
    }
}

proof fn lemma_newlines_add(a: Seq<char>, b: Seq<char>)
    ensures
        newlines(a + b) == newlines(a) + newlines(b),
    decreases b.len(),
{
    if b.len() == 0 {
        assert(a + b =~= a);
    } else {
        lemma_newlines_add(a, b.drop_last());
        assert((a + b).drop_last() =~= a + b.drop_last());
    }
}

proof fn lemma_newlines_blank(t: Seq<char>)
    ensures
        newlines(blank(t)) == newlines(t),
        blank(t).len() == t.len(),
    decreases t.len(),
{
    if t.len() > 0 {
        lemma_newlines_blank(t.drop_last());
        assert(blank(t).drop_last() =~= blank(t.drop_last()));
    }
}

proof fn lemma_find_pair_some(s: Seq<char>, i: int, a: char, b: char)
    requires
        0 <= i,
    ensures
        find_pair(s, i, a, b) matches Some(j) ==> i <= j && j + 2 <= s.len() && s[j] == a && s[j + 1]
            == b && forall|k: int| i <= k < j ==> !(#[trigger] s[k] == a && s[k + 1] == b),
        find_pair(s, i, a, b) is None ==> forall|k: int| i <= k && k + 1 < s.len() ==> !(#[trigger] s[k]
            == a && s[k + 1] == b),
    decreases s.len() - i,
{
    if i + 1 < s.len() && !(s[i] == a && s[i + 1] == b) {
        lemma_find_pair_some(s, i + 1, a, b);
    }
}

proof fn lemma_strip_from_newlines(s: Seq<char>, i: int)
    requires
        0 <= i <= s.len(),
    ensures
        newlines(strip_from(s, i)) == newlines(s.subrange(i, s.len() as int)),
    decreases s.len() - i,
{
    lemma_find_pair_some(s, i, '/', '*');
    match find_pair(s, i, '/', '*') {
        Some(start) => {
            let after = start + 2;
            lemma_find_pair_some(s, after, '*', '/');
            let end = match find_pair(s, after, '*', '/') {
                Some(e) => e + 2,
                None => s.len() as int,
            };
            lemma_strip_from_newlines(s, end);
            let seg = s.subrange(i, start);
            let mid = blank(s.subrange(after, end));
            let rest = strip_from(s, end);
            lemma_newlines_add(seg, mid);
            lemma_newlines_add(seg + mid, rest);
            lemma_newlines_blank(s.subrange(after, end));
            let whole = s.subrange(i, s.len() as int);
            assert(whole =~= seg + s.subrange(start, after) + s.subrange(after, end) + s.subrange(end, s.len() as int));
            lemma_newlines_add(seg, s.subrange(start, after));
            lemma_newlines_add(seg + s.subrange(start, after), s.subrange(after, end));
            lemma_newlines_add(seg + s.subrange(start, after) + s.subrange(after, end), s.subrange(end, s.len() as int));
            let opener = s.subrange(start, after);
            assert(opener.drop_last() =~= seq![s[start]]);
            assert(seq![s[start]].drop_last() =~= Seq::<char>::empty());
            assert(newlines(opener) == 0) by {
                reveal_with_fuel(newlines, 3);
            }
        },
        None => {},
    }
}

/// Stripping comments keeps every line feed: the stripped text has as many
/// line feeds as the text.
pub proof fn lemma_strip_keeps_newlines(s: Seq<char>)
    ensures
        newlines(stripped(s)) == newlines(s),
{
    lemma_strip_from_newlines(s, 0);
    assert(s.subrange(0, s.len() as int) =~= s);
}

/// No comment opens in `t`.
pub open spec fn no_opener(t: Seq<char>) -> bool {
    forall|j: int| 0 <= j && j + 1 < t.len() ==> !(#[trigger] t[j] == '/' && t[j + 1] == '*')
}

proof fn lemma_no_opener_concat(a: Seq<char>, b: Seq<char>)
    requires
        no_opener(a),
        no_opener(b),
        a.len() > 0 && b.len() > 0 ==> !(a.last() == '/' && b[0] == '*'),
    ensures
        no_opener(a + b),
{
    let c = a + b;
    assert forall|j: int| 0 <= j && j + 1 < c.len() implies !(#[trigger] c[j] == '/' && c[j + 1] == '*') by {
        if j + 1 < a.len() {
            assert(c[j] == a[j] && c[j + 1] == a[j + 1]);
        } else if j >= a.len() {
            assert(c[j] == b[j - a.len()] && c[j + 1] == b[j + 1 - a.len()]);
        } else {
            assert(c[j] == a.last() && c[j + 1] == b[0]);
        }
    }
}

proof fn lemma_blank_chars(t: Seq<char>)
    ensures
        forall|j: int| 0 <= j < blank(t).len() ==> #[trigger] blank(t)[j] == ' ' || blank(t)[j] == '\n',
        blank(t).len() == t.len(),
{
}

proof fn lemma_strip_from_no_opener(s: Seq<char>, i: int)
    requires
        0 <= i <= s.len(),
    ensures
        no_opener(strip_from(s, i)),
        strip_from(s, i).len() > 0 ==> strip_from(s, i)[0] != '*' || (find_pair(s, i, '/', '*') != Some(i)
            && s[i] == '*'),
    decreases s.len() - i,
{
    lemma_find_pair_some(s, i, '/', '*');
    match find_pair(s, i, '/', '*') {
        Some(start) => {
            let after = start + 2;
            lemma_find_pair_some(s, after, '*', '/');
            let end = match find_pair(s, after, '*', '/') {
                Some(e) => e + 2,
                None => s.len() as int,
            };
            lemma_strip_from_no_opener(s, end);
            let seg = s.subrange(i, start);
            let mid = blank(s.subrange(after, end));
            let rest = strip_from(s, end);
            lemma_blank_chars(s.subrange(after, end));
            assert(no_opener(seg)) by {
                assert forall|j: int| 0 <= j && j + 1 < seg.len() implies !(#[trigger] seg[j] == '/'
                    && seg[j + 1] == '*') by {
                    assert(seg[j] == s[i + j] && seg[j + 1] == s[i + j + 1]);
                }
            }
            assert(no_opener(mid));
            lemma_no_opener_concat(seg, mid);
            if mid.len() == 0 {
                assert(end == s.len());
                assert(rest =~= Seq::<char>::empty()) by {
                    assert(find_pair(s, end, '/', '*') is None);
                }
                assert(seg + mid + rest =~= seg);
            } else {
                assert((seg + mid).last() == mid.last());
                lemma_no_opener_concat(seg + mid, rest);
            }
            if (seg + mid + rest).len() > 0 && seg.len() == 0 {
                assert(start == i);
            }
            if seg.len() > 0 {
                assert((seg + mid + rest)[0] == s[i]);
            }
        },
        None => {
            let t = s.subrange(i, s.len() as int);
            assert forall|j: int| 0 <= j && j + 1 < t.len() implies !(#[trigger] t[j] == '/' && t[j + 1]
                == '*') by {
                assert(t[j] == s[i + j] && t[j + 1] == s[i + j + 1]);
            }
        },
    }
}

proof fn lemma_find_none_when_no_opener(t: Seq<char>, i: int)
    requires
        no_opener(t),
        0 <= i,
    ensures
        find_pair(t, i, '/', '*') is None,
    decreases t.len() - i,
{
    if i + 1 < t.len() {
        lemma_find_none_when_no_opener(t, i + 1);
    }
}

/// Stripping comments twice gives what stripping them once gives: no
/// comment opens in a stripped text.
pub proof fn lemma_strip_idempotent(s: Seq<char>)
    ensures
        no_opener(stripped(s)),
        stripped(stripped(s)) == stripped(s),
{
    lemma_strip_from_no_opener(s, 0);
    let t = stripped(s);
    lemma_find_none_when_no_opener(t, 0);
    assert(t.subrange(0, t.len() as int) =~= t);
}

/// An ASCII hexadecimal digit, in either case.
pub open spec fn is_ascii_hex(c: char) -> bool {
    ('0' <= c && c <= '9') || ('a' <= c && c <= 'f') || ('A' <= c && c <= 'F')
}

/// The value of an ASCII hexadecimal digit.
pub open spec fn hex_value(c: char) -> int {
    if '0' <= c && c <= '9' {
        c as int - 48
    } else if 'a' <= c && c <= 'f' {
        c as int - 87
    } else {
        c as int - 55
    }
}

/// The hexadecimal digit class holds exactly `0`-`9`, `a`-`f` and `A`-`F`.
pub proof fn lemma_hex_digit_class(c: char)
    ensures
        in_class(c, CharClass::HexDigit) <==> is_ascii_hex(c),
{
}

/// Two hexadecimal digits, in either case, read in base 16 as the byte
/// whose high and low halves they are.
pub proof fn lemma_hex_pair_value(t: Seq<char>)
    requires
        t.len() == 2,
        is_ascii_hex(t[0]),
        is_ascii_hex(t[1]),
    ensures
        u8_from_text(t, 16) == Some((16 * hex_value(t[0]) + hex_value(t[1])) as u8),
        16 * hex_value(t[0]) + hex_value(t[1]) <= 255,
{
    assert(digit_value(t[0], 16) == Some(hex_value(t[0]) as nat));
    assert(digit_value(t[1], 16) == Some(hex_value(t[1]) as nat));
    assert(t.drop_last().drop_last().len() == 0);
    assert(t.drop_last().last() == t[0]);
    assert(digits_value(t.drop_last().drop_last(), 16) == Some(0nat));
    assert(digits_value(t.drop_last(), 16) == Some(hex_value(t[0]) as nat));
    assert(digits_value(t, 16) == Some((16 * hex_value(t[0]) + hex_value(t[1])) as nat));
}

/// `#` followed by six hexadecimal digits, in either case, reads as the
/// opaque color whose red, green and blue bytes the three pairs of digits
/// spell in base 16.
pub proof fn lemma_hex_color_reads(s: Seq<char>, i: int)
    requires
        0 <= i,
        i + 7 <= s.len(),
        s[i] == '#',
        forall|k: int| 1 <= k <= 6 ==> is_ascii_hex(#[trigger] s[i + k]),
    ensures
        scan_hex_color(s, i) == Scan::Done(
            i + 7,
            CSSValueView::Color(
                ColorView {
                    r: (16 * hex_value(s[i + 1]) + hex_value(s[i + 2])) as u8,
                    g: (16 * hex_value(s[i + 3]) + hex_value(s[i + 4])) as u8,
                    b: (16 * hex_value(s[i + 5]) + hex_value(s[i + 6])) as u8,
                    a: None,
                },
            ),
        ),
{
    assert(is_ascii_hex(s[i + 1]) && is_ascii_hex(s[i + 2]) && is_ascii_hex(s[i + 3]));
    assert(is_ascii_hex(s[i + 4]) && is_ascii_hex(s[i + 5]) && is_ascii_hex(s[i + 6]));
    lemma_hex_pair_value(s.subrange(i + 1, i + 3));
    lemma_hex_pair_value(s.subrange(i + 3, i + 5));
    lemma_hex_pair_value(s.subrange(i + 5, i + 7));
}

/// The rules that a selector finds are exactly the rules whose selectors it
/// matches, in stylesheet order: every matching rule is found, whatever
/// rules come before it, and only matching rules are found.
pub proof fn lemma_matching_rules_members(rules: Seq<RuleView>, s: SelectorView)
    ensures
        matching_rules(rules, s) == rules.filter(|r: RuleView| selector_matches(s, r.selector)),
        forall|i: int| 0 <= i < rules.len() && selector_matches(s, rules[i].selector)
            ==> matching_rules(rules, s).contains(#[trigger] rules[i]),
        forall|r: RuleView| #[trigger] matching_rules(rules, s).contains(r)
            ==> rules.contains(r) && selector_matches(s, r.selector),
        matching_rules(rules, s).len() <= rules.len(),
    decreases rules.len(),
{
    let f = |r: RuleView| selector_matches(s, r.selector);
    reveal(Seq::filter);
    if rules.len() == 0 {
        assert(matching_rules(rules, s) =~= rules.filter(f));
    } else {
        let init = rules.drop_last();
        lemma_matching_rules_members(init, s);
        assert(rules.filter(f) == (if f(rules.last()) {
            init.filter(f).push(rules.last())
        } else {
            init.filter(f)
        }));
        let m = matching_rules(rules, s);
        let mi = matching_rules(init, s);
        assert forall|i: int| 0 <= i < rules.len() && selector_matches(s, rules[i].selector)
            implies m.contains(#[trigger] rules[i]) by {
            if i < rules.len() - 1 {
                assert(init[i] == rules[i]);
                assert(mi.contains(init[i]));
                let j = choose|j: int| 0 <= j < mi.len() && mi[j] == init[i];
                assert(m[j] == mi[j]);
            } else {
                assert(m[m.len() - 1] == rules.last());
            }
        }
        assert forall|r: RuleView| #[trigger] m.contains(r) implies rules.contains(r) && selector_matches(
            s,
            r.selector,
        ) by {
            let j = choose|j: int| 0 <= j < m.len() && m[j] == r;
            if j < mi.len() {
                assert(mi[j] == r);
                assert(mi.contains(r));
                let k = choose|k: int| 0 <= k < init.len() && init[k] == r;
                assert(rules[k] == r);
            } else {
                assert(r == rules.last());
                assert(rules[rules.len() - 1] == r);
            }
        }
    }
}

/// The character classes of the stylesheet language: white space is space,
/// tab, carriage return and line feed; digits are `0`-`9`; the letters and
/// digits of names are the characters whose low byte is an ASCII letter or
/// digit; names add `-`, text values add `-` and space.
pub proof fn lemma_char_classes(c: char)
    ensures
        in_class(c, CharClass::Space) <==> (c == ' ' || c == '\t' || c == '\r' || c == '\n'),
        in_class(c, CharClass::Digit) <==> ('0' <= c && c <= '9'),
        in_class(c, CharClass::Alnum) <==> {
            let b = (c as u32) % 256;
            (48 <= b && b <= 57) || (65 <= b && b <= 90) || (97 <= b && b <= 122)
        },
        in_class(c, CharClass::Name) <==> (in_class(c, CharClass::Alnum) || c == '-'),
        in_class(c, CharClass::Text) <==> (in_class(c, CharClass::Alnum) || c == '-' || c == ' '),
{
}

} // verus!
