//! Reads stylesheets: each scanner here computes what the scanner of the same
//! name in `css_grammar` states.

use vstd::prelude::*;
use crate::css::{CSSValue, CSSValueView, Color, Number, Rule, RuleView, Selector};
use crate::css_grammar::{
    body_from, in_class, parts_from, rules_from, scan_any, scan_byte, scan_class, scan_comma,
    scan_hex_color, scan_id, scan_kv, scan_part, scan_rgb_color, scan_rgba_color, scan_rule,
    scan_selector, scan_three_bytes, scan_value, span_end, has_word, hex_pair, CharClass,
    PartView, Scan,
};
use crate::numbers::{from_decimal, from_hex, scan_number_at, text_from_chars, NumberScan};
use crate::text_map::TextMap;

verus! {

/// The outcome of a scanner run: the end and the value read, or why nothing
/// was read.
pub enum Step<T> {
    Done(usize, T),
    Error,
    Failure,
}

impl<T: View> View for Step<T> {
    type V = Scan<T::V>;

    open spec fn view(&self) -> Scan<T::V> {
        match self {
            Step::Done(j, v) => Scan::Done(*j as int, v@),
            Step::Error => Scan::Error,
            Step::Failure => Scan::Failure,
        }
    }
}

/// The run of a scanner ends within the text, not before its start.
pub open spec fn ends_within<T>(r: Step<T>, i: int, len: int) -> bool {
    r matches Step::Done(j, _) ==> i <= j <= len
}

/// Whether `c` is of class `k`.
pub fn is_in_class(c: char, k: CharClass) -> (r: bool)
    ensures
        r == in_class(c, k),
{
    match k {
        CharClass::Space => c == ' ' || c == '\t' || c == '\r' || c == '\n',
        CharClass::Alnum => low_byte_is_alnum(c),
        CharClass::Name => low_byte_is_alnum(c) || c == '-',
        CharClass::Text => low_byte_is_alnum(c) || c == '-' || c == ' ',
        CharClass::Digit => '0' <= c && c <= '9',
        CharClass::HexDigit => ('0' <= c && c <= '9') || ('a' <= c && c <= 'f') || ('A' <= c
            && c <= 'F'),
    }
}

fn low_byte_is_alnum(c: char) -> (r: bool)
    ensures
        r == crate::css_grammar::low_byte_alnum(c),
{
    let b = (c as u32) % 256;
    (48 <= b && b <= 57) || (65 <= b && b <= 90) || (97 <= b && b <= 122)
}

/// A run of characters of one class ends within the text, not before its start.
pub proof fn lemma_span_bounds(s: Seq<char>, i: int, k: CharClass)
    requires
        0 <= i <= s.len(),
    ensures
        i <= span_end(s, i, k) <= s.len(),
    decreases s.len() - i,
{
    if i < s.len() && in_class(s[i], k) {
        lemma_span_bounds(s, i + 1, k);
    }
}

/// A run ends where no further character of its class follows, so running
/// again from its end stops at once.
pub proof fn lemma_span_idempotent(s: Seq<char>, i: int, k: CharClass)
    requires
        0 <= i <= s.len(),
    ensures
        span_end(s, span_end(s, i, k), k) == span_end(s, i, k),
    decreases s.len() - i,
{
    if i < s.len() && in_class(s[i], k) {
        lemma_span_idempotent(s, i + 1, k);
    }
}

/// The end of the run of characters of class `k` starting at `i`.
pub fn span(s: &[char], i: usize, k: CharClass) -> (j: usize)
    requires
        i <= s@.len(),
    ensures
        j == span_end(s@, i as int, k),
        i <= j <= s@.len(),
{
    let mut j = i;
    while j < s.len() && is_in_class(s[j], k)
        invariant
            i <= j <= s@.len(),
            span_end(s@, i as int, k) == span_end(s@, j as int, k),
        decreases s@.len() - j,
    {
        j = j + 1;
    }
    j
}

/// The text of the characters from `a` to `b`.
fn text_between(s: &[char], a: usize, b: usize) -> (r: String)
    requires
        a <= b <= s@.len(),
    ensures
        r@ == s@.subrange(a as int, b as int),
{
    text_from_chars(&s[a..b])
}

/// Whether the characters of `w` stand at position `i`.
fn word_at(s: &[char], i: usize, w: &[char]) -> (r: bool)
    ensures
        r == has_word(s@, i as int, w@),
{
    if i > s.len() || w.len() > s.len() - i {
        return false;
    }
    let n = w.len();
    let m = s.len();
    let mut k: usize = 0;
    while k < n
        invariant
            n == w@.len(),
            m == s@.len(),
            i + n <= m,
            i + w@.len() <= s@.len(),
            k <= w@.len(),
            forall|m: int| 0 <= m < k ==> s@[i + m] == w@[m],
        decreases w@.len() - k,
    {
        if s[i + k] != w[k] {
            assert(s@.subrange(i as int, i + w@.len())[k as int] != w@[k as int]);
            return false;
        }
        k = k + 1;
    }
    assert(s@.subrange(i as int, i + w@.len()) =~= w@);
    true
}

/// One part of a selector after its type.
pub enum SelectorPart {
    Class(String),
    Id(String),
    Any(String, String),
}

impl View for SelectorPart {
    type V = PartView;

    open spec fn view(&self) -> PartView {
        match self {
            SelectorPart::Class(c) => PartView::Class(c@),
            SelectorPart::Id(v) => PartView::Id(v@),
            SelectorPart::Any(k, v) => PartView::Any(k@, v@),
        }
    }
}

fn scan_class_or_id(s: &[char], i: usize, marker: char) -> (r: Step<String>)
    requires
        i <= s@.len(),
    ensures
        r matches Step::Done(j, _) ==> i < j <= s@.len(),
        marker == '.' ==> match (r@, scan_class(s@, i as int)) {
            (Scan::Done(j, t), Scan::Done(j2, PartView::Class(t2))) => j == j2 && t == t2,
            (Scan::Error, Scan::Error) => true,
            _ => false,
        },
        marker == '#' ==> match (r@, scan_id(s@, i as int)) {
            (Scan::Done(j, t), Scan::Done(j2, PartView::Id(t2))) => j == j2 && t == t2,
            (Scan::Error, Scan::Error) => true,
            _ => false,
        },
{
    if i < s.len() && s[i] == marker {
        let j = span(s, i + 1, CharClass::Alnum);
        Step::Done(j, text_between(s, i + 1, j))
    } else {
        Step::Error
    }
}

fn scan_any_part(s: &[char], i: usize, quoted: bool) -> (r: Step<SelectorPart>)
    requires
        i <= s@.len(),
    ensures
        r@ == scan_any(s@, i as int, quoted),
        r matches Step::Done(j, _) ==> i < j <= s@.len(),
{
    if i < s.len() && s[i] == '[' {
        let a = span(s, i + 1, CharClass::Alnum);
        if a < s.len() && s[a] == '=' {
            let key = text_between(s, i + 1, a);
            if quoted && a + 1 < s.len() && s[a + 1] == '"' {
                let b = span(s, a + 2, CharClass::Alnum);
                if b < s.len() && b + 1 < s.len() && s[b] == '"' && s[b + 1] == ']' {
                    Step::Done(b + 2, SelectorPart::Any(key, text_between(s, a + 2, b)))
                } else {
                    Step::Error
                }
            } else {
                let b = span(s, a + 1, CharClass::Alnum);
                if b < s.len() && s[b] == ']' {
                    Step::Done(b + 1, SelectorPart::Any(key, text_between(s, a + 1, b)))
                } else {
                    Step::Error
                }
            }
        } else {
            Step::Error
        }
    } else {
        Step::Error
    }
}

fn scan_selector_part(s: &[char], i: usize, quoted: bool) -> (r: Step<SelectorPart>)
    requires
        i <= s@.len(),
    ensures
        r@ == scan_part(s@, i as int, quoted),
        r matches Step::Done(j, _) ==> i < j <= s@.len(),
{
    match scan_class_or_id(s, i, '.') {
        Step::Done(j, c) => return Step::Done(j, SelectorPart::Class(c)),
        _ => {},
    }
    match scan_class_or_id(s, i, '#') {
        Step::Done(j, c) => return Step::Done(j, SelectorPart::Id(c)),
        _ => {},
    }
    scan_any_part(s, i, quoted)
}

/// Reads a selector at `i`.
pub fn read_selector(s: &[char], i: usize, quoted: bool) -> (r: (usize, Selector))
    requires
        i <= s@.len(),
    ensures
        (r.0 as int, r.1@) == scan_selector(s@, i as int, quoted),
        i <= r.0 <= s@.len(),
{
    let t = span(s, i, CharClass::Alnum);
    let mut sel = Selector::new();
    if t > i {
        sel = sel.with_type(text_between(s, i, t));
    }
    let mut pos = t;
    assert(sel@ == (crate::css::SelectorView {
        typ: if t > i { Some(s@.subrange(i as int, t as int)) } else { None },
        ..crate::css::empty_selector()
    }));
    loop
        invariant
            i <= t <= pos <= s@.len(),
            scan_selector(s@, i as int, quoted) == parts_from(s@, pos as int, quoted, sel@),
        decreases s@.len() - pos,
    {
        match scan_selector_part(s, pos, quoted) {
            Step::Done(j, part) => {
                match part {
                    SelectorPart::Class(c) => {
                        sel = sel.with_class(c);
                    },
                    SelectorPart::Id(v) => {
                        sel = sel.with_id(v);
                    },
                    SelectorPart::Any(k, v) => {
                        sel = sel.with_any(k, v);
                    },
                }
                pos = j;
            },
            _ => {
                return (pos, sel);
            },
        }
    }
}

fn read_hex_pair(s: &[char], i: usize) -> (r: Option<u8>)
    requires
        i <= s@.len(),
    ensures
        r == hex_pair(s@, i as int),
        r is Some ==> i + 2 <= s@.len(),
{
    if i < s.len() && i + 1 < s.len() && is_in_class(s[i], CharClass::HexDigit) && is_in_class(
        s[i + 1],
        CharClass::HexDigit,
    ) {
        match from_hex(text_between(s, i, i + 2).as_str()) {
            Ok(v) => Some(v),
            Err(_) => None,
        }
    } else {
        None
    }
}

fn read_hex_color(s: &[char], i: usize) -> (r: Step<CSSValue>)
    requires
        i <= s@.len(),
    ensures
        r@ == scan_hex_color(s@, i as int),
        ends_within(r, i as int, s@.len() as int),
{
    if i < s.len() && s[i] == '#' {
        match read_hex_pair(s, i + 1) {
            Some(r) => match read_hex_pair(s, i + 3) {
                Some(g) => match read_hex_pair(s, i + 5) {
                    Some(b) => Step::Done(i + 7, CSSValue::Color(Color { r, g, b, a: None })),
                    None => Step::Error,
                },
                None => Step::Error,
            },
            None => Step::Error,
        }
    } else {
        Step::Error
    }
}

fn read_byte(s: &[char], i: usize) -> (r: Step<u8>)
    requires
        i <= s@.len(),
    ensures
        r@ == scan_byte(s@, i as int),
        ends_within(r, i as int, s@.len() as int),
{
    let t = span(s, i, CharClass::Digit);
    match from_decimal(text_between(s, i, t).as_str()) {
        Some(v) => Step::Done(t, v),
        None => Step::Error,
    }
}

fn read_comma(s: &[char], i: usize) -> (r: Option<usize>)
    requires
        i <= s@.len(),
    ensures
        match (r, scan_comma(s@, i as int)) {
            (Some(a), Some(b)) => a == b && i < a <= s@.len(),
            (None, None) => true,
            _ => false,
        },
{
    let e = span(s, i, CharClass::Space);
    if e < s.len() && s[e] == ',' {
        Some(span(s, e + 1, CharClass::Space))
    } else {
        None
    }
}

fn read_three_bytes(s: &[char], i: usize) -> (r: Step<(u8, u8, u8)>)
    requires
        i <= s@.len(),
    ensures
        r@ == scan_three_bytes(s@, i as int),
        ends_within(r, i as int, s@.len() as int),
{
    match read_byte(s, i) {
        Step::Done(d1, r) => match read_comma(s, d1) {
            Some(f1) => match read_byte(s, f1) {
                Step::Done(d2, g) => match read_comma(s, d2) {
                    Some(f2) => match read_byte(s, f2) {
                        Step::Done(d3, b) => Step::Done(d3, (r, g, b)),
                        _ => Step::Error,
                    },
                    None => Step::Error,
                },
                _ => Step::Error,
            },
            None => Step::Error,
        },
        _ => Step::Error,
    }
}

fn read_rgba_color(s: &[char], i: usize) -> (r: Step<CSSValue>)
    requires
        i <= s@.len(),
    ensures
        r@ == scan_rgba_color(s@, i as int),
        ends_within(r, i as int, s@.len() as int),
{
    let b = span(s, i, CharClass::Space);
    let word = ['r', 'g', 'b', 'a', '('];
    let found = word_at(s, b, &word);
    assert(word@ =~= seq!['r', 'g', 'b', 'a', '(']);
    if found {
        assert(b + 5 <= s@.len() && s@.len() == s.len());
        let c = span(s, b + 5, CharClass::Space);
        match read_three_bytes(s, c) {
            Step::Done(d, rgb) => match read_comma(s, d) {
                Some(f) => match scan_number_at(s, f) {
                    NumberScan::Found(n) => {
                        assert(f + n <= s@.len() && s@.len() == s.len());
                        let e = f + n;
                        if e < s.len() && s[e] == ')' {
                            let (r, g, b) = rgb;
                            let a = text_between(s, f, e);
                            Step::Done(e + 1, CSSValue::Color(Color { r, g, b, a: Some(a) }))
                        } else {
                            Step::Error
                        }
                    },
                    NumberScan::NotANumber => Step::Error,
                    NumberScan::Malformed => Step::Failure,
                },
                None => Step::Error,
            },
            _ => Step::Error,
        }
    } else {
        Step::Error
    }
}

fn read_rgb_color(s: &[char], i: usize) -> (r: Step<CSSValue>)
    requires
        i <= s@.len(),
    ensures
        r@ == scan_rgb_color(s@, i as int),
        ends_within(r, i as int, s@.len() as int),
{
    let b = span(s, i, CharClass::Space);
    let word = ['r', 'g', 'b', '('];
    let found = word_at(s, b, &word);
    assert(word@ =~= seq!['r', 'g', 'b', '(']);
    if found {
        assert(b + 4 <= s@.len() && s@.len() == s.len());
        let c = span(s, b + 4, CharClass::Space);
        match read_three_bytes(s, c) {
            Step::Done(d, rgb) => if d < s.len() && s[d] == ')' {
                let (r, g, b) = rgb;
                Step::Done(d + 1, CSSValue::Color(Color { r, g, b, a: None }))
            } else {
                Step::Error
            },
            _ => Step::Error,
        }
    } else {
        Step::Error
    }
}

/// Reads a value at `i`.
pub fn read_value(s: &[char], i: usize) -> (r: Step<CSSValue>)
    requires
        i <= s@.len(),
    ensures
        r@ == scan_value(s@, i as int),
        ends_within(r, i as int, s@.len() as int),
{
    let a = span(s, i, CharClass::Space);
    match read_hex_color(s, a) {
        Step::Done(j, v) => return Step::Done(span(s, j, CharClass::Space), v),
        Step::Failure => return Step::Failure,
        Step::Error => {},
    }
    match read_rgba_color(s, a) {
        Step::Done(j, v) => return Step::Done(span(s, j, CharClass::Space), v),
        Step::Failure => return Step::Failure,
        Step::Error => {},
    }
    match read_rgb_color(s, a) {
        Step::Done(j, v) => return Step::Done(span(s, j, CharClass::Space), v),
        Step::Failure => return Step::Failure,
        Step::Error => {},
    }
    match scan_number_at(s, a) {
        NumberScan::Found(n) => {
            assert(a + n <= s@.len() && s@.len() == s.len());
            let e = a + n;
            let px = ['p', 'x'];
            let w = ['w'];
            let is_px = word_at(s, e, &px);
            let is_world = word_at(s, e, &w);
            assert(px@ =~= seq!['p', 'x']);
            assert(w@ =~= seq!['w']);
            if is_px {
                assert(e + 2 <= s@.len());
                let v = CSSValue::Number(Number::Px(text_between(s, a, e)));
                return Step::Done(span(s, e + 2, CharClass::Space), v);
            }
            if is_world {
                assert(e + 1 <= s@.len());
                let v = CSSValue::Number(Number::World(text_between(s, a, e)));
                return Step::Done(span(s, e + 1, CharClass::Space), v);
            }
            let v = CSSValue::Number(Number::Unitless(text_between(s, a, e)));
            return Step::Done(span(s, e, CharClass::Space), v);
        },
        NumberScan::Malformed => {
            return Step::Failure;
        },
        NumberScan::NotANumber => {},
    }
    let b = span(s, a, CharClass::Space);
    let t = span(s, b, CharClass::Text);
    let end = span(s, t, CharClass::Space);
    proof {
        lemma_span_idempotent(s@, t as int, CharClass::Space);
    }
    Step::Done(end, CSSValue::String(text_between(s, b, t)))
}

/// Reads a `name: value;` pair at `i`.
pub fn read_kv(s: &[char], i: usize) -> (r: Step<(String, CSSValue)>)
    requires
        i <= s@.len(),
    ensures
        r@ == scan_kv(s@, i as int),
        r matches Step::Done(j, _) ==> i < j <= s@.len(),
{
    let a = span(s, i, CharClass::Space);
    let n = span(s, a, CharClass::Name);
    let b = span(s, n, CharClass::Space);
    if b < s.len() && s[b] == ':' {
        match read_value(s, b + 1) {
            Step::Done(c, v) => if c < s.len() && s[c] == ';' {
                Step::Done(c + 1, (text_between(s, a, n), v))
            } else {
                Step::Error
            },
            Step::Error => Step::Error,
            Step::Failure => Step::Failure,
        }
    } else {
        Step::Error
    }
}

/// Reads the key/value pairs of a rule body at `i`.
pub fn read_body(s: &[char], i: usize) -> (r: Step<TextMap<CSSValue>>)
    requires
        i <= s@.len(),
    ensures
        r@ == body_from(s@, i as int, Map::empty()),
        ends_within(r, i as int, s@.len() as int),
{
    let mut kvs: TextMap<CSSValue> = TextMap::new();
    let mut pos = i;
    loop
        invariant
            i <= pos <= s@.len(),
            body_from(s@, i as int, Map::empty()) == body_from(s@, pos as int, kvs@),
        decreases s@.len() - pos,
    {
        match read_kv(s, pos) {
            Step::Done(j, kv) => {
                let (k, v) = kv;
                kvs.insert(k, v);
                pos = j;
            },
            Step::Error => {
                return Step::Done(pos, kvs);
            },
            Step::Failure => {
                return Step::Failure;
            },
        }
    }
}

/// Reads a rule at `i`.
pub fn read_rule(s: &[char], i: usize, quoted: bool) -> (r: Step<Rule>)
    requires
        i <= s@.len(),
    ensures
        r@ == scan_rule(s@, i as int, quoted),
        r matches Step::Done(j, _) ==> i < j <= s@.len(),
{
    let a = span(s, i, CharClass::Space);
    let (b, selector) = read_selector(s, a, quoted);
    let c = span(s, b, CharClass::Space);
    if c < s.len() && s[c] == '{' {
        match read_body(s, span(s, c + 1, CharClass::Space)) {
            Step::Done(e, kvs) => {
                let f = span(s, e, CharClass::Space);
                if f < s.len() && s[f] == '}' {
                    Step::Done(span(s, f + 1, CharClass::Space), Rule { selector, kvs })
                } else {
                    Step::Error
                }
            },
            Step::Error => Step::Error,
            Step::Failure => Step::Failure,
        }
    } else {
        Step::Error
    }
}

/// The views of a list of rules.
pub open spec fn rule_views(rules: Seq<Rule>) -> Seq<RuleView> {
    rules.map_values(|r: Rule| r@)
}

/// Reads the rules of a stylesheet from its start, up to the first place
/// where no rule can be read; `None` when the text is rejected.
pub fn read_rules(s: &[char], quoted: bool) -> (r: Option<Vec<Rule>>)
    ensures
        match r {
            Some(rules) => crate::css_grammar::parse_stylesheet(s@, quoted) == Some(rule_views(rules@)),
            None => crate::css_grammar::parse_stylesheet(s@, quoted) is None,
        },
{
    let mut rules: Vec<Rule> = Vec::new();
    let mut pos: usize = 0;
    assert(rule_views(rules@) =~= Seq::<RuleView>::empty());
    loop
        invariant
            pos <= s@.len(),
            rules_from(s@, 0, quoted, Seq::empty()) == rules_from(s@, pos as int, quoted, rule_views(rules@)),
        decreases s@.len() - pos,
    {
        match read_rule(s, pos, quoted) {
            Step::Done(j, rule) => {
                let ghost before = rules@;
                rules.push(rule);
                assert(rule_views(rules@) =~= rule_views(before).push(rule@));
                pos = j;
            },
            Step::Error => {
                return Some(rules);
            },
            Step::Failure => {
                return None;
            },
        }
    }
}

} // verus!
