//! Reading and editing the properties of a rule in the inspector: whether
//! the rule shows its features, the color a color picker starts from, and
//! the pixel value a slider starts from.

use vstd::prelude::*;
use crate::css::{CSSValue, CSSValueView, Color, ColorView, Number, NumberView, Rule, RuleView};

verus! {

/// The text `display`.
pub open spec fn display_key() -> Seq<char> {
    seq!['d', 'i', 's', 'p', 'l', 'a', 'y']
}

/// The text `none`.
pub open spec fn none_text() -> Seq<char> {
    seq!['n', 'o', 'n', 'e']
}

/// The rule shows its features unless its `display` is the text `none`.
pub open spec fn displayed(r: RuleView) -> bool {
    !(r.kvs.contains_key(display_key()) && r.kvs[display_key()] == CSSValueView::Text(none_text()))
}

/// Whether the rule shows its features.
pub fn is_displayed(rule: &Rule) -> (r: bool)
    ensures
        r == displayed(rule@),
{
    let key = "display".to_owned();
    let none = "none".to_owned();
    proof {
        reveal_strlit("display");
        reveal_strlit("none");
        assert(key@ =~= display_key());
        assert(none@ =~= none_text());
    }
    match rule.kvs.get(&key) {
        Some(CSSValue::String(value)) => *value != none,
        _ => true,
    }
}

/// The rule `r` made to show its features (its `display` dropped) or to
/// hide them (its `display` set to `none`).
pub open spec fn with_display(r: RuleView, shown: bool) -> RuleView {
    RuleView {
        kvs: if shown {
            r.kvs.remove(display_key())
        } else {
            r.kvs.insert(display_key(), CSSValueView::Text(none_text()))
        },
        ..r
    }
}

/// Whether a rule shows its features is what was last set, and setting it
/// touches no other property.
pub proof fn lemma_display_set_then_read(r: RuleView, shown: bool)
    ensures
        displayed(with_display(r, shown)) == shown,
        forall|k: Seq<char>| k != display_key() ==> (#[trigger] with_display(r, shown).kvs.contains_key(k)
            == r.kvs.contains_key(k) && with_display(r, shown).kvs[k] == r.kvs[k]),
{
}

/// Makes the rule show its features (dropping its `display`) or hide them
/// (setting its `display` to `none`).
pub fn set_displayed(rule: &mut Rule, shown: bool)
    ensures
        final(rule)@ == with_display(old(rule)@, shown),
{
    let key = "display".to_owned();
    proof {
        reveal_strlit("display");
        reveal_strlit("none");
        assert(key@ =~= display_key());
    }
    if shown {
        rule.kvs.remove(&key);
    } else {
        let none = "none".to_owned();
        assert(none@ =~= none_text());
        rule.kvs.insert(key, CSSValue::String(none));
    }
}

/// The fully transparent color.
pub open spec fn transparent() -> ColorView {
    ColorView { r: 0, g: 0, b: 0, a: Some(seq!['0']) }
}

/// The color named `name`: `red`, `green`, `blue`, `black` or `white`, and
/// transparent for any other name.
pub open spec fn named_color(name: Seq<char>) -> ColorView {
    if name == seq!['r', 'e', 'd'] {
        ColorView { r: 255, g: 0, b: 0, a: None }
    } else if name == seq!['g', 'r', 'e', 'e', 'n'] {
        ColorView { r: 0, g: 255, b: 0, a: None }
    } else if name == seq!['b', 'l', 'u', 'e'] {
        ColorView { r: 0, g: 0, b: 255, a: None }
    } else if name == seq!['b', 'l', 'a', 'c', 'k'] {
        ColorView { r: 0, g: 0, b: 0, a: None }
    } else if name == seq!['w', 'h', 'i', 't', 'e'] {
        ColorView { r: 255, g: 255, b: 255, a: None }
    } else {
        transparent()
    }
}

/// The color that a color picker for `attribute` starts from: the rule's
/// color, the color its text names, or transparent when the rule sets no
/// color there.
pub open spec fn picker_start(r: RuleView, attribute: Seq<char>) -> ColorView {
    if r.kvs.contains_key(attribute) {
        match r.kvs[attribute] {
            CSSValueView::Color(c) => c,
            CSSValueView::Text(t) => named_color(t),
            CSSValueView::Number(_) => transparent(),
        }
    } else {
        transparent()
    }
}

/// A color picker starts from the rule's own color; where the rule names a
/// color by text it starts from that pure color, opaque (red, green, blue,
/// black, white); for any other text, a number or no value it starts fully
/// transparent.
pub proof fn lemma_picker_start_colors(r: RuleView, attribute: Seq<char>)
    ensures
        ({
            let named = |n: Seq<char>|
                r.kvs.contains_key(attribute) && r.kvs[attribute] == CSSValueView::Text(n);
            &&& named(seq!['r', 'e', 'd']) ==> picker_start(r, attribute) == ColorView {
                r: 255,
                g: 0,
                b: 0,
                a: None,
            }
            &&& named(seq!['g', 'r', 'e', 'e', 'n']) ==> picker_start(r, attribute) == ColorView {
                r: 0,
                g: 255,
                b: 0,
                a: None,
            }
            &&& named(seq!['b', 'l', 'u', 'e']) ==> picker_start(r, attribute) == ColorView {
                r: 0,
                g: 0,
                b: 255,
                a: None,
            }
            &&& named(seq!['b', 'l', 'a', 'c', 'k']) ==> picker_start(r, attribute) == ColorView {
                r: 0,
                g: 0,
                b: 0,
                a: None,
            }
            &&& named(seq!['w', 'h', 'i', 't', 'e']) ==> picker_start(r, attribute) == ColorView {
                r: 255,
                g: 255,
                b: 255,
                a: None,
            }
        }),
        r.kvs.contains_key(attribute) && r.kvs[attribute] is Text && ({
            let n = r.kvs[attribute]->Text_0;
            n != seq!['r', 'e', 'd'] && n != seq!['g', 'r', 'e', 'e', 'n'] && n != seq!['b', 'l', 'u', 'e']
                && n != seq!['b', 'l', 'a', 'c', 'k'] && n != seq!['w', 'h', 'i', 't', 'e']
        }) ==> picker_start(r, attribute) == (ColorView { r: 0, g: 0, b: 0, a: Some(seq!['0']) }),
        r.kvs.contains_key(attribute) && r.kvs[attribute] is Color
            ==> picker_start(r, attribute) == r.kvs[attribute]->Color_0,
        !r.kvs.contains_key(attribute) || r.kvs[attribute] is Number
            ==> picker_start(r, attribute) == (ColorView { r: 0, g: 0, b: 0, a: Some(seq!['0']) }),
{
}

fn transparent_color() -> (c: Color)
    ensures
        c@ == transparent(),
{
    let zero = "0".to_owned();
    proof {
        reveal_strlit("0");
    }
    assert(zero@ =~= seq!['0']);
    Color { r: 0, g: 0, b: 0, a: Some(zero) }
}

fn color_named(name: &String) -> (c: Color)
    ensures
        c@ == named_color(name@),
{
    let red = "red".to_owned();
    let green = "green".to_owned();
    let blue = "blue".to_owned();
    let black = "black".to_owned();
    let white = "white".to_owned();
    proof {
        reveal_strlit("red");
        reveal_strlit("green");
        reveal_strlit("blue");
        reveal_strlit("black");
        reveal_strlit("white");
    }
    assert(red@ =~= seq!['r', 'e', 'd']);
    assert(green@ =~= seq!['g', 'r', 'e', 'e', 'n']);
    assert(blue@ =~= seq!['b', 'l', 'u', 'e']);
    assert(black@ =~= seq!['b', 'l', 'a', 'c', 'k']);
    assert(white@ =~= seq!['w', 'h', 'i', 't', 'e']);
    if *name == red {
        Color { r: 255, g: 0, b: 0, a: None }
    } else if *name == green {
        Color { r: 0, g: 255, b: 0, a: None }
    } else if *name == blue {
        Color { r: 0, g: 0, b: 255, a: None }
    } else if *name == black {
        Color { r: 0, g: 0, b: 0, a: None }
    } else if *name == white {
        Color { r: 255, g: 255, b: 255, a: None }
    } else {
        transparent_color()
    }
}

/// The color that a color picker for `attribute` of `rule` starts from.
pub fn picker_color(rule: &Rule, attribute: &String) -> (c: Color)
    ensures
        c@ == picker_start(rule@, attribute@),
{
    match rule.kvs.get(attribute) {
        Some(CSSValue::Color(c)) => {
            let a = match &c.a {
                Some(t) => Some(t.clone()),
                None => None,
            };
            Color { r: c.r, g: c.g, b: c.b, a }
        },
        Some(CSSValue::String(t)) => color_named(t),
        _ => transparent_color(),
    }
}

/// The literal of the pixel value set for `attribute`, if the rule sets one
/// there; a slider starts from zero otherwise.
pub fn px_literal(rule: &Rule, attribute: &String) -> (r: Option<String>)
    ensures
        match r {
            Some(t) => rule@.kvs.contains_key(attribute@)
                && rule@.kvs[attribute@] == CSSValueView::Number(NumberView::Px(t@)),
            None => !(rule@.kvs.contains_key(attribute@)
                && rule@.kvs[attribute@] is Number
                && rule@.kvs[attribute@]->Number_0 is Px),
        },
{
    match rule.kvs.get(attribute) {
        Some(CSSValue::Number(Number::Px(t))) => Some(t.clone()),
        _ => None,
    }
}

} // verus!
