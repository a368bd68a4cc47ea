//! Stylesheet values: selectors, rules and the cache of rules loaded from a
//! stylesheet.

use vstd::prelude::*;
use crate::comments::{chars_of, strip_comments, stripped};
use crate::css_grammar::parse_stylesheet;
use crate::css_parser::{read_rules, rule_views};
use crate::text_map::TextMap;

verus! {

/// What a selector stands for: the criteria it names.
pub struct SelectorView {
    pub typ: Option<Seq<char>>,
    pub id: Option<Seq<char>>,
    pub classes: Seq<Seq<char>>,
    pub any: Map<Seq<char>, Seq<char>>,
}

/// The selector that names no criteria.
pub open spec fn empty_selector() -> SelectorView {
    SelectorView { typ: None, id: None, classes: Seq::empty(), any: Map::empty() }
}

/// `s` meets every criterion that `o` names: the same type and id where `o`
/// names one, every class of `o`, and every key/value pair of `o`.
pub open spec fn selector_matches(s: SelectorView, o: SelectorView) -> bool {
    &&& (o.typ is Some ==> s.typ == o.typ)
    &&& (o.id is Some ==> s.id == o.id)
    &&& forall|k: Seq<char>| #[trigger] o.any.contains_key(k)
            ==> s.any.contains_key(k) && s.any[k] == o.any[k]
    &&& forall|i: int| 0 <= i < o.classes.len() ==> s.classes.contains(#[trigger] o.classes[i])
}

/// An optional text, or nothing.
pub open spec fn opt_text(t: Option<Seq<char>>) -> Seq<char> {
    match t {
        Some(x) => x,
        None => Seq::empty(),
    }
}

/// Each class after a `.`.
pub open spec fn classes_text(classes: Seq<Seq<char>>) -> Seq<char>
    decreases classes.len(),
{
    if classes.len() == 0 {
        Seq::empty()
    } else {
        classes_text(classes.drop_last()) + seq!['.'] + classes.last()
    }
}

/// Each of the keys `keys` with its value in `m`, as `[key=value]`.
pub open spec fn pairs_text(keys: Seq<Seq<char>>, m: Map<Seq<char>, Seq<char>>) -> Seq<char>
    decreases keys.len(),
{
    if keys.len() == 0 {
        Seq::empty()
    } else {
        pairs_text(keys.drop_last(), m) + seq!['['] + keys.last() + seq!['='] + m[keys.last()] + seq![']']
    }
}

/// How a selector is written for display: in round brackets its type, its
/// id, its classes and its key/value pairs, the keys taken in the order
/// `keys`.
pub open spec fn selector_text(s: SelectorView, keys: Seq<Seq<char>>) -> Seq<char> {
    seq!['('] + opt_text(s.typ) + opt_text(s.id) + classes_text(s.classes) + pairs_text(keys, s.any)
        + seq![')']
}

/// A single CSS selector.
pub struct Selector {
    /// The type a selector matches, e.g. `"layer"`.
    pub typ: Option<String>,
    /// The id a selector matches, e.g. `"0"`.
    pub id: Option<String>,
    /// The classes a selector matches, e.g. `["landmark", "forest"]`.
    pub classes: Vec<String>,
    /// The key/value pairs a selector matches, e.g. `name` = `water`.
    pub any: TextMap<String>,
}

impl View for Selector {
    type V = SelectorView;

    open spec fn view(&self) -> SelectorView {
        SelectorView {
            typ: self.typ.deep_view(),
            id: self.id.deep_view(),
            classes: self.classes.deep_view(),
            any: self.any@,
        }
    }
}

/// Whether `v` holds `item`.
fn contains_text(v: &Vec<String>, item: &String) -> (r: bool)
    ensures
        r == v.deep_view().contains(item@),
{
    let n = v.len();
    let mut i: usize = 0;
    while i < n
        invariant
            n == v@.len(),
            i <= n,
            forall|j: int| 0 <= j < i ==> #[trigger] v@[j]@ != item@,
        decreases n - i,
    {
        if v[i] == *item {
            assert(v.deep_view()[i as int] == item@);
            return true;
        }
        i = i + 1;
    }
    assert forall|j: int| 0 <= j < v.deep_view().len() implies v.deep_view()[j] != item@ by {
        assert(v.deep_view()[j] == v@[j]@);
    }
    false
}

/// Whether two optional texts are equal.
fn same_opt_text(a: &Option<String>, b: &Option<String>) -> (r: bool)
    ensures
        r == (a.deep_view() == b.deep_view()),
{
    match (a, b) {
        (Some(x), Some(y)) => *x == *y,
        (None, None) => true,
        _ => false,
    }
}

impl Default for Selector {
    /// The selector that names no criteria, as `Selector::new` makes it.
    fn default() -> (s: Self)
        ensures
            s@ == empty_selector(),
    {
        Selector::new()
    }
}

impl Clone for Selector {
    fn clone(&self) -> (s: Self)
        ensures
            s@ == self@,
    {
        let typ = match &self.typ {
            Some(t) => Some(t.clone()),
            None => None,
        };
        let id = match &self.id {
            Some(t) => Some(t.clone()),
            None => None,
        };
        let mut classes: Vec<String> = Vec::new();
        let n = self.classes.len();
        let mut i: usize = 0;
        while i < n
            invariant
                n == self.classes@.len(),
                i <= n,
                classes@.len() == i,
                forall|j: int| 0 <= j < i ==> (#[trigger] classes@[j])@ == self.classes@[j]@,
            decreases n - i,
        {
            classes.push(self.classes[i].clone());
            i = i + 1;
        }
        assert(classes.deep_view() =~= self.classes.deep_view());
        Selector { typ, id, classes, any: self.any.clone() }
    }
}

impl Selector {
    /// Creates a new empty selector.
    pub fn new() -> (s: Self)
        ensures
            s@ == empty_selector(),
    {
        let s = Selector { typ: None, id: None, classes: Vec::new(), any: TextMap::new() };
        assert(s.classes.deep_view() =~= Seq::<Seq<char>>::empty());
        s
    }

    /// Makes the selector require the type `typ`.
    pub fn with_type(self, typ: String) -> (s: Self)
        ensures
            s@ == (SelectorView { typ: Some(typ@), ..self@ }),
    {
        Selector { typ: Some(typ), ..self }
    }

    /// Makes the selector require the id `id`.
    pub fn with_id(self, id: String) -> (s: Self)
        ensures
            s@ == (SelectorView { id: Some(id@), ..self@ }),
    {
        Selector { id: Some(id), ..self }
    }

    /// Makes the selector require the class `class`.
    pub fn with_class(self, class: String) -> (s: Self)
        ensures
            s@ == (SelectorView { classes: self@.classes.push(class@), ..self@ }),
    {
        let mut s = self;
        let ghost before = s.classes.deep_view();
        s.classes.push(class);
        assert(s.classes.deep_view() =~= before.push(class@));
        s
    }

    /// Makes the selector require the key/value pair `key`/`value`.
    pub fn with_any(self, key: String, value: String) -> (s: Self)
        ensures
            s@ == (SelectorView { any: self@.any.insert(key@, value@), ..self@ }),
    {
        let mut s = self;
        s.any.insert(key, value);
        s
    }

    /// Checks if a subset of criteria of this selector matches all the
    /// criteria of another.
    ///
    /// E.g. `layer[zoom=5]` matches `layer`, but `layer` does not match
    /// `layer[zoom=5]`.
    pub fn matches(&self, other: &Selector) -> (r: bool)
        ensures
            r == selector_matches(self@, other@),
    {
        if let Some(t1) = &other.typ {
            if let Some(t2) = &self.typ {
                if *t1 != *t2 {
                    return false;
                }
            } else {
                return false;
            }
        }
        if let Some(i1) = &other.id {
            if let Some(i2) = &self.id {
                if *i1 != *i2 {
                    return false;
                }
            } else {
                return false;
            }
        }
        let n = other.any.len();
        let mut i: usize = 0;
        while i < n
            invariant
                n == other.any.keys().len(),
                other.any.keys().to_set() == other.any@.dom(),
                i <= n,
                forall|j: int| 0 <= j < i ==> {
                    let k = #[trigger] other.any.keys()[j];
                    self.any@.contains_key(k) && self.any@[k] == other.any@[k]
                },
            decreases n - i,
        {
            let (k, v) = other.any.entry(i);
            match self.any.get(k) {
                Some(value) => {
                    if *value != *v {
                        assert(other@.any.contains_key(k@));
                        return false;
                    }
                },
                None => {
                    assert(other@.any.contains_key(k@));
                    return false;
                },
            }
            i = i + 1;
        }
        assert forall|k: Seq<char>| #[trigger] other.any@.contains_key(k)
            implies self.any@.contains_key(k) && self.any@[k] == other.any@[k] by {
            assert(other.any.keys().to_set().contains(k));
            let j = choose|j: int| 0 <= j < other.any.keys().len() && other.any.keys()[j] == k;
            assert(other.any.keys()[j] == k);
        }
        let m = other.classes.len();
        let mut c: usize = 0;
        while c < m
            invariant
                m == other.classes@.len(),
                c <= m,
                forall|j: int| 0 <= j < c ==> self@.classes.contains(#[trigger] other@.classes[j]),
            decreases m - c,
        {
            if !contains_text(&self.classes, &other.classes[c]) {
                assert(other@.classes[c as int] == other.classes@[c as int]@);
                return false;
            }
            assert(other@.classes[c as int] == other.classes@[c as int]@);
            c = c + 1;
        }
        true
    }

    /// The selector written for display, e.g. `(layer.landmark[name=water])`:
    /// its key/value pairs come in increasing order of their keys.
    pub fn to_text(&self) -> (r: String)
        ensures
            r@ == selector_text(self@, self.any.keys()),
    {
        let open = "(";
        let dot = ".";
        let lb = "[";
        let eq = "=";
        let rb = "]";
        let close = ")";
        proof {
            reveal_strlit("(");
            reveal_strlit(".");
            reveal_strlit("[");
            reveal_strlit("=");
            reveal_strlit("]");
            reveal_strlit(")");
        }
        let mut out = open.to_owned();
        if let Some(t) = &self.typ {
            out.append(t.as_str());
        }
        if let Some(i) = &self.id {
            out.append(i.as_str());
        }
        let ghost head = out@;
        assert(head == seq!['('] + opt_text(self@.typ) + opt_text(self@.id));
        let n = self.classes.len();
        let mut c: usize = 0;
        while c < n
            invariant
                n == self.classes@.len(),
                c <= n,
                dot@ == seq!['.'],
                out@ == head + classes_text(self@.classes.take(c as int)),
            decreases n - c,
        {
            assert(self@.classes.take(c + 1).drop_last() =~= self@.classes.take(c as int));
            assert(self@.classes[c as int] == self.classes@[c as int]@);
            out.append(dot);
            out.append(self.classes[c].as_str());
            c = c + 1;
        }
        assert(self@.classes.take(n as int) =~= self@.classes);
        let ghost mid = out@;
        let m = self.any.len();
        let mut k: usize = 0;
        while k < m
            invariant
                m == self.any.keys().len(),
                k <= m,
                lb@ == seq!['['],
                eq@ == seq!['='],
                rb@ == seq![']'],
                out@ == mid + pairs_text(self.any.keys().take(k as int), self.any@),
            decreases m - k,
        {
            let (key, value) = self.any.entry(k);
            assert(self.any.keys().take(k + 1).drop_last() =~= self.any.keys().take(k as int));
            assert(self.any.keys().take(k + 1).last() == key@);
            out.append(lb);
            out.append(key.as_str());
            out.append(eq);
            out.append(value.as_str());
            out.append(rb);
            k = k + 1;
        }
        assert(self.any.keys().take(m as int) =~= self.any.keys());
        out.append(close);
        assert(out@ =~= selector_text(self@, self.any.keys()));
        out
    }

    /// Whether the two selectors name the same criteria.
    pub fn same_as(&self, other: &Selector) -> (r: bool)
        ensures
            r == (self@ == other@),
    {
        if !same_opt_text(&self.typ, &other.typ) || !same_opt_text(&self.id, &other.id) {
            return false;
        }
        let n = self.classes.len();
        if n != other.classes.len() {
            assert(self@.classes.len() != other@.classes.len());
            return false;
        }
        let mut i: usize = 0;
        while i < n
            invariant
                n == self.classes@.len(),
                n == other.classes@.len(),
                i <= n,
                forall|j: int| 0 <= j < i ==> #[trigger] self.classes@[j]@ == other.classes@[j]@,
            decreases n - i,
        {
            if self.classes[i] != other.classes[i] {
                assert(self@.classes[i as int] != other@.classes[i as int]);
                return false;
            }
            i = i + 1;
        }
        assert(self@.classes =~= other@.classes);
        let a = self.any.len();
        let b = other.any.len();
        if a != b {
            assert(self@.any.dom().len() != other@.any.dom().len());
            return false;
        }
        let mut i: usize = 0;
        while i < b
            invariant
                b == other.any.keys().len(),
                i <= b,
                other.any.keys().to_set() == other.any@.dom(),
                forall|j: int| 0 <= j < i ==> {
                    let k = #[trigger] other.any.keys()[j];
                    self.any@.contains_key(k) && other.any@.contains_key(k) && self.any@[k] == other.any@[k]
                },
            decreases b - i,
        {
            let (k, v) = other.any.entry(i);
            match self.any.get(k) {
                Some(value) => {
                    if *value != *v {
                        assert(self@.any[k@] != other@.any[k@]);
                        return false;
                    }
                },
                None => {
                    assert(!self@.any.contains_key(k@) && other@.any.contains_key(k@));
                    return false;
                },
            }
            i = i + 1;
        }
        proof {
            assert(other.any@.dom().subset_of(self.any@.dom())) by {
                assert forall|k: Seq<char>| other.any@.dom().contains(k) implies self.any@.dom().contains(k) by {
                    assert(other.any.keys().to_set().contains(k));
                    let j = choose|j: int| 0 <= j < other.any.keys().len() && other.any.keys()[j] == k;
                    assert(other.any.keys()[j] == k);
                }
            }
            vstd::set_lib::lemma_subset_equality(other.any@.dom(), self.any@.dom());
            assert forall|k: Seq<char>| #[trigger] other.any@.contains_key(k)
                implies self.any@[k] == other.any@[k] by {
                assert(other.any.keys().to_set().contains(k));
                let j = choose|j: int| 0 <= j < other.any.keys().len() && other.any.keys()[j] == k;
                assert(other.any.keys()[j] == k);
            }
            assert(self.any@ =~= other.any@);
        }
        true
    }
}

/// What a numeric value stands for: its unit and its literal as written.
pub enum NumberView {
    Px(Seq<char>),
    Unitless(Seq<char>),
    World(Seq<char>),
}

/// A numeric value: its unit and its floating point literal as written in
/// the stylesheet (e.g. `1.5` for `1.5px`).
pub enum Number {
    Px(String),
    Unitless(String),
    World(String),
}

impl View for Number {
    type V = NumberView;

    open spec fn view(&self) -> NumberView {
        match self {
            Number::Px(t) => NumberView::Px(t@),
            Number::Unitless(t) => NumberView::Unitless(t@),
            Number::World(t) => NumberView::World(t@),
        }
    }
}

/// What a color stands for.
pub struct ColorView {
    pub r: u8,
    pub g: u8,
    pub b: u8,
    pub a: Option<Seq<char>>,
}

/// An RGB color. Each channel is a byte (`0` to `255`); the opacity is the
/// literal written in an `rgba(..)` color, or `None` for a fully opaque color.
pub struct Color {
    pub r: u8,
    pub g: u8,
    pub b: u8,
    pub a: Option<String>,
}

impl View for Color {
    type V = ColorView;

    open spec fn view(&self) -> ColorView {
        ColorView { r: self.r, g: self.g, b: self.b, a: self.a.deep_view() }
    }
}

/// What a CSS value stands for.
pub enum CSSValueView {
    Text(Seq<char>),
    Color(ColorView),
    Number(NumberView),
}

/// Any type of CSS value.
pub enum CSSValue {
    /// Represents any value as a string.
    String(String),
    /// Represents a color.
    Color(Color),
    Number(Number),
}

impl View for CSSValue {
    type V = CSSValueView;

    open spec fn view(&self) -> CSSValueView {
        match self {
            CSSValue::String(t) => CSSValueView::Text(t@),
            CSSValue::Color(c) => CSSValueView::Color(c@),
            CSSValue::Number(n) => CSSValueView::Number(n@),
        }
    }
}

/// What a rule stands for.
pub struct RuleView {
    pub selector: SelectorView,
    pub kvs: Map<Seq<char>, CSSValueView>,
}

/// A single CSS rule including its selector.
pub struct Rule {
    /// The selector that the rule is intended for.
    pub selector: Selector,
    /// The key/value pairs the rule holds.
    pub kvs: TextMap<CSSValue>,
}

impl View for Rule {
    type V = RuleView;

    open spec fn view(&self) -> RuleView {
        RuleView { selector: self.selector@, kvs: self.kvs@ }
    }
}

/// Tries to parse an entire stylesheet: the rules that can be read from its
/// start once its comments are stripped, up to the first place where no rule
/// can be read; `None` when the stylesheet is rejected.
pub fn try_parse_styles(style: &str) -> (r: Option<Vec<Rule>>)
    ensures
        match r {
            Some(rules) => parse_stylesheet(stripped(style@), true) == Some(rule_views(rules@)),
            None => parse_stylesheet(stripped(style@), true) is None,
        },
{
    let text = strip_comments(style);
    let s = chars_of(text.as_str());
    read_rules(s.as_slice(), true)
}

/// The rules of `rules` whose selectors `selector` matches, in order.
pub open spec fn matching_rules(rules: Seq<RuleView>, selector: SelectorView) -> Seq<RuleView>
    decreases rules.len(),
{
    if rules.len() == 0 {
        Seq::empty()
    } else {
        let init = matching_rules(rules.drop_last(), selector);
        if selector_matches(selector, rules.last().selector) {
            init.push(rules.last())
        } else {
            init
        }
    }
}

/// Replacing one rule of a list replaces what it stands for.
pub proof fn lemma_rule_views_update()
    ensures
        forall|a: Seq<Rule>, i: int, x: Rule| 0 <= i < a.len() ==>
            #[trigger] rule_views(a.update(i, x)) == rule_views(a).update(i, x@),
{
    assert forall|a: Seq<Rule>, i: int, x: Rule| 0 <= i < a.len() implies
        #[trigger] rule_views(a.update(i, x)) == rule_views(a).update(i, x@) by {
        assert(rule_views(a.update(i, x)) =~= rule_views(a).update(i, x@));
    }
}

/// The position of the first rule of `rules` whose selector is `selector`,
/// or `rules.len()` when there is none.
pub open spec fn first_rule_with(rules: Seq<RuleView>, selector: SelectorView) -> int
    decreases rules.len(),
{
    if rules.len() == 0 {
        0
    } else if rules[0].selector == selector {
        0
    } else {
        1 + first_rule_with(rules.drop_first(), selector)
    }
}

/// The rules of a stylesheet together with the stylesheet's text and where
/// it is stored.
pub struct RulesCache {
    buffer: String,
    file_path: String,
    pub rules: Vec<Rule>,
}

impl RulesCache {
    /// The stylesheet's text.
    pub closed spec fn buffer_text(&self) -> Seq<char> {
        self.buffer@
    }

    /// Where the stylesheet is stored.
    pub closed spec fn path_text(&self) -> Seq<char> {
        self.file_path@
    }

    /// The rules, as what they stand for.
    pub closed spec fn rule_list(&self) -> Seq<RuleView> {
        rule_views(self.rules@)
    }

    /// Creates a cache from the text `buffer` of the stylesheet stored at
    /// `file_path`; `None` when the stylesheet is rejected.
    pub fn try_load(file_path: String, buffer: String) -> (r: Option<Self>)
        ensures
            match r {
                Some(cache) => {
                    &&& parse_stylesheet(stripped(buffer@), true) == Some(cache.rule_list())
                    &&& cache.buffer_text() == buffer@
                    &&& cache.path_text() == file_path@
                },
                None => parse_stylesheet(stripped(buffer@), true) is None,
            },
    {
        match try_parse_styles(buffer.as_str()) {
            Some(rules) => Some(RulesCache { buffer, file_path, rules }),
            None => None,
        }
    }

    /// Returns all rules that match a given selector, in order.
    ///
    /// E.g. `layer` does not match the `layer[zoom=5]` rule selector.
    /// On the contrary, `layer[zoom=5]` matches the `layer` rule selector.
    pub fn get_matching_rules(&self, selector: &Selector) -> (r: Vec<&Rule>)
        ensures
            r@.map_values(|x: &Rule| x@) == matching_rules(self.rule_list(), selector@),
    {
        let mut out: Vec<&Rule> = Vec::new();
        let n = self.rules.len();
        let mut i: usize = 0;
        while i < n
            invariant
                n == self.rules@.len(),
                i <= n,
                out@.map_values(|x: &Rule| x@) == matching_rules(self.rule_list().take(i as int), selector@),
            decreases n - i,
        {
            let rule = &self.rules[i];
            let ghost before = out@;
            assert(self.rule_list().take(i + 1).drop_last() =~= self.rule_list().take(i as int));
            if selector.matches(&rule.selector) {
                out.push(rule);
                assert(out@.map_values(|x: &Rule| x@) =~= before.map_values(|x: &Rule| x@).push(rule@));
            }
            i = i + 1;
        }
        assert(self.rule_list().take(n as int) =~= self.rule_list());
        out
    }

    /// The positions of all rules that match a given selector, in order, so
    /// that they can be edited through `rules`.
    pub fn get_matching_rules_mut(&self, selector: &Selector) -> (r: Vec<usize>)
        ensures
            r@.map_values(|i: usize| self.rule_list()[i as int]) == matching_rules(self.rule_list(), selector@),
            forall|k: int| 0 <= k < r@.len() ==> #[trigger] r@[k] < self.rule_list().len(),
            forall|a: int, b: int| 0 <= a < b < r@.len() ==> #[trigger] r@[a] < #[trigger] r@[b],
    {
        let mut out: Vec<usize> = Vec::new();
        let n = self.rules.len();
        let mut i: usize = 0;
        while i < n
            invariant
                n == self.rules@.len(),
                i <= n,
                out@.map_values(|j: usize| self.rule_list()[j as int]) == matching_rules(self.rule_list().take(i as int), selector@),
                forall|k: int| 0 <= k < out@.len() ==> #[trigger] out@[k] < i,
                forall|a: int, b: int| 0 <= a < b < out@.len() ==> #[trigger] out@[a] < #[trigger] out@[b],
            decreases n - i,
        {
            let ghost before = out@;
            assert(self.rule_list().take(i + 1).drop_last() =~= self.rule_list().take(i as int));
            if selector.matches(&self.rules[i].selector) {
                out.push(i);
                assert(out@.map_values(|j: usize| self.rule_list()[j as int]) =~= before.map_values(
                    |j: usize| self.rule_list()[j as int],
                ).push(self.rule_list()[i as int]));
            }
            i = i + 1;
        }
        assert(self.rule_list().take(n as int) =~= self.rule_list());
        out
    }

    /// Adds a rule after the others.
    pub fn add_rule(&mut self, rule: Rule)
        ensures
            final(self).rule_list() == old(self).rule_list().push(rule@),
            final(self).buffer_text() == old(self).buffer_text(),
            final(self).path_text() == old(self).path_text(),
    {
        let ghost r = rule@;
        self.rules.push(rule);
        assert(rule_views(self.rules@) =~= rule_views(old(self).rules@).push(r));
    }

    /// The first rule whose selector is `selector`, for editing in place.
    pub fn try_get_rule_mut(&mut self, selector: Selector) -> (r: Option<&mut Rule>)
        ensures
            ({
                let i = first_rule_with(old(self).rule_list(), selector@);
                match r {
                    Some(rule) => {
                        &&& 0 <= i < old(self).rule_list().len()
                        &&& rule@ == old(self).rule_list()[i]
                        &&& final(self).rule_list() == old(self).rule_list().update(i, final(rule)@)
                    },
                    None => {
                        &&& i == old(self).rule_list().len()
                        &&& final(self).rule_list() == old(self).rule_list()
                    },
                }
            }),
            final(self).buffer_text() == old(self).buffer_text(),
            final(self).path_text() == old(self).path_text(),
    {
        let i = self.position_of(&selector);
        if i < self.rules.len() {
            proof {
                lemma_rule_views_update();
            }
            Some(&mut self.rules[i])
        } else {
            None
        }
    }

    /// The position of the first rule whose selector is `selector`, or the
    /// number of rules when there is none.
    fn position_of(&self, selector: &Selector) -> (i: usize)
        ensures
            i == first_rule_with(self.rule_list(), selector@),
            i <= self.rules@.len(),
    {
        let n = self.rules.len();
        let mut i: usize = 0;
        assert(rule_views(self.rules@).skip(0) =~= rule_views(self.rules@));
        while i < n
            invariant
                n == self.rules@.len(),
                i <= n,
                first_rule_with(rule_views(self.rules@), selector@) == i + first_rule_with(
                    rule_views(self.rules@).skip(i as int),
                    selector@,
                ),
            decreases n - i,
        {
            let ghost rest = rule_views(self.rules@).skip(i as int);
            assert(rest.drop_first() =~= rule_views(self.rules@).skip(i + 1));
            if self.rules[i].selector.same_as(selector) {
                return i;
            }
            i = i + 1;
        }
        assert(rule_views(self.rules@).skip(n as int).len() == 0);
        n
    }

    /// Reloads the stylesheet from `reloaded`, the text read after a change
    /// was reported (`None` when nothing changed). The rules and text are
    /// replaced only when the new text is a stylesheet that is not rejected.
    ///
    /// Returns whether a successful update happened.
    pub fn update(&mut self, reloaded: Option<String>) -> (updated: bool)
        ensures
            final(self).path_text() == old(self).path_text(),
            match reloaded {
                None => !updated && *final(self) == *old(self),
                Some(text) => match parse_stylesheet(stripped(text@), true) {
                    Some(rules) => {
                        &&& updated
                        &&& final(self).rule_list() == rules
                        &&& final(self).buffer_text() == text@
                    },
                    None => !updated && *final(self) == *old(self),
                },
            },
    {
        match reloaded {
            None => false,
            Some(buffer) => match try_parse_styles(buffer.as_str()) {
                Some(rules) => {
                    self.buffer = buffer;
                    self.rules = rules;
                    true
                },
                None => false,
            },
        }
    }

    /// The stylesheet's text.
    pub fn buffer(&self) -> (r: &String)
        ensures
            r@ == self.buffer_text(),
    {
        &self.buffer
    }

    /// Where the stylesheet is stored.
    pub fn file_path(&self) -> (r: &String)
        ensures
            r@ == self.path_text(),
    {
        &self.file_path
    }

    /// The stylesheet's text, for editing in place.
    pub fn buffer_mut(&mut self) -> (r: &mut String)
        ensures
            r@ == old(self).buffer_text(),
            final(self).buffer_text() == final(r)@,
            final(self).path_text() == old(self).path_text(),
            final(self).rule_list() == old(self).rule_list(),
    {
        &mut self.buffer
    }
}

} // verus!
