//! What the cursor is over: the borrowed views handed to the hover tooltip,
//! and the legend color of a hovered feature.

use vstd::prelude::*;
use crate::css::{
    CSSValue, CSSValueView, Rule, RuleView, RulesCache, Selector, SelectorView, matching_rules,
};
use crate::numbers::{decimal, decimal_text};

verus! {

/// A single key/value tag, borrowed for read-only render access.
pub struct Tag<'a> {
    pub name: &'a str,
    pub value: &'a str,
}

/// One feature under the cursor, all borrowed. `layer` is the tile layer name
/// (the tooltip heading, e.g. "poi"), `class` its class (e.g. "parking"),
/// `color` its styled fill (for the legend dot).
pub struct HoverItem<'a> {
    pub layer: Option<&'a str>,
    pub class: Option<&'a str>,
    pub title: Option<&'a str>,
    pub color: Option<[u8; 3]>,
    pub tags: &'a [Tag<'a>],
}

/// `selector` narrowed to the zoom level `zoom_level`.
pub open spec fn at_zoom(selector: SelectorView, zoom_level: u32) -> SelectorView {
    SelectorView { any: selector.any.insert("zoom"@, decimal(zoom_level as nat)), ..selector }
}

/// The `background-color` value of the last rule of `rules` that sets one.
pub open spec fn last_background(rules: Seq<RuleView>) -> Option<CSSValueView>
    decreases rules.len(),
{
    if rules.len() == 0 {
        None
    } else if rules.last().kvs.contains_key("background-color"@) {
        Some(rules.last().kvs["background-color"@])
    } else {
        last_background(rules.drop_last())
    }
}

/// The styled fill color (bytes of red, green and blue) of the features that
/// `selector` names at the zoom level `zoom_level` (the whole part of the
/// map's zoom): the `background-color` of the last matching rule that sets
/// one, when that value is a color.
pub fn layer_color(css: &RulesCache, selector: &Selector, zoom_level: u32) -> (r: Option<[u8; 3]>)
    ensures
        match last_background(matching_rules(css.rule_list(), at_zoom(selector@, zoom_level))) {
            Some(CSSValueView::Color(c)) => r matches Some(rgb) && rgb@ == seq![c.r, c.g, c.b],
            _ => r is None,
        },
{
    let zoom_key = "zoom".to_owned();
    let sel = selector.clone().with_any(zoom_key, decimal_text(zoom_level as u64));
    assert(sel@ == at_zoom(selector@, zoom_level));
    let rules = css.get_matching_rules(&sel);
    let ghost views = rules@.map_values(|x: &Rule| x@);
    let key = "background-color".to_owned();
    let mut i: usize = rules.len();
    assert(views.take(i as int) =~= views);
    while i > 0
        invariant
            i <= rules@.len(),
            views == rules@.map_values(|x: &Rule| x@),
            views == matching_rules(css.rule_list(), at_zoom(selector@, zoom_level)),
            key@ == "background-color"@,
            last_background(views) == last_background(views.take(i as int)),
        decreases i,
    {
        assert(views.take(i as int).drop_last() =~= views.take(i - 1));
        let rule = rules[i - 1];
        assert(views.take(i as int).last() == rule@);
        match rule.kvs.get(&key) {
            Some(value) => {
                assert(last_background(views.take(i as int)) == Some(value@));
                let r = match value {
                    CSSValue::Color(c) => {
                        let rgb = [c.r, c.g, c.b];
                        assert(rgb@ =~= seq![c.r, c.g, c.b]);
                        Some(rgb)
                    },
                    _ => None,
                };
                return r;
            },
            None => {},
        }
        i = i - 1;
    }
    None
}

/// A feature under the cursor, as far as the tooltip reads it: its selector,
/// its tags in order, and its title.
pub struct HoveredFeature {
    pub selector: Selector,
    pub tags: Vec<(String, String)>,
    pub title: Option<String>,
}

/// One tooltip entry before its tags are borrowed: its tags are the entries
/// `start..end` of the tag list built alongside.
pub struct HoverHead<'a> {
    pub layer: Option<&'a str>,
    pub class: Option<&'a str>,
    pub title: Option<&'a str>,
    pub color: Option<[u8; 3]>,
    pub start: usize,
    pub end: usize,
}

/// What a tooltip entry stands for.
pub struct HoverHeadView {
    pub layer: Option<Seq<char>>,
    pub class: Option<Seq<char>>,
    pub title: Option<Seq<char>>,
    pub color: Option<Seq<u8>>,
    pub start: int,
    pub end: int,
}

/// An optional borrowed text, as text.
pub open spec fn opt_str(o: Option<&str>) -> Option<Seq<char>> {
    match o {
        Some(t) => Some(t@),
        None => None,
    }
}

/// An optional owned text, as text.
pub open spec fn opt_string(o: Option<String>) -> Option<Seq<char>> {
    match o {
        Some(t) => Some(t@),
        None => None,
    }
}

/// An optional color, as its bytes.
pub open spec fn opt_rgb(o: Option<[u8; 3]>) -> Option<Seq<u8>> {
    match o {
        Some(c) => Some(c@),
        None => None,
    }
}

/// What a tooltip entry holds.
pub open spec fn head_view(h: HoverHead) -> HoverHeadView {
    HoverHeadView {
        layer: opt_str(h.layer),
        class: opt_str(h.class),
        title: opt_str(h.title),
        color: opt_rgb(h.color),
        start: h.start as int,
        end: h.end as int,
    }
}

/// The tags, as name/value texts.
pub open spec fn tag_views(tags: Seq<Tag>) -> Seq<(Seq<char>, Seq<char>)> {
    tags.map_values(|t: Tag| (t.name@, t.value@))
}

/// The tags of a feature, as name/value texts.
pub open spec fn feature_tags(f: HoveredFeature) -> Seq<(Seq<char>, Seq<char>)> {
    f.tags@.map_values(|t: (String, String)| (t.0@, t.1@))
}

/// The legend color of the features that `selector` names at `zoom_level`,
/// as `layer_color` finds it.
pub open spec fn legend_color(rules: Seq<RuleView>, selector: SelectorView, zoom_level: u32) -> Option<Seq<u8>> {
    match last_background(matching_rules(rules, at_zoom(selector, zoom_level))) {
        Some(CSSValueView::Color(c)) => Some(seq![c.r, c.g, c.b]),
        _ => None,
    }
}

/// The background pseudo-feature, which carries nothing worth showing.
pub open spec fn is_background(f: HoveredFeature) -> bool {
    f.selector@.typ == Some(seq!['b', 'a', 'c', 'k', 'g', 'r', 'o', 'u', 'n', 'd'])
}

/// The tooltip entry of `f` whose tags start at `start`: its tile layer (the
/// selector's `name`), its first class, its title and its legend color.
pub open spec fn head_of(f: HoveredFeature, rules: Seq<RuleView>, zoom_level: u32, start: int) -> HoverHeadView {
    HoverHeadView {
        layer: if f.selector@.any.contains_key(seq!['n', 'a', 'm', 'e']) {
            Some(f.selector@.any[seq!['n', 'a', 'm', 'e']])
        } else {
            None
        },
        class: if f.selector@.classes.len() > 0 { Some(f.selector@.classes[0]) } else { None },
        title: opt_string(f.title),
        color: legend_color(rules, f.selector@, zoom_level),
        start,
        end: start + f.tags@.len(),
    }
}

/// The tags of all the features but the background, laid out one feature
/// after the other, and an entry per such feature that says where its tags
/// lie.
pub open spec fn hover_layout(fs: Seq<HoveredFeature>, rules: Seq<RuleView>, zoom_level: u32) -> (
    Seq<(Seq<char>, Seq<char>)>,
    Seq<HoverHeadView>,
)
    decreases fs.len(),
{
    if fs.len() == 0 {
        (Seq::empty(), Seq::empty())
    } else {
        let (tags, heads) = hover_layout(fs.drop_last(), rules, zoom_level);
        let f = fs.last();
        if is_background(f) {
            (tags, heads)
        } else {
            (tags + feature_tags(f), heads.push(head_of(f, rules, zoom_level, tags.len() as int)))
        }
    }
}

/// Lays out the tooltip of the features under the cursor: the tags of all
/// features but the background, borrowed and laid out one feature after the
/// other, and per such feature its tile layer, first class, title, legend
/// color at `zoom_level`, and where its tags lie. No entry means nothing
/// worth a tooltip is hovered.
pub fn hover_heads<'a>(features: &'a [HoveredFeature], css: &RulesCache, zoom_level: u32) -> (r: (
    Vec<Tag<'a>>,
    Vec<HoverHead<'a>>,
))
    ensures
        (tag_views(r.0@), r.1@.map_values(|h: HoverHead| head_view(h))) == hover_layout(
            features@,
            css.rule_list(),
            zoom_level,
        ),
{
    let background = "background".to_owned();
    let name_key = "name".to_owned();
    proof {
        reveal_strlit("background");
        reveal_strlit("name");
    }
    assert(background@ =~= seq!['b', 'a', 'c', 'k', 'g', 'r', 'o', 'u', 'n', 'd']);
    assert(name_key@ =~= seq!['n', 'a', 'm', 'e']);
    let mut tags: Vec<Tag<'a>> = Vec::new();
    let mut heads: Vec<HoverHead<'a>> = Vec::new();
    let n = features.len();
    let mut i: usize = 0;
    while i < n
        invariant
            n == features@.len(),
            i <= n,
            background@ == seq!['b', 'a', 'c', 'k', 'g', 'r', 'o', 'u', 'n', 'd'],
            name_key@ == seq!['n', 'a', 'm', 'e'],
            (tag_views(tags@), heads@.map_values(|h: HoverHead| head_view(h))) == hover_layout(
                features@.take(i as int),
                css.rule_list(),
                zoom_level,
            ),
        decreases n - i,
    {
        let f = &features[i];
        assert(features@.take(i + 1).drop_last() =~= features@.take(i as int));
        assert(features@.take(i + 1).last() == *f);
        let is_bg = match &f.selector.typ {
            Some(t) => *t == background,
            None => false,
        };
        if !is_bg {
            let ghost tags0 = tags@;
            let ghost heads0 = heads@;
            let start = tags.len();
            let m = f.tags.len();
            let mut k: usize = 0;
            while k < m
                invariant
                    m == f.tags@.len(),
                    k <= m,
                    tag_views(tags@) == tag_views(tags0) + feature_tags(*f).take(k as int),
                decreases m - k,
            {
                let (key, value) = &f.tags[k];
                let ghost before = tags@;
                tags.push(Tag { name: key.as_str(), value: value.as_str() });
                assert(tag_views(tags@) =~= tag_views(before).push((key@, value@)));
                assert(feature_tags(*f).take(k + 1) =~= feature_tags(*f).take(k as int).push((key@, value@)));
                assert(tag_views(tags0) + feature_tags(*f).take(k + 1) =~= (tag_views(tags0) + feature_tags(
                    *f,
                ).take(k as int)).push((key@, value@)));
                k = k + 1;
            }
            assert(feature_tags(*f).take(m as int) =~= feature_tags(*f));
            let layer = match f.selector.any.get(&name_key) {
                Some(v) => Some(v.as_str()),
                None => None,
            };
            let class = if f.selector.classes.len() > 0 {
                Some(f.selector.classes[0].as_str())
            } else {
                None
            };
            let title = match &f.title {
                Some(t) => Some(t.as_str()),
                None => None,
            };
            let color = layer_color(css, &f.selector, zoom_level);
            let head = HoverHead { layer, class, title, color, start, end: tags.len() };
            assert(f.selector@.classes.len() > 0 ==> f.selector@.classes[0] == f.selector.classes@[0]@);
            assert(head_view(head) == head_of(*f, css.rule_list(), zoom_level, tag_views(tags0).len() as int));
            heads.push(head);
            assert(heads@.map_values(|h: HoverHead| head_view(h)) =~= heads0.map_values(
                |h: HoverHead| head_view(h),
            ).push(head_view(head)));
        } else {
            assert(is_background(*f));
        }
        i = i + 1;
    }
    assert(features@.take(n as int) =~= features@);
    (tags, heads)
}

} // verus!
