use sailor::comments::strip_comments;
use sailor::css::{try_parse_styles, CSSValue, Number, Rule, RulesCache, Selector};
use sailor::legacy_css;
use sailor::text_map::TextMap;

fn value<'a>(rule: &'a Rule, key: &str) -> Option<&'a CSSValue> {
    rule.kvs.get(&key.to_string())
}

fn rgb(rule: &Rule, key: &str) -> Option<(u8, u8, u8, Option<String>)> {
    match value(rule, key) {
        Some(CSSValue::Color(c)) => Some((c.r, c.g, c.b, c.a.clone())),
        _ => None,
    }
}

fn text(rule: &Rule, key: &str) -> Option<String> {
    match value(rule, key) {
        Some(CSSValue::String(s)) => Some(s.clone()),
        _ => None,
    }
}

#[test]
fn comments_are_stripped_and_parse() {
    // leading + inline comment; newlines inside comment preserve line numbers.
    let css = "/* header\nspanning */\nbackground { background-color: red; } /* trailing */";
    assert_eq!(strip_comments(css).lines().count(), css.lines().count());
    assert_eq!(try_parse_styles(css).unwrap().len(), 1);
}

#[test]
fn strip_comments_drops_the_opener_and_blanks_the_rest() {
    assert_eq!(strip_comments("a/*b*/c"), "a   c");
    assert_eq!(strip_comments("x\n/* 1\n2 */y"), "x\n  \n    y");
    assert_eq!(strip_comments("a/* b"), "a  ");
    assert_eq!(strip_comments("no comment"), "no comment");
    assert_eq!(strip_comments("a/**/b/**/c"), "a  b  c");
}

#[test]
fn strip_comments_keeps_every_newline() {
    let css = "/*\n\n*/a\n/* x */\nb /* unterminated\n\n";
    let stripped = strip_comments(css);
    assert_eq!(stripped.matches('\n').count(), css.matches('\n').count());
}

#[test]
fn strip_comments_twice_is_once() {
    let css = "a /* one */ b /* two\n */ c";
    let once = strip_comments(css);
    assert_eq!(strip_comments(&once), once);
}

#[test]
fn rule_values_of_every_kind_parse() {
    let css = "layer[name=\"water\"].big#7 { background-color: #FF0000; border-color: rgb(0, 128, 255); \
               fill: rgba(1, 2, 3, 0.5); line-width: 1.5px; size: 2w; opacity: 0.25; display: none; }";
    let rules = try_parse_styles(css).unwrap();
    assert_eq!(rules.len(), 1);
    let rule = &rules[0];
    assert_eq!(rule.selector.typ.as_deref(), Some("layer"));
    assert_eq!(rule.selector.id.as_deref(), Some("7"));
    assert_eq!(rule.selector.classes, vec!["big".to_string()]);
    assert_eq!(rule.selector.any.get(&"name".to_string()).map(|s| s.as_str()), Some("water"));
    assert_eq!(rgb(rule, "background-color"), Some((255, 0, 0, None)));
    assert_eq!(rgb(rule, "border-color"), Some((0, 128, 255, None)));
    assert_eq!(rgb(rule, "fill"), Some((1, 2, 3, Some("0.5".to_string()))));
    match value(rule, "line-width") {
        Some(CSSValue::Number(Number::Px(t))) => assert_eq!(t, "1.5"),
        _ => panic!("line-width is not a px number"),
    }
    match value(rule, "size") {
        Some(CSSValue::Number(Number::World(t))) => assert_eq!(t, "2"),
        _ => panic!("size is not a world number"),
    }
    match value(rule, "opacity") {
        Some(CSSValue::Number(Number::Unitless(t))) => assert_eq!(t, "0.25"),
        _ => panic!("opacity is not a unitless number"),
    }
    assert_eq!(text(rule, "display"), Some("none".to_string()));
}

#[test]
fn later_keys_replace_earlier_ones() {
    let rules = try_parse_styles("a { fill: red; fill: blue; }").unwrap();
    assert_eq!(rules[0].kvs.len(), 1);
    assert_eq!(text(&rules[0], "fill"), Some("blue".to_string()));
}

#[test]
fn several_rules_keep_their_order() {
    let rules = try_parse_styles("a { x: 1; }\nb { y: 2; }\n c{}").unwrap();
    let types: Vec<Option<String>> = rules.iter().map(|r| r.selector.typ.clone()).collect();
    assert_eq!(
        types,
        vec![Some("a".to_string()), Some("b".to_string()), Some("c".to_string())]
    );
}

#[test]
fn parsing_stops_at_the_first_unreadable_rule() {
    let rules = try_parse_styles("a { x: 1; } ??? b { y: 2; }").unwrap();
    assert_eq!(rules.len(), 1);
    assert_eq!(try_parse_styles("").unwrap().len(), 0);
}

#[test]
fn an_exponent_without_digits_rejects_the_stylesheet() {
    assert!(try_parse_styles("a { width: 1em; }").is_none());
    assert!(try_parse_styles("a { width: 1e5; }").is_some());
}

#[test]
fn both_dialects_read_unquoted_values() {
    let rules = legacy_css::try_parse_styles("layer[name=water] { line-width: 2px; }").unwrap();
    assert_eq!(rules.len(), 1);
    assert_eq!(rules[0].selector.any.get(&"name".to_string()).map(|s| s.as_str()), Some("water"));
    let quoted = legacy_css::try_parse_styles("layer[name=\"water\"] { line-width: 2px; }").unwrap();
    assert_eq!(quoted.len(), 0);
    let unquoted_in_new = try_parse_styles("layer[name=water] { line-width: 2px; }").unwrap();
    assert_eq!(unquoted_in_new.len(), 1);
    assert_eq!(
        unquoted_in_new[0].selector.any.get(&"name".to_string()).map(|s| s.as_str()),
        Some("water")
    );
    assert_eq!(try_parse_styles("a[k=\"v] { x: 1; }").unwrap().len(), 0);
}

#[test]
fn earlier_dialect_keeps_comments_as_text() {
    assert_eq!(legacy_css::try_parse_styles("/* c */ a { x: 1; }").unwrap().len(), 0);
    assert_eq!(try_parse_styles("/* c */ a { x: 1; }").unwrap().len(), 1);
}

#[test]
fn a_narrower_selector_matches_a_wider_one() {
    let layer = Selector::new().with_type("layer".to_string());
    let zoomed = Selector::new()
        .with_type("layer".to_string())
        .with_any("zoom".to_string(), "5".to_string());
    assert!(zoomed.matches(&layer));
    assert!(!layer.matches(&zoomed));
    assert!(layer.matches(&layer));
    assert!(layer.matches(&Selector::new()));
}

#[test]
fn selector_criteria_must_all_be_met() {
    let full = Selector::new()
        .with_type("poi".to_string())
        .with_id("3".to_string())
        .with_class("park".to_string())
        .with_class("big".to_string())
        .with_any("name".to_string(), "x".to_string());
    let wants_class = Selector::new().with_class("big".to_string());
    let wants_other_class = Selector::new().with_class("small".to_string());
    let wants_id = Selector::new().with_id("3".to_string());
    let wants_other_id = Selector::new().with_id("4".to_string());
    let wants_other_value = Selector::new().with_any("name".to_string(), "y".to_string());
    assert!(full.matches(&wants_class));
    assert!(!full.matches(&wants_other_class));
    assert!(full.matches(&wants_id));
    assert!(!full.matches(&wants_other_id));
    assert!(!full.matches(&wants_other_value));
}

#[test]
fn selector_text_lists_pairs_by_key() {
    let s = Selector::new()
        .with_type("layer".to_string())
        .with_class("big".to_string())
        .with_any("zoom".to_string(), "5".to_string())
        .with_any("name".to_string(), "water".to_string());
    assert_eq!(s.to_text(), "(layer.big[name=water][zoom=5])");
    assert_eq!(Selector::new().to_text(), "()");
    assert_eq!(Selector::new().with_id("9".to_string()).to_text(), "(9)");
}

#[test]
fn cloned_selector_is_the_same() {
    let s = Selector::new()
        .with_type("a".to_string())
        .with_any("k".to_string(), "v".to_string());
    let c = s.clone();
    assert!(c.same_as(&s));
    assert!(!c.same_as(&Selector::new()));
}

#[test]
fn text_map_keeps_keys_in_order() {
    let mut m: TextMap<u32> = TextMap::new();
    m.insert("b".to_string(), 2);
    m.insert("a".to_string(), 1);
    m.insert("c".to_string(), 3);
    m.insert("b".to_string(), 20);
    assert_eq!(m.len(), 3);
    let keys: Vec<String> = (0..m.len()).map(|i| m.entry(i).0.clone()).collect();
    assert_eq!(keys, vec!["a".to_string(), "b".to_string(), "c".to_string()]);
    assert_eq!(m.get(&"b".to_string()), Some(&20));
    m.remove(&"a".to_string());
    assert_eq!(m.get(&"a".to_string()), None);
    assert_eq!(m.len(), 2);
    m.remove(&"zzz".to_string());
    assert_eq!(m.len(), 2);
}

const STYLE: &str = "layer { fill: red; }\nlayer[zoom=\"5\"] { fill: blue; }\nwater { fill: #0000FF; }";

#[test]
fn cache_finds_matching_rules_in_order() {
    let cache = RulesCache::try_load("style.css".to_string(), STYLE.to_string()).unwrap();
    assert_eq!(cache.rules.len(), 3);
    let zoomed = Selector::new()
        .with_type("layer".to_string())
        .with_any("zoom".to_string(), "5".to_string());
    let found = cache.get_matching_rules(&zoomed);
    assert_eq!(found.len(), 2);
    assert_eq!(text(found[0], "fill"), Some("red".to_string()));
    assert_eq!(text(found[1], "fill"), Some("blue".to_string()));
    let plain = Selector::new().with_type("layer".to_string());
    assert_eq!(cache.get_matching_rules(&plain).len(), 1);
    assert_eq!(cache.get_matching_rules_mut(&zoomed), vec![0, 1]);
    assert_eq!(cache.file_path(), "style.css");
    assert_eq!(cache.buffer(), STYLE);
}

#[test]
fn cache_refuses_a_rejected_stylesheet() {
    assert!(RulesCache::try_load("s.css".to_string(), "a { w: 2em; }".to_string()).is_none());
}

#[test]
fn cache_edits_rules() {
    let mut cache = RulesCache::try_load("style.css".to_string(), STYLE.to_string()).unwrap();
    let water = Selector::new().with_type("water".to_string());
    {
        let rule = cache.try_get_rule_mut(water.clone()).unwrap();
        rule.kvs.insert("fill".to_string(), CSSValue::String("green".to_string()));
    }
    assert_eq!(text(&cache.rules[2], "fill"), Some("green".to_string()));
    assert!(cache.try_get_rule_mut(Selector::new().with_type("road".to_string())).is_none());
    let rules = try_parse_styles("road { fill: black; }").unwrap();
    for r in rules {
        cache.add_rule(r);
    }
    assert_eq!(cache.rules.len(), 4);
    cache.buffer_mut().push_str("\n");
    assert_eq!(cache.buffer().len(), STYLE.len() + 1);
}

#[test]
fn cache_update_replaces_rules_only_with_an_accepted_stylesheet() {
    let mut cache = RulesCache::try_load("style.css".to_string(), STYLE.to_string()).unwrap();
    assert!(!cache.update(None));
    assert_eq!(cache.rules.len(), 3);
    assert!(!cache.update(Some("a { w: 1em; }".to_string())));
    assert_eq!(cache.rules.len(), 3);
    assert_eq!(cache.buffer(), STYLE);
    assert!(cache.update(Some("a { w: 1; }".to_string())));
    assert_eq!(cache.rules.len(), 1);
    assert_eq!(cache.buffer(), "a { w: 1; }");
    assert_eq!(cache.file_path(), "style.css");
}

#[test]
fn default_selector_is_the_new_one() {
    let s = Selector::default();
    assert!(s.typ.is_none() && s.id.is_none() && s.classes.is_empty() && s.any.len() == 0);
    assert!(s.same_as(&Selector::new()));
}

#[test]
fn nan_and_infinity_read_as_numbers() {
    let rules = try_parse_styles("a { w: NaN; x: Infinity; y: inf; z: -1.5e-3px; v: .5; }").unwrap();
    let lit = |key: &str| match value(&rules[0], key) {
        Some(CSSValue::Number(Number::Unitless(t))) => Some(t.clone()),
        Some(CSSValue::Number(Number::Px(t))) => Some(format!("{t}px")),
        _ => None,
    };
    assert_eq!(lit("w"), Some("NaN".to_string()));
    assert_eq!(lit("x"), Some("Infinity".to_string()));
    assert_eq!(lit("y"), Some("inf".to_string()));
    assert_eq!(lit("z"), Some("-1.5e-3px".to_string()));
    assert_eq!(lit("v"), Some(".5".to_string()));
    assert_eq!(text(&rules[0], "w"), None);
}
