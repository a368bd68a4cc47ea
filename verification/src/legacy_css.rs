//! The earlier dialect of the stylesheet language, in which the values of
//! key/value selectors are written only unquoted (`[name=water]`) and
//! comments are not stripped.

use vstd::prelude::*;
use crate::comments::chars_of;
use crate::css::Rule;
use crate::css_grammar::parse_stylesheet;
use crate::css_parser::{read_rules, rule_views};

verus! {

/// Tries to parse an entire stylesheet of the earlier dialect: the rules that
/// can be read from its start, up to the first place where no rule can be
/// read; `None` when the stylesheet is rejected.
pub fn try_parse_styles(style: &str) -> (r: Option<Vec<Rule>>)
    ensures
        match r {
            Some(rules) => parse_stylesheet(style@, false) == Some(rule_views(rules@)),
            None => parse_stylesheet(style@, false) is None,
        },
{
    let s = chars_of(style);
    read_rules(s.as_slice(), false)
}

} // verus!
