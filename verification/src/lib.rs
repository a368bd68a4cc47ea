//! Sailor's map styling core: the stylesheet language (selectors, rules and
//! their parser), the rule cache, and the bookkeeping of the map application.

pub mod text_map;
pub mod css;
pub mod numbers;
pub mod css_grammar;
pub mod css_parser;
pub mod comments;
pub mod legacy_css;
pub mod css_laws;
pub mod stats;
pub mod ui_state;
pub mod app_state;
pub mod layers;
pub mod config;
pub mod legacy_config;
pub mod space;
pub mod platform;
pub mod hover;
pub mod tile_args;
pub mod interaction;
pub mod http;
pub mod rule_edit;
pub mod noise;

