use sailor::app_state::{AppState, EditableObject, TileId};
use sailor::css::{try_parse_styles, RulesCache, Selector};
use sailor::hover::{hover_heads, layer_color, HoveredFeature};
use sailor::http::{range_delivered, range_header};
use sailor::interaction::{Interaction, KeyPress, WindowAction, WindowInput};
use sailor::layers::{shown_names, Layer, LayerStack, TemperatureLayer};
use sailor::noise::hash24_of;
use sailor::numbers::{from_decimal, from_hex, u32_from_decimal};
use sailor::rule_edit::{is_displayed, picker_color, px_literal, set_displayed};
use sailor::tile_args::{parse_tile_arg, tiles_from_args};
use sailor::ui_state::{FpsGraph, LocationFinderState, LocationFinderWindow, UIState};

struct Dummy {
    name: &'static str,
    visible: bool,
}

impl Layer for Dummy {
    fn name(&self) -> &str {
        self.name
    }

    fn visible(&self) -> bool {
        self.visible
    }
}

#[test]
fn paints_visible_layers_in_push_order() {
    let mut stack = LayerStack::new();
    stack.push(Box::new(Dummy {
        name: "map",
        visible: true,
    }));
    stack.push(Box::new(Dummy {
        name: "wind",
        visible: false,
    }));
    stack.push(Box::new(Dummy {
        name: "temperature",
        visible: true,
    }));
    assert_eq!(stack.names_in_paint_order(), vec!["map", "temperature"]);
}

#[test]
fn shown_names_keep_the_shown_layers_in_order() {
    let answers = [("map", true), ("wind", false), ("legend", true), ("hover", true)];
    assert_eq!(shown_names(&answers), vec!["map", "legend", "hover"]);
    assert!(shown_names(&[]).is_empty());
}

#[test]
fn a_fresh_temperature_layer_is_hidden() {
    let mut stack = LayerStack::new();
    stack.push(Box::new(TemperatureLayer::default()));
    assert_eq!(stack.layers().len(), 1);
    assert_eq!(stack.layers()[0].name(), "temperature");
    assert!(stack.names_in_paint_order().is_empty());
}

fn cache(style: &str) -> RulesCache {
    RulesCache::try_load("style.css".to_string(), style.to_string()).unwrap()
}

fn app() -> AppState<u32> {
    AppState::new(cache("a { fill: red; }"))
}

#[test]
fn tiles_leave_the_view_when_outside_their_field() {
    let mut state = app();
    state.add_visible_tile(TileId::new(2, 0, 0));
    state.add_visible_tile(TileId::new(1, 0, 0));
    state.add_visible_tile(TileId::new(2, 5, 5));
    state.add_visible_tile(TileId::new(2, 0, 0));
    assert_eq!(state.visible_tiles().len(), 3);
    state.prune_visible_tiles(&[TileId::new(2, 0, 0)], &[TileId::new(1, 0, 0)], 1);
    assert_eq!(state.visible_tiles(), &[TileId::new(2, 0, 0), TileId::new(1, 0, 0)]);
    state.prune_visible_tiles(&[TileId::new(2, 0, 0)], &[], 1);
    assert_eq!(state.visible_tiles(), &[TileId::new(2, 0, 0)]);
}

#[test]
fn parent_tile_goes_once_all_four_children_are_in() {
    let mut state = app();
    state.add_visible_tile(TileId::new(1, 0, 0));
    let field = [
        TileId::new(2, 0, 0),
        TileId::new(2, 1, 0),
        TileId::new(2, 1, 1),
        TileId::new(2, 0, 1),
    ];
    state.admit_tile(TileId::new(2, 0, 0), &field);
    assert_eq!(state.visible_tiles(), &[TileId::new(1, 0, 0), TileId::new(2, 0, 0)]);
    state.admit_tile(TileId::new(2, 1, 0), &field);
    state.admit_tile(TileId::new(2, 1, 1), &field);
    assert_eq!(state.visible_tiles().len(), 4);
    state.admit_tile(TileId::new(2, 0, 1), &field);
    assert_eq!(
        state.visible_tiles(),
        &[
            TileId::new(2, 0, 1),
            TileId::new(2, 0, 0),
            TileId::new(2, 1, 0),
            TileId::new(2, 1, 1)
        ]
    );
}

#[test]
fn siblings_outside_the_field_count_as_in() {
    let mut state = app();
    state.add_visible_tile(TileId::new(1, 0, 0));
    state.admit_tile(TileId::new(2, 1, 1), &[TileId::new(2, 1, 1)]);
    assert_eq!(state.visible_tiles(), &[TileId::new(2, 1, 1)]);
}

#[test]
fn admitted_tile_replaces_its_children() {
    let mut state = app();
    state.add_visible_tile(TileId::new(3, 2, 2));
    state.add_visible_tile(TileId::new(3, 3, 3));
    state.add_visible_tile(TileId::new(3, 9, 9));
    state.admit_tile(TileId::new(2, 1, 1), &[TileId::new(2, 1, 1), TileId::new(2, 0, 0)]);
    assert_eq!(state.visible_tiles(), &[TileId::new(2, 1, 1), TileId::new(3, 9, 9)]);
    state.remove_visible_tile(&TileId::new(3, 9, 9));
    assert_eq!(state.visible_tiles(), &[TileId::new(2, 1, 1)]);
}

#[test]
fn selection_cycles_through_the_hovered_objects() {
    let mut state = app();
    let t = TileId::new(1, 1, 1);
    state.update_selected_from_hover_objects(vec![
        (EditableObject::new(t, 10), "(a)".to_string()),
        (EditableObject::new(t, 20), "(b)".to_string()),
        (EditableObject::new(t, 30), "(c)".to_string()),
    ]);
    assert_eq!(state.selected_index(), 0);
    assert_eq!(state.selected_object_labels(), &["(a) •", "(b)", "(c)"]);
    assert_eq!(state.selected_object().map(|o| o.object), Some(10));
    state.advance_selected_object();
    assert_eq!(state.selected_object_labels(), &["(a)", "(b) •", "(c)"]);
    state.advance_selected_object();
    state.advance_selected_object();
    assert_eq!(state.selected_object_labels(), &["(a) •", "(b)", "(c)"]);
    state.select_object(2);
    assert_eq!(state.selected_object().map(|o| o.object), Some(30));
    assert_eq!(state.selected_objects().len(), 3);
    state.select_object(7);
    assert!(state.selected_object().is_none());
    assert_eq!(state.selected_object_labels(), &["(a)", "(b)", "(c)"]);
}

#[test]
fn legend_color_is_the_last_matching_background() {
    let css = cache(
        "water { background-color: rgb(1, 2, 3); }\n\
         water[zoom=\"5\"] { background-color: #102030; }\n\
         park { background-color: red; }",
    );
    let water = Selector::new().with_type("water".to_string());
    assert_eq!(layer_color(&css, &water, 5), Some([16, 32, 48]));
    assert_eq!(layer_color(&css, &water, 6), Some([1, 2, 3]));
    let park = Selector::new().with_type("park".to_string());
    assert_eq!(layer_color(&css, &park, 5), None);
    let road = Selector::new().with_type("road".to_string());
    assert_eq!(layer_color(&css, &road, 5), None);
}

#[test]
fn tile_arguments_name_zoom_x_and_y() {
    assert_eq!(parse_tile_arg("14/8580/5738"), Some(TileId::new(14, 8580, 5738)));
    assert_eq!(parse_tile_arg("1/2"), None);
    assert_eq!(parse_tile_arg("1/x/2/3"), Some(TileId::new(1, 2, 3)));
    assert_eq!(parse_tile_arg("1//2/3"), Some(TileId::new(1, 2, 3)));
    assert_eq!(parse_tile_arg("+1/2/3"), Some(TileId::new(1, 2, 3)));
    assert_eq!(parse_tile_arg("a/b/c"), None);
    assert_eq!(parse_tile_arg("4294967296/1/1"), None);
    assert_eq!(parse_tile_arg(""), None);
    let args = vec!["1/2/3".to_string(), "bad".to_string(), "4/5/6".to_string()];
    assert_eq!(tiles_from_args(&args), vec![TileId::new(1, 2, 3), TileId::new(4, 5, 6)]);
}

#[test]
fn a_click_selects_and_a_drag_pans() {
    let mut s = Interaction::new();
    assert!(s.on_input(WindowInput::LeftPressed, false) == WindowAction::Nothing);
    assert!(
        s.on_input(WindowInput::CursorMoved { beyond_drag_threshold: false }, false)
            == WindowAction::Track { pan: false }
    );
    assert!(s.on_input(WindowInput::LeftReleased, false) == WindowAction::SelectHovered);

    assert!(s.on_input(WindowInput::LeftPressed, false) == WindowAction::Nothing);
    assert!(
        s.on_input(WindowInput::CursorMoved { beyond_drag_threshold: true }, false)
            == WindowAction::Track { pan: true }
    );
    assert!(
        s.on_input(WindowInput::CursorMoved { beyond_drag_threshold: false }, false)
            == WindowAction::Track { pan: true }
    );
    assert!(s.on_input(WindowInput::LeftReleased, false) == WindowAction::Nothing);
    assert!(!s.mouse_down);

    assert!(
        s.on_input(WindowInput::CursorMoved { beyond_drag_threshold: true }, false)
            == WindowAction::Track { pan: false }
    );
    assert!(
        s.on_input(WindowInput::CursorMoved { beyond_drag_threshold: true }, true)
            == WindowAction::Nothing
    );
}

#[test]
fn keys_quit_and_cycle() {
    let mut s = Interaction::new();
    assert!(s.on_input(WindowInput::KeyPressed(KeyPress::Tab), false) == WindowAction::AdvanceSelection);
    assert!(s.on_input(WindowInput::KeyPressed(KeyPress::Escape), true) == WindowAction::Nothing);
    assert!(s.on_input(WindowInput::KeyPressed(KeyPress::Escape), false) == WindowAction::Exit);
    assert!(
        s.on_input(WindowInput::KeyPressed(KeyPress::Character("Q".to_string())), false)
            == WindowAction::Nothing
    );
    s.on_input(WindowInput::ModifiersChanged { super_key: true }, false);
    assert!(
        s.on_input(WindowInput::KeyPressed(KeyPress::Character("Q".to_string())), true)
            == WindowAction::Exit
    );
    assert!(
        s.on_input(WindowInput::KeyPressed(KeyPress::Character("q".to_string())), false)
            == WindowAction::Nothing
    );
    assert!(s.on_input(WindowInput::CloseRequested, true) == WindowAction::Exit);
    assert!(s.on_input(WindowInput::Destroyed, false) == WindowAction::Exit);
    assert!(s.on_input(WindowInput::Other, false) == WindowAction::Nothing);
}

#[test]
fn range_header_names_first_and_last_byte() {
    assert_eq!(range_header(0, 100), "bytes=0-99");
    assert_eq!(range_header(10, 1), "bytes=10-10");
    assert_eq!(range_header(4096, 512), "bytes=4096-4607");
    assert_eq!(range_header(7, 0), "bytes=7-6");
}

#[test]
fn display_toggle_reads_what_it_wrote() {
    let mut rules = try_parse_styles("a { display: none; fill: red; line-width: 2px; edge: #010203; }").unwrap();
    let rule = &mut rules[0];
    assert!(!is_displayed(rule));
    set_displayed(rule, true);
    assert!(is_displayed(rule));
    assert!(rule.kvs.get(&"display".to_string()).is_none());
    set_displayed(rule, false);
    assert!(!is_displayed(rule));
    let red = picker_color(rule, &"fill".to_string());
    assert_eq!((red.r, red.g, red.b, red.a.clone()), (255, 0, 0, None));
    let edge = picker_color(rule, &"edge".to_string());
    assert_eq!((edge.r, edge.g, edge.b), (1, 2, 3));
    let none = picker_color(rule, &"stroke".to_string());
    assert_eq!((none.r, none.g, none.b, none.a.clone()), (0, 0, 0, Some("0".to_string())));
    assert_eq!(px_literal(rule, &"line-width".to_string()), Some("2".to_string()));
    assert_eq!(px_literal(rule, &"fill".to_string()), None);
}

#[test]
fn particle_hash_values() {
    assert_eq!(hash24_of(0), 12267490);
    assert_eq!(hash24_of(1), 12511804);
    assert_eq!(hash24_of(12345), 6204686);
    assert_eq!(hash24_of(u32::MAX), 2771202);
}

#[test]
fn numbers_read_like_the_standard_library() {
    assert_eq!(from_hex("ff"), Ok(255));
    assert_eq!(from_hex("FF"), Ok(255));
    assert_eq!(from_hex("+1"), Ok(1));
    assert!(from_hex("g0").is_err());
    assert!(from_hex("100").is_err());
    assert!(from_hex("").is_err());
    assert_eq!(from_decimal("255"), Some(255));
    assert_eq!(from_decimal("256"), None);
    assert_eq!(u32_from_decimal("4294967295"), Some(u32::MAX));
    assert_eq!(u32_from_decimal("4294967296"), None);
    assert_eq!(u32_from_decimal("-1"), None);
}

#[test]
fn interface_state_starts_at_zurich() {
    assert_eq!(LocationFinderState::new().input, "47.3769 8.5417");
    assert_eq!(UIState::new().loaction_finder.input, "47.3769 8.5417");
    let mut w = LocationFinderWindow::new(true);
    assert!(w.open());
    w.set_open(false);
    assert!(!w.open());
    assert!(!FpsGraph::default().open);
}

#[test]
fn hover_tooltip_skips_the_background_and_lays_out_tags() {
    let css = cache("poi.parking { background-color: rgb(9, 8, 7); }");
    let features = vec![
        HoveredFeature {
            selector: Selector::new()
                .with_type("poi".to_string())
                .with_class("parking".to_string())
                .with_any("name".to_string(), "poi".to_string()),
            tags: vec![
                ("access".to_string(), "yes".to_string()),
                ("fee".to_string(), "no".to_string()),
            ],
            title: Some("Garage".to_string()),
        },
        HoveredFeature {
            selector: Selector::new().with_type("background".to_string()),
            tags: vec![("x".to_string(), "y".to_string())],
            title: None,
        },
        HoveredFeature {
            selector: Selector::new().with_type("water".to_string()),
            tags: vec![("kind".to_string(), "lake".to_string())],
            title: None,
        },
    ];
    let (tags, heads) = hover_heads(&features, &css, 12);
    assert_eq!(tags.len(), 3);
    assert_eq!((tags[2].name, tags[2].value), ("kind", "lake"));
    assert_eq!(heads.len(), 2);
    assert_eq!(heads[0].layer, Some("poi"));
    assert_eq!(heads[0].class, Some("parking"));
    assert_eq!(heads[0].title, Some("Garage"));
    assert_eq!(heads[0].color, Some([9, 8, 7]));
    assert_eq!((heads[0].start, heads[0].end), (0, 2));
    assert_eq!(heads[1].layer, None);
    assert_eq!(heads[1].color, None);
    assert_eq!((heads[1].start, heads[1].end), (2, 3));
    let only_background = vec![HoveredFeature {
        selector: Selector::new().with_type("background".to_string()),
        tags: Vec::new(),
        title: None,
    }];
    assert!(hover_heads(&only_background, &css, 12).1.is_empty());
}

#[test]
fn only_partial_content_delivers_a_range() {
    assert!(range_delivered(206));
    assert!(!range_delivered(200));
    assert!(!range_delivered(416));
}

#[test]
fn loading_the_view_prunes_then_admits() {
    let mut state = app();
    state.add_visible_tile(TileId::new(1, 0, 0));
    state.add_visible_tile(TileId::new(2, 5, 5));
    let field = [
        TileId::new(2, 0, 0),
        TileId::new(2, 1, 0),
        TileId::new(2, 1, 1),
        TileId::new(2, 0, 1),
    ];
    state.load_visible(&field, &[TileId::new(1, 0, 0)], 1, &field);
    assert_eq!(
        state.visible_tiles(),
        &[
            TileId::new(2, 0, 1),
            TileId::new(2, 0, 0),
            TileId::new(2, 1, 0),
            TileId::new(2, 1, 1)
        ]
    );
    state.load_visible(&field, &[], 1, &field[..2]);
    assert_eq!(state.visible_tiles().len(), 4);
}
