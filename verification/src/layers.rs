//! The stack of map layers and the order in which they are painted.

use vstd::prelude::*;

verus! {

/// Forecast time selector for time-varying layers.
#[derive(Clone, Copy, Default)]
pub struct ForecastTime;

/// One composable map layer. The basemap is just one of these.
///
/// An implementation states its name and whether it is shown by defining
/// `spec_name` and `spec_visible`; the defaults fix no particular value, so a
/// verified implementation has to define them to meet `name` and `visible`.
pub trait Layer {
    /// The layer's name.
    open spec fn spec_name(&self) -> Seq<char> {
        vstd::pervasive::arbitrary()
    }

    /// Whether the layer is shown.
    open spec fn spec_visible(&self) -> bool {
        vstd::pervasive::arbitrary()
    }

    fn name(&self) -> (r: &str)
        ensures
            r@ == self.spec_name(),
    ;

    fn visible(&self) -> (r: bool)
        ensures
            r == self.spec_visible(),
    ;
}

/// The names of the shown layers among `layers` (each a name and whether
/// it is shown), bottom to top.
pub open spec fn shown(layers: Seq<(Seq<char>, bool)>) -> Seq<Seq<char>>
    decreases layers.len(),
{
    if layers.len() == 0 {
        Seq::empty()
    } else {
        let init = shown(layers.drop_last());
        if layers.last().1 {
            init.push(layers.last().0)
        } else {
            init
        }
    }
}

/// The shown layers' names are the names of the layers that are shown, in
/// their order: hidden layers are left out, whatever their place.
pub proof fn lemma_shown_is_filter(layers: Seq<(Seq<char>, bool)>)
    ensures
        shown(layers) == layers.filter(|l: (Seq<char>, bool)| l.1).map_values(|l: (Seq<char>, bool)| l.0),
    decreases layers.len(),
{
    reveal(Seq::filter);
    let f = |l: (Seq<char>, bool)| l.1;
    let g = |l: (Seq<char>, bool)| l.0;
    if layers.len() == 0 {
        assert(shown(layers) =~= layers.filter(f).map_values(g));
    } else {
        let init = layers.drop_last();
        lemma_shown_is_filter(init);
        if layers.last().1 {
            assert(layers.filter(f) == init.filter(f).push(layers.last()));
            assert(layers.filter(f).map_values(g) =~= init.filter(f).map_values(g).push(layers.last().0));
        } else {
            assert(layers.filter(f) == init.filter(f));
        }
    }
}

/// The names of the shown layers, bottom to top, given each layer's name
/// and whether it is shown.
pub fn shown_names<'a>(layers: &[(&'a str, bool)]) -> (r: Vec<&'a str>)
    ensures
        r@.map_values(|n: &str| n@) == shown(layers@.map_values(|l: (&str, bool)| (l.0@, l.1))),
{
    let ghost views = layers@.map_values(|l: (&str, bool)| (l.0@, l.1));
    let mut out: Vec<&'a str> = Vec::new();
    let n = layers.len();
    let mut i: usize = 0;
    while i < n
        invariant
            n == layers@.len(),
            views == layers@.map_values(|l: (&str, bool)| (l.0@, l.1)),
            i <= n,
            out@.map_values(|s: &str| s@) == shown(views.take(i as int)),
        decreases n - i,
    {
        let (name, visible) = layers[i];
        let ghost before = out@;
        assert(views.take(i + 1).drop_last() =~= views.take(i as int));
        assert(views.take(i + 1).last() == (name@, visible));
        if visible {
            out.push(name);
            assert(out@.map_values(|s: &str| s@) =~= before.map_values(|s: &str| s@).push(name@));
        }
        i = i + 1;
    }
    assert(views.take(n as int) =~= views);
    out
}

/// What each of `layers` states: its name and whether it is shown.
pub open spec fn layer_answers(layers: Seq<Box<dyn Layer>>) -> Seq<(Seq<char>, bool)> {
    layers.map_values(|l: Box<dyn Layer>| (l.spec_name(), l.spec_visible()))
}

/// Ordered stack of layers, painted bottom to top in push order.
pub struct LayerStack {
    layers: Vec<Box<dyn Layer>>,
}

impl LayerStack {
    /// The layers, bottom to top.
    pub closed spec fn layer_seq(&self) -> Seq<Box<dyn Layer>> {
        self.layers@
    }

    pub fn new() -> (s: Self)
        ensures
            s.layer_seq().len() == 0,
    {
        LayerStack { layers: Vec::new() }
    }

    /// Puts `layer` on top of the stack.
    pub fn push(&mut self, layer: Box<dyn Layer>)
        ensures
            final(self).layer_seq() == old(self).layer_seq().push(layer),
    {
        self.layers.push(layer);
    }

    /// The layers, bottom to top, for updating and painting them.
    pub fn layers(&self) -> (r: &[Box<dyn Layer>])
        ensures
            r@ == self.layer_seq(),
    {
        self.layers.as_slice()
    }

    /// The names of the shown layers, in the order they are painted: each
    /// layer is asked for its name and whether it is shown, bottom to top,
    /// and `shown_names` keeps the shown ones. What the layers answer is up
    /// to their own implementations.
    pub fn names_in_paint_order(&self) -> (r: Vec<&str>)
        ensures
            r@.map_values(|n: &str| n@) == shown(layer_answers(self.layer_seq())),
    {
        let mut answers: Vec<(&str, bool)> = Vec::new();
        let n = self.layers.len();
        let mut i: usize = 0;
        while i < n
            invariant
                n == self.layers@.len(),
                i <= n,
                answers@.map_values(|l: (&str, bool)| (l.0@, l.1)) == layer_answers(self.layers@).take(i as int),
            decreases n - i,
        {
            let layer = &self.layers[i];
            let ghost before = answers@;
            let ghost all = layer_answers(self.layers@);
            let name = layer.name();
            let visible = layer.visible();
            answers.push((name, visible));
            assert(all[i as int] == (name@, visible));
            assert(answers@.map_values(|l: (&str, bool)| (l.0@, l.1)) =~= before.map_values(
                |l: (&str, bool)| (l.0@, l.1),
            ).push((name@, visible)));
            assert(all.take(i + 1) =~= all.take(i as int).push(all[i as int]));
            i = i + 1;
        }
        assert(layer_answers(self.layers@).take(n as int) =~= layer_answers(self.layers@));
        shown_names(answers.as_slice())
    }
}

/// Temperature overlay. Renders nothing until its data path lands.
#[derive(Default)]
pub struct TemperatureLayer {
    visible: bool,
}

impl Layer for TemperatureLayer {
    open spec fn spec_name(&self) -> Seq<char> {
        seq!['t', 'e', 'm', 'p', 'e', 'r', 'a', 't', 'u', 'r', 'e']
    }

    closed spec fn spec_visible(&self) -> bool {
        self.visible
    }

    fn name(&self) -> (r: &str) {
        proof {
            reveal_strlit("temperature");
        }
        "temperature"
    }

    fn visible(&self) -> (r: bool) {
        self.visible
    }
}

} // verus!
