//! The map window's reactions to input: when to quit, when to move the
//! selection, and how a press of the left button is told apart as a click
//! (which selects what is under the cursor) or a drag (which pans the map).

use vstd::prelude::*;
use crate::comments::chars_of;

verus! {

/// A key press, as far as the map reacts to it.
pub enum KeyPress {
    /// A key that types the given text.
    Character(String),
    Escape,
    Tab,
    Other,
}

/// An input event of the map window.
pub enum WindowInput {
    Destroyed,
    CloseRequested,
    KeyPressed(KeyPress),
    /// The modifier keys changed; whether the "super" key is now held.
    ModifiersChanged { super_key: bool },
    /// The left mouse button went down.
    LeftPressed,
    /// The left mouse button went up.
    LeftReleased,
    /// The cursor moved; whether it is now farther than the drag threshold
    /// from where the left button went down.
    CursorMoved { beyond_drag_threshold: bool },
    Other,
}

/// What the map does in reaction to an input.
#[derive(PartialEq, Eq, Structural)]
pub enum WindowAction {
    Nothing,
    Exit,
    /// Make the next selected object the current one.
    AdvanceSelection,
    /// Select the objects under the cursor.
    SelectHovered,
    /// Follow the cursor: update what it hovers, panning the map along when
    /// `pan` holds.
    Track { pan: bool },
}

/// What the window remembers between inputs.
#[derive(PartialEq, Eq, Structural)]
pub struct Interaction {
    /// The left button is down.
    pub mouse_down: bool,
    /// Since the left button went down, the cursor moved beyond the drag
    /// threshold.
    pub drag_moved: bool,
    /// The "super" modifier key is held.
    pub super_key: bool,
}

/// The next state and the action for `input` in state `s`; `ui_consumed`
/// says whether the user interface took the input for itself.
pub open spec fn step(s: Interaction, input: WindowInput, ui_consumed: bool) -> (Interaction, WindowAction) {
    match input {
        WindowInput::Destroyed => (s, WindowAction::Exit),
        WindowInput::CloseRequested => (s, WindowAction::Exit),
        WindowInput::KeyPressed(key) => match key {
            KeyPress::Character(text) => if text@ == seq!['Q'] && s.super_key {
                (s, WindowAction::Exit)
            } else {
                (s, WindowAction::Nothing)
            },
            KeyPress::Escape => if ui_consumed {
                (s, WindowAction::Nothing)
            } else {
                (s, WindowAction::Exit)
            },
            KeyPress::Tab => (s, WindowAction::AdvanceSelection),
            KeyPress::Other => (s, WindowAction::Nothing),
        },
        WindowInput::ModifiersChanged { super_key } => (Interaction { super_key, ..s }, WindowAction::Nothing),
        WindowInput::LeftPressed => if ui_consumed {
            (s, WindowAction::Nothing)
        } else {
            (Interaction { mouse_down: true, drag_moved: false, ..s }, WindowAction::Nothing)
        },
        WindowInput::LeftReleased => if ui_consumed {
            (s, WindowAction::Nothing)
        } else if s.drag_moved {
            (Interaction { mouse_down: false, ..s }, WindowAction::Nothing)
        } else {
            (Interaction { mouse_down: false, ..s }, WindowAction::SelectHovered)
        },
        WindowInput::CursorMoved { beyond_drag_threshold } => if ui_consumed {
            (s, WindowAction::Nothing)
        } else {
            let moved = s.drag_moved || (s.mouse_down && beyond_drag_threshold);
            (Interaction { drag_moved: moved, ..s }, WindowAction::Track { pan: s.mouse_down && moved })
        },
        WindowInput::Other => (s, WindowAction::Nothing),
    }
}

/// Whether `text` is exactly `Q`.
fn is_quit_letter(text: &String) -> (r: bool)
    ensures
        r == (text@ == seq!['Q']),
{
    let c = chars_of(text.as_str());
    let r = c.len() == 1 && c[0] == 'Q';
    if r {
        assert(text@ =~= seq!['Q']);
    }
    r
}

impl Interaction {
    /// No button down, nothing dragged, no modifier held.
    pub fn new() -> (s: Self)
        ensures
            s == (Interaction { mouse_down: false, drag_moved: false, super_key: false }),
    {
        Interaction { mouse_down: false, drag_moved: false, super_key: false }
    }

    /// Takes `input` in, given whether the user interface took it for itself,
    /// and says what the map does in reaction.
    pub fn on_input(&mut self, input: WindowInput, ui_consumed: bool) -> (a: WindowAction)
        ensures
            (*final(self), a) == step(*old(self), input, ui_consumed),
    {
        match input {
            WindowInput::Destroyed => WindowAction::Exit,
            WindowInput::CloseRequested => WindowAction::Exit,
            WindowInput::KeyPressed(key) => match key {
                KeyPress::Character(text) => {
                    if is_quit_letter(&text) && self.super_key {
                        WindowAction::Exit
                    } else {
                        WindowAction::Nothing
                    }
                },
                KeyPress::Escape => {
                    if ui_consumed {
                        WindowAction::Nothing
                    } else {
                        WindowAction::Exit
                    }
                },
                KeyPress::Tab => WindowAction::AdvanceSelection,
                KeyPress::Other => WindowAction::Nothing,
            },
            WindowInput::ModifiersChanged { super_key } => {
                self.super_key = super_key;
                WindowAction::Nothing
            },
            WindowInput::LeftPressed => {
                if !ui_consumed {
                    self.mouse_down = true;
                    self.drag_moved = false;
                }
                WindowAction::Nothing
            },
            WindowInput::LeftReleased => {
                if ui_consumed {
                    WindowAction::Nothing
                } else {
                    self.mouse_down = false;
                    if self.drag_moved {
                        WindowAction::Nothing
                    } else {
                        WindowAction::SelectHovered
                    }
                }
            },
            WindowInput::CursorMoved { beyond_drag_threshold } => {
                if ui_consumed {
                    WindowAction::Nothing
                } else {
                    if self.mouse_down && beyond_drag_threshold {
                        self.drag_moved = true;
                    }
                    WindowAction::Track { pan: self.mouse_down && self.drag_moved }
                }
            },
            WindowInput::Other => WindowAction::Nothing,
        }
    }
}

/// The state after the cursor moves, with the left button down and the user
/// interface not taking the moves, once per entry of `moves`, each saying
/// whether the cursor is then beyond the drag threshold.
pub open spec fn after_moves(s: Interaction, moves: Seq<bool>) -> Interaction
    decreases moves.len(),
{
    if moves.len() == 0 {
        s
    } else {
        step(
            after_moves(s, moves.drop_last()),
            WindowInput::CursorMoved { beyond_drag_threshold: moves.last() },
            false,
        ).0
    }
}

proof fn lemma_moves_while_down(s: Interaction, moves: Seq<bool>)
    requires
        s.mouse_down,
    ensures
        after_moves(s, moves).mouse_down,
        after_moves(s, moves).super_key == s.super_key,
        after_moves(s, moves).drag_moved == (s.drag_moved || moves.contains(true)),
    decreases moves.len(),
{
    if moves.len() > 0 {
        lemma_moves_while_down(s, moves.drop_last());
        if moves.drop_last().contains(true) {
            let i = choose|i: int| 0 <= i < moves.drop_last().len() && moves.drop_last()[i] == true;
            assert(moves[i] == true);
        }
        if moves.contains(true) && !moves.last() {
            let i = choose|i: int| 0 <= i < moves.len() && moves[i] == true;
            assert(moves.drop_last()[i] == true);
        }
        if moves.last() {
            assert(moves[moves.len() - 1] == true);
        }
    }
}

/// A press of the left button followed by moves of the cursor and the
/// release of the button, none of them taken by the user interface, is a
/// click when no move went beyond the drag threshold, and then the release
/// selects what is under the cursor; otherwise it is a drag, which pans the
/// map from the first move beyond the threshold on and selects nothing.
pub proof fn lemma_click_or_drag(s: Interaction, moves: Seq<bool>)
    ensures
        ({
            let pressed = step(s, WindowInput::LeftPressed, false).0;
            let released = step(after_moves(pressed, moves), WindowInput::LeftReleased, false);
            &&& (released.1 == WindowAction::SelectHovered) == !moves.contains(true)
            &&& !released.0.mouse_down
            &&& forall|i: int| 0 <= i < moves.len() ==> (#[trigger] step(
                after_moves(pressed, moves.take(i)),
                WindowInput::CursorMoved { beyond_drag_threshold: moves[i] },
                false,
            ).1 == WindowAction::Track { pan: moves.take(i + 1).contains(true) })
        }),
{
    let pressed = step(s, WindowInput::LeftPressed, false).0;
    lemma_moves_while_down(pressed, moves);
    assert forall|i: int| 0 <= i < moves.len() implies (#[trigger] step(
        after_moves(pressed, moves.take(i)),
        WindowInput::CursorMoved { beyond_drag_threshold: moves[i] },
        false,
    ).1 == WindowAction::Track { pan: moves.take(i + 1).contains(true) }) by {
        lemma_moves_while_down(pressed, moves.take(i));
        let t = moves.take(i + 1);
        assert(t.drop_last() =~= moves.take(i));
        assert(t.last() == moves[i]);
        if t.contains(true) && !moves[i] {
            let j = choose|j: int| 0 <= j < t.len() && t[j] == true;
            assert(moves.take(i)[j] == true);
        }
        if moves.take(i).contains(true) {
            let j = choose|j: int| 0 <= j < i && moves.take(i)[j] == true;
            assert(t[j] == true);
        }
        if moves[i] {
            assert(t[i] == true);
        }
    }
}

} // verus!
