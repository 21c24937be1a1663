//! Whether the window of the launcher is shown.

use vstd::prelude::*;

verus! {

/// The state of the one window of the launcher.
#[derive(Debug, Clone, Copy, PartialEq, Eq, Structural)]
pub enum Visibility {
    Hidden,
    Visible,
}

/// What the presentation is asked to do with the window.
#[derive(Debug, Clone, Copy, PartialEq, Eq, Structural)]
pub enum WindowAction {
    Show,
    Hide,
}

/// The state after the application was activated: a shown window is
/// hidden, a hidden one is shown.
pub open spec fn toggled(v: Visibility) -> Visibility {
    match v {
        Visibility::Hidden => Visibility::Visible,
        Visibility::Visible => Visibility::Hidden,
    }
}

/// What brings the window from `v` to `toggled(v)`.
pub open spec fn action_for(v: Visibility) -> WindowAction {
    match v {
        Visibility::Hidden => WindowAction::Show,
        Visibility::Visible => WindowAction::Hide,
    }
}

impl Visibility {
    /// The state before the first activation.
    pub fn initial() -> (v: Self)
        ensures
            v == Visibility::Hidden,
    {
        Visibility::Hidden
    }

    /// Handles an activation of the application: the new state, and what
    /// to do with the window.
    pub fn activate(self) -> (r: (Visibility, WindowAction))
        ensures
            r.0 == toggled(self),
            r.1 == action_for(self),
    {
        match self {
            Visibility::Hidden => (Visibility::Visible, WindowAction::Show),
            Visibility::Visible => (Visibility::Hidden, WindowAction::Hide),
        }
    }

    /// Handles a dismissal (the escape key, or a launch): the window is
    /// hidden.
    pub fn dismiss(self) -> (v: Visibility)
        ensures
            v == Visibility::Hidden,
    {
        Visibility::Hidden
    }

    /// Whether the window is shown.
    pub fn is_visible(self) -> (b: bool)
        ensures
            b == (self == Visibility::Visible),
    {
        match self {
            Visibility::Visible => true,
            Visibility::Hidden => false,
        }
    }
}

/// Two activations leave the window as it was.
pub proof fn lemma_toggled_twice(v: Visibility)
    ensures
        toggled(toggled(v)) == v,
{
}

} // verus!
