use vstd::prelude::*;

verus! {

/// What is drawn on top of a block; buttons, switches and lamps carry
/// an on/off state.
#[derive(Debug)]
pub enum Decoration {
    Empty,
    Label(String),
    NotLabel(String),
    Button(bool),
    Switch(bool),
    Lamp(bool),
}

impl Decoration {
    /// Whether the decoration carries an on/off state.
    pub open spec fn has_state(self) -> bool {
        self is Button || self is Switch || self is Lamp
    }

    /// The on/off state; `false` for decorations without one.
    pub open spec fn active(self) -> bool {
        match self {
            Decoration::Button(a) => a,
            Decoration::Switch(a) => a,
            Decoration::Lamp(a) => a,
            _ => false,
        }
    }

    /// The decoration with its on/off state replaced; the others are
    /// unchanged.
    pub open spec fn with_active(self, is_active: bool) -> Decoration {
        match self {
            Decoration::Button(_) => Decoration::Button(is_active),
            Decoration::Switch(_) => Decoration::Switch(is_active),
            Decoration::Lamp(_) => Decoration::Lamp(is_active),
            _ => self,
        }
    }

    pub fn set_active(&mut self, is_active: bool)
        ensures
            *final(self) == old(self).with_active(is_active),
    {
        match self {
            Decoration::Button(active) => *active = is_active,
            Decoration::Switch(active) => *active = is_active,
            Decoration::Lamp(active) => *active = is_active,
            _ => {},
        }
    }

    pub fn is_active(&self) -> (active: bool)
        ensures
            active == self.active(),
    {
        match self {
            Decoration::Button(active) => *active,
            Decoration::Switch(active) => *active,
            Decoration::Lamp(active) => *active,
            _ => false,
        }
    }
}

/// Reading the state back gives what was written, for the decorations
/// that carry one; the others always read `false`.
pub proof fn lemma_set_then_is_active(d: Decoration, is_active: bool)
    ensures
        d.has_state() ==> d.with_active(is_active).active() == is_active,
        !d.has_state() ==> d.with_active(is_active) == d && d.active() == false,
        d.with_active(is_active).has_state() == d.has_state(),
{
}

impl Clone for Decoration {
    fn clone(&self) -> (d: Self)
        ensures
            d == *self,
    {
        match self {
            Decoration::Empty => Decoration::Empty,
            Decoration::Label(s) => Decoration::Label(s.clone()),
            Decoration::NotLabel(s) => Decoration::NotLabel(s.clone()),
            Decoration::Button(a) => Decoration::Button(*a),
            Decoration::Switch(a) => Decoration::Switch(*a),
            Decoration::Lamp(a) => Decoration::Lamp(*a),
        }
    }
}

impl Default for Decoration {
    fn default() -> (d: Self)
        ensures
            d == Decoration::Empty,
    {
        Decoration::Empty
    }
}

} // verus!
