use vstd::prelude::*;

verus! {

/// The physical state in which a part is handled.
#[derive(Copy, Clone, Debug, PartialEq, Eq, Structural)]
pub enum State {
    Solid,
    Liquid,
    Gas,
}

/// A part that recipes consume or produce.
pub struct Part {
    pub name: String,
    pub state: State,
    /// No known recipe produces this part.
    pub atomic: bool,
    pub sinkable: bool,
    /// Number of production steps between this part and raw materials.
    pub score: i32,
}

/// The score that a part has before anything is known about how it is made.
pub const UNKNOWN_SCORE: i32 = 1000;

impl Part {
    /// A solid, atomic, sinkable part with an empty name and the unknown score.
    pub fn new() -> (p: Self)
        ensures
            p.name@ == Seq::<char>::empty(),
            p.state == State::Solid,
            p.atomic,
            p.sinkable,
            p.score == UNKNOWN_SCORE,
            p.score == 1000,
    {
        Part { name: String::new(), state: State::Solid, atomic: true, sinkable: true, score: UNKNOWN_SCORE }
    }
}

/// The letter that shows a state: `S`, `L` or `G`.
pub open spec fn state_letter(s: State) -> char {
    match s {
        State::Solid => 'S',
        State::Liquid => 'L',
        State::Gas => 'G',
    }
}

impl Part {
    /// The marks that a listing of parts shows beside the score: the state's
    /// letter, `@` for a raw material (else a space), and `&` for a part that
    /// cannot be sunk (else a space).
    pub fn marks(&self) -> (m: (char, char, char))
        ensures
            m.0 == state_letter(self.state),
            m.1 == if self.atomic { '@' } else { ' ' },
            m.2 == if self.sinkable { ' ' } else { '&' },
            (m.0 == 'S') == (self.state == State::Solid),
            (m.0 == 'L') == (self.state == State::Liquid),
            (m.0 == 'G') == (self.state == State::Gas),
            (m.1 == '@') == self.atomic,
            (m.2 == '&') == !self.sinkable,
    {
        let s = match self.state {
            State::Solid => 'S',
            State::Liquid => 'L',
            State::Gas => 'G',
        };
        let atom = if self.atomic { '@' } else { ' ' };
        let sink = if self.sinkable { ' ' } else { '&' };
        (s, atom, sink)
    }
}

impl Clone for Part {
    fn clone(&self) -> (r: Self)
        ensures
            r == *self,
    {
        Part {
            name: self.name.clone(),
            state: self.state,
            atomic: self.atomic,
            sinkable: self.sinkable,
            score: self.score,
        }
    }
}

} // verus!
