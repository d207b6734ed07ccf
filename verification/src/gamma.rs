//! Gamma state: a bounded scalar moved in discrete steps by key events.
//!
//! Gamma is held in twentieths, so one key press moves it by exactly 0.05
//! with no drift: pressing up adds one twentieth, pressing down removes one
//! and stops at zero, and the quit keys end the session.  Folding a batch
//! of events is specified by a recurrence that stops at the first quit
//! event, exactly as the interactive loop does.

use vstd::prelude::*;

verus! {

/// One discrete input event, as the event loop hands it over: the two quit
/// signals, the two gamma keys, and everything else.
#[derive(Clone, Copy)]
pub enum InputEvent {
    Quit,
    PressEscape,
    PressUp,
    PressDown,
    Other,
}

/// Whether an event ends the session.
pub open spec fn is_quit_event(e: InputEvent) -> bool {
    match e {
        InputEvent::Quit => true,
        InputEvent::PressEscape => true,
        _ => false,
    }
}

/// Gamma in twentieths after one event: up adds a step (saturating at the
/// top of the counter), down removes one and stops at zero, anything else
/// leaves it alone.
pub open spec fn stepped(g: int, e: InputEvent) -> int {
    match e {
        InputEvent::PressUp => if g < u32::MAX { g + 1 } else { g },
        InputEvent::PressDown => if g >= 1 { g - 1 } else { 0 },
        _ => g,
    }
}

/// Gamma in twentieths after a batch of events, folded in order up to, and
/// not through, the first quit event.
pub open spec fn gamma_after(g: int, events: Seq<InputEvent>) -> int
    decreases events.len(),
{
    if events.len() == 0 {
        g
    } else if is_quit_event(events[0]) {
        g
    } else {
        gamma_after(stepped(g, events[0]), events.drop_first())
    }
}

/// Whether a batch of events asks the session to end.
pub open spec fn any_quit(events: Seq<InputEvent>) -> bool {
    exists|j: int| 0 <= j < events.len() && is_quit_event(#[trigger] events[j])
}

/// The session-scoped gamma value, in twentieths of the power-law exponent.
pub struct GammaState {
    pub twentieths: u32,
}

impl GammaState {
    /// A fresh state starts at a gamma of one.
    pub fn new() -> (s: GammaState)
        ensures
            s.twentieths == 20,
    {
        GammaState { twentieths: 20 }
    }

    /// Raise gamma by one step of 0.05.
    pub fn increment(&mut self)
        ensures
            final(self).twentieths as int == stepped(
                old(self).twentieths as int,
                InputEvent::PressUp,
            ),
    {
        if self.twentieths < u32::MAX {
            self.twentieths = self.twentieths + 1;
        }
    }

    /// Lower gamma by one step of 0.05, stopping at zero: the floor keeps
    /// every later table build inside the builder's domain.
    pub fn decrement(&mut self)
        ensures
            final(self).twentieths as int == stepped(
                old(self).twentieths as int,
                InputEvent::PressDown,
            ),
    {
        if self.twentieths >= 1 {
            self.twentieths = self.twentieths - 1;
        }
    }

    /// Fold one polled batch of events into the state, in order, stopping
    /// at the first quit event; the result says whether the session ends.
    pub fn handle_input(&mut self, events: &Vec<InputEvent>) -> (quit: bool)
        ensures
            quit == any_quit(events@),
            final(self).twentieths as int == gamma_after(old(self).twentieths as int, events@),
    {
        let ghost g0: int = self.twentieths as int;
        proof {
            assert(events@.skip(0) =~= events@);
        }
        let mut i: usize = 0;
        while i < events.len()
            invariant
                g0 == old(self).twentieths as int,
                i <= events.len(),
                gamma_after(g0, events@) == gamma_after(
                    self.twentieths as int,
                    events@.skip(i as int),
                ),
                forall|j: int| 0 <= j < i ==> !is_quit_event(#[trigger] events@[j]),
            decreases events.len() - i,
        {
            let ghost rest: Seq<InputEvent> = events@.skip(i as int);
            proof {
                assert(rest[0] == events@[i as int]);
                assert(rest.drop_first() =~= events@.skip(i as int + 1));
            }
            match events[i] {
                InputEvent::Quit => {
                    proof {
                        assert(is_quit_event(events@[i as int]));
                        assert(gamma_after(self.twentieths as int, rest) == self.twentieths as int);
                    }
                    return true;
                },
                InputEvent::PressEscape => {
                    proof {
                        assert(is_quit_event(events@[i as int]));
                        assert(gamma_after(self.twentieths as int, rest) == self.twentieths as int);
                    }
                    return true;
                },
                InputEvent::PressUp => {
                    if self.twentieths < u32::MAX {
                        self.twentieths = self.twentieths + 1;
                    }
                },
                InputEvent::PressDown => {
                    if self.twentieths >= 1 {
                        self.twentieths = self.twentieths - 1;
                    }
                },
                InputEvent::Other => {},
            }
            i = i + 1;
        }
        proof {
            assert(events@.skip(i as int) =~= Seq::<InputEvent>::empty());
        }
        false
    }
}

} // verus!
