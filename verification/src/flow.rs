//! The controls of the calculation worker: a roll entered in the roll box is
//! sent to the worker once, and its answer either adds a table or raises the
//! miscalculation notice.

use vstd::prelude::*;

use crate::text::{chars_of, parse_usize_chars, spec_parse_usize};

verus! {

/// The number of rolls per bonus where none is given.
pub const REPS_DEFAULT: usize = 20000;

/// The number of rolls per bonus that the text of the repeats box gives: the
/// text read as a number, or `REPS_DEFAULT` where it does not read.
pub open spec fn spec_reps_from_text(text: Seq<char>) -> usize {
    match spec_parse_usize(text) {
        Some(n) => n,
        None => REPS_DEFAULT,
    }
}

/// The number of rolls per bonus that the text of the repeats box gives.
pub fn reps_from_text(text: &str) -> (r: usize)
    ensures
        r == spec_reps_from_text(text@),
{
    let v = chars_of(text);
    match parse_usize_chars(&v) {
        Some(n) => n,
        None => REPS_DEFAULT,
    }
}

/// The state of the controls: a roll was entered and waits for an answer,
/// the worker is calculating, the last calculation failed.
#[derive(Clone, Copy, PartialEq, Eq, Structural, Debug)]
pub struct Controls {
    pub submitted: bool,
    pub calculating: bool,
    pub miscalculation: bool,
}

/// What the caller does after a step: nothing, send the entered roll to the
/// worker (and clear the roll box), or add the table the worker answered.
#[derive(Clone, Copy, PartialEq, Eq, Structural, Debug)]
pub enum Action {
    Nothing,
    SendRoll,
    AddTable,
}

/// The controls at the start: nothing entered, nothing calculating.
pub fn initial_controls() -> (c: Controls)
    ensures
        c == (Controls { submitted: false, calculating: false, miscalculation: false }),
{
    Controls { submitted: false, calculating: false, miscalculation: false }
}

/// Whether the caller asks the worker for an answer before the next step.
pub fn wants_reply(c: Controls) -> (r: bool)
    ensures
        r == c.calculating,
{
    c.calculating
}

/// One step of the controls. An entered roll is sent when no calculation
/// runs; while one runs, an answer (`Some(true)` for a table, `Some(false)`
/// for a failure) ends it.
pub open spec fn spec_step(c: Controls, reply: Option<bool>) -> (Controls, Action) {
    if c.submitted && !c.calculating {
        (Controls { calculating: true, ..c }, Action::SendRoll)
    } else if c.calculating {
        match reply {
            Some(ok) => (
                Controls {
                    submitted: false,
                    calculating: false,
                    miscalculation: if ok {
                        c.miscalculation
                    } else {
                        true
                    },
                },
                if ok {
                    Action::AddTable
                } else {
                    Action::Nothing
                },
            ),
            None => (c, Action::Nothing),
        }
    } else {
        (c, Action::Nothing)
    }
}

/// One step of the controls: see `spec_step`. A roll is sent only when no
/// calculation runs, and then one runs; an answer is taken only while one
/// runs, and then the controls are idle again.
pub fn step(c: Controls, reply: Option<bool>) -> (r: (Controls, Action))
    ensures
        r == spec_step(c, reply),
        r.1 == Action::SendRoll ==> !c.calculating && r.0.calculating,
        c.calculating && reply is Some ==> !r.0.calculating && !r.0.submitted,
        c.calculating && reply == Some(false) ==> r.0.miscalculation,
{
    if c.submitted && !c.calculating {
        (Controls { calculating: true, ..c }, Action::SendRoll)
    } else if c.calculating {
        match reply {
            Some(ok) => {
                let next = Controls {
                    submitted: false,
                    calculating: false,
                    miscalculation: if ok {
                        c.miscalculation
                    } else {
                        true
                    },
                };
                (next, if ok {
                    Action::AddTable
                } else {
                    Action::Nothing
                })
            },
            None => (c, Action::Nothing),
        }
    } else {
        (c, Action::Nothing)
    }
}

/// The controls after the steps with the answers `replies` (an answer is
/// only looked at while a calculation runs), with the number of rolls sent
/// and the number of answers taken.
pub open spec fn run(c: Controls, replies: Seq<Option<bool>>) -> (Controls, int, int)
    decreases replies.len(),
{
    if replies.len() == 0 {
        (c, 0, 0)
    } else {
        let prev = run(c, replies.drop_last());
        let s = spec_step(prev.0, replies.last());
        let taken = prev.0.calculating && replies.last() is Some;
        (
            s.0,
            prev.1 + if s.1 == Action::SendRoll {
                1int
            } else {
                0int
            },
            prev.2 + if taken {
                1int
            } else {
                0int
            },
        )
    }
}

/// At most one roll is with the worker at any time: from controls that are
/// not calculating, after any steps the rolls sent exceed the answers taken
/// by one exactly while a calculation runs, and by none otherwise.
pub proof fn lemma_one_roll_at_a_time(c: Controls, replies: Seq<Option<bool>>)
    requires
        !c.calculating,
    ensures
        run(c, replies).1 - run(c, replies).2 == if run(c, replies).0.calculating {
            1int
        } else {
            0int
        },
    decreases replies.len(),
{
    if replies.len() > 0 {
        lemma_one_roll_at_a_time(c, replies.drop_last());
    }
}

} // verus!
