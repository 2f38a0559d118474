//! The front end's panel: the help screen, the repeats and roll boxes, the
//! list of tables with the one shown, and the miscalculation notice. Each
//! event the widgets report is one step from the panel's state.

use vstd::prelude::*;

use crate::flow::{reps_from_text, spec_reps_from_text};

verus! {

/// What the panel keeps between frames: the help screen is up, the number
/// of rolls per bonus, a roll was entered, which table is shown, how many
/// tables there are, and the miscalculation notice is up.
pub struct Panel {
    pub help: bool,
    pub reps: usize,
    pub submitted: bool,
    pub active: Option<usize>,
    pub tables: usize,
    pub miscalculation: bool,
}

/// An event of the widgets: the help button was pressed, the help screen
/// clicked, the repeats box confirmed with its text, the roll box confirmed,
/// a table's button pressed (with whether its graph could be made), the
/// button that deletes the shown table pressed, the worker's table added,
/// the miscalculation notice clicked.
pub enum PanelEvent {
    HelpPressed,
    HelpClicked,
    RepsEntered(String),
    RollEntered,
    Select(usize, bool),
    DeleteActive,
    TableAdded,
    NoticeClicked,
}

/// What the caller does after a step: nothing, or remove the table at the
/// index.
pub enum PanelAction {
    Nothing,
    Remove(usize),
}

/// A panel whose shown table is one of its tables.
pub open spec fn panel_ok(p: Panel) -> bool {
    p.active matches Some(i) ==> i < p.tables
}

/// The panel after one event, and the action. While the help screen is up,
/// only the help events and added tables change anything, as the other
/// widgets are not drawn.
pub open spec fn spec_panel_step(p: Panel, e: PanelEvent) -> (Panel, PanelAction) {
    match e {
        PanelEvent::HelpPressed => (Panel { help: true, ..p }, PanelAction::Nothing),
        PanelEvent::HelpClicked => (Panel { help: false, ..p }, PanelAction::Nothing),
        PanelEvent::TableAdded => (Panel { tables: (p.tables + 1) as usize, ..p }, PanelAction::Nothing),
        _ => if p.help {
            (p, PanelAction::Nothing)
        } else {
            match e {
                PanelEvent::RepsEntered(text) => (
                    Panel { reps: spec_reps_from_text(text@), ..p },
                    PanelAction::Nothing,
                ),
                PanelEvent::RollEntered => (Panel { submitted: true, ..p }, PanelAction::Nothing),
                PanelEvent::Select(row, shown) => if row < p.tables {
                    (
                        Panel {
                            active: if shown {
                                Some(row)
                            } else {
                                None
                            },
                            ..p
                        },
                        PanelAction::Nothing,
                    )
                } else {
                    (p, PanelAction::Nothing)
                },
                PanelEvent::DeleteActive => match p.active {
                    Some(i) => (
                        Panel { active: None, tables: (p.tables - 1) as usize, ..p },
                        PanelAction::Remove(i),
                    ),
                    None => (p, PanelAction::Nothing),
                },
                PanelEvent::NoticeClicked => (
                    Panel { miscalculation: false, ..p },
                    PanelAction::Nothing,
                ),
                _ => (p, PanelAction::Nothing),
            }
        },
    }
}

/// The panel at the start: no help screen, the default number of rolls,
/// nothing entered, no tables.
pub fn initial_panel() -> (p: Panel)
    ensures
        p == (Panel {
            help: false,
            reps: crate::flow::REPS_DEFAULT,
            submitted: false,
            active: None,
            tables: 0,
            miscalculation: false,
        }),
{
    Panel {
        help: false,
        reps: crate::flow::REPS_DEFAULT,
        submitted: false,
        active: None,
        tables: 0,
        miscalculation: false,
    }
}

/// One step of the panel: see `spec_panel_step`. The shown table stays one
/// of the tables, and a deletion removes exactly the shown one.
pub fn panel_step(p: Panel, e: PanelEvent) -> (r: (Panel, PanelAction))
    requires
        panel_ok(p),
        e is TableAdded ==> p.tables < usize::MAX,
    ensures
        r == spec_panel_step(p, e),
        panel_ok(r.0),
        r.1 matches PanelAction::Remove(i) ==> p.active == Some(i) && r.0.tables == p.tables - 1
            && r.0.active is None,
{
    match e {
        PanelEvent::HelpPressed => (Panel { help: true, ..p }, PanelAction::Nothing),
        PanelEvent::HelpClicked => (Panel { help: false, ..p }, PanelAction::Nothing),
        PanelEvent::TableAdded => (Panel { tables: p.tables + 1, ..p }, PanelAction::Nothing),
        PanelEvent::RepsEntered(text) => {
            if p.help {
                (p, PanelAction::Nothing)
            } else {
                let reps = reps_from_text(text.as_str());
                (Panel { reps, ..p }, PanelAction::Nothing)
            }
        },
        PanelEvent::RollEntered => {
            if p.help {
                (p, PanelAction::Nothing)
            } else {
                (Panel { submitted: true, ..p }, PanelAction::Nothing)
            }
        },
        PanelEvent::Select(row, shown) => {
            if p.help || row >= p.tables {
                (p, PanelAction::Nothing)
            } else {
                let active = if shown {
                    Some(row)
                } else {
                    None
                };
                (Panel { active, ..p }, PanelAction::Nothing)
            }
        },
        PanelEvent::DeleteActive => {
            if p.help {
                (p, PanelAction::Nothing)
            } else {
                match p.active {
                    Some(i) => (
                        Panel { active: None, tables: p.tables - 1, ..p },
                        PanelAction::Remove(i),
                    ),
                    None => (p, PanelAction::Nothing),
                }
            }
        },
        PanelEvent::NoticeClicked => {
            if p.help {
                (p, PanelAction::Nothing)
            } else {
                (Panel { miscalculation: false, ..p }, PanelAction::Nothing)
            }
        },
    }
}

} // verus!
