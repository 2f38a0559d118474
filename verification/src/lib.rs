//! Opposed dice roll tables: parsing of roll descriptions, the simulation of
//! opposed rolls over a range of bonuses, the significant-figure formatting of
//! axis labels, the CSV form of a table and the controller of the calculation
//! worker.

pub mod text;
pub mod parser;
pub mod libdice;
pub mod labels;
pub mod csv;
pub mod flow;
pub mod dice;
pub mod panel;
