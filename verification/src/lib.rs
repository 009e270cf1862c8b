//! Verified core of a poker bot competition arena and its reference bot:
//! the public game tree and abstraction arithmetic, seat rotation and the
//! match runners' bookkeeping, the `--bot` vocabulary, bot naming and match
//! seeds, the baseline bots' rules (random ones given their draws) and the
//! arena's fault substitutes, OFC placement enumeration, behavioral
//! statistics, hand-history selection, table tracking off the event
//! stream, lossless suit isomorphism and 2-7 value classes, the
//! reference bot's heads-up hand simulator, and the arena's side of the
//! conversation with an out-of-process bot.
use vstd::prelude::*;

pub mod text;
pub mod tree;
pub mod abstraction;
pub mod seating;
pub mod ofc;
pub mod bot;
pub mod log;
pub mod iso;
pub mod blueprint;
pub mod botspec;
pub mod ofc_cli;
pub mod arena_cli;
pub mod run_flags;
pub mod behavior;
pub mod selective;
pub mod table;
pub mod discards;
pub mod deuce;
pub mod ledger;
pub mod sim;
pub mod wire;

verus! {
} // verus!
