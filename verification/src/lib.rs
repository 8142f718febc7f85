//! Constructing and simulating finite-state automata, with a focus on regex
//! matches on byte arrays.
//!
//! Two kinds of automata are provided:
//! - deterministic ([Dfa]) and
//! - nondeterministic ([Nfa]).
//!
//! Both can be built by primitive composition, run on input, inspected state by
//! state, and converted into one another.  Every state owns one [Transition]
//! rule; the special values [ACCEPTING_STATE] and [REJECTING_STATE] end a run.
use vstd::prelude::*;

pub mod bitset;
pub mod composition;
pub mod dfa;
pub mod nfa;
pub mod powerset;
pub mod switch_table;

pub use bitset::BitSet;
pub use dfa::Dfa;
pub use nfa::Nfa;

verus! {

/// The initial state for a finite-state automaton.
pub const INITIAL_STATE: u16 = 0;

/// The accepting state for a finite-state automaton.
pub const ACCEPTING_STATE: u16 = 0xfffe;

/// The rejecting state for a finite-state automaton.
pub const REJECTING_STATE: u16 = 0xffff;

/// One transition rule in a finite-state automaton.
///
/// If the input is within the (inclusive) range `min..=max`, the "inside"
/// state is taken, otherwise the "outside" state.  When `consume` is set, a
/// new input symbol is read before the decision; otherwise the symbol that
/// was read last is used again.
#[derive(Clone, Copy, Debug, PartialEq, Eq, Structural)]
pub struct Transition {
    pub min: u8,
    pub max: u8,
    pub inside: u16,
    pub outside: u16,
    pub consume: bool,
}

/// A state value that ends a run: accepting or rejecting.
pub open spec fn is_terminal(s: u16) -> bool {
    s >= 0xfffe
}

/// Whether a symbol falls inside the range of a transition.
pub open spec fn in_range(tr: Transition, c: u8) -> bool {
    tr.min <= c && c <= tr.max
}

/// The raw next state that a transition picks for a symbol.
pub open spec fn pick(tr: Transition, c: u8) -> u16 {
    if in_range(tr, c) {
        tr.inside
    } else {
        tr.outside
    }
}

/// `RangeInclusive::start` of std: its documentation says that it returns the
/// lower bound of the range, which is the `start` of vstd's view of it.
pub assume_specification<Idx>[ core::ops::RangeInclusive::<Idx>::start ](
    range: &core::ops::RangeInclusive<Idx>,
) -> (r: &Idx)
    ensures
        *r == range@.start,
;

/// `RangeInclusive::end` of std: its documentation says that it returns the
/// upper bound of the range, which is the `end` of vstd's view of it.
pub assume_specification<Idx>[ core::ops::RangeInclusive::<Idx>::end ](
    range: &core::ops::RangeInclusive<Idx>,
) -> (r: &Idx)
    ensures
        *r == range@.end,
;

} // verus!
