use crate::switch_table::{
    block_len, covers, empty_slots, fill_unused, fill_value, filled, leads,
    lemma_leads_walk, lemma_sorted_len, ok_target, slots_ok, sorted_ranges, table_has, unused_rule, SwitchTable,
};
use crate::{is_terminal, pick, Transition, ACCEPTING_STATE, INITIAL_STATE, REJECTING_STATE};
use std::ops::RangeInclusive;
use vstd::prelude::*;
use vstd::set_lib::{lemma_int_range, lemma_len_subset, set_int_range};
use vstd::std_specs::iter::IteratorSpec;

verus! {

/// A deterministic finite-state automaton.
///
/// Each state is an index into `transitions`; a run starts in state 0 and
/// follows exactly one transition per step until it reaches
/// [ACCEPTING_STATE] or [REJECTING_STATE].
///
/// ## Constructing
/// - [Dfa::from_range]: DFA that matches a single symbol in a range.
/// - [Dfa::from_ranges]: DFA that matches a single symbol in any of a list of ranges.
/// - [Dfa::append]: DFA that matches concatenation.
/// - [Dfa::invert]: DFA that matches the reverse.
/// - [Dfa::switch]: applies either DFA depending on match status.
/// - [Dfa::from_nfa]: converts a NFA into a DFA.
///
/// ## Matching
/// - [Dfa::run]: matches input.
#[derive(Clone)]
pub struct Dfa {
    /// One transition rule per state.
    pub transitions: Vec<Transition>,
}

/// How a deterministic run ends: on a final state, after reading `pos`
/// symbols of which the last one was `symbol`; or because the input ran
/// out at a state that wanted to read; or not at all within the fuel given.
pub enum RunEnd {
    Accept { pos: nat, symbol: u8 },
    Reject { pos: nat, symbol: u8 },
    Exhausted,
    Unfinished,
}

/// A next-state value is valid in an automaton of `len` states when it ends
/// the run or names one of its states.
pub open spec fn valid_target(len: nat, s: u16) -> bool {
    is_terminal(s) || (s as nat) < len
}

/// Well-formedness of a deterministic transition table: at least one state,
/// all state numbers below the two final values, every target valid.
pub open spec fn dfa_wf(t: Seq<Transition>) -> bool {
    &&& 1 <= t.len() <= 0xfffe
    &&& forall|i: int|
        0 <= i < t.len() ==> valid_target(t.len(), #[trigger] t[i].inside) && valid_target(
            t.len(),
            t[i].outside,
        )
}

/// Runs the table from a configuration for at most `fuel` steps.
pub open spec fn dfa_walk(
    t: Seq<Transition>,
    input: Seq<u8>,
    state: u16,
    symbol: u8,
    pos: nat,
    fuel: nat,
) -> RunEnd
    decreases fuel,
{
    if fuel == 0 || state as int >= t.len() {
        RunEnd::Unfinished
    } else {
        let tr = t[state as int];
        if tr.consume && pos >= input.len() {
            RunEnd::Exhausted
        } else {
            let c = if tr.consume {
                input[pos as int]
            } else {
                symbol
            };
            let p = if tr.consume {
                pos + 1
            } else {
                pos
            };
            let n = pick(tr, c);
            if n == ACCEPTING_STATE {
                RunEnd::Accept { pos: p, symbol: c }
            } else if n == REJECTING_STATE {
                RunEnd::Reject { pos: p, symbol: c }
            } else {
                dfa_walk(t, input, n, c, p, (fuel - 1) as nat)
            }
        }
    }
}

/// The run from a configuration ends (rather than looping forever).
pub open spec fn dfa_halts_from(
    t: Seq<Transition>,
    input: Seq<u8>,
    state: u16,
    symbol: u8,
    pos: nat,
) -> bool {
    exists|f: nat| !(#[trigger] dfa_walk(t, input, state, symbol, pos, f) is Unfinished)
}

/// How the run from a configuration ends, when it ends.
pub open spec fn dfa_end_from(
    t: Seq<Transition>,
    input: Seq<u8>,
    state: u16,
    symbol: u8,
    pos: nat,
) -> RunEnd {
    dfa_walk(
        t,
        input,
        state,
        symbol,
        pos,
        choose|f: nat| !(#[trigger] dfa_walk(t, input, state, symbol, pos, f) is Unfinished),
    )
}

/// The run on `input` from the initial state ends.
pub open spec fn dfa_halts(t: Seq<Transition>, input: Seq<u8>) -> bool {
    dfa_halts_from(t, input, INITIAL_STATE, 0, 0)
}

/// How the run on `input` from the initial state ends.
pub open spec fn dfa_end(t: Seq<Transition>, input: Seq<u8>) -> RunEnd {
    dfa_end_from(t, input, INITIAL_STATE, 0, 0)
}

/// How many input symbols a finished run has read.
pub open spec fn symbols_read(e: RunEnd, input_len: nat) -> nat {
    match e {
        RunEnd::Accept { pos, .. } => pos,
        RunEnd::Reject { pos, .. } => pos,
        RunEnd::Exhausted => input_len,
        RunEnd::Unfinished => 0,
    }
}

/// Once a run has ended within some fuel, more fuel does not change the end.
pub proof fn lemma_walk_fuel(
    t: Seq<Transition>,
    input: Seq<u8>,
    state: u16,
    symbol: u8,
    pos: nat,
    f: nat,
    g: nat,
)
    requires
        f <= g,
        !(dfa_walk(t, input, state, symbol, pos, f) is Unfinished),
    ensures
        dfa_walk(t, input, state, symbol, pos, g) == dfa_walk(t, input, state, symbol, pos, f),
    decreases f,
{
    let tr = t[state as int];
    if !(tr.consume && pos >= input.len()) {
        let c = if tr.consume {
            input[pos as int]
        } else {
            symbol
        };
        let p = if tr.consume {
            pos + 1
        } else {
            pos
        };
        let n = pick(tr, c);
        if n != ACCEPTING_STATE && n != REJECTING_STATE {
            lemma_walk_fuel(t, input, n, c, p, (f - 1) as nat, (g - 1) as nat);
        }
    }
}

/// The end of a halting run is what any sufficient fuel gives.
pub proof fn lemma_end_is_walk(
    t: Seq<Transition>,
    input: Seq<u8>,
    state: u16,
    symbol: u8,
    pos: nat,
    f: nat,
)
    requires
        !(dfa_walk(t, input, state, symbol, pos, f) is Unfinished),
    ensures
        dfa_halts_from(t, input, state, symbol, pos),
        dfa_end_from(t, input, state, symbol, pos) == dfa_walk(t, input, state, symbol, pos, f),
{
    let g = choose|g: nat| !(#[trigger] dfa_walk(t, input, state, symbol, pos, g) is Unfinished);
    if f <= g {
        lemma_walk_fuel(t, input, state, symbol, pos, f, g);
    } else {
        lemma_walk_fuel(t, input, state, symbol, pos, g, f);
    }
}

/// One step of a run: a halting run from a state that moves to a further
/// state ends as the run from there ends.
pub proof fn lemma_end_step(
    t: Seq<Transition>,
    input: Seq<u8>,
    state: u16,
    symbol: u8,
    pos: nat,
)
    requires
        (state as int) < t.len(),
        dfa_halts_from(t, input, state, symbol, pos),
        !(t[state as int].consume && pos >= input.len()),
    ensures
        ({
            let tr = t[state as int];
            let c = if tr.consume {
                input[pos as int]
            } else {
                symbol
            };
            let p = if tr.consume {
                pos + 1
            } else {
                pos
            };
            let n = pick(tr, c);
            !is_terminal(n) ==> dfa_halts_from(t, input, n, c, p) && dfa_end_from(
                t,
                input,
                state,
                symbol,
                pos,
            ) == dfa_end_from(t, input, n, c, p)
        }),
{
    let f = choose|f: nat| !(#[trigger] dfa_walk(t, input, state, symbol, pos, f) is Unfinished);
    lemma_end_is_walk(t, input, state, symbol, pos, f);
    let tr = t[state as int];
    let c = if tr.consume {
        input[pos as int]
    } else {
        symbol
    };
    let p = if tr.consume {
        pos + 1
    } else {
        pos
    };
    let n = pick(tr, c);
    if !is_terminal(n) {
        lemma_end_is_walk(t, input, n, c, p, (f - 1) as nat);
    }
}

/// A chain of states that follow one another without reading input.
pub open spec fn quiet_chain(t: Seq<Transition>, symbol: u8, chain: Seq<int>) -> bool {
    forall|i: int|
        0 <= i < chain.len() - 1 ==> {
            &&& 0 <= #[trigger] chain[i] < t.len()
            &&& !t[chain[i]].consume
            &&& pick(t[chain[i]], symbol) as int == chain[i + 1]
            &&& !is_terminal(pick(t[chain[i]], symbol))
        }
}

proof fn lemma_quiet_chain_walk(
    t: Seq<Transition>,
    input: Seq<u8>,
    symbol: u8,
    pos: nat,
    chain: Seq<int>,
    k: int,
    f: nat,
)
    requires
        quiet_chain(t, symbol, chain),
        0 <= k < chain.len(),
        forall|i: int| 0 <= i < chain.len() ==> 0 <= #[trigger] chain[i] < 0x10000,
    ensures
        dfa_walk(t, input, chain[0] as u16, symbol, pos, f + k as nat) == dfa_walk(
            t,
            input,
            chain[k] as u16,
            symbol,
            pos,
            f,
        ),
    decreases k,
{
    if k > 0 {
        lemma_quiet_chain_walk(t, input, symbol, pos, chain, k - 1, f + 1);
        assert(dfa_walk(t, input, chain[k - 1] as u16, symbol, pos, f + 1) == dfa_walk(
            t,
            input,
            chain[k] as u16,
            symbol,
            pos,
            f,
        ));
        assert(f + 1 + (k - 1) as nat == f + k as nat);
    }
}

/// A quiet chain that returns to its first state never ends.
proof fn lemma_quiet_cycle(
    t: Seq<Transition>,
    input: Seq<u8>,
    symbol: u8,
    pos: nat,
    chain: Seq<int>,
    f: nat,
)
    requires
        quiet_chain(t, symbol, chain),
        chain.len() >= 2,
        chain.last() == chain[0],
        forall|i: int| 0 <= i < chain.len() ==> 0 <= #[trigger] chain[i] < 0x10000,
    ensures
        dfa_walk(t, input, chain[0] as u16, symbol, pos, f) is Unfinished,
    decreases f,
{
    let m = chain.len() - 1;
    if f < m {
        lemma_quiet_chain_walk(t, input, symbol, pos, chain, f as int, 0);
    } else {
        lemma_quiet_chain_walk(t, input, symbol, pos, chain, m, (f - m) as nat);
        lemma_quiet_cycle(t, input, symbol, pos, chain, (f - m) as nat);
    }
}

/// A sequence of distinct numbers below `n` has at most `n` elements.
pub proof fn lemma_distinct_below(s: Seq<int>, n: int)
    requires
        n >= 0,
        s.no_duplicates(),
        forall|i: int| 0 <= i < s.len() ==> 0 <= #[trigger] s[i] < n,
    ensures
        s.len() <= n,
{
    s.unique_seq_to_set();
    lemma_int_range(0, n);
    assert(s.to_set().subset_of(set_int_range(0, n)));
    lemma_len_subset(s.to_set(), set_int_range(0, n));
}

/// A transition whose two targets are passed through `f`.
pub open spec fn retarget_one(tr: Transition, f: spec_fn(u16) -> u16) -> Transition {
    Transition { inside: f(tr.inside), outside: f(tr.outside), ..tr }
}

/// A table whose targets are all passed through `f`.
pub open spec fn retarget(t: Seq<Transition>, f: spec_fn(u16) -> u16) -> Seq<Transition> {
    Seq::new(t.len(), |i: int| retarget_one(t[i], f))
}

/// Replaces one target value by another.
pub open spec fn replace_fn(old: u16, new: u16) -> spec_fn(u16) -> u16 {
    |s: u16| if s == old { new } else { s }
}

/// Shifts every state number by `offset`, leaving the final values alone.
pub open spec fn rebase_fn(offset: u16) -> spec_fn(u16) -> u16 {
    |s: u16| if is_terminal(s) { s } else { (s + offset) as u16 }
}

/// Exchanges the accepting and the rejecting value.
pub open spec fn swap_fn() -> spec_fn(u16) -> u16 {
    |s: u16|
        if s == ACCEPTING_STATE {
            REJECTING_STATE
        } else if s == REJECTING_STATE {
            ACCEPTING_STATE
        } else {
            s
        }
}

/// The table with its first state made to reuse the symbol read last.
pub open spec fn without_first_read(t: Seq<Transition>) -> Seq<Transition> {
    t.update(0, Transition { consume: false, ..t[0] })
}

/// The single-state table that reads one symbol and accepts it if it lies
/// within `min..=max`.
pub open spec fn range_table(min: u8, max: u8) -> Seq<Transition> {
    seq![
        Transition {
            min,
            max,
            inside: ACCEPTING_STATE,
            outside: REJECTING_STATE,
            consume: true,
        },
    ]
}

/// The table of the concatenation of `a` and `b`.
pub open spec fn append_table(a: Seq<Transition>, b: Seq<Transition>) -> Seq<Transition> {
    retarget(a, replace_fn(ACCEPTING_STATE, a.len() as u16)) + retarget(b, rebase_fn(a.len() as u16))
}

/// The table with opposite matching behavior.
pub open spec fn invert_table(t: Seq<Transition>) -> Seq<Transition> {
    retarget(t, swap_fn())
}

/// The table that runs `a`, then `b` if `a` accepted or `c` if it rejected;
/// `b` and `c` start on the symbol that `a` read last.
pub open spec fn switch_table(a: Seq<Transition>, b: Seq<Transition>, c: Seq<Transition>) -> Seq<
    Transition,
> {
    retarget(
        retarget(a, replace_fn(ACCEPTING_STATE, a.len() as u16)),
        replace_fn(REJECTING_STATE, (a.len() + b.len()) as u16),
    ) + retarget(without_first_read(b), rebase_fn(a.len() as u16)) + retarget(
        without_first_read(c),
        rebase_fn((a.len() + b.len()) as u16),
    )
}

proof fn lemma_append_table_wf(a: Seq<Transition>, b: Seq<Transition>)
    requires
        dfa_wf(a),
        dfa_wf(b),
        a.len() + b.len() <= 0xfffe,
    ensures
        dfa_wf(append_table(a, b)),
{
    let t = append_table(a, b);
    assert forall|i: int| 0 <= i < t.len() implies valid_target(t.len(), #[trigger] t[i].inside)
        && valid_target(t.len(), t[i].outside) by {
        if i >= a.len() {
            assert(t[i] == retarget_one(b[i - a.len()], rebase_fn(a.len() as u16)));
        }
    }
}

proof fn lemma_switch_table_wf(a: Seq<Transition>, b: Seq<Transition>, c: Seq<Transition>)
    requires
        dfa_wf(a),
        dfa_wf(b),
        dfa_wf(c),
        a.len() + b.len() + c.len() <= 0xfffe,
    ensures
        dfa_wf(switch_table(a, b, c)),
{
    let t = switch_table(a, b, c);
    let b1 = without_first_read(b);
    let c1 = without_first_read(c);
    assert forall|i: int| 0 <= i < t.len() implies valid_target(t.len(), #[trigger] t[i].inside)
        && valid_target(t.len(), t[i].outside) by {
        if a.len() <= i < a.len() + b.len() {
            assert(t[i] == retarget_one(b1[i - a.len()], rebase_fn(a.len() as u16)));
            assert(b1[i - a.len()].inside == b[i - a.len()].inside);
            assert(b1[i - a.len()].outside == b[i - a.len()].outside);
        } else if i >= a.len() + b.len() {
            assert(t[i] == retarget_one(
                c1[i - a.len() - b.len()],
                rebase_fn((a.len() + b.len()) as u16),
            ));
            assert(c1[i - a.len() - b.len()].inside == c[i - a.len() - b.len()].inside);
            assert(c1[i - a.len() - b.len()].outside == c[i - a.len() - b.len()].outside);
        }
    }
}

/// How a run ends when accepting and rejecting are exchanged.
pub open spec fn swap_end(e: RunEnd) -> RunEnd {
    match e {
        RunEnd::Accept { pos, symbol } => RunEnd::Reject { pos, symbol },
        RunEnd::Reject { pos, symbol } => RunEnd::Accept { pos, symbol },
        other => other,
    }
}

/// How the run on `input` of a single-range table ends: it reads one symbol
/// and accepts exactly when that symbol lies within `min..=max`.
pub open spec fn range_end(min: u8, max: u8, input: Seq<u8>) -> RunEnd {
    if input.len() == 0 {
        RunEnd::Exhausted
    } else if min <= input[0] && input[0] <= max {
        RunEnd::Accept { pos: 1, symbol: input[0] }
    } else {
        RunEnd::Reject { pos: 1, symbol: input[0] }
    }
}

/// Continuing a run at a target value: a final value ends it at once,
/// a state runs on from there.
pub open spec fn dfa_halts_at(t: Seq<Transition>, input: Seq<u8>, target: u16, symbol: u8, pos: nat) -> bool {
    is_terminal(target) || dfa_halts_from(t, input, target, symbol, pos)
}

/// See [dfa_halts_at].
pub open spec fn dfa_end_at(t: Seq<Transition>, input: Seq<u8>, target: u16, symbol: u8, pos: nat) -> RunEnd {
    if target == ACCEPTING_STATE {
        RunEnd::Accept { pos, symbol }
    } else if target == REJECTING_STATE {
        RunEnd::Reject { pos, symbol }
    } else {
        dfa_end_from(t, input, target, symbol, pos)
    }
}

/// Two configurations whose walks agree for every fuel halt together and
/// end alike.
proof fn lemma_same_walks(
    t: Seq<Transition>,
    u: Seq<Transition>,
    input: Seq<u8>,
    s: u16,
    v: u16,
    symbol: u8,
    pos: nat,
)
    requires
        forall|f: nat| #[trigger] dfa_walk(t, input, s, symbol, pos, f) == dfa_walk(u, input, v, symbol, pos, f),
    ensures
        dfa_halts_from(t, input, s, symbol, pos) == dfa_halts_from(u, input, v, symbol, pos),
        dfa_halts_from(t, input, s, symbol, pos) ==> dfa_end_from(t, input, s, symbol, pos)
            == dfa_end_from(u, input, v, symbol, pos),
{
    if dfa_halts_from(t, input, s, symbol, pos) {
        let f = choose|f: nat| !(#[trigger] dfa_walk(t, input, s, symbol, pos, f) is Unfinished);
        lemma_end_is_walk(t, input, s, symbol, pos, f);
        lemma_end_is_walk(u, input, v, symbol, pos, f);
    }
    if dfa_halts_from(u, input, v, symbol, pos) {
        let f = choose|f: nat| !(#[trigger] dfa_walk(u, input, v, symbol, pos, f) is Unfinished);
        assert(dfa_walk(t, input, s, symbol, pos, f) == dfa_walk(u, input, v, symbol, pos, f));
    }
}

/// One step neither gains nor loses halting, and keeps the end.
pub proof fn lemma_step_equiv(t: Seq<Transition>, input: Seq<u8>, state: u16, symbol: u8, pos: nat)
    requires
        (state as int) < t.len(),
        !(t[state as int].consume && pos >= input.len()),
    ensures
        ({
            let tr = t[state as int];
            let c = if tr.consume {
                input[pos as int]
            } else {
                symbol
            };
            let p = if tr.consume {
                pos + 1
            } else {
                pos
            };
            let n = pick(tr, c);
            &&& dfa_halts_from(t, input, state, symbol, pos) <==> dfa_halts_at(t, input, n, c, p)
            &&& dfa_halts_from(t, input, state, symbol, pos) ==> dfa_end_from(
                t,
                input,
                state,
                symbol,
                pos,
            ) == dfa_end_at(t, input, n, c, p)
        }),
{
    let tr = t[state as int];
    let c = if tr.consume {
        input[pos as int]
    } else {
        symbol
    };
    let p = if tr.consume {
        pos + 1
    } else {
        pos
    };
    let n = pick(tr, c);
    if is_terminal(n) {
        lemma_end_is_walk(t, input, state, symbol, pos, 1);
    } else {
        if dfa_halts_from(t, input, n, c, p) {
            let g = choose|g: nat| !(#[trigger] dfa_walk(t, input, n, c, p, g) is Unfinished);
            assert(dfa_walk(t, input, state, symbol, pos, g + 1) == dfa_walk(t, input, n, c, p, g));
            lemma_end_is_walk(t, input, state, symbol, pos, g + 1);
            lemma_end_is_walk(t, input, n, c, p, g);
        }
        if dfa_halts_from(t, input, state, symbol, pos) {
            lemma_end_step(t, input, state, symbol, pos);
        }
    }
}

/// A table whose states `o..o + x.len()` are `x` shifted by `o` runs from
/// there exactly as `x` runs.
proof fn lemma_embedded_walk(
    c: Seq<Transition>,
    x: Seq<Transition>,
    o: nat,
    input: Seq<u8>,
    s: u16,
    symbol: u8,
    pos: nat,
    f: nat,
)
    requires
        dfa_wf(x),
        o + x.len() <= 0xfffe,
        c.len() >= o + x.len(),
        forall|i: int| 0 <= i < x.len() ==> #[trigger] c[o + i] == retarget_one(x[i], rebase_fn(o as u16)),
        (s as int) < x.len(),
    ensures
        dfa_walk(c, input, (s + o) as u16, symbol, pos, f) == dfa_walk(x, input, s, symbol, pos, f),
    decreases f,
{
    if f > 0 {
        let tr = x[s as int];
        assert(c[o + s] == retarget_one(tr, rebase_fn(o as u16)));
        if !(tr.consume && pos >= input.len()) {
            let ch = if tr.consume {
                input[pos as int]
            } else {
                symbol
            };
            let p = if tr.consume {
                pos + 1
            } else {
                pos
            };
            let n = pick(tr, ch);
            if !is_terminal(n) {
                lemma_embedded_walk(c, x, o, input, n, ch, p, (f - 1) as nat);
            }
        }
    }
}

/// A table whose first `a.len()` states are `a` with only its final targets
/// redirected by `h` runs from there as `a` does, and where `a` would end
/// on a final value, it goes on from the redirected target.
proof fn lemma_head_walk(
    c: Seq<Transition>,
    a: Seq<Transition>,
    h: spec_fn(u16) -> u16,
    input: Seq<u8>,
    s: u16,
    symbol: u8,
    pos: nat,
    f: nat,
)
    requires
        dfa_wf(a),
        c.len() >= a.len(),
        forall|i: int| 0 <= i < a.len() ==> #[trigger] c[i] == retarget_one(a[i], h),
        forall|v: u16| !is_terminal(v) ==> #[trigger] h(v) == v,
        (s as int) < a.len(),
        !(dfa_walk(a, input, s, symbol, pos, f) is Unfinished),
    ensures
        match dfa_walk(a, input, s, symbol, pos, f) {
            RunEnd::Accept { pos: p, symbol: ch } => (dfa_halts_from(c, input, s, symbol, pos)
                <==> dfa_halts_at(c, input, h(ACCEPTING_STATE), ch, p)) && (dfa_halts_from(
                c,
                input,
                s,
                symbol,
                pos,
            ) ==> dfa_end_from(c, input, s, symbol, pos) == dfa_end_at(
                c,
                input,
                h(ACCEPTING_STATE),
                ch,
                p,
            )),
            RunEnd::Reject { pos: p, symbol: ch } => (dfa_halts_from(c, input, s, symbol, pos)
                <==> dfa_halts_at(c, input, h(REJECTING_STATE), ch, p)) && (dfa_halts_from(
                c,
                input,
                s,
                symbol,
                pos,
            ) ==> dfa_end_from(c, input, s, symbol, pos) == dfa_end_at(
                c,
                input,
                h(REJECTING_STATE),
                ch,
                p,
            )),
            e => dfa_halts_from(c, input, s, symbol, pos) && dfa_end_from(c, input, s, symbol, pos)
                == e,
        },
    decreases f,
{
    let tr = a[s as int];
    assert(c[s as int] == retarget_one(tr, h));
    if tr.consume && pos >= input.len() {
        lemma_end_is_walk(c, input, s, symbol, pos, 1);
    } else {
        let ch = if tr.consume {
            input[pos as int]
        } else {
            symbol
        };
        let p = if tr.consume {
            pos + 1
        } else {
            pos
        };
        let n = pick(tr, ch);
        assert(pick(c[s as int], ch) == h(n));
        lemma_step_equiv(c, input, s, symbol, pos);
        if !is_terminal(n) {
            assert(h(n) == n);
            lemma_head_walk(c, a, h, input, n, ch, p, (f - 1) as nat);
        }
    }
}

/// Runs of a table and of its inversion agree step for step, with
/// accepting and rejecting exchanged.
proof fn lemma_invert_walk(t: Seq<Transition>, input: Seq<u8>, s: u16, symbol: u8, pos: nat, f: nat)
    ensures
        dfa_walk(invert_table(t), input, s, symbol, pos, f) == swap_end(
            dfa_walk(t, input, s, symbol, pos, f),
        ),
    decreases f,
{
    if f > 0 && (s as int) < t.len() {
        let tr = t[s as int];
        assert(invert_table(t)[s as int] == retarget_one(tr, swap_fn()));
        if !(tr.consume && pos >= input.len()) {
            let ch = if tr.consume {
                input[pos as int]
            } else {
                symbol
            };
            let p = if tr.consume {
                pos + 1
            } else {
                pos
            };
            let n = pick(tr, ch);
            if !is_terminal(n) {
                lemma_invert_walk(t, input, n, ch, p, (f - 1) as nat);
            }
        }
    }
}

/// Inverting a DFA exchanges accepting and rejecting on every input: the
/// inverted DFA halts exactly when the DFA itself does, after reading the same
/// symbols, and accepts exactly when the DFA itself rejects.
pub proof fn lemma_invert_runs(t: Seq<Transition>, input: Seq<u8>)
    ensures
        dfa_halts(invert_table(t), input) == dfa_halts(t, input),
        dfa_halts(t, input) ==> dfa_end(invert_table(t), input) == swap_end(dfa_end(t, input)),
{
    assert forall|f: nat| #[trigger] dfa_walk(invert_table(t), input, 0, 0, 0, f) == swap_end(dfa_walk(t, input, 0, 0, 0, f)) by {
        lemma_invert_walk(t, input, 0, 0, 0, f);
    }
    if dfa_halts(t, input) {
        let f = choose|f: nat| !(#[trigger] dfa_walk(t, input, 0, 0, 0, f) is Unfinished);
        lemma_end_is_walk(t, input, 0, 0, 0, f);
        lemma_end_is_walk(invert_table(t), input, 0, 0, 0, f);
    }
    if dfa_halts(invert_table(t), input) {
        let f = choose|f: nat| !(#[trigger] dfa_walk(invert_table(t), input, 0, 0, 0, f) is Unfinished);
        assert(!(dfa_walk(t, input, 0, 0, 0, f) is Unfinished));
    }
}

/// Inverting twice gives back the same table.
pub proof fn lemma_invert_involution(t: Seq<Transition>)
    ensures
        invert_table(invert_table(t)) == t,
{
    assert(invert_table(invert_table(t)) =~= t);
}

/// The concatenation runs the first DFA, and where it accepts, runs the
/// second one from its initial state, on the rest of the input.  Where the
/// first DFA rejects or runs out of input, so does the concatenation.
pub proof fn lemma_append_runs(a: Seq<Transition>, b: Seq<Transition>, input: Seq<u8>)
    requires
        dfa_wf(a),
        dfa_wf(b),
        a.len() + b.len() <= 0xfffe,
        dfa_halts(a, input),
    ensures
        match dfa_end(a, input) {
            RunEnd::Accept { pos, symbol } => (dfa_halts(append_table(a, b), input)
                <==> dfa_halts_from(b, input, 0, symbol, pos)) && (dfa_halts(
                append_table(a, b),
                input,
            ) ==> dfa_end(append_table(a, b), input) == dfa_end_from(b, input, 0, symbol, pos)),
            e => dfa_halts(append_table(a, b), input) && dfa_end(append_table(a, b), input) == e,
        },
{
    let c = append_table(a, b);
    let h = replace_fn(ACCEPTING_STATE, a.len() as u16);
    let f = choose|f: nat| !(#[trigger] dfa_walk(a, input, 0, 0, 0, f) is Unfinished);
    lemma_end_is_walk(a, input, 0, 0, 0, f);
    assert forall|i: int| 0 <= i < a.len() implies #[trigger] c[i] == retarget_one(a[i], h) by {}
    lemma_head_walk(c, a, h, input, 0, 0, 0, f);
    if dfa_end(a, input) is Accept {
        let p = dfa_end(a, input)->Accept_pos;
        let ch = dfa_end(a, input)->Accept_symbol;
        assert forall|i: int| 0 <= i < b.len() implies #[trigger] c[a.len() + i] == retarget_one(
            b[i],
            rebase_fn(a.len() as u16),
        ) by {}
        assert forall|g: nat| #[trigger] dfa_walk(c, input, a.len() as u16, ch, p, g) == dfa_walk(
            b,
            input,
            0,
            ch,
            p,
            g,
        ) by {
            lemma_embedded_walk(c, b, a.len(), input, 0, ch, p, g);
        }
        lemma_same_walks(c, b, input, a.len() as u16, 0, ch, p);
    }
}

/// A next state of state `s` that keeps a run from going round without
/// reading: a final value, a later state, or a state that reads.
pub open spec fn forward_target(t: Seq<Transition>, s: int, v: u16) -> bool {
    is_terminal(v) || s < v || t[v as int].consume
}

/// Every state that does not read goes on only to forward targets, so that
/// no cycle of the table goes round without reading.
pub open spec fn reads_forward(t: Seq<Transition>) -> bool {
    forall|s: int|
        0 <= s < t.len() && !(#[trigger] t[s]).consume ==> forward_target(t, s, t[s].inside) && forward_target(
            t,
            s,
            t[s].outside,
        )
}

/// Fuel that is enough for a walk of a table whose non-reading states
/// only go forward.
pub open spec fn forward_fuel(t: Seq<Transition>, input: Seq<u8>, state: u16, pos: nat) -> int {
    (input.len() - pos) * (t.len() + 1) + (if t[state as int].consume {
        0
    } else {
        t.len() - state
    }) + 1
}

proof fn lemma_forward_walk(t: Seq<Transition>, input: Seq<u8>, state: u16, symbol: u8, pos: nat, f: nat)
    requires
        dfa_wf(t),
        reads_forward(t),
        (state as int) < t.len(),
        pos <= input.len(),
        f >= forward_fuel(t, input, state, pos),
    ensures
        !(dfa_walk(t, input, state, symbol, pos, f) is Unfinished),
    decreases f,
{
    let tr = t[state as int];
    let n_len = t.len() as int;
    let m = input.len() - pos;
    assert(m * (n_len + 1) >= 0) by (nonlinear_arith)
        requires
            m >= 0,
            n_len >= 0,
    ;
    if !(tr.consume && pos >= input.len()) {
        let c = if tr.consume {
            input[pos as int]
        } else {
            symbol
        };
        let p = if tr.consume {
            pos + 1
        } else {
            pos
        };
        let n = pick(tr, c);
        if !is_terminal(n) {
            assert(valid_target(t.len(), tr.inside) && valid_target(t.len(), tr.outside));
            assert((n as int) < t.len());
            if tr.consume {
                assert((m - 1) * (n_len + 1) + n_len + 1 == m * (n_len + 1)) by (nonlinear_arith);
                assert((m - 1) * (n_len + 1) >= 0) by (nonlinear_arith)
                    requires
                        m >= 1,
                        n_len >= 0,
                ;
            } else {
                assert(forward_target(t, state as int, n));
            }
            lemma_forward_walk(t, input, n, c, p, (f - 1) as nat);
        }
    }
}

/// A table whose non-reading states only go forward halts on every input,
/// from every state.
pub proof fn lemma_forward_halts(t: Seq<Transition>, input: Seq<u8>, state: u16, symbol: u8, pos: nat)
    requires
        dfa_wf(t),
        reads_forward(t),
        (state as int) < t.len(),
        pos <= input.len(),
    ensures
        dfa_halts_from(t, input, state, symbol, pos),
{
    let f = forward_fuel(t, input, state, pos);
    let n_len = t.len() as int;
    let m = input.len() - pos;
    assert(m * (n_len + 1) >= 0) by (nonlinear_arith)
        requires
            m >= 0,
            n_len >= 0,
    ;
    lemma_forward_walk(t, input, state, symbol, pos, f as nat);
}

/// Concatenation ([Dfa::append]) is associative: appending `c` to the
/// concatenation of `a` and `b` gives the same table as appending the
/// concatenation of `b` and `c` to `a`.
pub proof fn lemma_append_assoc(a: Seq<Transition>, b: Seq<Transition>, c: Seq<Transition>)
    requires
        dfa_wf(a),
        dfa_wf(b),
        dfa_wf(c),
        a.len() + b.len() + c.len() <= 0xfffe,
    ensures
        append_table(append_table(a, b), c) == append_table(a, append_table(b, c)),
{
    let la = a.len();
    let lb = b.len();
    let ab = append_table(a, b);
    let bc = append_table(b, c);
    let x = append_table(ab, c);
    let y = append_table(a, bc);
    assert(x.len() == y.len());
    assert forall|i: int| 0 <= i < x.len() implies #[trigger] x[i] == y[i] by {
        if i < la {
            let tr = a[i];
            assert(valid_target(a.len(), tr.inside));
            assert(valid_target(a.len(), tr.outside));
            assert(ab[i] == retarget_one(a[i], replace_fn(ACCEPTING_STATE, la as u16)));
            assert(x[i] == retarget_one(ab[i], replace_fn(ACCEPTING_STATE, (la + lb) as u16)));
            assert(y[i] == retarget_one(a[i], replace_fn(ACCEPTING_STATE, la as u16)));
        } else if i < la + lb {
            let k = i - la;
            let tr = b[k];
            assert(valid_target(b.len(), tr.inside));
            assert(valid_target(b.len(), tr.outside));
            assert(ab[i] == retarget_one(b[k], rebase_fn(la as u16)));
            assert(x[i] == retarget_one(ab[i], replace_fn(ACCEPTING_STATE, (la + lb) as u16)));
            assert(bc[k] == retarget_one(b[k], replace_fn(ACCEPTING_STATE, lb as u16)));
            assert(y[i] == retarget_one(bc[k], rebase_fn(la as u16)));
        } else {
            let k = i - la - lb;
            assert(valid_target(c.len(), c[k].inside) && valid_target(c.len(), c[k].outside));
            assert(x[i] == retarget_one(c[k], rebase_fn((la + lb) as u16)));
            assert(bc[(i - la)] == retarget_one(c[k], rebase_fn(lb as u16)));
            assert(y[i] == retarget_one(bc[i - la], rebase_fn(la as u16)));
        }
    }
    assert(x =~= y);
}

/// No chain of states that do not read, on any symbol, comes back to the
/// state it started from: the table has no cycle of non-reading states.
pub open spec fn dfa_quiet_acyclic(t: Seq<Transition>) -> bool {
    forall|c: u8, chain: Seq<int>| #[trigger] quiet_chain(t, c, chain) && chain.len() >= 2 ==> chain[0] != chain.last()
}

/// Without cycles of non-reading states, the chain of non-reading states
/// from a state reaches, within as many steps as there are states, a state
/// that reads or one that ends the run.
proof fn lemma_escape(t: Seq<Transition>, c: u8, chain: Seq<int>) -> (z: Seq<int>)
    requires
        dfa_wf(t),
        dfa_quiet_acyclic(t),
        quiet_chain(t, c, chain),
        chain.len() >= 1,
        chain.no_duplicates(),
        forall|i: int| 0 <= i < chain.len() ==> 0 <= #[trigger] chain[i] < t.len(),
    ensures
        quiet_chain(t, c, z),
        1 <= z.len() <= t.len(),
        z[0] == chain[0],
        forall|i: int| 0 <= i < z.len() ==> 0 <= #[trigger] z[i] < t.len(),
        t[z.last()].consume || is_terminal(pick(t[z.last()], c)),
    decreases t.len() - chain.len(),
{
    lemma_distinct_below(chain, t.len() as int);
    let x = chain.last();
    if t[x].consume || is_terminal(pick(t[x], c)) {
        chain
    } else {
        let tr = t[x];
        assert(valid_target(t.len(), tr.inside));
        assert(valid_target(t.len(), tr.outside));
        let v = pick(tr, c) as int;
        let grown = chain.push(v);
        assert forall|i: int| 0 <= i < grown.len() - 1 implies {
            &&& 0 <= #[trigger] grown[i] < t.len()
            &&& !t[grown[i]].consume
            &&& pick(t[grown[i]], c) as int == grown[i + 1]
            &&& !is_terminal(pick(t[grown[i]], c))
        } by {
            if i < chain.len() - 1 {
                assert(grown[i] == chain[i] && grown[i + 1] == chain[i + 1]);
            }
        }
        assert(quiet_chain(t, c, grown));
        if chain.contains(v) {
            let j = choose|j: int| 0 <= j < chain.len() && chain[j] == v;
            let cyc = grown.subrange(j, grown.len() as int);
            assert forall|i: int| 0 <= i < cyc.len() - 1 implies {
                &&& 0 <= #[trigger] cyc[i] < t.len()
                &&& !t[cyc[i]].consume
                &&& pick(t[cyc[i]], c) as int == cyc[i + 1]
                &&& !is_terminal(pick(t[cyc[i]], c))
            } by {
                assert(cyc[i] == grown[j + i] && cyc[i + 1] == grown[j + i + 1]);
            }
            assert(quiet_chain(t, c, cyc));
            assert(cyc[0] == cyc.last());
        }
        assert forall|i: int| 0 <= i < grown.len() implies 0 <= #[trigger] grown[i] < t.len() by {
            if i < chain.len() {
                assert(grown[i] == chain[i]);
            }
        }
        assert(grown.no_duplicates()) by {
            assert forall|i: int, k: int| 0 <= i < grown.len() && 0 <= k < grown.len() && i != k implies grown[i] != grown[k] by {
                if i < chain.len() && k < chain.len() {
                    assert(grown[i] == chain[i] && grown[k] == chain[k]);
                } else if i < chain.len() {
                    assert(chain.contains(grown[i]));
                } else {
                    assert(chain.contains(grown[k]));
                }
            }
        }
        lemma_distinct_below(grown, t.len() as int);
        lemma_escape(t, c, grown)
    }
}

/// The walk of a table without cycles of non-reading states, from a state
/// that reads, ends within `(n - pos) * (len + 2) + 1` steps.
proof fn lemma_acyclic_walk_reading(t: Seq<Transition>, input: Seq<u8>, y: u16, sym: u8, pos: nat, f: nat)
    requires
        dfa_wf(t),
        dfa_quiet_acyclic(t),
        (y as int) < t.len(),
        t[y as int].consume,
        pos <= input.len(),
        f >= (input.len() - pos) * (t.len() + 2) + 1,
    ensures
        !(dfa_walk(t, input, y, sym, pos, f) is Unfinished),
    decreases 2 * (input.len() - pos),
{
    let n_len = t.len() as int;
    let m = input.len() - pos;
    if pos < input.len() {
        let tr = t[y as int];
        let c = input[pos as int];
        let n = pick(tr, c);
        if !is_terminal(n) {
            assert(valid_target(t.len(), tr.inside));
            assert(valid_target(t.len(), tr.outside));
            assert((m - 1) * (n_len + 2) + n_len + 2 == m * (n_len + 2)) by (nonlinear_arith);
            assert((m - 1) * (n_len + 2) >= 0) by (nonlinear_arith)
                requires
                    m >= 1,
                    n_len >= 0,
            ;
            lemma_acyclic_walk_any(t, input, n, c, pos + 1, (f - 1) as nat);
        }
    }
}

/// The walk of a table without cycles of non-reading states, from any
/// state, ends within `(n - pos) * (len + 2) + len + 2` steps.
proof fn lemma_acyclic_walk_any(t: Seq<Transition>, input: Seq<u8>, y: u16, sym: u8, pos: nat, f: nat)
    requires
        dfa_wf(t),
        dfa_quiet_acyclic(t),
        (y as int) < t.len(),
        pos <= input.len(),
        f >= (input.len() - pos) * (t.len() + 2) + t.len() + 2,
    ensures
        !(dfa_walk(t, input, y, sym, pos, f) is Unfinished),
    decreases 2 * (input.len() - pos) + 1,
{
    let n_len = t.len() as int;
    let m = input.len() - pos;
    assert(m * (n_len + 2) >= 0) by (nonlinear_arith)
        requires
            m >= 0,
            n_len >= 0,
    ;
    if t[y as int].consume {
        lemma_acyclic_walk_reading(t, input, y, sym, pos, f);
    } else {
        let start = seq![y as int];
        assert(quiet_chain(t, sym, start));
        let z = lemma_escape(t, sym, start);
        let k = z.len() - 1;
        lemma_quiet_chain_walk(t, input, sym, pos, z, k, (f - k) as nat);
        assert(z[0] as u16 == y);
        let last = z.last() as u16;
        assert(z[k] == z.last());
        if t[last as int].consume {
            lemma_acyclic_walk_reading(t, input, last, sym, pos, (f - k) as nat);
        } else {
            assert((f - k) as nat >= 1);
        }
        assert(f == (f - k) as nat + k as nat);
    }
}

/// A table without cycles of non-reading states halts on every input, from
/// every state.
pub proof fn lemma_acyclic_halts(t: Seq<Transition>, input: Seq<u8>, state: u16, symbol: u8, pos: nat)
    requires
        dfa_wf(t),
        dfa_quiet_acyclic(t),
        (state as int) < t.len(),
        pos <= input.len(),
    ensures
        dfa_halts_from(t, input, state, symbol, pos),
{
    let n_len = t.len() as int;
    let m = input.len() - pos;
    assert(m * (n_len + 2) >= 0) by (nonlinear_arith)
        requires
            m >= 0,
            n_len >= 0,
    ;
    let f = (m * (n_len + 2) + n_len + 2) as nat;
    lemma_acyclic_walk_any(t, input, state, symbol, pos, f);
}

/// A finished run's end with its position moved on by `k`.
pub open spec fn shift_end(e: RunEnd, k: nat) -> RunEnd {
    match e {
        RunEnd::Accept { pos, symbol } => RunEnd::Accept { pos: pos + k, symbol },
        RunEnd::Reject { pos, symbol } => RunEnd::Reject { pos: pos + k, symbol },
        _ => e,
    }
}

/// A walk that ends on a next-state value does so within the input, and
/// no earlier than it started.
proof fn lemma_walk_pos(t: Seq<Transition>, input: Seq<u8>, state: u16, symbol: u8, q: nat, f: nat)
    requires
        q <= input.len(),
    ensures
        match dfa_walk(t, input, state, symbol, q, f) {
            RunEnd::Accept { pos, .. } => q <= pos <= input.len(),
            RunEnd::Reject { pos, .. } => q <= pos <= input.len(),
            _ => true,
        },
    decreases f,
{
    if f > 0 && (state as int) < t.len() {
        let tr = t[state as int];
        if !(tr.consume && q >= input.len()) {
            let c = if tr.consume {
                input[q as int]
            } else {
                symbol
            };
            let p = if tr.consume {
                q + 1
            } else {
                q
            };
            lemma_walk_pos(t, input, pick(tr, c), c, p, (f - 1) as nat);
        }
    }
}

/// A walk from position `k + q` of the input is the walk from position `q`
/// of the input without its first `k` symbols, its end moved on by `k`.
proof fn lemma_walk_suffix(
    t: Seq<Transition>,
    input: Seq<u8>,
    state: u16,
    symbol: u8,
    k: nat,
    q: nat,
    f: nat,
)
    requires
        k <= input.len(),
    ensures
        dfa_walk(t, input, state, symbol, k + q, f) == shift_end(
            dfa_walk(t, input.skip(k as int), state, symbol, q, f),
            k,
        ),
    decreases f,
{
    let w = input.skip(k as int);
    if f > 0 && (state as int) < t.len() {
        let tr = t[state as int];
        if !(tr.consume && k + q >= input.len()) {
            if tr.consume {
                assert(w[q as int] == input[(k + q) as int]);
                let c = input[(k + q) as int];
                lemma_walk_suffix(t, input, pick(tr, c), c, k, q + 1, (f - 1) as nat);
                assert(k + q + 1 == k + (q + 1));
            } else {
                lemma_walk_suffix(t, input, pick(tr, symbol), symbol, k, q, (f - 1) as nat);
            }
        }
    }
}

/// A run from position `k` of the input ends exactly when the same run on
/// the input without its first `k` symbols, from its start, ends; and it
/// ends alike, `k` symbols further on.
pub proof fn lemma_run_suffix(t: Seq<Transition>, input: Seq<u8>, state: u16, symbol: u8, k: nat)
    requires
        k <= input.len(),
    ensures
        dfa_halts_from(t, input, state, symbol, k) == dfa_halts_from(t, input.skip(k as int), state, symbol, 0),
        dfa_halts_from(t, input, state, symbol, k) ==> dfa_end_from(t, input, state, symbol, k) == shift_end(
            dfa_end_from(t, input.skip(k as int), state, symbol, 0),
            k,
        ),
{
    let w = input.skip(k as int);
    assert forall|f: nat| #[trigger] dfa_walk(t, input, state, symbol, k, f) == shift_end(
        dfa_walk(t, w, state, symbol, 0, f),
        k,
    ) by {
        lemma_walk_suffix(t, input, state, symbol, k, 0, f);
    }
    if dfa_halts_from(t, input, state, symbol, k) {
        let f = choose|f: nat| !(#[trigger] dfa_walk(t, input, state, symbol, k, f) is Unfinished);
        assert(!(dfa_walk(t, w, state, symbol, 0, f) is Unfinished));
        let g = choose|g: nat| !(#[trigger] dfa_walk(t, w, state, symbol, 0, g) is Unfinished);
        if f <= g {
            lemma_walk_fuel(t, input, state, symbol, k, f, g);
        } else {
            lemma_walk_fuel(t, w, state, symbol, 0, g, f);
        }
    }
    if dfa_halts_from(t, w, state, symbol, 0) {
        let g = choose|g: nat| !(#[trigger] dfa_walk(t, w, state, symbol, 0, g) is Unfinished);
        assert(!(dfa_walk(t, input, state, symbol, k, g) is Unfinished));
    }
}

/// Concatenation ([Dfa::append]) on the rest of the input: where the first
/// DFA accepts after `pos` symbols, and the second one reads its first
/// symbol, the concatenation ends as the run of the second DFA on the input
/// without those `pos` symbols, `pos` symbols further on.
pub proof fn lemma_append_suffix(a: Seq<Transition>, b: Seq<Transition>, input: Seq<u8>)
    requires
        dfa_wf(a),
        dfa_wf(b),
        a.len() + b.len() <= 0xfffe,
        dfa_halts(a, input),
        dfa_end(a, input) is Accept,
        b[0].consume,
    ensures
        ({
            let pos = dfa_end(a, input)->Accept_pos;
            &&& dfa_halts(append_table(a, b), input) <==> dfa_halts(b, input.skip(pos as int))
            &&& dfa_halts(append_table(a, b), input) ==> dfa_end(append_table(a, b), input) == shift_end(
                dfa_end(b, input.skip(pos as int)),
                pos,
            )
        }),
{
    let pos = dfa_end(a, input)->Accept_pos;
    let ch = dfa_end(a, input)->Accept_symbol;
    lemma_append_runs(a, b, input);
    let fa = choose|f: nat| !(#[trigger] dfa_walk(a, input, 0, 0, 0, f) is Unfinished);
    lemma_walk_pos(a, input, 0, 0, 0, fa);
    lemma_run_suffix(b, input, 0, ch, pos);
    let w = input.skip(pos as int);
    assert forall|f: nat| #[trigger] dfa_walk(b, w, 0, ch, 0, f) == dfa_walk(b, w, 0, 0, 0, f) by {}
    assert(dfa_halts_from(b, w, 0, ch, 0) == dfa_halts_from(b, w, 0, 0, 0)) by {
        if dfa_halts_from(b, w, 0, ch, 0) {
            let f = choose|f: nat| !(#[trigger] dfa_walk(b, w, 0, ch, 0, f) is Unfinished);
            assert(!(dfa_walk(b, w, 0, 0, 0, f) is Unfinished));
        }
        if dfa_halts_from(b, w, 0, 0, 0) {
            let f = choose|f: nat| !(#[trigger] dfa_walk(b, w, 0, 0, 0, f) is Unfinished);
            assert(!(dfa_walk(b, w, 0, ch, 0, f) is Unfinished));
        }
    }
    if dfa_halts_from(b, w, 0, ch, 0) {
        let f = choose|f: nat| !(#[trigger] dfa_walk(b, w, 0, ch, 0, f) is Unfinished);
        let g = choose|g: nat| !(#[trigger] dfa_walk(b, w, 0, 0, 0, g) is Unfinished);
        if f <= g {
            lemma_walk_fuel(b, w, 0, ch, 0, f, g);
        } else {
            lemma_walk_fuel(b, w, 0, 0, 0, g, f);
        }
    }
}

/// The switched DFA runs the first DFA; where it accepts it runs `b`, where
/// it rejects it runs `c`, each from its initial state and on the symbol
/// that the first DFA read last (their first state does not read again).
pub proof fn lemma_switch_runs(a: Seq<Transition>, b: Seq<Transition>, c: Seq<Transition>, input: Seq<u8>)
    requires
        dfa_wf(a),
        dfa_wf(b),
        dfa_wf(c),
        a.len() + b.len() + c.len() <= 0xfffe,
        dfa_halts(a, input),
    ensures
        ({
            let w = switch_table(a, b, c);
            match dfa_end(a, input) {
                RunEnd::Accept { pos, symbol } => (dfa_halts(w, input) <==> dfa_halts_from(
                    without_first_read(b),
                    input,
                    0,
                    symbol,
                    pos,
                )) && (dfa_halts(w, input) ==> dfa_end(w, input) == dfa_end_from(
                    without_first_read(b),
                    input,
                    0,
                    symbol,
                    pos,
                )),
                RunEnd::Reject { pos, symbol } => (dfa_halts(w, input) <==> dfa_halts_from(
                    without_first_read(c),
                    input,
                    0,
                    symbol,
                    pos,
                )) && (dfa_halts(w, input) ==> dfa_end(w, input) == dfa_end_from(
                    without_first_read(c),
                    input,
                    0,
                    symbol,
                    pos,
                )),
                e => dfa_halts(w, input) && dfa_end(w, input) == e,
            }
        }),
{
    let w = switch_table(a, b, c);
    let b1 = without_first_read(b);
    let c1 = without_first_read(c);
    let la = a.len() as u16;
    let lab = (a.len() + b.len()) as u16;
    let h = |v: u16|
        if v == ACCEPTING_STATE {
            la
        } else if v == REJECTING_STATE {
            lab
        } else {
            v
        };
    let f = choose|f: nat| !(#[trigger] dfa_walk(a, input, 0, 0, 0, f) is Unfinished);
    lemma_end_is_walk(a, input, 0, 0, 0, f);
    assert forall|i: int| 0 <= i < a.len() implies #[trigger] w[i] == retarget_one(a[i], h) by {}
    lemma_head_walk(w, a, h, input, 0, 0, 0, f);
    assert forall|i: int| 0 <= i < b.len() implies #[trigger] b1[i].inside == b[i].inside && b1[i].outside == b[i].outside by {}
    assert forall|i: int| 0 <= i < c.len() implies #[trigger] c1[i].inside == c[i].inside && c1[i].outside == c[i].outside by {}
    assert(dfa_wf(b1));
    assert(dfa_wf(c1));
    match dfa_end(a, input) {
        RunEnd::Accept { pos: p, symbol: ch } => {
            assert forall|i: int| 0 <= i < b1.len() implies #[trigger] w[a.len() + i] == retarget_one(
                b1[i],
                rebase_fn(la),
            ) by {}
            assert forall|g: nat| #[trigger] dfa_walk(w, input, la, ch, p, g) == dfa_walk(
                b1,
                input,
                0,
                ch,
                p,
                g,
            ) by {
                lemma_embedded_walk(w, b1, a.len(), input, 0, ch, p, g);
            }
            lemma_same_walks(w, b1, input, la, 0, ch, p);
        },
        RunEnd::Reject { pos: p, symbol: ch } => {
            assert forall|i: int| 0 <= i < c1.len() implies #[trigger] w[(a.len() + b.len()) + i]
                == retarget_one(c1[i], rebase_fn(lab)) by {}
            assert forall|g: nat| #[trigger] dfa_walk(w, input, lab, ch, p, g) == dfa_walk(
                c1,
                input,
                0,
                ch,
                p,
                g,
            ) by {
                lemma_embedded_walk(w, c1, (a.len() + b.len()) as nat, input, 0, ch, p, g);
            }
            lemma_same_walks(w, c1, input, lab, 0, ch, p);
        },
        _ => {},
    }
}

/// The bounds of a sequence of inclusive ranges.
pub open spec fn range_bounds(rs: Seq<RangeInclusive<u8>>) -> Seq<(u8, u8)> {
    rs.map_values(|x: RangeInclusive<u8>| (x@.start, x@.end))
}

/// How the run of a DFA that matches one symbol in any of the given ranges
/// ends on `input`.
pub open spec fn ranges_end(b: Seq<(u8, u8)>, input: Seq<u8>) -> RunEnd {
    if input.len() == 0 {
        RunEnd::Exhausted
    } else if exists|j: int| #[trigger] covers(b, j, input[0]) {
        RunEnd::Accept { pos: 1, symbol: input[0] }
    } else {
        RunEnd::Reject { pos: 1, symbol: input[0] }
    }
}

/// A table built from decision trees in slots `0..n` whose root at 0 reads
/// a symbol and leads every symbol to a final value runs on any input as
/// that final value says.
proof fn lemma_single_tree_runs(
    trans: Seq<Option<Transition>>,
    l: int,
    input: Seq<u8>,
    value: spec_fn(u8) -> u16,
)
    requires
        1 <= trans.len() <= 0xfffe,
        l <= trans.len() + 1,
        trans[0] is Some,
        trans[0]->Some_0.consume,
        forall|c: u8| is_terminal(#[trigger] value(c)),
        forall|c: u8| #[trigger] leads(trans, 0, 0, l - 1, c, value(c), l as nat),
    ensures
        dfa_halts(filled(trans), input),
        dfa_end(filled(trans), input) == (if input.len() == 0 {
            RunEnd::Exhausted
        } else if value(input[0]) == ACCEPTING_STATE {
            RunEnd::Accept { pos: 1, symbol: input[0] }
        } else {
            RunEnd::Reject { pos: 1, symbol: input[0] }
        }),
{
    let d = filled(trans);
    assert(d[0] == trans[0]->Some_0);
    if input.len() == 0 {
        lemma_end_is_walk(d, input, 0, 0, 0, 1);
    } else {
        let c = input[0];
        assert forall|k: int| 0 <= k < trans.len() && #[trigger] trans[k] is Some implies d[k] == trans[k]->Some_0 by {}
        assert(leads(trans, 0, 0, l - 1, c, value(c), l as nat));
        lemma_leads_walk(d, input, trans, 0, 0, l - 1, c, value(c), l as nat, 0, 0);
    }
}

/// The table of built slots is well formed when every filled slot has
/// fitting targets and the table's targets are final values.
proof fn lemma_filled_wf(trans: Seq<Option<Transition>>, l: int, tv: Seq<u16>)
    requires
        1 <= trans.len() <= 0xfffe,
        trans.len() == block_len(l),
        slots_ok(trans, 0, block_len(l), tv),
        forall|i: int| 0 <= i < tv.len() ==> is_terminal(#[trigger] tv[i]),
    ensures
        dfa_wf(filled(trans)),
{
    let d = filled(trans);
    assert forall|i: int| 0 <= i < d.len() implies valid_target(d.len(), #[trigger] d[i].inside) && valid_target(d.len(), d[i].outside) by {
        if trans[i] is Some {
            let v1 = trans[i]->Some_0.inside;
            let v2 = trans[i]->Some_0.outside;
            if tv.contains(v1) {
                let j = choose|j: int| 0 <= j < tv.len() && tv[j] == v1;
                assert(is_terminal(tv[j]));
            }
            if tv.contains(v2) {
                let j = choose|j: int| 0 <= j < tv.len() && tv[j] == v2;
                assert(is_terminal(tv[j]));
            }
        }
    }
}

impl View for Dfa {
    type V = Seq<Transition>;

    open spec fn view(&self) -> Seq<Transition> {
        self.transitions@
    }
}

impl Dfa {
    /// The transition table is well formed (see [dfa_wf]).
    pub open spec fn wf(&self) -> bool {
        dfa_wf(self@)
    }

    /// Returns the number of states.
    pub fn size(&self) -> (r: u16)
        ensures
            r == self@.len() as u16,
    {
        self.transitions.len() as u16
    }

    /// Given a state, gives the range of input symbols that will
    /// cause a transition to the "inside" state.
    pub fn range(&self, state: u16) -> (r: RangeInclusive<u8>)
        requires
            (state as int) < self@.len(),
        ensures
            r@.start == self@[state as int].min,
            r@.end == self@[state as int].max,
            !r@.exhausted,
    {
        let transition = &self.transitions[state as usize];
        transition.min..=transition.max
    }

    /// Given a state, returns its "inside" next state.
    pub fn inside(&self, state: u16) -> (r: u16)
        requires
            (state as int) < self@.len(),
        ensures
            r == self@[state as int].inside,
    {
        let transition = &self.transitions[state as usize];
        transition.inside
    }

    /// Given a state, returns its "outside" next state.
    pub fn outside(&self, state: u16) -> (r: u16)
        requires
            (state as int) < self@.len(),
        ensures
            r == self@[state as int].outside,
    {
        let transition = &self.transitions[state as usize];
        transition.outside
    }

    /// Given a state, returns whether to consume input upon transitioning to it.
    pub fn consumes(&self, state: u16) -> (r: bool)
        requires
            (state as int) < self@.len(),
        ensures
            r == self@[state as int].consume,
    {
        let transition = &self.transitions[state as usize];
        transition.consume
    }

    /// Given a state and an input symbol, produces the next state.
    pub fn apply(&self, state: u16, input: u8) -> (r: u16)
        requires
            (state as int) < self@.len(),
        ensures
            r == pick(self@[state as int], input),
    {
        let transition = &self.transitions[state as usize];
        if transition.min <= input && input <= transition.max {
            transition.inside
        } else {
            transition.outside
        }
    }

    /// Creates a new DFA that matches a single symbol within a range.
    pub fn from_range(range: RangeInclusive<u8>) -> (r: Self)
        ensures
            r@ == range_table(range@.start, range@.end),
            r.wf(),
            forall|input: Seq<u8>|
                dfa_halts(r@, input) && #[trigger] dfa_end(r@, input) == range_end(
                    range@.start,
                    range@.end,
                    input,
                ),
    {
        let r = Dfa {
            transitions: vec![
                Transition {
                    min: *range.start(),
                    max: *range.end(),
                    inside: ACCEPTING_STATE,
                    outside: REJECTING_STATE,
                    consume: true,
                },
            ],
        };
        proof {
            assert(r@ =~= range_table(range@.start, range@.end));
            assert forall|input: Seq<u8>|
                dfa_halts(r@, input) && #[trigger] dfa_end(r@, input) == range_end(
                    range@.start,
                    range@.end,
                    input,
                ) by {
                lemma_end_is_walk(r@, input, 0, 0, 0, 1);
            }
        }
        r
    }

    fn rebase_transition_states(&mut self, offset: u16)
        requires
            forall|i: int|
                0 <= i < old(self)@.len() ==> {
                    &&& (is_terminal(#[trigger] old(self)@[i].inside) || old(self)@[i].inside
                        + offset < 0xfffe)
                    &&& (is_terminal(old(self)@[i].outside) || old(self)@[i].outside + offset
                        < 0xfffe)
                },
        ensures
            final(self)@ == retarget(old(self)@, rebase_fn(offset)),
    {
        let n = self.transitions.len();
        let mut i: usize = 0;
        while i < n
            invariant
                n == self@.len(),
                n == old(self)@.len(),
                i <= n,
                forall|j: int|
                    0 <= j < old(self)@.len() ==> {
                        &&& (is_terminal(#[trigger] old(self)@[j].inside) || old(self)@[j].inside
                            + offset < 0xfffe)
                        &&& (is_terminal(old(self)@[j].outside) || old(self)@[j].outside + offset
                            < 0xfffe)
                    },
                forall|j: int|
                    0 <= j < i ==> #[trigger] self@[j] == retarget_one(
                        old(self)@[j],
                        rebase_fn(offset),
                    ),
                forall|j: int| i <= j < n ==> #[trigger] self@[j] == old(self)@[j],
            decreases n - i,
        {
            let mut tr = self.transitions[i];
            if tr.inside < 0xfffe {
                tr.inside = tr.inside + offset;
            }
            if tr.outside < 0xfffe {
                tr.outside = tr.outside + offset;
            }
            self.transitions.set(i, tr);
            i = i + 1;
        }
        assert(self@ =~= retarget(old(self)@, rebase_fn(offset)));
    }

    fn replace_state(&mut self, from: u16, to: u16)
        ensures
            final(self)@ == retarget(old(self)@, replace_fn(from, to)),
    {
        let n = self.transitions.len();
        let mut i: usize = 0;
        while i < n
            invariant
                n == self@.len(),
                n == old(self)@.len(),
                i <= n,
                forall|j: int|
                    0 <= j < i ==> #[trigger] self@[j] == retarget_one(
                        old(self)@[j],
                        replace_fn(from, to),
                    ),
                forall|j: int| i <= j < n ==> #[trigger] self@[j] == old(self)@[j],
            decreases n - i,
        {
            let mut tr = self.transitions[i];
            if tr.inside == from {
                tr.inside = to;
            }
            if tr.outside == from {
                tr.outside = to;
            }
            self.transitions.set(i, tr);
            i = i + 1;
        }
        assert(self@ =~= retarget(old(self)@, replace_fn(from, to)));
    }

    /// Creates a new DFA that matches the concatenation of two DFAs.
    pub fn append(self, other: Self) -> (r: Self)
        requires
            self.wf(),
            other.wf(),
            self@.len() + other@.len() <= 0xfffe,
        ensures
            r@ == append_table(self@, other@),
            r.wf(),
    {
        let mut a = self;
        let mut b = other;
        let toffset = a.transitions.len() as u16;
        a.replace_state(ACCEPTING_STATE, toffset);
        proof {
            assert forall|i: int| 0 <= i < b@.len() implies {
                &&& (is_terminal(#[trigger] b@[i].inside) || b@[i].inside + toffset < 0xfffe)
                &&& (is_terminal(b@[i].outside) || b@[i].outside + toffset < 0xfffe)
            } by {
                assert(valid_target(other@.len(), other@[i].inside));
                assert(valid_target(other@.len(), other@[i].outside));
            }
        }
        b.rebase_transition_states(toffset);
        a.transitions.append(&mut b.transitions);
        proof {
            lemma_append_table_wf(self@, other@);
        }
        a
    }

    /// Creates a new DFA with opposite matching behavior.
    pub fn invert(self) -> (r: Self)
        requires
            self.wf(),
        ensures
            r@ == invert_table(self@),
            r.wf(),
    {
        let mut d = self;
        let n = d.transitions.len();
        let mut i: usize = 0;
        while i < n
            invariant
                n == d@.len(),
                n == self@.len(),
                i <= n,
                forall|j: int|
                    0 <= j < i ==> #[trigger] d@[j] == retarget_one(self@[j], swap_fn()),
                forall|j: int| i <= j < n ==> #[trigger] d@[j] == self@[j],
            decreases n - i,
        {
            let mut tr = d.transitions[i];
            if tr.inside == ACCEPTING_STATE {
                tr.inside = REJECTING_STATE;
            } else if tr.inside == REJECTING_STATE {
                tr.inside = ACCEPTING_STATE;
            }
            if tr.outside == ACCEPTING_STATE {
                tr.outside = REJECTING_STATE;
            } else if tr.outside == REJECTING_STATE {
                tr.outside = ACCEPTING_STATE;
            }
            d.transitions.set(i, tr);
            i = i + 1;
        }
        assert(d@ =~= invert_table(self@));
        d
    }

    /// Creates a new DFA that matches either depending on result of current DFA.
    /// Will remove first consumed input from following DFAs.
    pub fn switch(self, accept: Self, reject: Self) -> (r: Self)
        requires
            self.wf(),
            accept.wf(),
            reject.wf(),
            self@.len() + accept@.len() + reject@.len() <= 0xfffe,
        ensures
            r@ == switch_table(self@, accept@, reject@),
            r.wf(),
    {
        let mut a = self;
        let mut b = accept;
        let mut c = reject;
        let toffset = a.transitions.len() as u16;
        let toffset2 = b.transitions.len() as u16;
        a.replace_state(ACCEPTING_STATE, toffset);
        a.replace_state(REJECTING_STATE, toffset + toffset2);
        let mut first = b.transitions[0];
        first.consume = false;
        b.transitions.set(0, first);
        let mut first = c.transitions[0];
        first.consume = false;
        c.transitions.set(0, first);
        b.rebase_transition_states(toffset);
        c.rebase_transition_states(toffset + toffset2);
        a.transitions.append(&mut b.transitions);
        a.transitions.append(&mut c.transitions);
        proof {
            lemma_switch_table_wf(self@, accept@, reject@);
        }
        a
    }

    /// Similar to [Dfa::from_range], but matches any of a number of ranges,
    /// of which there is at least one.
    pub fn from_ranges<I: Iterator<Item = RangeInclusive<u8>>>(ranges: &mut I) -> (r: Self)
        requires
            (*old(ranges)).obeys_prophetic_iter_laws(),
            (*old(ranges)).decrease() is Some,
            (*old(ranges)).remaining().len() >= 1,
        ensures
            r.wf(),
            r@[0].consume,
            reads_forward(r@),
            (*final(ranges)).remaining().len() == 0,
            forall|input: Seq<u8>|
                dfa_halts(r@, input) && #[trigger] dfa_end(r@, input) == ranges_end(
                    range_bounds((*old(ranges)).remaining()),
                    input,
                ),
    {
        let ghost rem = <I as IteratorSpec>::remaining(&*ranges);
        let ghost b = range_bounds(rem);
        let mut list: Vec<(u8, u8)> = Vec::new();
        loop
            invariant
                <I as IteratorSpec>::obeys_prophetic_iter_laws(&*ranges),
                <I as IteratorSpec>::decrease(&*ranges) is Some,
                list@.len() <= rem.len(),
                <I as IteratorSpec>::remaining(&*ranges) == rem.skip(list@.len() as int),
                list@ == b.take(list@.len() as int),
                b == range_bounds(rem),
                rem == (*old(ranges)).remaining(),
            ensures
                <I as IteratorSpec>::remaining(&*ranges).len() == 0,
                list@ == b,
            decreases <I as IteratorSpec>::decrease(&*ranges)->0,
        {
            match ranges.next() {
                Some(x) => {
                    list.push((*x.start(), *x.end()));
                    proof {
                        assert(list@ =~= b.take(list@.len() as int));
                    }
                },
                None => {
                    proof {
                        assert(list@ =~= b);
                    }
                    break ;
                },
            }
        }
        // which symbols any range covers
        let mut member: Vec<bool> = Vec::new();
        while member.len() < 256
            invariant
                member@.len() <= 256,
                forall|x: int| 0 <= x < member@.len() ==> !#[trigger] member@[x],
            decreases 256 - member@.len(),
        {
            member.push(false);
        }
        let mut k: usize = 0;
        while k < list.len()
            invariant
                list@ == b,
                k <= list@.len(),
                member@.len() == 256,
                forall|x: u8| #[trigger] member@[x as int] == exists|j: int| 0 <= j < k && #[trigger] covers(b, j, x),
            decreases list@.len() - k,
        {
            let (lo, hi) = list[k];
            let mut c: u16 = lo as u16;
            while c <= hi as u16
                invariant
                    list@ == b,
                    k < list@.len(),
                    (lo, hi) == b[k as int],
                    lo as u16 <= c,
                    c <= hi as u16 + 1 || c == lo as u16,
                    member@.len() == 256,
                    forall|x: u8| #[trigger] member@[x as int] == ((exists|j: int| 0 <= j < k && #[trigger] covers(b, j, x)) || (lo <= x && (x as u16) < c)),
                decreases hi as u16 + 1 - c,
            {
                member.set(c as usize, true);
                c = c + 1;
            }
            proof {
                assert forall|x: u8| #[trigger] member@[x as int] == exists|j: int| 0 <= j < k + 1 && #[trigger] covers(b, j, x) by {
                    if lo <= x <= hi {
                        assert(covers(b, k as int, x));
                    }
                    if exists|j: int| 0 <= j < k + 1 && #[trigger] covers(b, j, x) {
                        let j = choose|j: int| 0 <= j < k + 1 && #[trigger] covers(b, j, x);
                        if j < k {
                            assert(exists|j: int| 0 <= j < k && #[trigger] covers(b, j, x));
                        }
                    }
                }
            }
            k = k + 1;
        }
        // one entry per covered symbol
        let mut table = SwitchTable { ranges: Vec::new(), targets: Vec::new() };
        let mut c: u16 = 0;
        while c < 256
            invariant
                member@.len() == 256,
                c <= 256,
                table.ranges@.len() == table.targets@.len(),
                sorted_ranges(table.ranges@),
                forall|i: int| 0 <= i < table.ranges@.len() ==> (#[trigger] table.ranges@[i]).0 == table.ranges@[i].1 && (table.ranges@[i].1 as int) < c,
                forall|i: int| 0 <= i < table.targets@.len() ==> #[trigger] table.targets@[i] == ACCEPTING_STATE,
                forall|x: u8| (x as int) < c ==> (#[trigger] member@[x as int] <==> exists|i: int| #[trigger] covers(table.ranges@, i, x)),
            decreases 256 - c,
        {
            if member[c as usize] {
                let ghost old_ranges = table.ranges@;
                table.ranges.push((c as u8, c as u8));
                table.targets.push(ACCEPTING_STATE);
                proof {
                    let n = table.ranges@.len() - 1;
                    assert(table.ranges@.drop_last() =~= old_ranges);
                    assert(covers(table.ranges@, n, c as u8));
                    assert forall|x: u8| (x as int) < c + 1 implies (#[trigger] member@[x as int] <==> exists|i: int| #[trigger] covers(table.ranges@, i, x)) by {
                        if (x as int) < c {
                            if exists|i: int| #[trigger] covers(table.ranges@, i, x) {
                                let i = choose|i: int| #[trigger] covers(table.ranges@, i, x);
                                if i < n {
                                    assert(covers(table.ranges@.drop_last(), i, x));
                                }
                            }
                            if exists|i: int| #[trigger] covers(table.ranges@.drop_last(), i, x) {
                                let i = choose|i: int| #[trigger] covers(table.ranges@.drop_last(), i, x);
                                assert(covers(table.ranges@, i, x));
                            }
                        }
                    }
                }
            } else {
                proof {
                    assert forall|x: u8| (x as int) < c + 1 implies (#[trigger] member@[x as int] <==> exists|i: int| #[trigger] covers(table.ranges@, i, x)) by {
                        if x as int == c {
                            if exists|i: int| #[trigger] covers(table.ranges@, i, x) {
                                let i = choose|i: int| #[trigger] covers(table.ranges@, i, x);
                                assert(table.ranges@[i].1 < c);
                            }
                        }
                    }
                }
            }
            c = c + 1;
        }
        let ghost singles = table;
        Self::fill_switch_table(&mut table, REJECTING_STATE);
        let ghost filled_table = table;
        Self::process_switch_table(&mut table);
        let l = table.ranges.len();
        proof {
            lemma_sorted_len(table.ranges@);
        }
        let slots = if l >= 2 {
            l - 1
        } else {
            1
        };
        let mut trans = empty_slots(slots);
        let ghost tv = table.targets@;
        proof {
            assert forall|i: int| 0 <= i < tv.len() implies is_terminal(#[trigger] tv[i]) by {
                assert(filled_table.targets@.contains(tv[i]));
                let j = choose|j: int| 0 <= j < filled_table.targets@.len() && filled_table.targets@[j] == tv[i];
                assert(filled_table.targets@[j] == REJECTING_STATE || singles.targets@.contains(filled_table.targets@[j]));
            }
        }
        let ghost gt = table;
        Self::from_nfa_build_transitions(&mut trans, 0, table);
        let r = Dfa { transitions: fill_unused(trans) };
        proof {
            let value = |x: u8| if member@[x as int] { ACCEPTING_STATE } else { REJECTING_STATE };
            assert forall|x: u8| #[trigger] leads(trans@, 0, 0, l - 1, x, value(x), l as nat) by {
                let v = fill_value(singles.ranges@, singles.targets@, REJECTING_STATE, x);
                if member@[x as int] {
                    let i = choose|i: int| #[trigger] covers(singles.ranges@, i, x);
                    crate::switch_table::lemma_fill_value(singles.ranges@, singles.targets@, REJECTING_STATE, x, i);
                }
                assert(v == value(x));
                assert(table_has(filled_table.ranges@, filled_table.targets@, x, v));
                assert(table_has(gt.ranges@, gt.targets@, x, v));
            }
            lemma_filled_wf(trans@, l as int, tv);
            assert(r@[0] == trans@[0]->Some_0);
            assert forall|q: int| 0 <= q < r@.len() && !(#[trigger] r@[q]).consume implies forward_target(
                r@,
                q,
                r@[q].inside,
            ) && forward_target(r@, q, r@[q].outside) by {
                if trans@[q] is Some {
                    assert(r@[q] == trans@[q]->Some_0);
                    let x = r@[q].inside;
                    let y = r@[q].outside;
                    if tv.contains(x) {
                        let i = choose|i: int| 0 <= i < tv.len() && tv[i] == x;
                        assert(is_terminal(tv[i]));
                    }
                    if tv.contains(y) {
                        let i = choose|i: int| 0 <= i < tv.len() && tv[i] == y;
                        assert(is_terminal(tv[i]));
                    }
                } else {
                    assert(r@[q] == unused_rule());
                }
            }
            assert forall|input: Seq<u8>|
                dfa_halts(r@, input) && #[trigger] dfa_end(r@, input) == ranges_end(b, input) by {
                lemma_single_tree_runs(trans@, l as int, input, value);
                if input.len() > 0 {
                    let x = input[0];
                    assert(member@[x as int] == exists|j: int| 0 <= j < list@.len() && #[trigger] covers(b, j, x));
                    if exists|j: int| #[trigger] covers(b, j, x) {
                        let j = choose|j: int| #[trigger] covers(b, j, x);
                        assert(0 <= j < list@.len() && covers(b, j, x));
                    }
                }
            }
        }
        r
    }

    /// Runs the state machine on some input and returns whether the input is accepted.
    ///
    /// The iterator is left just after the last symbol the run has read.
    /// The run must end on the input; [lemma_acyclic_halts] shows that it
    /// does for every table without cycles of non-reading states, and
    /// [lemma_forward_halts] for tables whose non-reading states only go
    /// forward, as those of [Dfa::from_nfa] and [Dfa::from_ranges] do.
    pub fn run<I: Iterator<Item = u8>>(&self, input: &mut I) -> (r: bool)
        requires
            self.wf(),
            (*old(input)).obeys_prophetic_iter_laws(),
            (*old(input)).decrease() is Some,
            dfa_halts(self@, (*old(input)).remaining()),
        ensures
            r == dfa_end(self@, (*old(input)).remaining()) is Accept,
            (*final(input)).remaining() == (*old(input)).remaining().skip(
                symbols_read(
                    dfa_end(self@, (*old(input)).remaining()),
                    (*old(input)).remaining().len(),
                ) as int,
            ),
    {
        let ghost t = self@;
        let ghost rem = <I as IteratorSpec>::remaining(&*input);
        let ghost goal = dfa_end(t, rem);
        let mut state: u16 = INITIAL_STATE;
        let mut symbol: u8 = 0;
        let ghost mut pos: nat = 0;
        let ghost mut chain: Seq<int> = seq![0int];
        loop
            invariant
                t == self@,
                dfa_wf(t),
                <I as IteratorSpec>::obeys_prophetic_iter_laws(&*input),
                <I as IteratorSpec>::decrease(&*input) is Some,
                pos <= rem.len(),
                <I as IteratorSpec>::remaining(&*input) == rem.skip(pos as int),
                (state as int) < t.len(),
                dfa_halts_from(t, rem, state, symbol, pos),
                dfa_end_from(t, rem, state, symbol, pos) == goal,
                goal == dfa_end(t, rem),
                rem == (*old(input)).remaining(),
                chain.len() >= 1,
                chain.last() == state as int,
                chain.no_duplicates(),
                forall|i: int| 0 <= i < chain.len() ==> 0 <= #[trigger] chain[i] < t.len(),
                quiet_chain(t, symbol, chain),
            decreases <I as IteratorSpec>::decrease(&*input)->0, t.len() - chain.len(),
        {
            let transition = self.transitions[state as usize];
            let ghost old_symbol = symbol;
            let ghost old_pos = pos;
            let ghost old_state = state;
            if transition.consume {
                match input.next() {
                    Some(x) => {
                        symbol = x;
                        proof {
                            pos = pos + 1;
                        }
                    },
                    None => {
                        proof {
                            assert(rem.skip(old_pos as int).len() == 0);
                            let f = choose|f: nat| !(#[trigger] dfa_walk(t, rem, state, old_symbol, old_pos, f) is Unfinished);
                            lemma_end_is_walk(t, rem, state, old_symbol, old_pos, f);
                        }
                        return false;
                    },
                }
            }
            let next = if transition.min <= symbol && symbol <= transition.max {
                transition.inside
            } else {
                transition.outside
            };
            proof {
                lemma_end_step(t, rem, old_state, old_symbol, old_pos);
            }
            if next >= 0xfffe {
                proof {
                    let f = choose|f: nat| !(#[trigger] dfa_walk(t, rem, old_state, old_symbol, old_pos, f) is Unfinished);
                    lemma_end_is_walk(t, rem, old_state, old_symbol, old_pos, f);
                    assert(transition == t[old_state as int]);
                    assert(next == ACCEPTING_STATE ==> dfa_walk(t, rem, old_state, old_symbol, old_pos, f) == (RunEnd::Accept { pos, symbol }));
                    assert(next == REJECTING_STATE ==> dfa_walk(t, rem, old_state, old_symbol, old_pos, f) == (RunEnd::Reject { pos, symbol }));
                }
                return next == ACCEPTING_STATE;
            }
            proof {
                if transition.consume {
                    chain = seq![next as int];
                } else {
                    let grown = chain.push(next as int);
                    assert(quiet_chain(t, symbol, grown));
                    if chain.contains(next as int) {
                        let j = choose|j: int| 0 <= j < chain.len() && chain[j] == next as int;
                        let cyc = grown.subrange(j, grown.len() as int);
                        assert(quiet_chain(t, symbol, cyc));
                        let f = choose|f: nat| !(#[trigger] dfa_walk(t, rem, next, symbol, pos, f) is Unfinished);
                        assert(cyc[0] == next as int);
                        assert(cyc.last() == next as int);
                        lemma_quiet_cycle(t, rem, symbol, pos, cyc, f);
                        assert(false);
                    }
                    chain = grown;
                    assert(chain.no_duplicates());
                    lemma_distinct_below(chain, t.len() as int);
                }
            }
            state = next;
        }
    }
}

} // verus!
