//! The powerset construction: a deterministic automaton whose states stand
//! for the sets of states that a breadth-first run of a nondeterministic
//! automaton can be in.
use crate::bitset::BitSet;
use crate::dfa::{dfa_end, dfa_end_from, dfa_halts, dfa_halts_from, dfa_wf, forward_target, lemma_end_is_walk, reads_forward, valid_target, Dfa, RunEnd};
use crate::nfa::{lemma_shortest_match, nfa_matches, nfa_shortest, nfa_wf, round_next, round_outcome, shortest_from, Nfa};
use crate::switch_table::{
    block_len, covers, empty_slots, fill_unused, filled, full_ranges, leads, lemma_full_lookup, lemma_leads_walk,
    lemma_leads_widen, merged, ok_target, sorted_ranges, table_has, unused_rule, SwitchTable,
};
use crate::{is_terminal, Transition, ACCEPTING_STATE, INITIAL_STATE, REJECTING_STATE};
use vstd::prelude::*;

verus! {

/// How the deterministic run over sets of states ends, from the set `a`
/// that reads symbol `pos`: it accepts after the first round that reaches
/// acceptance, rejects after a round that leaves no state, and runs out of
/// input otherwise.
pub open spec fn pset_from(t: Seq<Transition>, s: Seq<u16>, a: Set<int>, input: Seq<u8>, pos: nat) -> RunEnd
    decreases input.len() - pos,
{
    if pos >= input.len() {
        RunEnd::Exhausted
    } else {
        match round_outcome(t, s, a, input[pos as int]) {
            None => RunEnd::Accept { pos: pos + 1, symbol: input[pos as int] },
            Some(b) => if b == Set::<int>::empty() {
                RunEnd::Reject { pos: pos + 1, symbol: input[pos as int] }
            } else {
                pset_from(t, s, b, input, pos + 1)
            },
        }
    }
}

/// The run over sets of states on `input`, from the set of the initial state.
pub open spec fn pset_end(t: Seq<Transition>, s: Seq<u16>, input: Seq<u8>) -> RunEnd {
    pset_from(t, s, set![INITIAL_STATE as int], input, 0)
}

/// The run over sets, and so the DFA that [Dfa::from_nfa] builds, accepts
/// after the fewest symbols after which the input matches, and does not
/// accept when it matches after no number of symbols.
pub proof fn lemma_pset_shortest_match(t: Seq<Transition>, s: Seq<u16>, input: Seq<u8>)
    ensures
        pset_end(t, s, input) is Accept ==> nfa_matches(t, s, input, pset_end(t, s, input)->Accept_pos),
        pset_end(t, s, input) is Accept ==> forall|q: nat|
            q < pset_end(t, s, input)->Accept_pos ==> !#[trigger] nfa_matches(t, s, input, q),
        !(pset_end(t, s, input) is Accept) ==> forall|q: nat| !#[trigger] nfa_matches(t, s, input, q),
{
    lemma_pset_matches_shortest(t, s, input);
    lemma_shortest_match(t, s, input);
}

/// The set of states after the rounds on the symbols of `w`, from `a`;
/// `None` once a round has reached acceptance.
pub open spec fn pset_walk(t: Seq<Transition>, s: Seq<u16>, a: Set<int>, w: Seq<u8>) -> Option<Set<int>>
    decreases w.len(),
{
    if w.len() == 0 {
        Some(a)
    } else {
        match pset_walk(t, s, a, w.drop_last()) {
            None => None,
            Some(x) => round_outcome(t, s, x, w.last()),
        }
    }
}

/// A set of states that some input leads to from the initial state.
pub open spec fn pset_reachable(t: Seq<Transition>, s: Seq<u16>, a: Set<int>) -> bool {
    exists|w: Seq<u8>| #[trigger] pset_walk(t, s, set![INITIAL_STATE as int], w) == Some(a)
}

/// How often `f` changes between neighbouring symbols below `n`.
pub open spec fn changes(f: spec_fn(u8) -> Option<Set<int>>, n: int) -> nat
    decreases n,
{
    if n <= 1 {
        0
    } else {
        changes(f, n - 1) + if f((n - 1) as u8) != f((n - 2) as u8) {
            1nat
        } else {
            0nat
        }
    }
}

/// The outcome of a round from `a`, as a function of the symbol.
pub open spec fn outcome_fn(t: Seq<Transition>, s: Seq<u16>, a: Set<int>) -> spec_fn(u8) -> Option<Set<int>> {
    |c: u8| round_outcome(t, s, a, c)
}

/// The number of maximal symbol ranges with one outcome each, from `a`.
pub open spec fn pset_runs(t: Seq<Transition>, s: Seq<u16>, a: Set<int>) -> int {
    1 + changes(outcome_fn(t, s, a), 256) as int
}

/// The number of slots the decision trees of the sets `q` take.
pub open spec fn pset_slots(t: Seq<Transition>, s: Seq<u16>, q: Seq<Set<int>>) -> int
    decreases q.len(),
{
    if q.len() == 0 {
        0
    } else {
        pset_slots(t, s, q.drop_last()) + block_len(pset_runs(t, s, q.last()))
    }
}

/// The deterministic automaton that the powerset construction builds fits
/// the state numbers below the two final values: however many distinct
/// reachable non-empty sets of states are taken, their decision trees take
/// at most `0xfffe` slots together.
pub open spec fn powerset_fits(t: Seq<Transition>, s: Seq<u16>) -> bool {
    forall|q: Seq<Set<int>>|
        q.no_duplicates() && (forall|i: int|
            0 <= i < q.len() ==> pset_reachable(t, s, #[trigger] q[i]) && q[i] != Set::<int>::empty())
            ==> #[trigger] pset_slots(t, s, q) <= 0xfffe
}

/// `2` to the power `n`.
pub open spec fn pow2n(n: nat) -> nat
    decreases n,
{
    if n == 0 {
        1
    } else {
        2 * pow2n((n - 1) as nat)
    }
}

/// The number whose binary digit `i` tells whether `a` holds `i`, for `i`
/// below `n`.
pub open spec fn set_code(a: Set<int>, n: nat) -> nat
    decreases n,
{
    if n == 0 {
        0
    } else {
        2 * set_code(a, (n - 1) as nat) + if a.contains(n - 1) {
            1nat
        } else {
            0nat
        }
    }
}

proof fn lemma_set_code(a: Set<int>, b: Set<int>, n: nat)
    ensures
        set_code(a, n) < pow2n(n),
        (exists|x: int| 0 <= x < n && a.contains(x)) ==> set_code(a, n) >= 1,
        set_code(a, n) == set_code(b, n) ==> forall|x: int| 0 <= x < n ==> a.contains(x) == b.contains(x),
    decreases n,
{
    if n > 0 {
        lemma_set_code(a, b, (n - 1) as nat);
        if exists|x: int| 0 <= x < n && a.contains(x) {
            let x = choose|x: int| 0 <= x < n && a.contains(x);
            if x < n - 1 {
                assert(exists|x: int| 0 <= x < n - 1 && a.contains(x));
            }
        }
    }
}

/// The sets that some input leads to hold states only.
proof fn lemma_walk_states(t: Seq<Transition>, s: Seq<u16>, w: Seq<u8>, a: Set<int>)
    requires
        nfa_wf(t, s),
        pset_walk(t, s, set![INITIAL_STATE as int], w) == Some(a),
    ensures
        forall|x: int| a.contains(x) ==> 0 <= x < t.len(),
    decreases w.len(),
{
    if w.len() > 0 {
        let b = pset_walk(t, s, set![INITIAL_STATE as int], w.drop_last())->Some_0;
        lemma_walk_states(t, s, w.drop_last(), b);
    }
}

/// A table's runs are at most the number of symbols.
proof fn lemma_changes_bound(f: spec_fn(u8) -> Option<Set<int>>, n: int)
    ensures
        n >= 1 ==> changes(f, n) <= n - 1,
    decreases n,
{
    if n > 1 {
        lemma_changes_bound(f, n - 1);
    }
}

/// Trees of `q.len()` sets take at most 255 slots each.
proof fn lemma_slots_bound(t: Seq<Transition>, s: Seq<u16>, q: Seq<Set<int>>)
    ensures
        pset_slots(t, s, q) <= 255 * q.len(),
    decreases q.len(),
{
    if q.len() > 0 {
        lemma_slots_bound(t, s, q.drop_last());
        lemma_changes_bound(outcome_fn(t, s, q.last()), 256);
    }
}

/// An automaton of at most 8 states fits the powerset construction: it has
/// at most 255 non-empty sets of states, whose trees take at most 255
/// slots each.
pub proof fn lemma_small_fits(t: Seq<Transition>, s: Seq<u16>)
    requires
        nfa_wf(t, s),
        t.len() <= 8,
    ensures
        powerset_fits(t, s),
{
    let n = t.len();
    assert forall|q: Seq<Set<int>>|
        q.no_duplicates() && (forall|i: int|
            0 <= i < q.len() ==> pset_reachable(t, s, #[trigger] q[i]) && q[i] != Set::<int>::empty())
            implies #[trigger] pset_slots(t, s, q) <= 0xfffe by {
        assert(pow2n(n) <= 256) by {
            assert(pow2n(0) == 1);
            assert(pow2n(1) == 2);
            assert(pow2n(2) == 4);
            assert(pow2n(3) == 8);
            assert(pow2n(4) == 16);
            assert(pow2n(5) == 32);
            assert(pow2n(6) == 64);
            assert(pow2n(7) == 128);
            assert(pow2n(8) == 256);
        }
        let cs = Seq::new(q.len(), |i: int| set_code(q[i], n) as int - 1);
        assert forall|i: int| 0 <= i < cs.len() implies 0 <= #[trigger] cs[i] < pow2n(n) - 1 by {
            let w = choose|w: Seq<u8>| #[trigger] pset_walk(t, s, set![INITIAL_STATE as int], w) == Some(q[i]);
            lemma_walk_states(t, s, w, q[i]);
            if !(exists|x: int| q[i].contains(x)) {
                assert(q[i] =~= Set::<int>::empty());
            }
            let x = choose|x: int| q[i].contains(x);
            assert(0 <= x < n && q[i].contains(x));
            lemma_set_code(q[i], q[i], n);
        }
        assert(cs.no_duplicates()) by {
            assert forall|i: int, j: int| 0 <= i < cs.len() && 0 <= j < cs.len() && i != j implies cs[i] != cs[j] by {
                if cs[i] == cs[j] {
                    let wi = choose|w: Seq<u8>| #[trigger] pset_walk(t, s, set![INITIAL_STATE as int], w) == Some(q[i]);
                    let wj = choose|w: Seq<u8>| #[trigger] pset_walk(t, s, set![INITIAL_STATE as int], w) == Some(q[j]);
                    lemma_walk_states(t, s, wi, q[i]);
                    lemma_walk_states(t, s, wj, q[j]);
                    lemma_set_code(q[i], q[j], n);
                    assert(q[i] =~= q[j]);
                }
            }
        }
        lemma_set_code(Set::<int>::empty(), Set::<int>::empty(), n);
        crate::dfa::lemma_distinct_below(cs, pow2n(n) - 1);
        lemma_slots_bound(t, s, q);
    }
}

/// The run over sets from a non-empty set accepts exactly where the
/// breadth-first run from it does.
proof fn lemma_pset_shortest(t: Seq<Transition>, s: Seq<u16>, a: Set<int>, input: Seq<u8>, pos: nat)
    requires
        a != Set::<int>::empty(),
    ensures
        (pset_from(t, s, a, input, pos) is Accept) == shortest_from(t, s, a, input, pos).0,
        pset_from(t, s, a, input, pos) is Accept ==> pset_from(t, s, a, input, pos)->Accept_pos
            == shortest_from(t, s, a, input, pos).1,
    decreases input.len() - pos,
{
    if pos < input.len() {
        let c = input[pos as int];
        match round_outcome(t, s, a, c) {
            None => {},
            Some(b) => {
                assert(b == round_next(t, s, a, c));
                if b != Set::<int>::empty() {
                    lemma_pset_shortest(t, s, b, input, pos + 1);
                } else if pos + 1 < input.len() {
                    assert(shortest_from(t, s, b, input, pos + 1) == (false, pos + 2));
                }
            },
        }
    }
}

/// The run over sets accepts an input exactly when the breadth-first run of
/// the nondeterministic automaton does, after reading as many symbols.
pub proof fn lemma_pset_matches_shortest(t: Seq<Transition>, s: Seq<u16>, input: Seq<u8>)
    ensures
        (pset_end(t, s, input) is Accept) == nfa_shortest(t, s, input).0,
        pset_end(t, s, input) is Accept ==> pset_end(t, s, input)->Accept_pos == nfa_shortest(
            t,
            s,
            input,
        ).1,
{
    assert(set![INITIAL_STATE as int].contains(INITIAL_STATE as int));
    lemma_pset_shortest(t, s, set![INITIAL_STATE as int], input, 0);
}

/// The sets of a list of bit sets.
pub open spec fn set_views(sets: Seq<BitSet>) -> Seq<Set<int>> {
    sets.map_values(|b: BitSet| b@)
}

/// The sets found so far: distinct, reachable, non-empty sets of states,
/// all with the same room.
pub open spec fn sets_ok(t: Seq<Transition>, s: Seq<u16>, sets: Seq<BitSet>, room: nat) -> bool {
    &&& set_views(sets).no_duplicates()
    &&& forall|i: int|
        0 <= i < sets.len() ==> {
            &&& (#[trigger] sets[i]).wf()
            &&& sets[i].room() == room
            &&& pset_reachable(t, s, sets[i]@)
            &&& sets[i]@ != Set::<int>::empty()
            &&& forall|x: int| #[trigger] sets[i]@.contains(x) ==> 0 <= x < t.len()
        }
}

/// A table value stands for the outcome of a round: the accepting value for
/// acceptance, the rejecting value for no state left, otherwise the number
/// of the set of states that read next.
pub open spec fn stands_for(views: Seq<Set<int>>, v: u16, o: Option<Set<int>>) -> bool {
    match o {
        None => v == ACCEPTING_STATE,
        Some(b) => if b == Set::<int>::empty() {
            v == REJECTING_STATE
        } else {
            (v as int) < views.len() && views[v as int] == b
        },
    }
}

/// The table of the set `a`: its ranges cover all symbols, neighbouring
/// entries differ, there is one entry per maximal range of one outcome, and
/// each entry stands for the outcome of its symbols.
pub open spec fn table_ok(
    t: Seq<Transition>,
    s: Seq<u16>,
    views: Seq<Set<int>>,
    a: Set<int>,
    r: Seq<(u8, u8)>,
    v: Seq<u16>,
) -> bool {
    &&& r.len() == v.len()
    &&& full_ranges(r)
    &&& merged(v)
    &&& r.len() == pset_runs(t, s, a)
    &&& forall|c: u8, i: int| #[trigger] covers(r, i, c) ==> stands_for(views, v[i], round_outcome(t, s, a, c))
}

/// The sets of states of the powerset construction, the first one being the
/// set of the initial state, each with its table.
pub struct PowersetMap {
    pub sets: Vec<BitSet>,
    pub tables: Vec<SwitchTable>,
}

impl PowersetMap {
    pub open spec fn ok(&self, t: Seq<Transition>, s: Seq<u16>) -> bool {
        &&& self.sets@.len() >= 1
        &&& self.sets@.len() == self.tables@.len()
        &&& self.sets@[0]@ == set![INITIAL_STATE as int]
        &&& sets_ok(t, s, self.sets@, self.sets@[0].room())
        &&& pset_slots(t, s, set_views(self.sets@)) <= 0xfffe
        &&& forall|j: int|
            0 <= j < self.sets@.len() ==> table_ok(
                t,
                s,
                set_views(self.sets@),
                #[trigger] self.sets@[j]@,
                self.tables@[j].ranges@,
                self.tables@[j].targets@,
            )
    }
}

/// Each decision tree takes at least one slot.
proof fn lemma_slots_at_least_len(t: Seq<Transition>, s: Seq<u16>, q: Seq<Set<int>>)
    ensures
        pset_slots(t, s, q) >= q.len(),
    decreases q.len(),
{
    if q.len() > 0 {
        lemma_slots_at_least_len(t, s, q.drop_last());
    }
}

/// The slots of a prefix are no more than those of the whole list, and one
/// more set adds its tree.
proof fn lemma_slots_prefix(t: Seq<Transition>, s: Seq<u16>, q: Seq<Set<int>>, j: int)
    requires
        0 <= j < q.len(),
    ensures
        pset_slots(t, s, q.take(j + 1)) == pset_slots(t, s, q.take(j)) + block_len(
            pset_runs(t, s, q[j]),
        ),
        pset_slots(t, s, q.take(j + 1)) <= pset_slots(t, s, q),
    decreases q.len(),
{
    assert(q.take(j + 1).drop_last() =~= q.take(j));
    if j + 1 < q.len() {
        lemma_slots_prefix(t, s, q.drop_last(), j);
        assert(q.drop_last().take(j + 1) =~= q.take(j + 1));
    } else {
        assert(q.take(j + 1) =~= q);
    }
}

/// Too many sets found, or trees too large together, show that the
/// construction does not fit.
proof fn lemma_unfit(t: Seq<Transition>, s: Seq<u16>, sets: Seq<BitSet>, room: nat)
    requires
        sets_ok(t, s, sets, room),
        sets.len() > 0xfffe || pset_slots(t, s, set_views(sets)) > 0xfffe,
    ensures
        !powerset_fits(t, s),
{
    let q = set_views(sets);
    lemma_slots_at_least_len(t, s, q);
    assert forall|i: int| 0 <= i < q.len() implies pset_reachable(t, s, #[trigger] q[i]) && q[i] != Set::<int>::empty() by {
        assert(q[i] == sets[i]@);
    }
    assert(pset_slots(t, s, q) > 0xfffe);
}

/// One more round after a walk.
proof fn lemma_walk_push(t: Seq<Transition>, s: Seq<u16>, a: Set<int>, w: Seq<u8>, c: u8)
    ensures
        pset_walk(t, s, a, w.push(c)) == match pset_walk(t, s, a, w) {
            None => None,
            Some(x) => round_outcome(t, s, x, c),
        },
{
    assert(w.push(c).drop_last() =~= w);
}

/// Where `f` does not change between neighbours, the count of changes stays.
proof fn lemma_changes_flat(f: spec_fn(u8) -> Option<Set<int>>, lo: int, hi: int)
    requires
        1 <= lo <= hi + 1,
        hi <= 255,
        forall|n: int| lo <= n <= hi ==> #[trigger] f(n as u8) == f((n - 1) as u8),
    ensures
        changes(f, hi + 1) == changes(f, lo),
    decreases hi + 1 - lo,
{
    if lo <= hi {
        lemma_changes_flat(f, lo, hi - 1);
        assert(f(hi as u8) == f((hi - 1) as u8));
    }
}

/// In a list of distinct sets, an outcome has one standing value, and a
/// value stands for one outcome.
proof fn lemma_stands_unique(views: Seq<Set<int>>, v: u16, w: u16, o: Option<Set<int>>, p: Option<Set<int>>)
    requires
        views.no_duplicates(),
        views.len() <= 0xfffe,
        stands_for(views, v, o),
        stands_for(views, w, p),
    ensures
        (v == w) == (o == p),
{
}

/// A value that stands for an outcome keeps doing so when more sets are found.
proof fn lemma_stands_grow(views: Seq<Set<int>>, more: Seq<Set<int>>, v: u16, o: Option<Set<int>>)
    requires
        stands_for(views, v, o),
        views.len() <= more.len(),
        views == more.take(views.len() as int),
    ensures
        stands_for(more, v, o),
{
    if let Some(b) = o {
        if b != Set::<int>::empty() {
            assert(more[v as int] == views[v as int]);
        }
    }
}

/// The place of a set among the sets found so far; their number when it is
/// not among them.
fn find_set(sets: &Vec<BitSet>, b: &BitSet) -> (r: usize)
    requires
        forall|i: int| 0 <= i < sets@.len() ==> (#[trigger] sets@[i]).room() == b.room(),
    ensures
        r <= sets@.len(),
        r < sets@.len() ==> sets@[r as int]@ == b@,
        r == sets@.len() ==> forall|i: int| 0 <= i < sets@.len() ==> (#[trigger] sets@[i])@ != b@,
{
    let mut i: usize = 0;
    while i < sets.len()
        invariant
            i <= sets@.len(),
            forall|k: int| 0 <= k < sets@.len() ==> (#[trigger] sets@[k]).room() == b.room(),
            forall|k: int| 0 <= k < i ==> (#[trigger] sets@[k])@ != b@,
        decreases sets@.len() - i,
    {
        if sets[i].same_elements(b) {
            return i;
        }
        i = i + 1;
    }
    i
}

/// The value a table entry becomes in the deterministic automaton: final
/// values stay, the number of a set becomes the first slot of its tree.
pub open spec fn mapped(bases: Seq<u16>, v: u16) -> u16 {
    if v >= 0xfffe {
        v
    } else {
        bases[v as int]
    }
}

/// The decision tree of set `j` stands at `bases[j]`: its root reads a
/// symbol, and every symbol leads through it to the value that the table
/// entry for the symbol becomes.
pub open spec fn block_built(
    t: Seq<Transition>,
    s: Seq<u16>,
    trans: Seq<Option<Transition>>,
    views: Seq<Set<int>>,
    bases: Seq<u16>,
    r: Seq<(u8, u8)>,
    v: Seq<u16>,
    j: int,
) -> bool {
    &&& 0 <= bases[j] < trans.len()
    &&& bases[j] + r.len() <= 0xffff
    &&& trans[bases[j] as int] is Some
    &&& trans[bases[j] as int]->Some_0.consume
    &&& full_ranges(r)
    &&& r.len() == v.len()
    &&& forall|c: u8, i: int|
        #[trigger] covers(r, i, c) ==> stands_for(views, v[i], round_outcome(t, s, views[j], c)) && leads(
            trans,
            bases[j] as int,
            bases[j] as int,
            bases[j] + r.len() - 1,
            c,
            mapped(bases, v[i]),
            r.len() as nat,
        )
}

/// The deterministic automaton with the decision trees of all sets runs
/// from the tree of a set as the run over sets does from that set.
proof fn lemma_blocks_run(
    t: Seq<Transition>,
    s: Seq<u16>,
    trans: Seq<Option<Transition>>,
    views: Seq<Set<int>>,
    bases: Seq<u16>,
    rs: Seq<Seq<(u8, u8)>>,
    vs: Seq<Seq<u16>>,
    input: Seq<u8>,
    pos: nat,
    j: int,
    sym: u8,
)
    requires
        trans.len() <= 0xfffe,
        views.len() <= 0xfffe,
        views.len() == bases.len(),
        views.len() == rs.len(),
        views.len() == vs.len(),
        forall|k: int| 0 <= k < views.len() ==> #[trigger] block_built(t, s, trans, views, bases, rs[k], vs[k], k),
        0 <= j < views.len(),
        pos <= input.len(),
    ensures
        dfa_halts_from(filled(trans), input, bases[j], sym, pos),
        dfa_end_from(filled(trans), input, bases[j], sym, pos) == pset_from(t, s, views[j], input, pos),
    decreases input.len() - pos,
{
    let d = filled(trans);
    let node = bases[j];
    assert(block_built(t, s, trans, views, bases, rs[j], vs[j], j));
    assert(d[node as int] == trans[node as int]->Some_0);
    if pos >= input.len() {
        lemma_end_is_walk(d, input, node, sym, pos, 1);
    } else {
        let c = input[pos as int];
        let r = rs[j];
        let v = vs[j];
        let i = lemma_full_lookup(r, v, c);
        assert(covers(r, i, c));
        let y = mapped(bases, v[i]);
        assert forall|k: int| 0 <= k < trans.len() && #[trigger] trans[k] is Some implies d[k] == trans[k]->Some_0 by {}
        lemma_leads_walk(d, input, trans, node as int, node as int, node + r.len() - 1, c, y, r.len() as nat, sym, pos);
        assert(stands_for(views, v[i], round_outcome(t, s, views[j], c)));
        match round_outcome(t, s, views[j], c) {
            None => {
                assert(y == ACCEPTING_STATE);
                assert(pset_from(t, s, views[j], input, pos) == RunEnd::Accept { pos: pos + 1, symbol: c });
            },
            Some(b) => {
                if b != Set::<int>::empty() {
                    let k = v[i] as int;
                    assert(block_built(t, s, trans, views, bases, rs[k], vs[k], k));
                    lemma_blocks_run(t, s, trans, views, bases, rs, vs, input, pos + 1, k, c);
                    assert(y == bases[k]);
                    assert(pset_from(t, s, views[j], input, pos) == pset_from(t, s, views[k], input, pos + 1));
                } else {
                    assert(y == REJECTING_STATE);
                    assert(pset_from(t, s, views[j], input, pos) == RunEnd::Reject { pos: pos + 1, symbol: c });
                }
            },
        }
    }
}

impl Nfa {
    /// The table of the set `sets[j]`: the outcome of a round from it for
    /// every symbol, as ranges of symbols with one outcome each.  Sets of
    /// states that read next and are not among `sets` yet are added.
    /// Where a new set would make more than `0xfffe` sets, the construction
    /// cannot fit, and nothing is returned.
    fn powerset_table(&self, sets: &mut Vec<BitSet>, j: usize) -> (r: Option<SwitchTable>)
        requires
            self.wf(),
            sets_ok(self@.0, self@.1, old(sets)@, 64 * ((self@.0.len() + 63) / 64)),
            old(sets)@.len() <= 0xfffe,
            j < old(sets)@.len(),
        ensures
            sets_ok(self@.0, self@.1, final(sets)@, 64 * ((self@.0.len() + 63) / 64)),
            old(sets)@.len() <= final(sets)@.len(),
            final(sets)@.take(old(sets)@.len() as int) == old(sets)@,
            match r {
                Some(r) => {
                    &&& final(sets)@.len() <= 0xfffe
                    &&& table_ok(
                        self@.0,
                        self@.1,
                        set_views(final(sets)@),
                        final(sets)@[j as int]@,
                        r.ranges@,
                        r.targets@,
                    )
                },
                None => !powerset_fits(self@.0, self@.1),
            },
    {
        let ghost t = self@.0;
        let ghost st = self@.1;
        let ghost room: nat = 64 * ((t.len() + 63) / 64);
        let ghost a = sets@[j as int]@;
        let ghost old_sets = sets@;
        let ghost f = outcome_fn(t, st, a);
        let l = self.transitions.len() as u16;
        let mut ranges: Vec<(u8, u8)> = Vec::new();
        let mut targets: Vec<u16> = Vec::new();
        let mut next: u16 = 0;
        proof {
            assert(room >= t.len()) by (nonlinear_arith)
                requires
                    room == 64 * ((t.len() + 63) / 64),
            ;
            assert(sets@.take(old_sets.len() as int) =~= old_sets);
        }
        while next < 256
            invariant
                t == self@.0,
                st == self@.1,
                nfa_wf(t, st),
                l as int == t.len(),
                room == 64 * ((t.len() + 63) / 64),
                room >= t.len(),
                f == outcome_fn(t, st, a),
                sets_ok(t, st, sets@, room),
                sets@.len() <= 0xfffe,
                old_sets.len() <= sets@.len(),
                sets@.take(old_sets.len() as int) == old_sets,
                old_sets == old(sets)@,
                j < old_sets.len(),
                a == sets@[j as int]@,
                next <= 256,
                ranges@.len() == targets@.len(),
                (ranges@.len() == 0) == (next == 0),
                ranges@.len() > 0 ==> ranges@[0].0 == 0 && ranges@.last().1 + 1 == next,
                sorted_ranges(ranges@),
                forall|i: int, k: int|
                    0 <= i && k == i + 1 && k < ranges@.len() ==> (#[trigger] ranges@[i]).1 + 1 == (
                    #[trigger] ranges@[k]).0,
                merged(targets@),
                forall|c: u8, i: int|
                    #[trigger] covers(ranges@, i, c) ==> stands_for(
                        set_views(sets@),
                        targets@[i],
                        round_outcome(t, st, a, c),
                    ),
                next > 0 ==> ranges@.len() == 1 + changes(f, next as int),
            decreases 256 - next,
        {
            let symbol = next as u8;
            let ghost views = set_views(sets@);
            let (out, max) = self.explore_transitions(sets[j].copy(), BitSet::new_with_size(l), symbol);
            let v: u16 = match out {
                None => ACCEPTING_STATE,
                Some(b) => {
                    let mut b = b;
                    if b.is_empty() {
                        REJECTING_STATE
                    } else {
                        let k = find_set(sets, &b);
                        if k == sets.len() {
                            let ghost w = choose|w: Seq<u8>| #[trigger] pset_walk(t, st, set![INITIAL_STATE as int], w) == Some(a);
                            proof {
                                lemma_walk_push(t, st, set![INITIAL_STATE as int], w, symbol);
                                assert(pset_walk(t, st, set![INITIAL_STATE as int], w.push(symbol)) == Some(b@));
                                assert(b@ == round_next(t, st, a, symbol));
                            }
                            let ghost before = sets@;
                            sets.push(b);
                            proof {
                                assert(set_views(sets@) =~= set_views(before).push(b@));
                                assert(sets@[k as int] == b);
                                assert forall|i: int| 0 <= i < set_views(before).len() implies set_views(before)[i] != b@ by {
                                    assert(set_views(before)[i] == before[i]@);
                                }
                                assert(set_views(sets@).no_duplicates());
                                assert forall|i: int| 0 <= i < sets@.len() implies {
                                    &&& (#[trigger] sets@[i]).wf()
                                    &&& sets@[i].room() == room
                                    &&& pset_reachable(t, st, sets@[i]@)
                                    &&& sets@[i]@ != Set::<int>::empty()
                                    &&& forall|x: int| #[trigger] sets@[i]@.contains(x) ==> 0 <= x < t.len()
                                } by {
                                    if i < before.len() {
                                        assert(sets@[i] == before[i]);
                                    } else {
                                        assert(sets@[i] == b);
                                        assert(pset_walk(t, st, set![INITIAL_STATE as int], w.push(symbol)) == Some(b@));
                                    }
                                }
                                assert(sets@.take(old_sets.len() as int) =~= before.take(old_sets.len() as int));
                            }
                            if sets.len() > 0xfffe {
                                proof {
                                    lemma_unfit(t, st, sets@, room);
                                    assert(sets@.take(old_sets.len() as int) =~= old_sets);
                                }
                                return None;
                            }
                        }
                        k as u16
                    }
                },
            };
            proof {
                let nv = set_views(sets@);
                assert(views =~= nv.take(views.len() as int));
                assert forall|c: u8| symbol <= c <= max implies stands_for(nv, v, #[trigger] round_outcome(t, st, a, c)) by {
                    assert(round_outcome(t, st, a, c) == round_outcome(t, st, a, symbol));
                }
                assert forall|c: u8, i: int| #[trigger] covers(ranges@, i, c) implies stands_for(
                    nv,
                    targets@[i],
                    round_outcome(t, st, a, c),
                ) by {
                    lemma_stands_grow(views, nv, targets@[i], round_outcome(t, st, a, c));
                }
            }
            if targets.len() > 0 && targets[targets.len() - 1] == v {
                let n = ranges.len() - 1;
                let lo = ranges[n].0;
                let ghost old_ranges = ranges@;
                proof {
                    let nv = set_views(sets@);
                    assert(covers(ranges@, n as int, (symbol - 1) as u8));
                    lemma_stands_unique(nv, targets@[n as int], v, round_outcome(t, st, a, (symbol - 1) as u8), round_outcome(t, st, a, symbol));
                    assert forall|x: int| symbol <= x <= max implies #[trigger] f(x as u8) == f((x - 1) as u8) by {
                        assert(f(x as u8) == round_outcome(t, st, a, x as u8));
                        assert(f((x - 1) as u8) == round_outcome(t, st, a, (x - 1) as u8));
                        if x > symbol {
                            assert(round_outcome(t, st, a, (x - 1) as u8) == round_outcome(t, st, a, symbol));
                        }
                    }
                    lemma_changes_flat(f, symbol as int, max as int);
                }
                ranges.set(n, (lo, max));
                proof {
                    let nv = set_views(sets@);
                    assert forall|c: u8, i: int| #[trigger] covers(ranges@, i, c) implies stands_for(
                        nv,
                        targets@[i],
                        round_outcome(t, st, a, c),
                    ) by {
                        if i < n || c < symbol {
                            assert(covers(old_ranges, i, c));
                        }
                    }
                }
            } else {
                let ghost old_ranges = ranges@;
                let ghost old_targets = targets@;
                proof {
                    let nv = set_views(sets@);
                    if next > 0 {
                        let n = ranges@.len() - 1;
                        assert(covers(ranges@, n, (symbol - 1) as u8));
                        lemma_stands_unique(nv, targets@[n], v, round_outcome(t, st, a, (symbol - 1) as u8), round_outcome(t, st, a, symbol));
                        assert(f(symbol) != f((symbol - 1) as u8));
                        assert(changes(f, symbol + 1) == changes(f, symbol as int) + 1);
                    }
                    assert forall|x: int| symbol + 1 <= x <= max implies #[trigger] f(x as u8) == f((x - 1) as u8) by {
                        assert(round_outcome(t, st, a, (x - 1) as u8) == round_outcome(t, st, a, symbol));
                        assert(round_outcome(t, st, a, x as u8) == round_outcome(t, st, a, symbol));
                    }
                    lemma_changes_flat(f, symbol + 1, max as int);
                }
                ranges.push((symbol, max));
                targets.push(v);
                proof {
                    let nv = set_views(sets@);
                    assert forall|c: u8, i: int| #[trigger] covers(ranges@, i, c) implies stands_for(
                        nv,
                        targets@[i],
                        round_outcome(t, st, a, c),
                    ) by {
                        if i < old_ranges.len() {
                            assert(covers(old_ranges, i, c));
                            assert(targets@[i] == old_targets[i]);
                        }
                    }
                }
            }
            next = max as u16 + 1;
        }
        Some(SwitchTable { ranges, targets })
    }

    /// The powerset construction: starting from the set of the initial
    /// state, the table of every set of states that a run can be in before
    /// reading a symbol.  Where more than `0xfffe` such sets turn up, or
    /// their decision trees take more than `0xfffe` slots together, the
    /// deterministic automaton cannot number them, and nothing is returned.
    pub(crate) fn compute_powerset_map(&self) -> (m: Option<PowersetMap>)
        requires
            self.wf(),
        ensures
            match m {
                Some(m) => m.ok(self@.0, self@.1) && m.sets@[0].room() == 64 * ((self@.0.len() + 63) / 64),
                None => !powerset_fits(self@.0, self@.1),
            },
    {
        let ghost t = self@.0;
        let ghost st = self@.1;
        let ghost room: nat = 64 * ((t.len() + 63) / 64);
        let l = self.transitions.len() as u16;
        let mut sets: Vec<BitSet> = Vec::new();
        let mut tables: Vec<SwitchTable> = Vec::new();
        let mut first = BitSet::new_with_size(l);
        proof {
            assert(room >= t.len()) by (nonlinear_arith)
                requires
                    room == 64 * ((t.len() + 63) / 64),
            ;
        }
        first.insert(INITIAL_STATE);
        sets.push(first);
        proof {
            assert(first@ =~= set![INITIAL_STATE as int]);
            assert(pset_walk(t, st, set![INITIAL_STATE as int], Seq::<u8>::empty()) == Some(first@));
            assert(set_views(sets@) =~= seq![first@]);
            assert(sets@[0] == first);
            assert(pset_reachable(t, st, first@));
            assert(first@.contains(INITIAL_STATE as int));
            assert forall|i: int| 0 <= i < sets@.len() implies {
                &&& (#[trigger] sets@[i]).wf()
                &&& sets@[i].room() == room
                &&& pset_reachable(t, st, sets@[i]@)
                &&& sets@[i]@ != Set::<int>::empty()
                &&& forall|x: int| #[trigger] sets@[i]@.contains(x) ==> 0 <= x < t.len()
            } by {
                assert(i == 0);
            }
            assert(set_views(sets@).no_duplicates());
        }
        let mut j: usize = 0;
        while j < sets.len()
            invariant
                t == self@.0,
                st == self@.1,
                nfa_wf(t, st),
                sets@.len() <= 0xfffe,
                room == 64 * ((t.len() + 63) / 64),
                sets_ok(t, st, sets@, room),
                sets@.len() >= 1,
                sets@[0]@ == set![INITIAL_STATE as int],
                j <= sets@.len(),
                tables@.len() == j,
                forall|i: int|
                    0 <= i < j ==> table_ok(
                        t,
                        st,
                        set_views(sets@),
                        #[trigger] sets@[i]@,
                        tables@[i].ranges@,
                        tables@[i].targets@,
                    ),
            decreases 0xfffe - j,
        {
            let ghost before = sets@;
            let table = match self.powerset_table(&mut sets, j) {
                Some(table) => table,
                None => {
                    return None;
                },
            };
            proof {
                let bv = set_views(before);
                let nv = set_views(sets@);
                assert(bv =~= nv.take(bv.len() as int));
                assert forall|i: int| 0 <= i < j implies table_ok(
                    t,
                    st,
                    nv,
                    #[trigger] sets@[i]@,
                    tables@[i].ranges@,
                    tables@[i].targets@,
                ) by {
                    assert(sets@[i] == before[i]);
                    let r = tables@[i].ranges@;
                    let v = tables@[i].targets@;
                    assert(table_ok(t, st, bv, before[i]@, r, v));
                    assert forall|c: u8, k: int| #[trigger] covers(r, k, c) implies stands_for(nv, v[k], round_outcome(t, st, sets@[i]@, c)) by {
                        lemma_stands_grow(bv, nv, v[k], round_outcome(t, st, sets@[i]@, c));
                    }
                }
                assert(sets@[0] == before[0]);
            }
            tables.push(table);
            j = j + 1;
        }
        let ghost views = set_views(sets@);
        let mut total: usize = 0;
        let mut i: usize = 0;
        while i < tables.len()
            invariant
                t == self@.0,
                st == self@.1,
                views == set_views(sets@),
                sets_ok(t, st, sets@, room),
                tables@.len() == sets@.len(),
                i <= tables@.len(),
                total <= 0xfffe,
                total == pset_slots(t, st, views.take(i as int)),
                forall|k: int|
                    0 <= k < tables@.len() ==> table_ok(
                        t,
                        st,
                        views,
                        #[trigger] sets@[k]@,
                        tables@[k].ranges@,
                        tables@[k].targets@,
                    ),
            decreases tables@.len() - i,
        {
            proof {
                lemma_slots_prefix(t, st, views, i as int);
                assert(table_ok(t, st, views, sets@[i as int]@, tables@[i as int].ranges@, tables@[i as int].targets@));
                assert(views[i as int] == sets@[i as int]@);
            }
            let len = tables[i].ranges.len();
            let b: usize = if len >= 2 {
                len - 1
            } else {
                1
            };
            if b > 0xfffe - total {
                proof {
                    assert(b == block_len(pset_runs(t, st, views[i as int])));
                    assert(pset_slots(t, st, views) > 0xfffe);
                    lemma_unfit(t, st, sets@, room);
                }
                return None;
            }
            total = total + b;
            i = i + 1;
        }
        proof {
            assert(views.take(tables@.len() as int) =~= views);
        }
        Some(PowersetMap { sets, tables })
    }
}

/// The slots of a shorter prefix are no more than those of a longer one.
proof fn lemma_slots_mono(t: Seq<Transition>, s: Seq<u16>, q: Seq<Set<int>>, a: int, b: int)
    requires
        0 <= a <= b <= q.len(),
    ensures
        pset_slots(t, s, q.take(a)) <= pset_slots(t, s, q.take(b)),
    decreases b - a,
{
    if a < b {
        lemma_slots_prefix(t, s, q, b - 1);
        lemma_slots_mono(t, s, q, a, b - 1);
    }
}

/// Every entry of a set's table is a final value or the number of a set.
proof fn lemma_table_values(
    t: Seq<Transition>,
    s: Seq<u16>,
    views: Seq<Set<int>>,
    a: Set<int>,
    r: Seq<(u8, u8)>,
    v: Seq<u16>,
)
    requires
        table_ok(t, s, views, a, r, v),
    ensures
        forall|k: int| 0 <= k < v.len() ==> (#[trigger] v[k]) >= 0xfffe || (v[k] as int) < views.len(),
{
    assert forall|k: int| 0 <= k < v.len() implies (#[trigger] v[k]) >= 0xfffe || (v[k] as int) < views.len() by {
        assert(covers(r, k, r[k].0));
    }
}

/// The trees of the sets lie one after the other: the first slot of tree
/// `i` is the number of slots the trees before it take.
pub open spec fn bases_ok(t: Seq<Transition>, s: Seq<u16>, views: Seq<Set<int>>, bases: Seq<u16>) -> bool {
    &&& bases.len() == views.len()
    &&& forall|i: int| 0 <= i < bases.len() ==> #[trigger] bases[i] == pset_slots(t, s, views.take(i))
}

/// A value a table entry becomes lies outside the inner nodes of tree `i`,
/// and is a final value or a slot of some tree.
proof fn lemma_mapped_outside(t: Seq<Transition>, s: Seq<u16>, views: Seq<Set<int>>, bases: Seq<u16>, v: u16, i: int)
    requires
        bases_ok(t, s, views, bases),
        pset_slots(t, s, views) <= 0xfffe,
        views.len() <= 0xfffe,
        v >= 0xfffe || (v as int) < views.len(),
        0 <= i < views.len(),
    ensures
        !(bases[i] < mapped(bases, v) < bases[i] + pset_runs(t, s, views[i]) - 1),
        is_terminal(mapped(bases, v)) || (mapped(bases, v) as int) < pset_slots(t, s, views),
{
    lemma_slots_prefix(t, s, views, i);
    lemma_slots_mono(t, s, views, i + 1, views.len() as int);
    assert(views.take(views.len() as int) =~= views);
    if v < 0xfffe {
        let k = v as int;
        lemma_slots_prefix(t, s, views, k);
        lemma_slots_mono(t, s, views, k + 1, views.len() as int);
        if k <= i {
            lemma_slots_mono(t, s, views, k, i);
        } else {
            lemma_slots_mono(t, s, views, i + 1, k);
        }
    }
}

/// A target of the slot `k` that is a final value, a later slot, or the
/// first slot of the tree of some set.
pub open spec fn base_or_later(bases: Seq<u16>, k: int, v: u16) -> bool {
    is_terminal(v) || k < v || bases.contains(v)
}

/// A table entry becomes a final value or the first slot of a tree.
proof fn lemma_mapped_base(bases: Seq<u16>, v: u16)
    requires
        v >= 0xfffe || (v as int) < bases.len(),
    ensures
        is_terminal(mapped(bases, v)) || bases.contains(mapped(bases, v)),
{
    if v < 0xfffe {
        assert(bases[v as int] == mapped(bases, v));
    }
}

/// A copy of a table whose entries become the values they stand for in the
/// deterministic automaton.
fn retarget_table(tab: &SwitchTable, bases: &Vec<u16>) -> (r: SwitchTable)
    requires
        forall|k: int|
            0 <= k < tab.targets@.len() ==> (#[trigger] tab.targets@[k]) >= 0xfffe || (tab.targets@[k] as int)
                < bases@.len(),
    ensures
        r.ranges@ == tab.ranges@,
        r.targets@.len() == tab.targets@.len(),
        forall|k: int| 0 <= k < r.targets@.len() ==> #[trigger] r.targets@[k] == mapped(bases@, tab.targets@[k]),
{
    let mut ranges: Vec<(u8, u8)> = Vec::new();
    let mut k: usize = 0;
    while k < tab.ranges.len()
        invariant
            k <= tab.ranges@.len(),
            ranges@ == tab.ranges@.take(k as int),
        decreases tab.ranges@.len() - k,
    {
        ranges.push(tab.ranges[k]);
        k = k + 1;
        proof {
            assert(ranges@ =~= tab.ranges@.take(k as int));
        }
    }
    let mut targets: Vec<u16> = Vec::new();
    let mut k: usize = 0;
    while k < tab.targets.len()
        invariant
            k <= tab.targets@.len(),
            targets@.len() == k,
            forall|i: int|
                0 <= i < tab.targets@.len() ==> (#[trigger] tab.targets@[i]) >= 0xfffe || (tab.targets@[i] as int)
                    < bases@.len(),
            forall|i: int| 0 <= i < k ==> #[trigger] targets@[i] == mapped(bases@, tab.targets@[i]),
        decreases tab.targets@.len() - k,
    {
        let v = tab.targets[k];
        let y = if v >= 0xfffe {
            v
        } else {
            bases[v as usize]
        };
        targets.push(y);
        k = k + 1;
    }
    proof {
        assert(ranges@ =~= tab.ranges@);
    }
    SwitchTable { ranges, targets }
}

impl Dfa {
    /// Constructs a DFA from a NFA, using the powerset construction.
    ///
    /// The resulting DFA behaves like [Nfa::run_shortest] in that it yields
    /// the shortest possible match for any input.  Specifically crafted NFAs
    /// can yield an exponential number of states; the construction must fit
    /// the state numbers of a DFA ([powerset_fits]), which [lemma_small_fits]
    /// shows for NFAs of at most 8 states.  [Dfa::try_from_nfa] takes any NFA.
    pub fn from_nfa(nfa: Nfa) -> (r: Self)
        requires
            nfa.wf(),
            powerset_fits(nfa@.0, nfa@.1),
        ensures
            r.wf(),
            r@[0].consume,
            reads_forward(r@),
            forall|input: Seq<u8>|
                dfa_halts(r@, input) && #[trigger] dfa_end(r@, input) == pset_end(nfa@.0, nfa@.1, input),
    {
        let map = nfa.compute_powerset_map().unwrap();
        Self::from_powerset_map(&nfa, map)
    }

    /// [Dfa::from_nfa] for any NFA: the automaton is built wherever it fits
    /// the state numbers of a DFA, and nothing is returned where the sets
    /// of states found, or their decision trees, turn out too many.
    pub fn try_from_nfa(nfa: Nfa) -> (r: Option<Self>)
        requires
            nfa.wf(),
        ensures
            powerset_fits(nfa@.0, nfa@.1) ==> r is Some,
            r matches Some(d) ==> {
                &&& d.wf()
                &&& d@[0].consume
                &&& reads_forward(d@)
                &&& forall|input: Seq<u8>|
                    dfa_halts(d@, input) && #[trigger] dfa_end(d@, input) == pset_end(nfa@.0, nfa@.1, input)
            },
    {
        match nfa.compute_powerset_map() {
            Some(map) => Some(Self::from_powerset_map(&nfa, map)),
            None => None,
        }
    }

    /// The deterministic automaton numbered after the sets of a powerset map.
    fn from_powerset_map(nfa: &Nfa, map: PowersetMap) -> (r: Self)
        requires
            nfa.wf(),
            map.ok(nfa@.0, nfa@.1),
            map.sets@[0].room() == 64 * ((nfa@.0.len() + 63) / 64),
        ensures
            r.wf(),
            r@[0].consume,
            reads_forward(r@),
            forall|input: Seq<u8>|
                dfa_halts(r@, input) && #[trigger] dfa_end(r@, input) == pset_end(nfa@.0, nfa@.1, input),
    {
        let ghost t = nfa@.0;
        let ghost st = nfa@.1;
        let ghost views = set_views(map.sets@);
        let n = map.sets.len();
        proof {
            lemma_slots_at_least_len(t, st, views);
        }
        // the first slot of the tree of each set
        let mut bases: Vec<u16> = Vec::new();
        let mut total: usize = 0;
        while bases.len() < n
            invariant
                map.ok(t, st),
                views == set_views(map.sets@),
                n == map.sets@.len(),
                n <= 0xfffe,
                bases@.len() <= n,
                total == pset_slots(t, st, views.take(bases@.len() as int)),
                forall|i: int| 0 <= i < bases@.len() ==> #[trigger] bases@[i] == pset_slots(t, st, views.take(i)),
            decreases n - bases@.len(),
        {
            let j = bases.len();
            proof {
                lemma_slots_prefix(t, st, views, j as int);
                assert(table_ok(t, st, views, map.sets@[j as int]@, map.tables@[j as int].ranges@, map.tables@[j as int].targets@));
                assert(views[j as int] == map.sets@[j as int]@);
                assert(views.take(views.len() as int) =~= views);
                lemma_slots_mono(t, st, views, j + 1, n as int);
            }
            bases.push(total as u16);
            let len = map.tables[j].ranges.len();
            total = total + if len >= 2 {
                len - 1
            } else {
                1
            };
        }
        proof {
            assert(views.take(n as int) =~= views);
            assert(bases_ok(t, st, views, bases@));
            lemma_slots_at_least_len(t, st, views);
        }
        let mut trans = empty_slots(total);
        let ghost rs = Seq::new(n as nat, |i: int| map.tables@[i].ranges@);
        let ghost vs = Seq::new(n as nat, |i: int| map.tables@[i].targets@);
        let mut j: usize = 0;
        while j < n
            invariant
                map.ok(t, st),
                views == set_views(map.sets@),
                n == map.sets@.len(),
                n <= 0xfffe,
                1 <= total <= 0xfffe,
                total == pset_slots(t, st, views),
                bases_ok(t, st, views, bases@),
                rs == Seq::new(n as nat, |i: int| map.tables@[i].ranges@),
                vs == Seq::new(n as nat, |i: int| map.tables@[i].targets@),
                j <= n,
                trans@.len() == total,
                forall|k: int| pset_slots(t, st, views.take(j as int)) <= k < total ==> #[trigger] trans@[k] is None,
                forall|k: int|
                    0 <= k < total && #[trigger] trans@[k] is Some ==> valid_target(total as nat, trans@[k]->Some_0.inside)
                        && valid_target(total as nat, trans@[k]->Some_0.outside),
                forall|i: int| 0 <= i < j ==> #[trigger] block_built(t, st, trans@, views, bases@, rs[i], vs[i], i),
                forall|k: int|
                    0 <= k < total && #[trigger] trans@[k] is Some && !trans@[k]->Some_0.consume ==> base_or_later(
                        bases@,
                        k,
                        trans@[k]->Some_0.inside,
                    ) && base_or_later(bases@, k, trans@[k]->Some_0.outside),
            decreases n - j,
        {
            let ghost ji = j as int;
            let ghost tab_r = map.tables@[ji].ranges@;
            let ghost tab_v = map.tables@[ji].targets@;
            proof {
                assert(views[ji] == map.sets@[ji]@);
                assert(table_ok(t, st, views, views[ji], tab_r, tab_v));
                lemma_table_values(t, st, views, views[ji], tab_r, tab_v);
                lemma_slots_prefix(t, st, views, ji);
                lemma_slots_mono(t, st, views, ji + 1, n as int);
                assert(views.take(n as int) =~= views);
            }
            let table = retarget_table(&map.tables[j], &bases);
            let start = bases[j];
            let ghost before = trans@;
            let ghost bl = block_len(tab_r.len() as int);
            proof {
                assert forall|i: int| 0 <= i < table.targets@.len() implies !(start < #[trigger] table.targets@[i] < start
                    + table.ranges@.len() - 1) by {
                    lemma_mapped_outside(t, st, views, bases@, tab_v[i], ji);
                }
            }
            Dfa::from_nfa_build_transitions(&mut trans, start, table);
            proof {
                // the new tree
                assert forall|k: int|
                    0 <= k < total && #[trigger] trans@[k] is Some implies valid_target(total as nat, trans@[k]->Some_0.inside)
                        && valid_target(total as nat, trans@[k]->Some_0.outside) by {
                    if start <= k < start + bl {
                        let x = trans@[k]->Some_0.inside;
                        let y = trans@[k]->Some_0.outside;
                        assert(ok_target(x, start as int, start + bl, table.targets@));
                        assert(ok_target(y, start as int, start + bl, table.targets@));
                        if table.targets@.contains(x) {
                            let i = choose|i: int| 0 <= i < table.targets@.len() && table.targets@[i] == x;
                            lemma_mapped_outside(t, st, views, bases@, tab_v[i], ji);
                        }
                        if table.targets@.contains(y) {
                            let i = choose|i: int| 0 <= i < table.targets@.len() && table.targets@[i] == y;
                            lemma_mapped_outside(t, st, views, bases@, tab_v[i], ji);
                        }
                    } else {
                        assert(trans@[k] == before[k]);
                    }
                }
                assert forall|c: u8, i: int| #[trigger] covers(tab_r, i, c) implies stands_for(views, tab_v[i], round_outcome(t, st, views[ji], c)) && leads(
                    trans@,
                    start as int,
                    start as int,
                    start + tab_r.len() - 1,
                    c,
                    mapped(bases@, tab_v[i]),
                    tab_r.len() as nat,
                ) by {
                    assert(table_has(table.ranges@, table.targets@, c, table.targets@[i]));
                }
                assert forall|k: int|
                    0 <= k < total && #[trigger] trans@[k] is Some && !trans@[k]->Some_0.consume implies base_or_later(
                        bases@,
                        k,
                        trans@[k]->Some_0.inside,
                    ) && base_or_later(bases@, k, trans@[k]->Some_0.outside) by {
                    if start <= k < start + bl {
                        let x = trans@[k]->Some_0.inside;
                        let y = trans@[k]->Some_0.outside;
                        assert(ok_target(x, k, start + bl, table.targets@));
                        assert(ok_target(y, k, start + bl, table.targets@));
                        if table.targets@.contains(x) {
                            let i = choose|i: int| 0 <= i < table.targets@.len() && table.targets@[i] == x;
                            lemma_mapped_base(bases@, tab_v[i]);
                        }
                        if table.targets@.contains(y) {
                            let i = choose|i: int| 0 <= i < table.targets@.len() && table.targets@[i] == y;
                            lemma_mapped_base(bases@, tab_v[i]);
                        }
                    } else {
                        assert(trans@[k] == before[k]);
                    }
                }
                assert(rs[ji] == tab_r);
                assert(vs[ji] == tab_v);
                assert(block_built(t, st, trans@, views, bases@, rs[ji], vs[ji], ji));
                // the trees built before
                assert forall|i: int| 0 <= i < j + 1 implies #[trigger] block_built(t, st, trans@, views, bases@, rs[i], vs[i], i) by {
                    if i < ji {
                        let ri = rs[i];
                        let vi = vs[i];
                        let b = bases@[i];
                        assert(block_built(t, st, before, views, bases@, ri, vi, i));
                        lemma_slots_prefix(t, st, views, i);
                        lemma_slots_mono(t, st, views, i + 1, ji);
                        assert(views[i] == map.sets@[i]@);
                        assert(table_ok(t, st, views, views[i], map.tables@[i].ranges@, map.tables@[i].targets@));
                        lemma_table_values(t, st, views, views[i], ri, vi);
                        assert(trans@[b as int] == before[b as int]);
                        assert forall|c: u8, k: int| #[trigger] covers(ri, k, c) implies stands_for(views, vi[k], round_outcome(t, st, views[i], c)) && leads(
                            trans@,
                            b as int,
                            b as int,
                            b + ri.len() - 1,
                            c,
                            mapped(bases@, vi[k]),
                            ri.len() as nat,
                        ) by {
                            lemma_mapped_outside(t, st, views, bases@, vi[k], i);
                            assert forall|m: int| b < m < b + ri.len() - 1 implies #[trigger] trans@[m] == before[m] by {}
                            lemma_leads_widen(
                                before,
                                trans@,
                                b as int,
                                b as int,
                                b + ri.len() - 1,
                                b as int,
                                b + ri.len() - 1,
                                c,
                                mapped(bases@, vi[k]),
                                ri.len() as nat,
                                ri.len() as nat,
                            );
                        }
                    }
                }
            }
            j = j + 1;
        }
        let r = Dfa { transitions: fill_unused(trans) };
        proof {
            assert(pset_slots(t, st, views.take(0)) == 0) by {
                assert(views.take(0) =~= Seq::<Set<int>>::empty());
            }
            assert(bases@[0] == 0);
            assert forall|i: int| 0 <= i < r@.len() implies valid_target(r@.len(), #[trigger] r@[i].inside) && valid_target(
                r@.len(),
                r@[i].outside,
            ) by {
                if trans@[i] is Some {
                    assert(r@[i] == trans@[i]->Some_0);
                }
            }
            assert(dfa_wf(r@));
            assert(block_built(t, st, trans@, views, bases@, rs[0], vs[0], 0));
            assert forall|q: int| 0 <= q < r@.len() && !(#[trigger] r@[q]).consume implies forward_target(
                r@,
                q,
                r@[q].inside,
            ) && forward_target(r@, q, r@[q].outside) by {
                if trans@[q] is Some {
                    assert(r@[q] == trans@[q]->Some_0);
                    let x = r@[q].inside;
                    let y = r@[q].outside;
                    if bases@.contains(x) {
                        let i = choose|i: int| 0 <= i < bases@.len() && bases@[i] == x;
                        assert(block_built(t, st, trans@, views, bases@, rs[i], vs[i], i));
                        assert(r@[x as int] == trans@[x as int]->Some_0);
                    }
                    if bases@.contains(y) {
                        let i = choose|i: int| 0 <= i < bases@.len() && bases@[i] == y;
                        assert(block_built(t, st, trans@, views, bases@, rs[i], vs[i], i));
                        assert(r@[y as int] == trans@[y as int]->Some_0);
                    }
                } else {
                    assert(r@[q] == unused_rule());
                }
            }
            assert(r@[0] == trans@[0]->Some_0);
            assert(views[0] == set![INITIAL_STATE as int]);
            assert forall|input: Seq<u8>| dfa_halts(r@, input) && #[trigger] dfa_end(r@, input) == pset_end(t, st, input) by {
                lemma_blocks_run(t, st, trans@, views, bases@, rs, vs, input, 0, 0, 0);
            }
        }
        r
    }
}

} // verus!
