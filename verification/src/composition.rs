//! What the constructions of nondeterministic automata match, in terms of
//! the matches of their parts.
use crate::dfa::{rebase_fn, replace_fn, swap_fn};
use crate::nfa::{
    Search, append_nfa, combine_nfa, invert_nfa, combine_reads, quiet_if, lemma_repeat_wf, repeat_nfa, dfs, dfs_list, field_at, fork_state, is_list, lemma_append_wf,
    lemma_combine_wf, lemma_dfs_fuel, lemma_header_not_listed, lemma_match_is_step,
    lemma_path_first, lemma_path_step, lemma_reach_bound, lemma_reach_prepend, lemma_step_accept,
    lemma_step_next, lemma_step_open, lemma_switch_wf, lift, list_at, list_end, list_holds,
    listed_upto, lists_ok, map_states, match_from, nfa_halts, nfa_matches, nfa_search, nfa_wf,
    part_ok, placed, quiet_first, quiet_path, quiet_step, round_reach, shift_lists, step_match,
    switch_nfa, targets, valid_raw,
};
use crate::{in_range, is_terminal, pick, Transition, ACCEPTING_STATE, INITIAL_STATE, REJECTING_STATE};
use vstd::prelude::*;

verus! {

/// The next states of a component's state, as they stand in the composite,
/// are the component's next states relabeled.
pub proof fn lemma_part_targets(
    tt: Seq<Transition>,
    ss: Seq<u16>,
    t: Seq<Transition>,
    s: Seq<u16>,
    o: int,
    so: int,
    f: spec_fn(u16) -> u16,
    x: int,
    c: u8,
)
    requires
        part_ok(tt, ss, t, s, o, so, f),
        0 <= x < t.len(),
        tt[o + x].min == t[x].min,
        tt[o + x].max == t[x].max,
    ensures
        targets(ss, pick(tt[o + x], c)) == targets(s, pick(t[x], c)).map_values(f),
{
    let r = pick(t[x], c);
    let q = if in_range(t[x], c) {
        2 * x
    } else {
        2 * x + 1
    };
    assert(field_at(t, q) == r);
    assert(valid_raw(t.len(), s, r));
    assert(pick(tt[o + x], c) == lift(r, f, so));
    if is_list(r) {
        let rr = lift(r, f, so);
        assert(list_at(rr) == so + list_at(r));
        lemma_header_not_listed(t, s, q);
        assert(ss[so + list_at(r)] == s[list_at(r)]);
        assert forall|k: int| 0 <= k < targets(ss, rr).len() implies targets(ss, rr)[k] == f(targets(s, r)[k]) by {
            let kk = list_at(r) + 1 + k;
            assert(list_holds(t, s, q, kk));
            assert(listed_upto(t, s, 2 * t.len() as int, kk));
            assert(ss[so + kk] == f(s[kk]));
        }
        assert(targets(ss, rr) =~= targets(s, r).map_values(f));
    } else {
        assert(is_terminal(r) || (r as int) < t.len());
        assert(targets(ss, f(r)) =~= targets(s, r).map_values(f));
    }
}

/// A chain in the composite from a state of the component stays among the
/// component's states.
proof fn lemma_path_stays(
    t1: Seq<Transition>,
    s1: Seq<u16>,
    t2: Seq<Transition>,
    s2: Seq<u16>,
    c: u8,
    o: int,
    p: Seq<int>,
    k: int,
)
    requires
        quiet_path(t2, s2, c, p),
        o <= p[0] < o + t1.len(),
        forall|u: int, v: int|
            o <= u < o + t1.len() && #[trigger] quiet_step(t2, s2, c, u, v) ==> o <= v < o + t1.len()
                && quiet_step(t1, s1, c, u - o, v - o),
        0 <= k < p.len(),
    ensures
        o <= p[k] < o + t1.len(),
    decreases k,
{
    reveal(quiet_path);
    if k > 0 {
        lemma_path_stays(t1, s1, t2, s2, c, o, p, k - 1);
        assert(quiet_step(t2, s2, c, p[k - 1], p[k]));
    }
}

/// Rounds in a component and in a composite that holds it at state offset
/// `o` visit the same states, shifted, when the quiet steps from the
/// component's states agree.
pub proof fn lemma_reach_shift(
    t1: Seq<Transition>,
    s1: Seq<u16>,
    t2: Seq<Transition>,
    s2: Seq<u16>,
    c: u8,
    o: int,
    x: int,
)
    requires
        0 <= x < t1.len(),
        0 <= o,
        o + t1.len() <= t2.len(),
        forall|u: int, v: int|
            o <= u < o + t1.len() && #[trigger] quiet_step(t2, s2, c, u, v) ==> o <= v < o + t1.len()
                && quiet_step(t1, s1, c, u - o, v - o),
        forall|u: int, v: int| #[trigger] quiet_step(t1, s1, c, u, v) ==> quiet_step(t2, s2, c, o + u, o + v),
    ensures
        forall|z: int|
            #[trigger] round_reach(t2, s2, set![o + x], c).contains(z) <==> (o <= z < o + t1.len()
                && round_reach(t1, s1, set![x], c).contains(z - o)),
{
    reveal(quiet_path);
    assert forall|z: int| #[trigger] round_reach(t2, s2, set![o + x], c).contains(z) implies (o <= z < o
        + t1.len() && round_reach(t1, s1, set![x], c).contains(z - o)) by {
        let p = choose|p: Seq<int>| #[trigger] quiet_path(t2, s2, c, p) && set![o + x].contains(p[0]) && p.last() == z;
        let q = p.map_values(|v: int| v - o);
        assert forall|i: int| 0 <= i < q.len() - 1 implies quiet_step(t1, s1, c, #[trigger] q[i], q[i + 1]) by {
            lemma_path_stays(t1, s1, t2, s2, c, o, p, i);
            assert(quiet_step(t2, s2, c, p[i], p[i + 1]));
        }
        lemma_path_stays(t1, s1, t2, s2, c, o, p, p.len() - 1);
        assert(quiet_path(t1, s1, c, q));
        assert(set![x].contains(q[0]) && q.last() == z - o);
    }
    assert forall|z: int| (o <= z < o + t1.len() && round_reach(t1, s1, set![x], c).contains(z - o)) implies #[trigger] round_reach(
        t2,
        s2,
        set![o + x],
        c,
    ).contains(z) by {
        let q = choose|q: Seq<int>| #[trigger] quiet_path(t1, s1, c, q) && set![x].contains(q[0]) && q.last() == z - o;
        let p = q.map_values(|v: int| v + o);
        assert forall|i: int| 0 <= i < p.len() - 1 implies quiet_step(t2, s2, c, #[trigger] p[i], p[i + 1]) by {
            assert(quiet_step(t1, s1, c, q[i], q[i + 1]));
        }
        assert(quiet_path(t2, s2, c, p));
        assert(set![o + x].contains(p[0]) && p.last() == z);
    }
}

/// The next states of a usable raw target are final values or states.
proof fn lemma_target_values(t: Seq<Transition>, s: Seq<u16>, r: u16)
    requires
        valid_raw(t.len(), s, r),
    ensures
        forall|k: int| 0 <= k < targets(s, r).len() ==> is_terminal(#[trigger] targets(s, r)[k]) || (targets(
            s,
            r,
        )[k] as int) < t.len(),
{
    if is_list(r) {
        assert forall|k: int| 0 <= k < targets(s, r).len() implies is_terminal(#[trigger] targets(s, r)[k]) || (
        targets(s, r)[k] as int) < t.len() by {
            assert(targets(s, r)[k] == s[list_at(r) + 1 + k]);
        }
    }
}

/// The concatenation holds `a` at its start and `b` after it, each state
/// with its own range and reading.
proof fn lemma_append_shape(a: (Seq<Transition>, Seq<u16>), b: (Seq<Transition>, Seq<u16>))
    requires
        nfa_wf(a.0, a.1),
        nfa_wf(b.0, b.1),
        a.0.len() + b.0.len() < 0x8000,
        a.1.len() + b.1.len() < 0x7ffe,
    ensures
        ({
            let (tt, ss) = append_nfa(a, b);
            let n = a.0.len() as int;
            &&& nfa_wf(tt, ss)
            &&& tt.len() == n + b.0.len()
            &&& part_ok(tt, ss, a.0, a.1, 0, 0, replace_fn(ACCEPTING_STATE, n as u16))
            &&& part_ok(tt, ss, b.0, b.1, n, a.1.len() as int, rebase_fn(n as u16))
            &&& forall|i: int|
                0 <= i < n ==> (#[trigger] tt[i]).min == a.0[i].min && tt[i].max == a.0[i].max && tt[i].consume
                    == a.0[i].consume
            &&& forall|i: int|
                0 <= i < b.0.len() ==> (#[trigger] tt[n + i]).min == b.0[i].min && tt[n + i].max == b.0[i].max
                    && tt[n + i].consume == b.0[i].consume
        }),
{
    lemma_append_wf(a, b);
    let (tt, ss) = append_nfa(a, b);
    let n = a.0.len() as int;
    let mb = map_states(b.0, b.1, rebase_fn(n as u16));
    assert forall|i: int| 0 <= i < b.0.len() implies (#[trigger] tt[n + i]).min == b.0[i].min && tt[n + i].max
        == b.0[i].max && tt[n + i].consume == b.0[i].consume by {
        assert(tt[n + i] == shift_lists(mb.0, a.1.len() as u16)[i]);
    }
}

/// In the concatenation, quiet steps from the states of `a` are those of
/// `a`: where `a` accepts, the concatenation goes on to `b`'s initial state,
/// which reads.
proof fn lemma_append_steps_a(a: (Seq<Transition>, Seq<u16>), b: (Seq<Transition>, Seq<u16>), c: u8)
    requires
        nfa_wf(a.0, a.1),
        nfa_wf(b.0, b.1),
        a.0.len() + b.0.len() < 0x8000,
        a.1.len() + b.1.len() < 0x7ffe,
        b.0[0].consume,
    ensures
        forall|u: int, v: int|
            0 <= u < a.0.len() && #[trigger] quiet_step(append_nfa(a, b).0, append_nfa(a, b).1, c, u, v) ==> 0
                <= v < a.0.len() && quiet_step(a.0, a.1, c, u - 0, v - 0),
        forall|u: int, v: int|
            #[trigger] quiet_step(a.0, a.1, c, u, v) ==> quiet_step(append_nfa(a, b).0, append_nfa(a, b).1, c, 0 + u, 0 + v),
{
    lemma_append_shape(a, b);
    let (tt, ss) = append_nfa(a, b);
    let n = a.0.len() as int;
    let fa = replace_fn(ACCEPTING_STATE, n as u16);
    assert forall|u: int, v: int|
        0 <= u < n && #[trigger] quiet_step(tt, ss, c, u, v) implies 0 <= v < n && quiet_step(a.0, a.1, c, u - 0, v - 0) by {
        lemma_part_targets(tt, ss, a.0, a.1, 0, 0, fa, u, c);
        let ta = targets(a.1, pick(a.0[u], c));
        assert(field_at(a.0, 2 * u) == a.0[u].inside && field_at(a.0, 2 * u + 1) == a.0[u].outside);
        lemma_target_values(a.0, a.1, pick(a.0[u], c));
        let k = choose|k: int| 0 <= k < ta.map_values(fa).len() && ta.map_values(fa)[k] == v as u16;
        assert(ta.map_values(fa)[k] == fa(ta[k]));
        if ta[k] == ACCEPTING_STATE {
            assert(tt[n + 0].consume == b.0[0].consume);
        }
        assert(ta[k] == v as u16);
        assert(ta.contains(v as u16));
    }
    assert forall|u: int, v: int| #[trigger] quiet_step(a.0, a.1, c, u, v) implies quiet_step(tt, ss, c, 0 + u, 0 + v) by {
        lemma_part_targets(tt, ss, a.0, a.1, 0, 0, fa, u, c);
        let ta = targets(a.1, pick(a.0[u], c));
        let k = choose|k: int| 0 <= k < ta.len() && ta[k] == v as u16;
        assert(ta.map_values(fa)[k] == fa(ta[k]));
        assert(ta.map_values(fa)[k] == v as u16);
    }
}

/// In the concatenation, quiet steps from the states of `b` are those of
/// `b`, shifted.
proof fn lemma_append_steps_b(a: (Seq<Transition>, Seq<u16>), b: (Seq<Transition>, Seq<u16>), c: u8)
    requires
        nfa_wf(a.0, a.1),
        nfa_wf(b.0, b.1),
        a.0.len() + b.0.len() < 0x8000,
        a.1.len() + b.1.len() < 0x7ffe,
    ensures
        ({
            let n = a.0.len() as int;
            &&& forall|u: int, v: int|
                n <= u < n + b.0.len() && #[trigger] quiet_step(append_nfa(a, b).0, append_nfa(a, b).1, c, u, v)
                    ==> n <= v < n + b.0.len() && quiet_step(b.0, b.1, c, u - n, v - n)
            &&& forall|u: int, v: int|
                #[trigger] quiet_step(b.0, b.1, c, u, v) ==> quiet_step(
                    append_nfa(a, b).0,
                    append_nfa(a, b).1,
                    c,
                    n + u,
                    n + v,
                )
        }),
{
    lemma_append_shape(a, b);
    let (tt, ss) = append_nfa(a, b);
    let n = a.0.len() as int;
    let fb = rebase_fn(n as u16);
    assert forall|u: int, v: int|
        n <= u < n + b.0.len() && #[trigger] quiet_step(tt, ss, c, u, v) implies n <= v < n + b.0.len()
        && quiet_step(b.0, b.1, c, u - n, v - n) by {
        let ub = u - n;
        assert(tt[n + ub] == tt[u]);
        lemma_part_targets(tt, ss, b.0, b.1, n, a.1.len() as int, fb, ub, c);
        let tb = targets(b.1, pick(b.0[ub], c));
        assert(field_at(b.0, 2 * ub) == b.0[ub].inside && field_at(b.0, 2 * ub + 1) == b.0[ub].outside);
        lemma_target_values(b.0, b.1, pick(b.0[ub], c));
        let k = choose|k: int| 0 <= k < tb.map_values(fb).len() && tb.map_values(fb)[k] == v as u16;
        assert(tb.map_values(fb)[k] == fb(tb[k]));
        assert(tb[k] == (v - n) as u16);
        assert(tb.contains((v - n) as u16));
        assert(tt[n + (v - n)] == tt[v]);
    }
    assert forall|u: int, v: int| #[trigger] quiet_step(b.0, b.1, c, u, v) implies quiet_step(tt, ss, c, n + u, n + v) by {
        lemma_part_targets(tt, ss, b.0, b.1, n, a.1.len() as int, fb, u, c);
        let tb = targets(b.1, pick(b.0[u], c));
        let k = choose|k: int| 0 <= k < tb.len() && tb[k] == v as u16;
        assert(tb.map_values(fb)[k] == fb(tb[k]));
        assert(tb.map_values(fb)[k] == (n + v) as u16);
    }
}

/// In the concatenation, a state of `b` matches as it does in `b`.
proof fn lemma_append_match_b(
    a: (Seq<Transition>, Seq<u16>),
    b: (Seq<Transition>, Seq<u16>),
    input: Seq<u8>,
    y: int,
    pos: nat,
    p: nat,
)
    requires
        nfa_wf(a.0, a.1),
        nfa_wf(b.0, b.1),
        a.0.len() + b.0.len() < 0x8000,
        a.1.len() + b.1.len() < 0x7ffe,
        0 <= y < b.0.len(),
    ensures
        match_from(append_nfa(a, b).0, append_nfa(a, b).1, input, a.0.len() + y, pos, p) == match_from(
            b.0,
            b.1,
            input,
            y,
            pos,
            p,
        ),
    decreases input.len() - pos,
{
    lemma_append_shape(a, b);
    let (tt, ss) = append_nfa(a, b);
    let n = a.0.len() as int;
    let so = a.1.len() as int;
    let fb = rebase_fn(n as u16);
    lemma_match_is_step(tt, ss, input, n + y, pos, p);
    lemma_match_is_step(b.0, b.1, input, y, pos, p);
    if pos < input.len() {
        let c = input[pos as int];
        let idx = pos + 1;
        lemma_append_steps_b(a, b, c);
        lemma_reach_shift(b.0, b.1, tt, ss, c, n, y);
        if step_match(tt, ss, input, n + y, c, idx, p) {
            let w = lemma_step_open(tt, ss, input, n + y, c, idx, p);
            assert(round_reach(tt, ss, set![n + y], c).contains(w));
            let wb = w - n;
            assert(tt[n + wb] == tt[w]);
            lemma_part_targets(tt, ss, b.0, b.1, n, so, fb, wb, c);
            let tb = targets(b.1, pick(b.0[wb], c));
            assert(field_at(b.0, 2 * wb) == b.0[wb].inside && field_at(b.0, 2 * wb + 1) == b.0[wb].outside);
            lemma_target_values(b.0, b.1, pick(b.0[wb], c));
            if p == idx && targets(ss, pick(tt[w], c)).contains(ACCEPTING_STATE) {
                let k = choose|k: int| 0 <= k < tb.map_values(fb).len() && tb.map_values(fb)[k] == ACCEPTING_STATE;
                assert(tb.map_values(fb)[k] == fb(tb[k]));
                assert(tb[k] == ACCEPTING_STATE);
                assert(tb.contains(ACCEPTING_STATE));
                lemma_step_accept(b.0, b.1, input, y, c, idx, wb);
            } else {
                let y2 = choose|y2: int|
                    0 <= y2 < tt.len() && #[trigger] targets(ss, pick(tt[w], c)).contains(y2 as u16) && tt[y2].consume
                        && match_from(tt, ss, input, y2, idx, p);
                let k = choose|k: int| 0 <= k < tb.map_values(fb).len() && tb.map_values(fb)[k] == y2 as u16;
                assert(tb.map_values(fb)[k] == fb(tb[k]));
                let v = tb[k] as int;
                assert(v + n == y2);
                assert(tt[n + v] == tt[y2]);
                lemma_append_match_b(a, b, input, v, idx, p);
                assert(tb.contains(v as u16));
                lemma_step_next(b.0, b.1, input, y, c, idx, p, wb, v);
            }
        }
        if step_match(b.0, b.1, input, y, c, idx, p) {
            let w = lemma_step_open(b.0, b.1, input, y, c, idx, p);
            lemma_reach_bound(b.0, b.1, set![y], c, w);
            assert(round_reach(b.0, b.1, set![y], c).contains((n + w) - n));
            assert(round_reach(tt, ss, set![n + y], c).contains(n + w));
            lemma_part_targets(tt, ss, b.0, b.1, n, so, fb, w, c);
            let tb = targets(b.1, pick(b.0[w], c));
            if p == idx && tb.contains(ACCEPTING_STATE) {
                let k = choose|k: int| 0 <= k < tb.len() && tb[k] == ACCEPTING_STATE;
                assert(tb.map_values(fb)[k] == ACCEPTING_STATE);
                assert(targets(ss, pick(tt[n + w], c)).contains(ACCEPTING_STATE));
                lemma_step_accept(tt, ss, input, n + y, c, idx, n + w);
            } else {
                let v = choose|v: int|
                    0 <= v < b.0.len() && #[trigger] tb.contains(v as u16) && b.0[v].consume && match_from(
                        b.0,
                        b.1,
                        input,
                        v,
                        idx,
                        p,
                    );
                let k = choose|k: int| 0 <= k < tb.len() && tb[k] == v as u16;
                assert(tb.map_values(fb)[k] == (n + v) as u16);
                assert(targets(ss, pick(tt[n + w], c)).contains((n + v) as u16));
                lemma_append_match_b(a, b, input, v, idx, p);
                lemma_step_next(tt, ss, input, n + y, c, idx, p, n + w, n + v);
            }
        }
    }
}

/// In the concatenation, a state of `a` matches where `a` matches from it
/// after some symbols and `b`, started there, matches.
proof fn lemma_append_match_a(
    a: (Seq<Transition>, Seq<u16>),
    b: (Seq<Transition>, Seq<u16>),
    input: Seq<u8>,
    x: int,
    pos: nat,
    q: nat,
    p: nat,
)
    requires
        nfa_wf(a.0, a.1),
        nfa_wf(b.0, b.1),
        a.0.len() + b.0.len() < 0x8000,
        a.1.len() + b.1.len() < 0x7ffe,
        b.0[0].consume,
        0 <= x < a.0.len(),
        match_from(a.0, a.1, input, x, pos, q),
        match_from(b.0, b.1, input, 0, q, p),
    ensures
        match_from(append_nfa(a, b).0, append_nfa(a, b).1, input, x, pos, p),
    decreases input.len() - pos,
{
    lemma_append_shape(a, b);
    let (tt, ss) = append_nfa(a, b);
    let n = a.0.len() as int;
    let fa = replace_fn(ACCEPTING_STATE, n as u16);
    lemma_match_is_step(tt, ss, input, x, pos, p);
    lemma_match_is_step(a.0, a.1, input, x, pos, q);
    let c = input[pos as int];
    let idx = pos + 1;
    lemma_append_steps_a(a, b, c);
    lemma_reach_shift(a.0, a.1, tt, ss, c, 0, x);
    assert(set![0 + x] == set![x]);
    let w = lemma_step_open(a.0, a.1, input, x, c, idx, q);
    lemma_reach_bound(a.0, a.1, set![x], c, w);
    assert(round_reach(a.0, a.1, set![x], c).contains((0 + w) - 0));
    assert(round_reach(tt, ss, set![x], c).contains(w));
    assert(tt[0 + w] == tt[w]);
    lemma_part_targets(tt, ss, a.0, a.1, 0, 0, fa, w, c);
    let ta = targets(a.1, pick(a.0[w], c));
    if q == idx && ta.contains(ACCEPTING_STATE) {
        let k = choose|k: int| 0 <= k < ta.len() && ta[k] == ACCEPTING_STATE;
        assert(ta.map_values(fa)[k] == n as u16);
        assert(targets(ss, pick(tt[w], c)).contains(n as u16));
        lemma_append_match_b(a, b, input, 0, idx, p);
        assert(tt[n + 0] == tt[n]);
        lemma_step_next(tt, ss, input, x, c, idx, p, w, n);
    } else {
        let v = choose|v: int|
            0 <= v < a.0.len() && #[trigger] ta.contains(v as u16) && a.0[v].consume && match_from(a.0, a.1, input, v, idx, q);
        let k = choose|k: int| 0 <= k < ta.len() && ta[k] == v as u16;
        assert(ta.map_values(fa)[k] == v as u16);
        assert(targets(ss, pick(tt[w], c)).contains(v as u16));
        lemma_append_match_a(a, b, input, v, idx, q, p);
        lemma_step_next(tt, ss, input, x, c, idx, p, w, v);
    }
}

/// In the concatenation, a match from a state of `a` splits into a match of
/// `a` after some symbols and a match of `b` started there.
proof fn lemma_append_split_a(
    a: (Seq<Transition>, Seq<u16>),
    b: (Seq<Transition>, Seq<u16>),
    input: Seq<u8>,
    x: int,
    pos: nat,
    p: nat,
) -> (q: nat)
    requires
        nfa_wf(a.0, a.1),
        nfa_wf(b.0, b.1),
        a.0.len() + b.0.len() < 0x8000,
        a.1.len() + b.1.len() < 0x7ffe,
        b.0[0].consume,
        0 <= x < a.0.len(),
        match_from(append_nfa(a, b).0, append_nfa(a, b).1, input, x, pos, p),
    ensures
        match_from(a.0, a.1, input, x, pos, q),
        match_from(b.0, b.1, input, 0, q, p),
    decreases input.len() - pos,
{
    lemma_append_shape(a, b);
    let (tt, ss) = append_nfa(a, b);
    let n = a.0.len() as int;
    let fa = replace_fn(ACCEPTING_STATE, n as u16);
    lemma_match_is_step(tt, ss, input, x, pos, p);
    let c = input[pos as int];
    let idx = pos + 1;
    lemma_append_steps_a(a, b, c);
    lemma_reach_shift(a.0, a.1, tt, ss, c, 0, x);
    assert(set![0 + x] == set![x]);
    let w = lemma_step_open(tt, ss, input, x, c, idx, p);
    assert(round_reach(tt, ss, set![0 + x], c).contains(w));
    assert(round_reach(a.0, a.1, set![x], c).contains(w - 0));
    assert(tt[0 + w] == tt[w]);
    lemma_part_targets(tt, ss, a.0, a.1, 0, 0, fa, w, c);
    let ta = targets(a.1, pick(a.0[w], c));
    assert(field_at(a.0, 2 * w) == a.0[w].inside && field_at(a.0, 2 * w + 1) == a.0[w].outside);
    lemma_target_values(a.0, a.1, pick(a.0[w], c));
    if p == idx && targets(ss, pick(tt[w], c)).contains(ACCEPTING_STATE) {
        let k = choose|k: int| 0 <= k < ta.map_values(fa).len() && ta.map_values(fa)[k] == ACCEPTING_STATE;
        assert(ta.map_values(fa)[k] == fa(ta[k]));
        assert(false);
    }
    let y2 = choose|y2: int|
        0 <= y2 < tt.len() && #[trigger] targets(ss, pick(tt[w], c)).contains(y2 as u16) && tt[y2].consume
            && match_from(tt, ss, input, y2, idx, p);
    let k = choose|k: int| 0 <= k < ta.map_values(fa).len() && ta.map_values(fa)[k] == y2 as u16;
    assert(ta.map_values(fa)[k] == fa(ta[k]));
    if ta[k] == ACCEPTING_STATE {
        assert(y2 == n);
        assert(tt[n + 0] == tt[n]);
        lemma_append_match_b(a, b, input, 0, idx, p);
        assert(ta.contains(ACCEPTING_STATE));
        lemma_step_accept(a.0, a.1, input, x, c, idx, w);
        lemma_match_is_step(a.0, a.1, input, x, pos, idx);
        idx
    } else {
        let v = ta[k] as int;
        assert(v == y2);
        let q = lemma_append_split_a(a, b, input, v, idx, p);
        assert(ta.contains(v as u16));
        lemma_step_next(a.0, a.1, input, x, c, idx, q, w, v);
        lemma_match_is_step(a.0, a.1, input, x, pos, q);
        q
    }
}

/// Concatenation ([Nfa::append]): when the initial state of `b` reads,
/// the concatenation of `a` and `b` matches after `p` symbols exactly when
/// `a` matches after some `q` symbols and `b`, started on symbol `q` of the
/// input, matches after `p` symbols.
pub proof fn lemma_append_matches(
    a: (Seq<Transition>, Seq<u16>),
    b: (Seq<Transition>, Seq<u16>),
    input: Seq<u8>,
    p: nat,
)
    requires
        nfa_wf(a.0, a.1),
        nfa_wf(b.0, b.1),
        a.0.len() + b.0.len() < 0x8000,
        a.1.len() + b.1.len() < 0x7ffe,
        b.0[0].consume,
    ensures
        nfa_matches(append_nfa(a, b).0, append_nfa(a, b).1, input, p) <==> exists|q: nat|
            nfa_matches(a.0, a.1, input, q) && #[trigger] match_from(b.0, b.1, input, 0, q, p),
{
    if nfa_matches(append_nfa(a, b).0, append_nfa(a, b).1, input, p) {
        let q = lemma_append_split_a(a, b, input, 0, 0, p);
        assert(nfa_matches(a.0, a.1, input, q) && match_from(b.0, b.1, input, 0, q, p));
    }
    if exists|q: nat| nfa_matches(a.0, a.1, input, q) && #[trigger] match_from(b.0, b.1, input, 0, q, p) {
        let q = choose|q: nat| nfa_matches(a.0, a.1, input, q) && #[trigger] match_from(b.0, b.1, input, 0, q, p);
        lemma_append_match_a(a, b, input, 0, 0, q, p);
    }
}

/// A match ends within the input.
proof fn lemma_match_within(t: Seq<Transition>, s: Seq<u16>, input: Seq<u8>, x: int, pos: nat, p: nat)
    requires
        match_from(t, s, input, x, pos, p),
    ensures
        pos < p <= input.len(),
    decreases input.len() - pos,
{
    reveal(match_from);
    let c = input[pos as int];
    let z = choose|z: int|
        #[trigger] round_reach(t, s, set![x], c).contains(z) && {
            ||| (p == pos + 1 && targets(s, pick(t[z], c)).contains(ACCEPTING_STATE))
            ||| exists|y: int|
                0 <= y < t.len() && #[trigger] targets(s, pick(t[z], c)).contains(y as u16) && t[y].consume
                    && match_from(t, s, input, y, pos + 1, p)
        };
    if !(p == pos + 1 && targets(s, pick(t[z], c)).contains(ACCEPTING_STATE)) {
        let y = choose|y: int|
            0 <= y < t.len() && #[trigger] targets(s, pick(t[z], c)).contains(y as u16) && t[y].consume
                && match_from(t, s, input, y, pos + 1, p);
        lemma_match_within(t, s, input, y, pos + 1, p);
    }
}

/// Concatenation ([Nfa::append]) on the rest of the input: when the
/// initial state of `b` reads, the concatenation matches after `p` symbols
/// exactly when `a` matches after some `q` symbols and `b` matches the
/// input without those `q` symbols after the other `p - q`.
pub proof fn lemma_append_matches_rest(
    a: (Seq<Transition>, Seq<u16>),
    b: (Seq<Transition>, Seq<u16>),
    input: Seq<u8>,
    p: nat,
)
    requires
        nfa_wf(a.0, a.1),
        nfa_wf(b.0, b.1),
        a.0.len() + b.0.len() < 0x8000,
        a.1.len() + b.1.len() < 0x7ffe,
        b.0[0].consume,
    ensures
        nfa_matches(append_nfa(a, b).0, append_nfa(a, b).1, input, p) <==> exists|q: nat|
            q <= p && #[trigger] nfa_matches(a.0, a.1, input, q) && nfa_matches(b.0, b.1, input.skip(q as int), (p - q) as nat),
{
    lemma_append_matches(a, b, input, p);
    if nfa_matches(append_nfa(a, b).0, append_nfa(a, b).1, input, p) {
        let q = choose|q: nat| nfa_matches(a.0, a.1, input, q) && #[trigger] match_from(b.0, b.1, input, 0, q, p);
        lemma_match_within(b.0, b.1, input, 0, q, p);
        crate::nfa::lemma_match_suffix(b.0, b.1, input, 0, q, 0, (p - q) as nat);
        assert(q + (p - q) == p);
        assert(nfa_matches(b.0, b.1, input.skip(q as int), (p - q) as nat));
    }
    if exists|q: nat|
        q <= p && #[trigger] nfa_matches(a.0, a.1, input, q) && nfa_matches(b.0, b.1, input.skip(q as int), (p - q) as nat) {
        let q = choose|q: nat|
            q <= p && #[trigger] nfa_matches(a.0, a.1, input, q) && nfa_matches(b.0, b.1, input.skip(q as int), (p - q) as nat);
        lemma_match_within(a.0, a.1, input, 0, 0, q);
        crate::nfa::lemma_match_suffix(b.0, b.1, input, 0, q, 0, (p - q) as nat);
        assert(q + (p - q) == p);
        assert(match_from(b.0, b.1, input, 0, q, p));
    }
}

/// Concatenation ([Nfa::append]) is associative in what it matches: when
/// the initial states of `b` and `c` read, appending `c` to the
/// concatenation of `a` and `b` matches after as many symbols as appending
/// the concatenation of `b` and `c` to `a`.
pub proof fn lemma_append_assoc_matches(
    a: (Seq<Transition>, Seq<u16>),
    b: (Seq<Transition>, Seq<u16>),
    c: (Seq<Transition>, Seq<u16>),
    input: Seq<u8>,
    p: nat,
)
    requires
        nfa_wf(a.0, a.1),
        nfa_wf(b.0, b.1),
        nfa_wf(c.0, c.1),
        a.0.len() + b.0.len() + c.0.len() < 0x8000,
        a.1.len() + b.1.len() + c.1.len() < 0x7ffe,
        b.0[0].consume,
        c.0[0].consume,
    ensures
        nfa_matches(append_nfa(append_nfa(a, b), c).0, append_nfa(append_nfa(a, b), c).1, input, p)
            == nfa_matches(append_nfa(a, append_nfa(b, c)).0, append_nfa(a, append_nfa(b, c)).1, input, p),
{
    let ab = append_nfa(a, b);
    let bc = append_nfa(b, c);
    lemma_append_wf(a, b);
    lemma_append_wf(b, c);
    assert(bc.0[0] == map_states(b.0, b.1, replace_fn(ACCEPTING_STATE, b.0.len() as u16)).0[0]);
    lemma_append_matches_rest(ab, c, input, p);
    lemma_append_matches_rest(a, bc, input, p);
    if nfa_matches(append_nfa(ab, c).0, append_nfa(ab, c).1, input, p) {
        let q = choose|q: nat|
            q <= p && #[trigger] nfa_matches(ab.0, ab.1, input, q) && nfa_matches(c.0, c.1, input.skip(q as int), (p - q) as nat);
        lemma_append_matches_rest(a, b, input, q);
        let r = choose|r: nat|
            r <= q && #[trigger] nfa_matches(a.0, a.1, input, r) && nfa_matches(b.0, b.1, input.skip(r as int), (q - r) as nat);
        let w = input.skip(r as int);
        lemma_match_within(a.0, a.1, input, 0, 0, r);
        lemma_match_within(ab.0, ab.1, input, 0, 0, q);
        assert(w.skip((q - r) as int) =~= input.skip(q as int));
        lemma_append_matches_rest(b, c, w, (p - r) as nat);
        assert(((p - r) - (q - r)) as nat == (p - q) as nat);
        assert(nfa_matches(b.0, b.1, w, (q - r) as nat) && nfa_matches(c.0, c.1, w.skip((q - r) as int), ((p - r) - (q - r)) as nat));
        assert(nfa_matches(bc.0, bc.1, w, (p - r) as nat));
        assert(nfa_matches(a.0, a.1, input, r) && nfa_matches(bc.0, bc.1, input.skip(r as int), (p - r) as nat));
    }
    if nfa_matches(append_nfa(a, bc).0, append_nfa(a, bc).1, input, p) {
        let r = choose|r: nat|
            r <= p && #[trigger] nfa_matches(a.0, a.1, input, r) && nfa_matches(bc.0, bc.1, input.skip(r as int), (p - r) as nat);
        let w = input.skip(r as int);
        lemma_match_within(a.0, a.1, input, 0, 0, r);
        lemma_append_matches_rest(b, c, w, (p - r) as nat);
        let q2 = choose|q2: nat|
            q2 <= p - r && #[trigger] nfa_matches(b.0, b.1, w, q2) && nfa_matches(c.0, c.1, w.skip(q2 as int), ((p - r) - q2) as nat);
        let q = r + q2;
        lemma_match_within(b.0, b.1, w, 0, 0, q2);
        assert(w.skip(q2 as int) =~= input.skip(q as int));
        lemma_append_matches_rest(a, b, input, q);
        assert(((q - r) as nat) == q2);
        assert(nfa_matches(a.0, a.1, input, r) && nfa_matches(b.0, b.1, input.skip(r as int), (q - r) as nat));
        assert(nfa_matches(ab.0, ab.1, input, q));
        assert(((p - r) - q2) as nat == (p - q) as nat);
        assert(nfa_matches(ab.0, ab.1, input, q) && nfa_matches(c.0, c.1, input.skip(q as int), (p - q) as nat));
    }
}

/// No state has the initial state among its next states.
pub open spec fn start_left(t: Seq<Transition>, s: Seq<u16>) -> bool {
    forall|x: int, c: u8| 0 <= x < t.len() ==> !#[trigger] targets(s, pick(t[x], c)).contains(INITIAL_STATE)
}

/// A component held in a composite at state offset `o`, its state values
/// shifted by `o`, with the ranges of its states and their reading, except
/// perhaps the reading of its initial state.
pub open spec fn rebased_part(
    tt: Seq<Transition>,
    ss: Seq<u16>,
    t: Seq<Transition>,
    s: Seq<u16>,
    o: int,
    so: int,
) -> bool {
    &&& part_ok(tt, ss, t, s, o, so, rebase_fn(o as u16))
    &&& 0 < o
    &&& forall|i: int|
        0 <= i < t.len() ==> (#[trigger] tt[o + i]).min == t[i].min && tt[o + i].max == t[i].max && (i != 0
            ==> tt[o + i].consume == t[i].consume)
}

/// Quiet steps from the states of a rebased component are those of the
/// component, shifted, when no state of it goes back to its initial state.
proof fn lemma_rebased_steps(
    tt: Seq<Transition>,
    ss: Seq<u16>,
    t: Seq<Transition>,
    s: Seq<u16>,
    o: int,
    so: int,
    c: u8,
)
    requires
        rebased_part(tt, ss, t, s, o, so),
        start_left(t, s),
    ensures
        forall|u: int, v: int|
            o <= u < o + t.len() && #[trigger] quiet_step(tt, ss, c, u, v) ==> o <= v < o + t.len()
                && quiet_step(t, s, c, u - o, v - o),
        forall|u: int, v: int| #[trigger] quiet_step(t, s, c, u, v) ==> quiet_step(tt, ss, c, o + u, o + v),
{
    let f = rebase_fn(o as u16);
    assert forall|u: int, v: int|
        o <= u < o + t.len() && #[trigger] quiet_step(tt, ss, c, u, v) implies o <= v < o + t.len() && quiet_step(
        t,
        s,
        c,
        u - o,
        v - o,
    ) by {
        let ub = u - o;
        assert(tt[o + ub] == tt[u]);
        lemma_part_targets(tt, ss, t, s, o, so, f, ub, c);
        let tb = targets(s, pick(t[ub], c));
        assert(field_at(t, 2 * ub) == t[ub].inside && field_at(t, 2 * ub + 1) == t[ub].outside);
        lemma_target_values(t, s, pick(t[ub], c));
        let k = choose|k: int| 0 <= k < tb.map_values(f).len() && tb.map_values(f)[k] == v as u16;
        assert(tb.map_values(f)[k] == f(tb[k]));
        assert(tb[k] == (v - o) as u16);
        assert(tb.contains((v - o) as u16));
        assert(tt[o + (v - o)] == tt[v]);
    }
    assert forall|u: int, v: int| #[trigger] quiet_step(t, s, c, u, v) implies quiet_step(tt, ss, c, o + u, o + v) by {
        lemma_part_targets(tt, ss, t, s, o, so, f, u, c);
        let tb = targets(s, pick(t[u], c));
        let k = choose|k: int| 0 <= k < tb.len() && tb[k] == v as u16;
        assert(tb.map_values(f)[k] == f(tb[k]));
        assert(tb.map_values(f)[k] == (o + v) as u16);
        assert(v != 0);
    }
}

/// A state of a rebased component matches in the composite as it does in
/// the component, when no state of it goes back to its initial state.
proof fn lemma_rebased_match(
    tt: Seq<Transition>,
    ss: Seq<u16>,
    t: Seq<Transition>,
    s: Seq<u16>,
    o: int,
    so: int,
    input: Seq<u8>,
    y: int,
    pos: nat,
    p: nat,
)
    requires
        rebased_part(tt, ss, t, s, o, so),
        start_left(t, s),
        0 <= y < t.len(),
    ensures
        match_from(tt, ss, input, o + y, pos, p) == match_from(t, s, input, y, pos, p),
    decreases input.len() - pos,
{
    let f = rebase_fn(o as u16);
    lemma_match_is_step(tt, ss, input, o + y, pos, p);
    lemma_match_is_step(t, s, input, y, pos, p);
    if pos < input.len() {
        let c = input[pos as int];
        let idx = pos + 1;
        lemma_rebased_steps(tt, ss, t, s, o, so, c);
        lemma_reach_shift(t, s, tt, ss, c, o, y);
        if step_match(tt, ss, input, o + y, c, idx, p) {
            let w = lemma_step_open(tt, ss, input, o + y, c, idx, p);
            assert(round_reach(tt, ss, set![o + y], c).contains(w));
            let wb = w - o;
            assert(tt[o + wb] == tt[w]);
            lemma_part_targets(tt, ss, t, s, o, so, f, wb, c);
            let tb = targets(s, pick(t[wb], c));
            assert(field_at(t, 2 * wb) == t[wb].inside && field_at(t, 2 * wb + 1) == t[wb].outside);
            lemma_target_values(t, s, pick(t[wb], c));
            if p == idx && targets(ss, pick(tt[w], c)).contains(ACCEPTING_STATE) {
                let k = choose|k: int| 0 <= k < tb.map_values(f).len() && tb.map_values(f)[k] == ACCEPTING_STATE;
                assert(tb.map_values(f)[k] == f(tb[k]));
                assert(tb[k] == ACCEPTING_STATE);
                assert(tb.contains(ACCEPTING_STATE));
                lemma_step_accept(t, s, input, y, c, idx, wb);
            } else {
                let y2 = choose|y2: int|
                    0 <= y2 < tt.len() && #[trigger] targets(ss, pick(tt[w], c)).contains(y2 as u16) && tt[y2].consume
                        && match_from(tt, ss, input, y2, idx, p);
                let k = choose|k: int| 0 <= k < tb.map_values(f).len() && tb.map_values(f)[k] == y2 as u16;
                assert(tb.map_values(f)[k] == f(tb[k]));
                let v = tb[k] as int;
                assert(v + o == y2);
                assert(tt[o + v] == tt[y2]);
                assert(tb.contains(v as u16));
                assert(v != 0);
                lemma_rebased_match(tt, ss, t, s, o, so, input, v, idx, p);
                lemma_step_next(t, s, input, y, c, idx, p, wb, v);
            }
        }
        if step_match(t, s, input, y, c, idx, p) {
            let w = lemma_step_open(t, s, input, y, c, idx, p);
            lemma_reach_bound(t, s, set![y], c, w);
            assert(round_reach(t, s, set![y], c).contains((o + w) - o));
            assert(round_reach(tt, ss, set![o + y], c).contains(o + w));
            lemma_part_targets(tt, ss, t, s, o, so, f, w, c);
            let tb = targets(s, pick(t[w], c));
            if p == idx && tb.contains(ACCEPTING_STATE) {
                let k = choose|k: int| 0 <= k < tb.len() && tb[k] == ACCEPTING_STATE;
                assert(tb.map_values(f)[k] == ACCEPTING_STATE);
                assert(targets(ss, pick(tt[o + w], c)).contains(ACCEPTING_STATE));
                lemma_step_accept(tt, ss, input, o + y, c, idx, o + w);
            } else {
                let v = choose|v: int|
                    0 <= v < t.len() && #[trigger] tb.contains(v as u16) && t[v].consume && match_from(t, s, input, v, idx, p);
                let k = choose|k: int| 0 <= k < tb.len() && tb[k] == v as u16;
                assert(tb.map_values(f)[k] == (o + v) as u16);
                assert(targets(ss, pick(tt[o + w], c)).contains((o + v) as u16));
                assert(v != 0);
                lemma_rebased_match(tt, ss, t, s, o, so, input, v, idx, p);
                lemma_step_next(tt, ss, input, o + y, c, idx, p, o + w, o + v);
            }
        }
    }
}

/// A component whose initial state was made not to read sits in the
/// composite as the component itself does, up to that reading.
proof fn lemma_part_quiet_first(
    tt: Seq<Transition>,
    ss: Seq<u16>,
    t: Seq<Transition>,
    s: Seq<u16>,
    o: int,
    so: int,
    f: spec_fn(u16) -> u16,
)
    requires
        part_ok(tt, ss, quiet_first(t), s, o, so, f),
        t.len() >= 1,
    ensures
        part_ok(tt, ss, t, s, o, so, f),
{
    let qt = quiet_first(t);
    assert forall|q: int| 0 <= q < 2 * t.len() implies #[trigger] field_at(qt, q) == field_at(t, q) by {}
    assert forall|q: int, k: int| #[trigger] list_holds(qt, s, q, k) == list_holds(t, s, q, k) by {
        if 0 <= q < 2 * t.len() {
            assert(field_at(qt, q) == field_at(t, q));
        }
    }
    assert forall|k: int| #[trigger] listed_upto(qt, s, 2 * t.len() as int, k) == listed_upto(t, s, 2 * t.len() as int, k) by {
        if listed_upto(qt, s, 2 * t.len() as int, k) {
            let q = choose|q: int| 0 <= q < 2 * t.len() && #[trigger] list_holds(qt, s, q, k);
            assert(list_holds(t, s, q, k));
        }
        if listed_upto(t, s, 2 * t.len() as int, k) {
            let q = choose|q: int| 0 <= q < 2 * t.len() && #[trigger] list_holds(t, s, q, k);
            assert(list_holds(qt, s, q, k));
        }
    }
    assert forall|q: int| 0 <= q < 2 * t.len() implies valid_raw(t.len(), s, #[trigger] field_at(t, q)) by {
        assert(field_at(qt, q) == field_at(t, q));
    }
    assert(lists_ok(t, s)) by {
        assert forall|q: int| 0 <= q < 2 * t.len() && is_list(#[trigger] field_at(t, q)) implies {
            &&& list_at(field_at(t, q)) < s.len()
            &&& s[list_at(field_at(t, q))] >= 1
            &&& list_end(s, field_at(t, q)) < s.len()
        } by {
            assert(field_at(qt, q) == field_at(t, q));
        }
        assert forall|q1: int, q2: int|
            0 <= q1 < 2 * t.len() && 0 <= q2 < 2 * t.len() && q1 != q2 && is_list(#[trigger] field_at(t, q1))
                && is_list(#[trigger] field_at(t, q2)) implies list_end(s, field_at(t, q1)) < list_at(
            field_at(t, q2),
        ) || list_end(s, field_at(t, q2)) < list_at(field_at(t, q1)) by {
            assert(field_at(qt, q1) == field_at(t, q1));
            assert(field_at(qt, q2) == field_at(t, q2));
        }
    }
    assert forall|i: int| 0 <= i < t.len() implies (#[trigger] tt[o + i]).inside == lift(t[i].inside, f, so)
        && tt[o + i].outside == lift(t[i].outside, f, so) by {
        assert(qt[i].inside == t[i].inside && qt[i].outside == t[i].outside);
    }
}

/// The combination starts with a fork that goes on, without reading again,
/// to the initial states of `a` and of `b`, which sit in it shifted: the
/// fork reads where both of those read, and they then do not; otherwise
/// both sit in it whole.
proof fn lemma_combine_shape(a: (Seq<Transition>, Seq<u16>), b: (Seq<Transition>, Seq<u16>))
    requires
        nfa_wf(a.0, a.1),
        nfa_wf(b.0, b.1),
        1 + a.0.len() + b.0.len() < 0x8000,
        3 + a.1.len() + b.1.len() < 0x7ffe,
    ensures
        ({
            let (tt, ss) = combine_nfa(a, b);
            let la = a.0.len() as int;
            &&& nfa_wf(tt, ss)
            &&& tt.len() == 1 + la + b.0.len()
            &&& tt[0] == fork_state(combine_reads(a, b))
            &&& targets(ss, 0x8000) == seq![1u16, (1 + la) as u16]
            &&& combine_reads(a, b) ==> !tt[1].consume && !tt[1 + la].consume
            &&& !combine_reads(a, b) ==> shifted_part(tt, ss, a.0, a.1, 1, 3) && shifted_part(
                tt,
                ss,
                b.0,
                b.1,
                1 + la,
                3 + a.1.len() as int,
            )
            &&& rebased_part(tt, ss, a.0, a.1, 1, 3)
            &&& rebased_part(tt, ss, b.0, b.1, 1 + la, 3 + a.1.len() as int)
        }),
{
    lemma_combine_wf(a, b);
    let (tt, ss) = combine_nfa(a, b);
    let la = a.0.len() as int;
    let q = combine_reads(a, b);
    let qa = quiet_if(a.0, q);
    let qb = quiet_if(b.0, q);
    let pa = placed(qa, a.1, rebase_fn(1), 3);
    let pb = placed(qb, b.1, rebase_fn((la + 1) as u16), (a.1.len() + 3) as u16);
    if q {
        lemma_part_quiet_first(tt, ss, a.0, a.1, 1, 3, rebase_fn(1));
        lemma_part_quiet_first(tt, ss, b.0, b.1, 1 + la, 3 + a.1.len() as int, rebase_fn((la + 1) as u16));
    }
    assert forall|i: int| 0 <= i < la implies (#[trigger] tt[1 + i]).min == a.0[i].min && tt[1 + i].max == a.0[i].max
        && (i != 0 || !q ==> tt[1 + i].consume == a.0[i].consume) by {
        assert(tt[1 + i] == pa.0[i]);
    }
    assert forall|i: int| 0 <= i < b.0.len() implies (#[trigger] tt[(1 + la) + i]).min == b.0[i].min && tt[(1 + la)
        + i].max == b.0[i].max && (i != 0 || !q ==> tt[(1 + la) + i].consume == b.0[i].consume) by {
        assert(tt[(1 + la) + i] == pb.0[i]);
    }
    assert(tt[1 + 0int] == pa.0[0]);
    assert(tt[(1 + la) + 0] == pb.0[0]);
    assert(rebase_fn((la + 1) as u16) == rebase_fn((1 + la) as u16));
    assert(ss[0] == 2 && ss[1] == 1 && ss[2] == (la + 1) as u16);
    assert(targets(ss, 0x8000) =~= seq![1u16, (1 + la) as u16]);
}

/// A chain without its first state is a chain.
proof fn lemma_path_tail(t: Seq<Transition>, s: Seq<u16>, c: u8, p: Seq<int>)
    requires
        quiet_path(t, s, c, p),
        p.len() > 1,
    ensures
        quiet_path(t, s, c, p.drop_first()),
{
    reveal(quiet_path);
    let q = p.drop_first();
    assert forall|i: int| 0 <= i < q.len() - 1 implies quiet_step(t, s, c, #[trigger] q[i], q[i + 1]) by {
        assert(q[i] == p[i + 1] && q[i + 1] == p[i + 2]);
    }
}

/// A state the combination's first round visits is its first state, or one
/// that a round of `a` or of `b` visits, shifted.
proof fn lemma_fork_reach(tt: Seq<Transition>, ss: Seq<u16>, c: u8, la: int, z: int)
    requires
        1 <= tt.len() < 0x8000,
        0 <= la < 0x8000,
        tt[0] == fork_state(tt[0].consume),
        targets(ss, 0x8000) == seq![1u16, (1 + la) as u16],
        round_reach(tt, ss, set![0], c).contains(z),
    ensures
        z == 0 || round_reach(tt, ss, set![1], c).contains(z) || round_reach(tt, ss, set![1 + la], c).contains(z),
{
    let p = choose|p: Seq<int>| #[trigger] quiet_path(tt, ss, c, p) && set![0].contains(p[0]) && p.last() == z;
    lemma_path_first(tt, ss, c, p);
    if p.len() > 1 {
        lemma_path_step(tt, ss, c, p, 0);
        assert(pick(tt[0], c) == 0x8000);
        let q = p.drop_first();
        lemma_path_tail(tt, ss, c, p);
        let l = seq![1u16, (1 + la) as u16];
        assert(l.contains(p[1] as u16));
        let k = choose|k: int| 0 <= k < l.len() && #[trigger] l[k] == p[1] as u16;
        if p[1] == 1 {
            assert(set![1].contains(q[0]) && q.last() == z);
        } else {
            assert(p[1] == 1 + la);
            assert(set![1 + la].contains(q[0]) && q.last() == z);
        }
    }
}

/// The combination matches from its start through the start of a part
/// exactly when it matches from that start.
proof fn lemma_fork_match(tt: Seq<Transition>, ss: Seq<u16>, input: Seq<u8>, la: int, o: int, p: nat)
    requires
        tt.len() >= 1,
        tt[0] == fork_state(tt[0].consume),
        targets(ss, 0x8000) == seq![1u16, (1 + la) as u16],
        o == 1 || o == 1 + la,
        0 <= o < tt.len(),
        0 < 1 + la < 0x8000,
        !tt[o].consume,
        input.len() > 0,
        match_from(tt, ss, input, o, 0, p),
    ensures
        match_from(tt, ss, input, 0, 0, p),
{
    let c = input[0];
    lemma_match_is_step(tt, ss, input, o, 0, p);
    lemma_match_is_step(tt, ss, input, 0, 0, p);
    let w = lemma_step_open(tt, ss, input, o, c, 1, p);
    assert(pick(tt[0], c) == 0x8000);
    assert(seq![1u16, (1 + la) as u16].contains(o as u16)) by {
        if o == 1 {
            assert(seq![1u16, (1 + la) as u16][0] == o as u16);
        } else {
            assert(seq![1u16, (1 + la) as u16][1] == o as u16);
        }
    }
    assert(quiet_step(tt, ss, c, 0, o));
    lemma_reach_prepend(tt, ss, c, 0, o, w);
    if p == 1 && targets(ss, pick(tt[w], c)).contains(ACCEPTING_STATE) {
        lemma_step_accept(tt, ss, input, 0, c, 1, w);
    } else {
        let y = choose|y: int|
            0 <= y < tt.len() && #[trigger] targets(ss, pick(tt[w], c)).contains(y as u16) && tt[y].consume
                && match_from(tt, ss, input, y, 1, p);
        lemma_step_next(tt, ss, input, 0, c, 1, p, w, y);
    }
}

/// Alternation ([Nfa::combine]): when the initial states of `a` and `b`
/// both read or both do not, and no state of `a` or of `b` goes back to its
/// initial state, the combination matches after `p` symbols exactly when
/// `a` or `b` does.
pub proof fn lemma_combine_matches(
    a: (Seq<Transition>, Seq<u16>),
    b: (Seq<Transition>, Seq<u16>),
    input: Seq<u8>,
    p: nat,
)
    requires
        nfa_wf(a.0, a.1),
        nfa_wf(b.0, b.1),
        1 + a.0.len() + b.0.len() < 0x8000,
        3 + a.1.len() + b.1.len() < 0x7ffe,
        start_left(a.0, a.1),
        start_left(b.0, b.1),
        a.0[0].consume == b.0[0].consume,
    ensures
        nfa_matches(combine_nfa(a, b).0, combine_nfa(a, b).1, input, p) == (nfa_matches(a.0, a.1, input, p)
            || nfa_matches(b.0, b.1, input, p)),
{
    lemma_combine_shape(a, b);
    let (tt, ss) = combine_nfa(a, b);
    let la = a.0.len() as int;
    let ob = 1 + la;
    assert(!tt[1].consume && !tt[ob].consume) by {
        assert(tt[1 + 0int] == tt[1]);
        assert(tt[ob + 0] == tt[ob]);
    }
    lemma_rebased_match(tt, ss, a.0, a.1, 1, 3, input, 0, 0, p);
    lemma_rebased_match(tt, ss, b.0, b.1, ob, 3 + a.1.len() as int, input, 0, 0, p);
    assert(1 + 0 == 1 && ob + 0 == ob);
    if input.len() > 0 {
        let c = input[0];
        if nfa_matches(tt, ss, input, p) {
            lemma_match_is_step(tt, ss, input, 0, 0, p);
            let w = lemma_step_open(tt, ss, input, 0, c, 1, p);
            lemma_fork_reach(tt, ss, c, la, w);
            if w == 0 {
                assert(pick(tt[0], c) == 0x8000);
                assert(!targets(ss, pick(tt[0], c)).contains(ACCEPTING_STATE)) by {
                    assert(seq![1u16, (1 + la) as u16][0] != ACCEPTING_STATE);
                }
                let y = choose|y: int|
                    0 <= y < tt.len() && #[trigger] targets(ss, pick(tt[w], c)).contains(y as u16) && tt[y].consume
                        && match_from(tt, ss, input, y, 1, p);
                let l = seq![1u16, (1 + la) as u16];
                assert(l.contains(y as u16));
                let k = choose|k: int| 0 <= k < l.len() && #[trigger] l[k] == y as u16;
                assert(y == 1 || y == 1 + la);
                assert(false);
            }
            let o = if round_reach(tt, ss, set![1], c).contains(w) {
                1
            } else {
                ob
            };
            if p == 1 && targets(ss, pick(tt[w], c)).contains(ACCEPTING_STATE) {
                lemma_step_accept(tt, ss, input, o, c, 1, w);
            } else {
                let y = choose|y: int|
                    0 <= y < tt.len() && #[trigger] targets(ss, pick(tt[w], c)).contains(y as u16) && tt[y].consume
                        && match_from(tt, ss, input, y, 1, p);
                lemma_step_next(tt, ss, input, o, c, 1, p, w, y);
            }
            lemma_match_is_step(tt, ss, input, o, 0, p);
        }
        if nfa_matches(a.0, a.1, input, p) {
            lemma_fork_match(tt, ss, input, la, 1, p);
        }
        if nfa_matches(b.0, b.1, input, p) {
            lemma_fork_match(tt, ss, input, la, ob, p);
        }
    } else {
        lemma_match_is_step(tt, ss, input, 0, 0, p);
        lemma_match_is_step(a.0, a.1, input, 0, 0, p);
        lemma_match_is_step(b.0, b.1, input, 0, 0, p);
    }
}

/// Within a rebased component whose states never go back to its initial
/// state, the depth-first search from a state other than the initial one
/// runs as in the component.
proof fn lemma_rebased_dfs(
    tt: Seq<Transition>,
    ss: Seq<u16>,
    t: Seq<Transition>,
    s: Seq<u16>,
    o: int,
    so: int,
    input: Seq<u8>,
    y: u16,
    idx: nat,
    sym: u8,
    f: nat,
)
    requires
        rebased_part(tt, ss, t, s, o, so),
        start_left(t, s),
        tt.len() < 0x8000,
        1 <= y < t.len(),
    ensures
        dfs(tt, ss, input, (o + y) as u16, idx, sym, f) == dfs(t, s, input, y, idx, sym, f),
    decreases f, 0nat,
{
    let yi = y as int;
    assert(tt[o + yi].consume == t[yi].consume);
    if f > 0 {
        let tr = t[yi];
        if !(tr.consume && idx >= input.len()) {
            let c = if tr.consume {
                input[idx as int]
            } else {
                sym
            };
            let i2 = if tr.consume {
                idx + 1
            } else {
                idx
            };
            let r = pick(tr, c);
            lemma_part_targets(tt, ss, t, s, o, so, rebase_fn(o as u16), yi, c);
            assert(field_at(t, 2 * yi) == tr.inside && field_at(t, 2 * yi + 1) == tr.outside);
            lemma_target_values(t, s, r);
            let l = targets(s, r);
            assert forall|k: int| 0 <= k < l.len() implies #[trigger] l[k] != INITIAL_STATE by {
                assert(l.contains(l[k]));
            }
            lemma_rebased_dfs_list(tt, ss, t, s, o, so, input, l, i2, c, (f - 1) as nat);
        }
    }
}

/// See [lemma_rebased_dfs]: the same for the search over a list of next
/// states of the component, relabeled.
proof fn lemma_rebased_dfs_list(
    tt: Seq<Transition>,
    ss: Seq<u16>,
    t: Seq<Transition>,
    s: Seq<u16>,
    o: int,
    so: int,
    input: Seq<u8>,
    l: Seq<u16>,
    idx: nat,
    sym: u8,
    f: nat,
)
    requires
        rebased_part(tt, ss, t, s, o, so),
        start_left(t, s),
        tt.len() < 0x8000,
        forall|k: int| 0 <= k < l.len() ==> is_terminal(#[trigger] l[k]) || (l[k] as int) < t.len(),
        forall|k: int| 0 <= k < l.len() ==> #[trigger] l[k] != INITIAL_STATE,
    ensures
        dfs_list(tt, ss, input, l.map_values(rebase_fn(o as u16)), idx, sym, f) == dfs_list(t, s, input, l, idx, sym, f),
    decreases f, l.len() + 1,
{
    let m = l.map_values(rebase_fn(o as u16));
    if l.len() > 0 {
        assert(m[0] == rebase_fn(o as u16)(l[0]));
        if !is_terminal(l[0]) {
            lemma_rebased_dfs(tt, ss, t, s, o, so, input, l[0], idx, sym, f);
            assert(m[0] == (o + l[0]) as u16);
        } else {
            assert(m[0] == l[0]);
        }
        assert(dfs(tt, ss, input, m[0], idx, sym, f) == dfs(t, s, input, l[0], idx, sym, f));
        assert(m.drop_first() =~= l.drop_first().map_values(rebase_fn(o as u16)));
        lemma_rebased_dfs_list(tt, ss, t, s, o, so, input, l.drop_first(), idx, sym, f);
    } else {
        assert(m.len() == 0);
    }
}

/// The outcome of searching one alternative and, when it finds no match,
/// another.
pub open spec fn either_search(x: Search, y: Search) -> Search {
    match x {
        Search::Missing => y,
        _ => x,
    }
}

/// The depth-first search of the combination, with one more fuel, first
/// searches `a` and then, when `a` finds no match, `b`.
proof fn lemma_combine_dfs(a: (Seq<Transition>, Seq<u16>), b: (Seq<Transition>, Seq<u16>), input: Seq<u8>, f: nat)
    requires
        nfa_wf(a.0, a.1),
        nfa_wf(b.0, b.1),
        1 + a.0.len() + b.0.len() < 0x8000,
        3 + a.1.len() + b.1.len() < 0x7ffe,
        combine_reads(a, b) ==> start_left(a.0, a.1) && start_left(b.0, b.1),
        f >= 1,
    ensures
        dfs(combine_nfa(a, b).0, combine_nfa(a, b).1, input, INITIAL_STATE, 0, 0, f + 1) == either_search(
            dfs(a.0, a.1, input, INITIAL_STATE, 0, 0, f),
            dfs(b.0, b.1, input, INITIAL_STATE, 0, 0, f),
        ),
{
    lemma_combine_shape(a, b);
    let (tt, ss) = combine_nfa(a, b);
    let la = a.0.len() as int;
    let ob = 1 + la;
    if !combine_reads(a, b) {
        let l = seq![1u16, ob as u16];
        assert(pick(tt[0], 0) == 0x8000);
        assert(dfs(tt, ss, input, INITIAL_STATE, 0, 0, f + 1) == dfs_list(tt, ss, input, l, 0, 0, f));
        assert(l[0] == 1u16);
        assert(l.drop_first() =~= seq![ob as u16]);
        assert(seq![ob as u16][0] == ob as u16);
        assert(seq![ob as u16].drop_first() =~= Seq::<u16>::empty());
        assert(dfs_list(tt, ss, input, Seq::<u16>::empty(), 0, 0, f) == Search::Missing);
        assert(dfs_list(tt, ss, input, seq![ob as u16], 0, 0, f) == either_search(
            dfs(tt, ss, input, ob as u16, 0, 0, f),
            Search::Missing,
        ));
        lemma_shifted_dfs(tt, ss, a.0, a.1, 1, 3, input, INITIAL_STATE, 0, 0, f);
        lemma_shifted_dfs(tt, ss, b.0, b.1, ob, 3 + a.1.len() as int, input, INITIAL_STATE, 0, 0, f);
        assert((1 + INITIAL_STATE) as u16 == 1u16);
        assert((ob + INITIAL_STATE) as u16 == ob as u16);
    } else if input.len() > 0 {
        let c = input[0];
        let l = seq![1u16, ob as u16];
        assert(pick(tt[0], c) == 0x8000);
        assert(dfs(tt, ss, input, INITIAL_STATE, 0, 0, f + 1) == dfs_list(tt, ss, input, l, 1, c, f));
        assert(l[0] == 1u16);
        assert(l.drop_first() =~= seq![ob as u16]);
        assert(seq![ob as u16][0] == ob as u16);
        assert(seq![ob as u16].drop_first() =~= Seq::<u16>::empty());
        assert(dfs_list(tt, ss, input, Seq::<u16>::empty(), 1, c, f) == Search::Missing);
        assert(dfs_list(tt, ss, input, seq![ob as u16], 1, c, f) == either_search(
            dfs(tt, ss, input, ob as u16, 1, c, f),
            Search::Missing,
        ));
        assert(dfs_list(tt, ss, input, l, 1, c, f) == either_search(
            dfs(tt, ss, input, 1, 1, c, f),
            dfs(tt, ss, input, ob as u16, 1, c, f),
        ));
        lemma_part_dfs_start(tt, ss, a.0, a.1, 1, 3, input, f);
        lemma_part_dfs_start(tt, ss, b.0, b.1, ob, 3 + a.1.len() as int, input, f);
    }
}

/// The depth-first search from the initial state of a rebased component
/// that does not read, on the first symbol, runs as the search of the
/// component from its initial state, which reads it.
proof fn lemma_part_dfs_start(
    tt: Seq<Transition>,
    ss: Seq<u16>,
    t: Seq<Transition>,
    s: Seq<u16>,
    o: int,
    so: int,
    input: Seq<u8>,
    f: nat,
)
    requires
        rebased_part(tt, ss, t, s, o, so),
        start_left(t, s),
        tt.len() < 0x8000,
        !tt[o].consume,
        t[0].consume,
        input.len() > 0,
        f >= 1,
    ensures
        dfs(tt, ss, input, o as u16, 1, input[0], f) == dfs(t, s, input, INITIAL_STATE, 0, 0, f),
{
    let c = input[0];
    assert(tt[o + 0] == tt[o]);
    lemma_part_targets(tt, ss, t, s, o, so, rebase_fn(o as u16), 0, c);
    let r = pick(t[0], c);
    assert(field_at(t, 0) == t[0].inside && field_at(t, 1) == t[0].outside);
    lemma_target_values(t, s, r);
    let l = targets(s, r);
    assert forall|k: int| 0 <= k < l.len() implies #[trigger] l[k] != INITIAL_STATE by {
        assert(l.contains(l[k]));
    }
    lemma_rebased_dfs_list(tt, ss, t, s, o, so, input, l, 1, c, (f - 1) as nat);
}

/// Alternation ([Nfa::combine]) under the depth-first run ([Nfa::run]): for
/// any `a` and `b` (where both initial states read, when no state goes back
/// to them), the combination's run is decided exactly when the run of `a` is and,
/// where `a` finds no match, the run of `b` is; it finds what `a` finds, and
/// where `a` finds no match, what `b` finds.
pub proof fn lemma_combine_search(a: (Seq<Transition>, Seq<u16>), b: (Seq<Transition>, Seq<u16>), input: Seq<u8>)
    requires
        nfa_wf(a.0, a.1),
        nfa_wf(b.0, b.1),
        1 + a.0.len() + b.0.len() < 0x8000,
        3 + a.1.len() + b.1.len() < 0x7ffe,
        combine_reads(a, b) ==> start_left(a.0, a.1) && start_left(b.0, b.1),
    ensures
        nfa_halts(combine_nfa(a, b).0, combine_nfa(a, b).1, input) == (nfa_halts(a.0, a.1, input) && (nfa_search(
            a.0,
            a.1,
            input,
        ) is Missing ==> nfa_halts(b.0, b.1, input))),
        nfa_halts(combine_nfa(a, b).0, combine_nfa(a, b).1, input) ==> nfa_search(
            combine_nfa(a, b).0,
            combine_nfa(a, b).1,
            input,
        ) == either_search(nfa_search(a.0, a.1, input), nfa_search(b.0, b.1, input)),
{
    let (tt, ss) = combine_nfa(a, b);
    if nfa_halts(tt, ss, input) {
        let fc = choose|f: nat| !(#[trigger] dfs(tt, ss, input, INITIAL_STATE, 0, 0, f) is Stuck);
        let g = fc + 2;
        lemma_dfs_fuel(tt, ss, input, INITIAL_STATE, 0, 0, fc, g);
        lemma_combine_dfs(a, b, input, (g - 1) as nat);
        let da = dfs(a.0, a.1, input, INITIAL_STATE, 0, 0, (g - 1) as nat);
        let db = dfs(b.0, b.1, input, INITIAL_STATE, 0, 0, (g - 1) as nat);
        assert(!(da is Stuck));
        let fa = choose|f: nat| !(#[trigger] dfs(a.0, a.1, input, INITIAL_STATE, 0, 0, f) is Stuck);
        if fa <= g - 1 {
            lemma_dfs_fuel(a.0, a.1, input, INITIAL_STATE, 0, 0, fa, (g - 1) as nat);
        } else {
            lemma_dfs_fuel(a.0, a.1, input, INITIAL_STATE, 0, 0, (g - 1) as nat, fa);
        }
        if da is Missing {
            assert(!(db is Stuck));
            let fb = choose|f: nat| !(#[trigger] dfs(b.0, b.1, input, INITIAL_STATE, 0, 0, f) is Stuck);
            if fb <= g - 1 {
                lemma_dfs_fuel(b.0, b.1, input, INITIAL_STATE, 0, 0, fb, (g - 1) as nat);
            } else {
                lemma_dfs_fuel(b.0, b.1, input, INITIAL_STATE, 0, 0, (g - 1) as nat, fb);
            }
        }
    }
    if nfa_halts(a.0, a.1, input) && (nfa_search(a.0, a.1, input) is Missing ==> nfa_halts(b.0, b.1, input)) {
        let fa = choose|f: nat| !(#[trigger] dfs(a.0, a.1, input, INITIAL_STATE, 0, 0, f) is Stuck);
        let fb = if nfa_search(a.0, a.1, input) is Missing {
            choose|f: nat| !(#[trigger] dfs(b.0, b.1, input, INITIAL_STATE, 0, 0, f) is Stuck)
        } else {
            0
        };
        let g: nat = fa + fb + 1;
        lemma_dfs_fuel(a.0, a.1, input, INITIAL_STATE, 0, 0, fa, g);
        if nfa_search(a.0, a.1, input) is Missing {
            lemma_dfs_fuel(b.0, b.1, input, INITIAL_STATE, 0, 0, fb, g);
        }
        lemma_combine_dfs(a, b, input, g);
        assert(!(dfs(tt, ss, input, INITIAL_STATE, 0, 0, g + 1) is Stuck));
    }
}

/// Depth-first search of `a` in which each branch that reaches acceptance
/// goes on with the depth-first search of `acc` from its initial state, and
/// each branch that reaches rejection with that of `rej`, if any; both at
/// the position reached and with the symbol read last.  Where that search
/// finds no match, the search of `a` backtracks to its next alternative.
pub open spec fn dfs_then(
    a: (Seq<Transition>, Seq<u16>),
    acc: (Seq<Transition>, Seq<u16>),
    rej: Option<(Seq<Transition>, Seq<u16>)>,
    input: Seq<u8>,
    state: u16,
    idx: nat,
    sym: u8,
    fuel: nat,
) -> Search
    decreases fuel, 0nat,
{
    if state == ACCEPTING_STATE {
        dfs(acc.0, acc.1, input, INITIAL_STATE, idx, sym, fuel)
    } else if state == REJECTING_STATE {
        match rej {
            None => Search::Missing,
            Some(r) => dfs(r.0, r.1, input, INITIAL_STATE, idx, sym, fuel),
        }
    } else if fuel == 0 || state as int >= a.0.len() {
        Search::Stuck
    } else {
        let tr = a.0[state as int];
        if tr.consume && idx >= input.len() {
            Search::Missing
        } else {
            let c = if tr.consume {
                input[idx as int]
            } else {
                sym
            };
            let i2 = if tr.consume {
                idx + 1
            } else {
                idx
            };
            dfs_then_list(a, acc, rej, input, targets(a.1, pick(tr, c)), i2, c, (fuel - 1) as nat)
        }
    }
}

/// See [dfs_then]: over the states of a list of `a`, in order.
pub open spec fn dfs_then_list(
    a: (Seq<Transition>, Seq<u16>),
    acc: (Seq<Transition>, Seq<u16>),
    rej: Option<(Seq<Transition>, Seq<u16>)>,
    input: Seq<u8>,
    l: Seq<u16>,
    idx: nat,
    sym: u8,
    fuel: nat,
) -> Search
    decreases fuel, l.len() + 1,
{
    if l.len() == 0 {
        Search::Missing
    } else {
        match dfs_then(a, acc, rej, input, l[0], idx, sym, fuel) {
            Search::Missing => dfs_then_list(a, acc, rej, input, l.drop_first(), idx, sym, fuel),
            r => r,
        }
    }
}

/// A component held whole in a composite at state offset `o`: its state
/// values shifted by `o`, each state with its own range and reading.
pub open spec fn shifted_part(tt: Seq<Transition>, ss: Seq<u16>, t: Seq<Transition>, s: Seq<u16>, o: int, so: int) -> bool {
    &&& part_ok(tt, ss, t, s, o, so, rebase_fn(o as u16))
    &&& forall|i: int|
        0 <= i < t.len() ==> (#[trigger] tt[o + i]).min == t[i].min && tt[o + i].max == t[i].max && tt[o
            + i].consume == t[i].consume
}

/// The depth-first search from a state of a component held whole in a
/// composite runs as in the component.
proof fn lemma_shifted_dfs(
    tt: Seq<Transition>,
    ss: Seq<u16>,
    t: Seq<Transition>,
    s: Seq<u16>,
    o: int,
    so: int,
    input: Seq<u8>,
    y: u16,
    idx: nat,
    sym: u8,
    f: nat,
)
    requires
        shifted_part(tt, ss, t, s, o, so),
        tt.len() < 0x8000,
        (y as int) < t.len(),
    ensures
        dfs(tt, ss, input, (o + y) as u16, idx, sym, f) == dfs(t, s, input, y, idx, sym, f),
    decreases f, 0nat,
{
    let yi = y as int;
    assert(tt[o + yi].consume == t[yi].consume);
    if f > 0 {
        let tr = t[yi];
        if !(tr.consume && idx >= input.len()) {
            let c = if tr.consume {
                input[idx as int]
            } else {
                sym
            };
            let i2 = if tr.consume {
                idx + 1
            } else {
                idx
            };
            let r = pick(tr, c);
            lemma_part_targets(tt, ss, t, s, o, so, rebase_fn(o as u16), yi, c);
            assert(field_at(t, 2 * yi) == tr.inside && field_at(t, 2 * yi + 1) == tr.outside);
            lemma_target_values(t, s, r);
            lemma_shifted_dfs_list(tt, ss, t, s, o, so, input, targets(s, r), i2, c, (f - 1) as nat);
        }
    }
}

/// See [lemma_shifted_dfs]: the same over a list of next states of the
/// component, relabeled.
proof fn lemma_shifted_dfs_list(
    tt: Seq<Transition>,
    ss: Seq<u16>,
    t: Seq<Transition>,
    s: Seq<u16>,
    o: int,
    so: int,
    input: Seq<u8>,
    l: Seq<u16>,
    idx: nat,
    sym: u8,
    f: nat,
)
    requires
        shifted_part(tt, ss, t, s, o, so),
        tt.len() < 0x8000,
        forall|k: int| 0 <= k < l.len() ==> is_terminal(#[trigger] l[k]) || (l[k] as int) < t.len(),
    ensures
        dfs_list(tt, ss, input, l.map_values(rebase_fn(o as u16)), idx, sym, f) == dfs_list(t, s, input, l, idx, sym, f),
    decreases f, l.len() + 1,
{
    let m = l.map_values(rebase_fn(o as u16));
    if l.len() > 0 {
        assert(m[0] == rebase_fn(o as u16)(l[0]));
        if !is_terminal(l[0]) {
            lemma_shifted_dfs(tt, ss, t, s, o, so, input, l[0], idx, sym, f);
            assert(m[0] == (o + l[0]) as u16);
        } else {
            assert(m[0] == l[0]);
        }
        assert(dfs(tt, ss, input, m[0], idx, sym, f) == dfs(t, s, input, l[0], idx, sym, f));
        assert(m.drop_first() =~= l.drop_first().map_values(rebase_fn(o as u16)));
        lemma_shifted_dfs_list(tt, ss, t, s, o, so, input, l.drop_first(), idx, sym, f);
    } else {
        assert(m.len() == 0);
    }
}

/// A component held in a composite at state offset `o` and list offset
/// `so`, its states shifted by `o`, its accepting value sending to where the
/// search goes on as `acc`, and its rejecting value to where it goes on as
/// `rej` (or nowhere).
pub open spec fn front_part(
    tt: Seq<Transition>,
    ss: Seq<u16>,
    a: (Seq<Transition>, Seq<u16>),
    acc: (Seq<Transition>, Seq<u16>),
    rej: Option<(Seq<Transition>, Seq<u16>)>,
    h: spec_fn(u16) -> u16,
    o: int,
    so: int,
    input: Seq<u8>,
) -> bool {
    &&& part_ok(tt, ss, a.0, a.1, o, so, h)
    &&& forall|i: int|
        0 <= i < a.0.len() ==> (#[trigger] tt[o + i]).min == a.0[i].min && tt[o + i].max == a.0[i].max && tt[o
            + i].consume == a.0[i].consume
    &&& forall|v: u16| (v as int) < a.0.len() ==> #[trigger] h(v) == (o + v) as u16
    &&& forall|i: nat, c: u8, g: nat|
        #[trigger] dfs(tt, ss, input, h(ACCEPTING_STATE), i, c, g) == dfs(acc.0, acc.1, input, INITIAL_STATE, i, c, g)
    &&& forall|i: nat, c: u8, g: nat|
        #[trigger] dfs(tt, ss, input, h(REJECTING_STATE), i, c, g) == match rej {
            None => Search::Missing,
            Some(r) => dfs(r.0, r.1, input, INITIAL_STATE, i, c, g),
        }
}

/// The depth-first search from a state of a held component is its search
/// that goes on as the continuations say where it accepts or rejects.
proof fn lemma_front_dfs(
    tt: Seq<Transition>,
    ss: Seq<u16>,
    a: (Seq<Transition>, Seq<u16>),
    acc: (Seq<Transition>, Seq<u16>),
    rej: Option<(Seq<Transition>, Seq<u16>)>,
    h: spec_fn(u16) -> u16,
    o: int,
    so: int,
    input: Seq<u8>,
    x: u16,
    idx: nat,
    sym: u8,
    f: nat,
)
    requires
        front_part(tt, ss, a, acc, rej, h, o, so, input),
        tt.len() < 0x8000,
        (x as int) < a.0.len(),
    ensures
        dfs(tt, ss, input, (o + x) as u16, idx, sym, f) == dfs_then(a, acc, rej, input, x, idx, sym, f),
    decreases f, 0nat,
{
    let xi = x as int;
    assert(tt[o + xi].consume == a.0[xi].consume);
    if f > 0 {
        let tr = a.0[xi];
        if !(tr.consume && idx >= input.len()) {
            let c = if tr.consume {
                input[idx as int]
            } else {
                sym
            };
            let i2 = if tr.consume {
                idx + 1
            } else {
                idx
            };
            let r = pick(tr, c);
            lemma_part_targets(tt, ss, a.0, a.1, o, so, h, xi, c);
            assert(field_at(a.0, 2 * xi) == tr.inside && field_at(a.0, 2 * xi + 1) == tr.outside);
            lemma_target_values(a.0, a.1, r);
            lemma_front_dfs_list(tt, ss, a, acc, rej, h, o, so, input, targets(a.1, r), i2, c, (f - 1) as nat);
        }
    }
}

/// See [lemma_front_dfs]: the same over a list of next states of the
/// component, relabeled.
proof fn lemma_front_dfs_list(
    tt: Seq<Transition>,
    ss: Seq<u16>,
    a: (Seq<Transition>, Seq<u16>),
    acc: (Seq<Transition>, Seq<u16>),
    rej: Option<(Seq<Transition>, Seq<u16>)>,
    h: spec_fn(u16) -> u16,
    o: int,
    so: int,
    input: Seq<u8>,
    l: Seq<u16>,
    idx: nat,
    sym: u8,
    f: nat,
)
    requires
        front_part(tt, ss, a, acc, rej, h, o, so, input),
        tt.len() < 0x8000,
        forall|k: int| 0 <= k < l.len() ==> is_terminal(#[trigger] l[k]) || (l[k] as int) < a.0.len(),
    ensures
        dfs_list(tt, ss, input, l.map_values(h), idx, sym, f) == dfs_then_list(a, acc, rej, input, l, idx, sym, f),
    decreases f, l.len() + 1,
{
    let m = l.map_values(h);
    if l.len() > 0 {
        assert(m[0] == h(l[0]));
        if !is_terminal(l[0]) {
            lemma_front_dfs(tt, ss, a, acc, rej, h, o, so, input, l[0], idx, sym, f);
        }
        assert(dfs(tt, ss, input, m[0], idx, sym, f) == dfs_then(a, acc, rej, input, l[0], idx, sym, f));
        assert(m.drop_first() =~= l.drop_first().map_values(h));
        lemma_front_dfs_list(tt, ss, a, acc, rej, h, o, so, input, l.drop_first(), idx, sym, f);
    } else {
        assert(m.len() == 0);
    }
}

/// Concatenation ([Nfa::append]) under the depth-first run ([Nfa::run]):
/// within any fuel, the concatenation's search is the search of `a` that,
/// on each branch that reaches acceptance, goes on with the search of `b`
/// from there, and backtracks into `a` where `b` finds no match.
pub proof fn lemma_append_search(a: (Seq<Transition>, Seq<u16>), b: (Seq<Transition>, Seq<u16>), input: Seq<u8>, f: nat)
    requires
        nfa_wf(a.0, a.1),
        nfa_wf(b.0, b.1),
        a.0.len() + b.0.len() < 0x8000,
        a.1.len() + b.1.len() < 0x7ffe,
    ensures
        dfs(append_nfa(a, b).0, append_nfa(a, b).1, input, INITIAL_STATE, 0, 0, f) == dfs_then(
            a,
            b,
            None,
            input,
            INITIAL_STATE,
            0,
            0,
            f,
        ),
{
    lemma_append_shape(a, b);
    let (tt, ss) = append_nfa(a, b);
    let n = a.0.len() as int;
    let h = replace_fn(ACCEPTING_STATE, n as u16);
    assert(shifted_part(tt, ss, b.0, b.1, n, a.1.len() as int));
    assert forall|i: nat, c: u8, g: nat|
        #[trigger] dfs(tt, ss, input, h(ACCEPTING_STATE), i, c, g) == dfs(b.0, b.1, input, INITIAL_STATE, i, c, g) by {
        lemma_shifted_dfs(tt, ss, b.0, b.1, n, a.1.len() as int, input, INITIAL_STATE, i, c, g);
        assert(h(ACCEPTING_STATE) == (n + 0) as u16);
    }
    assert forall|i: int| 0 <= i < a.0.len() implies (#[trigger] tt[0 + i]).min == a.0[i].min && tt[0 + i].max
        == a.0[i].max && tt[0 + i].consume == a.0[i].consume by {
        assert(tt[0 + i] == tt[i]);
    }
    assert(front_part(tt, ss, a, b, None, h, 0, 0, input));
    lemma_front_dfs(tt, ss, a, b, None, h, 0, 0, input, INITIAL_STATE, 0, 0, f);
}

/// The switched automaton holds `a` at its front, its accepting value sent
/// to `b` and its rejecting value to `c`, whose initial states do not read.
proof fn lemma_switch_shape(
    a: (Seq<Transition>, Seq<u16>),
    b: (Seq<Transition>, Seq<u16>),
    c: (Seq<Transition>, Seq<u16>),
)
    requires
        nfa_wf(a.0, a.1),
        nfa_wf(b.0, b.1),
        nfa_wf(c.0, c.1),
        a.0.len() + b.0.len() + c.0.len() < 0x8000,
        a.1.len() + b.1.len() + c.1.len() < 0x7ffe,
    ensures
        ({
            let (tt, ss) = switch_nfa(a, b, c);
            let la = a.0.len() as int;
            let lb = b.0.len() as int;
            &&& nfa_wf(tt, ss)
            &&& tt.len() == la + lb + c.0.len()
            &&& shifted_part(tt, ss, quiet_first(b.0), b.1, la, a.1.len() as int)
            &&& shifted_part(tt, ss, quiet_first(c.0), c.1, la + lb, (a.1.len() + b.1.len()) as int)
            &&& forall|i: int|
                0 <= i < la ==> (#[trigger] tt[0 + i]).min == a.0[i].min && tt[0 + i].max == a.0[i].max && tt[0
                    + i].consume == a.0[i].consume
        }),
{
    lemma_switch_wf(a, b, c);
    let (tt, ss) = switch_nfa(a, b, c);
    let la = a.0.len() as int;
    let lb = b.0.len() as int;
    let f = replace_fn(ACCEPTING_STATE, la as u16);
    let g = replace_fn(REJECTING_STATE, (la + lb) as u16);
    let m = map_states(a.0, a.1, f);
    let pa = map_states(m.0, m.1, g);
    let qb = quiet_first(b.0);
    let qc = quiet_first(c.0);
    let pb = placed(qb, b.1, rebase_fn(la as u16), a.1.len() as u16);
    let pc = placed(qc, c.1, rebase_fn((la + lb) as u16), (a.1.len() + b.1.len()) as u16);
    assert forall|i: int| 0 <= i < la implies (#[trigger] tt[0 + i]).min == a.0[i].min && tt[0 + i].max == a.0[i].max
        && tt[0 + i].consume == a.0[i].consume by {
        assert(tt[0 + i] == pa.0[i]);
    }
    assert forall|i: int| 0 <= i < lb implies (#[trigger] tt[la + i]).min == qb[i].min && tt[la + i].max == qb[i].max
        && tt[la + i].consume == qb[i].consume by {
        assert(tt[la + i] == pb.0[i]);
    }
    assert forall|i: int| 0 <= i < c.0.len() implies (#[trigger] tt[(la + lb) + i]).min == qc[i].min && tt[(la + lb)
        + i].max == qc[i].max && tt[(la + lb) + i].consume == qc[i].consume by {
        assert(tt[(la + lb) + i] == pc.0[i]);
    }
}

/// Switching ([Nfa::switch]) under the depth-first run ([Nfa::run]): within
/// any fuel, the switched automaton's search is the search of `a` that, on
/// each branch that reaches acceptance, goes on with the search of `accept`
/// and on each that reaches rejection with that of `reject`, each from its
/// initial state made not to read (so that it sees the symbol `a` read
/// last), backtracking into `a` where that finds no match.
pub proof fn lemma_switch_search(
    a: (Seq<Transition>, Seq<u16>),
    accept: (Seq<Transition>, Seq<u16>),
    reject: (Seq<Transition>, Seq<u16>),
    input: Seq<u8>,
    f: nat,
)
    requires
        nfa_wf(a.0, a.1),
        nfa_wf(accept.0, accept.1),
        nfa_wf(reject.0, reject.1),
        a.0.len() + accept.0.len() + reject.0.len() < 0x8000,
        a.1.len() + accept.1.len() + reject.1.len() < 0x7ffe,
    ensures
        dfs(switch_nfa(a, accept, reject).0, switch_nfa(a, accept, reject).1, input, INITIAL_STATE, 0, 0, f)
            == dfs_then(
            a,
            (quiet_first(accept.0), accept.1),
            Some((quiet_first(reject.0), reject.1)),
            input,
            INITIAL_STATE,
            0,
            0,
            f,
        ),
{
    lemma_switch_shape(a, accept, reject);
    lemma_switch_wf(a, accept, reject);
    let (tt, ss) = switch_nfa(a, accept, reject);
    let la = a.0.len() as int;
    let lb = accept.0.len() as int;
    let qb = quiet_first(accept.0);
    let qc = quiet_first(reject.0);
    let h = |r: u16| replace_fn(REJECTING_STATE, (la + lb) as u16)(replace_fn(ACCEPTING_STATE, la as u16)(r));
    assert forall|i: nat, c: u8, g: nat|
        #[trigger] dfs(tt, ss, input, h(ACCEPTING_STATE), i, c, g) == dfs(qb, accept.1, input, INITIAL_STATE, i, c, g) by {
        lemma_shifted_dfs(tt, ss, qb, accept.1, la, a.1.len() as int, input, INITIAL_STATE, i, c, g);
        assert(h(ACCEPTING_STATE) == (la + 0) as u16);
    }
    assert forall|i: nat, c: u8, g: nat|
        #[trigger] dfs(tt, ss, input, h(REJECTING_STATE), i, c, g) == dfs(qc, reject.1, input, INITIAL_STATE, i, c, g) by {
        lemma_shifted_dfs(tt, ss, qc, reject.1, la + lb, (a.1.len() + accept.1.len()) as int, input, INITIAL_STATE, i, c, g);
        assert(h(REJECTING_STATE) == ((la + lb) + 0) as u16);
    }
    assert(front_part(tt, ss, a, (qb, accept.1), Some((qc, reject.1)), h, 0, 0, input));
    lemma_front_dfs(tt, ss, a, (qb, accept.1), Some((qc, reject.1)), h, 0, 0, input, INITIAL_STATE, 0, 0, f);
}

/// Repetition ([Nfa::repeat_greedy], [Nfa::repeat_lazy]) under the
/// depth-first run ([Nfa::run]): from its first state, which does not read,
/// with one more fuel, the greedy repetition searches `a` first, going on
/// with the whole repetition again on each branch of `a` that accepts, and
/// stops (a match of what was read so far) where that finds no match; the
/// lazy repetition stops at once.
pub proof fn lemma_repeat_search(
    a: (Seq<Transition>, Seq<u16>),
    greedy: bool,
    input: Seq<u8>,
    idx: nat,
    sym: u8,
    f: nat,
)
    requires
        nfa_wf(a.0, a.1),
        1 + a.0.len() < 0x8000,
        3 + a.1.len() < 0x7ffe,
    ensures
        dfs(repeat_nfa(a, greedy).0, repeat_nfa(a, greedy).1, input, INITIAL_STATE, idx, sym, f + 1) == if greedy {
            either_search(
                dfs_then(a, repeat_nfa(a, greedy), None, input, INITIAL_STATE, idx, sym, f),
                Search::Found(idx),
            )
        } else {
            Search::Found(idx)
        },
{
    lemma_repeat_wf(a, greedy);
    let r = repeat_nfa(a, greedy);
    let (tt, ss) = r;
    let h = |v: u16| replace_fn(ACCEPTING_STATE, 0)(rebase_fn(1)(v));
    let pa = placed(a.0, a.1, h, 3);
    assert forall|i: int| 0 <= i < a.0.len() implies (#[trigger] tt[1 + i]).min == a.0[i].min && tt[1 + i].max
        == a.0[i].max && tt[1 + i].consume == a.0[i].consume by {
        assert(tt[1 + i] == pa.0[i]);
    }
    assert(tt[0] == fork_state(false));
    assert(front_part(tt, ss, a, r, None, h, 1, 3, input));
    let l = if greedy {
        seq![1u16, ACCEPTING_STATE]
    } else {
        seq![ACCEPTING_STATE, 1u16]
    };
    assert(ss[0] == 2 && ss[1] == l[0] && ss[2] == l[1]);
    assert(targets(ss, 0x8000) =~= l);
    assert(pick(tt[0], sym) == 0x8000);
    assert(dfs(tt, ss, input, INITIAL_STATE, idx, sym, f + 1) == dfs_list(tt, ss, input, l, idx, sym, f));
    assert(l.drop_first().drop_first() =~= Seq::<u16>::empty());
    if greedy {
        lemma_front_dfs(tt, ss, a, r, None, h, 1, 3, input, INITIAL_STATE, idx, sym, f);
        assert((1 + INITIAL_STATE) as u16 == 1u16);
        assert(l[0] == 1u16);
        assert(l.drop_first() =~= seq![ACCEPTING_STATE]);
        assert(seq![ACCEPTING_STATE][0] == ACCEPTING_STATE);
        assert(dfs(tt, ss, input, ACCEPTING_STATE, idx, sym, f) == Search::Found(idx));
        assert(dfs_list(tt, ss, input, seq![ACCEPTING_STATE], idx, sym, f) == Search::Found(idx));
    } else {
        assert(l[0] == ACCEPTING_STATE);
        assert(dfs(tt, ss, input, ACCEPTING_STATE, idx, sym, f) == Search::Found(idx));
    }
}

/// Every state that does not read goes on, on any symbol, only to final
/// values, later states, or states that read: no cycle of the automaton
/// goes round without reading.
pub open spec fn nfa_reads_forward(t: Seq<Transition>, s: Seq<u16>) -> bool {
    forall|x: int, c: u8, v: u16|
        0 <= x < t.len() && !t[x].consume && #[trigger] targets(s, pick(t[x], c)).contains(v) ==> is_terminal(v) || x
            < v || t[v as int].consume
}

/// Fuel that is enough for a depth-first search of an automaton whose
/// non-reading states only go forward.
pub open spec fn nfa_forward_fuel(t: Seq<Transition>, input: Seq<u8>, y: u16, idx: nat) -> int {
    (input.len() - idx) * (t.len() + 1) + (if t[y as int].consume {
        0
    } else {
        t.len() - y
    }) + 1
}

proof fn lemma_forward_dfs(t: Seq<Transition>, s: Seq<u16>, input: Seq<u8>, y: u16, idx: nat, sym: u8, f: nat)
    requires
        nfa_wf(t, s),
        nfa_reads_forward(t, s),
        (y as int) < t.len(),
        idx <= input.len(),
        f >= nfa_forward_fuel(t, input, y, idx),
    ensures
        !(dfs(t, s, input, y, idx, sym, f) is Stuck),
    decreases f, 0nat,
{
    let yi = y as int;
    let tr = t[yi];
    let n_len = t.len() as int;
    let m = input.len() - idx;
    assert(m * (n_len + 1) >= 0) by (nonlinear_arith)
        requires
            m >= 0,
            n_len >= 0,
    ;
    if !(tr.consume && idx >= input.len()) {
        let c = if tr.consume {
            input[idx as int]
        } else {
            sym
        };
        let i2 = if tr.consume {
            idx + 1
        } else {
            idx
        };
        let r = pick(tr, c);
        assert(field_at(t, 2 * yi) == tr.inside && field_at(t, 2 * yi + 1) == tr.outside);
        lemma_target_values(t, s, r);
        let l = targets(s, r);
        if tr.consume {
            assert((m - 1) * (n_len + 1) + n_len + 1 == m * (n_len + 1)) by (nonlinear_arith);
            assert((m - 1) * (n_len + 1) >= 0) by (nonlinear_arith)
                requires
                    m >= 1,
                    n_len >= 0,
            ;
        }
        assert forall|k: int| 0 <= k < l.len() && !is_terminal(#[trigger] l[k]) implies (l[k] as int) < t.len()
            && (f - 1) as nat >= nfa_forward_fuel(t, input, l[k], i2) by {
            assert(l.contains(l[k]));
        }
        lemma_forward_dfs_list(t, s, input, l, i2, c, (f - 1) as nat);
    }
}

proof fn lemma_forward_dfs_list(t: Seq<Transition>, s: Seq<u16>, input: Seq<u8>, l: Seq<u16>, idx: nat, sym: u8, f: nat)
    requires
        nfa_wf(t, s),
        nfa_reads_forward(t, s),
        idx <= input.len(),
        forall|k: int|
            0 <= k < l.len() && !is_terminal(#[trigger] l[k]) ==> (l[k] as int) < t.len() && f >= nfa_forward_fuel(
                t,
                input,
                l[k],
                idx,
            ),
    ensures
        !(dfs_list(t, s, input, l, idx, sym, f) is Stuck),
    decreases f, l.len() + 1,
{
    if l.len() > 0 {
        if !is_terminal(l[0]) {
            lemma_forward_dfs(t, s, input, l[0], idx, sym, f);
        }
        assert forall|k: int| 0 <= k < l.drop_first().len() && !is_terminal(#[trigger] l.drop_first()[k]) implies (
        l.drop_first()[k] as int) < t.len() && f >= nfa_forward_fuel(t, input, l.drop_first()[k], idx) by {
            assert(l.drop_first()[k] == l[k + 1]);
        }
        lemma_forward_dfs_list(t, s, input, l.drop_first(), idx, sym, f);
    }
}

/// An automaton whose non-reading states only go forward has a decided
/// depth-first run ([Nfa::run]) on every input.
pub proof fn lemma_nfa_forward_halts(t: Seq<Transition>, s: Seq<u16>, input: Seq<u8>)
    requires
        nfa_wf(t, s),
        nfa_reads_forward(t, s),
    ensures
        nfa_halts(t, s, input),
{
    let n_len = t.len() as int;
    let m = input.len() as int;
    assert(m * (n_len + 1) >= 0) by (nonlinear_arith)
        requires
            m >= 0,
            n_len >= 0,
    ;
    let f = nfa_forward_fuel(t, input, INITIAL_STATE, 0);
    lemma_forward_dfs(t, s, input, INITIAL_STATE, 0, 0, f as nat);
    assert(!(dfs(t, s, input, INITIAL_STATE, 0, 0, f as nat) is Stuck));
}

/// No chain of states that do not read, on any symbol, comes back to the
/// state it started from: the automaton has no cycle of non-reading states.
pub open spec fn quiet_acyclic(t: Seq<Transition>, s: Seq<u16>) -> bool {
    forall|c: u8, p: Seq<int>| #[trigger] quiet_path(t, s, c, p) && p.len() > 1 ==> p[0] != p.last()
}

/// Every state of a chain is a state.
proof fn lemma_path_states(t: Seq<Transition>, s: Seq<u16>, c: u8, p: Seq<int>)
    requires
        quiet_path(t, s, c, p),
    ensures
        forall|i: int| 0 <= i < p.len() ==> 0 <= #[trigger] p[i] < t.len(),
{
    reveal(quiet_path);
    assert forall|i: int| 0 <= i < p.len() implies 0 <= #[trigger] p[i] < t.len() by {
        if i > 0 {
            assert(quiet_step(t, s, c, p[i - 1], p[(i - 1) + 1]));
        }
    }
}

/// Without cycles of non-reading states, a chain holds no state twice, so
/// it is no longer than the number of states.
proof fn lemma_path_short(t: Seq<Transition>, s: Seq<u16>, c: u8, p: Seq<int>)
    requires
        quiet_acyclic(t, s),
        quiet_path(t, s, c, p),
    ensures
        p.len() <= t.len(),
{
    lemma_path_states(t, s, c, p);
    if !p.no_duplicates() {
        let (i, j) = choose|i: int, j: int| 0 <= i < p.len() && 0 <= j < p.len() && i != j && p[i] == p[j];
        let (a, b) = if i < j {
            (i, j)
        } else {
            (j, i)
        };
        let q = p.subrange(a, b + 1);
        reveal(quiet_path);
        assert forall|k: int| 0 <= k < q.len() - 1 implies quiet_step(t, s, c, #[trigger] q[k], q[k + 1]) by {
            assert(q[k] == p[a + k] && q[k + 1] == p[a + k + 1]);
        }
        assert(quiet_path(t, s, c, q));
        assert(q[0] == q.last());
    }
    crate::dfa::lemma_distinct_below(p, t.len() as int);
}

/// The length of the longest chain from `x` on symbol `c`, among lengths up
/// to `n`.
pub open spec fn longest_up_to(t: Seq<Transition>, s: Seq<u16>, c: u8, x: int, n: nat) -> nat
    decreases n,
{
    if n == 0 {
        0
    } else if exists|p: Seq<int>| #[trigger] quiet_path(t, s, c, p) && p[0] == x && p.len() == n {
        n
    } else {
        longest_up_to(t, s, c, x, (n - 1) as nat)
    }
}

proof fn lemma_longest_up_to(t: Seq<Transition>, s: Seq<u16>, c: u8, x: int, n: nat, p: Seq<int>)
    requires
        quiet_path(t, s, c, p),
        p[0] == x,
        p.len() <= n,
    ensures
        p.len() <= longest_up_to(t, s, c, x, n),
        longest_up_to(t, s, c, x, n) <= n,
        exists|q: Seq<int>| #[trigger] quiet_path(t, s, c, q) && q[0] == x && q.len() == longest_up_to(t, s, c, x, n),
    decreases n,
{
    lemma_path_states(t, s, c, p);
    if !(exists|q: Seq<int>| #[trigger] quiet_path(t, s, c, q) && q[0] == x && q.len() == n) {
        assert(p.len() < n);
        lemma_longest_up_to(t, s, c, x, (n - 1) as nat, p);
    }
}

/// The length of the longest chain of non-reading states from `x` on `c`.
pub open spec fn quiet_height(t: Seq<Transition>, s: Seq<u16>, c: u8, x: int) -> nat {
    longest_up_to(t, s, c, x, t.len())
}

/// A non-reading next state has a shorter longest chain.
proof fn lemma_height_step(t: Seq<Transition>, s: Seq<u16>, c: u8, x: int, v: int)
    requires
        quiet_acyclic(t, s),
        quiet_step(t, s, c, x, v),
    ensures
        quiet_height(t, s, c, v) < quiet_height(t, s, c, x),
        quiet_height(t, s, c, x) <= t.len(),
{
    reveal(quiet_path);
    let one = seq![v];
    assert(quiet_path(t, s, c, one));
    lemma_longest_up_to(t, s, c, v, t.len(), one);
    let q = choose|q: Seq<int>| #[trigger] quiet_path(t, s, c, q) && q[0] == v && q.len() == quiet_height(t, s, c, v);
    let pq = seq![x] + q;
    assert forall|k: int| 0 <= k < pq.len() - 1 implies quiet_step(t, s, c, #[trigger] pq[k], pq[k + 1]) by {
        if k > 0 {
            assert(pq[k] == q[k - 1] && pq[k + 1] == q[k]);
        }
    }
    assert(quiet_path(t, s, c, pq));
    lemma_path_short(t, s, c, pq);
    lemma_longest_up_to(t, s, c, x, t.len(), pq);
}

/// Fuel that is enough for a depth-first search of an automaton without
/// cycles of non-reading states.
pub open spec fn acyclic_fuel(t: Seq<Transition>, s: Seq<u16>, input: Seq<u8>, y: u16, idx: nat, sym: u8) -> int {
    (input.len() - idx) * (t.len() + 2) + (if t[y as int].consume {
        0
    } else {
        quiet_height(t, s, sym, y as int) + 1
    }) + 1
}

proof fn lemma_acyclic_dfs(t: Seq<Transition>, s: Seq<u16>, input: Seq<u8>, y: u16, idx: nat, sym: u8, f: nat)
    requires
        nfa_wf(t, s),
        quiet_acyclic(t, s),
        (y as int) < t.len(),
        idx <= input.len(),
        f >= acyclic_fuel(t, s, input, y, idx, sym),
    ensures
        !(dfs(t, s, input, y, idx, sym, f) is Stuck),
    decreases f, 0nat,
{
    let yi = y as int;
    let tr = t[yi];
    let n_len = t.len() as int;
    let m = input.len() - idx;
    assert(m * (n_len + 2) >= 0) by (nonlinear_arith)
        requires
            m >= 0,
            n_len >= 0,
    ;
    if !(tr.consume && idx >= input.len()) {
        let c = if tr.consume {
            input[idx as int]
        } else {
            sym
        };
        let i2 = if tr.consume {
            idx + 1
        } else {
            idx
        };
        let r = pick(tr, c);
        assert(field_at(t, 2 * yi) == tr.inside && field_at(t, 2 * yi + 1) == tr.outside);
        lemma_target_values(t, s, r);
        let l = targets(s, r);
        if tr.consume {
            assert((m - 1) * (n_len + 2) + n_len + 2 == m * (n_len + 2)) by (nonlinear_arith);
            assert((m - 1) * (n_len + 2) >= 0) by (nonlinear_arith)
                requires
                    m >= 1,
                    n_len >= 0,
            ;
        }
        assert forall|k: int| 0 <= k < l.len() && !is_terminal(#[trigger] l[k]) implies (l[k] as int) < t.len()
            && (f - 1) as nat >= acyclic_fuel(t, s, input, l[k], i2, c) by {
            assert(l.contains(l[k]));
            let v = l[k] as int;
            if !t[v].consume {
                assert(quiet_step(t, s, c, yi, v));
                lemma_height_step(t, s, c, yi, v);
            }
        }
        lemma_acyclic_dfs_list(t, s, input, l, i2, c, (f - 1) as nat);
    }
}

proof fn lemma_acyclic_dfs_list(t: Seq<Transition>, s: Seq<u16>, input: Seq<u8>, l: Seq<u16>, idx: nat, sym: u8, f: nat)
    requires
        nfa_wf(t, s),
        quiet_acyclic(t, s),
        idx <= input.len(),
        forall|k: int|
            0 <= k < l.len() && !is_terminal(#[trigger] l[k]) ==> (l[k] as int) < t.len() && f >= acyclic_fuel(
                t,
                s,
                input,
                l[k],
                idx,
                sym,
            ),
    ensures
        !(dfs_list(t, s, input, l, idx, sym, f) is Stuck),
    decreases f, l.len() + 1,
{
    if l.len() > 0 {
        if !is_terminal(l[0]) {
            lemma_acyclic_dfs(t, s, input, l[0], idx, sym, f);
        }
        assert forall|k: int| 0 <= k < l.drop_first().len() && !is_terminal(#[trigger] l.drop_first()[k]) implies (
        l.drop_first()[k] as int) < t.len() && f >= acyclic_fuel(t, s, input, l.drop_first()[k], idx, sym) by {
            assert(l.drop_first()[k] == l[k + 1]);
        }
        lemma_acyclic_dfs_list(t, s, input, l.drop_first(), idx, sym, f);
    }
}

/// An automaton without cycles of non-reading states has a decided
/// depth-first run ([Nfa::run]) on every input.
pub proof fn lemma_nfa_acyclic_halts(t: Seq<Transition>, s: Seq<u16>, input: Seq<u8>)
    requires
        nfa_wf(t, s),
        quiet_acyclic(t, s),
    ensures
        nfa_halts(t, s, input),
{
    let n_len = t.len() as int;
    let m = input.len() as int;
    assert(m * (n_len + 2) >= 0) by (nonlinear_arith)
        requires
            m >= 0,
            n_len >= 0,
    ;
    let f = acyclic_fuel(t, s, input, INITIAL_STATE, 0, 0);
    lemma_acyclic_dfs(t, s, input, INITIAL_STATE, 0, 0, f as nat);
    assert(!(dfs(t, s, input, INITIAL_STATE, 0, 0, f as nat) is Stuck));
}

/// State `x` reaches rejection from position `pos` after `p` symbols: as
/// [match_from], with the rejecting value in place of the accepting one.
pub open spec fn reject_from(t: Seq<Transition>, s: Seq<u16>, input: Seq<u8>, x: int, pos: nat, p: nat) -> bool
    decreases input.len() - pos,
{
    &&& pos < input.len()
    &&& exists|z: int|
        #[trigger] round_reach(t, s, set![x], input[pos as int]).contains(z) && {
            ||| (p == pos + 1 && targets(s, pick(t[z], input[pos as int])).contains(REJECTING_STATE))
            ||| exists|y: int|
                0 <= y < t.len() && #[trigger] targets(s, pick(t[z], input[pos as int])).contains(y as u16)
                    && t[y].consume && reject_from(t, s, input, y, pos + 1, p)
        }
}

/// Some run of the automaton on `input` reaches rejection after `p`
/// symbols.
pub open spec fn nfa_rejects(t: Seq<Transition>, s: Seq<u16>, input: Seq<u8>, p: nat) -> bool {
    reject_from(t, s, input, INITIAL_STATE as int, 0, p)
}

/// The inverted automaton has the same states, each with its next states
/// with acceptance and rejection exchanged.
proof fn lemma_invert_targets(t: Seq<Transition>, s: Seq<u16>)
    requires
        nfa_wf(t, s),
    ensures
        invert_nfa((t, s)).0.len() == t.len(),
        forall|x: int| 0 <= x < t.len() ==> (#[trigger] invert_nfa((t, s)).0[x]).consume == t[x].consume,
        forall|x: int, c: u8, v: u16|
            0 <= x < t.len() ==> #[trigger] targets(invert_nfa((t, s)).1, pick(invert_nfa((t, s)).0[x], c)).contains(v)
                == targets(s, pick(t[x], c)).contains(swap_fn()(v)),
{
    let f = swap_fn();
    let (tt, ss) = invert_nfa((t, s));
    assert forall|i: int| 0 <= i < t.len() implies (#[trigger] tt[0 + i]).inside == lift(t[i].inside, f, 0)
        && tt[0 + i].outside == lift(t[i].outside, f, 0) by {}
    assert forall|k: int| 0 <= k < s.len() implies #[trigger] ss[0 + k] == if listed_upto(t, s, 2 * t.len() as int, k) {
        f(s[k])
    } else {
        s[k]
    } by {}
    crate::nfa::lemma_state_values(t, s);
    assert(part_ok(tt, ss, t, s, 0, 0, f));
    assert forall|x: int, c: u8, v: u16| 0 <= x < t.len() implies #[trigger] targets(ss, pick(tt[x], c)).contains(v)
        == targets(s, pick(t[x], c)).contains(f(v)) by {
        assert(tt[0 + x] == tt[x]);
        lemma_part_targets(tt, ss, t, s, 0, 0, f, x, c);
        let l = targets(s, pick(t[x], c));
        if l.map_values(f).contains(v) {
            let k = choose|k: int| 0 <= k < l.map_values(f).len() && l.map_values(f)[k] == v;
            assert(l[k] == f(v));
        }
        if l.contains(f(v)) {
            let k = choose|k: int| 0 <= k < l.len() && l[k] == f(v);
            assert(l.map_values(f)[k] == v);
        }
    }
}

/// Inversion keeps the rounds: the same states are reached on each symbol.
proof fn lemma_invert_reach(t: Seq<Transition>, s: Seq<u16>, a: Set<int>, c: u8)
    requires
        nfa_wf(t, s),
    ensures
        round_reach(invert_nfa((t, s)).0, invert_nfa((t, s)).1, a, c) == round_reach(t, s, a, c),
{
    let (tt, ss) = invert_nfa((t, s));
    lemma_invert_targets(t, s);
    reveal(quiet_path);
    assert forall|x: int, y: int| quiet_step(tt, ss, c, x, y) == quiet_step(t, s, c, x, y) by {
        if 0 <= x < t.len() && 0 <= y < t.len() {
            assert(swap_fn()(y as u16) == y as u16);
            assert(targets(ss, pick(tt[x], c)).contains(y as u16) == targets(s, pick(t[x], c)).contains(swap_fn()(y as u16)));
        }
    }
    assert forall|p: Seq<int>| #[trigger] quiet_path(tt, ss, c, p) == quiet_path(t, s, c, p) by {
        assert forall|i: int| 0 <= i < p.len() - 1 implies quiet_step(tt, ss, c, #[trigger] p[i], p[i + 1]) == quiet_step(
            t,
            s,
            c,
            p[i],
            p[i + 1],
        ) by {}
    }
    assert forall|y: int| round_reach(tt, ss, a, c).contains(y) == round_reach(t, s, a, c).contains(y) by {
        if round_reach(tt, ss, a, c).contains(y) {
            let p = choose|p: Seq<int>| #[trigger] quiet_path(tt, ss, c, p) && a.contains(p[0]) && p.last() == y;
            assert(quiet_path(t, s, c, p));
        }
        if round_reach(t, s, a, c).contains(y) {
            let p = choose|p: Seq<int>| #[trigger] quiet_path(t, s, c, p) && a.contains(p[0]) && p.last() == y;
            assert(quiet_path(tt, ss, c, p));
        }
    }
    assert(round_reach(tt, ss, a, c) =~= round_reach(t, s, a, c));
}

proof fn lemma_invert_match_from(t: Seq<Transition>, s: Seq<u16>, input: Seq<u8>, x: int, pos: nat, p: nat)
    requires
        nfa_wf(t, s),
    ensures
        match_from(invert_nfa((t, s)).0, invert_nfa((t, s)).1, input, x, pos, p) == reject_from(t, s, input, x, pos, p),
        reject_from(invert_nfa((t, s)).0, invert_nfa((t, s)).1, input, x, pos, p) == match_from(t, s, input, x, pos, p),
    decreases input.len() - pos,
{
    reveal(match_from);
    let (tt, ss) = invert_nfa((t, s));
    if pos < input.len() {
        let c = input[pos as int];
        lemma_invert_targets(t, s);
        lemma_invert_reach(t, s, set![x], c);
        assert forall|y: int| 0 <= y < t.len() implies #[trigger] match_from(tt, ss, input, y, pos + 1, p) == reject_from(
            t,
            s,
            input,
            y,
            pos + 1,
            p,
        ) && reject_from(tt, ss, input, y, pos + 1, p) == match_from(t, s, input, y, pos + 1, p) by {
            lemma_invert_match_from(t, s, input, y, pos + 1, p);
        }
        assert forall|z: int| #[trigger] round_reach(t, s, set![x], c).contains(z) implies 0 <= z < t.len() by {
            lemma_reach_bound(t, s, set![x], c, z);
        }
        assert(swap_fn()(ACCEPTING_STATE) == REJECTING_STATE);
        assert(swap_fn()(REJECTING_STATE) == ACCEPTING_STATE);
        assert forall|y: int| 0 <= y < t.len() implies #[trigger] swap_fn()(y as u16) == y as u16 by {}
        if match_from(tt, ss, input, x, pos, p) {
            let z = choose|z: int|
                #[trigger] round_reach(tt, ss, set![x], c).contains(z) && {
                    ||| (p == pos + 1 && targets(ss, pick(tt[z], c)).contains(ACCEPTING_STATE))
                    ||| exists|y: int|
                        0 <= y < tt.len() && #[trigger] targets(ss, pick(tt[z], c)).contains(y as u16) && tt[y].consume
                            && match_from(tt, ss, input, y, pos + 1, p)
                };
            assert(round_reach(t, s, set![x], c).contains(z));
            if !(p == pos + 1 && targets(ss, pick(tt[z], c)).contains(ACCEPTING_STATE)) {
                let y = choose|y: int|
                    0 <= y < tt.len() && #[trigger] targets(ss, pick(tt[z], c)).contains(y as u16) && tt[y].consume
                        && match_from(tt, ss, input, y, pos + 1, p);
                assert(swap_fn()(y as u16) == y as u16);
                assert(targets(s, pick(t[z], c)).contains(y as u16));
                assert(reject_from(t, s, input, y, pos + 1, p));
            }
            assert(reject_from(t, s, input, x, pos, p));
        }
        if reject_from(t, s, input, x, pos, p) {
            let z = choose|z: int|
                #[trigger] round_reach(t, s, set![x], c).contains(z) && {
                    ||| (p == pos + 1 && targets(s, pick(t[z], c)).contains(REJECTING_STATE))
                    ||| exists|y: int|
                        0 <= y < t.len() && #[trigger] targets(s, pick(t[z], c)).contains(y as u16) && t[y].consume
                            && reject_from(t, s, input, y, pos + 1, p)
                };
            assert(round_reach(tt, ss, set![x], c).contains(z));
            if !(p == pos + 1 && targets(s, pick(t[z], c)).contains(REJECTING_STATE)) {
                let y = choose|y: int|
                    0 <= y < t.len() && #[trigger] targets(s, pick(t[z], c)).contains(y as u16) && t[y].consume
                        && reject_from(t, s, input, y, pos + 1, p);
                assert(swap_fn()(y as u16) == y as u16);
                assert(targets(ss, pick(tt[z], c)).contains(y as u16));
                assert(match_from(tt, ss, input, y, pos + 1, p));
            }
            assert(match_from(tt, ss, input, x, pos, p));
        }
        if reject_from(tt, ss, input, x, pos, p) {
            let z = choose|z: int|
                #[trigger] round_reach(tt, ss, set![x], c).contains(z) && {
                    ||| (p == pos + 1 && targets(ss, pick(tt[z], c)).contains(REJECTING_STATE))
                    ||| exists|y: int|
                        0 <= y < tt.len() && #[trigger] targets(ss, pick(tt[z], c)).contains(y as u16) && tt[y].consume
                            && reject_from(tt, ss, input, y, pos + 1, p)
                };
            assert(round_reach(t, s, set![x], c).contains(z));
            if !(p == pos + 1 && targets(ss, pick(tt[z], c)).contains(REJECTING_STATE)) {
                let y = choose|y: int|
                    0 <= y < tt.len() && #[trigger] targets(ss, pick(tt[z], c)).contains(y as u16) && tt[y].consume
                        && reject_from(tt, ss, input, y, pos + 1, p);
                assert(swap_fn()(y as u16) == y as u16);
                assert(targets(s, pick(t[z], c)).contains(y as u16));
                lemma_invert_match_from(t, s, input, y, pos + 1, p);
                assert(match_from(t, s, input, y, pos + 1, p));
            }
            assert(match_from(t, s, input, x, pos, p));
        }
        if match_from(t, s, input, x, pos, p) {
            let z = choose|z: int|
                #[trigger] round_reach(t, s, set![x], c).contains(z) && {
                    ||| (p == pos + 1 && targets(s, pick(t[z], c)).contains(ACCEPTING_STATE))
                    ||| exists|y: int|
                        0 <= y < t.len() && #[trigger] targets(s, pick(t[z], c)).contains(y as u16) && t[y].consume
                            && match_from(t, s, input, y, pos + 1, p)
                };
            assert(round_reach(tt, ss, set![x], c).contains(z));
            if !(p == pos + 1 && targets(s, pick(t[z], c)).contains(ACCEPTING_STATE)) {
                let y = choose|y: int|
                    0 <= y < t.len() && #[trigger] targets(s, pick(t[z], c)).contains(y as u16) && t[y].consume
                        && match_from(t, s, input, y, pos + 1, p);
                assert(swap_fn()(y as u16) == y as u16);
                assert(targets(ss, pick(tt[z], c)).contains(y as u16));
                lemma_invert_match_from(t, s, input, y, pos + 1, p);
                assert(reject_from(tt, ss, input, y, pos + 1, p));
            }
            assert(reject_from(tt, ss, input, x, pos, p));
        }
    }
}

/// Inversion ([Nfa::invert]) exchanges matching and rejection: the inverted
/// automaton matches after `p` symbols exactly where some run of the
/// automaton reaches rejection after `p` symbols, and reaches rejection
/// exactly where the automaton matches.
pub proof fn lemma_invert_matches(t: Seq<Transition>, s: Seq<u16>, input: Seq<u8>, p: nat)
    requires
        nfa_wf(t, s),
    ensures
        nfa_matches(invert_nfa((t, s)).0, invert_nfa((t, s)).1, input, p) == nfa_rejects(t, s, input, p),
        nfa_rejects(invert_nfa((t, s)).0, invert_nfa((t, s)).1, input, p) == nfa_matches(t, s, input, p),
{
    lemma_invert_match_from(t, s, input, INITIAL_STATE as int, 0, p);
}

} // verus!
