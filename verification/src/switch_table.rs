//! Switch tables: symbol ranges with a target each, and the decision trees
//! of non-reading DFA states built from them.
use crate::dfa::{dfa_end_at, dfa_end_from, dfa_halts_at, dfa_halts_from, lemma_step_equiv, Dfa};
use crate::{is_terminal, pick, Transition, REJECTING_STATE};
use vstd::prelude::*;

verus! {

/// Ranges of input symbols, each with the target that a symbol in it leads to.
pub struct SwitchTable {
    pub ranges: Vec<(u8, u8)>,
    pub targets: Vec<u16>,
}

/// The ranges are non-empty and in increasing order without overlap.
pub open spec fn sorted_ranges(r: Seq<(u8, u8)>) -> bool {
    &&& forall|i: int| 0 <= i < r.len() ==> (#[trigger] r[i]).0 <= r[i].1
    &&& forall|i: int, j: int| 0 <= i < j < r.len() ==> (#[trigger] r[i]).1 < (#[trigger] r[j]).0
}

/// The ranges cover all symbols `0..=255`, one after the other.
pub open spec fn full_ranges(r: Seq<(u8, u8)>) -> bool {
    &&& r.len() >= 1
    &&& sorted_ranges(r)
    &&& r[0].0 == 0
    &&& r[r.len() - 1].1 == 255
    &&& forall|i: int, j: int|
        0 <= i && j == i + 1 && j < r.len() ==> (#[trigger] r[i]).1 + 1 == (#[trigger] r[j]).0
}

/// The table sends symbol `c` to `x`.
pub open spec fn table_has(r: Seq<(u8, u8)>, v: Seq<u16>, c: u8, x: u16) -> bool {
    exists|i: int| 0 <= i < r.len() && (#[trigger] r[i]).0 <= c <= r[i].1 && v[i] == x
}

/// No two neighbouring entries have the same target.
pub open spec fn merged(v: Seq<u16>) -> bool {
    forall|i: int, j: int| 0 <= i && j == i + 1 && j < v.len() ==> #[trigger] v[i] != #[trigger] v[j]
}

/// The number of runs of equal neighbours in a sequence of targets: the
/// length of a table once neighbouring entries with the same target merge.
#[verifier::opaque]
pub open spec fn runs(v: Seq<u16>) -> nat
    decreases v.len(),
{
    if v.len() <= 1 {
        v.len()
    } else {
        runs(v.drop_last()) + if v[v.len() - 1] != v[v.len() - 2] {
            1nat
        } else {
            0nat
        }
    }
}

/// A non-empty sequence has at least one run and no more runs than entries.
pub proof fn lemma_runs_bounds(v: Seq<u16>)
    ensures
        runs(v) <= v.len(),
        v.len() >= 1 ==> runs(v) >= 1,
    decreases v.len(),
{
    reveal(runs);
    if v.len() > 1 {
        lemma_runs_bounds(v.drop_last());
    }
}

/// Without equal neighbours, each entry is a run of its own.
pub proof fn lemma_runs_merged(v: Seq<u16>)
    requires
        merged(v),
    ensures
        runs(v) == v.len(),
    decreases v.len(),
{
    reveal(runs);
    if v.len() > 1 {
        let w = v.drop_last();
        assert forall|i: int, j: int| 0 <= i && j == i + 1 && j < w.len() implies #[trigger] w[i] != #[trigger] w[j] by {
            assert(v[i] != v[j]);
        }
        lemma_runs_merged(w);
        assert(v[v.len() - 2] != v[v.len() - 1]);
    }
}

/// Dropping an entry equal to the one before it keeps the runs.
proof fn lemma_runs_remove(v: Seq<u16>, n: int)
    requires
        0 <= n,
        n + 1 < v.len(),
        v[n] == v[n + 1],
    ensures
        runs(v.remove(n + 1)) == runs(v),
    decreases v.len(),
{
    reveal(runs);
    let w = v.remove(n + 1);
    if n + 2 == v.len() {
        assert(w =~= v.drop_last());
    } else {
        assert(w.drop_last() =~= v.drop_last().remove(n + 1));
        lemma_runs_remove(v.drop_last(), n);
        assert(w[w.len() - 1] == v[v.len() - 1]);
        assert(w[w.len() - 2] == v[v.len() - 2]);
    }
}

/// Every slot of `from..to` that differs from before is filled with a node
/// that does not read, with fitting targets.
pub open spec fn changed_ok(
    before: Seq<Option<Transition>>,
    after: Seq<Option<Transition>>,
    from: int,
    to: int,
    vals: Seq<u16>,
) -> bool {
    forall|k: int|
        from <= k < to && #[trigger] after[k] != before[k] ==> after[k] is Some && !after[k]->Some_0.consume
            && ok_target(
            after[k]->Some_0.inside,
            k,
            to,
            vals,
        ) && ok_target(after[k]->Some_0.outside, k, to, vals)
}

/// Every filled slot of `from..to` has fitting targets, and those inside the
/// block come after it.
pub open spec fn slots_forward(trans: Seq<Option<Transition>>, from: int, to: int, vals: Seq<u16>) -> bool {
    forall|k: int|
        from <= k < to && #[trigger] trans[k] is Some ==> ok_target(trans[k]->Some_0.inside, k, to, vals)
            && ok_target(trans[k]->Some_0.outside, k, to, vals)
}

/// Running a DFA whose states agree with the filled slots through a decision
/// tree: from the tree's node, the run goes on exactly as from where the
/// tree leads, with the symbol the node reads.
pub proof fn lemma_leads_walk(
    d: Seq<Transition>,
    input: Seq<u8>,
    trans: Seq<Option<Transition>>,
    node: int,
    lo: int,
    hi: int,
    c: u8,
    y: u16,
    depth: nat,
    sym: u8,
    pos: nat,
)
    requires
        leads(trans, node, lo, hi, c, y, depth),
        trans.len() == d.len(),
        d.len() <= 0xfffe,
        forall|k: int| 0 <= k < trans.len() && #[trigger] trans[k] is Some ==> d[k] == trans[k]->Some_0,
        hi <= 0xfffe,
        0 <= node < d.len(),
        (d[node].consume && pos < input.len() && input[pos as int] == c) || (!d[node].consume && sym
            == c),
    ensures
        ({
            let p2 = if d[node].consume {
                pos + 1
            } else {
                pos
            };
            &&& dfa_halts_from(d, input, node as u16, sym, pos) <==> dfa_halts_at(d, input, y, c, p2)
            &&& dfa_halts_from(d, input, node as u16, sym, pos) ==> dfa_end_from(
                d,
                input,
                node as u16,
                sym,
                pos,
            ) == dfa_end_at(d, input, y, c, p2)
        }),
    decreases depth,
{
    assert(d[node] == trans[node]->Some_0);
    lemma_step_equiv(d, input, node as u16, sym, pos);
    let n = pick(trans[node]->Some_0, c);
    if lo < n < hi {
        let p2 = if d[node].consume {
            pos + 1
        } else {
            pos
        };
        assert(d[n as int] == trans[n as int]->Some_0);
        lemma_leads_walk(d, input, trans, n as int, lo, hi, c, y, (depth - 1) as nat, c, p2);
    }
}

/// Following decision nodes from `node` on symbol `c`: a picked value strictly
/// between `lo` and `hi` is a further node, which does not read input; any
/// other value is where the tree leads; it leads to `x` within `depth` nodes.
pub open spec fn leads(
    trans: Seq<Option<Transition>>,
    node: int,
    lo: int,
    hi: int,
    c: u8,
    x: u16,
    depth: nat,
) -> bool
    decreases depth,
{
    if depth == 0 || !(0 <= node < trans.len()) || trans[node] is None {
        false
    } else {
        let n = pick(trans[node]->Some_0, c);
        if lo < n < hi {
            &&& 0 <= n < trans.len()
            &&& trans[n as int] is Some
            &&& !trans[n as int]->Some_0.consume
            &&& leads(trans, n as int, lo, hi, c, x, (depth - 1) as nat)
        } else {
            n == x
        }
    }
}

/// A tree that leads somewhere within a narrower span of nodes, where the
/// place it leads to lies outside the wider span, leads there within the
/// wider span too, with any larger depth, and whatever the entries outside
/// the nodes it visits.
pub proof fn lemma_leads_widen(
    t: Seq<Option<Transition>>,
    u: Seq<Option<Transition>>,
    node: int,
    lo1: int,
    hi1: int,
    lo: int,
    hi: int,
    c: u8,
    x: u16,
    d: nat,
    e: nat,
)
    requires
        leads(t, node, lo1, hi1, c, x, d),
        lo <= lo1,
        hi1 <= hi,
        !(lo < x < hi),
        d <= e,
        t.len() == u.len(),
        u[node] is Some,
        pick(u[node]->Some_0, c) == pick(t[node]->Some_0, c),
        forall|k: int| lo1 < k < hi1 ==> #[trigger] u[k] == t[k],
    ensures
        leads(u, node, lo, hi, c, x, e),
    decreases d,
{
    let n = pick(t[node]->Some_0, c);
    if lo1 < n < hi1 {
        assert(u[n as int] == t[n as int]);
        lemma_leads_widen(t, u, n as int, lo1, hi1, lo, hi, c, x, (d - 1) as nat, (e - 1) as nat);
    }
}

impl SwitchTable {
    pub open spec fn wf(&self) -> bool {
        &&& self.ranges@.len() == self.targets@.len()
        &&& self.ranges@.len() >= 1
        &&& sorted_ranges(self.ranges@)
    }
}

/// In a full table, every symbol has exactly one target.
pub proof fn lemma_full_lookup(r: Seq<(u8, u8)>, v: Seq<u16>, c: u8) -> (i: int)
    requires
        full_ranges(r),
    ensures
        0 <= i < r.len(),
        r[i].0 <= c <= r[i].1,
        table_has(r, v, c, v[i]),
        forall|x: u16| table_has(r, v, c, x) ==> x == v[i],
{
    let i = lemma_full_index(r, c, r.len() - 1);
    assert forall|x: u16| table_has(r, v, c, x) implies x == v[i] by {
        let j = choose|j: int| 0 <= j < r.len() && (#[trigger] r[j]).0 <= c <= r[j].1 && v[j] == x;
        if j < i {
            assert(r[j].1 < r[i].0);
        } else if j > i {
            assert(r[i].1 < r[j].0);
        }
    }
    i
}

proof fn lemma_full_index(r: Seq<(u8, u8)>, c: u8, k: int) -> (i: int)
    requires
        full_ranges(r),
        0 <= k < r.len(),
        c <= r[k].1,
    ensures
        0 <= i <= k,
        r[i].0 <= c <= r[i].1,
    decreases k,
{
    if c >= r[k].0 {
        k
    } else {
        assert(r[k - 1].1 + 1 == r[k].0);
        lemma_full_index(r, c, k - 1)
    }
}

/// Sorted ranges of bytes number at most 256; entry `i` starts at `i` or later.
pub proof fn lemma_sorted_len(r: Seq<(u8, u8)>)
    requires
        sorted_ranges(r),
    ensures
        r.len() <= 256,
        forall|i: int| 0 <= i < r.len() ==> (#[trigger] r[i]).0 >= i,
{
    assert forall|i: int| 0 <= i < r.len() implies (#[trigger] r[i]).0 >= i by {
        lemma_sorted_start(r, i);
    }
    if r.len() > 256 {
        assert(r[256].0 >= 256);
    }
}

proof fn lemma_sorted_start(r: Seq<(u8, u8)>, i: int)
    requires
        sorted_ranges(r),
        0 <= i < r.len(),
    ensures
        r[i].0 >= i,
    decreases i,
{
    if i > 0 {
        lemma_sorted_start(r, i - 1);
        assert(r[i - 1].1 < r[i].0);
        assert(r[i - 1].0 <= r[i - 1].1);
    }
}

/// Merging entries `n` and `n + 1` of a full table with the same target.
proof fn lemma_merge_step(pr: Seq<(u8, u8)>, pv: Seq<u16>, n: int, nr: Seq<(u8, u8)>, nv: Seq<u16>)
    requires
        pr.len() == pv.len(),
        full_ranges(pr),
        0 <= n < pr.len() - 1,
        pv[n] == pv[n + 1],
        nr == pr.update(n, (pr[n].0, pr[n + 1].1)).remove(n + 1),
        nv == pv.remove(n + 1),
    ensures
        full_ranges(nr),
        nr.len() == nv.len(),
        nr.len() == pr.len() - 1,
        forall|i: int| 0 <= i <= n ==> #[trigger] nv[i] == pv[i],
        forall|i: int| n < i < nv.len() ==> #[trigger] nv[i] == pv[i + 1],
        forall|c: u8, x: u16| table_has(pr, pv, c, x) ==> table_has(nr, nv, c, x),
{
    assert forall|i: int| 0 <= i < nr.len() implies #[trigger] nr[i] == if i < n {
        pr[i]
    } else if i == n {
        (pr[n].0, pr[n + 1].1)
    } else {
        pr[i + 1]
    } by {}
    assert forall|i: int| 0 <= i < nv.len() implies #[trigger] nv[i] == if i <= n {
        pv[i]
    } else {
        pv[i + 1]
    } by {}
    assert forall|i: int| 0 <= i < nr.len() implies (#[trigger] nr[i]).0 <= nr[i].1 by {
        if i == n {
            assert(pr[n].0 <= pr[n].1 && pr[n].1 < pr[n + 1].0 && pr[n + 1].0 <= pr[n + 1].1);
        } else if i > n {
            assert(pr[i + 1].0 <= pr[i + 1].1);
        } else {
            assert(pr[i].0 <= pr[i].1);
        }
    }
    assert forall|i: int, j: int| 0 <= i < j < nr.len() implies (#[trigger] nr[i]).1 < (
    #[trigger] nr[j]).0 by {
        let pi = if i < n {
            i
        } else {
            i + 1
        };
        let pj = if j <= n {
            j
        } else {
            j + 1
        };
        assert(pr[pi].1 < pr[pj].0);
    }
    assert forall|i: int, j: int| 0 <= i && j == i + 1 && j < nr.len() implies (#[trigger] nr[i]).1 + 1
        == (#[trigger] nr[j]).0 by {
        if i < n {
            assert(pr[i].1 + 1 == pr[i + 1].0);
        } else {
            assert(pr[i + 1].1 + 1 == pr[i + 2].0);
        }
    }
    assert forall|c: u8, x: u16| table_has(pr, pv, c, x) implies table_has(nr, nv, c, x) by {
        let i = choose|i: int| 0 <= i < pr.len() && (#[trigger] pr[i]).0 <= c <= pr[i].1 && pv[i] == x;
        if i < n {
            assert(nr[i] == pr[i]);
        } else if i == n || i == n + 1 {
            assert(nr[n].0 <= c <= nr[n].1);
        } else {
            assert(nr[i - 1] == pr[i]);
        }
    }
}

/// Splitting a full table into a run of entries and the entries around it
/// gives two sorted tables that say what the full one says.
proof fn lemma_split_tables(
    rr: Seq<(u8, u8)>,
    rv: Seq<u16>,
    bs: int,
    be: int,
    ir: Seq<(u8, u8)>,
    iv: Seq<u16>,
    or: Seq<(u8, u8)>,
    ov: Seq<u16>,
)
    requires
        rr.len() == rv.len(),
        full_ranges(rr),
        0 <= bs < be <= rr.len(),
        !(bs == 0 && be == rr.len()),
        ir == rr.subrange(bs, be),
        iv == rv.subrange(bs, be),
        or == rr.subrange(0, bs) + rr.subrange(be, rr.len() as int),
        ov == rv.subrange(0, bs) + rv.subrange(be, rv.len() as int),
    ensures
        sorted_ranges(ir),
        sorted_ranges(or),
        ir.len() == iv.len(),
        or.len() == ov.len(),
        ir.len() >= 1,
        or.len() >= 1,
        ir.len() + or.len() == rr.len(),
        forall|i: int| 0 <= i < iv.len() ==> rv.contains(#[trigger] iv[i]),
        forall|i: int| 0 <= i < ov.len() ==> rv.contains(#[trigger] ov[i]),
{
    assert forall|i: int, j: int| 0 <= i < j < or.len() implies (#[trigger] or[i]).1 < (#[trigger] or[j]).0 by {
        let pi = if i < bs { i } else { i - bs + be };
        let pj = if j < bs { j } else { j - bs + be };
        assert(or[i] == rr[pi]);
        assert(or[j] == rr[pj]);
        assert(rr[pi].1 < rr[pj].0);
    }
    assert forall|i: int| 0 <= i < or.len() implies (#[trigger] or[i]).0 <= or[i].1 by {
        let pi = if i < bs { i } else { i - bs + be };
        assert(or[i] == rr[pi]);
    }
    assert forall|i: int, j: int| 0 <= i < j < ir.len() implies (#[trigger] ir[i]).1 < (#[trigger] ir[j]).0 by {
        assert(ir[i] == rr[i + bs]);
        assert(ir[j] == rr[j + bs]);
    }
    assert forall|i: int| 0 <= i < iv.len() implies rv.contains(#[trigger] iv[i]) by {
        assert(iv[i] == rv[i + bs]);
    }
    assert forall|i: int| 0 <= i < ov.len() implies rv.contains(#[trigger] ov[i]) by {
        let pi = if i < bs { i } else { i - bs + be };
        assert(ov[i] == rv[pi]);
    }
}

/// Lowering the start of a range into a gap, or raising the end of the last
/// range, keeps what the table says of every symbol it covered.
proof fn lemma_widened(o: Seq<(u8, u8)>, r: Seq<(u8, u8)>, v: Seq<u16>)
    requires
        o.len() == r.len(),
        forall|i: int| 0 <= i < o.len() ==> (#[trigger] r[i]).0 <= o[i].0 && o[i].1 <= r[i].1,
    ensures
        forall|c: u8, x: u16| table_has(o, v, c, x) ==> table_has(r, v, c, x),
{
    assert forall|c: u8, x: u16| table_has(o, v, c, x) implies table_has(r, v, c, x) by {
        let i = choose|i: int| 0 <= i < o.len() && (#[trigger] o[i]).0 <= c <= o[i].1 && v[i] == x;
        assert(r[i].0 <= c <= r[i].1);
    }
}

/// Entry `i` of a sorted table is the one that symbol `c` joins when each
/// gap joins the entry above it and the last entry reaches `255`: the first
/// entry that ends at or above `c`, or else the last one.
pub open spec fn entry_above(r: Seq<(u8, u8)>, c: u8, i: int) -> bool {
    &&& 0 <= i < r.len()
    &&& (i == 0 || r[i - 1].1 < c)
    &&& (c <= r[i].1 || i == r.len() - 1)
}

/// After widening with every end kept but the last, each symbol has the
/// target of the entry above it.
proof fn lemma_widened_above(o: Seq<(u8, u8)>, r: Seq<(u8, u8)>, v: Seq<u16>)
    requires
        o.len() == r.len(),
        r.len() == v.len(),
        full_ranges(r),
        forall|i: int| 0 <= i < o.len() - 1 ==> (#[trigger] r[i]).1 == o[i].1,
    ensures
        forall|c: u8, i: int| #[trigger] entry_above(o, c, i) ==> table_has(r, v, c, v[i]),
{
    assert forall|c: u8, i: int| #[trigger] entry_above(o, c, i) implies table_has(r, v, c, v[i]) by {
        if i > 0 {
            assert(r[i - 1].1 + 1 == r[i].0);
            assert(r[i - 1].1 == o[i - 1].1);
        }
        assert(r[i].0 <= c <= r[i].1);
    }
}

/// The number of slots the decision tree of a table with `l` entries takes.
pub open spec fn block_len(l: int) -> int {
    if l >= 2 {
        l - 1
    } else {
        1
    }
}

/// A target value fits a block of slots: a final value, a node strictly
/// inside the block, or one of the table's targets.
pub open spec fn ok_target(v: u16, from: int, to: int, vals: Seq<u16>) -> bool {
    is_terminal(v) || (from < v < to) || vals.contains(v)
}

/// Every filled slot of `from..to` has fitting targets.
pub open spec fn slots_ok(trans: Seq<Option<Transition>>, from: int, to: int, vals: Seq<u16>) -> bool {
    forall|k: int|
        from <= k < to && #[trigger] trans[k] is Some ==> ok_target(
            trans[k]->Some_0.inside,
            from,
            to,
            vals,
        ) && ok_target(trans[k]->Some_0.outside, from, to, vals)
}

proof fn lemma_changed_combine(
    u: Seq<Option<Transition>>,
    t0: Seq<Option<Transition>>,
    t1: Seq<Option<Transition>>,
    t2: Seq<Option<Transition>>,
    t: Transition,
    start: int,
    l: int,
    ni: int,
    kx: int,
    in_res: Option<u16>,
    out_res: Option<u16>,
    ov: Seq<u16>,
    iv: Seq<u16>,
    xv: Seq<u16>,
)
    requires
        ni >= 1,
        kx >= 1,
        ni + kx <= l,
        0 <= start,
        start + l - 1 <= u.len(),
        u.len() == t0.len(),
        u.len() == t1.len(),
        u.len() == t2.len(),
        u[start] == Some(t),
        !t.consume,
        forall|k: int| 0 <= k < u.len() && k != start ==> #[trigger] u[k] == t2[k],
        t.inside == match in_res {
            Some(x) => x,
            None => (start + 1) as u16,
        },
        t.outside == match out_res {
            Some(x) => x,
            None => (start + ni) as u16,
        },
        start + l <= 0xffff,
        in_res is Some ==> iv.contains(in_res->Some_0),
        out_res is Some ==> xv.contains(out_res->Some_0),
        in_res is None ==> ni >= 2,
        out_res is None ==> kx >= 2,
        forall|i: int| 0 <= i < iv.len() ==> ov.contains(#[trigger] iv[i]),
        forall|i: int| 0 <= i < xv.len() ==> ov.contains(#[trigger] xv[i]),
        changed_ok(t0, t1, start + 1, start + ni, iv),
        changed_ok(t1, t2, start + ni, start + ni + kx - 1, xv),
        forall|k: int| 0 <= k < u.len() && !(start + 1 <= k < start + ni) ==> #[trigger] t1[k] == t0[k],
        forall|k: int| 0 <= k < u.len() && !(start + ni <= k < start + ni + kx - 1) ==> #[trigger] t2[k] == t1[k],
    ensures
        changed_ok(t0, u, start, start + l - 1, ov),
{
    assert forall|k: int| start <= k < start + l - 1 && #[trigger] u[k] != t0[k] implies u[k] is Some
        && !u[k]->Some_0.consume && ok_target(
        u[k]->Some_0.inside,
        k,
        start + l - 1,
        ov,
    ) && ok_target(u[k]->Some_0.outside, k, start + l - 1, ov) by {
        if k == start {
            if in_res is Some {
                let j = choose|j: int| 0 <= j < iv.len() && iv[j] == in_res->Some_0;
                assert(ov.contains(iv[j]));
            }
            if out_res is Some {
                let j = choose|j: int| 0 <= j < xv.len() && xv[j] == out_res->Some_0;
                assert(ov.contains(xv[j]));
            }
        } else if k < start + ni {
            assert(u[k] == t2[k]);
            assert(t2[k] == t1[k]);
            assert(t1[k] != t0[k]);
            let v1 = t1[k]->Some_0.inside;
            let v2 = t1[k]->Some_0.outside;
            if iv.contains(v1) {
                let j = choose|j: int| 0 <= j < iv.len() && iv[j] == v1;
                assert(ov.contains(iv[j]));
            }
            if iv.contains(v2) {
                let j = choose|j: int| 0 <= j < iv.len() && iv[j] == v2;
                assert(ov.contains(iv[j]));
            }
        } else if k < start + ni + kx - 1 {
            assert(u[k] == t2[k]);
            assert(t1[k] == t0[k]);
            assert(t2[k] != t1[k]);
            let v1 = t2[k]->Some_0.inside;
            let v2 = t2[k]->Some_0.outside;
            if xv.contains(v1) {
                let j = choose|j: int| 0 <= j < xv.len() && xv[j] == v1;
                assert(ov.contains(xv[j]));
            }
            if xv.contains(v2) {
                let j = choose|j: int| 0 <= j < xv.len() && xv[j] == v2;
                assert(ov.contains(xv[j]));
            }
        } else {
            assert(u[k] == t2[k]);
            assert(t2[k] == t1[k]);
            assert(t1[k] == t0[k]);
        }
    }
}

/// The node built at `start` leads every symbol of the table to its target.
proof fn lemma_node_leads(
    u: Seq<Option<Transition>>,
    t1: Seq<Option<Transition>>,
    t2: Seq<Option<Transition>>,
    t: Transition,
    start: int,
    or: Seq<(u8, u8)>,
    ov: Seq<u16>,
    rr: Seq<(u8, u8)>,
    rv: Seq<u16>,
    bs: int,
    be: int,
    ir: Seq<(u8, u8)>,
    iv: Seq<u16>,
    xr: Seq<(u8, u8)>,
    xv: Seq<u16>,
    in_res: Option<u16>,
    out_res: Option<u16>,
    kx: int,
)
    requires
        1 <= kx <= xr.len(),
        rr.len() == rv.len(),
        full_ranges(rr),
        0 <= bs < be <= rr.len(),
        rr.len() <= or.len(),
        ir == rr.subrange(bs, be),
        iv == rv.subrange(bs, be),
        xr == rr.subrange(0, bs) + rr.subrange(be, rr.len() as int),
        xv == rv.subrange(0, bs) + rv.subrange(be, rv.len() as int),
        ir.len() + xr.len() == rr.len(),
        0 <= start < u.len(),
        u.len() == t1.len(),
        u.len() == t2.len(),
        u[start] == Some(t),
        t.min == rr[bs].0,
        t.max == rr[be - 1].1,
        t.inside == match in_res {
            Some(x) => x,
            None => (start + 1) as u16,
        },
        t.outside == match out_res {
            Some(x) => x,
            None => (start + ir.len()) as u16,
        },
        start + rr.len() <= 0xffff,
        forall|c: u8, y: u16| table_has(or, ov, c, y) ==> table_has(rr, rv, c, y),
        forall|i: int| 0 <= i < rv.len() ==> ov.contains(#[trigger] rv[i]),
        forall|i: int| 0 <= i < ov.len() ==> !(start < #[trigger] ov[i] < start + or.len() - 1),
        match in_res {
            Some(x) => forall|c: u8, y: u16| table_has(ir, iv, c, y) ==> y == x,
            None => forall|c: u8, y: u16|
                table_has(ir, iv, c, y) ==> leads(
                    t1,
                    start + 1,
                    start + 1,
                    start + ir.len(),
                    c,
                    y,
                    ir.len() as nat,
                ),
        },
        in_res is None ==> ir.len() >= 2 && t1[start + 1] is Some && !t1[start + 1]->Some_0.consume,
        ir.len() >= 1,
        xr.len() >= 1,
        match out_res {
            Some(x) => forall|c: u8, y: u16| table_has(xr, xv, c, y) ==> y == x,
            None => forall|c: u8, y: u16|
                table_has(xr, xv, c, y) ==> leads(
                    t2,
                    start + ir.len(),
                    start + ir.len(),
                    start + ir.len() + kx - 1,
                    c,
                    y,
                    kx as nat,
                ),
        },
        out_res is None ==> kx >= 2 && t2[start + ir.len()] is Some && !t2[start + ir.len()]->Some_0.consume,
        forall|k: int| start + 1 <= k < start + ir.len() ==> #[trigger] u[k] == t1[k],
        forall|k: int| start + ir.len() <= k < start + rr.len() - 1 ==> #[trigger] u[k] == t2[k],
    ensures
        forall|c: u8, y: u16|
            table_has(or, ov, c, y) ==> leads(
                u,
                start,
                start,
                start + or.len() - 1,
                c,
                y,
                or.len() as nat,
            ),
{
    assert forall|c: u8, y: u16| table_has(or, ov, c, y) implies leads(
        u,
        start,
        start,
        start + or.len() - 1,
        c,
        y,
        or.len() as nat,
    ) by {
        assert(table_has(rr, rv, c, y));
        let i = choose|i: int| 0 <= i < rr.len() && (#[trigger] rr[i]).0 <= c <= rr[i].1 && rv[i] == y;
        assert(ov.contains(rv[i]));
        if bs <= i < be {
            assert(rr[bs].0 <= rr[i].0) by {
                if bs < i {
                    assert(rr[bs].1 < rr[i].0);
                    assert(rr[bs].0 <= rr[bs].1);
                }
            }
            assert(rr[i].1 <= rr[be - 1].1) by {
                if i < be - 1 {
                    assert(rr[i].1 < rr[be - 1].0);
                    assert(rr[be - 1].0 <= rr[be - 1].1);
                }
            }
            assert(ir[i - bs] == rr[i]);
            assert(iv[i - bs] == rv[i]);
            assert(table_has(ir, iv, c, y));
            assert(pick(t, c) == t.inside);
            if in_res is None {
                lemma_leads_widen(
                    t1,
                    u,
                    start + 1,
                    start + 1,
                    start + ir.len(),
                    start,
                    start + or.len() - 1,
                    c,
                    y,
                    ir.len() as nat,
                    (or.len() - 1) as nat,
                );
            }
        } else {
            if i < bs {
                assert(rr[i].1 < rr[bs].0);
                assert(xr[i] == rr[i]);
                assert(xv[i] == rv[i]);
                assert(table_has(xr, xv, c, y));
            } else {
                assert(rr[be - 1].1 < rr[i].0);
                assert(xr[i - be + bs] == rr[i]);
                assert(xv[i - be + bs] == rv[i]);
                assert(table_has(xr, xv, c, y));
            }
            assert(pick(t, c) == t.outside);
            if out_res is None {
                lemma_leads_widen(
                    t2,
                    u,
                    start + ir.len(),
                    start + ir.len(),
                    start + ir.len() + kx - 1,
                    start,
                    start + or.len() - 1,
                    c,
                    y,
                    kx as nat,
                    (or.len() - 1) as nat,
                );
            }
        }
    }
}

impl SwitchTable {
    /// Widens the ranges of a sorted table so that they cover all symbols.
    fn fill_gaps(&mut self)
        requires
            old(self).wf(),
        ensures
            final(self).wf(),
            full_ranges(final(self).ranges@),
            final(self).targets@ == old(self).targets@,
            final(self).ranges@.len() == old(self).ranges@.len(),
            forall|i: int|
                0 <= i < old(self).ranges@.len() ==> (#[trigger] final(self).ranges@[i]).0 <= old(
                    self,
                ).ranges@[i].0 && old(self).ranges@[i].1 <= final(self).ranges@[i].1,
            forall|i: int|
                0 <= i < old(self).ranges@.len() - 1 ==> (#[trigger] final(self).ranges@[i]).1 == old(
                    self,
                ).ranges@[i].1,
    {
        let ghost o = self.ranges@;
        let len = self.ranges.len();
        proof {
            lemma_sorted_len(o);
        }
        let mut n: usize = 0;
        while n <= len
            invariant
                len == o.len(),
                len <= 256,
                len >= 1,
                self.ranges@.len() == len,
                self.targets@ == old(self).targets@,
                o == old(self).ranges@,
                sorted_ranges(o),
                n <= len + 1,
                forall|i: int| n <= i < len ==> #[trigger] self.ranges@[i] == o[i],
                forall|i: int|
                    0 <= i < len && i < n ==> (#[trigger] self.ranges@[i]).0 <= o[i].0 && o[i].1
                        <= self.ranges@[i].1,
                forall|i: int| 0 <= i < len - 1 && i < n ==> (#[trigger] self.ranges@[i]).1 == o[i].1,
                n >= 1 ==> self.ranges@[0].0 == 0,
                forall|h: int, i: int|
                    0 <= h && i == h + 1 && i < len && i < n ==> (#[trigger] self.ranges@[i]).0
                        == (#[trigger] self.ranges@[h]).1 + 1,
                n > len ==> self.ranges@[len - 1].1 == 255,
            decreases len + 1 - n,
        {
            let below: u8;
            if n == 0 {
                below = 0;
            } else {
                let e = self.ranges[n - 1].1;
                if e == 255 {
                    proof {
                        if n < len {
                            assert(o[n - 1].1 < o[n as int].0);
                        }
                    }
                    n = n + 1;
                    continue;
                }
                below = e + 1;
            }
            let above: u8;
            if n == len {
                above = 255;
            } else {
                let s = self.ranges[n].0;
                if s == 0 {
                    proof {
                        if n > 0 {
                            assert(o[n - 1].1 < o[n as int].0);
                        }
                    }
                    n = n + 1;
                    continue;
                }
                above = s - 1;
            }
            if below <= above {
                if n == len {
                    let first = self.ranges[n - 1].0;
                    self.ranges.set(n - 1, (first, 255));
                } else {
                    let last = self.ranges[n].1;
                    self.ranges.set(n, (below, last));
                }
            } else {
                proof {
                    if n > 0 && n < len {
                        assert(o[n - 1].1 < o[n as int].0);
                    }
                }
            }
            n = n + 1;
        }
        proof {
            assert forall|i: int| 0 <= i < len implies (#[trigger] self.ranges@[i]).0 <= self.ranges@[i].1 by {
                assert(o[i].0 <= o[i].1);
            }
            assert forall|i: int, j: int| 0 <= i < j < len implies (#[trigger] self.ranges@[i]).1 < (
            #[trigger] self.ranges@[j]).0 by {
                assert(self.ranges@[j].0 == self.ranges@[j - 1].1 + 1);
                if j > i + 1 {
                    assert(o[i].1 < o[j - 1].0);
                    assert(o[j - 1].0 <= o[j - 1].1);
                }
            }
        }
    }

    /// Merges neighbouring entries of a full table that have the same target.
    fn merge_equal(&mut self)
        requires
            old(self).wf(),
            full_ranges(old(self).ranges@),
        ensures
            final(self).wf(),
            full_ranges(final(self).ranges@),
            merged(final(self).targets@),
            final(self).ranges@.len() <= old(self).ranges@.len(),
            final(self).targets@.len() == runs(old(self).targets@),
            forall|c: u8, x: u16| table_has(old(self).ranges@, old(self).targets@, c, x) ==> table_has(final(self).ranges@, final(self).targets@, c, x),
            forall|i: int|
                0 <= i < final(self).targets@.len() ==> old(self).targets@.contains(
                    #[trigger] final(self).targets@[i],
                ),
    {
        let mut n: usize = 0;
        while n < self.ranges.len() - 1
            invariant
                self.ranges@.len() == self.targets@.len(),
                self.ranges@.len() >= 1,
                self.ranges@.len() <= old(self).ranges@.len(),
                full_ranges(self.ranges@),
                runs(self.targets@) == runs(old(self).targets@),
                n < self.ranges@.len(),
                forall|i: int, j: int|
                    0 <= i && j == i + 1 && j <= n ==> #[trigger] self.targets@[i] != #[trigger] self.targets@[j],
                forall|c: u8, x: u16| table_has(old(self).ranges@, old(self).targets@, c, x) ==> table_has(self.ranges@, self.targets@, c, x),
                forall|i: int|
                    0 <= i < self.targets@.len() ==> old(self).targets@.contains(
                        #[trigger] self.targets@[i],
                    ),
            decreases self.ranges@.len() - n,
        {
            if self.targets[n] == self.targets[n + 1] {
                let ghost pr = self.ranges@;
                let ghost pv = self.targets@;
                let first = self.ranges[n].0;
                let last = self.ranges[n + 1].1;
                self.ranges.set(n, (first, last));
                self.ranges.remove(n + 1);
                self.targets.remove(n + 1);
                proof {
                    lemma_merge_step(pr, pv, n as int, self.ranges@, self.targets@);
                    lemma_runs_remove(pv, n as int);
                    assert forall|i: int| 0 <= i < self.targets@.len() implies old(self).targets@.contains(
                        #[trigger] self.targets@[i],
                    ) by {
                        if i <= n {
                            assert(self.targets@[i] == pv[i]);
                        } else {
                            assert(self.targets@[i] == pv[i + 1]);
                        }
                    }
                }
            } else {
                n = n + 1;
            }
        }
        proof {
            assert(merged(self.targets@));
            lemma_runs_merged(self.targets@);
        }
    }
}

impl Dfa {
    /// Builds the decision tree of a table into the slots from `start` on: a
    /// node at `start` and its subtrees after it, within as many slots as
    /// the table has entries once neighbours with the same target merge,
    /// less one.  A table with a single target after merging needs no node:
    /// its target is returned instead, and no slot changes.
    #[verifier::rlimit(40)]
    pub(crate) fn from_nfa_build_transitions_rec(
        trans: &mut Vec<Option<Transition>>,
        start: u16,
        r: SwitchTable,
    ) -> (res: Option<u16>)
        requires
            r.wf(),
            start + runs(r.targets@) - 1 <= old(trans)@.len(),
            start + runs(r.targets@) <= 0xffff,
            forall|i: int|
                0 <= i < r.targets@.len() ==> !(start < #[trigger] r.targets@[i] < start
                    + runs(r.targets@) - 1),
        ensures
            final(trans)@.len() == old(trans)@.len(),
            forall|k: int|
                0 <= k < old(trans)@.len() && !(start <= k < start + runs(r.targets@) - 1)
                    ==> #[trigger] final(trans)@[k] == old(trans)@[k],
            changed_ok(old(trans)@, final(trans)@, start as int, start + runs(r.targets@) - 1, r.targets@),
            res is Some <==> runs(r.targets@) == 1,
            match res {
                Some(x) => {
                    &&& final(trans)@ == old(trans)@
                    &&& r.targets@.contains(x)
                    &&& forall|c: u8, y: u16| table_has(r.ranges@, r.targets@, c, y) ==> y == x
                },
                None => {
                    &&& final(trans)@[start as int] is Some
                    &&& !final(trans)@[start as int]->Some_0.consume
                    &&& forall|k: int|
                        start <= k < start + runs(r.targets@) - 1 && #[trigger] final(trans)@[k] != old(trans)@[k]
                            ==> !final(trans)@[k]->Some_0.consume
                    &&& forall|c: u8, y: u16|
                        table_has(r.ranges@, r.targets@, c, y) ==> leads(
                            final(trans)@,
                            start as int,
                            start as int,
                            start + runs(r.targets@) - 1,
                            c,
                            y,
                            runs(r.targets@),
                        )
                },
            },
        decreases r.ranges@.len(),
    {
        let ghost orig = r;
        let mut r = r;
        Self::process_switch_table(&mut r);
        let l = r.ranges.len();
        if l == 1 {
            proof {
                assert forall|c: u8, y: u16| table_has(orig.ranges@, orig.targets@, c, y) implies y == r.targets@[0] by {
                    assert(table_has(r.ranges@, r.targets@, c, y));
                    let i = choose|i: int| 0 <= i < r.ranges@.len() && (#[trigger] r.ranges@[i]).0 <= c <= r.ranges@[i].1 && r.targets@[i] == y;
                }
                assert(orig.targets@.contains(r.targets@[0]));
            }
            return Some(r.targets[0]);
        }
        // try to find a range that leaves the same item on both sides
        let mut bs: usize = 0;
        let mut be: usize = l;
        let hi_end = if l / 2 + 1 < l - 1 {
            l / 2 + 1
        } else {
            l - 1
        };
        let mut end = l / 2;
        while end <= hi_end
            invariant
                l >= 2,
                l == r.ranges@.len(),
                l == r.targets@.len(),
                hi_end <= l - 1,
                (bs == 0 && be == l) || (bs == 1 && 1 < be <= l - 1),
            decreases hi_end + 1 - end,
        {
            if r.targets[0] == r.targets[end] && end > 1 {
                bs = 1;
                be = end;
            }
            end = end + 1;
        }
        // otherwise just choose anything
        if bs == 0 && be == l {
            be = l / 2;
        }
        // create switch tables
        let mut inside = SwitchTable { ranges: Vec::new(), targets: Vec::new() };
        let mut outside = SwitchTable { ranges: Vec::new(), targets: Vec::new() };
        let mut n: usize = 0;
        while n < l
            invariant
                l == r.ranges@.len(),
                l == r.targets@.len(),
                0 <= bs < be <= l,
                n <= l,
                inside.ranges@.len() == inside.targets@.len(),
                outside.ranges@.len() == outside.targets@.len(),
                inside.ranges@ == r.ranges@.subrange(bs as int, if n < bs { bs as int } else if n < be { n as int } else { be as int }),
                inside.targets@ == r.targets@.subrange(bs as int, if n < bs { bs as int } else if n < be { n as int } else { be as int }),
                outside.ranges@ == r.ranges@.subrange(0, if n < bs { n as int } else { bs as int }) + r.ranges@.subrange(be as int, if n < be { be as int } else { n as int }),
                outside.targets@ == r.targets@.subrange(0, if n < bs { n as int } else { bs as int }) + r.targets@.subrange(be as int, if n < be { be as int } else { n as int }),
            decreases l - n,
        {
            if bs <= n && n < be {
                inside.ranges.push(r.ranges[n]);
                inside.targets.push(r.targets[n]);
            } else {
                outside.ranges.push(r.ranges[n]);
                outside.targets.push(r.targets[n]);
            }
            proof {
                assert(inside.ranges@ =~= r.ranges@.subrange(bs as int, if n + 1 < bs { bs as int } else if n + 1 < be { n + 1 } else { be as int }));
                assert(inside.targets@ =~= r.targets@.subrange(bs as int, if n + 1 < bs { bs as int } else if n + 1 < be { n + 1 } else { be as int }));
                assert(outside.ranges@ =~= r.ranges@.subrange(0, if n + 1 < bs { n + 1 } else { bs as int }) + r.ranges@.subrange(be as int, if n + 1 < be { be as int } else { n + 1 }));
                assert(outside.targets@ =~= r.targets@.subrange(0, if n + 1 < bs { n + 1 } else { bs as int }) + r.targets@.subrange(be as int, if n + 1 < be { be as int } else { n + 1 }));
            }
            n = n + 1;
        }
        let ghost rr = r.ranges@;
        let ghost rv = r.targets@;
        proof {
            lemma_split_tables(rr, rv, bs as int, be as int, inside.ranges@, inside.targets@, outside.ranges@, outside.targets@);
        }
        // estimate starting positions
        let inside_len = inside.ranges.len();
        let inside_pos = start + 1;
        let outside_pos = start + inside_len as u16;
        // create transition
        let min = r.ranges[bs].0;
        let max = r.ranges[be - 1].1;
        let ghost t0 = trans@;
        let ghost gin = inside;
        let ghost gout = outside;
        let ghost kx = runs(gout.targets@);
        proof {
            lemma_runs_bounds(gout.targets@);
            lemma_runs_bounds(orig.targets@);
            assert forall|i: int, j: int| 0 <= i && j == i + 1 && j < gin.targets@.len() implies #[trigger] gin.targets@[i]
                != #[trigger] gin.targets@[j] by {
                assert(gin.targets@[i] == rv[bs + i] && gin.targets@[j] == rv[bs + j]);
            }
            lemma_runs_merged(gin.targets@);
        }
        let in_res = Self::from_nfa_build_transitions_rec(trans, inside_pos, inside);
        let ghost t1 = trans@;
        let out_res = Self::from_nfa_build_transitions_rec(trans, outside_pos, outside);
        let ghost t2 = trans@;
        let t = Transition {
            min,
            max,
            inside: match in_res {
                Some(x) => x,
                None => inside_pos,
            },
            outside: match out_res {
                Some(x) => x,
                None => outside_pos,
            },
            consume: false,
        };
        trans.set(start as usize, Some(t));
        proof {
            assert forall|c: u8, y: u16| table_has(orig.ranges@, orig.targets@, c, y) implies table_has(rr, rv, c, y) by {
                assert(table_has(orig.ranges@, orig.targets@, c, y));
                assert(table_has(r.ranges@, r.targets@, c, y));
            }
            lemma_node_leads(
                trans@, t1, t2, t, start as int, rr, rv, rr, rv, bs as int, be as int,
                gin.ranges@, gin.targets@, gout.ranges@, gout.targets@, in_res, out_res, kx as int,
            );
            lemma_changed_combine(
                trans@, t0, t1, t2, t, start as int, l as int, gin.ranges@.len() as int,
                kx as int, in_res, out_res, orig.targets@, gin.targets@, gout.targets@,
            );
        }
        None
    }

    /// Builds the decision tree of a table with its root at `start`; the
    /// root reads the next symbol, the nodes below it do not.
    pub(crate) fn from_nfa_build_transitions(trans: &mut Vec<Option<Transition>>, start: u16, r: SwitchTable)
        requires
            r.wf(),
            start + block_len(r.ranges@.len() as int) <= old(trans)@.len(),
            start + r.ranges@.len() <= 0xffff,
            forall|i: int|
                0 <= i < r.targets@.len() ==> !(start < #[trigger] r.targets@[i] < start
                    + r.ranges@.len() - 1),
            forall|k: int|
                start <= k < start + block_len(r.ranges@.len() as int) ==> #[trigger] old(trans)@[k] is None,
        ensures
            final(trans)@.len() == old(trans)@.len(),
            forall|k: int|
                0 <= k < old(trans)@.len() && !(start <= k < start + block_len(r.ranges@.len() as int))
                    ==> #[trigger] final(trans)@[k] == old(trans)@[k],
            slots_ok(final(trans)@, start as int, start + block_len(r.ranges@.len() as int), r.targets@),
            slots_forward(final(trans)@, start as int, start + block_len(r.ranges@.len() as int), r.targets@),
            final(trans)@[start as int] is Some,
            final(trans)@[start as int]->Some_0.consume,
            forall|c: u8, y: u16|
                table_has(r.ranges@, r.targets@, c, y) ==> leads(
                    final(trans)@,
                    start as int,
                    start as int,
                    start + r.ranges@.len() - 1,
                    c,
                    y,
                    r.ranges@.len() as nat,
                ),
    {
        let ghost gr = r;
        let ghost t0 = trans@;
        let ghost k = runs(r.targets@);
        let ghost bl = block_len(r.ranges@.len() as int);
        proof {
            lemma_runs_bounds(r.targets@);
        }
        match Self::from_nfa_build_transitions_rec(trans, start, r) {
            Some(x) => {
                trans.set(
                    start as usize,
                    Some(
                        Transition {
                            min: 0,
                            max: 255,
                            inside: x,
                            outside: REJECTING_STATE,
                            consume: true,
                        },
                    ),
                );
                proof {
                    assert forall|c: u8, y: u16| table_has(gr.ranges@, gr.targets@, c, y) implies leads(
                        trans@,
                        start as int,
                        start as int,
                        start + gr.ranges@.len() - 1,
                        c,
                        y,
                        gr.ranges@.len() as nat,
                    ) by {
                        let i = choose|i: int| 0 <= i < gr.ranges@.len() && (#[trigger] gr.ranges@[i]).0 <= c <= gr.ranges@[i].1 && gr.targets@[i] == y;
                        assert(gr.targets@.contains(x));
                        let j = choose|j: int| 0 <= j < gr.targets@.len() && gr.targets@[j] == x;
                        assert(!(start < gr.targets@[j] < start + gr.ranges@.len() - 1));
                    }
                    assert forall|q: int| start <= q < start + bl && #[trigger] trans@[q] is Some implies ok_target(
                        trans@[q]->Some_0.inside,
                        q,
                        start + bl,
                        gr.targets@,
                    ) && ok_target(trans@[q]->Some_0.outside, q, start + bl, gr.targets@) by {
                        if q != start {
                            assert(trans@[q] == t0[q]);
                        }
                    }
                }
            },
            None => {
                let ghost t1 = trans@;
                let mut node = trans[start as usize].unwrap();
                node.consume = true;
                trans.set(start as usize, Some(node));
                proof {
                    assert forall|c: u8, y: u16| table_has(gr.ranges@, gr.targets@, c, y) implies leads(
                        trans@,
                        start as int,
                        start as int,
                        start + gr.ranges@.len() - 1,
                        c,
                        y,
                        gr.ranges@.len() as nat,
                    ) by {
                        let i = choose|i: int| 0 <= i < gr.ranges@.len() && (#[trigger] gr.ranges@[i]).0 <= c <= gr.ranges@[i].1 && gr.targets@[i] == y;
                        assert(!(start < gr.targets@[i] < start + gr.ranges@.len() - 1));
                        lemma_leads_widen(
                            t1,
                            trans@,
                            start as int,
                            start as int,
                            start + k - 1,
                            start as int,
                            start + gr.ranges@.len() - 1,
                            c,
                            y,
                            k,
                            gr.ranges@.len() as nat,
                        );
                    }
                    assert forall|q: int| start <= q < start + bl && #[trigger] trans@[q] is Some implies ok_target(
                        trans@[q]->Some_0.inside,
                        q,
                        start + bl,
                        gr.targets@,
                    ) && ok_target(trans@[q]->Some_0.outside, q, start + bl, gr.targets@) by {
                        if q != start {
                            assert(trans@[q] == t1[q]);
                        }
                        if t1[q] != t0[q] {
                            assert(ok_target(t1[q]->Some_0.inside, q, start + k - 1, gr.targets@));
                            assert(ok_target(t1[q]->Some_0.outside, q, start + k - 1, gr.targets@));
                        } else {
                            assert(t0[q] is None);
                        }
                    }
                }
            },
        }
    }

    /// Widens the ranges of a sorted table so that they cover all symbols,
    /// and merges neighbouring entries that have the same target.
    pub(crate) fn process_switch_table(r: &mut SwitchTable)
        requires
            old(r).wf(),
        ensures
            final(r).wf(),
            full_ranges(final(r).ranges@),
            merged(final(r).targets@),
            final(r).ranges@.len() <= old(r).ranges@.len(),
            final(r).targets@.len() == runs(old(r).targets@),
            forall|c: u8, i: int|
                #[trigger] entry_above(old(r).ranges@, c, i) ==> table_has(
                    final(r).ranges@,
                    final(r).targets@,
                    c,
                    old(r).targets@[i],
                ),
            forall|c: u8, x: u16| table_has(old(r).ranges@, old(r).targets@, c, x) ==> table_has(final(r).ranges@, final(r).targets@, c, x),
            forall|i: int|
                0 <= i < final(r).targets@.len() ==> old(r).targets@.contains(
                    #[trigger] final(r).targets@[i],
                ),
    {
        let ghost o = *r;
        r.fill_gaps();
        proof {
            lemma_widened(o.ranges@, r.ranges@, r.targets@);
            lemma_widened_above(o.ranges@, r.ranges@, r.targets@);
        }
        r.merge_equal();
    }
}

/// The rule put into slots that no decision tree uses: it rejects without reading.
pub open spec fn unused_rule() -> Transition {
    Transition { min: 0, max: 255, inside: REJECTING_STATE, outside: REJECTING_STATE, consume: false }
}

/// The transitions of the built slots, with the unused rule in empty ones.
pub open spec fn filled(trans: Seq<Option<Transition>>) -> Seq<Transition> {
    Seq::new(
        trans.len(),
        |k: int|
            match trans[k] {
                Some(t) => t,
                None => unused_rule(),
            },
    )
}

pub(crate) fn fill_unused(trans: Vec<Option<Transition>>) -> (r: Vec<Transition>)
    ensures
        r@ == filled(trans@),
{
    let mut r: Vec<Transition> = Vec::new();
    let mut k: usize = 0;
    while k < trans.len()
        invariant
            k <= trans@.len(),
            r@ == filled(trans@).take(k as int),
        decreases trans@.len() - k,
    {
        let t = match trans[k] {
            Some(t) => t,
            None => Transition {
                min: 0,
                max: 255,
                inside: REJECTING_STATE,
                outside: REJECTING_STATE,
                consume: false,
            },
        };
        r.push(t);
        k = k + 1;
        proof {
            assert(r@ =~= filled(trans@).take(k as int));
        }
    }
    proof {
        assert(r@ =~= filled(trans@));
    }
    r
}

/// A block of empty slots.
pub(crate) fn empty_slots(n: usize) -> (r: Vec<Option<Transition>>)
    ensures
        r@.len() == n,
        forall|k: int| 0 <= k < n ==> #[trigger] r@[k] is None,
{
    let mut r: Vec<Option<Transition>> = Vec::new();
    while r.len() < n
        invariant
            r@.len() <= n,
            forall|k: int| 0 <= k < r@.len() ==> #[trigger] r@[k] is None,
        decreases n - r@.len(),
    {
        r.push(None);
    }
    r
}

/// Entry `i` of the ranges covers symbol `c`.
pub open spec fn covers(r: Seq<(u8, u8)>, i: int, c: u8) -> bool {
    0 <= i < r.len() && r[i].0 <= c <= r[i].1
}

/// What a table filled with a default sends symbol `c` to: the target of
/// the range that covers it, or the default.
pub open spec fn fill_value(r: Seq<(u8, u8)>, v: Seq<u16>, def: u16, c: u8) -> u16 {
    if exists|i: int| #[trigger] covers(r, i, c) {
        v[choose|i: int| #[trigger] covers(r, i, c)]
    } else {
        def
    }
}

/// A symbol covered by entry `i` of a sorted table has that entry's target.
pub(crate) proof fn lemma_fill_value(r: Seq<(u8, u8)>, v: Seq<u16>, def: u16, c: u8, i: int)
    requires
        sorted_ranges(r),
        covers(r, i, c),
    ensures
        fill_value(r, v, def, c) == v[i],
{
    let j = choose|j: int| #[trigger] covers(r, j, c);
    if j < i {
        assert(r[j].1 < r[i].0);
    } else if j > i {
        assert(r[i].1 < r[j].0);
    }
}

/// `(g, x)` is one of the entries of the table `(o, ov)`.
pub open spec fn old_entry(o: Seq<(u8, u8)>, ov: Seq<u16>, g: (u8, u8), x: u16) -> bool {
    exists|i: int| 0 <= i < o.len() && #[trigger] o[i] == g && ov[i] == x
}

/// The table `(r, v)` holds every entry of `(o, ov)`, and each of its other
/// entries has the default target and, unless it is the last, comes just
/// before one of those of `(o, ov)`: one entry per gap.
pub open spec fn gaps_filled(r: Seq<(u8, u8)>, v: Seq<u16>, o: Seq<(u8, u8)>, ov: Seq<u16>, def: u16) -> bool {
    &&& forall|i: int| #![trigger o[i]] 0 <= i < o.len() ==> exists|j: int| 0 <= j < r.len() && #[trigger] r[j] == o[i] && v[j] == ov[i]
    &&& forall|j: int|
        0 <= j < r.len() && !old_entry(o, ov, #[trigger] r[j], v[j]) ==> v[j] == def && (j + 1 < r.len()
            ==> old_entry(o, ov, r[j + 1], v[j + 1]))
}

impl Dfa {
    /// Fills the gaps of a sorted table with entries for the default target,
    /// one for each maximal gap, so that it covers all symbols.
    pub(crate) fn fill_switch_table(r: &mut SwitchTable, def: u16)
        requires
            sorted_ranges(old(r).ranges@),
            old(r).ranges@.len() == old(r).targets@.len(),
        ensures
            final(r).wf(),
            full_ranges(final(r).ranges@),
            gaps_filled(final(r).ranges@, final(r).targets@, old(r).ranges@, old(r).targets@, def),
            forall|c: u8|
                table_has(
                    final(r).ranges@,
                    final(r).targets@,
                    c,
                    #[trigger] fill_value(old(r).ranges@, old(r).targets@, def, c),
                ),
            forall|i: int|
                0 <= i < final(r).targets@.len() ==> #[trigger] final(r).targets@[i] == def || old(
                    r,
                ).targets@.contains(final(r).targets@[i]),
    {
        let ghost o = r.ranges@;
        let ghost ov = r.targets@;
        proof {
            lemma_sorted_len(o);
        }
        let len = r.ranges.len();
        let mut out = SwitchTable { ranges: Vec::new(), targets: Vec::new() };
        let mut last_start: u16 = 0;
        let mut n: usize = 0;
        while n < len
            invariant
                len == o.len(),
                len == ov.len(),
                o == r.ranges@,
                ov == r.targets@,
                sorted_ranges(o),
                n <= len,
                out.ranges@.len() == out.targets@.len(),
                last_start <= 256,
                n > 0 ==> last_start == o[n - 1].1 + 1,
                n == 0 ==> last_start == 0,
                out.ranges@.len() == 0 <==> last_start == 0,
                out.ranges@.len() > 0 ==> out.ranges@[0].0 == 0 && out.ranges@[out.ranges@.len()
                    - 1].1 + 1 == last_start,
                forall|i: int| 0 <= i < out.ranges@.len() ==> (#[trigger] out.ranges@[i]).0 <= out.ranges@[i].1,
                forall|i: int, j: int|
                    0 <= i && j == i + 1 && j < out.ranges@.len() ==> (#[trigger] out.ranges@[i]).1 + 1
                        == (#[trigger] out.ranges@[j]).0,
                forall|c: u8| (c as int) < last_start ==> table_has(out.ranges@, out.targets@, c, #[trigger] fill_value(o, ov, def, c)),
                forall|i: int|
                    0 <= i < out.targets@.len() ==> #[trigger] out.targets@[i] == def || ov.contains(out.targets@[i]),
                forall|i: int|
                    #![trigger o[i]]
                    0 <= i < n ==> exists|j: int|
                        0 <= j < out.ranges@.len() && #[trigger] out.ranges@[j] == o[i] && out.targets@[j] == ov[i],
                forall|j: int|
                    0 <= j < out.ranges@.len() && !old_entry(o, ov, #[trigger] out.ranges@[j], out.targets@[j])
                        ==> out.targets@[j] == def && (j + 1 < out.ranges@.len() ==> old_entry(
                        o,
                        ov,
                        out.ranges@[j + 1],
                        out.targets@[j + 1],
                    )),
                out.ranges@.len() > 0 ==> n > 0 && out.ranges@.last() == o[n - 1] && out.targets@.last() == ov[n
                    - 1],
            decreases len - n,
        {
            let (s0, e0) = r.ranges[n];
            let ghost before = out;
            if s0 as u16 > last_start {
                out.ranges.push((last_start as u8, s0 - 1));
                out.targets.push(def);
                proof {
                    lemma_push_gap(before.ranges@, before.targets@, out.ranges@, out.targets@, o, ov, def, n as int);
                    assert forall|c: u8| (c as int) < s0 implies table_has(out.ranges@, out.targets@, c, #[trigger] fill_value(o, ov, def, c)) by {
                        if (c as int) < last_start {
                            let i = choose|i: int| 0 <= i < before.ranges@.len() && (#[trigger] before.ranges@[i]).0 <= c <= before.ranges@[i].1 && before.targets@[i] == fill_value(o, ov, def, c);
                            assert(out.ranges@[i] == before.ranges@[i]);
                        } else {
                            assert forall|i: int| !#[trigger] covers(o, i, c) by {
                                if covers(o, i, c) {
                                    if i < n {
                                        assert(o[i].1 <= o[n - 1].1) by {
                                            if i < n - 1 {
                                                assert(o[i].1 < o[n - 1].0);
                                            }
                                        }
                                    } else if i > n {
                                        assert(o[n as int].1 < o[i].0);
                                    }
                                }
                            }
                            let k = out.ranges@.len() - 1;
                            assert(out.ranges@[k].0 <= c <= out.ranges@[k].1);
                        }
                    }
                }
            }
            let ghost mid = out;
            out.ranges.push((s0, e0));
            out.targets.push(r.targets[n]);
            proof {
                lemma_push_entry(mid.ranges@, mid.targets@, out.ranges@, out.targets@, o, ov, def, n as int);
                assert(ov.contains(ov[n as int]));
                assert forall|c: u8| (c as int) < e0 + 1 implies table_has(out.ranges@, out.targets@, c, #[trigger] fill_value(o, ov, def, c)) by {
                    if (c as int) < s0 {
                        let i = choose|i: int| 0 <= i < mid.ranges@.len() && (#[trigger] mid.ranges@[i]).0 <= c <= mid.ranges@[i].1 && mid.targets@[i] == fill_value(o, ov, def, c);
                        assert(out.ranges@[i] == mid.ranges@[i]);
                    } else {
                        assert(covers(o, n as int, c));
                        lemma_fill_value(o, ov, def, c, n as int);
                        let k = out.ranges@.len() - 1;
                        assert(out.ranges@[k].0 <= c <= out.ranges@[k].1);
                    }
                }
                if n > 0 {
                    assert(o[n - 1].1 < o[n as int].0);
                }
            }
            last_start = e0 as u16 + 1;
            n = n + 1;
        }
        if last_start <= 255 {
            let ghost before = out;
            out.ranges.push((last_start as u8, 255));
            out.targets.push(def);
            proof {
                lemma_push_gap(before.ranges@, before.targets@, out.ranges@, out.targets@, o, ov, def, len as int);
                assert forall|c: u8| table_has(out.ranges@, out.targets@, c, #[trigger] fill_value(o, ov, def, c)) by {
                    if (c as int) < last_start {
                        let i = choose|i: int| 0 <= i < before.ranges@.len() && (#[trigger] before.ranges@[i]).0 <= c <= before.ranges@[i].1 && before.targets@[i] == fill_value(o, ov, def, c);
                        assert(out.ranges@[i] == before.ranges@[i]);
                    } else {
                        assert forall|i: int| !#[trigger] covers(o, i, c) by {
                            if covers(o, i, c) {
                                assert(o[i].1 <= o[len - 1].1) by {
                                    if i < len - 1 {
                                        assert(o[i].1 < o[len - 1].0);
                                    }
                                }
                            }
                        }
                        let k = out.ranges@.len() - 1;
                        assert(out.ranges@[k].0 <= c <= out.ranges@[k].1);
                    }
                }
            }
        }
        proof {
            let rr = out.ranges@;
            assert forall|i: int, j: int| 0 <= i < j < rr.len() implies (#[trigger] rr[i]).1 < (#[trigger] rr[j]).0 by {
                lemma_contiguous_order(rr, i, j);
            }
        }
        *r = out;
    }
}

/// Pushing a default entry after an entry of the old table, or onto an
/// empty table, keeps the gaps filled one entry each.
proof fn lemma_push_gap(
    br: Seq<(u8, u8)>,
    bv: Seq<u16>,
    r: Seq<(u8, u8)>,
    v: Seq<u16>,
    o: Seq<(u8, u8)>,
    ov: Seq<u16>,
    def: u16,
    n: int,
)
    requires
        br.len() == bv.len(),
        0 <= n <= o.len(),
        o.len() == ov.len(),
        r == br.push(r.last()),
        v == bv.push(def),
        forall|i: int| #![trigger o[i]] 0 <= i < n ==> exists|j: int| 0 <= j < br.len() && #[trigger] br[j] == o[i] && bv[j] == ov[i],
        forall|j: int|
            0 <= j < br.len() && !old_entry(o, ov, #[trigger] br[j], bv[j]) ==> bv[j] == def && (j + 1 < br.len()
                ==> old_entry(o, ov, br[j + 1], bv[j + 1])),
        br.len() > 0 ==> n > 0 && br.last() == o[n - 1] && bv.last() == ov[n - 1],
    ensures
        forall|i: int| #![trigger o[i]] 0 <= i < n ==> exists|j: int| 0 <= j < r.len() && #[trigger] r[j] == o[i] && v[j] == ov[i],
        forall|j: int|
            0 <= j < r.len() && !old_entry(o, ov, #[trigger] r[j], v[j]) ==> v[j] == def && (j + 1 < r.len()
                ==> old_entry(o, ov, r[j + 1], v[j + 1])),
{
    assert forall|i: int| #![trigger o[i]] 0 <= i < n implies exists|j: int| 0 <= j < r.len() && #[trigger] r[j] == o[i] && v[j] == ov[i] by {
        let j = choose|j: int| 0 <= j < br.len() && #[trigger] br[j] == o[i] && bv[j] == ov[i];
        assert(r[j] == br[j] && v[j] == bv[j]);
    }
    assert forall|j: int|
        0 <= j < r.len() && !old_entry(o, ov, #[trigger] r[j], v[j]) implies v[j] == def && (j + 1 < r.len()
            ==> old_entry(o, ov, r[j + 1], v[j + 1])) by {
        if j < br.len() {
            assert(r[j] == br[j] && v[j] == bv[j]);
            if j + 1 == br.len() {
                assert(o[n - 1] == br[j] && ov[n - 1] == bv[j]);
                assert(old_entry(o, ov, br[j], bv[j]));
            } else {
                assert(r[j + 1] == br[j + 1] && v[j + 1] == bv[j + 1]);
            }
        }
    }
}

/// Pushing entry `n` of the old table keeps the gaps filled one entry each.
proof fn lemma_push_entry(
    br: Seq<(u8, u8)>,
    bv: Seq<u16>,
    r: Seq<(u8, u8)>,
    v: Seq<u16>,
    o: Seq<(u8, u8)>,
    ov: Seq<u16>,
    def: u16,
    n: int,
)
    requires
        br.len() == bv.len(),
        0 <= n < o.len(),
        o.len() == ov.len(),
        r == br.push(o[n]),
        v == bv.push(ov[n]),
        forall|i: int| #![trigger o[i]] 0 <= i < n ==> exists|j: int| 0 <= j < br.len() && #[trigger] br[j] == o[i] && bv[j] == ov[i],
        forall|j: int|
            0 <= j < br.len() && !old_entry(o, ov, #[trigger] br[j], bv[j]) ==> bv[j] == def && (j + 1 < br.len()
                ==> old_entry(o, ov, br[j + 1], bv[j + 1])),
    ensures
        forall|i: int| #![trigger o[i]] 0 <= i < n + 1 ==> exists|j: int| 0 <= j < r.len() && #[trigger] r[j] == o[i] && v[j] == ov[i],
        forall|j: int|
            0 <= j < r.len() && !old_entry(o, ov, #[trigger] r[j], v[j]) ==> v[j] == def && (j + 1 < r.len()
                ==> old_entry(o, ov, r[j + 1], v[j + 1])),
        r.last() == o[n],
        v.last() == ov[n],
{
    let k = br.len() as int;
    assert(r[k] == o[n] && v[k] == ov[n]);
    assert(old_entry(o, ov, r[k], v[k]));
    assert forall|i: int| #![trigger o[i]] 0 <= i < n + 1 implies exists|j: int| 0 <= j < r.len() && #[trigger] r[j] == o[i] && v[j] == ov[i] by {
        if i < n {
            let j = choose|j: int| 0 <= j < br.len() && #[trigger] br[j] == o[i] && bv[j] == ov[i];
            assert(r[j] == br[j] && v[j] == bv[j]);
        } else {
            assert(r[k] == o[i] && v[k] == ov[i]);
        }
    }
    assert forall|j: int|
        0 <= j < r.len() && !old_entry(o, ov, #[trigger] r[j], v[j]) implies v[j] == def && (j + 1 < r.len()
            ==> old_entry(o, ov, r[j + 1], v[j + 1])) by {
        if j < k {
            assert(r[j] == br[j] && v[j] == bv[j]);
            if j + 1 < k {
                assert(r[j + 1] == br[j + 1] && v[j + 1] == bv[j + 1]);
            }
        }
    }
}

/// In contiguous ranges, an earlier range ends before a later one starts.
proof fn lemma_contiguous_order(r: Seq<(u8, u8)>, i: int, j: int)
    requires
        forall|k: int| 0 <= k < r.len() ==> (#[trigger] r[k]).0 <= r[k].1,
        forall|a: int, b: int| 0 <= a && b == a + 1 && b < r.len() ==> (#[trigger] r[a]).1 + 1 == (#[trigger] r[b]).0,
        0 <= i < j < r.len(),
    ensures
        r[i].1 < r[j].0,
    decreases j - i,
{
    assert(r[j - 1].1 + 1 == r[j].0);
    if i < j - 1 {
        lemma_contiguous_order(r, i, j - 1);
        assert(r[j - 1].0 <= r[j - 1].1);
    }
}

} // verus!
