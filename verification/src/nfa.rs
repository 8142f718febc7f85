use crate::dfa::{
    dfa_end, dfa_end_at, dfa_end_from, dfa_halts, dfa_halts_at, dfa_halts_from, dfa_walk, dfa_wf, lemma_end_is_walk,
    lemma_step_equiv, range_table, valid_target, Dfa, RunEnd,
};
use crate::bitset::BitSet;
use crate::{is_terminal, pick, Transition, ACCEPTING_STATE, INITIAL_STATE, REJECTING_STATE};
use vstd::set_lib::{lemma_int_range, lemma_len_subset, set_int_range};
use vstd::std_specs::iter::IteratorSpec;
use std::ops::RangeInclusive;
use try_index::TryIndex;
use vstd::prelude::*;

verus! {

/// `core::slice::from_mut` of std: its documentation says that it turns a
/// mutable reference into a slice of length one without copying, so the
/// slice's one element is the referenced value.
pub assume_specification<T>[ core::slice::from_mut::<T> ](s: &mut T) -> (r: &mut [T])
    ensures
        r@ == seq![*old(s)],
        final(r)@.len() == 1,
        *final(s) == final(r)@[0],
;

/// A nondeterministic finite-state automaton.
///
/// A raw next-state value below `0x8000` names one state; a value from
/// `0x8000` up to the two final values names a list in `states`: the entry
/// at `value - 0x8000` is the list's length, the entries after it are the
/// next states, tried in order.
///
/// ## Constructing
/// - [Nfa::from_range]: NFA that matches a single symbol in a range.
/// - [Nfa::append]: NFA that matches concatenation.
/// - [Nfa::combine]: NFA that matches either of two.
/// - [Nfa::invert]: NFA that matches the reverse.
/// - [Nfa::switch]: applies either NFA depending on match status.
/// - [Nfa::from_dfa]: converts a DFA into a NFA.
///
/// ## Matching
/// - [Nfa::run]: typical matching.
/// - [Nfa::run_shortest]: gives shortest possible match.
#[derive(Clone)]
pub struct Nfa {
    /// One transition rule per state; targets are states or list references.
    pub transitions: Vec<Transition>,
    /// The lists of next states, each preceded by its length.
    pub states: Vec<u16>,
}

/// A raw target that refers to a list in the states table.
pub open spec fn is_list(r: u16) -> bool {
    !is_terminal(r) && r >= 0x8000
}

/// Where the list that a raw target refers to starts (its length entry).
pub open spec fn list_at(r: u16) -> int {
    r - 0x8000
}

/// The inside (`side`) or outside (`!side`) target of a transition.
pub open spec fn field(tr: Transition, side: bool) -> u16 {
    if side {
        tr.inside
    } else {
        tr.outside
    }
}

/// The next states that a raw target stands for.
pub open spec fn targets(s: Seq<u16>, r: u16) -> Seq<u16> {
    if is_list(r) {
        s.subrange(list_at(r) + 1, list_at(r) + 1 + s[list_at(r)])
    } else {
        seq![r]
    }
}

/// A raw target is usable in an automaton of `len` states with states
/// table `s`: a final value, a state, or a non-empty list of such.
pub open spec fn valid_raw(len: nat, s: Seq<u16>, r: u16) -> bool {
    if is_terminal(r) {
        true
    } else if r < 0x8000 {
        (r as nat) < len
    } else {
        &&& list_at(r) < s.len()
        &&& s[list_at(r)] >= 1
        &&& list_at(r) + s[list_at(r)] < s.len()
        &&& forall|k: int|
            list_at(r) < k <= list_at(r) + s[list_at(r)] ==> is_terminal(#[trigger] s[k]) || (
            s[k] as nat) < len
    }
}

/// A raw target can be looked up in the states table: unless it refers to
/// a list, always; a list when its length entry and its entries lie inside
/// the table.
pub open spec fn readable_raw(s: Seq<u16>, r: u16) -> bool {
    is_list(r) ==> list_at(r) < s.len() && list_at(r) + s[list_at(r)] < s.len()
}

/// The last entry of the list that a raw list target refers to.
pub open spec fn list_end(s: Seq<u16>, r: u16) -> int {
    list_at(r) + s[list_at(r)]
}

/// The raw target of field number `q`: the inside target of transition
/// `q / 2` for even `q`, its outside target for odd `q`.
pub open spec fn field_at(t: Seq<Transition>, q: int) -> u16 {
    field(t[q / 2], q % 2 == 0)
}

/// Entry `k` of the states table is a next state of the list of field `q`.
pub open spec fn list_holds(t: Seq<Transition>, s: Seq<u16>, q: int, k: int) -> bool {
    &&& 0 <= q < 2 * t.len()
    &&& is_list(field_at(t, q))
    &&& list_at(field_at(t, q)) < k <= list_end(s, field_at(t, q))
}

/// Entry `k` is a next state of some list among the first `n` fields.
pub open spec fn listed_upto(t: Seq<Transition>, s: Seq<u16>, n: int, k: int) -> bool {
    exists|q: int| 0 <= q < n && #[trigger] list_holds(t, s, q, k)
}

/// The lists that the fields refer to lie within the states table, are not
/// empty, and the lists of different fields lie apart from each other.
pub open spec fn lists_ok(t: Seq<Transition>, s: Seq<u16>) -> bool {
    &&& forall|q: int|
        0 <= q < 2 * t.len() && is_list(#[trigger] field_at(t, q)) ==> {
            &&& list_at(field_at(t, q)) < s.len()
            &&& s[list_at(field_at(t, q))] >= 1
            &&& list_end(s, field_at(t, q)) < s.len()
        }
    &&& forall|q1: int, q2: int|
        0 <= q1 < 2 * t.len() && 0 <= q2 < 2 * t.len() && q1 != q2 && is_list(
            #[trigger] field_at(t, q1),
        ) && is_list(#[trigger] field_at(t, q2)) ==> list_end(s, field_at(t, q1)) < list_at(
            field_at(t, q2),
        ) || list_end(s, field_at(t, q2)) < list_at(field_at(t, q1))
}

/// Well-formedness of a nondeterministic automaton: at least one state,
/// fewer than `0x8000` states, every target usable, and the lists of
/// different fields lying apart from each other.
pub open spec fn nfa_wf(t: Seq<Transition>, s: Seq<u16>) -> bool {
    &&& 1 <= t.len() < 0x8000
    &&& s.len() < 0x7ffe
    &&& forall|q: int| 0 <= q < 2 * t.len() ==> valid_raw(t.len(), s, #[trigger] field_at(t, q))
    &&& lists_ok(t, s)
}

/// The automaton with every state value, in transitions and in lists,
/// passed through `f`; list references and entries outside lists stay.
pub open spec fn map_states(t: Seq<Transition>, s: Seq<u16>, f: spec_fn(u16) -> u16) -> (
    Seq<Transition>,
    Seq<u16>,
) {
    (
        Seq::new(
            t.len(),
            |i: int|
                Transition {
                    inside: if is_list(t[i].inside) {
                        t[i].inside
                    } else {
                        f(t[i].inside)
                    },
                    outside: if is_list(t[i].outside) {
                        t[i].outside
                    } else {
                        f(t[i].outside)
                    },
                    ..t[i]
                },
        ),
        Seq::new(
            s.len(),
            |k: int|
                if listed_upto(t, s, 2 * t.len() as int, k) {
                    f(s[k])
                } else {
                    s[k]
                },
        ),
    )
}

/// The transitions with every list reference moved by `offset`.
pub open spec fn shift_lists(t: Seq<Transition>, offset: u16) -> Seq<Transition> {
    Seq::new(
        t.len(),
        |i: int|
            Transition {
                inside: if is_list(t[i].inside) {
                    (t[i].inside + offset) as u16
                } else {
                    t[i].inside
                },
                outside: if is_list(t[i].outside) {
                    (t[i].outside + offset) as u16
                } else {
                    t[i].outside
                },
                ..t[i]
            },
    )
}

/// A raw target of a component as it stands in a composite: list references
/// move by `so`, everything else goes through `f`.
pub open spec fn lift(r: u16, f: spec_fn(u16) -> u16, so: int) -> u16 {
    if is_list(r) {
        (r + so) as u16
    } else {
        f(r)
    }
}

/// A component after relabeling with `f` and moving its lists by `so`.
pub open spec fn placed(t: Seq<Transition>, s: Seq<u16>, f: spec_fn(u16) -> u16, so: u16) -> (
    Seq<Transition>,
    Seq<u16>,
) {
    (shift_lists(map_states(t, s, f).0, so), map_states(t, s, f).1)
}

/// The table with its first state made to reuse the symbol read last.
pub open spec fn quiet_first(t: Seq<Transition>) -> Seq<Transition> {
    t.update(0, Transition { consume: false, ..t[0] })
}

/// The single state that reads (or, unless `consume`, reuses) a symbol and
/// goes on to the list at the start of the states table.
pub open spec fn fork_state(consume: bool) -> Transition {
    Transition { min: 0, max: 255, inside: 0x8000, outside: 0, consume }
}

/// The automaton for the concatenation of `a` and `b`.
pub open spec fn append_nfa(a: (Seq<Transition>, Seq<u16>), b: (Seq<Transition>, Seq<u16>)) -> (
    Seq<Transition>,
    Seq<u16>,
) {
    let pa = map_states(a.0, a.1, crate::dfa::replace_fn(ACCEPTING_STATE, a.0.len() as u16));
    let pb = placed(b.0, b.1, crate::dfa::rebase_fn(a.0.len() as u16), a.1.len() as u16);
    (pa.0 + pb.0, pa.1 + pb.1)
}

/// Whether the combination of `a` and `b` reads its first symbol at its
/// fork: exactly when both initial states read.
pub open spec fn combine_reads(a: (Seq<Transition>, Seq<u16>), b: (Seq<Transition>, Seq<u16>)) -> bool {
    a.0[0].consume && b.0[0].consume
}

/// The table with its first state made to reuse the symbol read last when
/// `q` holds, and as it is otherwise.
pub open spec fn quiet_if(t: Seq<Transition>, q: bool) -> Seq<Transition> {
    if q {
        quiet_first(t)
    } else {
        t
    }
}

/// The last symbol, from `c` on, for which a state goes to the same side
/// as for `c`: the symbol just below its range where `c` is below it, the
/// end of its range where `c` is in it, and `255` where `c` is above it.
pub open spec fn same_side_up_to(tr: Transition, c: u8) -> u8 {
    if c < tr.min {
        (tr.min - 1) as u8
    } else if c > tr.max {
        255
    } else {
        tr.max
    }
}

/// The automaton that matches either `a` or, failing that, `b`.  Where both
/// initial states read, the fork reads the first symbol and hands it on to
/// them, which then do not read; otherwise the fork reads nothing and both
/// stay as they are.
pub open spec fn combine_nfa(a: (Seq<Transition>, Seq<u16>), b: (Seq<Transition>, Seq<u16>)) -> (
    Seq<Transition>,
    Seq<u16>,
) {
    let q = combine_reads(a, b);
    let pa = placed(quiet_if(a.0, q), a.1, crate::dfa::rebase_fn(1), 3);
    let pb = placed(
        quiet_if(b.0, q),
        b.1,
        crate::dfa::rebase_fn((a.0.len() + 1) as u16),
        (a.1.len() + 3) as u16,
    );
    (
        seq![fork_state(q)] + pa.0 + pb.0,
        seq![2u16, 1u16, (a.0.len() + 1) as u16] + pa.1 + pb.1,
    )
}

/// The automaton with opposite matching behavior.
pub open spec fn invert_nfa(a: (Seq<Transition>, Seq<u16>)) -> (Seq<Transition>, Seq<u16>) {
    map_states(a.0, a.1, crate::dfa::swap_fn())
}

/// The automaton that matches `a` zero or more times; greedy tries one more
/// time first, lazy tries to stop first.
pub open spec fn repeat_nfa(a: (Seq<Transition>, Seq<u16>), greedy: bool) -> (
    Seq<Transition>,
    Seq<u16>,
) {
    let m = map_states(a.0, a.1, crate::dfa::rebase_fn(1));
    let pa = placed(m.0, m.1, crate::dfa::replace_fn(ACCEPTING_STATE, 0), 3);
    (
        seq![fork_state(false)] + pa.0,
        (if greedy {
            seq![2u16, 1u16, ACCEPTING_STATE]
        } else {
            seq![2u16, ACCEPTING_STATE, 1u16]
        }) + pa.1,
    )
}

/// The automaton that runs `a`, then `b` where it accepts or `c` where it
/// rejects, both starting on the symbol that `a` read last.
pub open spec fn switch_nfa(
    a: (Seq<Transition>, Seq<u16>),
    b: (Seq<Transition>, Seq<u16>),
    c: (Seq<Transition>, Seq<u16>),
) -> (Seq<Transition>, Seq<u16>) {
    let m = map_states(a.0, a.1, crate::dfa::replace_fn(ACCEPTING_STATE, a.0.len() as u16));
    let pa = map_states(
        m.0,
        m.1,
        crate::dfa::replace_fn(REJECTING_STATE, (a.0.len() + b.0.len()) as u16),
    );
    let pb = placed(quiet_first(b.0), b.1, crate::dfa::rebase_fn(a.0.len() as u16), a.1.len() as u16);
    let pc = placed(
        quiet_first(c.0),
        c.1,
        crate::dfa::rebase_fn((a.0.len() + b.0.len()) as u16),
        (a.1.len() + b.1.len()) as u16,
    );
    (pa.0 + pb.0 + pc.0, pa.1 + pb.1 + pc.1)
}

/// A component sits in a composite at transition offset `o` and states
/// offset `so`, relabeled with `f`, which keeps usable targets usable.
pub open spec fn part_ok(
    tt: Seq<Transition>,
    ss: Seq<u16>,
    t: Seq<Transition>,
    s: Seq<u16>,
    o: int,
    so: int,
    f: spec_fn(u16) -> u16,
) -> bool {
    &&& nfa_wf(t, s)
    &&& 0 <= o
    &&& 0 <= so
    &&& o + t.len() <= tt.len()
    &&& tt.len() < 0x8000
    &&& so + s.len() <= ss.len()
    &&& 0x8000 + so + s.len() < 0xfffe
    &&& forall|i: int|
        0 <= i < t.len() ==> (#[trigger] tt[o + i]).inside == lift(t[i].inside, f, so)
            && tt[o + i].outside == lift(t[i].outside, f, so)
    &&& forall|k: int|
        0 <= k < s.len() ==> #[trigger] ss[so + k] == if listed_upto(t, s, 2 * t.len() as int, k) {
            f(s[k])
        } else {
            s[k]
        }
    &&& forall|r: u16|
        (is_terminal(r) || (r as int) < t.len()) ==> is_terminal(#[trigger] f(r)) || (f(r) as int)
            < tt.len()
}

/// How a state value is changed by one of the relabelings the constructors use.
pub enum Relabel {
    /// Shift states by an offset, leaving the final values alone.
    Rebase(u16),
    /// Replace one value by another.
    Replace(u16, u16),
    /// Exchange accepting and rejecting.
    Swap,
}

/// The relabeling as a function on state values.
pub open spec fn relabel_fn(k: Relabel) -> spec_fn(u16) -> u16 {
    match k {
        Relabel::Rebase(offset) => crate::dfa::rebase_fn(offset),
        Relabel::Replace(from, to) => crate::dfa::replace_fn(from, to),
        Relabel::Swap => crate::dfa::swap_fn(),
    }
}

/// The relabeling does not overflow on the given value.
pub open spec fn relabel_ok(k: Relabel, v: u16) -> bool {
    match k {
        Relabel::Rebase(offset) => is_terminal(v) || v + offset < 0xfffe,
        _ => true,
    }
}

fn relabel(k: &Relabel, v: u16) -> (r: u16)
    requires
        relabel_ok(*k, v),
    ensures
        r == relabel_fn(*k)(v),
{
    match k {
        Relabel::Rebase(offset) => {
            if v < 0xfffe {
                v + *offset
            } else {
                v
            }
        },
        Relabel::Replace(from, to) => {
            if v == *from {
                *to
            } else {
                v
            }
        },
        Relabel::Swap => {
            if v == ACCEPTING_STATE {
                REJECTING_STATE
            } else if v == REJECTING_STATE {
                ACCEPTING_STATE
            } else {
                v
            }
        },
    }
}

/// A header entry of a list is never a next state of any list.
pub(crate) proof fn lemma_header_not_listed(t: Seq<Transition>, s: Seq<u16>, q: int)
    requires
        lists_ok(t, s),
        0 <= q < 2 * t.len(),
        is_list(field_at(t, q)),
    ensures
        !listed_upto(t, s, 2 * t.len() as int, list_at(field_at(t, q))),
{
    if listed_upto(t, s, 2 * t.len() as int, list_at(field_at(t, q))) {
        let q2 = choose|q2: int| 0 <= q2 < 2 * t.len() && #[trigger] list_holds(t, s, q2, list_at(field_at(t, q)));
        assert(list_holds(t, s, q2, list_at(field_at(t, q))));
    }
}

/// The fields of a placed component are usable in the composite, its lists
/// lie inside its region of the states table and apart from each other.
pub(crate) proof fn lemma_part_fields(
    tt: Seq<Transition>,
    ss: Seq<u16>,
    t: Seq<Transition>,
    s: Seq<u16>,
    o: int,
    so: int,
    f: spec_fn(u16) -> u16,
)
    requires
        part_ok(tt, ss, t, s, o, so, f),
    ensures
        forall|q: int|
            2 * o <= q < 2 * (o + t.len()) ==> {
                &&& valid_raw(tt.len(), ss, #[trigger] field_at(tt, q))
                &&& is_list(field_at(tt, q)) ==> so <= list_at(field_at(tt, q)) && list_end(
                    ss,
                    field_at(tt, q),
                ) < so + s.len()
            },
        forall|q1: int, q2: int|
            2 * o <= q1 < 2 * (o + t.len()) && 2 * o <= q2 < 2 * (o + t.len()) && q1 != q2
                && is_list(#[trigger] field_at(tt, q1)) && is_list(#[trigger] field_at(tt, q2))
                ==> list_end(ss, field_at(tt, q1)) < list_at(field_at(tt, q2)) || list_end(
                ss,
                field_at(tt, q2),
            ) < list_at(field_at(tt, q1)),
{
    assert forall|q: int| 2 * o <= q < 2 * (o + t.len()) implies field_at(tt, q) == lift(
        field_at(t, q - 2 * o),
        f,
        so,
    ) by {
        let i = q / 2 - o;
        assert(tt[o + i].inside == lift(t[i].inside, f, so));
        assert((q - 2 * o) / 2 == i);
    }
    assert forall|q: int| 2 * o <= q < 2 * (o + t.len()) implies {
        &&& valid_raw(tt.len(), ss, #[trigger] field_at(tt, q))
        &&& is_list(field_at(tt, q)) ==> so <= list_at(field_at(tt, q)) && list_end(
            ss,
            field_at(tt, q),
        ) < so + s.len()
    } by {
        let q0 = q - 2 * o;
        let r = field_at(t, q0);
        assert(valid_raw(t.len(), s, r));
        if is_list(r) {
            let rr = field_at(tt, q);
            assert(rr == (r + so) as u16);
            assert(list_at(rr) == so + list_at(r));
            lemma_header_not_listed(t, s, q0);
            assert(ss[so + list_at(r)] == s[list_at(r)]);
            assert forall|k: int| list_at(rr) < k <= list_at(rr) + ss[list_at(rr)] implies is_terminal(
                #[trigger] ss[k],
            ) || (ss[k] as nat) < tt.len() by {
                let k0 = k - so;
                assert(list_holds(t, s, q0, k0));
                assert(listed_upto(t, s, 2 * t.len() as int, k0));
                assert(ss[so + k0] == f(s[k0]));
            }
        } else {
            assert(is_terminal(r) || (r as int) < t.len());
            assert(field_at(tt, q) == f(r));
        }
    }
    assert forall|q1: int, q2: int|
        2 * o <= q1 < 2 * (o + t.len()) && 2 * o <= q2 < 2 * (o + t.len()) && q1 != q2 && is_list(
            #[trigger] field_at(tt, q1),
        ) && is_list(#[trigger] field_at(tt, q2)) implies list_end(ss, field_at(tt, q1)) < list_at(
        field_at(tt, q2),
    ) || list_end(ss, field_at(tt, q2)) < list_at(field_at(tt, q1)) by {
        let r1 = field_at(t, q1 - 2 * o);
        let r2 = field_at(t, q2 - 2 * o);
        assert(valid_raw(t.len(), s, r1));
        assert(valid_raw(t.len(), s, r2));
        if !is_list(r1) {
            assert(is_terminal(r1) || (r1 as int) < t.len());
        }
        if !is_list(r2) {
            assert(is_terminal(r2) || (r2 as int) < t.len());
        }
        lemma_header_not_listed(t, s, q1 - 2 * o);
        lemma_header_not_listed(t, s, q2 - 2 * o);
        assert(is_list(r1) && is_list(r2));
        assert(ss[so + list_at(r1)] == s[list_at(r1)]);
        assert(ss[so + list_at(r2)] == s[list_at(r2)]);
    }
}

/// Relabeling twice is relabeling once with the composed function.
proof fn lemma_map_twice(t: Seq<Transition>, s: Seq<u16>, f: spec_fn(u16) -> u16, g: spec_fn(u16) -> u16)
    requires
        nfa_wf(t, s),
        forall|q: int|
            0 <= q < 2 * t.len() && !is_list(#[trigger] field_at(t, q)) ==> !is_list(
                f(field_at(t, q)),
            ),
    ensures
        map_states(map_states(t, s, f).0, map_states(t, s, f).1, g) == map_states(
            t,
            s,
            |r: u16| g(f(r)),
        ),
{
    let m = map_states(t, s, f);
    assert forall|k: int| 0 <= k < s.len() implies #[trigger] listed_upto(m.0, m.1, 2 * t.len() as int, k)
        == listed_upto(t, s, 2 * t.len() as int, k) by {
        assert forall|q: int| 0 <= q < 2 * t.len() implies #[trigger] field_at(m.0, q) == field_at(t, q)
            || (!is_list(field_at(t, q)) && !is_list(field_at(m.0, q))) by {}
        assert forall|q: int| 0 <= q < 2 * t.len() && is_list(field_at(t, q)) implies m.1[list_at(
            #[trigger] field_at(t, q),
        )] == s[list_at(field_at(t, q))] by {
            lemma_header_not_listed(t, s, q);
        }
        if listed_upto(t, s, 2 * t.len() as int, k) {
            let q = choose|q: int| 0 <= q < 2 * t.len() && #[trigger] list_holds(t, s, q, k);
            assert(field_at(m.0, q) == field_at(t, q));
            assert(list_holds(m.0, m.1, q, k));
        }
        if listed_upto(m.0, m.1, 2 * t.len() as int, k) {
            let q = choose|q: int| 0 <= q < 2 * t.len() && #[trigger] list_holds(m.0, m.1, q, k);
            assert(field_at(m.0, q) == field_at(t, q));
            assert(list_holds(t, s, q, k));
        }
    }
    let lhs = map_states(m.0, m.1, g);
    let rhs = map_states(t, s, |r: u16| g(f(r)));
    assert forall|i: int| 0 <= i < t.len() implies #[trigger] lhs.0[i] == rhs.0[i] by {
        assert(field_at(t, 2 * i) == t[i].inside);
        assert(field_at(t, 2 * i + 1) == t[i].outside);
    }
    assert(lhs.0 =~= rhs.0);
    assert(lhs.1 =~= rhs.1);
}

/// Facts about a well-formed automaton used when relabeling it: every
/// state value, in a transition or in a list, is a final value or a state.
pub(crate) proof fn lemma_state_values(t: Seq<Transition>, s: Seq<u16>)
    requires
        nfa_wf(t, s),
    ensures
        forall|q: int|
            0 <= q < 2 * t.len() && !is_list(field_at(t, q)) ==> is_terminal(
                #[trigger] field_at(t, q),
            ) || (field_at(t, q) as int) < t.len(),
        forall|j: int|
            0 <= j < s.len() && listed_upto(t, s, 2 * t.len() as int, j) ==> is_terminal(
                #[trigger] s[j],
            ) || (s[j] as int) < t.len(),
{
    assert forall|q: int|
        0 <= q < 2 * t.len() && !is_list(field_at(t, q)) implies is_terminal(
        #[trigger] field_at(t, q),
    ) || (field_at(t, q) as int) < t.len() by {
        assert(valid_raw(t.len(), s, field_at(t, q)));
    }
    assert forall|j: int|
        0 <= j < s.len() && listed_upto(t, s, 2 * t.len() as int, j) implies is_terminal(
        #[trigger] s[j],
    ) || (s[j] as int) < t.len() by {
        let q = choose|q: int| 0 <= q < 2 * t.len() && #[trigger] list_holds(t, s, q, j);
        assert(valid_raw(t.len(), s, field_at(t, q)));
    }
}

/// The list references of a relabeled automaton are those of the automaton before.
proof fn lemma_map_keeps_lists(t: Seq<Transition>, s: Seq<u16>, f: spec_fn(u16) -> u16)
    requires
        forall|q: int|
            0 <= q < 2 * t.len() && !is_list(#[trigger] field_at(t, q)) ==> !is_list(
                f(field_at(t, q)),
            ),
    ensures
        forall|q: int|
            0 <= q < 2 * t.len() ==> (is_list(#[trigger] field_at(map_states(t, s, f).0, q))
                <==> is_list(field_at(t, q))),
        forall|q: int|
            0 <= q < 2 * t.len() && is_list(field_at(t, q)) ==> #[trigger] field_at(
                map_states(t, s, f).0,
                q,
            ) == field_at(t, q),
{
}

pub(crate) proof fn lemma_append_wf(a: (Seq<Transition>, Seq<u16>), b: (Seq<Transition>, Seq<u16>))
    requires
        nfa_wf(a.0, a.1),
        nfa_wf(b.0, b.1),
        a.0.len() + b.0.len() < 0x8000,
        a.1.len() + b.1.len() < 0x7ffe,
    ensures
        nfa_wf(append_nfa(a, b).0, append_nfa(a, b).1),
        part_ok(
            append_nfa(a, b).0,
            append_nfa(a, b).1,
            a.0,
            a.1,
            0,
            0,
            crate::dfa::replace_fn(ACCEPTING_STATE, a.0.len() as u16),
        ),
        part_ok(
            append_nfa(a, b).0,
            append_nfa(a, b).1,
            b.0,
            b.1,
            a.0.len() as int,
            a.1.len() as int,
            crate::dfa::rebase_fn(a.0.len() as u16),
        ),
{
    let r = append_nfa(a, b);
    let (tt, ss) = r;
    let la = a.0.len();
    let fa = crate::dfa::replace_fn(ACCEPTING_STATE, la as u16);
    let fb = crate::dfa::rebase_fn(la as u16);
    let ma = map_states(a.0, a.1, fa);
    let mb = map_states(b.0, b.1, fb);
    lemma_state_values(b.0, b.1);
    assert forall|i: int| 0 <= i < a.0.len() implies (#[trigger] tt[0 + i]).inside == lift(
        a.0[i].inside,
        fa,
        0,
    ) && tt[0 + i].outside == lift(a.0[i].outside, fa, 0) by {
        assert(tt[i] == ma.0[i]);
    }
    assert forall|k: int| 0 <= k < a.1.len() implies #[trigger] ss[0 + k] == if listed_upto(
        a.0,
        a.1,
        2 * a.0.len() as int,
        k,
    ) {
        fa(a.1[k])
    } else {
        a.1[k]
    } by {
        assert(ss[k] == ma.1[k]);
    }
    assert(part_ok(tt, ss, a.0, a.1, 0, 0, fa));
    assert forall|i: int| 0 <= i < b.0.len() implies (#[trigger] tt[la + i]).inside == lift(
        b.0[i].inside,
        fb,
        a.1.len() as int,
    ) && tt[la + i].outside == lift(b.0[i].outside, fb, a.1.len() as int) by {
        assert(tt[la + i] == shift_lists(mb.0, a.1.len() as u16)[i]);
        if !is_list(b.0[i].inside) {
            assert(field_at(b.0, 2 * i) == b.0[i].inside);
        }
        if !is_list(b.0[i].outside) {
            assert(field_at(b.0, 2 * i + 1) == b.0[i].outside);
        }
    }
    assert forall|k: int| 0 <= k < b.1.len() implies #[trigger] ss[a.1.len() + k] == if listed_upto(
        b.0,
        b.1,
        2 * b.0.len() as int,
        k,
    ) {
        fb(b.1[k])
    } else {
        b.1[k]
    } by {
        assert(ss[a.1.len() + k] == mb.1[k]);
    }
    assert(part_ok(tt, ss, b.0, b.1, la as int, a.1.len() as int, fb));
    lemma_part_fields(tt, ss, a.0, a.1, 0, 0, fa);
    lemma_part_fields(tt, ss, b.0, b.1, la as int, a.1.len() as int, fb);
}

/// The lists of a placed component hold, in the composite, the entries
/// they hold in the component, moved by `so`.
proof fn lemma_part_listed(
    tt: Seq<Transition>,
    ss: Seq<u16>,
    t: Seq<Transition>,
    s: Seq<u16>,
    o: int,
    so: int,
    f: spec_fn(u16) -> u16,
)
    requires
        part_ok(tt, ss, t, s, o, so, f),
    ensures
        forall|q: int, k: int|
            0 <= q < 2 * t.len() ==> #[trigger] list_holds(tt, ss, 2 * o + q, k) == list_holds(t, s, q, k - so),
{
    assert forall|q: int, k: int| 0 <= q < 2 * t.len() implies #[trigger] list_holds(tt, ss, 2 * o + q, k)
        == list_holds(t, s, q, k - so) by {
        let i = q / 2;
        assert((2 * o + q) / 2 == o + i);
        assert((2 * o + q) % 2 == q % 2);
        assert(tt[o + i].inside == lift(t[i].inside, f, so));
        let r = field_at(t, q);
        assert(field_at(tt, 2 * o + q) == lift(r, f, so));
        assert(valid_raw(t.len(), s, r));
        if is_list(r) {
            lemma_header_not_listed(t, s, q);
            assert(ss[so + list_at(r)] == s[list_at(r)]);
        } else {
            assert(is_terminal(f(r)) || (f(r) as int) < tt.len());
        }
    }
}

/// An entry of the concatenation's states table is listed exactly when it
/// is listed in the part it comes from.
proof fn lemma_append_listed(a: (Seq<Transition>, Seq<u16>), b: (Seq<Transition>, Seq<u16>))
    requires
        nfa_wf(a.0, a.1),
        nfa_wf(b.0, b.1),
        a.0.len() + b.0.len() < 0x8000,
        a.1.len() + b.1.len() < 0x7ffe,
    ensures
        forall|k: int|
            #[trigger] listed_upto(append_nfa(a, b).0, append_nfa(a, b).1, 2 * append_nfa(a, b).0.len() as int, k)
                == ((0 <= k < a.1.len() && listed_upto(a.0, a.1, 2 * a.0.len() as int, k)) || (a.1.len() <= k
                && listed_upto(b.0, b.1, 2 * b.0.len() as int, k - a.1.len()))),
{
    lemma_append_wf(a, b);
    let (tt, ss) = append_nfa(a, b);
    let la = a.0.len() as int;
    let sa = a.1.len() as int;
    let fa = crate::dfa::replace_fn(ACCEPTING_STATE, la as u16);
    let fb = crate::dfa::rebase_fn(la as u16);
    lemma_part_listed(tt, ss, a.0, a.1, 0, 0, fa);
    lemma_part_listed(tt, ss, b.0, b.1, la, sa, fb);
    assert forall|k: int| #[trigger] listed_upto(tt, ss, 2 * tt.len() as int, k) == ((0 <= k < sa && listed_upto(
        a.0,
        a.1,
        2 * la,
        k,
    )) || (sa <= k && listed_upto(b.0, b.1, 2 * b.0.len() as int, k - sa))) by {
        if listed_upto(tt, ss, 2 * tt.len() as int, k) {
            let q = choose|q: int| 0 <= q < 2 * tt.len() && #[trigger] list_holds(tt, ss, q, k);
            if q < 2 * la {
                assert(list_holds(tt, ss, 2 * 0 + q, k));
                assert(list_holds(a.0, a.1, q, k - 0));
                assert(list_end(a.1, field_at(a.0, q)) < sa);
            } else {
                assert(list_holds(tt, ss, 2 * la + (q - 2 * la), k));
                assert(list_holds(b.0, b.1, q - 2 * la, k - sa));
            }
        }
        if 0 <= k < sa && listed_upto(a.0, a.1, 2 * la, k) {
            let q = choose|q: int| 0 <= q < 2 * la && #[trigger] list_holds(a.0, a.1, q, k);
            assert(list_holds(tt, ss, 2 * 0 + q, k));
        }
        if sa <= k && listed_upto(b.0, b.1, 2 * b.0.len() as int, k - sa) {
            let q = choose|q: int| 0 <= q < 2 * b.0.len() && #[trigger] list_holds(b.0, b.1, q, k - sa);
            assert(list_holds(tt, ss, 2 * la + q, k));
        }
    }
}

/// Concatenation ([Nfa::append]) is associative: appending `c` to the
/// concatenation of `a` and `b` gives the same automaton, state by state
/// and list by list, as appending the concatenation of `b` and `c` to `a`.
pub proof fn lemma_append_nfa_assoc(
    a: (Seq<Transition>, Seq<u16>),
    b: (Seq<Transition>, Seq<u16>),
    c: (Seq<Transition>, Seq<u16>),
)
    requires
        nfa_wf(a.0, a.1),
        nfa_wf(b.0, b.1),
        nfa_wf(c.0, c.1),
        a.0.len() + b.0.len() + c.0.len() < 0x8000,
        a.1.len() + b.1.len() + c.1.len() < 0x7ffe,
    ensures
        append_nfa(append_nfa(a, b), c) == append_nfa(a, append_nfa(b, c)),
{
    let ab = append_nfa(a, b);
    let bc = append_nfa(b, c);
    lemma_append_wf(a, b);
    lemma_append_wf(b, c);
    lemma_append_listed(a, b);
    lemma_append_listed(b, c);
    lemma_state_values(a.0, a.1);
    lemma_state_values(b.0, b.1);
    lemma_state_values(c.0, c.1);
    let la = a.0.len() as int;
    let lb = b.0.len() as int;
    let sa = a.1.len() as int;
    let sb = b.1.len() as int;
    let l = append_nfa(ab, c);
    let r = append_nfa(a, bc);
    assert(l.0.len() == r.0.len());
    assert forall|i: int| 0 <= i < l.0.len() implies #[trigger] l.0[i] == r.0[i] by {
        if i < la {
            assert(field_at(a.0, 2 * i) == a.0[i].inside);
            assert(field_at(a.0, 2 * i + 1) == a.0[i].outside);
        } else if i < la + lb {
            let j = i - la;
            assert(field_at(b.0, 2 * j) == b.0[j].inside);
            assert(field_at(b.0, 2 * j + 1) == b.0[j].outside);
            assert(ab.0[i] == shift_lists(map_states(b.0, b.1, crate::dfa::rebase_fn(la as u16)).0, sa as u16)[j]);
            assert(bc.0[j] == map_states(b.0, b.1, crate::dfa::replace_fn(ACCEPTING_STATE, lb as u16)).0[j]);
        } else {
            let j = i - la - lb;
            assert(field_at(c.0, 2 * j) == c.0[j].inside);
            assert(field_at(c.0, 2 * j + 1) == c.0[j].outside);
            assert(bc.0[lb + j] == shift_lists(map_states(c.0, c.1, crate::dfa::rebase_fn(lb as u16)).0, sb as u16)[j]);
        }
    }
    assert(l.1.len() == r.1.len());
    assert forall|k: int| 0 <= k < l.1.len() implies #[trigger] l.1[k] == r.1[k] by {
        if k < sa {
            assert(listed_upto(ab.0, ab.1, 2 * ab.0.len() as int, k) == listed_upto(a.0, a.1, 2 * la, k));
        } else if k < sa + sb {
            let j = k - sa;
            assert(listed_upto(ab.0, ab.1, 2 * ab.0.len() as int, k) == listed_upto(b.0, b.1, 2 * lb, j));
            assert(listed_upto(bc.0, bc.1, 2 * bc.0.len() as int, j) == listed_upto(b.0, b.1, 2 * lb, j));
            assert(ab.1[k] == map_states(b.0, b.1, crate::dfa::rebase_fn(la as u16)).1[j]);
            assert(bc.1[j] == map_states(b.0, b.1, crate::dfa::replace_fn(ACCEPTING_STATE, lb as u16)).1[j]);
        } else {
            let j = k - sa - sb;
            assert(listed_upto(bc.0, bc.1, 2 * bc.0.len() as int, sb + j) == listed_upto(c.0, c.1, 2 * c.0.len() as int, j));
            assert(bc.1[sb + j] == map_states(c.0, c.1, crate::dfa::rebase_fn(lb as u16)).1[j]);
        }
    }
    assert(l.0 =~= r.0);
    assert(l.1 =~= r.1);
}

/// A component placed at offsets `o` and `so` satisfies [part_ok].
proof fn lemma_placed_part_ok(
    tt: Seq<Transition>,
    ss: Seq<u16>,
    t: Seq<Transition>,
    s: Seq<u16>,
    o: int,
    so: int,
    f: spec_fn(u16) -> u16,
)
    requires
        nfa_wf(t, s),
        0 <= o,
        0 <= so,
        o + t.len() <= tt.len(),
        tt.len() < 0x8000,
        so + s.len() <= ss.len(),
        0x8000 + so + s.len() < 0xfffe,
        forall|i: int| 0 <= i < t.len() ==> #[trigger] tt[o + i] == placed(t, s, f, so as u16).0[i],
        forall|k: int| 0 <= k < s.len() ==> #[trigger] ss[so + k] == placed(t, s, f, so as u16).1[k],
        forall|r: u16|
            (is_terminal(r) || (r as int) < t.len()) ==> is_terminal(#[trigger] f(r)) || (f(r) as int)
                < tt.len(),
    ensures
        part_ok(tt, ss, t, s, o, so, f),
{
    lemma_state_values(t, s);
    assert forall|i: int| 0 <= i < t.len() implies (#[trigger] tt[o + i]).inside == lift(
        t[i].inside,
        f,
        so,
    ) && tt[o + i].outside == lift(t[i].outside, f, so) by {
        assert(tt[o + i] == placed(t, s, f, so as u16).0[i]);
        assert(field_at(t, 2 * i) == t[i].inside);
        assert(field_at(t, 2 * i + 1) == t[i].outside);
    }
    assert forall|k: int| 0 <= k < s.len() implies #[trigger] ss[so + k] == if listed_upto(
        t,
        s,
        2 * t.len() as int,
        k,
    ) {
        f(s[k])
    } else {
        s[k]
    } by {
        assert(ss[so + k] == placed(t, s, f, so as u16).1[k]);
    }
}

/// Making the first state reuse its symbol keeps an automaton well formed.
proof fn lemma_quiet_first_wf(t: Seq<Transition>, s: Seq<u16>)
    requires
        nfa_wf(t, s),
    ensures
        nfa_wf(quiet_first(t), s),
        quiet_first(t).len() == t.len(),
        forall|q: int| 0 <= q < 2 * t.len() ==> #[trigger] field_at(quiet_first(t), q) == field_at(t, q),
{
    assert forall|q: int| 0 <= q < 2 * t.len() implies #[trigger] field_at(quiet_first(t), q) == field_at(t, q) by {}
    assert forall|j: int| 0 <= j < s.len() implies #[trigger] listed_upto(quiet_first(t), s, 2 * t.len() as int, j)
        == listed_upto(t, s, 2 * t.len() as int, j) by {
        if listed_upto(t, s, 2 * t.len() as int, j) {
            let q = choose|q: int| 0 <= q < 2 * t.len() && #[trigger] list_holds(t, s, q, j);
            assert(list_holds(quiet_first(t), s, q, j));
        }
        if listed_upto(quiet_first(t), s, 2 * t.len() as int, j) {
            let q = choose|q: int| 0 <= q < 2 * t.len() && #[trigger] list_holds(quiet_first(t), s, q, j);
            assert(list_holds(t, s, q, j));
        }
    }
}

pub(crate) proof fn lemma_combine_wf(a: (Seq<Transition>, Seq<u16>), b: (Seq<Transition>, Seq<u16>))
    requires
        nfa_wf(a.0, a.1),
        nfa_wf(b.0, b.1),
        1 + a.0.len() + b.0.len() < 0x8000,
        3 + a.1.len() + b.1.len() < 0x7ffe,
    ensures
        nfa_wf(combine_nfa(a, b).0, combine_nfa(a, b).1),
        part_ok(
            combine_nfa(a, b).0,
            combine_nfa(a, b).1,
            quiet_if(a.0, combine_reads(a, b)),
            a.1,
            1,
            3,
            crate::dfa::rebase_fn(1),
        ),
        part_ok(
            combine_nfa(a, b).0,
            combine_nfa(a, b).1,
            quiet_if(b.0, combine_reads(a, b)),
            b.1,
            1 + a.0.len() as int,
            3 + a.1.len() as int,
            crate::dfa::rebase_fn((a.0.len() + 1) as u16),
        ),
{
    let (tt, ss) = combine_nfa(a, b);
    let la = a.0.len();
    let q = combine_reads(a, b);
    let qa = quiet_if(a.0, q);
    let qb = quiet_if(b.0, q);
    let fa = crate::dfa::rebase_fn(1);
    let fb = crate::dfa::rebase_fn((la + 1) as u16);
    if q {
        lemma_quiet_first_wf(a.0, a.1);
        lemma_quiet_first_wf(b.0, b.1);
    }
    let pa = placed(qa, a.1, fa, 3);
    let pb = placed(qb, b.1, fb, (a.1.len() + 3) as u16);
    assert forall|i: int| 0 <= i < la implies #[trigger] tt[1 + i] == pa.0[i] by {}
    assert forall|k: int| 0 <= k < a.1.len() implies #[trigger] ss[3 + k] == pa.1[k] by {}
    assert forall|i: int| 0 <= i < b.0.len() implies #[trigger] tt[(1 + la) + i] == pb.0[i] by {}
    assert forall|k: int| 0 <= k < b.1.len() implies #[trigger] ss[(3 + a.1.len()) + k] == pb.1[k] by {}
    lemma_placed_part_ok(tt, ss, qa, a.1, 1, 3, fa);
    lemma_placed_part_ok(tt, ss, qb, b.1, (1 + la) as int, (3 + a.1.len()) as int, fb);
    lemma_part_fields(tt, ss, qa, a.1, 1, 3, fa);
    lemma_part_fields(tt, ss, qb, b.1, (1 + la) as int, (3 + a.1.len()) as int, fb);
    assert(field_at(tt, 0) == 0x8000u16);
    assert(field_at(tt, 1) == 0u16);
    assert(ss[0] == 2 && ss[1] == 1 && ss[2] == (la + 1) as u16);
    assert(valid_raw(tt.len(), ss, field_at(tt, 0)));
}

pub(crate) proof fn lemma_repeat_wf(a: (Seq<Transition>, Seq<u16>), greedy: bool)
    requires
        nfa_wf(a.0, a.1),
        1 + a.0.len() < 0x8000,
        3 + a.1.len() < 0x7ffe,
    ensures
        nfa_wf(repeat_nfa(a, greedy).0, repeat_nfa(a, greedy).1),
        part_ok(
            repeat_nfa(a, greedy).0,
            repeat_nfa(a, greedy).1,
            a.0,
            a.1,
            1,
            3,
            |r: u16| crate::dfa::replace_fn(ACCEPTING_STATE, 0)(crate::dfa::rebase_fn(1)(r)),
        ),
        repeat_nfa(a, greedy) == ({
            let h = |r: u16| crate::dfa::replace_fn(ACCEPTING_STATE, 0)(crate::dfa::rebase_fn(1)(r));
            (
                seq![fork_state(false)] + placed(a.0, a.1, h, 3).0,
                (if greedy {
                    seq![2u16, 1u16, ACCEPTING_STATE]
                } else {
                    seq![2u16, ACCEPTING_STATE, 1u16]
                }) + placed(a.0, a.1, h, 3).1,
            )
        }),
{
    let f = crate::dfa::rebase_fn(1);
    let g = crate::dfa::replace_fn(ACCEPTING_STATE, 0);
    let h = |r: u16| g(f(r));
    lemma_state_values(a.0, a.1);
    lemma_map_twice(a.0, a.1, f, g);
    let (tt, ss) = repeat_nfa(a, greedy);
    let pa = placed(a.0, a.1, h, 3);
    assert(repeat_nfa(a, greedy).0 =~= seq![fork_state(false)] + pa.0);
    assert forall|i: int| 0 <= i < a.0.len() implies #[trigger] tt[1 + i] == pa.0[i] by {}
    assert forall|k: int| 0 <= k < a.1.len() implies #[trigger] ss[3 + k] == pa.1[k] by {}
    lemma_placed_part_ok(tt, ss, a.0, a.1, 1, 3, h);
    lemma_part_fields(tt, ss, a.0, a.1, 1, 3, h);
    assert(field_at(tt, 0) == 0x8000u16);
    assert(field_at(tt, 1) == 0u16);
    assert(valid_raw(tt.len(), ss, field_at(tt, 0)));
}

pub(crate) proof fn lemma_switch_wf(
    a: (Seq<Transition>, Seq<u16>),
    b: (Seq<Transition>, Seq<u16>),
    c: (Seq<Transition>, Seq<u16>),
)
    requires
        nfa_wf(a.0, a.1),
        nfa_wf(b.0, b.1),
        nfa_wf(c.0, c.1),
        a.0.len() + b.0.len() + c.0.len() < 0x8000,
        a.1.len() + b.1.len() + c.1.len() < 0x7ffe,
    ensures
        nfa_wf(switch_nfa(a, b, c).0, switch_nfa(a, b, c).1),
        part_ok(
            switch_nfa(a, b, c).0,
            switch_nfa(a, b, c).1,
            a.0,
            a.1,
            0,
            0,
            |r: u16|
                crate::dfa::replace_fn(REJECTING_STATE, (a.0.len() + b.0.len()) as u16)(
                    crate::dfa::replace_fn(ACCEPTING_STATE, a.0.len() as u16)(r),
                ),
        ),
        part_ok(
            switch_nfa(a, b, c).0,
            switch_nfa(a, b, c).1,
            quiet_first(b.0),
            b.1,
            a.0.len() as int,
            a.1.len() as int,
            crate::dfa::rebase_fn(a.0.len() as u16),
        ),
        part_ok(
            switch_nfa(a, b, c).0,
            switch_nfa(a, b, c).1,
            quiet_first(c.0),
            c.1,
            (a.0.len() + b.0.len()) as int,
            (a.1.len() + b.1.len()) as int,
            crate::dfa::rebase_fn((a.0.len() + b.0.len()) as u16),
        ),
{
    let la = a.0.len();
    let lb = b.0.len();
    let f = crate::dfa::replace_fn(ACCEPTING_STATE, la as u16);
    let g = crate::dfa::replace_fn(REJECTING_STATE, (la + lb) as u16);
    let h = |r: u16| g(f(r));
    lemma_state_values(a.0, a.1);
    lemma_map_twice(a.0, a.1, f, g);
    let (tt, ss) = switch_nfa(a, b, c);
    let pa = placed(a.0, a.1, h, 0);
    let qb = quiet_first(b.0);
    let qc = quiet_first(c.0);
    lemma_quiet_first_wf(b.0, b.1);
    lemma_quiet_first_wf(c.0, c.1);
    let fb = crate::dfa::rebase_fn(la as u16);
    let fc = crate::dfa::rebase_fn((la + lb) as u16);
    let pb = placed(qb, b.1, fb, a.1.len() as u16);
    let pc = placed(qc, c.1, fc, (a.1.len() + b.1.len()) as u16);
    assert(shift_lists(map_states(a.0, a.1, h).0, 0) =~= map_states(a.0, a.1, h).0);
    assert forall|i: int| 0 <= i < la implies #[trigger] tt[0 + i] == pa.0[i] by {}
    assert forall|k: int| 0 <= k < a.1.len() implies #[trigger] ss[0 + k] == pa.1[k] by {}
    assert forall|i: int| 0 <= i < lb implies #[trigger] tt[la + i] == pb.0[i] by {}
    assert forall|k: int| 0 <= k < b.1.len() implies #[trigger] ss[a.1.len() + k] == pb.1[k] by {}
    assert forall|i: int| 0 <= i < c.0.len() implies #[trigger] tt[(la + lb) + i] == pc.0[i] by {}
    assert forall|k: int| 0 <= k < c.1.len() implies #[trigger] ss[(a.1.len() + b.1.len()) + k] == pc.1[k] by {}
    lemma_placed_part_ok(tt, ss, a.0, a.1, 0, 0, h);
    lemma_placed_part_ok(tt, ss, qb, b.1, la as int, a.1.len() as int, fb);
    lemma_placed_part_ok(tt, ss, qc, c.1, (la + lb) as int, (a.1.len() + b.1.len()) as int, fc);
    lemma_part_fields(tt, ss, a.0, a.1, 0, 0, h);
    lemma_part_fields(tt, ss, qb, b.1, la as int, a.1.len() as int, fb);
    lemma_part_fields(tt, ss, qc, c.1, (la + lb) as int, (a.1.len() + b.1.len()) as int, fc);
}

/// Relabeling keeps the lists in order.
proof fn lemma_mapped_lists_ok(t: Seq<Transition>, s: Seq<u16>, f: spec_fn(u16) -> u16)
    requires
        lists_ok(t, s),
        forall|q: int|
            0 <= q < 2 * t.len() && !is_list(#[trigger] field_at(t, q)) ==> !is_list(
                f(field_at(t, q)),
            ),
    ensures
        lists_ok(map_states(t, s, f).0, map_states(t, s, f).1),
{
    let m = map_states(t, s, f);
    assert forall|q: int| 0 <= q < 2 * t.len() implies (is_list(#[trigger] field_at(m.0, q))
        <==> is_list(field_at(t, q))) && (is_list(field_at(t, q)) ==> field_at(m.0, q) == field_at(t, q)
        && m.1[list_at(field_at(t, q))] == s[list_at(field_at(t, q))]) by {
        if is_list(field_at(t, q)) {
            lemma_header_not_listed(t, s, q);
        }
    }
}

/// `TryIndex::try_index` of the try_index crate on a byte slice.  The crate
/// implements it for slices as `<[T]>::get`, which gives the element at
/// `index` when it is in bounds and `None` otherwise.
#[verifier::external_body]
fn try_index_byte(input: &[u8], index: usize) -> (r: Option<u8>)
    ensures
        r == (if (index as int) < input@.len() {
            Some(input@[index as int])
        } else {
            None::<u8>
        }),
{
    input.try_index(index).copied()
}

/// One pending alternative of a depth-first run: a state to continue from,
/// the number of symbols read so far, the symbol read last, and the fuel
/// (depth) left for it.
pub struct Branch {
    pub state: u16,
    pub index: nat,
    pub symbol: u8,
    pub fuel: nat,
}

/// The outcome of a depth-first search: a match ending after `Found(n)`
/// symbols, no match, or not decided within the fuel given.
pub enum Search {
    Found(nat),
    Missing,
    Stuck,
}

/// Depth-first search from one state: the first accepting branch, trying
/// the next states of each list in order, backtracking on rejection or when
/// the input runs out at a state that reads.
pub open spec fn dfs(
    t: Seq<Transition>,
    s: Seq<u16>,
    input: Seq<u8>,
    state: u16,
    index: nat,
    symbol: u8,
    fuel: nat,
) -> Search
    decreases fuel, 0nat,
{
    if state == ACCEPTING_STATE {
        Search::Found(index)
    } else if state == REJECTING_STATE {
        Search::Missing
    } else if fuel == 0 || state as int >= t.len() {
        Search::Stuck
    } else {
        let tr = t[state as int];
        if tr.consume && index >= input.len() {
            Search::Missing
        } else {
            let c = if tr.consume {
                input[index as int]
            } else {
                symbol
            };
            let i2 = if tr.consume {
                index + 1
            } else {
                index
            };
            dfs_list(t, s, input, targets(s, pick(tr, c)), i2, c, (fuel - 1) as nat)
        }
    }
}

/// Depth-first search over the states of a list, in order.
pub open spec fn dfs_list(
    t: Seq<Transition>,
    s: Seq<u16>,
    input: Seq<u8>,
    l: Seq<u16>,
    index: nat,
    symbol: u8,
    fuel: nat,
) -> Search
    decreases fuel, l.len() + 1,
{
    if l.len() == 0 {
        Search::Missing
    } else {
        match dfs(t, s, input, l[0], index, symbol, fuel) {
            Search::Missing => dfs_list(t, s, input, l.drop_first(), index, symbol, fuel),
            r => r,
        }
    }
}

/// The depth-first run on `input` from the initial state is decided.
pub open spec fn nfa_halts(t: Seq<Transition>, s: Seq<u16>, input: Seq<u8>) -> bool {
    exists|f: nat| !(#[trigger] dfs(t, s, input, INITIAL_STATE, 0, 0, f) is Stuck)
}

/// The outcome of the depth-first run on `input`, when it is decided.
pub open spec fn nfa_search(t: Seq<Transition>, s: Seq<u16>, input: Seq<u8>) -> Search {
    dfs(
        t,
        s,
        input,
        INITIAL_STATE,
        0,
        0,
        choose|f: nat| !(#[trigger] dfs(t, s, input, INITIAL_STATE, 0, 0, f) is Stuck),
    )
}

/// Searching pending alternatives in order.
pub open spec fn search_all(t: Seq<Transition>, s: Seq<u16>, input: Seq<u8>, p: Seq<Branch>) -> Search
    decreases p.len(),
{
    if p.len() == 0 {
        Search::Missing
    } else {
        match dfs(t, s, input, p[0].state, p[0].index, p[0].symbol, p[0].fuel) {
            Search::Missing => search_all(t, s, input, p.drop_first()),
            r => r,
        }
    }
}

/// Once a depth-first search is decided within some fuel, more fuel does
/// not change its outcome.
pub(crate) proof fn lemma_dfs_fuel(
    t: Seq<Transition>,
    s: Seq<u16>,
    input: Seq<u8>,
    y: u16,
    idx: nat,
    sym: u8,
    f: nat,
    g: nat,
)
    requires
        f <= g,
        !(dfs(t, s, input, y, idx, sym, f) is Stuck),
    ensures
        dfs(t, s, input, y, idx, sym, g) == dfs(t, s, input, y, idx, sym, f),
    decreases f, 0nat,
{
    if y != ACCEPTING_STATE && y != REJECTING_STATE && f > 0 && (y as int) < t.len() {
        let tr = t[y as int];
        if !(tr.consume && idx >= input.len()) {
            let c = if tr.consume {
                input[idx as int]
            } else {
                sym
            };
            let i2 = if tr.consume {
                idx + 1
            } else {
                idx
            };
            lemma_dfs_list_fuel(t, s, input, targets(s, pick(tr, c)), i2, c, (f - 1) as nat, (g - 1) as nat);
        }
    }
}

/// See [lemma_dfs_fuel]: the same for the search over a list.
pub(crate) proof fn lemma_dfs_list_fuel(
    t: Seq<Transition>,
    s: Seq<u16>,
    input: Seq<u8>,
    l: Seq<u16>,
    idx: nat,
    sym: u8,
    f: nat,
    g: nat,
)
    requires
        f <= g,
        !(dfs_list(t, s, input, l, idx, sym, f) is Stuck),
    ensures
        dfs_list(t, s, input, l, idx, sym, g) == dfs_list(t, s, input, l, idx, sym, f),
    decreases f, l.len() + 1,
{
    if l.len() > 0 {
        lemma_dfs_fuel(t, s, input, l[0], idx, sym, f, g);
        if dfs(t, s, input, l[0], idx, sym, f) is Missing {
            lemma_dfs_list_fuel(t, s, input, l.drop_first(), idx, sym, f, g);
        }
    }
}

/// The states of a list as pending alternatives.
pub open spec fn branches(l: Seq<u16>, index: nat, symbol: u8, fuel: nat) -> Seq<Branch> {
    Seq::new(l.len(), |i: int| Branch { state: l[i], index, symbol, fuel })
}

/// How many loop rounds the depth-first run spends on one alternative.
spec fn dfs_steps(
    t: Seq<Transition>,
    s: Seq<u16>,
    input: Seq<u8>,
    state: u16,
    index: nat,
    symbol: u8,
    fuel: nat,
) -> nat
    decreases fuel, 0nat,
{
    if state == ACCEPTING_STATE {
        0
    } else if state == REJECTING_STATE {
        1
    } else if fuel == 0 || state as int >= t.len() {
        0
    } else {
        let tr = t[state as int];
        if tr.consume && index >= input.len() {
            1
        } else {
            let c = if tr.consume {
                input[index as int]
            } else {
                symbol
            };
            let i2 = if tr.consume {
                index + 1
            } else {
                index
            };
            1 + list_steps(t, s, input, targets(s, pick(tr, c)), i2, c, (fuel - 1) as nat)
        }
    }
}

spec fn list_steps(
    t: Seq<Transition>,
    s: Seq<u16>,
    input: Seq<u8>,
    l: Seq<u16>,
    index: nat,
    symbol: u8,
    fuel: nat,
) -> nat
    decreases fuel, l.len() + 1,
{
    if l.len() == 0 {
        0
    } else {
        dfs_steps(t, s, input, l[0], index, symbol, fuel) + if dfs(
            t,
            s,
            input,
            l[0],
            index,
            symbol,
            fuel,
        ) is Missing {
            list_steps(t, s, input, l.drop_first(), index, symbol, fuel)
        } else {
            0
        }
    }
}

spec fn all_steps(t: Seq<Transition>, s: Seq<u16>, input: Seq<u8>, p: Seq<Branch>) -> nat
    decreases p.len(),
{
    if p.len() == 0 {
        0
    } else {
        dfs_steps(t, s, input, p[0].state, p[0].index, p[0].symbol, p[0].fuel) + if dfs(
            t,
            s,
            input,
            p[0].state,
            p[0].index,
            p[0].symbol,
            p[0].fuel,
        ) is Missing {
            all_steps(t, s, input, p.drop_first())
        } else {
            0
        }
    }
}

proof fn lemma_list_is_branches(
    t: Seq<Transition>,
    s: Seq<u16>,
    input: Seq<u8>,
    l: Seq<u16>,
    index: nat,
    symbol: u8,
    fuel: nat,
)
    ensures
        dfs_list(t, s, input, l, index, symbol, fuel) == search_all(
            t,
            s,
            input,
            branches(l, index, symbol, fuel),
        ),
        list_steps(t, s, input, l, index, symbol, fuel) == all_steps(
            t,
            s,
            input,
            branches(l, index, symbol, fuel),
        ),
    decreases l.len(),
{
    if l.len() > 0 {
        lemma_list_is_branches(t, s, input, l.drop_first(), index, symbol, fuel);
        assert(branches(l, index, symbol, fuel).drop_first() =~= branches(
            l.drop_first(),
            index,
            symbol,
            fuel,
        ));
    }
}

proof fn lemma_search_concat(t: Seq<Transition>, s: Seq<u16>, input: Seq<u8>, p: Seq<Branch>, q: Seq<Branch>)
    ensures
        search_all(t, s, input, p + q) == if search_all(t, s, input, p) is Missing {
            search_all(t, s, input, q)
        } else {
            search_all(t, s, input, p)
        },
        all_steps(t, s, input, p + q) == all_steps(t, s, input, p) + if search_all(
            t,
            s,
            input,
            p,
        ) is Missing {
            all_steps(t, s, input, q)
        } else {
            0
        },
    decreases p.len(),
{
    if p.len() > 0 {
        lemma_search_concat(t, s, input, p.drop_first(), q);
        assert((p + q).drop_first() =~= p.drop_first() + q);
    } else {
        assert(p + q =~= q);
    }
}

/// Within one round of a breadth-first run on symbol `c`, state `y` follows
/// state `x` without reading: it is one of `x`'s next states and does not read.
pub open spec fn quiet_step(t: Seq<Transition>, s: Seq<u16>, c: u8, x: int, y: int) -> bool {
    &&& 0 <= x < t.len()
    &&& 0 <= y < t.len()
    &&& targets(s, pick(t[x], c)).contains(y as u16)
    &&& !t[y].consume
}

/// A chain of states, each following the one before without reading.
#[verifier::opaque]
pub open spec fn quiet_path(t: Seq<Transition>, s: Seq<u16>, c: u8, p: Seq<int>) -> bool {
    &&& p.len() >= 1
    &&& 0 <= p[0] < t.len()
    &&& forall|i: int| 0 <= i < p.len() - 1 ==> quiet_step(t, s, c, #[trigger] p[i], p[i + 1])
}

/// The states that one round on symbol `c` visits, starting from the states
/// in `a`: those reachable from `a` by quiet steps.
pub open spec fn round_reach(t: Seq<Transition>, s: Seq<u16>, a: Set<int>, c: u8) -> Set<int> {
    Set::new(
        |y: int|
            exists|p: Seq<int>|
                #[trigger] quiet_path(t, s, c, p) && a.contains(p[0]) && p.last() == y,
    )
}

/// One round on symbol `c` from the states in `a` reaches acceptance.
pub open spec fn round_accepts(t: Seq<Transition>, s: Seq<u16>, a: Set<int>, c: u8) -> bool {
    exists|x: int|
        #[trigger] round_reach(t, s, a, c).contains(x) && targets(s, pick(t[x], c)).contains(
            ACCEPTING_STATE,
        )
}

/// The states that read the next symbol after one round on `c` from `a`.
pub open spec fn round_next(t: Seq<Transition>, s: Seq<u16>, a: Set<int>, c: u8) -> Set<int> {
    Set::new(
        |y: int|
            exists|x: int|
                #[trigger] round_reach(t, s, a, c).contains(x) && 0 <= y < t.len() && targets(
                    s,
                    pick(t[x], c),
                ).contains(y as u16) && t[y].consume,
    )
}

/// The breadth-first run from the states `a`, which read symbol `pos`: it
/// accepts at the first round that reaches acceptance and reports how many
/// symbols it read; it gives up when the input ends, or one symbol after
/// no state is left.
pub open spec fn shortest_from(
    t: Seq<Transition>,
    s: Seq<u16>,
    a: Set<int>,
    input: Seq<u8>,
    pos: nat,
) -> (bool, nat)
    decreases input.len() - pos,
{
    if pos >= input.len() {
        (false, input.len())
    } else if a == Set::<int>::empty() {
        (false, pos + 1)
    } else if round_accepts(t, s, a, input[pos as int]) {
        (true, pos + 1)
    } else {
        shortest_from(t, s, round_next(t, s, a, input[pos as int]), input, pos + 1)
    }
}

/// The breadth-first run on `input` from the initial state.
pub open spec fn nfa_shortest(t: Seq<Transition>, s: Seq<u16>, input: Seq<u8>) -> (bool, nat) {
    shortest_from(t, s, set![INITIAL_STATE as int], input, 0)
}

pub(crate) proof fn lemma_reach_start(t: Seq<Transition>, s: Seq<u16>, a: Set<int>, c: u8, x: int)
    requires
        a.contains(x),
        0 <= x < t.len(),
    ensures
        round_reach(t, s, a, c).contains(x),
{
    reveal(quiet_path);
    let p = seq![x];
    assert(quiet_path(t, s, c, p));
}

pub(crate) proof fn lemma_reach_step(t: Seq<Transition>, s: Seq<u16>, a: Set<int>, c: u8, x: int, y: int)
    requires
        round_reach(t, s, a, c).contains(x),
        quiet_step(t, s, c, x, y),
    ensures
        round_reach(t, s, a, c).contains(y),
{
    reveal(quiet_path);
    let p = choose|p: Seq<int>| #[trigger] quiet_path(t, s, c, p) && a.contains(p[0]) && p.last() == x;
    let q = p.push(y);
    assert forall|i: int| 0 <= i < q.len() - 1 implies quiet_step(t, s, c, #[trigger] q[i], q[i + 1]) by {
        if i < p.len() - 1 {
            assert(q[i] == p[i] && q[i + 1] == p[i + 1]);
        }
    }
    assert(quiet_path(t, s, c, q));
}

proof fn lemma_reach_within(t: Seq<Transition>, s: Seq<u16>, a: Set<int>, c: u8, closed: Set<int>)
    requires
        a.subset_of(closed),
        forall|x: int, y: int| closed.contains(x) && #[trigger] quiet_step(t, s, c, x, y) ==> closed.contains(y),
    ensures
        round_reach(t, s, a, c).subset_of(closed),
{
    assert forall|y: int| round_reach(t, s, a, c).contains(y) implies closed.contains(y) by {
        let p = choose|p: Seq<int>| #[trigger] quiet_path(t, s, c, p) && a.contains(p[0]) && p.last() == y;
        lemma_path_first(t, s, c, p);
        lemma_path_within(t, s, c, p, closed, (p.len() - 1) as int);
    }
}

proof fn lemma_path_within(t: Seq<Transition>, s: Seq<u16>, c: u8, p: Seq<int>, closed: Set<int>, k: int)
    requires
        quiet_path(t, s, c, p),
        closed.contains(p[0]),
        forall|x: int, y: int| closed.contains(x) && #[trigger] quiet_step(t, s, c, x, y) ==> closed.contains(y),
        0 <= k < p.len(),
    ensures
        closed.contains(p[k]),
    decreases k,
{
    reveal(quiet_path);
    if k > 0 {
        lemma_path_within(t, s, c, p, closed, k - 1);
        assert(quiet_step(t, s, c, p[k - 1], p[k]));
    }
}

/// The steps of a chain follow one another without reading.
pub(crate) proof fn lemma_path_step(t: Seq<Transition>, s: Seq<u16>, c: u8, p: Seq<int>, i: int)
    requires
        quiet_path(t, s, c, p),
        0 <= i < p.len() - 1,
    ensures
        quiet_step(t, s, c, p[i], p[i + 1]),
{
    reveal(quiet_path);
}

/// A chain starts at a state.
pub(crate) proof fn lemma_path_first(t: Seq<Transition>, s: Seq<u16>, c: u8, p: Seq<int>)
    requires
        quiet_path(t, s, c, p),
    ensures
        p.len() >= 1,
        0 <= p[0] < t.len(),
{
    reveal(quiet_path);
}

/// The states a round visits are states.
pub(crate) proof fn lemma_reach_bound(t: Seq<Transition>, s: Seq<u16>, a: Set<int>, c: u8, z: int)
    requires
        round_reach(t, s, a, c).contains(z),
    ensures
        0 <= z < t.len(),
{
    let p = choose|p: Seq<int>| #[trigger] quiet_path(t, s, c, p) && a.contains(p[0]) && p.last() == z;
    lemma_path_first(t, s, c, p);
    if p.len() > 1 {
        lemma_path_step(t, s, c, p, p.len() - 2);
    }
}

/// A set of states below `n` is finite and has at most `n` elements.
proof fn lemma_states_bounded(a: Set<int>, n: int)
    requires
        n >= 0,
        forall|x: int| #[trigger] a.contains(x) ==> 0 <= x < n,
    ensures
        a.finite(),
        a.len() <= n,
{
    lemma_int_range(0, n);
    assert(a.subset_of(set_int_range(0, n)));
    lemma_len_subset(a, set_int_range(0, n));
}

/// What one round on symbol `c` from the states `a` gives: `None` when it
/// reaches acceptance, otherwise the states that read the next symbol.
pub open spec fn round_outcome(t: Seq<Transition>, s: Seq<u16>, a: Set<int>, c: u8) -> Option<Set<int>> {
    if round_accepts(t, s, a, c) {
        None
    } else {
        Some(round_next(t, s, a, c))
    }
}

/// States whose transitions decide alike for two symbols have alike quiet
/// steps; a set closed under quiet steps for one symbol is closed for both.
proof fn lemma_reach_same(
    t: Seq<Transition>,
    s: Seq<u16>,
    a: Set<int>,
    c: u8,
    d: u8,
    closed: Set<int>,
)
    requires
        a.subset_of(closed),
        forall|x: int, y: int| closed.contains(x) && #[trigger] quiet_step(t, s, c, x, y) ==> closed.contains(y),
        forall|x: int| #[trigger] closed.contains(x) ==> 0 <= x < t.len() && pick(t[x], d) == pick(t[x], c),
        forall|x: int| #[trigger] closed.contains(x) ==> round_reach(t, s, a, d).contains(x),
        round_reach(t, s, a, c) == closed,
    ensures
        round_reach(t, s, a, d) == closed,
        round_outcome(t, s, a, d) == round_outcome(t, s, a, c),
{
    assert forall|x: int, y: int| closed.contains(x) && #[trigger] quiet_step(t, s, d, x, y) implies closed.contains(y) by {
        assert(quiet_step(t, s, c, x, y));
    }
    lemma_reach_within(t, s, a, d, closed);
    assert(round_reach(t, s, a, d) =~= closed);
    lemma_outcome_same(t, s, a, c, d, closed);
}

/// Two rounds that visit the same states, whose transitions decide alike for
/// both symbols, have the same outcome.
proof fn lemma_outcome_same(
    t: Seq<Transition>,
    s: Seq<u16>,
    a: Set<int>,
    c: u8,
    d: u8,
    closed: Set<int>,
)
    requires
        forall|x: int| #[trigger] closed.contains(x) ==> 0 <= x < t.len() && pick(t[x], d) == pick(t[x], c),
        round_reach(t, s, a, c) == closed,
        round_reach(t, s, a, d) == closed,
    ensures
        round_outcome(t, s, a, d) == round_outcome(t, s, a, c),
{
    assert(round_accepts(t, s, a, d) == round_accepts(t, s, a, c)) by {
        if round_accepts(t, s, a, d) {
            let x = choose|x: int| #[trigger] round_reach(t, s, a, d).contains(x) && targets(s, pick(t[x], d)).contains(ACCEPTING_STATE);
            assert(closed.contains(x));
        }
        if round_accepts(t, s, a, c) {
            let x = choose|x: int| #[trigger] round_reach(t, s, a, c).contains(x) && targets(s, pick(t[x], c)).contains(ACCEPTING_STATE);
            assert(closed.contains(x));
        }
    }
    assert(round_next(t, s, a, d) =~= round_next(t, s, a, c)) by {
        assert forall|y: int| round_next(t, s, a, d).contains(y) implies round_next(t, s, a, c).contains(y) by {
            let x = choose|x: int| #[trigger] round_reach(t, s, a, d).contains(x) && 0 <= y < t.len() && targets(s, pick(t[x], d)).contains(y as u16) && t[y].consume;
            assert(closed.contains(x));
        }
        assert forall|y: int| round_next(t, s, a, c).contains(y) implies round_next(t, s, a, d).contains(y) by {
            let x = choose|x: int| #[trigger] round_reach(t, s, a, c).contains(x) && 0 <= y < t.len() && targets(s, pick(t[x], c)).contains(y as u16) && t[y].consume;
            assert(closed.contains(x));
        }
    }
}

/// From state `x`, which reads symbol `pos` of the input, some choice among
/// the next states leads to acceptance right after reading `p` symbols: by
/// steps that do not read, to a state that either accepts on this symbol or
/// goes on to a state that reads the next one and matches from there.
#[verifier::opaque]
pub open spec fn match_from(t: Seq<Transition>, s: Seq<u16>, input: Seq<u8>, x: int, pos: nat, p: nat) -> bool
    decreases input.len() - pos,
{
    &&& pos < input.len()
    &&& exists|z: int|
        #[trigger] round_reach(t, s, set![x], input[pos as int]).contains(z) && {
            ||| (p == pos + 1 && targets(s, pick(t[z], input[pos as int])).contains(ACCEPTING_STATE))
            ||| exists|y: int|
                0 <= y < t.len() && #[trigger] targets(s, pick(t[z], input[pos as int])).contains(y as u16)
                    && t[y].consume && match_from(t, s, input, y, pos + 1, p)
        }
}

/// Some state of `a` matches from `pos` after `p` symbols.
pub open spec fn set_matches(t: Seq<Transition>, s: Seq<u16>, input: Seq<u8>, a: Set<int>, pos: nat, p: nat) -> bool {
    exists|x: int| a.contains(x) && #[trigger] match_from(t, s, input, x, pos, p)
}

/// The input matches after `p` symbols, the initial state reading the first.
pub open spec fn nfa_matches(t: Seq<Transition>, s: Seq<u16>, input: Seq<u8>, p: nat) -> bool {
    match_from(t, s, input, INITIAL_STATE as int, 0, p)
}

/// A match from `pos` reads at least one symbol.
pub(crate) proof fn lemma_match_after(t: Seq<Transition>, s: Seq<u16>, input: Seq<u8>, x: int, pos: nat, p: nat)
    requires
        match_from(t, s, input, x, pos, p),
    ensures
        pos + 1 <= p,
    decreases input.len() - pos,
{
    reveal(match_from);
    reveal(step_match);
    let c = input[pos as int];
    let z = choose|z: int|
        #[trigger] round_reach(t, s, set![x], c).contains(z) && {
            ||| (p == pos + 1 && targets(s, pick(t[z], c)).contains(ACCEPTING_STATE))
            ||| exists|y: int|
                0 <= y < t.len() && #[trigger] targets(s, pick(t[z], c)).contains(y as u16) && t[y].consume
                    && match_from(t, s, input, y, pos + 1, p)
        };
    if !(p == pos + 1 && targets(s, pick(t[z], c)).contains(ACCEPTING_STATE)) {
        let y = choose|y: int|
            0 <= y < t.len() && #[trigger] targets(s, pick(t[z], c)).contains(y as u16) && t[y].consume
                && match_from(t, s, input, y, pos + 1, p);
        lemma_match_after(t, s, input, y, pos + 1, p);
    }
}

/// A state reached in a round from a set is reached from one of its states.
proof fn lemma_reach_single(t: Seq<Transition>, s: Seq<u16>, a: Set<int>, c: u8, z: int)
    requires
        round_reach(t, s, a, c).contains(z),
    ensures
        exists|x: int| a.contains(x) && #[trigger] round_reach(t, s, set![x], c).contains(z),
{
    let p = choose|p: Seq<int>| #[trigger] quiet_path(t, s, c, p) && a.contains(p[0]) && p.last() == z;
    assert(set![p[0]].contains(p[0]));
    assert(round_reach(t, s, set![p[0]], c).contains(z));
}

/// A state reached from one state of a set is reached from the set.
proof fn lemma_reach_from_single(t: Seq<Transition>, s: Seq<u16>, a: Set<int>, c: u8, x: int, z: int)
    requires
        a.contains(x),
        round_reach(t, s, set![x], c).contains(z),
    ensures
        round_reach(t, s, a, c).contains(z),
{
    let p = choose|p: Seq<int>| #[trigger] quiet_path(t, s, c, p) && set![x].contains(p[0]) && p.last() == z;
    assert(quiet_path(t, s, c, p) && a.contains(p[0]) && p.last() == z);
}

/// One round: a set matches after exactly one symbol when the round
/// accepts, and after more symbols when the states it leaves do.
proof fn lemma_round_matches(t: Seq<Transition>, s: Seq<u16>, input: Seq<u8>, a: Set<int>, pos: nat, p: nat)
    requires
        pos < input.len(),
    ensures
        p == pos + 1 ==> (set_matches(t, s, input, a, pos, p) == round_accepts(t, s, a, input[pos as int])),
        p != pos + 1 ==> (set_matches(t, s, input, a, pos, p) == set_matches(
            t,
            s,
            input,
            round_next(t, s, a, input[pos as int]),
            pos + 1,
            p,
        )),
{
    reveal(match_from);
    reveal(step_match);
    let c = input[pos as int];
    let next = round_next(t, s, a, c);
    if set_matches(t, s, input, a, pos, p) {
        let x = choose|x: int| a.contains(x) && #[trigger] match_from(t, s, input, x, pos, p);
        let z = choose|z: int|
            #[trigger] round_reach(t, s, set![x], c).contains(z) && {
                ||| (p == pos + 1 && targets(s, pick(t[z], c)).contains(ACCEPTING_STATE))
                ||| exists|y: int|
                    0 <= y < t.len() && #[trigger] targets(s, pick(t[z], c)).contains(y as u16) && t[y].consume
                        && match_from(t, s, input, y, pos + 1, p)
            };
        lemma_reach_from_single(t, s, a, c, x, z);
        if p == pos + 1 && targets(s, pick(t[z], c)).contains(ACCEPTING_STATE) {
            assert(round_accepts(t, s, a, c));
        } else {
            let y = choose|y: int|
                0 <= y < t.len() && #[trigger] targets(s, pick(t[z], c)).contains(y as u16) && t[y].consume
                    && match_from(t, s, input, y, pos + 1, p);
            lemma_match_after(t, s, input, y, pos + 1, p);
            assert(next.contains(y));
            assert(set_matches(t, s, input, next, pos + 1, p));
        }
    }
    if p == pos + 1 && round_accepts(t, s, a, c) {
        let z = choose|z: int| #[trigger] round_reach(t, s, a, c).contains(z) && targets(s, pick(t[z], c)).contains(ACCEPTING_STATE);
        lemma_reach_single(t, s, a, c, z);
        let x = choose|x: int| a.contains(x) && #[trigger] round_reach(t, s, set![x], c).contains(z);
        assert(match_from(t, s, input, x, pos, p));
    }
    if p != pos + 1 && set_matches(t, s, input, next, pos + 1, p) {
        let y = choose|y: int| next.contains(y) && #[trigger] match_from(t, s, input, y, pos + 1, p);
        let z = choose|z: int|
            #[trigger] round_reach(t, s, a, c).contains(z) && 0 <= y < t.len() && targets(s, pick(t[z], c)).contains(
                y as u16,
            ) && t[y].consume;
        lemma_reach_single(t, s, a, c, z);
        let x = choose|x: int| a.contains(x) && #[trigger] round_reach(t, s, set![x], c).contains(z);
        assert(match_from(t, s, input, x, pos, p));
    }
}

/// The breadth-first run from a set accepts after the fewest symbols after
/// which some state of the set matches, and gives up when none does.
proof fn lemma_shortest_from_matches(t: Seq<Transition>, s: Seq<u16>, input: Seq<u8>, a: Set<int>, pos: nat)
    ensures
        shortest_from(t, s, a, input, pos).0 ==> set_matches(t, s, input, a, pos, shortest_from(t, s, a, input, pos).1),
        shortest_from(t, s, a, input, pos).0 ==> forall|q: nat|
            q < shortest_from(t, s, a, input, pos).1 ==> !#[trigger] set_matches(t, s, input, a, pos, q),
        !shortest_from(t, s, a, input, pos).0 ==> forall|q: nat| !#[trigger] set_matches(t, s, input, a, pos, q),
    decreases input.len() - pos,
{
    reveal(match_from);
    let r = shortest_from(t, s, a, input, pos);
    if pos >= input.len() {
        assert forall|q: nat| !#[trigger] set_matches(t, s, input, a, pos, q) by {
            if set_matches(t, s, input, a, pos, q) {
                let x = choose|x: int| a.contains(x) && #[trigger] match_from(t, s, input, x, pos, q);
            }
        }
    } else if a == Set::<int>::empty() {
        assert forall|q: nat| !#[trigger] set_matches(t, s, input, a, pos, q) by {
            if set_matches(t, s, input, a, pos, q) {
                let x = choose|x: int| a.contains(x) && #[trigger] match_from(t, s, input, x, pos, q);
            }
        }
    } else {
        let c = input[pos as int];
        let next = round_next(t, s, a, c);
        lemma_round_matches(t, s, input, a, pos, pos + 1);
        if round_accepts(t, s, a, c) {
            assert forall|q: nat| q < pos + 1 implies !#[trigger] set_matches(t, s, input, a, pos, q) by {
                if set_matches(t, s, input, a, pos, q) {
                    let x = choose|x: int| a.contains(x) && #[trigger] match_from(t, s, input, x, pos, q);
                    lemma_match_after(t, s, input, x, pos, q);
                }
            }
        } else {
            lemma_shortest_from_matches(t, s, input, next, pos + 1);
            assert forall|q: nat| q != pos + 1 implies #[trigger] set_matches(t, s, input, a, pos, q) == set_matches(
                t,
                s,
                input,
                next,
                pos + 1,
                q,
            ) by {
                lemma_round_matches(t, s, input, a, pos, q);
            }
            if r.0 {
                assert(r == shortest_from(t, s, next, input, pos + 1));
                assert(r.1 != pos + 1) by {
                    let y = choose|y: int| next.contains(y) && #[trigger] match_from(t, s, input, y, pos + 1, r.1);
                    lemma_match_after(t, s, input, y, pos + 1, r.1);
                }
            }
        }
    }
}

/// The breadth-first run ([Nfa::run_shortest]) gives the shortest possible
/// match: when it accepts after `n` symbols, the input matches after `n`
/// symbols and after no fewer; when it does not accept, the input matches
/// after no number of symbols.
pub proof fn lemma_shortest_match(t: Seq<Transition>, s: Seq<u16>, input: Seq<u8>)
    ensures
        nfa_shortest(t, s, input).0 ==> nfa_matches(t, s, input, nfa_shortest(t, s, input).1),
        nfa_shortest(t, s, input).0 ==> forall|q: nat|
            q < nfa_shortest(t, s, input).1 ==> !#[trigger] nfa_matches(t, s, input, q),
        !nfa_shortest(t, s, input).0 ==> forall|q: nat| !#[trigger] nfa_matches(t, s, input, q),
{
    let a = set![INITIAL_STATE as int];
    lemma_shortest_from_matches(t, s, input, a, 0);
    assert forall|q: nat| #[trigger] nfa_matches(t, s, input, q) == set_matches(t, s, input, a, 0, q) by {
        if nfa_matches(t, s, input, q) {
            assert(a.contains(INITIAL_STATE as int));
        }
        if set_matches(t, s, input, a, 0, q) {
            let x = choose|x: int| a.contains(x) && #[trigger] match_from(t, s, input, x, 0, q);
            assert(x == INITIAL_STATE as int);
        }
    }
}

/// From state `z`, which uses symbol `c` that was read last, some choice
/// among the next states leads to acceptance right after `p` symbols, `idx`
/// symbols having been read so far.
#[verifier::opaque]
pub open spec fn step_match(t: Seq<Transition>, s: Seq<u16>, input: Seq<u8>, z: int, c: u8, idx: nat, p: nat) -> bool {
    exists|w: int|
        #[trigger] round_reach(t, s, set![z], c).contains(w) && {
            ||| (p == idx && targets(s, pick(t[w], c)).contains(ACCEPTING_STATE))
            ||| exists|y: int|
                0 <= y < t.len() && #[trigger] targets(s, pick(t[w], c)).contains(y as u16) && t[y].consume
                    && match_from(t, s, input, y, idx, p)
        }
}

/// A state that follows `y` without reading reaches what it reaches.
pub(crate) proof fn lemma_reach_prepend(t: Seq<Transition>, s: Seq<u16>, c: u8, y: int, w: int, z: int)
    requires
        quiet_step(t, s, c, y, w),
        round_reach(t, s, set![w], c).contains(z),
    ensures
        round_reach(t, s, set![y], c).contains(z),
{
    reveal(quiet_path);
    let p = choose|p: Seq<int>| #[trigger] quiet_path(t, s, c, p) && set![w].contains(p[0]) && p.last() == z;
    let q = seq![y] + p;
    assert forall|i: int| 0 <= i < q.len() - 1 implies quiet_step(t, s, c, #[trigger] q[i], q[i + 1]) by {
        if i > 0 {
            assert(q[i] == p[i - 1] && q[i + 1] == p[i]);
        }
    }
    assert(quiet_path(t, s, c, q));
    assert(set![y].contains(q[0]) && q.last() == z);
}

/// A search over a list finds what the search from one of its states finds.
proof fn lemma_list_found(t: Seq<Transition>, s: Seq<u16>, input: Seq<u8>, l: Seq<u16>, idx: nat, sym: u8, f: nat, n: nat)
    requires
        dfs_list(t, s, input, l, idx, sym, f) == Search::Found(n),
    ensures
        exists|k: int| 0 <= k < l.len() && #[trigger] dfs(t, s, input, l[k], idx, sym, f) == Search::Found(n),
    decreases l.len(),
{
    if dfs(t, s, input, l[0], idx, sym, f) is Missing {
        lemma_list_found(t, s, input, l.drop_first(), idx, sym, f, n);
        let k = choose|k: int| 0 <= k < l.drop_first().len() && #[trigger] dfs(t, s, input, l.drop_first()[k], idx, sym, f) == Search::Found(n);
        assert(l.drop_first()[k] == l[k + 1]);
    } else {
        assert(dfs(t, s, input, l[0], idx, sym, f) == Search::Found(n));
    }
}

/// What a depth-first search finds is a real match: from a state that
/// reads, a match from its position; from a state that does not, a match
/// through the states that follow it on the symbol read last.
proof fn lemma_dfs_found(t: Seq<Transition>, s: Seq<u16>, input: Seq<u8>, y: u16, idx: nat, sym: u8, f: nat, n: nat)
    requires
        dfs(t, s, input, y, idx, sym, f) == Search::Found(n),
        t.len() < 0x8000,
        forall|q: int| 0 <= q < 2 * t.len() ==> valid_raw(t.len(), s, #[trigger] field_at(t, q)),
    ensures
        y == ACCEPTING_STATE ==> n == idx,
        (y as int) < t.len() && t[y as int].consume ==> match_from(t, s, input, y as int, idx, n),
        (y as int) < t.len() && !t[y as int].consume ==> step_match(t, s, input, y as int, sym, idx, n),
    decreases f,
{
    reveal(match_from);
    reveal(step_match);
    if y != ACCEPTING_STATE && y != REJECTING_STATE && f > 0 && (y as int) < t.len() {
        let tr = t[y as int];
        let c = if tr.consume {
            input[idx as int]
        } else {
            sym
        };
        let i2 = if tr.consume {
            idx + 1
        } else {
            idx
        };
        let l = targets(s, pick(tr, c));
        lemma_list_found(t, s, input, l, i2, c, (f - 1) as nat, n);
        let k = choose|k: int| 0 <= k < l.len() && #[trigger] dfs(t, s, input, l[k], i2, c, (f - 1) as nat) == Search::Found(n);
        let w = l[k];
        lemma_dfs_found(t, s, input, w, i2, c, (f - 1) as nat, n);
        assert(l.contains(w));
        let yi = y as int;
        assert(field_at(t, 2 * yi) == tr.inside);
        assert(field_at(t, 2 * yi + 1) == tr.outside);
        assert(valid_raw(t.len(), s, pick(tr, c)));
        assert(is_terminal(w) || (w as int) < t.len()) by {
            if is_list(pick(tr, c)) {
                assert(l[k] == s[list_at(pick(tr, c)) + 1 + k]);
            }
        }
        lemma_reach_start(t, s, set![yi], c, yi);
        if w == ACCEPTING_STATE {
            assert(step_match(t, s, input, yi, c, i2, n));
        } else if w != REJECTING_STATE {
            let wi = w as int;
            if t[wi].consume {
                assert(wi as u16 == w);
                assert(targets(s, pick(t[yi], c)).contains(wi as u16));
                assert(match_from(t, s, input, wi, i2, n));
                assert(step_match(t, s, input, yi, c, i2, n));
            } else {
                assert(quiet_step(t, s, c, yi, wi));
                let z = choose|z: int|
                    #[trigger] round_reach(t, s, set![wi], c).contains(z) && {
                        ||| (n == i2 && targets(s, pick(t[z], c)).contains(ACCEPTING_STATE))
                        ||| exists|v: int|
                            0 <= v < t.len() && #[trigger] targets(s, pick(t[z], c)).contains(v as u16) && t[v].consume
                                && match_from(t, s, input, v, i2, n)
                    };
                lemma_reach_prepend(t, s, c, yi, wi, z);
                assert(step_match(t, s, input, yi, c, i2, n));
            }
        }
        if tr.consume {
            lemma_step_to_match(t, s, input, yi, idx, n);
            assert(match_from(t, s, input, y as int, idx, n));
        } else {
            assert(step_match(t, s, input, y as int, sym, idx, n));
        }
    }
}

/// What a depth-first search from within the input finds ends within it.
proof fn lemma_dfs_found_within(t: Seq<Transition>, s: Seq<u16>, input: Seq<u8>, y: u16, idx: nat, sym: u8, f: nat, n: nat)
    requires
        dfs(t, s, input, y, idx, sym, f) == Search::Found(n),
        idx <= input.len(),
    ensures
        n <= input.len(),
    decreases f,
{
    if y != ACCEPTING_STATE && y != REJECTING_STATE && f > 0 && (y as int) < t.len() {
        let tr = t[y as int];
        let c = if tr.consume {
            input[idx as int]
        } else {
            sym
        };
        let i2 = if tr.consume {
            idx + 1
        } else {
            idx
        };
        let l = targets(s, pick(tr, c));
        lemma_list_found(t, s, input, l, i2, c, (f - 1) as nat, n);
        let k = choose|k: int| 0 <= k < l.len() && #[trigger] dfs(t, s, input, l[k], i2, c, (f - 1) as nat) == Search::Found(n);
        lemma_dfs_found_within(t, s, input, l[k], i2, c, (f - 1) as nat, n);
    }
}

/// A search over a list that finds nothing finds nothing from each of its
/// states.
proof fn lemma_list_missing(t: Seq<Transition>, s: Seq<u16>, input: Seq<u8>, l: Seq<u16>, idx: nat, sym: u8, f: nat)
    requires
        dfs_list(t, s, input, l, idx, sym, f) == Search::Missing,
    ensures
        forall|k: int| 0 <= k < l.len() ==> #[trigger] dfs(t, s, input, l[k], idx, sym, f) == Search::Missing,
    decreases l.len(),
{
    if l.len() > 0 {
        lemma_list_missing(t, s, input, l.drop_first(), idx, sym, f);
        assert forall|k: int| 0 <= k < l.len() implies #[trigger] dfs(t, s, input, l[k], idx, sym, f) == Search::Missing by {
            if k > 0 {
                assert(l.drop_first()[k - 1] == l[k]);
            }
        }
    }
}

/// A state a round reaches from `y` is `y` itself, or one that the round
/// reaches from a next state of `y` that does not read.
proof fn lemma_reach_split(t: Seq<Transition>, s: Seq<u16>, y: int, c: u8, w: int) -> (v: int)
    requires
        round_reach(t, s, set![y], c).contains(w),
        w != y,
    ensures
        quiet_step(t, s, c, y, v),
        round_reach(t, s, set![v], c).contains(w),
{
    reveal(quiet_path);
    let p = choose|p: Seq<int>| #[trigger] quiet_path(t, s, c, p) && set![y].contains(p[0]) && p.last() == w;
    assert(p[0] == y);
    assert(p.len() > 1);
    assert(quiet_step(t, s, c, p[0], p[1]));
    let q = p.drop_first();
    assert forall|i: int| 0 <= i < q.len() - 1 implies quiet_step(t, s, c, #[trigger] q[i], q[i + 1]) by {
        assert(q[i] == p[i + 1] && q[i + 1] == p[i + 2]);
    }
    assert(quiet_path(t, s, c, q));
    assert(set![p[1]].contains(q[0]) && q.last() == w);
    p[1]
}

/// Where a depth-first search finds nothing, there is nothing to find: from
/// a state that reads, no match from its position; from a state that does
/// not, no match through the states that follow it on the symbol read last.
proof fn lemma_dfs_missing(t: Seq<Transition>, s: Seq<u16>, input: Seq<u8>, y: u16, idx: nat, sym: u8, f: nat, n: nat)
    requires
        dfs(t, s, input, y, idx, sym, f) == Search::Missing,
        t.len() < 0x8000,
        forall|q: int| 0 <= q < 2 * t.len() ==> valid_raw(t.len(), s, #[trigger] field_at(t, q)),
    ensures
        (y as int) < t.len() && t[y as int].consume ==> !match_from(t, s, input, y as int, idx, n),
        (y as int) < t.len() && !t[y as int].consume ==> !step_match(t, s, input, y as int, sym, idx, n),
    decreases f,
{
    reveal(step_match);
    let yi = y as int;
    lemma_match_is_step(t, s, input, yi, idx, n);
    if y != ACCEPTING_STATE && y != REJECTING_STATE && f > 0 && yi < t.len() {
        let tr = t[yi];
        if !(tr.consume && idx >= input.len()) {
            let c = if tr.consume {
                input[idx as int]
            } else {
                sym
            };
            let i2 = if tr.consume {
                idx + 1
            } else {
                idx
            };
            let l = targets(s, pick(tr, c));
            lemma_list_missing(t, s, input, l, i2, c, (f - 1) as nat);
            assert(field_at(t, 2 * yi) == tr.inside);
            assert(field_at(t, 2 * yi + 1) == tr.outside);
            assert(valid_raw(t.len(), s, pick(tr, c)));
            assert forall|k: int| 0 <= k < l.len() implies {
                &&& #[trigger] l[k] != ACCEPTING_STATE
                &&& (l[k] as int) < t.len() && t[l[k] as int].consume ==> !match_from(t, s, input, l[k] as int, i2, n)
                &&& (l[k] as int) < t.len() && !t[l[k] as int].consume ==> !step_match(t, s, input, l[k] as int, c, i2, n)
            } by {
                lemma_dfs_missing(t, s, input, l[k], i2, c, (f - 1) as nat, n);
            }
            if step_match(t, s, input, yi, c, i2, n) {
                let w = choose|w: int|
                    #[trigger] round_reach(t, s, set![yi], c).contains(w) && {
                        ||| (n == i2 && targets(s, pick(t[w], c)).contains(ACCEPTING_STATE))
                        ||| exists|v: int|
                            0 <= v < t.len() && #[trigger] targets(s, pick(t[w], c)).contains(v as u16) && t[v].consume
                                && match_from(t, s, input, v, i2, n)
                    };
                if w == yi {
                    if n == i2 && l.contains(ACCEPTING_STATE) {
                        let k = choose|k: int| 0 <= k < l.len() && l[k] == ACCEPTING_STATE;
                        assert(l[k] != ACCEPTING_STATE);
                    } else {
                        let v = choose|v: int|
                            0 <= v < t.len() && #[trigger] targets(s, pick(t[w], c)).contains(v as u16) && t[v].consume
                                && match_from(t, s, input, v, i2, n);
                        let k = choose|k: int| 0 <= k < l.len() && l[k] == v as u16;
                        assert(l[k] as int == v);
                    }
                } else {
                    let v = lemma_reach_split(t, s, yi, c, w);
                    let k = choose|k: int| 0 <= k < l.len() && l[k] == v as u16;
                    assert(l[k] as int == v);
                    assert(step_match(t, s, input, v, c, i2, n));
                }
            }
        }
    }
}

/// The depth-first run finds a match wherever there is one, provided it
/// is decided and the initial state reads: in particular wherever the
/// breadth-first run ([Nfa::run_shortest]) accepts.
pub proof fn lemma_match_is_found(t: Seq<Transition>, s: Seq<u16>, input: Seq<u8>, n: nat)
    requires
        nfa_wf(t, s),
        t[INITIAL_STATE as int].consume,
        nfa_halts(t, s, input),
        nfa_matches(t, s, input, n) || nfa_shortest(t, s, input).0,
    ensures
        nfa_search(t, s, input) is Found,
{
    lemma_shortest_match(t, s, input);
    let m = if nfa_matches(t, s, input, n) {
        n
    } else {
        nfa_shortest(t, s, input).1
    };
    let f = choose|f: nat| !(#[trigger] dfs(t, s, input, INITIAL_STATE, 0, 0, f) is Stuck);
    if dfs(t, s, input, INITIAL_STATE, 0, 0, f) is Missing {
        lemma_dfs_missing(t, s, input, INITIAL_STATE, 0, 0, f, m);
    }
}

/// A match through the states that follow a reading state on the symbol it
/// reads is a match from that state.
proof fn lemma_step_to_match(t: Seq<Transition>, s: Seq<u16>, input: Seq<u8>, y: int, idx: nat, n: nat)
    requires
        idx < input.len(),
        step_match(t, s, input, y, input[idx as int], idx + 1, n),
    ensures
        match_from(t, s, input, y, idx, n),
{
    reveal(match_from);
    reveal(step_match);
    let c = input[idx as int];
    let w = choose|w: int|
        #[trigger] round_reach(t, s, set![y], c).contains(w) && {
            ||| (n == idx + 1 && targets(s, pick(t[w], c)).contains(ACCEPTING_STATE))
            ||| exists|v: int|
                0 <= v < t.len() && #[trigger] targets(s, pick(t[w], c)).contains(v as u16) && t[v].consume
                    && match_from(t, s, input, v, idx + 1, n)
        };
    assert(round_reach(t, s, set![y], c).contains(w));
}

/// A match that the depth-first run ([Nfa::run]) finds is a real match,
/// when the initial state reads the first symbol; so the breadth-first run
/// ([Nfa::run_shortest]) accepts too, after no more symbols.
pub proof fn lemma_search_is_match(t: Seq<Transition>, s: Seq<u16>, input: Seq<u8>, n: nat)
    requires
        nfa_wf(t, s),
        t[INITIAL_STATE as int].consume,
        nfa_search(t, s, input) == Search::Found(n),
    ensures
        nfa_matches(t, s, input, n),
        nfa_shortest(t, s, input).0,
        nfa_shortest(t, s, input).1 <= n,
{
    let f = choose|f: nat| !(#[trigger] dfs(t, s, input, INITIAL_STATE, 0, 0, f) is Stuck);
    lemma_dfs_found(t, s, input, INITIAL_STATE, 0, 0, f, n);
    assert(nfa_matches(t, s, input, n));
    lemma_shortest_match(t, s, input);
    if !nfa_shortest(t, s, input).0 {
        assert(!nfa_matches(t, s, input, n));
    }
    if nfa_shortest(t, s, input).1 > n {
        assert(!nfa_matches(t, s, input, n));
    }
}

/// What a depth-first search reports for how a deterministic run ends.
pub open spec fn search_of(e: RunEnd) -> Search {
    match e {
        RunEnd::Accept { pos, .. } => Search::Found(pos),
        RunEnd::Reject { .. } => Search::Missing,
        RunEnd::Exhausted => Search::Missing,
        RunEnd::Unfinished => Search::Stuck,
    }
}

/// On a deterministic table without lists, the depth-first search from a
/// state follows the deterministic walk step by step.
proof fn lemma_dfs_walk(t: Seq<Transition>, input: Seq<u8>, state: u16, index: nat, symbol: u8, f: nat)
    requires
        dfa_wf(t),
        t.len() < 0x8000,
        (state as int) < t.len(),
    ensures
        dfs(t, Seq::<u16>::empty(), input, state, index, symbol, f) == search_of(
            dfa_walk(t, input, state, symbol, index, f),
        ),
    decreases f,
{
    if f > 0 {
        let tr = t[state as int];
        if !(tr.consume && index >= input.len()) {
            let c = if tr.consume {
                input[index as int]
            } else {
                symbol
            };
            let i2 = if tr.consume {
                index + 1
            } else {
                index
            };
            let n = pick(tr, c);
            assert(valid_target(t.len(), tr.inside) && valid_target(t.len(), tr.outside));
            let e = Seq::<u16>::empty();
            let g = (f - 1) as nat;
            assert(targets(e, n) =~= seq![n]);
            assert(seq![n].drop_first() =~= e);
            assert(dfs_list(t, e, input, e, i2, c, g) == Search::Missing);
            assert(dfs_list(t, e, input, seq![n], i2, c, g) == dfs(t, e, input, n, i2, c, g));
            assert(dfs(t, e, input, state, index, symbol, f) == dfs_list(t, e, input, seq![n], i2, c, g));
            if !is_terminal(n) {
                lemma_dfs_walk(t, input, n, i2, c, g);
            }
        }
    }
}

/// A NFA made from a DFA (see [Nfa::from_dfa]) decides by depth-first
/// search exactly when the DFA's run ends, and finds a match of `n` symbols
/// exactly when the run accepts after reading `n` symbols.
pub proof fn lemma_from_dfa_runs(t: Seq<Transition>, input: Seq<u8>)
    requires
        dfa_wf(t),
        t.len() < 0x8000,
    ensures
        nfa_halts(t, Seq::<u16>::empty(), input) == dfa_halts(t, input),
        dfa_halts(t, input) ==> nfa_search(t, Seq::<u16>::empty(), input) == search_of(dfa_end(t, input)),
{
    let s = Seq::<u16>::empty();
    if nfa_halts(t, s, input) {
        let f = choose|f: nat| !(#[trigger] dfs(t, s, input, INITIAL_STATE, 0, 0, f) is Stuck);
        lemma_dfs_walk(t, input, INITIAL_STATE, 0, 0, f);
        assert(!(dfa_walk(t, input, INITIAL_STATE, 0, 0, f) is Unfinished));
        lemma_end_is_walk(t, input, INITIAL_STATE, 0, 0, f);
    }
    if dfa_halts(t, input) {
        let g = choose|g: nat| !(#[trigger] dfa_walk(t, input, INITIAL_STATE, 0, 0, g) is Unfinished);
        lemma_dfs_walk(t, input, INITIAL_STATE, 0, 0, g);
        assert(!(dfs(t, s, input, INITIAL_STATE, 0, 0, g) is Stuck));
    }
}

/// Inversion ([Nfa::invert]) of a NFA made from a DFA: it is the NFA made
/// from the inverted DFA, so its depth-first run decides exactly when the
/// DFA's run ends, and finds a match of `n` symbols exactly when the DFA's
/// run rejects after reading `n` symbols.
pub proof fn lemma_invert_from_dfa(t: Seq<Transition>, input: Seq<u8>)
    requires
        dfa_wf(t),
        t.len() < 0x8000,
    ensures
        invert_nfa((t, Seq::<u16>::empty())) == (crate::dfa::invert_table(t), Seq::<u16>::empty()),
        nfa_halts(invert_nfa((t, Seq::<u16>::empty())).0, Seq::<u16>::empty(), input) == dfa_halts(t, input),
        dfa_halts(t, input) ==> nfa_search(invert_nfa((t, Seq::<u16>::empty())).0, Seq::<u16>::empty(), input)
            == search_of(crate::dfa::swap_end(dfa_end(t, input))),
{
    let e = Seq::<u16>::empty();
    let it = crate::dfa::invert_table(t);
    assert forall|i: int| 0 <= i < t.len() implies #[trigger] invert_nfa((t, e)).0[i] == it[i] by {
        let tr = t[i];
        assert(valid_target(t.len(), tr.inside));
        assert(valid_target(t.len(), tr.outside));
        assert(!is_list(tr.inside) && !is_list(tr.outside));
    }
    assert(invert_nfa((t, e)).0 =~= it);
    assert(invert_nfa((t, e)).1 =~= e);
    assert forall|i: int| 0 <= i < it.len() implies valid_target(it.len(), #[trigger] it[i].inside) && valid_target(
        it.len(),
        it[i].outside,
    ) by {
        let tr = t[i];
        assert(valid_target(t.len(), tr.inside));
        assert(valid_target(t.len(), tr.outside));
    }
    crate::dfa::lemma_invert_runs(t, input);
    lemma_from_dfa_runs(it, input);
}

/// A match from position `k + q` of the input after `k + p` symbols is a
/// match from position `q` of the input without its first `k` symbols,
/// after `p` of them.
pub proof fn lemma_match_suffix(
    t: Seq<Transition>,
    s: Seq<u16>,
    input: Seq<u8>,
    x: int,
    k: nat,
    q: nat,
    p: nat,
)
    requires
        k <= input.len(),
    ensures
        match_from(t, s, input, x, k + q, k + p) == match_from(t, s, input.skip(k as int), x, q, p),
    decreases input.len() - (k + q),
{
    reveal(match_from);
    let w = input.skip(k as int);
    if k + q < input.len() {
        let c = input[(k + q) as int];
        assert(w[q as int] == c);
        assert forall|y: int| 0 <= y < t.len() implies #[trigger] match_from(t, s, input, y, k + (q + 1), k + p) == match_from(
            t,
            s,
            w,
            y,
            q + 1,
            p,
        ) by {
            lemma_match_suffix(t, s, input, y, k, q + 1, p);
        }
        assert(k + q + 1 == k + (q + 1));
        if match_from(t, s, input, x, k + q, k + p) {
            let z = choose|z: int|
                #[trigger] round_reach(t, s, set![x], c).contains(z) && {
                    ||| (k + p == k + q + 1 && targets(s, pick(t[z], c)).contains(ACCEPTING_STATE))
                    ||| exists|y: int|
                        0 <= y < t.len() && #[trigger] targets(s, pick(t[z], c)).contains(y as u16) && t[y].consume
                            && match_from(t, s, input, y, k + q + 1, k + p)
                };
            if !(k + p == k + q + 1 && targets(s, pick(t[z], c)).contains(ACCEPTING_STATE)) {
                let y = choose|y: int|
                    0 <= y < t.len() && #[trigger] targets(s, pick(t[z], c)).contains(y as u16) && t[y].consume
                        && match_from(t, s, input, y, k + q + 1, k + p);
                assert(match_from(t, s, w, y, q + 1, p));
            }
        }
        if match_from(t, s, w, x, q, p) {
            let z = choose|z: int|
                #[trigger] round_reach(t, s, set![x], c).contains(z) && {
                    ||| (p == q + 1 && targets(s, pick(t[z], c)).contains(ACCEPTING_STATE))
                    ||| exists|y: int|
                        0 <= y < t.len() && #[trigger] targets(s, pick(t[z], c)).contains(y as u16) && t[y].consume
                            && match_from(t, s, w, y, q + 1, p)
                };
            if !(p == q + 1 && targets(s, pick(t[z], c)).contains(ACCEPTING_STATE)) {
                let y = choose|y: int|
                    0 <= y < t.len() && #[trigger] targets(s, pick(t[z], c)).contains(y as u16) && t[y].consume
                        && match_from(t, s, w, y, q + 1, p);
                assert(match_from(t, s, input, y, k + q + 1, k + p));
            }
        }
    }
}

/// Two states tables give every state of `t`, on every symbol, the same
/// set of next states (perhaps in another order).
pub open spec fn same_targets(t: Seq<Transition>, s1: Seq<u16>, s2: Seq<u16>) -> bool {
    forall|x: int, c: u8, v: u16|
        #![trigger targets(s1, pick(t[x], c)).contains(v)]
        #![trigger targets(s2, pick(t[x], c)).contains(v)]
        0 <= x < t.len() ==> targets(s1, pick(t[x], c)).contains(v) == targets(s2, pick(t[x], c)).contains(v)
}

/// With the same sets of next states, a round reaches the same states.
proof fn lemma_same_targets_reach(t: Seq<Transition>, s1: Seq<u16>, s2: Seq<u16>, a: Set<int>, c: u8)
    requires
        same_targets(t, s1, s2),
    ensures
        round_reach(t, s1, a, c) == round_reach(t, s2, a, c),
{
    reveal(quiet_path);
    assert forall|p: Seq<int>| #[trigger] quiet_path(t, s1, c, p) == quiet_path(t, s2, c, p) by {
        assert forall|i: int| 0 <= i < p.len() - 1 implies quiet_step(t, s1, c, #[trigger] p[i], p[i + 1]) == quiet_step(
            t,
            s2,
            c,
            p[i],
            p[i + 1],
        ) by {
            if 0 <= p[i] < t.len() {
                assert(targets(s1, pick(t[p[i]], c)).contains(p[i + 1] as u16) == targets(s2, pick(t[p[i]], c)).contains(
                    p[i + 1] as u16,
                ));
            }
        }
    }
    assert forall|y: int| round_reach(t, s1, a, c).contains(y) == round_reach(t, s2, a, c).contains(y) by {
        if round_reach(t, s1, a, c).contains(y) {
            let p = choose|p: Seq<int>| #[trigger] quiet_path(t, s1, c, p) && a.contains(p[0]) && p.last() == y;
            assert(quiet_path(t, s2, c, p));
        }
        if round_reach(t, s2, a, c).contains(y) {
            let p = choose|p: Seq<int>| #[trigger] quiet_path(t, s2, c, p) && a.contains(p[0]) && p.last() == y;
            assert(quiet_path(t, s1, c, p));
        }
    }
    assert(round_reach(t, s1, a, c) =~= round_reach(t, s2, a, c));
}

/// With the same sets of next states, the same matches: the order within
/// the lists of next states does not matter to which matches there are.
pub proof fn lemma_same_targets_match(
    t: Seq<Transition>,
    s1: Seq<u16>,
    s2: Seq<u16>,
    input: Seq<u8>,
    x: int,
    pos: nat,
    p: nat,
)
    requires
        same_targets(t, s1, s2),
    ensures
        match_from(t, s1, input, x, pos, p) == match_from(t, s2, input, x, pos, p),
    decreases input.len() - pos,
{
    reveal(match_from);
    if pos < input.len() {
        let c = input[pos as int];
        lemma_same_targets_reach(t, s1, s2, set![x], c);
        assert forall|y: int| 0 <= y < t.len() implies #[trigger] match_from(t, s1, input, y, pos + 1, p) == match_from(
            t,
            s2,
            input,
            y,
            pos + 1,
            p,
        ) by {
            lemma_same_targets_match(t, s1, s2, input, y, pos + 1, p);
        }
        if match_from(t, s1, input, x, pos, p) {
            let z = choose|z: int|
                #[trigger] round_reach(t, s1, set![x], c).contains(z) && {
                    ||| (p == pos + 1 && targets(s1, pick(t[z], c)).contains(ACCEPTING_STATE))
                    ||| exists|y: int|
                        0 <= y < t.len() && #[trigger] targets(s1, pick(t[z], c)).contains(y as u16) && t[y].consume
                            && match_from(t, s1, input, y, pos + 1, p)
                };
            lemma_reach_bound(t, s1, set![x], c, z);
            assert(round_reach(t, s2, set![x], c).contains(z));
            assert(targets(s1, pick(t[z], c)).contains(ACCEPTING_STATE) == targets(s2, pick(t[z], c)).contains(ACCEPTING_STATE));
            if !(p == pos + 1 && targets(s1, pick(t[z], c)).contains(ACCEPTING_STATE)) {
                let y = choose|y: int|
                    0 <= y < t.len() && #[trigger] targets(s1, pick(t[z], c)).contains(y as u16) && t[y].consume
                        && match_from(t, s1, input, y, pos + 1, p);
                assert(targets(s2, pick(t[z], c)).contains(y as u16));
                assert(match_from(t, s2, input, y, pos + 1, p));
            }
            assert(match_from(t, s2, input, x, pos, p));
        }
        if match_from(t, s2, input, x, pos, p) {
            let z = choose|z: int|
                #[trigger] round_reach(t, s2, set![x], c).contains(z) && {
                    ||| (p == pos + 1 && targets(s2, pick(t[z], c)).contains(ACCEPTING_STATE))
                    ||| exists|y: int|
                        0 <= y < t.len() && #[trigger] targets(s2, pick(t[z], c)).contains(y as u16) && t[y].consume
                            && match_from(t, s2, input, y, pos + 1, p)
                };
            lemma_reach_bound(t, s2, set![x], c, z);
            assert(round_reach(t, s1, set![x], c).contains(z));
            assert(targets(s1, pick(t[z], c)).contains(ACCEPTING_STATE) == targets(s2, pick(t[z], c)).contains(ACCEPTING_STATE));
            if !(p == pos + 1 && targets(s2, pick(t[z], c)).contains(ACCEPTING_STATE)) {
                let y = choose|y: int|
                    0 <= y < t.len() && #[trigger] targets(s2, pick(t[z], c)).contains(y as u16) && t[y].consume
                        && match_from(t, s2, input, y, pos + 1, p);
                assert(targets(s1, pick(t[z], c)).contains(y as u16));
                assert(match_from(t, s1, input, y, pos + 1, p));
            }
            assert(match_from(t, s1, input, x, pos, p));
        }
    }
}

/// The greedy and the lazy repetition have the same states table up to the
/// order of the fork's two next states.
proof fn lemma_repeat_same_targets(a: (Seq<Transition>, Seq<u16>))
    requires
        nfa_wf(a.0, a.1),
        1 + a.0.len() < 0x8000,
        3 + a.1.len() < 0x7ffe,
    ensures
        repeat_nfa(a, true).0 == repeat_nfa(a, false).0,
        same_targets(repeat_nfa(a, true).0, repeat_nfa(a, true).1, repeat_nfa(a, false).1),
{
    lemma_repeat_wf(a, true);
    lemma_repeat_wf(a, false);
    let tt = repeat_nfa(a, true).0;
    let sg = repeat_nfa(a, true).1;
    let sl = repeat_nfa(a, false).1;
    assert(sg.len() == sl.len());
    assert forall|k: int| 3 <= k < sg.len() implies #[trigger] sg[k] == sl[k] by {}
    assert(field_at(tt, 0) == 0x8000u16);
    assert forall|x: int, c: u8, v: u16| 0 <= x < tt.len() implies targets(sg, pick(tt[x], c)).contains(v) == targets(
        sl,
        pick(tt[x], c),
    ).contains(v) by {
        let r = pick(tt[x], c);
        if is_list(r) {
            if list_at(r) == 0 {
                assert(targets(sg, r) =~= seq![1u16, ACCEPTING_STATE]);
                assert(targets(sl, r) =~= seq![ACCEPTING_STATE, 1u16]);
                assert(seq![1u16, ACCEPTING_STATE][0] == 1u16 && seq![1u16, ACCEPTING_STATE][1] == ACCEPTING_STATE);
                assert(seq![ACCEPTING_STATE, 1u16][0] == ACCEPTING_STATE && seq![ACCEPTING_STATE, 1u16][1] == 1u16);
            } else {
                let q = if r == tt[x].inside {
                    2 * x
                } else {
                    2 * x + 1
                };
                assert(field_at(tt, q) == r);
                assert(q != 0);
                assert(list_end(sg, field_at(tt, 0)) < list_at(field_at(tt, q)) || list_end(sg, field_at(tt, q))
                    < list_at(field_at(tt, 0)));
                assert(list_at(r) >= 3);
                assert(targets(sg, r) =~= targets(sl, r));
            }
        }
    }
}

/// Greedy and lazy repetition ([Nfa::repeat_greedy], [Nfa::repeat_lazy])
/// differ only in which alternative they try first: they match after the
/// same numbers of symbols.
pub proof fn lemma_repeat_same_matches(a: (Seq<Transition>, Seq<u16>), input: Seq<u8>, p: nat)
    requires
        nfa_wf(a.0, a.1),
        1 + a.0.len() < 0x8000,
        3 + a.1.len() < 0x7ffe,
    ensures
        nfa_matches(repeat_nfa(a, true).0, repeat_nfa(a, true).1, input, p) == nfa_matches(
            repeat_nfa(a, false).0,
            repeat_nfa(a, false).1,
            input,
            p,
        ),
{
    lemma_repeat_same_targets(a);
    lemma_same_targets_match(
        repeat_nfa(a, true).0,
        repeat_nfa(a, true).1,
        repeat_nfa(a, false).1,
        input,
        INITIAL_STATE as int,
        0,
        p,
    );
}

/// A match through the states that follow `z`: acceptance on `c`.
pub(crate) proof fn lemma_step_accept(t: Seq<Transition>, s: Seq<u16>, input: Seq<u8>, z: int, c: u8, idx: nat, w: int)
    requires
        round_reach(t, s, set![z], c).contains(w),
        targets(s, pick(t[w], c)).contains(ACCEPTING_STATE),
    ensures
        step_match(t, s, input, z, c, idx, idx),
{
    reveal(step_match);
}

/// A match through the states that follow `z`: a state that reads next and
/// matches from there.
pub(crate) proof fn lemma_step_next(t: Seq<Transition>, s: Seq<u16>, input: Seq<u8>, z: int, c: u8, idx: nat, p: nat, w: int, y: int)
    requires
        round_reach(t, s, set![z], c).contains(w),
        0 <= y < t.len(),
        targets(s, pick(t[w], c)).contains(y as u16),
        t[y].consume,
        match_from(t, s, input, y, idx, p),
    ensures
        step_match(t, s, input, z, c, idx, p),
{
    reveal(step_match);
}

/// The state of a match through the states that follow `z` that accepts or
/// leads to a state reading next.
pub(crate) proof fn lemma_step_open(t: Seq<Transition>, s: Seq<u16>, input: Seq<u8>, z: int, c: u8, idx: nat, p: nat) -> (w: int)
    requires
        step_match(t, s, input, z, c, idx, p),
    ensures
        round_reach(t, s, set![z], c).contains(w),
        (p == idx && targets(s, pick(t[w], c)).contains(ACCEPTING_STATE)) || exists|y: int|
            0 <= y < t.len() && #[trigger] targets(s, pick(t[w], c)).contains(y as u16) && t[y].consume
                && match_from(t, s, input, y, idx, p),
{
    reveal(step_match);
    choose|w: int|
        #[trigger] round_reach(t, s, set![z], c).contains(w) && {
            ||| (p == idx && targets(s, pick(t[w], c)).contains(ACCEPTING_STATE))
            ||| exists|y: int|
                0 <= y < t.len() && #[trigger] targets(s, pick(t[w], c)).contains(y as u16) && t[y].consume
                    && match_from(t, s, input, y, idx, p)
        }
}

/// A match from a state is a match through the states that follow it on
/// the symbol it reads.
pub(crate) proof fn lemma_match_is_step(t: Seq<Transition>, s: Seq<u16>, input: Seq<u8>, x: int, pos: nat, p: nat)
    ensures
        match_from(t, s, input, x, pos, p) == (pos < input.len() && step_match(
            t,
            s,
            input,
            x,
            input[pos as int],
            pos + 1,
            p,
        )),
{
    reveal(match_from);
    reveal(step_match);
}

/// On a table without lists whose targets are final values or states, the
/// next states of a state are its one target.
proof fn lemma_single_target(t: Seq<Transition>, x: int, c: u8)
    requires
        dfa_wf(t),
        t.len() < 0x8000,
        0 <= x < t.len(),
    ensures
        targets(Seq::<u16>::empty(), pick(t[x], c)) == seq![pick(t[x], c)],
        is_terminal(pick(t[x], c)) || (pick(t[x], c) as int) < t.len(),
        targets(Seq::<u16>::empty(), pick(t[x], c)).contains(pick(t[x], c)),
        forall|v: u16| #[trigger] targets(Seq::<u16>::empty(), pick(t[x], c)).contains(v) ==> v == pick(t[x], c),
{
    assert(valid_target(t.len(), t[x].inside) && valid_target(t.len(), t[x].outside));
    let n = pick(t[x], c);
    assert(targets(Seq::<u16>::empty(), n) =~= seq![n]);
    assert(seq![n][0] == n);
}

/// On a deterministic table without lists, a walk that accepts after `p`
/// symbols is a match: from a state that reads, a match from its position;
/// from one that does not, a match through the states that follow it.
proof fn lemma_walk_match(t: Seq<Transition>, input: Seq<u8>, x: u16, sym: u8, pos: nat, f: nat, p: nat)
    requires
        dfa_wf(t),
        t.len() < 0x8000,
        (x as int) < t.len(),
        dfa_walk(t, input, x, sym, pos, f) is Accept,
        dfa_walk(t, input, x, sym, pos, f)->Accept_pos == p,
    ensures
        t[x as int].consume ==> match_from(t, Seq::<u16>::empty(), input, x as int, pos, p),
        !t[x as int].consume ==> step_match(t, Seq::<u16>::empty(), input, x as int, sym, pos, p),
    decreases f,
{
    let e = Seq::<u16>::empty();
    let xi = x as int;
    let tr = t[xi];
    let c = if tr.consume {
        input[pos as int]
    } else {
        sym
    };
    let p1 = if tr.consume {
        pos + 1
    } else {
        pos
    };
    let n = pick(tr, c);
    lemma_single_target(t, xi, c);
    lemma_reach_start(t, e, set![xi], c, xi);
    if n == ACCEPTING_STATE {
        lemma_step_accept(t, e, input, xi, c, p1, xi);
    } else {
        let ni = n as int;
        lemma_walk_match(t, input, n, c, p1, (f - 1) as nat, p);
        if t[ni].consume {
            lemma_step_next(t, e, input, xi, c, p1, p, xi, ni);
        } else {
            assert(quiet_step(t, e, c, xi, ni));
            let w = lemma_step_open(t, e, input, ni, c, p1, p);
            lemma_reach_prepend(t, e, c, xi, ni, w);
            if p == p1 && targets(e, pick(t[w], c)).contains(ACCEPTING_STATE) {
                lemma_step_accept(t, e, input, xi, c, p1, w);
            } else {
                let y = choose|y: int|
                    0 <= y < t.len() && #[trigger] targets(e, pick(t[w], c)).contains(y as u16) && t[y].consume
                        && match_from(t, e, input, y, p1, p);
                lemma_step_next(t, e, input, xi, c, p1, p, w, y);
            }
        }
    }
    if tr.consume {
        lemma_match_is_step(t, e, input, xi, pos, p);
    }
}

/// Along a chain of states that follow one another without reading, on a
/// deterministic table without lists, the run from any state after the
/// first goes on as from the target of the last one.
proof fn lemma_chain_end(t: Seq<Transition>, input: Seq<u8>, q: Seq<int>, c: u8, p1: nat, i: int)
    requires
        dfa_wf(t),
        t.len() < 0x8000,
        quiet_path(t, Seq::<u16>::empty(), c, q),
        1 <= i < q.len(),
    ensures
        dfa_halts_from(t, input, q[i] as u16, c, p1) == dfa_halts_at(t, input, pick(t[q.last()], c), c, p1),
        dfa_halts_from(t, input, q[i] as u16, c, p1) ==> dfa_end_from(t, input, q[i] as u16, c, p1)
            == dfa_end_at(t, input, pick(t[q.last()], c), c, p1),
    decreases q.len() - i,
{
    let e = Seq::<u16>::empty();
    lemma_path_step(t, e, c, q, i - 1);
    let qi = q[i] as u16;
    assert(qi as int == q[i]);
    lemma_step_equiv(t, input, qi, c, p1);
    if i < q.len() - 1 {
        lemma_path_step(t, e, c, q, i);
        lemma_single_target(t, q[i], c);
        assert(pick(t[q[i]], c) as int == q[i + 1]);
        lemma_chain_end(t, input, q, c, p1, i + 1);
    }
}

/// On a deterministic table without lists, a match from a state that reads
/// is where its run accepts.
proof fn lemma_match_walk(t: Seq<Transition>, input: Seq<u8>, x: int, pos: nat, p: nat, sym: u8)
    requires
        dfa_wf(t),
        t.len() < 0x8000,
        0 <= x < t.len(),
        t[x].consume,
        match_from(t, Seq::<u16>::empty(), input, x, pos, p),
    ensures
        dfa_halts_from(t, input, x as u16, sym, pos),
        dfa_end_from(t, input, x as u16, sym, pos) is Accept,
        dfa_end_from(t, input, x as u16, sym, pos)->Accept_pos == p,
    decreases input.len() - pos,
{
    let e = Seq::<u16>::empty();
    lemma_match_is_step(t, e, input, x, pos, p);
    let c = input[pos as int];
    let p1 = pos + 1;
    let z = lemma_step_open(t, e, input, x, c, p1, p);
    let q = choose|q: Seq<int>| #[trigger] quiet_path(t, e, c, q) && set![x].contains(q[0]) && q.last() == z;
    lemma_path_first(t, e, c, q);
    assert(q[0] == x);
    assert(x as u16 as int == x);
    lemma_step_equiv(t, input, x as u16, sym, pos);
    lemma_reach_bound(t, e, set![x], c, z);
    let last = pick(t[z], c);
    lemma_single_target(t, z, c);
    if q.len() > 1 {
        lemma_path_step(t, e, c, q, 0);
        lemma_single_target(t, x, c);
        assert(pick(t[x], c) as int == q[1]);
        lemma_chain_end(t, input, q, c, p1, 1);
    }
    if p == pos + 1 && targets(e, last).contains(ACCEPTING_STATE) {
        assert(last == ACCEPTING_STATE);
    } else {
        let y = choose|y: int|
            0 <= y < t.len() && #[trigger] targets(e, pick(t[z], c)).contains(y as u16) && t[y].consume
                && match_from(t, e, input, y, pos + 1, p);
        assert(last == y as u16);
        lemma_match_walk(t, input, y, p1, p, c);
    }
}

/// A NFA made from a DFA whose initial state reads (see [Nfa::from_dfa])
/// matches after `n` symbols exactly when the DFA's run accepts after `n`
/// symbols; so its breadth-first run accepts exactly when the DFA's run
/// does, after as many symbols.
pub proof fn lemma_from_dfa_shortest(t: Seq<Transition>, input: Seq<u8>)
    requires
        dfa_wf(t),
        t.len() < 0x8000,
        t[INITIAL_STATE as int].consume,
    ensures
        forall|n: nat|
            #[trigger] nfa_matches(t, Seq::<u16>::empty(), input, n) <==> (dfa_halts(t, input) && dfa_end(
                t,
                input,
            ) is Accept && dfa_end(t, input)->Accept_pos == n),
        nfa_shortest(t, Seq::<u16>::empty(), input).0 == (dfa_halts(t, input) && dfa_end(t, input) is Accept),
        nfa_shortest(t, Seq::<u16>::empty(), input).0 ==> nfa_shortest(t, Seq::<u16>::empty(), input).1 == dfa_end(
            t,
            input,
        )->Accept_pos,
{
    let e = Seq::<u16>::empty();
    assert forall|n: nat|
        #[trigger] nfa_matches(t, e, input, n) <==> (dfa_halts(t, input) && dfa_end(t, input) is Accept && dfa_end(
            t,
            input,
        )->Accept_pos == n) by {
        if nfa_matches(t, e, input, n) {
            lemma_match_walk(t, input, INITIAL_STATE as int, 0, n, 0);
        }
        if dfa_halts(t, input) && dfa_end(t, input) is Accept && dfa_end(t, input)->Accept_pos == n {
            let f = choose|f: nat| !(#[trigger] dfa_walk(t, input, INITIAL_STATE, 0, 0, f) is Unfinished);
            lemma_end_is_walk(t, input, INITIAL_STATE, 0, 0, f);
            lemma_walk_match(t, input, INITIAL_STATE, 0, 0, f, n);
        }
    }
    lemma_shortest_match(t, e, input);
    if dfa_halts(t, input) && dfa_end(t, input) is Accept {
        assert(nfa_matches(t, e, input, dfa_end(t, input)->Accept_pos));
    }
}

impl View for Nfa {
    type V = (Seq<Transition>, Seq<u16>);

    open spec fn view(&self) -> (Seq<Transition>, Seq<u16>) {
        (self.transitions@, self.states@)
    }
}

impl Nfa {
    /// The automaton is well formed (see [nfa_wf]).
    pub open spec fn wf(&self) -> bool {
        nfa_wf(self@.0, self@.1)
    }

    /// Returns the number of states.
    pub fn size(&self) -> (r: u16)
        ensures
            r == self@.0.len() as u16,
    {
        self.transitions.len() as u16
    }

    /// Given a state, gives the range of input symbols that will
    /// cause a transition to the "inside" state.
    pub fn range(&self, state: u16) -> (r: RangeInclusive<u8>)
        requires
            (state as int) < self@.0.len(),
        ensures
            r@.start == self@.0[state as int].min,
            r@.end == self@.0[state as int].max,
            !r@.exhausted,
    {
        let transition = &self.transitions[state as usize];
        transition.min..=transition.max
    }

    /// Given a raw next state value, produce a list of next states.
    pub fn translate_state(&self, state: &u16) -> (r: Vec<u16>)
        requires
            readable_raw(self@.1, *state),
        ensures
            r@ == targets(self@.1, *state),
    {
        let v = *state;
        let mut r: Vec<u16> = Vec::new();
        if v >= 0xfffe || v < 0x8000 {
            r.push(v);
            proof {
                assert(r@ =~= targets(self@.1, v));
            }
            return r;
        }
        let index = (v - 0x8000) as usize;
        let size = self.states[index] as usize;
        let mut k = index + 1;
        while k <= index + size
            invariant
                index == list_at(v),
                size == self@.1[index as int],
                index + size < self@.1.len(),
                index + 1 <= k <= index + size + 1,
                r@ =~= self@.1.subrange(index + 1, k as int),
            decreases index + size + 1 - k,
        {
            r.push(self.states[k]);
            k = k + 1;
        }
        r
    }

    /// Given a raw next state value, gives mutable access to its next
    /// states: the entries of the list it refers to, or else the value itself.
    pub fn translate_state_mut<'a>(&'a mut self, state: &'a mut u16) -> (r: &'a mut [u16])
        requires
            readable_raw(old(self)@.1, *old(state)),
        ensures
            r@ == targets(old(self)@.1, *old(state)),
            is_list(*old(state)) ==> {
                &&& *final(state) == *old(state)
                &&& final(self)@.0 == old(self)@.0
                &&& final(self)@.1 == old(self)@.1.subrange(0, list_at(*old(state)) + 1) + final(r)@
                    + old(self)@.1.subrange(list_end(old(self)@.1, *old(state)) + 1, old(self)@.1.len() as int)
            },
            !is_list(*old(state)) ==> *final(self) == *old(self) && final(r)@ == seq![*final(state)],
    {
        if *state >= 0xfffe || *state < 0x8000 {
            return core::slice::from_mut(state);
        }
        let index = (*state - 0x8000) as usize;
        let size = self.states[index] as usize;
        let all = self.states.as_mut_slice();
        let (_, rest) = all.split_at_mut(index + 1);
        let (mid, _) = rest.split_at_mut(size);
        mid
    }

    /// Given a state, returns its "inside" next states.
    pub fn inside(&self, state: u16) -> (r: Vec<u16>)
        requires
            (state as int) < self@.0.len(),
            readable_raw(self@.1, self@.0[state as int].inside),
        ensures
            r@ == targets(self@.1, self@.0[state as int].inside),
    {
        let transition = &self.transitions[state as usize];
        proof {
            assert(field_at(self@.0, 2 * state as int) == transition.inside);
        }
        self.translate_state(&transition.inside)
    }

    /// Given a state, returns its "outside" next states.
    pub fn outside(&self, state: u16) -> (r: Vec<u16>)
        requires
            (state as int) < self@.0.len(),
            readable_raw(self@.1, self@.0[state as int].outside),
        ensures
            r@ == targets(self@.1, self@.0[state as int].outside),
    {
        let transition = &self.transitions[state as usize];
        proof {
            assert(field_at(self@.0, 2 * state as int + 1) == transition.outside);
        }
        self.translate_state(&transition.outside)
    }

    /// Given a state, returns whether to consume input upon transitioning to it.
    pub fn consumes(&self, state: u16) -> (r: bool)
        requires
            (state as int) < self@.0.len(),
        ensures
            r == self@.0[state as int].consume,
    {
        let transition = &self.transitions[state as usize];
        transition.consume
    }

    /// Given a state and an input symbol, produces all next states.
    pub fn apply(&self, state: u16, input: u8) -> (r: Vec<u16>)
        requires
            (state as int) < self@.0.len(),
            readable_raw(self@.1, pick(self@.0[state as int], input)),
        ensures
            r@ == targets(self@.1, pick(self@.0[state as int], input)),
    {
        let transition = &self.transitions[state as usize];
        if transition.min <= input && input <= transition.max {
            proof {
                assert(field_at(self@.0, 2 * state as int) == transition.inside);
            }
            self.translate_state(&transition.inside)
        } else {
            proof {
                assert(field_at(self@.0, 2 * state as int + 1) == transition.outside);
            }
            self.translate_state(&transition.outside)
        }
    }

    /// Passes every state value, in transitions and in lists, through a relabeling.
    fn map_all_states(&mut self, k: Relabel)
        requires
            lists_ok(old(self)@.0, old(self)@.1),
            old(self)@.0.len() < 0x8000,
            forall|q: int|
                0 <= q < 2 * old(self)@.0.len() && !is_list(field_at(old(self)@.0, q))
                    ==> relabel_ok(k, #[trigger] field_at(old(self)@.0, q)),
            forall|j: int|
                0 <= j < old(self)@.1.len() && listed_upto(
                    old(self)@.0,
                    old(self)@.1,
                    2 * old(self)@.0.len() as int,
                    j,
                ) ==> relabel_ok(k, #[trigger] old(self)@.1[j]),
        ensures
            final(self)@ == map_states(old(self)@.0, old(self)@.1, relabel_fn(k)),
    {
        let ghost t0 = self@.0;
        let ghost s0 = self@.1;
        let ghost f = relabel_fn(k);
        let n = self.transitions.len();
        let mut q: usize = 0;
        while q < 2 * n
            invariant
                t0 == old(self)@.0,
                s0 == old(self)@.1,
                f == relabel_fn(k),
                lists_ok(t0, s0),
                n == t0.len(),
                n < 0x8000,
                self@.0.len() == n,
                self@.1.len() == s0.len(),
                q <= 2 * n,
                forall|q2: int|
                    0 <= q2 < 2 * t0.len() && !is_list(field_at(t0, q2)) ==> relabel_ok(
                        k,
                        #[trigger] field_at(t0, q2),
                    ),
                forall|j: int|
                    0 <= j < s0.len() && listed_upto(t0, s0, 2 * t0.len() as int, j)
                        ==> relabel_ok(k, #[trigger] s0[j]),
                forall|j: int|
                    0 <= j < n ==> {
                        &&& (#[trigger] self@.0[j]).min == t0[j].min
                        &&& self@.0[j].max == t0[j].max
                        &&& self@.0[j].consume == t0[j].consume
                        &&& self@.0[j].inside == if 2 * j < q && !is_list(t0[j].inside) {
                            f(t0[j].inside)
                        } else {
                            t0[j].inside
                        }
                        &&& self@.0[j].outside == if 2 * j + 1 < q && !is_list(t0[j].outside) {
                            f(t0[j].outside)
                        } else {
                            t0[j].outside
                        }
                    },
                forall|j: int|
                    0 <= j < s0.len() ==> #[trigger] self@.1[j] == if listed_upto(
                        t0,
                        s0,
                        q as int,
                        j,
                    ) {
                        f(s0[j])
                    } else {
                        s0[j]
                    },
            decreases 2 * n - q,
        {
            let i = q / 2;
            let side = q % 2 == 0;
            let mut tr = self.transitions[i];
            let raw = if side {
                tr.inside
            } else {
                tr.outside
            };
            proof {
                assert(raw == field_at(t0, q as int));
            }
            if raw < 0xfffe && raw >= 0x8000 {
                let lo = (raw - 0x8000) as usize;
                let size = self.states[lo] as usize;
                proof {
                    assert(self@.1[lo as int] == s0[lo as int]) by {
                        if listed_upto(t0, s0, q as int, lo as int) {
                            let q2 = choose|q2: int| 0 <= q2 < q && #[trigger] list_holds(t0, s0, q2, lo as int);
                            assert(list_holds(t0, s0, q2, lo as int));
                        }
                    }
                }
                let ghost t_before = self@.0;
                let mut e = lo + 1;
                while e <= lo + size
                    invariant
                        t0 == old(self)@.0,
                        s0 == old(self)@.1,
                        f == relabel_fn(k),
                        lists_ok(t0, s0),
                        n == t0.len(),
                        self@.0.len() == n,
                        self@.1.len() == s0.len(),
                        q < 2 * n,
                        raw == field_at(t0, q as int),
                        is_list(raw),
                        lo == list_at(raw),
                        size == s0[lo as int],
                        lo + size < s0.len(),
                        lo + 1 <= e <= lo + size + 1,
                        forall|j: int|
                            0 <= j < s0.len() && listed_upto(t0, s0, 2 * t0.len() as int, j)
                                ==> relabel_ok(k, #[trigger] s0[j]),
                        self@.0 == t_before,
                        forall|j: int|
                            0 <= j < s0.len() ==> #[trigger] self@.1[j] == if listed_upto(
                                t0,
                                s0,
                                q as int,
                                j,
                            ) || (lo < j < e) {
                                f(s0[j])
                            } else {
                                s0[j]
                            },
                    decreases lo + size + 1 - e,
                {
                    proof {
                        assert(list_holds(t0, s0, q as int, e as int));
                        assert(!listed_upto(t0, s0, q as int, e as int)) by {
                            if listed_upto(t0, s0, q as int, e as int) {
                                let q2 = choose|q2: int| 0 <= q2 < q && #[trigger] list_holds(t0, s0, q2, e as int);
                                assert(list_holds(t0, s0, q2, e as int));
                            }
                        }
                        assert(listed_upto(t0, s0, 2 * t0.len() as int, e as int));
                    }
                    let v = self.states[e];
                    let w = relabel(&k, v);
                    self.states.set(e, w);
                    e = e + 1;
                }
                proof {
                    assert forall|j: int| 0 <= j < s0.len() implies #[trigger] self@.1[j] == if listed_upto(
                        t0,
                        s0,
                        q + 1,
                        j,
                    ) {
                        f(s0[j])
                    } else {
                        s0[j]
                    } by {
                        if lo < j <= lo + size {
                            assert(list_holds(t0, s0, q as int, j));
                        } else if listed_upto(t0, s0, q + 1, j) {
                            let q2 = choose|q2: int| 0 <= q2 < q + 1 && #[trigger] list_holds(t0, s0, q2, j);
                            assert(q2 != q);
                            assert(listed_upto(t0, s0, q as int, j));
                        }
                    }
                }
            } else {
                let w = relabel(&k, raw);
                if side {
                    tr.inside = w;
                } else {
                    tr.outside = w;
                }
                self.transitions.set(i, tr);
                proof {
                    assert forall|j: int| 0 <= j < s0.len() implies #[trigger] self@.1[j] == if listed_upto(
                        t0,
                        s0,
                        q + 1,
                        j,
                    ) {
                        f(s0[j])
                    } else {
                        s0[j]
                    } by {
                        if listed_upto(t0, s0, q + 1, j) {
                            let q2 = choose|q2: int| 0 <= q2 < q + 1 && #[trigger] list_holds(t0, s0, q2, j);
                            assert(q2 != q);
                            assert(listed_upto(t0, s0, q as int, j));
                        }
                    }
                }
            }
            q = q + 1;
        }
        proof {
            let (mt, ms) = map_states(t0, s0, f);
            assert(self@.0 =~= mt);
            assert(self@.1 =~= ms);
        }
    }

    /// Moves every list reference by `offset`.
    fn rebase_states_array(&mut self, offset: u16)
        requires
            forall|q: int|
                0 <= q < 2 * old(self)@.0.len() && is_list(#[trigger] field_at(old(self)@.0, q))
                    ==> field_at(old(self)@.0, q) + offset < 0xfffe,
        ensures
            final(self)@.0 == shift_lists(old(self)@.0, offset),
            final(self)@.1 == old(self)@.1,
    {
        let n = self.transitions.len();
        let mut i: usize = 0;
        while i < n
            invariant
                n == self@.0.len(),
                n == old(self)@.0.len(),
                self@.1 == old(self)@.1,
                i <= n,
                forall|q: int|
                    0 <= q < 2 * old(self)@.0.len() && is_list(#[trigger] field_at(old(self)@.0, q))
                        ==> field_at(old(self)@.0, q) + offset < 0xfffe,
                forall|j: int| 0 <= j < i ==> #[trigger] self@.0[j] == shift_lists(old(self)@.0, offset)[j],
                forall|j: int| i <= j < n ==> #[trigger] self@.0[j] == old(self)@.0[j],
            decreases n - i,
        {
            let mut tr = self.transitions[i];
            proof {
                assert(field_at(old(self)@.0, 2 * i as int) == tr.inside);
                assert(field_at(old(self)@.0, 2 * i as int + 1) == tr.outside);
            }
            if tr.inside < 0xfffe && tr.inside >= 0x8000 {
                tr.inside = tr.inside + offset;
            }
            if tr.outside < 0xfffe && tr.outside >= 0x8000 {
                tr.outside = tr.outside + offset;
            }
            self.transitions.set(i, tr);
            i = i + 1;
        }
        assert(self@.0 =~= shift_lists(old(self)@.0, offset));
    }

    fn rebase_transition_states(&mut self, offset: u16)
        requires
            old(self).wf(),
            old(self)@.0.len() + offset < 0xfffe,
        ensures
            final(self)@ == map_states(old(self)@.0, old(self)@.1, crate::dfa::rebase_fn(offset)),
    {
        proof {
            lemma_state_values(self@.0, self@.1);
        }
        self.map_all_states(Relabel::Rebase(offset));
    }

    fn replace_state(&mut self, from: u16, to: u16)
        requires
            lists_ok(old(self)@.0, old(self)@.1),
            old(self)@.0.len() < 0x8000,
        ensures
            final(self)@ == map_states(old(self)@.0, old(self)@.1, crate::dfa::replace_fn(from, to)),
    {
        self.map_all_states(Relabel::Replace(from, to));
    }

    /// Creates a new NFA that matches the concatenation of two NFAs.
    pub fn append(self, other: Self) -> (r: Self)
        requires
            self.wf(),
            other.wf(),
            self@.0.len() + other@.0.len() < 0x8000,
            self@.1.len() + other@.1.len() < 0x7ffe,
        ensures
            r@ == append_nfa(self@, other@),
            r.wf(),
    {
        let mut a = self;
        let mut b = other;
        let toffset = a.transitions.len() as u16;
        let soffset = a.states.len() as u16;
        a.replace_state(ACCEPTING_STATE, toffset);
        b.rebase_transition_states(toffset);
        proof {
            lemma_state_values(other@.0, other@.1);
            lemma_map_keeps_lists(other@.0, other@.1, crate::dfa::rebase_fn(toffset));
            assert forall|q: int|
                0 <= q < 2 * b@.0.len() && is_list(#[trigger] field_at(b@.0, q)) implies field_at(
                b@.0,
                q,
            ) + soffset < 0xfffe by {
                assert(valid_raw(other@.0.len(), other@.1, field_at(other@.0, q)));
            }
        }
        b.rebase_states_array(soffset);
        a.transitions.append(&mut b.transitions);
        a.states.append(&mut b.states);
        proof {
            lemma_append_wf(self@, other@);
            assert(a@ == append_nfa(self@, other@));
        }
        a
    }

    /// Creates a new NFA with opposite matching behavior.
    pub fn invert(self) -> (r: Self)
        requires
            self.wf(),
        ensures
            r@ == invert_nfa(self@),
            r.wf(),
    {
        let mut a = self;
        a.map_all_states(Relabel::Swap);
        proof {
            let f = crate::dfa::swap_fn();
            let (tt, ss) = invert_nfa(self@);
            lemma_state_values(self@.0, self@.1);
            assert forall|i: int| 0 <= i < self@.0.len() implies (#[trigger] tt[0 + i]).inside
                == lift(self@.0[i].inside, f, 0) && tt[0 + i].outside == lift(
                self@.0[i].outside,
                f,
                0,
            ) by {}
            assert forall|k: int| 0 <= k < self@.1.len() implies #[trigger] ss[0 + k]
                == if listed_upto(self@.0, self@.1, 2 * self@.0.len() as int, k) {
                f(self@.1[k])
            } else {
                self@.1[k]
            } by {}
            assert(part_ok(tt, ss, self@.0, self@.1, 0, 0, f));
            lemma_part_fields(tt, ss, self@.0, self@.1, 0, 0, f);
        }
        a
    }

    /// Inverting twice gives back the automaton.
    pub proof fn lemma_invert_involution(t: Seq<Transition>, s: Seq<u16>)
        requires
            nfa_wf(t, s),
        ensures
            invert_nfa(invert_nfa((t, s))) == (t, s),
    {
        let f = crate::dfa::swap_fn();
        lemma_map_twice(t, s, f, f);
        let m = map_states(t, s, |r: u16| f(f(r)));
        assert forall|i: int| 0 <= i < t.len() implies #[trigger] m.0[i] == t[i] by {}
        assert(m.0 =~= t);
        assert(m.1 =~= s);
    }

    fn quiet_first_state(&mut self)
        requires
            old(self)@.0.len() >= 1,
        ensures
            final(self)@ == (quiet_first(old(self)@.0), old(self)@.1),
    {
        let mut first = self.transitions[0];
        first.consume = false;
        self.transitions.set(0, first);
    }

    /// Creates a new NFA that matches either of two NFAs, the first one
    /// taking priority.  Its new initial state forks to both; it reads the
    /// first symbol for them where both of their initial states read, and
    /// reads nothing otherwise.
    pub fn combine(self, other: Self) -> (r: Self)
        requires
            self.wf(),
            other.wf(),
            1 + self@.0.len() + other@.0.len() < 0x8000,
            3 + self@.1.len() + other@.1.len() < 0x7ffe,
        ensures
            r@ == combine_nfa(self@, other@),
            r.wf(),
    {
        let mut a = self;
        let mut b = other;
        let reads = a.transitions[0].consume && b.transitions[0].consume;
        let toffset = a.transitions.len() as u16;
        let soffset = a.states.len() as u16;
        let mut r = Nfa {
            transitions: vec![
                Transition { min: 0, max: 255, inside: 0x8000, outside: 0, consume: reads },
            ],
            states: vec![2, 1, toffset + 1],
        };
        if reads {
            proof {
                lemma_quiet_first_wf(self@.0, self@.1);
                lemma_quiet_first_wf(other@.0, other@.1);
            }
            a.quiet_first_state();
            b.quiet_first_state();
        }
        assert(a@ == (quiet_if(self@.0, reads), self@.1) && b@ == (quiet_if(other@.0, reads), other@.1));
        a.rebase_transition_states(1);
        b.rebase_transition_states(toffset + 1);
        proof {
            lemma_state_values(quiet_if(self@.0, reads), self@.1);
            lemma_state_values(quiet_if(other@.0, reads), other@.1);
            lemma_map_keeps_lists(quiet_if(self@.0, reads), self@.1, crate::dfa::rebase_fn(1));
            lemma_map_keeps_lists(quiet_if(other@.0, reads), other@.1, crate::dfa::rebase_fn((toffset + 1) as u16));
            assert forall|q: int|
                0 <= q < 2 * a@.0.len() && is_list(#[trigger] field_at(a@.0, q)) implies field_at(
                a@.0,
                q,
            ) + 3 < 0xfffe by {
                assert(valid_raw(self@.0.len(), self@.1, field_at(quiet_if(self@.0, reads), q)));
            }
            assert forall|q: int|
                0 <= q < 2 * b@.0.len() && is_list(#[trigger] field_at(b@.0, q)) implies field_at(
                b@.0,
                q,
            ) + soffset + 3 < 0xfffe by {
                assert(valid_raw(other@.0.len(), other@.1, field_at(quiet_if(other@.0, reads), q)));
            }
        }
        a.rebase_states_array(3);
        b.rebase_states_array(soffset + 3);
        r.transitions.append(&mut a.transitions);
        r.states.append(&mut a.states);
        r.transitions.append(&mut b.transitions);
        r.states.append(&mut b.states);
        proof {
            lemma_combine_wf(self@, other@);
            assert(r@.0 =~= combine_nfa(self@, other@).0);
            assert(r@.1 =~= combine_nfa(self@, other@).1);
        }
        r
    }

    fn repeat(self, greedy: bool) -> (r: Self)
        requires
            self.wf(),
            1 + self@.0.len() < 0x8000,
            3 + self@.1.len() < 0x7ffe,
        ensures
            r@ == repeat_nfa(self@, greedy),
            r.wf(),
    {
        let mut a = self;
        let mut r = Nfa {
            transitions: vec![
                Transition { min: 0, max: 255, inside: 0x8000, outside: 0, consume: false },
            ],
            states: if greedy {
                vec![2, 1, ACCEPTING_STATE]
            } else {
                vec![2, ACCEPTING_STATE, 1]
            },
        };
        a.rebase_transition_states(1);
        proof {
            lemma_state_values(self@.0, self@.1);
            lemma_map_keeps_lists(self@.0, self@.1, crate::dfa::rebase_fn(1));
            let m = map_states(self@.0, self@.1, crate::dfa::rebase_fn(1));
            assert forall|j: int| 0 <= j < m.1.len() implies #[trigger] listed_upto(m.0, m.1, 2 * m.0.len() as int, j)
                == listed_upto(self@.0, self@.1, 2 * self@.0.len() as int, j) by {
                lemma_map_twice(self@.0, self@.1, crate::dfa::rebase_fn(1), crate::dfa::rebase_fn(0));
                if listed_upto(self@.0, self@.1, 2 * self@.0.len() as int, j) {
                    let q = choose|q: int| 0 <= q < 2 * self@.0.len() && #[trigger] list_holds(self@.0, self@.1, q, j);
                    lemma_header_not_listed(self@.0, self@.1, q);
                    assert(list_holds(m.0, m.1, q, j));
                }
                if listed_upto(m.0, m.1, 2 * m.0.len() as int, j) {
                    let q = choose|q: int| 0 <= q < 2 * m.0.len() && #[trigger] list_holds(m.0, m.1, q, j);
                    lemma_header_not_listed(self@.0, self@.1, q);
                    assert(list_holds(self@.0, self@.1, q, j));
                }
            }
            lemma_repeat_wf(self@, greedy);
            lemma_map_twice(self@.0, self@.1, crate::dfa::rebase_fn(1), crate::dfa::replace_fn(ACCEPTING_STATE, 0));
            lemma_mapped_lists_ok(self@.0, self@.1, crate::dfa::rebase_fn(1));
        }
        a.replace_state(ACCEPTING_STATE, 0);
        proof {
            let h = |r: u16| crate::dfa::replace_fn(ACCEPTING_STATE, 0)(crate::dfa::rebase_fn(1)(r));
            lemma_map_keeps_lists(self@.0, self@.1, h);
            assert forall|q: int|
                0 <= q < 2 * a@.0.len() && is_list(#[trigger] field_at(a@.0, q)) implies field_at(
                a@.0,
                q,
            ) + 3 < 0xfffe by {
                assert(valid_raw(self@.0.len(), self@.1, field_at(self@.0, q)));
            }
        }
        a.rebase_states_array(3);
        r.transitions.append(&mut a.transitions);
        r.states.append(&mut a.states);
        proof {
            assert(r@.0 =~= repeat_nfa(self@, greedy).0);
            assert(r@.1 =~= repeat_nfa(self@, greedy).1);
        }
        r
    }

    /// Creates a new NFA that matches zero or more times, as many as possible.
    pub fn repeat_greedy(self) -> (r: Self)
        requires
            self.wf(),
            1 + self@.0.len() < 0x8000,
            3 + self@.1.len() < 0x7ffe,
        ensures
            r@ == repeat_nfa(self@, true),
            r.wf(),
    {
        self.repeat(true)
    }

    /// Creates a new NFA that matches zero or more times, as few as possible.
    pub fn repeat_lazy(self) -> (r: Self)
        requires
            self.wf(),
            1 + self@.0.len() < 0x8000,
            3 + self@.1.len() < 0x7ffe,
        ensures
            r@ == repeat_nfa(self@, false),
            r.wf(),
    {
        self.repeat(false)
    }

    /// Creates a new NFA that matches either depending on result of current NFA.
    /// Will remove first consumed input from following NFAs.
    pub fn switch(self, accept: Self, reject: Self) -> (r: Self)
        requires
            self.wf(),
            accept.wf(),
            reject.wf(),
            self@.0.len() + accept@.0.len() + reject@.0.len() < 0x8000,
            self@.1.len() + accept@.1.len() + reject@.1.len() < 0x7ffe,
        ensures
            r@ == switch_nfa(self@, accept@, reject@),
            r.wf(),
    {
        let mut a = self;
        let mut b = accept;
        let mut c = reject;
        let toffset = a.transitions.len() as u16;
        let toffset2 = b.transitions.len() as u16;
        let soffset = a.states.len() as u16;
        let soffset2 = b.states.len() as u16;
        a.replace_state(ACCEPTING_STATE, toffset);
        proof {
            lemma_mapped_lists_ok(self@.0, self@.1, crate::dfa::replace_fn(ACCEPTING_STATE, toffset));
        }
        a.replace_state(REJECTING_STATE, toffset + toffset2);
        proof {
            lemma_quiet_first_wf(accept@.0, accept@.1);
            lemma_quiet_first_wf(reject@.0, reject@.1);
        }
        b.quiet_first_state();
        c.quiet_first_state();
        b.rebase_transition_states(toffset);
        c.rebase_transition_states(toffset + toffset2);
        proof {
            lemma_state_values(quiet_first(accept@.0), accept@.1);
            lemma_state_values(quiet_first(reject@.0), reject@.1);
            lemma_map_keeps_lists(quiet_first(accept@.0), accept@.1, crate::dfa::rebase_fn(toffset));
            lemma_map_keeps_lists(quiet_first(reject@.0), reject@.1, crate::dfa::rebase_fn((toffset + toffset2) as u16));
            assert forall|q: int|
                0 <= q < 2 * b@.0.len() && is_list(#[trigger] field_at(b@.0, q)) implies field_at(
                b@.0,
                q,
            ) + soffset < 0xfffe by {
                assert(valid_raw(accept@.0.len(), accept@.1, field_at(quiet_first(accept@.0), q)));
            }
            assert forall|q: int|
                0 <= q < 2 * c@.0.len() && is_list(#[trigger] field_at(c@.0, q)) implies field_at(
                c@.0,
                q,
            ) + soffset + soffset2 < 0xfffe by {
                assert(valid_raw(reject@.0.len(), reject@.1, field_at(quiet_first(reject@.0), q)));
            }
        }
        b.rebase_states_array(soffset);
        c.rebase_states_array(soffset + soffset2);
        a.transitions.append(&mut b.transitions);
        a.transitions.append(&mut c.transitions);
        a.states.append(&mut b.states);
        a.states.append(&mut c.states);
        proof {
            lemma_switch_wf(self@, accept@, reject@);
            assert(a@.0 =~= switch_nfa(self@, accept@, reject@).0);
            assert(a@.1 =~= switch_nfa(self@, accept@, reject@).1);
        }
        a
    }

    /// Runs the state machine on some input and returns whether the input is accepted,
    /// and if so the number of bytes parsed.
    /// Respects matching priorities, using depth-first search.
    /// The search must be decided on the input;
    /// [crate::composition::lemma_nfa_acyclic_halts] shows that it is for
    /// every automaton without cycles of non-reading states.
    #[verifier::spinoff_prover]
    pub fn run(&self, input: &[u8]) -> (r: Option<usize>)
        requires
            self.wf(),
            nfa_halts(self@.0, self@.1, input@),
        ensures
            r == match nfa_search(self@.0, self@.1, input@) {
                Search::Found(n) => Some(n as usize),
                _ => None::<usize>,
            },
            r matches Some(n) ==> n <= input@.len(),
    {
        let ghost t = self@.0;
        let ghost st = self@.1;
        let ghost f0 = choose|f: nat| !(#[trigger] dfs(t, st, input@, INITIAL_STATE, 0, 0, f) is Stuck);
        let ghost goal = nfa_search(t, st, input@);
        proof {
            if goal is Found {
                lemma_dfs_found_within(t, st, input@, INITIAL_STATE, 0, 0, f0, goal->Found_0);
            }
        }
        let mut index: usize = 0;
        let mut state: u16 = INITIAL_STATE;
        let mut stack: Vec<(usize, u16, u8)> = Vec::new();
        let mut symbol: u8 = 0;
        let ghost mut pend: Seq<Branch> = seq![Branch { state: 0, index: 0, symbol: 0, fuel: f0 }];
        let len = input.len();
        proof {
            assert(pend.drop_first() =~= Seq::<Branch>::empty());
            assert(search_all(t, st, input@, pend.drop_first()) == Search::Missing);
        }
        loop
            invariant
                len == input@.len(),
                t == self@.0,
                st == self@.1,
                nfa_wf(t, st),
                !(goal is Stuck),
                goal == nfa_search(t, st, input@),
                goal matches Search::Found(n) ==> n <= input@.len(),
                search_all(t, st, input@, pend) == goal,
                pend.len() == stack@.len() + 1,
                pend[0].state == state,
                pend[0].index == index as nat,
                pend[0].symbol == symbol,
                forall|k: int|
                    0 <= k < stack@.len() ==> {
                        &&& (#[trigger] pend[k + 1]).state == stack@[stack@.len() - 1 - k].1
                        &&& pend[k + 1].index == stack@[stack@.len() - 1 - k].0 as nat
                        &&& pend[k + 1].symbol == stack@[stack@.len() - 1 - k].2
                    },
                forall|k: int|
                    0 <= k < pend.len() ==> (#[trigger] pend[k]).index <= input@.len() && (
                    is_terminal(pend[k].state) || (pend[k].state as int) < t.len()),
            decreases all_steps(t, st, input@, pend),
        {
            if state >= 0xfffe {
                if state == ACCEPTING_STATE {
                    return Some(index);
                }
                match stack.pop() {
                    Some(top) => {
                        index = top.0;
                        state = top.1;
                        symbol = top.2;
                        proof {
                            pend = pend.drop_first();
                        }
                        continue;
                    },
                    None => {
                        proof {
                            assert(pend.drop_first() =~= Seq::<Branch>::empty());
                            assert(search_all(t, st, input@, pend.drop_first()) == Search::Missing);
                        }
                        return None;
                    },
                }
            }
            let ghost f = pend[0].fuel;
            proof {
                if f == 0 {
                    assert(search_all(t, st, input@, pend) is Stuck);
                }
            }
            if self.consumes(state) {
                match try_index_byte(input, index) {
                    Some(x) => {
                        symbol = x;
                        assert(index < len);
                    },
                    None => {
                        match stack.pop() {
                            Some(top) => {
                                index = top.0;
                                state = top.1;
                                symbol = top.2;
                                proof {
                                    pend = pend.drop_first();
                                }
                                continue;
                            },
                            None => {
                                proof {
                                    assert(pend.drop_first() =~= Seq::<Branch>::empty());
                                    assert(search_all(t, st, input@, pend.drop_first()) == Search::Missing);
                                }
                                return None;
                            },
                        }
                    },
                }
                index = index + 1;
            }
            proof {
                assert(field_at(t, 2 * state as int) == t[state as int].inside);
                assert(field_at(t, 2 * state as int + 1) == t[state as int].outside);
                assert(valid_raw(t.len(), st, pick(t[state as int], symbol)));
            }
            let new_states = self.apply(state, symbol);
            let ghost l = new_states@;
            let ghost rest = pend.drop_first();
            proof {
                lemma_list_is_branches(t, st, input@, l, index as nat, symbol, (f - 1) as nat);
                lemma_search_concat(t, st, input@, branches(l, index as nat, symbol, (f - 1) as nat), rest);
                let r = pick(t[pend[0].state as int], symbol);
                assert(field_at(t, 2 * pend[0].state as int) == t[pend[0].state as int].inside);
                assert(field_at(t, 2 * pend[0].state as int + 1) == t[pend[0].state as int].outside);
                assert(valid_raw(t.len(), st, r));
            }
            let ghost old_stack = stack@;
            let mut n = new_states.len();
            while n > 1
                invariant
                    l == new_states@,
                    l.len() >= 1,
                    1 <= n <= l.len(),
                    stack@.len() == old_stack.len() + (l.len() - n),
                    forall|k: int| 0 <= k < old_stack.len() ==> #[trigger] stack@[k] == old_stack[k],
                    forall|k: int|
                        0 <= k < l.len() - n ==> #[trigger] stack@[old_stack.len() + k] == (
                            index,
                            l[l.len() - 1 - k],
                            symbol,
                        ),
                decreases n,
            {
                n = n - 1;
                stack.push((index, new_states[n], symbol));
            }
            state = new_states[0];
            proof {
                pend = branches(l, index as nat, symbol, (f - 1) as nat) + rest;
                assert forall|k: int| 0 <= k < stack@.len() implies {
                    &&& (#[trigger] pend[k + 1]).state == stack@[stack@.len() - 1 - k].1
                    &&& pend[k + 1].index == stack@[stack@.len() - 1 - k].0 as nat
                    &&& pend[k + 1].symbol == stack@[stack@.len() - 1 - k].2
                } by {
                    if k + 1 < l.len() {
                        assert(stack@[stack@.len() - 1 - k] == stack@[old_stack.len() + (l.len() - 2 - k)]);
                    } else {
                        assert(pend[k + 1] == rest[k + 1 - l.len()]);
                    }
                }
            }
        }
    }

    /// Runs one breadth-first round on `symbol` from the states in `states_a`;
    /// also returns a symbol up to which every later symbol gives the same
    /// round: the least [same_side_up_to] of the states visited.  Where no
    /// state accepts, those are all the states the round reaches; where one
    /// does, the round stops there, and which states were visited before
    /// depends on the order of the visit.
    #[verifier::spinoff_prover]
    pub(crate) fn explore_transitions(&self, start: BitSet, scratch: BitSet, symbol: u8) -> (r: (
        Option<BitSet>,
        u8,
    ))
        requires
            self.wf(),
            start.wf(),
            scratch.wf(),
            start.room() >= self@.0.len(),
            scratch.room() == start.room(),
            forall|x: int| #[trigger] start@.contains(x) ==> 0 <= x < self@.0.len(),
        ensures
            symbol <= r.1,
            match r.0 {
                None => round_outcome(self@.0, self@.1, start@, symbol) is None,
                Some(b) => round_outcome(self@.0, self@.1, start@, symbol) == Some(b@) && b.wf()
                    && b.room() == start.room() && forall|x: int|
                    #[trigger] round_reach(self@.0, self@.1, start@, symbol).contains(x) ==> r.1
                        <= same_side_up_to(self@.0[x], symbol),
            },
            r.1 == 255 || exists|x: int|
                #[trigger] round_reach(self@.0, self@.1, start@, symbol).contains(x) && r.1 == same_side_up_to(
                    self@.0[x],
                    symbol,
                ),
            forall|c: u8|
                symbol <= c <= r.1 ==> #[trigger] round_outcome(self@.0, self@.1, start@, c)
                    == round_outcome(self@.0, self@.1, start@, symbol),
    {
        let ghost t = self@.0;
        let ghost st = self@.1;
        let ghost a0 = start@;
        let ghost room = start.room();
        let mut states_a = start;
        let mut states_b = scratch;
        let mut max: u8 = 255;
        states_b.drain();
        let mut states_c = BitSet::new_with_size(self.transitions.len() as u16);
        proof {
            assert forall|x: int, c: u8| states_a@.contains(x) && symbol <= c <= max
                implies #[trigger] round_reach(t, st, a0, c).contains(x) by {
                lemma_reach_start(t, st, a0, c, x);
            }
        }
        loop
            invariant
                a0 == start@,
                room == start.room(),
                t == self@.0,
                st == self@.1,
                nfa_wf(t, st),
                room >= t.len(),
                states_a.wf(),
                states_b.wf(),
                states_c.wf(),
                states_a.room() == room,
                states_b.room() == room,
                states_c.room() >= t.len(),
                symbol <= max,
                forall|x: int| #[trigger] states_a@.contains(x) ==> 0 <= x < t.len(),
                forall|x: int| #[trigger] states_c@.contains(x) ==> 0 <= x < t.len(),
                forall|x: int| #[trigger] states_c@.contains(x) ==> max <= same_side_up_to(t[x], symbol),
                max == 255 || exists|x: int| #[trigger] states_c@.contains(x) && max == same_side_up_to(t[x], symbol),
                forall|x: int| #[trigger] a0.contains(x) ==> 0 <= x < t.len(),
                a0.subset_of(states_a@.union(states_c@)),
                forall|x: int, c: u8|
                    states_c@.contains(x) && symbol <= c <= max ==> #[trigger] pick(t[x], c) == pick(
                        t[x],
                        symbol,
                    ),
                forall|x: int, c: u8|
                    (states_a@.contains(x) || states_c@.contains(x)) && symbol <= c <= max
                        ==> #[trigger] round_reach(t, st, a0, c).contains(x),
                states_b@.subset_of(round_next(t, st, a0, symbol)),
                forall|x: int, y: int|
                    states_c@.contains(x) && #[trigger] quiet_step(t, st, symbol, x, y)
                        ==> states_a@.contains(y) || states_c@.contains(y),
                forall|x: int, y: int|
                    states_c@.contains(x) && #[trigger] targets(st, pick(t[x], symbol)).contains(y as u16)
                        && 0 <= y < t.len() && t[y].consume ==> states_b@.contains(y),
                forall|x: int|
                    #[trigger] states_c@.contains(x) ==> !targets(st, pick(t[x], symbol)).contains(
                        ACCEPTING_STATE,
                    ),
            ensures
                states_a@ == Set::<int>::empty(),
            decreases t.len() - states_c@.len(), states_a@.len(),
        {
            proof {
                lemma_states_bounded(states_a@, t.len() as int);
                lemma_states_bounded(states_c@, t.len() as int);
            }
            let state = match states_a.iter_next_remove() {
                Some(v) => v,
                None => {
                    break;
                },
            };
            if !states_c.contains(state) {
                let trans = self.transitions[state as usize];
                proof {
                    assert(trans == t[state as int]);
                    assert(field_at(t, 2 * state as int) == t[state as int].inside);
                    assert(field_at(t, 2 * state as int + 1) == t[state as int].outside);
                    assert(valid_raw(t.len(), st, trans.inside));
                    assert(valid_raw(t.len(), st, trans.outside));
                }
                let ghost old_max = max;
                let new_states = if symbol < trans.min {
                    if trans.min - 1 < max {
                        max = trans.min - 1;
                    }
                    self.translate_state(&trans.outside)
                } else if symbol > trans.max {
                    self.translate_state(&trans.outside)
                } else {
                    if trans.max < max {
                        max = trans.max;
                    }
                    self.translate_state(&trans.inside)
                };
                proof {
                    assert(field_at(t, 2 * state as int) == t[state as int].inside);
                    assert(field_at(t, 2 * state as int + 1) == t[state as int].outside);
                    assert(new_states@ == targets(st, pick(t[state as int], symbol)));
                    assert forall|c: u8| symbol <= c <= max implies #[trigger] pick(t[state as int], c) == pick(t[state as int], symbol) by {}
                    let r = pick(t[state as int], symbol);
                    assert(valid_raw(t.len(), st, r));
                }
                let ghost ns = new_states@;
                let ghost c_snap = states_c;
                proof {
                    assert forall|x: int| #[trigger] c_snap@.contains(x) implies round_reach(t, st, a0, symbol).contains(x) by {
                        assert(symbol <= symbol <= old_max);
                    }
                }
                let ghost a_snap = states_a@;
                let ghost b_snap = states_b@;
                let mut j: usize = 0;
                while j < new_states.len()
                    invariant
                        ns == new_states@,
                        ns == targets(st, pick(t[state as int], symbol)),
                        forall|k: int| 0 <= k < ns.len() ==> is_terminal(#[trigger] ns[k]) || (ns[k] as int) < t.len(),
                        0 <= state < t.len(),
                        symbol <= max <= old_max,
                        max <= same_side_up_to(t[state as int], symbol),
                        max == old_max || max == same_side_up_to(t[state as int], symbol),
                        old_max == 255 || exists|x: int| #[trigger] c_snap@.contains(x) && old_max == same_side_up_to(t[x], symbol),
                        forall|x: int| #[trigger] c_snap@.contains(x) ==> old_max <= same_side_up_to(t[x], symbol),
                        forall|x: int| #[trigger] c_snap@.contains(x) ==> round_reach(t, st, a0, symbol).contains(x),
                        forall|c: u8| symbol <= c <= max ==> #[trigger] pick(t[state as int], c) == pick(t[state as int], symbol),
                        forall|c: u8| symbol <= c <= max ==> #[trigger] round_reach(t, st, a0, c).contains(state as int),
                        t == self@.0,
                        st == self@.1,
                        nfa_wf(t, st),
                        room >= t.len(),
                        states_a.wf(),
                        states_b.wf(),
                        states_a.room() == room,
                        states_b.room() == room,
                        j <= ns.len(),
                        forall|x: int| #[trigger] states_a@.contains(x) ==> 0 <= x < t.len(),
                        forall|x: int, c: u8|
                            states_a@.contains(x) && !a_snap.contains(x) && symbol <= c <= max
                                ==> #[trigger] round_reach(t, st, a0, c).contains(x),
                        states_b@.subset_of(round_next(t, st, a0, symbol)),
                        forall|k: int|
                            0 <= k < j ==> !is_terminal(#[trigger] ns[k]) && !t[ns[k] as int].consume
                                ==> states_a@.contains(ns[k] as int),
                        forall|k: int|
                            0 <= k < j ==> !is_terminal(#[trigger] ns[k]) && t[ns[k] as int].consume
                                ==> states_b@.contains(ns[k] as int),
                        forall|k: int| 0 <= k < j ==> #[trigger] ns[k] != ACCEPTING_STATE,
                        states_c == c_snap,
                        a_snap.subset_of(states_a@),
                        b_snap.subset_of(states_b@),
                        a0 == start@,
                        room == start.room(),
                    decreases ns.len() - j,
                {
                    let new_state = new_states[j];
                    assert(ns.contains(new_state));
                    if new_state >= 0xfffe {
                        if new_state == ACCEPTING_STATE {
                            proof {
                                assert forall|c: u8| symbol <= c <= max implies #[trigger] round_outcome(t, st, a0, c)
                                    == round_outcome(t, st, a0, symbol) by {
                                    assert(round_reach(t, st, a0, c).contains(state as int));
                                    assert(targets(st, pick(t[state as int], c)).contains(ACCEPTING_STATE));
                                    assert(round_accepts(t, st, a0, c));
                                    assert(round_reach(t, st, a0, symbol).contains(state as int));
                                    assert(round_accepts(t, st, a0, symbol));
                                }
                                assert(round_reach(t, st, a0, symbol).contains(state as int));
                                assert(targets(st, pick(t[state as int], symbol)).contains(ACCEPTING_STATE));
                                assert(round_accepts(t, st, a0, symbol));
                                assert(round_outcome(t, st, start@, symbol) is None);
                                if max != 255 {
                                    if max == same_side_up_to(t[state as int], symbol) {
                                        assert(round_reach(t, st, a0, symbol).contains(state as int));
                                    } else {
                                        let x = choose|x: int| #[trigger] c_snap@.contains(x) && old_max == same_side_up_to(t[x], symbol);
                                        assert(round_reach(t, st, a0, symbol).contains(x));
                                    }
                                }
                            }
                            return (None, max);
                        }
                    } else if self.consumes(new_state) {
                        states_b.insert(new_state);
                        proof {
                            assert(round_reach(t, st, a0, symbol).contains(state as int));
                            assert(round_next(t, st, a0, symbol).contains(new_state as int));
                            assert(states_b@.subset_of(round_next(t, st, a0, symbol)));
                        }
                    } else {
                        states_a.insert(new_state);
                        proof {
                            assert forall|c: u8| symbol <= c <= max implies #[trigger] round_reach(t, st, a0, c).contains(new_state as int) by {
                                assert(quiet_step(t, st, c, state as int, new_state as int));
                                lemma_reach_step(t, st, a0, c, state as int, new_state as int);
                            }
                        }
                    }
                    j = j + 1;
                }
                states_c.insert(state);
                proof {
                    assert forall|x: int, y: int|
                        states_c@.contains(x) && #[trigger] quiet_step(t, st, symbol, x, y)
                            implies states_a@.contains(y) || states_c@.contains(y) by {
                        if x == state as int {
                            let k = choose|k: int| 0 <= k < ns.len() && ns[k] == y as u16;
                            assert(ns[k] == y as u16);
                            assert(ns[k] as int == y);
                        } else {
                            assert(c_snap@.contains(x));
                        }
                    }
                    assert forall|x: int, y: int|
                        states_c@.contains(x) && #[trigger] targets(st, pick(t[x], symbol)).contains(y as u16)
                            && 0 <= y < t.len() && t[y].consume implies states_b@.contains(y) by {
                        if x == state as int {
                            let k = choose|k: int| 0 <= k < ns.len() && ns[k] == y as u16;
                            assert(ns[k] == y as u16);
                            assert(ns[k] as int == y);
                        } else {
                            assert(c_snap@.contains(x));
                        }
                    }
                    assert forall|x: int| #[trigger] states_c@.contains(x) implies !targets(
                        st,
                        pick(t[x], symbol),
                    ).contains(ACCEPTING_STATE) by {
                        if x == state as int {
                            if ns.contains(ACCEPTING_STATE) {
                                let k = choose|k: int| 0 <= k < ns.len() && ns[k] == ACCEPTING_STATE;
                                assert(ns[k] == ACCEPTING_STATE);
                            }
                        }
                    }
                    assert forall|x: int, c: u8|
                        states_c@.contains(x) && symbol <= c <= max implies #[trigger] pick(t[x], c) == pick(
                        t[x],
                        symbol,
                    ) by {
                        if x != state as int {
                            assert(c_snap@.contains(x));
                        }
                    }
                    assert forall|x: int, c: u8|
                        (states_a@.contains(x) || states_c@.contains(x)) && symbol <= c <= max
                            implies #[trigger] round_reach(t, st, a0, c).contains(x) by {
                        if x != state as int && !(states_a@.contains(x) && !a_snap.contains(x)) {
                            if states_c@.contains(x) {
                                assert(c_snap@.contains(x));
                            } else {
                                assert(a_snap.contains(x));
                            }
                        }
                    }
                    lemma_states_bounded(states_c@, t.len() as int);
                    assert forall|x: int| #[trigger] states_c@.contains(x) implies max <= same_side_up_to(t[x], symbol) by {
                        if x != state as int {
                            assert(c_snap@.contains(x));
                        }
                    }
                    if max != 255 {
                        if max == same_side_up_to(t[state as int], symbol) {
                            assert(states_c@.contains(state as int));
                        } else {
                            let x = choose|x: int| #[trigger] c_snap@.contains(x) && old_max == same_side_up_to(t[x], symbol);
                            assert(states_c@.contains(x));
                        }
                    }
                }
            }
        }
        proof {
            assert forall|x: int| a0.contains(x) implies states_c@.contains(x) by {
                assert(states_a@.union(states_c@).contains(x));
            }
            lemma_reach_within(t, st, a0, symbol, states_c@);
            assert(round_reach(t, st, a0, symbol) =~= states_c@);
            if max != 255 {
                let x = choose|x: int| #[trigger] states_c@.contains(x) && max == same_side_up_to(t[x], symbol);
                assert(round_reach(t, st, a0, symbol).contains(x));
            }
            assert(!round_accepts(t, st, a0, symbol));
            assert(states_b@ =~= round_next(t, st, a0, symbol));
            assert forall|c: u8| symbol <= c <= max implies #[trigger] round_outcome(t, st, a0, c)
                == round_outcome(t, st, a0, symbol) by {
                lemma_reach_same(t, st, a0, symbol, c, states_c@);
            }
        }
        (Some(states_b), max)
    }

    /// Runs the state machine on some input and returns whether the input is accepted.
    /// Matches the shortest possible input, using breadth-first search.
    ///
    /// The iterator is left just after the last symbol the run has read.
    #[verifier::spinoff_prover]
    pub fn run_shortest<I: Iterator<Item = u8>>(&self, input: &mut I) -> (r: bool)
        requires
            self.wf(),
            (*old(input)).obeys_prophetic_iter_laws(),
            (*old(input)).decrease() is Some,
        ensures
            r == nfa_shortest(self@.0, self@.1, (*old(input)).remaining()).0,
            (*final(input)).remaining() == (*old(input)).remaining().skip(
                nfa_shortest(self@.0, self@.1, (*old(input)).remaining()).1 as int,
            ),
    {
        let ghost t = self@.0;
        let ghost st = self@.1;
        let ghost rem = <I as IteratorSpec>::remaining(&*input);
        let ghost goal = nfa_shortest(t, st, rem);
        let l = self.transitions.len() as u16;
        let mut states_a = BitSet::new_with_size(l);
        let mut states_b = BitSet::new_with_size(l);
        let mut states_c = BitSet::new_with_size(l);
        let ghost room = states_a.room();
        states_a.insert(INITIAL_STATE);
        proof {
            assert(states_a@ =~= set![INITIAL_STATE as int]);
        }
        let ghost mut pos: nat = 0;
        loop
            invariant
                t == self@.0,
                st == self@.1,
                nfa_wf(t, st),
                l as int == t.len(),
                room >= t.len(),
                states_a.wf(),
                states_b.wf(),
                states_c.wf(),
                states_a.room() == room,
                states_b.room() == room,
                states_c.room() == room,
                states_b@ == Set::<int>::empty(),
                states_c@ == Set::<int>::empty(),
                forall|x: int| #[trigger] states_a@.contains(x) ==> 0 <= x < t.len(),
                <I as IteratorSpec>::obeys_prophetic_iter_laws(&*input),
                <I as IteratorSpec>::decrease(&*input) is Some,
                pos <= rem.len(),
                <I as IteratorSpec>::remaining(&*input) == rem.skip(pos as int),
                shortest_from(t, st, states_a@, rem, pos) == goal,
                goal == nfa_shortest(t, st, rem),
                rem == (*old(input)).remaining(),
            decreases <I as IteratorSpec>::decrease(&*input)->0,
        {
            let symbol = match input.next() {
                Some(x) => x,
                None => {
                    return false;
                },
            };
            let ghost a0 = states_a@;
            proof {
                assert(symbol == rem[pos as int]);
            }
            if states_a.is_empty() {
                proof {
                    pos = pos + 1;
                }
                return false;
            }
            proof {
                assert forall|x: int| a0.contains(x) implies round_reach(t, st, a0, symbol).contains(x) by {
                    lemma_reach_start(t, st, a0, symbol, x);
                }
            }
            loop
                invariant
                    t == self@.0,
                    st == self@.1,
                    nfa_wf(t, st),
                    l as int == t.len(),
                    room >= t.len(),
                    states_a.wf(),
                    states_b.wf(),
                    states_c.wf(),
                    states_a.room() == room,
                    states_b.room() == room,
                    states_c.room() == room,
                    forall|x: int| #[trigger] states_a@.contains(x) ==> 0 <= x < t.len(),
                    forall|x: int| #[trigger] states_c@.contains(x) ==> 0 <= x < t.len(),
                    forall|x: int| #[trigger] a0.contains(x) ==> 0 <= x < t.len(),
                    a0 != Set::<int>::empty(),
                    pos < rem.len(),
                    symbol == rem[pos as int],
                    <I as IteratorSpec>::remaining(&*input) == rem.skip(pos + 1 as int),
                    shortest_from(t, st, a0, rem, pos) == goal,
                    goal == nfa_shortest(t, st, rem),
                    rem == (*old(input)).remaining(),
                    a0.subset_of(states_a@.union(states_c@)),
                    states_a@.subset_of(round_reach(t, st, a0, symbol)),
                    states_c@.subset_of(round_reach(t, st, a0, symbol)),
                    states_b@.subset_of(round_next(t, st, a0, symbol)),
                    forall|x: int, y: int|
                        states_c@.contains(x) && #[trigger] quiet_step(t, st, symbol, x, y)
                            ==> states_a@.contains(y) || states_c@.contains(y),
                    forall|x: int, y: int|
                        states_c@.contains(x) && #[trigger] targets(st, pick(t[x], symbol)).contains(y as u16)
                            && 0 <= y < t.len() && t[y].consume ==> states_b@.contains(y),
                    forall|x: int|
                        #[trigger] states_c@.contains(x) ==> !targets(st, pick(t[x], symbol)).contains(
                            ACCEPTING_STATE,
                        ),
                ensures
                    states_a@ == Set::<int>::empty(),
                decreases t.len() - states_c@.len(), states_a@.len(),
            {
                proof {
                    lemma_states_bounded(states_a@, t.len() as int);
                    lemma_states_bounded(states_c@, t.len() as int);
                }
                let state = match states_a.iter_next_remove() {
                    Some(v) => v,
                    None => {
                        break;
                    },
                };
                if !states_c.contains(state) {
                    proof {
                        let r = pick(t[state as int], symbol);
                        assert(field_at(t, 2 * state as int) == t[state as int].inside);
                        assert(field_at(t, 2 * state as int + 1) == t[state as int].outside);
                        assert(valid_raw(t.len(), st, r));
                    }
                    let new_states = self.apply(state, symbol);
                    let ghost ns = new_states@;
                    let ghost c_snap = states_c;
                    let ghost a_snap = states_a@;
                    let ghost b_snap = states_b@;
                    let mut j: usize = 0;
                    while j < new_states.len()
                        invariant
                            ns == new_states@,
                            ns == targets(st, pick(t[state as int], symbol)),
                            forall|k: int| 0 <= k < ns.len() ==> is_terminal(#[trigger] ns[k]) || (ns[k] as int) < t.len(),
                            0 <= state < t.len(),
                            round_reach(t, st, a0, symbol).contains(state as int),
                            t == self@.0,
                            st == self@.1,
                            nfa_wf(t, st),
                            room >= t.len(),
                            states_a.wf(),
                            states_b.wf(),
                            states_a.room() == room,
                            states_b.room() == room,
                            j <= ns.len(),
                            forall|x: int| #[trigger] states_a@.contains(x) ==> 0 <= x < t.len(),
                            states_a@.subset_of(round_reach(t, st, a0, symbol)),
                            states_b@.subset_of(round_next(t, st, a0, symbol)),
                            forall|k: int|
                                0 <= k < j ==> !is_terminal(#[trigger] ns[k]) && !t[ns[k] as int].consume
                                    ==> states_a@.contains(ns[k] as int),
                            forall|k: int|
                                0 <= k < j ==> !is_terminal(#[trigger] ns[k]) && t[ns[k] as int].consume
                                    ==> states_b@.contains(ns[k] as int),
                            forall|k: int| 0 <= k < j ==> #[trigger] ns[k] != ACCEPTING_STATE,
                            states_c == c_snap,
                            a0.subset_of(states_a@.union(states_c@).insert(state as int)),
                            a_snap.subset_of(states_a@),
                            b_snap.subset_of(states_b@),
                            a0 != Set::<int>::empty(),
                            pos < rem.len(),
                            symbol == rem[pos as int],
                            <I as IteratorSpec>::remaining(&*input) == rem.skip(pos + 1 as int),
                            shortest_from(t, st, a0, rem, pos) == goal,
                            goal == nfa_shortest(t, st, rem),
                            rem == (*old(input)).remaining(),
                        decreases ns.len() - j,
                    {
                        let new_state = new_states[j];
                        assert(ns.contains(new_state));
                        if new_state >= 0xfffe {
                            if new_state == ACCEPTING_STATE {
                                proof {
                                    assert(round_accepts(t, st, a0, symbol));
                                    pos = pos + 1;
                                }
                                return true;
                            }
                        } else if self.consumes(new_state) {
                            states_b.insert(new_state);
                            proof {
                                assert(round_next(t, st, a0, symbol).contains(new_state as int));
                                assert(states_b@.subset_of(round_next(t, st, a0, symbol)));
                            }
                        } else {
                            states_a.insert(new_state);
                            proof {
                                assert(quiet_step(t, st, symbol, state as int, new_state as int));
                                lemma_reach_step(t, st, a0, symbol, state as int, new_state as int);
                            }
                        }
                        j = j + 1;
                    }
                    states_c.insert(state);
                    proof {
                        assert forall|x: int, y: int|
                            states_c@.contains(x) && #[trigger] quiet_step(t, st, symbol, x, y)
                                implies states_a@.contains(y) || states_c@.contains(y) by {
                            if x == state as int {
                                let k = choose|k: int| 0 <= k < ns.len() && ns[k] == y as u16;
                                assert(ns[k] == y as u16);
                                assert(ns[k] as int == y);
                            } else {
                                assert(c_snap@.contains(x));
                            }
                        }
                        assert forall|x: int, y: int|
                            states_c@.contains(x) && #[trigger] targets(st, pick(t[x], symbol)).contains(y as u16)
                                && 0 <= y < t.len() && t[y].consume implies states_b@.contains(y) by {
                            if x == state as int {
                                let k = choose|k: int| 0 <= k < ns.len() && ns[k] == y as u16;
                                assert(ns[k] == y as u16);
                                assert(ns[k] as int == y);
                            } else {
                                assert(c_snap@.contains(x));
                            }
                        }
                        assert forall|x: int| #[trigger] states_c@.contains(x) implies !targets(
                            st,
                            pick(t[x], symbol),
                        ).contains(ACCEPTING_STATE) by {
                            if x == state as int {
                                if ns.contains(ACCEPTING_STATE) {
                                    let k = choose|k: int| 0 <= k < ns.len() && ns[k] == ACCEPTING_STATE;
                                    assert(ns[k] == ACCEPTING_STATE);
                                }
                            }
                        }
                        lemma_states_bounded(states_c@, t.len() as int);
                    }
                }
            }
            proof {
                let reach = round_reach(t, st, a0, symbol);
                assert forall|x: int| a0.contains(x) implies states_c@.contains(x) by {
                    assert(states_a@.union(states_c@).contains(x));
                }
                lemma_reach_within(t, st, a0, symbol, states_c@);
                assert(!round_accepts(t, st, a0, symbol));
                assert(states_b@ =~= round_next(t, st, a0, symbol));
            }
            std::mem::swap(&mut states_a, &mut states_b);
            states_c.drain();
            proof {
                pos = pos + 1;
            }
        }
    }

    /// Converts a DFA into a NFA. This operation is constant-time and fast,
    /// unlike the opposite conversion (see [Dfa::from_nfa]).
    pub fn from_dfa(dfa: Dfa) -> (r: Self)
        ensures
            r@ == (dfa@, Seq::<u16>::empty()),
            crate::dfa::dfa_wf(dfa@) && dfa@.len() < 0x8000 ==> r.wf(),
    {
        let r = Nfa { transitions: dfa.transitions, states: Vec::new() };
        proof {
            if crate::dfa::dfa_wf(dfa@) && dfa@.len() < 0x8000 {
                assert forall|q: int| 0 <= q < 2 * r@.0.len() implies valid_raw(
                    r@.0.len(),
                    r@.1,
                    #[trigger] field_at(r@.0, q),
                ) by {
                    assert(crate::dfa::valid_target(dfa@.len(), dfa@[q / 2].inside));
                }
            }
        }
        r
    }

    /// Creates a new NFA that matches a single symbol within a range.
    pub fn from_range(range: RangeInclusive<u8>) -> (r: Self)
        ensures
            r@ == (range_table(range@.start, range@.end), Seq::<u16>::empty()),
            r.wf(),
    {
        Nfa::from_dfa(Dfa::from_range(range))
    }
}

} // verus!
