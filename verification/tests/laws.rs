use re_finite_automata::{Dfa, Nfa, Transition, ACCEPTING_STATE, REJECTING_STATE};

fn ab_dfa() -> Dfa {
    Dfa::from_range(0..=5).append(Dfa::from_range(4..=4))
}

fn run_dfa(dfa: &Dfa, input: &[u8]) -> (bool, usize) {
    let mut iter = input.to_vec().into_iter();
    let r = dfa.run(&mut iter);
    (r, input.len() - iter.len())
}

fn run_nfa_shortest(nfa: &Nfa, input: &[u8]) -> (bool, usize) {
    let mut iter = input.to_vec().into_iter();
    let r = nfa.run_shortest(&mut iter);
    (r, input.len() - iter.len())
}

#[test]
fn dfa_doc_example_leaves_rest() {
    let dfa = ab_dfa();
    let input = [3, 4, 5, 6];
    let mut iter = input.into_iter();
    assert!(dfa.run(&mut iter));
    assert_eq!(iter.as_slice(), [5, 6]);
}

#[test]
fn nfa_doc_example_leaves_rest() {
    let nfa = Nfa::from_range(0..=5)
        .append(Nfa::from_range(4..=4))
        .combine(Nfa::from_range(3..=3));
    let input = [3, 4, 5, 6];
    assert_eq!(nfa.run(&input), Some(2));
    let mut iter = input.into_iter();
    assert!(nfa.run_shortest(&mut iter));
    assert_eq!(iter.as_slice(), [4, 5, 6]);
}

#[test]
fn dfa_run_empty_input_rejects() {
    let dfa = Dfa::from_range(0..=255);
    assert_eq!(run_dfa(&dfa, &[]), (false, 0));
}

#[test]
fn dfa_invert_flips_result_same_length() {
    let inputs: [&[u8]; 5] = [&[3, 4], &[3, 5], &[6, 4], &[3], &[]];
    for input in inputs {
        let (r, n) = run_dfa(&ab_dfa(), input);
        let (ri, ni) = run_dfa(&ab_dfa().invert(), input);
        if n == input.len() && !r && ri == r {
            // both ran out of input: no final value was reached
            continue;
        }
        assert_eq!(ri, !r);
        assert_eq!(ni, n);
    }
}

#[test]
fn dfa_invert_twice_is_identity() {
    let dfa = Dfa::from_range(2..=7).switch(Dfa::from_range(1..=1), Dfa::from_range(9..=9));
    let back = dfa.clone().invert().invert();
    assert_eq!(back.transitions, dfa.transitions);
}

#[test]
fn dfa_append_accepts_split() {
    let dfa = Dfa::from_range(1..=2).append(Dfa::from_range(3..=3));
    assert_eq!(run_dfa(&dfa, &[2, 3, 9]), (true, 2));
    assert_eq!(run_dfa(&dfa, &[2, 4, 9]), (false, 2));
    assert_eq!(run_dfa(&dfa, &[0, 3]), (false, 1));
    assert_eq!(run_dfa(&dfa, &[1]), (false, 1));
}

#[test]
fn dfa_switch_follows_first_result() {
    let dfa = Dfa::from_range(0..=1).switch(Dfa::from_range(5..=5), Dfa::from_range(7..=7));
    // accepted by the first: the accept branch reads the same symbol again
    assert_eq!(run_dfa(&dfa, &[0, 5]).0, false);
    assert_eq!(run_dfa(&dfa, &[5]).0, false);
    // rejected by the first on 7: the reject branch sees 7
    assert_eq!(run_dfa(&dfa, &[7]), (true, 1));
    assert_eq!(run_dfa(&dfa, &[8]).0, false);
}

#[test]
fn dfa_from_ranges_unsorted_overlapping() {
    let dfa = Dfa::from_ranges(&mut [250..=255, 3..=9, 5..=12, 0..=0].into_iter());
    for x in 0..=255u8 {
        let expected = x == 0 || (3..=12).contains(&x) || x >= 250;
        assert_eq!(run_dfa(&dfa, &[x]), (expected, 1), "symbol {}", x);
    }
}

#[test]
fn nfa_run_empty_input() {
    let nfa = Nfa::from_range(0..=255);
    assert_eq!(nfa.run(&[]), None);
    assert_eq!(run_nfa_shortest(&nfa, &[]), (false, 0));
}

#[test]
fn nfa_invert_twice_is_identity() {
    let nfa = Nfa::from_range(1..=1).combine(Nfa::from_range(2..=3)).append(Nfa::from_range(4..=4));
    let back = nfa.clone().invert().invert();
    assert_eq!(back.transitions, nfa.transitions);
    assert_eq!(back.states, nfa.states);
}

#[test]
fn nfa_translate_state_lists_and_single() {
    let nfa = Nfa::from_range(1..=1).combine(Nfa::from_range(2..=2));
    assert_eq!(nfa.translate_state(&0x8000), [1, 2]);
    assert_eq!(nfa.translate_state(&ACCEPTING_STATE), [ACCEPTING_STATE]);
    assert_eq!(nfa.translate_state(&REJECTING_STATE), [REJECTING_STATE]);
    assert_eq!(nfa.translate_state(&1), [1]);
}

#[test]
fn nfa_translate_state_mut_writes_list() {
    let mut nfa = Nfa::from_range(1..=1).combine(Nfa::from_range(2..=2));
    let mut raw = 0x8000;
    {
        let list = nfa.translate_state_mut(&mut raw);
        assert_eq!(list, [1, 2]);
        list[1] = 1;
    }
    assert_eq!(nfa.states, vec![2, 1, 1]);
    let mut single = 2;
    {
        let one = nfa.translate_state_mut(&mut single);
        assert_eq!(one, [2]);
        one[0] = 1;
    }
    assert_eq!(single, 1);
    assert_eq!(nfa.states, vec![2, 1, 1]);
}

#[test]
fn nfa_shortest_is_no_longer_than_depth_first() {
    // a greedy repetition: depth-first takes the longest way, breadth-first the shortest
    let nfa0 = Nfa::from_range(0..=0);
    let nfa1 = Nfa::from_range(1..=1);
    let nfa = nfa0.append(nfa1.clone().repeat_greedy()).append(nfa1);
    let input = [0, 1, 1, 1, 5];
    assert_eq!(nfa.run(&input), Some(4));
    assert_eq!(run_nfa_shortest(&nfa, &input), (true, 2));
}

#[test]
fn dfa_from_nfa_accepts_at_shortest_match() {
    let nfa0 = Nfa::from_range(0..=0);
    let nfa1 = Nfa::from_range(1..=1);
    let nfa = nfa0.append(nfa1.clone().repeat_greedy()).append(nfa1);
    let dfa = Dfa::from_nfa(nfa.clone());
    let inputs: [&[u8]; 6] = [&[0, 1, 1, 1, 5], &[0, 1], &[0, 0, 1], &[1], &[0], &[]];
    for input in inputs {
        let (r, n) = run_dfa(&dfa, input);
        let (rs, ns) = run_nfa_shortest(&nfa, input);
        assert_eq!(r, rs);
        if r {
            assert_eq!(n, ns);
        }
    }
}

#[test]
fn dfa_from_nfa_sample_positions() {
    let nfa = Nfa {
        transitions: vec![
            Transition { min: 0, max: 255, inside: 0x8000, outside: 0, consume: true },
            Transition { min: 5, max: 5, inside: ACCEPTING_STATE, outside: 2, consume: false },
            Transition { min: 6, max: 8, inside: 3, outside: REJECTING_STATE, consume: false },
            Transition { min: 6, max: 8, inside: ACCEPTING_STATE, outside: REJECTING_STATE, consume: true },
            Transition { min: 15, max: 15, inside: ACCEPTING_STATE, outside: REJECTING_STATE, consume: true },
        ],
        states: vec![2, 1, 4],
    };
    let dfa = Dfa::from_nfa(nfa.clone());
    assert_eq!(run_dfa(&dfa, &[5, 9]), (true, 1));
    assert_eq!(run_dfa(&dfa, &[7, 8, 1]), (true, 2));
    assert_eq!(run_dfa(&dfa, &[9, 15, 1]), (true, 2));
    assert_eq!(run_nfa_shortest(&nfa, &[9, 15, 1]), (true, 2));
    assert!(!run_dfa(&dfa, &[9, 7]).0);
}

#[test]
fn nfa_from_dfa_runs_like_dfa() {
    let dfa = Dfa::from_range(4..=5).append(Dfa::from_range(6..=6)).invert();
    let nfa = Nfa::from_dfa(dfa.clone());
    let inputs: [&[u8]; 5] = [&[4, 6], &[4, 5], &[6, 6], &[4], &[]];
    for input in inputs {
        let (r, n) = run_dfa(&dfa, input);
        assert_eq!(nfa.run(input), if r { Some(n) } else { None });
        let (rs, ns) = run_nfa_shortest(&nfa, input);
        assert_eq!(rs, r);
        if r {
            assert_eq!(ns, n);
        }
    }
}

#[test]
fn nfa_append_matches_split() {
    let nfa = Nfa::from_range(1..=2).append(Nfa::from_range(3..=3));
    assert_eq!(run_nfa_shortest(&nfa, &[2, 3, 7]), (true, 2));
    assert!(!run_nfa_shortest(&nfa, &[2, 2, 3]).0);
    assert_eq!(nfa.run(&[1, 3]), Some(2));
    assert_eq!(nfa.run(&[3, 3]), None);
}

#[test]
fn nfa_combine_matches_either() {
    let nfa = Nfa::from_range(1..=1).append(Nfa::from_range(2..=2)).combine(Nfa::from_range(5..=5));
    assert_eq!(run_nfa_shortest(&nfa, &[1, 2]), (true, 2));
    assert_eq!(run_nfa_shortest(&nfa, &[5, 2]), (true, 1));
    assert!(!run_nfa_shortest(&nfa, &[2, 1]).0);
    assert_eq!(nfa.run(&[5]), Some(1));
    assert_eq!(nfa.run(&[1, 2]), Some(2));
}

#[test]
fn nfa_sizes_of_constructions() {
    let a = Nfa::from_range(1..=1);
    let b = Nfa::from_range(2..=2);
    assert_eq!(a.clone().append(b.clone()).size(), 2);
    assert_eq!(a.clone().combine(b.clone()).size(), 3);
    assert_eq!(a.clone().repeat_greedy().size(), 2);
    assert_eq!(a.clone().repeat_lazy().states, vec![2, ACCEPTING_STATE, 1]);
    assert_eq!(a.clone().repeat_greedy().states, vec![2, 1, ACCEPTING_STATE]);
    assert_eq!(a.switch(b.clone(), b).size(), 3);
}

#[test]
fn nfa_append_backtracks_into_first_part() {
    let a = Nfa::from_range(1..=1).combine(Nfa::from_range(1..=1).append(Nfa::from_range(2..=2)));
    let b = Nfa::from_range(3..=3);
    let nfa = a.append(b);
    assert_eq!(nfa.run(&[1, 2, 3]), Some(3));
    assert_eq!(nfa.run(&[1, 3]), Some(2));
    assert_eq!(nfa.run(&[1, 2, 4]), None);
}

#[test]
fn nfa_combine_prefers_first_part() {
    let a = Nfa::from_range(1..=1);
    let b = Nfa::from_range(1..=1).append(Nfa::from_range(2..=2));
    assert_eq!(a.clone().combine(b.clone()).run(&[1, 2]), Some(1));
    assert_eq!(b.combine(a).run(&[1, 2]), Some(2));
}

#[test]
fn nfa_combine_with_quiet_first_part() {
    let a = Nfa::from_range(1..=1).repeat_greedy();
    let b = Nfa::from_range(2..=2);
    assert_eq!(a.clone().run(&[2, 1]), Some(0));
    assert_eq!(b.clone().run(&[2, 1]), Some(1));
    assert_eq!(a.clone().combine(b.clone()).run(&[2, 1]), Some(0));
    assert_eq!(b.clone().combine(a.clone()).run(&[2, 1]), Some(1));
    assert_eq!(b.combine(a).run(&[3]), Some(0));
}

#[test]
fn nfa_repeat_alone_depth_first() {
    let one = Nfa::from_range(1..=1);
    // greedy: as many repetitions as the input allows
    assert_eq!(one.clone().repeat_greedy().run(&[1, 1, 1, 2]), Some(3));
    assert_eq!(one.clone().repeat_greedy().run(&[2]), Some(0));
    // lazy: stops at once
    assert_eq!(one.repeat_lazy().run(&[1, 1, 1, 2]), Some(0));
}

#[test]
fn nfa_switch_depth_first_sees_last_symbol() {
    let nfa = Nfa::from_range(0..=1).switch(Nfa::from_range(0..=0), Nfa::from_range(5..=5));
    // the branches start on the symbol the first part read
    assert_eq!(nfa.run(&[0]), Some(1));
    assert_eq!(nfa.run(&[1]), None);
    assert_eq!(nfa.run(&[5]), Some(1));
    assert_eq!(nfa.run(&[6]), None);
}

#[test]
fn dfa_try_from_nfa_builds_when_it_fits() {
    let nfa = Nfa::from_range(1..=2).append(Nfa::from_range(3..=3));
    let dfa = Dfa::try_from_nfa(nfa).unwrap();
    assert_eq!(run_dfa(&dfa, &[2, 3, 9]), (true, 2));
    assert_eq!(run_dfa(&dfa, &[3]), (false, 1));
}

fn same_dfa(x: &Dfa, y: &Dfa) -> bool {
    if x.size() != y.size() {
        return false;
    }
    for s in 0..x.size() {
        if x.range(s) != y.range(s)
            || x.inside(s) != y.inside(s)
            || x.outside(s) != y.outside(s)
            || x.consumes(s) != y.consumes(s)
        {
            return false;
        }
    }
    true
}

#[test]
fn dfa_append_is_associative() {
    let a = Dfa::from_range(1..=2);
    let b = Dfa::from_range(3..=3).invert();
    let c = Dfa::from_range(5..=9);
    let x = a.clone().append(b.clone()).append(c.clone());
    let y = a.append(b.append(c));
    assert!(same_dfa(&x, &y));
    assert_eq!(run_dfa(&x, &[1, 4, 6]), (true, 3));
    assert_eq!(run_dfa(&y, &[1, 4, 6]), (true, 3));
}

#[test]
fn dfa_append_runs_second_on_rest() {
    let a = Dfa::from_range(1..=1).append(Dfa::from_range(2..=2));
    let b = Dfa::from_range(7..=7);
    let d = a.append(b.clone());
    let input = [1u8, 2, 7, 0];
    assert_eq!(run_dfa(&d, &input), (true, 3));
    assert_eq!(run_dfa(&b, &input[2..]), (true, 1));
    assert_eq!(run_dfa(&d, &[1, 2, 6]), (false, 3));
    assert_eq!(run_dfa(&b, &[6]), (false, 1));
}

#[test]
fn nfa_invert_of_dfa_matches_where_dfa_rejects() {
    let d = Dfa::from_range(1..=1).append(Dfa::from_range(2..=2));
    let n = Nfa::from_dfa(d.clone()).invert();
    assert_eq!(run_dfa(&d, &[1, 3]), (false, 2));
    assert_eq!(n.run(&[1, 3]), Some(2));
    assert_eq!(run_dfa(&d, &[4]), (false, 1));
    assert_eq!(n.run(&[4]), Some(1));
    assert_eq!(run_dfa(&d, &[1, 2]), (true, 2));
    assert_eq!(n.run(&[1, 2]), None);
}

#[test]
fn nfa_greedy_and_lazy_match_alike() {
    let g = Nfa::from_range(1..=1).repeat_greedy().append(Nfa::from_range(2..=2));
    let l = Nfa::from_range(1..=1).repeat_lazy().append(Nfa::from_range(2..=2));
    for input in [vec![1u8, 1, 2], vec![2], vec![1, 3], vec![3]] {
        let mut gi = input.clone().into_iter();
        let mut li = input.clone().into_iter();
        assert_eq!(g.run_shortest(&mut gi), l.run_shortest(&mut li));
        assert_eq!(gi.len(), li.len());
    }
    assert_eq!(g.run(&[1, 1, 2]), Some(3));
    assert_eq!(l.run(&[1, 1, 2]), Some(3));
}

#[test]
fn nfa_run_finds_where_run_shortest_accepts() {
    let n = Nfa::from_range(1..=1)
        .append(Nfa::from_range(2..=2).repeat_greedy())
        .combine(Nfa::from_range(1..=3));
    let mut it = vec![1u8, 2, 2].into_iter();
    assert!(n.run_shortest(&mut it));
    assert_eq!(it.len(), 2);
    assert_eq!(n.run(&[1, 2, 2]), Some(3));
    let mut it = vec![4u8].into_iter();
    assert!(!n.run_shortest(&mut it));
    assert_eq!(n.run(&[4]), None);
}

#[test]
fn nfa_append_is_associative_in_matches() {
    let a = Nfa::from_range(1..=1).repeat_greedy();
    let b = Nfa::from_range(2..=3);
    let c = Nfa::from_range(3..=3).combine(Nfa::from_range(4..=4));
    let x = a.clone().append(b.clone()).append(c.clone());
    let y = a.append(b.append(c));
    for input in [vec![1u8, 2, 3], vec![2, 4], vec![1, 1, 3, 3, 0], vec![3, 2], vec![]] {
        let mut xi = input.clone().into_iter();
        let mut yi = input.clone().into_iter();
        assert_eq!(x.run_shortest(&mut xi), y.run_shortest(&mut yi));
        assert_eq!(xi.len(), yi.len());
        assert_eq!(x.run(&input), y.run(&input));
    }
    assert_eq!(x.run(&[1, 1, 3, 3, 0]), Some(4));
}

#[test]
fn nfa_invert_matches_where_some_run_rejects() {
    let a = Nfa::from_range(1..=1).combine(Nfa::from_range(2..=2));
    let n = a.clone().invert();
    let mut it = vec![3u8].into_iter();
    assert!(n.run_shortest(&mut it));
    let mut it = vec![1u8].into_iter();
    assert!(n.run_shortest(&mut it));
    let mut it = vec![1u8].into_iter();
    assert!(a.run_shortest(&mut it));
    let both = Nfa::from_range(0..=255).invert();
    let mut it = vec![7u8].into_iter();
    assert!(!both.run_shortest(&mut it));
}

#[test]
fn nfa_run_match_within_input() {
    let n = Nfa::from_range(1..=1).repeat_greedy();
    assert_eq!(n.run(&[1, 1, 1]), Some(3));
    assert_eq!(n.run(&[]), Some(0));
}

#[test]
fn nfa_append_is_associative_state_by_state() {
    let a = Nfa::from_range(1..=1).combine(Nfa::from_range(2..=2));
    let b = Nfa::from_range(3..=3).repeat_lazy();
    let c = Nfa::from_range(4..=5).combine(Nfa::from_range(7..=7));
    let x = a.clone().append(b.clone()).append(c.clone());
    let y = a.append(b.append(c));
    assert_eq!(x.size(), y.size());
    for s in 0..x.size() {
        assert_eq!(x.range(s), y.range(s));
        assert_eq!(x.inside(s), y.inside(s));
        assert_eq!(x.outside(s), y.outside(s));
        assert_eq!(x.consumes(s), y.consumes(s));
    }
}
