use re_finite_automata::{Dfa, Nfa, Transition, ACCEPTING_STATE, REJECTING_STATE};

#[test]
fn nfa_run_test() {
    let mut nfa = Nfa {
        transitions: vec![
            Transition {
                min: 0,
                max: 255,
                inside: 0x8000,
                outside: 0,
                consume: true,
            },
            Transition {
                min: 5,
                max: 5,
                inside: ACCEPTING_STATE,
                outside: 2,
                consume: false,
            },
            Transition {
                min: 6,
                max: 8,
                inside: 3,
                outside: REJECTING_STATE,
                consume: false,
            },
            Transition {
                min: 6,
                max: 8,
                inside: ACCEPTING_STATE,
                outside: REJECTING_STATE,
                consume: true,
            },
            Transition {
                min: 15,
                max: 15,
                inside: ACCEPTING_STATE,
                outside: REJECTING_STATE,
                consume: true,
            },
        ],
        states: vec![2, 1, 4],
    };
    assert_eq!(nfa.size(), 5);
    assert_eq!(nfa.range(2), 6..=8);
    assert_eq!(nfa.inside(2), [3]);
    assert_eq!(nfa.outside(1), [2]);
    assert_eq!(nfa.consumes(1), false);
    assert_eq!(nfa.apply(2, 7), [3]);
    assert_eq!(nfa.translate_state(&0x8000), [1, 4]);
    assert_eq!(nfa.translate_state_mut(&mut 0x8000), [1, 4]);
    assert_eq!(nfa.translate_state_mut(&mut 2), [2]);
    assert!(nfa.run_shortest(&mut [5, 9].into_iter()));
    assert_eq!(nfa.run(&[5, 9]), Some(1));
    assert!(nfa.run_shortest(&mut [7, 8].into_iter()));
    assert_eq!(nfa.run(&[7, 8]), Some(2));
    assert!(!nfa.run_shortest(&mut [9, 7].into_iter()));
    assert_eq!(nfa.run(&[9, 7]), None);
    assert!(nfa.run_shortest(&mut [9, 15].into_iter()));
    assert_eq!(nfa.run(&[9, 15]), Some(2));
}

#[test]
fn nfa_add_test() {
    let nfa1 = Nfa::from_range(4..=5);
    let nfa2 = Nfa::from_range(6..=6);
    let nfa = nfa1.append(nfa2);
    assert!(nfa.run_shortest(&mut [4, 6].into_iter()));
    assert!(!nfa.run_shortest(&mut [4, 5].into_iter()));
    assert!(!nfa.run_shortest(&mut [6, 6].into_iter()));
    assert!(nfa.run(&[4, 6]).is_some());
    assert!(!nfa.run(&[4, 5]).is_some());
    assert!(!nfa.run(&[6, 6]).is_some());
}

#[test]
fn nfa_not_test() {
    let nfa1 = Nfa::from_range(4..=5);
    let nfa2 = Nfa::from_range(6..=6);
    let nfa = nfa1.append(nfa2).invert();
    assert!(!nfa.run_shortest(&mut [4, 6].into_iter()));
    assert!(nfa.run_shortest(&mut [4, 5].into_iter()));
    assert!(nfa.run_shortest(&mut [6, 6].into_iter()));
    assert!(!nfa.run(&[4, 6]).is_some());
    assert!(nfa.run(&[4, 5]).is_some());
    assert!(nfa.run(&[6, 6]).is_some());
}

#[test]
fn nfa_or_test() {
    let nfa1 = Nfa::from_range(4..=5);
    let nfa2 = Nfa::from_range(6..=6);
    let nfa = nfa1.combine(nfa2);
    assert!(nfa.run_shortest(&mut [4].into_iter()));
    assert!(nfa.run_shortest(&mut [6].into_iter()));
    assert!(!nfa.run_shortest(&mut [7].into_iter()));
    assert!(nfa.run(&[4]).is_some());
    assert!(nfa.run(&[6]).is_some());
    assert!(!nfa.run(&[7]).is_some());
}

#[test]
fn nfa_compound_test() {
    let nfa0 = Nfa::from_range(0..=0);
    let nfa1 = Nfa::from_range(1..=1);
    let nfa = nfa0
        .clone()
        .combine(nfa1.clone())
        .append(nfa0.clone())
        .append(nfa1.clone())
        .combine(nfa0.append(nfa1));
    assert!(nfa.run_shortest(&mut [0, 0, 1].into_iter()));
    assert!(nfa.run_shortest(&mut [0, 1].into_iter()));
    assert!(nfa.run_shortest(&mut [1, 0, 1].into_iter()));
    assert!(!nfa.run_shortest(&mut [1, 0, 0].into_iter()));
    assert!(nfa.run_shortest(&mut [0, 1, 0].into_iter()));
    assert!(!nfa.run_shortest(&mut [1, 0].into_iter()));
    assert!(nfa.run(&[0, 0, 1]).is_some());
    assert!(nfa.run(&[0, 1]).is_some());
    assert!(nfa.run(&[1, 0, 1]).is_some());
    assert!(!nfa.run(&[1, 0, 0]).is_some());
    assert!(nfa.run(&[0, 1, 0]).is_some());
    assert!(!nfa.run(&[1, 0]).is_some());
}

#[test]
fn nfa_switch_test() {
    let nfa0 = Nfa::from_range(0..=1);
    let nfa1 = Nfa::from_range(0..=0).append(Nfa::from_range(2..=2));
    let nfa2 = Nfa::from_range(2..=2).append(Nfa::from_range(0..=0));
    let nfa = nfa0.switch(nfa1, nfa2);
    assert!(nfa.run_shortest(&mut [0, 2].into_iter()));
    assert!(!nfa.run_shortest(&mut [0, 1].into_iter()));
    assert!(!nfa.run_shortest(&mut [1].into_iter()));
    assert!(nfa.run_shortest(&mut [2, 0].into_iter()));
    assert!(!nfa.run_shortest(&mut [2, 1].into_iter()));
    assert!(!nfa.run_shortest(&mut [3].into_iter()));
    assert_eq!(nfa.run(&[0, 2]), Some(2));
    assert_eq!(nfa.run(&[0, 1]), None);
    assert_eq!(nfa.run(&[1]), None);
    assert_eq!(nfa.run(&[2, 0]), Some(2));
    assert_eq!(nfa.run(&[2, 1]), None);
    assert_eq!(nfa.run(&[3]), None);
}

#[test]
fn nfa_out_test() {
    let nfa = Nfa::from_range(0..=0).append(Nfa::from_range(0..=0));
    assert!(!nfa.run_shortest(&mut [0].into_iter()));
    assert_eq!(nfa.run(&[0]), None);
}

#[test]
fn nfa_repeat_greedy_test() {
    let nfa0 = Nfa::from_range(0..=0);
    let nfa1 = Nfa::from_range(1..=1);
    let nfa = nfa0.append(nfa1.clone().repeat_greedy()).append(nfa1);
    assert_eq!(nfa.run(&[0, 1]), Some(2));
    assert_eq!(nfa.run(&[0, 1, 1]), Some(3));
    assert_eq!(nfa.run(&[0, 1, 0, 1]), Some(2));
    assert_eq!(nfa.run(&[0, 0, 1]), None);
}

#[test]
fn nfa_repeat_lazy_test() {
    let nfa0 = Nfa::from_range(0..=0);
    let nfa1 = Nfa::from_range(1..=1);
    let nfa = nfa0.append(nfa1.clone().repeat_lazy()).append(nfa1);
    assert_eq!(nfa.run(&[0, 1]), Some(2));
    assert_eq!(nfa.run(&[0, 1, 1]), Some(2));
    assert_eq!(nfa.run(&[0, 1, 0, 1]), Some(2));
    assert_eq!(nfa.run(&[0, 0, 1]), None);
}

#[test]
fn nfa_dfa_add_test() {
    let dfa1 = Dfa::from_range(4..=5);
    let dfa2 = Dfa::from_range(6..=6);
    let dfa = dfa1.append(dfa2);
    let nfa = Nfa::from_dfa(dfa);
    assert!(nfa.run_shortest(&mut [4, 6].into_iter()));
    assert!(!nfa.run_shortest(&mut [4, 5].into_iter()));
    assert!(!nfa.run_shortest(&mut [6, 6].into_iter()));
    assert!(nfa.run(&[4, 6]).is_some());
    assert!(!nfa.run(&[4, 5]).is_some());
    assert!(!nfa.run(&[6, 6]).is_some());
}

#[test]
fn nfa_dfa_not_test() {
    let dfa1 = Dfa::from_range(4..=5);
    let dfa2 = Dfa::from_range(6..=6);
    let dfa = dfa1.append(dfa2).invert();
    let nfa = Nfa::from_dfa(dfa);
    assert!(!nfa.run_shortest(&mut [4, 6].into_iter()));
    assert!(nfa.run_shortest(&mut [4, 5].into_iter()));
    assert!(nfa.run_shortest(&mut [6, 6].into_iter()));
    assert!(!nfa.run(&[4, 6]).is_some());
    assert!(nfa.run(&[4, 5]).is_some());
    assert!(nfa.run(&[6, 6]).is_some());
}
