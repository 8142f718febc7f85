use re_finite_automata::{Dfa, Nfa, Transition, ACCEPTING_STATE, REJECTING_STATE};

#[test]
fn dfa_run_test() {
    let dfa = Dfa {
        transitions: vec![
            Transition {
                min: 5,
                max: 5,
                inside: ACCEPTING_STATE,
                outside: 1,
                consume: true,
            },
            Transition {
                min: 6,
                max: 8,
                inside: 2,
                outside: REJECTING_STATE,
                consume: false,
            },
            Transition {
                min: 6,
                max: 8,
                inside: ACCEPTING_STATE,
                outside: REJECTING_STATE,
                consume: true,
            },
        ],
    };
    assert_eq!(dfa.size(), 3);
    assert_eq!(dfa.range(1), 6..=8);
    assert_eq!(dfa.inside(1), 2);
    assert_eq!(dfa.outside(0), 1);
    assert_eq!(dfa.outside(1), REJECTING_STATE);
    assert_eq!(dfa.consumes(0), true);
    assert_eq!(dfa.apply(1, 7), 2);
    assert!(dfa.run(&mut [5, 9].into_iter()));
    assert!(dfa.run(&mut [7, 8].into_iter()));
    assert!(!dfa.run(&mut [9, 7].into_iter()));
}

#[test]
fn dfa_add_test() {
    let dfa1 = Dfa::from_range(4..=5);
    let dfa2 = Dfa::from_range(6..=6);
    let dfa = dfa1.append(dfa2);
    assert!(dfa.run(&mut [4, 6].into_iter()));
    assert!(!dfa.run(&mut [4, 5].into_iter()));
    assert!(!dfa.run(&mut [6, 6].into_iter()));
}

#[test]
fn dfa_not_test() {
    let dfa1 = Dfa::from_range(4..=5);
    let dfa2 = Dfa::from_range(6..=6);
    let dfa = dfa1.append(dfa2).invert();
    assert!(!dfa.run(&mut [4, 6].into_iter()));
    assert!(dfa.run(&mut [4, 5].into_iter()));
    assert!(dfa.run(&mut [6, 6].into_iter()));
}

#[test]
fn dfa_compound_test() {
    let dfa0 = Dfa::from_range(0..=1);
    let dfa1 = Dfa::from_range(0..=0);
    let dfa2 = Dfa::from_range(1..=1);
    let dfa = dfa0.append(dfa1.append(dfa2));
    assert!(dfa.run(&mut [0, 0, 1].into_iter()));
    assert!(!dfa.run(&mut [0, 1].into_iter()));
    assert!(dfa.run(&mut [1, 0, 1].into_iter()));
    assert!(!dfa.run(&mut [1, 0, 0].into_iter()));
    assert!(!dfa.run(&mut [0, 1, 0].into_iter()));
    assert!(!dfa.run(&mut [1, 0].into_iter()));
}

#[test]
fn dfa_switch_test() {
    let dfa0 = Dfa::from_range(0..=1);
    let dfa1 = Dfa::from_range(0..=0).append(Dfa::from_range(2..=2));
    let dfa2 = Dfa::from_range(2..=2).append(Dfa::from_range(0..=0));
    let dfa = dfa0.switch(dfa1, dfa2);
    assert!(dfa.run(&mut [0, 2].into_iter()));
    assert!(!dfa.run(&mut [0, 1].into_iter()));
    assert!(!dfa.run(&mut [1].into_iter()));
    assert!(dfa.run(&mut [2, 0].into_iter()));
    assert!(!dfa.run(&mut [2, 1].into_iter()));
    assert!(!dfa.run(&mut [3].into_iter()));
}

#[test]
fn dfa_ranges_test() {
    let dfa = Dfa::from_ranges(&mut [2..=2, 4..=5].into_iter());
    assert!(!dfa.run(&mut [0].into_iter()));
    assert!(dfa.run(&mut [2].into_iter()));
    assert!(!dfa.run(&mut [3].into_iter()));
    assert!(dfa.run(&mut [4].into_iter()));
    assert!(!dfa.run(&mut [6].into_iter()));
}

fn sample_nfa() -> Nfa {
    Nfa {
        transitions: vec![
            Transition {
                min: 0,
                max: 255,
                inside: 0x8000,
                outside: 0,
                consume: true,
            },
            Transition {
                min: 5,
                max: 5,
                inside: ACCEPTING_STATE,
                outside: 2,
                consume: false,
            },
            Transition {
                min: 6,
                max: 8,
                inside: 3,
                outside: REJECTING_STATE,
                consume: false,
            },
            Transition {
                min: 6,
                max: 8,
                inside: ACCEPTING_STATE,
                outside: REJECTING_STATE,
                consume: true,
            },
            Transition {
                min: 15,
                max: 15,
                inside: ACCEPTING_STATE,
                outside: REJECTING_STATE,
                consume: true,
            },
        ],
        states: vec![2, 1, 4],
    }
}

#[test]
fn dfa_nfa_run_test() {
    let nfa = sample_nfa();
    let dfa = Dfa::from_nfa(nfa);
    assert!(dfa.run(&mut [5, 9].into_iter()));
    assert!(dfa.run(&mut [7, 8].into_iter()));
    assert!(!dfa.run(&mut [9, 7].into_iter()));
    assert!(dfa.run(&mut [9, 15].into_iter()));
}

#[test]
fn dfa_nfa_add_test() {
    let nfa1 = Nfa::from_range(4..=5);
    let nfa2 = Nfa::from_range(6..=6);
    let nfa = nfa1.append(nfa2);
    let dfa = Dfa::from_nfa(nfa);
    assert!(dfa.run(&mut [4, 6].into_iter()));
    assert!(!dfa.run(&mut [4, 5].into_iter()));
    assert!(!dfa.run(&mut [6, 6].into_iter()));
}

#[test]
fn dfa_nfa_not_test() {
    let nfa1 = Nfa::from_range(4..=5);
    let nfa2 = Nfa::from_range(6..=6);
    let nfa = nfa1.append(nfa2).invert();
    let dfa = Dfa::from_nfa(nfa);
    assert!(!dfa.run(&mut [4, 6].into_iter()));
    assert!(dfa.run(&mut [4, 5].into_iter()));
    assert!(dfa.run(&mut [6, 6].into_iter()));
}

#[test]
fn dfa_nfa_or_test() {
    let nfa1 = Nfa::from_range(4..=5);
    let nfa2 = Nfa::from_range(6..=6);
    let nfa = nfa1.combine(nfa2);
    let dfa = Dfa::from_nfa(nfa);
    assert!(dfa.run(&mut [4].into_iter()));
    assert!(dfa.run(&mut [6].into_iter()));
    assert!(!dfa.run(&mut [7].into_iter()));
}

#[test]
fn dfa_nfa_compound_test() {
    let nfa0 = Nfa::from_range(0..=0);
    let nfa1 = Nfa::from_range(1..=1);
    let nfa = nfa0
        .clone()
        .combine(nfa1.clone())
        .append(nfa0.clone())
        .append(nfa1.clone())
        .combine(nfa0.append(nfa1));
    let dfa = Dfa::from_nfa(nfa);
    assert!(dfa.run(&mut [0, 0, 1].into_iter()));
    assert!(dfa.run(&mut [0, 1].into_iter()));
    assert!(dfa.run(&mut [1, 0, 1].into_iter()));
    assert!(!dfa.run(&mut [1, 0, 0].into_iter()));
    assert!(dfa.run(&mut [0, 1, 0].into_iter()));
    assert!(!dfa.run(&mut [1, 0].into_iter()));
}

#[test]
fn dfa_nfa_switch_test() {
    let nfa0 = Nfa::from_range(0..=1);
    let nfa1 = Nfa::from_range(0..=0).append(Nfa::from_range(2..=2));
    let nfa2 = Nfa::from_range(2..=2).append(Nfa::from_range(0..=0));
    let nfa = nfa0.switch(nfa1, nfa2);
    let dfa = Dfa::from_nfa(nfa);
    assert!(dfa.run(&mut [0, 2].into_iter()));
    assert!(!dfa.run(&mut [0, 1].into_iter()));
    assert!(!dfa.run(&mut [1].into_iter()));
    assert!(dfa.run(&mut [2, 0].into_iter()));
    assert!(!dfa.run(&mut [2, 1].into_iter()));
    assert!(!dfa.run(&mut [3].into_iter()));
}

#[test]
fn dfa_nfa_out_test() {
    let nfa = Nfa::from_range(0..=0).append(Nfa::from_range(0..=0));
    let dfa = Dfa::from_nfa(nfa);
    assert!(!dfa.run(&mut [0].into_iter()));
}

#[test]
fn dfa_nfa_repeat_greedy_test() {
    let nfa0 = Nfa::from_range(0..=0);
    let nfa1 = Nfa::from_range(1..=1);
    let nfa = nfa0.append(nfa1.clone().repeat_greedy()).append(nfa1);
    let dfa = Dfa::from_nfa(nfa);
    assert!(dfa.run(&mut [0, 1].into_iter()));
    assert!(dfa.run(&mut [0, 1, 1].into_iter()));
    assert!(dfa.run(&mut [0, 1, 0, 1].into_iter()));
    assert!(!dfa.run(&mut [0, 0, 1].into_iter()));
}

#[test]
fn dfa_nfa_repeat_lazy_test() {
    let nfa0 = Nfa::from_range(0..=0);
    let nfa1 = Nfa::from_range(1..=1);
    let nfa = nfa0.append(nfa1.clone().repeat_greedy()).append(nfa1);
    let dfa = Dfa::from_nfa(nfa);
    assert!(dfa.run(&mut [0, 1].into_iter()));
    assert!(dfa.run(&mut [0, 1, 1].into_iter()));
    assert!(dfa.run(&mut [0, 1, 0, 1].into_iter()));
    assert!(!dfa.run(&mut [0, 0, 1].into_iter()));
}
