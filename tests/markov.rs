use markov_rs::chain::MarkovChain;
use markov_rs::chain::{ChainError, Cursor};
use markov_rs::cumulative_chain::CumulativeChain;
use markov_rs::cumulative::{cumulative_table, pick_cumulative, sample_cumulative};
use markov_rs::states::{state_index, state_space};
use markov_rs::transitions::count_transitions;
use weighted_rand::table::WalkerTable;

const TEXT: [&str; 11] = [
    "I", "think", "that", "that", "that", "that", "that", "boy", "wrote", "is", "wrong",
];

fn matrix_of(elements: &[&'static str]) -> (Vec<&'static str>, Vec<Vec<usize>>) {
    let states = state_space(elements);
    let indices: Vec<usize> = elements
        .iter()
        .map(|e| state_index(&states, e).unwrap())
        .collect();
    let m = count_transitions(&indices, states.len());
    (states, m)
}

#[test]
fn make_markov_model() {
    let actual = MarkovChain::from(&TEXT).unwrap();

    let expected_tables = vec![
        WalkerTable::new(vec![4, 4, 4, 4, 4, 4, 4], vec![1.0, 1.0, 1.0, 1.0, 1.0, 1.0, 1.0]),
        WalkerTable::new(vec![6, 6, 6, 6, 6, 6, 6], vec![1.0, 1.0, 1.0, 1.0, 1.0, 1.0, 1.0]),
        WalkerTable::new(vec![5, 5, 5, 5, 5, 5, 5], vec![1.0, 1.0, 1.0, 1.0, 1.0, 1.0, 1.0]),
        WalkerTable::new(vec![3, 1, 3, 1, 3, 3, 3], vec![1.0, 1.0, 1.0, 0.4, 1.0, 1.0, 1.0]),
        WalkerTable::new(vec![3, 3, 3, 3, 3, 3, 3], vec![1.0, 1.0, 1.0, 1.0, 1.0, 1.0, 1.0]),
        WalkerTable::new(vec![0, 0, 0, 0, 0, 0, 0], vec![0.0, 0.0, 0.0, 0.0, 0.0, 0.0, 0.0]),
        WalkerTable::new(vec![2, 2, 2, 2, 2, 2, 2], vec![1.0, 1.0, 1.0, 1.0, 1.0, 1.0, 1.0]),
    ];

    assert_eq!(
        actual.state_space(),
        &vec!["I", "boy", "is", "that", "think", "wrong", "wrote"]
    );
    assert_eq!(actual.wa_table(), &expected_tables);
    assert_eq!(actual.prev_index(), 7);
    assert_eq!(actual.cursor(), Cursor::Unset);
    let (_, m) = matrix_of(&TEXT);
    assert_eq!(actual.transition_counts(), &m);
}

#[test]
fn generate_element() {
    let mut model = MarkovChain::from(&TEXT).unwrap();
    let element = model.next();

    let present = TEXT
        .iter()
        .fold(false, |acc, cur| if acc { acc } else { element == cur });

    assert!(present)
}

#[test]
fn initialize() {
    let mut model = MarkovChain::from(&TEXT).unwrap();

    model.next();
    let before = model.prev_index();
    model.initialize();
    let after = model.prev_index();

    assert!(before != after);
    assert_eq!(after, 7);
}

#[test]
fn state_space_is_sorted_and_deduplicated() {
    assert_eq!(state_space(&[3u32, 1, 3, 2, 1]), vec![1, 2, 3]);
    assert_eq!(state_space::<u32>(&[]), Vec::<u32>::new());
    assert_eq!(state_space(&[5u8, 5, 5]), vec![5]);
    assert_eq!(
        state_space(&TEXT),
        vec!["I", "boy", "is", "that", "think", "wrong", "wrote"]
    );
}

#[test]
fn state_index_finds_each_state() {
    let states = vec![2u32, 4, 8];
    assert_eq!(state_index(&states, &4), Some(1));
    assert_eq!(state_index(&states, &8), Some(2));
    assert_eq!(state_index(&states, &5), None);
}

#[test]
fn matrix_counts_consecutive_pairs() {
    let (states, m) = matrix_of(&TEXT);
    assert_eq!(states.len(), 7);
    assert_eq!(m.len(), 7);
    let that = 3;
    let boy = 1;
    assert_eq!(m[that][that], 4);
    assert_eq!(m[that][boy], 1);
    assert_eq!(m[that].iter().sum::<usize>(), 5);
    // "wrong" ends the text: a dead end.
    assert_eq!(m[5], vec![0; 7]);
    assert_eq!(m[0], vec![0, 0, 0, 0, 1, 0, 0]);
    let total: usize = m.iter().map(|r| r.iter().sum::<usize>()).sum();
    assert_eq!(total, TEXT.len() - 1);
}

#[test]
fn count_transitions_on_indices() {
    let m = count_transitions(&vec![0, 1, 0, 1, 1], 3);
    assert_eq!(m, vec![vec![0, 2, 0], vec![1, 1, 0], vec![0, 0, 0]]);
    let empty = count_transitions(&vec![], 2);
    assert_eq!(empty, vec![vec![0, 0], vec![0, 0]]);
}

#[test]
fn cumulative_rows_end_at_total_or_stay_zero() {
    assert_eq!(cumulative_table(&vec![0, 1, 0, 4, 0]), Some(vec![0, 1, 1, 5, 5]));
    assert_eq!(cumulative_table(&vec![0, 0, 0]), Some(vec![0, 0, 0]));
    assert_eq!(cumulative_table(&vec![]), Some(Vec::<usize>::new()));
    assert_eq!(cumulative_table(&vec![7]), Some(vec![7]));
    assert_eq!(cumulative_table(&vec![usize::MAX, 1]), None);
    assert_eq!(cumulative_table(&vec![usize::MAX, 0]), Some(vec![usize::MAX, usize::MAX]));
}

#[test]
fn pick_cumulative_takes_first_above_draw() {
    let t = vec![0, 1, 1, 5, 5];
    assert_eq!(pick_cumulative(&t, 0), 1);
    assert_eq!(pick_cumulative(&t, 1), 3);
    assert_eq!(pick_cumulative(&t, 4), 3);
    // No running sum exceeds the draw: the last column.
    assert_eq!(pick_cumulative(&t, 5), 4);
    assert_eq!(pick_cumulative(&vec![0, 0], 0), 1);
}

#[test]
fn sample_cumulative_never_takes_zero_weight() {
    let mut rng = rand::thread_rng();
    let row: Vec<usize> = vec![0, 1, 0, 4, 0];
    let t = cumulative_table(&row).unwrap();
    for _ in 0..1000 {
        let c = sample_cumulative(&t, &row, &mut rng).unwrap();
        assert!(c == 1 || c == 3);
    }
    let dead: Vec<usize> = vec![0, 0];
    assert_eq!(sample_cumulative(&cumulative_table(&dead).unwrap(), &dead, &mut rng), None);
}

#[test]
fn sample_cumulative_follows_weights() {
    let mut rng = rand::thread_rng();
    let row: Vec<usize> = vec![2, 1, 7, 0];
    let t = cumulative_table(&row).unwrap();
    let mut counts = [0usize; 4];
    let n = 100_000;
    for _ in 0..n {
        counts[sample_cumulative(&t, &row, &mut rng).unwrap()] += 1;
    }
    let expected = [0.2f64, 0.1, 0.7, 0.0];
    for j in 0..4 {
        let got = counts[j] as f64 / n as f64;
        assert!((got - expected[j]).abs() < 0.02, "column {}: {}", j, got);
    }
}

#[test]
fn alias_tables_follow_weights() {
    // Generation from "that": the row has four "that" and one "boy".
    let mut model = MarkovChain::from(&TEXT).unwrap();
    let mut rng = rand::thread_rng();
    let mut that_count = 0usize;
    let mut boy_count = 0usize;
    let mut draws = 0usize;
    for _ in 0..200_000 {
        let prev = *model.next_rng(&mut rng);
        if prev == "that" {
            let cur = *model.next_rng(&mut rng);
            draws += 1;
            if cur == "that" {
                that_count += 1;
            } else if cur == "boy" {
                boy_count += 1;
            }
            model.initialize();
        }
    }
    assert_eq!(that_count + boy_count, draws);
    assert!(draws > 1000);
    let share = that_count as f64 / draws as f64;
    assert!((share - 0.8).abs() < 0.05, "share {}", share);
}

#[test]
fn next_returns_training_elements() {
    let mut model = MarkovChain::from(&TEXT).unwrap();
    for _ in 0..500 {
        let e = *model.next();
        assert!(TEXT.contains(&e));
    }
}

#[test]
fn after_initialize_first_row_is_uniform() {
    // After a reset the row is drawn uniformly among the six rows of
    // positive total ("wrong" is a dead end); the state generated first is
    // that row's successor. "wrong" follows only "is": 1/6 in all.
    let mut model = MarkovChain::from(&TEXT).unwrap();
    let mut rng = rand::thread_rng();
    let mut wrong = 0usize;
    let n = 60_000;
    for _ in 0..n {
        model.next_rng(&mut rng);
        model.initialize();
        if model.next_rng(&mut rng) == &"wrong" {
            wrong += 1;
        }
        model.initialize();
    }
    let share = wrong as f64 / n as f64;
    let expected = 1.0 / 6.0;
    assert!((share - expected).abs() < 0.02, "share {}", share);
}

#[test]
fn scenario_state_space_and_reachable_columns_agree() {
    let (states, m) = matrix_of(&TEXT);
    assert_eq!(states, vec!["I", "boy", "is", "that", "think", "wrong", "wrote"]);
    let that = state_index(&states, &"that").unwrap();
    assert_eq!(that, 3);
    let row: Vec<usize> = m[that].clone();
    assert_eq!(row, vec![0, 1, 0, 4, 0, 0, 0]);

    // Columns that the cumulative table can give.
    let t = cumulative_table(&row).unwrap();
    let mut cumulative_reach = vec![false; 7];
    for f in 0..t[6] {
        cumulative_reach[pick_cumulative(&t, f)] = true;
    }

    // Columns that the alias table of the model gives after "that".
    let mut model = MarkovChain::from(&TEXT).unwrap();
    let mut rng = rand::thread_rng();
    let mut alias_reach = vec![false; 7];
    for _ in 0..100_000 {
        if *model.next_rng(&mut rng) == "that" {
            let cur = *model.next_rng(&mut rng);
            alias_reach[state_index(&states, &cur).unwrap()] = true;
            model.initialize();
        }
    }

    let raw_reach: Vec<bool> = row.iter().map(|c| *c > 0).collect();
    assert_eq!(cumulative_reach, raw_reach);
    assert_eq!(alias_reach, raw_reach);
}

#[test]
fn consecutive_states_were_observed() {
    let (states, m) = matrix_of(&TEXT);
    let mut model = MarkovChain::from(&TEXT).unwrap();
    let mut prev: Option<&str> = None;
    for _ in 0..2000 {
        let cur = *model.next();
        if let Some(p) = prev {
            let i = state_index(&states, &p).unwrap();
            let j = state_index(&states, &cur).unwrap();
            // From a dead end the row is drawn among the rows of positive
            // total, as after a reset.
            assert!(m.iter().any(|r| r[j] > 0));
            if m[i].iter().sum::<usize>() > 0 {
                assert!(m[i][j] > 0, "{} -> {}", p, cur);
            }
        }
        prev = Some(cur);
    }
}

#[test]
fn initialize_twice_is_initialize_once() {
    let mut a = MarkovChain::from(&TEXT).unwrap();
    a.next();
    a.initialize();
    let once = (a.prev_index(), a.cursor());
    a.initialize();
    assert_eq!((a.prev_index(), a.cursor()), once);
    assert_eq!(once, (7, Cursor::Unset));
}

#[test]
fn empty_sequence_is_refused() {
    let empty: [&str; 0] = [];
    assert_eq!(MarkovChain::from(&empty).err(), Some(ChainError::EmptySequence));
}

#[test]
fn single_element_is_all_dead_ends() {
    assert_eq!(MarkovChain::from(&["alone"]).err(), Some(ChainError::AllDeadEnds));
}

#[test]
fn two_elements_make_a_model() {
    let mut model = MarkovChain::from(&[1u64, 2]).unwrap();
    assert_eq!(model.state_space(), &vec![1, 2]);
    let first = *model.next();
    assert!(first == 1 || first == 2);
}

#[test]
fn cursor_follows_generated_state() {
    let mut model = MarkovChain::from(&TEXT).unwrap();
    let e = *model.next();
    match model.cursor() {
        Cursor::At(i) => assert_eq!(model.state_space()[i], e),
        Cursor::Unset => panic!("cursor unset after next"),
    }
}

#[test]
fn cumulative_chain_matches_alias_chain_state_space() {
    let csm = CumulativeChain::from(&TEXT).unwrap();
    let wam = MarkovChain::from(&TEXT).unwrap();
    assert_eq!(csm.state_space(), wam.state_space());
    let (_, m) = matrix_of(&TEXT);
    assert_eq!(csm.transition_counts(), &m);
    assert_eq!(csm.cursor(), Cursor::Unset);
}

#[test]
fn cumulative_chain_pairs_are_observed() {
    let (states, m) = matrix_of(&TEXT);
    let mut model = CumulativeChain::from(&TEXT).unwrap();
    let mut rng = rand::thread_rng();
    let mut prev: Option<&str> = None;
    for _ in 0..2000 {
        let cur = *model.next_rng(&mut rng);
        let j = state_index(&states, &cur).unwrap();
        // Whatever row was sampled, "cur" follows some state in the text.
        assert!(m.iter().any(|r| r[j] > 0));
        if let Some(p) = prev {
            let i = state_index(&states, &p).unwrap();
            if m[i].iter().sum::<usize>() > 0 {
                assert!(m[i][j] > 0, "{} -> {}", p, cur);
            }
        }
        prev = Some(cur);
    }
}

#[test]
fn cumulative_chain_initialize_and_errors() {
    let mut model = CumulativeChain::from(&TEXT).unwrap();
    let e = *model.next();
    assert!(TEXT.contains(&e));
    model.initialize();
    assert_eq!(model.cursor(), Cursor::Unset);
    model.initialize();
    assert_eq!(model.cursor(), Cursor::Unset);
    let empty: [u8; 0] = [];
    assert_eq!(CumulativeChain::from(&empty).err(), Some(ChainError::EmptySequence));
    assert_eq!(CumulativeChain::from(&[9u8]).err(), Some(ChainError::AllDeadEnds));
}

#[test]
fn cumulative_chain_leaves_dead_end() {
    // "b" is only ever last, a dead end: from it the chain draws among the
    // rows of positive total, and only "a" has one, whose successor is "b".
    let mut model = CumulativeChain::from(&["a", "b"]).unwrap();
    for _ in 0..100 {
        assert_eq!(*model.next(), "b");
    }
}

#[test]
fn alias_chain_leaves_dead_end() {
    // "b" is a dead end: the chain draws among the rows of positive total,
    // and only "a" has one, whose successor is "b".
    let mut model = MarkovChain::from(&["a", "b"]).unwrap();
    for _ in 0..100 {
        assert_eq!(*model.next(), "b");
    }
}

#[test]
fn cumulative_tables_match_rows() {
    let model = CumulativeChain::from(&TEXT).unwrap();
    let counts = model.transition_counts();
    let tables = model.cumulative_tables();
    assert_eq!(tables.len(), 7);
    for (row, t) in counts.iter().zip(tables.iter()) {
        assert_eq!(Some(t.clone()), cumulative_table(row));
    }
    assert_eq!(tables[3], vec![0, 1, 1, 5, 5, 5, 5]);
}

#[test]
fn models_from_equal_text_are_equal() {
    let a = MarkovChain::from(&TEXT).unwrap();
    let mut b = MarkovChain::from(&TEXT).unwrap();
    assert_eq!(a, b);
    b.next();
    assert_ne!(a, b);
    b.initialize();
    assert_eq!(a, b);
    assert!(!format!("{:?}", a).is_empty());
    assert_eq!(CumulativeChain::from(&TEXT).unwrap(), CumulativeChain::from(&TEXT).unwrap());
}

#[test]
fn row_for_draw_takes_live_rows_in_order() {
    // Rows of positive total: every state but the dead end "wrong" (5).
    let live = [0usize, 1, 2, 3, 4, 6];
    let alias = MarkovChain::from(&TEXT).unwrap();
    let cumulative = CumulativeChain::from(&TEXT).unwrap();
    for (k, row) in live.iter().enumerate() {
        assert_eq!(alias.row_for_draw(k), *row);
        assert_eq!(cumulative.row_for_draw(k), *row);
    }
}

#[test]
fn row_for_draw_keeps_live_cursor() {
    let mut model = MarkovChain::from(&TEXT).unwrap();
    for _ in 0..200 {
        model.next();
        match model.cursor() {
            Cursor::At(5) => assert_eq!(model.row_for_draw(2), 2),
            Cursor::At(i) => assert_eq!(model.row_for_draw(2), i),
            Cursor::Unset => panic!("cursor unset after next"),
        }
    }
}
