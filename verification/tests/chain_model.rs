use subkatsu::{train_entries, Chain};

fn toks(words: &[&str]) -> Vec<String> {
    words.iter().map(|w| w.to_string()).collect()
}

#[test]
fn single_sequence_walks_deterministically() {
    // feeding ["a","b","c"] at order 1 leaves only the transitions
    // start->a, a->b, b->c, c->end, so every draw sequence walks them
    let mut chain = Chain::of_order(1);
    chain.feed(&toks(&["a", "b", "c"]));
    assert_eq!(chain.generate_with_draws(&vec![0, 0, 0, 0, 0]), vec!["a", "b", "c"]);
    assert_eq!(chain.generate_with_draws(&vec![7, 13, 5, 9, 2, 4]), vec!["a", "b", "c"]);
    // the weighted random walk has no other path either
    assert_eq!(chain.generate(), vec!["a", "b", "c"]);
}

#[test]
fn generate_from_token_unknown_is_empty() {
    let mut chain = Chain::of_order(1);
    chain.feed(&toks(&["a", "b", "c"]));
    assert_eq!(chain.generate_from_token("z"), Vec::<String>::new());
}

#[test]
fn generate_from_token_continues_the_walk() {
    let mut chain = Chain::of_order(1);
    chain.feed(&toks(&["a", "b", "c"]));
    assert_eq!(chain.generate_from_token("b"), vec!["b", "c"]);
}

#[test]
fn feeding_empty_is_a_noop() {
    let mut chain = Chain::of_order(2);
    chain.feed(&Vec::new());
    assert_eq!(chain.to_rows(), Vec::new());
}

#[test]
fn consecutive_duplicates_feed_once() {
    // three consecutive identical lines contribute a single feed
    let line = || Some("Hello there".to_string());
    let mut trained = Chain::of_order(1);
    train_entries(&mut trained, &vec![line(), line(), line()]);

    let mut once = Chain::of_order(1);
    once.feed(&toks(&["Hello", "there"]));
    assert_eq!(trained.to_rows(), once.to_rows());
}

#[test]
fn duplicates_across_files_feed_independently() {
    // the suppression is per file: a fresh call forgets the previous line
    let line = || Some("Hello there".to_string());
    let mut trained = Chain::of_order(1);
    train_entries(&mut trained, &vec![line()]);
    train_entries(&mut trained, &vec![line()]);

    let mut twice = Chain::of_order(1);
    twice.feed(&toks(&["Hello", "there"]));
    twice.feed(&toks(&["Hello", "there"]));
    assert_eq!(trained.to_rows(), twice.to_rows());
}

#[test]
fn nonconsecutive_duplicates_both_feed() {
    let mut trained = Chain::of_order(1);
    train_entries(
        &mut trained,
        &vec![
            Some("one two".to_string()),
            Some("three four".to_string()),
            Some("one two".to_string()),
        ],
    );

    let mut by_hand = Chain::of_order(1);
    by_hand.feed(&toks(&["one", "two"]));
    by_hand.feed(&toks(&["three", "four"]));
    by_hand.feed(&toks(&["one", "two"]));
    assert_eq!(trained.to_rows(), by_hand.to_rows());
}

#[test]
fn entries_without_text_do_not_reset_suppression() {
    let mut trained = Chain::of_order(1);
    train_entries(&mut trained, &vec![Some("a b".to_string()), None, Some("a b".to_string())]);

    let mut once = Chain::of_order(1);
    once.feed(&toks(&["a", "b"]));
    assert_eq!(trained.to_rows(), once.to_rows());
}

#[test]
fn rows_round_trip_exactly() {
    let mut chain = Chain::of_order(2);
    chain.feed(&toks(&["a", "b", "a", "c"]));
    chain.feed(&toks(&["b"]));
    let rows = chain.to_rows();
    let restored = Chain::from_rows(2, &rows).unwrap();
    assert_eq!(restored.order(), 2);
    assert_eq!(restored.to_rows(), rows);
}

#[test]
fn from_rows_rejects_bad_data() {
    // order zero
    assert!(Chain::from_rows(0, &Vec::new()).is_err());
    // wrong context length
    let bad_len = vec![(vec![None], vec![(None, 1u64)])];
    assert!(Chain::from_rows(2, &bad_len).is_err());
    // a row with no successors
    let no_succ = vec![(vec![None], Vec::new())];
    assert!(Chain::from_rows(1, &no_succ).is_err());
    // a zero count
    let zero = vec![(vec![None], vec![(Some("a".to_string()), 0u64)])];
    assert!(Chain::from_rows(1, &zero).is_err());
    // a repeated successor token
    let dup_tok = vec![(
        vec![None],
        vec![(Some("a".to_string()), 1u64), (Some("a".to_string()), 2u64)],
    )];
    assert!(Chain::from_rows(1, &dup_tok).is_err());
    // a repeated context
    let dup_ctx = vec![
        (vec![None], vec![(Some("a".to_string()), 1u64)]),
        (vec![None], vec![(Some("b".to_string()), 1u64)]),
    ];
    assert!(Chain::from_rows(1, &dup_ctx).is_err());
}

#[test]
fn counts_accumulate_per_successor() {
    let mut chain = Chain::of_order(1);
    chain.feed(&toks(&["x", "y"]));
    chain.feed(&toks(&["x", "y"]));
    chain.feed(&toks(&["x", "z"]));
    let rows = chain.to_rows();
    // the row for context ["x"] holds y twice and z once
    let x_row = rows
        .iter()
        .find(|(ctx, _)| ctx == &vec![Some("x".to_string())])
        .expect("context for x");
    assert_eq!(
        x_row.1,
        vec![(Some("y".to_string()), 2u64), (Some("z".to_string()), 1u64)]
    );
}
