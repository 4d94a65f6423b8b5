use subkatsu::{
    generate_line, generate_lines, generate_subtitle_file, parse_duration_ms, train_entries,
    Chain, Error, ResultExt,
};

fn toks(words: &[&str]) -> Vec<String> {
    words.iter().map(|w| w.to_string()).collect()
}

#[test]
fn min_length_is_met_by_appending_segments() {
    // the single possible segment is "hi" (2 chars); meeting 20 takes
    // space-joined repetitions
    let mut chain = Chain::of_order(1);
    chain.feed(&toks(&["hi"]));
    let line = generate_line(&chain, None, Some(20)).unwrap();
    assert!(line.chars().count() >= 20);
    assert_eq!(line, "hi hi hi hi hi hi hi");
}

#[test]
fn no_min_length_gives_one_segment() {
    let mut chain = Chain::of_order(1);
    chain.feed(&toks(&["hi"]));
    assert_eq!(generate_line(&chain, None, None).unwrap(), "hi");
}

#[test]
fn unknown_start_token_is_an_error() {
    let mut chain = Chain::of_order(1);
    chain.feed(&toks(&["a", "b"]));
    let err = generate_line(&chain, Some("z"), None).unwrap_err();
    assert_eq!(err.context, "failed to generate chain from start token");
    assert!(generate_line(&chain, Some("a"), None).is_ok());
    assert_eq!(generate_line(&chain, Some("a"), None).unwrap(), "a b");
}

#[test]
fn generated_line_balances_symbols() {
    // the only walk emits "(" then "word": rendering must close the bracket
    let mut chain = Chain::of_order(1);
    chain.feed(&toks(&["(", "word"]));
    assert_eq!(generate_line(&chain, None, None).unwrap(), "( word)");
}

#[test]
fn trailing_empty_quote_artifact_is_trimmed() {
    // the walk ends in a dangling quote; balancing appends its partner and
    // the cosmetic trailing `space-quote-quote` is trimmed away
    let mut chain = Chain::of_order(1);
    chain.feed(&toks(&["a", "\""]));
    assert_eq!(generate_line(&chain, None, None).unwrap(), "a");
}

#[test]
fn generate_lines_counts() {
    let mut chain = Chain::of_order(1);
    chain.feed(&toks(&["hi"]));
    let lines = generate_lines(&chain, None, None, 3).unwrap();
    assert_eq!(lines, vec!["hi", "hi", "hi"]);
    assert_eq!(generate_lines(&chain, None, None, 0).unwrap(), Vec::<String>::new());
    assert!(generate_lines(&chain, Some("z"), None, 2).is_err());
}

#[test]
fn identical_entries_get_identical_replacements() {
    // a model with branching, so distinct generations could differ
    let mut chain = Chain::of_order(1);
    for _ in 0..5 {
        chain.feed(&toks(&["x", "y"]));
        chain.feed(&toks(&["x", "z", "w"]));
        chain.feed(&toks(&["y", "x"]));
    }
    let mut lines = vec![
        Some("Hello there".to_string()),
        Some("different line".to_string()),
        Some("Hello there".to_string()),
        Some("Hello  there".to_string()),
    ];
    generate_subtitle_file(&chain, &mut lines, None, None).unwrap();
    // same source text tokenizes identically, so the replacement is reused
    assert_eq!(lines[0], lines[2]);
    // extra whitespace does not change the tokens either
    assert_eq!(lines[0], lines[3]);
    assert!(lines[0].as_ref().unwrap().len() > 0);
}

#[test]
fn positioning_and_blank_entries_become_empty() {
    let mut chain = Chain::of_order(1);
    chain.feed(&toks(&["hi"]));
    let mut lines = vec![
        Some("a sign \\pos(100,200) here".to_string()),
        Some("   ".to_string()),
        None,
        Some("real dialogue".to_string()),
    ];
    generate_subtitle_file(&chain, &mut lines, None, None).unwrap();
    assert_eq!(lines[0], Some(String::new()));
    assert_eq!(lines[1], Some(String::new()));
    assert_eq!(lines[2], None);
    assert_eq!(lines[3], Some("hi".to_string()));
}

#[test]
fn failed_generation_leaves_entries_alone() {
    let mut chain = Chain::of_order(1);
    chain.feed(&toks(&["hi"]));
    let mut lines = vec![Some("dialogue".to_string())];
    let before = lines.clone();
    assert!(generate_subtitle_file(&chain, &mut lines, Some("unknown"), None).is_err());
    assert_eq!(lines, before);
}

#[test]
fn parse_durations() {
    assert_eq!(parse_duration_ms("100").unwrap(), 100);
    assert_eq!(parse_duration_ms("100ms").unwrap(), 100);
    assert_eq!(parse_duration_ms("5s").unwrap(), 5000);
    assert_eq!(parse_duration_ms("2m").unwrap(), 120000);
    assert_eq!(parse_duration_ms("1h").unwrap(), 3600000);
    assert_eq!(parse_duration_ms("+7").unwrap(), 7);
    // every trailing copy of the unit is stripped before parsing
    assert_eq!(parse_duration_ms("5ss").unwrap(), 5000);
}

#[test]
fn parse_duration_rejections() {
    let err = parse_duration_ms("").unwrap_err();
    assert_eq!(err.context, "failed to parse duration");
    assert!(parse_duration_ms("abc").is_err());
    assert!(parse_duration_ms("12x").is_err());
    // 5000000 seconds exceed the representable milliseconds
    assert!(parse_duration_ms("5000000s").is_err());
    assert!(parse_duration_ms("99999999999999999999").is_err());
}

#[test]
fn error_context_chains() {
    let base: Result<u32, Error> = Err(Error::context("root cause"));
    let wrapped = base.context("while doing work");
    let err = wrapped.unwrap_err();
    assert_eq!(err.context, "while doing work");
    let mut iter = err.iter();
    assert_eq!(iter.next().unwrap().context, "while doing work");
    assert_eq!(iter.next().unwrap().context, "root cause");
    assert!(iter.next().is_none());
}

#[test]
fn string_errors_become_causes() {
    let base: Result<u32, String> = Err("io failure".to_string());
    let err = base.context("failed to read file").unwrap_err();
    assert_eq!(err.context, "failed to read file");
    assert_eq!(err.cause.as_ref().unwrap().context, "io failure");
    let ok: Result<u32, String> = Ok(5);
    assert_eq!(ok.context("unused").unwrap(), 5);
}
