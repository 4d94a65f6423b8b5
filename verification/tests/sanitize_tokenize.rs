use subkatsu::sanitize::strip_comment_lines;
use subkatsu::{is_cjk, sanitize, tokenize};

#[test]
fn transparent_block_hides_text_until_next_group() {
    let out = sanitize("{\\c&HFFFFFF&}hidden{\\c&H000000&}visible");
    assert!(out.contains("visible"));
    assert!(!out.contains("hidden"));
}

#[test]
fn comment_groups_are_removed() {
    assert_eq!(sanitize("{\\an8}Sign text"), "Sign text");
    assert_eq!(sanitize("before{note}after"), "beforeafter");
}

#[test]
fn break_markers_become_spaces() {
    assert_eq!(sanitize("foo\\Nbar"), "foo bar");
    assert_eq!(sanitize("foo\\nbar"), "foo bar");
    assert_eq!(sanitize("foo\\hbar"), "foo bar");
    assert_eq!(sanitize("foo\nbar"), "foo bar");
}

#[test]
fn unmatched_brace_is_kept() {
    assert_eq!(sanitize("a{b"), "a{b");
    assert_eq!(sanitize("{}x"), "{}x");
}

#[test]
fn transparent_stretch_ends_at_line_end() {
    // the hidden stretch runs to the end when no further group follows
    assert_eq!(sanitize("{\\c&HFF&}gone"), "");
    // a newline ends the hidden stretch
    assert_eq!(sanitize("{\\c&HFF&}gone\nkept"), " kept");
}

#[test]
fn cjk_detection() {
    assert!(is_cjk("こんにちは"));
    assert!(is_cjk("漢字"));
    assert!(is_cjk("カタカナ"));
    assert!(is_cjk("mixed 漢 text"));
    assert!(!is_cjk("hello world"));
    assert!(!is_cjk("caf\u{e9}"));
    assert!(!is_cjk(""));
}

#[test]
fn cjk_detection_covers_the_whole_scripts() {
    // Han radicals, Hangzhou numerals, and the extension blocks
    assert!(is_cjk("\u{2e80}"));
    assert!(is_cjk("\u{2f00}"));
    assert!(is_cjk("\u{3021}"));
    assert!(is_cjk("\u{2a700}"));
    assert!(is_cjk("\u{30000}"));
    // circled and squared Katakana, halfwidth Katakana
    assert!(is_cjk("\u{32d0}"));
    assert!(is_cjk("\u{3300}"));
    assert!(is_cjk("\u{ff71}"));
    // the prolonged sound mark alone is script-common
    assert!(!is_cjk("\u{30fc}"));
}

#[test]
fn accented_letters_are_not_punctuation() {
    // a non-ASCII letter ends the word run without becoming a token
    assert_eq!(tokenize("caf\u{e9} au lait"), vec!["caf", "au", "lait"]);
}

#[test]
fn tokenize_plain_words() {
    assert_eq!(tokenize("the quick brown fox"), vec!["the", "quick", "brown", "fox"]);
}

#[test]
fn tokenize_keeps_punctuation_separate() {
    assert_eq!(tokenize("Hello, world!"), vec!["Hello", ",", "world", "!"]);
    // every token is all-punctuation or all-word characters
    for tok in tokenize("Well... that's \"odd\", isn't it?") {
        let punct = tok.chars().all(|c| !c.is_whitespace() && !c.is_alphanumeric() && c != '_');
        let word = tok.chars().all(|c| c.is_ascii_alphabetic() || c == '\'' || c == '-');
        assert!(punct || word, "mixed token: {:?}", tok);
    }
}

#[test]
fn tokenize_quotes_and_leading_punctuation() {
    assert_eq!(tokenize("\"hi!\" she said"), vec!["\"", "hi", "!", "\"", "she", "said"]);
}

#[test]
fn tokenize_strips_markup_first() {
    assert_eq!(tokenize("{\\an8}Oh no"), vec!["Oh", "no"]);
    assert_eq!(tokenize("one\\Ntwo"), vec!["one", "two"]);
}

#[test]
fn letterless_dash_runs_are_tokens() {
    // a standalone hyphen or apostrophe stretch is a word-segment run
    assert_eq!(tokenize("wait - what"), vec!["wait", "-", "what"]);
    assert_eq!(tokenize("well -- hmm"), vec!["well", "--", "hmm"]);
    // punctuation directly before the stretch is kept as its own token
    assert_eq!(tokenize("so... --"), vec!["so", ".", "--"]);
    // a run without any apostrophe or hyphen at its end is still dropped
    assert_eq!(tokenize("a ... b"), vec!["a", "b"]);
}

#[test]
fn tokenize_empty_and_whitespace() {
    assert_eq!(tokenize(""), Vec::<String>::new());
    assert_eq!(tokenize("   "), Vec::<String>::new());
    assert_eq!(tokenize("123 456"), Vec::<String>::new());
}

#[test]
fn strip_comment_lines_drops_comments() {
    let text = "Dialogue: hello\nComment: typesetting\nDialogue: there\n";
    assert_eq!(strip_comment_lines(text), "Dialogue: hello\nDialogue: there\n");
}

#[test]
fn strip_comment_lines_normalizes_endings() {
    assert_eq!(strip_comment_lines("a\r\nComment: x\r\nb"), "a\nb\n");
    assert_eq!(strip_comment_lines(""), "");
}
