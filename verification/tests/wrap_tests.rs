use grid_layout::wrap::wrap_text;

fn s(v: &[&str]) -> Vec<String> {
    v.iter().map(|t| t.to_string()).collect()
}

#[test]
fn empty_text_gives_one_empty_line() {
    assert_eq!(wrap_text("", 10, 1), s(&[""]));
    assert_eq!(wrap_text("", 0, 5), s(&[""]));
    assert_eq!(wrap_text("", 80, 3), s(&[""]));
}

#[test]
fn zero_width_gives_one_empty_line() {
    assert_eq!(wrap_text("abc", 0, 3), s(&[""]));
    assert_eq!(wrap_text("hello world", 0, 1), s(&[""]));
}

#[test]
fn whitespace_only_text_gives_one_empty_line() {
    assert_eq!(wrap_text("   \t\n  ", 10, 3), s(&[""]));
}

#[test]
fn words_pack_greedily() {
    // "hello world" is 11 characters: it fits on one line of width 11
    // because 5 + 5 + 1 (space) <= 11, and "foo" starts the next line.
    assert_eq!(wrap_text("hello world foo", 11, 5), s(&["hello world", "foo"]));
    // At width 10 the space allowance no longer fits.
    assert_eq!(wrap_text("hello world", 10, 5), s(&["hello", "world"]));
}

#[test]
fn word_filling_the_width_exactly_gets_its_own_line() {
    // The packing rule reserves one cell for a separating space, so a
    // width-sized word never joins another word.
    assert_eq!(wrap_text("abcde", 5, 3), s(&["abcde"]));
    assert_eq!(wrap_text("ab cd", 2, 5), s(&["ab", "cd"]));
}

#[test]
fn long_word_is_hard_split() {
    // A 34-character word at width 10 becomes ceil(34 / 10) = 4 chunks of
    // 10, 10, 10 and 4 characters; no character is lost.
    assert_eq!(
        wrap_text("supercalifragilisticexpialidocious", 10, 5),
        s(&["supercalif", "ragilistic", "expialidoc", "ious"])
    );
}

#[test]
fn long_word_flushes_the_open_line_first() {
    assert_eq!(wrap_text("hi abcdefgh", 5, 5), s(&["hi", "abcde", "fgh"]));
}

#[test]
fn output_never_exceeds_max_lines() {
    assert_eq!(wrap_text("a b c d e f", 1, 3), s(&["a", "b", "c"]));
    assert_eq!(wrap_text("one two three four", 5, 2).len(), 2);
    // Truncation also stops a hard split mid-word and drops what follows.
    assert_eq!(wrap_text("aa bb cccccc", 5, 2), s(&["aa bb", "ccccc"]));
    // A word that arrives after the limit was reached is dropped entirely.
    assert_eq!(wrap_text("abcdefgh ab abcdefgh", 5, 1), s(&["abcde"]));
}

#[test]
fn zero_max_lines_still_gives_one_empty_line() {
    // The never-empty guarantee wins over the line limit here.
    assert_eq!(wrap_text("hello", 5, 0), s(&[""]));
}

#[test]
fn runs_of_whitespace_collapse() {
    assert_eq!(wrap_text("  hello   world  ", 20, 5), s(&["hello world"]));
    assert_eq!(wrap_text("a\tb\nc", 10, 5), s(&["a b c"]));
}

#[test]
fn width_counts_characters_not_bytes() {
    // Both words are five characters; their accented letters take two bytes
    // each, which must not trigger a hard split.
    assert_eq!(wrap_text("h\u{e9}llo w\u{f6}rld", 5, 4), s(&["h\u{e9}llo", "w\u{f6}rld"]));
    // Hard-splitting a multi-byte word cuts at character boundaries.
    assert_eq!(wrap_text("\u{e9}\u{e9}\u{e9}\u{e9}\u{e9}", 2, 5), s(&["\u{e9}\u{e9}", "\u{e9}\u{e9}", "\u{e9}"]));
}

#[test]
fn no_line_exceeds_the_width() {
    let lines = wrap_text("the quick brown fox jumps over the lazy dog", 7, 20);
    assert!(!lines.is_empty());
    for line in &lines {
        assert!(line.chars().count() <= 7);
    }
    assert_eq!(lines[0], "the");
    assert_eq!(lines[1], "quick");
}
