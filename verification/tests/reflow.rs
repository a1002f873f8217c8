use vsg_rs::reflow::{comments, fill, prose};

fn run(source: &str, width: usize) -> String {
    String::from_utf8(comments(source.as_bytes().to_vec(), true, width)).unwrap()
}

#[test]
fn joins_and_splits_a_paragraph() {
    let source = "  -- one two\n  -- three four five\n";
    assert_eq!(run(source, 20), "  -- one two three\n  -- four five\n");
    // Wrapping is stable: re-wrapping its own output changes nothing.
    assert_eq!(run(&run(source, 20), 20), run(source, 20));
}

#[test]
fn keeps_structure_and_directives() {
    for source in [
        "-- vsg_off signal_008\n-- vsg_on signal_008\n",
        "--! documented\n--! and more\n",
        "-- * one item\n-- * another item\n",
        "-- | a | table |\n",
        "  -- indented\n    -- differently\n",
    ] {
        assert_eq!(run(source, 20), source, "{source:?}");
    }
}

#[test]
fn a_blank_line_separates_paragraphs() {
    assert_eq!(run("-- one\n\n-- two\n", 20), "-- one\n\n-- two\n");
}

#[test]
fn keeps_a_formatter_off_region() {
    let source = "-- vsg-rs: fmt off\n-- one two three four five\n-- vsg-rs: fmt on\n";
    assert_eq!(run(source, 12), source);
}

#[test]
fn leaves_code_alone() {
    let source = "entity e is\nend entity e;  -- trailing stays\n";
    assert_eq!(run(source, 10), source);
}

#[test]
fn reflow_off_returns_the_source() {
    let source = b"  -- one two\n  -- three four five\n".to_vec();
    assert_eq!(comments(source.clone(), false, 5), source);
}

#[test]
fn crlf_line_endings_are_kept() {
    let source = "-- one two\r\n-- three\r\nx;\r\n";
    assert_eq!(run(source, 80), "-- one two three\r\nx;\r\n");
}

#[test]
fn a_long_word_keeps_its_own_line() {
    assert_eq!(run("-- abcdefghijkl x\n", 8), "-- abcdefghijkl\n-- x\n");
}

#[test]
fn prose_lines_and_others() {
    assert_eq!(prose(b"  -- some words\n"), Some((&b"  "[..], &b"some words"[..])));
    assert_eq!(prose(b"-- text\r\n"), Some((&b""[..], &b"text"[..])));
    assert_eq!(prose(b"--- banner\n"), None);
    assert_eq!(prose(b"-- 1. item\n"), None);
    assert_eq!(prose(b"-- pragma translate_off\n"), None);
    assert_eq!(prose(b"-- a */ b\n"), None);
    assert_eq!(prose(b"x <= y; -- after code\n"), None);
    assert_eq!(prose(b"   \n"), None);
}

#[test]
fn fill_breaks_before_the_width() {
    let mut out = Vec::new();
    let words: [&[u8]; 3] = [b"aa", b"bb", b"cc"];
    fill(b"  ", &words, 10, true, &mut out);
    assert_eq!(out, b"  -- aa bb\n  -- cc\n".to_vec());
}

#[test]
fn filling_keeps_every_word_in_order() {
    let source = "  -- alpha beta gamma delta epsilon zeta eta theta iota kappa\n";
    let out = run(source, 24);
    assert_eq!(out, "  -- alpha beta gamma\n  -- delta epsilon zeta\n  -- eta theta iota\n  -- kappa\n");
    let words: Vec<&str> = out.split_whitespace().filter(|w| *w != "--").collect();
    assert_eq!(
        words,
        vec!["alpha", "beta", "gamma", "delta", "epsilon", "zeta", "eta", "theta", "iota", "kappa"]
    );
}

#[test]
fn a_paragraph_keeps_its_words_and_the_code_around_it() {
    let source = "x <= y;\n  -- one two\n  -- three\nz <= w;\n";
    let out = run(source, 30);
    assert_eq!(out, "x <= y;\n  -- one two three\nz <= w;\n");
    let words: Vec<&str> = out.lines().nth(1).unwrap().split_whitespace().filter(|w| *w != "--").collect();
    assert_eq!(words, vec!["one", "two", "three"]);
}
