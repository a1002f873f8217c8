use vsg_rs::display_width;
use vsg_rs::doc::{print, Doc, PrintOptions};

fn atom(s: &str, space: bool) -> Doc {
    Doc::Atom {
        text: s.as_bytes().to_vec(),
        width: s.len(),
        space,
    }
}

fn call(n: usize) -> Doc {
    let mut inner = vec![Doc::Line];
    for i in 0..n {
        if i > 0 {
            inner.push(atom(",", false));
            inner.push(Doc::Line);
        }
        inner.push(atom(&format!("arg{i}"), i > 0));
    }
    Doc::Concat(vec![
        atom("f", false),
        Doc::Group {
            id: 0,
            broken: false,
            doc: Box::new(Doc::Concat(vec![
                atom("(", false),
                Doc::indent(Doc::Concat(inner)),
                Doc::Line,
                atom(")", false),
            ])),
        },
    ])
}

fn opts(width: usize) -> PrintOptions {
    PrintOptions {
        width,
        indent: 2,
        tabs: false,
        indent_continuations: false,
    }
}

#[test]
fn group_flat_or_broken_by_width() {
    assert_eq!(print(call(3), 1, &opts(80)), b"f(arg0, arg1, arg2)\n");
    let out = print(call(3), 1, &opts(10));
    assert_eq!(
        String::from_utf8(out).unwrap(),
        "f(\n  arg0,\n  arg1,\n  arg2\n)\n"
    );
}

#[test]
fn exact_width_boundary() {
    // Flat width is 19.
    assert_eq!(print(call(3), 1, &opts(19)), b"f(arg0, arg1, arg2)\n");
    assert_ne!(print(call(3), 1, &opts(18)), b"f(arg0, arg1, arg2)\n");
}

#[test]
fn suffix_forces_newline_before_next_atom() {
    let d = Doc::Concat(vec![
        atom("a", false),
        Doc::Suffix(b" -- c".to_vec()),
        atom("b", true),
    ]);
    assert_eq!(print(d, 0, &opts(80)), b"a -- c\nb\n");
}

#[test]
fn suffix_does_not_count_towards_width() {
    // The group fits in 20 columns; the trailing comment must not make it break.
    let d = Doc::Concat(vec![
        call(3),
        Doc::Suffix(b" -- a very long comment".to_vec()),
    ]);
    let out = String::from_utf8(print(d, 1, &opts(20))).unwrap();
    assert_eq!(out, "f(arg0, arg1, arg2) -- a very long comment\n");
}

#[test]
fn widths() {
    assert_eq!(display_width("héllo".as_bytes(), true, 0), 5);
    assert_eq!(display_width(&[b'h', 0xE9], false, 0), 2);
    assert_eq!(display_width(b"\tx", true, 1), 4);
    assert_eq!(display_width(b"ab\ncde", true, 7), 3);
}

#[test]
fn a_flat_line_prints_nothing_and_a_broken_one_breaks() {
    let flat = Doc::Group {
        id: 0,
        broken: false,
        doc: Box::new(Doc::Concat(vec![atom("a", false), Doc::Line, atom("b", true)])),
    };
    assert_eq!(print(flat, 1, &opts(80)), b"a b\n");
    let broken = Doc::Group {
        id: 0,
        broken: true,
        doc: Box::new(Doc::Concat(vec![atom("a", false), Doc::Line, atom("b", true)])),
    };
    assert_eq!(print(broken, 1, &opts(80)), b"a\nb\n");
}

#[test]
fn a_forced_break_breaks_its_group() {
    let d = Doc::Group {
        id: 0,
        broken: false,
        doc: Box::new(Doc::Concat(vec![
            atom("a", false),
            Doc::Line,
            atom("b", true),
            Doc::Hard,
            atom("c", false),
        ])),
    };
    assert_eq!(print(d, 1, &opts(80)), b"a\nb\nc\n");
}

#[test]
fn nothing_printed_is_empty_output() {
    assert_eq!(print(Doc::Nil, 0, &opts(80)), b"");
    assert_eq!(print(Doc::Concat(vec![Doc::Line, Doc::Hard]), 0, &opts(80)), b"");
}

#[test]
fn blank_lines_and_tabs() {
    let d = Doc::Concat(vec![
        atom("a", false),
        Doc::Blank(1),
        Doc::indent(Doc::Concat(vec![Doc::Hard, atom("b", false)])),
    ]);
    assert_eq!(print(d, 0, &opts(80)), b"a\n\n  b\n");
    let tabs = PrintOptions {
        width: 80,
        indent: 2,
        tabs: true,
        indent_continuations: false,
    };
    let d = Doc::Concat(vec![
        atom("a", false),
        Doc::indent(Doc::Concat(vec![Doc::Hard, atom("b", false)])),
    ]);
    assert_eq!(print(d, 0, &tabs), b"a\n\tb\n");
}

#[test]
fn indent_n_nests_indentation() {
    let d = Doc::Concat(vec![
        atom("a", false),
        Doc::indent_n(2, Doc::Concat(vec![Doc::Hard, atom("b", false)])),
    ]);
    assert_eq!(print(d, 0, &opts(80)), b"a\n    b\n");
}

#[test]
fn alignment_follows_the_first_atom() {
    let d = Doc::Concat(vec![
        atom("xx", false),
        Doc::align(Doc::Concat(vec![atom("y", true), Doc::Hard, atom("z", false)])),
    ]);
    assert_eq!(print(d, 0, &opts(80)), b"xx y\n   z\n");
}

#[test]
fn alignment_after_a_multi_line_atom_prints() {
    let opts = PrintOptions {
        width: 80,
        indent: 4,
        tabs: true,
        indent_continuations: false,
    };
    let d = Doc::indent(Doc::Concat(vec![
        Doc::Atom {
            text: b"/* a\n*/".to_vec(),
            width: 2,
            space: false,
        },
        Doc::Align(Box::new(Doc::Concat(vec![atom("x", true), Doc::Hard, atom("y", false)]))),
    ]));
    let out = print(d, 0, &opts);
    assert!(out.ends_with(b"y\n"));
    assert!(out.len() < 64);
}

#[test]
fn width_laws_on_values() {
    // The last line alone counts.
    assert_eq!(display_width(b"abc\nxy", false, 7), 2);
    assert_eq!(display_width(b"abc\nxy", false, 7), display_width(b"xy", false, 0));
    // One column per byte, or per character in UTF-8.
    assert_eq!(display_width("h\u{e9}llo".as_bytes(), false, 3), 6);
    assert_eq!(display_width("h\u{e9}llo".as_bytes(), true, 3), 5);
}

#[test]
fn trailing_breaks_leave_exactly_one_newline() {
    let d = Doc::Concat(vec![atom("a", false), Doc::Hard, Doc::Blank(2), atom("b", false), Doc::Blank(1), Doc::Hard]);
    assert_eq!(print(d, 0, &opts(80)), b"a\n\n\nb\n");
    let d = Doc::Concat(vec![atom("x", false), Doc::Suffix(b" -- end".to_vec()), Doc::Hard]);
    assert_eq!(print(d, 0, &opts(80)), b"x -- end\n");
}

#[test]
fn printing_writes_no_carriage_return() {
    let d = Doc::Concat(vec![atom("a", false), Doc::Hard, Doc::indent(Doc::Concat(vec![Doc::Hard, atom("b", false)])), Doc::Space(3), atom("c", false)]);
    let out = print(d, 0, &opts(80));
    assert!(!out.contains(&b'\r'));
    assert_eq!(out, b"a\n  b   c\n");
}
