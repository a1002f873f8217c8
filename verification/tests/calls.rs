use vsg_rs::analysis::calls::{innermost_body, message, recursive, Place, Span};

fn span(file: usize, from: (u32, u32), to: (u32, u32)) -> Span {
    Span {
        file,
        start: Place { line: from.0, character: from.1 },
        end: Place { line: to.0, character: to.1 },
    }
}

#[test]
fn a_call_belongs_to_the_innermost_body() {
    // A subprogram on lines 0 to 10, with a nested one on lines 2 to 4.
    let bodies = vec![span(0, (0, 0), (10, 0)), span(0, (2, 2), (4, 2))];
    assert_eq!(innermost_body(&bodies, &span(0, (3, 5), (3, 9))), Some(1));
    assert_eq!(innermost_body(&bodies, &span(0, (6, 5), (6, 9))), Some(0));
    assert_eq!(innermost_body(&bodies, &span(1, (3, 5), (3, 9))), None);
    assert_eq!(innermost_body(&bodies, &span(0, (12, 0), (12, 3))), None);
}

#[test]
fn of_two_bodies_as_deep_the_first_wins() {
    let bodies = vec![span(0, (1, 0), (3, 0)), span(0, (1, 0), (3, 5))];
    assert_eq!(innermost_body(&bodies, &span(0, (2, 0), (2, 1))), Some(0));
}

#[test]
fn only_a_call_written_in_its_own_body_is_recursion() {
    let bodies = vec![span(0, (0, 0), (10, 0)), span(0, (2, 2), (4, 2))];
    // The outer body called from inside the nested one is the nested one calling it.
    assert_eq!(recursive(&bodies, &vec![(span(0, (3, 5), (3, 9)), 0)]), vec![false, false]);
    // The nested body called from inside itself.
    assert_eq!(recursive(&bodies, &vec![(span(0, (3, 5), (3, 9)), 1)]), vec![false, true]);
    // The outer body called from its own part.
    assert_eq!(recursive(&bodies, &vec![(span(0, (6, 5), (6, 9)), 0)]), vec![true, false]);
    // A call elsewhere.
    assert_eq!(recursive(&bodies, &vec![(span(1, (6, 5), (6, 9)), 0)]), vec![false, false]);
}

#[test]
fn the_recursion_message() {
    assert_eq!(
        message("fact"),
        "Subprogram 'fact' calls itself. Recursion is legal VHDL and simulates, but no synthesis \
         tool accepts it: the hardware for a call is inlined, and a call that reaches itself has \
         no bottom to inline from."
    );
}
