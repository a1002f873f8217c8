//! Width-aware document model and printer.
//!
//! The formatter lowers the syntax tree into a [`Doc`], a tree of atoms (tokens and comments),
//! line breaks, indentation and groups. The printer decides, group by group, whether a group is
//! printed flat or broken, using the classic "does the rest of this line fit" test
//! (Wadler/Oppen/Prettier family). The decision for a group depends only on the document and the
//! configured width, so output is deterministic.
//!
//! Spacing between atoms is carried by the atoms themselves (`space`), so a [`Doc::Line`] prints
//! nothing when flat and a newline when broken.
//!
//! Comments that trail a token are printed as line suffixes: they never count towards the width
//! when deciding a layout, and a pending suffix always ends the line before any further atom is
//! printed, so a comment can never swallow code.
//!
//! The printer is specified by a state machine over ghost states ([`PState`]) and ghost commands
//! ([`SCmd`]): [`spec_step`] is one step, [`spec_run`] runs the machine until its stack is empty
//! and [`spec_print`] is the whole printing. The executable printer is proved to compute exactly
//! [`spec_print`]. A run is `ok` when no step would overflow a machine integer or index a group
//! that does not exist.
use vstd::prelude::*;

use crate::bytes::{contains_byte, extend_bytes, push_repeated, repeated};

verus! {

pub type GroupId = usize;

#[allow(inconsistent_fields)]
pub enum Doc {
    Nil,
    /// Text that is never split. `space`: separate from a preceding atom on the same line.
    Atom { text: Vec<u8>, width: usize, space: bool },
    /// Nothing when flat, a newline when the enclosing group is broken.
    Line,
    /// `n` spaces between two atoms on the same line (nothing at the start of a line).
    Space(usize),
    /// Always a newline; forces all enclosing groups to break.
    Hard,
    /// The given number of blank lines; forces all enclosing groups to break.
    Blank(u8),
    /// Zero-width marker that forces all enclosing groups to break.
    BreakParent,
    /// End-of-line text (a trailing comment). Does not count towards the width.
    Suffix(Vec<u8>),
    Concat(Vec<Doc>),
    /// Increase indentation by one level for lines started inside.
    Indent(Box<Doc>),
    /// Indent lines started inside to the column where the first atom inside is printed.
    Align(Box<Doc>),
    Group { id: GroupId, doc: Box<Doc>, broken: bool },
    /// Chooses a document depending on how group `id` was printed.
    IfBreak { id: GroupId, broken: Box<Doc>, flat: Box<Doc> },
    /// Two layouts of the same tokens: `flat` when its first line fits (and always when the
    /// enclosing group is flat), `broken` otherwise.
    Choice { flat: Box<Doc>, broken: Box<Doc> },
    /// A value after `:=` or `=>`, in order of preference: flat on the current line; flat on an
    /// indented continuation line; folded inside itself with its first line on the current
    /// line; folded on a continuation line.
    /// `forced`: the value contains a forced line break (computed when printing).
    Hug { value: Box<Doc>, forced: bool },
    /// Items separated by line breaks (odd positions); a separator breaks only when the item
    /// after it does not fit on the current line.
    Fill(Vec<Doc>),
}

/// The mathematical form of a [`Doc`]: the same tree, with sequences for vectors and integers
/// for sizes.
#[allow(inconsistent_fields)]
pub ghost enum SDoc {
    Nil,
    Atom { text: Seq<u8>, width: int, space: bool },
    Line,
    Space(int),
    Hard,
    Blank(u8),
    BreakParent,
    Suffix(Seq<u8>),
    Concat(Seq<SDoc>),
    Indent(Box<SDoc>),
    Align(Box<SDoc>),
    Group { id: int, doc: Box<SDoc>, broken: bool },
    IfBreak { id: int, broken: Box<SDoc>, flat: Box<SDoc> },
    Choice { flat: Box<SDoc>, broken: Box<SDoc> },
    Hug { value: Box<SDoc>, forced: bool },
    Fill(Seq<SDoc>),
}

/// The mathematical form of a sequence of documents.
pub open spec fn docs_view(v: Seq<Doc>) -> Seq<SDoc> {
    Seq::new(v.len(), |i: int| if 0 <= i < v.len() { doc_view(v[i]) } else { SDoc::Nil })
}

/// The mathematical form of a document.
pub open spec fn doc_view(d: Doc) -> SDoc
    decreases d,
{
    match d {
        Doc::Nil => SDoc::Nil,
        Doc::Atom { text, width, space } => SDoc::Atom { text: text@, width: width as int, space },
        Doc::Line => SDoc::Line,
        Doc::Space(n) => SDoc::Space(n as int),
        Doc::Hard => SDoc::Hard,
        Doc::Blank(n) => SDoc::Blank(n),
        Doc::BreakParent => SDoc::BreakParent,
        Doc::Suffix(s) => SDoc::Suffix(s@),
        Doc::Concat(v) => SDoc::Concat(
            Seq::new(v@.len(), |i: int| if 0 <= i < v@.len() { doc_view(v@[i]) } else { SDoc::Nil }),
        ),
        Doc::Indent(b) => SDoc::Indent(Box::new(doc_view(*b))),
        Doc::Align(b) => SDoc::Align(Box::new(doc_view(*b))),
        Doc::Group { id, doc, broken } => SDoc::Group {
            id: id as int,
            doc: Box::new(doc_view(*doc)),
            broken,
        },
        Doc::IfBreak { id, broken, flat } => SDoc::IfBreak {
            id: id as int,
            broken: Box::new(doc_view(*broken)),
            flat: Box::new(doc_view(*flat)),
        },
        Doc::Choice { flat, broken } => SDoc::Choice {
            flat: Box::new(doc_view(*flat)),
            broken: Box::new(doc_view(*broken)),
        },
        Doc::Hug { value, forced } => SDoc::Hug { value: Box::new(doc_view(*value)), forced },
        Doc::Fill(v) => SDoc::Fill(
            Seq::new(v@.len(), |i: int| if 0 <= i < v@.len() { doc_view(v@[i]) } else { SDoc::Nil }),
        ),
    }
}

impl View for Doc {
    type V = SDoc;

    open spec fn view(&self) -> SDoc {
        doc_view(*self)
    }
}

// Sizes: the measure that makes printing terminate ---------------------------------------------

/// The number of nodes of a document, counting every item of a fill three times (the item, and
/// the two steps of the fill that reach it).
pub open spec fn doc_size(d: SDoc) -> nat
    decreases d,
{
    match d {
        SDoc::Concat(v) => 1 + docs_size(v),
        SDoc::Fill(v) => 1 + 2 * v.len() + docs_size(v),
        SDoc::Indent(b) => 1 + doc_size(*b),
        SDoc::Align(b) => 1 + doc_size(*b),
        SDoc::Group { doc, .. } => 1 + doc_size(*doc),
        SDoc::IfBreak { broken, flat, .. } => 1 + doc_size(*broken) + doc_size(*flat),
        SDoc::Choice { flat, broken } => 1 + doc_size(*flat) + doc_size(*broken),
        SDoc::Hug { value, .. } => 1 + doc_size(*value),
        _ => 1,
    }
}

/// The sizes of a sequence of documents, added up.
pub open spec fn docs_size(s: Seq<SDoc>) -> nat
    decreases s,
{
    if s.len() == 0 {
        0
    } else {
        docs_size(s.drop_last()) + doc_size(s.last())
    }
}

pub proof fn lemma_docs_size_append(a: Seq<SDoc>, b: Seq<SDoc>)
    ensures
        docs_size(a + b) == docs_size(a) + docs_size(b),
    decreases b.len(),
{
    if b.len() == 0 {
        assert(a + b =~= a);
    } else {
        lemma_docs_size_append(a, b.drop_last());
        assert((a + b).drop_last() =~= a + b.drop_last());
    }
}

/// `docs_size(s.skip(f))`, split into its first document and the rest.
pub proof fn lemma_docs_size_skip(s: Seq<SDoc>, f: int)
    requires
        0 <= f < s.len(),
    ensures
        docs_size(s.skip(f)) == doc_size(s[f]) + docs_size(s.skip(f + 1)),
{
    let one = seq![s[f]];
    lemma_docs_size_append(one, s.skip(f + 1));
    assert(one + s.skip(f + 1) =~= s.skip(f));
    assert(one.drop_last() =~= Seq::<SDoc>::empty());
    assert(docs_size(one) == docs_size(one.drop_last()) + doc_size(one.last()));
}


// The printer as a state machine ----------------------------------------------------------------

pub struct PrintOptions {
    pub width: usize,
    pub indent: usize,
    /// Indent with tabs (one per level) and align with spaces (VSG `smart_tabs`). A tab is
    /// assumed to be `indent` columns wide when measuring.
    pub tabs: bool,
    /// Continuation lines are indented one level instead of aligned (VSG `align_left: yes`,
    /// `align_paren: no`).
    pub indent_continuations: bool,
}

/// The state of the printer between two steps.
pub ghost struct PState {
    pub out: Seq<u8>,
    pub col: int,
    /// Newlines requested but not yet written (0, 1 or 2) and the indentation to use.
    pub pending: u8,
    pub pending_indent: int,
    pub pending_levels: int,
    pub at_start: bool,
    /// Indentation of the current line, and its part made of whole levels.
    pub line_indent: int,
    pub line_levels: int,
    pub suffix: Seq<u8>,
    /// How each group was printed: `true` when broken.
    pub modes: Seq<bool>,
    /// No step so far overflowed a machine integer or named a group that does not exist.
    pub ok: bool,
}

/// A document to print, with the indentation and mode it is printed in.
pub ghost struct SCmd {
    pub indent: int,
    /// The part of `indent` that consists of whole indentation levels (printed as tabs).
    pub levels: int,
    pub flat: bool,
    pub doc: SDoc,
    /// Position inside a [`Doc::Fill`] still to be printed.
    pub fill: int,
}

pub open spec fn cmd_size(c: SCmd) -> nat {
    match c.doc {
        SDoc::Fill(v) => if 0 <= c.fill <= v.len() {
            1 + 2 * (v.len() - c.fill) as nat + docs_size(v.skip(c.fill))
        } else {
            1
        },
        _ => doc_size(c.doc),
    }
}

pub open spec fn stack_size(s: Seq<SCmd>) -> nat
    decreases s.len(),
{
    if s.len() == 0 {
        0
    } else {
        stack_size(s.drop_last()) + cmd_size(s.last())
    }
}

pub proof fn lemma_stack_size_append(a: Seq<SCmd>, b: Seq<SCmd>)
    ensures
        stack_size(a + b) == stack_size(a) + stack_size(b),
    decreases b.len(),
{
    if b.len() == 0 {
        assert(a + b =~= a);
    } else {
        lemma_stack_size_append(a, b.drop_last());
        assert((a + b).drop_last() =~= a + b.drop_last());
    }
}

/// The commands printing the documents of `v` in order, with the settings of `c`: the first
/// document is on top (last).
pub open spec fn children(v: Seq<SDoc>, c: SCmd) -> Seq<SCmd> {
    Seq::new(v.len(), |i: int| SCmd { doc: v[v.len() - 1 - i], fill: 0, ..c })
}

pub proof fn lemma_fresh_cmd_size(c: SCmd)
    requires
        c.fill == 0,
    ensures
        cmd_size(c) == doc_size(c.doc),
{
    if let SDoc::Fill(v) = c.doc {
        assert(v.skip(0) =~= v);
    }
}

pub proof fn lemma_children_size(v: Seq<SDoc>, c: SCmd)
    ensures
        stack_size(children(v, c)) == docs_size(v),
    decreases v.len(),
{
    if v.len() > 0 {
        let first = SCmd { doc: v.last(), fill: 0, ..c };
        lemma_children_size(v.drop_last(), c);
        assert(children(v, c) =~= seq![first] + children(v.drop_last(), c));
        lemma_stack_size_append(seq![first], children(v.drop_last(), c));
        assert(seq![first].drop_last() =~= Seq::<SCmd>::empty());
        assert(stack_size(seq![first]) == stack_size(seq![first].drop_last()) + cmd_size(first));
        lemma_fresh_cmd_size(first);
    }
}

pub open spec fn in_range(x: int) -> bool {
    0 <= x <= usize::MAX
}


pub open spec fn spec_deeper(indent: int, levels: int, step: int) -> int {
    if levels == indent {
        levels + step
    } else {
        levels
    }
}

/// `deeper` does not overflow.
pub open spec fn deeper_ok(indent: int, levels: int, step: int) -> bool {
    levels != indent || in_range(levels + step)
}

pub open spec fn with_ok(st: PState, b: bool) -> PState {
    PState { ok: st.ok && b, ..st }
}

pub open spec fn spec_newline(st: PState, n: u8, indent: int, levels: int) -> PState {
    if st.out.len() == 0 {
        st
    } else {
        PState {
            pending: if st.pending >= n { st.pending } else { n },
            pending_indent: indent,
            pending_levels: levels,
            ..st
        }
    }
}

pub open spec fn spec_indent_to(opts: PrintOptions, st: PState, indent: int, levels: int) -> PState {
    if opts.tabs && opts.indent > 0 {
        PState {
            out: st.out + repeated(9u8, levels / (opts.indent as int)) + repeated(
                32u8,
                if levels <= indent {
                    indent - levels
                } else {
                    0
                },
            ),
            col: indent,
            line_indent: indent,
            line_levels: levels,
            ..st
        }
    } else {
        PState {
            out: st.out + repeated(32u8, indent),
            col: indent,
            line_indent: indent,
            line_levels: levels,
            ..st
        }
    }
}

/// Printing an atom: a pending suffix first (which ends the line), then the pending line
/// breaks and indentation or the separating space, then the text.
pub open spec fn spec_atom(
    opts: PrintOptions,
    st: PState,
    text: Seq<u8>,
    width: int,
    space: bool,
    indent: int,
    levels: int,
) -> PState {
    let st1 = if st.suffix.len() > 0 {
        let s = PState { out: st.out + st.suffix, suffix: Seq::empty(), ..st };
        if s.pending == 0 {
            PState { pending: 1, pending_indent: indent, pending_levels: levels, ..s }
        } else {
            s
        }
    } else {
        st
    };
    let st2 = if st1.pending > 0 {
        spec_indent_to(
            opts,
            PState { out: st1.out + repeated(10u8, st1.pending as int), pending: 0, ..st1 },
            st1.pending_indent,
            st1.pending_levels,
        )
    } else if st1.at_start {
        spec_indent_to(opts, st1, indent, levels)
    } else if space {
        PState { out: st1.out.push(32u8), col: st1.col + 1, ok: st1.ok && in_range(st1.col + 1), ..st1 }
    } else {
        st1
    };
    let col = if text.contains(10u8) { width } else { st2.col + width };
    PState { at_start: false, out: st2.out + text, col, ok: st2.ok && in_range(col), ..st2 }
}

/// Whether printing starts with a forced line break (an own-line comment).
pub open spec fn spec_starts_with_break(d: SDoc) -> bool
    decreases d,
{
    match d {
        SDoc::Hard | SDoc::Blank(_) => true,
        SDoc::Concat(v) | SDoc::Fill(v) => spec_first_starts_with_break(v, 0),
        SDoc::Indent(b) | SDoc::Align(b) => spec_starts_with_break(*b),
        SDoc::Group { doc, .. } => spec_starts_with_break(*doc),
        _ => false,
    }
}

/// Whether a document is skipped when looking for where a sequence starts.
pub open spec fn is_empty_doc(d: SDoc) -> bool {
    d is Nil || (d matches SDoc::Concat(c) && c.len() == 0)
}

/// [`spec_starts_with_break`] of the first document of `v` from `i` on that is not empty.
pub open spec fn spec_first_starts_with_break(v: Seq<SDoc>, i: int) -> bool
    decreases v, v.len() - i,
{
    if 0 <= i < v.len() {
        if is_empty_doc(v[i]) {
            spec_first_starts_with_break(v, i + 1)
        } else {
            spec_starts_with_break(v[i])
        }
    } else {
        false
    }
}

/// Whether the first atom printed is separated by a space, when something decides it.
pub open spec fn spec_first_atom_space(d: SDoc) -> Option<bool>
    decreases d,
{
    match d {
        SDoc::Atom { space, .. } => Some(space),
        SDoc::Concat(v) | SDoc::Fill(v) => spec_first_atom_space_from(v, 0),
        SDoc::Indent(b) | SDoc::Align(b) => spec_first_atom_space(*b),
        SDoc::Hug { value, .. } => spec_first_atom_space(*value),
        SDoc::Group { doc, .. } => spec_first_atom_space(*doc),
        SDoc::Choice { flat, .. } => spec_first_atom_space(*flat),
        SDoc::Line | SDoc::Hard | SDoc::Blank(_) => Some(false),
        _ => None,
    }
}

/// [`spec_first_atom_space`] of the first document of `v` from `i` on that decides it.
pub open spec fn spec_first_atom_space_from(v: Seq<SDoc>, i: int) -> Option<bool>
    decreases v, v.len() - i,
{
    if 0 <= i < v.len() {
        match spec_first_atom_space(v[i]) {
            Some(b) => Some(b),
            None => spec_first_atom_space_from(v, i + 1),
        }
    } else {
        None
    }
}


/// The sizes of the documents of some commands, added up (what measuring walks through).
pub open spec fn work_size(s: Seq<SCmd>) -> nat
    decreases s.len(),
{
    if s.len() == 0 {
        0
    } else {
        work_size(s.drop_last()) + doc_size(s.last().doc)
    }
}

pub proof fn lemma_work_size_append(a: Seq<SCmd>, b: Seq<SCmd>)
    ensures
        work_size(a + b) == work_size(a) + work_size(b),
    decreases b.len(),
{
    if b.len() == 0 {
        assert(a + b =~= a);
    } else {
        lemma_work_size_append(a, b.drop_last());
        assert((a + b).drop_last() =~= a + b.drop_last());
    }
}

pub proof fn lemma_children_work_size(v: Seq<SDoc>, c: SCmd)
    ensures
        work_size(children(v, c)) == docs_size(v),
    decreases v.len(),
{
    if v.len() > 0 {
        let first = SCmd { doc: v.last(), fill: 0, ..c };
        lemma_children_work_size(v.drop_last(), c);
        assert(children(v, c) =~= seq![first] + children(v.drop_last(), c));
        lemma_work_size_append(seq![first], children(v.drop_last(), c));
        assert(seq![first].drop_last() =~= Seq::<SCmd>::empty());
        assert(work_size(seq![first]) == work_size(seq![first].drop_last()) + doc_size(first.doc));
    }
}

/// One step of measuring a line: either the answer (and whether the measuring stayed within
/// machine integers), or the state to go on from.
pub ghost enum FitsStep {
    Done(bool, bool),
    Next(int, bool, Seq<SCmd>, int),
}

/// Measure the next command: the top of `work`, or when `work` is empty the top of
/// `rest[..rest_idx]`.
pub open spec fn spec_fits_step(
    opts: PrintOptions,
    modes: Seq<bool>,
    col: int,
    at_start: bool,
    work: Seq<SCmd>,
    rest: Seq<SCmd>,
    rest_idx: int,
) -> FitsStep {
    if col > opts.width {
        FitsStep::Done(false, true)
    } else if work.len() == 0 && rest_idx <= 0 {
        FitsStep::Done(true, true)
    } else {
        let from_rest = work.len() == 0;
        let cmd = if from_rest { rest[rest_idx - 1] } else { work[work.len() - 1] };
        let work1 = if from_rest { work } else { work.drop_last() };
        let idx1 = if from_rest { rest_idx - 1 } else { rest_idx };
        match cmd.doc {
            SDoc::Nil | SDoc::Suffix(_) | SDoc::BreakParent => FitsStep::Next(
                col,
                at_start,
                work1,
                idx1,
            ),
            SDoc::Space(n) => if !at_start {
                if !in_range(col + n) {
                    FitsStep::Done(false, false)
                } else {
                    FitsStep::Next(col + n, at_start, work1, idx1)
                }
            } else {
                FitsStep::Next(col, at_start, work1, idx1)
            },
            SDoc::Atom { text, width, space } => if text.contains(10u8) {
                FitsStep::Done(false, true)
            } else {
                let c1 = if at_start {
                    if col >= cmd.indent {
                        col
                    } else {
                        cmd.indent
                    }
                } else if space {
                    col + 1
                } else {
                    col
                };
                if !in_range(c1) || !in_range(c1 + width) {
                    FitsStep::Done(false, false)
                } else {
                    FitsStep::Next(c1 + width, false, work1, idx1)
                }
            },
            SDoc::Line => if cmd.flat {
                FitsStep::Next(col, at_start, work1, idx1)
            } else {
                FitsStep::Done(true, true)
            },
            SDoc::Hard | SDoc::Blank(_) => FitsStep::Done(true, true),
            SDoc::Concat(v) | SDoc::Fill(v) => FitsStep::Next(
                col,
                at_start,
                work1 + children(v, cmd),
                idx1,
            ),
            SDoc::Indent(d) | SDoc::Align(d) => FitsStep::Next(
                col,
                at_start,
                work1.push(SCmd { doc: *d, ..cmd }),
                idx1,
            ),
            // Groups after `next` are measured in the mode of their enclosing command, so
            // an undecided group later on the line ends the measurement at its first line
            // break.
            SDoc::Group { doc, broken, .. } => if cmd.flat && broken {
                FitsStep::Done(false, true)
            } else {
                FitsStep::Next(
                    col,
                    at_start,
                    work1.push(SCmd { doc: *doc, flat: cmd.flat && !broken, ..cmd }),
                    idx1,
                )
            },
            // Groups not yet printed (including the one being measured) read as flat.
            SDoc::IfBreak { id, broken, flat } => if !(0 <= id < modes.len()) {
                FitsStep::Done(false, false)
            } else {
                FitsStep::Next(
                    col,
                    at_start,
                    work1.push(
                        SCmd {
                            doc: if modes[id] {
                                *broken
                            } else {
                                *flat
                            },
                            ..cmd
                        },
                    ),
                    idx1,
                )
            },
            // Later on the line, a hugged value may still move to the next line.
            SDoc::Hug { value, .. } => if cmd.flat {
                FitsStep::Next(col, at_start, work1.push(SCmd { doc: *value, ..cmd }), idx1)
            } else {
                FitsStep::Done(true, true)
            },
            // Later on the line, a choice may still take its most broken alternative.
            SDoc::Choice { flat, broken } => FitsStep::Next(
                col,
                at_start,
                work1.push(
                    SCmd {
                        doc: if cmd.flat {
                            *flat
                        } else {
                            *broken
                        },
                        ..cmd
                    },
                ),
                idx1,
            ),
        }
    }
}

/// A measuring step goes on from a smaller state.
pub proof fn lemma_fits_step_decreases(
    opts: PrintOptions,
    modes: Seq<bool>,
    col: int,
    at_start: bool,
    work: Seq<SCmd>,
    rest: Seq<SCmd>,
    rest_idx: int,
)
    ensures
        spec_fits_step(opts, modes, col, at_start, work, rest, rest_idx) matches FitsStep::Next(
            c,
            a,
            w,
            i,
        ) ==> i < rest_idx || (i == rest_idx && work_size(w) < work_size(work)),
{
    if col <= opts.width && !(work.len() == 0 && rest_idx <= 0) && work.len() > 0 {
        let cmd = work[work.len() - 1];
        let work1 = work.drop_last();
        assert(work_size(work) == work_size(work1) + doc_size(cmd.doc));
        match cmd.doc {
            SDoc::Concat(v) | SDoc::Fill(v) => {
                lemma_children_work_size(v, cmd);
                lemma_work_size_append(work1, children(v, cmd));
            },
            _ => {
                if let FitsStep::Next(c, a, w, i) = spec_fits_step(
                    opts,
                    modes,
                    col,
                    at_start,
                    work,
                    rest,
                    rest_idx,
                ) {
                    if w.len() > work1.len() {
                        assert(w.drop_last() =~= work1);
                    } else {
                        assert(w =~= work1);
                    }
                }
            },
        }
    }
}

/// Would the commands `work`, then `rest[..rest_idx]` (top first), fit flat on the line from
/// column `col`? Stops at the first line break. The second result is `false` when the measuring
/// overflows a machine integer or names a group that does not exist.
pub open spec fn spec_fits_from(
    opts: PrintOptions,
    modes: Seq<bool>,
    col: int,
    at_start: bool,
    work: Seq<SCmd>,
    rest: Seq<SCmd>,
    rest_idx: int,
) -> (bool, bool)
    decreases rest_idx, work_size(work),
{
    match spec_fits_step(opts, modes, col, at_start, work, rest, rest_idx) {
        FitsStep::Done(r, ok) => (r, ok),
        FitsStep::Next(c, a, w, i) => {
            proof {
                lemma_fits_step_decreases(opts, modes, col, at_start, work, rest, rest_idx);
            }
            spec_fits_from(opts, modes, c, a, w, rest, i)
        },
    }
}

/// Would `next` fit flat on the current line, followed by the rest of the line (the commands
/// `rest[..rest_idx]`, top first)?
pub open spec fn spec_fits(
    opts: PrintOptions,
    st: PState,
    next: SCmd,
    rest: Seq<SCmd>,
    rest_idx: int,
) -> (bool, bool) {
    if st.pending > 0 {
        spec_fits_from(opts, st.modes, st.pending_indent, true, seq![next], rest, rest_idx)
    } else {
        spec_fits_from(opts, st.modes, st.col, st.at_start, seq![next], rest, rest_idx)
    }
}

/// One step of the printer: print `cmd`, popped from the top of the stack (`stack` is what
/// remains below it). Returns the new state and the new stack.
pub open spec fn spec_step(opts: PrintOptions, st: PState, cmd: SCmd, stack: Seq<SCmd>) -> (
    PState,
    Seq<SCmd>,
) {
    let step = opts.indent as int;
    match cmd.doc {
        SDoc::Nil | SDoc::BreakParent => (st, stack),
        SDoc::Space(n) => if st.pending == 0 && !st.at_start && st.suffix.len() == 0 {
            (
                PState {
                    out: st.out + repeated(32u8, n),
                    col: st.col + n,
                    ok: st.ok && in_range(st.col + n),
                    ..st
                },
                stack,
            )
        } else {
            (st, stack)
        },
        SDoc::Atom { text, width, space } => (
            spec_atom(opts, st, text, width, space, cmd.indent, cmd.levels),
            stack,
        ),
        SDoc::Line => if cmd.flat {
            (st, stack)
        } else {
            (spec_newline(st, 1, cmd.indent, cmd.levels), stack)
        },
        SDoc::Hard => (spec_newline(st, 1, cmd.indent, cmd.levels), stack),
        SDoc::Blank(n) => (
            spec_newline(st, if n < 255 { (n + 1) as u8 } else { 255 }, cmd.indent, cmd.levels),
            stack,
        ),
        SDoc::Suffix(t) => (PState { suffix: st.suffix + t, ..st }, stack),
        SDoc::Concat(v) => (st, stack + children(v, cmd)),
        SDoc::Fill(v) => if !(0 <= cmd.fill < v.len()) {
            (st, stack)
        } else {
            let item = v[cmd.fill];
            let stack1 = stack.push(SCmd { fill: cmd.fill + 1, ..cmd });
            // The last item must also leave room for what follows the fill.
            let (flat, fits_ok) = if cmd.flat {
                (true, true)
            } else if cmd.fill % 2 == 1 {
                // A separator stays flat when the next item fits after it.
                if cmd.fill + 1 < v.len() {
                    let rest = if cmd.fill + 2 == v.len() {
                        stack1.len() - 1
                    } else {
                        0
                    };
                    spec_fits(
                        opts,
                        st,
                        SCmd { flat: true, doc: v[cmd.fill + 1], fill: 0, ..cmd },
                        stack1,
                        rest,
                    )
                } else {
                    (true, true)
                }
            } else {
                let rest = if cmd.fill + 1 == v.len() {
                    stack1.len() - 1
                } else {
                    0
                };
                spec_fits(opts, st, SCmd { flat: true, doc: item, fill: 0, ..cmd }, stack1, rest)
            };
            (with_ok(st, fits_ok), stack1.push(SCmd { flat, doc: item, fill: 0, ..cmd }))
        },
        SDoc::Indent(d) => (
            with_ok(
                st,
                in_range(cmd.indent + step) && deeper_ok(cmd.indent, cmd.levels, step),
            ),
            stack.push(
                SCmd {
                    indent: cmd.indent + step,
                    levels: spec_deeper(cmd.indent, cmd.levels, step),
                    doc: *d,
                    ..cmd
                },
            ),
        ),
        SDoc::Align(d) => if opts.indent_continuations {
            (
                with_ok(
                    st,
                    in_range(cmd.indent + step) && deeper_ok(cmd.indent, cmd.levels, step),
                ),
                stack.push(
                    SCmd {
                        indent: cmd.indent + step,
                        levels: spec_deeper(cmd.indent, cmd.levels, step),
                        doc: *d,
                        ..cmd
                    },
                ),
            )
        } else {
            let here = st.pending > 0 || st.at_start || st.suffix.len() > 0;
            let space: int = if spec_first_atom_space(*d) == Some(true) {
                1
            } else {
                0
            };
            let target = if here {
                cmd.indent
            } else {
                st.col + space
            };
            let line_indent = if here {
                cmd.indent
            } else {
                st.line_indent
            };
            let line_levels = if here {
                cmd.levels
            } else {
                st.line_levels
            };
            let target_ok = in_range(target) && in_range(target * 5) && in_range(
                opts.width * 2,
            );
            // Bounded alignment: past 40% of the width, continuation lines use a fixed
            // double indent instead, so deep alignment never leaves no room on the right.
            if target * 5 > opts.width * 2 {
                let once = spec_deeper(line_indent, line_levels, step);
                let indent = line_indent + 2 * step;
                let levels = spec_deeper(line_indent + step, once, step);
                let ok = target_ok && deeper_ok(line_indent, line_levels, step) && in_range(
                    2 * step,
                ) && in_range(indent) && in_range(line_indent + step) && deeper_ok(
                    line_indent + step,
                    once,
                    step,
                );
                (with_ok(st, ok), stack.push(SCmd { indent, levels, doc: *d, ..cmd }))
            } else {
                (
                    with_ok(st, target_ok),
                    stack.push(SCmd { indent: target, levels: line_levels, doc: *d, ..cmd }),
                )
            }
        },
        SDoc::Group { id, doc, broken } => {
            let (flat, fits_ok) = if cmd.flat {
                (true, true)
            } else if broken {
                (false, true)
            } else {
                spec_fits(opts, st, SCmd { flat: true, doc: *doc, ..cmd }, stack, stack.len() as int)
            };
            let good = fits_ok && 0 <= id < st.modes.len();
            (
                PState { modes: st.modes.update(id, !flat), ok: st.ok && good, ..st },
                stack.push(SCmd { flat, doc: *doc, ..cmd }),
            )
        },
        SDoc::IfBreak { id, broken, flat } => if !(0 <= id < st.modes.len()) {
            (with_ok(st, false), stack)
        } else {
            (
                st,
                stack.push(
                    SCmd {
                        doc: if st.modes[id] {
                            *broken
                        } else {
                            *flat
                        },
                        ..cmd
                    },
                ),
            )
        },
        SDoc::Hug { value, forced } => {
            let continuation = cmd.indent + step;
            let levels = spec_deeper(cmd.indent, cmd.levels, step);
            let cont_ok = in_range(continuation) && deeper_ok(cmd.indent, cmd.levels, step);
            let flatc = SCmd { flat: true, doc: *value, ..cmd };
            let brokenc = SCmd { flat: false, ..flatc };
            if cmd.flat {
                (with_ok(st, cont_ok), stack.push(flatc))
            } else {
                let (f1, ok1) = if !forced {
                    spec_fits(opts, st, flatc, stack, stack.len() as int)
                } else {
                    (false, true)
                };
                if f1 {
                    (with_ok(st, cont_ok && ok1), stack.push(flatc))
                } else {
                    let (f2, ok2) = if !forced {
                        spec_fits_from(
                            opts,
                            st.modes,
                            continuation,
                            true,
                            seq![flatc],
                            stack,
                            stack.len() as int,
                        )
                    } else {
                        (false, true)
                    };
                    if f2 {
                        (
                            spec_newline(
                                with_ok(st, cont_ok && ok1 && ok2),
                                1,
                                continuation,
                                levels,
                            ),
                            stack.push(SCmd { indent: continuation, levels, ..flatc }),
                        )
                    } else {
                        let (f3, ok3) = if !spec_starts_with_break(*value) {
                            spec_fits(opts, st, brokenc, stack, stack.len() as int)
                        } else {
                            (false, true)
                        };
                        if f3 {
                            (with_ok(st, cont_ok && ok1 && ok2 && ok3), stack.push(brokenc))
                        } else {
                            (
                                spec_newline(
                                    with_ok(st, cont_ok && ok1 && ok2 && ok3),
                                    1,
                                    continuation,
                                    levels,
                                ),
                                stack.push(SCmd { indent: continuation, levels, ..brokenc }),
                            )
                        }
                    }
                }
            }
        },
        SDoc::Choice { flat, broken } => {
            let (fits, fits_ok) = if cmd.flat {
                (true, true)
            } else {
                spec_fits(opts, st, SCmd { doc: *flat, ..cmd }, stack, stack.len() as int)
            };
            (
                with_ok(st, fits_ok),
                stack.push(
                    SCmd {
                        doc: if fits {
                            *flat
                        } else {
                            *broken
                        },
                        ..cmd
                    },
                ),
            )
        },
    }
}

/// A step leaves a smaller stack than it started from.
pub proof fn lemma_step_decreases(opts: PrintOptions, st: PState, cmd: SCmd, stack: Seq<SCmd>)
    ensures
        stack_size(spec_step(opts, st, cmd, stack).1) < stack_size(stack) + cmd_size(cmd),
{
    let next = spec_step(opts, st, cmd, stack).1;
    match cmd.doc {
        SDoc::Concat(v) => {
            lemma_children_size(v, cmd);
            lemma_stack_size_append(stack, children(v, cmd));
            assert(next == stack + children(v, cmd));
            assert(cmd_size(cmd) == 1 + docs_size(v));
        },
        SDoc::Fill(v) => {
            if 0 <= cmd.fill < v.len() {
                lemma_docs_size_skip(v, cmd.fill);
                let stack1 = stack.push(SCmd { fill: cmd.fill + 1, ..cmd });
                assert(stack1.drop_last() =~= stack);
                assert(next.drop_last() =~= stack1);
                lemma_fresh_cmd_size(next.last());
                assert(stack_size(next) == stack_size(stack1) + cmd_size(next.last()));
                assert(stack_size(stack1) == stack_size(stack) + cmd_size(stack1.last()));
            } else {
                assert(next =~= stack);
            }
        },
        _ => {
            assert(next.len() <= stack.len() + 1);
            if next.len() > stack.len() {
                assert(next.drop_last() =~= stack);
                let top = next.last();
                assert(doc_size(top.doc) < doc_size(cmd.doc));
                if let SDoc::Fill(w) = top.doc {
                    if 0 <= top.fill <= w.len() {
                        lemma_docs_size_skip_bound(w, top.fill);
                    }
                }
                assert(cmd_size(top) < cmd_size(cmd));
            } else {
                assert(next =~= stack);
            }
        },
    }
}

/// The documents of `s` from `f` on are no larger than all of `s`.
pub proof fn lemma_docs_size_skip_bound(s: Seq<SDoc>, f: int)
    requires
        0 <= f <= s.len(),
    ensures
        docs_size(s.skip(f)) <= docs_size(s),
{
    lemma_docs_size_append(s.take(f), s.skip(f));
    assert(s.take(f) + s.skip(f) =~= s);
}

/// Run the printer until its stack is empty.
pub open spec fn spec_run(opts: PrintOptions, st: PState, stack: Seq<SCmd>) -> PState
    decreases stack_size(stack),
{
    if stack.len() == 0 {
        st
    } else {
        let (st2, stack2) = spec_step(opts, st, stack.last(), stack.drop_last());
        proof {
            lemma_step_decreases(opts, st, stack.last(), stack.drop_last());
        }
        spec_run(opts, st2, stack2)
    }
}

/// The state the printer starts from, with `groups` groups, none of them broken yet.
pub open spec fn initial_state(groups: int) -> PState {
    PState {
        out: Seq::empty(),
        col: 0,
        pending: 0,
        pending_indent: 0,
        pending_levels: 0,
        at_start: true,
        line_indent: 0,
        line_levels: 0,
        suffix: Seq::empty(),
        modes: Seq::new(groups as nat, |_i: int| false),
        ok: true,
    }
}


/// Forced breaks, propagated: every group that contains a forced break is marked broken, and
/// every hugged value records whether it contains one. The flag tells whether the document
/// itself forces the lines around it to break.
pub open spec fn spec_propagate(d: SDoc) -> (SDoc, bool)
    decreases d,
{
    match d {
        SDoc::Hard | SDoc::Blank(_) | SDoc::BreakParent => (d, true),
        SDoc::Nil | SDoc::Line | SDoc::Suffix(_) | SDoc::Space(_) => (d, false),
        SDoc::Atom { text, .. } => (d, text.contains(10u8)),
        SDoc::Concat(v) => (
            SDoc::Concat(
                Seq::new(
                    v.len(),
                    |i: int| if 0 <= i < v.len() { spec_propagate(v[i]).0 } else { SDoc::Nil },
                ),
            ),
            exists|i: int| 0 <= i < v.len() && spec_propagate(v[i]).1,
        ),
        SDoc::Fill(v) => (
            SDoc::Fill(
                Seq::new(
                    v.len(),
                    |i: int| if 0 <= i < v.len() { spec_propagate(v[i]).0 } else { SDoc::Nil },
                ),
            ),
            exists|i: int| 0 <= i < v.len() && spec_propagate(v[i]).1,
        ),
        SDoc::Indent(b) => (SDoc::Indent(Box::new(spec_propagate(*b).0)), spec_propagate(*b).1),
        SDoc::Align(b) => (SDoc::Align(Box::new(spec_propagate(*b).0)), spec_propagate(*b).1),
        // A forced break inside does not force the line break in front of the value.
        SDoc::Hug { value, .. } => (
            SDoc::Hug { value: Box::new(spec_propagate(*value).0), forced: spec_propagate(*value).1 },
            false,
        ),
        SDoc::Group { id, doc, broken } => (
            SDoc::Group {
                id,
                doc: Box::new(spec_propagate(*doc).0),
                broken: broken || spec_propagate(*doc).1,
            },
            broken || spec_propagate(*doc).1,
        ),
        // Only the selected branch is printed, and selection depends on the group itself,
        // so forced breaks inside a branch do not propagate.
        SDoc::IfBreak { id, broken, flat } => (
            SDoc::IfBreak {
                id,
                broken: Box::new(spec_propagate(*broken).0),
                flat: Box::new(spec_propagate(*flat).0),
            },
            false,
        ),
        SDoc::Choice { flat, broken } => (
            SDoc::Choice {
                flat: Box::new(spec_propagate(*flat).0),
                broken: Box::new(spec_propagate(*broken).0),
            },
            spec_propagate(*flat).1 && spec_propagate(*broken).1,
        ),
    }
}

/// What printing `doc` with `groups` groups produces: the document with its forced breaks
/// propagated, printed from the top of a first line, with the last suffix and a final newline
/// added when anything was printed.
pub open spec fn spec_print(doc: SDoc, groups: int, opts: PrintOptions) -> Seq<u8> {
    let st = spec_run(
        opts,
        initial_state(groups),
        seq![SCmd { indent: 0, levels: 0, flat: false, doc: spec_propagate(doc).0, fill: 0 }],
    );
    let out = st.out + st.suffix;
    if out.len() > 0 {
        out.push(10u8)
    } else {
        out
    }
}

/// Printing `doc` overflows no machine integer and names no group that does not exist.
pub open spec fn print_ok(doc: SDoc, groups: int, opts: PrintOptions) -> bool {
    spec_run(
        opts,
        initial_state(groups),
        seq![SCmd { indent: 0, levels: 0, flat: false, doc: spec_propagate(doc).0, fill: 0 }],
    ).ok
}

// Executable code --------------------------------------------------------------------------------

impl Doc {
    pub fn indent(d: Doc) -> (r: Doc)
        ensures
            r@ == SDoc::Indent(Box::new(d@)),
    {
        Doc::Indent(Box::new(d))
    }

    /// `levels` nested [`Doc::indent`]s.
    pub fn indent_n(levels: usize, d: Doc) -> (r: Doc)
        ensures
            r@ == indented(levels as nat, d@),
    {
        let mut out = d;
        let mut i: usize = 0;
        while i < levels
            invariant
                0 <= i <= levels,
                out@ == indented(i as nat, d@),
            decreases levels - i,
        {
            out = Doc::indent(out);
            i = i + 1;
        }
        out
    }

    pub fn align(d: Doc) -> (r: Doc)
        ensures
            r@ == SDoc::Align(Box::new(d@)),
    {
        Doc::Align(Box::new(d))
    }

    /// Compute `broken` for every group: a group containing a forced break is always broken.
    fn propagate(self) -> (r: (Doc, bool))
        ensures
            r.0@ == spec_propagate(self@).0,
            r.1 == spec_propagate(self@).1,
        decreases self, 1nat,
    {
        match self {
            Doc::Hard => (Doc::Hard, true),
            Doc::Blank(n) => (Doc::Blank(n), true),
            Doc::BreakParent => (Doc::BreakParent, true),
            Doc::Nil => (Doc::Nil, false),
            Doc::Line => (Doc::Line, false),
            Doc::Suffix(s) => (Doc::Suffix(s), false),
            Doc::Space(n) => (Doc::Space(n), false),
            Doc::Atom { text, width, space } => {
                let forced = contains_byte(text.as_slice(), 10u8);
                (Doc::Atom { text, width, space }, forced)
            },
            Doc::Concat(v) => {
                let ghost sv = Doc::Concat(v)@;
                let ghost vv = v@;
                let (w, forced) = Doc::propagate_all(v);
                let r = Doc::Concat(w);
                proof {
                    assert(r@->Concat_0 =~= spec_propagate(sv).0->Concat_0);
                    assert(forced == spec_propagate(sv).1) by {
                        if forced {
                            let i = choose|i: int| 0 <= i < vv.len() && spec_propagate(vv[i]@).1;
                            assert(sv->Concat_0[i] == vv[i]@);
                        }
                        if spec_propagate(sv).1 {
                            let i = choose|i: int| 0 <= i < sv->Concat_0.len() && spec_propagate(sv->Concat_0[i]).1;
                            assert(sv->Concat_0[i] == vv[i]@);
                        }
                    }
                }
                (r, forced)
            },
            Doc::Fill(v) => {
                let ghost sv = Doc::Fill(v)@;
                let ghost vv = v@;
                let (w, forced) = Doc::propagate_all(v);
                let r = Doc::Fill(w);
                proof {
                    assert(r@->Fill_0 =~= spec_propagate(sv).0->Fill_0);
                    assert(forced == spec_propagate(sv).1) by {
                        if forced {
                            let i = choose|i: int| 0 <= i < vv.len() && spec_propagate(vv[i]@).1;
                            assert(sv->Fill_0[i] == vv[i]@);
                        }
                        if spec_propagate(sv).1 {
                            let i = choose|i: int| 0 <= i < sv->Fill_0.len() && spec_propagate(sv->Fill_0[i]).1;
                            assert(sv->Fill_0[i] == vv[i]@);
                        }
                    }
                }
                (r, forced)
            },
            Doc::Indent(d) => {
                let (d2, forced) = (*d).propagate();
                (Doc::Indent(Box::new(d2)), forced)
            },
            Doc::Align(d) => {
                let (d2, forced) = (*d).propagate();
                (Doc::Align(Box::new(d2)), forced)
            },
            Doc::Hug { value, forced: _ } => {
                let (v2, forced) = (*value).propagate();
                (Doc::Hug { value: Box::new(v2), forced }, false)
            },
            Doc::Group { id, doc, broken } => {
                let (d2, forced) = (*doc).propagate();
                let b = broken || forced;
                (Doc::Group { id, doc: Box::new(d2), broken: b }, b)
            },
            Doc::IfBreak { id, broken, flat } => {
                let (b2, _) = (*broken).propagate();
                let (f2, _) = (*flat).propagate();
                (Doc::IfBreak { id, broken: Box::new(b2), flat: Box::new(f2) }, false)
            },
            Doc::Choice { flat, broken } => {
                let (f2, ff) = (*flat).propagate();
                let (b2, bf) = (*broken).propagate();
                (Doc::Choice { flat: Box::new(f2), broken: Box::new(b2) }, ff && bf)
            },
        }
    }

    /// [`Doc::propagate`] on every document of `v`, in order.
    fn propagate_all(items: Vec<Doc>) -> (r: (Vec<Doc>, bool))
        ensures
            r.0@.len() == items@.len(),
            forall|i: int|
                0 <= i < items@.len() ==> (#[trigger] r.0@[i])@ == spec_propagate(items@[i]@).0,
            r.1 == exists|i: int| 0 <= i < items@.len() && spec_propagate(items@[i]@).1,
        decreases items, 0nat,
    {
        broadcast use vstd::std_specs::vec::group_vec_axioms;
        let ghost orig = items@;
        let n = items.len();
        let mut v = items;
        let mut rev: Vec<Doc> = Vec::new();
        let mut forced = false;
        while v.len() > 0
            invariant
                orig == items@,
                v@ == orig.take(v@.len() as int),
                v@.len() <= n,
                n == orig.len(),
                rev@.len() == n - v@.len(),
                forall|j: int|
                    0 <= j < rev@.len() ==> (#[trigger] rev@[j])@ == spec_propagate(
                        orig[n - 1 - j]@,
                    ).0,
                forced == exists|i: int| v@.len() <= i < n && spec_propagate(orig[i]@).1,
            decreases v@.len(),
        {
            let k = v.len() - 1;
            let item = v.pop().unwrap();
            proof {
                assert(item == orig[k as int]);
                assert(decreases_to!(items => items[k as int]));
            }
            let (p, f) = item.propagate();
            rev.push(p);
            forced = forced || f;
            assert(v@ =~= orig.take(v@.len() as int));
        }
        let mut out: Vec<Doc> = Vec::new();
        while rev.len() > 0
            invariant
                rev@.len() + out@.len() == n,
                n == orig.len(),
                forall|j: int|
                    0 <= j < rev@.len() ==> (#[trigger] rev@[j])@ == spec_propagate(
                        orig[n - 1 - j]@,
                    ).0,
                forall|j: int|
                    0 <= j < out@.len() ==> (#[trigger] out@[j])@ == spec_propagate(orig[j]@).0,
            decreases rev@.len(),
        {
            let d = rev.pop().unwrap();
            out.push(d);
        }
        (out, forced)
    }
}

impl Doc {
    /// Whether printing starts with a forced line break (an own-line comment).
    fn starts_with_break(&self) -> (r: bool)
        ensures
            r == spec_starts_with_break(self@),
        decreases self, 1nat,
    {
        match self {
            Doc::Hard | Doc::Blank(_) => true,
            Doc::Concat(v) => {
                proof {
                    assert(self@->Concat_0 =~= docs_view(v@));
                }
                Doc::first_starts_with_break(v)
            },
            Doc::Fill(v) => {
                proof {
                    assert(self@->Fill_0 =~= docs_view(v@));
                }
                Doc::first_starts_with_break(v)
            },
            Doc::Indent(d) | Doc::Align(d) => d.starts_with_break(),
            Doc::Group { doc, .. } => doc.starts_with_break(),
            _ => false,
        }
    }

    /// [`Doc::starts_with_break`] of the first document of `v` that is not empty.
    fn first_starts_with_break(v: &Vec<Doc>) -> (r: bool)
        ensures
            r == spec_first_starts_with_break(docs_view(v@), 0),
        decreases v, 0nat,
    {
        broadcast use vstd::std_specs::vec::group_vec_axioms;

        let ghost sv = docs_view(v@);
        let mut i: usize = 0;
        while i < v.len()
            invariant
                0 <= i <= v.len(),
                sv == docs_view(v@),
                spec_first_starts_with_break(sv, 0) == spec_first_starts_with_break(sv, i as int),
            decreases v.len() - i,
        {
            let empty = match &v[i] {
                Doc::Nil => true,
                Doc::Concat(c) => c.len() == 0,
                _ => false,
            };
            proof {
                assert(sv[i as int] == v@[i as int]@);
                assert(decreases_to!(v => v[i as int]));
            }
            if !empty {
                return v[i].starts_with_break();
            }
            i = i + 1;
        }
        false
    }

    fn first_atom_space(&self) -> (r: Option<bool>)
        ensures
            r == spec_first_atom_space(self@),
        decreases self, 1nat,
    {
        match self {
            Doc::Atom { space, .. } => Some(*space),
            Doc::Concat(v) => {
                proof {
                    assert(self@->Concat_0 =~= docs_view(v@));
                }
                Doc::first_atom_space_of(v)
            },
            Doc::Fill(v) => {
                proof {
                    assert(self@->Fill_0 =~= docs_view(v@));
                }
                Doc::first_atom_space_of(v)
            },
            Doc::Indent(d) | Doc::Align(d) => d.first_atom_space(),
            Doc::Hug { value, .. } => value.first_atom_space(),
            Doc::Group { doc, .. } => doc.first_atom_space(),
            Doc::Choice { flat, .. } => flat.first_atom_space(),
            Doc::Line | Doc::Hard | Doc::Blank(_) => Some(false),
            _ => None,
        }
    }

    /// [`Doc::first_atom_space`] of the first document of `v` that decides it.
    fn first_atom_space_of(v: &Vec<Doc>) -> (r: Option<bool>)
        ensures
            r == spec_first_atom_space_from(docs_view(v@), 0),
        decreases v, 0nat,
    {
        broadcast use vstd::std_specs::vec::group_vec_axioms;

        let ghost sv = docs_view(v@);
        let mut i: usize = 0;
        while i < v.len()
            invariant
                0 <= i <= v.len(),
                sv == docs_view(v@),
                spec_first_atom_space_from(sv, 0) == spec_first_atom_space_from(sv, i as int),
            decreases v.len() - i,
        {
            proof {
                assert(sv[i as int] == v@[i as int]@);
                assert(decreases_to!(v => v[i as int]));
            }
            if let Some(b) = v[i].first_atom_space() {
                return Some(b);
            }
            i = i + 1;
        }
        None
    }
}

/// `levels` nested indentations of `d`.
pub open spec fn indented(levels: nat, d: SDoc) -> SDoc
    decreases levels,
{
    if levels == 0 {
        d
    } else {
        SDoc::Indent(Box::new(indented((levels - 1) as nat, d)))
    }
}


/// The levels part of an indentation one level deeper: alignment spaces stay spaces.
fn deeper(indent: usize, levels: usize, step: usize) -> (r: usize)
    requires
        deeper_ok(indent as int, levels as int, step as int),
    ensures
        r == spec_deeper(indent as int, levels as int, step as int),
{
    if levels == indent {
        levels + step
    } else {
        levels
    }
}

#[derive(Clone, Copy)]
struct Cmd<'a> {
    indent: usize,
    /// The part of `indent` that consists of whole indentation levels (printed as tabs).
    levels: usize,
    flat: bool,
    doc: &'a Doc,
    /// Position inside a [`Doc::Fill`] still to be printed.
    fill: usize,
}

impl<'a> Cmd<'a> {
    spec fn view(self) -> SCmd {
        SCmd {
            indent: self.indent as int,
            levels: self.levels as int,
            flat: self.flat,
            doc: self.doc@,
            fill: self.fill as int,
        }
    }
}

spec fn cmds_view<'a>(s: Seq<Cmd<'a>>) -> Seq<SCmd> {
    Seq::new(s.len(), |i: int| s[i].view())
}

proof fn lemma_cmds_view_push<'a>(s: Seq<Cmd<'a>>, c: Cmd<'a>)
    ensures
        cmds_view(s.push(c)) == cmds_view(s).push(c.view()),
{
    assert(cmds_view(s.push(c)) =~= cmds_view(s).push(c.view()));
}

proof fn lemma_cmds_view_drop_last<'a>(s: Seq<Cmd<'a>>)
    requires
        s.len() > 0,
    ensures
        cmds_view(s.drop_last()) == cmds_view(s).drop_last(),
        cmds_view(s).last() == s.last().view(),
{
    assert(cmds_view(s.drop_last()) =~= cmds_view(s).drop_last());
}

/// Push the commands printing the documents of `v` in order, with the settings of `cmd`.
fn push_children<'a>(stack: &mut Vec<Cmd<'a>>, v: &'a Vec<Doc>, cmd: Cmd<'a>)
    ensures
        cmds_view(final(stack)@) == cmds_view(old(stack)@) + children(docs_view(v@), cmd.view()),
{
    let ghost kids = children(docs_view(v@), cmd.view());
    let mut i = v.len();
    while i > 0
        invariant
            0 <= i <= v.len(),
            kids == children(docs_view(v@), cmd.view()),
            cmds_view(stack@) == cmds_view(old(stack)@) + kids.take(v.len() - i),
        decreases i,
    {
        i = i - 1;
        let c = Cmd { doc: &v[i], fill: 0, ..cmd };
        let ghost before = stack@;
        stack.push(c);
        proof {
            lemma_cmds_view_push(before, c);
            assert(kids[v.len() - 1 - i] == c.view());
            assert(kids.take(v.len() - i) =~= kids.take(v.len() - 1 - i).push(c.view()));
        }
    }
    assert(kids.take(v.len() as int) =~= kids);
}

struct Printer<'a> {
    opts: &'a PrintOptions,
    out: Vec<u8>,
    col: usize,
    /// Newlines requested but not yet written (0, 1 or 2) and the indentation to use.
    pending: u8,
    pending_indent: usize,
    pending_levels: usize,
    at_start: bool,
    /// Indentation of the current line, and its part made of whole levels.
    line_indent: usize,
    line_levels: usize,
    suffix: Vec<u8>,
    modes: Vec<bool>,
}

impl<'a> Printer<'a> {
    spec fn view(&self) -> PState {
        PState {
            out: self.out@,
            col: self.col as int,
            pending: self.pending,
            pending_indent: self.pending_indent as int,
            pending_levels: self.pending_levels as int,
            at_start: self.at_start,
            line_indent: self.line_indent as int,
            line_levels: self.line_levels as int,
            suffix: self.suffix@,
            modes: self.modes@,
            ok: true,
        }
    }

    fn newline(&mut self, n: u8, indent: usize, levels: usize)
        ensures
            final(self).view() == spec_newline(old(self).view(), n, indent as int, levels as int),
            final(self).opts == old(self).opts,
    {
        if self.out.len() == 0 {
            return;
        }
        if n > self.pending {
            self.pending = n;
        }
        self.pending_indent = indent;
        self.pending_levels = levels;
    }

    fn indent_to(&mut self, indent: usize, levels: usize)
        requires
            spec_indent_to(*old(self).opts, old(self).view(), indent as int, levels as int).ok,
        ensures
            final(self).view() == spec_indent_to(
                *old(self).opts,
                old(self).view(),
                indent as int,
                levels as int,
            ),
            final(self).opts == old(self).opts,
    {
        if self.opts.tabs && self.opts.indent > 0 {
            push_repeated(&mut self.out, 9u8, levels / self.opts.indent);
            // Alignment after a multi-line atom can leave fewer columns than whole levels; the
            // tabs then say all there is.
            let spaces = if levels <= indent {
                indent - levels
            } else {
                0
            };
            push_repeated(&mut self.out, 32u8, spaces);
        } else {
            push_repeated(&mut self.out, 32u8, indent);
        }
        self.col = indent;
        self.line_indent = indent;
        self.line_levels = levels;
    }

    fn atom(&mut self, text: &[u8], width: usize, space: bool, cmd: &Cmd<'_>)
        requires
            spec_atom(
                *old(self).opts,
                old(self).view(),
                text@,
                width as int,
                space,
                cmd.indent as int,
                cmd.levels as int,
            ).ok,
        ensures
            final(self).view() == spec_atom(
                *old(self).opts,
                old(self).view(),
                text@,
                width as int,
                space,
                cmd.indent as int,
                cmd.levels as int,
            ),
            final(self).opts == old(self).opts,
    {
        let ghost st = self.view();
        let ghost opts = *self.opts;
        let ghost st1 = if st.suffix.len() > 0 {
            let s = PState { out: st.out + st.suffix, suffix: Seq::empty(), ..st };
            if s.pending == 0 {
                PState { pending: 1, pending_indent: cmd.indent as int, pending_levels: cmd.levels as int, ..s }
            } else {
                s
            }
        } else {
            st
        };
        let ghost st2 = if st1.pending > 0 {
            spec_indent_to(
                opts,
                PState { out: st1.out + repeated(10u8, st1.pending as int), pending: 0, ..st1 },
                st1.pending_indent,
                st1.pending_levels,
            )
        } else if st1.at_start {
            spec_indent_to(opts, st1, cmd.indent as int, cmd.levels as int)
        } else if space {
            PState { out: st1.out.push(32u8), col: st1.col + 1, ok: st1.ok && in_range(st1.col + 1), ..st1 }
        } else {
            st1
        };
        if self.suffix.len() > 0 {
            self.out.append(&mut self.suffix);
            if self.pending == 0 {
                self.pending = 1;
                self.pending_indent = cmd.indent;
                self.pending_levels = cmd.levels;
            }
        }
        assert(self.view() == st1);
        if self.pending > 0 {
            let n = self.pending;
            push_repeated(&mut self.out, 10u8, n as usize);
            self.pending = 0;
            let (indent, levels) = (self.pending_indent, self.pending_levels);
            self.indent_to(indent, levels);
        } else if self.at_start {
            self.indent_to(cmd.indent, cmd.levels);
        } else if space {
            self.out.push(32u8);
            self.col = self.col + 1;
        }
        assert(self.view() == PState { ok: true, ..st2 });
        self.at_start = false;
        extend_bytes(&mut self.out, text);
        // Multi-line atoms (block comments) restart the column count; `width` is then the
        // width of their last line.
        self.col = if contains_byte(text, 10u8) {
            width
        } else {
            self.col + width
        };
    }

    /// Would `next` fit flat on the current line, followed by the rest of the line?
    fn fits(&self, next: Cmd<'a>, rest: &Vec<Cmd<'a>>, rest_len: usize) -> (r: bool)
        requires
            rest_len <= rest@.len(),
            spec_fits(*self.opts, self.view(), next.view(), cmds_view(rest@), rest_len as int).1,
        ensures
            r == spec_fits(*self.opts, self.view(), next.view(), cmds_view(rest@), rest_len as int).0,
    {
        if self.pending > 0 {
            self.fits_from(self.pending_indent, true, next, rest, rest_len)
        } else {
            self.fits_from(self.col, self.at_start, next, rest, rest_len)
        }
    }

    /// [`Printer::fits`], starting at a given column (at the start of a line if `at_start`).
    fn fits_from(
        &self,
        col: usize,
        at_start: bool,
        next: Cmd<'a>,
        rest: &Vec<Cmd<'a>>,
        rest_len: usize,
    ) -> (r: bool)
        requires
            rest_len <= rest@.len(),
            spec_fits_from(
                *self.opts,
                self.modes@,
                col as int,
                at_start,
                seq![next.view()],
                cmds_view(rest@),
                rest_len as int,
            ).1,
        ensures
            r == spec_fits_from(
                *self.opts,
                self.modes@,
                col as int,
                at_start,
                seq![next.view()],
                cmds_view(rest@),
                rest_len as int,
            ).0,
    {
        let ghost opts = *self.opts;
        let ghost modes = self.modes@;
        let ghost rv = cmds_view(rest@);
        let ghost goal = spec_fits_from(
            opts,
            modes,
            col as int,
            at_start,
            seq![next.view()],
            rv,
            rest_len as int,
        );
        let mut column = col;
        let mut starting = at_start;
        let mut rest_idx = rest_len;
        let mut work: Vec<Cmd<'a>> = Vec::new();
        work.push(next);
        proof {
            assert(cmds_view(work@) =~= seq![next.view()]);
        }
        loop
            invariant
                rest_idx <= rest_len <= rest@.len(),
                opts == *self.opts,
                modes == self.modes@,
                rv == cmds_view(rest@),
                spec_fits_from(
                    opts,
                    modes,
                    column as int,
                    starting,
                    cmds_view(work@),
                    rv,
                    rest_idx as int,
                ) == goal,
                goal == spec_fits_from(
                    opts,
                    modes,
                    col as int,
                    at_start,
                    seq![next.view()],
                    rv,
                    rest_len as int,
                ),
                goal.1,
            decreases rest_idx, work_size(cmds_view(work@)),
        {
            let ghost wv = cmds_view(work@);
            let ghost col0 = column as int;
            let ghost at0 = starting;
            let ghost idx0 = rest_idx as int;
            let ghost stp = spec_fits_step(opts, modes, col0, at0, wv, rv, idx0);
            proof {
                lemma_fits_step_decreases(opts, modes, col0, at0, wv, rv, idx0);
            }
            assert(goal == match stp {
                FitsStep::Done(r, ok) => (r, ok),
                FitsStep::Next(c, a, w, i) => spec_fits_from(opts, modes, c, a, w, rv, i),
            });
            if column > self.opts.width {
                assert(stp == FitsStep::Done(false, true));
                assert(goal.0 == false);
                return false;
            }
            let from_rest = work.len() == 0;
            if from_rest && rest_idx == 0 {
                assert(stp == FitsStep::Done(true, true));
                return true;
            }
            let cmd = if from_rest {
                rest_idx = rest_idx - 1;
                rest[rest_idx]
            } else {
                let c = work.pop().unwrap();
                proof {
                    lemma_cmds_view_drop_last(work@.push(c));
                    assert(work@.push(c).drop_last() =~= work@);
                    assert(wv.drop_last() == cmds_view(work@));
                    assert(work_size(wv) == work_size(wv.drop_last()) + doc_size(wv.last().doc));
                }
                c
            };
            proof {
                assert(cmd.view() == if from_rest { rv[rest_idx as int] } else { wv[wv.len() - 1] });
            }
            let ghost w1 = cmds_view(work@);
            match cmd.doc {
                Doc::Nil | Doc::Suffix(_) | Doc::BreakParent => {
                    assert(stp == FitsStep::Next(column as int, starting, cmds_view(work@), rest_idx as int));
                },
                Doc::Space(n) => {
                    if !starting {
                        column = column + *n;
                    }
                    assert(stp == FitsStep::Next(column as int, starting, cmds_view(work@), rest_idx as int));
                },
                Doc::Atom { width, space, text } => {
                    if contains_byte(text.as_slice(), 10u8) {
                        assert(stp == FitsStep::Done(false, true));
                        return false;
                    }
                    if starting {
                        if cmd.indent > column {
                            column = cmd.indent;
                        }
                    } else if *space {
                        column = column + 1;
                    }
                    starting = false;
                    column = column + *width;
                    assert(stp == FitsStep::Next(column as int, starting, cmds_view(work@), rest_idx as int));
                },
                Doc::Line => {
                    if !cmd.flat {
                        assert(stp == FitsStep::Done(true, true));
                        return true;
                    }
                    assert(stp == FitsStep::Next(column as int, starting, cmds_view(work@), rest_idx as int));
                },
                Doc::Hard | Doc::Blank(_) => {
                    assert(stp == FitsStep::Done(true, true));
                    return true;
                },
                Doc::Concat(v) => {
                    proof {
                        assert(cmd.view().doc->Concat_0 =~= docs_view(v@));
                        lemma_children_work_size(docs_view(v@), cmd.view());
                        lemma_work_size_append(w1, children(docs_view(v@), cmd.view()));
                    }
                    push_children(&mut work, v, cmd);
                    assert(stp == FitsStep::Next(column as int, starting, cmds_view(work@), rest_idx as int));
                },
                Doc::Fill(v) => {
                    proof {
                        assert(cmd.view().doc->Fill_0 =~= docs_view(v@));
                        lemma_children_work_size(docs_view(v@), cmd.view());
                        lemma_work_size_append(w1, children(docs_view(v@), cmd.view()));
                    }
                    push_children(&mut work, v, cmd);
                    assert(stp == FitsStep::Next(column as int, starting, cmds_view(work@), rest_idx as int));
                },
                Doc::Indent(d) => {
                    let c = Cmd { doc: &**d, ..cmd };
                    let ghost before = work@;
                    work.push(c);
                    proof {
                        lemma_cmds_view_push(before, c);
                        assert(cmd.view().doc == SDoc::Indent(Box::new(c.view().doc)));
                    }
                    assert(stp == FitsStep::Next(column as int, starting, cmds_view(work@), rest_idx as int));
                },
                Doc::Align(d) => {
                    let c = Cmd { doc: &**d, ..cmd };
                    let ghost before = work@;
                    work.push(c);
                    proof {
                        lemma_cmds_view_push(before, c);
                        assert(cmd.view().doc == SDoc::Align(Box::new(c.view().doc)));
                    }
                    assert(stp == FitsStep::Next(column as int, starting, cmds_view(work@), rest_idx as int));
                },
                Doc::Group { doc, broken, .. } => {
                    if cmd.flat && *broken {
                        assert(stp == FitsStep::Done(false, true));
                        return false;
                    }
                    let c = Cmd { doc: &**doc, flat: cmd.flat && !*broken, ..cmd };
                    let ghost before = work@;
                    work.push(c);
                    proof {
                        lemma_cmds_view_push(before, c);
                    }
                    assert(stp == FitsStep::Next(column as int, starting, cmds_view(work@), rest_idx as int));
                },
                Doc::IfBreak { id, broken, flat } => {
                    let d = if self.modes[*id] {
                        broken
                    } else {
                        flat
                    };
                    let c = Cmd { doc: &**d, ..cmd };
                    let ghost before = work@;
                    work.push(c);
                    proof {
                        lemma_cmds_view_push(before, c);
                    }
                    assert(stp == FitsStep::Next(column as int, starting, cmds_view(work@), rest_idx as int));
                },
                Doc::Hug { value, .. } => {
                    if !cmd.flat {
                        assert(stp == FitsStep::Done(true, true));
                        return true;
                    }
                    let c = Cmd { doc: &**value, ..cmd };
                    let ghost before = work@;
                    work.push(c);
                    proof {
                        lemma_cmds_view_push(before, c);
                    }
                    assert(stp == FitsStep::Next(column as int, starting, cmds_view(work@), rest_idx as int));
                },
                Doc::Choice { flat, broken } => {
                    let d = if cmd.flat {
                        flat
                    } else {
                        broken
                    };
                    let c = Cmd { doc: &**d, ..cmd };
                    let ghost before = work@;
                    work.push(c);
                    proof {
                        lemma_cmds_view_push(before, c);
                        assert(c.view().doc == if cmd.flat { doc_view(**flat) } else { doc_view(**broken) });
                    }
                    assert(stp == FitsStep::Next(column as int, starting, cmds_view(work@), rest_idx as int));
                },
            }
        }
    }

    /// Print `cmd`, popped from the top of the stack; push what it leaves to print.
    #[verifier::rlimit(50)]
    fn step(&mut self, cmd: Cmd<'a>, stack: &mut Vec<Cmd<'a>>)
        requires
            spec_step(*old(self).opts, old(self).view(), cmd.view(), cmds_view(old(stack)@)).0.ok,
        ensures
            final(self).view() == spec_step(
                *old(self).opts,
                old(self).view(),
                cmd.view(),
                cmds_view(old(stack)@),
            ).0,
            cmds_view(final(stack)@) == spec_step(
                *old(self).opts,
                old(self).view(),
                cmd.view(),
                cmds_view(old(stack)@),
            ).1,
            final(self).opts == old(self).opts,
    {
        let ghost st = self.view();
        let ghost sv = cmds_view(stack@);
        let ghost opts = *self.opts;
        let ghost goal = spec_step(opts, st, cmd.view(), sv);
        let step = self.opts.indent;
        match cmd.doc {
            Doc::Nil | Doc::BreakParent => {},
            Doc::Space(n) => {
                if self.pending == 0 && !self.at_start && self.suffix.len() == 0 {
                    push_repeated(&mut self.out, 32u8, *n);
                    self.col = self.col + *n;
                }
            },
            Doc::Atom { text, width, space } => {
                self.atom(text.as_slice(), *width, *space, &cmd);
            },
            Doc::Line => {
                if !cmd.flat {
                    self.newline(1, cmd.indent, cmd.levels);
                }
            },
            Doc::Hard => {
                self.newline(1, cmd.indent, cmd.levels);
            },
            Doc::Blank(n) => {
                let count: u8 = if *n < 255 {
                    *n + 1
                } else {
                    255
                };
                self.newline(count, cmd.indent, cmd.levels);
            },
            Doc::Suffix(t) => {
                extend_bytes(&mut self.suffix, t.as_slice());
            },
            Doc::Concat(v) => {
                proof {
                    assert(cmd.view().doc->Concat_0 =~= docs_view(v@));
                }
                push_children(stack, v, cmd);
            },
            Doc::Fill(v) => {
                proof {
                    assert(cmd.view().doc->Fill_0 =~= docs_view(v@));
                }
                self.step_fill(cmd, v, stack);
            },
            Doc::Indent(d) => {
                let c = Cmd {
                    indent: cmd.indent + step,
                    levels: deeper(cmd.indent, cmd.levels, step),
                    doc: &**d,
                    ..cmd
                };
                let ghost before = stack@;
                stack.push(c);
                proof {
                    lemma_cmds_view_push(before, c);
                }
            },
            Doc::Align(d) => {
                self.step_align(cmd, &**d, stack);
            },
            Doc::Group { id, doc, broken } => {
                let flat = cmd.flat || (!*broken && self.fits(
                    Cmd { flat: true, doc: &**doc, ..cmd },
                    stack,
                    stack.len(),
                ));
                self.modes.set(*id, !flat);
                let c = Cmd { flat, doc: &**doc, ..cmd };
                let ghost before = stack@;
                stack.push(c);
                proof {
                    lemma_cmds_view_push(before, c);
                }
            },
            Doc::IfBreak { id, broken, flat } => {
                let d = if self.modes[*id] {
                    broken
                } else {
                    flat
                };
                let c = Cmd { doc: &**d, ..cmd };
                let ghost before = stack@;
                stack.push(c);
                proof {
                    lemma_cmds_view_push(before, c);
                }
            },
            Doc::Hug { value, forced } => {
                self.step_hug(cmd, &**value, *forced, stack);
            },
            Doc::Choice { flat, broken } => {
                let fits = cmd.flat || self.fits(Cmd { doc: &**flat, ..cmd }, stack, stack.len());
                let d = if fits {
                    flat
                } else {
                    broken
                };
                let c = Cmd { doc: &**d, ..cmd };
                let ghost before = stack@;
                stack.push(c);
                proof {
                    lemma_cmds_view_push(before, c);
                }
            },
        }
    }

    /// [`Printer::step`] on the command at position `cmd.fill` of a fill.
    fn step_fill(&mut self, cmd: Cmd<'a>, v: &'a Vec<Doc>, stack: &mut Vec<Cmd<'a>>)
        requires
            cmd.view().doc == SDoc::Fill(docs_view(v@)),
            spec_step(*old(self).opts, old(self).view(), cmd.view(), cmds_view(old(stack)@)).0.ok,
        ensures
            final(self).view() == spec_step(
                *old(self).opts,
                old(self).view(),
                cmd.view(),
                cmds_view(old(stack)@),
            ).0,
            cmds_view(final(stack)@) == spec_step(
                *old(self).opts,
                old(self).view(),
                cmd.view(),
                cmds_view(old(stack)@),
            ).1,
            final(self).opts == old(self).opts,
    {
        if cmd.fill >= v.len() {
            return;
        }
        let item = &v[cmd.fill];
        let next_fill = Cmd { fill: cmd.fill + 1, ..cmd };
        let ghost before = stack@;
        stack.push(next_fill);
        proof {
            lemma_cmds_view_push(before, next_fill);
        }
        // The last item must also leave room for what follows the fill.
        let flat = if cmd.flat {
            true
        } else if cmd.fill % 2 == 1 {
            // A separator stays flat when the next item fits after it.
            if cmd.fill + 1 < v.len() {
                let rest = if cmd.fill + 2 == v.len() {
                    stack.len() - 1
                } else {
                    0
                };
                self.fits(Cmd { flat: true, doc: &v[cmd.fill + 1], fill: 0, ..cmd }, stack, rest)
            } else {
                true
            }
        } else {
            let rest = if cmd.fill + 1 == v.len() {
                stack.len() - 1
            } else {
                0
            };
            self.fits(Cmd { flat: true, doc: item, fill: 0, ..cmd }, stack, rest)
        };
        let c = Cmd { flat, doc: item, fill: 0, ..cmd };
        let ghost mid = stack@;
        stack.push(c);
        proof {
            lemma_cmds_view_push(mid, c);
        }
    }

    /// [`Printer::step`] on an alignment.
    fn step_align(&mut self, cmd: Cmd<'a>, d: &'a Doc, stack: &mut Vec<Cmd<'a>>)
        requires
            cmd.view().doc == SDoc::Align(Box::new(d@)),
            spec_step(*old(self).opts, old(self).view(), cmd.view(), cmds_view(old(stack)@)).0.ok,
        ensures
            final(self).view() == spec_step(
                *old(self).opts,
                old(self).view(),
                cmd.view(),
                cmds_view(old(stack)@),
            ).0,
            cmds_view(final(stack)@) == spec_step(
                *old(self).opts,
                old(self).view(),
                cmd.view(),
                cmds_view(old(stack)@),
            ).1,
            final(self).opts == old(self).opts,
    {
        let step = self.opts.indent;
        let (indent, levels) = if self.opts.indent_continuations {
            (cmd.indent + step, deeper(cmd.indent, cmd.levels, step))
        } else {
            let (target, line_indent, line_levels) = if self.pending > 0 || self.at_start
                || self.suffix.len() > 0 {
                (cmd.indent, cmd.indent, cmd.levels)
            } else {
                let space: usize = match d.first_atom_space() {
                    Some(true) => 1,
                    _ => 0,
                };
                (self.col + space, self.line_indent, self.line_levels)
            };
            // Bounded alignment: past 40% of the width, continuation lines use a fixed
            // double indent instead, so deep alignment never leaves no room on the right.
            if target * 5 > self.opts.width * 2 {
                let once = deeper(line_indent, line_levels, step);
                (line_indent + 2 * step, deeper(line_indent + step, once, step))
            } else {
                (target, line_levels)
            }
        };
        let c = Cmd { indent, levels, doc: d, ..cmd };
        let ghost before = stack@;
        stack.push(c);
        proof {
            lemma_cmds_view_push(before, c);
        }
    }

    /// [`Printer::step`] on a hugged value.
    fn step_hug(&mut self, cmd: Cmd<'a>, value: &'a Doc, forced: bool, stack: &mut Vec<Cmd<'a>>)
        requires
            cmd.view().doc == (SDoc::Hug { value: Box::new(value@), forced }),
            spec_step(*old(self).opts, old(self).view(), cmd.view(), cmds_view(old(stack)@)).0.ok,
        ensures
            final(self).view() == spec_step(
                *old(self).opts,
                old(self).view(),
                cmd.view(),
                cmds_view(old(stack)@),
            ).0,
            cmds_view(final(stack)@) == spec_step(
                *old(self).opts,
                old(self).view(),
                cmd.view(),
                cmds_view(old(stack)@),
            ).1,
            final(self).opts == old(self).opts,
    {
        let step = self.opts.indent;
        let continuation = cmd.indent + step;
        let levels = deeper(cmd.indent, cmd.levels, step);
        let flat = Cmd { flat: true, doc: value, ..cmd };
        let broken = Cmd { flat: false, ..flat };
        let c = if cmd.flat || (!forced && self.fits(flat, stack, stack.len())) {
            flat
        } else if !forced && self.fits_from(continuation, true, flat, stack, stack.len()) {
            self.newline(1, continuation, levels);
            Cmd { indent: continuation, levels, ..flat }
        } else if !value.starts_with_break() && self.fits(broken, stack, stack.len()) {
            broken
        } else {
            self.newline(1, continuation, levels);
            Cmd { indent: continuation, levels, ..broken }
        };
        let ghost before = stack@;
        stack.push(c);
        proof {
            lemma_cmds_view_push(before, c);
        }
    }
}


/// Once a run has failed its `ok` check, it stays failed: a run that ends `ok` was `ok` all
/// along.
pub proof fn lemma_step_keeps_failure(opts: PrintOptions, st: PState, cmd: SCmd, stack: Seq<SCmd>)
    ensures
        spec_step(opts, st, cmd, stack).0.ok ==> st.ok,
{
}

pub proof fn lemma_run_ok(opts: PrintOptions, st: PState, stack: Seq<SCmd>)
    ensures
        spec_run(opts, st, stack).ok ==> st.ok,
    decreases stack_size(stack),
{
    if stack.len() > 0 {
        let (st2, stack2) = spec_step(opts, st, stack.last(), stack.drop_last());
        lemma_step_decreases(opts, st, stack.last(), stack.drop_last());
        lemma_run_ok(opts, st2, stack2);
        lemma_step_keeps_failure(opts, st, stack.last(), stack.drop_last());
    }
}

/// Print `doc`. The result uses `\n` line endings and ends with a newline (unless nothing was
/// printed at all).
pub fn print(doc: Doc, groups: usize, opts: &PrintOptions) -> (out: Vec<u8>)
    requires
        print_ok(doc@, groups as int, *opts),
    ensures
        out@ == spec_print(doc@, groups as int, *opts),
        out@.len() > 0 ==> out@.last() == 10u8,
{
    let (doc, _) = doc.propagate();
    let mut modes: Vec<bool> = Vec::new();
    let mut i: usize = 0;
    while i < groups
        invariant
            0 <= i <= groups,
            modes@ == Seq::new(i as nat, |_j: int| false),
        decreases groups - i,
    {
        modes.push(false);
        i = i + 1;
        assert(modes@ =~= Seq::new(i as nat, |_j: int| false));
    }
    let mut p = Printer {
        opts,
        out: Vec::new(),
        col: 0,
        pending: 0,
        pending_indent: 0,
        pending_levels: 0,
        at_start: true,
        line_indent: 0,
        line_levels: 0,
        suffix: Vec::new(),
        modes,
    };
    let top = Cmd { indent: 0, levels: 0, flat: false, doc: &doc, fill: 0 };
    let mut stack: Vec<Cmd> = Vec::new();
    stack.push(top);
    let ghost fin = spec_run(*opts, initial_state(groups as int), seq![top.view()]);
    proof {
        assert(p.view() == initial_state(groups as int));
        assert(cmds_view(stack@) =~= seq![top.view()]);
    }
    while stack.len() > 0
        invariant
            p.opts == opts,
            fin.ok,
            spec_run(*opts, p.view(), cmds_view(stack@)) == fin,
        decreases stack_size(cmds_view(stack@)),
    {
        let ghost before = stack@;
        let cmd = stack.pop().unwrap();
        proof {
            lemma_cmds_view_drop_last(before);
            assert(before.drop_last() =~= stack@);
            let sv = cmds_view(before);
            let (st2, stack2) = spec_step(*opts, p.view(), sv.last(), sv.drop_last());
            lemma_step_decreases(*opts, p.view(), sv.last(), sv.drop_last());
            lemma_run_ok(*opts, st2, stack2);
            assert(stack_size(sv) == stack_size(sv.drop_last()) + cmd_size(sv.last()));
        }
        p.step(cmd, &mut stack);
    }
    proof {
        assert(cmds_view(stack@) =~= Seq::<SCmd>::empty());
    }
    let mut out = p.out;
    let mut suffix = p.suffix;
    out.append(&mut suffix);
    if out.len() > 0 {
        out.push(10u8);
    }
    out
}

/// Tab stop used when measuring text containing tabs (only comments can contain tabs).
pub const TAB_WIDTH: usize = 4;

/// Whether `b` continues a UTF-8 sequence (it is not the first byte of a character).
pub open spec fn is_continuation(b: u8) -> bool {
    0x80 <= b < 0xC0
}

/// The column reached after printing `text` from column `start`, and the column its last line
/// started at.
pub open spec fn spec_columns(text: Seq<u8>, utf8: bool, start: int) -> (int, int)
    decreases text.len(),
{
    if text.len() == 0 {
        (start, start)
    } else {
        let (col, base) = spec_columns(text.drop_last(), utf8, start);
        let b = text.last();
        if b == 9u8 {
            ((col / 4 + 1) * 4, base)
        } else if b == 10u8 {
            (0, 0)
        } else if utf8 && is_continuation(b) {
            (col, base)
        } else {
            (col + 1, base)
        }
    }
}

/// The display width of `text` printed at column `start`.
pub open spec fn spec_display_width(text: Seq<u8>, utf8: bool, start: int) -> int {
    spec_columns(text, utf8, start).0 - spec_columns(text, utf8, start).1
}

proof fn lemma_columns_bounds(text: Seq<u8>, utf8: bool, start: int)
    requires
        start >= 0,
    ensures
        0 <= spec_columns(text, utf8, start).1 <= spec_columns(text, utf8, start).0,
        spec_columns(text, utf8, start).0 <= start + 4 * text.len(),
    decreases text.len(),
{
    if text.len() > 0 {
        lemma_columns_bounds(text.drop_last(), utf8, start);
    }
}

/// Printed output is empty or ends with a line feed.
pub proof fn law_print_ends_with_newline(doc: SDoc, groups: int, opts: PrintOptions)
    ensures
        spec_print(doc, groups, opts).len() == 0 || spec_print(doc, groups, opts).last() == 10u8,
{
}

/// The number of characters of UTF-8 text: the bytes that do not continue a character.
pub open spec fn scalars(text: Seq<u8>) -> nat
    decreases text.len(),
{
    if text.len() == 0 {
        0
    } else {
        scalars(text.drop_last()) + if is_continuation(text.last()) {
            0nat
        } else {
            1nat
        }
    }
}

proof fn lemma_columns_after_newline(a: Seq<u8>, b: Seq<u8>, utf8: bool, start: int)
    ensures
        spec_columns(a.push(10u8) + b, utf8, start) == spec_columns(b, utf8, 0),
    decreases b.len(),
{
    if b.len() == 0 {
        assert(a.push(10u8) + b =~= a.push(10u8));
        assert(a.push(10u8).drop_last() =~= a);
    } else {
        lemma_columns_after_newline(a, b.drop_last(), utf8, start);
        assert((a.push(10u8) + b).drop_last() =~= a.push(10u8) + b.drop_last());
    }
}

/// Multi-line text measures its last line: whatever comes before a line feed, and the column it
/// started at, do not count.
pub proof fn law_width_of_last_line(a: Seq<u8>, b: Seq<u8>, utf8: bool, start: int)
    ensures
        spec_display_width(a + seq![10u8] + b, utf8, start) == spec_display_width(b, utf8, 0),
{
    assert(a + seq![10u8] + b =~= a.push(10u8) + b);
    lemma_columns_after_newline(a, b, utf8, start);
}

proof fn lemma_columns_plain(b: Seq<u8>, start: int)
    requires
        forall|i: int| 0 <= i < b.len() ==> b[i] != 9u8 && b[i] != 10u8,
    ensures
        spec_columns(b, false, start) == (start + b.len(), start),
        spec_columns(b, true, start) == (start + scalars(b), start),
    decreases b.len(),
{
    if b.len() > 0 {
        lemma_columns_plain(b.drop_last(), start);
        assert(b.last() == b[b.len() - 1]);
    }
}

/// Text without tabs or line feeds takes one column per byte, or one per character when it is
/// UTF-8, wherever it starts.
pub proof fn law_width_of_plain_text(b: Seq<u8>, start: int)
    requires
        forall|i: int| 0 <= i < b.len() ==> b[i] != 9u8 && b[i] != 10u8,
    ensures
        spec_display_width(b, false, start) == b.len(),
        spec_display_width(b, true, start) == scalars(b),
{
    lemma_columns_plain(b, start);
}

/// Display width of `text` printed at column `start`: one column per character (per UTF-8
/// scalar when the file is valid UTF-8, otherwise per Latin-1 byte); tabs advance to the next
/// multiple of [`TAB_WIDTH`]. For multi-line text, the width of the last line.
pub fn display_width(text: &[u8], utf8: bool, start: usize) -> (r: usize)
    requires
        start + 4 * text@.len() <= usize::MAX,
    ensures
        r == spec_display_width(text@, utf8, start as int),
        r <= start + 4 * text@.len(),
{
    let mut col = start;
    let mut base = start;
    let mut i: usize = 0;
    while i < text.len()
        invariant
            0 <= i <= text.len(),
            start + 4 * text@.len() <= usize::MAX,
            (col as int, base as int) == spec_columns(text@.take(i as int), utf8, start as int),
        decreases text.len() - i,
    {
        proof {
            lemma_columns_bounds(text@.take(i as int), utf8, start as int);
            assert(text@.take(i as int + 1).drop_last() =~= text@.take(i as int));
        }
        let b = text[i];
        proof {
            assert(((b & 0xC0u8) == 0x80u8) == (0x80u8 <= b && b < 0xC0u8)) by (bit_vector);
        }
        if b == 9u8 {
            col = (col / TAB_WIDTH + 1) * TAB_WIDTH;
        } else if b == 10u8 {
            col = 0;
            base = 0;
        } else if utf8 && (b & 0xC0u8) == 0x80u8 {
        } else {
            col = col + 1;
        }
        i = i + 1;
    }
    proof {
        assert(text@.take(text.len() as int) =~= text@);
        lemma_columns_bounds(text@, utf8, start as int);
    }
    col - base
}


// Laws of the printer ----------------------------------------------------------------------------

/// A pending line suffix (a trailing comment) always ends the line: printing the next atom
/// writes the suffix and then a line break before anything else, so a comment never swallows
/// code.
pub proof fn lemma_suffix_ends_line(
    opts: PrintOptions,
    st: PState,
    text: Seq<u8>,
    width: int,
    space: bool,
    indent: int,
    levels: int,
)
    requires
        st.suffix.len() > 0,
    ensures
        ({
            let out = spec_atom(opts, st, text, width, space, indent, levels).out;
            &&& out.len() > st.out.len() + st.suffix.len()
            &&& out.subrange(0, (st.out.len() + st.suffix.len()) as int) == st.out + st.suffix
            &&& out[(st.out.len() + st.suffix.len()) as int] == 10u8
        }),
{
    let s = PState { out: st.out + st.suffix, suffix: Seq::empty(), ..st };
    let st1 = if s.pending == 0 {
        PState { pending: 1, pending_indent: indent, pending_levels: levels, ..s }
    } else {
        s
    };
    let nl = st1.out + repeated(10u8, st1.pending as int);
    let st2 = spec_indent_to(opts, PState { out: nl, pending: 0, ..st1 }, st1.pending_indent, st1.pending_levels);
    let n: int = (st.out.len() + st.suffix.len()) as int;
    assert(nl[n] == 10u8);
    assert(st2.out.subrange(0, nl.len() as int) =~= nl);
    let out = spec_atom(opts, st, text, width, space, indent, levels).out;
    assert(out == st2.out + text);
    assert(out.subrange(0, n) =~= st.out + st.suffix);
    assert(out[n] == st2.out[n]);
}

/// Trailing comments never count towards the width: measuring a line with a suffix on top gives
/// the same answer as measuring it without.
pub proof fn lemma_suffix_not_measured(
    opts: PrintOptions,
    modes: Seq<bool>,
    col: int,
    at_start: bool,
    work: Seq<SCmd>,
    suffix: SCmd,
    rest: Seq<SCmd>,
    rest_idx: int,
)
    requires
        suffix.doc is Suffix,
    ensures
        spec_fits_from(opts, modes, col, at_start, work.push(suffix), rest, rest_idx)
            == spec_fits_from(opts, modes, col, at_start, work, rest, rest_idx),
{
    assert(work.push(suffix).drop_last() =~= work);
    if col > opts.width {
        assert(spec_fits_step(opts, modes, col, at_start, work, rest, rest_idx) == FitsStep::Done(false, true));
    }
}

/// A line break prints nothing in a flat group.
pub proof fn lemma_flat_line_prints_nothing(opts: PrintOptions, st: PState, cmd: SCmd, stack: Seq<SCmd>)
    requires
        cmd.doc is Line,
        cmd.flat,
    ensures
        spec_step(opts, st, cmd, stack) == (st, stack),
{
}

/// A line break in a broken group ends the line: the next atom starts on a new line at the
/// indentation of the break (unless nothing was printed yet).
pub proof fn lemma_broken_line_breaks(opts: PrintOptions, st: PState, cmd: SCmd, stack: Seq<SCmd>)
    requires
        cmd.doc is Line,
        !cmd.flat,
        st.out.len() > 0,
    ensures
        spec_step(opts, st, cmd, stack).0.pending >= 1,
        spec_step(opts, st, cmd, stack).0.pending_indent == cmd.indent,
        spec_step(opts, st, cmd, stack).1 == stack,
{
}

/// A group that contains a forced break is marked broken, and a broken group is printed broken.
pub proof fn lemma_forced_break_breaks_group(
    opts: PrintOptions,
    st: PState,
    id: int,
    doc: SDoc,
    broken: bool,
    cmd: SCmd,
    stack: Seq<SCmd>,
)
    requires
        spec_propagate(doc).1,
        cmd.doc == spec_propagate(SDoc::Group { id, doc: Box::new(doc), broken }).0,
        !cmd.flat,
        0 <= id < st.modes.len(),
    ensures
        cmd.doc matches SDoc::Group { broken: true, .. },
        spec_step(opts, st, cmd, stack).0.modes[id],
        spec_step(opts, st, cmd, stack).1.last().flat == false,
{
}

// Carriage returns ---------------------------------------------------------------------------------

/// No text and no suffix of `d` holds a carriage return.
pub open spec fn no_cr(d: SDoc) -> bool
    decreases d,
{
    match d {
        SDoc::Atom { text, .. } => !text.contains(13u8),
        SDoc::Suffix(t) => !t.contains(13u8),
        SDoc::Concat(v) => forall|i: int| 0 <= i < v.len() ==> no_cr(#[trigger] v[i]),
        SDoc::Fill(v) => forall|i: int| 0 <= i < v.len() ==> no_cr(#[trigger] v[i]),
        SDoc::Indent(b) => no_cr(*b),
        SDoc::Align(b) => no_cr(*b),
        SDoc::Group { doc, .. } => no_cr(*doc),
        SDoc::IfBreak { broken, flat, .. } => no_cr(*broken) && no_cr(*flat),
        SDoc::Choice { flat, broken } => no_cr(*flat) && no_cr(*broken),
        SDoc::Hug { value, .. } => no_cr(*value),
        _ => true,
    }
}

proof fn lemma_propagate_no_cr(d: SDoc)
    requires
        no_cr(d),
    ensures
        no_cr(spec_propagate(d).0),
    decreases d,
{
    match d {
        SDoc::Concat(v) => {
            let w = spec_propagate(d).0->Concat_0;
            assert forall|i: int| 0 <= i < w.len() implies no_cr(#[trigger] w[i]) by {
                lemma_propagate_no_cr(v[i]);
            }
        },
        SDoc::Fill(v) => {
            let w = spec_propagate(d).0->Fill_0;
            assert forall|i: int| 0 <= i < w.len() implies no_cr(#[trigger] w[i]) by {
                lemma_propagate_no_cr(v[i]);
            }
        },
        SDoc::Indent(b) => lemma_propagate_no_cr(*b),
        SDoc::Align(b) => lemma_propagate_no_cr(*b),
        SDoc::Group { doc, .. } => lemma_propagate_no_cr(*doc),
        SDoc::IfBreak { broken, flat, .. } => {
            lemma_propagate_no_cr(*broken);
            lemma_propagate_no_cr(*flat);
        },
        SDoc::Choice { flat, broken } => {
            lemma_propagate_no_cr(*flat);
            lemma_propagate_no_cr(*broken);
        },
        SDoc::Hug { value, .. } => lemma_propagate_no_cr(*value),
        _ => {},
    }
}

/// What the printer has written or holds back has no carriage return.
pub open spec fn state_no_cr(st: PState) -> bool {
    !st.out.contains(13u8) && !st.suffix.contains(13u8)
}

/// No document on the stack has a carriage return.
pub open spec fn stack_no_cr(stack: Seq<SCmd>) -> bool {
    forall|i: int| 0 <= i < stack.len() ==> no_cr(#[trigger] stack[i].doc)
}

proof fn lemma_append_no(a: Seq<u8>, b: Seq<u8>, x: u8)
    requires
        !a.contains(x),
        !b.contains(x),
    ensures
        !(a + b).contains(x),
{
    assert forall|i: int| 0 <= i < (a + b).len() implies (a + b)[i] != x by {
        if i < a.len() {
            assert((a + b)[i] == a[i]);
        } else {
            assert((a + b)[i] == b[i - a.len()]);
        }
    }
}

proof fn lemma_repeated_no(b: u8, n: int, x: u8)
    requires
        b != x,
    ensures
        !repeated(b, n).contains(x),
{
    assert forall|i: int| 0 <= i < repeated(b, n).len() implies repeated(b, n)[i] != x by {}
}

proof fn lemma_indent_no_cr(opts: PrintOptions, st: PState, indent: int, levels: int)
    requires
        state_no_cr(st),
    ensures
        state_no_cr(spec_indent_to(opts, st, indent, levels)),
{
    if opts.tabs && opts.indent > 0 {
        let tabs = repeated(9u8, levels / (opts.indent as int));
        let spaces = repeated(32u8, if levels <= indent { indent - levels } else { 0 });
        lemma_repeated_no(9u8, levels / (opts.indent as int), 13u8);
        lemma_repeated_no(32u8, if levels <= indent { indent - levels } else { 0 }, 13u8);
        lemma_append_no(st.out, tabs, 13u8);
        lemma_append_no(st.out + tabs, spaces, 13u8);
    } else {
        lemma_repeated_no(32u8, indent, 13u8);
        lemma_append_no(st.out, repeated(32u8, indent), 13u8);
    }
}

proof fn lemma_atom_no_cr(
    opts: PrintOptions,
    st: PState,
    text: Seq<u8>,
    width: int,
    space: bool,
    indent: int,
    levels: int,
)
    requires
        state_no_cr(st),
        !text.contains(13u8),
    ensures
        state_no_cr(spec_atom(opts, st, text, width, space, indent, levels)),
{
    let st1 = if st.suffix.len() > 0 {
        let s = PState { out: st.out + st.suffix, suffix: Seq::empty(), ..st };
        if s.pending == 0 {
            PState { pending: 1, pending_indent: indent, pending_levels: levels, ..s }
        } else {
            s
        }
    } else {
        st
    };
    lemma_append_no(st.out, st.suffix, 13u8);
    assert(!Seq::<u8>::empty().contains(13u8));
    assert(state_no_cr(st1));
    let st2 = if st1.pending > 0 {
        spec_indent_to(
            opts,
            PState { out: st1.out + repeated(10u8, st1.pending as int), pending: 0, ..st1 },
            st1.pending_indent,
            st1.pending_levels,
        )
    } else if st1.at_start {
        spec_indent_to(opts, st1, indent, levels)
    } else if space {
        PState { out: st1.out.push(32u8), col: st1.col + 1, ok: st1.ok && in_range(st1.col + 1), ..st1 }
    } else {
        st1
    };
    if st1.pending > 0 {
        lemma_repeated_no(10u8, st1.pending as int, 13u8);
        lemma_append_no(st1.out, repeated(10u8, st1.pending as int), 13u8);
        lemma_indent_no_cr(
            opts,
            PState { out: st1.out + repeated(10u8, st1.pending as int), pending: 0, ..st1 },
            st1.pending_indent,
            st1.pending_levels,
        );
    } else if st1.at_start {
        lemma_indent_no_cr(opts, st1, indent, levels);
    } else if space {
        assert(st1.out.push(32u8) =~= st1.out + seq![32u8]);
        lemma_append_no(st1.out, seq![32u8], 13u8);
    }
    assert(state_no_cr(st2));
    lemma_append_no(st2.out, text, 13u8);
}

proof fn lemma_step_no_cr(opts: PrintOptions, st: PState, cmd: SCmd, stack: Seq<SCmd>)
    requires
        state_no_cr(st),
        no_cr(cmd.doc),
        stack_no_cr(stack),
    ensures
        state_no_cr(spec_step(opts, st, cmd, stack).0),
        stack_no_cr(spec_step(opts, st, cmd, stack).1),
{
    let (st2, next) = spec_step(opts, st, cmd, stack);
    match cmd.doc {
        SDoc::Space(n) => {
            lemma_repeated_no(32u8, n, 13u8);
            lemma_append_no(st.out, repeated(32u8, n), 13u8);
        },
        SDoc::Atom { text, width, space } => {
            lemma_atom_no_cr(opts, st, text, width, space, cmd.indent, cmd.levels);
        },
        SDoc::Suffix(t) => {
            lemma_append_no(st.suffix, t, 13u8);
        },
        SDoc::Concat(v) => {
            assert forall|i: int| 0 <= i < next.len() implies no_cr(#[trigger] next[i].doc) by {
                if i >= stack.len() {
                    assert(next[i] == children(v, cmd)[i - stack.len()]);
                    assert(no_cr(v[v.len() - 1 - (i - stack.len())]));
                }
            }
        },
        SDoc::Fill(v) => {
            if 0 <= cmd.fill < v.len() {
                assert(no_cr(v[cmd.fill]));
                assert forall|i: int| 0 <= i < next.len() implies no_cr(#[trigger] next[i].doc) by {
                    if i < stack.len() {
                        assert(next[i] == stack[i]);
                    }
                }
            }
        },
        SDoc::Hug { value, forced } => {
            assert forall|i: int| 0 <= i < next.len() implies no_cr(#[trigger] next[i].doc) by {
                if i < stack.len() {
                    assert(next[i] == stack[i]);
                } else {
                    assert(next[i].doc == *value);
                }
            }
        },
        SDoc::Nil | SDoc::BreakParent | SDoc::Line | SDoc::Hard | SDoc::Blank(_) => {},
        _ => {
            assert forall|i: int| 0 <= i < next.len() implies no_cr(#[trigger] next[i].doc) by {
                if i < stack.len() {
                    assert(next[i] == stack[i]);
                }
            }
        },
    }
}

proof fn lemma_run_no_cr(opts: PrintOptions, st: PState, stack: Seq<SCmd>)
    requires
        state_no_cr(st),
        stack_no_cr(stack),
    ensures
        state_no_cr(spec_run(opts, st, stack)),
    decreases stack_size(stack),
{
    if stack.len() > 0 {
        let (st2, stack2) = spec_step(opts, st, stack.last(), stack.drop_last());
        lemma_step_decreases(opts, st, stack.last(), stack.drop_last());
        assert(no_cr(stack.last().doc));
        assert(stack_no_cr(stack.drop_last())) by {
            assert forall|i: int| 0 <= i < stack.drop_last().len() implies no_cr(
                #[trigger] stack.drop_last()[i].doc,
            ) by {
                assert(stack.drop_last()[i] == stack[i]);
            }
        }
        lemma_step_no_cr(opts, st, stack.last(), stack.drop_last());
        lemma_run_no_cr(opts, st2, stack2);
    }
}

/// Printing writes no carriage return of its own: the output has one only where a text or a
/// suffix of the document has one.
pub proof fn law_print_no_cr(doc: SDoc, groups: int, opts: PrintOptions)
    requires
        no_cr(doc),
    ensures
        !spec_print(doc, groups, opts).contains(13u8),
{
    lemma_propagate_no_cr(doc);
    let start = seq![SCmd { indent: 0, levels: 0, flat: false, doc: spec_propagate(doc).0, fill: 0 }];
    assert(stack_no_cr(start)) by {
        assert forall|i: int| 0 <= i < start.len() implies no_cr(#[trigger] start[i].doc) by {
            assert(start[i] == start[0]);
        }
    }
    assert(state_no_cr(initial_state(groups))) by {
        assert(!Seq::<u8>::empty().contains(13u8));
    }
    lemma_run_no_cr(opts, initial_state(groups), start);
    let st = spec_run(opts, initial_state(groups), start);
    lemma_append_no(st.out, st.suffix, 13u8);
    let out = st.out + st.suffix;
    if out.len() > 0 {
        assert(out.push(10u8) =~= out + seq![10u8]);
        lemma_append_no(out, seq![10u8], 13u8);
    }
}

// The final line feed -------------------------------------------------------------------------------

/// Whether `t` is empty or does not end with a line feed.
pub open spec fn no_trailing_lf(t: Seq<u8>) -> bool {
    t.len() == 0 || t.last() != 10u8
}

/// Every text of `d` is non-empty and does not end with a line feed, and no suffix of `d` ends
/// with one.
pub open spec fn texts_end_in_line(d: SDoc) -> bool
    decreases d,
{
    match d {
        SDoc::Atom { text, .. } => text.len() > 0 && text.last() != 10u8,
        SDoc::Suffix(t) => no_trailing_lf(t),
        SDoc::Concat(v) => forall|i: int| 0 <= i < v.len() ==> texts_end_in_line(#[trigger] v[i]),
        SDoc::Fill(v) => forall|i: int| 0 <= i < v.len() ==> texts_end_in_line(#[trigger] v[i]),
        SDoc::Indent(b) => texts_end_in_line(*b),
        SDoc::Align(b) => texts_end_in_line(*b),
        SDoc::Group { doc, .. } => texts_end_in_line(*doc),
        SDoc::IfBreak { broken, flat, .. } => texts_end_in_line(*broken) && texts_end_in_line(*flat),
        SDoc::Choice { flat, broken } => texts_end_in_line(*flat) && texts_end_in_line(*broken),
        SDoc::Hug { value, .. } => texts_end_in_line(*value),
        _ => true,
    }
}

proof fn lemma_propagate_ends(d: SDoc)
    requires
        texts_end_in_line(d),
    ensures
        texts_end_in_line(spec_propagate(d).0),
    decreases d,
{
    match d {
        SDoc::Concat(v) => {
            let w = spec_propagate(d).0->Concat_0;
            assert forall|i: int| 0 <= i < w.len() implies texts_end_in_line(#[trigger] w[i]) by {
                lemma_propagate_ends(v[i]);
            }
        },
        SDoc::Fill(v) => {
            let w = spec_propagate(d).0->Fill_0;
            assert forall|i: int| 0 <= i < w.len() implies texts_end_in_line(#[trigger] w[i]) by {
                lemma_propagate_ends(v[i]);
            }
        },
        SDoc::Indent(b) => lemma_propagate_ends(*b),
        SDoc::Align(b) => lemma_propagate_ends(*b),
        SDoc::Group { doc, .. } => lemma_propagate_ends(*doc),
        SDoc::IfBreak { broken, flat, .. } => {
            lemma_propagate_ends(*broken);
            lemma_propagate_ends(*flat);
        },
        SDoc::Choice { flat, broken } => {
            lemma_propagate_ends(*flat);
            lemma_propagate_ends(*broken);
        },
        SDoc::Hug { value, .. } => lemma_propagate_ends(*value),
        _ => {},
    }
}

/// Neither what the printer has written nor what it holds back ends with a line feed.
pub open spec fn state_ends_in_line(st: PState) -> bool {
    no_trailing_lf(st.out) && no_trailing_lf(st.suffix)
}

pub open spec fn stack_ends_in_line(stack: Seq<SCmd>) -> bool {
    forall|i: int| 0 <= i < stack.len() ==> texts_end_in_line(#[trigger] stack[i].doc)
}

proof fn lemma_step_ends(opts: PrintOptions, st: PState, cmd: SCmd, stack: Seq<SCmd>)
    requires
        state_ends_in_line(st),
        texts_end_in_line(cmd.doc),
        stack_ends_in_line(stack),
    ensures
        state_ends_in_line(spec_step(opts, st, cmd, stack).0),
        stack_ends_in_line(spec_step(opts, st, cmd, stack).1),
{
    let (st2, next) = spec_step(opts, st, cmd, stack);
    match cmd.doc {
        SDoc::Space(n) => {
            let sp = repeated(32u8, n);
            if sp.len() > 0 {
                assert((st.out + sp).last() == sp[sp.len() - 1]);
            } else {
                assert(st.out + sp =~= st.out);
            }
        },
        SDoc::Atom { text, width, space } => {
            let a = spec_atom(opts, st, text, width, space, cmd.indent, cmd.levels);
            assert(a.suffix.len() == 0 || a.suffix == st.suffix);
        },
        SDoc::Suffix(t) => {
            if t.len() > 0 {
                assert((st.suffix + t).last() == t.last());
            } else {
                assert(st.suffix + t =~= st.suffix);
            }
        },
        SDoc::Concat(v) => {
            assert forall|i: int| 0 <= i < next.len() implies texts_end_in_line(#[trigger] next[i].doc) by {
                if i >= stack.len() {
                    assert(next[i] == children(v, cmd)[i - stack.len()]);
                    assert(texts_end_in_line(v[v.len() - 1 - (i - stack.len())]));
                }
            }
        },
        SDoc::Fill(v) => {
            if 0 <= cmd.fill < v.len() {
                assert(texts_end_in_line(v[cmd.fill]));
                assert forall|i: int| 0 <= i < next.len() implies texts_end_in_line(#[trigger] next[i].doc) by {
                    if i < stack.len() {
                        assert(next[i] == stack[i]);
                    }
                }
            }
        },
        SDoc::Hug { value, forced } => {
            assert forall|i: int| 0 <= i < next.len() implies texts_end_in_line(#[trigger] next[i].doc) by {
                if i < stack.len() {
                    assert(next[i] == stack[i]);
                } else {
                    assert(next[i].doc == *value);
                }
            }
        },
        SDoc::Nil | SDoc::BreakParent | SDoc::Line | SDoc::Hard | SDoc::Blank(_) => {},
        _ => {
            assert forall|i: int| 0 <= i < next.len() implies texts_end_in_line(#[trigger] next[i].doc) by {
                if i < stack.len() {
                    assert(next[i] == stack[i]);
                }
            }
        },
    }
}

proof fn lemma_run_ends(opts: PrintOptions, st: PState, stack: Seq<SCmd>)
    requires
        state_ends_in_line(st),
        stack_ends_in_line(stack),
    ensures
        state_ends_in_line(spec_run(opts, st, stack)),
    decreases stack_size(stack),
{
    if stack.len() > 0 {
        let (st2, stack2) = spec_step(opts, st, stack.last(), stack.drop_last());
        lemma_step_decreases(opts, st, stack.last(), stack.drop_last());
        assert(texts_end_in_line(stack.last().doc));
        assert(stack_ends_in_line(stack.drop_last())) by {
            assert forall|i: int| 0 <= i < stack.drop_last().len() implies texts_end_in_line(
                #[trigger] stack.drop_last()[i].doc,
            ) by {
                assert(stack.drop_last()[i] == stack[i]);
            }
        }
        lemma_step_ends(opts, st, stack.last(), stack.drop_last());
        lemma_run_ends(opts, st2, stack2);
    }
}

/// Printed output that is not empty ends with exactly one line feed, when every text of the
/// document is non-empty and does not end with a line feed and no suffix ends with one.
pub proof fn law_print_ends_with_one_newline(doc: SDoc, groups: int, opts: PrintOptions)
    requires
        texts_end_in_line(doc),
    ensures
        spec_print(doc, groups, opts).len() > 0 ==> spec_print(doc, groups, opts).last() == 10u8
            && (spec_print(doc, groups, opts).len() == 1 || spec_print(doc, groups, opts)[spec_print(
            doc,
            groups,
            opts,
        ).len() - 2] != 10u8),
{
    lemma_propagate_ends(doc);
    let start = seq![SCmd { indent: 0, levels: 0, flat: false, doc: spec_propagate(doc).0, fill: 0 }];
    assert(stack_ends_in_line(start)) by {
        assert forall|i: int| 0 <= i < start.len() implies texts_end_in_line(#[trigger] start[i].doc) by {
            assert(start[i] == start[0]);
        }
    }
    lemma_run_ends(opts, initial_state(groups), start);
    let st = spec_run(opts, initial_state(groups), start);
    let out = st.out + st.suffix;
    if st.suffix.len() > 0 {
        assert(out.last() == st.suffix.last());
    } else {
        assert(out =~= st.out);
    }
    if out.len() > 0 {
        assert(out.push(10u8)[out.len() - 1] == out.last());
    }
}


/// In a fill that is not printed flat, the separator before an atom (not the fill's last item)
/// breaks the line exactly when the atom would pass the width: printing the separator leaves
/// the state as it is when the current column, the atom's separating space and its width stay
/// within `opts.width`, and starts a new line otherwise.
pub proof fn law_fill_separator_breaks_when_the_next_atom_overflows(
    opts: PrintOptions,
    st: PState,
    cmd: SCmd,
    stack: Seq<SCmd>,
    v: Seq<SDoc>,
    text: Seq<u8>,
    width: int,
    space: bool,
)
    requires
        cmd.doc == SDoc::Fill(v),
        !cmd.flat,
        cmd.fill % 2 == 1,
        0 <= cmd.fill,
        cmd.fill + 2 < v.len(),
        v[cmd.fill] == SDoc::Line,
        v[cmd.fill + 1] == (SDoc::Atom { text, width, space }),
        !text.contains(10u8),
        0 <= width,
        st.pending == 0,
        !st.at_start,
        0 <= st.col,
        st.col + 1 + width <= usize::MAX,
    ensures
        ({
            let (st2, stack2) = spec_step(opts, st, cmd, stack);
            let fits = st.col + (if space { 1int } else { 0int }) + width <= opts.width;
            let sep = stack2.last();
            &&& stack2.len() == stack.len() + 2
            &&& sep.doc == SDoc::Line
            &&& spec_step(opts, st2, sep, stack2.drop_last()).0 == (if fits {
                st2
            } else {
                spec_newline(st2, 1, cmd.indent, cmd.levels)
            })
        }),
{
    let stack1 = stack.push(SCmd { fill: cmd.fill + 1, ..cmd });
    let next = SCmd { flat: true, doc: v[cmd.fill + 1], fill: 0, ..cmd };
    let c1 = st.col + (if space { 1int } else { 0int });
    if st.col > opts.width {
        assert(spec_fits_step(opts, st.modes, st.col, false, seq![next], stack1, 0) == FitsStep::Done(false, true));
    } else {
        assert(spec_fits_step(opts, st.modes, st.col, false, seq![next], stack1, 0) == FitsStep::Next(
            c1 + width,
            false,
            seq![next].drop_last(),
            0,
        ));
        assert(seq![next].drop_last() =~= Seq::<SCmd>::empty());
        if c1 + width > opts.width {
            assert(spec_fits_step(opts, st.modes, c1 + width, false, Seq::<SCmd>::empty(), stack1, 0)
                == FitsStep::Done(false, true));
        } else {
            assert(spec_fits_step(opts, st.modes, c1 + width, false, Seq::<SCmd>::empty(), stack1, 0)
                == FitsStep::Done(true, true));
        }
        assert(spec_fits_from(opts, st.modes, c1 + width, false, Seq::<SCmd>::empty(), stack1, 0).0 == (c1
            + width <= opts.width));
    }
    let fits = c1 + width <= opts.width;
    assert(spec_fits(opts, st, next, stack1, 0) == spec_fits_from(opts, st.modes, st.col, false, seq![next], stack1, 0));
    assert(spec_fits(opts, st, next, stack1, 0).0 == fits);
    let (st2, stack2) = spec_step(opts, st, cmd, stack);
    assert(stack2 == stack1.push(SCmd { flat: fits, doc: v[cmd.fill], fill: 0, ..cmd }));
    assert(stack2.drop_last() =~= stack1);
}

} // verus!
