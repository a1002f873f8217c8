//! What the design is wired like, without synthesising it: every entity's ports and their
//! modes, gathered from the whole run, so a port map can be read as "these signals are driven,
//! those are read".
use vstd::prelude::*;

use crate::analysis::design::{
    add_name, add_names, assignments, first_child, first_of_kind, has_name, has_text, less_text,
    named_view, named_views, names, path, put_finding, reads, sort_findings, spec_assignments,
    spec_path, spec_reads, split_commas, starts_with_text, strings_view, text_less,
};
use crate::analysis::lint::{finding_view, finding_views, related_view, Finding, Related, SFinding};
use crate::text::{line_col, spec_line_col};
use std::path::PathBuf;
use crate::analysis::syntax::{
    all_tokens, children, find, nodes_of, spec_children, spec_find, spec_text_of, spec_tokens,
    text_of, tokens_of, Kind, Node, Token,
};
use crate::bytes::str_eq;
use crate::config::{entry_of, with_entry};
use crate::chars::{chars_of, lower_all, lowered, string_of, trim_range, trimmed as trimmed_chars};

verus! {

/// The ports of one entity, by what they do to a signal connected to them.
#[derive(Debug)]
pub struct Ports {
    /// Ports that drive their actual: `out`, `inout`, `buffer`.
    pub driving: Vec<String>,
    /// Ports that read their actual: `in`, `inout`.
    pub reading: Vec<String>,
    /// Declaration order, for positional association.
    pub order: Vec<String>,
    /// Whether this came from the entity itself rather than a component declaration repeating
    /// it. The entity is the authority when the two disagree, which is what `lint_750` reports.
    pub from_entity: bool,
}

impl Default for Ports {
    fn default() -> (r: Ports)
        ensures
            ports_view(r) == (SPorts {
                driving: Set::empty(),
                reading: Set::empty(),
                order: Seq::empty(),
                from_entity: false,
            }),
    {
        let r = Ports {
            driving: Vec::new(),
            reading: Vec::new(),
            order: Vec::new(),
            from_entity: false,
        };
        assert(names(r.driving@) =~= Set::<Seq<char>>::empty());
        assert(names(r.reading@) =~= Set::<Seq<char>>::empty());
        assert(strings_view(r.order@) =~= Seq::<Seq<char>>::empty());
        r
    }
}

/// The ports of an entity as plain values: the names of those that drive and of those that
/// read their actual, as sets, and every port in declaration order.
pub ghost struct SPorts {
    pub driving: Set<Seq<char>>,
    pub reading: Set<Seq<char>>,
    pub order: Seq<Seq<char>>,
    pub from_entity: bool,
}

pub open spec fn ports_view(p: Ports) -> SPorts {
    SPorts {
        driving: names(p.driving@),
        reading: names(p.reading@),
        order: strings_view(p.order@),
        from_entity: p.from_entity,
    }
}

/// A name as it is compared here: trimmed, and lower case because VHDL is case-insensitive.
pub open spec fn spec_trimmed(text: Seq<char>) -> Seq<char> {
    lowered(trimmed_chars(text))
}

/// A name as it is compared here: trimmed, and lower case because VHDL is case-insensitive.
pub fn trimmed(text: &str) -> (r: String)
    ensures
        r@ == spec_trimmed(text@),
{
    let v = chars_of(text);
    let (a, b) = trim_range(&v, 0, v.len());
    assert(v@.subrange(0, v@.len() as int) =~= v@);
    let low = lower_all(&v);
    assert(low@.subrange(a as int, b as int) =~= lowered(v@.subrange(a as int, b as int)));
    string_of(&low, a, b)
}


/// The ports `a, b : out std_logic` declares (its text without trivia, in lower case), added
/// to `p`: each name, trimmed, unless empty. A port drives if its mode is `out`, `inout` or
/// `buffer`; it reads if its mode is `in` or `inout`, or if no mode is written.
pub open spec fn declare_ports(p: SPorts, names_text: Seq<char>, rest: Seq<char>) -> SPorts {
    let driving = starts_with_text(rest, "out"@) || starts_with_text(rest, "inout"@)
        || starts_with_text(rest, "buffer"@);
    let reading = starts_with_text(rest, "inout"@) || (starts_with_text(rest, "in"@)
        && !starts_with_text(rest, "inout"@));
    add_port_names(p, split_commas(names_text), driving, reading)
}

/// `p` with each non-empty of `pieces`, trimmed, added as a port.
pub open spec fn add_port_names(p: SPorts, pieces: Seq<Seq<char>>, driving: bool, reading: bool) -> SPorts
    decreases pieces.len(),
{
    if pieces.len() == 0 {
        p
    } else {
        let before = add_port_names(p, pieces.drop_last(), driving, reading);
        let name = spec_trimmed(pieces.last());
        if name.len() == 0 {
            before
        } else {
            SPorts {
                driving: if driving {
                    before.driving.insert(name)
                } else {
                    before.driving
                },
                reading: if reading || !driving {
                    before.reading.insert(name)
                } else {
                    before.reading
                },
                order: before.order.push(name),
                from_entity: before.from_entity,
            }
        }
    }
}

/// `p` with the ports each of `declarations` declares: those whose text has a `:`.
pub open spec fn declarations_ports(p: SPorts, declarations: Seq<Node>) -> SPorts
    decreases declarations.len(),
{
    if declarations.len() == 0 {
        p
    } else {
        let before = declarations_ports(p, declarations.drop_last());
        let text = spec_text_of(declarations.last());
        match crate::chars::find_from(text, ":"@, 0) {
            Some(at) => declare_ports(before, text.take(at), text.skip(at + 1)),
            None => before,
        }
    }
}

/// `p` with the ports of the interface declarations of each of `clauses`.
pub open spec fn clauses_ports(p: SPorts, clauses: Seq<Node>) -> SPorts
    decreases clauses.len(),
{
    if clauses.len() == 0 {
        p
    } else {
        declarations_ports(
            clauses_ports(p, clauses.drop_last()),
            spec_find(clauses.last(), Kind::InterfaceObjectDeclaration),
        )
    }
}

/// The ports of one entity or component declaration.
pub open spec fn spec_ports_of(node: Node, from_entity: bool) -> SPorts {
    clauses_ports(
        SPorts { driving: Set::empty(), reading: Set::empty(), order: Seq::empty(), from_entity },
        spec_find(node, Kind::PortClause),
    )
}

/// The pieces of `v[from..to]` between commas, as `str::split(',')` gives them.
pub fn comma_pieces(v: &Vec<char>, from: usize, to: usize) -> (r: Vec<Vec<char>>)
    requires
        from <= to <= v@.len(),
    ensures
        r@.map_values(|p: Vec<char>| p@) == split_commas(v@.subrange(from as int, to as int)),
{
    let mut out: Vec<Vec<char>> = Vec::new();
    let mut cur: Vec<char> = Vec::new();
    let mut i = from;
    assert(v@.subrange(from as int, from as int) =~= Seq::<char>::empty());
    while i < to
        invariant
            from <= i <= to <= v@.len(),
            out@.map_values(|p: Vec<char>| p@).push(cur@) == split_commas(v@.subrange(from as int, i as int)),
        decreases to - i,
    {
        let ghost t = v@.subrange(from as int, i + 1);
        assert(t.drop_last() =~= v@.subrange(from as int, i as int));
        assert(t.last() == v@[i as int]);
        let ghost prev = out@.map_values(|p: Vec<char>| p@);
        if v[i] == ',' {
            let done = cur;
            cur = Vec::new();
            out.push(done);
            assert(out@.map_values(|p: Vec<char>| p@) =~= prev.push(done@));
            assert(out@.map_values(|p: Vec<char>| p@).push(cur@) =~= split_commas(t));
        } else {
            let ghost old_cur = cur@;
            cur.push(v[i]);
            assert(out@.map_values(|p: Vec<char>| p@).push(cur@) =~= prev.push(old_cur).update(prev.len() as int, old_cur.push(v@[i as int])));
        }
        i = i + 1;
    }
    let ghost prev = out@.map_values(|p: Vec<char>| p@);
    out.push(cur);
    assert(out@.map_values(|p: Vec<char>| p@) =~= prev.push(out@[out@.len() - 1]@));
    out
}

fn empty_ports(from_entity: bool) -> (r: Ports)
    ensures
        ports_view(r) == (SPorts {
            driving: Set::empty(),
            reading: Set::empty(),
            order: Seq::empty(),
            from_entity,
        }),
{
    let mut r = Ports::default();
    r.from_entity = from_entity;
    r
}

/// Adds the ports one interface declaration's text declares to `p`.
fn declare_into(p: &mut Ports, text: &Vec<char>)
    ensures
        ports_view(*final(p)) == match crate::chars::find_from(text@, ":"@, 0) {
            Some(at) => declare_ports(ports_view(*old(p)), text@.take(at), text@.skip(at + 1)),
            None => ports_view(*old(p)),
        },
{
    let colon = vec![':'];
    assert(colon@ =~= ":"@) by {
        reveal_strlit(":");
    }
    let at = match crate::chars::find_seq(text, &colon) {
        Some(at) => at,
        None => return,
    };
    proof {
        crate::analysis::width::lemma_found_occurs(text@, colon@, 0);
        assert(colon@.len() == 1);
        assert(at + 1 <= text@.len());
    }
    let n = text.len();
    let rest = string_of(text, at + 1, n);
    let rest_chars = chars_of(rest.as_str());
    assert(rest_chars@ =~= text@.skip(at + 1));
    let out_mode = crate::analysis::design::text_starts_with(&rest_chars, "out");
    let inout_mode = crate::analysis::design::text_starts_with(&rest_chars, "inout");
    let buffer_mode = crate::analysis::design::text_starts_with(&rest_chars, "buffer");
    let in_mode = crate::analysis::design::text_starts_with(&rest_chars, "in");
    let driving = out_mode || inout_mode || buffer_mode;
    let reading = inout_mode || (in_mode && !inout_mode);
    let pieces = comma_pieces(text, 0, at);
    assert(text@.subrange(0, at as int) =~= text@.take(at as int));
    let ghost all = pieces@.map_values(|q: Vec<char>| q@);
    let ghost start = ports_view(*p);
    let mut k: usize = 0;
    assert(all.take(0) =~= Seq::<Seq<char>>::empty());
    while k < pieces.len()
        invariant
            0 <= k <= pieces@.len(),
            all == pieces@.map_values(|q: Vec<char>| q@),
            ports_view(*p) == add_port_names(start, all.take(k as int), driving, reading),
        decreases pieces@.len() - k,
    {
        let piece = string_of(&pieces[k], 0, pieces[k].len());
        assert(pieces@[k as int]@.subrange(0, pieces@[k as int]@.len() as int) =~= all[k as int]);
        let name = trimmed(piece.as_str());
        assert(all.take(k + 1).drop_last() =~= all.take(k as int));
        assert(all.take(k + 1).last() == all[k as int]);
        if name.as_str().unicode_len() > 0 {
            let ghost before = ports_view(*p);
            if driving {
                add_name(&mut p.driving, name.clone());
            }
            if reading || !driving {
                add_name(&mut p.reading, name.clone());
            }
            let ghost order_before = p.order@;
            p.order.push(name);
            assert(strings_view(p.order@) =~= strings_view(order_before).push(spec_trimmed(all[k as int])));
        }
        k = k + 1;
    }
    assert(all.take(k as int) =~= all);
}

/// The ports of one entity or component declaration.
pub fn ports_of(node: &Node, from_entity: bool) -> (r: Ports)
    ensures
        ports_view(r) == spec_ports_of(*node, from_entity),
{
    let mut ports = empty_ports(from_entity);
    let clauses = find(node, Kind::PortClause);
    let ghost cs = nodes_of(clauses@);
    let ghost base = ports_view(ports);
    let mut i: usize = 0;
    while i < clauses.len()
        invariant
            0 <= i <= clauses@.len(),
            cs == nodes_of(clauses@),
            ports_view(ports) == clauses_ports(base, cs.take(i as int)),
        decreases clauses@.len() - i,
    {
        let declarations = find(clauses[i], Kind::InterfaceObjectDeclaration);
        let ghost ds = nodes_of(declarations@);
        let ghost start = ports_view(ports);
        let mut j: usize = 0;
        while j < declarations.len()
            invariant
                0 <= j <= declarations@.len(),
                ds == nodes_of(declarations@),
                ports_view(ports) == declarations_ports(start, ds.take(j as int)),
            decreases declarations@.len() - j,
        {
            let text = text_of(declarations[j]);
            declare_into(&mut ports, &text);
            assert(ds.take(j + 1).drop_last() =~= ds.take(j as int));
            j = j + 1;
        }
        assert(ds.take(j as int) =~= ds);
        assert(cs.take(i + 1).drop_last() =~= cs.take(i as int));
        i = i + 1;
    }
    assert(cs.take(i as int) =~= cs);
    ports
}


/// Every entity the run can see, by lower-case name: each name once.
pub type Entities = Vec<(String, Ports)>;

pub open spec fn entities_view(m: Seq<(String, Ports)>) -> Seq<(Seq<char>, SPorts)> {
    m.map_values(|e: (String, Ports)| (e.0@, ports_view(e.1)))
}

/// Where the entry of `m` for `name` is, if it has one.
pub fn entity_index(m: &Entities, name: &str) -> (r: Option<usize>)
    ensures
        match r {
            Some(i) => i < m@.len() && entry_of(entities_view(m@), name@) == Some(
                entities_view(m@)[i as int].1,
            ) && entities_view(m@)[i as int].0 == name@,
            None => entry_of(entities_view(m@), name@) is None,
        },
{
    let ghost o = entities_view(m@);
    let mut i: usize = 0;
    assert(o.skip(0) =~= o);
    while i < m.len()
        invariant
            0 <= i <= m@.len(),
            o == entities_view(m@),
            entry_of(o, name@) == entry_of(o.skip(i as int), name@),
        decreases m@.len() - i,
    {
        assert(o.skip(i as int)[0] == o[i as int]);
        if str_eq(m[i].0.as_str(), name) {
            return Some(i);
        }
        assert(o.skip(i as int).skip(1) =~= o.skip(i + 1));
        i = i + 1;
    }
    None
}

/// Gives `name` the ports `ports` in `m`.
fn put_entity(m: &mut Entities, name: String, ports: Ports)
    ensures
        entities_view(final(m)@) == with_entry(entities_view(old(m)@), name@, ports_view(ports)),
{
    let ghost o = entities_view(m@);
    let ghost v = ports_view(ports);
    let mut i: usize = 0;
    assert(o.skip(0) =~= o);
    assert(o.take(0) + with_entry(o.skip(0), name@, v) =~= with_entry(o, name@, v));
    while i < m.len()
        invariant
            0 <= i <= m@.len(),
            o == entities_view(m@),
            o == entities_view(old(m)@),
            v == ports_view(ports),
            o.take(i as int) + with_entry(o.skip(i as int), name@, v) == with_entry(o, name@, v),
        decreases m@.len() - i,
    {
        assert(o.skip(i as int)[0] == o[i as int]);
        if str_eq(m[i].0.as_str(), name.as_str()) {
            m.set(i, (name, ports));
            proof {
                assert(with_entry(o.skip(i as int), name@, v) == o.skip(i as int).update(0, (name@, v)));
                assert(entities_view(m@) =~= o.update(i as int, (name@, v)));
                assert(o.update(i as int, (name@, v)) =~= o.take(i as int) + o.skip(i as int).update(0, (name@, v)));
            }
            return;
        }
        proof {
            assert(o.skip(i as int).skip(1) =~= o.skip(i + 1));
            assert(o.take(i + 1) =~= o.take(i as int) + seq![o[i as int]]);
        }
        i = i + 1;
    }
    m.push((name, ports));
    assert(o.skip(i as int) =~= Seq::<(Seq<char>, SPorts)>::empty());
    assert(o.take(i as int) =~= o);
    assert(entities_view(m@) =~= o + seq![(name@, v)]);
}

/// The first of `ts`, in lower case, that is not `skip` nor `skip2`: the name of a
/// declaration after its keyword.
pub open spec fn declared_name(ts: Seq<Token>, skip: Seq<char>, skip2: Seq<char>) -> Option<Seq<char>>
    decreases ts.len(),
{
    if ts.len() == 0 {
        None
    } else {
        let t = lowered(ts[0].text@);
        if t != skip && t != skip2 {
            Some(t)
        } else {
            declared_name(ts.skip(1), skip, skip2)
        }
    }
}

/// The first of the tokens of `n`, in lower case, that is not `skip` nor `skip2`.
pub fn name_after(n: &Node, skip: &str, skip2: &str) -> (r: Option<String>)
    ensures
        match r {
            Some(s) => declared_name(spec_tokens(*n), skip@, skip2@) == Some(s@),
            None => declared_name(spec_tokens(*n), skip@, skip2@) is None,
        },
{
    let toks = all_tokens(n);
    let ghost ts = tokens_of(toks@);
    let mut i: usize = 0;
    assert(ts.skip(0) =~= ts);
    while i < toks.len()
        invariant
            0 <= i <= toks@.len(),
            ts == tokens_of(toks@),
            ts == spec_tokens(*n),
            declared_name(ts, skip@, skip2@) == declared_name(ts.skip(i as int), skip@, skip2@),
        decreases toks@.len() - i,
    {
        assert(ts.skip(i as int)[0] == *toks@[i as int]);
        let low = crate::analysis::syntax::lower_text(toks[i]);
        let t = string_of(&low, 0, low.len());
        assert(low@.subrange(0, low@.len() as int) =~= low@);
        if !str_eq(t.as_str(), skip) && !str_eq(t.as_str(), skip2) {
            return Some(t);
        }
        assert(ts.skip(i as int).skip(1) =~= ts.skip(i + 1));
        i = i + 1;
    }
    None
}

/// `m` with the entities (or components) `declarations` declare: a name not yet known is
/// added, and an entity replaces a component declaration of its name, the entity being the
/// authority on what an instance really connects to.
pub open spec fn add_declarations(m: Seq<(Seq<char>, SPorts)>, declarations: Seq<Node>, from_entity: bool) -> Seq<
    (Seq<char>, SPorts),
>
    decreases declarations.len(),
{
    if declarations.len() == 0 {
        m
    } else {
        let before = add_declarations(m, declarations.drop_last(), from_entity);
        let d = declarations.last();
        match declared_name(spec_tokens(d), "entity"@, "component"@) {
            None => before,
            Some(name) => match entry_of(before, name) {
                None => with_entry(before, name, spec_ports_of(d, from_entity)),
                Some(known) => if from_entity && !known.from_entity {
                    with_entry(before, name, spec_ports_of(d, from_entity))
                } else {
                    before
                },
            },
        }
    }
}

/// `m` with the entity and component declarations of one file, its syntax tree `root`: the
/// ports and their modes, which is all a port map needs.
pub open spec fn spec_add_entities(m: Seq<(Seq<char>, SPorts)>, root: Node) -> Seq<(Seq<char>, SPorts)> {
    add_declarations(
        add_declarations(m, spec_find(root, Kind::EntityDeclaration), true),
        spec_find(root, Kind::ComponentDeclaration),
        false,
    )
}

fn add_declarations_into(m: &mut Entities, root: &Node, kind: Kind, from_entity: bool)
    ensures
        entities_view(final(m)@) == add_declarations(entities_view(old(m)@), spec_find(*root, kind), from_entity),
{
    let declarations = find(root, kind);
    let ghost ds = nodes_of(declarations@);
    let ghost start = entities_view(m@);
    let mut i: usize = 0;
    while i < declarations.len()
        invariant
            0 <= i <= declarations@.len(),
            ds == nodes_of(declarations@),
            ds == spec_find(*root, kind),
            entities_view(m@) == add_declarations(start, ds.take(i as int), from_entity),
        decreases declarations@.len() - i,
    {
        let d = declarations[i];
        assert(ds.take(i + 1).drop_last() =~= ds.take(i as int));
        assert(ds.take(i + 1).last() == *d);
        match name_after(d, "entity", "component") {
            None => {},
            Some(name) => {
                match entity_index(m, name.as_str()) {
                    None => {
                        let ports = ports_of(d, from_entity);
                        put_entity(m, name, ports);
                    },
                    Some(k) => {
                        if from_entity && !m[k].1.from_entity {
                            let ports = ports_of(d, from_entity);
                            put_entity(m, name, ports);
                        }
                    },
                }
            },
        }
        i = i + 1;
    }
    assert(ds.take(i as int) =~= ds);
}

/// Adds the entity and component declarations of one file, its syntax tree `root`, to `m`:
/// a name not yet known is added, and an entity replaces a component declaration of its name.
pub fn add_entities(m: &mut Entities, root: &Node)
    ensures
        entities_view(final(m)@) == spec_add_entities(entities_view(old(m)@), *root),
{
    add_declarations_into(m, root, Kind::EntityDeclaration, true);
    add_declarations_into(m, root, Kind::ComponentDeclaration, false);
}


/// What `char::is_alphanumeric` says of `c`: alphabetic or numeric, in Unicode's terms.
pub uninterp spec fn alphanumeric(c: char) -> bool;

/// `char::is_alphanumeric`; its result is named, not stated.
#[verifier::external_body]
fn is_alphanumeric(c: char) -> (r: bool)
    ensures
        r == alphanumeric(c),
{
    c.is_alphanumeric()
}

/// `t` split at every `.` and every space, as `str::split` gives the pieces.
pub open spec fn split_units(t: Seq<char>) -> Seq<Seq<char>>
    decreases t.len(),
{
    if t.len() == 0 {
        seq![Seq::empty()]
    } else {
        let rest = split_units(t.drop_last());
        if t.last() == '.' || t.last() == ' ' {
            rest.push(Seq::empty())
        } else {
            rest.update(rest.len() - 1, rest.last().push(t.last()))
        }
    }
}

/// `t` up to its first `(`.
pub open spec fn before_paren(t: Seq<char>) -> Seq<char> {
    match crate::chars::find_from(t, "("@, 0) {
        Some(k) => t.take(k),
        None => t,
    }
}

/// Whether a piece of an instantiated unit's name can be the entity's name: not empty, not a
/// keyword, and made of letters, digits and `_`.
pub open spec fn unit_name_ok(p: Seq<char>) -> bool {
    &&& p.len() > 0
    &&& p != "entity"@ && p != "component"@ && p != "configuration"@
    &&& forall|k: int| 0 <= k < p.len() ==> alphanumeric(#[trigger] p[k]) || p[k] == '_'
}

/// The last of `parts`, trimmed and in lower case, that can be an entity's name.
pub open spec fn last_unit(parts: Seq<Seq<char>>) -> Option<Seq<char>>
    decreases parts.len(),
{
    if parts.len() == 0 {
        None
    } else if unit_name_ok(spec_trimmed(parts.last())) {
        Some(spec_trimmed(parts.last()))
    } else {
        last_unit(parts.drop_last())
    }
}

/// The entity an instantiation statement instantiates: in `entity work.fifo(rtl)`,
/// `component fifo` or a bare name, the last name before any architecture in parentheses.
pub open spec fn spec_entity_of(statement: Node) -> Option<Seq<char>> {
    match first_of_kind(spec_children(statement), Kind::InstantiatedEntity) {
        Some(u) => last_unit(split_units(before_paren(spec_text_of(u)))),
        None => None,
    }
}

/// Whether every character of `v` is alphanumeric or `_`.
fn all_name_chars(v: &Vec<char>) -> (r: bool)
    ensures
        r == forall|k: int| 0 <= k < v@.len() ==> alphanumeric(#[trigger] v@[k]) || v@[k] == '_',
{
    let mut i: usize = 0;
    while i < v.len()
        invariant
            0 <= i <= v@.len(),
            forall|k: int| 0 <= k < i ==> alphanumeric(#[trigger] v@[k]) || v@[k] == '_',
        decreases v@.len() - i,
    {
        if !(is_alphanumeric(v[i]) || v[i] == '_') {
            return false;
        }
        i = i + 1;
    }
    true
}

/// The entity an instantiation statement instantiates, if its name can be read.
pub fn entity_of(statement: &Node) -> (r: Option<String>)
    ensures
        match r {
            Some(s) => spec_entity_of(*statement) == Some(s@),
            None => spec_entity_of(*statement) is None,
        },
{
    let kids = children(statement);
    let unit = match first_child(&kids, Kind::InstantiatedEntity) {
        Some(u) => u,
        None => return None,
    };
    let text = text_of(unit);
    let paren = vec!['('];
    assert(paren@ =~= "("@) by {
        reveal_strlit("(");
    }
    let end = match crate::chars::find_seq(&text, &paren) {
        Some(k) => k,
        None => text.len(),
    };
    assert(end <= text@.len()) by {
        crate::analysis::width::lemma_found_occurs(text@, paren@, 0);
    }
    assert(text@.subrange(0, end as int) =~= before_paren(text@));
    let mut parts: Vec<Vec<char>> = Vec::new();
    let mut cur: Vec<char> = Vec::new();
    let mut i: usize = 0;
    assert(text@.subrange(0, 0) =~= Seq::<char>::empty());
    while i < end
        invariant
            0 <= i <= end <= text@.len(),
            parts@.map_values(|p: Vec<char>| p@).push(cur@) == split_units(text@.subrange(0, i as int)),
        decreases end - i,
    {
        let ghost t = text@.subrange(0, i + 1);
        assert(t.drop_last() =~= text@.subrange(0, i as int));
        assert(t.last() == text@[i as int]);
        let ghost prev = parts@.map_values(|p: Vec<char>| p@);
        if text[i] == '.' || text[i] == ' ' {
            let done = cur;
            cur = Vec::new();
            parts.push(done);
            assert(parts@.map_values(|p: Vec<char>| p@) =~= prev.push(done@));
            assert(parts@.map_values(|p: Vec<char>| p@).push(cur@) =~= split_units(t));
        } else {
            let ghost old_cur = cur@;
            cur.push(text[i]);
            assert(parts@.map_values(|p: Vec<char>| p@).push(cur@) =~= prev.push(old_cur).update(prev.len() as int, old_cur.push(text@[i as int])));
        }
        i = i + 1;
    }
    let ghost prev = parts@.map_values(|p: Vec<char>| p@);
    parts.push(cur);
    let ghost all = parts@.map_values(|p: Vec<char>| p@);
    assert(all =~= prev.push(parts@[parts@.len() - 1]@));
    assert(all == split_units(before_paren(text@)));
    let mut k: usize = parts.len();
    assert(all.take(k as int) =~= all);
    while k > 0
        invariant
            0 <= k <= parts@.len(),
            all == parts@.map_values(|p: Vec<char>| p@),
            spec_entity_of(*statement) == last_unit(all),
            last_unit(all) == last_unit(all.take(k as int)),
        decreases k,
    {
        let piece = string_of(&parts[k - 1], 0, parts[k - 1].len());
        assert(parts@[k - 1]@.subrange(0, parts@[k - 1]@.len() as int) =~= all[k - 1]);
        let name = trimmed(piece.as_str());
        let v = chars_of(name.as_str());
        assert(all.take(k as int).last() == all[k - 1]);
        assert(all.take(k as int).drop_last() =~= all.take(k - 1));
        if v.len() > 0 && !str_eq(name.as_str(), "entity") && !str_eq(name.as_str(), "component")
            && !str_eq(name.as_str(), "configuration") && all_name_chars(&v) {
            return Some(name);
        }
        k = k - 1;
    }
    None
}

/// `t` without every trailing `=>`.
pub open spec fn strip_arrows(t: Seq<char>) -> Seq<char>
    decreases t.len(),
{
    if t.len() >= 2 && t[t.len() - 2] == '=' && t[t.len() - 1] == '>' {
        strip_arrows(t.take(t.len() - 2))
    } else {
        t
    }
}

/// The texts of those of `kids` that are not the formal, one after the other.
pub open spec fn actual_text(kids: Seq<Node>) -> Seq<char>
    decreases kids.len(),
{
    if kids.len() == 0 {
        Seq::empty()
    } else {
        actual_text(kids.drop_last()) + if kids.last().kind != Kind::Formal {
            spec_text_of(kids.last())
        } else {
            Seq::empty()
        }
    }
}

/// One association of a port map: the formal (the `Formal` node, which carries the `=>`
/// with it, without it; `None` for a positional association) and the actual.
pub open spec fn spec_association(a: Node) -> (Option<Seq<char>>, Seq<char>) {
    (
        match first_of_kind(spec_children(a), Kind::Formal) {
            Some(f) => Some(spec_trimmed(strip_arrows(spec_text_of(f)))),
            None => None,
        },
        spec_trimmed(actual_text(spec_children(a))),
    )
}

/// The associations of the port maps `maps`, one after the other.
pub open spec fn map_associations(maps: Seq<Node>) -> Seq<(Option<Seq<char>>, Seq<char>)>
    decreases maps.len(),
{
    if maps.len() == 0 {
        Seq::empty()
    } else {
        map_associations(maps.drop_last()) + spec_find(maps.last(), Kind::AssociationElement).map_values(
            |a: Node| spec_association(a),
        )
    }
}

/// One instantiation, as plain values: what it instantiates (empty when that cannot be read:
/// an unknown entity, whose instance drives everything it touches) and its associations.
pub open spec fn spec_instance(statement: Node) -> (Seq<char>, Seq<(Option<Seq<char>>, Seq<char>)>) {
    (
        match spec_entity_of(statement) {
            Some(e) => e,
            None => Seq::empty(),
        },
        map_associations(spec_find(statement, Kind::PortMapAspect)),
    )
}

/// The instantiations in an architecture.
pub open spec fn spec_instantiations(architecture: Node) -> Seq<(Seq<char>, Seq<(Option<Seq<char>>, Seq<char>)>)> {
    spec_find(architecture, Kind::ComponentInstantiationStatement).map_values(|s: Node| spec_instance(s))
}

/// One instantiation: what it instantiates, and what is connected to it.
pub struct Instance {
    pub entity: String,
    /// `(formal, actual)`; the formal is `None` for a positional association.
    pub associations: Vec<(Option<String>, String)>,
}

pub open spec fn association_view(a: (Option<String>, String)) -> (Option<Seq<char>>, Seq<char>) {
    (
        match a.0 {
            Some(f) => Some(f@),
            None => None,
        },
        a.1@,
    )
}

pub open spec fn instance_view(i: Instance) -> (Seq<char>, Seq<(Option<Seq<char>>, Seq<char>)>) {
    (i.entity@, i.associations@.map_values(|a: (Option<String>, String)| association_view(a)))
}

fn strip_arrows_len(v: &Vec<char>) -> (r: usize)
    ensures
        r <= v@.len(),
        v@.take(r as int) == strip_arrows(v@),
{
    let mut n = v.len();
    assert(v@.take(n as int) =~= v@);
    while n >= 2 && v[n - 2] == '=' && v[n - 1] == '>'
        invariant
            n <= v@.len(),
            strip_arrows(v@) == strip_arrows(v@.take(n as int)),
        decreases n,
    {
        assert(v@.take(n as int).take(n - 2) =~= v@.take(n - 2));
        n = n - 2;
    }
    n
}

/// One association of a port map.
fn association(a: &Node) -> (r: (Option<String>, String))
    ensures
        association_view(r) == spec_association(*a),
{
    let kids = children(a);
    let formal = match first_child(&kids, Kind::Formal) {
        Some(f) => {
            let t = text_of(f);
            let n = strip_arrows_len(&t);
            let s = string_of(&t, 0, n);
            assert(t@.subrange(0, n as int) =~= t@.take(n as int));
            Some(trimmed(s.as_str()))
        },
        None => None,
    };
    let mut actual: Vec<char> = Vec::new();
    let ghost ks = nodes_of(kids@);
    let mut i: usize = 0;
    while i < kids.len()
        invariant
            0 <= i <= kids@.len(),
            ks == nodes_of(kids@),
            actual@ == actual_text(ks.take(i as int)),
        decreases kids@.len() - i,
    {
        assert(ks.take(i + 1).drop_last() =~= ks.take(i as int));
        assert(ks.take(i + 1).last() == *kids@[i as int]);
        if kids[i].kind != Kind::Formal {
            let t = text_of(kids[i]);
            let ghost before = actual@;
            let mut j: usize = 0;
            while j < t.len()
                invariant
                    0 <= j <= t@.len(),
                    actual@ == before + t@.take(j as int),
                decreases t@.len() - j,
            {
                actual.push(t[j]);
                assert(actual@ =~= before + t@.take(j + 1));
                j = j + 1;
            }
            assert(t@.take(t@.len() as int) =~= t@);
        } else {
            assert(actual@ =~= actual_text(ks.take(i + 1)));
        }
        i = i + 1;
    }
    assert(ks.take(i as int) =~= ks);
    let s = string_of(&actual, 0, actual.len());
    assert(actual@.subrange(0, actual@.len() as int) =~= actual@);
    (formal, trimmed(s.as_str()))
}

/// The instantiations in an architecture.
pub fn instantiations(architecture: &Node) -> (r: Vec<Instance>)
    ensures
        r@.map_values(|i: Instance| instance_view(i)) == spec_instantiations(*architecture),
{
    let statements = find(architecture, Kind::ComponentInstantiationStatement);
    let ghost ss = nodes_of(statements@);
    let mut out: Vec<Instance> = Vec::new();
    let mut i: usize = 0;
    while i < statements.len()
        invariant
            0 <= i <= statements@.len(),
            ss == nodes_of(statements@),
            out@.map_values(|i: Instance| instance_view(i)) == ss.take(i as int).map_values(|s: Node| spec_instance(s)),
        decreases statements@.len() - i,
    {
        let st = statements[i];
        let entity = match entity_of(st) {
            Some(e) => e,
            None => String::new(),
        };
        let mut associations: Vec<(Option<String>, String)> = Vec::new();
        let maps = find(st, Kind::PortMapAspect);
        let ghost ms = nodes_of(maps@);
        let mut m: usize = 0;
        while m < maps.len()
            invariant
                0 <= m <= maps@.len(),
                ms == nodes_of(maps@),
                associations@.map_values(|a: (Option<String>, String)| association_view(a)) == map_associations(ms.take(m as int)),
            decreases maps@.len() - m,
        {
            let elements = find(maps[m], Kind::AssociationElement);
            let ghost es = nodes_of(elements@);
            let ghost before = associations@.map_values(|a: (Option<String>, String)| association_view(a));
            let mut e: usize = 0;
            while e < elements.len()
                invariant
                    0 <= e <= elements@.len(),
                    es == nodes_of(elements@),
                    associations@.map_values(|a: (Option<String>, String)| association_view(a)) == before + es.take(e as int).map_values(|a: Node| spec_association(a)),
                decreases elements@.len() - e,
            {
                let ghost prev = associations@;
                let a = association(elements[e]);
                associations.push(a);
                proof {
                    assert(associations@ == prev.push(a));
                    assert(es.take(e + 1).map_values(|a: Node| spec_association(a)) =~= es.take(e as int).map_values(|a: Node| spec_association(a)).push(spec_association(es[e as int])));
                    assert(associations@.map_values(|a: (Option<String>, String)| association_view(a)) =~= prev.map_values(|a: (Option<String>, String)| association_view(a)).push(association_view(a)));
                }
                e = e + 1;
            }
            assert(es.take(e as int) =~= es);
            assert(ms.take(m + 1).drop_last() =~= ms.take(m as int));
            m = m + 1;
        }
        assert(ms.take(m as int) =~= ms);
        let ghost prev = out@;
        let inst = Instance { entity, associations };
        proof {
            assert(instance_view(inst) == spec_instance(ss[i as int])) by {
                reveal_strlit("");
            }
        }
        out.push(inst);
        proof {
            assert(out@ == prev.push(inst));
            assert(ss.take(i + 1).map_values(|s: Node| spec_instance(s)) =~= ss.take(i as int).map_values(|s: Node| spec_instance(s)).push(spec_instance(ss[i as int])));
            assert(out@.map_values(|i: Instance| instance_view(i)) =~= prev.map_values(|i: Instance| instance_view(i)).push(instance_view(inst)));
        }
        i = i + 1;
    }
    assert(ss.take(i as int) =~= ss);
    out
}


/// `m`, kept in order of name, with `name` at `offset` (replacing an entry for it, as
/// `BTreeMap::insert` does).
pub open spec fn put_sorted(m: Seq<(Seq<char>, usize)>, name: Seq<char>, offset: usize) -> Seq<
    (Seq<char>, usize),
>
    decreases m.len(),
{
    if m.len() == 0 {
        seq![(name, offset)]
    } else if m[0].0 == name {
        m.update(0, (name, offset))
    } else if text_less(name, m[0].0) {
        seq![(name, offset)] + m
    } else {
        seq![m[0]] + put_sorted(m.skip(1), name, offset)
    }
}

/// Gives `name` the offset `offset` in `m`, kept in order of name.
fn put_sorted_into(m: &mut Vec<(String, usize)>, name: String, offset: usize)
    ensures
        named_views(final(m)@) == put_sorted(named_views(old(m)@), name@, offset),
{
    let ghost whole = named_views(m@);
    let mut i: usize = 0;
    assert(whole.skip(0) =~= whole);
    assert(whole.take(0) + put_sorted(whole.skip(0), name@, offset) =~= put_sorted(whole, name@, offset));
    while i < m.len()
        invariant
            0 <= i <= m@.len(),
            named_views(m@) == whole,
            whole == named_views(old(m)@),
            put_sorted(whole, name@, offset) == whole.take(i as int) + put_sorted(whole.skip(i as int), name@, offset),
        decreases m@.len() - i,
    {
        assert(whole.skip(i as int)[0] == named_view(m@[i as int]));
        if str_eq(m[i].0.as_str(), name.as_str()) {
            assert(put_sorted(whole.skip(i as int), name@, offset) == whole.skip(i as int).update(0, (name@, offset)));
            let ghost before = m@;
            m.set(i, (name, offset));
            assert(named_views(m@) =~= whole.take(i as int) + whole.skip(i as int).update(0, (name@, offset)));
            return;
        }
        if less_text(name.as_str(), m[i].0.as_str()) {
            assert(put_sorted(whole.skip(i as int), name@, offset) == seq![(name@, offset)] + whole.skip(i as int));
            let ghost before = m@;
            m.insert(i, (name, offset));
            assert(m@ == before.insert(i as int, (name, offset)));
            assert(named_views(m@) =~= whole.take(i as int) + (seq![(name@, offset)] + whole.skip(i as int)));
            return;
        }
        assert(whole.skip(i as int).skip(1) =~= whole.skip(i + 1));
        assert(whole.take(i + 1) =~= whole.take(i as int) + seq![whole.skip(i as int)[0]]);
        i = i + 1;
    }
    m.push((name, offset));
    assert(whole.skip(i as int) =~= Seq::<(Seq<char>, usize)>::empty());
    assert(whole.take(i as int) =~= whole);
    assert(named_views(m@) =~= whole + seq![(name@, offset)]);
}

/// `m` with the signals the tokens `ts` of a signal declaration name, up to its `:`, each at
/// its offset.
pub open spec fn declare_signals(m: Seq<(Seq<char>, usize)>, ts: Seq<Token>) -> Seq<(Seq<char>, usize)>
    decreases ts.len(),
{
    if ts.len() == 0 {
        m
    } else {
        let t = lowered(ts[0].text@);
        if t == ":"@ {
            m
        } else if t != "signal"@ && t != ","@ {
            declare_signals(put_sorted(m, t, ts[0].offset), ts.skip(1))
        } else {
            declare_signals(m, ts.skip(1))
        }
    }
}

/// `m` with the signals `declarations` declare, those with an initial value left out: a
/// signal that is tied rather than driven is a decision, not a missing driver.
pub open spec fn signals_of(m: Seq<(Seq<char>, usize)>, declarations: Seq<Node>) -> Seq<(Seq<char>, usize)>
    decreases declarations.len(),
{
    if declarations.len() == 0 {
        m
    } else {
        let before = signals_of(m, declarations.drop_last());
        if has_text(spec_text_of(declarations.last()), ":="@) {
            before
        } else {
            declare_signals(before, spec_tokens(declarations.last()))
        }
    }
}

/// `m` with the signals the declarative parts `parts` declare.
pub open spec fn parts_signals(m: Seq<(Seq<char>, usize)>, parts: Seq<Node>) -> Seq<(Seq<char>, usize)>
    decreases parts.len(),
{
    if parts.len() == 0 {
        m
    } else {
        signals_of(parts_signals(m, parts.drop_last()), spec_find(parts.last(), Kind::SignalDeclaration))
    }
}

/// The signals an architecture declares without an initial value, in order of name, each at
/// the offset of its last mention in a declaration.
pub open spec fn declared_signals(architecture: Node) -> Seq<(Seq<char>, usize)> {
    parts_signals(Seq::empty(), spec_find(architecture, Kind::ArchitectureDeclarativePart))
}

/// The objects the targets of `named` belong to.
pub open spec fn target_bases(named: Seq<(Seq<char>, usize)>) -> Set<Seq<char>>
    decreases named.len(),
{
    if named.len() == 0 {
        Set::empty()
    } else {
        target_bases(named.drop_last()).insert(spec_path(named.last().0).0)
    }
}

/// The names of `named`.
pub open spec fn read_set(named: Seq<(Seq<char>, usize)>) -> Set<Seq<char>>
    decreases named.len(),
{
    if named.len() == 0 {
        Set::empty()
    } else {
        read_set(named.drop_last()).insert(named.last().0)
    }
}

/// What `calls` drive: a procedure drives whatever it takes as an `out` or `inout` parameter,
/// and its signature is not seen here, so every name a call mentions counts as driven.
pub open spec fn calls_driven(calls: Seq<Node>) -> Set<Seq<char>>
    decreases calls.len(),
{
    if calls.len() == 0 {
        Set::empty()
    } else {
        calls_driven(calls.drop_last()).union(read_set(spec_reads(calls.last()))).union(
            target_bases(spec_assignments(calls.last())),
        )
    }
}

/// The port an association connects: its formal, or for a positional association the port
/// declared at its place (an empty name past the last).
pub open spec fn port_for(formal: Option<Seq<char>>, order: Seq<Seq<char>>, at: int) -> Seq<char> {
    match formal {
        Some(n) => n,
        None => if 0 <= at < order.len() {
            order[at]
        } else {
            Seq::empty()
        },
    }
}

/// What the first `k` associations of an instance of an entity with the ports `ports` drive
/// and read: the actual of a port that drives is driven, of one that reads is read, and of a
/// formal the entity does not have is driven (the port map is wrong, which another rule
/// reports). Of an entity the run cannot see, every actual counts as driven.
pub open spec fn wiring(
    associations: Seq<(Option<Seq<char>>, Seq<char>)>,
    ports: Option<SPorts>,
    k: int,
) -> (Set<Seq<char>>, Set<Seq<char>>)
    decreases k,
{
    if k <= 0 || k > associations.len() {
        (Set::empty(), Set::empty())
    } else {
        let (d, r) = wiring(associations, ports, k - 1);
        let base = spec_path(associations[k - 1].1).0;
        match ports {
            None => (d.insert(base), r),
            Some(p) => {
                let port = port_for(associations[k - 1].0, p.order, k - 1);
                (
                    if p.driving.contains(port) || !p.reading.contains(port) {
                        d.insert(base)
                    } else {
                        d
                    },
                    if p.reading.contains(port) {
                        r.insert(base)
                    } else {
                        r
                    },
                )
            },
        }
    }
}

/// What the instances `instances` drive and read.
pub open spec fn instances_wiring(
    instances: Seq<(Seq<char>, Seq<(Option<Seq<char>>, Seq<char>)>)>,
    entities: Seq<(Seq<char>, SPorts)>,
) -> (Set<Seq<char>>, Set<Seq<char>>)
    decreases instances.len(),
{
    if instances.len() == 0 {
        (Set::empty(), Set::empty())
    } else {
        let (d, r) = instances_wiring(instances.drop_last(), entities);
        let inst = instances.last();
        let (d2, r2) = wiring(inst.1, entry_of(entities, inst.0), inst.1.len() as int);
        (d.union(d2), r.union(r2))
    }
}

/// What something in an architecture drives.
pub open spec fn driven_in(architecture: Node, entities: Seq<(Seq<char>, SPorts)>) -> Set<Seq<char>> {
    target_bases(spec_assignments(architecture)).union(
        calls_driven(spec_find(architecture, Kind::ProcedureCallStatement)),
    ).union(
        calls_driven(
            spec_find(architecture, Kind::ConcurrentProcedureCallOrComponentInstantiationStatement),
        ),
    ).union(instances_wiring(spec_instantiations(architecture), entities).0)
}

/// What something in an architecture reads.
pub open spec fn read_in(architecture: Node, entities: Seq<(Seq<char>, SPorts)>) -> Set<Seq<char>> {
    read_set(spec_reads(architecture)).union(
        instances_wiring(spec_instantiations(architecture), entities).1,
    )
}

/// `Signal 'name' is read but nothing drives it`.
pub open spec fn undriven_message(name: Seq<char>) -> Seq<char> {
    "Signal '"@ + name + "' is read but nothing drives it"@
}

/// What `lint_730` reports of the signals `declared`: each that something reads and nothing
/// drives, at its declaration.
pub open spec fn undriven_places(
    declared: Seq<(Seq<char>, usize)>,
    driven: Set<Seq<char>>,
    read: Set<Seq<char>>,
    source: Seq<u8>,
    utf8: bool,
) -> Seq<SFinding>
    decreases declared.len(),
{
    if declared.len() == 0 {
        Seq::empty()
    } else {
        let (signal, offset) = declared.last();
        undriven_places(declared.drop_last(), driven, read, source, utf8) + if !driven.contains(
            signal,
        ) && read.contains(signal) {
            seq![
                SFinding {
                    rule: "lint_730"@,
                    line: spec_line_col(source, utf8, offset as int).0,
                    column: spec_line_col(source, utf8, offset as int).1,
                    message: undriven_message(signal),
                    related: Seq::empty(),
                },
            ]
        } else {
            Seq::empty()
        }
    }
}

/// What `lint_730` reports of the architectures `architectures`, before sorting.
pub open spec fn undriven_all(
    architectures: Seq<Node>,
    entities: Seq<(Seq<char>, SPorts)>,
    source: Seq<u8>,
    utf8: bool,
) -> Seq<SFinding>
    decreases architectures.len(),
{
    if architectures.len() == 0 {
        Seq::empty()
    } else {
        let a = architectures.last();
        undriven_all(architectures.drop_last(), entities, source, utf8) + undriven_places(
            declared_signals(a),
            driven_in(a, entities),
            read_in(a, entities),
            source,
            utf8,
        )
    }
}

/// `lint_730` of a file (its syntax tree `root` and its `source`): a signal that something
/// reads but nothing drives, in order of place.
pub open spec fn spec_undriven(root: Node, source: Seq<u8>, entities: Seq<(Seq<char>, SPorts)>) -> Seq<
    SFinding,
> {
    sort_findings(
        undriven_all(
            spec_find(root, Kind::ArchitectureBody),
            entities,
            source,
            vstd::utf8::valid_utf8(source),
        ),
    )
}


/// The signals an architecture declares without an initial value, in order of name.
fn signals_declared(architecture: &Node) -> (r: Vec<(String, usize)>)
    ensures
        named_views(r@) == declared_signals(*architecture),
{
    let parts = find(architecture, Kind::ArchitectureDeclarativePart);
    let ghost ps = nodes_of(parts@);
    let mut out: Vec<(String, usize)> = Vec::new();
    assert(named_views(out@) =~= Seq::<(Seq<char>, usize)>::empty());
    let mut i: usize = 0;
    while i < parts.len()
        invariant
            0 <= i <= parts@.len(),
            ps == nodes_of(parts@),
            named_views(out@) == parts_signals(Seq::empty(), ps.take(i as int)),
        decreases parts@.len() - i,
    {
        assert(ps.take(i + 1).drop_last() =~= ps.take(i as int));
        assert(ps.take(i + 1).last() == *parts@[i as int]);
        let ds = find(parts[i], Kind::SignalDeclaration);
        let ghost dv = nodes_of(ds@);
        let ghost start = named_views(out@);
        let mut j: usize = 0;
        while j < ds.len()
            invariant
                0 <= j <= ds@.len(),
                dv == nodes_of(ds@),
                named_views(out@) == signals_of(start, dv.take(j as int)),
            decreases ds@.len() - j,
        {
            let d = ds[j];
            assert(dv.take(j + 1).drop_last() =~= dv.take(j as int));
            assert(dv.take(j + 1).last() == *d);
            let t = text_of(d);
            if !crate::analysis::design::contains_text(&t, ":=") {
                let toks = all_tokens(d);
                let ghost ts = tokens_of(toks@);
                let ghost goal = declare_signals(named_views(out@), ts);
                let mut k: usize = 0;
                let mut stop = false;
                assert(ts.skip(0) =~= ts);
                while k < toks.len() && !stop
                    invariant
                        0 <= k <= toks@.len(),
                        ts == tokens_of(toks@),
                        stop ==> goal == named_views(out@),
                        !stop ==> goal == declare_signals(named_views(out@), ts.skip(k as int)),
                    decreases toks@.len() - k + if stop { 0int } else { 1int },
                {
                    let ghost rest = ts.skip(k as int);
                    assert(rest.skip(1) =~= ts.skip(k + 1));
                    assert(rest[0] == *toks@[k as int]);
                    let low = crate::analysis::syntax::lower_text(toks[k]);
                    let text = string_of(&low, 0, low.len());
                    assert(low@.subrange(0, low@.len() as int) =~= low@);
                    if str_eq(text.as_str(), ":") {
                        stop = true;
                    } else {
                        if !str_eq(text.as_str(), "signal") && !str_eq(text.as_str(), ",") {
                            put_sorted_into(&mut out, text, toks[k].offset);
                        }
                        k = k + 1;
                    }
                }
                if !stop {
                    assert(ts.skip(k as int) =~= Seq::<Token>::empty());
                }
            }
            j = j + 1;
        }
        assert(dv.take(j as int) =~= dv);
        i = i + 1;
    }
    assert(ps.take(i as int) =~= ps);
    out
}

/// Adds the objects the targets of `named` belong to to `out`.
fn add_bases_of(out: &mut Vec<String>, named: &Vec<(String, usize)>)
    ensures
        names(final(out)@) == names(old(out)@).union(target_bases(named_views(named@))),
{
    let ghost nv = named_views(named@);
    let ghost start = names(out@);
    let mut i: usize = 0;
    assert(target_bases(nv.take(0)) =~= Set::<Seq<char>>::empty());
    assert(start.union(Set::<Seq<char>>::empty()) =~= start);
    while i < named.len()
        invariant
            0 <= i <= named@.len(),
            nv == named_views(named@),
            names(out@) == start.union(target_bases(nv.take(i as int))),
        decreases named@.len() - i,
    {
        let (base, _) = path(named[i].0.as_str());
        add_name(out, base);
        proof {
            assert(nv.take(i + 1).drop_last() =~= nv.take(i as int));
            assert(nv.take(i + 1).last() == named_view(named@[i as int]));
            assert(names(out@) =~= start.union(target_bases(nv.take(i + 1))));
        }
        i = i + 1;
    }
    assert(nv.take(i as int) =~= nv);
}

/// Adds the names of `named` to `out`.
fn add_read_names(out: &mut Vec<String>, named: &Vec<(String, usize)>)
    ensures
        names(final(out)@) == names(old(out)@).union(read_set(named_views(named@))),
{
    let ghost nv = named_views(named@);
    let ghost start = names(out@);
    let mut i: usize = 0;
    assert(read_set(nv.take(0)) =~= Set::<Seq<char>>::empty());
    assert(start.union(Set::<Seq<char>>::empty()) =~= start);
    while i < named.len()
        invariant
            0 <= i <= named@.len(),
            nv == named_views(named@),
            names(out@) == start.union(read_set(nv.take(i as int))),
        decreases named@.len() - i,
    {
        add_name(out, named[i].0.clone());
        proof {
            assert(nv.take(i + 1).drop_last() =~= nv.take(i as int));
            assert(nv.take(i + 1).last() == named_view(named@[i as int]));
            assert(names(out@) =~= start.union(read_set(nv.take(i + 1))));
        }
        i = i + 1;
    }
    assert(nv.take(i as int) =~= nv);
}

/// Adds what the calls of kind `kind` in `architecture` drive to `driven`.
fn add_calls_driven(driven: &mut Vec<String>, architecture: &Node, kind: Kind)
    ensures
        names(final(driven)@) == names(old(driven)@).union(calls_driven(spec_find(*architecture, kind))),
{
    let calls = find(architecture, kind);
    let ghost cs = nodes_of(calls@);
    let ghost start = names(driven@);
    let mut i: usize = 0;
    assert(start.union(Set::<Seq<char>>::empty()) =~= start);
    assert(calls_driven(cs.take(0)) =~= Set::<Seq<char>>::empty());
    while i < calls.len()
        invariant
            0 <= i <= calls@.len(),
            cs == nodes_of(calls@),
            names(driven@) == start.union(calls_driven(cs.take(i as int))),
        decreases calls@.len() - i,
    {
        let mut mentioned: Vec<(String, usize)> = Vec::new();
        reads(calls[i], &mut mentioned);
        assert(named_views(mentioned@) =~= spec_reads(*calls@[i as int]));
        add_read_names(driven, &mentioned);
        let targets = assignments(calls[i]);
        add_bases_of(driven, &targets);
        proof {
            assert(cs.take(i + 1).drop_last() =~= cs.take(i as int));
            assert(cs.take(i + 1).last() == *calls@[i as int]);
            assert(names(driven@) =~= start.union(calls_driven(cs.take(i + 1))));
        }
        i = i + 1;
    }
    assert(cs.take(i as int) =~= cs);
}

/// The name of a port from an entry of `order`, if there is one at `at`.
fn port_at(formal: &Option<String>, order: &Vec<String>, at: usize) -> (r: String)
    ensures
        r@ == port_for(
            match formal {
                Some(f) => Some(f@),
                None => None,
            },
            strings_view(order@),
            at as int,
        ),
{
    match formal {
        Some(f) => f.clone(),
        None => if at < order.len() {
            order[at].clone()
        } else {
            let e = String::new();
            assert(e@ =~= Seq::<char>::empty());
            e
        },
    }
}

/// Adds what the instances `instances` drive and read to `driven` and `read`.
fn add_wiring(driven: &mut Vec<String>, read: &mut Vec<String>, instances: &Vec<Instance>, entities: &Entities)
    ensures
        names(final(driven)@) == names(old(driven)@).union(
            instances_wiring(instances@.map_values(|i: Instance| instance_view(i)), entities_view(entities@)).0,
        ),
        names(final(read)@) == names(old(read)@).union(
            instances_wiring(instances@.map_values(|i: Instance| instance_view(i)), entities_view(entities@)).1,
        ),
{
    let ghost iv = instances@.map_values(|i: Instance| instance_view(i));
    let ghost ev = entities_view(entities@);
    let ghost d0 = names(driven@);
    let ghost r0 = names(read@);
    let mut i: usize = 0;
    assert(iv.take(0) =~= Seq::<(Seq<char>, Seq<(Option<Seq<char>>, Seq<char>)>)>::empty());
    assert(d0.union(Set::<Seq<char>>::empty()) =~= d0);
    assert(r0.union(Set::<Seq<char>>::empty()) =~= r0);
    while i < instances.len()
        invariant
            0 <= i <= instances@.len(),
            iv == instances@.map_values(|i: Instance| instance_view(i)),
            ev == entities_view(entities@),
            names(driven@) == d0.union(instances_wiring(iv.take(i as int), ev).0),
            names(read@) == r0.union(instances_wiring(iv.take(i as int), ev).1),
        decreases instances@.len() - i,
    {
        let inst = &instances[i];
        let ghost av = inst.associations@.map_values(|a: (Option<String>, String)| association_view(a));
        assert(iv[i as int] == instance_view(*inst));
        let ports = entity_index(entities, inst.entity.as_str());
        let ghost pv = entry_of(ev, inst.entity@);
        let ghost db = names(driven@);
        let ghost rb = names(read@);
        let mut k: usize = 0;
        assert(db.union(Set::<Seq<char>>::empty()) =~= db);
        assert(rb.union(Set::<Seq<char>>::empty()) =~= rb);
        while k < inst.associations.len()
            invariant
                0 <= k <= inst.associations@.len(),
                av == inst.associations@.map_values(|a: (Option<String>, String)| association_view(a)),
                ev == entities_view(entities@),
                pv == entry_of(ev, inst.entity@),
                match ports {
                    Some(x) => x < entities@.len() && pv == Some(ev[x as int].1),
                    None => pv is None,
                },
                names(driven@) == db.union(wiring(av, pv, k as int).0),
                names(read@) == rb.union(wiring(av, pv, k as int).1),
            decreases inst.associations@.len() - k,
        {
            let (base, _) = path(inst.associations[k].1.as_str());
            assert(av[k as int] == association_view(inst.associations@[k as int]));
            match ports {
                None => {
                    add_name(driven, base);
                },
                Some(x) => {
                    let p = &entities[x].1;
                    assert(ev[x as int].1 == ports_view(*p));
                    let port = port_at(&inst.associations[k].0, &p.order, k);
                    let drives = has_name(&p.driving, port.as_str());
                    let reads_it = has_name(&p.reading, port.as_str());
                    if drives || !reads_it {
                        add_name(driven, base.clone());
                    }
                    if reads_it {
                        add_name(read, base);
                    }
                },
            }
            proof {
                assert(names(driven@) =~= db.union(wiring(av, pv, k + 1).0));
                assert(names(read@) =~= rb.union(wiring(av, pv, k + 1).1));
            }
            k = k + 1;
        }
        proof {
            assert(iv.take(i + 1).drop_last() =~= iv.take(i as int));
            assert(iv.take(i + 1).last() == iv[i as int]);
            assert(av.len() == inst.associations@.len());
            assert(names(driven@) =~= d0.union(instances_wiring(iv.take(i + 1), ev).0));
            assert(names(read@) =~= r0.union(instances_wiring(iv.take(i + 1), ev).1));
        }
        i = i + 1;
    }
    assert(iv.take(i as int) =~= iv);
}

/// Puts what `lint_730` reports of one architecture into `out`, which is in order.
fn undriven_into(
    architecture: &Node,
    source: &[u8],
    utf8: bool,
    file: &PathBuf,
    entities: &Entities,
    out: &mut Vec<Finding>,
    Ghost(g0): Ghost<Seq<SFinding>>,
)
    requires
        4 * source@.len() < usize::MAX,
        finding_views(old(out)@) == sort_findings(g0),
    ensures
        finding_views(final(out)@) == sort_findings(
            g0 + undriven_places(
                declared_signals(*architecture),
                driven_in(*architecture, entities_view(entities@)),
                read_in(*architecture, entities_view(entities@)),
                source@,
                utf8,
            ),
        ),
{
    let ghost ev = entities_view(entities@);
    let declared = signals_declared(architecture);
    let mut driven: Vec<String> = Vec::new();
    let mut read: Vec<String> = Vec::new();
    assert(names(driven@) =~= Set::<Seq<char>>::empty());
    assert(names(read@) =~= Set::<Seq<char>>::empty());
    let targets = assignments(architecture);
    add_bases_of(&mut driven, &targets);
    let mut named: Vec<(String, usize)> = Vec::new();
    reads(architecture, &mut named);
    assert(named_views(named@) =~= spec_reads(*architecture));
    add_read_names(&mut read, &named);
    add_calls_driven(&mut driven, architecture, Kind::ProcedureCallStatement);
    add_calls_driven(&mut driven, architecture, Kind::ConcurrentProcedureCallOrComponentInstantiationStatement);
    let instances = instantiations(architecture);
    add_wiring(&mut driven, &mut read, &instances, entities);
    let ghost dset = driven_in(*architecture, ev);
    let ghost rset = read_in(*architecture, ev);
    assert(names(driven@) =~= dset);
    assert(names(read@) =~= rset);
    let ghost dv = named_views(declared@);
    let ghost mut gen = g0;
    let mut i: usize = 0;
    assert(g0 + undriven_places(dv.take(0), dset, rset, source@, utf8) =~= g0);
    while i < declared.len()
        invariant
            0 <= i <= declared@.len(),
            4 * source@.len() < usize::MAX,
            dv == named_views(declared@),
            names(driven@) == dset,
            names(read@) == rset,
            gen == g0 + undriven_places(dv.take(i as int), dset, rset, source@, utf8),
            finding_views(out@) == sort_findings(gen),
        decreases declared@.len() - i,
    {
        assert(dv.take(i + 1).drop_last() =~= dv.take(i as int));
        assert(dv.take(i + 1).last() == named_view(declared@[i as int]));
        let signal = declared[i].0.as_str();
        if !has_name(&driven, signal) && has_name(&read, signal) {
            let (line, column) = line_col(source, utf8, declared[i].1);
            let mut message = String::from_str("Signal '");
            message.append(signal);
            message.append("' is read but nothing drives it");
            let f = Finding { file: file.clone(), rule: "lint_730", line, column, message, related: Vec::new() };
            proof {
                assert(f.related@.map_values(|r: Related| related_view(r)) =~= Seq::<(int, int, Seq<char>)>::empty());
            }
            put_finding(out, f);
            proof {
                crate::analysis::design::lemma_sort_append(gen, finding_view(f));
                gen = gen.push(finding_view(f));
                assert(gen =~= g0 + undriven_places(dv.take(i + 1), dset, rset, source@, utf8));
            }
        } else {
            assert(gen =~= g0 + undriven_places(dv.take(i + 1), dset, rset, source@, utf8));
        }
        i = i + 1;
    }
    assert(dv.take(i as int) =~= dv);
}

/// `lint_730`: a signal that something reads but nothing drives, in the syntax tree `root` of
/// `source`, given every entity the run can see; in order of place. In simulation such a
/// signal keeps its initial value and in synthesis it becomes a constant, so it is nearly
/// always a wiring mistake. A signal connected to an instance whose entity the run cannot see
/// is taken as driven: without the port modes there is no telling a driver from a reader.
pub fn undriven(root: &Node, source: &[u8], file: &PathBuf, entities: &Entities) -> (r: Vec<Finding>)
    requires
        4 * source@.len() < usize::MAX,
    ensures
        finding_views(r@) == spec_undriven(*root, source@, entities_view(entities@)),
{
    let utf8 = crate::reflow::is_utf8(source);
    let architectures = find(root, Kind::ArchitectureBody);
    let ghost archs = nodes_of(architectures@);
    let ghost ev = entities_view(entities@);
    let mut out: Vec<Finding> = Vec::new();
    let ghost mut gen = Seq::<SFinding>::empty();
    assert(finding_views(out@) =~= sort_findings(gen));
    let mut a: usize = 0;
    assert(archs.take(0) =~= Seq::<Node>::empty());
    while a < architectures.len()
        invariant
            0 <= a <= architectures@.len(),
            4 * source@.len() < usize::MAX,
            archs == nodes_of(architectures@),
            ev == entities_view(entities@),
            gen == undriven_all(archs.take(a as int), ev, source@, utf8),
            finding_views(out@) == sort_findings(gen),
        decreases architectures@.len() - a,
    {
        let arch = architectures[a];
        undriven_into(arch, source, utf8, file, entities, &mut out, Ghost(gen));
        proof {
            gen = gen + undriven_places(declared_signals(*arch), driven_in(*arch, ev), read_in(*arch, ev), source@, utf8);
            assert(archs.take(a + 1).drop_last() =~= archs.take(a as int));
            assert(archs.take(a + 1).last() == *arch);
        }
        a = a + 1;
    }
    assert(archs.take(a as int) =~= archs);
    out
}


/// Those of `a` that `b` does not hold, in order.
pub open spec fn not_in(a: Seq<Seq<char>>, b: Seq<Seq<char>>) -> Seq<Seq<char>>
    decreases a.len(),
{
    if a.len() == 0 {
        Seq::empty()
    } else {
        not_in(a.drop_last(), b) + if b.contains(a.last()) {
            Seq::empty()
        } else {
            seq![a.last()]
        }
    }
}

/// Those of `order` (a component's ports) the entity has with another mode, in order.
pub open spec fn remoded(order: Seq<Seq<char>>, entity: SPorts, component: SPorts) -> Seq<Seq<char>>
    decreases order.len(),
{
    if order.len() == 0 {
        Seq::empty()
    } else {
        let p = order.last();
        remoded(order.drop_last(), entity, component) + if entity.order.contains(p) && (
        entity.driving.contains(p) != component.driving.contains(p) || entity.reading.contains(p)
            != component.reading.contains(p)) {
            seq![p]
        } else {
            Seq::empty()
        }
    }
}

/// `items` joined by `sep`.
pub open spec fn joined(items: Seq<Seq<char>>, sep: Seq<char>) -> Seq<char>
    decreases items.len(),
{
    if items.len() == 0 {
        Seq::empty()
    } else if items.len() == 1 {
        items[0]
    } else {
        joined(items.drop_last(), sep) + sep + items.last()
    }
}

/// How a component declaration differs from the entity it stands for: ports it does not
/// declare, ports the entity does not have, ports with another mode, and, when there is none
/// of these, ports in another order (harmless until someone instantiates positionally).
pub open spec fn interface_faults(entity: SPorts, component: SPorts) -> Seq<Seq<char>> {
    let missing = not_in(entity.order, component.order);
    let extra = not_in(component.order, entity.order);
    let changed = remoded(component.order, entity, component);
    let reordered = missing.len() == 0 && extra.len() == 0 && changed.len() == 0 && entity.order
        != component.order;
    (if missing.len() > 0 {
        seq!["does not declare"@ + " "@ + joined(missing, ", "@)]
    } else {
        Seq::empty()
    }) + (if extra.len() > 0 {
        seq!["declares, which the entity does not have,"@ + " "@ + joined(extra, ", "@)]
    } else {
        Seq::empty()
    }) + (if changed.len() > 0 {
        seq!["gives a different mode to"@ + " "@ + joined(changed, ", "@)]
    } else {
        Seq::empty()
    }) + (if reordered {
        seq!["declares its ports in a different order"@]
    } else {
        Seq::empty()
    })
}

/// What `lint_750` says of component `name` with `faults`.
pub open spec fn interface_message(name: Seq<char>, faults: Seq<Seq<char>>) -> Seq<char> {
    "Component '"@ + name + "' does not match entity '"@ + name + "': it "@ + joined(
        faults,
        "; and it "@,
    )
        + ". An instance binds to the component, so the two disagreeing means the design connects something other than it reads like."@
}

/// What `lint_750` reports of one component declaration: only against an entity the run can
/// see (a table entry from another component declaration says nothing about which is right),
/// at the declaration's first token.
pub open spec fn interface_finding(
    declaration: Node,
    entities: Seq<(Seq<char>, SPorts)>,
    source: Seq<u8>,
    utf8: bool,
) -> Option<SFinding> {
    match declared_name(spec_tokens(declaration), "component"@, "component"@) {
        None => None,
        Some(name) => match entry_of(entities, name) {
            Some(entity) => {
                let faults = interface_faults(entity, spec_ports_of(declaration, false));
                if !entity.from_entity || faults.len() == 0 {
                    None
                } else {
                    let (line, column) = if spec_tokens(declaration).len() > 0 {
                        spec_line_col(source, utf8, spec_tokens(declaration)[0].offset as int)
                    } else {
                        (1int, 1int)
                    };
                    Some(
                        SFinding {
                            rule: "lint_750"@,
                            line,
                            column,
                            message: interface_message(name, faults),
                            related: Seq::empty(),
                        },
                    )
                }
            },
            None => None,
        },
    }
}

/// What `lint_750` reports of `declarations`, before sorting.
pub open spec fn interface_findings(
    declarations: Seq<Node>,
    entities: Seq<(Seq<char>, SPorts)>,
    source: Seq<u8>,
    utf8: bool,
) -> Seq<SFinding>
    decreases declarations.len(),
{
    if declarations.len() == 0 {
        Seq::empty()
    } else {
        interface_findings(declarations.drop_last(), entities, source, utf8) + match interface_finding(
            declarations.last(),
            entities,
            source,
            utf8,
        ) {
            Some(f) => seq![f],
            None => Seq::empty(),
        }
    }
}

/// `lint_750` of a file: the component declarations that do not match the entity they stand
/// for, in order of place.
pub open spec fn spec_interfaces(root: Node, source: Seq<u8>, entities: Seq<(Seq<char>, SPorts)>) -> Seq<
    SFinding,
> {
    sort_findings(
        interface_findings(
            spec_find(root, Kind::ComponentDeclaration),
            entities,
            source,
            vstd::utf8::valid_utf8(source),
        ),
    )
}

/// Those of `a` that `b` does not hold, in order.
fn ports_not_in(a: &Vec<String>, b: &Vec<String>) -> (r: Vec<String>)
    ensures
        strings_view(r@) == not_in(strings_view(a@), strings_view(b@)),
{
    let ghost av = strings_view(a@);
    let ghost bv = strings_view(b@);
    let mut out: Vec<String> = Vec::new();
    let mut i: usize = 0;
    assert(strings_view(out@) =~= not_in(av.take(0), bv));
    while i < a.len()
        invariant
            0 <= i <= a@.len(),
            av == strings_view(a@),
            bv == strings_view(b@),
            strings_view(out@) == not_in(av.take(i as int), bv),
        decreases a@.len() - i,
    {
        assert(av.take(i + 1).drop_last() =~= av.take(i as int));
        assert(av.take(i + 1).last() == a@[i as int]@);
        let held = has_name(b, a[i].as_str());
        assert(held == bv.contains(a@[i as int]@)) by {
            if held {
                let j = choose|j: int| 0 <= j < b@.len() && (#[trigger] b@[j])@ == a@[i as int]@;
                assert(bv[j] == a@[i as int]@);
            }
            if bv.contains(a@[i as int]@) {
                let j = choose|j: int| 0 <= j < bv.len() && bv[j] == a@[i as int]@;
                assert(b@[j]@ == a@[i as int]@);
            }
        }
        if !held {
            let ghost prev = out@;
            out.push(a[i].clone());
            assert(strings_view(out@) =~= strings_view(prev).push(a@[i as int]@));
        }
        assert(strings_view(out@) =~= not_in(av.take(i + 1), bv));
        i = i + 1;
    }
    assert(av.take(i as int) =~= av);
    out
}

/// Whether `v` holds `name`, as the view of its strings says.
fn holds(v: &Vec<String>, name: &str) -> (r: bool)
    ensures
        r == strings_view(v@).contains(name@),
{
    let r = has_name(v, name);
    proof {
        if r {
            let j = choose|j: int| 0 <= j < v@.len() && (#[trigger] v@[j])@ == name@;
            assert(strings_view(v@)[j] == name@);
        }
        if strings_view(v@).contains(name@) {
            let j = choose|j: int| 0 <= j < strings_view(v@).len() && strings_view(v@)[j] == name@;
            assert(v@[j]@ == name@);
        }
    }
    r
}

/// The ports of `component` the entity has with another mode, in order.
fn remoded_ports(entity: &Ports, component: &Ports) -> (r: Vec<String>)
    ensures
        strings_view(r@) == remoded(strings_view(component.order@), ports_view(*entity), ports_view(*component)),
{
    let ghost cv = strings_view(component.order@);
    let mut out: Vec<String> = Vec::new();
    let mut i: usize = 0;
    assert(strings_view(out@) =~= remoded(cv.take(0), ports_view(*entity), ports_view(*component)));
    while i < component.order.len()
        invariant
            0 <= i <= component.order@.len(),
            cv == strings_view(component.order@),
            strings_view(out@) == remoded(cv.take(i as int), ports_view(*entity), ports_view(*component)),
        decreases component.order@.len() - i,
    {
        assert(cv.take(i + 1).drop_last() =~= cv.take(i as int));
        assert(cv.take(i + 1).last() == component.order@[i as int]@);
        let p = component.order[i].as_str();
        let changed = holds(&entity.order, p) && (has_name(&entity.driving, p) != has_name(&component.driving, p)
            || has_name(&entity.reading, p) != has_name(&component.reading, p));
        if changed {
            let ghost prev = out@;
            out.push(component.order[i].clone());
            assert(strings_view(out@) =~= strings_view(prev).push(component.order@[i as int]@));
        }
        assert(strings_view(out@) =~= remoded(cv.take(i + 1), ports_view(*entity), ports_view(*component)));
        i = i + 1;
    }
    assert(cv.take(i as int) =~= cv);
    out
}

/// `items` joined by `sep`.
pub(crate) fn join(items: &Vec<String>, sep: &str) -> (r: String)
    ensures
        r@ == joined(strings_view(items@), sep@),
{
    let ghost iv = strings_view(items@);
    let mut out = String::new();
    let mut i: usize = 0;
    assert(out@ =~= joined(iv.take(0), sep@));
    while i < items.len()
        invariant
            0 <= i <= items@.len(),
            iv == strings_view(items@),
            out@ == joined(iv.take(i as int), sep@),
        decreases items@.len() - i,
    {
        assert(iv.take(i + 1).drop_last() =~= iv.take(i as int));
        assert(iv.take(i + 1).last() == items@[i as int]@);
        if i > 0 {
            out.append(sep);
        } else {
            assert(out@ =~= Seq::<char>::empty());
        }
        out.append(items[i].as_str());
        proof {
            if i == 0 {
                assert(out@ =~= joined(iv.take(1), sep@));
            }
        }
        i = i + 1;
    }
    assert(iv.take(i as int) =~= iv);
    out
}

/// `what` and the ports, joined by `, `.
fn fault_text(what: &str, ports: &Vec<String>) -> (r: String)
    ensures
        r@ == what@ + " "@ + joined(strings_view(ports@), ", "@),
{
    let mut s = String::from_str(what);
    s.append(" ");
    let list = join(ports, ", ");
    s.append(list.as_str());
    s
}

/// Whether two lists of port names are the same.
fn same_order(a: &Vec<String>, b: &Vec<String>) -> (r: bool)
    ensures
        r == (strings_view(a@) == strings_view(b@)),
{
    if a.len() != b.len() {
        assert(strings_view(a@).len() != strings_view(b@).len());
        return false;
    }
    let mut i: usize = 0;
    while i < a.len()
        invariant
            0 <= i <= a@.len(),
            a@.len() == b@.len(),
            forall|j: int| 0 <= j < i ==> a@[j]@ == b@[j]@,
        decreases a@.len() - i,
    {
        if !str_eq(a[i].as_str(), b[i].as_str()) {
            assert(strings_view(a@)[i as int] != strings_view(b@)[i as int]);
            return false;
        }
        i = i + 1;
    }
    assert(strings_view(a@) =~= strings_view(b@));
    true
}

/// How a component declaration differs from the entity it stands for.
fn faults_of(entity: &Ports, component: &Ports) -> (r: Vec<String>)
    ensures
        strings_view(r@) == interface_faults(ports_view(*entity), ports_view(*component)),
{
    let missing = ports_not_in(&entity.order, &component.order);
    let extra = ports_not_in(&component.order, &entity.order);
    let changed = remoded_ports(entity, component);
    let reordered = missing.len() == 0 && extra.len() == 0 && changed.len() == 0 && !same_order(
        &entity.order,
        &component.order,
    );
    let mut faults: Vec<String> = Vec::new();
    let ghost mut want = Seq::<Seq<char>>::empty();
    if missing.len() > 0 {
        faults.push(fault_text("does not declare", &missing));
        proof { want = want.push("does not declare"@ + " "@ + joined(strings_view(missing@), ", "@)); }
    }
    assert(strings_view(faults@) =~= want);
    if extra.len() > 0 {
        let ghost prev = faults@;
        faults.push(fault_text("declares, which the entity does not have,", &extra));
        proof {
            want = want.push("declares, which the entity does not have,"@ + " "@ + joined(strings_view(extra@), ", "@));
            assert(strings_view(faults@) =~= strings_view(prev).push(faults@[faults@.len() - 1]@));
        }
    }
    assert(strings_view(faults@) =~= want);
    if changed.len() > 0 {
        let ghost prev = faults@;
        faults.push(fault_text("gives a different mode to", &changed));
        proof {
            want = want.push("gives a different mode to"@ + " "@ + joined(strings_view(changed@), ", "@));
            assert(strings_view(faults@) =~= strings_view(prev).push(faults@[faults@.len() - 1]@));
        }
    }
    assert(strings_view(faults@) =~= want);
    if reordered {
        let ghost prev = faults@;
        faults.push(String::from_str("declares its ports in a different order"));
        proof {
            want = want.push("declares its ports in a different order"@);
            assert(strings_view(faults@) =~= strings_view(prev).push(faults@[faults@.len() - 1]@));
        }
    }
    assert(strings_view(faults@) =~= want);
    assert(want =~= interface_faults(ports_view(*entity), ports_view(*component)));
    faults
}

/// `lint_750`: the component declarations in the syntax tree `root` of `source` that do not
/// match the entity they stand for, against the entities the run can see; in order of place.
/// A component declaration is a hand-written copy of an entity's interface, and the two drift;
/// what an instance binds to is decided by the component.
pub fn interfaces(root: &Node, source: &[u8], file: &PathBuf, entities: &Entities) -> (r: Vec<Finding>)
    requires
        4 * source@.len() < usize::MAX,
    ensures
        finding_views(r@) == spec_interfaces(*root, source@, entities_view(entities@)),
{
    let utf8 = crate::reflow::is_utf8(source);
    let declarations = find(root, Kind::ComponentDeclaration);
    let ghost ds = nodes_of(declarations@);
    let ghost ev = entities_view(entities@);
    let mut out: Vec<Finding> = Vec::new();
    let ghost mut gen = Seq::<SFinding>::empty();
    assert(finding_views(out@) =~= sort_findings(gen));
    let mut i: usize = 0;
    assert(ds.take(0) =~= Seq::<Node>::empty());
    while i < declarations.len()
        invariant
            0 <= i <= declarations@.len(),
            4 * source@.len() < usize::MAX,
            ds == nodes_of(declarations@),
            ev == entities_view(entities@),
            gen == interface_findings(ds.take(i as int), ev, source@, utf8),
            finding_views(out@) == sort_findings(gen),
        decreases declarations@.len() - i,
    {
        let d = declarations[i];
        assert(ds.take(i + 1).drop_last() =~= ds.take(i as int));
        assert(ds.take(i + 1).last() == *d);
        let ghost found = interface_finding(*d, ev, source@, utf8);
        match name_after(d, "component", "component") {
            None => {
                assert(found is None);
            },
            Some(name) => match entity_index(entities, name.as_str()) {
                None => {
                    assert(found is None);
                },
                Some(k) => {
                    let entity = &entities[k].1;
                    assert(ev[k as int].1 == ports_view(*entity));
                    let component = ports_of(d, false);
                    let faults = faults_of(entity, &component);
                    if !entity.from_entity || faults.len() == 0 {
                        assert(found is None);
                    } else {
                        let toks = all_tokens(d);
                        let (line, column) = if toks.len() > 0 {
                            assert(tokens_of(toks@)[0] == *toks@[0]);
                            line_col(source, utf8, toks[0].offset)
                        } else {
                            (1, 1)
                        };
                        let mut message = String::from_str("Component '");
                        message.append(name.as_str());
                        message.append("' does not match entity '");
                        message.append(name.as_str());
                        message.append("': it ");
                        let list = join(&faults, "; and it ");
                        message.append(list.as_str());
                        message.append(". An instance binds to the component, so the two disagreeing means the design connects something other than it reads like.");
                        let f = Finding { file: file.clone(), rule: "lint_750", line, column, message, related: Vec::new() };
                        proof {
                            assert(f.related@.map_values(|r: Related| related_view(r)) =~= Seq::<(int, int, Seq<char>)>::empty());
                            assert(found == Some(finding_view(f)));
                        }
                        put_finding(&mut out, f);
                        proof {
                            crate::analysis::design::lemma_sort_append(gen, finding_view(f));
                            gen = gen.push(finding_view(f));
                        }
                    }
                },
            },
        }
        assert(gen =~= interface_findings(ds.take(i + 1), ev, source@, utf8));
        i = i + 1;
    }
    assert(ds.take(i as int) =~= ds);
    out
}

} // verus!
