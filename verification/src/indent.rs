//! VSG's `indent.tokens` configuration mapped onto the formatter's structural indentation.
//!
//! VSG describes indentation per token: `token` is the indent of the token itself and `after`
//! the indent of what follows, either absolute (`0`, `1`) or relative to the current indent
//! (`"current"`, `"+1"`, `"-1"`). For each construct these settings are replayed from the
//! construct's own level, and the resulting relative levels of its parts (body, `begin`,
//! statements, branches, `end`) are recorded. Settings that do not reduce to such levels are
//! reported as unsupported.
use vstd::prelude::*;
use vstd::string::StringExecFns;

use crate::bytes::str_eq;
use crate::chars::{chars_of, parse_i64, spec_parse_i64};

verus! {

/// A part of a construct whose indentation the formatter decides.
#[derive(Debug, Clone, Copy, PartialEq, Eq, Structural, Hash)]
pub enum Part {
    /// Declarations, clauses or statements directly inside the construct.
    Body,
    /// `begin`.
    Begin,
    /// Statements after `begin`.
    Statements,
    /// `elsif` / `else` branches.
    Branch,
    /// `end` or the closing parenthesis.
    End,
}

/// The level of a part relative to the construct's first line, unless configured otherwise:
/// what is inside is indented once, the keywords that frame it are not.
pub open spec fn spec_default_level(p: Part) -> nat {
    match p {
        Part::Body | Part::Statements => 1,
        Part::Begin | Part::Branch | Part::End => 0,
    }
}

impl Part {
    pub fn default_level(self) -> (r: usize)
        ensures
            r == spec_default_level(self),
    {
        match self {
            Part::Body | Part::Statements => 1,
            Part::Begin | Part::Branch | Part::End => 0,
        }
    }
}

/// The constructs whose indentation `indent.tokens` can change.
#[derive(Debug, Clone, Copy, PartialEq, Eq, Structural, Hash)]
pub enum Construct {
    ArchitectureBody,
    EntityDeclaration,
    ContextDeclaration,
    PackageDeclaration,
    PackageBody,
    ComponentDeclaration,
    LoopStatement,
    RecordTypeDefinition,
    ProtectedTypeDeclaration,
    ProtectedTypeBody,
    ComponentInstantiationStatement,
    ProcessStatement,
    BlockStatement,
    SubprogramBody,
    ForGenerateStatement,
    IfGenerateStatement,
    IfStatement,
    IfStatementElsif,
    IfStatementElse,
    IfGenerateElsif,
    IfGenerateElse,
    CaseStatement,
    CaseStatementAlternative,
    CaseGenerateStatement,
    CaseGenerateAlternative,
    GenericClause,
    PortClause,
    GenericMapAspect,
    PortMapAspect,
    Assertion,
}

/// The number of (construct, part) pairs.
pub open spec fn slot_count() -> nat {
    150
}

pub open spec fn spec_construct_index(c: Construct) -> nat {
    match c {
        Construct::ArchitectureBody => 0,
        Construct::EntityDeclaration => 1,
        Construct::ContextDeclaration => 2,
        Construct::PackageDeclaration => 3,
        Construct::PackageBody => 4,
        Construct::ComponentDeclaration => 5,
        Construct::LoopStatement => 6,
        Construct::RecordTypeDefinition => 7,
        Construct::ProtectedTypeDeclaration => 8,
        Construct::ProtectedTypeBody => 9,
        Construct::ComponentInstantiationStatement => 10,
        Construct::ProcessStatement => 11,
        Construct::BlockStatement => 12,
        Construct::SubprogramBody => 13,
        Construct::ForGenerateStatement => 14,
        Construct::IfGenerateStatement => 15,
        Construct::IfStatement => 16,
        Construct::IfStatementElsif => 17,
        Construct::IfStatementElse => 18,
        Construct::IfGenerateElsif => 19,
        Construct::IfGenerateElse => 20,
        Construct::CaseStatement => 21,
        Construct::CaseStatementAlternative => 22,
        Construct::CaseGenerateStatement => 23,
        Construct::CaseGenerateAlternative => 24,
        Construct::GenericClause => 25,
        Construct::PortClause => 26,
        Construct::GenericMapAspect => 27,
        Construct::PortMapAspect => 28,
        Construct::Assertion => 29,
    }
}

pub open spec fn spec_part_index(p: Part) -> nat {
    match p {
        Part::Body => 0,
        Part::Begin => 1,
        Part::Statements => 2,
        Part::Branch => 3,
        Part::End => 4,
    }
}

/// Where the level of a part of a construct is kept.
pub open spec fn spec_slot(c: Construct, p: Part) -> nat {
    5 * spec_construct_index(c) + spec_part_index(p)
}

fn slot(c: Construct, p: Part) -> (r: usize)
    ensures
        r == spec_slot(c, p),
        r < slot_count(),
{
    let ci: usize = match c {
        Construct::ArchitectureBody => 0,
        Construct::EntityDeclaration => 1,
        Construct::ContextDeclaration => 2,
        Construct::PackageDeclaration => 3,
        Construct::PackageBody => 4,
        Construct::ComponentDeclaration => 5,
        Construct::LoopStatement => 6,
        Construct::RecordTypeDefinition => 7,
        Construct::ProtectedTypeDeclaration => 8,
        Construct::ProtectedTypeBody => 9,
        Construct::ComponentInstantiationStatement => 10,
        Construct::ProcessStatement => 11,
        Construct::BlockStatement => 12,
        Construct::SubprogramBody => 13,
        Construct::ForGenerateStatement => 14,
        Construct::IfGenerateStatement => 15,
        Construct::IfStatement => 16,
        Construct::IfStatementElsif => 17,
        Construct::IfStatementElse => 18,
        Construct::IfGenerateElsif => 19,
        Construct::IfGenerateElse => 20,
        Construct::CaseStatement => 21,
        Construct::CaseStatementAlternative => 22,
        Construct::CaseGenerateStatement => 23,
        Construct::CaseGenerateAlternative => 24,
        Construct::GenericClause => 25,
        Construct::PortClause => 26,
        Construct::GenericMapAspect => 27,
        Construct::PortMapAspect => 28,
        Construct::Assertion => 29,
    };
    let pi: usize = match p {
        Part::Body => 0,
        Part::Begin => 1,
        Part::Statements => 2,
        Part::Branch => 3,
        Part::End => 4,
    };
    5 * ci + pi
}

/// The level of part `p` of construct `c` under the recorded `levels`: the recorded level, or
/// the default where none is recorded.
pub open spec fn spec_level(levels: Seq<Option<usize>>, c: Construct, p: Part) -> nat {
    let i = spec_slot(c, p) as int;
    if i < levels.len() {
        match levels[i] {
            Some(l) => l as nat,
            None => spec_default_level(p),
        }
    } else {
        spec_default_level(p)
    }
}

/// Indentation levels (relative to the construct's first line) that differ from the defaults.
#[derive(Debug, Clone, PartialEq, Eq)]
pub struct IndentPolicy {
    levels: Vec<Option<usize>>,
    /// Levels of `use` clauses that follow a `library` clause (default 1).
    pub use_after_library: Option<usize>,
}

impl IndentPolicy {
    pub closed spec fn spec_levels(&self) -> Seq<Option<usize>> {
        self.levels@
    }

    pub closed spec fn spec_use_after_library(&self) -> Option<usize> {
        self.use_after_library
    }

    pub fn level(&self, construct: Construct, part: Part) -> (r: usize)
        ensures
            r == spec_level(self.spec_levels(), construct, part),
    {
        let i = slot(construct, part);
        if i < self.levels.len() {
            match self.levels[i] {
                Some(l) => l,
                None => part.default_level(),
            }
        } else {
            part.default_level()
        }
    }
}

/// `count` slots with nothing recorded.
fn no_levels(count: usize) -> (r: Vec<Option<usize>>)
    ensures
        r@ == Seq::new(count as nat, |i: int| None::<usize>),
{
    let mut v: Vec<Option<usize>> = Vec::new();
    let mut i: usize = 0;
    while i < count
        invariant
            i <= count,
            v@ == Seq::new(i as nat, |k: int| None::<usize>),
        decreases count - i,
    {
        v.push(None);
        i = i + 1;
        assert(v@ =~= Seq::new(i as nat, |k: int| None::<usize>));
    }
    v
}

impl Default for IndentPolicy {
    fn default() -> (r: IndentPolicy)
        ensures
            r.spec_levels() == Seq::new(slot_count(), |i: int| None::<usize>),
            r.spec_use_after_library() is None,
    {
        IndentPolicy { levels: no_levels(150), use_after_library: None }
    }
}

/// A value of an `indent.tokens` field, as far as indentation reads it.
#[derive(Debug, Clone, PartialEq, Eq)]
pub enum SettingValue {
    /// A number that fits in an `i64`.
    Number(i64),
    Text(String),
    /// Anything else.
    Other,
}

/// The settings of one token of one construct.
#[derive(Debug, Clone, PartialEq, Eq)]
pub struct TokenSettings {
    pub construct: String,
    pub token: String,
    /// The fields (`token`, `after`, ...) by name.
    pub fields: Vec<(String, SettingValue)>,
    /// The user's fields differ from VSG's defaults for this token.
    pub changed: bool,
}

/// An indentation setting.
#[derive(Debug, Clone, Copy, PartialEq, Eq, Structural)]
pub enum Setting {
    Relative(i64),
    Absolute(i64),
}

/// What a field value means: a number is an absolute level, `current` is no change, and a
/// signed number (with or without `+`) a relative one.
pub open spec fn spec_parse_setting(v: SettingValue) -> Option<Setting> {
    match v {
        SettingValue::Number(n) => Some(Setting::Absolute(n)),
        SettingValue::Text(s) => if s@ == "current"@ {
            Some(Setting::Relative(0))
        } else {
            let t = if s@.len() > 0 && s@[0] == '+' {
                s@.skip(1)
            } else {
                s@
            };
            match spec_parse_i64(t) {
                Some(n) => Some(Setting::Relative(n as i64)),
                None => None,
            }
        },
        SettingValue::Other => None,
    }
}

fn parse(v: &SettingValue) -> (r: Option<Setting>)
    ensures
        r == spec_parse_setting(*v),
{
    match v {
        SettingValue::Number(n) => Some(Setting::Absolute(*n)),
        SettingValue::Text(s) => {
            if str_eq(s.as_str(), "current") {
                return Some(Setting::Relative(0));
            }
            let c = chars_of(s.as_str());
            let from: usize = if c.len() > 0 && c[0] == '+' {
                1
            } else {
                0
            };
            proof {
                assert(c@.subrange(from as int, c@.len() as int) =~= if s@.len() > 0 && s@[0] == '+' {
                    s@.skip(1)
                } else {
                    s@
                });
            }
            match parse_i64(&c, from, c.len()) {
                Some(n) => Some(Setting::Relative(n)),
                None => None,
            }
        },
        SettingValue::Other => None,
    }
}

/// The first value of field `field` in `fields`.
pub open spec fn field_value(fields: Seq<(String, SettingValue)>, field: Seq<char>) -> Option<
    SettingValue,
>
    decreases fields.len(),
{
    if fields.len() == 0 {
        None
    } else if fields[0].0@ == field {
        Some(fields[0].1)
    } else {
        field_value(fields.skip(1), field)
    }
}

/// The value of `construct.token.field` in `tokens`.
pub open spec fn token_value(
    tokens: Seq<TokenSettings>,
    construct: Seq<char>,
    token: Seq<char>,
    field: Seq<char>,
) -> Option<SettingValue>
    decreases tokens.len(),
{
    if tokens.len() == 0 {
        None
    } else if tokens[0].construct@ == construct && tokens[0].token@ == token {
        field_value(tokens[0].fields@, field)
    } else {
        token_value(tokens.skip(1), construct, token, field)
    }
}

/// The setting that `value` gives, if any.
pub open spec fn setting_of(value: Option<SettingValue>) -> Option<Setting> {
    match value {
        Some(v) => spec_parse_setting(v),
        None => None,
    }
}

/// The effective setting of `construct.token.field`: the user's, else VSG's default, else no
/// change.
pub open spec fn effective(
    user: Seq<TokenSettings>,
    defaults: Seq<TokenSettings>,
    construct: Seq<char>,
    token: Seq<char>,
    field: Seq<char>,
) -> Setting {
    match setting_of(token_value(user, construct, token, field)) {
        Some(s) => s,
        None => match setting_of(token_value(defaults, construct, token, field)) {
            Some(s) => s,
            None => Setting::Relative(0),
        },
    }
}

/// Where each setting of `construct.token.field` comes from.
pub type Settings = spec_fn(Seq<char>, Seq<char>, Seq<char>) -> Setting;

/// The effective settings of `user` over `defaults`.
pub open spec fn settings(user: Seq<TokenSettings>, defaults: Seq<TokenSettings>) -> Settings {
    |construct: Seq<char>, token: Seq<char>, field: Seq<char>|
        effective(user, defaults, construct, token, field)
}

fn field_setting(fields: &Vec<(String, SettingValue)>, field: &str) -> (r: Option<Setting>)
    ensures
        r == setting_of(field_value(fields@, field@)),
{
    let mut i: usize = 0;
    assert(fields@.skip(0) =~= fields@);
    while i < fields.len()
        invariant
            0 <= i <= fields@.len(),
            field_value(fields@, field@) == field_value(fields@.skip(i as int), field@),
        decreases fields@.len() - i,
    {
        assert(fields@.skip(i as int)[0] == fields@[i as int]);
        assert(fields@.skip(i as int).skip(1) =~= fields@.skip(i + 1));
        if str_eq(fields[i].0.as_str(), field) {
            return parse(&fields[i].1);
        }
        i = i + 1;
    }
    None
}

fn token_setting(tokens: &[TokenSettings], construct: &str, token: &str, field: &str) -> (r: Option<
    Setting,
>)
    ensures
        r == setting_of(token_value(tokens@, construct@, token@, field@)),
{
    let mut i: usize = 0;
    assert(tokens@.skip(0) =~= tokens@);
    while i < tokens.len()
        invariant
            0 <= i <= tokens@.len(),
            token_value(tokens@, construct@, token@, field@) == token_value(
                tokens@.skip(i as int),
                construct@,
                token@,
                field@,
            ),
        decreases tokens@.len() - i,
    {
        assert(tokens@.skip(i as int)[0] == tokens@[i as int]);
        assert(tokens@.skip(i as int).skip(1) =~= tokens@.skip(i + 1));
        let entry = &tokens[i];
        if str_eq(entry.construct.as_str(), construct) && str_eq(entry.token.as_str(), token) {
            return field_setting(&entry.fields, field);
        }
        i = i + 1;
    }
    None
}

/// A (construct, token) entry of `indent.tokens`.
pub type Key = (&'static str, &'static str);

pub open spec fn key_view(k: Key) -> (Seq<char>, Seq<char>) {
    (k.0@, k.1@)
}

/// What resolving has produced so far.
pub ghost struct RState {
    pub levels: Seq<Option<usize>>,
    pub warnings: Seq<Seq<char>>,
    /// The entries read, in the order first read.
    pub used: Seq<(Seq<char>, Seq<char>)>,
}

/// Reading `key.field` records the entry as interpreted.
pub open spec fn s_get(st: RState, key: (Seq<char>, Seq<char>)) -> RState {
    if st.used.contains(key) {
        st
    } else {
        RState { used: st.used.push(key), ..st }
    }
}

/// The warning for an absolute level outside a design unit.
pub open spec fn absolute_warning(name: Seq<char>) -> Seq<char> {
    "indent.tokens."@ + name + ": absolute indentation is only supported for design units"@
}

/// The warning for a part that would start left of its construct.
pub open spec fn left_warning(name: Seq<char>) -> Seq<char> {
    "indent.tokens."@ + name
        + ": a part would be indented left of its construct; not supported"@
}

/// The indent after applying `s` to `current`. Absolute settings are only meaningful for design
/// units, which start at level 0.
pub open spec fn s_apply(current: int, s: Setting, unit: bool) -> Option<int> {
    match s {
        Setting::Relative(d) => Some(current + d),
        Setting::Absolute(a) => if unit {
            Some(a as int)
        } else {
            None
        },
    }
}

/// Applying `s` warns when it cannot be applied.
pub open spec fn s_apply_state(st: RState, current: int, s: Setting, unit: bool, name: Seq<char>) -> RState {
    if s_apply(current, s, unit) is None {
        RState { warnings: st.warnings.push(absolute_warning(name)), ..st }
    } else {
        st
    }
}

/// Recording `level` for part `p` of `c`: nothing is kept for a default level, and a level left
/// of the construct (or past any machine level) is refused with a warning.
pub open spec fn s_set(st: RState, c: Construct, p: Part, level: int, name: Seq<char>) -> RState {
    if 0 <= level <= usize::MAX {
        let value = if level == spec_default_level(p) {
            None
        } else {
            Some(level as usize)
        };
        RState { levels: st.levels.update(spec_slot(c, p) as int, value), ..st }
    } else {
        RState { warnings: st.warnings.push(left_warning(name)), ..st }
    }
}

/// The levels of a construct with a body, an optional `begin` and an `end`, set in this order:
/// body, `begin`, statements, `end`.
pub open spec fn s_block(
    st: RState,
    eff: Settings,
    kind: Construct,
    name: Seq<char>,
    open: (Seq<char>, Seq<char>),
    begin: Option<(Seq<char>, Seq<char>)>,
    unit: bool,
) -> RState {
    let end_key = (name, "end_keyword"@);
    let st1 = s_get(st, open);
    let open_after = eff(open.0, open.1, "after"@);
    let st2 = s_apply_state(st1, 0, open_after, unit, name);
    match s_apply(0, open_after, unit) {
        None => st2,
        Some(body) => {
            let (st3, current, inner) = match begin {
                None => (st2, Some(body), None::<(int, int)>),
                Some(key) => {
                    let token = eff(key.0, key.1, "token"@);
                    let after = eff(key.0, key.1, "after"@);
                    let sa = s_apply_state(
                        s_apply_state(s_get(s_get(st2, key), key), body, token, unit, name),
                        body,
                        after,
                        unit,
                        name,
                    );
                    match (s_apply(body, token, unit), s_apply(body, after, unit)) {
                        (Some(b), Some(s)) => (sa, Some(s), Some((b, s))),
                        _ => (sa, None, None),
                    }
                },
            };
            match current {
                None => st3,
                Some(cur) => {
                    let end_token = eff(end_key.0, end_key.1, "token"@);
                    let st4 = s_apply_state(s_get(st3, end_key), cur, end_token, unit, name);
                    match s_apply(cur, end_token, unit) {
                        None => st4,
                        Some(end) => {
                            let st5 = s_set(st4, kind, Part::Body, body, name);
                            let st6 = match inner {
                                Some((b, s)) => s_set(
                                    s_set(st5, kind, Part::Begin, b, name),
                                    kind,
                                    Part::Statements,
                                    s,
                                    name,
                                ),
                                None => st5,
                            };
                            s_set(st6, kind, Part::End, end, name)
                        },
                    }
                },
            }
        },
    }
}

/// Both branch kinds get the level of the body relative to the branch, for their body and
/// their statements.
pub open spec fn s_branch_kinds(
    st: RState,
    kinds: Seq<Construct>,
    level: int,
    name: Seq<char>,
) -> RState
    decreases kinds.len(),
{
    if kinds.len() == 0 {
        st
    } else {
        let before = s_branch_kinds(st, kinds.drop_last(), level, name);
        s_set(
            s_set(before, kinds.last(), Part::Body, level, name),
            kinds.last(),
            Part::Statements,
            level,
            name,
        )
    }
}

/// The levels of a construct with branches (`elsif`, `when`) between the construct and its
/// bodies. With `when_branches` every body is inside a branch (`case`).
pub open spec fn s_branches(
    st: RState,
    eff: Settings,
    kind: Construct,
    branch_kinds: Seq<Construct>,
    name: Seq<char>,
    open: (Seq<char>, Seq<char>),
    branch: (Seq<char>, Seq<char>),
    when_branches: bool,
) -> RState {
    let end_key = (name, "end_keyword"@);
    let open_after = eff(open.0, open.1, "after"@);
    let branch_token = eff(branch.0, branch.1, "token"@);
    let end_token = eff(end_key.0, end_key.1, "token"@);
    let st1 = s_get(s_get(s_get(st, open), branch), end_key);
    let st2 = s_apply_state(st1, 0, open_after, false, name);
    match s_apply(0, open_after, false) {
        None => st2,
        Some(body) => {
            let st3 = s_apply_state(
                s_apply_state(st2, body, branch_token, false, name),
                body,
                end_token,
                false,
                name,
            );
            match (s_apply(body, branch_token, false), s_apply(body, end_token, false)) {
                (Some(b), Some(end)) => {
                    let st4 = if when_branches {
                        s_set(st3, kind, Part::Body, b, name)
                    } else {
                        s_set(s_set(st3, kind, Part::Body, body, name), kind, Part::Branch, b, name)
                    };
                    s_set(s_branch_kinds(st4, branch_kinds, body - b, name), kind, Part::End, end, name)
                },
                _ => st3,
            }
        },
    }
}

/// The levels of `generic (…)`, `port map (…)`: the elements and the closing parenthesis.
pub open spec fn s_list(
    st: RState,
    eff: Settings,
    kind: Construct,
    name: Seq<char>,
    keyword: Seq<char>,
) -> RState {
    let open = (name, keyword);
    let close = (name, "close_parenthesis"@);
    let after = eff(open.0, open.1, "after"@);
    let close_token = eff(close.0, close.1, "token"@);
    let st1 = s_apply_state(s_get(s_get(st, open), close), 0, after, false, name);
    match s_apply(0, after, false) {
        None => st1,
        Some(body) => {
            let st2 = s_apply_state(st1, body, close_token, false, name);
            match s_apply(body, close_token, false) {
                None => st2,
                Some(end) => s_set(s_set(st2, kind, Part::Body, body, name), kind, Part::End, end, name),
            }
        },
    }
}

/// Consecutive repeats of `s` dropped.
pub open spec fn dedup(s: Seq<Seq<char>>) -> Seq<Seq<char>>
    decreases s.len(),
{
    if s.len() <= 1 {
        s
    } else {
        let before = dedup(s.drop_last());
        if s.last() == s[s.len() - 2] {
            before
        } else {
            before.push(s.last())
        }
    }
}

/// The entries the user changed that were never read, as `construct.token`.
pub open spec fn unread(user: Seq<TokenSettings>, used: Seq<(Seq<char>, Seq<char>)>) -> Seq<
    Seq<char>,
>
    decreases user.len(),
{
    if user.len() == 0 {
        Seq::empty()
    } else {
        let before = unread(user.drop_last(), used);
        let e = user.last();
        if e.changed && !used.contains((e.construct@, e.token@)) {
            before.push(e.construct@ + "."@ + e.token@)
        } else {
            before
        }
    }
}

/// `parts` separated by `, `.
pub open spec fn joined(parts: Seq<Seq<char>>) -> Seq<char>
    decreases parts.len(),
{
    if parts.len() == 0 {
        Seq::empty()
    } else if parts.len() == 1 {
        parts[0]
    } else {
        joined(parts.drop_last()) + ", "@ + parts.last()
    }
}

/// The warning that lists the settings that were not interpreted.
pub open spec fn unsupported_warning(parts: Seq<Seq<char>>) -> Seq<char> {
    "indent.tokens: settings for "@ + joined(parts) + " are not supported and are ignored"@
}

/// The warning for a `use` clause level that is not `current` or `+N`.
pub open spec fn use_clause_warning() -> Seq<char> {
    "indent.tokens.use_clause: token_after_library_clause must be `current` or `+N`"@
}


/// Nothing recorded yet.
pub open spec fn initial_state() -> RState {
    RState {
        levels: Seq::new(slot_count(), |i: int| None::<usize>),
        warnings: Seq::empty(),
        used: Seq::empty(),
    }
}

/// A construct with a body and an `end`, or, for an instantiation, only a body.
pub open spec fn s_simple(
    st: RState,
    eff: Settings,
    kind: Construct,
    name: Seq<char>,
    keyword: Seq<char>,
    unit: bool,
) -> RState {
    if kind == Construct::ComponentInstantiationStatement {
        let after = eff(name, keyword, "after"@);
        let st1 = s_apply_state(s_get(st, (name, keyword)), 0, after, false, name);
        match s_apply(0, after, false) {
            Some(level) => s_set(st1, kind, Part::Body, level, name),
            None => st1,
        }
    } else {
        s_block(st, eff, kind, name, (name, keyword), None, unit)
    }
}

/// The level of an assertion's continuation lines: after the keyword, then at `report`.
pub open spec fn s_assertion(st: RState, eff: Settings) -> RState {
    let name = "assertion"@;
    let keyword_after = eff(name, "keyword"@, "after"@);
    let report = eff(name, "report_keyword"@, "token"@);
    let st1 = s_apply_state(
        s_get(s_get(st, (name, "keyword"@)), (name, "report_keyword"@)),
        0,
        keyword_after,
        false,
        name,
    );
    match s_apply(0, keyword_after, false) {
        None => st1,
        Some(l) => {
            let st2 = s_apply_state(st1, l, report, false, name);
            match s_apply(l, report, false) {
                Some(level) => s_set(st2, Construct::Assertion, Part::Body, level, name),
                None => st2,
            }
        },
    }
}

/// The levels and warnings of all the constructs, in the order they are resolved.
pub open spec fn s_constructs(eff: Settings) -> RState {
    let arch = "architecture_body"@;
    let entity = "entity_declaration"@;
    let generate_begin = ("generate_statement_body"@, "begin_keyword"@);
    let st = initial_state();
    let st = s_block(st, eff, Construct::ArchitectureBody, arch, (arch, "architecture_keyword"@), Some((arch, "begin_keyword"@)), true);
    let st = s_block(st, eff, Construct::EntityDeclaration, entity, (entity, "entity_keyword"@), Some((entity, "begin_keyword"@)), true);
    let st = s_simple(st, eff, Construct::ContextDeclaration, "context_declaration"@, "context_keyword"@, true);
    let st = s_simple(st, eff, Construct::PackageDeclaration, "package_declaration"@, "package_keyword"@, true);
    let st = s_simple(st, eff, Construct::PackageBody, "package_body"@, "package_keyword"@, true);
    let st = s_simple(st, eff, Construct::ComponentDeclaration, "component_declaration"@, "component_keyword"@, false);
    let st = s_simple(st, eff, Construct::LoopStatement, "loop_statement"@, "loop_keyword"@, false);
    let st = s_simple(st, eff, Construct::RecordTypeDefinition, "record_type_definition"@, "record_keyword"@, false);
    let st = s_simple(st, eff, Construct::ProtectedTypeDeclaration, "protected_type_declaration"@, "protected_keyword"@, false);
    let st = s_simple(st, eff, Construct::ProtectedTypeBody, "protected_type_body"@, "body_keyword"@, false);
    let st = s_simple(st, eff, Construct::ComponentInstantiationStatement, "component_instantiation_statement"@, "instantiation_label"@, false);
    let st = s_block(st, eff, Construct::ProcessStatement, "process_statement"@, ("process_statement"@, "process_keyword"@), Some(("process_statement"@, "begin_keyword"@)), false);
    let st = s_block(st, eff, Construct::BlockStatement, "block_statement"@, ("block_statement"@, "block_label"@), Some(("block_statement"@, "begin_keyword"@)), false);
    let st = s_block(st, eff, Construct::SubprogramBody, "subprogram_body"@, ("function_specification"@, "function_keyword"@), Some(("subprogram_body"@, "begin_keyword"@)), false);
    let st = s_block(st, eff, Construct::ForGenerateStatement, "for_generate_statement"@, ("for_generate_statement"@, "generate_label"@), Some(generate_begin), false);
    let st = s_block(st, eff, Construct::IfGenerateStatement, "if_generate_statement"@, ("if_generate_statement"@, "generate_label"@), Some(generate_begin), false);
    let st = s_branches(st, eff, Construct::IfStatement, seq![Construct::IfStatementElsif, Construct::IfStatementElse], "if_statement"@, ("if_statement"@, "if_keyword"@), ("if_statement"@, "elsif_keyword"@), false);
    let st = s_branches(st, eff, Construct::IfGenerateStatement, seq![Construct::IfGenerateElsif, Construct::IfGenerateElse], "if_generate_statement"@, ("if_generate_statement"@, "generate_label"@), ("if_generate_statement"@, "elsif_keyword"@), false);
    let st = s_branches(st, eff, Construct::CaseStatement, seq![Construct::CaseStatementAlternative], "case_statement"@, ("case_statement"@, "case_keyword"@), ("case_statement_alternative"@, "when_keyword"@), true);
    let st = s_branches(st, eff, Construct::CaseGenerateStatement, seq![Construct::CaseGenerateAlternative], "case_generate_statement"@, ("case_generate_statement"@, "generate_label"@), ("case_generate_alternative"@, "when_keyword"@), true);
    let st = s_list(st, eff, Construct::GenericClause, "generic_clause"@, "generic_keyword"@);
    let st = s_list(st, eff, Construct::PortClause, "port_clause"@, "port_keyword"@);
    let st = s_list(st, eff, Construct::GenericMapAspect, "generic_map_aspect"@, "generic_keyword"@);
    let st = s_list(st, eff, Construct::PortMapAspect, "port_map_aspect"@, "port_keyword"@);
    s_assertion(st, eff)
}

/// The setting for `use` clauses after a `library` clause.
pub open spec fn use_setting(user: Seq<TokenSettings>, defaults: Seq<TokenSettings>) -> Setting {
    effective(user, defaults, "use_clause"@, "keyword"@, "token_after_library_clause"@)
}

/// The level of `use` clauses after a `library` clause, where it is not the default `+1`.
pub open spec fn spec_use_after_library(s: Setting) -> Option<usize> {
    match s {
        Setting::Relative(d) => if 0 <= d <= usize::MAX && d != 1 {
            Some(d as usize)
        } else {
            None
        },
        Setting::Absolute(_) => None,
    }
}

/// Whether the `use` clause setting is one that can be honoured.
pub open spec fn use_setting_ok(s: Setting) -> bool {
    s matches Setting::Relative(d) && d >= 0
}

/// The state once the `use` clause setting is read.
pub open spec fn s_resolved(user: Seq<TokenSettings>, defaults: Seq<TokenSettings>) -> RState {
    let st = s_get(s_constructs(settings(user, defaults)), ("use_clause"@, "keyword"@));
    if use_setting_ok(use_setting(user, defaults)) {
        st
    } else {
        RState { warnings: st.warnings.push(use_clause_warning()), ..st }
    }
}

/// All warnings of resolving, consecutive repeats dropped.
pub open spec fn resolve_warnings(user: Seq<TokenSettings>, defaults: Seq<TokenSettings>) -> Seq<
    Seq<char>,
> {
    let st = s_resolved(user, defaults);
    let ignored = unread(user, st.used);
    dedup(
        if ignored.len() > 0 {
            st.warnings.push(unsupported_warning(ignored))
        } else {
            st.warnings
        },
    )
}

pub open spec fn texts(v: Seq<String>) -> Seq<Seq<char>> {
    Seq::new(v.len(), |i: int| v[i]@)
}

pub open spec fn keys_view(v: Seq<Key>) -> Seq<(Seq<char>, Seq<char>)> {
    Seq::new(v.len(), |i: int| key_view(v[i]))
}

fn absolute_message(name: &str) -> (r: String)
    ensures
        r@ == absolute_warning(name@),
{
    let mut s = String::from_str("indent.tokens.");
    s.append(name);
    s.append(": absolute indentation is only supported for design units");
    s
}

fn left_message(name: &str) -> (r: String)
    ensures
        r@ == left_warning(name@),
{
    let mut s = String::from_str("indent.tokens.");
    s.append(name);
    s.append(": a part would be indented left of its construct; not supported");
    s
}

/// Levels a few applications away from 0 stay far inside `i128`.
pub open spec fn near(v: int) -> bool {
    -0x1_0000_0000_0000_0000_0000 <= v <= 0x1_0000_0000_0000_0000_0000
}

/// `v` is at most one `i64` further from 0 than `current`.
pub open spec fn step_away(current: int, v: int) -> bool {
    let m = if current < 0 {
        -current
    } else {
        current
    };
    -0x8000_0000_0000_0000 - m <= v <= 0x8000_0000_0000_0000 + m
}

struct Resolver {
    levels: Vec<Option<usize>>,
    warnings: Vec<String>,
    used: Vec<Key>,
}

impl Resolver {
    spec fn state(&self) -> RState {
        RState { levels: self.levels@, warnings: texts(self.warnings@), used: keys_view(self.used@) }
    }

    spec fn wf(&self) -> bool {
        self.levels@.len() == slot_count()
    }

    fn get(&mut self, user: &[TokenSettings], defaults: &[TokenSettings], key: Key, field: &str) -> (r:
        Setting)
        requires
            old(self).wf(),
        ensures
            final(self).wf(),
            final(self).state() == s_get(old(self).state(), key_view(key)),
            r == effective(user@, defaults@, key.0@, key.1@, field@),
    {
        let ghost used0 = keys_view(self.used@);
        let mut known = false;
        let mut i: usize = 0;
        while i < self.used.len()
            invariant
                0 <= i <= self.used@.len(),
                used0 == keys_view(self.used@),
                known == (exists|k: int| 0 <= k < i && #[trigger] used0[k] == key_view(key)),
            decreases self.used@.len() - i,
        {
            let (c, t) = self.used[i];
            if str_eq(c, key.0) && str_eq(t, key.1) {
                known = true;
            }
            assert(used0[i as int] == key_view(self.used@[i as int]));
            i = i + 1;
        }
        if !known {
            self.used.push(key);
            assert(keys_view(self.used@) =~= used0.push(key_view(key)));
        }
        proof {
            if known {
                let k = choose|k: int| 0 <= k < i && #[trigger] used0[k] == key_view(key);
                assert(used0.contains(key_view(key)));
            } else {
                assert(!used0.contains(key_view(key)));
            }
        }
        match token_setting(user, key.0, key.1, field) {
            Some(s) => s,
            None => match token_setting(defaults, key.0, key.1, field) {
                Some(s) => s,
                None => Setting::Relative(0),
            },
        }
    }

    fn apply(&mut self, current: i128, s: Setting, unit: bool, name: &str) -> (r: Option<i128>)
        requires
            old(self).wf(),
            near(current as int),
        ensures
            final(self).wf(),
            final(self).state() == s_apply_state(old(self).state(), current as int, s, unit, name@),
            match r {
                Some(v) => s_apply(current as int, s, unit) == Some(v as int) && step_away(
                    current as int,
                    v as int,
                ),
                None => s_apply(current as int, s, unit) is None,
            },
    {
        match s {
            Setting::Relative(d) => Some(current + d as i128),
            Setting::Absolute(a) => {
                if unit {
                    Some(a as i128)
                } else {
                    let ghost w0 = texts(self.warnings@);
                    self.warnings.push(absolute_message(name));
                    assert(texts(self.warnings@) =~= w0.push(absolute_warning(name@)));
                    None
                }
            },
        }
    }

    fn set(&mut self, c: Construct, p: Part, level: i128, name: &str)
        requires
            old(self).wf(),
        ensures
            final(self).wf(),
            final(self).state() == s_set(old(self).state(), c, p, level as int, name@),
    {
        if 0 <= level && level <= usize::MAX as i128 {
            let l = level as usize;
            let value = if l == p.default_level() {
                None
            } else {
                Some(l)
            };
            let i = slot(c, p);
            self.levels.set(i, value);
        } else {
            let ghost w0 = texts(self.warnings@);
            self.warnings.push(left_message(name));
            assert(texts(self.warnings@) =~= w0.push(left_warning(name@)));
        }
    }
}


pub open spec fn opt_key_view(k: Option<Key>) -> Option<(Seq<char>, Seq<char>)> {
    match k {
        Some(k) => Some(key_view(k)),
        None => None,
    }
}

impl Resolver {
    /// A construct with a body, an optional `begin` and an `end`.
    fn block(
        &mut self,
        user: &[TokenSettings],
        defaults: &[TokenSettings],
        kind: Construct,
        name: &'static str,
        open: Key,
        begin: Option<Key>,
        unit: bool,
    )
        requires
            old(self).wf(),
        ensures
            final(self).wf(),
            final(self).state() == s_block(
                old(self).state(),
                settings(user@, defaults@),
                kind,
                name@,
                key_view(open),
                opt_key_view(begin),
                unit,
            ),
    {
        let open_after = self.get(user, defaults, open, "after");
        let body = match self.apply(0, open_after, unit, name) {
            Some(b) => b,
            None => {
                return ;
            },
        };
        let mut current = body;
        let mut inner: Option<(i128, i128)> = None;
        if let Some(key) = begin {
            let token = self.get(user, defaults, key, "token");
            let after = self.get(user, defaults, key, "after");
            let b = self.apply(current, token, unit, name);
            let s = self.apply(current, after, unit, name);
            match (b, s) {
                (Some(b), Some(s)) => {
                    inner = Some((b, s));
                    current = s;
                },
                _ => {
                    return ;
                },
            }
        }
        let end_token = self.get(user, defaults, (name, "end_keyword"), "token");
        let end = match self.apply(current, end_token, unit, name) {
            Some(e) => e,
            None => {
                return ;
            },
        };
        self.set(kind, Part::Body, body, name);
        if let Some((b, s)) = inner {
            self.set(kind, Part::Begin, b, name);
            self.set(kind, Part::Statements, s, name);
        }
        self.set(kind, Part::End, end, name);
    }

    /// A construct with branches (`elsif`, `when`) between the construct and its bodies.
    /// `when_branches`: every body is inside a branch (`case`).
    fn branches(
        &mut self,
        user: &[TokenSettings],
        defaults: &[TokenSettings],
        kind: Construct,
        branch_kinds: &[Construct],
        name: &'static str,
        open: Key,
        branch: Key,
        when_branches: bool,
    )
        requires
            old(self).wf(),
        ensures
            final(self).wf(),
            final(self).state() == s_branches(
                old(self).state(),
                settings(user@, defaults@),
                kind,
                branch_kinds@,
                name@,
                key_view(open),
                key_view(branch),
                when_branches,
            ),
    {
        let open_after = self.get(user, defaults, open, "after");
        let branch_token = self.get(user, defaults, branch, "token");
        let end_token = self.get(user, defaults, (name, "end_keyword"), "token");
        let body = match self.apply(0, open_after, false, name) {
            Some(b) => b,
            None => {
                return ;
            },
        };
        let b = self.apply(body, branch_token, false, name);
        let e = self.apply(body, end_token, false, name);
        let (b, end) = match (b, e) {
            (Some(b), Some(e)) => (b, e),
            _ => {
                return ;
            },
        };
        if when_branches {
            self.set(kind, Part::Body, b, name);
        } else {
            self.set(kind, Part::Body, body, name);
            self.set(kind, Part::Branch, b, name);
        }
        let ghost st4 = self.state();
        let mut i: usize = 0;
        assert(branch_kinds@.take(0) =~= Seq::<Construct>::empty());
        while i < branch_kinds.len()
            invariant
                0 <= i <= branch_kinds@.len(),
                self.wf(),
                near(body as int),
                near(b as int),
                self.state() == s_branch_kinds(st4, branch_kinds@.take(i as int), body - b, name@),
            decreases branch_kinds@.len() - i,
        {
            let bk = branch_kinds[i];
            self.set(bk, Part::Body, body - b, name);
            self.set(bk, Part::Statements, body - b, name);
            assert(branch_kinds@.take(i + 1).drop_last() =~= branch_kinds@.take(i as int));
            i = i + 1;
        }
        assert(branch_kinds@.take(i as int) =~= branch_kinds@);
        self.set(kind, Part::End, end, name);
    }

    /// `generic (…)`, `port map (…)`: elements and the closing parenthesis.
    fn list(
        &mut self,
        user: &[TokenSettings],
        defaults: &[TokenSettings],
        kind: Construct,
        name: &'static str,
        keyword: &'static str,
    )
        requires
            old(self).wf(),
        ensures
            final(self).wf(),
            final(self).state() == s_list(old(self).state(), settings(user@, defaults@), kind, name@, keyword@),
    {
        let after = self.get(user, defaults, (name, keyword), "after");
        let close = self.get(user, defaults, (name, "close_parenthesis"), "token");
        let body = match self.apply(0, after, false, name) {
            Some(b) => b,
            None => {
                return ;
            },
        };
        let end = match self.apply(body, close, false, name) {
            Some(e) => e,
            None => {
                return ;
            },
        };
        self.set(kind, Part::Body, body, name);
        self.set(kind, Part::End, end, name);
    }

    /// A construct with a body and an `end`, or, for an instantiation, only a body.
    fn simple(
        &mut self,
        user: &[TokenSettings],
        defaults: &[TokenSettings],
        kind: Construct,
        name: &'static str,
        keyword: &'static str,
        unit: bool,
    )
        requires
            old(self).wf(),
        ensures
            final(self).wf(),
            final(self).state() == s_simple(old(self).state(), settings(user@, defaults@), kind, name@, keyword@, unit),
    {
        if kind == Construct::ComponentInstantiationStatement {
            let after = self.get(user, defaults, (name, keyword), "after");
            if let Some(level) = self.apply(0, after, false, name) {
                self.set(kind, Part::Body, level, name);
            }
        } else {
            self.block(user, defaults, kind, name, (name, keyword), None, unit);
        }
    }

    /// The level of an assertion's continuation lines.
    fn assertion(&mut self, user: &[TokenSettings], defaults: &[TokenSettings])
        requires
            old(self).wf(),
        ensures
            final(self).wf(),
            final(self).state() == s_assertion(old(self).state(), settings(user@, defaults@)),
    {
        let keyword_after = self.get(user, defaults, ("assertion", "keyword"), "after");
        let report = self.get(user, defaults, ("assertion", "report_keyword"), "token");
        if let Some(l) = self.apply(0, keyword_after, false, "assertion") {
            if let Some(level) = self.apply(l, report, false, "assertion") {
                self.set(Construct::Assertion, Part::Body, level, "assertion");
            }
        }
    }
}


/// The last of `s` is kept when consecutive repeats are dropped.
proof fn lemma_dedup_last(s: Seq<Seq<char>>)
    requires
        s.len() > 0,
    ensures
        dedup(s).len() > 0,
        dedup(s).last() == s.last(),
    decreases s.len(),
{
    if s.len() > 1 {
        lemma_dedup_last(s.drop_last());
    }
}

fn dedup_texts(v: Vec<String>) -> (r: Vec<String>)
    ensures
        texts(r@) == dedup(texts(v@)),
{
    let ghost all = texts(v@);
    let mut out: Vec<String> = Vec::new();
    let mut i: usize = 0;
    assert(all.take(0) =~= Seq::<Seq<char>>::empty());
    while i < v.len()
        invariant
            0 <= i <= v@.len(),
            all == texts(v@),
            texts(out@) == dedup(all.take(i as int)),
            i > 0 ==> out@.len() > 0 && out@.last()@ == all[i - 1],
        decreases v@.len() - i,
    {
        let ghost t = all.take(i + 1);
        assert(t.drop_last() =~= all.take(i as int));
        assert(t.last() == v@[i as int]@);
        if i > 0 {
            assert(t[t.len() - 2] == all[i - 1]);
        }
        let repeat = out.len() > 0 && str_eq(out[out.len() - 1].as_str(), v[i].as_str());
        if !repeat {
            let ghost o0 = texts(out@);
            out.push(v[i].clone());
            assert(texts(out@) =~= o0.push(v@[i as int]@));
        }
        i = i + 1;
    }
    assert(all.take(v@.len() as int) =~= all);
    out
}

/// The entries of `user` that changed something and were never read, as `construct.token`.
fn unread_entries(user: &[TokenSettings], used: &Vec<Key>) -> (r: Vec<String>)
    ensures
        texts(r@) == unread(user@, keys_view(used@)),
{
    let ghost keys = keys_view(used@);
    let mut out: Vec<String> = Vec::new();
    let mut i: usize = 0;
    assert(user@.take(0) =~= Seq::<TokenSettings>::empty());
    while i < user.len()
        invariant
            0 <= i <= user@.len(),
            keys == keys_view(used@),
            texts(out@) == unread(user@.take(i as int), keys),
        decreases user@.len() - i,
    {
        assert(user@.take(i + 1).drop_last() =~= user@.take(i as int));
        let e = &user[i];
        assert(user@.take(i + 1).last() == *e);
        let mut known = false;
        let mut k: usize = 0;
        while k < used.len()
            invariant
                0 <= k <= used@.len(),
                keys == keys_view(used@),
                known == (exists|m: int| 0 <= m < k && #[trigger] keys[m] == (e.construct@, e.token@)),
            decreases used@.len() - k,
        {
            let (c, t) = used[k];
            assert(keys[k as int] == key_view(used@[k as int]));
            if str_eq(c, e.construct.as_str()) && str_eq(t, e.token.as_str()) {
                known = true;
            }
            k = k + 1;
        }
        proof {
            if known {
                let m = choose|m: int| 0 <= m < k && #[trigger] keys[m] == (e.construct@, e.token@);
                assert(keys.contains((e.construct@, e.token@)));
            } else {
                assert(!keys.contains((e.construct@, e.token@)));
            }
        }
        if e.changed && !known {
            let mut name = e.construct.clone();
            name.append(".");
            name.append(e.token.as_str());
            let ghost o0 = texts(out@);
            out.push(name);
            assert(texts(out@) =~= o0.push(e.construct@ + "."@ + e.token@));
        }
        i = i + 1;
    }
    assert(user@.take(user@.len() as int) =~= user@);
    out
}

/// `parts` separated by `, `.
fn join_texts(parts: &Vec<String>) -> (r: String)
    ensures
        r@ == joined(texts(parts@)),
{
    let ghost all = texts(parts@);
    let mut out = String::new();
    let mut i: usize = 0;
    assert(all.take(0) =~= Seq::<Seq<char>>::empty());
    while i < parts.len()
        invariant
            0 <= i <= parts@.len(),
            all == texts(parts@),
            out@ == joined(all.take(i as int)),
        decreases parts@.len() - i,
    {
        assert(all.take(i + 1).drop_last() =~= all.take(i as int));
        assert(all.take(i + 1).last() == parts@[i as int]@);
        if i > 0 {
            out.append(", ");
        } else {
            assert(all.take(1)[0] == parts@[0]@);
            assert(out@ + parts@[0]@ =~= parts@[0]@);
        }
        out.append(parts[i].as_str());
        i = i + 1;
    }
    assert(all.take(parts@.len() as int) =~= all);
    out
}

/// Resolve the effective `indent.tokens`: the user's settings over VSG's `defaults`. Returns
/// the policy and the warnings about settings that cannot be honoured.
pub fn resolve(user: &[TokenSettings], defaults: &[TokenSettings]) -> (r: (IndentPolicy, Vec<String>))
    ensures
        r.0.spec_levels() == s_resolved(user@, defaults@).levels,
        r.0.spec_use_after_library() == spec_use_after_library(use_setting(user@, defaults@)),
        texts(r.1@) == resolve_warnings(user@, defaults@),
{
    let (u, d) = (user, defaults);
    let mut r = Resolver { levels: no_levels(150), warnings: Vec::new(), used: Vec::new() };
    assert(r.state().levels =~= initial_state().levels);
    assert(r.state().warnings =~= initial_state().warnings);
    assert(r.state().used =~= initial_state().used);
    let arch = "architecture_body";
    let entity = "entity_declaration";
    let generate_begin = ("generate_statement_body", "begin_keyword");
    r.block(u, d, Construct::ArchitectureBody, arch, (arch, "architecture_keyword"), Some((arch, "begin_keyword")), true);
    r.block(u, d, Construct::EntityDeclaration, entity, (entity, "entity_keyword"), Some((entity, "begin_keyword")), true);
    r.simple(u, d, Construct::ContextDeclaration, "context_declaration", "context_keyword", true);
    r.simple(u, d, Construct::PackageDeclaration, "package_declaration", "package_keyword", true);
    r.simple(u, d, Construct::PackageBody, "package_body", "package_keyword", true);
    r.simple(u, d, Construct::ComponentDeclaration, "component_declaration", "component_keyword", false);
    r.simple(u, d, Construct::LoopStatement, "loop_statement", "loop_keyword", false);
    r.simple(u, d, Construct::RecordTypeDefinition, "record_type_definition", "record_keyword", false);
    r.simple(u, d, Construct::ProtectedTypeDeclaration, "protected_type_declaration", "protected_keyword", false);
    r.simple(u, d, Construct::ProtectedTypeBody, "protected_type_body", "body_keyword", false);
    r.simple(u, d, Construct::ComponentInstantiationStatement, "component_instantiation_statement", "instantiation_label", false);
    // Constructs with a `begin` between the declarations and the statements. The opening
    // keyword and the body do not always belong to the construct's own settings.
    r.block(u, d, Construct::ProcessStatement, "process_statement", ("process_statement", "process_keyword"), Some(("process_statement", "begin_keyword")), false);
    r.block(u, d, Construct::BlockStatement, "block_statement", ("block_statement", "block_label"), Some(("block_statement", "begin_keyword")), false);
    r.block(u, d, Construct::SubprogramBody, "subprogram_body", ("function_specification", "function_keyword"), Some(("subprogram_body", "begin_keyword")), false);
    r.block(u, d, Construct::ForGenerateStatement, "for_generate_statement", ("for_generate_statement", "generate_label"), Some(generate_begin), false);
    r.block(u, d, Construct::IfGenerateStatement, "if_generate_statement", ("if_generate_statement", "generate_label"), Some(generate_begin), false);
    let if_kinds = [Construct::IfStatementElsif, Construct::IfStatementElse];
    assert(if_kinds@ =~= seq![Construct::IfStatementElsif, Construct::IfStatementElse]);
    r.branches(u, d, Construct::IfStatement, &if_kinds, "if_statement", ("if_statement", "if_keyword"), ("if_statement", "elsif_keyword"), false);
    let generate_kinds = [Construct::IfGenerateElsif, Construct::IfGenerateElse];
    assert(generate_kinds@ =~= seq![Construct::IfGenerateElsif, Construct::IfGenerateElse]);
    r.branches(u, d, Construct::IfGenerateStatement, &generate_kinds, "if_generate_statement", ("if_generate_statement", "generate_label"), ("if_generate_statement", "elsif_keyword"), false);
    let case_kinds = [Construct::CaseStatementAlternative];
    assert(case_kinds@ =~= seq![Construct::CaseStatementAlternative]);
    r.branches(u, d, Construct::CaseStatement, &case_kinds, "case_statement", ("case_statement", "case_keyword"), ("case_statement_alternative", "when_keyword"), true);
    let case_generate_kinds = [Construct::CaseGenerateAlternative];
    assert(case_generate_kinds@ =~= seq![Construct::CaseGenerateAlternative]);
    r.branches(u, d, Construct::CaseGenerateStatement, &case_generate_kinds, "case_generate_statement", ("case_generate_statement", "generate_label"), ("case_generate_alternative", "when_keyword"), true);
    r.list(u, d, Construct::GenericClause, "generic_clause", "generic_keyword");
    r.list(u, d, Construct::PortClause, "port_clause", "port_keyword");
    r.list(u, d, Construct::GenericMapAspect, "generic_map_aspect", "generic_keyword");
    r.list(u, d, Construct::PortMapAspect, "port_map_aspect", "port_keyword");
    r.assertion(u, d);
    assert(r.state() == s_constructs(settings(user@, defaults@)));
    let after_library = r.get(u, d, ("use_clause", "keyword"), "token_after_library_clause");
    let mut use_after_library: Option<usize> = None;
    match after_library {
        Setting::Relative(n) if n >= 0 => {
            let level: usize = if n as u64 <= usize::MAX as u64 {
                n as usize
            } else {
                1
            };
            if level != 1 {
                use_after_library = Some(level);
            }
        },
        _ => {
            let ghost w0 = texts(r.warnings@);
            r.warnings.push(String::from_str("indent.tokens.use_clause: token_after_library_clause must be `current` or `+N`"));
            assert(texts(r.warnings@) =~= w0.push(use_clause_warning()));
        },
    }
    assert(r.state() == s_resolved(user@, defaults@));
    let ignored = unread_entries(user, &r.used);
    let mut warnings = r.warnings;
    if ignored.len() > 0 {
        let mut w = String::from_str("indent.tokens: settings for ");
        let list = join_texts(&ignored);
        w.append(list.as_str());
        w.append(" are not supported and are ignored");
        let ghost w0 = texts(warnings@);
        warnings.push(w);
        assert(texts(warnings@) =~= w0.push(unsupported_warning(texts(ignored@))));
    }
    let warnings = dedup_texts(warnings);
    (IndentPolicy { levels: r.levels, use_after_library }, warnings)
}


proof fn lemma_nothing_unread(user: Seq<TokenSettings>, used: Seq<(Seq<char>, Seq<char>)>)
    requires
        forall|i: int| 0 <= i < user.len() ==> !(#[trigger] user[i]).changed,
    ensures
        unread(user, used) == Seq::<Seq<char>>::empty(),
    decreases user.len(),
{
    if user.len() > 0 {
        lemma_nothing_unread(user.drop_last(), used);
        assert(!user[user.len() - 1].changed);
    }
}

/// Writing VSG's defaults out as the user's settings, unchanged, resolves exactly as giving no
/// settings: the same levels, the same `use` clause level and the same warnings.
pub proof fn law_explicit_defaults_change_nothing(defaults: Seq<TokenSettings>)
    requires
        forall|i: int| 0 <= i < defaults.len() ==> !(#[trigger] defaults[i]).changed,
    ensures
        s_resolved(defaults, defaults).levels == s_resolved(Seq::empty(), defaults).levels,
        spec_use_after_library(use_setting(defaults, defaults)) == spec_use_after_library(
            use_setting(Seq::empty(), defaults),
        ),
        resolve_warnings(defaults, defaults) == resolve_warnings(Seq::empty(), defaults),
{
    let none = Seq::<TokenSettings>::empty();
    assert forall|c: Seq<char>, t: Seq<char>, f: Seq<char>|
        effective(defaults, defaults, c, t, f) == effective(none, defaults, c, t, f) by {
        assert(token_value(none, c, t, f) is None);
    }
    assert(settings(defaults, defaults) =~= settings(none, defaults));
    let st = s_resolved(defaults, defaults);
    lemma_nothing_unread(defaults, st.used);
    lemma_nothing_unread(none, s_resolved(none, defaults).used);
}

} // verus!
