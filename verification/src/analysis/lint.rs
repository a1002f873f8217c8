//! The lint layer (`--check lint`): rules that need names to be resolved.
//!
//! "Lint" in the sense `lint(1)` and every EDA lint tool mean it — code that is legal but
//! probably wrong — as opposed to the `style` layer, which is VSG's style guide. None of this is
//! VSG: these rules have no VSG counterpart and carry ids of their own, so a default run still
//! reports exactly what VSG reports.
//!
//! `vhdl_lang` does the analysis, over the whole file set, because resolution needs the library
//! rather than one file. What it reports is mapped, as `lint_001` to `lint_502`, through the
//! table of [`codes`]. The ones that need the library map say nothing until the project has
//! one, because an unresolved name produces thousands of knock-on findings when the mapping is
//! incomplete -- see [`needs_no_library_map`].
use vstd::prelude::*;

use std::path::PathBuf;

use crate::analysis::{Certainty, Rule};
use crate::bytes::str_eq;

verus! {

#[verifier::external_type_specification]
#[verifier::external_body]
pub struct ExPathBuf(PathBuf);

/// `PathBuf::clone`, which findings and sources need to be cloned; nothing is claimed of the
/// copy.
pub assume_specification[ <PathBuf as Clone>::clone ](p: &PathBuf) -> PathBuf;

/// Another place that is part of the same finding: the other driver, the next signal in a
/// cycle, the declaration a name resolves to. Structured rather than written into the message,
/// so the console, SARIF and any future consumer can each present it their own way.
#[derive(Debug, Clone)]
pub struct Related {
    pub file: PathBuf,
    /// One-based, as every report format wants it.
    pub line: usize,
    pub column: usize,
    pub message: String,
}

/// One finding, in the shape the command line reports.
#[derive(Debug)]
pub struct Finding {
    pub file: PathBuf,
    pub rule: &'static str,
    /// One-based, as every report format wants it.
    pub line: usize,
    pub column: usize,
    pub message: String,
    /// The other places this finding is about. Empty for most rules.
    pub related: Vec<Related>,
}

/// A finding as plain values: its rule, line, column and message, and the line, column and
/// message of each related place. (The file is carried through as it was given.)
pub ghost struct SFinding {
    pub rule: Seq<char>,
    pub line: int,
    pub column: int,
    pub message: Seq<char>,
    pub related: Seq<(int, int, Seq<char>)>,
}

pub open spec fn related_view(r: Related) -> (int, int, Seq<char>) {
    (r.line as int, r.column as int, r.message@)
}

pub open spec fn finding_view(f: Finding) -> SFinding {
    SFinding {
        rule: f.rule@,
        line: f.line as int,
        column: f.column as int,
        message: f.message@,
        related: f.related@.map_values(|r: Related| related_view(r)),
    }
}

pub open spec fn finding_views(v: Seq<Finding>) -> Seq<SFinding> {
    v.map_values(|f: Finding| finding_view(f))
}

pub struct Analysis {
    pub findings: Vec<Finding>,
    /// Inputs `vhdl_lang` could not parse, which keep their style findings and nothing else.
    pub unanalysed: Vec<PathBuf>,
    /// Whether the project told us what its libraries are (`vhdl_ls.toml`).
    pub mapped: bool,
}

/// The rules that only need the file itself.
pub open spec fn spec_needs_no_library_map(rule: Seq<char>) -> bool {
    rule == "lint_001"@ || rule == "lint_002"@ || rule == "lint_003"@
}

/// Rules that only need the file itself, and so mean something even when the run does not know
/// what the project's libraries are.
///
/// Without a library map every name from another library is unresolved, and an unresolved name
/// makes the rules that depend on resolution produce nonsense: on 50 `VUnit` files, 9968
/// `lint_100` findings and 623 knock-on `lint_302`. Reporting those by default would make the
/// first run useless, so they wait until the project says where its libraries are.
pub fn needs_no_library_map(rule: &str) -> (r: bool)
    ensures
        r == spec_needs_no_library_map(rule@),
{
    str_eq(rule, "lint_001") || str_eq(rule, "lint_002") || str_eq(rule, "lint_003")
}

/// The findings of `findings` that need no library map, in order.
pub open spec fn without_map(findings: Seq<Finding>) -> Seq<Finding>
    decreases findings.len(),
{
    if findings.len() == 0 {
        Seq::empty()
    } else if spec_needs_no_library_map(findings.last().rule@) {
        without_map(findings.drop_last()).push(findings.last())
    } else {
        without_map(findings.drop_last())
    }
}

/// What [`Analysis::reportable`] keeps.
pub open spec fn spec_reportable(mapped: bool, findings: Seq<Finding>) -> Seq<Finding> {
    if mapped {
        findings
    } else {
        without_map(findings)
    }
}

impl Analysis {
    /// The findings worth showing, which is not all of them when the project has no library map.
    ///
    /// Every caller of the front end needs this same filter, and getting it wrong is not visible
    /// in the output: too little looks like a clean file, too much like a broken one.
    pub fn reportable(self) -> (r: Vec<Finding>)
        ensures
            r@ == spec_reportable(self.mapped, self.findings@),
    {
        if self.mapped {
            return self.findings;
        }
        let ghost orig = self.findings@;
        let mut v = self.findings;
        // Take the findings from the back, keeping the reportable ones in reverse order.
        let mut kept_rev: Vec<Finding> = Vec::new();
        while v.len() > 0
            invariant
                v@ == orig.take(v@.len() as int),
                v@.len() <= orig.len(),
                without_map(orig) == without_map(v@) + kept_rev@.reverse(),
            decreases v@.len(),
        {
            let ghost before = v@;
            let f = v.pop().unwrap();
            proof {
                assert(before.drop_last() =~= v@);
                assert(v@ =~= orig.take(v@.len() as int));
            }
            if needs_no_library_map(f.rule) {
                let ghost kr = kept_rev@;
                kept_rev.push(f);
                proof {
                    assert(kept_rev@.reverse() =~= seq![f] + kr.reverse());
                    assert(without_map(before) == without_map(v@).push(f));
                    assert(without_map(v@).push(f) + kr.reverse() =~= without_map(v@) + (seq![f] + kr.reverse()));
                }
            }
        }
        proof {
            assert(v@ =~= Seq::<Finding>::empty());
            assert(without_map(v@) =~= Seq::<Finding>::empty());
            assert(without_map(orig) =~= kept_rev@.reverse());
        }
        let mut out: Vec<Finding> = Vec::new();
        while kept_rev.len() > 0
            invariant
                without_map(orig) == out@ + kept_rev@.reverse(),
            decreases kept_rev@.len(),
        {
            let ghost kr = kept_rev@;
            let f = kept_rev.pop().unwrap();
            let ghost ob = out@;
            out.push(f);
            proof {
                assert(kr.reverse() =~= seq![f] + kept_rev@.reverse());
                assert(out@ + kept_rev@.reverse() =~= ob + kr.reverse());
            }
        }
        proof {
            assert(out@ + kept_rev@.reverse() =~= out@);
        }
        out
    }
}

/// A `vhdl_lang` diagnostic this layer reports: its error code, our rule id, what it means and
/// how sure it is.
pub type Code = (&'static str, &'static str, &'static str, Certainty);

/// Every `vhdl_lang` diagnostic this layer reports, in order.
pub open spec fn spec_codes() -> Seq<Code> {
    seq![
        (
            "MissingInSensitivityList",
            "lint_001",
            "A signal read by a combinational process is missing from its sensitivity list.",
            Certainty::Advisory,
        ),
        (
            "SuperfluousInSensitivityList",
            "lint_002",
            "A signal in a sensitivity list is not read by the process.",
            Certainty::Advisory,
        ),
        (
            "DisallowedInSensitivityList",
            "lint_003",
            "An item that may not appear in a sensitivity list.",
            Certainty::Definite,
        ),
        (
            "Unused",
            "lint_004",
            "A declaration is never used.",
            Certainty::Advisory,
        ),
        (
            "UnnecessaryWorkLibrary",
            "lint_005",
            "`library work` is implicit and does not need declaring.",
            Certainty::Advisory,
        ),
        (
            "UnassociatedContext",
            "lint_006",
            "A context clause is not attached to any design unit.",
            Certainty::Advisory,
        ),
        (
            "Unresolved",
            "lint_100",
            "A name cannot be resolved to any declaration.",
            Certainty::Definite,
        ),
        (
            "Duplicate",
            "lint_101",
            "Two declarations of the same thing in one place.",
            Certainty::Definite,
        ),
        (
            "DeclaredBefore",
            "lint_102",
            "A secondary unit is analysed before the primary unit it belongs to.",
            Certainty::Definite,
        ),
        (
            "MissingDeferredDeclaration",
            "lint_103",
            "A deferred constant has no full declaration.",
            Certainty::Definite,
        ),
        (
            "MissingFullTypeDeclaration",
            "lint_104",
            "An incomplete type has no full declaration.",
            Certainty::Definite,
        ),
        (
            "MissingProtectedBodyType",
            "lint_105",
            "A protected type has no body.",
            Certainty::Definite,
        ),
        (
            "IllegalDeferredConstant",
            "lint_106",
            "A deferred constant where none is allowed.",
            Certainty::Definite,
        ),
        (
            "DeclarationNotAllowed",
            "lint_107",
            "A declaration that this region does not allow.",
            Certainty::Definite,
        ),
        (
            "ConflictingUseClause",
            "lint_108",
            "Two use clauses make the same name visible.",
            Certainty::Definite,
        ),
        (
            "CircularDependency",
            "lint_109",
            "Design units depend on each other in a cycle.",
            Certainty::Definite,
        ),
        (
            "ConfigNotInSameLibrary",
            "lint_110",
            "A configuration is not in the library of the entity it configures.",
            Certainty::Definite,
        ),
        (
            "TypeMismatch",
            "lint_200",
            "An expression does not have the expected type.",
            Certainty::Definite,
        ),
        (
            "DimensionMismatch",
            "lint_201",
            "Array dimensions do not match.",
            Certainty::Definite,
        ),
        (
            "NoImplicitConversion",
            "lint_202",
            "The types have no implicit conversion between them.",
            Certainty::Definite,
        ),
        (
            "InvalidLiteral",
            "lint_203",
            "A literal is not valid for its type.",
            Certainty::Definite,
        ),
        (
            "ExpectedSubAggregate",
            "lint_204",
            "A sub-aggregate was expected.",
            Certainty::Definite,
        ),
        (
            "AmbiguousExpression",
            "lint_205",
            "An expression has more than one possible type.",
            Certainty::Definite,
        ),
        (
            "NonScalarInRange",
            "lint_206",
            "A range bound is not scalar.",
            Certainty::Definite,
        ),
        (
            "TooManyConstraints",
            "lint_207",
            "More constraints than the type has dimensions.",
            Certainty::Definite,
        ),
        (
            "TooFewConstraints",
            "lint_208",
            "Fewer constraints than the type needs.",
            Certainty::Definite,
        ),
        (
            "IllegalConstraint",
            "lint_209",
            "A constraint that this type does not accept.",
            Certainty::Definite,
        ),
        (
            "MismatchedKinds",
            "lint_210",
            "A name is used as the wrong kind of thing.",
            Certainty::Definite,
        ),
        (
            "MismatchedObjectClass",
            "lint_211",
            "A signal, variable or constant used where another was expected.",
            Certainty::Definite,
        ),
        (
            "MismatchedEntityClass",
            "lint_212",
            "An entity class that does not match the declaration.",
            Certainty::Definite,
        ),
        (
            "CannotBePrefixed",
            "lint_213",
            "A name that cannot take a prefix.",
            Certainty::Definite,
        ),
        (
            "IllegalAttribute",
            "lint_214",
            "An attribute that does not apply here.",
            Certainty::Definite,
        ),
        (
            "MisplacedAttributeSpec",
            "lint_215",
            "An attribute specification in the wrong place.",
            Certainty::Definite,
        ),
        (
            "AmbiguousCall",
            "lint_300",
            "A call matches more than one subprogram.",
            Certainty::Definite,
        ),
        (
            "InvalidCall",
            "lint_301",
            "A call that cannot be made here.",
            Certainty::Definite,
        ),
        (
            "TooManyArguments",
            "lint_302",
            "More arguments than the subprogram takes.",
            Certainty::Definite,
        ),
        (
            "NamedBeforePositional",
            "lint_303",
            "A positional association after a named one.",
            Certainty::Definite,
        ),
        (
            "SignatureMismatch",
            "lint_304",
            "A signature does not match the subprogram.",
            Certainty::Definite,
        ),
        (
            "IllegalSignature",
            "lint_305",
            "A signature where none is allowed.",
            Certainty::Definite,
        ),
        (
            "SignatureRequired",
            "lint_306",
            "A signature is needed to disambiguate.",
            Certainty::Definite,
        ),
        (
            "NoOverloadedWithSignature",
            "lint_307",
            "No overload matches the signature.",
            Certainty::Definite,
        ),
        (
            "UnexpectedSignature",
            "lint_308",
            "A signature on something that cannot have one.",
            Certainty::Definite,
        ),
        (
            "InvalidOperatorSymbol",
            "lint_309",
            "An operator symbol that is not an operator.",
            Certainty::Definite,
        ),
        (
            "VoidReturn",
            "lint_310",
            "A function returns nothing.",
            Certainty::Definite,
        ),
        (
            "NonVoidReturn",
            "lint_311",
            "A procedure returns a value.",
            Certainty::Definite,
        ),
        (
            "IllegalReturn",
            "lint_312",
            "A return statement where none is allowed.",
            Certainty::Definite,
        ),
        (
            "MismatchedSubprogramInstantiation",
            "lint_313",
            "A subprogram instantiation does not match its target.",
            Certainty::Definite,
        ),
        (
            "AmbiguousInstantiation",
            "lint_314",
            "An instantiation matches more than one target.",
            Certainty::Definite,
        ),
        (
            "Unassociated",
            "lint_400",
            "A port or generic has no association and no default.",
            Certainty::Definite,
        ),
        (
            "AlreadyAssociated",
            "lint_401",
            "A formal is associated more than once.",
            Certainty::Definite,
        ),
        (
            "InvalidFormal",
            "lint_402",
            "A formal that the interface does not have.",
            Certainty::Definite,
        ),
        (
            "InvalidFormalConversion",
            "lint_403",
            "A conversion on a formal that is not allowed.",
            Certainty::Definite,
        ),
        (
            "InterfaceModeMismatch",
            "lint_404",
            "An actual does not match the mode of its formal.",
            Certainty::Definite,
        ),
        (
            "ExitOutsideLoop",
            "lint_500",
            "An exit statement outside a loop.",
            Certainty::Definite,
        ),
        (
            "NextOutsideLoop",
            "lint_501",
            "A next statement outside a loop.",
            Certainty::Definite,
        ),
        (
            "InvalidLoopLabel",
            "lint_502",
            "A loop label that does not name an enclosing loop.",
            Certainty::Definite,
        )
    ]
}

/// Every `vhdl_lang` diagnostic this layer reports, as (its error code, our rule id, what it
/// means). The code names come from `ErrorCode`'s `Debug` form, because the published crate does
/// not export the enum itself.
///
/// `SyntaxError` and `Internal` are not here: vsg-rs reports parse failures itself, and an
/// internal error of the analyser is not a finding about the code.
pub fn codes() -> (r: Vec<Code>)
    ensures
        r@ == spec_codes(),
{
    let mut v: Vec<Code> = Vec::new();
    v.push((
        "MissingInSensitivityList",
        "lint_001",
        "A signal read by a combinational process is missing from its sensitivity list.",
        Certainty::Advisory,
    ));
    v.push((
        "SuperfluousInSensitivityList",
        "lint_002",
        "A signal in a sensitivity list is not read by the process.",
        Certainty::Advisory,
    ));
    v.push((
        "DisallowedInSensitivityList",
        "lint_003",
        "An item that may not appear in a sensitivity list.",
        Certainty::Definite,
    ));
    v.push((
        "Unused",
        "lint_004",
        "A declaration is never used.",
        Certainty::Advisory,
    ));
    v.push((
        "UnnecessaryWorkLibrary",
        "lint_005",
        "`library work` is implicit and does not need declaring.",
        Certainty::Advisory,
    ));
    v.push((
        "UnassociatedContext",
        "lint_006",
        "A context clause is not attached to any design unit.",
        Certainty::Advisory,
    ));
    v.push((
        "Unresolved",
        "lint_100",
        "A name cannot be resolved to any declaration.",
        Certainty::Definite,
    ));
    v.push((
        "Duplicate",
        "lint_101",
        "Two declarations of the same thing in one place.",
        Certainty::Definite,
    ));
    v.push((
        "DeclaredBefore",
        "lint_102",
        "A secondary unit is analysed before the primary unit it belongs to.",
        Certainty::Definite,
    ));
    v.push((
        "MissingDeferredDeclaration",
        "lint_103",
        "A deferred constant has no full declaration.",
        Certainty::Definite,
    ));
    v.push((
        "MissingFullTypeDeclaration",
        "lint_104",
        "An incomplete type has no full declaration.",
        Certainty::Definite,
    ));
    v.push((
        "MissingProtectedBodyType",
        "lint_105",
        "A protected type has no body.",
        Certainty::Definite,
    ));
    v.push((
        "IllegalDeferredConstant",
        "lint_106",
        "A deferred constant where none is allowed.",
        Certainty::Definite,
    ));
    v.push((
        "DeclarationNotAllowed",
        "lint_107",
        "A declaration that this region does not allow.",
        Certainty::Definite,
    ));
    v.push((
        "ConflictingUseClause",
        "lint_108",
        "Two use clauses make the same name visible.",
        Certainty::Definite,
    ));
    v.push((
        "CircularDependency",
        "lint_109",
        "Design units depend on each other in a cycle.",
        Certainty::Definite,
    ));
    v.push((
        "ConfigNotInSameLibrary",
        "lint_110",
        "A configuration is not in the library of the entity it configures.",
        Certainty::Definite,
    ));
    v.push((
        "TypeMismatch",
        "lint_200",
        "An expression does not have the expected type.",
        Certainty::Definite,
    ));
    v.push((
        "DimensionMismatch",
        "lint_201",
        "Array dimensions do not match.",
        Certainty::Definite,
    ));
    v.push((
        "NoImplicitConversion",
        "lint_202",
        "The types have no implicit conversion between them.",
        Certainty::Definite,
    ));
    v.push((
        "InvalidLiteral",
        "lint_203",
        "A literal is not valid for its type.",
        Certainty::Definite,
    ));
    v.push((
        "ExpectedSubAggregate",
        "lint_204",
        "A sub-aggregate was expected.",
        Certainty::Definite,
    ));
    v.push((
        "AmbiguousExpression",
        "lint_205",
        "An expression has more than one possible type.",
        Certainty::Definite,
    ));
    v.push((
        "NonScalarInRange",
        "lint_206",
        "A range bound is not scalar.",
        Certainty::Definite,
    ));
    v.push((
        "TooManyConstraints",
        "lint_207",
        "More constraints than the type has dimensions.",
        Certainty::Definite,
    ));
    v.push((
        "TooFewConstraints",
        "lint_208",
        "Fewer constraints than the type needs.",
        Certainty::Definite,
    ));
    v.push((
        "IllegalConstraint",
        "lint_209",
        "A constraint that this type does not accept.",
        Certainty::Definite,
    ));
    v.push((
        "MismatchedKinds",
        "lint_210",
        "A name is used as the wrong kind of thing.",
        Certainty::Definite,
    ));
    v.push((
        "MismatchedObjectClass",
        "lint_211",
        "A signal, variable or constant used where another was expected.",
        Certainty::Definite,
    ));
    v.push((
        "MismatchedEntityClass",
        "lint_212",
        "An entity class that does not match the declaration.",
        Certainty::Definite,
    ));
    v.push((
        "CannotBePrefixed",
        "lint_213",
        "A name that cannot take a prefix.",
        Certainty::Definite,
    ));
    v.push((
        "IllegalAttribute",
        "lint_214",
        "An attribute that does not apply here.",
        Certainty::Definite,
    ));
    v.push((
        "MisplacedAttributeSpec",
        "lint_215",
        "An attribute specification in the wrong place.",
        Certainty::Definite,
    ));
    v.push((
        "AmbiguousCall",
        "lint_300",
        "A call matches more than one subprogram.",
        Certainty::Definite,
    ));
    v.push((
        "InvalidCall",
        "lint_301",
        "A call that cannot be made here.",
        Certainty::Definite,
    ));
    v.push((
        "TooManyArguments",
        "lint_302",
        "More arguments than the subprogram takes.",
        Certainty::Definite,
    ));
    v.push((
        "NamedBeforePositional",
        "lint_303",
        "A positional association after a named one.",
        Certainty::Definite,
    ));
    v.push((
        "SignatureMismatch",
        "lint_304",
        "A signature does not match the subprogram.",
        Certainty::Definite,
    ));
    v.push((
        "IllegalSignature",
        "lint_305",
        "A signature where none is allowed.",
        Certainty::Definite,
    ));
    v.push((
        "SignatureRequired",
        "lint_306",
        "A signature is needed to disambiguate.",
        Certainty::Definite,
    ));
    v.push((
        "NoOverloadedWithSignature",
        "lint_307",
        "No overload matches the signature.",
        Certainty::Definite,
    ));
    v.push((
        "UnexpectedSignature",
        "lint_308",
        "A signature on something that cannot have one.",
        Certainty::Definite,
    ));
    v.push((
        "InvalidOperatorSymbol",
        "lint_309",
        "An operator symbol that is not an operator.",
        Certainty::Definite,
    ));
    v.push((
        "VoidReturn",
        "lint_310",
        "A function returns nothing.",
        Certainty::Definite,
    ));
    v.push((
        "NonVoidReturn",
        "lint_311",
        "A procedure returns a value.",
        Certainty::Definite,
    ));
    v.push((
        "IllegalReturn",
        "lint_312",
        "A return statement where none is allowed.",
        Certainty::Definite,
    ));
    v.push((
        "MismatchedSubprogramInstantiation",
        "lint_313",
        "A subprogram instantiation does not match its target.",
        Certainty::Definite,
    ));
    v.push((
        "AmbiguousInstantiation",
        "lint_314",
        "An instantiation matches more than one target.",
        Certainty::Definite,
    ));
    v.push((
        "Unassociated",
        "lint_400",
        "A port or generic has no association and no default.",
        Certainty::Definite,
    ));
    v.push((
        "AlreadyAssociated",
        "lint_401",
        "A formal is associated more than once.",
        Certainty::Definite,
    ));
    v.push((
        "InvalidFormal",
        "lint_402",
        "A formal that the interface does not have.",
        Certainty::Definite,
    ));
    v.push((
        "InvalidFormalConversion",
        "lint_403",
        "A conversion on a formal that is not allowed.",
        Certainty::Definite,
    ));
    v.push((
        "InterfaceModeMismatch",
        "lint_404",
        "An actual does not match the mode of its formal.",
        Certainty::Definite,
    ));
    v.push((
        "ExitOutsideLoop",
        "lint_500",
        "An exit statement outside a loop.",
        Certainty::Definite,
    ));
    v.push((
        "NextOutsideLoop",
        "lint_501",
        "A next statement outside a loop.",
        Certainty::Definite,
    ));
    v.push((
        "InvalidLoopLabel",
        "lint_502",
        "A loop label that does not name an enclosing loop.",
        Certainty::Definite,
    ));
    assert(v@ =~= spec_codes());
    v
}

/// The rule id and description of the first entry of `codes` from `i` on whose code is `code`.
pub open spec fn spec_rule_of_from(codes: Seq<Code>, code: Seq<char>, i: int) -> Option<(&'static str, &'static str)>
    decreases codes.len() - i,
{
    if i < 0 || i >= codes.len() {
        None
    } else if codes[i].0@ == code {
        Some((codes[i].1, codes[i].2))
    } else {
        spec_rule_of_from(codes, code, i + 1)
    }
}

/// Our rule id and its description for a `vhdl_lang` error code.
pub open spec fn spec_rule_of(code: Seq<char>) -> Option<(&'static str, &'static str)> {
    spec_rule_of_from(spec_codes(), code, 0)
}

/// Our rule id and its description for a `vhdl_lang` error code, if this layer reports it.
pub fn rule_of(code: &str) -> (r: Option<(&'static str, &'static str)>)
    ensures
        r == spec_rule_of(code@),
{
    let table = codes();
    let mut i: usize = 0;
    while i < table.len()
        invariant
            0 <= i <= table@.len(),
            table@ == spec_codes(),
            spec_rule_of(code@) == spec_rule_of_from(table@, code@, i as int),
        decreases table.len() - i,
    {
        let (name, rule, description, _) = table[i];
        if str_eq(name, code) {
            return Some((rule, description));
        }
        i = i + 1;
    }
    None
}

/// The lint rule of an entry of [`codes`].
pub open spec fn code_rule(c: Code) -> Rule {
    Rule { id: c.1, description: c.2, certainty: c.3 }
}

/// Every rule this layer can report, in the order of [`codes`].
pub open spec fn spec_rules() -> Seq<Rule> {
    spec_codes().map_values(|c: Code| code_rule(c))
}

/// Every rule this layer can report, for `--list_rules` and the configuration.
pub fn rules() -> (r: Vec<Rule>)
    ensures
        r@ == spec_rules(),
{
    let table = codes();
    let mut out: Vec<Rule> = Vec::new();
    let mut i: usize = 0;
    while i < table.len()
        invariant
            0 <= i <= table@.len(),
            table@ == spec_codes(),
            out@ == spec_codes().take(i as int).map_values(|c: Code| code_rule(c)),
        decreases table.len() - i,
    {
        let (_, id, description, certainty) = table[i];
        out.push(Rule { id, description, certainty });
        i = i + 1;
        assert(out@ =~= spec_codes().take(i as int).map_values(|c: Code| code_rule(c)));
    }
    assert(spec_codes().take(table@.len() as int) =~= spec_codes());
    out
}

/// A file to analyse: what is on disk, or the buffer an editor currently holds for it.
///
/// The path is always meaningful even when the text is not on disk: it decides which library the
/// file belongs to and what a finding is labelled with.
#[derive(Debug, Clone)]
pub struct Source {
    pub path: PathBuf,
    /// The contents to analyse. `None` reads the file.
    pub text: Option<Vec<u8>>,
}

impl Source {
    /// A file, read from disk.
    pub fn file(path: PathBuf) -> (r: Source)
        ensures
            r.path == path,
            r.text is None,
    {
        Source { path, text: None }
    }

    /// A buffer standing in for a file that may never have been saved.
    pub fn buffer(path: PathBuf, text: Vec<u8>) -> (r: Source)
        ensures
            r.path == path,
            r.text == Some(text),
    {
        Source { path, text: Some(text) }
    }
}

} // verus!
