//! Static analysis: what follows from the resolved program, as opposed to how it is laid out.
//!
//! The style layer decides how source should look, one file at a time. This layer asks whether
//! the design says what its author meant: a signal nothing drives, two statements driving one
//! signal, a state a machine cannot leave. Some rules need only the syntax tree; the rest need
//! names resolved across files, which [`lint`] gets from the VHDL front end.
//!
//! Each rule states the evidence it works from, and reports nothing when that evidence is
//! missing.
use vstd::prelude::*;

use crate::analysis::design::{affix_error, affix_texts, regex_error, regex_of, Affix, Naming};
use crate::bytes::str_eq;
use crate::chars::{chars_of, lowered};
use crate::config::{entry_of, layers_view, lint_settings, list_value, RuleLayers, SLayers};
use vstd::string::StringExecFns;

pub mod lint;
pub mod testbench;
pub mod width;
pub mod design;
pub mod elaborate;
pub mod evaluated;
pub mod syntax;
pub mod choices;
pub mod suspend;
pub mod clockdomain;
pub mod fsm;
pub mod calls;

verus! {

/// How sure a rule is that what it reports is wrong.
///
/// This is the difference between "your program cannot do what it says" and "you may not have
/// meant this". A default run reports only the first, so that a finding is something to correct
/// rather than something to triage -- the whole value of the report is that it does not need
/// reading twice.
#[derive(Copy, Clone, PartialEq, Eq, Structural, Debug)]
pub enum Certainty {
    /// The program is wrong: the analyser can show that what is written cannot be carried out.
    /// A definite finding does not depend on what anyone intended. **On by default.**
    Definite,
    /// The fact is exact and the conclusion is a judgement. An unused declaration really is
    /// unused; whether that is a mistake is not something the source says. **Off by default.**
    Advisory,
    /// Inferred rather than derived: the rule decides what the design is trying to be before it
    /// decides whether it succeeds. **Off by default.**
    Experimental,
    /// A house's convention, which the language has no opinion about. **Off by default.**
    Policy,
}

/// The configuration group of a class of certainty.
pub open spec fn spec_group(c: Certainty) -> &'static str {
    match c {
        Certainty::Definite => "definite",
        Certainty::Advisory => "advisory",
        Certainty::Experimental => "experimental",
        Certainty::Policy => "policy",
    }
}

/// What a class of certainty is called in a report.
pub open spec fn spec_name(c: Certainty) -> &'static str {
    match c {
        Certainty::Definite => "definite error",
        Certainty::Advisory => "advisory",
        Certainty::Experimental => "experimental",
        Certainty::Policy => "policy",
    }
}

impl Certainty {
    /// The configuration group that switches the whole class on or off.
    pub fn group(self) -> (r: &'static str)
        ensures
            r == spec_group(self),
    {
        match self {
            Certainty::Definite => "definite",
            Certainty::Advisory => "advisory",
            Certainty::Experimental => "experimental",
            Certainty::Policy => "policy",
        }
    }

    /// Whether a run that was told nothing reports this class.
    pub fn on_by_default(self) -> (r: bool)
        ensures
            r == (self == Certainty::Definite),
    {
        self == Certainty::Definite
    }

    /// What the class is called in a report or on the command line.
    pub fn name(self) -> (r: &'static str)
        ensures
            r == spec_name(self),
    {
        match self {
            Certainty::Definite => "definite error",
            Certainty::Advisory => "advisory",
            Certainty::Experimental => "experimental",
            Certainty::Policy => "policy",
        }
    }
}

/// One rule of the lint layer: what it is called, what it reports, and how sure it is.
#[derive(Copy, Clone, Debug)]
pub struct Rule {
    pub id: &'static str,
    pub description: &'static str,
    pub certainty: Certainty,
}

/// The rules of the modules that work from the syntax tree and say how sure they are: latches
/// and drivers, undriven signals and component interfaces, state machines, combinational
/// loops, clock domain crossings, vector widths, case choices, recursive calls, processes that
/// cannot suspend and evaluated expressions, in that order.
pub open spec fn spec_tree_rules() -> Seq<Rule> {
    seq![
        Rule {
            id: "lint_600",
            description: "A combinational process does not assign a signal on every path, inferring a latch.",
            certainty: Certainty::Definite,
        },
        Rule {
            id: "lint_601",
            description: "A signal is assigned by more than one concurrent statement.",
            certainty: Certainty::Definite,
        },
        Rule {
            id: "lint_602",
            description: "A signal assigned by a clocked process does not have a register suffix (off by default; set `suffixes`).",
            certainty: Certainty::Policy,
        },
        Rule {
            id: "lint_603",
            description: "A signal assigned by a clocked process does not have a register prefix (off by default; set `prefixes`).",
            certainty: Certainty::Policy,
        },
        Rule {
            id: "lint_730",
            description: "A signal is read but nothing drives it: no assignment, and no instance output.",
            certainty: Certainty::Definite,
        },
        Rule {
            id: "lint_750",
            description: "A component declaration does not match the entity it stands for.",
            certainty: Certainty::Definite,
        },
        Rule {
            id: "lint_710",
            description: "A state of an enumerated state machine is never entered.",
            certainty: Certainty::Definite,
        },
        Rule {
            id: "lint_711",
            description: "A state of an enumerated state machine has no exit.",
            certainty: Certainty::Definite,
        },
        Rule {
            id: "lint_720",
            description: "A signal depends on itself through combinational logic, with no register in the loop.",
            certainty: Certainty::Definite,
        },
        Rule {
            id: "lint_700",
            description: "A signal registered on one clock is used in logic on another, without a synchroniser.",
            certainty: Certainty::Experimental,
        },
        Rule {
            id: "lint_740",
            description: "A vector is assigned to one of a different width.",
            certainty: Certainty::Definite,
        },
        Rule {
            id: "lint_712",
            description: "A 'when others' alternative that no value can reach.",
            certainty: Certainty::Advisory,
        },
        Rule {
            id: "lint_713",
            description: "A 'when others' alternative on an enumeration, instead of naming every value \
             (off by default).",
            certainty: Certainty::Policy,
        },
        Rule {
            id: "lint_760",
            description: "A subprogram whose body calls itself, which no synthesis tool accepts (off by default).",
            certainty: Certainty::Advisory,
        },
        Rule {
            id: "lint_770",
            description: "A process with no sensitivity list and no wait statement, which can never \
                          suspend.",
            certainty: Certainty::Definite,
        },
        Rule {
            id: "lint_780",
            description: "An index that is outside the declared range of the array it selects from.",
            certainty: Certainty::Definite,
        },
        Rule {
            id: "lint_781",
            description: "A division, `mod` or `rem` whose divisor is written as zero.",
            certainty: Certainty::Definite,
        },
    ]
}

fn tree_rules() -> (r: Vec<Rule>)
    ensures
        r@ == spec_tree_rules(),
{
    let mut v: Vec<Rule> = Vec::new();
    v.push(Rule {
        id: "lint_600",
        description: "A combinational process does not assign a signal on every path, inferring a latch.",
        certainty: Certainty::Definite,
    });
    v.push(Rule {
        id: "lint_601",
        description: "A signal is assigned by more than one concurrent statement.",
        certainty: Certainty::Definite,
    });
    v.push(Rule {
        id: "lint_602",
        description: "A signal assigned by a clocked process does not have a register suffix (off by default; set `suffixes`).",
        certainty: Certainty::Policy,
    });
    v.push(Rule {
        id: "lint_603",
        description: "A signal assigned by a clocked process does not have a register prefix (off by default; set `prefixes`).",
        certainty: Certainty::Policy,
    });
    v.push(Rule {
        id: "lint_730",
        description: "A signal is read but nothing drives it: no assignment, and no instance output.",
        certainty: Certainty::Definite,
    });
    v.push(Rule {
        id: "lint_750",
        description: "A component declaration does not match the entity it stands for.",
        certainty: Certainty::Definite,
    });
    v.push(Rule {
        id: "lint_710",
        description: "A state of an enumerated state machine is never entered.",
        certainty: Certainty::Definite,
    });
    v.push(Rule {
        id: "lint_711",
        description: "A state of an enumerated state machine has no exit.",
        certainty: Certainty::Definite,
    });
    v.push(Rule {
        id: "lint_720",
        description: "A signal depends on itself through combinational logic, with no register in the loop.",
        certainty: Certainty::Definite,
    });
    v.push(Rule {
        id: "lint_700",
        description: "A signal registered on one clock is used in logic on another, without a synchroniser.",
        certainty: Certainty::Experimental,
    });
    v.push(Rule {
        id: "lint_740",
        description: "A vector is assigned to one of a different width.",
        certainty: Certainty::Definite,
    });
    v.push(Rule {
        id: "lint_712",
        description: "A 'when others' alternative that no value can reach.",
        certainty: Certainty::Advisory,
    });
    v.push(Rule {
        id: "lint_713",
        description: "A 'when others' alternative on an enumeration, instead of naming every value \
         (off by default).",
        certainty: Certainty::Policy,
    });
    v.push(Rule {
        id: "lint_760",
        description: "A subprogram whose body calls itself, which no synthesis tool accepts (off by default).",
        certainty: Certainty::Advisory,
    });
    v.push(Rule {
        id: "lint_770",
        description: "A process with no sensitivity list and no wait statement, which can never \
                      suspend.",
        certainty: Certainty::Definite,
    });
    v.push(Rule {
        id: "lint_780",
        description: "An index that is outside the declared range of the array it selects from.",
        certainty: Certainty::Definite,
    });
    v.push(Rule {
        id: "lint_781",
        description: "A division, `mod` or `rem` whose divisor is written as zero.",
        certainty: Certainty::Definite,
    });
    assert(v@ =~= spec_tree_rules());
    v
}

/// Every rule of the lint layer: the front end's, then the syntax tree's.
pub open spec fn spec_rules() -> Seq<Rule> {
    lint::spec_rules() + spec_tree_rules()
}

/// Every rule of the lint layer, from the modules that implement them.
///
/// The one list. What a rule reports, whether a default run runs it, what the documentation
/// says about it and how a report classifies it all read this, so none of them can drift from
/// another.
pub fn rules() -> (r: Vec<Rule>)
    ensures
        r@ == spec_rules(),
{
    let mut all = lint::rules();
    let mut tree = tree_rules();
    all.append(&mut tree);
    all
}

/// The certainty of the first rule of `rules` from `i` on whose id is `id`.
pub open spec fn spec_certainty_from(rules: Seq<Rule>, id: Seq<char>, i: int) -> Option<Certainty>
    decreases rules.len() - i,
{
    if i < 0 || i >= rules.len() {
        None
    } else if rules[i].id@ == id {
        Some(rules[i].certainty)
    } else {
        spec_certainty_from(rules, id, i + 1)
    }
}

/// How sure the rule with this id is, or `None` if it is not a rule of the lint layer.
pub fn certainty_of(id: &str) -> (r: Option<Certainty>)
    ensures
        r == spec_certainty_from(spec_rules(), id@, 0),
{
    let all = rules();
    let mut i: usize = 0;
    while i < all.len()
        invariant
            0 <= i <= all@.len(),
            all@ == spec_rules(),
            spec_certainty_from(spec_rules(), id@, 0) == spec_certainty_from(all@, id@, i as int),
        decreases all.len() - i,
    {
        if str_eq(all[i].id, id) {
            return Some(all[i].certainty);
        }
        i = i + 1;
    }
    None
}


/// The affixes one naming rule asks for: none when the rule is off, else the configured list
/// (in lower case), or `fallback` when none is configured.
pub open spec fn affix_list(st: SLayers, rule: Seq<char>, key: Seq<char>, fallback: Seq<Seq<char>>) -> Seq<
    Seq<char>,
> {
    let s = lint_settings(st, rule);
    if !s.enabled {
        Seq::empty()
    } else {
        let configured = list_value(entry_of(s.options, key));
        if configured.len() == 0 {
            fallback
        } else {
            configured.map_values(|t: Seq<char>| lowered(t))
        }
    }
}

/// The first of `texts` that is a `re:` affix whose expression does not compile, with the error.
pub open spec fn first_bad(texts: Seq<Seq<char>>) -> Option<(Seq<char>, Seq<char>)>
    decreases texts.len(),
{
    if texts.len() == 0 {
        None
    } else {
        match (regex_of(texts[0]), first_bad(texts.skip(1))) {
            (Some(p), rest) => match regex_error(p) {
                Some(e) => Some((texts[0], e)),
                None => rest,
            },
            (None, rest) => rest,
        }
    }
}

/// The suffixes `lint_602` accepts.
pub open spec fn suffix_list(st: SLayers) -> Seq<Seq<char>> {
    affix_list(st, "lint_602"@, "suffixes"@, seq!["_q"@, "_r"@, "_reg"@])
}

/// The prefixes `lint_603` accepts.
pub open spec fn prefix_list(st: SLayers) -> Seq<Seq<char>> {
    affix_list(st, "lint_603"@, "prefixes"@, seq!["r_"@])
}

pub open spec fn strings_of(v: Seq<String>) -> Seq<Seq<char>> {
    Seq::new(v.len(), |i: int| v[i]@)
}

/// The affixes written `texts`, or the error of the first that is not one.
fn affixes(texts: &Vec<String>, rule: &str) -> (r: Result<Vec<Affix>, String>)
    ensures
        match r {
            Ok(v) => affix_texts(v@) == strings_of(texts@) && first_bad(strings_of(texts@)) is None
                && forall|i: int| 0 <= i < v@.len() ==> (#[trigger] v@[i]).wf(),
            Err(m) => first_bad(strings_of(texts@)) matches Some((t, e)) && m@ == rule@ + ": "@
                + affix_error(t, e),
        },
{
    let ghost all = strings_of(texts@);
    let mut out: Vec<Affix> = Vec::new();
    let mut i: usize = 0;
    assert(all.skip(0) =~= all);
    while i < texts.len()
        invariant
            0 <= i <= texts@.len(),
            all == strings_of(texts@),
            affix_texts(out@) == all.take(i as int),
            forall|j: int| 0 <= j < out@.len() ==> (#[trigger] out@[j]).wf(),
            first_bad(all) == first_bad(all.skip(i as int)),
        decreases texts@.len() - i,
    {
        let ghost rest = all.skip(i as int);
        assert(rest[0] == texts@[i as int]@);
        assert(rest.skip(1) =~= all.skip(i + 1));
        match Affix::new(texts[i].as_str()) {
            Ok(a) => {
                let ghost before = affix_texts(out@);
                out.push(a);
                assert(affix_texts(out@) =~= before.push(texts@[i as int]@));
                assert(all.take(i + 1) =~= all.take(i as int).push(all[i as int]));
            },
            Err(e) => {
                let mut m = String::from_str(rule);
                m.append(": ");
                m.append(e.as_str());
                return Err(m);
            },
        }
        i = i + 1;
    }
    assert(all.take(i as int) =~= all);
    assert(all.skip(i as int) =~= Seq::<Seq<char>>::empty());
    Ok(out)
}

/// The list a naming rule asks for, as strings.
fn affix_strings(layers: &RuleLayers, rule: &str, key: &str, fallback: &[&str]) -> (r: Vec<String>)
    ensures
        strings_of(r@) == affix_list(layers_view(*layers), rule@, key@, Seq::new(fallback@.len(), |i: int| fallback@[i]@)),
{
    let settings = layers.lint_rule(rule);
    let mut out: Vec<String> = Vec::new();
    if !settings.enabled {
        assert(strings_of(out@) =~= Seq::<Seq<char>>::empty());
        return out;
    }
    let configured = settings.option_list(key);
    let ghost c = crate::config::strs_view(configured@);
    if configured.len() == 0 {
        let mut i: usize = 0;
        while i < fallback.len()
            invariant
                0 <= i <= fallback@.len(),
                strings_of(out@) == Seq::new(i as nat, |k: int| fallback@[k]@),
            decreases fallback@.len() - i,
        {
            let ghost before = strings_of(out@);
            out.push(String::from_str(fallback[i]));
            assert(strings_of(out@) =~= before.push(fallback@[i as int]@));
            i = i + 1;
            assert(strings_of(out@) =~= Seq::new(i as nat, |k: int| fallback@[k]@));
        }
        return out;
    }
    let mut i: usize = 0;
    while i < configured.len()
        invariant
            0 <= i <= configured@.len(),
            c == crate::config::strs_view(configured@),
            strings_of(out@) == c.take(i as int).map_values(|t: Seq<char>| lowered(t)),
        decreases configured@.len() - i,
    {
        let v = chars_of(configured[i]);
        let low = crate::chars::lower_all(&v);
        let n = low.len();
        let t = crate::chars::string_of(&low, 0, n);
        assert(low@.subrange(0, n as int) =~= low@);
        assert(v@ == c[i as int]);
        let ghost before = strings_of(out@);
        out.push(t);
        assert(strings_of(out@) =~= before.push(lowered(c[i as int])));
        assert(c.take(i + 1).map_values(|t: Seq<char>| lowered(t)) =~= c.take(i as int).map_values(|t: Seq<char>| lowered(t)).push(lowered(c[i as int])));
        i = i + 1;
        assert(strings_of(out@) =~= c.take(i as int).map_values(|t: Seq<char>| lowered(t)));
    }
    assert(c.take(i as int) =~= c);
    out
}

/// How a project wants registers named (`lint_602`, `lint_603`), from its rule layers. Both rules
/// are off unless configured, and a rule that is off contributes nothing.
pub fn naming_rules(layers: &RuleLayers) -> (r: Result<Naming, String>)
    ensures
        match r {
            Ok(n) => n.wf() && affix_texts(n.suffixes@) == suffix_list(layers_view(*layers))
                && affix_texts(n.prefixes@) == prefix_list(layers_view(*layers)),
            Err(m) => match first_bad(suffix_list(layers_view(*layers))) {
                Some((t, e)) => m@ == "lint_602: "@ + affix_error(t, e),
                None => first_bad(prefix_list(layers_view(*layers))) matches Some((t, e)) && m@
                    == "lint_603: "@ + affix_error(t, e),
            },
        },
{
    let suffix_fallback: [&str; 3] = ["_q", "_r", "_reg"];
    let prefix_fallback: [&str; 1] = ["r_"];
    assert(Seq::new(suffix_fallback@.len(), |i: int| suffix_fallback@[i]@) =~= seq!["_q"@, "_r"@, "_reg"@]);
    assert(Seq::new(prefix_fallback@.len(), |i: int| prefix_fallback@[i]@) =~= seq!["r_"@]);
    let suffix_texts = affix_strings(layers, "lint_602", "suffixes", &suffix_fallback);
    let prefix_texts = affix_strings(layers, "lint_603", "prefixes", &prefix_fallback);
    proof {
        reveal_strlit(": ");
        reveal_strlit("lint_602");
        reveal_strlit("lint_603");
        reveal_strlit("lint_602: ");
        reveal_strlit("lint_603: ");
    }
    let suffixes = affixes(&suffix_texts, "lint_602")?;
    let prefixes = affixes(&prefix_texts, "lint_603")?;
    Ok(Naming { prefixes, suffixes })
}

} // verus!
