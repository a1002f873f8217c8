//! The configurations that formatting is tested under: the first bytes of a fuzzing input choose
//! the settings that change the layout the most (width, indentation, keyword case, alignment,
//! blank lines, port mode spacing, continuation indent); the rest is the VHDL.
use vstd::prelude::*;
use vstd::string::StringExecFns;

verus! {

/// `options[byte % options.len()]`.
pub fn pick<'a>(byte: u8, options: &[&'a str]) -> (r: &'a str)
    requires
        options@.len() > 0,
    ensures
        r == options@[(byte as int) % (options@.len() as int)],
{
    options[(byte as usize) % options.len()]
}

/// The first choice for `case`.
pub open spec fn case_of(k: u8) -> Seq<char> {
    if k % 2 == 0 {
        "lower"@
    } else {
        "upper"@
    }
}

pub open spec fn indent_of(k: u8) -> Seq<char> {
    let i = (k >> 1u8) % 3;
    if i == 0 {
        "2"@
    } else if i == 1 {
        "3"@
    } else {
        "4"@
    }
}

pub open spec fn style_of(k: u8) -> Seq<char> {
    if k % 2 == 0 {
        "spaces"@
    } else {
        "smart_tabs"@
    }
}

pub open spec fn length_of(k: u8) -> Seq<char> {
    let i = (k >> 2u8) % 4;
    if i == 0 {
        "40"@
    } else if i == 1 {
        "80"@
    } else if i == 2 {
        "120"@
    } else {
        "200"@
    }
}

/// The `group:` block that disables alignment and blank lines as the knob says, or nothing.
pub open spec fn groups_of(k: u8) -> Seq<char> {
    let align = if k & 1 == 0 {
        "    alignment:\n      disable: true\n"@
    } else {
        Seq::empty()
    };
    let blank = if k & 2 == 0 {
        "    blank_line:\n      disable: true\n"@
    } else {
        Seq::empty()
    };
    if align.len() + blank.len() > 0 {
        "  group:\n"@ + align + blank
    } else {
        Seq::empty()
    }
}

/// Port mode spacing, continuation indentation and closing parentheses, as the knob says.
pub open spec fn extras_of(k: u8) -> Seq<char> {
    (if k & 1 == 0 {
        "  port_007:\n    spaces_after: 1\n  port_008:\n    spaces_after: 1\n"@
    } else {
        Seq::empty()
    }) + (if k & 2 == 0 {
        "  concurrent_003:\n    align_left: 'yes'\n    align_paren: 'no'\n"@
    } else {
        Seq::empty()
    }) + (if k & 4 == 0 {
        "  generic_010:\n    action: same_line\n  port_014:\n    action: same_line\n"@
    } else {
        Seq::empty()
    })
}

/// The `rule: global:` block and the line length.
pub open spec fn globals_of(k0: u8, k1: u8) -> Seq<char> {
    "rule:\n  global:\n"@ + "    case: "@ + case_of(k0) + "\n"@ + "    indent_size: "@ + indent_of(k0)
        + "\n"@ + "    indent_style: "@ + style_of(k1) + "\n"@ + "  length_001:\n    length: "@
        + length_of(k1) + "\n"@
}

/// The configuration (YAML) that four knob bytes choose.
pub open spec fn spec_configuration(knobs: Seq<u8>) -> Seq<char> {
    globals_of(knobs[0], knobs[1]) + groups_of(knobs[2]) + extras_of(knobs[3])
}

fn globals(k0: u8, k1: u8) -> (r: String)
    ensures
        r@ == globals_of(k0, k1),
{
    let mut yaml = String::from_str("rule:\n  global:\n");
    yaml.append("    case: ");
    yaml.append(pick(k0, &["lower", "upper"]));
    yaml.append("\n");
    yaml.append("    indent_size: ");
    yaml.append(pick(k0 >> 1, &["2", "3", "4"]));
    yaml.append("\n");
    yaml.append("    indent_style: ");
    yaml.append(pick(k1, &["spaces", "smart_tabs"]));
    yaml.append("\n");
    yaml.append("  length_001:\n    length: ");
    yaml.append(pick(k1 >> 2, &["40", "80", "120", "200"]));
    yaml.append("\n");
    yaml
}

fn groups(k: u8) -> (r: String)
    ensures
        r@ == groups_of(k),
{
    proof {
        reveal_strlit("    alignment:\n      disable: true\n");
        reveal_strlit("    blank_line:\n      disable: true\n");
    }
    let mut groups = String::new();
    if k & 1 == 0 {
        groups.append("    alignment:\n      disable: true\n");
    }
    if k & 2 == 0 {
        groups.append("    blank_line:\n      disable: true\n");
    }
    if groups.as_str().is_empty() {
        assert(groups@ =~= groups_of(k));
        return groups;
    }
    let mut out = String::from_str("  group:\n");
    out.append(groups.as_str());
    assert(out@ =~= groups_of(k));
    out
}

fn extras(k: u8) -> (r: String)
    ensures
        r@ == extras_of(k),
{
    let mut yaml = String::new();
    if k & 1 == 0 {
        yaml.append("  port_007:\n    spaces_after: 1\n  port_008:\n    spaces_after: 1\n");
    }
    if k & 2 == 0 {
        yaml.append("  concurrent_003:\n    align_left: 'yes'\n    align_paren: 'no'\n");
    }
    if k & 4 == 0 {
        yaml.append("  generic_010:\n    action: same_line\n  port_014:\n    action: same_line\n");
    }
    assert(yaml@ =~= extras_of(k));
    yaml
}

/// The configuration (YAML) that four knob bytes choose.
pub fn configuration(knobs: &[u8; 4]) -> (r: String)
    ensures
        r@ == spec_configuration(knobs@),
{
    let mut yaml = globals(knobs[0], knobs[1]);
    let g = groups(knobs[2]);
    let e = extras(knobs[3]);
    yaml.append(g.as_str());
    yaml.append(e.as_str());
    assert(yaml@ =~= spec_configuration(knobs@));
    yaml
}

} // verus!
