//! `privatium lint`: the rule table with its stable IDs, severities and citations, a
//! finding and its one-line rendering, and the readers the rules are built on.

use vstd::prelude::*;
use crate::text::{
    chars_of, decimal, decimal_exec, find_char_in_rest, is_ascii_alnum, is_ascii_alpha, is_ws,
    push_all, push_str, slice_chars, starts_with, starts_with_exec, string_of, trim, trimmed,
    lowered, lowered_exec, uppered, uppered_exec, contains_seq, contains_exec, same_chars,
};

pub mod css;
pub mod html;
pub mod manifest;
pub mod spec_ref;
pub mod sql;
pub mod template;
pub mod web;
pub mod page;
pub mod shape;
pub mod view_attrs;
pub mod order;

verus! {

/// How bad a finding is. Ordered, so "warn" is "warn and above".
#[derive(Debug, Clone, Copy, PartialEq, Eq, PartialOrd, Ord, Hash)]
pub enum Severity {
    /// Reported for review; never a defect on its own.
    Info,
    /// Probably wrong.
    Warn,
    /// Wrong.
    Error,
}

/// A severity's place in the order `Info < Warn < Error`.
pub open spec fn rank(s: Severity) -> int {
    match s {
        Severity::Info => 0,
        Severity::Warn => 1,
        Severity::Error => 2,
    }
}

/// How a severity is spelled.
pub open spec fn severity_text(s: Severity) -> Seq<char> {
    match s {
        Severity::Info => "info"@,
        Severity::Warn => "warn"@,
        Severity::Error => "error"@,
    }
}

impl Severity {
    /// As `--severity` and the JSON spell it.
    pub fn as_str(self) -> (r: &'static str)
        ensures
            r@ == severity_text(self),
    {
        match self {
            Severity::Info => "info",
            Severity::Warn => "warn",
            Severity::Error => "error",
        }
    }

    /// The severity's place in the order `Info < Warn < Error`.
    pub fn rank(self) -> (r: u8)
        ensures
            r as int == rank(self),
    {
        match self {
            Severity::Info => 0,
            Severity::Warn => 1,
            Severity::Error => 2,
        }
    }
}

/// The rule classes.
#[derive(Debug, Clone, Copy, PartialEq, Eq)]
pub enum Class {
    /// `PV1xx`.
    Contract,
    /// `PV2xx`.
    Security,
    /// `PV3xx`.
    Correctness,
    /// `PV4xx`.
    Accessibility,
    /// `PV5xx`.
    Portability,
}

/// How a class's heading spells it.
pub open spec fn class_text(c: Class) -> Seq<char> {
    match c {
        Class::Contract => "Contract"@,
        Class::Security => "Security"@,
        Class::Correctness => "Correctness"@,
        Class::Accessibility => "Accessibility"@,
        Class::Portability => "Portability"@,
    }
}

impl Class {
    /// The heading the class has.
    pub fn as_str(self) -> (r: &'static str)
        ensures
            r@ == class_text(self),
    {
        match self {
            Class::Contract => "Contract",
            Class::Security => "Security",
            Class::Correctness => "Correctness",
            Class::Accessibility => "Accessibility",
            Class::Portability => "Portability",
        }
    }
}

/// A rule's class is the hundreds digit of its ID.
pub open spec fn class_of(id: RuleId) -> Class {
    let h = id_number(id) / 100;
    if h == 1 {
        Class::Contract
    } else if h == 2 {
        Class::Security
    } else if h == 3 {
        Class::Correctness
    } else if h == 4 {
        Class::Accessibility
    } else {
        Class::Portability
    }
}

/// An ID as text: `PV` and its three digits.
pub open spec fn id_text(id: RuleId) -> Seq<char> {
    let n = id_number(id);
    seq!['P', 'V', crate::text::digit_char(n / 100), crate::text::digit_char((n / 10) % 10),
        crate::text::digit_char(n % 10)]
}

/// One rule: what it says, how bad a finding is, what the linter reads to judge it, and
/// the document it enforces.
#[derive(Debug, Clone, Copy, PartialEq, Eq)]
pub struct Rule {
    /// The ID.
    pub id: RuleId,
    /// The class.
    pub class: Class,
    /// The severity of every finding of this rule.
    pub severity: Severity,
    /// The rule as stated.
    pub title: &'static str,
    /// The files the linter reads for it.
    pub reads: &'static str,
    /// The section that establishes the requirement.
    pub spec: &'static str,
    /// For an accessibility rule, the WCAG 2.2 success criterion behind it.
    pub criterion: Option<&'static str>,
}

/// A rule's stable ID: removing or renumbering one is a breaking change.
#[derive(Debug, Clone, Copy, PartialEq, Eq, PartialOrd, Ord, Hash)]
pub enum RuleId {
    PV101,
    PV102,
    PV103,
    PV104,
    PV105,
    PV106,
    PV107,
    PV201,
    PV202,
    PV203,
    PV204,
    PV205,
    PV206,
    PV207,
    PV208,
    PV301,
    PV302,
    PV303,
    PV304,
    PV305,
    PV306,
    PV307,
    PV308,
    PV401,
    PV402,
    PV403,
    PV404,
    PV405,
    PV406,
    PV407,
    PV501,
    PV502,
    PV503,
    PV504,
    PV505,
    PV506,
}

/// The three digits of an ID: `PV301` is 301.
pub open spec fn id_number(id: RuleId) -> int {
    match id {
        RuleId::PV101 => 101,
        RuleId::PV102 => 102,
        RuleId::PV103 => 103,
        RuleId::PV104 => 104,
        RuleId::PV105 => 105,
        RuleId::PV106 => 106,
        RuleId::PV107 => 107,
        RuleId::PV201 => 201,
        RuleId::PV202 => 202,
        RuleId::PV203 => 203,
        RuleId::PV204 => 204,
        RuleId::PV205 => 205,
        RuleId::PV206 => 206,
        RuleId::PV207 => 207,
        RuleId::PV208 => 208,
        RuleId::PV301 => 301,
        RuleId::PV302 => 302,
        RuleId::PV303 => 303,
        RuleId::PV304 => 304,
        RuleId::PV305 => 305,
        RuleId::PV306 => 306,
        RuleId::PV307 => 307,
        RuleId::PV308 => 308,
        RuleId::PV401 => 401,
        RuleId::PV402 => 402,
        RuleId::PV403 => 403,
        RuleId::PV404 => 404,
        RuleId::PV405 => 405,
        RuleId::PV406 => 406,
        RuleId::PV407 => 407,
        RuleId::PV501 => 501,
        RuleId::PV502 => 502,
        RuleId::PV503 => 503,
        RuleId::PV504 => 504,
        RuleId::PV505 => 505,
        RuleId::PV506 => 506,
    }
}

/// The severity the rule table gives each rule.
pub open spec fn severity_of(id: RuleId) -> Severity {
    match id {
        RuleId::PV101 => Severity::Error,
        RuleId::PV102 => Severity::Error,
        RuleId::PV103 => Severity::Error,
        RuleId::PV104 => Severity::Error,
        RuleId::PV105 => Severity::Error,
        RuleId::PV106 => Severity::Error,
        RuleId::PV107 => Severity::Error,
        RuleId::PV201 => Severity::Error,
        RuleId::PV202 => Severity::Warn,
        RuleId::PV203 => Severity::Error,
        RuleId::PV204 => Severity::Error,
        RuleId::PV205 => Severity::Warn,
        RuleId::PV206 => Severity::Error,
        RuleId::PV207 => Severity::Error,
        RuleId::PV208 => Severity::Error,
        RuleId::PV301 => Severity::Error,
        RuleId::PV302 => Severity::Error,
        RuleId::PV303 => Severity::Error,
        RuleId::PV304 => Severity::Error,
        RuleId::PV305 => Severity::Warn,
        RuleId::PV306 => Severity::Warn,
        RuleId::PV307 => Severity::Warn,
        RuleId::PV308 => Severity::Error,
        RuleId::PV401 => Severity::Error,
        RuleId::PV402 => Severity::Error,
        RuleId::PV403 => Severity::Warn,
        RuleId::PV404 => Severity::Warn,
        RuleId::PV405 => Severity::Warn,
        RuleId::PV406 => Severity::Warn,
        RuleId::PV407 => Severity::Warn,
        RuleId::PV501 => Severity::Error,
        RuleId::PV502 => Severity::Error,
        RuleId::PV503 => Severity::Warn,
        RuleId::PV504 => Severity::Error,
        RuleId::PV505 => Severity::Error,
        RuleId::PV506 => Severity::Warn,
    }
}

/// The section each rule cites.
pub open spec fn spec_of(id: RuleId) -> &'static str {
    match id {
        RuleId::PV101 => "spec/app-contract.md §3",
        RuleId::PV102 => "spec/app-contract.md §3.1",
        RuleId::PV103 => "spec/protocol.md §12",
        RuleId::PV104 => "spec/app-contract.md §3.1",
        RuleId::PV105 => "spec/app-contract.md §8",
        RuleId::PV106 => "spec/app-contract.md §4.5",
        RuleId::PV107 => "spec/app-contract.md §4.5",
        RuleId::PV201 => "spec/lua-api.md §3.2",
        RuleId::PV202 => "spec/lua-api.md §4",
        RuleId::PV203 => "spec/lua-api.md §5",
        RuleId::PV204 => "spec/lua-api.md §4.1",
        RuleId::PV205 => "spec/app-contract.md §5.4",
        RuleId::PV206 => "spec/app-contract.md §5.4",
        RuleId::PV207 => "spec/app-contract.md §5.4",
        RuleId::PV208 => "spec/protocol.md §3",
        RuleId::PV301 => "spec/app-contract.md §2.2",
        RuleId::PV302 => "spec/data-dictionary.md §2.1",
        RuleId::PV303 => "spec/app-contract.md §7",
        RuleId::PV304 => "spec/data-api.md §2",
        RuleId::PV305 => "spec/protocol.md §10.6",
        RuleId::PV306 => "spec/lua-api.md §3.3",
        RuleId::PV307 => "spec/lua-api.md §5",
        RuleId::PV308 => "spec/data-dictionary.md §2",
        RuleId::PV401 => "docs/icons.md",
        RuleId::PV402 => "spec/cli.md §5.1",
        RuleId::PV403 => "spec/cli.md §5.1",
        RuleId::PV404 => "spec/cli.md §5.1",
        RuleId::PV405 => "spec/cli.md §5.1",
        RuleId::PV406 => "spec/cli.md §5.1",
        RuleId::PV407 => "spec/cli.md §5.1",
        RuleId::PV501 => "spec/protocol.md §6.1",
        RuleId::PV502 => "spec/app-contract.md §5.4",
        RuleId::PV503 => "docs/icons.md",
        RuleId::PV504 => "spec/app-contract.md §5.1",
        RuleId::PV505 => "spec/protocol.md §3",
        RuleId::PV506 => "spec/protocol.md §9.1",
    }
}

impl RuleId {
    /// Every rule, in the table's order.
    pub fn all() -> (r: Vec<RuleId>)
        ensures
            r@.len() == 36,
            forall|id: RuleId| r@.contains(id),
            forall|i: int, j: int| 0 <= i < j < r@.len() ==> id_number(#[trigger] r@[i]) < id_number(#[trigger] r@[j]),
    {
        let r = vec![
            RuleId::PV101, RuleId::PV102, RuleId::PV103, RuleId::PV104, RuleId::PV105, RuleId::PV106, RuleId::PV107, RuleId::PV201, RuleId::PV202, RuleId::PV203, RuleId::PV204, RuleId::PV205, RuleId::PV206, RuleId::PV207, RuleId::PV208, RuleId::PV301, RuleId::PV302, RuleId::PV303, RuleId::PV304, RuleId::PV305, RuleId::PV306, RuleId::PV307, RuleId::PV308, RuleId::PV401, RuleId::PV402, RuleId::PV403, RuleId::PV404, RuleId::PV405, RuleId::PV406, RuleId::PV407, RuleId::PV501, RuleId::PV502, RuleId::PV503, RuleId::PV504, RuleId::PV505, RuleId::PV506,
        ];
        proof {
            assert forall|id: RuleId| r@.contains(id) by {
                match id {
                    RuleId::PV101 => { assert(r@[0] == id); },
                    RuleId::PV102 => { assert(r@[1] == id); },
                    RuleId::PV103 => { assert(r@[2] == id); },
                    RuleId::PV104 => { assert(r@[3] == id); },
                    RuleId::PV105 => { assert(r@[4] == id); },
                    RuleId::PV106 => { assert(r@[5] == id); },
                    RuleId::PV107 => { assert(r@[6] == id); },
                    RuleId::PV201 => { assert(r@[7] == id); },
                    RuleId::PV202 => { assert(r@[8] == id); },
                    RuleId::PV203 => { assert(r@[9] == id); },
                    RuleId::PV204 => { assert(r@[10] == id); },
                    RuleId::PV205 => { assert(r@[11] == id); },
                    RuleId::PV206 => { assert(r@[12] == id); },
                    RuleId::PV207 => { assert(r@[13] == id); },
                    RuleId::PV208 => { assert(r@[14] == id); },
                    RuleId::PV301 => { assert(r@[15] == id); },
                    RuleId::PV302 => { assert(r@[16] == id); },
                    RuleId::PV303 => { assert(r@[17] == id); },
                    RuleId::PV304 => { assert(r@[18] == id); },
                    RuleId::PV305 => { assert(r@[19] == id); },
                    RuleId::PV306 => { assert(r@[20] == id); },
                    RuleId::PV307 => { assert(r@[21] == id); },
                    RuleId::PV308 => { assert(r@[22] == id); },
                    RuleId::PV401 => { assert(r@[23] == id); },
                    RuleId::PV402 => { assert(r@[24] == id); },
                    RuleId::PV403 => { assert(r@[25] == id); },
                    RuleId::PV404 => { assert(r@[26] == id); },
                    RuleId::PV405 => { assert(r@[27] == id); },
                    RuleId::PV406 => { assert(r@[28] == id); },
                    RuleId::PV407 => { assert(r@[29] == id); },
                    RuleId::PV501 => { assert(r@[30] == id); },
                    RuleId::PV502 => { assert(r@[31] == id); },
                    RuleId::PV503 => { assert(r@[32] == id); },
                    RuleId::PV504 => { assert(r@[33] == id); },
                    RuleId::PV505 => { assert(r@[34] == id); },
                    RuleId::PV506 => { assert(r@[35] == id); },
                }
            }
        }
        r
    }

    /// `PV301`.
    pub fn as_str(self) -> (r: &'static str)
        ensures
            r@ == id_text(self),
    {
        match self {
            RuleId::PV101 => {
                proof {
                    reveal_strlit("PV101");
                    assert("PV101"@ =~= id_text(self));
                }
                "PV101"
            },
            RuleId::PV102 => {
                proof {
                    reveal_strlit("PV102");
                    assert("PV102"@ =~= id_text(self));
                }
                "PV102"
            },
            RuleId::PV103 => {
                proof {
                    reveal_strlit("PV103");
                    assert("PV103"@ =~= id_text(self));
                }
                "PV103"
            },
            RuleId::PV104 => {
                proof {
                    reveal_strlit("PV104");
                    assert("PV104"@ =~= id_text(self));
                }
                "PV104"
            },
            RuleId::PV105 => {
                proof {
                    reveal_strlit("PV105");
                    assert("PV105"@ =~= id_text(self));
                }
                "PV105"
            },
            RuleId::PV106 => {
                proof {
                    reveal_strlit("PV106");
                    assert("PV106"@ =~= id_text(self));
                }
                "PV106"
            },
            RuleId::PV107 => {
                proof {
                    reveal_strlit("PV107");
                    assert("PV107"@ =~= id_text(self));
                }
                "PV107"
            },
            RuleId::PV201 => {
                proof {
                    reveal_strlit("PV201");
                    assert("PV201"@ =~= id_text(self));
                }
                "PV201"
            },
            RuleId::PV202 => {
                proof {
                    reveal_strlit("PV202");
                    assert("PV202"@ =~= id_text(self));
                }
                "PV202"
            },
            RuleId::PV203 => {
                proof {
                    reveal_strlit("PV203");
                    assert("PV203"@ =~= id_text(self));
                }
                "PV203"
            },
            RuleId::PV204 => {
                proof {
                    reveal_strlit("PV204");
                    assert("PV204"@ =~= id_text(self));
                }
                "PV204"
            },
            RuleId::PV205 => {
                proof {
                    reveal_strlit("PV205");
                    assert("PV205"@ =~= id_text(self));
                }
                "PV205"
            },
            RuleId::PV206 => {
                proof {
                    reveal_strlit("PV206");
                    assert("PV206"@ =~= id_text(self));
                }
                "PV206"
            },
            RuleId::PV207 => {
                proof {
                    reveal_strlit("PV207");
                    assert("PV207"@ =~= id_text(self));
                }
                "PV207"
            },
            RuleId::PV208 => {
                proof {
                    reveal_strlit("PV208");
                    assert("PV208"@ =~= id_text(self));
                }
                "PV208"
            },
            RuleId::PV301 => {
                proof {
                    reveal_strlit("PV301");
                    assert("PV301"@ =~= id_text(self));
                }
                "PV301"
            },
            RuleId::PV302 => {
                proof {
                    reveal_strlit("PV302");
                    assert("PV302"@ =~= id_text(self));
                }
                "PV302"
            },
            RuleId::PV303 => {
                proof {
                    reveal_strlit("PV303");
                    assert("PV303"@ =~= id_text(self));
                }
                "PV303"
            },
            RuleId::PV304 => {
                proof {
                    reveal_strlit("PV304");
                    assert("PV304"@ =~= id_text(self));
                }
                "PV304"
            },
            RuleId::PV305 => {
                proof {
                    reveal_strlit("PV305");
                    assert("PV305"@ =~= id_text(self));
                }
                "PV305"
            },
            RuleId::PV306 => {
                proof {
                    reveal_strlit("PV306");
                    assert("PV306"@ =~= id_text(self));
                }
                "PV306"
            },
            RuleId::PV307 => {
                proof {
                    reveal_strlit("PV307");
                    assert("PV307"@ =~= id_text(self));
                }
                "PV307"
            },
            RuleId::PV308 => {
                proof {
                    reveal_strlit("PV308");
                    assert("PV308"@ =~= id_text(self));
                }
                "PV308"
            },
            RuleId::PV401 => {
                proof {
                    reveal_strlit("PV401");
                    assert("PV401"@ =~= id_text(self));
                }
                "PV401"
            },
            RuleId::PV402 => {
                proof {
                    reveal_strlit("PV402");
                    assert("PV402"@ =~= id_text(self));
                }
                "PV402"
            },
            RuleId::PV403 => {
                proof {
                    reveal_strlit("PV403");
                    assert("PV403"@ =~= id_text(self));
                }
                "PV403"
            },
            RuleId::PV404 => {
                proof {
                    reveal_strlit("PV404");
                    assert("PV404"@ =~= id_text(self));
                }
                "PV404"
            },
            RuleId::PV405 => {
                proof {
                    reveal_strlit("PV405");
                    assert("PV405"@ =~= id_text(self));
                }
                "PV405"
            },
            RuleId::PV406 => {
                proof {
                    reveal_strlit("PV406");
                    assert("PV406"@ =~= id_text(self));
                }
                "PV406"
            },
            RuleId::PV407 => {
                proof {
                    reveal_strlit("PV407");
                    assert("PV407"@ =~= id_text(self));
                }
                "PV407"
            },
            RuleId::PV501 => {
                proof {
                    reveal_strlit("PV501");
                    assert("PV501"@ =~= id_text(self));
                }
                "PV501"
            },
            RuleId::PV502 => {
                proof {
                    reveal_strlit("PV502");
                    assert("PV502"@ =~= id_text(self));
                }
                "PV502"
            },
            RuleId::PV503 => {
                proof {
                    reveal_strlit("PV503");
                    assert("PV503"@ =~= id_text(self));
                }
                "PV503"
            },
            RuleId::PV504 => {
                proof {
                    reveal_strlit("PV504");
                    assert("PV504"@ =~= id_text(self));
                }
                "PV504"
            },
            RuleId::PV505 => {
                proof {
                    reveal_strlit("PV505");
                    assert("PV505"@ =~= id_text(self));
                }
                "PV505"
            },
            RuleId::PV506 => {
                proof {
                    reveal_strlit("PV506");
                    assert("PV506"@ =~= id_text(self));
                }
                "PV506"
            },
        }
    }
}

/// The rule behind an ID: its class, severity, text, what it reads, the section it
/// cites, and for an accessibility rule the WCAG criterion behind it.
pub fn rule(id: RuleId) -> (r: Rule)
    ensures
        r.id == id,
        r.class == class_of(id),
        r.severity == severity_of(id),
        r.spec == spec_of(id),
        (r.criterion is Some) == (r.class == Class::Accessibility),
{
    match id {
        RuleId::PV101 => Rule {
            id: RuleId::PV101,
            class: Class::Contract,
            severity: Severity::Error,
            title: "app.toml parses and carries slug, title, version, api, tier",
            reads: "app.toml",
            spec: "spec/app-contract.md §3",
            criterion: None,
        },
        RuleId::PV102 => Rule {
            id: RuleId::PV102,
            class: Class::Contract,
            severity: Severity::Error,
            title: "Slug matches ^[a-z][a-z0-9-]{1,30}$ and is not reserved",
            reads: "app.toml",
            spec: "spec/app-contract.md §3.1",
            criterion: None,
        },
        RuleId::PV103 => Rule {
            id: RuleId::PV103,
            class: Class::Contract,
            severity: Severity::Error,
            title: "api does not exceed the framework's supported version",
            reads: "app.toml",
            spec: "spec/protocol.md §12",
            criterion: None,
        },
        RuleId::PV104 => Rule {
            id: RuleId::PV104,
            class: Class::Contract,
            severity: Severity::Error,
            title: "Slug directory name matches app.slug",
            reads: "app.toml, the folder name",
            spec: "spec/app-contract.md §3.1",
            criterion: None,
        },
        RuleId::PV105 => Rule {
            id: RuleId::PV105,
            class: Class::Contract,
            severity: Severity::Error,
            title: "Tier-required files present and every Lua file and template parses",
            reads: "app.lua, web/index.html, lib/, views/",
            spec: "spec/app-contract.md §8",
            criterion: None,
        },
        RuleId::PV106 => Rule {
            id: RuleId::PV106,
            class: Class::Contract,
            severity: Severity::Error,
            title: "Every table in schema.sql has id VARCHAR PRIMARY KEY",
            reads: "schema.sql, through the engine's catalog",
            spec: "spec/app-contract.md §4.5",
            criterion: None,
        },
        RuleId::PV107 => Rule {
            id: RuleId::PV107,
            class: Class::Contract,
            severity: Severity::Error,
            title: "schema.sql contains only CREATE TABLE, CREATE VIEW, CREATE INDEX and comments",
            reads: "schema.sql, one statement at a time under the engine's authorizer",
            spec: "spec/app-contract.md §4.5",
            criterion: None,
        },
        RuleId::PV201 => Rule {
            id: RuleId::PV201,
            class: Class::Security,
            severity: Severity::Error,
            title: "No string-concatenated SQL — parameters must be bound",
            reads: "Lua and templates (AST), Tier 2 JavaScript",
            spec: "spec/lua-api.md §3.2",
            criterion: None,
        },
        RuleId::PV202 => Rule {
            id: RuleId::PV202,
            class: Class::Security,
            severity: Severity::Warn,
            title: "Every <?raw ?> use is reported for review",
            reads: "views/*.lsp",
            spec: "spec/lua-api.md §4",
            criterion: None,
        },
        RuleId::PV203 => Rule {
            id: RuleId::PV203,
            class: Class::Security,
            severity: Severity::Error,
            title: "No banned Lua global — io, os.execute, os.getenv, debug, load, dofile, package.loadlib, and the rest of the sandbox's closed list",
            reads: "Lua and templates (AST)",
            spec: "spec/lua-api.md §5",
            criterion: None,
        },
        RuleId::PV204 => Rule {
            id: RuleId::PV204,
            class: Class::Security,
            severity: Severity::Error,
            title: "Every non-GET form contains csrf()",
            reads: "views/*.lsp",
            spec: "spec/lua-api.md §4.1",
            criterion: None,
        },
        RuleId::PV205 => Rule {
            id: RuleId::PV205,
            class: Class::Security,
            severity: Severity::Warn,
            title: "Declared [permissions] beyond the defaults carry a justifying comment",
            reads: "app.toml",
            spec: "spec/app-contract.md §5.4",
            criterion: None,
        },
        RuleId::PV206 => Rule {
            id: RuleId::PV206,
            class: Class::Security,
            severity: Severity::Error,
            title: "No innerHTML with non-literal data in Tier 2 JavaScript",
            reads: "web/**/*.js",
            spec: "spec/app-contract.md §5.4",
            criterion: None,
        },
        RuleId::PV207 => Rule {
            id: RuleId::PV207,
            class: Class::Security,
            severity: Severity::Error,
            title: "No external origin referenced without a matching permissions.remote entry",
            reads: "templates, web/, static/",
            spec: "spec/app-contract.md §5.4",
            criterion: None,
        },
        RuleId::PV208 => Rule {
            id: RuleId::PV208,
            class: Class::Security,
            severity: Severity::Error,
            title: "No apparent secret in schema.sql, app.toml, or sample data",
            reads: "schema.sql, app.toml, sample/seed.jsonl",
            spec: "spec/protocol.md §3",
            criterion: None,
        },
        RuleId::PV301 => Rule {
            id: RuleId::PV301,
            class: Class::Correctness,
            severity: Severity::Error,
            title: "No literal /a/<slug>/ path — use url() or pv.url() (breaks solo mode)",
            reads: "Lua, templates, web/ (strings and attributes)",
            spec: "spec/app-contract.md §2.2",
            criterion: None,
        },
        RuleId::PV302 => Rule {
            id: RuleId::PV302,
            class: Class::Correctness,
            severity: Severity::Error,
            title: "No tonumber() or JavaScript Number() applied to a DECIMAL or BIGINT column",
            reads: "Lua and templates (AST) and web/ JavaScript, against schema.sql",
            spec: "spec/data-dictionary.md §2.1",
            criterion: None,
        },
        RuleId::PV303 => Rule {
            id: RuleId::PV303,
            class: Class::Correctness,
            severity: Severity::Error,
            title: "No INSERT, UPDATE, or DELETE in app SQL — writes are appends",
            reads: "the SQL literals of Lua, templates and JavaScript",
            spec: "spec/app-contract.md §7",
            criterion: None,
        },
        RuleId::PV304 => Rule {
            id: RuleId::PV304,
            class: Class::Correctness,
            severity: Severity::Error,
            title: "Client code does not set seq, lam, ts, dev, or app on an event",
            reads: "web/ JavaScript",
            spec: "spec/data-api.md §2",
            criterion: None,
        },
        RuleId::PV305 => Rule {
            id: RuleId::PV305,
            class: Class::Correctness,
            severity: Severity::Warn,
            title: "No outbox dedupe table, transaction ID, or acknowledgement protocol",
            reads: "schema.sql, Lua, JavaScript (names)",
            spec: "spec/protocol.md §10.6",
            criterion: None,
        },
        RuleId::PV306 => Rule {
            id: RuleId::PV306,
            class: Class::Correctness,
            severity: Severity::Warn,
            title: "Multi-event writes that must land together use pv.batch",
            reads: "Lua (AST), JavaScript",
            spec: "spec/lua-api.md §3.3",
            criterion: None,
        },
        RuleId::PV307 => Rule {
            id: RuleId::PV307,
            class: Class::Correctness,
            severity: Severity::Warn,
            title: "No global assigned in a handler expecting persistence, and no load-time table mutated from one",
            reads: "Lua (AST)",
            spec: "spec/lua-api.md §5",
            criterion: None,
        },
        RuleId::PV308 => Rule {
            id: RuleId::PV308,
            class: Class::Correctness,
            severity: Severity::Error,
            title: "No SUM() over a DECIMAL column and no + or - on a DATE column in app SQL",
            reads: "the SQL literals of Lua, templates and JavaScript, and CREATE VIEW in schema.sql",
            spec: "spec/data-dictionary.md §2",
            criterion: None,
        },
        RuleId::PV401 => Rule {
            id: RuleId::PV401,
            class: Class::Accessibility,
            severity: Severity::Error,
            title: "No icon-only control without a label argument or aria-label",
            reads: "templates, web/ HTML",
            spec: "docs/icons.md",
            criterion: Some("1.1.1 Non-text Content, 4.1.2 Name, Role, Value"),
        },
        RuleId::PV402 => Rule {
            id: RuleId::PV402,
            class: Class::Accessibility,
            severity: Severity::Error,
            title: "Every form input has an associated <label for>",
            reads: "templates, web/ HTML",
            spec: "spec/cli.md §5.1",
            criterion: Some("1.3.1 Info and Relationships, 3.3.2 Labels or Instructions"),
        },
        RuleId::PV403 => Rule {
            id: RuleId::PV403,
            class: Class::Accessibility,
            severity: Severity::Warn,
            title: "Radio and checkbox groups are wrapped in fieldset/legend",
            reads: "templates, web/ HTML",
            spec: "spec/cli.md §5.1",
            criterion: Some("1.3.1 Info and Relationships"),
        },
        RuleId::PV404 => Rule {
            id: RuleId::PV404,
            class: Class::Accessibility,
            severity: Severity::Warn,
            title: "Heading levels do not skip; exactly one <h1> per rendered page",
            reads: "templates as pages (a view with its partials, or a layout's document), web/ HTML",
            spec: "spec/cli.md §5.1",
            criterion: Some("1.3.1 Info and Relationships, 2.4.6 Headings and Labels"),
        },
        RuleId::PV405 => Rule {
            id: RuleId::PV405,
            class: Class::Accessibility,
            severity: Severity::Warn,
            title: "No status conveyed by colour alone",
            reads: "templates, web/ HTML",
            spec: "spec/cli.md §5.1",
            criterion: Some("1.4.1 Use of Color"),
        },
        RuleId::PV406 => Rule {
            id: RuleId::PV406,
            class: Class::Accessibility,
            severity: Severity::Warn,
            title: "Declared colour tokens meet 4.5:1 body / 3:1 large and UI",
            reads: "static/*.css, web/**/*.css",
            spec: "spec/cli.md §5.1",
            criterion: Some("1.4.3 Contrast (Minimum), 1.4.11 Non-text Contrast"),
        },
        RuleId::PV407 => Rule {
            id: RuleId::PV407,
            class: Class::Accessibility,
            severity: Severity::Warn,
            title: "Tabular data uses <table> with <th scope>, not a grid of divs",
            reads: "templates, web/ HTML",
            spec: "spec/cli.md §5.1",
            criterion: Some("1.3.1 Info and Relationships"),
        },
        RuleId::PV501 => Rule {
            id: RuleId::PV501,
            class: Class::Portability,
            severity: Severity::Error,
            title: "Slug ≤ 15 characters when nav.advertise = true (DNS-SD label limit)",
            reads: "app.toml",
            spec: "spec/protocol.md §6.1",
            criterion: None,
        },
        RuleId::PV502 => Rule {
            id: RuleId::PV502,
            class: Class::Portability,
            severity: Severity::Error,
            title: "permissions.cross_origin_isolated only in solo mode",
            reads: "app.toml, the node's config.toml",
            spec: "spec/app-contract.md §5.4",
            criterion: None,
        },
        RuleId::PV503 => Rule {
            id: RuleId::PV503,
            class: Class::Portability,
            severity: Severity::Warn,
            title: "Icon names exist in the vendored Bootstrap Icons set",
            reads: "app.toml, Lua and templates (icon() calls)",
            spec: "docs/icons.md",
            criterion: None,
        },
        RuleId::PV504 => Rule {
            id: RuleId::PV504,
            class: Class::Portability,
            severity: Severity::Error,
            title: "No CDN reference — libraries are vendored under web/vendor/",
            reads: "templates, web/, static/",
            spec: "spec/app-contract.md §5.1",
            criterion: None,
        },
        RuleId::PV505 => Rule {
            id: RuleId::PV505,
            class: Class::Portability,
            severity: Severity::Error,
            title: "No absolute filesystem path, and nothing written beside the binary",
            reads: "Lua, templates, web/ (strings)",
            spec: "spec/protocol.md §3",
            criterion: None,
        },
        RuleId::PV506 => Rule {
            id: RuleId::PV506,
            class: Class::Portability,
            severity: Severity::Warn,
            title: "No app route matching a framework prefix — shadowed in solo mode",
            reads: "Lua routes (AST), web/ top-level entries",
            spec: "spec/protocol.md §9.1",
            criterion: None,
        },
    }
}

/// Two different rules never share an ID's text.
pub proof fn lemma_id_text_injective(a: RuleId, b: RuleId)
    ensures
        id_text(a) == id_text(b) ==> a == b,
{
    if id_text(a) == id_text(b) {
        assert(id_text(a)[2] == id_text(b)[2]);
        assert(id_text(a)[3] == id_text(b)[3]);
        assert(id_text(a)[4] == id_text(b)[4]);
        assert(id_number(a) == id_number(b));
    }
}

impl RuleId {
    /// The ID spelled `PV301`, if it is one.
    pub fn parse(text: &str) -> (r: Option<RuleId>)
        ensures
            parse_result(text@, r),
    {
        let want = chars_of(text);
        let all = RuleId::all();
        let mut k: usize = 0;
        while k < all.len()
            invariant
                k <= all@.len(),
                want@ == text@,
                forall|id: RuleId| all@.contains(id),
                forall|j: int| 0 <= j < k ==> id_text(#[trigger] all@[j]) != text@,
            decreases all.len() - k,
        {
            let id = all[k];
            let spelled = chars_of(id.as_str());
            if crate::text::same_chars(spelled.as_slice(), want.as_slice()) {
                return Some(id);
            }
            k = k + 1;
        }
        proof {
            assert forall|id: RuleId| id_text(id) != text@ by {
                assert(all@.contains(id));
                let j = choose|j: int| 0 <= j < all@.len() && all@[j] == id;
                assert(id_text(all@[j]) != text@);
            }
        }
        None
    }
}

/// What reading `text` as an ID gives: the ID spelled so, or nothing when none is.
pub open spec fn parse_result(text: Seq<char>, r: Option<RuleId>) -> bool {
    match r {
        Some(id) => id_text(id) == text,
        None => forall|id: RuleId| id_text(id) != text,
    }
}

/// Reading an ID's text back gives that ID and no other.
pub proof fn lemma_parse_reads_back(id: RuleId)
    ensures
        forall|r: Option<RuleId>| parse_result(id_text(id), r) ==> r == Some(id),
{
    assert forall|r: Option<RuleId>| parse_result(id_text(id), r) implies r == Some(id) by {
        match r {
            Some(other) => lemma_id_text_injective(other, id),
            None => {
                assert(id_text(id) != id_text(id));
            },
        }
    }
}


/// A mechanical correction: replace `start..end` of `file` with `replacement`. Offsets
/// are bytes into the file as read.
#[derive(Debug, Clone, PartialEq, Eq)]
pub struct Edit {
    /// The file, as a path that can be opened.
    pub file: String,
    /// Start byte.
    pub start: usize,
    /// End byte, exclusive.
    pub end: usize,
    /// What goes in its place.
    pub replacement: String,
}

/// One finding: the seven reported fields, plus the edit a fix would make.
#[derive(Debug, Clone, PartialEq, Eq)]
pub struct Finding {
    /// The rule.
    pub id: RuleId,
    /// The rule's severity.
    pub severity: Severity,
    /// The file, as the caller named the app plus the path within it.
    pub file: String,
    /// 1-based line; `0` when the finding is about the file as a whole.
    pub line: u32,
    /// What is wrong.
    pub message: String,
    /// What to do about it, when the rule can say.
    pub fix: Option<String>,
    /// The section that establishes the requirement.
    pub spec: &'static str,
    /// The mechanical correction, when there is one.
    pub edit: Option<Edit>,
}

/// A finding as one terminal line: `file:line: ID severity: message`, then ` — fix: …`
/// when there is a fix, then ` (spec)`.
pub open spec fn finding_text(f: Finding) -> Seq<char> {
    f.file@ + ":"@ + decimal(f.line as nat) + ": "@ + id_text(f.id) + " "@ + severity_text(
        f.severity,
    ) + ": "@ + f.message@ + match f.fix {
        Some(x) => " — fix: "@ + x@,
        None => Seq::empty(),
    } + " ("@ + f.spec@ + ")"@
}

impl Finding {
    /// One line for a terminal.
    pub fn text(&self) -> (r: String)
        ensures
            r@ == finding_text(*self),
    {
        let mut out: Vec<char> = Vec::new();
        push_str(&mut out, self.file.as_str());
        push_str(&mut out, ":");
        let line = decimal_exec(self.line as u64);
        push_all(&mut out, line.as_slice());
        push_str(&mut out, ": ");
        push_str(&mut out, self.id.as_str());
        push_str(&mut out, " ");
        push_str(&mut out, self.severity.as_str());
        push_str(&mut out, ": ");
        push_str(&mut out, self.message.as_str());
        let ghost before_fix = out@;
        match &self.fix {
            Some(fix) => {
                push_str(&mut out, " — fix: ");
                push_str(&mut out, fix.as_str());
            },
            None => {
                assert(before_fix + Seq::<char>::empty() =~= before_fix);
            },
        }
        push_str(&mut out, " (");
        push_str(&mut out, self.spec);
        push_str(&mut out, ")");
        proof {
            assert(out@ =~= finding_text(*self));
        }
        string_of(out.as_slice())
    }
}

/// What one run found.
#[derive(Debug, Clone, Default, PartialEq, Eq)]
pub struct Report {
    /// Every finding, sorted by file, line and rule.
    pub findings: Vec<Finding>,
    /// The apps linted, as named.
    pub apps: Vec<String>,
}

impl Report {
    /// The findings at `severity` or above, in order.
    pub fn at_or_above(&self, severity: Severity) -> (r: Vec<&Finding>)
        ensures
            r@.map_values(|f: &Finding| *f) == self.findings@.filter(
                |f: Finding| rank(f.severity) >= rank(severity),
            ),
    {
        let mut out: Vec<&Finding> = Vec::new();
        let mut k: usize = 0;
        while k < self.findings.len()
            invariant
                k <= self.findings@.len(),
                out@.map_values(|f: &Finding| *f) == self.findings@.subrange(0, k as int).filter(
                    |f: Finding| rank(f.severity) >= rank(severity),
                ),
            decreases self.findings.len() - k,
        {
            proof {
                assert(self.findings@.subrange(0, k + 1).drop_last() =~= self.findings@.subrange(
                    0,
                    k as int,
                ));
                reveal_with_fuel(Seq::filter, 1);
            }
            let f = &self.findings[k];
            let ghost before = out@.map_values(|f: &Finding| *f);
            if f.severity.rank() >= severity.rank() {
                out.push(f);
                proof {
                    assert(out@.map_values(|f: &Finding| *f) =~= before.push(*f));
                }
            }
            k = k + 1;
        }
        proof {
            assert(self.findings@.subrange(0, k as int) =~= self.findings@);
        }
        out
    }
}

/// A slug as the manifest rule states it: `^[a-z][a-z0-9-]{1,30}$`.
pub open spec fn valid_slug(s: Seq<char>) -> bool {
    &&& 2 <= s.len() <= 31
    &&& 'a' <= s[0] <= 'z'
    &&& forall|i: int| 1 <= i < s.len() ==> #[trigger] slug_char(s[i])
}

/// A character a slug may hold after its first.
pub open spec fn slug_char(c: char) -> bool {
    ('a' <= c <= 'z') || ('0' <= c <= '9') || c == '-'
}

/// Whether `s` is a slug: a lowercase letter, then 1 to 30 of lowercase letters, digits
/// and hyphens.
pub fn is_valid_slug(s: &[char]) -> (r: bool)
    ensures
        r == valid_slug(s@),
{
    if s.len() < 2 || s.len() > 31 || !('a' <= s[0] && s[0] <= 'z') {
        return false;
    }
    let mut i: usize = 1;
    while i < s.len()
        invariant
            1 <= i <= s@.len(),
            2 <= s@.len() <= 31,
            'a' <= s@[0] <= 'z',
            forall|j: int| 1 <= j < i ==> #[trigger] slug_char(s@[j]),
        decreases s.len() - i,
    {
        let c = s[i];
        if !(('a' <= c && c <= 'z') || ('0' <= c && c <= '9') || c == '-') {
            assert(!slug_char(s@[i as int]));
            return false;
        }
        i = i + 1;
    }
    true
}

/// The `/a/<slug>/…` literal at the start of `text`, as `(slug, path beneath the mount)`,
/// when `text` is exactly such a path: a valid slug, and beneath it no whitespace and no
/// `<`.
pub open spec fn mount_of(text: Seq<char>) -> Option<(Seq<char>, Seq<char>)> {
    if !starts_with(text, "/a/"@) {
        None
    } else {
        let rest = text.subrange(3, text.len() as int);
        match crate::text::index_of(rest, seq!['/'], 0) {
            None => None,
            Some(i) => {
                let slug = rest.subrange(0, i);
                let beneath = rest.subrange(i + 1, rest.len() as int);
                if !valid_slug(slug) || (exists|j: int|
                    0 <= j < beneath.len() && (is_ws(#[trigger] beneath[j]) || beneath[j] == '<')) {
                    None
                } else {
                    Some((slug, seq!['/'] + beneath))
                }
            },
        }
    }
}

fn plain_path(v: &[char]) -> (r: bool)
    ensures
        r == !(exists|j: int| 0 <= j < v@.len() && (is_ws(#[trigger] v@[j]) || v@[j] == '<')),
{
    let mut k: usize = 0;
    while k < v.len()
        invariant
            k <= v@.len(),
            forall|j: int| 0 <= j < k ==> !(is_ws(#[trigger] v@[j]) || v@[j] == '<'),
        decreases v.len() - k,
    {
        if crate::text::is_ws_exec(v[k]) || v[k] == '<' {
            assert(is_ws(v@[k as int]) || v@[k as int] == '<');
            return false;
        }
        k = k + 1;
    }
    true
}

fn all_host_chars(v: &[char]) -> (r: bool)
    ensures
        r == forall|i: int| 0 <= i < v@.len() ==> host_char(#[trigger] v@[i]),
{
    let mut i: usize = 0;
    while i < v.len()
        invariant
            i <= v@.len(),
            forall|j: int| 0 <= j < i ==> host_char(#[trigger] v@[j]),
        decreases v.len() - i,
    {
        let c = v[i];
        if !(('a' <= c && c <= 'z') || ('A' <= c && c <= 'Z') || ('0' <= c && c <= '9') || c == '.'
            || c == '-' || c == ':') {
            assert(!host_char(v@[i as int]));
            return false;
        }
        i = i + 1;
    }
    true
}

/// The `/a/<slug>/…` literal at the start of `text`, as `(slug, path beneath the mount)`.
pub fn mount_path(text: &str) -> (r: Option<(String, String)>)
    ensures
        match r {
            Some((slug, path)) => mount_of(text@) == Some((slug@, path@)),
            None => mount_of(text@) is None,
        },
{
    let t = chars_of(text);
    let prefix = chars_of("/a/");
    if !starts_with_exec(t.as_slice(), prefix.as_slice()) {
        return None;
    }
    proof {
        reveal_strlit("/a/");
    }
    let rest = slice_chars(t.as_slice(), 3, t.len());
    let slash = find_char_in_rest(rest.as_slice(), '/', 0);
    proof {
        assert(rest@.subrange(0, rest@.len() as int) =~= rest@);
    }
    let i = match slash {
        Some(i) => i,
        None => {
            return None;
        },
    };
    let slug = slice_chars(rest.as_slice(), 0, i);
    let n = rest.len();
    assert(i < n);
    let beneath = slice_chars(rest.as_slice(), i + 1, n);
    if !is_valid_slug(slug.as_slice()) {
        return None;
    }
    if !plain_path(beneath.as_slice()) {
        return None;
    }
    let mut path: Vec<char> = Vec::new();
    path.push('/');
    push_all(&mut path, beneath.as_slice());
    proof {
        assert(path@ =~= seq!['/'] + beneath@);
    }
    Some((string_of(slug.as_slice()), string_of(path.as_slice())))
}

/// A literal filesystem path an app must not carry: a POSIX home or system prefix, `~/`,
/// `file://`, or a Windows drive.
pub open spec fn absolute_fs_path(text: Seq<char>) -> bool {
    let t = trim(text);
    ||| starts_with(t, "/home/"@)
    ||| starts_with(t, "/Users/"@)
    ||| starts_with(t, "/var/"@)
    ||| starts_with(t, "/etc/"@)
    ||| starts_with(t, "/tmp/"@)
    ||| starts_with(t, "/opt/"@)
    ||| starts_with(t, "/usr/"@)
    ||| starts_with(t, "/root/"@)
    ||| starts_with(t, "/mnt/"@)
    ||| starts_with(t, "/srv/"@)
    ||| starts_with(t, "~/"@)
    ||| starts_with(t, "file://"@)
    ||| (t.len() >= 3 && is_ascii_alpha(t[0]) && t[1] == ':' && (t[2] == '\\' || t[2] == '/'))
}

/// Whether `text` is a literal filesystem path an app must not carry.
pub fn is_absolute_fs_path(text: &str) -> (r: bool)
    ensures
        r == absolute_fs_path(text@),
{
    let raw = chars_of(text);
    let t = trimmed(raw.as_slice());
    let ts = t.as_slice();
    if starts_with_exec(ts, chars_of("/home/").as_slice()) || starts_with_exec(
        ts,
        chars_of("/Users/").as_slice(),
    ) || starts_with_exec(ts, chars_of("/var/").as_slice()) || starts_with_exec(
        ts,
        chars_of("/etc/").as_slice(),
    ) || starts_with_exec(ts, chars_of("/tmp/").as_slice()) || starts_with_exec(
        ts,
        chars_of("/opt/").as_slice(),
    ) || starts_with_exec(ts, chars_of("/usr/").as_slice()) || starts_with_exec(
        ts,
        chars_of("/root/").as_slice(),
    ) || starts_with_exec(ts, chars_of("/mnt/").as_slice()) || starts_with_exec(
        ts,
        chars_of("/srv/").as_slice(),
    ) || starts_with_exec(ts, chars_of("~/").as_slice()) || starts_with_exec(
        ts,
        chars_of("file://").as_slice(),
    ) {
        return true;
    }
    t.len() >= 3 && (('a' <= t[0] && t[0] <= 'z') || ('A' <= t[0] && t[0] <= 'Z')) && t[1] == ':'
        && (t[2] == '\\' || t[2] == '/')
}

/// A character that ends the host of a URL.
pub open spec fn host_end(c: char) -> bool {
    c == '/' || c == '?' || c == '#' || c == '\'' || c == '"' || c == ' ' || c == ')' || c == '<'
        || c == '>'
}

/// A character a host may hold.
pub open spec fn host_char(c: char) -> bool {
    is_ascii_alnum(c) || c == '.' || c == '-' || c == ':'
}

/// The number of characters before the first that ends a host.
pub open spec fn host_len(s: Seq<char>) -> nat
    decreases s.len(),
{
    if s.len() > 0 && !host_end(s[0]) {
        1 + host_len(s.drop_first())
    } else {
        0
    }
}

/// The origin of an absolute URL — `https://host[:port]` — if `text` is one. A
/// protocol-relative `//host/…` counts as `https`.
pub open spec fn origin(text: Seq<char>) -> Option<Seq<char>> {
    let t = trim(text);
    let start = url_start(t);
    if start == 0 {
        None
    } else {
        let rest = t.subrange(start, t.len() as int);
        let host = rest.subrange(0, host_len(rest) as int);
        if host.len() == 0 || !(forall|i: int| 0 <= i < host.len() ==> host_char(#[trigger] host[i]))
            || (!host.contains('.') && host != "localhost"@) {
            None
        } else {
            Some(url_scheme(t) + "://"@ + host)
        }
    }
}

/// Where the host of an absolute or protocol-relative URL starts; 0 for anything else.
pub open spec fn url_start(t: Seq<char>) -> int {
    if starts_with(t, "https://"@) {
        8
    } else if starts_with(t, "http://"@) {
        7
    } else if starts_with(t, "//"@) {
        2
    } else {
        0
    }
}

/// The scheme an absolute URL's origin carries: its own, or `https` for `//host`.
pub open spec fn url_scheme(t: Seq<char>) -> Seq<char> {
    if starts_with(t, "http://"@) && !starts_with(t, "https://"@) {
        "http"@
    } else {
        "https"@
    }
}

proof fn lemma_host_len(s: Seq<char>, k: int)
    requires
        0 <= k <= s.len(),
        forall|j: int| 0 <= j < k ==> !host_end(s[j]),
        k == s.len() || host_end(s[k]),
    ensures
        host_len(s) == k,
    decreases k,
{
    if k > 0 {
        lemma_host_len(s.drop_first(), k - 1);
    }
}

/// The origin of an absolute URL, if `text` is one.
pub fn origin_of(text: &str) -> (r: Option<String>)
    ensures
        match r {
            Some(s) => origin(text@) == Some(s@),
            None => origin(text@) is None,
        },
{
    let raw = chars_of(text);
    let t = trimmed(raw.as_slice());
    let https = chars_of("https://");
    let http = chars_of("http://");
    let slashes = chars_of("//");
    proof {
        reveal_strlit("https://");
        reveal_strlit("http://");
        reveal_strlit("//");
    }
    let is_https = starts_with_exec(t.as_slice(), https.as_slice());
    let is_http = starts_with_exec(t.as_slice(), http.as_slice());
    let (scheme, start): (&str, usize) = if is_https {
        ("https", 8)
    } else if is_http {
        ("http", 7)
    } else if starts_with_exec(t.as_slice(), slashes.as_slice()) {
        ("https", 2)
    } else {
        return None;
    };
    assert(start as int == url_start(t@));
    assert(scheme@ == url_scheme(t@));
    let mut k = start;
    while k < t.len() && !(t[k] == '/' || t[k] == '?' || t[k] == '#' || t[k] == '\'' || t[k] == '"'
        || t[k] == ' ' || t[k] == ')' || t[k] == '<' || t[k] == '>')
        invariant
            start <= k <= t@.len(),
            forall|j: int| start <= j < k ==> !host_end(t@[j]),
        decreases t.len() - k,
    {
        k = k + 1;
    }
    let ghost rest = t@.subrange(start as int, t@.len() as int);
    proof {
        assert forall|j: int| 0 <= j < k - start implies !host_end(rest[j]) by {
            assert(rest[j] == t@[start + j]);
        }
        if k < t@.len() {
            assert(rest[k - start] == t@[k as int]);
        }
        lemma_host_len(rest, k - start);
    }
    let host = slice_chars(t.as_slice(), start, k);
    proof {
        assert(host@ =~= rest.subrange(0, k - start));
    }
    if host.len() == 0 {
        return None;
    }
    if !all_host_chars(host.as_slice()) {
        return None;
    }
    let dotted = crate::text::contains_char(host.as_slice(), '.');
    let local = chars_of("localhost");
    if !dotted && !crate::text::same_chars(host.as_slice(), local.as_slice()) {
        return None;
    }
    let mut out: Vec<char> = Vec::new();
    push_str(&mut out, scheme);
    push_str(&mut out, "://");
    push_all(&mut out, host.as_slice());
    Some(string_of(out.as_slice()))
}


/// The columns of a schema by declared kind, for the rules that read a column name: the
/// column names lowercased, each with its declared type trimmed and uppercased, in the
/// order the tables declare them.
#[derive(Debug, Clone, PartialEq, Eq)]
pub struct Columns {
    entries: Vec<(String, String)>,
}

/// One column as the rules read it: the name lowercased, the type trimmed and uppercased.
pub open spec fn column_entry(name: Seq<char>, ty: Seq<char>) -> (Seq<char>, Seq<char>) {
    (lowered(name), uppered(trim(ty)))
}

/// A `DECIMAL`/`NUMERIC` type.
pub open spec fn decimal_type(t: Seq<char>) -> bool {
    starts_with(t, "DECIMAL"@) || starts_with(t, "NUMERIC"@)
}

/// An integer type: one whose name holds `INT`, an `INTERVAL` aside.
pub open spec fn integer_type(t: Seq<char>) -> bool {
    !starts_with(t, "INTERVAL"@) && contains_seq(t, "INT"@)
}

/// A date or time type.
pub open spec fn date_type(t: Seq<char>) -> bool {
    t == "DATE"@ || t == "TIMESTAMPTZ"@ || t == "TIME"@ || t == "TIMESTAMP"@
}

impl View for Columns {
    type V = Seq<(Seq<char>, Seq<char>)>;

    closed spec fn view(&self) -> Seq<(Seq<char>, Seq<char>)> {
        self.entries@.map_values(|e: (String, String)| (e.0@, e.1@))
    }
}

/// Whether some column named `name` (compared lowercased) has a type of `kind`:
/// `0` decimal, `1` integer, `2` date.
pub open spec fn has_column(cols: Seq<(Seq<char>, Seq<char>)>, name: Seq<char>, kind: int) -> bool {
    exists|i: int|
        0 <= i < cols.len() && #[trigger] cols[i].0 == lowered(name) && (if kind == 0 {
            decimal_type(cols[i].1)
        } else if kind == 1 {
            integer_type(cols[i].1)
        } else {
            date_type(cols[i].1)
        })
}

impl Columns {
    /// From the columns of every table of a schema, in declaration order: each a name and
    /// a declared type.
    pub fn of(columns: &[(String, String)]) -> (r: Columns)
        ensures
            r@.len() == columns@.len(),
            forall|i: int| 0 <= i < columns@.len() ==> #[trigger] r@[i] == column_entry(
                columns@[i].0@,
                columns@[i].1@,
            ),
    {
        let mut entries: Vec<(String, String)> = Vec::new();
        let mut i: usize = 0;
        while i < columns.len()
            invariant
                i <= columns@.len(),
                entries@.len() == i,
                forall|j: int| 0 <= j < i ==> (#[trigger] entries@[j].0@, entries@[j].1@)
                    == column_entry(columns@[j].0@, columns@[j].1@),
            decreases columns.len() - i,
        {
            let name = chars_of(columns[i].0.as_str());
            let ty = chars_of(columns[i].1.as_str());
            let low = lowered_exec(name.as_slice());
            let t = trimmed(ty.as_slice());
            let up = uppered_exec(t.as_slice());
            entries.push((string_of(low.as_slice()), string_of(up.as_slice())));
            i = i + 1;
        }
        let r = Columns { entries };
        assert forall|i: int| 0 <= i < columns@.len() implies #[trigger] r@[i] == column_entry(
            columns@[i].0@,
            columns@[i].1@,
        ) by {
            assert(r@[i] == (r.entries@[i].0@, r.entries@[i].1@));
        }
        r
    }

    fn has(&self, name: &str, kind: u8) -> (r: bool)
        requires
            kind < 3,
        ensures
            r == has_column(self@, name@, kind as int),
    {
        let want = lowered_exec(chars_of(name).as_slice());
        let decimal = chars_of("DECIMAL");
        let numeric = chars_of("NUMERIC");
        let interval = chars_of("INTERVAL");
        let int_text = chars_of("INT");
        let date = chars_of("DATE");
        let tz = chars_of("TIMESTAMPTZ");
        let time = chars_of("TIME");
        let stamp = chars_of("TIMESTAMP");
        let mut i: usize = 0;
        while i < self.entries.len()
            invariant
                i <= self@.len(),
                self@.len() == self.entries@.len(),
                want@ == lowered(name@),
                decimal@ == "DECIMAL"@,
                numeric@ == "NUMERIC"@,
                interval@ == "INTERVAL"@,
                int_text@ == "INT"@,
                date@ == "DATE"@,
                tz@ == "TIMESTAMPTZ"@,
                time@ == "TIME"@,
                stamp@ == "TIMESTAMP"@,
                forall|j: int| 0 <= j < i ==> !(#[trigger] self@[j].0 == lowered(name@) && (if kind == 0 {
                    decimal_type(self@[j].1)
                } else if kind == 1 {
                    integer_type(self@[j].1)
                } else {
                    date_type(self@[j].1)
                })),
            decreases self.entries.len() - i,
        {
            let key = chars_of(self.entries[i].0.as_str());
            let t = chars_of(self.entries[i].1.as_str());
            assert(self@[i as int] == (key@, t@));
            if same_chars(key.as_slice(), want.as_slice()) {
                let hit = if kind == 0 {
                    starts_with_exec(t.as_slice(), decimal.as_slice()) || starts_with_exec(
                        t.as_slice(),
                        numeric.as_slice(),
                    )
                } else if kind == 1 {
                    !starts_with_exec(t.as_slice(), interval.as_slice()) && contains_exec(
                        t.as_slice(),
                        int_text.as_slice(),
                    )
                } else {
                    same_chars(t.as_slice(), date.as_slice()) || same_chars(t.as_slice(), tz.as_slice())
                        || same_chars(t.as_slice(), time.as_slice()) || same_chars(
                        t.as_slice(),
                        stamp.as_slice(),
                    )
                };
                if hit {
                    assert(self@[i as int].0 == lowered(name@));
                    return true;
                }
            }
            i = i + 1;
        }
        false
    }

    /// A `DECIMAL`/`NUMERIC` column of that name exists.
    pub fn is_decimal(&self, name: &str) -> (r: bool)
        ensures
            r == has_column(self@, name@, 0),
    {
        self.has(name, 0)
    }

    /// A `BIGINT`/`INTEGER` column of that name exists.
    pub fn is_integer(&self, name: &str) -> (r: bool)
        ensures
            r == has_column(self@, name@, 1),
    {
        self.has(name, 1)
    }

    /// A `DATE`, `TIME` or `TIMESTAMPTZ` column of that name exists.
    pub fn is_date(&self, name: &str) -> (r: bool)
        ensures
            r == has_column(self@, name@, 2),
    {
        self.has(name, 2)
    }
}


/// `s` without the `/` and `\\` it ends with.
pub open spec fn trim_end_slashes(s: Seq<char>) -> Seq<char>
    decreases s.len(),
{
    if s.len() > 0 && (s.last() == '/' || s.last() == '\\') {
        trim_end_slashes(s.drop_last())
    } else {
        s
    }
}

/// The state one app's rules share.
pub struct Ctx {
    /// How findings name the folder.
    pub display: String,
    /// The folder name.
    pub folder: String,
    /// The manifest's slug, when the manifest parsed.
    pub manifest_slug: Option<String>,
    /// Whether this app is the one mounted at `/`.
    pub solo: bool,
    /// Accumulated findings.
    pub findings: Vec<Finding>,
}

impl Ctx {
    /// The slug: the manifest's, or the folder name while there is no manifest.
    pub fn slug(&self) -> (r: String)
        ensures
            r@ == match self.manifest_slug {
                Some(s) => s@,
                None => self.folder@,
            },
    {
        match &self.manifest_slug {
            Some(s) => s.clone(),
            None => self.folder.clone(),
        }
    }

    /// `apps/hello/app.lua`: the display name without its trailing separators, a `/`,
    /// and `rel`.
    pub fn file(&self, rel: &str) -> (r: String)
        ensures
            r@ == trim_end_slashes(self.display@) + "/"@ + rel@,
    {
        let d = chars_of(self.display.as_str());
        let mut end = d.len();
        assert(d@.subrange(0, end as int) =~= d@);
        while end > 0 && (d[end - 1] == '/' || d[end - 1] == '\\')
            invariant
                end <= d@.len(),
                trim_end_slashes(d@.subrange(0, end as int)) == trim_end_slashes(d@),
            decreases end,
        {
            assert(d@.subrange(0, end - 1) =~= d@.subrange(0, end as int).drop_last());
            end = end - 1;
        }
        let mut out = slice_chars(d.as_slice(), 0, end);
        assert(trim_end_slashes(d@.subrange(0, end as int)) == d@.subrange(0, end as int));
        push_str(&mut out, "/");
        push_str(&mut out, rel);
        string_of(out.as_slice())
    }

    /// Record a finding of rule `id` at `rel:line`; the caller may attach a fix and an
    /// edit to what is returned.
    pub fn push(&mut self, id: RuleId, rel: &str, line: u32, message: String) -> (r: &mut Finding)
        ensures
            r.id == id,
            r.severity == severity_of(id),
            r.file@ == trim_end_slashes(old(self).display@) + "/"@ + rel@,
            r.line == line,
            r.message == message,
            r.fix is None,
            r.spec == spec_of(id),
            r.edit is None,
            final(self).findings@ == old(self).findings@.push(*final(r)),
            final(self).display == old(self).display,
            final(self).folder == old(self).folder,
            final(self).manifest_slug == old(self).manifest_slug,
            final(self).solo == old(self).solo,
    {
        let rule = rule(id);
        let file = self.file(rel);
        self.findings.push(Finding {
            id,
            severity: rule.severity,
            file,
            line,
            message,
            fix: None,
            spec: rule.spec,
            edit: None,
        });
        let n = self.findings.len();
        &mut self.findings[n - 1]
    }
}

} // verus!
