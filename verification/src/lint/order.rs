//! The order of a report: findings sorted by file, line, rule and message, the order they
//! were found kept among ties, and a finding equal to the one kept before it dropped.

use vstd::prelude::*;
use crate::lint::{id_number, rank, Edit, Finding, RuleId};
use crate::text::{chars_of, lex_lt, lex_lt_exec, same_chars};

verus! {

/// `a` is reported strictly before `b`: by file, then line, then rule, then message.
pub open spec fn reported_before(a: Finding, b: Finding) -> bool {
    ||| lex_lt(a.file@, b.file@)
    ||| a.file@ == b.file@ && a.line < b.line
    ||| a.file@ == b.file@ && a.line == b.line && id_number(a.id) < id_number(b.id)
    ||| a.file@ == b.file@ && a.line == b.line && id_number(a.id) == id_number(b.id) && lex_lt(
        a.message@,
        b.message@,
    )
}

/// No finding of `s` is reported before one that precedes it.
pub open spec fn in_report_order(s: Seq<Finding>) -> bool {
    forall|i: int, j: int| 0 <= i < j < s.len() ==> !reported_before(#[trigger] s[j], #[trigger] s[i])
}

/// Where `x` goes among `r`, looking from `from`: before the first finding it is
/// reported strictly before, else at the end.
pub open spec fn insert_at(r: Seq<Finding>, x: Finding, from: int) -> int
    decreases r.len() - from,
{
    if from >= r.len() || from < 0 {
        r.len() as int
    } else if reported_before(x, r[from]) {
        from
    } else {
        insert_at(r, x, from + 1)
    }
}

/// `s` sorted by insertion, one finding after another: a stable sort.
pub open spec fn sorted_spec(s: Seq<Finding>) -> Seq<Finding>
    decreases s.len(),
{
    if s.len() == 0 {
        s
    } else {
        let r = sorted_spec(s.drop_last());
        r.insert(insert_at(r, s.last(), 0), s.last())
    }
}

/// Two edits alike in every field.
pub open spec fn same_edit(a: Option<Edit>, b: Option<Edit>) -> bool {
    match (a, b) {
        (None, None) => true,
        (Some(x), Some(y)) => x.file@ == y.file@ && x.start == y.start && x.end == y.end
            && x.replacement@ == y.replacement@,
        _ => false,
    }
}

/// Two findings alike in every field.
pub open spec fn same_finding(a: Finding, b: Finding) -> bool {
    &&& id_number(a.id) == id_number(b.id)
    &&& rank(a.severity) == rank(b.severity)
    &&& a.file@ == b.file@
    &&& a.line == b.line
    &&& a.message@ == b.message@
    &&& match (a.fix, b.fix) {
        (None, None) => true,
        (Some(x), Some(y)) => x@ == y@,
        _ => false,
    }
    &&& a.spec@ == b.spec@
    &&& same_edit(a.edit, b.edit)
}

/// `s` with each finding alike to the one kept before it dropped.
pub open spec fn deduped(s: Seq<Finding>) -> Seq<Finding>
    decreases s.len(),
{
    if s.len() == 0 {
        s
    } else {
        let r = deduped(s.drop_last());
        if r.len() > 0 && same_finding(r.last(), s.last()) {
            r
        } else {
            r.push(s.last())
        }
    }
}

/// The order a report gives `found`.
pub open spec fn report_order_spec(found: Seq<Finding>) -> Seq<Finding> {
    deduped(sorted_spec(found))
}

fn rule_number(id: RuleId) -> (r: u16)
    ensures
        r == id_number(id),
{
    match id {
        RuleId::PV101 => 101,
        RuleId::PV102 => 102,
        RuleId::PV103 => 103,
        RuleId::PV104 => 104,
        RuleId::PV105 => 105,
        RuleId::PV106 => 106,
        RuleId::PV107 => 107,
        RuleId::PV201 => 201,
        RuleId::PV202 => 202,
        RuleId::PV203 => 203,
        RuleId::PV204 => 204,
        RuleId::PV205 => 205,
        RuleId::PV206 => 206,
        RuleId::PV207 => 207,
        RuleId::PV208 => 208,
        RuleId::PV301 => 301,
        RuleId::PV302 => 302,
        RuleId::PV303 => 303,
        RuleId::PV304 => 304,
        RuleId::PV305 => 305,
        RuleId::PV306 => 306,
        RuleId::PV307 => 307,
        RuleId::PV308 => 308,
        RuleId::PV401 => 401,
        RuleId::PV402 => 402,
        RuleId::PV403 => 403,
        RuleId::PV404 => 404,
        RuleId::PV405 => 405,
        RuleId::PV406 => 406,
        RuleId::PV407 => 407,
        RuleId::PV501 => 501,
        RuleId::PV502 => 502,
        RuleId::PV503 => 503,
        RuleId::PV504 => 504,
        RuleId::PV505 => 505,
        RuleId::PV506 => 506,
    }
}

fn same_text(a: &str, b: &str) -> (r: bool)
    ensures
        r == (a@ == b@),
{
    let x = chars_of(a);
    let y = chars_of(b);
    same_chars(x.as_slice(), y.as_slice())
}

fn text_before(a: &str, b: &str) -> (r: bool)
    ensures
        r == lex_lt(a@, b@),
{
    let x = chars_of(a);
    let y = chars_of(b);
    lex_lt_exec(x.as_slice(), y.as_slice())
}

fn reported_before_exec(a: &Finding, b: &Finding) -> (r: bool)
    ensures
        r == reported_before(*a, *b),
{
    if text_before(a.file.as_str(), b.file.as_str()) {
        return true;
    }
    if !same_text(a.file.as_str(), b.file.as_str()) {
        return false;
    }
    if a.line != b.line {
        return a.line < b.line;
    }
    let x = rule_number(a.id);
    let y = rule_number(b.id);
    if x != y {
        return x < y;
    }
    text_before(a.message.as_str(), b.message.as_str())
}

fn same_finding_exec(a: &Finding, b: &Finding) -> (r: bool)
    ensures
        r == same_finding(*a, *b),
{
    if rule_number(a.id) != rule_number(b.id) || a.severity.rank() != b.severity.rank() || a.line != b.line {
        return false;
    }
    if !same_text(a.file.as_str(), b.file.as_str()) || !same_text(a.message.as_str(), b.message.as_str())
        || !same_text(a.spec, b.spec) {
        return false;
    }
    let fix = match (&a.fix, &b.fix) {
        (None, None) => true,
        (Some(x), Some(y)) => same_text(x.as_str(), y.as_str()),
        _ => false,
    };
    if !fix {
        return false;
    }
    match (&a.edit, &b.edit) {
        (None, None) => true,
        (Some(x), Some(y)) => x.start == y.start && x.end == y.end && same_text(x.file.as_str(), y.file.as_str())
            && same_text(x.replacement.as_str(), y.replacement.as_str()),
        _ => false,
    }
}

/// The findings of one run in the order a report gives them: sorted by file, line, rule
/// and message, ties kept in the order they were found, and a finding alike in every
/// field to the one kept before it dropped.
pub fn report_order(found: Vec<Finding>) -> (r: Vec<Finding>)
    ensures
        r@ == report_order_spec(found@),
{
    let ghost all = found@;
    let total = found.len();
    let mut rest = found;
    let mut sorted: Vec<Finding> = Vec::new();
    let mut k: usize = 0;
    while rest.len() > 0
        invariant
            k + rest@.len() == all.len(),
            all.len() == total,
            rest@ == all.skip(k as int),
            sorted@ == sorted_spec(all.take(k as int)),
        decreases rest.len(),
    {
        let x = rest.remove(0);
        let ghost r = sorted@;
        let mut p: usize = 0;
        while p < sorted.len() && !reported_before_exec(&x, &sorted[p])
            invariant
                p <= sorted@.len(),
                sorted@ == r,
                insert_at(r, x, 0) == insert_at(r, x, p as int),
            decreases sorted.len() - p,
        {
            p = p + 1;
        }
        proof {
            assert(all.take(k + 1).drop_last() =~= all.take(k as int));
            assert(all.take(k + 1).last() == all[k as int]);
            assert(all.skip(k as int)[0] == all[k as int]);
            assert(all.skip(k as int).remove(0) =~= all.skip(k + 1));
        }
        sorted.insert(p, x);
        k = k + 1;
    }
    proof {
        assert(all.take(all.len() as int) =~= all);
    }
    let ghost s = sorted@;
    let count = sorted.len();
    let mut rest = sorted;
    let mut out: Vec<Finding> = Vec::new();
    let mut k: usize = 0;
    while rest.len() > 0
        invariant
            k + rest@.len() == s.len(),
            s.len() == count,
            rest@ == s.skip(k as int),
            out@ == deduped(s.take(k as int)),
        decreases rest.len(),
    {
        let x = rest.remove(0);
        proof {
            assert(s.take(k + 1).drop_last() =~= s.take(k as int));
            assert(s.skip(k as int)[0] == s[k as int]);
            assert(s.skip(k as int).remove(0) =~= s.skip(k + 1));
        }
        let n = out.len();
        if n > 0 && same_finding_exec(&out[n - 1], &x) {
        } else {
            out.push(x);
        }
        k = k + 1;
    }
    proof {
        assert(s.take(s.len() as int) =~= s);
    }
    out
}

proof fn lemma_before_asymmetric(a: Finding, b: Finding)
    ensures
        reported_before(a, b) ==> !reported_before(b, a),
{
    crate::text::lemma_lex_lt_asymmetric(a.file@, b.file@);
    crate::text::lemma_lex_lt_irreflexive(a.file@);
    crate::text::lemma_lex_lt_asymmetric(a.message@, b.message@);
}

proof fn lemma_before_transitive(a: Finding, b: Finding, c: Finding)
    requires
        reported_before(a, b),
        reported_before(b, c),
    ensures
        reported_before(a, c),
{
    crate::text::lemma_lex_lt_irreflexive(a.file@);
    if lex_lt(a.file@, b.file@) && lex_lt(b.file@, c.file@) {
        crate::text::lemma_lex_lt_transitive(a.file@, b.file@, c.file@);
    }
    if a.file@ == b.file@ && b.file@ == c.file@ && a.line == b.line && b.line == c.line && id_number(a.id)
        == id_number(b.id) && id_number(b.id) == id_number(c.id) {
        crate::text::lemma_lex_lt_transitive(a.message@, b.message@, c.message@);
    }
}

proof fn lemma_insert_at(r: Seq<Finding>, x: Finding, from: int)
    requires
        0 <= from <= r.len(),
    ensures
        from <= insert_at(r, x, from) <= r.len(),
        forall|i: int| from <= i < insert_at(r, x, from) ==> !reported_before(x, #[trigger] r[i]),
        insert_at(r, x, from) < r.len() ==> reported_before(x, r[insert_at(r, x, from)]),
    decreases r.len() - from,
{
    if from < r.len() && !reported_before(x, r[from]) {
        lemma_insert_at(r, x, from + 1);
    }
}

proof fn lemma_insert_in_order(r: Seq<Finding>, x: Finding)
    requires
        in_report_order(r),
    ensures
        in_report_order(r.insert(insert_at(r, x, 0), x)),
{
    lemma_insert_at(r, x, 0);
    let p = insert_at(r, x, 0);
    let t = r.insert(p, x);
    assert forall|i: int, j: int| 0 <= i < j < t.len() implies !reported_before(#[trigger] t[j], #[trigger] t[i]) by {
        if j < p {
            assert(t[i] == r[i] && t[j] == r[j]);
        } else if j == p {
            assert(t[j] == x && t[i] == r[i]);
        } else if i == p {
            assert(t[i] == x && t[j] == r[j - 1]);
            lemma_before_asymmetric(x, r[p]);
            if reported_before(r[j - 1], x) {
                if j - 1 > p {
                    lemma_before_transitive(r[j - 1], x, r[p]);
                }
            }
        } else if i < p {
            assert(t[i] == r[i] && t[j] == r[j - 1]);
        } else {
            assert(t[i] == r[i - 1] && t[j] == r[j - 1]);
        }
    }
}

proof fn lemma_sorted_spec(s: Seq<Finding>)
    ensures
        in_report_order(sorted_spec(s)),
        forall|y: Finding| sorted_spec(s).contains(y) <==> s.contains(y),
    decreases s.len(),
{
    if s.len() > 0 {
        let q = s.drop_last();
        let x = s.last();
        lemma_sorted_spec(q);
        let r = sorted_spec(q);
        lemma_insert_in_order(r, x);
        lemma_insert_at(r, x, 0);
        let p = insert_at(r, x, 0);
        let t = r.insert(p, x);
        assert forall|y: Finding| t.contains(y) <==> s.contains(y) by {
            if t.contains(y) {
                let i = choose|i: int| 0 <= i < t.len() && t[i] == y;
                if i < p {
                    assert(r[i] == y);
                    assert(r.contains(y));
                } else if i > p {
                    assert(r[i - 1] == y);
                    assert(r.contains(y));
                }
                if r.contains(y) {
                    assert(q.contains(y));
                    let k = choose|k: int| 0 <= k < q.len() && q[k] == y;
                    assert(q[k] == s[k]);
                    assert(s[k] == y);
                } else {
                    assert(s[s.len() - 1] == y);
                }
            }
            if s.contains(y) {
                let k = choose|k: int| 0 <= k < s.len() && s[k] == y;
                if k < s.len() - 1 {
                    assert(q[k] == y);
                    assert(q.contains(y));
                    let i = choose|i: int| 0 <= i < r.len() && r[i] == y;
                    if i < p {
                        assert(t[i] == y);
                    } else {
                        assert(t[i + 1] == y);
                    }
                } else {
                    assert(t[p] == y);
                }
            }
        }
    }
}

proof fn lemma_deduped(s: Seq<Finding>)
    ensures
        forall|y: Finding| deduped(s).contains(y) ==> s.contains(y),
        forall|y: Finding| s.contains(y) ==> exists|i: int| 0 <= i < deduped(s).len() && same_finding(#[trigger] deduped(s)[i], y),
        in_report_order(s) ==> in_report_order(deduped(s)),
    decreases s.len(),
{
    if s.len() > 0 {
        let q = s.drop_last();
        let x = s.last();
        lemma_deduped(q);
        let r = deduped(q);
        assert forall|y: Finding| deduped(s).contains(y) implies s.contains(y) by {
            let i = choose|i: int| 0 <= i < deduped(s).len() && deduped(s)[i] == y;
            if i < r.len() {
                assert(r[i] == y);
                assert(r.contains(y));
                assert(q.contains(y));
                let k = choose|k: int| 0 <= k < q.len() && q[k] == y;
                assert(q[k] == s[k]);
                assert(s[k] == y);
            } else {
                assert(s[s.len() - 1] == y);
            }
        }
        assert forall|y: Finding| s.contains(y) implies exists|i: int| 0 <= i < deduped(s).len() && same_finding(#[trigger] deduped(s)[i], y) by {
            let k = choose|k: int| 0 <= k < s.len() && s[k] == y;
            if k < s.len() - 1 {
                assert(q[k] == y);
                assert(q.contains(y));
                let i = choose|i: int| 0 <= i < r.len() && same_finding(r[i], y);
                assert(deduped(s)[i] == r[i]);
            } else if r.len() > 0 && same_finding(r.last(), x) {
                assert(deduped(s)[r.len() - 1] == r.last());
            } else {
                assert(deduped(s)[r.len() as int] == x);
                assert(same_finding(x, x));
            }
        }
        if in_report_order(s) {
            assert(in_report_order(q));
            let d = deduped(s);
            assert forall|i: int, j: int| 0 <= i < j < d.len() implies !reported_before(#[trigger] d[j], #[trigger] d[i]) by {
                if j >= r.len() {
                    assert(d[j] == x);
                    assert(d[i] == r[i]);
                    assert(r.contains(r[i]));
                    assert(q.contains(r[i]));
                    let k = choose|k: int| 0 <= k < q.len() && q[k] == r[i];
                    assert(q[k] == s[k]);
                    assert(s[k] == r[i] && s[s.len() - 1] == x);
                    assert(!reported_before(s[s.len() - 1], s[k]));
                } else {
                    assert(d[i] == r[i] && d[j] == r[j]);
                }
            }
        }
    }
}

/// A report is in order: no finding in it is reported before one that precedes it (by
/// file, then line, then rule, then message).
pub proof fn lemma_report_in_order(found: Seq<Finding>)
    ensures
        in_report_order(report_order_spec(found)),
{
    lemma_sorted_spec(found);
    lemma_deduped(sorted_spec(found));
}

/// A report keeps what was found: every finding in it was found, and every finding found
/// is in it, or one alike in every field.
pub proof fn lemma_report_keeps_findings(found: Seq<Finding>)
    ensures
        forall|y: Finding| report_order_spec(found).contains(y) ==> found.contains(y),
        forall|y: Finding|
            found.contains(y) ==> exists|i: int|
                0 <= i < report_order_spec(found).len() && same_finding(#[trigger] report_order_spec(found)[i], y),
{
    lemma_sorted_spec(found);
    lemma_deduped(sorted_spec(found));
    assert forall|y: Finding| found.contains(y) implies exists|i: int|
        0 <= i < report_order_spec(found).len() && same_finding(#[trigger] report_order_spec(found)[i], y) by {
        let t = sorted_spec(found);
        assert(t.contains(y));
        let i = choose|i: int| 0 <= i < deduped(t).len() && same_finding(#[trigger] deduped(t)[i], y);
        assert(report_order_spec(found)[i] == deduped(t)[i]);
    }
}

} // verus!
