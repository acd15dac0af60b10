//! The list of problems, in the order of the text.

use vstd::prelude::*;

use crate::diagnostics::{DiagnosticView, Severity};
use crate::text;

verus! {

/// What the list says when it is empty.
pub fn empty_label() -> (r: &'static str)
    ensures
        r@ == "No problems"@,
{
    "No problems"
}

/// The sign of a severity.
pub open spec fn icon(severity: Severity) -> Seq<char> {
    match severity {
        Severity::Error => "\u{2716}"@,
        Severity::Warning => "\u{26A0}"@,
    }
}

/// The sign of a severity.
pub fn severity_icon(severity: Severity) -> (r: &'static str)
    ensures
        r@ == icon(severity),
{
    match severity {
        Severity::Error => "\u{2716}",
        Severity::Warning => "\u{26A0}",
    }
}

/// Whether problem `a` comes before problem `b`: by line, by column, and as they were
/// given.
pub open spec fn comes_before(list: Seq<DiagnosticView>, a: int, b: int) -> bool {
    let (line_a, col_a) = list[a].line_col.0;
    let (line_b, col_b) = list[b].line_col.0;
    line_a < line_b || (line_a == line_b && (col_a < col_b || (col_a == col_b && a < b)))
}

/// Whether positions are in the order in which the list shows their problems.
pub open spec fn in_order(list: Seq<DiagnosticView>, order: Seq<usize>) -> bool {
    forall|i: int, j: int|
        0 <= i < j < order.len() ==> comes_before(
            list,
            (#[trigger] order[i]) as int,
            (#[trigger] order[j]) as int,
        )
}

fn precedes(list: &Vec<DiagnosticView>, a: usize, b: usize) -> (r: bool)
    requires
        a < list@.len(),
        b < list@.len(),
    ensures
        r == comes_before(list@, a as int, b as int),
{
    let (line_a, col_a) = list[a].line_col.0;
    let (line_b, col_b) = list[b].line_col.0;
    line_a < line_b || (line_a == line_b && (col_a < col_b || (col_a == col_b && a < b)))
}

/// The positions of the problems in the order in which the list shows them: each once,
/// by line, by column, and as they were given.
pub fn problem_order(list: &Vec<DiagnosticView>) -> (r: Vec<usize>)
    ensures
        r@.len() == list@.len(),
        forall|i: int| 0 <= i < r@.len() ==> (#[trigger] r@[i]) < list@.len(),
        in_order(list@, r@),
{
    let mut order: Vec<usize> = Vec::new();
    let mut next: usize = 0;
    while next < list.len()
        invariant
            next <= list@.len(),
            order@.len() == next,
            forall|i: int| 0 <= i < order@.len() ==> (#[trigger] order@[i]) < next,
            in_order(list@, order@),
        decreases list@.len() - next,
    {
        let mut at: usize = order.len();
        while at > 0 && precedes(list, next, order[at - 1])
            invariant
                next < list@.len(),
                at <= order@.len(),
                forall|i: int| 0 <= i < order@.len() ==> (#[trigger] order@[i]) < next,
                forall|i: int|
                    at <= i < order@.len() ==> comes_before(
                        list@,
                        next as int,
                        (#[trigger] order@[i]) as int,
                    ),
            decreases at,
        {
            at -= 1;
        }
        let ghost before = order@;
        order.insert(at, next);
        proof {
            assert(order@ =~= before.take(at as int).push(next) + before.skip(at as int));
            assert forall|i: int, j: int| 0 <= i < j < order@.len() implies comes_before(
                list@,
                (#[trigger] order@[i]) as int,
                (#[trigger] order@[j]) as int,
            ) by {
                let i0 = if i < at {
                    i
                } else {
                    i - 1
                };
                let j0 = if j < at {
                    j
                } else {
                    j - 1
                };
                if i != at && j != at {
                    assert(order@[i] == before[i0] && order@[j] == before[j0]);
                } else if i == at {
                    assert(order@[j] == before[j0]);
                } else {
                    assert(order@[i] == before[i]);
                    let last = before[at - 1] as int;
                    assert(!comes_before(list@, next as int, last));
                    assert(last != next);
                    if i < at - 1 {
                        assert(comes_before(list@, before[i] as int, last));
                    }
                }
            }
        }
        next += 1;
    }
    order
}

/// A row of the list.
pub fn problem_label(d: &DiagnosticView) -> (r: String)
    requires
        d.line_col.0.0 < usize::MAX,
        d.line_col.0.1 < usize::MAX,
    ensures
        r@ == icon(d.severity) + " "@ + d.code@ + "  "@ + d.message@ + "  ["@ + text::decimal(
            (d.line_col.0.0 + 1) as nat,
        ) + ":"@ + text::decimal((d.line_col.0.1 + 1) as nat) + "]"@,
{
    let (line, col) = d.line_col.0;
    let mut r = severity_icon(d.severity).to_owned();
    r.push_str(" ");
    r.push_str(d.code.as_str());
    r.push_str("  ");
    r.push_str(d.message.as_str());
    r.push_str("  [");
    text::push_decimal(&mut r, line + 1);
    r.push_str(":");
    text::push_decimal(&mut r, col + 1);
    r.push_str("]");
    r
}

/// Problems are listed from the top of the text to its end: none before one that starts on
/// an earlier line, or earlier on the same line. Those at one place stay as they were
/// given.
pub proof fn problems_are_listed_by_position(
    list: Seq<DiagnosticView>,
    order: Seq<usize>,
    i: int,
    j: int,
)
    requires
        in_order(list, order),
        0 <= i < j < order.len(),
    ensures
        ({
            let first = list[order[i] as int].line_col.0;
            let second = list[order[j] as int].line_col.0;
            &&& first.0 <= second.0
            &&& first.0 == second.0 ==> first.1 <= second.1
            &&& first == second ==> order[i] < order[j]
        }),
{
    assert(comes_before(list, order[i] as int, order[j] as int));
}

} // verus!
