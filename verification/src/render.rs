//! Rendering of an allocation result into the boundary format the caller
//! consumes: one "participant => task" line per participant, joined with
//! newlines, or the fixed insufficient-input diagnostic.

use vstd::prelude::*;
use vstd::string::StringExecFns;
use crate::allocator::{Assignment, AssignmentResult, task_view};

verus! {

/// The view of one output line: the participant's name, the separator,
/// and the task's name or the "no service" sentinel.
pub open spec fn line_view(p: Seq<char>, t: Option<Seq<char>>) -> Seq<char> {
    p + " => "@ + match t {
        Some(name) => name,
        None => "No Service Available"@,
    }
}

/// The view of a whole report: the lines of the assignment list in
/// order, joined with single newlines.
pub open spec fn report_view(out: Seq<Assignment>) -> Seq<char>
    decreases out.len(),
{
    if out.len() == 0 {
        Seq::empty()
    } else if out.len() == 1 {
        line_view(out[0].participant@, task_view(out[0].task))
    } else {
        report_view(out.drop_last()) + "\n"@ + line_view(
            out.last().participant@,
            task_view(out.last().task),
        )
    }
}

/// The sentinel put in place of a task name when the pool is exhausted.
pub fn no_service_text() -> (r: &'static str)
    ensures
        r@ == "No Service Available"@,
{
    "No Service Available"
}

/// The fixed diagnostic for an empty roster or an empty task selection.
pub fn insufficient_input_message() -> (r: &'static str)
    ensures
        r@ == "Please select at least one team member and service"@,
{
    "Please select at least one team member and service"
}

/// Formats one assignment line.
pub fn render_line(a: &Assignment) -> (r: String)
    ensures
        r@ == line_view(a.participant@, task_view(a.task)),
{
    let mut s = a.participant.clone();
    s.append(" => ");
    match a.task.as_ref() {
        Some(t) => {
            s.append(t.as_str());
        },
        None => {
            s.append("No Service Available");
        },
    }
    s
}

/// Renders a whole result: the newline-joined assignment lines, or the
/// diagnostic when the input was insufficient.
pub fn render_report(r: &AssignmentResult) -> (s: String)
    ensures
        match r {
            AssignmentResult::Assigned(out) => s@ == report_view(out@),
            AssignmentResult::InsufficientInput => s@
                == "Please select at least one team member and service"@,
        },
{
    match r {
        AssignmentResult::Assigned(out) => {
            let mut s = String::new();
            let mut i: usize = 0;
            while i < out.len()
                invariant
                    i <= out@.len(),
                    s@ == report_view(out@.take(i as int)),
                decreases out@.len() - i,
            {
                if i > 0 {
                    s.append("\n");
                }
                let line = render_line(&out[i]);
                s.append(line.as_str());
                i = i + 1;
                proof {
                    assert(out@.take(i as int).drop_last() =~= out@.take(i as int - 1));
                    assert(out@.take(i as int).last() == out@[i as int - 1]);
                }
            }
            proof {
                assert(out@.take(out@.len() as int) =~= out@);
            }
            s
        },
        AssignmentResult::InsufficientInput => {
            let msg = insufficient_input_message();
            msg.to_owned()
        },
    }
}

} // verus!
