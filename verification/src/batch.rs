//! The batch dispatcher: one shared tolerance applied to every polyline of
//! an ordered batch, each polyline simplified independently and in parallel,
//! with the results gathered back in the caller's original order.

use vstd::prelude::*;
use rayon::iter::{IntoParallelRefIterator, ParallelIterator};
use crate::simplify::{Polyline, SimplifyError, polyline_ok, simplified_line, simplify_nonempty};
use crate::tolerance::Tolerance;

verus! {

/// Every point of every polyline of the batch is within the coordinate
/// range that exact arithmetic supports.
pub open spec fn batch_ok(lines: Seq<Polyline>) -> bool {
    forall|i: int| 0 <= i < lines.len() ==> polyline_ok(#[trigger] lines[i]@)
}

/// Every polyline of the batch holds at least one point.
pub open spec fn batch_nonempty(lines: Seq<Polyline>) -> bool {
    forall|i: int| 0 <= i < lines.len() ==> (#[trigger] lines[i]@).len() >= 1
}

/// Relies on rayon's `par_iter().map(..).collect::<Vec<_>>()`: an indexed
/// parallel map over a slice yields exactly one output per input and gathers
/// them in the input's order, not in completion order. Each output is the
/// result of the verified `simplify_nonempty` on the corresponding input.
#[verifier::external_body]
fn par_simplify(lines: &Vec<Polyline>, tolerance: Tolerance) -> (r: Vec<Polyline>)
    requires
        tolerance.wf(),
        batch_ok(lines@),
        batch_nonempty(lines@),
    ensures
        r@.len() == lines@.len(),
        forall|i: int|
            0 <= i < lines@.len() ==> r@[i]@ == simplified_line(
                (#[trigger] lines@[i])@,
                tolerance,
            ),
{
    lines.par_iter().map(|line| simplify_nonempty(line, tolerance)).collect()
}

/// Simplify every polyline of a batch under one shared tolerance. The output
/// corresponds to the input index by index, in the caller's original order.
/// A batch holding an empty polyline is rejected as a whole.
pub fn simplify_batch(lines: &Vec<Polyline>, tolerance: Tolerance) -> (r: Result<
    Vec<Polyline>,
    SimplifyError,
>)
    requires
        tolerance.wf(),
        batch_ok(lines@),
    ensures
        r is Ok <==> batch_nonempty(lines@),
        r matches Ok(v) ==> v@.len() == lines@.len() && forall|i: int|
            0 <= i < lines@.len() ==> v@[i]@ == simplified_line((#[trigger] lines@[i])@, tolerance),
        r matches Err(e) ==> e == SimplifyError::InvalidInput,
{
    let mut j: usize = 0;
    while j < lines.len()
        invariant
            j <= lines@.len(),
            forall|k: int| 0 <= k < j ==> (#[trigger] lines@[k]@).len() >= 1,
        decreases lines@.len() - j,
    {
        if lines[j].len() == 0 {
            assert(!batch_nonempty(lines@));
            return Err(SimplifyError::InvalidInput);
        }
        j += 1;
    }
    Ok(par_simplify(lines, tolerance))
}

} // verus!
