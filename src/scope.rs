use vstd::prelude::*;

verus! {

/// The result of a scoped run, given what the work returned and how closing
/// the sandbox went afterwards.
///
/// A failed close wins: its error is reported even when the work failed too,
/// and the work's own error is then lost. Otherwise the work's result is
/// reported as it came.
pub fn finish_scope<T, E>(work: Result<T, E>, closing: Result<(), E>) -> (r: Result<T, E>)
    ensures
        closing is Err ==> r == Err::<T, E>(closing->Err_0),
        closing is Ok ==> r == work,
{
    match closing {
        Err(e) => Err(e),
        Ok(()) => work,
    }
}

} // verus!
