//! Cancellation flags that another thread may raise while a comparison runs.
use vstd::prelude::*;
use std::sync::Arc;
use std::sync::atomic::{AtomicBool, Ordering};

verus! {

/// Whether cancellation was requested: the flag is present and raised.
/// What a present flag holds is up to other threads, so only the absent
/// flag's answer is stated.
pub fn is_cancelled(cancellation: Option<&AtomicBool>) -> (c: bool)
    ensures
        cancellation is None ==> !c,
{
    match cancellation {
        Some(flag) => flag.load(Ordering::Relaxed),
        None => false,
    }
}

/// Whether the shared cancellation flag, where there is one, was raised.
/// What a present flag holds is up to other threads, so only the absent
/// flag's answer is stated.
pub fn shared_cancelled(cancellation: &Option<Arc<AtomicBool>>) -> (c: bool)
    ensures
        cancellation is None ==> !c,
{
    match cancellation {
        Some(flag) => {
            let f: &AtomicBool = &*flag;
            f.load(Ordering::Relaxed)
        },
        None => false,
    }
}

} // verus!
