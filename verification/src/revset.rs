//! Evaluation of revsets over a shared index handle.
use std::sync::Arc;

use vstd::prelude::*;

use crate::position_index::PositionIndex;

verus! {

/// `engine` may answer `result` for `expression`, `store` and `index`.
pub open spec fn is_evaluated<
    X: ?Sized,
    S: ?Sized,
    T: PositionIndex + ?Sized,
    R,
    E,
    F: FnOnce(&X, &Arc<S>, Arc<T>) -> Result<R, E>,
>(
    engine: F,
    expression: &X,
    store: &Arc<S>,
    index: Arc<T>,
    result: Result<Box<R>, E>,
) -> bool {
    match result {
        Ok(revset) => call_ensures(engine, (expression, store, index), Ok::<R, E>(*revset)),
        Err(error) => call_ensures(engine, (expression, store, index), Err::<R, E>(error)),
    }
}

/// Evaluates a resolved revset with a position-based revset engine.
///
/// The engine gets a shared index handle, which the returned revset may keep.
pub fn evaluate_revset<
    X: ?Sized,
    S: ?Sized,
    T: PositionIndex + ?Sized,
    R,
    E,
    F: FnOnce(&X, &Arc<S>, Arc<T>) -> Result<R, E>,
>(expression: &X, store: &Arc<S>, index: Arc<T>, engine: F) -> (result: Result<Box<R>, E>)
    requires
        call_requires(engine, (expression, store, index)),
    ensures
        is_evaluated(engine, expression, store, index, result),
{
    match engine(expression, store, index) {
        Ok(revset) => Ok(Box::new(revset)),
        Err(error) => Err(error),
    }
}

} // verus!
