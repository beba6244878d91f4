use vstd::prelude::*;

verus! {

/// The record handed back to the caller of the facade.
///
/// Exactly one of `value` and `error` is meaningful, discriminated by
/// `success`: on success `value` holds the computed integer and `error` is
/// empty; on failure `value` is zero and `error` holds the message.
#[derive(Debug)]
pub struct EvaluationResult {
    pub success: bool,
    pub value: i64,
    pub error: String,
}

impl EvaluationResult {
    /// The error message, empty when the evaluation succeeded.
    pub fn error(&self) -> (r: String)
        ensures
            r@ == self.error@,
    {
        self.error.clone()
    }

    /// A failed result carrying `error` as its message.
    pub fn from_error(error: String) -> (r: EvaluationResult)
        ensures
            !r.success,
            r.value == 0,
            r.error@ == error@,
    {
        EvaluationResult { value: 0, success: false, error }
    }

    /// A successful result carrying `result` as its value.
    pub fn from_result(result: i64) -> (r: EvaluationResult)
        ensures
            r.success,
            r.value == result,
            r.error@ == Seq::<char>::empty(),
    {
        EvaluationResult { value: result, success: true, error: String::new() }
    }
}

} // verus!
