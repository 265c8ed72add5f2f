use vstd::prelude::*;

verus! {

/// A label names a class that the class mapping does not hold.
#[derive(Debug)]
pub struct MultiHotEncodeError {
    pub message: String,
}

impl MultiHotEncodeError {
    pub fn new(message: &str) -> (e: MultiHotEncodeError)
        ensures
            e.message@ == message@,
    {
        MultiHotEncodeError { message: message.to_owned() }
    }

    /// The message naming the missing label.
    pub fn to_string(&self) -> (r: String)
        ensures
            r@ == self.message@,
    {
        self.message.clone()
    }
}

/// A failure while preparing the input of a prediction.
#[derive(Debug)]
pub enum InferenceError {
    /// A sequence does not have the fixed length that the model reads.
    ArrayConversionError(&'static str),
}

} // verus!
