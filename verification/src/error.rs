//! The error type shared by every stage.
use vstd::prelude::*;

verus! {

/// What can go wrong between loading a model and writing the annotated image.
///
/// The payload of each variant is a message for the person at the terminal.
#[derive(Debug, PartialEq, Eq)]
pub enum SuperPointError {
    ModelLoading(String),
    ImageProcessing(String),
    Inference(String),
    TensorOp(String),
    Io(String),
    Image(String),
    Config(String),
    KeypointExtraction(String),
}

/// The text that `{:?}` prints for a list of tensor dimensions.
pub uninterp spec fn dims_text(dims: Seq<i64>) -> Seq<char>;

/// A message that names tensor dimensions: `prefix`, then the dimensions as
/// `{:?}` prints them, then `suffix`.
pub open spec fn dims_message(prefix: Seq<char>, dims: Seq<i64>, suffix: Seq<char>) -> Seq<char> {
    prefix + dims_text(dims) + suffix
}

/// Builds `prefix`, then the dimensions as `{:?}` prints them, then `suffix`.
///
/// Trusted: calls `format!` of the standard library. The contract claims that
/// `{}` copies a string slice unchanged and that the three parts are joined in
/// the order of the format string.
#[verifier::external_body]
pub(crate) fn describe_dims(prefix: &str, dims: &Vec<i64>, suffix: &str) -> (text: String)
    ensures
        text@ == prefix@ + dims_text(dims@) + suffix@,
{
    format!("{}{:?}{}", prefix, dims, suffix)
}

impl SuperPointError {
    /// The message carried by the error, whatever its variant.
    pub open spec fn spec_message(self) -> Seq<char> {
        match self {
            SuperPointError::ModelLoading(m) => m@,
            SuperPointError::ImageProcessing(m) => m@,
            SuperPointError::Inference(m) => m@,
            SuperPointError::TensorOp(m) => m@,
            SuperPointError::Io(m) => m@,
            SuperPointError::Image(m) => m@,
            SuperPointError::Config(m) => m@,
            SuperPointError::KeypointExtraction(m) => m@,
        }
    }

    /// The message carried by the error, whatever its variant.
    pub fn message(&self) -> (m: &String)
        ensures
            m@ == self.spec_message(),
    {
        match self {
            SuperPointError::ModelLoading(m) => m,
            SuperPointError::ImageProcessing(m) => m,
            SuperPointError::Inference(m) => m,
            SuperPointError::TensorOp(m) => m,
            SuperPointError::Io(m) => m,
            SuperPointError::Image(m) => m,
            SuperPointError::Config(m) => m,
            SuperPointError::KeypointExtraction(m) => m,
        }
    }
}

} // verus!
