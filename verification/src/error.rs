//! What can go wrong when a proof is checked.
use vstd::prelude::*;

verus! {

/// Why a proof was refused.
#[derive(Clone, Copy, Debug, PartialEq, Eq, Structural)]
pub enum Error {
    /// The proof ends early, or holds an item of another kind than the one that is due.
    Transcript,
    /// A round polynomial of a sum-check does not add up to the claim, or, in an opening, the last
    /// claim is not what the evaluations give.
    SumCheck,
    /// A round polynomial of the second sum-check of an opening does not add up to the claim.
    SecondSumCheck,
    /// The last claim of a sum-check is not what the evaluations give.
    SumCheckEvaluation,
    /// The layers of a grand product do not fit together.
    GrandProduct,
    /// The input layer of a grand product is not what the evaluations give.
    InputLayer,
    /// The multisets of a memory check differ.
    MemoryCheck,
    /// A Merkle path does not lead to its root.
    MerklePath,
    /// A folded codeword is not the fold of the one before.
    Folding,
    /// The last folded codeword does not repeat the value that the last claim leaves.
    FinalOracle,
    /// A polynomial has more variables than the parameters allow.
    TooManyVariates,
}

impl Error {
    /// A sentence for a reader.
    pub fn message(&self) -> (r: &'static str)
        ensures
            r@ == self.spec_message(),
    {
        match self {
            Error::Transcript => "the proof has no item of the expected kind left",
            Error::SumCheck => "Sum check failed",
            Error::SecondSumCheck => "Second Sum check failed",
            Error::SumCheckEvaluation => "the last sum-check claim does not match the evaluations",
            Error::GrandProduct => "the layers of a grand product are inconsistent",
            Error::InputLayer => "the input layer of a grand product is inconsistent",
            Error::MemoryCheck => "the memory-checking multisets differ",
            Error::MerklePath => "a Merkle path does not lead to its root",
            Error::Folding => "a folded codeword is inconsistent",
            Error::FinalOracle => "Final oracle wrong",
            Error::TooManyVariates => "the polynomial has too many variables",
        }
    }

    /// The sentence for every error.
    pub open spec fn spec_message(&self) -> Seq<char> {
        match self {
            Error::Transcript => "the proof has no item of the expected kind left"@,
            Error::SumCheck => "Sum check failed"@,
            Error::SecondSumCheck => "Second Sum check failed"@,
            Error::SumCheckEvaluation => "the last sum-check claim does not match the evaluations"@,
            Error::GrandProduct => "the layers of a grand product are inconsistent"@,
            Error::InputLayer => "the input layer of a grand product is inconsistent"@,
            Error::MemoryCheck => "the memory-checking multisets differ"@,
            Error::MerklePath => "a Merkle path does not lead to its root"@,
            Error::Folding => "a folded codeword is inconsistent"@,
            Error::FinalOracle => "Final oracle wrong"@,
            Error::TooManyVariates => "the polynomial has too many variables"@,
        }
    }
}

/// The outcome `res` is what the error state `err` says.
pub open spec fn outcome<T>(res: Result<T, Error>, err: Option<Error>) -> bool {
    match res {
        Ok(_) => err is None,
        Err(e) => err == Some(e),
    }
}

} // verus!
