use vstd::prelude::*;

verus! {

/// Why a buffer could not be decoded, or a batch of replies not combined.
#[derive(Debug, Clone, Copy, PartialEq, Eq, Structural)]
pub enum DnsError {
    /// Fewer than twelve bytes were available for the header.
    MalformedHeader,
    /// A label length or a compression pointer reaches past the buffer.
    TruncatedName,
    /// The bytes of a label are not valid UTF-8.
    InvalidLabelEncoding,
    /// A name follows more compression pointers than the hop limit allows.
    PointerLoop,
    /// The fixed fields after a name reach past the buffer.
    TruncatedQuestionOrAnswer,
    /// No reply packets were given to merge.
    EmptyMerge,
}

} // verus!
