use crate::error::DnsError;
use crate::name::{labels_fit, name_bytes, name_spec, name_to_bytes, parse_name};
use crate::utils::{be16, ToBigEndian};
use vstd::prelude::*;

verus! {

/// One entry of the question section; only A/IN questions are modelled.
#[derive(Debug, Clone)]
pub struct DnsQuestion {
    pub names: Vec<String>,
    pub qtype: u16,
    pub qclass: u16,
}

/// A question as values: its labels, its type and its class.
pub type QuestionView = (Seq<Seq<char>>, u16, u16);

impl View for DnsQuestion {
    type V = QuestionView;

    open spec fn view(&self) -> QuestionView {
        (self.names.deep_view(), self.qtype, self.qclass)
    }
}

/// What decoding a question at `pos` gives: the question and the position
/// after it. The four type and class bytes are skipped, not read.
pub open spec fn question_spec(buf: Seq<u8>, pos: int) -> Result<(QuestionView, int), DnsError> {
    match name_spec(buf, pos) {
        Err(e) => Err(e),
        Ok((labels, end)) => if end + 4 > buf.len() {
            Err(DnsError::TruncatedQuestionOrAnswer)
        } else {
            Ok(((labels, 1u16, 1u16), end + 4))
        },
    }
}

/// The wire form of a question.
pub open spec fn question_bytes(q: QuestionView) -> Seq<u8> {
    name_bytes(q.0) + be16(q.1) + be16(q.2)
}

impl DnsQuestion {
    /// Decodes the question at `*cursor` as A/IN and moves the cursor past
    /// it; on an error the cursor stays where it was.
    pub fn new(buffer: &[u8], cursor: &mut usize) -> (r: Result<DnsQuestion, DnsError>)
        ensures
            match r {
                Ok(q) => question_spec(buffer@, *old(cursor) as int) == Ok::<
                    (QuestionView, int),
                    DnsError,
                >((q@, *final(cursor) as int)),
                Err(e) => question_spec(buffer@, *old(cursor) as int) == Err::<
                    (QuestionView, int),
                    DnsError,
                >(e) && *final(cursor) == *old(cursor),
            },
    {
        let (names, end) = match parse_name(buffer, *cursor) {
            Ok(found) => found,
            Err(e) => {
                return Err(e);
            },
        };
        if end > buffer.len() || buffer.len() - end < 4 {
            return Err(DnsError::TruncatedQuestionOrAnswer);
        }
        *cursor = end + 4;
        Ok(DnsQuestion { names, qtype: 1, qclass: 1 })
    }

    /// Encodes the question: its name in full, then type and class.
    pub fn to_bytes(&self) -> (r: Vec<u8>)
        requires
            labels_fit(self@.0),
        ensures
            r@ == question_bytes(self@),
    {
        let mut bytes = name_to_bytes(&self.names);
        let mut qtype = self.qtype.to_big_endian();
        let mut qclass = self.qclass.to_big_endian();
        bytes.append(&mut qtype);
        bytes.append(&mut qclass);
        bytes
    }
}

} // verus!
