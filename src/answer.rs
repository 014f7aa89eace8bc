use crate::error::DnsError;
use crate::name::{labels_fit, name_bytes, name_spec, name_to_bytes, parse_name};
use crate::utils::{be16, be32, ToBigEndian};
use vstd::prelude::*;
use vstd::slice::{slice_subrange, slice_to_vec};

verus! {

/// One resource record of the answer section; only A/IN records are modelled.
#[derive(Debug, Clone)]
pub struct DnsAnswer {
    pub name: Vec<String>,
    pub atype: u16,
    pub aclass: u16,
    pub ttl: u32,
    pub rdlength: u16,
    pub rdata: Vec<u8>,
}

/// An answer as values: labels, type, class, ttl, rdata length and rdata.
pub type AnswerView = (Seq<Seq<char>>, u16, u16, u32, u16, Seq<u8>);

impl View for DnsAnswer {
    type V = AnswerView;

    open spec fn view(&self) -> AnswerView {
        (self.name.deep_view(), self.atype, self.aclass, self.ttl, self.rdlength, self.rdata@)
    }
}

/// Time to live given to every decoded answer, in seconds.
pub const ANSWER_TTL: u32 = 60;

/// Bytes that follow the name of an A record: type, class, ttl, rdata
/// length and the four address bytes.
pub const A_RECORD_TAIL: usize = 14;

/// What decoding an answer at `pos` gives: an A/IN record whose address is
/// the last four of the fourteen bytes after the name, and the position
/// after it. The type, class, ttl and length bytes are skipped, not read.
pub open spec fn answer_spec(buf: Seq<u8>, pos: int) -> Result<(AnswerView, int), DnsError> {
    match name_spec(buf, pos) {
        Err(e) => Err(e),
        Ok((labels, end)) => if end + 14 > buf.len() {
            Err(DnsError::TruncatedQuestionOrAnswer)
        } else {
            Ok(
                (
                    (labels, 1u16, 1u16, ANSWER_TTL, 4u16, buf.subrange(end + 10, end + 14)),
                    end + 14,
                ),
            )
        },
    }
}

/// The wire form of an answer; type and class are always written as A/IN.
pub open spec fn answer_bytes(a: AnswerView) -> Seq<u8> {
    name_bytes(a.0) + be16(1) + be16(1) + be32(a.3) + be16(a.4) + a.5
}

impl DnsAnswer {
    /// Decodes the answer at `*cursor` as an A/IN record and moves the
    /// cursor past it; on an error the cursor stays where it was.
    pub fn new(buffer: &[u8], cursor: &mut usize) -> (r: Result<DnsAnswer, DnsError>)
        ensures
            match r {
                Ok(a) => answer_spec(buffer@, *old(cursor) as int) == Ok::<
                    (AnswerView, int),
                    DnsError,
                >((a@, *final(cursor) as int)),
                Err(e) => answer_spec(buffer@, *old(cursor) as int) == Err::<
                    (AnswerView, int),
                    DnsError,
                >(e) && *final(cursor) == *old(cursor),
            },
    {
        let (name, end) = match parse_name(buffer, *cursor) {
            Ok(found) => found,
            Err(e) => {
                return Err(e);
            },
        };
        if end > buffer.len() || buffer.len() - end < A_RECORD_TAIL {
            return Err(DnsError::TruncatedQuestionOrAnswer);
        }
        let rdata = slice_to_vec(slice_subrange(buffer, end + 10, end + A_RECORD_TAIL));
        *cursor = end + A_RECORD_TAIL;
        Ok(DnsAnswer { name, atype: 1, aclass: 1, ttl: ANSWER_TTL, rdlength: 4, rdata })
    }

    /// Encodes the answer: its name in full, type and class A/IN, then ttl,
    /// rdata length and rdata.
    pub fn to_bytes(&self) -> (r: Vec<u8>)
        requires
            labels_fit(self@.0),
        ensures
            r@ == answer_bytes(self@),
    {
        let mut bytes = name_to_bytes(&self.name);
        let mut fixed: Vec<u8> = vec![0, 1, 0, 1];
        let mut ttl = self.ttl.to_big_endian();
        let mut rdlength = self.rdlength.to_big_endian();
        let mut rdata = slice_to_vec(self.rdata.as_slice());
        assert(fixed@ =~= be16(1) + be16(1));
        bytes.append(&mut fixed);
        bytes.append(&mut ttl);
        bytes.append(&mut rdlength);
        bytes.append(&mut rdata);
        bytes
    }
}

} // verus!
