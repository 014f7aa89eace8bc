use crate::error::DnsError;
use vstd::prelude::*;
use vstd::slice::{slice_subrange, slice_to_vec};
use vstd::utf8::{decode_utf8, encode_utf8, encode_utf8_decode_utf8, valid_utf8};

verus! {

/// Most compression pointers that one name may follow.
pub const MAX_POINTER_HOPS: u32 = 128;

/// A length byte whose top two bits are set starts a compression pointer.
pub open spec fn is_pointer_byte(b: u8) -> bool {
    b >= 0xc0
}

/// The offset that the pointer bytes `hi`, `lo` refer to: the low 14 bits.
pub open spec fn pointer_target(hi: u8, lo: u8) -> int {
    (hi % 64) as int * 256 + lo as int
}

/// The labels of the name that starts at `pos` in `buf`, with every
/// compression pointer followed, or the first error met on the way.
/// `hops` counts the pointers already followed.
pub open spec fn labels_at(buf: Seq<u8>, pos: int, hops: nat) -> Result<Seq<Seq<char>>, DnsError>
    decreases MAX_POINTER_HOPS - hops, buf.len() - pos,
{
    if pos < 0 || pos >= buf.len() {
        Err(DnsError::TruncatedName)
    } else if buf[pos] == 0 {
        Ok(Seq::empty())
    } else if is_pointer_byte(buf[pos]) {
        if pos + 1 >= buf.len() {
            Err(DnsError::TruncatedName)
        } else if hops >= MAX_POINTER_HOPS {
            Err(DnsError::PointerLoop)
        } else {
            labels_at(buf, pointer_target(buf[pos], buf[pos + 1]), hops + 1)
        }
    } else {
        let start = pos + 1;
        let end = start + buf[pos] as int;
        if end > buf.len() {
            Err(DnsError::TruncatedName)
        } else if !valid_utf8(buf.subrange(start, end)) {
            Err(DnsError::InvalidLabelEncoding)
        } else {
            match labels_at(buf, end, hops) {
                Ok(rest) => Ok(seq![decode_utf8(buf.subrange(start, end))] + rest),
                Err(e) => Err(e),
            }
        }
    }
}

/// Where reading continues after the name that starts at `pos`: past its
/// terminating zero byte, or past the two bytes of its first pointer.
pub open spec fn name_end(buf: Seq<u8>, pos: int) -> int
    decreases buf.len() - pos,
{
    if pos < 0 || pos >= buf.len() || buf[pos] == 0 {
        pos + 1
    } else if is_pointer_byte(buf[pos]) {
        pos + 2
    } else {
        let next = pos + 1 + buf[pos] as int;
        if next >= buf.len() {
            next + 1
        } else {
            name_end(buf, next)
        }
    }
}

/// What decoding the name at `pos` gives: its labels and the position after it.
pub open spec fn name_spec(buf: Seq<u8>, pos: int) -> Result<(Seq<Seq<char>>, int), DnsError> {
    match labels_at(buf, pos, 0) {
        Ok(labels) => Ok((labels, name_end(buf, pos))),
        Err(e) => Err(e),
    }
}

/// The wire form of one label: its length byte, then its UTF-8 bytes.
pub open spec fn label_bytes(label: Seq<char>) -> Seq<u8> {
    seq![encode_utf8(label).len() as u8] + encode_utf8(label)
}

/// The wire form of a name: each label in turn, then a zero byte.
pub open spec fn name_bytes(labels: Seq<Seq<char>>) -> Seq<u8>
    decreases labels.len(),
{
    if labels.len() == 0 {
        seq![0u8]
    } else {
        label_bytes(labels[0]) + name_bytes(labels.drop_first())
    }
}

/// The UTF-8 length of each label fits the one-byte length in front of it.
pub open spec fn labels_fit(labels: Seq<Seq<char>>) -> bool {
    forall|i: int| 0 <= i < labels.len() ==> encode_utf8(#[trigger] labels[i]).len() < 256
}

/// Relies on std's String::from_utf8: it succeeds exactly when the bytes are
/// valid UTF-8, and the string then holds those same bytes.
#[verifier::external_body]
fn label_text(bytes: &[u8]) -> (r: Option<String>)
    ensures
        r is Some <==> valid_utf8(bytes@),
        r matches Some(s) ==> encode_utf8(s@) == bytes@,
{
    String::from_utf8(bytes.to_vec()).ok()
}

/// Decodes the name that starts at `cursor`, following compression pointers
/// up to the hop limit. On success returns the labels and the position where
/// reading continues in the caller's stream.
pub fn parse_name(buffer: &[u8], cursor: usize) -> (r: Result<(Vec<String>, usize), DnsError>)
    ensures
        match r {
            Ok((labels, end)) => name_spec(buffer@, cursor as int) == Ok::<
                (Seq<Seq<char>>, int),
                DnsError,
            >((labels.deep_view(), end as int)),
            Err(e) => name_spec(buffer@, cursor as int) == Err::<(Seq<Seq<char>>, int), DnsError>(
                e,
            ),
        },
{
    let ghost buf = buffer@;
    let mut labels: Vec<String> = Vec::new();
    let mut pos: usize = cursor;
    let mut hops: u32 = 0;
    let mut end: Option<usize> = None;
    while pos < buffer.len() && buffer[pos] != 0
        invariant
            buf == buffer@,
            hops <= MAX_POINTER_HOPS,
            labels_at(buf, cursor as int, 0) == match labels_at(buf, pos as int, hops as nat) {
                Ok(rest) => Ok(labels.deep_view() + rest),
                Err(e) => Err::<Seq<Seq<char>>, DnsError>(e),
            },
            match end {
                Some(e) => e as int == name_end(buf, cursor as int) && e <= buf.len(),
                None => name_end(buf, cursor as int) == name_end(buf, pos as int),
            },
        decreases MAX_POINTER_HOPS - hops, buffer@.len() - pos,
    {
        let b = buffer[pos];
        if b >= 0xc0 {
            if pos + 1 >= buffer.len() {
                return Err(DnsError::TruncatedName);
            }
            if hops >= MAX_POINTER_HOPS {
                return Err(DnsError::PointerLoop);
            }
            if end.is_none() {
                end = Some(pos + 2);
            }
            assert(b & 0x3f == b % 64) by (bit_vector);
            pos = ((b & 0x3f) as usize) * 256 + buffer[pos + 1] as usize;
            hops = hops + 1;
        } else {
            let start = pos + 1;
            let len = b as usize;
            if len > buffer.len() - start {
                return Err(DnsError::TruncatedName);
            }
            let stop = start + len;
            let raw = slice_subrange(buffer, start, stop);
            match label_text(raw) {
                None => {
                    return Err(DnsError::InvalidLabelEncoding);
                },
                Some(text) => {
                    proof {
                        encode_utf8_decode_utf8(text@);
                    }
                    let ghost old_labels = labels.deep_view();
                    labels.push(text);
                    assert(labels.deep_view() =~= old_labels.push(decode_utf8(raw@)));
                    proof {
                        if let Ok(rest) = labels_at(buf, stop as int, hops as nat) {
                            assert(old_labels + (seq![decode_utf8(raw@)] + rest) =~= labels.deep_view()
                                + rest);
                        }
                    }
                },
            }
            pos = stop;
        }
    }
    if pos >= buffer.len() {
        return Err(DnsError::TruncatedName);
    }
    assert(labels.deep_view() + Seq::<Seq<char>>::empty() =~= labels.deep_view());
    match end {
        Some(e) => Ok((labels, e)),
        None => Ok((labels, pos + 1)),
    }
}

/// Encodes a name in full as length-prefixed labels and a zero byte; no
/// compression pointer is ever written.
pub fn name_to_bytes(labels: &Vec<String>) -> (r: Vec<u8>)
    requires
        labels_fit(labels.deep_view()),
    ensures
        r@ == name_bytes(labels.deep_view()),
{
    let ghost all = labels.deep_view();
    let mut bytes: Vec<u8> = Vec::new();
    let mut i: usize = 0;
    assert(all.skip(0) =~= all);
    while i < labels.len()
        invariant
            all == labels.deep_view(),
            labels_fit(all),
            i <= labels.len(),
            name_bytes(all) == bytes@ + name_bytes(all.skip(i as int)),
        decreases labels.len() - i,
    {
        let text = labels[i].as_str();
        let raw = text.as_bytes();
        assert(all[i as int] == text@);
        assert(raw@.len() < 256);
        bytes.push(raw.len() as u8);
        let mut tail = slice_to_vec(raw);
        bytes.append(&mut tail);
        assert(all.skip(i as int).drop_first() =~= all.skip(i + 1));
        assert(all.skip(i as int)[0] == all[i as int]);
        i += 1;
    }
    bytes.push(0);
    assert(all.skip(i as int).len() == 0);
    bytes
}

/// No byte on the way from `pos` to the end of the name starts a pointer:
/// the name is written in full where it stands.
pub open spec fn is_flat_name(buf: Seq<u8>, pos: int) -> bool
    decreases buf.len() - pos,
{
    0 <= pos < buf.len() && (buf[pos] == 0 || (!is_pointer_byte(buf[pos]) && {
        let next = pos + 1 + buf[pos] as int;
        next < buf.len() && is_flat_name(buf, next)
    }))
}

/// A name written without compression decodes to labels that encode back to
/// exactly the bytes it was read from.
pub proof fn lemma_flat_name_round_trip(buf: Seq<u8>, pos: int)
    requires
        is_flat_name(buf, pos),
        labels_at(buf, pos, 0) is Ok,
    ensures
        pos < name_end(buf, pos) <= buf.len(),
        labels_fit(labels_at(buf, pos, 0)->Ok_0),
        name_bytes(labels_at(buf, pos, 0)->Ok_0) == buf.subrange(pos, name_end(buf, pos)),
    decreases buf.len() - pos,
{
    if buf[pos] == 0 {
        assert(buf.subrange(pos, pos + 1) =~= seq![0u8]);
    } else {
        let start = pos + 1;
        let next = start + buf[pos] as int;
        let raw = buf.subrange(start, next);
        lemma_flat_name_round_trip(buf, next);
        vstd::utf8::decode_utf8_encode_utf8(raw);
        let rest = labels_at(buf, next, 0)->Ok_0;
        let labels = labels_at(buf, pos, 0)->Ok_0;
        assert(labels == seq![decode_utf8(raw)] + rest);
        assert(labels.drop_first() =~= rest);
        assert forall|i: int| 0 <= i < labels.len() implies encode_utf8(#[trigger] labels[i]).len()
            < 256 by {
            if i > 0 {
                assert(labels[i] == rest[i - 1]);
            }
        }
        assert(buf.subrange(pos, name_end(buf, pos)) =~= seq![buf[pos]] + raw + buf.subrange(
            next,
            name_end(buf, next),
        ));
    }
}

/// A label whose declared length runs past the end of the buffer makes the
/// name truncated, wherever it stands.
pub proof fn lemma_truncated_label(buf: Seq<u8>, pos: int)
    requires
        0 <= pos < buf.len(),
        0 < buf[pos] < 0xc0,
        pos + 1 + buf[pos] > buf.len(),
    ensures
        name_spec(buf, pos) == Err::<(Seq<Seq<char>>, int), DnsError>(DnsError::TruncatedName),
{
}

/// A pointer to an earlier name made of one label resolves to that label,
/// and the reader moves on two bytes past the pointer.
pub proof fn lemma_pointer_resolves(buf: Seq<u8>, x: int, p: int)
    requires
        0 <= x < 0x4000,
        0 < buf[x] < 0xc0,
        x + 1 + buf[x] < buf.len(),
        buf[x + 1 + buf[x]] == 0,
        valid_utf8(buf.subrange(x + 1, x + 1 + buf[x])),
        0 <= p && p + 1 < buf.len(),
        buf[p] == 0xc0 + x / 256,
        buf[p + 1] == x % 256,
    ensures
        name_spec(buf, p) == Ok::<(Seq<Seq<char>>, int), DnsError>(
            (seq![decode_utf8(buf.subrange(x + 1, x + 1 + buf[x]))], p + 2),
        ),
{
    let hi = x / 256;
    assert(0 <= hi < 64 && x == hi * 256 + x % 256) by (nonlinear_arith)
        requires
            0 <= x < 0x4000,
            hi == x / 256,
    ;
    assert((0xc0 + hi) % 64 == hi);
    assert(pointer_target(buf[p], buf[p + 1]) == x);
    assert(is_pointer_byte(buf[p]));
    let next = x + 1 + buf[x];
    let label = decode_utf8(buf.subrange(x + 1, next));
    assert(labels_at(buf, next, 1) == Ok::<Seq<Seq<char>>, DnsError>(Seq::empty()));
    assert(seq![label] + Seq::<Seq<char>>::empty() =~= seq![label]);
    assert(labels_at(buf, x, 1) == Ok::<Seq<Seq<char>>, DnsError>(seq![label]));
    assert(labels_at(buf, p, 0) == labels_at(buf, x, 1));
    assert(name_end(buf, p) == p + 2);
}

} // verus!
