use vstd::prelude::*;

verus! {

/// Bytes of a 16-bit value, most significant first.
pub open spec fn be16(x: u16) -> Seq<u8> {
    seq![(x / 256) as u8, (x % 256) as u8]
}

/// Bytes of a 32-bit value, most significant first.
pub open spec fn be32(x: u32) -> Seq<u8> {
    seq![(x / 0x100_0000) as u8, ((x / 0x1_0000) % 256) as u8, ((x / 256) % 256) as u8, (x % 256) as u8]
}

/// The 16-bit value whose network-order bytes are `hi`, `lo`.
pub open spec fn u16_of(hi: u8, lo: u8) -> u16 {
    (hi as int * 256 + lo as int) as u16
}

/// Encoding of fixed-width unsigned integers in network byte order.
pub trait ToBigEndian {
    /// The bytes that `to_big_endian` produces.
    spec fn be_bytes(&self) -> Seq<u8>;

    fn to_big_endian(&self) -> (r: Vec<u8>)
        ensures
            r@ == self.be_bytes(),
    ;
}

impl ToBigEndian for u16 {
    open spec fn be_bytes(&self) -> Seq<u8> {
        be16(*self)
    }

    fn to_big_endian(&self) -> (r: Vec<u8>) {
        let x: u16 = *self;
        assert((x >> 8) as u8 == (x / 256) as u8 && (x & 0xff) as u8 == (x % 256) as u8)
            by (bit_vector);
        let r = vec![(x >> 8) as u8, (x & 0xff) as u8];
        assert(r@ =~= be16(x));
        r
    }
}

impl ToBigEndian for u32 {
    open spec fn be_bytes(&self) -> Seq<u8> {
        be32(*self)
    }

    fn to_big_endian(&self) -> (r: Vec<u8>) {
        let x: u32 = *self;
        assert((x >> 24) as u8 == (x / 0x100_0000) as u8 && (x >> 16) as u8 == ((x / 0x1_0000)
            % 256) as u8 && (x >> 8) as u8 == ((x / 256) % 256) as u8 && (x & 0xff) as u8 == (x
            % 256) as u8) by (bit_vector);
        let r = vec![(x >> 24) as u8, (x >> 16) as u8, (x >> 8) as u8, (x & 0xff) as u8];
        assert(r@ =~= be32(x));
        r
    }
}

/// Recovers a 16-bit value from its two network-order bytes.
pub fn u16_from_big_endian(hi: u8, lo: u8) -> (r: u16)
    ensures
        r == u16_of(hi, lo),
        be16(r) == seq![hi, lo],
{
    let r: u16 = ((hi as u16) << 8) | (lo as u16);
    assert((((hi as u16) << 8) | (lo as u16)) == hi as u16 * 256 + lo as u16) by (bit_vector);
    assert(be16(r) =~= seq![hi, lo]);
    r
}

/// Decoding the bytes of a 16-bit value gives the value back.
pub proof fn lemma_be16_round_trip(x: u16)
    ensures
        u16_of(be16(x)[0], be16(x)[1]) == x,
{
}

} // verus!
