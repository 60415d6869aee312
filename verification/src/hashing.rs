//! Digests and their hex representation.
//!
//! The 20-byte SHA-1 digest of the uncompressed framed bytes is the identity
//! of an object. The digest itself comes from the `sha1` crate and is only
//! named here (`sha1_of`); its hex form is fully specified (`hex_of`) and the
//! `hex` crate is trusted to compute exactly that.

use vstd::prelude::*;
use sha1::Digest;

verus! {

/// The SHA-1 digest of a byte sequence. Named, not defined: the `sha1` crate
/// computes it, and the only facts stated of it are in the contracts of the
/// functions that call the crate.
pub uninterp spec fn sha1_of(data: Seq<u8>) -> Seq<u8>;

/// The lowercase hex digit for a value below 16.
pub open spec fn hex_digit(n: u8) -> u8 {
    if n < 10 {
        (48 + n) as u8
    } else {
        (87 + n) as u8
    }
}

/// The hex encoding of a byte sequence: two lowercase digits per byte, high
/// nibble first.
pub open spec fn hex_of(data: Seq<u8>) -> Seq<u8>
    decreases data.len(),
{
    if data.len() == 0 {
        seq![]
    } else {
        seq![hex_digit(data.first() / 16), hex_digit(data.first() % 16)] + hex_of(
            data.drop_first(),
        )
    }
}

/// The value of one hex digit byte, either case; 0 on a byte that is none.
pub open spec fn hex_val(b: u8) -> u8 {
    if 48 <= b <= 57 {
        (b - 48) as u8
    } else if 97 <= b <= 102 {
        (b - 87) as u8
    } else if 65 <= b <= 70 {
        (b - 55) as u8
    } else {
        0
    }
}

/// True of a byte that is a hex digit in either case.
pub open spec fn is_hex_digit(b: u8) -> bool {
    (48 <= b <= 57) || (97 <= b <= 102) || (65 <= b <= 70)
}

/// The bytes encoded by a hex digit sequence, two digits per byte; a trailing
/// odd digit is dropped.
pub open spec fn unhex_of(h: Seq<u8>) -> Seq<u8>
    decreases h.len(),
{
    if h.len() < 2 {
        seq![]
    } else {
        seq![((hex_val(h[0]) * 16 + hex_val(h[1])) as u8)] + unhex_of(h.skip(2))
    }
}

/// Hex encoding doubles the length.
pub proof fn lemma_hex_of_len(data: Seq<u8>)
    ensures
        hex_of(data).len() == 2 * data.len(),
    decreases data.len(),
{
    if data.len() > 0 {
        lemma_hex_of_len(data.drop_first());
    }
}

/// Every byte of a hex encoding is a lowercase hex digit.
pub proof fn lemma_hex_of_lower(data: Seq<u8>)
    ensures
        forall|i: int|
            0 <= i < hex_of(data).len() ==> crate::types::is_lower_hex_digit(
                #[trigger] hex_of(data)[i],
            ),
    decreases data.len(),
{
    if data.len() > 0 {
        lemma_hex_of_lower(data.drop_first());
        assert forall|i: int| 0 <= i < hex_of(data).len() implies crate::types::is_lower_hex_digit(
            #[trigger] hex_of(data)[i],
        ) by {
            if i >= 2 {
                assert(hex_of(data)[i] == hex_of(data.drop_first())[i - 2]);
            }
        }
    }
}

/// Two digits decode to one byte.
pub proof fn lemma_unhex_of_len(h: Seq<u8>)
    ensures
        unhex_of(h).len() == h.len() / 2,
    decreases h.len(),
{
    if h.len() >= 2 {
        lemma_unhex_of_len(h.skip(2));
    }
}

/// Encoding what a run of lowercase hex digits of even length decodes to
/// gives the run back.
pub proof fn lemma_hex_of_unhex_of(h: Seq<u8>)
    requires
        h.len() % 2 == 0,
        forall|i: int| 0 <= i < h.len() ==> crate::types::is_lower_hex_digit(#[trigger] h[i]),
    ensures
        hex_of(unhex_of(h)) == h,
    decreases h.len(),
{
    if h.len() == 0 {
        assert(hex_of(unhex_of(h)) =~= h);
    } else {
        let rest = h.skip(2);
        let a = hex_val(h[0]);
        let b = hex_val(h[1]);
        let v = ((a * 16 + b) as u8);
        assert(a < 16 && b < 16);
        assert(v / 16 == a && v % 16 == b) by {
            vstd::arithmetic::div_mod::lemma_fundamental_div_mod_converse(
                v as int,
                16,
                a as int,
                b as int,
            );
        }
        assert(hex_digit(a) == h[0]);
        assert(hex_digit(b) == h[1]);
        assert forall|i: int| 0 <= i < rest.len() implies crate::types::is_lower_hex_digit(
            #[trigger] rest[i],
        ) by {
            assert(rest[i] == h[i + 2]);
        }
        lemma_hex_of_unhex_of(rest);
        let u = unhex_of(h);
        assert(u == seq![v] + unhex_of(rest));
        assert(u.first() == v);
        assert(u.drop_first() =~= unhex_of(rest));
        assert(hex_of(u) =~= h);
    }
}

/// Relies on `hex::encode`: each input byte becomes two hex digits from the
/// lowercase table, high nibble first.
#[verifier::external_body]
pub(crate) fn hex_encode(data: &Vec<u8>) -> (r: Vec<u8>)
    ensures
        r@ == hex_of(data@),
{
    hex::encode(data.as_slice()).into_bytes()
}

/// Relies on `hex::decode`: it succeeds exactly on inputs of even length made
/// of hex digits of either case, pairing digits high nibble first.
#[verifier::external_body]
pub(crate) fn hex_decode(h: &Vec<u8>) -> (r: Option<Vec<u8>>)
    ensures
        r is Some <==> (h@.len() % 2 == 0 && forall|i: int|
            0 <= i < h@.len() ==> is_hex_digit(#[trigger] h@[i])),
        r matches Some(v) ==> v@ == unhex_of(h@),
{
    match hex::decode(h.as_slice()) {
        Ok(v) => Some(v),
        Err(_) => None,
    }
}

/// Relies on `sha1::Sha1` through the `Digest` trait: the digest is a pure
/// function of the input bytes and is 20 bytes long.
#[verifier::external_body]
pub(crate) fn sha1_digest(data: &Vec<u8>) -> (r: Vec<u8>)
    ensures
        r@ == sha1_of(data@),
        r@.len() == 20,
{
    sha1::Sha1::digest(data.as_slice()).to_vec()
}

/// Appends all of `src` to `dst`.
pub fn append_bytes(dst: &mut Vec<u8>, src: &Vec<u8>)
    ensures
        final(dst)@ == old(dst)@ + src@,
{
    let mut i: usize = 0;
    while i < src.len()
        invariant
            i <= src@.len(),
            dst@ == old(dst)@ + src@.take(i as int),
        decreases src@.len() - i,
    {
        dst.push(src[i]);
        proof {
            assert(old(dst)@ + src@.take(i as int) + seq![src@[i as int]] =~= old(dst)@
                + src@.take(i + 1));
        }
        i = i + 1;
    }
    proof {
        assert(src@.take(src@.len() as int) =~= src@);
    }
}

/// A byte sink that accumulates every byte written to it and can produce the
/// SHA-1 digest of the whole, so hashing and buffering happen in one pass.
/// Its view is the sequence of bytes written so far.
pub struct HashedWriter {
    sink: Vec<u8>,
}

impl View for HashedWriter {
    type V = Seq<u8>;

    closed spec fn view(&self) -> Seq<u8> {
        self.sink@
    }
}

impl HashedWriter {
    /// A tee with nothing written yet.
    pub fn new() -> (r: HashedWriter)
        ensures
            r@ == Seq::<u8>::empty(),
    {
        HashedWriter { sink: Vec::new() }
    }

    /// Forwards all of `buf` to the sink and into the running digest;
    /// returns the number of bytes written.
    pub fn write(&mut self, buf: &Vec<u8>) -> (n: usize)
        ensures
            final(self)@ == old(self)@ + buf@,
            n == buf@.len(),
    {
        append_bytes(&mut self.sink, buf);
        buf.len()
    }

    /// Forwards one byte.
    pub fn write_byte(&mut self, b: u8)
        ensures
            final(self)@ == old(self)@.push(b),
    {
        self.sink.push(b);
    }

    /// Nothing is buffered beyond the sink itself.
    pub fn flush(&mut self)
        ensures
            *final(self) == *old(self),
    {
    }

    /// Finalizes the digest, once, and hands back the digest and the sink.
    /// Consumes the tee: it cannot be written after this.
    pub fn finalize(self) -> (r: (Vec<u8>, Vec<u8>))
        ensures
            r.0@ == sha1_of(self@),
            r.0@.len() == 20,
            r.1@ == self@,
    {
        let digest = sha1_digest(&self.sink);
        (digest, self.sink)
    }
}

} // verus!
