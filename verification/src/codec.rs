//! Deterministic little-endian binary codec.
//!
//! Values are written to and read from a length-free byte stream: no framing,
//! no tags.  The schema is fixed by the type.  Each codec type names a
//! mathematical [`Bytes::Model`], a spec-level encoding (`menc`) and a
//! spec-level decoder (`dec`); the trait's proof obligations tie the two
//! together, so that every implementation enjoys the round-trip,
//! exact-consumption and truncation laws.

use vstd::prelude::*;

verus! {

/// A failure while decoding a byte stream.
#[derive(Clone, Copy, Debug, PartialEq, Eq, Structural)]
pub enum BytesError {
    /// A read would have overrun the input; the payload is the cursor
    /// position at which the failing read started.
    EndOfData(usize),
    /// After decoding the top-level value, bytes remain; the payload is the
    /// number of bytes that were consumed.
    TrailingData(usize),
    /// A decoded 64-bit length does not fit in the host's `usize`.
    UsizeTooSmall,
}

/// Relocates a decoder error from a stream suffix to an absolute position in
/// the full input.
pub open spec fn shift_err(e: BytesError, off: int) -> BytesError {
    match e {
        BytesError::EndOfData(p) => BytesError::EndOfData((p + off) as usize),
        _ => e,
    }
}

/// Shifting by two offsets in turn is one shift by their sum.
pub proof fn lemma_shift_err_compose(e: BytesError, a: int, b: int)
    requires
        0 <= a,
        0 <= b,
        e matches BytesError::EndOfData(p) ==> p + a + b <= usize::MAX,
    ensures
        shift_err(shift_err(e, a), b) == shift_err(e, a + b),
{
}

/// An output buffer of a fixed capacity, filled front to back.
pub struct BytesWriter {
    data: Vec<u8>,
    cap: usize,
}

impl BytesWriter {
    /// The bytes written so far.
    pub closed spec fn view(&self) -> Seq<u8> {
        self.data@
    }

    /// The total number of bytes this writer was sized for.
    pub closed spec fn capacity(&self) -> usize {
        self.cap
    }

    pub fn new(capacity: usize) -> (w: Self)
        ensures
            w@ == Seq::<u8>::empty(),
            w.capacity() == capacity,
    {
        BytesWriter { data: Vec::new(), cap: capacity }
    }

    pub fn write(&mut self, bytes: &[u8])
        requires
            old(self)@.len() + bytes@.len() <= old(self).capacity(),
        ensures
            final(self)@ == old(self)@ + bytes@,
            final(self).capacity() == old(self).capacity(),
    {
        let n = bytes.len();
        let mut i: usize = 0;
        while i < n
            invariant
                i <= n,
                n == bytes@.len(),
                self.data@ == old(self).data@ + bytes@.take(i as int),
                self.cap == old(self).cap,
            decreases n - i,
        {
            self.data.push(bytes[i]);
            i += 1;
            proof {
                assert(bytes@.take(i as int) == bytes@.take(i - 1) + seq![bytes@[i - 1]]);
            }
        }
        proof {
            assert(bytes@.take(n as int) == bytes@);
        }
    }

    pub fn finish(self) -> (r: Vec<u8>)
        requires
            self@.len() == self.capacity(),
        ensures
            r@ == self@,
    {
        self.data
    }
}

/// A cursor over an input byte slice.
pub struct BytesReader<'a> {
    data: &'a [u8],
    pos: usize,
}

impl<'a> BytesReader<'a> {
    /// The whole input this reader was built over.
    pub closed spec fn bytes(&self) -> Seq<u8> {
        self.data@
    }

    /// The cursor: how many bytes have been consumed.
    pub closed spec fn pos(&self) -> usize {
        self.pos
    }

    /// The bytes not yet consumed.
    pub open spec fn remaining(&self) -> Seq<u8> {
        self.bytes().skip(self.pos() as int)
    }

    pub fn new(bytes: &'a [u8]) -> (r: Self)
        ensures
            r.bytes() == bytes@,
            r.pos() == 0,
            r.bytes().len() <= usize::MAX,
    {
        // Reading the length pins the fact that the input fits in usize.
        let _len: usize = bytes.len();
        BytesReader { data: bytes, pos: 0 }
    }

    /// Reads exactly `n` bytes, or fails with `EndOfData` at the current
    /// position without moving the cursor.
    pub fn read(&mut self, n: usize) -> (r: Result<Vec<u8>, BytesError>)
        requires
            old(self).pos() <= old(self).bytes().len(),
        ensures
            final(self).bytes() == old(self).bytes(),
            if old(self).pos() + n <= old(self).bytes().len() {
                &&& r matches Ok(v) && v@ == old(self).bytes().subrange(
                    old(self).pos() as int,
                    old(self).pos() + n,
                )
                &&& final(self).pos() == old(self).pos() + n
            } else {
                &&& r == Err::<Vec<u8>, BytesError>(BytesError::EndOfData(old(self).pos()))
                &&& final(self).pos() == old(self).pos()
            },
    {
        let dlen = self.data.len();
        if n > dlen - self.pos {
            return Err(BytesError::EndOfData(self.pos));
        }
        let mut out: Vec<u8> = Vec::new();
        let start = self.pos;
        let mut i: usize = 0;
        while i < n
            invariant
                i <= n,
                start + n <= dlen == self.data@.len(),
                out@ == self.data@.subrange(start as int, start + i),
            decreases n - i,
        {
            out.push(self.data[start + i]);
            i += 1;
            proof {
                assert(self.data@.subrange(start as int, start + i)
                    == self.data@.subrange(start as int, start + i - 1)
                        + seq![self.data@[start + i - 1]]);
            }
        }
        self.pos = start + n;
        Ok(out)
    }

    /// Succeeds only if the whole input has been consumed.
    pub fn finish(self) -> (r: Result<(), BytesError>)
        ensures
            if self.pos() == self.bytes().len() {
                r is Ok
            } else {
                r == Err::<(), BytesError>(BytesError::TrailingData(self.pos()))
            },
    {
        if self.pos == self.data.len() {
            Ok(())
        } else {
            Err(BytesError::TrailingData(self.pos))
        }
    }
}

/// A type with a deterministic byte-stream encoding.
///
/// `Model` is the mathematical value a codec value stands for (for a plain
/// integer, itself; for a vector, the sequence of element models).  `menc` is
/// the mathematical encoding and `dec` the mathematical decoder over a stream
/// suffix, returning the decoded model and the number of bytes consumed.
/// Every implementation proves the codec laws: a decode of an encoding
/// returns the encoded model (`lemma_enc_dec`), a successful decode consumes
/// exactly the model's encoding (`lemma_dec_ok`), a decoder `EndOfData`
/// carries an in-range position (`lemma_dec_eod`), and truncating a decodable
/// stream yields `EndOfData` (`lemma_dec_truncated`).
pub trait Bytes: Sized {
    /// The mathematical value this type stands for.
    type Model;

    /// The model of this value.
    spec fn model(&self) -> Self::Model;

    /// Which models can be encoded at all.
    spec fn mwf(m: Self::Model) -> bool;

    /// The byte encoding of a model.
    spec fn menc(m: Self::Model) -> Seq<u8>;

    /// Decodes a model from the front of `stream`; on success also yields the
    /// number of bytes consumed.  Error positions are relative to the start
    /// of `stream`.
    spec fn dec(stream: Seq<u8>) -> Result<(Self::Model, int), BytesError>;

    /// Law: decoding a stream that starts with `menc(m)` yields `m` and
    /// consumes exactly `menc(m)`.
    proof fn lemma_enc_dec(m: Self::Model, rest: Seq<u8>)
        requires
            Self::mwf(m),
        ensures
            Self::dec(Self::menc(m) + rest) == Ok::<(Self::Model, int), BytesError>((
                m,
                Self::menc(m).len() as int,
            )),
    ;

    /// Law: a successful decode yields a well-formed model whose encoding is
    /// exactly the consumed prefix.
    proof fn lemma_dec_ok(stream: Seq<u8>)
        requires
            Self::dec(stream) is Ok,
        ensures
            Self::mwf(Self::dec(stream)->Ok_0.0),
            0 <= Self::dec(stream)->Ok_0.1 <= stream.len(),
            Self::menc(Self::dec(stream)->Ok_0.0) == stream.take(Self::dec(stream)->Ok_0.1),
    ;

    /// Law: an `EndOfData` position never exceeds the stream length.
    proof fn lemma_dec_eod(stream: Seq<u8>)
        ensures
            Self::dec(stream) matches Err(BytesError::EndOfData(p)) ==> p <= stream.len(),
    ;

    /// Law: cutting a decodable stream short of what the decoder consumed
    /// makes it fail with `EndOfData`.
    proof fn lemma_dec_truncated(stream: Seq<u8>, k: int)
        requires
            Self::dec(stream) is Ok,
            0 <= k < Self::dec(stream)->Ok_0.1,
        ensures
            Self::dec(stream.take(k)) matches Err(BytesError::EndOfData(_)),
    ;

    /// The number of bytes `write` will produce.
    fn required_size(&self) -> (n: usize)
        requires
            Self::mwf(self.model()),
            Self::menc(self.model()).len() <= usize::MAX,
        ensures
            n == Self::menc(self.model()).len(),
    ;

    /// Appends this value's encoding to the writer.
    fn write(&self, writer: &mut BytesWriter)
        requires
            Self::mwf(self.model()),
            old(writer)@.len() + Self::menc(self.model()).len() <= old(writer).capacity(),
        ensures
            final(writer)@ == old(writer)@ + Self::menc(self.model()),
            final(writer).capacity() == old(writer).capacity(),
    ;

    /// Reads one value from the cursor, exactly as the spec decoder `dec`
    /// does on the remaining bytes.
    fn read(reader: &mut BytesReader) -> (r: Result<Self, BytesError>)
        requires
            old(reader).pos() <= old(reader).bytes().len(),
            old(reader).bytes().len() <= usize::MAX,
        ensures
            final(reader).bytes() == old(reader).bytes(),
            match Self::dec(old(reader).remaining()) {
                Ok(xn) => {
                    &&& r matches Ok(v) && v.model() == xn.0
                    &&& final(reader).pos() == old(reader).pos() + xn.1
                },
                Err(e) => {
                    &&& r == Err::<Self, BytesError>(shift_err(e, old(reader).pos() as int))
                    &&& old(reader).pos() <= final(reader).pos() <= old(reader).bytes().len()
                },
            },
    ;

    /// Encodes a value into a fresh, exactly-sized buffer.
    fn to_bytes(&self) -> (r: Vec<u8>)
        requires
            Self::mwf(self.model()),
            Self::menc(self.model()).len() <= usize::MAX,
        ensures
            r@ == Self::menc(self.model()),
    {
        let mut writer = BytesWriter::new(self.required_size());
        self.write(&mut writer);
        writer.finish()
    }

    /// Decodes a value from `bytes`, insisting that every byte is consumed.
    fn from_bytes(bytes: &[u8]) -> (r: Result<Self, BytesError>)
        ensures
            match Self::dec(bytes@) {
                Ok(xn) => if xn.1 == bytes@.len() {
                    r matches Ok(v) && v.model() == xn.0
                } else {
                    r == Err::<Self, BytesError>(BytesError::TrailingData(xn.1 as usize))
                },
                Err(e) => r == Err::<Self, BytesError>(e),
            },
    {
        let mut reader = BytesReader::new(bytes);
        proof {
            assert(reader.remaining() == bytes@);
            if Self::dec(bytes@) is Err {
                let e = Self::dec(bytes@)->Err_0;
                assert(shift_err(e, 0) == e) by {
                    Self::lemma_dec_eod(bytes@);
                }
            }
        }
        let output = match Self::read(&mut reader) {
            Ok(v) => v,
            Err(e) => {
                return Err(e);
            },
        };
        match reader.finish() {
            Ok(()) => Ok(output),
            Err(e) => Err(e),
        }
    }
}

/// Law: decoding the encoding of any well-formed value yields exactly that
/// value's model and consumes the whole encoding; together with the
/// `to_bytes` and `from_bytes` contracts, `from_bytes(to_bytes(x))`
/// recovers `x` for every codec type.
pub proof fn lemma_codec_round_trip<T: Bytes>(x: T)
    requires
        T::mwf(x.model()),
    ensures
        T::dec(T::menc(x.model())) == Ok::<(T::Model, int), BytesError>((
            x.model(),
            T::menc(x.model()).len() as int,
        )),
{
    T::lemma_enc_dec(x.model(), Seq::empty());
    assert(T::menc(x.model()) + Seq::empty() =~= T::menc(x.model()));
}

/// Law: if a buffer decodes completely, any extension of it still decodes to
/// the same model while consuming only the original bytes; `from_bytes` on
/// the extended buffer therefore reports `TrailingData`.
pub proof fn lemma_decode_extended<T: Bytes>(b: Seq<u8>, extra: Seq<u8>)
    requires
        T::dec(b) is Ok,
        T::dec(b)->Ok_0.1 == b.len(),
    ensures
        T::dec(b + extra) == Ok::<(T::Model, int), BytesError>((T::dec(b)->Ok_0.0, b.len() as int)),
{
    let m = T::dec(b)->Ok_0.0;
    T::lemma_dec_ok(b);
    assert(b.take(b.len() as int) =~= b);
    T::lemma_enc_dec(m, extra);
    assert(T::menc(m) + extra =~= b + extra);
}

/// Law: if a buffer decodes completely, any strict truncation of it fails
/// with `EndOfData`.
pub proof fn lemma_decode_truncated<T: Bytes>(b: Seq<u8>, k: int)
    requires
        T::dec(b) is Ok,
        T::dec(b)->Ok_0.1 == b.len(),
        0 <= k < b.len(),
    ensures
        T::dec(b.take(k)) matches Err(BytesError::EndOfData(_)),
{
    T::lemma_dec_truncated(b, k);
}

/// The eight little-endian bytes of a 64-bit integer.
pub open spec fn u64_le_bytes(x: u64) -> Seq<u8> {
    seq![
        (x & 0xff) as u8,
        ((x >> 8) & 0xff) as u8,
        ((x >> 16) & 0xff) as u8,
        ((x >> 24) & 0xff) as u8,
        ((x >> 32) & 0xff) as u8,
        ((x >> 40) & 0xff) as u8,
        ((x >> 48) & 0xff) as u8,
        ((x >> 56) & 0xff) as u8,
    ]
}

/// The 64-bit integer whose little-endian bytes are the first eight of `b`.
pub open spec fn u64_from_le(b: Seq<u8>) -> u64
    recommends
        b.len() >= 8,
{
    ((b[0] as u64) | ((b[1] as u64) << 8) | ((b[2] as u64) << 16) | ((b[3] as u64) << 24)
        | ((b[4] as u64) << 32) | ((b[5] as u64) << 40) | ((b[6] as u64) << 48) | ((b[7]
        as u64) << 56)) as u64
}

/// Each little-endian byte of a 64-bit integer is below 256.
pub proof fn lemma_le_byte_bounds(x: u64)
    ensures
        x & 0xff < 256,
        (x >> 8) & 0xff < 256,
        (x >> 16) & 0xff < 256,
        (x >> 24) & 0xff < 256,
        (x >> 32) & 0xff < 256,
        (x >> 40) & 0xff < 256,
        (x >> 48) & 0xff < 256,
        (x >> 56) & 0xff < 256,
{
    assert(x & 0xff < 256 && (x >> 8) & 0xff < 256 && (x >> 16) & 0xff < 256 && (x >> 24) & 0xff
        < 256 && (x >> 32) & 0xff < 256 && (x >> 40) & 0xff < 256 && (x >> 48) & 0xff < 256 && (x
        >> 56) & 0xff < 256) by (bit_vector);
}

/// Reassembling the little-endian bytes of `x` gives back `x`.
pub proof fn lemma_u64_le_round_trip(x: u64)
    ensures
        u64_from_le(u64_le_bytes(x)) == x,
{
    let b = u64_le_bytes(x);
    assert((((x & 0xff) as u8 as u64) | (((x >> 8) & 0xff) as u8 as u64) << 8 | (((x >> 16)
        & 0xff) as u8 as u64) << 16 | (((x >> 24) & 0xff) as u8 as u64) << 24 | (((x >> 32)
        & 0xff) as u8 as u64) << 32 | (((x >> 40) & 0xff) as u8 as u64) << 40 | (((x >> 48)
        & 0xff) as u8 as u64) << 48 | (((x >> 56) & 0xff) as u8 as u64) << 56) as u64 == x)
        by (bit_vector);
}

/// Taking apart a 64-bit integer built from eight bytes gives back those
/// bytes.
pub proof fn lemma_u64_le_bytes_of(b: Seq<u8>)
    requires
        b.len() == 8,
    ensures
        u64_le_bytes(u64_from_le(b)) == b,
{
    let b0 = b[0];
    let b1 = b[1];
    let b2 = b[2];
    let b3 = b[3];
    let b4 = b[4];
    let b5 = b[5];
    let b6 = b[6];
    let b7 = b[7];
    let y = u64_from_le(b);
    assert(y == ((b0 as u64) | ((b1 as u64) << 8) | ((b2 as u64) << 16) | ((b3 as u64) << 24) | (
    (b4 as u64) << 32) | ((b5 as u64) << 40) | ((b6 as u64) << 48) | ((b7 as u64) << 56)) as u64);
    let z = ((b0 as u64) | ((b1 as u64) << 8) | ((b2 as u64) << 16) | ((b3 as u64) << 24) | ((b4
        as u64) << 32) | ((b5 as u64) << 40) | ((b6 as u64) << 48) | ((b7 as u64) << 56)) as u64;
    assert((z & 0xff) as u8 == b0 && ((z >> 8) & 0xff) as u8 == b1 && ((z >> 16) & 0xff) as u8
        == b2 && ((z >> 24) & 0xff) as u8 == b3 && ((z >> 32) & 0xff) as u8 == b4 && ((z >> 40)
        & 0xff) as u8 == b5 && ((z >> 48) & 0xff) as u8 == b6 && ((z >> 56) & 0xff) as u8 == b7)
        by (bit_vector)
        requires
            z == ((b0 as u64) | ((b1 as u64) << 8) | ((b2 as u64) << 16) | ((b3 as u64) << 24) | (
            (b4 as u64) << 32) | ((b5 as u64) << 40) | ((b6 as u64) << 48) | ((b7 as u64) << 56))
                as u64,
    ;
    assert(u64_le_bytes(y) =~= b);
}

impl Bytes for u8 {
    type Model = u8;

    open spec fn model(&self) -> u8 {
        *self
    }

    open spec fn mwf(m: u8) -> bool {
        true
    }

    open spec fn menc(m: u8) -> Seq<u8> {
        seq![m]
    }

    open spec fn dec(stream: Seq<u8>) -> Result<(u8, int), BytesError> {
        if stream.len() >= 1 {
            Ok((stream[0], 1))
        } else {
            Err(BytesError::EndOfData(0))
        }
    }

    proof fn lemma_enc_dec(m: u8, rest: Seq<u8>) {
        assert((Self::menc(m) + rest)[0] == m);
    }

    proof fn lemma_dec_ok(stream: Seq<u8>) {
        assert(Self::menc(Self::dec(stream)->Ok_0.0) =~= stream.take(1));
    }

    proof fn lemma_dec_eod(stream: Seq<u8>) {
    }

    proof fn lemma_dec_truncated(stream: Seq<u8>, k: int) {
    }

    fn required_size(&self) -> (n: usize) {
        1
    }

    fn write(&self, writer: &mut BytesWriter) {
        let mut v: Vec<u8> = Vec::new();
        v.push(*self);
        writer.write(v.as_slice());
        proof {
            assert(v@ =~= Self::menc(self.model()));
        }
    }

    fn read(reader: &mut BytesReader) -> (r: Result<Self, BytesError>) {
        let b = reader.read(1)?;
        proof {
            assert(b@[0] == old(reader).remaining()[0]);
        }
        Ok(b[0])
    }
}

impl Bytes for u64 {
    type Model = u64;

    open spec fn model(&self) -> u64 {
        *self
    }

    open spec fn mwf(m: u64) -> bool {
        true
    }

    open spec fn menc(m: u64) -> Seq<u8> {
        u64_le_bytes(m)
    }

    open spec fn dec(stream: Seq<u8>) -> Result<(u64, int), BytesError> {
        if stream.len() >= 8 {
            Ok((u64_from_le(stream.take(8)), 8))
        } else {
            Err(BytesError::EndOfData(0))
        }
    }

    proof fn lemma_enc_dec(m: u64, rest: Seq<u8>) {
        assert((Self::menc(m) + rest).take(8) =~= Self::menc(m));
        lemma_u64_le_round_trip(m);
    }

    proof fn lemma_dec_ok(stream: Seq<u8>) {
        lemma_u64_le_bytes_of(stream.take(8));
    }

    proof fn lemma_dec_eod(stream: Seq<u8>) {
    }

    proof fn lemma_dec_truncated(stream: Seq<u8>, k: int) {
    }

    fn required_size(&self) -> (n: usize) {
        8
    }

    fn write(&self, writer: &mut BytesWriter) {
        let x = *self;
        proof {
            lemma_le_byte_bounds(x);
        }
        let mut v: Vec<u8> = Vec::new();
        v.push((x & 0xff) as u8);
        v.push(((x >> 8) & 0xff) as u8);
        v.push(((x >> 16) & 0xff) as u8);
        v.push(((x >> 24) & 0xff) as u8);
        v.push(((x >> 32) & 0xff) as u8);
        v.push(((x >> 40) & 0xff) as u8);
        v.push(((x >> 48) & 0xff) as u8);
        v.push(((x >> 56) & 0xff) as u8);
        writer.write(v.as_slice());
        proof {
            assert(v@ =~= Self::menc(self.model()));
        }
    }

    fn read(reader: &mut BytesReader) -> (r: Result<Self, BytesError>) {
        let b = reader.read(8)?;
        let y = (b[0] as u64) | ((b[1] as u64) << 8) | ((b[2] as u64) << 16) | ((b[3] as u64)
            << 24) | ((b[4] as u64) << 32) | ((b[5] as u64) << 40) | ((b[6] as u64) << 48) | ((
        b[7] as u64) << 56);
        proof {
            let s = old(reader).remaining();
            assert(b@ =~= s.take(8));
        }
        Ok(y)
    }
}

impl Bytes for usize {
    type Model = usize;

    open spec fn model(&self) -> usize {
        *self
    }

    open spec fn mwf(m: usize) -> bool {
        true
    }

    open spec fn menc(m: usize) -> Seq<u8> {
        u64_le_bytes(m as u64)
    }

    open spec fn dec(stream: Seq<u8>) -> Result<(usize, int), BytesError> {
        if stream.len() >= 8 {
            if u64_from_le(stream.take(8)) <= usize::MAX as u64 {
                Ok((u64_from_le(stream.take(8)) as usize, 8))
            } else {
                Err(BytesError::UsizeTooSmall)
            }
        } else {
            Err(BytesError::EndOfData(0))
        }
    }

    proof fn lemma_enc_dec(m: usize, rest: Seq<u8>) {
        assert((Self::menc(m) + rest).take(8) =~= Self::menc(m));
        lemma_u64_le_round_trip(m as u64);
    }

    proof fn lemma_dec_ok(stream: Seq<u8>) {
        lemma_u64_le_bytes_of(stream.take(8));
    }

    proof fn lemma_dec_eod(stream: Seq<u8>) {
    }

    proof fn lemma_dec_truncated(stream: Seq<u8>, k: int) {
    }

    fn required_size(&self) -> (n: usize) {
        8
    }

    fn write(&self, writer: &mut BytesWriter) {
        let x = *self as u64;
        proof {
            lemma_le_byte_bounds(x);
        }
        let mut v: Vec<u8> = Vec::new();
        v.push((x & 0xff) as u8);
        v.push(((x >> 8) & 0xff) as u8);
        v.push(((x >> 16) & 0xff) as u8);
        v.push(((x >> 24) & 0xff) as u8);
        v.push(((x >> 32) & 0xff) as u8);
        v.push(((x >> 40) & 0xff) as u8);
        v.push(((x >> 48) & 0xff) as u8);
        v.push(((x >> 56) & 0xff) as u8);
        writer.write(v.as_slice());
        proof {
            assert(v@ =~= Self::menc(self.model()));
        }
    }

    fn read(reader: &mut BytesReader) -> (r: Result<Self, BytesError>) {
        let y = u64::read(reader)?;
        if y <= usize::MAX as u64 {
            Ok(y as usize)
        } else {
            Err(BytesError::UsizeTooSmall)
        }
    }
}

} // verus!
