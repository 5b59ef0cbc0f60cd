//! Codec support for homogeneous sequences.
//!
//! A variable-length sequence is encoded as an 8-byte little-endian length
//! prefix followed by the element encodings; a fixed-length group is the bare
//! concatenation.  Both rest on the spec functions `enc_models` / `dec_models`
//! and their laws, proved here once by induction for every codec type.

use vstd::prelude::*;

use crate::codec::{Bytes, BytesError, BytesReader, BytesWriter, shift_err, lemma_shift_err_compose};

verus! {

/// The models of the elements of a vector, in order.
pub open spec fn models_of<T: Bytes>(s: Seq<T>) -> Seq<T::Model> {
    Seq::new(s.len(), |i: int| s[i].model())
}

/// All models in the sequence are encodable.
pub open spec fn wf_models<T: Bytes>(s: Seq<T::Model>) -> bool {
    forall|i: int| 0 <= i < s.len() ==> T::mwf(#[trigger] s[i])
}

/// The concatenation of the element encodings.
pub open spec fn enc_models<T: Bytes>(s: Seq<T::Model>) -> Seq<u8>
    decreases s.len(),
{
    if s.len() == 0 {
        Seq::empty()
    } else {
        T::menc(s[0]) + enc_models::<T>(s.skip(1))
    }
}

/// Decodes exactly `n` element models from the front of `stream`.
pub open spec fn dec_models<T: Bytes>(stream: Seq<u8>, n: nat) -> Result<
    (Seq<T::Model>, int),
    BytesError,
>
    decreases n,
{
    if n == 0 {
        Ok((Seq::empty(), 0))
    } else {
        match T::dec(stream) {
            Ok(xc) => match dec_models::<T>(stream.skip(xc.1), (n - 1) as nat) {
                Ok(sm) => Ok((seq![xc.0] + sm.0, xc.1 + sm.1)),
                Err(e) => Err(shift_err(e, xc.1)),
            },
            Err(e) => Err(e),
        }
    }
}

/// A group encoding splits at any index.
pub proof fn lemma_enc_models_split<T: Bytes>(s: Seq<T::Model>, i: int)
    requires
        0 <= i <= s.len(),
    ensures
        enc_models::<T>(s) == enc_models::<T>(s.take(i)) + enc_models::<T>(s.skip(i)),
    decreases i,
{
    if i == 0 {
        assert(s.take(0) =~= Seq::<T::Model>::empty());
        assert(s.skip(0) =~= s);
        assert(enc_models::<T>(s) =~= enc_models::<T>(s.take(0)) + enc_models::<T>(s.skip(0)));
    } else {
        lemma_enc_models_split::<T>(s.skip(1), i - 1);
        assert(s.skip(1).take(i - 1) =~= s.take(i).skip(1));
        assert(s.skip(1).skip(i - 1) =~= s.skip(i));
        assert(s.take(i)[0] == s[0]);
        assert(enc_models::<T>(s.take(i)) == T::menc(s[0]) + enc_models::<T>(s.take(i).skip(1)));
        assert(enc_models::<T>(s) =~= enc_models::<T>(s.take(i)) + enc_models::<T>(s.skip(i)));
    }
}

/// The encoding of a one-element group is the element's encoding.
pub proof fn lemma_enc_models_singleton<T: Bytes>(m: T::Model)
    ensures
        enc_models::<T>(seq![m]) == T::menc(m),
{
    assert(seq![m].skip(1) =~= Seq::<T::Model>::empty());
    assert(enc_models::<T>(seq![m].skip(1)) == enc_models::<T>(Seq::<T::Model>::empty()));
    assert(enc_models::<T>(seq![m]) =~= T::menc(m));
}

/// Round trip for groups: decoding a stream that starts with `enc_models(s)`
/// yields `s`.
pub proof fn lemma_enc_models_dec<T: Bytes>(s: Seq<T::Model>, rest: Seq<u8>)
    requires
        wf_models::<T>(s),
    ensures
        dec_models::<T>(enc_models::<T>(s) + rest, s.len()) == Ok::<
            (Seq<T::Model>, int),
            BytesError,
        >((s, enc_models::<T>(s).len() as int)),
    decreases s.len(),
{
    if s.len() == 0 {
        assert(enc_models::<T>(s) + rest =~= rest);
        assert(s =~= Seq::<T::Model>::empty());
    } else {
        let full = enc_models::<T>(s) + rest;
        let tail_enc = enc_models::<T>(s.skip(1));
        T::lemma_enc_dec(s[0], tail_enc + rest);
        assert(full =~= T::menc(s[0]) + (tail_enc + rest));
        let c = T::menc(s[0]).len() as int;
        assert(T::dec(full) == Ok::<(T::Model, int), BytesError>((s[0], c)));
        assert(full.skip(c) =~= tail_enc + rest);
        assert(wf_models::<T>(s.skip(1))) by {
            assert(forall|i: int|
                0 <= i < s.skip(1).len() ==> #[trigger] s.skip(1)[i] == s[i + 1]);
        }
        lemma_enc_models_dec::<T>(s.skip(1), rest);
        assert(seq![s[0]] + s.skip(1) =~= s);
    }
}

/// A successful group decode yields well-formed models whose encoding is
/// exactly the consumed prefix.
pub proof fn lemma_dec_models_ok<T: Bytes>(stream: Seq<u8>, n: nat)
    requires
        dec_models::<T>(stream, n) is Ok,
    ensures
        wf_models::<T>(dec_models::<T>(stream, n)->Ok_0.0),
        dec_models::<T>(stream, n)->Ok_0.0.len() == n,
        0 <= dec_models::<T>(stream, n)->Ok_0.1 <= stream.len(),
        enc_models::<T>(dec_models::<T>(stream, n)->Ok_0.0) == stream.take(
            dec_models::<T>(stream, n)->Ok_0.1,
        ),
    decreases n,
{
    if n == 0 {
        assert(enc_models::<T>(Seq::<T::Model>::empty()) =~= stream.take(0));
    } else {
        let xc = T::dec(stream)->Ok_0;
        T::lemma_dec_ok(stream);
        let rest = stream.skip(xc.1);
        lemma_dec_models_ok::<T>(rest, (n - 1) as nat);
        let sm = dec_models::<T>(rest, (n - 1) as nat)->Ok_0;
        let whole = seq![xc.0] + sm.0;
        assert(wf_models::<T>(whole)) by {
            assert(forall|i: int| 1 <= i < whole.len() ==> #[trigger] whole[i] == sm.0[i - 1]);
        }
        assert(whole[0] == xc.0);
        assert(whole.skip(1) =~= sm.0);
        assert(enc_models::<T>(whole) == T::menc(xc.0) + enc_models::<T>(sm.0));
        assert(enc_models::<T>(whole) =~= stream.take(xc.1 + sm.1)) by {
            assert(T::menc(xc.0) == stream.take(xc.1));
            assert(enc_models::<T>(sm.0) == rest.take(sm.1));
        }
    }
}

/// An `EndOfData` from a group decode carries an in-range position.
pub proof fn lemma_dec_models_eod<T: Bytes>(stream: Seq<u8>, n: nat)
    ensures
        dec_models::<T>(stream, n) matches Err(BytesError::EndOfData(p)) ==> p <= stream.len(),
    decreases n,
{
    if n != 0 {
        T::lemma_dec_eod(stream);
        if T::dec(stream) is Ok {
            let xc = T::dec(stream)->Ok_0;
            T::lemma_dec_ok(stream);
            lemma_dec_models_eod::<T>(stream.skip(xc.1), (n - 1) as nat);
        }
    }
}

/// Truncating a stream that a group decode consumed makes it fail with
/// `EndOfData`.
pub proof fn lemma_dec_models_truncated<T: Bytes>(stream: Seq<u8>, n: nat, k: int)
    requires
        dec_models::<T>(stream, n) is Ok,
        0 <= k < dec_models::<T>(stream, n)->Ok_0.1,
    ensures
        dec_models::<T>(stream.take(k), n) matches Err(BytesError::EndOfData(_)),
    decreases n,
{
    lemma_dec_models_ok::<T>(stream, n);
    if n == 0 {
        assert(false);
    } else {
        let xc = T::dec(stream)->Ok_0;
        T::lemma_dec_ok(stream);
        let c = xc.1;
        if k < c {
            T::lemma_dec_truncated(stream, k);
        } else {
            lemma_dec_models_ok::<T>(stream.skip(c), (n - 1) as nat);
            assert(stream.take(k).take(c) =~= stream.take(c));
            assert(stream.take(k) =~= T::menc(xc.0) + stream.take(k).skip(c)) by {
                assert(T::menc(xc.0) == stream.take(c));
            }
            T::lemma_enc_dec(xc.0, stream.take(k).skip(c));
            assert(T::dec(stream.take(k)) == Ok::<(T::Model, int), BytesError>((xc.0, c)));
            assert(stream.take(k).skip(c) =~= stream.skip(c).take(k - c));
            lemma_dec_models_truncated::<T>(stream.skip(c), (n - 1) as nat, k - c);
        }
    }
}

/// Writes the elements of `elems` back to back.
pub fn write_seq<T: Bytes>(elems: &Vec<T>, writer: &mut BytesWriter)
    requires
        wf_models::<T>(models_of(elems@)),
        old(writer)@.len() + enc_models::<T>(models_of(elems@)).len() <= old(writer).capacity(),
    ensures
        final(writer)@ == old(writer)@ + enc_models::<T>(models_of(elems@)),
        final(writer).capacity() == old(writer).capacity(),
{
    let ghost ms = models_of(elems@);
    let n = elems.len();
    let mut i: usize = 0;
    while i < n
        invariant
            i <= n,
            n == elems@.len(),
            ms == models_of(elems@),
            wf_models::<T>(ms),
            old(writer)@.len() + enc_models::<T>(ms).len() <= old(writer).capacity(),
            writer@ == old(writer)@ + enc_models::<T>(ms.take(i as int)),
            writer.capacity() == old(writer).capacity(),
        decreases n - i,
    {
        proof {
            lemma_enc_models_split::<T>(ms, i + 1);
            lemma_enc_models_split::<T>(ms.take(i + 1), i as int);
            assert(ms.take(i + 1).take(i as int) =~= ms.take(i as int));
            assert(ms.take(i + 1).skip(i as int) =~= seq![ms[i as int]]);
            lemma_enc_models_singleton::<T>(ms[i as int]);
            assert(elems@[i as int].model() == ms[i as int]);
            assert(T::mwf(ms[i as int]));
        }
        elems[i].write(writer);
        i += 1;
        proof {
            assert(writer@ =~= old(writer)@ + enc_models::<T>(ms.take(i as int)));
        }
    }
    proof {
        assert(ms.take(n as int) =~= ms);
    }
}

/// Reads exactly `n` values, as the spec decoder `dec_models` does.
pub fn read_seq<T: Bytes>(reader: &mut BytesReader, n: usize) -> (r: Result<Vec<T>, BytesError>)
    requires
        old(reader).pos() <= old(reader).bytes().len(),
        old(reader).bytes().len() <= usize::MAX,
    ensures
        final(reader).bytes() == old(reader).bytes(),
        match dec_models::<T>(old(reader).remaining(), n as nat) {
            Ok(sm) => {
                &&& r matches Ok(v) && models_of(v@) == sm.0
                &&& final(reader).pos() == old(reader).pos() + sm.1
            },
            Err(e) => {
                &&& r == Err::<Vec<T>, BytesError>(shift_err(e, old(reader).pos() as int))
                &&& old(reader).pos() <= final(reader).pos() <= old(reader).bytes().len()
            },
        },
{
    let mut out: Vec<T> = Vec::new();
    let mut i: usize = 0;
    proof {
        assert(models_of(out@) =~= Seq::<T::Model>::empty());
        if dec_models::<T>(old(reader).remaining(), n as nat) is Ok {
            let sm = dec_models::<T>(old(reader).remaining(), n as nat)->Ok_0;
            assert(models_of(out@) + sm.0 =~= sm.0);
        }
    }
    while i < n
        invariant
            i <= n,
            reader.bytes() == old(reader).bytes(),
            old(reader).pos() <= reader.pos() <= reader.bytes().len(),
            reader.bytes().len() <= usize::MAX,
            out@.len() == i,
            match dec_models::<T>(reader.remaining(), (n - i) as nat) {
                Ok(sm) => dec_models::<T>(old(reader).remaining(), n as nat) == Ok::<
                    (Seq<T::Model>, int),
                    BytesError,
                >((models_of(out@) + sm.0, (reader.pos() - old(reader).pos()) + sm.1)),
                Err(e) => dec_models::<T>(old(reader).remaining(), n as nat) == Err::<
                    (Seq<T::Model>, int),
                    BytesError,
                >(shift_err(e, reader.pos() - old(reader).pos())),
            },
        decreases n - i,
    {
        let ghost pre = *reader;
        let ghost delta = pre.pos() - old(reader).pos();
        match T::read(reader) {
            Err(er) => {
                proof {
                    let e0 = T::dec(pre.remaining())->Err_0;
                    T::lemma_dec_eod(pre.remaining());
                    assert(dec_models::<T>(pre.remaining(), (n - i) as nat) == Err::<
                        (Seq<T::Model>, int),
                        BytesError,
                    >(e0));
                    lemma_shift_err_compose(e0, delta, old(reader).pos() as int);
                }
                return Err(er);
            },
            Ok(x) => {
                proof {
                    let xc = T::dec(pre.remaining())->Ok_0;
                    T::lemma_dec_ok(pre.remaining());
                    assert(reader.remaining() =~= pre.remaining().skip(xc.1));
                    let tail = dec_models::<T>(reader.remaining(), (n - i - 1) as nat);
                    if tail is Ok {
                        let sm = tail->Ok_0;
                        assert(dec_models::<T>(pre.remaining(), (n - i) as nat) == Ok::<
                            (Seq<T::Model>, int),
                            BytesError,
                        >((seq![xc.0] + sm.0, xc.1 + sm.1)));
                        assert(models_of(out@.push(x)) =~= models_of(out@) + seq![xc.0]);
                        assert(models_of(out@.push(x)) + sm.0 =~= models_of(out@) + (seq![xc.0]
                            + sm.0));
                    } else {
                        let e1 = tail->Err_0;
                        lemma_dec_models_eod::<T>(reader.remaining(), (n - i - 1) as nat);
                        assert(dec_models::<T>(pre.remaining(), (n - i) as nat) == Err::<
                            (Seq<T::Model>, int),
                            BytesError,
                        >(shift_err(e1, xc.1)));
                        lemma_shift_err_compose(e1, xc.1, delta);
                    }
                }
                out.push(x);
                i += 1;
            },
        }
    }
    proof {
        if dec_models::<T>(old(reader).remaining(), n as nat) is Ok {
            let sm0 = dec_models::<T>(reader.remaining(), 0)->Ok_0;
            assert(models_of(out@) + sm0.0 =~= models_of(out@));
        }
    }
    Ok(out)
}

impl<T: Bytes> Bytes for Vec<T> {
    type Model = Seq<T::Model>;

    open spec fn model(&self) -> Seq<T::Model> {
        models_of(self@)
    }

    open spec fn mwf(m: Seq<T::Model>) -> bool {
        wf_models::<T>(m) && m.len() <= usize::MAX
    }

    open spec fn menc(m: Seq<T::Model>) -> Seq<u8> {
        usize::menc(m.len() as usize) + enc_models::<T>(m)
    }

    open spec fn dec(stream: Seq<u8>) -> Result<(Seq<T::Model>, int), BytesError> {
        match usize::dec(stream) {
            Ok(lc) => match dec_models::<T>(stream.skip(lc.1), lc.0 as nat) {
                Ok(sm) => Ok((sm.0, lc.1 + sm.1)),
                Err(e) => Err(shift_err(e, lc.1)),
            },
            Err(e) => Err(e),
        }
    }

    proof fn lemma_enc_dec(m: Seq<T::Model>, rest: Seq<u8>) {
        let len_enc = usize::menc(m.len() as usize);
        let body = enc_models::<T>(m);
        let full = Self::menc(m) + rest;
        usize::lemma_enc_dec(m.len() as usize, body + rest);
        assert(full =~= len_enc + (body + rest));
        assert(usize::dec(full) == Ok::<(usize, int), BytesError>((m.len() as usize, 8)));
        assert(full.skip(8) =~= body + rest);
        lemma_enc_models_dec::<T>(m, rest);
        assert((m.len() as usize) as nat == m.len());
    }

    proof fn lemma_dec_ok(stream: Seq<u8>) {
        let lc = usize::dec(stream)->Ok_0;
        usize::lemma_dec_ok(stream);
        let rest = stream.skip(lc.1);
        lemma_dec_models_ok::<T>(rest, lc.0 as nat);
        let sm = dec_models::<T>(rest, lc.0 as nat)->Ok_0;
        assert(sm.0.len() == lc.0);
        assert((sm.0.len() as usize) == lc.0);
        assert(Self::menc(sm.0) =~= stream.take(lc.1 + sm.1)) by {
            assert(usize::menc(lc.0) == stream.take(lc.1));
            assert(enc_models::<T>(sm.0) == rest.take(sm.1));
        }
    }

    proof fn lemma_dec_eod(stream: Seq<u8>) {
        usize::lemma_dec_eod(stream);
        if usize::dec(stream) is Ok {
            let lc = usize::dec(stream)->Ok_0;
            usize::lemma_dec_ok(stream);
            lemma_dec_models_eod::<T>(stream.skip(lc.1), lc.0 as nat);
        }
    }

    proof fn lemma_dec_truncated(stream: Seq<u8>, k: int) {
        let lc = usize::dec(stream)->Ok_0;
        usize::lemma_dec_ok(stream);
        lemma_dec_models_ok::<T>(stream.skip(lc.1), lc.0 as nat);
        if k < 8 {
            usize::lemma_dec_truncated(stream, k);
        } else {
            assert(stream.take(k).take(8) =~= stream.take(8));
            assert(stream.take(k) =~= usize::menc(lc.0) + stream.take(k).skip(8)) by {
                assert(usize::menc(lc.0) == stream.take(8));
            }
            usize::lemma_enc_dec(lc.0, stream.take(k).skip(8));
            assert(usize::dec(stream.take(k)) == Ok::<(usize, int), BytesError>((lc.0, 8)));
            assert(stream.take(k).skip(8) =~= stream.skip(8).take(k - 8));
            lemma_dec_models_truncated::<T>(stream.skip(8), lc.0 as nat, k - 8);
        }
    }

    fn required_size(&self) -> (r: usize) {
        let ghost ms = models_of(self@);
        let n = self.len();
        let mut acc: usize = 8;
        let mut i: usize = 0;
        proof {
            assert(enc_models::<T>(ms.take(0)) =~= Seq::<u8>::empty());
        }
        while i < n
            invariant
                i <= n,
                n == self@.len(),
                ms == models_of(self@),
                Self::mwf(ms),
                Self::menc(ms).len() <= usize::MAX,
                acc == 8 + enc_models::<T>(ms.take(i as int)).len(),
            decreases n - i,
        {
            proof {
                lemma_enc_models_split::<T>(ms, i + 1);
                lemma_enc_models_split::<T>(ms.take(i + 1), i as int);
                assert(ms.take(i + 1).take(i as int) =~= ms.take(i as int));
                assert(ms.take(i + 1).skip(i as int) =~= seq![ms[i as int]]);
                lemma_enc_models_singleton::<T>(ms[i as int]);
                assert(self@[i as int].model() == ms[i as int]);
                assert(T::mwf(ms[i as int]));
                assert(enc_models::<T>(ms.take(i + 1)).len() <= enc_models::<T>(ms).len());
            }
            let sz = self[i].required_size();
            acc = acc + sz;
            i += 1;
        }
        proof {
            assert(ms.take(n as int) =~= ms);
        }
        acc
    }

    fn write(&self, writer: &mut BytesWriter) {
        let len = self.len();
        proof {
            assert(models_of(self@).len() == self@.len());
        }
        len.write(writer);
        write_seq::<T>(self, writer);
        proof {
            assert(writer@ =~= old(writer)@ + Self::menc(models_of(self@)));
        }
    }

    fn read(reader: &mut BytesReader) -> (r: Result<Self, BytesError>) {
        let ghost start = *reader;
        let len = match usize::read(reader) {
            Ok(len) => len,
            Err(e) => {
                return Err(e);
            },
        };
        proof {
            usize::lemma_dec_ok(start.remaining());
            assert(reader.remaining() =~= start.remaining().skip(8));
        }
        let elems = match read_seq::<T>(reader, len) {
            Ok(elems) => elems,
            Err(e) => {
                proof {
                    let e1 = dec_models::<T>(start.remaining().skip(8), len as nat)->Err_0;
                    lemma_dec_models_eod::<T>(start.remaining().skip(8), len as nat);
                    lemma_shift_err_compose(e1, 8, start.pos() as int);
                }
                return Err(e);
            },
        };
        Ok(elems)
    }
}

} // verus!
