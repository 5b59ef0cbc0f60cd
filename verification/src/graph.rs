//! Colored graphs, edges, and per-round commitment material.

use vstd::prelude::*;

use crate::codec::{Bytes, BytesError, BytesReader, BytesWriter, shift_err, lemma_shift_err_compose};
use crate::codec_seq::models_of;
use crate::crypto::{Commitment, sha256_le8, sha256_of_le8, random_u64, random_below};

verus! {

/// An undirected edge, stored as the ordered pair of its endpoint indices.
#[derive(Clone, Copy, Debug, PartialEq, Eq, Structural)]
pub struct Edge(pub usize, pub usize);

/// A graph as an ordered node sequence (the payload is the node's color or
/// commitment) together with an ordered edge sequence.
#[derive(Debug)]
pub struct Graph<T> {
    pub nodes: Vec<T>,
    pub edges: Vec<Edge>,
}

/// A failure while rebuilding a graph from bytes.
#[derive(Clone, Copy, Debug, PartialEq, Eq, Structural)]
pub enum GraphError {
    InvalidBytes,
}

/// One 64-bit key per node, freshly sampled per round.
#[derive(Debug)]
pub struct Keys(pub Vec<u64>);

/// The commitment to color `value` under key `key`: the SHA-256 digest of
/// the 8-byte little-endian `value XOR key`.
pub fn hash(value: u8, key: u64) -> (r: Commitment)
    ensures
        r.bytes@ == sha256_le8((value as u64) ^ key),
        r.wf(),
{
    sha256_of_le8((value as u64) ^ key)
}

impl<T> Graph<T> {
    /// Both endpoints of `e` index into the node sequence.
    pub open spec fn edge_in_range(&self, e: Edge) -> bool {
        e.0 < self.nodes@.len() && e.1 < self.nodes@.len()
    }

    /// How many edges the graph has.
    pub fn num_edges(&self) -> (n: usize)
        ensures
            n == self.edges@.len(),
    {
        self.edges.len()
    }

    /// The payloads at the two endpoints of `edge`.
    pub fn get(&self, edge: Edge) -> (r: (&T, &T))
        requires
            self.edge_in_range(edge),
        ensures
            *r.0 == self.nodes@[edge.0 as int],
            *r.1 == self.nodes@[edge.1 as int],
    {
        (&self.nodes[edge.0], &self.nodes[edge.1])
    }

    /// The payloads at the two endpoints of `edge`, copied out.
    pub fn get_copied(&self, edge: Edge) -> (r: (T, T)) where T: Copy
        requires
            self.edge_in_range(edge),
        ensures
            r.0 == self.nodes@[edge.0 as int],
            r.1 == self.nodes@[edge.1 as int],
    {
        (self.nodes[edge.0], self.nodes[edge.1])
    }

    /// An edge drawn uniformly from the edge sequence; `None` only when the
    /// graph has no edges.
    pub fn random_edge(&self) -> (r: Option<Edge>)
        ensures
            match r {
                Some(e) => self.edges@.contains(e),
                None => self.edges@.len() == 0,
            },
    {
        let n = self.edges.len();
        if n == 0 {
            None
        } else {
            let i = random_below(n);
            let e = self.edges[i];
            proof {
                assert(self.edges@[i as int] == e);
            }
            Some(e)
        }
    }
}

impl Graph<u8> {
    /// Every node color is a valid color index for a 10-entry relabeling.
    pub open spec fn colors_in_range(&self) -> bool {
        forall|i: int| 0 <= i < self.nodes@.len() ==> self.nodes@[i] < 10
    }

    /// Relabels every node color through `mapper`.
    pub fn map(&mut self, mapper: &Vec<u8>)
        requires
            mapper@.len() == 10,
            old(self).colors_in_range(),
        ensures
            final(self).edges@ == old(self).edges@,
            final(self).nodes@.len() == old(self).nodes@.len(),
            forall|i: int|
                0 <= i < old(self).nodes@.len() ==> final(self).nodes@[i] == mapper@[old(
                    self,
                ).nodes@[i] as int],
    {
        let n = self.nodes.len();
        let mut i: usize = 0;
        while i < n
            invariant
                i <= n,
                n == self.nodes@.len() == old(self).nodes@.len(),
                self.edges@ == old(self).edges@,
                mapper@.len() == 10,
                forall|j: int| i <= j < n ==> self.nodes@[j] == old(self).nodes@[j],
                forall|j: int| i <= j < n ==> old(self).nodes@[j] < 10,
                forall|j: int|
                    0 <= j < i ==> self.nodes@[j] == mapper@[old(self).nodes@[j] as int],
            decreases n - i,
        {
            let c = self.nodes[i];
            self.nodes[i] = mapper[c as usize];
            i += 1;
        }
    }

    /// Commits to every node color under a fresh random key per node;
    /// returns the commitments and the keys, in node order.
    pub fn encrypt(&self) -> (r: (Vec<Commitment>, Keys))
        ensures
            r.0@.len() == self.nodes@.len(),
            r.1.0@.len() == self.nodes@.len(),
            forall|i: int|
                0 <= i < self.nodes@.len() ==> (#[trigger] r.0@[i]).bytes@ == sha256_le8(
                    (self.nodes@[i] as u64) ^ r.1.0@[i],
                ) && r.0@[i].wf(),
    {
        let n = self.nodes.len();
        let mut commitments: Vec<Commitment> = Vec::new();
        let mut keys: Vec<u64> = Vec::new();
        let mut i: usize = 0;
        while i < n
            invariant
                i <= n,
                n == self.nodes@.len(),
                commitments@.len() == i,
                keys@.len() == i,
                forall|j: int|
                    0 <= j < i ==> (#[trigger] commitments@[j]).bytes@ == sha256_le8(
                        (self.nodes@[j] as u64) ^ keys@[j],
                    ) && commitments@[j].wf(),
            decreases n - i,
        {
            let key = random_u64();
            let c = hash(self.nodes[i], key);
            commitments.push(c);
            keys.push(key);
            i += 1;
        }
        (commitments, Keys(keys))
    }
}

impl Keys {
    /// The keys at the two endpoints of `edge`.
    pub fn get(&self, edge: Edge) -> (r: (u64, u64))
        requires
            edge.0 < self.0@.len(),
            edge.1 < self.0@.len(),
        ensures
            r.0 == self.0@[edge.0 as int],
            r.1 == self.0@[edge.1 as int],
    {
        (self.0[edge.0], self.0[edge.1])
    }
}

impl Bytes for Edge {
    type Model = Edge;

    open spec fn model(&self) -> Edge {
        *self
    }

    open spec fn mwf(m: Edge) -> bool {
        true
    }

    open spec fn menc(m: Edge) -> Seq<u8> {
        usize::menc(m.0) + usize::menc(m.1)
    }

    open spec fn dec(stream: Seq<u8>) -> Result<(Edge, int), BytesError> {
        match usize::dec(stream) {
            Ok(a) => match usize::dec(stream.skip(a.1)) {
                Ok(b) => Ok((Edge(a.0, b.0), a.1 + b.1)),
                Err(e) => Err(shift_err(e, a.1)),
            },
            Err(e) => Err(e),
        }
    }

    proof fn lemma_enc_dec(m: Edge, rest: Seq<u8>) {
        let full = Self::menc(m) + rest;
        usize::lemma_enc_dec(m.0, usize::menc(m.1) + rest);
        assert(full =~= usize::menc(m.0) + (usize::menc(m.1) + rest));
        assert(usize::dec(full) == Ok::<(usize, int), BytesError>((m.0, 8)));
        assert(full.skip(8) =~= usize::menc(m.1) + rest);
        usize::lemma_enc_dec(m.1, rest);
    }

    proof fn lemma_dec_ok(stream: Seq<u8>) {
        let a = usize::dec(stream)->Ok_0;
        usize::lemma_dec_ok(stream);
        let b = usize::dec(stream.skip(a.1))->Ok_0;
        usize::lemma_dec_ok(stream.skip(a.1));
        assert(Self::menc(Edge(a.0, b.0)) =~= stream.take(a.1 + b.1)) by {
            assert(usize::menc(a.0) == stream.take(a.1));
            assert(usize::menc(b.0) == stream.skip(a.1).take(b.1));
        }
    }

    proof fn lemma_dec_eod(stream: Seq<u8>) {
        usize::lemma_dec_eod(stream);
        if usize::dec(stream) is Ok {
            let a = usize::dec(stream)->Ok_0;
            usize::lemma_dec_ok(stream);
            usize::lemma_dec_eod(stream.skip(a.1));
        }
    }

    proof fn lemma_dec_truncated(stream: Seq<u8>, k: int) {
        let a = usize::dec(stream)->Ok_0;
        usize::lemma_dec_ok(stream);
        let b = usize::dec(stream.skip(a.1))->Ok_0;
        usize::lemma_dec_ok(stream.skip(a.1));
        if k < 8 {
            usize::lemma_dec_truncated(stream, k);
        } else {
            assert(stream.take(k).take(8) =~= stream.take(8));
            assert(stream.take(k) =~= usize::menc(a.0) + stream.take(k).skip(8)) by {
                assert(usize::menc(a.0) == stream.take(8));
            }
            usize::lemma_enc_dec(a.0, stream.take(k).skip(8));
            assert(usize::dec(stream.take(k)) == Ok::<(usize, int), BytesError>((a.0, 8)));
            assert(stream.take(k).skip(8) =~= stream.skip(8).take(k - 8));
            usize::lemma_dec_truncated(stream.skip(8), k - 8);
        }
    }

    fn required_size(&self) -> (n: usize) {
        16
    }

    fn write(&self, writer: &mut BytesWriter) {
        self.0.write(writer);
        self.1.write(writer);
        proof {
            assert(writer@ =~= old(writer)@ + Self::menc(*self));
        }
    }

    fn read(reader: &mut BytesReader) -> (r: Result<Self, BytesError>) {
        let ghost start = *reader;
        let a = usize::read(reader)?;
        proof {
            usize::lemma_dec_ok(start.remaining());
            assert(reader.remaining() =~= start.remaining().skip(8));
        }
        let b = match usize::read(reader) {
            Ok(b) => b,
            Err(e) => {
                proof {
                    let e1 = usize::dec(start.remaining().skip(8))->Err_0;
                    usize::lemma_dec_eod(start.remaining().skip(8));
                    lemma_shift_err_compose(e1, 8, start.pos() as int);
                }
                return Err(e);
            },
        };
        Ok(Edge(a, b))
    }
}


impl<T: Bytes> Bytes for Graph<T> {
    type Model = (Seq<T::Model>, Seq<Edge>);

    open spec fn model(&self) -> (Seq<T::Model>, Seq<Edge>) {
        (models_of(self.nodes@), models_of(self.edges@))
    }

    open spec fn mwf(m: (Seq<T::Model>, Seq<Edge>)) -> bool {
        <Vec<T> as Bytes>::mwf(m.0) && <Vec<Edge> as Bytes>::mwf(m.1)
    }

    open spec fn menc(m: (Seq<T::Model>, Seq<Edge>)) -> Seq<u8> {
        <Vec<T> as Bytes>::menc(m.0) + <Vec<Edge> as Bytes>::menc(m.1)
    }

    open spec fn dec(stream: Seq<u8>) -> Result<((Seq<T::Model>, Seq<Edge>), int), BytesError> {
        match <Vec<T> as Bytes>::dec(stream) {
            Ok(a) => match <Vec<Edge> as Bytes>::dec(stream.skip(a.1)) {
                Ok(b) => Ok(((a.0, b.0), a.1 + b.1)),
                Err(e) => Err(shift_err(e, a.1)),
            },
            Err(e) => Err(e),
        }
    }

    proof fn lemma_enc_dec(m: (Seq<T::Model>, Seq<Edge>), rest: Seq<u8>) {
        let nodes_enc = <Vec<T> as Bytes>::menc(m.0);
        let edges_enc = <Vec<Edge> as Bytes>::menc(m.1);
        let full = Self::menc(m) + rest;
        <Vec<T> as Bytes>::lemma_enc_dec(m.0, edges_enc + rest);
        assert(full =~= nodes_enc + (edges_enc + rest));
        assert(<Vec<T> as Bytes>::dec(full) == Ok::<(Seq<T::Model>, int), BytesError>((
            m.0,
            nodes_enc.len() as int,
        )));
        assert(full.skip(nodes_enc.len() as int) =~= edges_enc + rest);
        <Vec<Edge> as Bytes>::lemma_enc_dec(m.1, rest);
    }

    proof fn lemma_dec_ok(stream: Seq<u8>) {
        let a = <Vec<T> as Bytes>::dec(stream)->Ok_0;
        <Vec<T> as Bytes>::lemma_dec_ok(stream);
        let b = <Vec<Edge> as Bytes>::dec(stream.skip(a.1))->Ok_0;
        <Vec<Edge> as Bytes>::lemma_dec_ok(stream.skip(a.1));
        assert(Self::menc((a.0, b.0)) =~= stream.take(a.1 + b.1)) by {
            assert(<Vec<T> as Bytes>::menc(a.0) == stream.take(a.1));
            assert(<Vec<Edge> as Bytes>::menc(b.0) == stream.skip(a.1).take(b.1));
        }
    }

    proof fn lemma_dec_eod(stream: Seq<u8>) {
        <Vec<T> as Bytes>::lemma_dec_eod(stream);
        if <Vec<T> as Bytes>::dec(stream) is Ok {
            let a = <Vec<T> as Bytes>::dec(stream)->Ok_0;
            <Vec<T> as Bytes>::lemma_dec_ok(stream);
            <Vec<Edge> as Bytes>::lemma_dec_eod(stream.skip(a.1));
        }
    }

    proof fn lemma_dec_truncated(stream: Seq<u8>, k: int) {
        let a = <Vec<T> as Bytes>::dec(stream)->Ok_0;
        <Vec<T> as Bytes>::lemma_dec_ok(stream);
        let b = <Vec<Edge> as Bytes>::dec(stream.skip(a.1))->Ok_0;
        <Vec<Edge> as Bytes>::lemma_dec_ok(stream.skip(a.1));
        if k < a.1 {
            <Vec<T> as Bytes>::lemma_dec_truncated(stream, k);
        } else {
            assert(stream.take(k).take(a.1) =~= stream.take(a.1));
            assert(stream.take(k) =~= <Vec<T> as Bytes>::menc(a.0) + stream.take(k).skip(a.1))
                by {
                assert(<Vec<T> as Bytes>::menc(a.0) == stream.take(a.1));
            }
            <Vec<T> as Bytes>::lemma_enc_dec(a.0, stream.take(k).skip(a.1));
            assert(<Vec<T> as Bytes>::dec(stream.take(k)) == Ok::<
                (Seq<T::Model>, int),
                BytesError,
            >((a.0, a.1)));
            assert(stream.take(k).skip(a.1) =~= stream.skip(a.1).take(k - a.1));
            <Vec<Edge> as Bytes>::lemma_dec_truncated(stream.skip(a.1), k - a.1);
        }
    }

    fn required_size(&self) -> (n: usize) {
        let nodes_size = self.nodes.required_size();
        let edges_size = self.edges.required_size();
        nodes_size + edges_size
    }

    fn write(&self, writer: &mut BytesWriter) {
        self.nodes.write(writer);
        self.edges.write(writer);
        proof {
            assert(writer@ =~= old(writer)@ + Self::menc(self.model()));
        }
    }

    fn read(reader: &mut BytesReader) -> (r: Result<Self, BytesError>) {
        let ghost start = *reader;
        let nodes = <Vec<T>>::read(reader)?;
        proof {
            <Vec<T> as Bytes>::lemma_dec_ok(start.remaining());
            assert(reader.remaining() =~= start.remaining().skip(
                <Vec<T> as Bytes>::dec(start.remaining())->Ok_0.1,
            ));
        }
        let edges = match <Vec<Edge>>::read(reader) {
            Ok(edges) => edges,
            Err(e) => {
                proof {
                    let a = <Vec<T> as Bytes>::dec(start.remaining())->Ok_0;
                    let e1 = <Vec<Edge> as Bytes>::dec(start.remaining().skip(a.1))->Err_0;
                    <Vec<Edge> as Bytes>::lemma_dec_eod(start.remaining().skip(a.1));
                    lemma_shift_err_compose(e1, a.1, start.pos() as int);
                }
                return Err(e);
            },
        };
        Ok(Graph { nodes, edges })
    }
}

} // verus!
