//! The commitment/challenge/response protocol.
//!
//! Per round the prover draws a fresh color relabeling and a fresh 64-bit
//! key per node, commits to every relabeled node color, and later opens the
//! two endpoints of one challenged edge per sub-round.  The verifier checks
//! that each opening matches its commitment and that the two opened colors
//! are distinct true colors.

use vstd::prelude::*;

use crate::codec::{Bytes, BytesError, BytesReader, BytesWriter};
use crate::codec_seq::{models_of, wf_models, enc_models, dec_models, write_seq, read_seq};
use crate::crypto::{Commitment, sha256_le8, random_u64, random_below, commitment_eq};
use crate::graph::{Edge, Graph, Keys, hash};
use crate::sudoku::{Sudoku, cells_of, graph_colors, graph_of, valid_completion};

verus! {

/// One sub-round's 90 node commitments: a fixed-size group on the wire,
/// with no length prefix of its own.
#[derive(Debug)]
pub struct NodeCommitments {
    pub digests: Vec<Commitment>,
}

impl NodeCommitments {
    /// Exactly 90 digests of 32 bytes each.
    pub open spec fn wf(&self) -> bool {
        Self::mwf(self.model())
    }
}

/// The byte length of a group of 32-byte digests.
proof fn lemma_digest_group_len(m: Seq<Seq<u8>>)
    requires
        wf_models::<Commitment>(m),
    ensures
        enc_models::<Commitment>(m).len() == 32 * m.len(),
    decreases m.len(),
{
    if m.len() > 0 {
        assert(wf_models::<Commitment>(m.skip(1))) by {
            assert(forall|i: int| 0 <= i < m.skip(1).len() ==> #[trigger] m.skip(1)[i] == m[i + 1]);
        }
        lemma_digest_group_len(m.skip(1));
    }
}

impl Bytes for NodeCommitments {
    type Model = Seq<Seq<u8>>;

    open spec fn model(&self) -> Seq<Seq<u8>> {
        models_of(self.digests@)
    }

    open spec fn mwf(m: Seq<Seq<u8>>) -> bool {
        m.len() == 90 && wf_models::<Commitment>(m)
    }

    open spec fn menc(m: Seq<Seq<u8>>) -> Seq<u8> {
        enc_models::<Commitment>(m)
    }

    open spec fn dec(stream: Seq<u8>) -> Result<(Seq<Seq<u8>>, int), BytesError> {
        dec_models::<Commitment>(stream, 90)
    }

    proof fn lemma_enc_dec(m: Seq<Seq<u8>>, rest: Seq<u8>) {
        crate::codec_seq::lemma_enc_models_dec::<Commitment>(m, rest);
    }

    proof fn lemma_dec_ok(stream: Seq<u8>) {
        crate::codec_seq::lemma_dec_models_ok::<Commitment>(stream, 90);
    }

    proof fn lemma_dec_eod(stream: Seq<u8>) {
        crate::codec_seq::lemma_dec_models_eod::<Commitment>(stream, 90);
    }

    proof fn lemma_dec_truncated(stream: Seq<u8>, k: int) {
        crate::codec_seq::lemma_dec_models_truncated::<Commitment>(stream, 90, k);
    }

    fn required_size(&self) -> (n: usize) {
        proof {
            lemma_digest_group_len(self.model());
        }
        2880
    }

    fn write(&self, writer: &mut BytesWriter) {
        write_seq::<Commitment>(&self.digests, writer);
    }

    fn read(reader: &mut BytesReader) -> (r: Result<Self, BytesError>) {
        let digests = read_seq::<Commitment>(reader, 90)?;
        Ok(NodeCommitments { digests })
    }
}

/// One opened edge: the two endpoint colors under the round's relabeling
/// and the two endpoint keys.
#[derive(Clone, Copy, Debug, PartialEq, Eq, Structural)]
pub struct Opening {
    pub first_color: u8,
    pub second_color: u8,
    pub first_key: u64,
    pub second_key: u64,
}

impl Bytes for Opening {
    type Model = Opening;

    open spec fn model(&self) -> Opening {
        *self
    }

    open spec fn mwf(m: Opening) -> bool {
        true
    }

    open spec fn menc(m: Opening) -> Seq<u8> {
        seq![m.first_color, m.second_color] + crate::codec::u64_le_bytes(m.first_key)
            + crate::codec::u64_le_bytes(m.second_key)
    }

    open spec fn dec(stream: Seq<u8>) -> Result<(Opening, int), BytesError> {
        if stream.len() >= 18 {
            Ok(
                (
                    Opening {
                        first_color: stream[0],
                        second_color: stream[1],
                        first_key: crate::codec::u64_from_le(stream.subrange(2, 10)),
                        second_key: crate::codec::u64_from_le(stream.subrange(10, 18)),
                    },
                    18,
                ),
            )
        } else if stream.len() < 1 {
            Err(BytesError::EndOfData(0))
        } else if stream.len() < 2 {
            Err(BytesError::EndOfData(1))
        } else if stream.len() < 10 {
            Err(BytesError::EndOfData(2))
        } else {
            Err(BytesError::EndOfData(10))
        }
    }

    proof fn lemma_enc_dec(m: Opening, rest: Seq<u8>) {
        let full = Self::menc(m) + rest;
        assert(full.len() >= 18);
        assert(full[0] == m.first_color);
        assert(full[1] == m.second_color);
        assert(full.subrange(2, 10) =~= crate::codec::u64_le_bytes(m.first_key));
        assert(full.subrange(10, 18) =~= crate::codec::u64_le_bytes(m.second_key));
        crate::codec::lemma_u64_le_round_trip(m.first_key);
        crate::codec::lemma_u64_le_round_trip(m.second_key);
    }

    proof fn lemma_dec_ok(stream: Seq<u8>) {
        let m = Self::dec(stream)->Ok_0.0;
        crate::codec::lemma_u64_le_bytes_of(stream.subrange(2, 10));
        crate::codec::lemma_u64_le_bytes_of(stream.subrange(10, 18));
        assert(Self::menc(m) =~= stream.take(18));
    }

    proof fn lemma_dec_eod(stream: Seq<u8>) {
    }

    proof fn lemma_dec_truncated(stream: Seq<u8>, k: int) {
    }

    fn required_size(&self) -> (n: usize) {
        18
    }

    fn write(&self, writer: &mut BytesWriter) {
        self.first_color.write(writer);
        self.second_color.write(writer);
        self.first_key.write(writer);
        self.second_key.write(writer);
        proof {
            assert(writer@ =~= old(writer)@ + Self::menc(*self));
        }
    }

    fn read(reader: &mut BytesReader) -> (r: Result<Self, BytesError>) {
        let ghost start = *reader;
        let ghost rem = start.remaining();
        let b0 = reader.read(1)?;
        let b1 = match reader.read(1) {
            Ok(v) => v,
            Err(e) => {
                return Err(e);
            },
        };
        let k0 = match reader.read(8) {
            Ok(v) => v,
            Err(e) => {
                return Err(e);
            },
        };
        let k1 = match reader.read(8) {
            Ok(v) => v,
            Err(e) => {
                return Err(e);
            },
        };
        let first_key = (k0[0] as u64) | ((k0[1] as u64) << 8) | ((k0[2] as u64) << 16) | ((
        k0[3] as u64) << 24) | ((k0[4] as u64) << 32) | ((k0[5] as u64) << 40) | ((k0[6] as u64)
            << 48) | ((k0[7] as u64) << 56);
        let second_key = (k1[0] as u64) | ((k1[1] as u64) << 8) | ((k1[2] as u64) << 16) | ((
        k1[3] as u64) << 24) | ((k1[4] as u64) << 32) | ((k1[5] as u64) << 40) | ((k1[6] as u64)
            << 48) | ((k1[7] as u64) << 56);
        proof {
            assert(b0@[0] == rem[0]);
            assert(b1@[0] == rem[1]);
            assert(k0@ =~= rem.subrange(2, 10));
            assert(k1@ =~= rem.subrange(10, 18));
        }
        Ok(Opening { first_color: b0[0], second_color: b1[0], first_key, second_key })
    }
}


/// A per-round color relabeling: entry 0 fixed at 0 (empty stays empty),
/// entries 1..=9 a permutation of the true colors.
pub open spec fn is_color_mapper(m: Seq<u8>) -> bool {
    &&& m.len() == 10
    &&& m[0] == 0
    &&& forall|i: int| 1 <= i < 10 ==> 1 <= #[trigger] m[i] <= 9
    &&& forall|i: int, j: int| 0 <= i < j < 10 ==> m[i] != m[j]
}

/// Draws a fresh color relabeling: a uniformly shuffled permutation of the
/// true colors with the empty color fixed.
#[verifier::loop_isolation(false)]
pub fn random_mapper() -> (m: Vec<u8>)
    ensures
        is_color_mapper(m@),
{
    let mut m: Vec<u8> = Vec::new();
    let mut v: usize = 0;
    while v < 10
        invariant
            v <= 10,
            m@.len() == v,
            forall|i: int| 0 <= i < v ==> #[trigger] m@[i] == i,
        decreases 10 - v,
    {
        m.push(v as u8);
        v += 1;
    }
    let mut i: usize = 1;
    while i < 10
        invariant
            1 <= i <= 10,
            m@.len() == 10,
            m@[0] == 0,
            forall|p: int| 1 <= p < 10 ==> 1 <= #[trigger] m@[p] <= 9,
            forall|p: int, q: int| 0 <= p < q < 10 ==> m@[p] != m@[q],
        decreases 10 - i,
    {
        let j = i + random_below(10 - i);
        let a = m[i];
        let b = m[j];
        m[i] = b;
        m[j] = a;
        i += 1;
    }
    m
}

/// One sub-round's secrets: the color relabeling and the per-node keys.
#[derive(Debug)]
pub struct RoundSecret {
    pub mapper: Vec<u8>,
    pub keys: Keys,
}

impl RoundSecret {
    /// A valid relabeling and one key per node.
    pub open spec fn wf(&self) -> bool {
        is_color_mapper(self.mapper@) && self.keys.0@.len() == 90
    }
}

/// The prover's per-connection state machine: idle, or holding the
/// node colors it committed to together with each sub-round's secrets.
#[derive(Debug)]
pub enum ProverState {
    Idle,
    Committed { colors: Vec<u8>, secrets: Vec<RoundSecret> },
}

impl ProverState {
    /// Ninety in-range node colors and well-formed secrets.
    pub open spec fn wf(&self) -> bool {
        match self {
            ProverState::Idle => true,
            ProverState::Committed { colors, secrets } => {
                &&& colors@.len() == 90
                &&& forall|i: int| 0 <= i < 90 ==> #[trigger] colors@[i] < 10
                &&& secrets@.len() <= MAX_SUB_ROUNDS
                &&& forall|j: int| 0 <= j < secrets@.len() ==> (#[trigger] secrets@[j]).wf()
            },
        }
    }
}

/// The digest the honest prover commits to for node `i` of one sub-round:
/// the hash of the relabeled color XORed with the node's key.
pub open spec fn round_digest_models(colors: Seq<u8>, secret: RoundSecret) -> Seq<Seq<u8>> {
    Seq::new(
        90,
        |i: int| sha256_le8(((secret.mapper@[colors[i] as int]) as u64) ^ secret.keys.0@[i]),
    )
}

/// The commitment batch the honest prover sends for a run of sub-rounds.
pub open spec fn batch_models(colors: Seq<u8>, secrets: Seq<RoundSecret>) -> Seq<Seq<Seq<u8>>> {
    Seq::new(secrets.len(), |j: int| round_digest_models(colors, secrets[j]))
}

/// Commits to the node colors of `graph` for `count` independent
/// sub-rounds: per sub-round a fresh relabeling, fresh keys, and the 90
/// node commitments.
#[verifier::loop_isolation(false)]
pub fn commit(graph: &Graph<u8>, count: usize) -> (r: (Vec<NodeCommitments>, ProverState))
    requires
        graph.nodes@.len() == 90,
        graph.colors_in_range(),
        count <= MAX_SUB_ROUNDS,
    ensures
        r.0@.len() == count,
        forall|j: int| 0 <= j < count ==> (#[trigger] r.0@[j]).wf(),
        r.1 matches ProverState::Committed { colors, secrets } && colors@ == graph.nodes@
            && secrets@.len() == count,
        r.1.wf(),
        ({
            let secrets = r.1->Committed_secrets;
            forall|j: int|
                0 <= j < count ==> (#[trigger] r.0@[j]).model() == round_digest_models(
                    graph.nodes@,
                    secrets@[j],
                )
        }),
{
    let mut batches: Vec<NodeCommitments> = Vec::new();
    let mut secrets: Vec<RoundSecret> = Vec::new();
    let mut j: usize = 0;
    while j < count
        invariant
            j <= count,
            graph.nodes@.len() == 90,
            graph.colors_in_range(),
            batches@.len() == j,
            secrets@.len() == j,
            forall|j2: int| 0 <= j2 < j ==> (#[trigger] batches@[j2]).wf(),
            forall|j2: int| 0 <= j2 < j ==> (#[trigger] secrets@[j2]).wf(),
            forall|j2: int|
                0 <= j2 < j ==> (#[trigger] batches@[j2]).model() == round_digest_models(
                    graph.nodes@,
                    secrets@[j2],
                ),
        decreases count - j,
    {
        let mapper = random_mapper();
        let mut digests: Vec<Commitment> = Vec::new();
        let mut keys: Vec<u64> = Vec::new();
        let mut i: usize = 0;
        while i < 90
            invariant
                i <= 90,
                graph.nodes@.len() == 90,
                graph.colors_in_range(),
                is_color_mapper(mapper@),
                digests@.len() == i,
                keys@.len() == i,
                forall|i2: int|
                    0 <= i2 < i ==> (#[trigger] digests@[i2]).bytes@ == sha256_le8(
                        ((mapper@[graph.nodes@[i2] as int]) as u64) ^ keys@[i2],
                    ) && digests@[i2].wf(),
            decreases 90 - i,
        {
            let key = random_u64();
            let mapped = mapper[graph.nodes[i] as usize];
            let digest = hash(mapped, key);
            digests.push(digest);
            keys.push(key);
            i += 1;
        }
        let secret = RoundSecret { mapper, keys: Keys(keys) };
        let batch = NodeCommitments { digests };
        proof {
            assert(batch.model() =~= round_digest_models(graph.nodes@, secret));
        }
        batches.push(batch);
        secrets.push(secret);
        j += 1;
    }
    let mut colors: Vec<u8> = Vec::new();
    let mut i: usize = 0;
    while i < 90
        invariant
            i <= 90,
            graph.nodes@.len() == 90,
            colors@.len() == i,
            forall|i2: int| 0 <= i2 < i ==> #[trigger] colors@[i2] == graph.nodes@[i2],
        decreases 90 - i,
    {
        colors.push(graph.nodes[i]);
        i += 1;
    }
    proof {
        assert(colors@ =~= graph.nodes@);
    }
    (batches, ProverState::Committed { colors, secrets })
}


/// The most sub-rounds a single request may open: one per edge of the
/// densest graph, a 9×9 puzzle with every cell given.
pub const MAX_SUB_ROUNDS: usize = 1458;

/// The byte length of an encoded vector of sub-round commitment batches.
proof fn lemma_batch_enc_len(m: Seq<Seq<Seq<u8>>>)
    requires
        wf_models::<NodeCommitments>(m),
    ensures
        enc_models::<NodeCommitments>(m).len() == 2880 * m.len(),
    decreases m.len(),
{
    if m.len() > 0 {
        assert(wf_models::<NodeCommitments>(m.skip(1))) by {
            assert(forall|i: int|
                0 <= i < m.skip(1).len() ==> #[trigger] m.skip(1)[i] == m[i + 1]);
        }
        lemma_batch_enc_len(m.skip(1));
        lemma_digest_group_len(m[0]);
    }
}

/// The byte length of an encoded group of openings.
proof fn lemma_openings_enc_len(m: Seq<Opening>)
    ensures
        enc_models::<Opening>(m).len() == 18 * m.len(),
    decreases m.len(),
{
    if m.len() > 0 {
        lemma_openings_enc_len(m.skip(1));
    }
}

/// The byte length of an encoded group of edges.
proof fn lemma_edges_enc_len(m: Seq<Edge>)
    ensures
        enc_models::<Edge>(m).len() == 16 * m.len(),
    decreases m.len(),
{
    if m.len() > 0 {
        lemma_edges_enc_len(m.skip(1));
    }
}

/// A commitment request's count parameter clamped to `1 ..= num_edges`,
/// defaulting to `num_edges`.
pub open spec fn clamped_count(requested: Option<usize>, num_edges: int) -> int {
    match requested {
        Some(c) => if c < 1 {
            1
        } else if c > num_edges {
            num_edges
        } else {
            c as int
        },
        None => num_edges,
    }
}

/// Clamps a requested sub-round count to `1 ..= num_edges`.
pub fn clamp_count(requested: Option<usize>, num_edges: usize) -> (n: usize)
    requires
        num_edges >= 1,
    ensures
        n == clamped_count(requested, num_edges as int),
        1 <= n <= num_edges,
{
    match requested {
        None => num_edges,
        Some(c) => if c < 1 {
            1
        } else if c > num_edges {
            num_edges
        } else {
            c
        },
    }
}

/// Serves a commitments request: rebuilds the graph from the current
/// puzzle, commits to its node colors for the clamped number of
/// sub-rounds, stores the secrets, and returns the encoded batch.
#[verifier::loop_isolation(false)]
pub fn prover_commitments(state: &mut ProverState, sudoku: &Sudoku, requested: Option<usize>) -> (body: Vec<u8>)
    requires
        sudoku.wf(),
    ensures
        final(state).wf(),
        *final(state) matches ProverState::Committed { colors, secrets } && {
            &&& colors@ == graph_colors(sudoku)
            &&& secrets@.len() == clamped_count(requested, 810 + 8 * sudoku.given@.len() as int)
            &&& wf_models::<NodeCommitments>(batch_models(colors@, secrets@))
            &&& body@ == <Vec<NodeCommitments> as Bytes>::menc(batch_models(colors@, secrets@))
            &&& body@.len() == 8 + 2880 * secrets@.len()
        },
{
    let graph = graph_of(sudoku);
    let num_edges = graph.num_edges();
    let count = clamp_count(requested, num_edges);
    proof {
        assert(count <= MAX_SUB_ROUNDS);
    }
    let (batches, new_state) = commit(&graph, count);
    proof {
        assert(wf_models::<NodeCommitments>(models_of(batches@))) by {
            assert(forall|j: int|
                0 <= j < batches@.len() ==> #[trigger] models_of(batches@)[j] == batches@[
                    j
                ].model());
        }
        lemma_batch_enc_len(models_of(batches@));
        assert(models_of(batches@) == batch_models(
            new_state->Committed_colors@,
            new_state->Committed_secrets@,
        )) by {
            assert(models_of(batches@) =~= batch_models(
                new_state->Committed_colors@,
                new_state->Committed_secrets@,
            ));
        }
    }
    let body = batches.to_bytes();
    *state = new_state;
    body
}

/// A failure while handling a challenge request; each maps to a 400-class
/// reply on the wire.
#[derive(Clone, Copy, Debug, PartialEq, Eq, Structural)]
pub enum ProtocolError {
    /// A challenge arrived with no commitments outstanding.
    NotCommitted,
    /// The challenge payload did not decode as an edge list.
    MalformedChallenge,
    /// The challenge edge count differs from the committed sub-round count.
    WrongChallengeCount,
    /// A challenged edge points outside the 90 nodes.
    EdgeOutOfRange,
}

/// The edge list carried by a challenge payload, if it decodes exactly.
pub open spec fn challenge_decode(body: Seq<u8>) -> Option<Seq<Edge>> {
    match <Vec<Edge> as Bytes>::dec(body) {
        Ok(xn) => if xn.1 == body.len() {
            Some(xn.0)
        } else {
            None
        },
        Err(_) => None,
    }
}

/// Every edge endpoint indexes one of the 90 nodes.
pub open spec fn edges_in_range(edges: Seq<Edge>) -> bool {
    forall|j: int| 0 <= j < edges.len() ==> (#[trigger] edges[j]).0 < 90 && edges[j].1 < 90
}

/// The honest opening of one edge in one sub-round.
pub open spec fn opening_of(colors: Seq<u8>, secret: RoundSecret, e: Edge) -> Opening {
    Opening {
        first_color: secret.mapper@[colors[e.0 as int] as int],
        second_color: secret.mapper@[colors[e.1 as int] as int],
        first_key: secret.keys.0@[e.0 as int],
        second_key: secret.keys.0@[e.1 as int],
    }
}

/// The honest openings of a whole challenge.
pub open spec fn openings_models(colors: Seq<u8>, secrets: Seq<RoundSecret>, edges: Seq<Edge>) -> Seq<Opening> {
    Seq::new(edges.len(), |j: int| opening_of(colors, secrets[j], edges[j]))
}

/// Serves a challenge request: decodes the edge list, opens each
/// challenged edge under its sub-round's secrets, clears the per-round
/// state, and returns the encoded openings.
#[verifier::loop_isolation(false)]
pub fn prover_challenges(state: &mut ProverState, body: &[u8]) -> (r: Result<Vec<u8>, ProtocolError>)
    requires
        old(state).wf(),
    ensures
        *final(state) is Idle,
        match r {
            Ok(resp) => *old(state) matches ProverState::Committed { colors, secrets } && {
                &&& challenge_decode(body@) matches Some(edges) && edges.len() == secrets@.len()
                    && edges_in_range(edges) && resp@ == <Vec<Opening> as Bytes>::menc(
                    openings_models(colors@, secrets@, edges),
                )
            },
            Err(ProtocolError::NotCommitted) => *old(state) is Idle,
            Err(ProtocolError::MalformedChallenge) => *old(state) is Committed
                && challenge_decode(body@) is None,
            Err(ProtocolError::WrongChallengeCount) => *old(state) matches ProverState::Committed {
                colors,
                secrets,
            } && challenge_decode(body@) matches Some(edges) && edges.len() != secrets@.len(),
            Err(ProtocolError::EdgeOutOfRange) => *old(state) matches ProverState::Committed {
                colors,
                secrets,
            } && challenge_decode(body@) matches Some(edges) && edges.len() == secrets@.len()
                && !edges_in_range(edges),
        },
{
    let out: Result<Vec<u8>, ProtocolError> = match &*state {
        ProverState::Idle => Err(ProtocolError::NotCommitted),
        ProverState::Committed { colors, secrets } => {
            match <Vec<Edge>>::from_bytes(body) {
                Err(_) => Err(ProtocolError::MalformedChallenge),
                Ok(edges) => {
                    proof {
                        assert(models_of(edges@) =~= edges@);
                    }
                    if edges.len() != secrets.len() {
                        Err(ProtocolError::WrongChallengeCount)
                    } else {
                        let n = edges.len();
                        let mut j: usize = 0;
                        let mut bad = false;
                        while j < n
                            invariant
                                j <= n,
                                n == edges@.len(),
                                !bad ==> forall|j2: int|
                                    0 <= j2 < j ==> (#[trigger] edges@[j2]).0 < 90 && edges@[
                                        j2
                                    ].1 < 90,
                                bad ==> !edges_in_range(edges@),
                            decreases n - j,
                        {
                            let e = edges[j];
                            if e.0 >= 90 || e.1 >= 90 {
                                bad = true;
                                proof {
                                    assert(!((edges@[j as int]).0 < 90 && edges@[j as int].1
                                        < 90));
                                }
                            }
                            j += 1;
                        }
                        if bad {
                            Err(ProtocolError::EdgeOutOfRange)
                        } else {
                            let mut openings: Vec<Opening> = Vec::new();
                            let mut j: usize = 0;
                            while j < n
                                invariant
                                    j <= n,
                                    n == edges@.len() == secrets@.len(),
                                    edges_in_range(edges@),
                                    colors@.len() == 90,
                                    forall|i: int| 0 <= i < 90 ==> #[trigger] colors@[i] < 10,
                                    forall|j2: int|
                                        0 <= j2 < secrets@.len() ==> (#[trigger] secrets@[
                                            j2
                                        ]).wf(),
                                    openings@.len() == j,
                                    forall|j2: int|
                                        0 <= j2 < j ==> #[trigger] openings@[j2] == opening_of(
                                            colors@,
                                            secrets@[j2],
                                            edges@[j2],
                                        ),
                                decreases n - j,
                            {
                                let e = edges[j];
                                let secret = &secrets[j];
                                let o = Opening {
                                    first_color: secret.mapper[colors[e.0] as usize],
                                    second_color: secret.mapper[colors[e.1] as usize],
                                    first_key: secret.keys.0[e.0],
                                    second_key: secret.keys.0[e.1],
                                };
                                openings.push(o);
                                j += 1;
                            }
                            proof {
                                assert(models_of(openings@) =~= openings_models(
                                    colors@,
                                    secrets@,
                                    edges@,
                                ));
                                lemma_openings_enc_len(models_of(openings@));
                                assert(secrets@.len() <= MAX_SUB_ROUNDS);
                            }
                            Ok(openings.to_bytes())
                        }
                    }
                },
            }
        },
    };
    *state = ProverState::Idle;
    out
}


/// A failed verification pass.
#[derive(Clone, Copy, Debug, PartialEq, Eq, Structural)]
pub enum VerificationError {
    /// An opening does not hash back to its commitment: the prover is
    /// cheating or corrupted.
    IncorrectHash,
    /// A response or its length did not match what was challenged.
    InvalidVerificationData,
    /// Two adjacent nodes opened to the same color: the grid breaks a
    /// Sudoku constraint.
    UnsatisfiedConstraint,
    /// An opened color was the empty color: the grid is not finished.
    Unsolved,
}

/// The verifier's check of a run of sub-rounds, from sub-round `j` on:
/// each opening must show two non-empty, distinct colors whose digests
/// match the round's commitments at the challenged edge's endpoints.
pub open spec fn check_rounds(
    comms: Seq<Seq<Seq<u8>>>,
    edges: Seq<Edge>,
    opens: Seq<Opening>,
    j: int,
) -> Result<(), VerificationError>
    decreases edges.len() - j,
{
    if j >= edges.len() {
        Ok(())
    } else {
        let e = edges[j];
        let o = opens[j];
        if o.first_color == 0 || o.second_color == 0 {
            Err(VerificationError::Unsolved)
        } else if o.first_color == o.second_color {
            Err(VerificationError::UnsatisfiedConstraint)
        } else if comms[j][e.0 as int] != sha256_le8((o.first_color as u64) ^ o.first_key) {
            Err(VerificationError::IncorrectHash)
        } else if comms[j][e.1 as int] != sha256_le8((o.second_color as u64) ^ o.second_key) {
            Err(VerificationError::IncorrectHash)
        } else {
            check_rounds(comms, edges, opens, j + 1)
        }
    }
}

/// The commitment models of a decoded batch.
pub open spec fn comms_models(cs: Seq<NodeCommitments>) -> Seq<Seq<Seq<u8>>> {
    Seq::new(cs.len(), |j: int| models_of::<Commitment>(cs[j].digests@))
}

/// The opening list carried by a response payload, if it decodes exactly.
pub open spec fn opening_decode(body: Seq<u8>) -> Option<Seq<Opening>> {
    match <Vec<Opening> as Bytes>::dec(body) {
        Ok(xn) => if xn.1 == body.len() {
            Some(xn.0)
        } else {
            None
        },
        Err(_) => None,
    }
}

/// Ninety digests per sub-round.
pub open spec fn comms_shape_ok(comms: Seq<Seq<Seq<u8>>>) -> bool {
    forall|j: int| 0 <= j < comms.len() ==> (#[trigger] comms[j]).len() == 90
}

/// The verifier's verdict on one whole pass: the response must decode to
/// exactly one opening per challenged edge, and every sub-round must
/// check out; a malformed batch, challenge or response fails the pass.
pub open spec fn pass_verdict(comms: Seq<Seq<Seq<u8>>>, edges: Seq<Edge>, body: Seq<u8>) -> Result<
    (),
    VerificationError,
> {
    if comms.len() != edges.len() || !edges_in_range(edges) || !comms_shape_ok(comms) {
        Err(VerificationError::InvalidVerificationData)
    } else {
        match opening_decode(body) {
            Some(opens) => if opens.len() == edges.len() {
                check_rounds(comms, edges, opens, 0)
            } else {
                Err(VerificationError::InvalidVerificationData)
            },
            None => Err(VerificationError::InvalidVerificationData),
        }
    }
}

/// Decodes a commitment batch; a batch that does not decode exactly fails
/// the pass.
pub fn decode_commitments(body: &[u8]) -> (r: Result<Vec<NodeCommitments>, VerificationError>)
    ensures
        match r {
            Ok(v) => <Vec<NodeCommitments> as Bytes>::dec(body@) matches Ok(xn) && xn.1
                == body@.len() && comms_models(v@) == xn.0,
            Err(e) => e == VerificationError::InvalidVerificationData && !(<Vec<
                NodeCommitments,
            > as Bytes>::dec(body@) matches Ok(xn) && xn.1 == body@.len()),
        },
{
    match <Vec<NodeCommitments>>::from_bytes(body) {
        Ok(v) => {
            proof {
                assert(comms_models(v@) =~= models_of(v@));
            }
            Ok(v)
        },
        Err(_) => Err(VerificationError::InvalidVerificationData),
    }
}

/// Draws `count` challenge edges uniformly from the graph's edge list.
#[verifier::loop_isolation(false)]
pub fn choose_challenge_edges(graph: &Graph<u8>, count: usize) -> (edges: Vec<Edge>)
    requires
        graph.edges@.len() >= 1,
    ensures
        edges@.len() == count,
        forall|j: int| 0 <= j < count ==> graph.edges@.contains(#[trigger] edges@[j]),
{
    let n = graph.edges.len();
    let mut edges: Vec<Edge> = Vec::new();
    let mut j: usize = 0;
    while j < count
        invariant
            j <= count,
            n == graph.edges@.len(),
            n >= 1,
            edges@.len() == j,
            forall|j2: int| 0 <= j2 < j ==> graph.edges@.contains(#[trigger] edges@[j2]),
        decreases count - j,
    {
        let i = random_below(n);
        let e = graph.edges[i];
        proof {
            assert(graph.edges@[i as int] == e);
        }
        edges.push(e);
        j += 1;
    }
    edges
}

/// Encodes a challenge edge list for the wire.
pub fn encode_edges(edges: &Vec<Edge>) -> (body: Vec<u8>)
    requires
        edges@.len() <= MAX_SUB_ROUNDS,
    ensures
        body@ == <Vec<Edge> as Bytes>::menc(edges@),
{
    proof {
        assert(models_of(edges@) =~= edges@);
        lemma_edges_enc_len(edges@);
    }
    edges.to_bytes()
}

/// Checks a decoded response against the commitments and the challenged
/// edges, exactly as [`pass_verdict`] rules.
#[verifier::loop_isolation(false)]
pub fn verify_response(
    commitments: &Vec<NodeCommitments>,
    edges: &Vec<Edge>,
    body: &[u8],
) -> (r: Result<(), VerificationError>)
    ensures
        r == pass_verdict(comms_models(commitments@), edges@, body@),
{
    let ghost comms = comms_models(commitments@);
    let n = edges.len();
    if commitments.len() != n {
        return Err(VerificationError::InvalidVerificationData);
    }
    let mut j: usize = 0;
    while j < n
        invariant
            j <= n,
            n == edges@.len(),
            forall|j2: int| 0 <= j2 < j ==> (#[trigger] edges@[j2]).0 < 90 && edges@[j2].1 < 90,
        decreases n - j,
    {
        let e = edges[j];
        if e.0 >= 90 || e.1 >= 90 {
            proof {
                assert(!((edges@[j as int]).0 < 90 && edges@[j as int].1 < 90));
            }
            return Err(VerificationError::InvalidVerificationData);
        }
        j += 1;
    }
    let mut j: usize = 0;
    while j < n
        invariant
            j <= n,
            n == edges@.len() == commitments@.len(),
            forall|j2: int| 0 <= j2 < j ==> (#[trigger] commitments@[j2]).digests@.len() == 90,
        decreases n - j,
    {
        if commitments[j].digests.len() != 90 {
            proof {
                assert(comms[j as int].len() != 90);
            }
            return Err(VerificationError::InvalidVerificationData);
        }
        j += 1;
    }
    proof {
        assert(edges_in_range(edges@));
        assert(comms_shape_ok(comms)) by {
            assert(forall|j2: int|
                0 <= j2 < comms.len() ==> (#[trigger] comms[j2]).len() == commitments@[
                    j2
                ].digests@.len());
        }
    }
    let openings = match <Vec<Opening>>::from_bytes(body) {
        Ok(v) => v,
        Err(_) => {
            return Err(VerificationError::InvalidVerificationData);
        },
    };
    proof {
        assert(models_of(openings@) =~= openings@);
    }
    if openings.len() != n {
        return Err(VerificationError::InvalidVerificationData);
    }
    let mut j: usize = 0;
    while j < n
        invariant
            j <= n,
            n == edges@.len() == commitments@.len() == openings@.len(),
            comms == comms_models(commitments@),
            edges_in_range(edges@),
            forall|j2: int| 0 <= j2 < n ==> (#[trigger] commitments@[j2]).digests@.len() == 90,
            check_rounds(comms, edges@, openings@, 0) == check_rounds(
                comms,
                edges@,
                openings@,
                j as int,
            ),
        decreases n - j,
    {
        let e = edges[j];
        let o = openings[j];
        if o.first_color == 0 || o.second_color == 0 {
            return Err(VerificationError::Unsolved);
        }
        if o.first_color == o.second_color {
            return Err(VerificationError::UnsatisfiedConstraint);
        }
        let expected_first = hash(o.first_color, o.first_key);
        if !commitment_eq(&commitments[j].digests[e.0], &expected_first) {
            proof {
                assert(comms[j as int][e.0 as int] == commitments@[j as int].digests@[
                    e.0 as int
                ].bytes@);
            }
            return Err(VerificationError::IncorrectHash);
        }
        let expected_second = hash(o.second_color, o.second_key);
        if !commitment_eq(&commitments[j].digests[e.1], &expected_second) {
            proof {
                assert(comms[j as int][e.1 as int] == commitments@[j as int].digests@[
                    e.1 as int
                ].bytes@);
            }
            return Err(VerificationError::IncorrectHash);
        }
        proof {
            assert(comms[j as int][e.0 as int] == commitments@[j as int].digests@[
                e.0 as int
            ].bytes@);
            assert(comms[j as int][e.1 as int] == commitments@[j as int].digests@[
                e.1 as int
            ].bytes@);
        }
        j += 1;
    }
    Ok(())
}


/// Completeness, from sub-round `j` on; see [`lemma_completeness`].
proof fn lemma_completeness_from(
    s: &Sudoku,
    secrets: Seq<RoundSecret>,
    edges: Seq<Edge>,
    j: int,
)
    requires
        s.wf(),
        valid_completion(s, cells_of(s)),
        forall|j2: int| 0 <= j2 < secrets.len() ==> (#[trigger] secrets[j2]).wf(),
        edges.len() == secrets.len(),
        forall|j2: int| 0 <= j2 < edges.len() ==> s.constraint_edge(#[trigger] edges[j2]),
        0 <= j <= edges.len(),
    ensures
        check_rounds(
            batch_models(graph_colors(s), secrets),
            edges,
            openings_models(graph_colors(s), secrets, edges),
            j,
        ) == Ok::<(), VerificationError>(()),
    decreases edges.len() - j,
{
    let colors = graph_colors(s);
    if j < edges.len() {
        crate::sudoku::lemma_graph_colors_split(s);
        crate::sudoku::lemma_completion_to_coloring(s, cells_of(s));
        assert(crate::sudoku::proper_coloring(s, colors));
        let e = edges[j];
        crate::sudoku::lemma_constraint_edge_ordered(s, e);
        let secret = secrets[j];
        let o = openings_models(colors, secrets, edges)[j];
        assert(o == opening_of(colors, secret, e));
        let ca = colors[e.0 as int];
        let cb = colors[e.1 as int];
        assert(1 <= ca <= 9 && 1 <= cb <= 9);
        assert(ca != cb);
        assert(1 <= secret.mapper@[ca as int] <= 9);
        assert(1 <= secret.mapper@[cb as int] <= 9);
        assert(secret.mapper@[ca as int] != secret.mapper@[cb as int]);
        assert(batch_models(colors, secrets)[j] == round_digest_models(colors, secret));
        assert(round_digest_models(colors, secret)[e.0 as int] == sha256_le8(
            ((secret.mapper@[ca as int]) as u64) ^ secret.keys.0@[e.0 as int],
        ));
        assert(round_digest_models(colors, secret)[e.1 as int] == sha256_le8(
            ((secret.mapper@[cb as int]) as u64) ^ secret.keys.0@[e.1 as int],
        ));
        lemma_completeness_from(s, secrets, edges, j + 1);
    }
}

/// Completeness: for a well-formed puzzle whose grid is a valid completed
/// solution, an honest prover passes every sub-round of every challenge
/// over constraint edges, however many rounds are run.
pub proof fn lemma_completeness(s: &Sudoku, secrets: Seq<RoundSecret>, edges: Seq<Edge>)
    requires
        s.wf(),
        valid_completion(s, cells_of(s)),
        forall|j: int| 0 <= j < secrets.len() ==> (#[trigger] secrets[j]).wf(),
        edges.len() == secrets.len(),
        forall|j: int| 0 <= j < edges.len() ==> s.constraint_edge(#[trigger] edges[j]),
    ensures
        check_rounds(
            batch_models(graph_colors(s), secrets),
            edges,
            openings_models(graph_colors(s), secrets, edges),
            0,
        ) == Ok::<(), VerificationError>(()),
{
    lemma_completeness_from(s, secrets, edges, 0);
}

/// Soundness, from sub-round `j` up to the bad one; see
/// [`lemma_soundness`].
proof fn lemma_soundness_from(
    colors: Seq<u8>,
    secrets: Seq<RoundSecret>,
    edges: Seq<Edge>,
    bad: int,
    j: int,
)
    requires
        colors.len() == 90,
        forall|i: int| 0 <= i < 90 ==> #[trigger] colors[i] < 10,
        forall|j2: int| 0 <= j2 < secrets.len() ==> (#[trigger] secrets[j2]).wf(),
        secrets.len() == edges.len(),
        edges_in_range(edges),
        0 <= j <= bad < edges.len(),
        colors[edges[bad].0 as int] == colors[edges[bad].1 as int] || colors[
            edges[bad].0 as int
        ] == 0 || colors[edges[bad].1 as int] == 0,
    ensures
        check_rounds(
            batch_models(colors, secrets),
            edges,
            openings_models(colors, secrets, edges),
            j,
        ) is Err,
    decreases bad - j,
{
    let opens = openings_models(colors, secrets, edges);
    if j == bad {
        let e = edges[bad];
        let secret = secrets[bad];
        let o = opens[bad];
        assert(o == opening_of(colors, secret, e));
        let ca = colors[e.0 as int];
        let cb = colors[e.1 as int];
        if ca == 0 || cb == 0 {
            assert(secret.mapper@[0] == 0);
            assert(o.first_color == 0 || o.second_color == 0);
        } else {
            assert(ca == cb);
            assert(o.first_color == o.second_color);
            assert(1 <= secret.mapper@[ca as int] <= 9);
            assert(o.first_color != 0 && o.second_color != 0);
        }
    } else {
        lemma_soundness_from(colors, secrets, edges, bad, j + 1);
    }
}

/// Soundness, the deterministic core: if any challenged sub-round touches
/// an edge whose raw colors are equal or empty, the honest openings are
/// rejected.  A uniform challenge touches such an edge with probability at
/// least one over the number of edges; that probabilistic amplification is
/// outside what is stated here.
pub proof fn lemma_soundness(
    colors: Seq<u8>,
    secrets: Seq<RoundSecret>,
    edges: Seq<Edge>,
    bad: int,
)
    requires
        colors.len() == 90,
        forall|i: int| 0 <= i < 90 ==> #[trigger] colors[i] < 10,
        forall|j2: int| 0 <= j2 < secrets.len() ==> (#[trigger] secrets[j2]).wf(),
        secrets.len() == edges.len(),
        edges_in_range(edges),
        0 <= bad < edges.len(),
        colors[edges[bad].0 as int] == colors[edges[bad].1 as int] || colors[
            edges[bad].0 as int
        ] == 0 || colors[edges[bad].1 as int] == 0,
    ensures
        check_rounds(
            batch_models(colors, secrets),
            edges,
            openings_models(colors, secrets, edges),
            0,
        ) is Err,
{
    lemma_soundness_from(colors, secrets, edges, bad, 0);
}


/// What a single opening shows when the committed coloring is proper at
/// the challenged edge: two distinct true colors — and, through the fresh
/// per-round relabeling, nothing about which absolute colors they were.
/// That the relabeling and keys look uniformly random is a property of the
/// random source, not stated here.
pub proof fn lemma_opening_shows_two_true_colors(colors: Seq<u8>, secret: RoundSecret, e: Edge)
    requires
        secret.wf(),
        colors.len() == 90,
        e.0 < 90,
        e.1 < 90,
        1 <= colors[e.0 as int] <= 9,
        1 <= colors[e.1 as int] <= 9,
        colors[e.0 as int] != colors[e.1 as int],
    ensures
        ({
            let o = opening_of(colors, secret, e);
            &&& 1 <= o.first_color <= 9
            &&& 1 <= o.second_color <= 9
            &&& o.first_color != o.second_color
        }),
{
}


/// An honestly encoded response decodes back to the very openings.
proof fn lemma_openings_round_trip(opens: Seq<Opening>)
    requires
        opens.len() <= MAX_SUB_ROUNDS,
    ensures
        opening_decode(<Vec<Opening> as Bytes>::menc(opens)) == Some(opens),
{
    lemma_openings_enc_len(opens);
    <Vec<Opening> as Bytes>::lemma_enc_dec(opens, Seq::empty());
    assert(<Vec<Opening> as Bytes>::menc(opens) + Seq::<u8>::empty() =~= <Vec<
        Opening,
    > as Bytes>::menc(opens));
}

/// Completeness on the wire: when the committed puzzle is a valid
/// solution, the verifier's verdict on the honest prover's encoded
/// response is acceptance, for any challenge over constraint edges.
pub proof fn lemma_pass_accepts_honest_prover(
    s: &Sudoku,
    secrets: Seq<RoundSecret>,
    edges: Seq<Edge>,
)
    requires
        s.wf(),
        valid_completion(s, cells_of(s)),
        forall|j: int| 0 <= j < secrets.len() ==> (#[trigger] secrets[j]).wf(),
        edges.len() == secrets.len(),
        edges.len() <= MAX_SUB_ROUNDS,
        forall|j: int| 0 <= j < edges.len() ==> s.constraint_edge(#[trigger] edges[j]),
    ensures
        pass_verdict(
            batch_models(graph_colors(s), secrets),
            edges,
            <Vec<Opening> as Bytes>::menc(
                openings_models(graph_colors(s), secrets, edges),
            ),
        ) == Ok::<(), VerificationError>(()),
{
    let colors = graph_colors(s);
    let comms = batch_models(colors, secrets);
    let opens = openings_models(colors, secrets, edges);
    assert(comms_shape_ok(comms));
    assert(edges_in_range(edges)) by {
        assert forall|j: int|
            0 <= j < edges.len() implies (#[trigger] edges[j]).0 < 90 && edges[j].1 < 90 by {
            crate::sudoku::lemma_constraint_edge_ordered(s, edges[j]);
        }
    }
    lemma_openings_round_trip(opens);
    lemma_completeness(s, secrets, edges);
}

/// Soundness on the wire: when some challenged sub-round touches an edge
/// whose committed colors are equal or empty, the verifier rejects the
/// honest prover's encoded response.
pub proof fn lemma_pass_rejects_bad_edge(
    colors: Seq<u8>,
    secrets: Seq<RoundSecret>,
    edges: Seq<Edge>,
    bad: int,
)
    requires
        colors.len() == 90,
        forall|i: int| 0 <= i < 90 ==> #[trigger] colors[i] < 10,
        forall|j2: int| 0 <= j2 < secrets.len() ==> (#[trigger] secrets[j2]).wf(),
        secrets.len() == edges.len(),
        edges.len() <= MAX_SUB_ROUNDS,
        edges_in_range(edges),
        0 <= bad < edges.len(),
        colors[edges[bad].0 as int] == colors[edges[bad].1 as int] || colors[
            edges[bad].0 as int
        ] == 0 || colors[edges[bad].1 as int] == 0,
    ensures
        pass_verdict(
            batch_models(colors, secrets),
            edges,
            <Vec<Opening> as Bytes>::menc(openings_models(colors, secrets, edges)),
        ) is Err,
{
    let comms = batch_models(colors, secrets);
    let opens = openings_models(colors, secrets, edges);
    assert(comms_shape_ok(comms));
    lemma_openings_round_trip(opens);
    lemma_soundness(colors, secrets, edges, bad);
}

} // verus!
