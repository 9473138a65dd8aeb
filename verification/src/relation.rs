//! Relation records: per-type family descriptors and per-instance edge
//! lists, together with their byte encodings.
//!
//! A `FamilyDescriptor` records, per entity type, the declared child and
//! sibling stores with their deletion behaviours.  An `EntityRelations`
//! record lists the outgoing free named edges of one entity; an absent
//! record means no edges.  Both are stored as length-prefixed binary
//! records; every decoder is proved to invert its encoder.

use vstd::prelude::*;
use vstd::utf8::encode_utf8;
use crate::DeletionBehaviour;
use crate::kv::{
    DbView, family_tree, family_tree_name, kv_del, kv_get, kv_put, rel_tree, rel_tree_name,
    tree_of, Store,
};
use vstd::string::StringExecFns;
use crate::codec::{
    chunk_enc, lemma_read_chunk_at, lemma_read_str_at, lemma_read_u32_at, lemma_read_u64_at,
    read_chunk, read_chunk_at, read_str, read_str_at, read_u32, read_u32_at, read_u64, read_u64_at,
    str_enc, sub_vec, u32_be, u64_be, write_chunk, write_str, write_u32, write_u64,
};

verus! {

// ---------------------------------------------------------------------
// Deletion behaviour tags
// ---------------------------------------------------------------------

/// The wire form of a deletion behaviour: a one-byte discriminator.
pub open spec fn behaviour_tag(b: DeletionBehaviour) -> u8 {
    match b {
        DeletionBehaviour::Cascade => 0,
        DeletionBehaviour::BreakLink => 1,
        DeletionBehaviour::Error => 2,
    }
}

/// Reads a behaviour tag at position `p`.
pub open spec fn read_behaviour(s: Seq<u8>, p: int) -> Option<(DeletionBehaviour, int)> {
    if 0 <= p < s.len() {
        if s[p] == 0 {
            Some((DeletionBehaviour::Cascade, p + 1))
        } else if s[p] == 1 {
            Some((DeletionBehaviour::BreakLink, p + 1))
        } else if s[p] == 2 {
            Some((DeletionBehaviour::Error, p + 1))
        } else {
            None
        }
    } else {
        None
    }
}

pub proof fn lemma_read_behaviour_at(s: Seq<u8>, p: int, b: DeletionBehaviour)
    requires
        0 <= p < s.len(),
        s[p] == behaviour_tag(b),
    ensures
        read_behaviour(s, p) == Some((b, p + 1)),
{
}

/// Appends the behaviour tag.
pub fn write_behaviour(out: &mut Vec<u8>, b: DeletionBehaviour)
    ensures
        final(out)@ == old(out)@ + seq![behaviour_tag(b)],
{
    let t: u8 = match b {
        DeletionBehaviour::Cascade => 0,
        DeletionBehaviour::BreakLink => 1,
        DeletionBehaviour::Error => 2,
    };
    out.push(t);
    assert(out@ =~= old(out)@ + seq![behaviour_tag(b)]);
}

/// Reads a behaviour tag at position `p`.
pub fn read_behaviour_at(s: &Vec<u8>, p: usize) -> (r: Option<(DeletionBehaviour, usize)>)
    ensures
        match r {
            Some((b, q)) => read_behaviour(s@, p as int) == Some((b, q as int)),
            None => read_behaviour(s@, p as int) is None,
        },
{
    if p < s.len() {
        let t = s[p];
        if t == 0 {
            Some((DeletionBehaviour::Cascade, p + 1))
        } else if t == 1 {
            Some((DeletionBehaviour::BreakLink, p + 1))
        } else if t == 2 {
            Some((DeletionBehaviour::Error, p + 1))
        } else {
            None
        }
    } else {
        None
    }
}

// ---------------------------------------------------------------------
// Optional strings
// ---------------------------------------------------------------------

/// The wire form of an optional edge name: a presence byte, then the
/// string when present.
pub open spec fn opt_str_enc(o: Option<Seq<char>>) -> Seq<u8> {
    match o {
        None => seq![0u8],
        Some(s) => seq![1u8] + str_enc(s),
    }
}

/// Reads an optional string at position `p`.
pub open spec fn read_opt_str(s: Seq<u8>, p: int) -> Option<(Option<Seq<char>>, int)> {
    if 0 <= p < s.len() {
        if s[p] == 0 {
            Some((None, p + 1))
        } else if s[p] == 1 {
            match read_str(s, p + 1) {
                Some((t, q)) => Some((Some(t), q)),
                None => None,
            }
        } else {
            None
        }
    } else {
        None
    }
}

pub proof fn lemma_read_opt_str_at(s: Seq<u8>, p: int, o: Option<Seq<char>>)
    requires
        0 <= p,
        (o matches Some(t) ==> encode_utf8(t).len() <= u64::MAX),
        p + opt_str_enc(o).len() <= s.len(),
        s.subrange(p, p + opt_str_enc(o).len() as int) == opt_str_enc(o),
    ensures
        read_opt_str(s, p) == Some((o, p + opt_str_enc(o).len())),
{
    let whole = s.subrange(p, p + opt_str_enc(o).len() as int);
    assert(s[p] == whole[0]);
    match o {
        None => {},
        Some(t) => {
            assert(s.subrange(p + 1, p + 1 + str_enc(t).len()) =~= whole.subrange(
                1,
                1 + str_enc(t).len() as int,
            ));
            assert(whole.subrange(1, 1 + str_enc(t).len() as int) =~= str_enc(t));
            lemma_read_str_at(s, p + 1, t);
        },
    }
}

/// Appends an optional string.
pub fn write_opt_str(out: &mut Vec<u8>, o: &Option<String>)
    ensures
        final(out)@ == old(out)@ + opt_str_enc(match o {
            Some(s) => Some(s@),
            None => None,
        }),
{
    match o {
        None => {
            out.push(0u8);
            assert(out@ =~= old(out)@ + opt_str_enc(None));
        },
        Some(s) => {
            out.push(1u8);
            write_str(out, s);
            assert(out@ =~= old(out)@ + opt_str_enc(Some(s@)));
        },
    }
}

/// Reads an optional string at position `p`.
pub fn read_opt_str_at(s: &Vec<u8>, p: usize) -> (r: Option<(Option<String>, usize)>)
    ensures
        match r {
            Some((o, q)) => read_opt_str(s@, p as int) == Some(
                (
                    match o {
                        Some(t) => Some(t@),
                        None => None,
                    },
                    q as int,
                ),
            ),
            None => read_opt_str(s@, p as int) is None,
        },
{
    if p < s.len() {
        let t = s[p];
        if t == 0 {
            Some((None, p + 1))
        } else if t == 1 {
            match read_str_at(s, p + 1) {
                Some((v, q)) => Some((Some(v), q)),
                None => None,
            }
        } else {
            None
        }
    } else {
        None
    }
}

// ---------------------------------------------------------------------
// Edges
// ---------------------------------------------------------------------

/// The mathematical content of one outgoing edge.
pub struct EdgeView {
    pub peer_store: Seq<char>,
    pub peer_key: Seq<u8>,
    pub name: Option<Seq<char>>,
    pub local: DeletionBehaviour,
    pub peer: DeletionBehaviour,
}

/// One outgoing free named relation edge: the peer's store and encoded
/// key, the optional edge name, and the two deletion behaviours — what
/// deleting this side does (`local`) and what deleting the peer does
/// (`peer`).
pub struct Edge {
    pub peer_store: String,
    pub peer_key: Vec<u8>,
    pub name: Option<String>,
    pub local: DeletionBehaviour,
    pub peer: DeletionBehaviour,
}

impl View for Edge {
    type V = EdgeView;

    open spec fn view(&self) -> EdgeView {
        EdgeView {
            peer_store: self.peer_store@,
            peer_key: self.peer_key@,
            name: match self.name {
                Some(n) => Some(n@),
                None => None,
            },
            local: self.local,
            peer: self.peer,
        }
    }
}

impl Clone for Edge {
    fn clone(&self) -> (r: Self)
        ensures
            r@ == self@,
    {
        Edge {
            peer_store: self.peer_store.clone(),
            peer_key: self.peer_key.clone(),
            name: match &self.name {
                Some(n) => Some(n.clone()),
                None => None,
            },
            local: self.local,
            peer: self.peer,
        }
    }
}

/// The edge's strings and key fit in length-prefixed fields.
pub open spec fn edge_wf(e: EdgeView) -> bool {
    &&& encode_utf8(e.peer_store).len() <= u64::MAX
    &&& e.peer_key.len() <= u64::MAX
    &&& (e.name matches Some(n) ==> encode_utf8(n).len() <= u64::MAX)
}

/// The wire form of one edge.
pub open spec fn edge_enc(e: EdgeView) -> Seq<u8> {
    str_enc(e.peer_store) + chunk_enc(e.peer_key) + opt_str_enc(e.name) + seq![
        behaviour_tag(e.local),
        behaviour_tag(e.peer),
    ]
}

/// Reads one edge at position `p`.
pub open spec fn read_edge(s: Seq<u8>, p: int) -> Option<(EdgeView, int)> {
    match read_str(s, p) {
        Some((store, p1)) => match read_chunk(s, p1) {
            Some((key, p2)) => match read_opt_str(s, p2) {
                Some((name, p3)) => match read_behaviour(s, p3) {
                    Some((local, p4)) => match read_behaviour(s, p4) {
                        Some((peer, p5)) => Some(
                            (
                                EdgeView {
                                    peer_store: store,
                                    peer_key: key,
                                    name,
                                    local,
                                    peer,
                                },
                                p5,
                            ),
                        ),
                        None => None,
                    },
                    None => None,
                },
                None => None,
            },
            None => None,
        },
        None => None,
    }
}

/// Reading an edge where one was written yields it back.
#[verifier::rlimit(60)]
pub proof fn lemma_read_edge_at(s: Seq<u8>, p: int, e: EdgeView)
    requires
        0 <= p,
        edge_wf(e),
        p + edge_enc(e).len() <= s.len(),
        s.subrange(p, p + edge_enc(e).len() as int) == edge_enc(e),
    ensures
        read_edge(s, p) == Some((e, p + edge_enc(e).len())),
{
    let whole = s.subrange(p, p + edge_enc(e).len() as int);
    let l1 = str_enc(e.peer_store).len() as int;
    let l2 = chunk_enc(e.peer_key).len() as int;
    let l3 = opt_str_enc(e.name).len() as int;
    assert(s.subrange(p, p + l1) =~= whole.subrange(0, l1));
    assert(whole.subrange(0, l1) =~= str_enc(e.peer_store));
    lemma_read_str_at(s, p, e.peer_store);
    assert(s.subrange(p + l1, p + l1 + l2) =~= whole.subrange(l1, l1 + l2));
    assert(whole.subrange(l1, l1 + l2) =~= chunk_enc(e.peer_key));
    lemma_read_chunk_at(s, p + l1, e.peer_key);
    assert(s.subrange(p + l1 + l2, p + l1 + l2 + l3) =~= whole.subrange(l1 + l2, l1 + l2 + l3));
    assert(whole.subrange(l1 + l2, l1 + l2 + l3) =~= opt_str_enc(e.name));
    lemma_read_opt_str_at(s, p + l1 + l2, e.name);
    assert(s[p + l1 + l2 + l3] == whole[l1 + l2 + l3]);
    assert(s[p + l1 + l2 + l3 + 1] == whole[l1 + l2 + l3 + 1]);
    assert(whole[l1 + l2 + l3] == behaviour_tag(e.local));
    assert(whole[l1 + l2 + l3 + 1] == behaviour_tag(e.peer));
    lemma_read_behaviour_at(s, p + l1 + l2 + l3, e.local);
    lemma_read_behaviour_at(s, p + l1 + l2 + l3 + 1, e.peer);
}

/// Appends one edge, and shows in passing that a real edge always fits
/// its wire form.
pub fn write_edge(out: &mut Vec<u8>, e: &Edge)
    ensures
        final(out)@ == old(out)@ + edge_enc(e@),
        edge_wf(e@),
{
    write_str(out, &e.peer_store);
    write_chunk(out, &e.peer_key);
    write_opt_str(out, &e.name);
    write_behaviour(out, e.local);
    write_behaviour(out, e.peer);
    let total = out.len();
    proof {
        assert(out@.len() == total);
        assert(encode_utf8(e@.peer_store).len() <= total);
        assert(e@.peer_key.len() <= total);
        assert(e@.name matches Some(n) ==> encode_utf8(n).len() <= total);
    }
    assert(out@ =~= old(out)@ + edge_enc(e@));
}

/// Reads one edge at position `p`.
pub fn read_edge_at(s: &Vec<u8>, p: usize) -> (r: Option<(Edge, usize)>)
    ensures
        match r {
            Some((e, q)) => read_edge(s@, p as int) == Some((e@, q as int)),
            None => read_edge(s@, p as int) is None,
        },
{
    match read_str_at(s, p) {
        Some((store, p1)) => match read_chunk_at(s, p1) {
            Some((key, p2)) => match read_opt_str_at(s, p2) {
                Some((name, p3)) => match read_behaviour_at(s, p3) {
                    Some((local, p4)) => match read_behaviour_at(s, p4) {
                        Some((peer, p5)) => Some(
                            (
                                Edge {
                                    peer_store: store,
                                    peer_key: key,
                                    name,
                                    local,
                                    peer,
                                },
                                p5,
                            ),
                        ),
                        None => None,
                    },
                    None => None,
                },
                None => None,
            },
            None => None,
        },
        None => None,
    }
}


// ---------------------------------------------------------------------
// Edge lists
// ---------------------------------------------------------------------

/// The concatenated wire forms of a list of edges.
pub open spec fn edges_enc(s: Seq<EdgeView>) -> Seq<u8>
    decreases s.len(),
{
    if s.len() == 0 {
        Seq::empty()
    } else {
        edge_enc(s[0]) + edges_enc(s.skip(1))
    }
}

/// Every edge of the list fits its wire form.
pub open spec fn edges_wf(s: Seq<EdgeView>) -> bool {
    forall|i: int| 0 <= i < s.len() ==> edge_wf(#[trigger] s[i])
}

/// Reads `n` consecutive edges at position `p`.
pub open spec fn read_edges(b: Seq<u8>, p: int, n: nat) -> Option<(Seq<EdgeView>, int)>
    decreases n,
{
    if n == 0 {
        Some((Seq::empty(), p))
    } else {
        match read_edge(b, p) {
            Some((e, q)) => match read_edges(b, q, (n - 1) as nat) {
                Some((rest, r)) => Some((seq![e] + rest, r)),
                None => None,
            },
            None => None,
        }
    }
}

/// The wire form of a whole relations record: an edge count, then the
/// edges in insertion order.
pub open spec fn rels_enc(s: Seq<EdgeView>) -> Seq<u8> {
    u64_be(s.len() as u64) + edges_enc(s)
}

/// Decodes a whole relations record; the record must be consumed exactly.
pub open spec fn rels_dec(b: Seq<u8>) -> Option<Seq<EdgeView>> {
    match read_u64(b, 0) {
        Some((n, p)) => match read_edges(b, p, n as nat) {
            Some((s, q)) => if q == b.len() {
                Some(s)
            } else {
                None
            },
            None => None,
        },
        None => None,
    }
}

/// Appending one edge extends the concatenated wire form at the end.
pub proof fn lemma_edges_enc_push(s: Seq<EdgeView>, e: EdgeView)
    ensures
        edges_enc(s.push(e)) == edges_enc(s) + edge_enc(e),
    decreases s.len(),
{
    if s.len() == 0 {
        assert(s.push(e)[0] == e);
        assert(s.push(e).skip(1) =~= Seq::<EdgeView>::empty());
        assert(edges_enc(s.push(e)) == edge_enc(e) + edges_enc(Seq::<EdgeView>::empty()));
        assert(edges_enc(Seq::<EdgeView>::empty()) == Seq::<u8>::empty());
        assert(edge_enc(e) + Seq::<u8>::empty() =~= edge_enc(e));
        assert(edges_enc(s) == Seq::<u8>::empty());
        assert(Seq::<u8>::empty() + edge_enc(e) =~= edge_enc(e));
    } else {
        assert(s.push(e)[0] == s[0]);
        assert(s.push(e).skip(1) =~= s.skip(1).push(e));
        lemma_edges_enc_push(s.skip(1), e);
        assert(edges_enc(s.push(e)) == edge_enc(s[0]) + (edges_enc(s.skip(1)) + edge_enc(e)));
        assert(edges_enc(s) == edge_enc(s[0]) + edges_enc(s.skip(1)));
        assert(edge_enc(s[0]) + (edges_enc(s.skip(1)) + edge_enc(e)) =~= (edge_enc(s[0])
            + edges_enc(s.skip(1))) + edge_enc(e));
    }
}

#[verifier::rlimit(60)]
proof fn lemma_read_edges_at(b: Seq<u8>, p: int, s: Seq<EdgeView>)
    requires
        0 <= p,
        edges_wf(s),
        p + edges_enc(s).len() <= b.len(),
        b.subrange(p, p + edges_enc(s).len() as int) == edges_enc(s),
    ensures
        read_edges(b, p, s.len()) == Some((s, p + edges_enc(s).len())),
    decreases s.len(),
{
    if s.len() == 0 {
    } else {
        let whole = b.subrange(p, p + edges_enc(s).len() as int);
        let l0 = edge_enc(s[0]).len() as int;
        assert(b.subrange(p, p + l0) =~= whole.subrange(0, l0));
        assert(whole.subrange(0, l0) =~= edge_enc(s[0]));
        lemma_read_edge_at(b, p, s[0]);
        assert(b.subrange(p + l0, p + edges_enc(s).len()) =~= whole.subrange(
            l0,
            edges_enc(s).len() as int,
        ));
        assert(whole.subrange(l0, edges_enc(s).len() as int) =~= edges_enc(s.skip(1)));
        lemma_read_edges_at(b, p + l0, s.skip(1));
        assert(seq![s[0]] + s.skip(1) =~= s);
    }
}

/// Decoding a relations record where one was written yields it back.
pub proof fn lemma_rels_round_trip(s: Seq<EdgeView>)
    requires
        edges_wf(s),
        s.len() <= u64::MAX,
    ensures
        rels_dec(rels_enc(s)) == Some(s),
{
    let b = rels_enc(s);
    assert(b.subrange(0, 8) =~= u64_be(s.len() as u64));
    lemma_read_u64_at(b, 0, s.len() as u64);
    assert(b.subrange(8, b.len() as int) =~= edges_enc(s));
    lemma_read_edges_at(b, 8, s);
}

// ---------------------------------------------------------------------
// Per-instance relation records
// ---------------------------------------------------------------------

/// The outgoing free named edges of one entity, in insertion order.  An
/// absent stored record is read back as an empty one.
pub struct EntityRelations {
    pub edges: Vec<Edge>,
}

impl View for EntityRelations {
    type V = Seq<EdgeView>;

    open spec fn view(&self) -> Seq<EdgeView> {
        self.edges@.map_values(|e: Edge| e@)
    }
}

impl EntityRelations {
    /// A record with no edges.
    pub fn empty() -> (r: EntityRelations)
        ensures
            r@ == Seq::<EdgeView>::empty(),
    {
        let r = EntityRelations { edges: Vec::new() };
        assert(r@ =~= Seq::<EdgeView>::empty());
        r
    }

    /// Encodes the record; a record held in memory always fits the wire
    /// form.
    pub fn to_bytes(&self) -> (r: Vec<u8>)
        ensures
            r@ == rels_enc(self@),
            edges_wf(self@),
            self@.len() <= u64::MAX,
    {
        let mut out: Vec<u8> = Vec::new();
        let n: u64 = self.edges.len() as u64;
        write_u64(&mut out, n);
        let mut i: usize = 0;
        while i < self.edges.len()
            invariant
                i <= self.edges@.len(),
                n == self.edges@.len(),
                out@ == u64_be(n) + edges_enc(self@.take(i as int)),
                forall|j: int| 0 <= j < i ==> edge_wf(#[trigger] self@[j]),
            decreases self.edges@.len() - i,
        {
            proof {
                assert(self@.take(i + 1) =~= self@.take(i as int).push(self@[i as int]));
                lemma_edges_enc_push(self@.take(i as int), self@[i as int]);
            }
            write_edge(&mut out, &self.edges[i]);
            i = i + 1;
        }
        assert(self@.take(self.edges@.len() as int) =~= self@);
        out
    }

    /// Decodes a stored record.
    pub fn from_bytes(b: &Vec<u8>) -> (r: Option<EntityRelations>)
        ensures
            match r {
                Some(rr) => rels_dec(b@) == Some(rr@),
                None => rels_dec(b@) is None,
            },
    {
        let parsed = read_u64_at(b, 0);
        match parsed {
            None => None,
            Some((n, start)) => {
                let mut acc: Vec<Edge> = Vec::new();
                let mut pos: usize = start;
                let mut count: u64 = 0;
                while count < n
                    invariant
                        count <= n,
                        read_u64(b@, 0) == Some((n, start as int)),
                        read_edges(b@, start as int, n as nat) == (match read_edges(
                            b@,
                            pos as int,
                            (n - count) as nat,
                        ) {
                            Some((rest, q)) => Some(
                                (acc@.map_values(|e: Edge| e@) + rest, q),
                            ),
                            None => None,
                        }),
                    decreases n - count,
                {
                    match read_edge_at(b, pos) {
                        Some((e, q)) => {
                            proof {
                                let m = (n - count) as nat;
                                assert(read_edges(b@, pos as int, m) == (match read_edges(
                                    b@,
                                    q as int,
                                    (m - 1) as nat,
                                ) {
                                    Some((rest, r)) => Some((seq![e@] + rest, r)),
                                    None => None,
                                }));
                            }
                            let ghost old_acc = acc@;
                            acc.push(e);
                            proof {
                                assert(acc@.map_values(|ed: Edge| ed@) =~= old_acc.map_values(
                                    |ed: Edge| ed@,
                                ).push(e@));
                                assert forall|rest: Seq<EdgeView>|
                                    old_acc.map_values(|ed: Edge| ed@) + (seq![e@] + rest) =~= acc@
                                        .map_values(|ed: Edge| ed@) + rest by {}
                            }
                            pos = q;
                            count = count + 1;
                        },
                        None => {
                            proof {
                                assert(read_edges(b@, pos as int, (n - count) as nat) is None);
                                assert(read_edges(b@, start as int, n as nat) is None);
                                assert(read_u64(b@, 0) == Some((n, start as int)));
                                assert(rels_dec(b@) is None);
                            }
                            return None;
                        },
                    }
                }
                assert(read_edges(b@, pos as int, 0) == Some((Seq::<EdgeView>::empty(), pos as int)));
                assert(acc@.map_values(|e: Edge| e@) + Seq::<EdgeView>::empty() =~= acc@.map_values(
                    |e: Edge| e@,
                ));
                if pos == b.len() {
                    Some(EntityRelations { edges: acc })
                } else {
                    None
                }
            },
        }
    }
}

// ---------------------------------------------------------------------
// Declared relation lists
// ---------------------------------------------------------------------

/// The mathematical content of one declared relation: target store name
/// and behaviour.
pub open spec fn decl_view(d: (String, DeletionBehaviour)) -> (Seq<char>, DeletionBehaviour) {
    (d.0@, d.1)
}

/// The wire form of one declared relation.
pub open spec fn decl_enc(d: (Seq<char>, DeletionBehaviour)) -> Seq<u8> {
    str_enc(d.0) + seq![behaviour_tag(d.1)]
}

/// The concatenated wire forms of a declaration list.
pub open spec fn decls_enc(s: Seq<(Seq<char>, DeletionBehaviour)>) -> Seq<u8>
    decreases s.len(),
{
    if s.len() == 0 {
        Seq::empty()
    } else {
        decl_enc(s[0]) + decls_enc(s.skip(1))
    }
}

/// Every declared name of the list fits its wire form.
pub open spec fn decls_wf(s: Seq<(Seq<char>, DeletionBehaviour)>) -> bool {
    forall|i: int| 0 <= i < s.len() ==> encode_utf8((#[trigger] s[i]).0).len() <= u64::MAX
}

/// Reads one declared relation at position `p`.
pub open spec fn read_decl(b: Seq<u8>, p: int) -> Option<((Seq<char>, DeletionBehaviour), int)> {
    match read_str(b, p) {
        Some((name, q)) => match read_behaviour(b, q) {
            Some((beh, r)) => Some(((name, beh), r)),
            None => None,
        },
        None => None,
    }
}

/// Reads `n` consecutive declared relations at position `p`.
pub open spec fn read_decls(b: Seq<u8>, p: int, n: nat) -> Option<
    (Seq<(Seq<char>, DeletionBehaviour)>, int),
>
    decreases n,
{
    if n == 0 {
        Some((Seq::empty(), p))
    } else {
        match read_decl(b, p) {
            Some((d, q)) => match read_decls(b, q, (n - 1) as nat) {
                Some((rest, r)) => Some((seq![d] + rest, r)),
                None => None,
            },
            None => None,
        }
    }
}

pub proof fn lemma_read_decl_at(b: Seq<u8>, p: int, d: (Seq<char>, DeletionBehaviour))
    requires
        0 <= p,
        encode_utf8(d.0).len() <= u64::MAX,
        p + decl_enc(d).len() <= b.len(),
        b.subrange(p, p + decl_enc(d).len() as int) == decl_enc(d),
    ensures
        read_decl(b, p) == Some((d, p + decl_enc(d).len())),
{
    let whole = b.subrange(p, p + decl_enc(d).len() as int);
    let l1 = str_enc(d.0).len() as int;
    assert(b.subrange(p, p + l1) =~= whole.subrange(0, l1));
    assert(whole.subrange(0, l1) =~= str_enc(d.0));
    lemma_read_str_at(b, p, d.0);
    assert(b[p + l1] == whole[l1]);
    assert(whole[l1] == behaviour_tag(d.1));
    lemma_read_behaviour_at(b, p + l1, d.1);
}

/// Appending one declaration extends the concatenated wire form at the
/// end.
pub proof fn lemma_decls_enc_push(s: Seq<(Seq<char>, DeletionBehaviour)>, d: (Seq<char>, DeletionBehaviour))
    ensures
        decls_enc(s.push(d)) == decls_enc(s) + decl_enc(d),
    decreases s.len(),
{
    if s.len() == 0 {
        assert(s.push(d)[0] == d);
        assert(s.push(d).skip(1) =~= Seq::<(Seq<char>, DeletionBehaviour)>::empty());
        assert(decls_enc(s.push(d)) == decl_enc(d) + decls_enc(
            Seq::<(Seq<char>, DeletionBehaviour)>::empty(),
        ));
        assert(decls_enc(Seq::<(Seq<char>, DeletionBehaviour)>::empty()) == Seq::<u8>::empty());
        assert(decl_enc(d) + Seq::<u8>::empty() =~= decl_enc(d));
        assert(decls_enc(s) == Seq::<u8>::empty());
        assert(Seq::<u8>::empty() + decl_enc(d) =~= decl_enc(d));
    } else {
        assert(s.push(d)[0] == s[0]);
        assert(s.push(d).skip(1) =~= s.skip(1).push(d));
        lemma_decls_enc_push(s.skip(1), d);
        assert(decls_enc(s.push(d)) == decl_enc(s[0]) + (decls_enc(s.skip(1)) + decl_enc(d)));
        assert(decls_enc(s) == decl_enc(s[0]) + decls_enc(s.skip(1)));
        assert(decl_enc(s[0]) + (decls_enc(s.skip(1)) + decl_enc(d)) =~= (decl_enc(s[0])
            + decls_enc(s.skip(1))) + decl_enc(d));
    }
}

pub proof fn lemma_read_decls_at(b: Seq<u8>, p: int, s: Seq<(Seq<char>, DeletionBehaviour)>)
    requires
        0 <= p,
        decls_wf(s),
        p + decls_enc(s).len() <= b.len(),
        b.subrange(p, p + decls_enc(s).len() as int) == decls_enc(s),
    ensures
        read_decls(b, p, s.len()) == Some((s, p + decls_enc(s).len())),
    decreases s.len(),
{
    if s.len() == 0 {
    } else {
        let whole = b.subrange(p, p + decls_enc(s).len() as int);
        let l0 = decl_enc(s[0]).len() as int;
        assert(b.subrange(p, p + l0) =~= whole.subrange(0, l0));
        assert(whole.subrange(0, l0) =~= decl_enc(s[0]));
        lemma_read_decl_at(b, p, s[0]);
        assert(b.subrange(p + l0, p + decls_enc(s).len()) =~= whole.subrange(
            l0,
            decls_enc(s).len() as int,
        ));
        assert(whole.subrange(l0, decls_enc(s).len() as int) =~= decls_enc(s.skip(1)));
        lemma_read_decls_at(b, p + l0, s.skip(1));
        assert(seq![s[0]] + s.skip(1) =~= s);
    }
}

/// Appends one declared relation.
pub fn write_decl(out: &mut Vec<u8>, d: &(String, DeletionBehaviour))
    ensures
        final(out)@ == old(out)@ + decl_enc(decl_view(*d)),
        encode_utf8(d.0@).len() <= u64::MAX,
{
    write_str(out, &d.0);
    write_behaviour(out, d.1);
    let total = out.len();
    proof {
        assert(out@.len() == total);
        assert(encode_utf8(d.0@).len() <= total);
    }
    assert(out@ =~= old(out)@ + decl_enc(decl_view(*d)));
}

/// Reads one declared relation at position `p`.
pub fn read_decl_at(b: &Vec<u8>, p: usize) -> (r: Option<((String, DeletionBehaviour), usize)>)
    ensures
        match r {
            Some((d, q)) => read_decl(b@, p as int) == Some((decl_view(d), q as int)),
            None => read_decl(b@, p as int) is None,
        },
{
    match read_str_at(b, p) {
        Some((name, q)) => match read_behaviour_at(b, q) {
            Some((beh, r)) => Some(((name, beh), r)),
            None => None,
        },
        None => None,
    }
}


/// Reads a count-prefixed declaration list at position `p`: a `u64`
/// count, then that many declarations.
pub open spec fn read_counted_decls(b: Seq<u8>, p: int) -> Option<
    (Seq<(Seq<char>, DeletionBehaviour)>, int),
> {
    match read_u64(b, p) {
        Some((n, q)) => read_decls(b, q, n as nat),
        None => None,
    }
}

/// The mathematical content of a declaration list held in memory.
pub open spec fn decls_view(v: Seq<(String, DeletionBehaviour)>) -> Seq<
    (Seq<char>, DeletionBehaviour),
> {
    v.map_values(|d: (String, DeletionBehaviour)| decl_view(d))
}

/// Appends a count-prefixed declaration list.
pub fn write_decls(out: &mut Vec<u8>, v: &Vec<(String, DeletionBehaviour)>)
    ensures
        final(out)@ == old(out)@ + u64_be(v@.len() as u64) + decls_enc(decls_view(v@)),
        decls_wf(decls_view(v@)),
        v@.len() <= u64::MAX,
{
    let n: u64 = v.len() as u64;
    write_u64(out, n);
    let ghost base = out@;
    let mut i: usize = 0;
    while i < v.len()
        invariant
            i <= v@.len(),
            out@ == base + decls_enc(decls_view(v@).take(i as int)),
            forall|j: int|
                0 <= j < i ==> encode_utf8((#[trigger] decls_view(v@)[j]).0).len() <= u64::MAX,
        decreases v@.len() - i,
    {
        proof {
            assert(decls_view(v@).take(i + 1) =~= decls_view(v@).take(i as int).push(
                decls_view(v@)[i as int],
            ));
            lemma_decls_enc_push(decls_view(v@).take(i as int), decls_view(v@)[i as int]);
        }
        write_decl(out, &v[i]);
        i = i + 1;
    }
    assert(decls_view(v@).take(v@.len() as int) =~= decls_view(v@));
    assert(out@ =~= old(out)@ + u64_be(v@.len() as u64) + decls_enc(decls_view(v@)));
}

/// Reads a count-prefixed declaration list at position `p`.
pub fn read_decls_at(b: &Vec<u8>, p: usize) -> (r: Option<(Vec<(String, DeletionBehaviour)>, usize)>)
    ensures
        match r {
            Some((v, q)) => read_counted_decls(b@, p as int) == Some((decls_view(v@), q as int)),
            None => read_counted_decls(b@, p as int) is None,
        },
{
    let parsed = read_u64_at(b, p);
    match parsed {
        None => None,
        Some((n, start)) => {
            let mut acc: Vec<(String, DeletionBehaviour)> = Vec::new();
            let mut pos: usize = start;
            let mut count: u64 = 0;
            while count < n
                invariant
                    count <= n,
                    read_u64(b@, p as int) == Some((n, start as int)),
                    read_decls(b@, start as int, n as nat) == (match read_decls(
                        b@,
                        pos as int,
                        (n - count) as nat,
                    ) {
                        Some((rest, q)) => Some((decls_view(acc@) + rest, q)),
                        None => None,
                    }),
                decreases n - count,
            {
                match read_decl_at(b, pos) {
                    Some((d, q)) => {
                        proof {
                            let m = (n - count) as nat;
                            assert(read_decls(b@, pos as int, m) == (match read_decls(
                                b@,
                                q as int,
                                (m - 1) as nat,
                            ) {
                                Some((rest, r)) => Some((seq![decl_view(d)] + rest, r)),
                                None => None,
                            }));
                        }
                        let ghost old_acc = acc@;
                        acc.push(d);
                        proof {
                            assert(decls_view(acc@) =~= decls_view(old_acc).push(decl_view(d)));
                            assert forall|rest: Seq<(Seq<char>, DeletionBehaviour)>|
                                decls_view(old_acc) + (seq![decl_view(d)] + rest) =~= decls_view(
                                    acc@,
                                ) + rest by {}
                        }
                        pos = q;
                        count = count + 1;
                    },
                    None => {
                        proof {
                            assert(read_decls(b@, pos as int, (n - count) as nat) is None);
                            assert(read_decls(b@, start as int, n as nat) is None);
                        }
                        return None;
                    },
                }
            }
            assert(decls_view(acc@) + Seq::<(Seq<char>, DeletionBehaviour)>::empty() =~= decls_view(
                acc@,
            ));
            Some((acc, pos))
        },
    }
}

// ---------------------------------------------------------------------
// Family descriptors
// ---------------------------------------------------------------------

/// The mathematical content of a family descriptor.
pub struct FamilyView {
    pub name: Seq<char>,
    pub version: u32,
    pub children: Seq<(Seq<char>, DeletionBehaviour)>,
    pub siblings: Seq<(Seq<char>, DeletionBehaviour)>,
}

/// Per-type metadata: the type's store name and declared schema version,
/// and the declared child and sibling stores with their deletion
/// behaviours.  Written on first registration, checked on every later
/// one.
pub struct FamilyDescriptor {
    pub name: String,
    pub version: u32,
    pub child_trees: Vec<(String, DeletionBehaviour)>,
    pub sibling_trees: Vec<(String, DeletionBehaviour)>,
}

impl View for FamilyDescriptor {
    type V = FamilyView;

    open spec fn view(&self) -> FamilyView {
        FamilyView {
            name: self.name@,
            version: self.version,
            children: decls_view(self.child_trees@),
            siblings: decls_view(self.sibling_trees@),
        }
    }
}

/// The wire form of a family descriptor.
pub open spec fn family_enc(f: FamilyView) -> Seq<u8> {
    str_enc(f.name) + u32_be(f.version) + u64_be(f.children.len() as u64) + decls_enc(f.children)
        + u64_be(f.siblings.len() as u64) + decls_enc(f.siblings)
}

/// The descriptor's strings and list lengths fit the wire form.
pub open spec fn family_wf(f: FamilyView) -> bool {
    &&& encode_utf8(f.name).len() <= u64::MAX
    &&& decls_wf(f.children)
    &&& decls_wf(f.siblings)
    &&& f.children.len() <= u64::MAX
    &&& f.siblings.len() <= u64::MAX
}

/// Decodes a whole family descriptor; the record must be consumed
/// exactly.
pub open spec fn family_dec(b: Seq<u8>) -> Option<FamilyView> {
    match read_str(b, 0) {
        Some((name, p1)) => match read_u32(b, p1) {
            Some((version, p2)) => match read_counted_decls(b, p2) {
                Some((children, p3)) => match read_counted_decls(b, p3) {
                    Some((siblings, p4)) => if p4 == b.len() {
                        Some(FamilyView { name, version, children, siblings })
                    } else {
                        None
                    },
                    None => None,
                },
                None => None,
            },
            None => None,
        },
        None => None,
    }
}

/// Decoding a family descriptor where one was written yields it back.
#[verifier::rlimit(100)]
pub proof fn lemma_family_round_trip(f: FamilyView)
    requires
        family_wf(f),
    ensures
        family_dec(family_enc(f)) == Some(f),
{
    let b = family_enc(f);
    let l1 = str_enc(f.name).len() as int;
    let l2 = 4int;
    let l3 = 8int;
    let l4 = decls_enc(f.children).len() as int;
    let l5 = 8int;
    let l6 = decls_enc(f.siblings).len() as int;
    assert(b.subrange(0, l1) =~= str_enc(f.name));
    lemma_read_str_at(b, 0, f.name);
    assert(b.subrange(l1, l1 + l2) =~= u32_be(f.version));
    lemma_read_u32_at(b, l1, f.version);
    assert(b.subrange(l1 + l2, l1 + l2 + l3) =~= u64_be(f.children.len() as u64));
    lemma_read_u64_at(b, l1 + l2, f.children.len() as u64);
    assert(b.subrange(l1 + l2 + l3, l1 + l2 + l3 + l4) =~= decls_enc(f.children));
    lemma_read_decls_at(b, l1 + l2 + l3, f.children);
    assert(b.subrange(l1 + l2 + l3 + l4, l1 + l2 + l3 + l4 + l5) =~= u64_be(
        f.siblings.len() as u64,
    ));
    lemma_read_u64_at(b, l1 + l2 + l3 + l4, f.siblings.len() as u64);
    assert(b.subrange(l1 + l2 + l3 + l4 + l5, l1 + l2 + l3 + l4 + l5 + l6) =~= decls_enc(
        f.siblings,
    ));
    lemma_read_decls_at(b, l1 + l2 + l3 + l4 + l5, f.siblings);
}

impl FamilyDescriptor {
    /// Encodes the descriptor; a descriptor held in memory always fits
    /// its wire form.
    pub fn to_bytes(&self) -> (r: Vec<u8>)
        ensures
            r@ == family_enc(self@),
            family_wf(self@),
    {
        let mut out: Vec<u8> = Vec::new();
        write_str(&mut out, &self.name);
        write_u32(&mut out, self.version);
        write_decls(&mut out, &self.child_trees);
        write_decls(&mut out, &self.sibling_trees);
        let total = out.len();
        proof {
            assert(out@.len() == total);
            assert(encode_utf8(self@.name).len() <= total);
        }
        assert(out@ =~= family_enc(self@));
        out
    }

    /// Decodes a stored descriptor.
    pub fn from_bytes(b: &Vec<u8>) -> (r: Option<FamilyDescriptor>)
        ensures
            match r {
                Some(f) => family_dec(b@) == Some(f@),
                None => family_dec(b@) is None,
            },
    {
        match read_str_at(b, 0) {
            Some((name, p1)) => match read_u32_at(b, p1) {
                Some((version, p2)) => match read_decls_at(b, p2) {
                    Some((child_trees, p3)) => match read_decls_at(b, p3) {
                        Some((sibling_trees, p4)) => {
                            if p4 == b.len() {
                                Some(
                                    FamilyDescriptor {
                                        name,
                                        version,
                                        child_trees,
                                        sibling_trees,
                                    },
                                )
                            } else {
                                None
                            }
                        },
                        None => None,
                    },
                    None => None,
                },
                None => None,
            },
            None => None,
        }
    }
}

// ---------------------------------------------------------------------
// What the database says
// ---------------------------------------------------------------------

/// The outgoing edges recorded for `(store, key)`: the decoded relations
/// row, or no edges when the row is absent or unreadable.
pub open spec fn rels_of(v: DbView, store: Seq<u8>, key: Seq<u8>) -> Seq<EdgeView> {
    let t = tree_of(v, rel_tree_name(store));
    if t.contains_key(key) {
        match rels_dec(t[key]) {
            Some(s) => s,
            None => Seq::empty(),
        }
    } else {
        Seq::empty()
    }
}

/// The registered family descriptor of `store`, when present and
/// readable.
pub open spec fn family_of(v: DbView, store: Seq<u8>) -> Option<FamilyView> {
    let t = tree_of(v, family_tree_name());
    if t.contains_key(store) {
        family_dec(t[store])
    } else {
        None
    }
}

impl FamilyDescriptor {
    /// True when a family descriptor has been registered under `name`.
    pub fn is_registered(name: &String, s: &Store) -> (r: Result<bool, crate::Error>)
        ensures
            r matches Ok(b) ==> (b <==> tree_of(s.view(), family_tree_name()).contains_key(
                encode_utf8(name@),
            )),
            r matches Err(e) ==> e is Engine,
    {
        let key = vstd::string::StrSliceExecFns::as_bytes_vec(name.as_str());
        let tree = family_tree();
        match kv_get(s.db_ref(), &tree, &key) {
            Ok(o) => Ok(o.is_some()),
            Err(e) => Err(e),
        }
    }

    /// Fetches the descriptor registered under `name`, absent rows
    /// reading as `None`.
    pub fn get(name: &String, s: &Store) -> (r: Result<Option<FamilyDescriptor>, crate::Error>)
        ensures
            r matches Ok(o) ==> match o {
                Some(f) => family_of(s.view(), encode_utf8(name@)) == Some(f@),
                None => !tree_of(s.view(), family_tree_name()).contains_key(encode_utf8(name@)),
            },
            r matches Err(e) ==> e is Engine || e is Serialisation,
    {
        let key = vstd::string::StrSliceExecFns::as_bytes_vec(name.as_str());
        let tree = family_tree();
        match kv_get(s.db_ref(), &tree, &key) {
            Ok(Some(row)) => match FamilyDescriptor::from_bytes(&row) {
                Some(f) => Ok(Some(f)),
                None => Err(crate::Error::Serialisation),
            },
            Ok(None) => Ok(None),
            Err(e) => Err(e),
        }
    }

    /// Writes the descriptor under its own store name.
    pub fn put(&self, s: &mut Store) -> (r: Result<(), crate::Error>)
        ensures
            r matches Err(e) ==> e is Engine,
            r is Ok ==> final(s).view() == old(s).view().insert(
                family_tree_name(),
                tree_of(old(s).view(), family_tree_name()).insert(
                    encode_utf8(self.name@),
                    family_enc(self@),
                ),
            ),
            r is Ok ==> family_of(final(s).view(), encode_utf8(self.name@)) == Some(self@),
    {
        let key = vstd::string::StrSliceExecFns::as_bytes_vec(self.name.as_str());
        let tree = family_tree();
        let row = self.to_bytes();
        let res = kv_put(s.db_mut(), &tree, &key, &row);
        proof {
            if res is Ok {
                lemma_family_round_trip(self@);
            }
        }
        res
    }
}

/// Loads the relations record of `(store, key)`; an absent row reads as
/// an empty record.
pub fn load_relations(s: &Store, store: &Vec<u8>, key: &Vec<u8>) -> (r: Result<
    EntityRelations,
    crate::Error,
>)
    ensures
        r matches Ok(rr) ==> rr@ == rels_of(s.view(), store@, key@),
        r matches Err(e) ==> e is Engine || e is Serialisation,
{
    let tree = rel_tree(store);
    match kv_get(s.db_ref(), &tree, key) {
        Ok(Some(row)) => match EntityRelations::from_bytes(&row) {
            Some(rr) => Ok(rr),
            None => Err(crate::Error::Serialisation),
        },
        Ok(None) => Ok(EntityRelations::empty()),
        Err(e) => Err(e),
    }
}

/// Stores the relations record of `(store, key)`; a record with no edges
/// is stored as an absent row.
pub fn save_relations(s: &mut Store, store: &Vec<u8>, key: &Vec<u8>, rr: &EntityRelations) -> (r:
    Result<(), crate::Error>)
    ensures
        r matches Err(e) ==> e is Engine,
        r is Ok ==> final(s).view() == old(s).view().insert(
            rel_tree_name(store@),
            if rr@.len() == 0 {
                tree_of(old(s).view(), rel_tree_name(store@)).remove(key@)
            } else {
                tree_of(old(s).view(), rel_tree_name(store@)).insert(key@, rels_enc(rr@))
            },
        ),
        r is Ok ==> rels_of(final(s).view(), store@, key@) == rr@,
{
    let tree = rel_tree(store);
    if rr.edges.len() == 0 {
        let res = kv_del(s.db_mut(), &tree, key);
        proof {
            if res is Ok {
                assert(rr@ =~= Seq::<EdgeView>::empty());
            }
        }
        res
    } else {
        let row = rr.to_bytes();
        let res = kv_put(s.db_mut(), &tree, key, &row);
        proof {
            if res is Ok {
                lemma_rels_round_trip(rr@);
            }
        }
        res
    }
}

// ---------------------------------------------------------------------
// Declared relations in wire form
// ---------------------------------------------------------------------

/// The name a deletion behaviour goes by in serialised schemas.
pub open spec fn behaviour_name(b: DeletionBehaviour) -> Seq<char> {
    match b {
        DeletionBehaviour::Cascade => "Cascade"@,
        DeletionBehaviour::BreakLink => "BreakLink"@,
        DeletionBehaviour::Error => "Error"@,
    }
}

/// The serialisable form of one declared relation: the target store name
/// and the deletion behaviour's name.
pub struct SerRelation(pub String, pub String);

impl SerRelation {
    /// The wire form of a declaration.
    pub fn from_declaration(target: &String, b: DeletionBehaviour) -> (r: SerRelation)
        ensures
            r.0@ == target@,
            r.1@ == behaviour_name(b),
    {
        let tag = match b {
            DeletionBehaviour::Cascade => String::from_str("Cascade"),
            DeletionBehaviour::BreakLink => String::from_str("BreakLink"),
            DeletionBehaviour::Error => String::from_str("Error"),
        };
        SerRelation(target.clone(), tag)
    }
}

} // verus!
