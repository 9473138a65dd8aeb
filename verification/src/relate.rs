//! Free named relations between entities.
//!
//! An edge A→B carries two behaviours and an optional name; it is always
//! written together with its mirror B→A so that the relation graph stays
//! symmetric at rest.  Reads are linear scans of the per-instance edge
//! list, which keeps insertion order.

use vstd::prelude::*;
use crate::codec::bytes_eq;
use crate::entity::{fetched, store_bytes, Entity};
use crate::keys::AsBytes;
use crate::kv::{rel_tree_name, tree_of, DbView, Store};
use vstd::utf8::encode_utf8;
use crate::relation::{load_relations, rels_of, save_relations, Edge, EdgeView, EntityRelations};
use vstd::string::StringExecFns;
use crate::DeletionBehaviour;
use crate::Error;

verus! {

/// An edge-name condition: any name, or exactly the given optional name
/// (`None` matches only unnamed edges).
#[derive(Clone, Copy)]
pub enum NameFilter<'a> {
    Any,
    Exact(Option<&'a str>),
}

/// The mathematical content of a name condition.
pub open spec fn nf_view(f: NameFilter) -> Option<Option<Seq<char>>> {
    match f {
        NameFilter::Any => None,
        NameFilter::Exact(None) => Some(None),
        NameFilter::Exact(Some(n)) => Some(Some(n@)),
    }
}

/// Whether an edge's name satisfies a name condition.
pub open spec fn name_filter_matches(e: EdgeView, f: Option<Option<Seq<char>>>) -> bool {
    match f {
        None => true,
        Some(n) => e.name == n,
    }
}

/// The peer keys of the edges towards `store` that satisfy the name
/// condition, in edge order.
pub open spec fn keys_to(rels: Seq<EdgeView>, store: Seq<char>, f: Option<Option<Seq<char>>>) -> Seq<
    Seq<u8>,
>
    decreases rels.len(),
{
    if rels.len() == 0 {
        Seq::empty()
    } else {
        let rest = keys_to(rels.skip(1), store, f);
        if rels[0].peer_store == store && name_filter_matches(rels[0], f) {
            seq![rels[0].peer_key] + rest
        } else {
            rest
        }
    }
}

/// Considering one more edge extends the key list at the end.
pub proof fn lemma_keys_to_push(
    rels: Seq<EdgeView>,
    e: EdgeView,
    store: Seq<char>,
    f: Option<Option<Seq<char>>>,
)
    ensures
        keys_to(rels.push(e), store, f) == keys_to(rels, store, f) + (if e.peer_store == store
            && name_filter_matches(e, f) {
            seq![e.peer_key]
        } else {
            Seq::<Seq<u8>>::empty()
        }),
    decreases rels.len(),
{
    let tail = if e.peer_store == store && name_filter_matches(e, f) {
        seq![e.peer_key]
    } else {
        Seq::<Seq<u8>>::empty()
    };
    if rels.len() == 0 {
        assert(rels.push(e)[0] == e);
        assert(rels.push(e).skip(1) =~= Seq::<EdgeView>::empty());
        assert(keys_to(Seq::<EdgeView>::empty(), store, f) == Seq::<Seq<u8>>::empty());
        if e.peer_store == store && name_filter_matches(e, f) {
            assert(keys_to(rels.push(e), store, f) == seq![e.peer_key] + Seq::<Seq<u8>>::empty());
            assert(seq![e.peer_key] + Seq::<Seq<u8>>::empty() =~= Seq::<Seq<u8>>::empty() + seq![
                e.peer_key,
            ]);
        } else {
            assert(keys_to(rels.push(e), store, f) == Seq::<Seq<u8>>::empty());
            assert(Seq::<Seq<u8>>::empty() + tail =~= Seq::<Seq<u8>>::empty());
        }
    } else {
        assert(rels.push(e)[0] == rels[0]);
        assert(rels.push(e).skip(1) =~= rels.skip(1).push(e));
        lemma_keys_to_push(rels.skip(1), e, store, f);
        if rels[0].peer_store == store && name_filter_matches(rels[0], f) {
            assert(keys_to(rels.push(e), store, f) == seq![rels[0].peer_key] + (keys_to(
                rels.skip(1),
                store,
                f,
            ) + tail));
            assert(keys_to(rels, store, f) == seq![rels[0].peer_key] + keys_to(
                rels.skip(1),
                store,
                f,
            ));
            assert(seq![rels[0].peer_key] + (keys_to(rels.skip(1), store, f) + tail) =~= (seq![
                rels[0].peer_key,
            ] + keys_to(rels.skip(1), store, f)) + tail);
        } else {
            assert(keys_to(rels.push(e), store, f) == keys_to(rels.skip(1), store, f) + tail);
            assert(keys_to(rels, store, f) == keys_to(rels.skip(1), store, f));
        }
    }
}

/// There is an edge towards `(store, key)` satisfying the name condition.
pub open spec fn is_related(
    rels: Seq<EdgeView>,
    store: Seq<char>,
    key: Seq<u8>,
    f: Option<Option<Seq<char>>>,
) -> bool {
    exists|i: int|
        0 <= i < rels.len() && (#[trigger] rels[i]).peer_store == store && rels[i].peer_key == key
            && name_filter_matches(rels[i], f)
}

/// The first edge with exactly this peer store, peer key and name, if
/// any: the duplicate a new relation is checked against.
pub open spec fn find_triple(
    rels: Seq<EdgeView>,
    store: Seq<char>,
    key: Seq<u8>,
    name: Option<Seq<char>>,
) -> Option<EdgeView>
    decreases rels.len(),
{
    if rels.len() == 0 {
        None
    } else if rels[0].peer_store == store && rels[0].peer_key == key && rels[0].name == name {
        Some(rels[0])
    } else {
        find_triple(rels.skip(1), store, key, name)
    }
}

/// An edge record.
pub open spec fn edge_between(
    store: Seq<char>,
    key: Seq<u8>,
    name: Option<Seq<char>>,
    local: DeletionBehaviour,
    peer: DeletionBehaviour,
) -> EdgeView {
    EdgeView { peer_store: store, peer_key: key, name, local, peer }
}

/// Two strings hold the same characters.  Compares the UTF-8 bytes; the
/// encoding is injective, so byte equality decides character equality.
pub fn str_eq(a: &str, b: &str) -> (r: bool)
    ensures
        r == (a@ == b@),
{
    let av = vstd::string::StrSliceExecFns::as_bytes_vec(a);
    let bv = vstd::string::StrSliceExecFns::as_bytes_vec(b);
    let r = bytes_eq(&av, &bv);
    proof {
        if av@ == bv@ {
            vstd::utf8::encode_utf8_decode_utf8(a@);
            vstd::utf8::encode_utf8_decode_utf8(b@);
        }
    }
    r
}

/// Whether an edge's name satisfies the condition.
pub fn edge_name_matches(e: &Edge, f: NameFilter) -> (r: bool)
    ensures
        r == name_filter_matches(e@, nf_view(f)),
{
    match f {
        NameFilter::Any => true,
        NameFilter::Exact(want) => match (&e.name, want) {
            (None, None) => true,
            (Some(n), Some(w)) => str_eq(n.as_str(), w),
            _ => false,
        },
    }
}

/// The peer keys of the edges towards `store` that satisfy the name
/// condition, in edge order.
pub fn collect_keys(rr: &EntityRelations, store: &String, f: NameFilter) -> (out: Vec<Vec<u8>>)
    ensures
        out@.map_values(|k: Vec<u8>| k@) == keys_to(rr@, store@, nf_view(f)),
{
    let mut out: Vec<Vec<u8>> = Vec::new();
    let mut i: usize = 0;
    while i < rr.edges.len()
        invariant
            i <= rr.edges@.len(),
            out@.map_values(|k: Vec<u8>| k@) == keys_to(rr@.take(i as int), store@, nf_view(f)),
        decreases rr.edges@.len() - i,
    {
        proof {
            assert(rr@.take(i + 1) =~= rr@.take(i as int).push(rr@[i as int]));
            lemma_keys_to_push(rr@.take(i as int), rr@[i as int], store@, nf_view(f));
        }
        let e = &rr.edges[i];
        assert(e@ == rr@[i as int]);
        if str_eq(e.peer_store.as_str(), store.as_str()) && edge_name_matches(e, f) {
            let ghost before = out@;
            out.push(e.peer_key.clone());
            assert(out@.map_values(|k: Vec<u8>| k@) =~= before.map_values(|k: Vec<u8>| k@).push(
                e.peer_key@,
            ));
        } else {
            assert(keys_to(rr@.take(i + 1), store@, nf_view(f)) =~= keys_to(
                rr@.take(i as int),
                store@,
                nf_view(f),
            ) + Seq::<Seq<u8>>::empty());
        }
        i = i + 1;
    }
    assert(rr@.take(rr.edges@.len() as int) =~= rr@);
    out
}

/// Whether the record holds an edge towards `(store, key)` satisfying
/// the name condition.
pub fn record_is_related(rr: &EntityRelations, store: &String, key: &Vec<u8>, f: NameFilter) -> (r:
    bool)
    ensures
        r == is_related(rr@, store@, key@, nf_view(f)),
{
    let mut i: usize = 0;
    while i < rr.edges.len()
        invariant
            i <= rr.edges@.len(),
            forall|j: int|
                0 <= j < i ==> !((#[trigger] rr@[j]).peer_store == store@ && rr@[j].peer_key == key@
                    && name_filter_matches(rr@[j], nf_view(f))),
        decreases rr.edges@.len() - i,
    {
        let e = &rr.edges[i];
        assert(e@ == rr@[i as int]);
        if str_eq(e.peer_store.as_str(), store.as_str()) && bytes_eq(&e.peer_key, key)
            && edge_name_matches(e, f) {
            return true;
        }
        i = i + 1;
    }
    false
}



/// Writes a new edge and its mirror: onto one row when source and target
/// are the same entity, else onto both rows.
#[verifier::rlimit(100)]
fn add_edge_pair(
    s: &mut Store,
    snb: &Vec<u8>,
    skb: &Vec<u8>,
    pnb: &Vec<u8>,
    pkb: &Vec<u8>,
    own: EntityRelations,
    edge1: Edge,
    edge2: Edge,
) -> (r: Result<(), Error>)
    requires
        own@ == rels_of(old(s).view(), snb@, skb@),
    ensures
        r matches Err(e) ==> e is Engine || e is Serialisation,
        ({
            let v0 = old(s).view();
            let v1 = final(s).view();
            &&& (r is Ok && snb@ == pnb@ && skb@ == pkb@ ==> rels_of(v1, snb@, skb@) == rels_of(
                v0,
                snb@,
                skb@,
            ).push(edge1@).push(edge2@))
            &&& (r is Ok && !(snb@ == pnb@ && skb@ == pkb@) ==> rels_of(v1, snb@, skb@) == rels_of(
                v0,
                snb@,
                skb@,
            ).push(edge1@) && rels_of(v1, pnb@, pkb@) == rels_of(v0, pnb@, pkb@).push(edge2@))
            &&& (r is Ok ==> forall|t: Seq<u8>|
                t != rel_tree_name(snb@) && t != rel_tree_name(pnb@) ==> tree_of(v1, t) == tree_of(
                    v0,
                    t,
                ))
            &&& (r is Ok ==> forall|st: Seq<u8>, k: Seq<u8>|
                !(st == snb@ && k == skb@) && !(st == pnb@ && k == pkb@) ==> rels_of(v1, st, k)
                    == rels_of(v0, st, k))
        }),
{
    let same_target = bytes_eq(snb, pnb) && bytes_eq(skb, pkb);
    let ghost v0 = s.view();
    let mut own = own;
    let ghost rels0 = own@;
    if same_target {
        own.edges.push(edge1);
        own.edges.push(edge2);
        assert(own@ =~= rels0.push(edge1@).push(edge2@));
        let res = save_relations(s, snb, skb, &own);
        proof {
            if res is Ok {
                let v1 = s.view();
                assert forall|st: Seq<u8>, k: Seq<u8>|
                    !(st == snb@ && k == skb@) && !(st == pnb@ && k == pkb@) implies rels_of(
                    v1,
                    st,
                    k,
                ) == rels_of(v0, st, k) by {
                    crate::kv::lemma_tree_names_disjoint(st, snb@);
                }
            }
        }
        res
    } else {
        own.edges.push(edge1);
        assert(own@ =~= rels0.push(edge1@));
        match save_relations(s, snb, skb, &own) {
            Ok(()) => {},
            Err(e) => {
                return Err(e);
            },
        }
        let ghost vmid = s.view();
        proof {
            crate::kv::lemma_tree_names_disjoint(snb@, pnb@);
            if snb@ != pnb@ {
                assert(rel_tree_name(snb@) != rel_tree_name(pnb@));
                assert(tree_of(vmid, rel_tree_name(pnb@)) == tree_of(v0, rel_tree_name(pnb@)));
            } else {
                assert(skb@ != pkb@);
            }
            assert(rels_of(vmid, pnb@, pkb@) == rels_of(v0, pnb@, pkb@));
        }
        let other = match load_relations(s, pnb, pkb) {
            Ok(rr) => rr,
            Err(e) => {
                return Err(e);
            },
        };
        let ghost prels0 = other@;
        let mut other = other;
        other.edges.push(edge2);
        assert(other@ =~= prels0.push(edge2@));
        let res = save_relations(s, pnb, pkb, &other);
        proof {
            if res is Ok {
                let v1 = s.view();
                if snb@ != pnb@ {
                    assert(rel_tree_name(snb@) != rel_tree_name(pnb@));
                    assert(tree_of(v1, rel_tree_name(snb@)) == tree_of(vmid, rel_tree_name(snb@)));
                    assert(rels_of(v1, snb@, skb@) == own@);
                } else {
                    assert(skb@ != pkb@);
                    assert(rels_of(v1, snb@, skb@) == own@);
                }
                assert forall|st: Seq<u8>, k: Seq<u8>|
                    !(st == snb@ && k == skb@) && !(st == pnb@ && k == pkb@) implies rels_of(
                    v1,
                    st,
                    k,
                ) == rels_of(v0, st, k) by {
                    crate::kv::lemma_tree_names_disjoint(st, snb@);
                    crate::kv::lemma_tree_names_disjoint(st, pnb@);
                }
            }
        }
        res
    }
}

/// Relation operations, provided for every entity type.
pub trait RelationOps: Entity {
    /// Adds a free named relation edge to `peer` with behaviours
    /// `(self_behaviour, peer_behaviour)` and the symmetric edge on the
    /// peer with the behaviours swapped.  Re-adding an identical edge
    /// changes nothing; adding a conflicting duplicate is refused.
    fn create_relation<P: Entity>(
        &self,
        peer: &P,
        self_behaviour: DeletionBehaviour,
        peer_behaviour: DeletionBehaviour,
        name: Option<&str>,
        s: &mut Store,
    ) -> (r: Result<(), Error>)
        ensures
            r matches Err(e) ==> e is Engine || e is Serialisation || e is InvalidRelation,
            ({
                let v0 = old(s).view();
                let v1 = final(s).view();
                let sb = store_bytes::<Self>();
                let pb = store_bytes::<P>();
                let skb = self.key_spec().key_enc();
                let pkb = peer.key_spec().key_enc();
                let nm = match name {
                    Some(n) => Some(n@),
                    None => None,
                };
                let e1 = edge_between(P::store_name_spec(), pkb, nm, self_behaviour, peer_behaviour);
                let e2 = edge_between(
                    Self::store_name_spec(),
                    skb,
                    nm,
                    peer_behaviour,
                    self_behaviour,
                );
                let rels0 = rels_of(v0, sb, skb);
                let found = find_triple(rels0, P::store_name_spec(), pkb, nm);
                &&& (r matches Err(e) && e is InvalidRelation ==> v1 == v0 && (found matches Some(f)
                    && !(f.local == self_behaviour && f.peer == peer_behaviour)))
                &&& (r is Ok && found is Some ==> v1 == v0 && (found matches Some(f) && f.local
                    == self_behaviour && f.peer == peer_behaviour))
                &&& (r is Ok && found is None && sb == pb && skb == pkb ==> rels_of(v1, sb, skb)
                    == rels0.push(e1).push(e2))
                &&& (r is Ok && found is None && !(sb == pb && skb == pkb) ==> rels_of(v1, sb, skb)
                    == rels0.push(e1) && rels_of(v1, pb, pkb) == rels_of(v0, pb, pkb).push(e2))
                &&& (r is Ok ==> forall|t: Seq<u8>|
                    t != rel_tree_name(sb) && t != rel_tree_name(pb) ==> tree_of(v1, t) == tree_of(
                        v0,
                        t,
                    ))
                &&& (r is Ok ==> forall|st: Seq<u8>, k: Seq<u8>|
                    !(st == sb && k == skb) && !(st == pb && k == pkb) ==> rels_of(v1, st, k)
                        == rels_of(v0, st, k))
            }),
    ;

    /// The entities of type `P` this entity has an edge to, in edge
    /// order, whatever the edge names.
    fn get_related<P: Entity>(&self, s: &Store) -> (r: Result<Vec<P>, Error>)
        ensures
            r matches Err(e) ==> e is Engine || e is Serialisation,
            r matches Ok(out) ==> out@.map_values(|e: P| e@) == fetched::<P>(
                s.view(),
                keys_to(
                    rels_of(s.view(), store_bytes::<Self>(), self.key_spec().key_enc()),
                    P::store_name_spec(),
                    None,
                ),
            ),
    ;

    /// The entities of type `P` related under exactly the given name.
    fn get_related_with_name<P: Entity>(&self, name: &str, s: &Store) -> (r: Result<Vec<P>, Error>)
        ensures
            r matches Err(e) ==> e is Engine || e is Serialisation,
            r matches Ok(out) ==> out@.map_values(|e: P| e@) == fetched::<P>(
                s.view(),
                keys_to(
                    rels_of(s.view(), store_bytes::<Self>(), self.key_spec().key_enc()),
                    P::store_name_spec(),
                    Some(Some(name@)),
                ),
            ),
    ;

    /// The first entity of type `P` related under exactly the given
    /// name, if any.
    fn get_single_related_with_name<P: Entity>(&self, name: &str, s: &Store) -> (r: Result<
        Option<P>,
        Error,
    >)
        ensures
            r matches Err(e) ==> e is Engine || e is Serialisation,
            r matches Ok(o) ==> {
                let l = fetched::<P>(
                    s.view(),
                    keys_to(
                        rels_of(s.view(), store_bytes::<Self>(), self.key_spec().key_enc()),
                        P::store_name_spec(),
                        Some(Some(name@)),
                    ),
                );
                match o {
                    Some(x) => l.len() > 0 && l[0] == x@,
                    None => l.len() == 0,
                }
            },
    ;

    /// Whether an edge to `peer` exists, whatever its name.
    fn is_related_to<P: Entity>(&self, peer: &P, s: &Store) -> (r: Result<bool, Error>)
        ensures
            r matches Err(e) ==> e is Engine || e is Serialisation,
            r matches Ok(b) ==> b == is_related(
                rels_of(s.view(), store_bytes::<Self>(), self.key_spec().key_enc()),
                P::store_name_spec(),
                peer.key_spec().key_enc(),
                None,
            ),
    ;

    /// Whether an edge to `peer` exists under exactly the given name.
    fn is_related_to_with_name<P: Entity>(&self, peer: &P, name: &str, s: &Store) -> (r: Result<
        bool,
        Error,
    >)
        ensures
            r matches Err(e) ==> e is Engine || e is Serialisation,
            r matches Ok(b) ==> b == is_related(
                rels_of(s.view(), store_bytes::<Self>(), self.key_spec().key_enc()),
                P::store_name_spec(),
                peer.key_spec().key_enc(),
                Some(Some(name@)),
            ),
    ;

    /// Whether an edge to `peer` exists under one of the given names.
    fn is_related_to_with_any_name<P: Entity>(&self, peer: &P, names: &Vec<&str>, s: &Store) -> (r:
        Result<bool, Error>)
        ensures
            r matches Err(e) ==> e is Engine || e is Serialisation,
            r matches Ok(b) ==> b == (exists|j: int|
                0 <= j < names@.len() && is_related(
                    rels_of(s.view(), store_bytes::<Self>(), self.key_spec().key_enc()),
                    P::store_name_spec(),
                    peer.key_spec().key_enc(),
                    Some(Some((#[trigger] names@[j])@)),
                )),
    ;
}

impl<T: Entity> RelationOps for T {
    #[verifier::rlimit(100)]
    fn create_relation<P: Entity>(
        &self,
        peer: &P,
        self_behaviour: DeletionBehaviour,
        peer_behaviour: DeletionBehaviour,
        name: Option<&str>,
        s: &mut Store,
    ) -> (r: Result<(), Error>)
        ensures
            r matches Err(e) ==> e is Engine || e is Serialisation || e is InvalidRelation,
            ({
                let v0 = old(s).view();
                let v1 = final(s).view();
                let sb = store_bytes::<Self>();
                let pb = store_bytes::<P>();
                let skb = self.key_spec().key_enc();
                let pkb = peer.key_spec().key_enc();
                let nm = match name {
                    Some(n) => Some(n@),
                    None => None,
                };
                let e1 = edge_between(P::store_name_spec(), pkb, nm, self_behaviour, peer_behaviour);
                let e2 = edge_between(
                    Self::store_name_spec(),
                    skb,
                    nm,
                    peer_behaviour,
                    self_behaviour,
                );
                let rels0 = rels_of(v0, sb, skb);
                let found = find_triple(rels0, P::store_name_spec(), pkb, nm);
                &&& (r matches Err(e) && e is InvalidRelation ==> v1 == v0 && (found matches Some(f)
                    && !(f.local == self_behaviour && f.peer == peer_behaviour)))
                &&& (r is Ok && found is Some ==> v1 == v0 && (found matches Some(f) && f.local
                    == self_behaviour && f.peer == peer_behaviour))
                &&& (r is Ok && found is None && sb == pb && skb == pkb ==> rels_of(v1, sb, skb)
                    == rels0.push(e1).push(e2))
                &&& (r is Ok && found is None && !(sb == pb && skb == pkb) ==> rels_of(v1, sb, skb)
                    == rels0.push(e1) && rels_of(v1, pb, pkb) == rels_of(v0, pb, pkb).push(e2))
                &&& (r is Ok ==> forall|t: Seq<u8>|
                    t != rel_tree_name(sb) && t != rel_tree_name(pb) ==> tree_of(v1, t) == tree_of(
                        v0,
                        t,
                    ))
                &&& (r is Ok ==> forall|st: Seq<u8>, k: Seq<u8>|
                    !(st == sb && k == skb) && !(st == pb && k == pkb) ==> rels_of(v1, st, k)
                        == rels_of(v0, st, k))
            }),
    {
        let self_store = T::store_name();
        let peer_store = P::store_name();
        let snb = vstd::string::StrSliceExecFns::as_bytes_vec(self_store.as_str());
        let pnb = vstd::string::StrSliceExecFns::as_bytes_vec(peer_store.as_str());
        let skb = self.get_key().key_bytes();
        let pkb = peer.get_key().key_bytes();
        let own = match load_relations(s, &snb, &skb) {
            Ok(rr) => rr,
            Err(e) => {
                return Err(e);
            },
        };
        let ghost nm = match name {
            Some(n) => Some(n@),
            None => None,
        };
        let name_owned: Option<String> = match name {
            Some(n) => Some(String::from_str(n)),
            None => None,
        };
        // Look for an edge with the same peer and name.
        let mut i: usize = 0;
        let n_edges = own.edges.len();
        assert(own@.skip(0) =~= own@);
        while i < n_edges
            invariant
                i <= own.edges@.len(),
                n_edges == own.edges@.len(),
                find_triple(own@, P::store_name_spec(), pkb@, nm) == find_triple(
                    own@.skip(i as int),
                    P::store_name_spec(),
                    pkb@,
                    nm,
                ),
                peer_store@ == P::store_name_spec(),
                nm == (match name {
                    Some(n) => Some(n@),
                    None => None,
                }),
                (match (name, &name_owned) {
                    (Some(n), Some(o)) => o@ == n@,
                    (None, None) => true,
                    _ => false,
                }),
                s.view() == old(s).view(),
                own@ == rels_of(old(s).view(), store_bytes::<Self>(), self.key_spec().key_enc()),
                skb@ == self.key_spec().key_enc(),
                pkb@ == peer.key_spec().key_enc(),
            decreases own.edges@.len() - i,
        {
            let e = &own.edges[i];
            assert(e@ == own@[i as int]);
            assert(own@.skip(i as int)[0] == own@[i as int]);
            let name_same = match (&e.name, &name_owned) {
                (None, None) => true,
                (Some(a), Some(b)) => str_eq(a.as_str(), b.as_str()),
                _ => false,
            };
            if str_eq(e.peer_store.as_str(), peer_store.as_str()) && bytes_eq(&e.peer_key, &pkb)
                && name_same {
                assert(find_triple(own@.skip(i as int), P::store_name_spec(), pkb@, nm) == Some(
                    e@,
                ));
                if matches!(e.local, DeletionBehaviour::Cascade) == matches!(self_behaviour, DeletionBehaviour::Cascade)
                    && matches!(e.local, DeletionBehaviour::BreakLink) == matches!(self_behaviour, DeletionBehaviour::BreakLink)
                    && matches!(e.peer, DeletionBehaviour::Cascade) == matches!(peer_behaviour, DeletionBehaviour::Cascade)
                    && matches!(e.peer, DeletionBehaviour::BreakLink) == matches!(peer_behaviour, DeletionBehaviour::BreakLink)
                {
                    assert(e@.local == self_behaviour && e@.peer == peer_behaviour);
                    return Ok(());
                } else {
                    assert(!(e@.local == self_behaviour && e@.peer == peer_behaviour));
                    return Err(Error::InvalidRelation);
                }
            }
            proof {
                assert(own@.skip(i as int).skip(1) =~= own@.skip(i + 1));
            }
            i = i + 1;
        }
        assert(own@.skip(n_edges as int) =~= Seq::<EdgeView>::empty());
        assert(find_triple(own@, P::store_name_spec(), pkb@, nm) is None);
        let edge1 = Edge {
            peer_store: peer_store.clone(),
            peer_key: pkb.clone(),
            name: match &name_owned {
                Some(n) => Some(n.clone()),
                None => None,
            },
            local: self_behaviour,
            peer: peer_behaviour,
        };
        let edge2 = Edge {
            peer_store: self_store.clone(),
            peer_key: skb.clone(),
            name: name_owned,
            local: peer_behaviour,
            peer: self_behaviour,
        };
        let ghost v0 = s.view();
        let res = add_edge_pair(s, &snb, &skb, &pnb, &pkb, own, edge1, edge2);
        proof {
            if res is Ok {
                if snb@ == pnb@ && skb@ == pkb@ {
                    assert(rels_of(s.view(), snb@, skb@) == rels_of(v0, snb@, skb@).push(
                        edge1@,
                    ).push(edge2@));
                }
            }
        }
        res
    }


    fn get_related<P: Entity>(&self, s: &Store) -> (r: Result<Vec<P>, Error>)
        ensures
            r matches Err(e) ==> e is Engine || e is Serialisation,
            r matches Ok(out) ==> out@.map_values(|e: P| e@) == fetched::<P>(
                s.view(),
                keys_to(
                    rels_of(s.view(), store_bytes::<Self>(), self.key_spec().key_enc()),
                    P::store_name_spec(),
                    None,
                ),
            ),
    {
        let snb = vstd::string::StrSliceExecFns::as_bytes_vec(T::store_name().as_str());
        let skb = self.get_key().key_bytes();
        let own = match load_relations(s, &snb, &skb) {
            Ok(rr) => rr,
            Err(e) => {
                return Err(e);
            },
        };
        let peer_store = P::store_name();
        let kbs = collect_keys(&own, &peer_store, NameFilter::Any);
        crate::entity::fetch_each_raw::<P>(&kbs, s)
    }

    fn get_related_with_name<P: Entity>(&self, name: &str, s: &Store) -> (r: Result<Vec<P>, Error>)
        ensures
            r matches Err(e) ==> e is Engine || e is Serialisation,
            r matches Ok(out) ==> out@.map_values(|e: P| e@) == fetched::<P>(
                s.view(),
                keys_to(
                    rels_of(s.view(), store_bytes::<Self>(), self.key_spec().key_enc()),
                    P::store_name_spec(),
                    Some(Some(name@)),
                ),
            ),
    {
        let snb = vstd::string::StrSliceExecFns::as_bytes_vec(T::store_name().as_str());
        let skb = self.get_key().key_bytes();
        let own = match load_relations(s, &snb, &skb) {
            Ok(rr) => rr,
            Err(e) => {
                return Err(e);
            },
        };
        let peer_store = P::store_name();
        let kbs = collect_keys(&own, &peer_store, NameFilter::Exact(Some(name)));
        crate::entity::fetch_each_raw::<P>(&kbs, s)
    }

    fn get_single_related_with_name<P: Entity>(&self, name: &str, s: &Store) -> (r: Result<
        Option<P>,
        Error,
    >)
        ensures
            r matches Err(e) ==> e is Engine || e is Serialisation,
            r matches Ok(o) ==> {
                let l = fetched::<P>(
                    s.view(),
                    keys_to(
                        rels_of(s.view(), store_bytes::<Self>(), self.key_spec().key_enc()),
                        P::store_name_spec(),
                        Some(Some(name@)),
                    ),
                );
                match o {
                    Some(x) => l.len() > 0 && l[0] == x@,
                    None => l.len() == 0,
                }
            },
    {
        match self.get_related_with_name::<P>(name, s) {
            Ok(mut out) => {
                if out.len() == 0 {
                    assert(out@.map_values(|e: P| e@).len() == 0);
                    Ok(None)
                } else {
                    assert(out@.map_values(|e: P| e@).len() > 0);
                    let ghost pre = out@;
                    let first = out.remove(0);
                    assert(pre.map_values(|e: P| e@)[0] == first@);
                    Ok(Some(first))
                }
            },
            Err(e) => Err(e),
        }
    }

    fn is_related_to<P: Entity>(&self, peer: &P, s: &Store) -> (r: Result<bool, Error>)
        ensures
            r matches Err(e) ==> e is Engine || e is Serialisation,
            r matches Ok(b) ==> b == is_related(
                rels_of(s.view(), store_bytes::<Self>(), self.key_spec().key_enc()),
                P::store_name_spec(),
                peer.key_spec().key_enc(),
                None,
            ),
    {
        let snb = vstd::string::StrSliceExecFns::as_bytes_vec(T::store_name().as_str());
        let skb = self.get_key().key_bytes();
        let own = match load_relations(s, &snb, &skb) {
            Ok(rr) => rr,
            Err(e) => {
                return Err(e);
            },
        };
        let peer_store = P::store_name();
        let pkb = peer.get_key().key_bytes();
        Ok(record_is_related(&own, &peer_store, &pkb, NameFilter::Any))
    }

    fn is_related_to_with_name<P: Entity>(&self, peer: &P, name: &str, s: &Store) -> (r: Result<
        bool,
        Error,
    >)
        ensures
            r matches Err(e) ==> e is Engine || e is Serialisation,
            r matches Ok(b) ==> b == is_related(
                rels_of(s.view(), store_bytes::<Self>(), self.key_spec().key_enc()),
                P::store_name_spec(),
                peer.key_spec().key_enc(),
                Some(Some(name@)),
            ),
    {
        let snb = vstd::string::StrSliceExecFns::as_bytes_vec(T::store_name().as_str());
        let skb = self.get_key().key_bytes();
        let own = match load_relations(s, &snb, &skb) {
            Ok(rr) => rr,
            Err(e) => {
                return Err(e);
            },
        };
        let peer_store = P::store_name();
        let pkb = peer.get_key().key_bytes();
        Ok(record_is_related(&own, &peer_store, &pkb, NameFilter::Exact(Some(name))))
    }

    fn is_related_to_with_any_name<P: Entity>(&self, peer: &P, names: &Vec<&str>, s: &Store) -> (r:
        Result<bool, Error>)
        ensures
            r matches Err(e) ==> e is Engine || e is Serialisation,
            r matches Ok(b) ==> b == (exists|j: int|
                0 <= j < names@.len() && is_related(
                    rels_of(s.view(), store_bytes::<Self>(), self.key_spec().key_enc()),
                    P::store_name_spec(),
                    peer.key_spec().key_enc(),
                    Some(Some((#[trigger] names@[j])@)),
                )),
    {
        let snb = vstd::string::StrSliceExecFns::as_bytes_vec(T::store_name().as_str());
        let skb = self.get_key().key_bytes();
        let own = match load_relations(s, &snb, &skb) {
            Ok(rr) => rr,
            Err(e) => {
                return Err(e);
            },
        };
        let peer_store = P::store_name();
        let pkb = peer.get_key().key_bytes();
        let mut j: usize = 0;
        while j < names.len()
            invariant
                j <= names@.len(),
                own@ == rels_of(s.view(), store_bytes::<Self>(), self.key_spec().key_enc()),
                peer_store@ == P::store_name_spec(),
                pkb@ == peer.key_spec().key_enc(),
                forall|i: int|
                    0 <= i < j ==> !is_related(
                        own@,
                        P::store_name_spec(),
                        pkb@,
                        Some(Some((#[trigger] names@[i])@)),
                    ),
            decreases names@.len() - j,
        {
            if record_is_related(&own, &peer_store, &pkb, NameFilter::Exact(Some(names[j]))) {
                return Ok(true);
            }
            j = j + 1;
        }
        Ok(false)
    }
}


/// UTF-8 encoding is injective: equal encodings mean equal character
/// sequences.
pub proof fn lemma_encode_utf8_injective(a: Seq<char>, b: Seq<char>)
    requires
        encode_utf8(a) == encode_utf8(b),
    ensures
        a == b,
{
    vstd::utf8::encode_utf8_decode_utf8(a);
    vstd::utf8::encode_utf8_decode_utf8(b);
}

/// The mirror of edge `e` as seen from its peer: same name, behaviours
/// swapped, pointing back at the row `(sn, k)` that holds `e`.
pub open spec fn mirror_edge(sn: Seq<char>, k: Seq<u8>, e: EdgeView) -> EdgeView {
    EdgeView { peer_store: sn, peer_key: k, name: e.name, local: e.peer, peer: e.local }
}

/// The peer of edge `e`, recorded for row `(sn, k)`, records the mirror
/// edge back.
pub open spec fn has_mirror(v: DbView, sn: Seq<char>, k: Seq<u8>, e: EdgeView) -> bool {
    exists|j: int|
        0 <= j < rels_of(v, encode_utf8(e.peer_store), e.peer_key).len() && #[trigger] rels_of(
            v,
            encode_utf8(e.peer_store),
            e.peer_key,
        )[j] == mirror_edge(sn, k, e)
}

/// Relation symmetry: every outgoing edge recorded for an entity has its
/// mirror recorded for the peer — same optional name, behaviours
/// swapped.
pub open spec fn edges_symmetric(v: DbView) -> bool {
    forall|sn: Seq<char>, k: Seq<u8>, i: int|
        0 <= i < rels_of(v, encode_utf8(sn), k).len() ==> has_mirror(
            v,
            sn,
            k,
            #[trigger] rels_of(v, encode_utf8(sn), k)[i],
        )
}

/// Saving an entity preserves relation symmetry: a save writes no
/// relation record.
#[verifier::spinoff_prover]
#[verifier::rlimit(100)]
pub proof fn lemma_save_preserves_symmetry<T: Entity>(v: DbView, e: T)
    requires
        edges_symmetric(v),
    ensures
        edges_symmetric(crate::entity::saved_view::<T>(v, e)),
{
    let v1 = crate::entity::saved_view::<T>(v, e);
    assert forall|st: Seq<u8>, k: Seq<u8>| #[trigger] rels_of(v1, st, k) == rels_of(v, st, k) by {
        crate::kv::lemma_tree_names_disjoint(store_bytes::<T>(), st);
    }
    assert forall|sn: Seq<char>, k: Seq<u8>, i: int|
        0 <= i < rels_of(v1, encode_utf8(sn), k).len() implies has_mirror(
        v1,
        sn,
        k,
        #[trigger] rels_of(v1, encode_utf8(sn), k)[i],
    ) by {
        let e2 = rels_of(v1, encode_utf8(sn), k)[i];
        assert(rels_of(v, encode_utf8(sn), k)[i] == e2);
        assert(has_mirror(v, sn, k, e2));
        let j = choose|j: int|
            0 <= j < rels_of(v, encode_utf8(e2.peer_store), e2.peer_key).len() && #[trigger] rels_of(
                v,
                encode_utf8(e2.peer_store),
                e2.peer_key,
            )[j] == mirror_edge(sn, k, e2);
        assert(rels_of(v1, encode_utf8(e2.peer_store), e2.peer_key)[j] == mirror_edge(sn, k, e2));
    }
}

/// The view-shape `create_relation` leaves behind when it appends a
/// fresh edge: both rows extended together, nothing else changed.
pub open spec fn fresh_edge_shape<T: Entity, P: Entity>(
    v0: DbView,
    v1: DbView,
    skb: Seq<u8>,
    pkb: Seq<u8>,
    nm: Option<Seq<char>>,
    a: DeletionBehaviour,
    b: DeletionBehaviour,
) -> bool {
    let sb = store_bytes::<T>();
    let pb = store_bytes::<P>();
    let e1 = edge_between(P::store_name_spec(), pkb, nm, a, b);
    let e2 = edge_between(T::store_name_spec(), skb, nm, b, a);
    &&& (sb == pb && skb == pkb ==> rels_of(v1, sb, skb) == rels_of(v0, sb, skb).push(e1).push(e2))
    &&& (!(sb == pb && skb == pkb) ==> rels_of(v1, sb, skb) == rels_of(v0, sb, skb).push(e1)
        && rels_of(v1, pb, pkb) == rels_of(v0, pb, pkb).push(e2))
    &&& forall|st: Seq<u8>, kk: Seq<u8>|
        !(st == sb && kk == skb) && !(st == pb && kk == pkb) ==> #[trigger] rels_of(v1, st, kk)
            == rels_of(v0, st, kk)
}

proof fn lemma_fresh_edge_mirror_one<T: Entity, P: Entity>(
    v0: DbView,
    v1: DbView,
    skb: Seq<u8>,
    pkb: Seq<u8>,
    nm: Option<Seq<char>>,
    a: DeletionBehaviour,
    b: DeletionBehaviour,
    sn: Seq<char>,
    k: Seq<u8>,
    i: int,
)
    requires
        edges_symmetric(v0),
        fresh_edge_shape::<T, P>(v0, v1, skb, pkb, nm, a, b),
        0 <= i < rels_of(v1, encode_utf8(sn), k).len(),
    ensures
        has_mirror(v1, sn, k, rels_of(v1, encode_utf8(sn), k)[i]),
{
    let sb = store_bytes::<T>();
    let pb = store_bytes::<P>();
    let e1 = edge_between(P::store_name_spec(), pkb, nm, a, b);
    let e2 = edge_between(T::store_name_spec(), skb, nm, b, a);
    let snb = encode_utf8(sn);
    let e = rels_of(v1, snb, k)[i];
    let old_row = rels_of(v0, snb, k);
    if i < old_row.len() {
        assert(rels_of(v1, snb, k)[i] == old_row[i]);
        assert(has_mirror(v0, sn, k, e));
        let j = choose|j: int|
            0 <= j < rels_of(v0, encode_utf8(e.peer_store), e.peer_key).len() && #[trigger] rels_of(
                v0,
                encode_utf8(e.peer_store),
                e.peer_key,
            )[j] == mirror_edge(sn, k, e);
        let pr0 = rels_of(v0, encode_utf8(e.peer_store), e.peer_key);
        let pr1 = rels_of(v1, encode_utf8(e.peer_store), e.peer_key);
        assert(pr1.len() >= pr0.len() && pr1[j] == pr0[j]);
        assert(pr1[j] == mirror_edge(sn, k, e));
    } else {
        // A fresh edge: its mirror was appended with it.
        if sb == pb && skb == pkb {
            assert(snb == sb && k == skb);
            lemma_encode_utf8_injective(sn, T::store_name_spec());
            let row = rels_of(v1, sb, skb);
            if i == row.len() - 2 {
                assert(e == e1);
                assert(row[row.len() - 1] == e2);
                assert(mirror_edge(sn, k, e1) == e2);
                assert(rels_of(v1, encode_utf8(e.peer_store), e.peer_key)[row.len() - 1]
                    == mirror_edge(sn, k, e));
            } else {
                assert(i == row.len() - 1);
                assert(e == e2);
                lemma_encode_utf8_injective(P::store_name_spec(), T::store_name_spec());
                assert(row[row.len() - 2] == e1);
                assert(mirror_edge(sn, k, e2) == e1);
                assert(rels_of(v1, encode_utf8(e.peer_store), e.peer_key)[row.len() - 2]
                    == mirror_edge(sn, k, e));
            }
        } else if snb == sb && k == skb {
            lemma_encode_utf8_injective(sn, T::store_name_spec());
            assert(i == rels_of(v1, sb, skb).len() - 1);
            assert(e == e1);
            let prow = rels_of(v1, pb, pkb);
            assert(prow[prow.len() - 1] == e2);
            assert(mirror_edge(sn, k, e1) == e2);
            assert(rels_of(v1, encode_utf8(e.peer_store), e.peer_key)[prow.len() - 1]
                == mirror_edge(sn, k, e));
        } else {
            assert(snb == pb && k == pkb);
            lemma_encode_utf8_injective(sn, P::store_name_spec());
            assert(i == rels_of(v1, pb, pkb).len() - 1);
            assert(e == e2);
            let srow = rels_of(v1, sb, skb);
            assert(srow[srow.len() - 1] == e1);
            assert(mirror_edge(sn, k, e2) == e1);
            assert(rels_of(v1, encode_utf8(e.peer_store), e.peer_key)[srow.len() - 1]
                == mirror_edge(sn, k, e));
        }
    }
}

/// Creating a relation preserves relation symmetry: the new edge and its
/// mirror are written together, and no other row changes.  The
/// hypotheses are exactly what `create_relation` ensures when it appends
/// a fresh edge.
#[verifier::spinoff_prover]
#[verifier::rlimit(100)]
pub proof fn lemma_create_relation_preserves_symmetry<T: Entity, P: Entity>(
    v0: DbView,
    v1: DbView,
    skb: Seq<u8>,
    pkb: Seq<u8>,
    nm: Option<Seq<char>>,
    a: DeletionBehaviour,
    b: DeletionBehaviour,
)
    requires
        edges_symmetric(v0),
        fresh_edge_shape::<T, P>(v0, v1, skb, pkb, nm, a, b),
    ensures
        edges_symmetric(v1),
{
    assert forall|sn: Seq<char>, k: Seq<u8>, i: int|
        0 <= i < rels_of(v1, encode_utf8(sn), k).len() implies has_mirror(
        v1,
        sn,
        k,
        #[trigger] rels_of(v1, encode_utf8(sn), k)[i],
    ) by {
        lemma_fresh_edge_mirror_one::<T, P>(v0, v1, skb, pkb, nm, a, b, sn, k, i);
    }
}


/// Registering a type preserves relation symmetry: registration writes
/// only the metadata tree.
#[verifier::spinoff_prover]
#[verifier::rlimit(100)]
pub proof fn lemma_register_preserves_symmetry(v: DbView, store: Seq<u8>, row: Seq<u8>)
    requires
        edges_symmetric(v),
    ensures
        edges_symmetric(
            v.insert(
                crate::kv::family_tree_name(),
                tree_of(v, crate::kv::family_tree_name()).insert(store, row),
            ),
        ),
{
    let v1 = v.insert(
        crate::kv::family_tree_name(),
        tree_of(v, crate::kv::family_tree_name()).insert(store, row),
    );
    assert forall|st: Seq<u8>, k: Seq<u8>| #[trigger] rels_of(v1, st, k) == rels_of(v, st, k) by {
        crate::kv::lemma_tree_names_disjoint(st, st);
        assert(rel_tree_name(st) != crate::kv::family_tree_name());
    }
    assert forall|sn: Seq<char>, k: Seq<u8>, i: int|
        0 <= i < rels_of(v1, encode_utf8(sn), k).len() implies has_mirror(
        v1,
        sn,
        k,
        #[trigger] rels_of(v1, encode_utf8(sn), k)[i],
    ) by {
        let e2 = rels_of(v1, encode_utf8(sn), k)[i];
        assert(rels_of(v, encode_utf8(sn), k)[i] == e2);
        assert(has_mirror(v, sn, k, e2));
        let j = choose|j: int|
            0 <= j < rels_of(v, encode_utf8(e2.peer_store), e2.peer_key).len() && #[trigger] rels_of(
                v,
                encode_utf8(e2.peer_store),
                e2.peer_key,
            )[j] == mirror_edge(sn, k, e2);
        assert(rels_of(v1, encode_utf8(e2.peer_store), e2.peer_key)[j] == mirror_edge(sn, k, e2));
    }
}

/// An edge found by the duplicate check is reported by the row that
/// holds it.
proof fn lemma_find_triple_related(
    rels: Seq<EdgeView>,
    store: Seq<char>,
    key: Seq<u8>,
    name: Option<Seq<char>>,
)
    requires
        find_triple(rels, store, key, name) is Some,
    ensures
        is_related(rels, store, key, Some(name)),
        (match find_triple(rels, store, key, name) {
            Some(e) => e.peer_store == store && e.peer_key == key && e.name == name && exists|
                i: int,
            |
                0 <= i < rels.len() && #[trigger] rels[i] == e,
            None => true,
        }),
    decreases rels.len(),
{
    if rels.len() == 0 {
    } else if rels[0].peer_store == store && rels[0].peer_key == key && rels[0].name == name {
        assert(rels[0] == rels[0]);
    } else {
        lemma_find_triple_related(rels.skip(1), store, key, name);
        let i = choose|i: int|
            0 <= i < rels.skip(1).len() && (#[trigger] rels.skip(1)[i]).peer_store == store
                && rels.skip(1)[i].peer_key == key && name_filter_matches(
                rels.skip(1)[i],
                Some(name),
            );
        assert(rels[i + 1] == rels.skip(1)[i]);
        match find_triple(rels.skip(1), store, key, name) {
            Some(e) => {
                let j = choose|j: int|
                    0 <= j < rels.skip(1).len() && #[trigger] rels.skip(1)[j] == e;
                assert(rels[j + 1] == e);
            },
            None => {},
        }
    }
}

/// After any successful relation creation, both endpoints report the
/// edge under its name: a fresh edge through the appended mirrored pair,
/// an idempotent re-creation through the edge already present and its
/// mirror — the latter guaranteed by the symmetry invariant.
#[verifier::spinoff_prover]
#[verifier::rlimit(100)]
pub proof fn lemma_relation_visible_after_create<T: Entity, P: Entity>(
    v0: DbView,
    v1: DbView,
    skb: Seq<u8>,
    pkb: Seq<u8>,
    nm: Option<Seq<char>>,
    a: DeletionBehaviour,
    b: DeletionBehaviour,
)
    requires
        edges_symmetric(v0),
        ({
            let rels0 = rels_of(v0, store_bytes::<T>(), skb);
            let found = find_triple(rels0, P::store_name_spec(), pkb, nm);
            ||| (found is Some && v1 == v0)
            ||| (found is None && fresh_edge_shape::<T, P>(v0, v1, skb, pkb, nm, a, b))
        }),
    ensures
        is_related(rels_of(v1, store_bytes::<T>(), skb), P::store_name_spec(), pkb, Some(nm)),
        is_related(rels_of(v1, store_bytes::<P>(), pkb), T::store_name_spec(), skb, Some(nm)),
{
    let sb = store_bytes::<T>();
    let pb = store_bytes::<P>();
    let rels0 = rels_of(v0, sb, skb);
    let found = find_triple(rels0, P::store_name_spec(), pkb, nm);
    if found is Some && v1 == v0 {
        lemma_find_triple_related(rels0, P::store_name_spec(), pkb, nm);
        let e = found->0;
        assert(e.peer_store == P::store_name_spec() && e.peer_key == pkb && e.name == nm);
        let i = choose|i: int| 0 <= i < rels0.len() && #[trigger] rels0[i] == e;
        assert(rels_of(v0, encode_utf8(T::store_name_spec()), skb)[i] == e);
        assert(has_mirror(v0, T::store_name_spec(), skb, e));
        let j = choose|j: int|
            0 <= j < rels_of(v0, encode_utf8(e.peer_store), e.peer_key).len() && #[trigger] rels_of(
                v0,
                encode_utf8(e.peer_store),
                e.peer_key,
            )[j] == mirror_edge(T::store_name_spec(), skb, e);
        assert(rels_of(v1, pb, pkb)[j] == mirror_edge(T::store_name_spec(), skb, e));
    } else {
        let e1 = edge_between(P::store_name_spec(), pkb, nm, a, b);
        let e2 = edge_between(T::store_name_spec(), skb, nm, b, a);
        if sb == pb && skb == pkb {
            let row = rels_of(v1, sb, skb);
            assert(row[row.len() - 2] == e1);
            assert(row[row.len() - 1] == e2);
        } else {
            let r1 = rels_of(v1, sb, skb);
            assert(r1[r1.len() - 1] == e1);
            let r2 = rels_of(v1, pb, pkb);
            assert(r2[r2.len() - 1] == e2);
        }
    }
}

/// A created edge is reported by both endpoints under its name: the
/// hypotheses are what `create_relation` ensures when it appends a fresh
/// edge between two distinct entities.
pub proof fn lemma_relation_visible_both_sides<T: Entity, P: Entity>(
    v0: DbView,
    v1: DbView,
    skb: Seq<u8>,
    pkb: Seq<u8>,
    nm: Option<Seq<char>>,
    a: DeletionBehaviour,
    b: DeletionBehaviour,
)
    requires
        rels_of(v1, store_bytes::<T>(), skb) == rels_of(v0, store_bytes::<T>(), skb).push(
            edge_between(P::store_name_spec(), pkb, nm, a, b),
        ),
        rels_of(v1, store_bytes::<P>(), pkb) == rels_of(v0, store_bytes::<P>(), pkb).push(
            edge_between(T::store_name_spec(), skb, nm, b, a),
        ),
    ensures
        is_related(rels_of(v1, store_bytes::<T>(), skb), P::store_name_spec(), pkb, Some(nm)),
        is_related(rels_of(v1, store_bytes::<P>(), pkb), T::store_name_spec(), skb, Some(nm)),
{
    let r1 = rels_of(v1, store_bytes::<T>(), skb);
    assert(r1[r1.len() - 1] == edge_between(P::store_name_spec(), pkb, nm, a, b));
    let r2 = rels_of(v1, store_bytes::<P>(), pkb);
    assert(r2[r2.len() - 1] == edge_between(T::store_name_spec(), skb, nm, b, a));
}

} // verus!
