//! The import/export envelope: a bundle of entities, each together with
//! its relations record when it has one, for durable transfer.
//!
//! Export reads each entity's current relations row and includes it only
//! when non-empty; import saves the entities first, then writes their
//! relation records unchanged.  No symmetry repair is attempted: a bundle
//! is assumed to carry both endpoints of every edge it mentions.

use vstd::prelude::*;
use crate::entity::{decoded, store_bytes, Entity, EntityOps};
use crate::keys::AsBytes;
use crate::kv::{entity_tree_name, rel_tree_name, tree_of, DbView, Store};
use crate::relation::{load_relations, rels_of, save_relations, EntityRelations};
use crate::Error;
use vstd::string::StringExecFns;

verus! {

/// No other bundle entry reuses the key of entry `i`.
pub open spec fn key_unique<T: Entity>(entries: Seq<(T, Option<EntityRelations>)>, i: int) -> bool {
    forall|j: int|
        0 <= j < entries.len() && j != i ==> (#[trigger] entries[j]).0.key_spec().key_enc()
            != entries[i].0.key_spec().key_enc()
}

/// No entry among the first `n` uses key bytes `k`.
pub open spec fn key_untouched<T: Entity>(
    entries: Seq<(T, Option<EntityRelations>)>,
    n: int,
    k: Seq<u8>,
) -> bool {
    forall|j: int| 0 <= j < n ==> (#[trigger] entries[j]).0.key_spec().key_enc() != k
}

/// Saves one bundled entity and its relation record; everything under
/// any other key keeps its value and its edges.
#[verifier::rlimit(100)]
fn import_one<T: Entity>(s: &mut Store, nb: &Vec<u8>, e: &T, orr: &Option<EntityRelations>) -> (r:
    Result<(), Error>)
    requires
        nb@ == store_bytes::<T>(),
    ensures
        r matches Err(er) ==> er is Engine,
        r is Ok ==> ({
            let kb = e.key_spec().key_enc();
            &&& decoded::<T>(final(s).view(), kb) == Some(e@)
            &&& (match orr {
                Some(rr) => rels_of(final(s).view(), nb@, kb) == rr@,
                None => rels_of(final(s).view(), nb@, kb) == rels_of(old(s).view(), nb@, kb),
            })
            &&& forall|k: Seq<u8>|
                k != kb ==> (decoded::<T>(final(s).view(), k) == decoded::<T>(old(s).view(), k)
                    && rels_of(final(s).view(), nb@, k) == rels_of(old(s).view(), nb@, k))
            &&& forall|t: Seq<u8>|
                t != entity_tree_name(nb@) && t != rel_tree_name(nb@) ==> #[trigger] tree_of(
                    final(s).view(),
                    t,
                ) == tree_of(old(s).view(), t)
        }),
{
    let ghost vb = s.view();
    let kb = e.get_key().key_bytes();
    match e.save(s) {
        Ok(()) => {},
        Err(er) => {
            return Err(er);
        },
    }
    proof {
        e.lemma_round_trip();
        crate::kv::lemma_tree_names_disjoint(nb@, nb@);
    }
    match orr {
        Some(rr) => {
            match save_relations(s, nb, &kb, rr) {
                Ok(()) => {},
                Err(er) => {
                    return Err(er);
                },
            }
        },
        None => {},
    }
    proof {
        let vn = s.view();
        assert(decoded::<T>(vn, kb@) == Some(e@));
        assert forall|k: Seq<u8>| k != kb@ implies (decoded::<T>(vn, k) == decoded::<T>(vb, k)
            && rels_of(vn, nb@, k) == rels_of(vb, nb@, k)) by {}
        assert forall|t: Seq<u8>|
            t != entity_tree_name(nb@) && t != rel_tree_name(nb@) implies #[trigger] tree_of(
            vn,
            t,
        ) == tree_of(vb, t) by {}
    }
    Ok(())
}

/// A transfer bundle: entities of one type, each with its relations
/// record when it has outgoing edges.
pub struct JsonWrapper<T: Entity>(pub Vec<(T, Option<EntityRelations>)>);

impl<T: Entity> JsonWrapper<T> {
    /// Bundles the given entities together with their current relation
    /// records, read from the database; an entity with no edges carries
    /// no record.
    pub fn from(source_vec: Vec<T>, s: &Store) -> (r: Result<JsonWrapper<T>, Error>)
        ensures
            r matches Err(e) ==> e is Engine || e is Serialisation,
            r matches Ok(w) ==> ({
                let src = source_vec@;
                &&& w.0@.len() == src.len()
                &&& forall|i: int|
                    0 <= i < src.len() ==> ((#[trigger] w.0@[i]).0 == src[i] && (match w.0@[i].1 {
                        Some(rr) => rr@ == rels_of(
                            s.view(),
                            store_bytes::<T>(),
                            src[i].key_spec().key_enc(),
                        ) && rr@.len() > 0,
                        None => rels_of(
                            s.view(),
                            store_bytes::<T>(),
                            src[i].key_spec().key_enc(),
                        ).len() == 0,
                    }))
            }),
    {
        let nb = vstd::string::StrSliceExecFns::as_bytes_vec(T::store_name().as_str());
        let ghost src = source_vec@;
        let mut rest = source_vec;
        let mut out: Vec<(T, Option<EntityRelations>)> = Vec::new();
        while rest.len() > 0
            invariant
                nb@ == store_bytes::<T>(),
                out@.len() + rest@.len() == src.len(),
                rest@ == src.skip(out@.len() as int),
                forall|i: int|
                    0 <= i < out@.len() ==> ((#[trigger] out@[i]).0 == src[i] && (match out@[i].1 {
                        Some(rr) => rr@ == rels_of(
                            s.view(),
                            store_bytes::<T>(),
                            src[i].key_spec().key_enc(),
                        ) && rr@.len() > 0,
                        None => rels_of(
                            s.view(),
                            store_bytes::<T>(),
                            src[i].key_spec().key_enc(),
                        ).len() == 0,
                    })),
            decreases rest@.len(),
        {
            let ghost done = out@.len() as int;
            assert(rest@[0] == src[done]);
            let e = rest.remove(0);
            let kb = e.get_key().key_bytes();
            let rr = match load_relations(s, &nb, &kb) {
                Ok(rr) => rr,
                Err(er) => {
                    return Err(er);
                },
            };
            if rr.edges.len() > 0 {
                assert(rr@.len() == rr.edges@.len());
                out.push((e, Some(rr)));
            } else {
                assert(rr@ =~= Seq::<crate::relation::EdgeView>::empty());
                out.push((e, None));
            }
            proof {
                assert(rest@ =~= src.skip(out@.len() as int));
            }
        }
        assert(out@.len() == src.len());
        Ok(JsonWrapper(out))
    }

    /// Imports the bundle: saves every entity, then writes its relation
    /// record.  Where no other entry reuses an entry's key, that entry's
    /// stored value decodes back to it, and its relations row holds
    /// exactly the bundled edges — or stays as it was when the bundle
    /// carried none.
    #[verifier::rlimit(100)]
    pub fn save(self, s: &mut Store) -> (r: Result<(), Error>)
        ensures
            r matches Err(e) ==> e is Engine,
            r is Ok ==> forall|t: Seq<u8>|
                t != entity_tree_name(store_bytes::<T>()) && t != rel_tree_name(store_bytes::<T>())
                    ==> #[trigger] tree_of(final(s).view(), t) == tree_of(old(s).view(), t),
            r is Ok ==> forall|k: Seq<u8>|
                #![trigger rels_of(final(s).view(), store_bytes::<T>(), k)]
                key_untouched(self.0@, self.0@.len() as int, k) ==> (decoded::<T>(
                    final(s).view(),
                    k,
                ) == decoded::<T>(old(s).view(), k) && rels_of(final(s).view(), store_bytes::<T>(), k)
                    == rels_of(old(s).view(), store_bytes::<T>(), k)),
            r is Ok ==> ({
                let entries = self.0@;
                forall|i: int|
                    0 <= i < entries.len() && key_unique(entries, i) ==> ({
                        let kb = (#[trigger] entries[i]).0.key_spec().key_enc();
                        &&& decoded::<T>(final(s).view(), kb) == Some(entries[i].0@)
                        &&& (match entries[i].1 {
                            Some(rr) => rels_of(final(s).view(), store_bytes::<T>(), kb) == rr@,
                            None => rels_of(final(s).view(), store_bytes::<T>(), kb) == rels_of(
                                old(s).view(),
                                store_bytes::<T>(),
                                kb,
                            ),
                        })
                    })
            }),
    {
        let nb = vstd::string::StrSliceExecFns::as_bytes_vec(T::store_name().as_str());
        let ghost entries = self.0@;
        let mut rest = self.0;
        let total = rest.len();
        assert(entries.len() == total);
        let mut done: usize = 0;
        while rest.len() > 0
            invariant
                nb@ == store_bytes::<T>(),
                entries.len() <= usize::MAX,
                done + rest@.len() == entries.len(),
                rest@ == entries.skip(done as int),
                forall|k: Seq<u8>|
                    key_untouched(entries, done as int, k) ==> (decoded::<T>(s.view(), k)
                        == decoded::<T>(old(s).view(), k) && rels_of(s.view(), store_bytes::<T>(), k)
                        == rels_of(old(s).view(), store_bytes::<T>(), k)),
                forall|t: Seq<u8>|
                    t != entity_tree_name(store_bytes::<T>()) && t != rel_tree_name(
                        store_bytes::<T>(),
                    ) ==> #[trigger] tree_of(s.view(), t) == tree_of(old(s).view(), t),
                forall|i: int|
                    0 <= i < done && key_unique(entries, i) ==> ({
                        let kb = (#[trigger] entries[i]).0.key_spec().key_enc();
                        &&& decoded::<T>(s.view(), kb) == Some(entries[i].0@)
                        &&& (match entries[i].1 {
                            Some(rr) => rels_of(s.view(), store_bytes::<T>(), kb) == rr@,
                            None => rels_of(s.view(), store_bytes::<T>(), kb) == rels_of(
                                old(s).view(),
                                store_bytes::<T>(),
                                kb,
                            ),
                        })
                    }),
            decreases rest@.len(),
        {
            assert(rest@[0] == entries[done as int]);
            let (e, orr) = rest.remove(0);
            let ghost vb = s.view();
            match import_one::<T>(s, &nb, &e, &orr) {
                Ok(()) => {},
                Err(er) => {
                    return Err(er);
                },
            }
            proof {
                let vn = s.view();
                let kb = e.key_spec().key_enc();
                assert forall|k: Seq<u8>|
                    key_untouched(entries, done + 1, k) implies (decoded::<T>(vn, k)
                    == decoded::<T>(old(s).view(), k) && rels_of(vn, nb@, k) == rels_of(
                    old(s).view(),
                    nb@,
                    k,
                )) by {
                    assert(entries[done as int].0.key_spec().key_enc() != k);
                    assert(key_untouched(entries, done as int, k));
                }
                assert forall|i: int|
                    0 <= i < done + 1 && key_unique(entries, i) implies ({
                    let kbi = (#[trigger] entries[i]).0.key_spec().key_enc();
                    &&& decoded::<T>(vn, kbi) == Some(entries[i].0@)
                    &&& (match entries[i].1 {
                        Some(rr) => rels_of(vn, store_bytes::<T>(), kbi) == rr@,
                        None => rels_of(vn, store_bytes::<T>(), kbi) == rels_of(
                            old(s).view(),
                            store_bytes::<T>(),
                            kbi,
                        ),
                    })
                }) by {
                    let kbi = entries[i].0.key_spec().key_enc();
                    if i < done {
                        assert(entries[done as int].0.key_spec().key_enc() != kbi);
                    } else {
                        assert(kbi == kb);
                        match entries[i].1 {
                            Some(rr) => {},
                            None => {
                                assert(key_untouched(entries, done as int, kbi));
                                assert(rels_of(vb, nb@, kbi) == rels_of(old(s).view(), nb@, kbi));
                            },
                        }
                    }
                }
            }
            done = done + 1;
            proof {
                assert(rest@ =~= entries.skip(done as int));
            }
        }
        Ok(())
    }
}

/// Exporting from one database and importing into an empty one
/// reproduces every entity value and every edge of the bundle: the view
/// after import decodes each source entity back and holds each source
/// entity's edge list, provided the bundle's keys are distinct.
pub proof fn lemma_export_import_round_trip<T: Entity>(
    v1: DbView,
    v2: DbView,
    v0: DbView,
    entries: Seq<(T, Option<EntityRelations>)>,
    source: Seq<T>,
)
    requires
        // the destination started empty
        v0 == Map::<Seq<u8>, Map<Seq<u8>, Seq<u8>>>::empty(),
        // what the export guarantees of the bundle, read from `v1`
        entries.len() == source.len(),
        forall|i: int|
            0 <= i < source.len() ==> ((#[trigger] entries[i]).0 == source[i] && (match entries[i].1 {
                Some(rr) => rr@ == rels_of(v1, store_bytes::<T>(), source[i].key_spec().key_enc())
                    && rr@.len() > 0,
                None => rels_of(v1, store_bytes::<T>(), source[i].key_spec().key_enc()).len() == 0,
            })),
        // what the import into `v0` guarantees of `v2`
        forall|i: int|
            0 <= i < entries.len() && key_unique(entries, i) ==> ({
                let kb = (#[trigger] entries[i]).0.key_spec().key_enc();
                &&& decoded::<T>(v2, kb) == Some(entries[i].0@)
                &&& (match entries[i].1 {
                    Some(rr) => rels_of(v2, store_bytes::<T>(), kb) == rr@,
                    None => rels_of(v2, store_bytes::<T>(), kb) == rels_of(
                        v0,
                        store_bytes::<T>(),
                        kb,
                    ),
                })
            }),
        // the bundle's keys are pairwise distinct
        forall|i: int| 0 <= i < entries.len() ==> key_unique(entries, i),
    ensures
        forall|i: int|
            0 <= i < source.len() ==> (decoded::<T>(
                v2,
                (#[trigger] source[i]).key_spec().key_enc(),
            ) == Some(source[i]@) && rels_of(v2, store_bytes::<T>(), source[i].key_spec().key_enc())
                == rels_of(v1, store_bytes::<T>(), source[i].key_spec().key_enc())),
{
    assert forall|i: int|
        0 <= i < source.len() implies (decoded::<T>(
        v2,
        (#[trigger] source[i]).key_spec().key_enc(),
    ) == Some(source[i]@) && rels_of(v2, store_bytes::<T>(), source[i].key_spec().key_enc())
        == rels_of(v1, store_bytes::<T>(), source[i].key_spec().key_enc())) by {
        assert(entries[i].0 == source[i]);
        let kb = entries[i].0.key_spec().key_enc();
        match entries[i].1 {
            Some(rr) => {},
            None => {
                assert(rels_of(v2, store_bytes::<T>(), kb) == rels_of(v0, store_bytes::<T>(), kb));
                assert(rels_of(v0, store_bytes::<T>(), kb) =~= Seq::<crate::relation::EdgeView>::empty());
                assert(rels_of(v1, store_bytes::<T>(), kb).len() == 0);
                assert(rels_of(v1, store_bytes::<T>(), kb) =~= Seq::<crate::relation::EdgeView>::empty());
            },
        }
    }
}

} // verus!
