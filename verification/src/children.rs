//! Declared children and auto-increment keys.
//!
//! A child entity's key is `(parent_key, local_id)`, whose byte encoding
//! begins with the parent key's encoding; one prefix scan of the child
//! tree therefore finds exactly one parent's children, in local-id order.
//! Auto-increment picks one more than the greatest existing key — the
//! greatest in byte order, which for fixed-width big-endian keys is the
//! greatest number.

use vstd::prelude::*;
use crate::codec::{
    is_prefix_of, lemma_lex_lt_append, lemma_lex_lt_trans, lemma_u32_be_of_bytes,
    lemma_u32_be_order, lex_lt, read_u32_at, u32_be,
};
use crate::entity::{saved_view, store_bytes, Entity, EntityOps};
use crate::keys::AsBytes;
use crate::kv::{
    entity_tree, entity_tree_name, kv_last, kv_scan_prefix, scan_matches, top_key,
    top_prefixed_key, tree_of, Store,
};
use crate::DeletionBehaviour;
use crate::Error;

verus! {

/// Child-tree operations, provided for every entity type.
pub trait ChildOps: Entity {
    /// All entities of type `C` whose key begins with this entity's key,
    /// in key order.
    fn get_children<C: Entity>(&self, s: &Store) -> (r: Result<Vec<C>, Error>)
        ensures
            r matches Err(e) ==> e is Engine || e is Serialisation,
            r matches Ok(out) ==> exists|pairs: Seq<(Vec<u8>, Vec<u8>)>|
                {
                    &&& scan_matches(
                        tree_of(s.view(), entity_tree_name(store_bytes::<C>())),
                        self.key_spec().key_enc(),
                        pairs,
                    )
                    &&& out@.len() == pairs.len()
                    &&& forall|j: int|
                        0 <= j < pairs.len() ==> C::value_dec((#[trigger] pairs[j]).1@) == Some(
                            out@[j]@,
                        )
                },
    ;

    /// Keys `child` as this entity's next child — local id one past the
    /// greatest in use, `0` under a childless parent — and saves it.
    fn save_next_child<C: Entity<Key = (Self::Key, u32)>>(&self, child: &mut C, s: &mut Store) -> (r:
        Result<(), Error>)
        ensures
            r matches Err(e) ==> e is Engine || e is AutoIncrementUnsupported,
            r matches Err(e) && e is AutoIncrementUnsupported ==> ({
                let m = tree_of(old(s).view(), entity_tree_name(store_bytes::<C>()));
                let pb = self.key_spec().key_enc();
                &&& final(s).view() == old(s).view()
                &&& exists|k: Seq<u8>|
                    #[trigger] top_prefixed_key(m, pb, k) && (k.len() != pb.len() + 4 || k == pb
                        + u32_be(u32::MAX))
            }),
            r is Ok ==> ({
                let m = tree_of(old(s).view(), entity_tree_name(store_bytes::<C>()));
                let pb = self.key_spec().key_enc();
                let nk = final(child).key_spec();
                &&& nk.0 == self.key_spec()
                &&& final(s).view() == saved_view::<C>(old(s).view(), *final(child))
                &&& ((forall|k: Seq<u8>|
                    #[trigger] m.contains_key(k) ==> !is_prefix_of(pb, k)) ==> nk.1 == 0)
                &&& (forall|k: Seq<u8>|
                    #[trigger] m.contains_key(k) && is_prefix_of(pb, k) ==> lex_lt(
                        k,
                        nk.key_enc(),
                    ))
            }),
    ;
}

impl<T: Entity> ChildOps for T {
    fn get_children<C: Entity>(&self, s: &Store) -> (r: Result<Vec<C>, Error>)
    {
        let name = C::store_name();
        let nb = vstd::string::StrSliceExecFns::as_bytes_vec(name.as_str());
        let tree = entity_tree(&nb);
        let pb = self.get_key().key_bytes();
        let rows = match kv_scan_prefix(s.db_ref(), &tree, &pb) {
            Ok(r) => r,
            Err(e) => {
                return Err(e);
            },
        };
        let mut out: Vec<C> = Vec::new();
        let mut i: usize = 0;
        while i < rows.len()
            invariant
                i <= rows@.len(),
                out@.len() == i,
                forall|j: int|
                    0 <= j < i ==> C::value_dec((#[trigger] rows@[j]).1@) == Some(out@[j]@),
            decreases rows@.len() - i,
        {
            match C::from_bytes(&rows[i].1) {
                Some(c) => {
                    out.push(c);
                },
                None => {
                    return Err(Error::Serialisation);
                },
            }
            i = i + 1;
        }
        proof {
            let pairs = rows@;
            assert(scan_matches(
                tree_of(s.view(), entity_tree_name(store_bytes::<C>())),
                self.key_spec().key_enc(),
                pairs,
            ) && out@.len() == pairs.len() && forall|j: int|
                0 <= j < pairs.len() ==> C::value_dec((#[trigger] pairs[j]).1@) == Some(out@[j]@));
        }
        Ok(out)
    }

    #[verifier::rlimit(100)]
    fn save_next_child<C: Entity<Key = (Self::Key, u32)>>(&self, child: &mut C, s: &mut Store) -> (r:
        Result<(), Error>)
    {
        let name = C::store_name();
        let nb = vstd::string::StrSliceExecFns::as_bytes_vec(name.as_str());
        let tree = entity_tree(&nb);
        let pb = self.get_key().key_bytes();
        let ghost m = tree_of(s.view(), entity_tree_name(store_bytes::<C>()));
        let rows = match kv_scan_prefix(s.db_ref(), &tree, &pb) {
            Ok(r) => r,
            Err(e) => {
                return Err(e);
            },
        };
        let local: u32;
        if rows.len() == 0 {
            local = 0;
            proof {
                assert forall|k: Seq<u8>|
                    #[trigger] m.contains_key(k) && is_prefix_of(pb@, k) implies false by {}
            }
        } else {
            let last_key = &rows[rows.len() - 1].0;
            proof {
                let m = tree_of(s.view(), entity_tree_name(store_bytes::<C>()));
                let lk = last_key@;
                assert forall|k2: Seq<u8>|
                    #[trigger] m.contains_key(k2) && is_prefix_of(pb@, k2) implies (k2 == lk
                    || lex_lt(k2, lk)) by {
                    let i = choose|i: int| 0 <= i < rows@.len() && (#[trigger] rows@[i]).0@ == k2;
                    if i < rows@.len() - 1 {
                        assert(lex_lt(rows@[i].0@, rows@[rows@.len() - 1].0@));
                    }
                }
                assert(top_prefixed_key(m, pb@, lk));
            }
            if last_key.len() < 4 || last_key.len() - 4 != pb.len() {
                assert(last_key@.len() != pb@.len() + 4);
                return Err(Error::AutoIncrementUnsupported);
            }
            match read_u32_at(last_key, pb.len()) {
                Some((n, _)) => {
                    if n == u32::MAX {
                        proof {
                            let lk = last_key@;
                            let suffix = lk.subrange(pb@.len() as int, lk.len() as int);
                            assert(suffix.len() == 4);
                            assert(suffix[0] == lk[pb@.len() as int] && suffix[1] == lk[pb@.len()
                                as int + 1] && suffix[2] == lk[pb@.len() as int + 2] && suffix[3]
                                == lk[pb@.len() as int + 3]);
                            lemma_u32_be_of_bytes(suffix);
                            assert(lk =~= pb@ + suffix);
                            assert(lk == pb@ + u32_be(u32::MAX));
                        }
                        return Err(Error::AutoIncrementUnsupported);
                    }
                    local = n + 1;
                    proof {
                        let lk = last_key@;
                        let suffix = lk.subrange(pb@.len() as int, lk.len() as int);
                        assert(suffix.len() == 4);
                        assert(is_prefix_of(pb@, lk));
                        assert(suffix[0] == lk[pb@.len() as int] && suffix[1] == lk[pb@.len()
                            as int + 1] && suffix[2] == lk[pb@.len() as int + 2] && suffix[3]
                            == lk[pb@.len() as int + 3]);
                        lemma_u32_be_of_bytes(suffix);
                        assert(lk =~= pb@ + suffix);
                        assert(lk == pb@ + u32_be(n));
                        lemma_u32_be_order(n, (n + 1) as u32);
                        lemma_lex_lt_append(pb@, u32_be(n), u32_be((n + 1) as u32));
                        assert(lex_lt(lk, pb@ + u32_be((n + 1) as u32)));
                        assert forall|k: Seq<u8>|
                            #[trigger] m.contains_key(k) && is_prefix_of(pb@, k) implies (k == lk
                            || lex_lt(k, lk)) by {
                            let i = choose|i: int|
                                0 <= i < rows@.len() && (#[trigger] rows@[i]).0@ == k;
                            if i < rows@.len() - 1 {
                                assert(lex_lt(rows@[i].0@, rows@[rows@.len() - 1].0@));
                            }
                        }
                        assert forall|k: Seq<u8>|
                            #[trigger] m.contains_key(k) && is_prefix_of(pb@, k) implies lex_lt(
                            k,
                            pb@ + u32_be((n + 1) as u32),
                        ) by {
                            if k == lk {
                            } else {
                                lemma_lex_lt_trans(k, lk, pb@ + u32_be((n + 1) as u32));
                            }
                        }
                    }
                },
                None => {
                    return Err(Error::AutoIncrementUnsupported);
                },
            }
        }
        let new_key = (self.get_key().dup(), local);
        child.set_key(&new_key);
        proof {
            assert(new_key.key_enc() =~= pb@ + u32_be(local));
        }
        child.save(s)
    }
}

/// Auto-increment for numeric root keys: `save_next` keys the entity one
/// past the greatest key in its store (`0` in an empty store) and saves
/// it.
pub trait AutoIncrementEntity: Entity<Key = u32> {
    fn save_next(&mut self, s: &mut Store) -> (r: Result<(), Error>)
        ensures
            r matches Err(e) ==> e is Engine || e is AutoIncrementUnsupported,
            r matches Err(e) && e is AutoIncrementUnsupported ==> ({
                let m = tree_of(old(s).view(), entity_tree_name(store_bytes::<Self>()));
                &&& final(s).view() == old(s).view()
                &&& exists|k: Seq<u8>|
                    #[trigger] top_key(m, k) && (k.len() != 4 || k == u32_be(u32::MAX))
            }),
            r is Ok ==> ({
                let m = tree_of(old(s).view(), entity_tree_name(store_bytes::<Self>()));
                &&& final(s).view() == saved_view::<Self>(old(s).view(), *final(self))
                &&& ((forall|k: Seq<u8>| !m.contains_key(k)) ==> final(self).key_spec() == 0u32)
                &&& (forall|k: Seq<u8>|
                    #[trigger] m.contains_key(k) ==> lex_lt(k, u32_be(final(self).key_spec())))
            }),
    ;
}

impl<T: Entity<Key = u32>> AutoIncrementEntity for T {
    fn save_next(&mut self, s: &mut Store) -> (r: Result<(), Error>)
    {
        let name = T::store_name();
        let nb = vstd::string::StrSliceExecFns::as_bytes_vec(name.as_str());
        let tree = entity_tree(&nb);
        let ghost m = tree_of(s.view(), entity_tree_name(store_bytes::<Self>()));
        let next: u32;
        match kv_last(s.db_ref(), &tree) {
            Ok(None) => {
                next = 0;
            },
            Ok(Some((last_key, _))) => {
                proof {
                    let m = tree_of(s.view(), entity_tree_name(store_bytes::<Self>()));
                    assert(is_prefix_of(Seq::<u8>::empty(), last_key@)) by {
                        assert(last_key@.take(0) =~= Seq::<u8>::empty());
                    }
                    assert(top_key(m, last_key@));
                }
                if last_key.len() != 4 {
                    return Err(Error::AutoIncrementUnsupported);
                }
                match read_u32_at(&last_key, 0) {
                    Some((n, _)) => {
                        if n == u32::MAX {
                            proof {
                                let lk = last_key@;
                                assert(lk.subrange(0, 4) =~= lk);
                                lemma_u32_be_of_bytes(lk);
                                assert(lk == u32_be(u32::MAX));
                            }
                            return Err(Error::AutoIncrementUnsupported);
                        }
                        next = n + 1;
                        proof {
                            let lk = last_key@;
                            assert(lk.subrange(0, 4) =~= lk);
                            lemma_u32_be_of_bytes(lk);
                            assert(lk == u32_be(n));
                            lemma_u32_be_order(n, (n + 1) as u32);
                            assert forall|k: Seq<u8>| #[trigger] m.contains_key(k) implies lex_lt(
                                k,
                                u32_be((n + 1) as u32),
                            ) by {
                                if k == lk {
                                } else {
                                    lemma_lex_lt_trans(k, lk, u32_be((n + 1) as u32));
                                }
                            }
                        }
                    },
                    None => {
                        return Err(Error::AutoIncrementUnsupported);
                    },
                }
            },
            Err(e) => {
                return Err(e);
            },
        }
        self.set_key(&next);
        self.save(s)
    }
}


/// The declaration list names `name` as a relative.
pub open spec fn declares(decls: Seq<(Seq<char>, DeletionBehaviour)>, name: Seq<char>) -> bool {
    exists|i: int| 0 <= i < decls.len() && (#[trigger] decls[i]).0 == name
}

/// Whether the declaration list names `name`.
fn decls_contain(v: &Vec<(String, DeletionBehaviour)>, name: &String) -> (r: bool)
    ensures
        r == declares(crate::relation::decls_view(v@), name@),
{
    let ghost dv = crate::relation::decls_view(v@);
    let mut i: usize = 0;
    while i < v.len()
        invariant
            i <= v@.len(),
            dv == crate::relation::decls_view(v@),
            forall|j: int| 0 <= j < i ==> (#[trigger] dv[j]).0 != name@,
        decreases v@.len() - i,
    {
        assert(dv[i as int].0 == v@[i as int].0@);
        if crate::relate::str_eq(v[i].0.as_str(), name.as_str()) {
            return true;
        }
        i = i + 1;
    }
    false
}

/// Declared siblings: entities of mutually declared types sharing one
/// key.
pub trait SiblingOps: Entity {
    /// Keys `other` with this entity's key and saves it.  Refused unless
    /// both types declare each other as siblings.
    fn save_sibling<U: Entity<Key = Self::Key>>(&self, other: &mut U, s: &mut Store) -> (r: Result<
        (),
        Error,
    >)
        ensures
            r matches Err(e) ==> e is Engine || e is InvalidRelation,
            (r matches Err(e) && e is InvalidRelation) <==> !(declares(
                Self::sibling_stores_spec(),
                U::store_name_spec(),
            ) && declares(U::sibling_stores_spec(), Self::store_name_spec())),
            r matches Err(e) && e is InvalidRelation ==> final(s).view() == old(s).view(),
            r is Ok ==> final(other).key_spec() == self.key_spec() && final(s).view()
                == saved_view::<U>(old(s).view(), *final(other)),
    ;
}

impl<T: Entity> SiblingOps for T {
    fn save_sibling<U: Entity<Key = Self::Key>>(&self, other: &mut U, s: &mut Store) -> (r: Result<
        (),
        Error,
    >)
    {
        let mine = T::sibling_stores();
        let theirs = U::sibling_stores();
        let my_name = T::store_name();
        let their_name = U::store_name();
        if !decls_contain(&mine, &their_name) || !decls_contain(&theirs, &my_name) {
            return Err(Error::InvalidRelation);
        }
        other.set_key(self.get_key());
        other.save(s)
    }
}

} // verus!
