//! Re-parenting: moving an existing child under a new parent.
//!
//! Adoption computes the child's next free key under the new parent and
//! performs a symmetric move: the value is rewritten under the new key,
//! the child's relations row follows it, every peer's back-reference is
//! redirected to the new key, and the child's own descendants are moved
//! by the same key-prefix rewrite, store by store along the declared
//! child graph.  The old rows are deleted only after the new ones are
//! written.

use vstd::prelude::*;
use crate::codec::{
    bytes_eq, is_prefix_of, lemma_lex_lt_append, lemma_lex_lt_trans, lemma_u32_be_of_bytes,
    lemma_u32_be_order, lex_lt, read_u32_at, sub_vec, u32_be, write_bytes,
};
use crate::entity::{store_bytes, stored, Entity, EntityOps};
use crate::keys::AsBytes;
use crate::kv::{
    entity_tree, entity_tree_name, family_tree, kv_del, kv_get, kv_put, kv_scan_prefix, rel_tree,
    rel_tree_name, tree_of, Store,
};
use crate::relation::{
    load_relations, save_relations, Edge, EntityRelations, FamilyDescriptor,
};
use crate::Error;

verus! {

/// Points every edge of the given peers that targets `(store, old_key)`
/// at `new_key` instead, keeping the relation graph symmetric across the
/// move.
fn redirect_backrefs(
    s: &mut Store,
    store: &Vec<u8>,
    old_key: &Vec<u8>,
    new_key: &Vec<u8>,
    edges: &EntityRelations,
) -> (r: Result<(), Error>)
    ensures
        r matches Err(e) ==> e is Engine || e is Serialisation,
{
    let mut i: usize = 0;
    while i < edges.edges.len()
        decreases edges.edges@.len() - i,
    {
        let e = &edges.edges[i];
        let peer_nb = vstd::string::StrSliceExecFns::as_bytes_vec(e.peer_store.as_str());
        // A row being moved holds no back-reference to itself here; its
        // own edges moved with it.
        if !(bytes_eq(&peer_nb, store) && bytes_eq(&e.peer_key, old_key)) {
            let row = match load_relations(s, &peer_nb, &e.peer_key) {
                Ok(rr) => rr,
                Err(er) => {
                    return Err(er);
                },
            };
            let mut rewritten: Vec<Edge> = Vec::new();
            let mut j: usize = 0;
            while j < row.edges.len()
                decreases row.edges@.len() - j,
            {
                let b = &row.edges[j];
                let b_nb = vstd::string::StrSliceExecFns::as_bytes_vec(b.peer_store.as_str());
                let mut nb = b.clone();
                if bytes_eq(&b_nb, store) && bytes_eq(&b.peer_key, old_key) {
                    nb.peer_key = new_key.clone();
                }
                rewritten.push(nb);
                j = j + 1;
            }
            let new_row = EntityRelations { edges: rewritten };
            match save_relations(s, &peer_nb, &e.peer_key, &new_row) {
                Ok(()) => {},
                Err(er) => {
                    return Err(er);
                },
            }
        }
        i = i + 1;
    }
    Ok(())
}

/// Moves one entity's relations row from its old key to its new key and
/// redirects every back-reference.  On success the old key's row is
/// gone.
fn move_relations_row(
    s: &mut Store,
    store: &Vec<u8>,
    old_key: &Vec<u8>,
    new_key: &Vec<u8>,
) -> (r: Result<(), Error>)
    ensures
        r matches Err(e) ==> e is Engine || e is Serialisation,
        r is Ok && old_key@ != new_key@ ==> !tree_of(
            final(s).view(),
            rel_tree_name(store@),
        ).contains_key(old_key@),
{
    if bytes_eq(old_key, new_key) {
        return Ok(());
    }
    let row = match load_relations(s, store, old_key) {
        Ok(rr) => rr,
        Err(er) => {
            return Err(er);
        },
    };
    let rtree = rel_tree(store);
    if row.edges.len() == 0 {
        return kv_del(s.db_mut(), &rtree, old_key);
    }
    match redirect_backrefs(s, store, old_key, new_key, &row) {
        Ok(()) => {},
        Err(er) => {
            return Err(er);
        },
    }
    match save_relations(s, store, new_key, &row) {
        Ok(()) => {},
        Err(er) => {
            return Err(er);
        },
    }
    kv_del(s.db_mut(), &rtree, old_key)
}

/// Moves every row of `store` whose key begins with `old_prefix` to the
/// key with `new_prefix` substituted, relations rows included.
fn move_prefixed_rows(
    s: &mut Store,
    store: &Vec<u8>,
    old_prefix: &Vec<u8>,
    new_prefix: &Vec<u8>,
) -> (r: Result<(), Error>)
    ensures
        r matches Err(e) ==> e is Engine || e is Serialisation,
{
    let etree = entity_tree(store);
    let rows = match kv_scan_prefix(s.db_ref(), &etree, old_prefix) {
        Ok(r) => r,
        Err(er) => {
            return Err(er);
        },
    };
    let mut i: usize = 0;
    while i < rows.len()
        decreases rows@.len() - i,
    {
        let k = &rows[i].0;
        if old_prefix.len() <= k.len() {
            let mut new_k = new_prefix.clone();
            let suffix = sub_vec(k, old_prefix.len(), k.len());
            write_bytes(&mut new_k, &suffix);
            match kv_put(s.db_mut(), &etree, &new_k, &rows[i].1) {
                Ok(()) => {},
                Err(er) => {
                    return Err(er);
                },
            }
            match kv_del(s.db_mut(), &etree, k) {
                Ok(()) => {},
                Err(er) => {
                    return Err(er);
                },
            }
            match move_relations_row(s, store, k, &new_k) {
                Ok(()) => {},
                Err(er) => {
                    return Err(er);
                },
            }
        }
        i = i + 1;
    }
    Ok(())
}

/// Moves the descendants of a moved entity: walks the declared child
/// graph from its store and applies the key-prefix rewrite in every
/// store reached.  The traversal is bounded by the declared stores; the
/// explicit budget gives the loop a decreasing measure.
fn move_descendants(
    s: &mut Store,
    store: &Vec<u8>,
    old_prefix: &Vec<u8>,
    new_prefix: &Vec<u8>,
) -> (r: Result<(), Error>)
    ensures
        r matches Err(e) ==> e is Engine || e is Serialisation,
{
    let mut work: Vec<Vec<u8>> = Vec::new();
    let mut seen: Vec<Vec<u8>> = Vec::new();
    work.push(store.clone());
    seen.push(store.clone());
    let mut budget: u64 = u64::MAX;
    loop
        decreases budget,
    {
        if work.len() == 0 {
            break;
        }
        if budget == 0 {
            return Err(Error::Engine);
        }
        budget = budget - 1;
        let current = match work.pop() {
            Some(c) => c,
            None => {
                return Err(Error::Engine);
            },
        };
        // The starting store's own row moves separately; only its
        // descendants' stores are rewritten here.
        if !bytes_eq(&current, store) {
            match move_prefixed_rows(s, &current, old_prefix, new_prefix) {
                Ok(()) => {},
                Err(er) => {
                    return Err(er);
                },
            }
        }
        let ftree = family_tree();
        let fam = match kv_get(s.db_ref(), &ftree, &current) {
            Ok(Some(row)) => match FamilyDescriptor::from_bytes(&row) {
                Some(f) => Some(f),
                None => {
                    return Err(Error::Serialisation);
                },
            },
            Ok(None) => None,
            Err(er) => {
                return Err(er);
            },
        };
        match &fam {
            Some(f) => {
                let mut i: usize = 0;
                while i < f.child_trees.len()
                    decreases f.child_trees@.len() - i,
                {
                    let cnb = vstd::string::StrSliceExecFns::as_bytes_vec(
                        f.child_trees[i].0.as_str(),
                    );
                    let mut known = false;
                    let mut j: usize = 0;
                    while j < seen.len()
                        decreases seen@.len() - j,
                    {
                        if bytes_eq(&seen[j], &cnb) {
                            known = true;
                        }
                        j = j + 1;
                    }
                    if !known {
                        seen.push(cnb.clone());
                        work.push(cnb);
                    }
                    i = i + 1;
                }
            },
            None => {},
        }
    }
    Ok(())
}

/// Adoption, provided for every entity type.
pub trait AdoptOps: Entity {
    /// Re-parents `child` under this entity: keys it as this entity's
    /// next child, moves its value, its relations row and its
    /// descendants to the new key, redirects every back-reference, and
    /// deletes the old rows only after the new ones are written.
    fn adopt_as_next_child<C: Entity<Key = (Self::Key, u32)>>(
        &self,
        child: &mut C,
        s: &mut Store,
    ) -> (r: Result<(), Error>)
        ensures
            r matches Err(e) ==> e is Engine || e is Serialisation
                || e is AutoIncrementUnsupported,
            r matches Err(e) && e is AutoIncrementUnsupported ==> final(s).view() == old(s).view(),
            r is Ok ==> ({
                let m = tree_of(old(s).view(), entity_tree_name(store_bytes::<C>()));
                let pb = self.key_spec().key_enc();
                let nk = final(child).key_spec();
                &&& nk.0 == self.key_spec()
                &&& ((forall|k: Seq<u8>|
                    #[trigger] m.contains_key(k) ==> !is_prefix_of(pb, k)) ==> nk.1 == 0)
                &&& (forall|k: Seq<u8>|
                    #[trigger] m.contains_key(k) && is_prefix_of(pb, k) ==> lex_lt(
                        k,
                        nk.key_enc(),
                    ))
                &&& stored(final(s).view(), store_bytes::<C>(), nk.key_enc()) == Some(
                    final(child).value_enc(),
                )
                &&& (old(child).key_spec().key_enc() != nk.key_enc() ==> stored(
                    final(s).view(),
                    store_bytes::<C>(),
                    old(child).key_spec().key_enc(),
                ) is None)
                &&& (old(child).key_spec().key_enc() != nk.key_enc() ==> !tree_of(
                    final(s).view(),
                    rel_tree_name(store_bytes::<C>()),
                ).contains_key(old(child).key_spec().key_enc()))
            }),
    ;
}

impl<T: Entity> AdoptOps for T {
    #[verifier::rlimit(100)]
    fn adopt_as_next_child<C: Entity<Key = (Self::Key, u32)>>(
        &self,
        child: &mut C,
        s: &mut Store,
    ) -> (r: Result<(), Error>)
    {
        let cname = C::store_name();
        let cnb = vstd::string::StrSliceExecFns::as_bytes_vec(cname.as_str());
        let ctree = entity_tree(&cnb);
        let old_kb = child.get_key().key_bytes();
        // The next free local id under the new parent.
        let pb = self.get_key().key_bytes();
        let ghost m = tree_of(s.view(), entity_tree_name(store_bytes::<C>()));
        let prefixed = match kv_scan_prefix(s.db_ref(), &ctree, &pb) {
            Ok(r) => r,
            Err(er) => {
                return Err(er);
            },
        };
        let local: u32;
        if prefixed.len() == 0 {
            local = 0;
            proof {
                assert forall|k: Seq<u8>|
                    #[trigger] m.contains_key(k) && is_prefix_of(pb@, k) implies false by {}
            }
        } else {
            let last_key = &prefixed[prefixed.len() - 1].0;
            if last_key.len() < 4 || last_key.len() - 4 != pb.len() {
                return Err(Error::AutoIncrementUnsupported);
            }
            match read_u32_at(last_key, pb.len()) {
                Some((n, _)) => {
                    if n == u32::MAX {
                        return Err(Error::AutoIncrementUnsupported);
                    }
                    local = n + 1;
                    proof {
                        let lk = last_key@;
                        let suffix = lk.subrange(pb@.len() as int, lk.len() as int);
                        assert(suffix.len() == 4);
                        assert(is_prefix_of(pb@, lk));
                        assert(suffix[0] == lk[pb@.len() as int] && suffix[1] == lk[pb@.len()
                            as int + 1] && suffix[2] == lk[pb@.len() as int + 2] && suffix[3]
                            == lk[pb@.len() as int + 3]);
                        lemma_u32_be_of_bytes(suffix);
                        assert(lk =~= pb@ + suffix);
                        assert(lk == pb@ + u32_be(n));
                        lemma_u32_be_order(n, (n + 1) as u32);
                        lemma_lex_lt_append(pb@, u32_be(n), u32_be((n + 1) as u32));
                        assert(lex_lt(lk, pb@ + u32_be((n + 1) as u32)));
                        assert forall|k: Seq<u8>|
                            #[trigger] m.contains_key(k) && is_prefix_of(pb@, k) implies (k == lk
                            || lex_lt(k, lk)) by {
                            let i = choose|i: int|
                                0 <= i < prefixed@.len() && (#[trigger] prefixed@[i]).0@ == k;
                            if i < prefixed@.len() - 1 {
                                assert(lex_lt(prefixed@[i].0@, prefixed@[prefixed@.len() - 1].0@));
                            }
                        }
                        assert forall|k: Seq<u8>|
                            #[trigger] m.contains_key(k) && is_prefix_of(pb@, k) implies lex_lt(
                            k,
                            pb@ + u32_be((n + 1) as u32),
                        ) by {
                            if k == lk {
                            } else {
                                lemma_lex_lt_trans(k, lk, pb@ + u32_be((n + 1) as u32));
                            }
                        }
                    }
                },
                None => {
                    return Err(Error::AutoIncrementUnsupported);
                },
            }
        }
        let new_key = (self.get_key().dup(), local);
        child.set_key(&new_key);
        let new_kb = child.get_key().key_bytes();
        proof {
            assert(new_key.key_enc() =~= pb@ + u32_be(local));
        }
        if bytes_eq(&old_kb, &new_kb) {
            return child.save(s);
        }
        // Descendants first, then the child's own relations row.
        match move_descendants(s, &cnb, &old_kb, &new_kb) {
            Ok(()) => {},
            Err(er) => {
                return Err(er);
            },
        }
        match move_relations_row(s, &cnb, &old_kb, &new_kb) {
            Ok(()) => {},
            Err(er) => {
                return Err(er);
            },
        }
        proof {
            crate::kv::lemma_tree_names_disjoint(cnb@, cnb@);
        }
        // The value itself: written under the new key, then the old row
        // is deleted.
        match child.save(s) {
            Ok(()) => {},
            Err(er) => {
                return Err(er);
            },
        }
        let res = kv_del(s.db_mut(), &ctree, &old_kb);
        proof {
            if res is Ok {
                assert(stored(s.view(), store_bytes::<C>(), new_kb@) == Some(
                    final(child).value_enc(),
                ));
                assert(!tree_of(s.view(), rel_tree_name(store_bytes::<C>())).contains_key(
                    old_kb@,
                ));
            }
        }
        res
    }
}

} // verus!
