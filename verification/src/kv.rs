//! The tree layer: a thin capability over the sled key/value engine.
//!
//! The whole database is modelled as a map from tree names to trees, each
//! tree a map from byte keys to byte values; `db_view` names that abstract
//! contents.  Every access goes through the small trusted wrappers below,
//! whose contracts state what sled's own source shows: point reads and
//! writes behave as map lookup, insertion and removal, and prefix scans
//! return exactly the prefixed entries in ascending lexicographic order.
//!
//! Tree names are tagged with a leading byte (metadata, entity data,
//! relation records) so that entity stores can never collide with the
//! store's own system trees.

use vstd::prelude::*;
use crate::codec::{is_prefix_of, lex_lt};
use crate::Error;

verus! {

/// The abstract contents of a whole database: tree name to tree, tree
/// being a map from byte keys to byte values.  A tree absent from the map
/// is read as empty, see [`tree_of`].
pub type DbView = Map<Seq<u8>, Map<Seq<u8>, Seq<u8>>>;

#[verifier::external_type_specification]
#[verifier::external_body]
pub struct ExDb(sled::Db);

/// What the database holds, by tree name.
pub uninterp spec fn db_view(db: sled::Db) -> DbView;

/// The contents of tree `name`, empty when the tree was never written.
pub open spec fn tree_of(v: DbView, name: Seq<u8>) -> Map<Seq<u8>, Seq<u8>> {
    if v.contains_key(name) {
        v[name]
    } else {
        Map::empty()
    }
}

/// Name of the single metadata tree holding family descriptors.
pub open spec fn family_tree_name() -> Seq<u8> {
    seq![0u8]
}

/// Name of the tree holding the values of entity store `store`.
pub open spec fn entity_tree_name(store: Seq<u8>) -> Seq<u8> {
    seq![1u8] + store
}

/// Name of the tree holding the relation records of entity store `store`.
pub open spec fn rel_tree_name(store: Seq<u8>) -> Seq<u8> {
    seq![2u8] + store
}

/// Builds the concrete name of the metadata tree.
pub fn family_tree() -> (r: Vec<u8>)
    ensures
        r@ == family_tree_name(),
{
    let mut r: Vec<u8> = Vec::new();
    r.push(0u8);
    assert(r@ =~= family_tree_name());
    r
}

/// Builds the concrete name of an entity store's value tree.
pub fn entity_tree(store: &Vec<u8>) -> (r: Vec<u8>)
    ensures
        r@ == entity_tree_name(store@),
{
    let mut r: Vec<u8> = Vec::new();
    r.push(1u8);
    crate::codec::write_bytes(&mut r, store);
    assert(r@ =~= entity_tree_name(store@));
    r
}

/// Builds the concrete name of an entity store's relation tree.
pub fn rel_tree(store: &Vec<u8>) -> (r: Vec<u8>)
    ensures
        r@ == rel_tree_name(store@),
{
    let mut r: Vec<u8> = Vec::new();
    r.push(2u8);
    crate::codec::write_bytes(&mut r, store);
    assert(r@ =~= rel_tree_name(store@));
    r
}

/// The three tree families never collide, whatever the store names.
pub proof fn lemma_tree_names_disjoint(a: Seq<u8>, b: Seq<u8>)
    ensures
        entity_tree_name(a) != rel_tree_name(b),
        entity_tree_name(a) != family_tree_name(),
        rel_tree_name(a) != family_tree_name(),
        (entity_tree_name(a) == entity_tree_name(b)) == (a == b),
        (rel_tree_name(a) == rel_tree_name(b)) == (a == b),
{
    assert(entity_tree_name(a)[0] != rel_tree_name(b)[0]);
    assert(entity_tree_name(a).len() != family_tree_name().len() || entity_tree_name(
        a,
    )[0] != family_tree_name()[0]);
    assert(rel_tree_name(a).len() != family_tree_name().len() || rel_tree_name(
        a,
    )[0] != family_tree_name()[0]);
    if entity_tree_name(a) == entity_tree_name(b) {
        assert(a =~= (seq![1u8] + a).skip(1));
        assert(b =~= (seq![1u8] + b).skip(1));
    }
    if rel_tree_name(a) == rel_tree_name(b) {
        assert(a =~= (seq![2u8] + a).skip(1));
        assert(b =~= (seq![2u8] + b).skip(1));
    }
}

/// A scan result lists exactly the entries of `m` whose key begins with
/// `prefix`, in strictly ascending lexicographic key order.
pub open spec fn scan_matches(
    m: Map<Seq<u8>, Seq<u8>>,
    prefix: Seq<u8>,
    r: Seq<(Vec<u8>, Vec<u8>)>,
) -> bool {
    &&& forall|i: int|
        #![trigger r[i]]
        0 <= i < r.len() ==> is_prefix_of(prefix, r[i].0@) && m.contains_key(r[i].0@) && m[r[i].0@]
            == r[i].1@
    &&& forall|k: Seq<u8>|
        #![trigger m.contains_key(k)]
        m.contains_key(k) && is_prefix_of(prefix, k) ==> exists|i: int|
            #![trigger r[i]]
            0 <= i < r.len() && r[i].0@ == k
    &&& forall|i: int, j: int|
        #![trigger r[i], r[j]]
        0 <= i < j < r.len() ==> lex_lt(r[i].0@, r[j].0@)
}


/// `k` is the lexicographically greatest key of `m`.
pub open spec fn top_key(m: Map<Seq<u8>, Seq<u8>>, k: Seq<u8>) -> bool {
    m.contains_key(k) && forall|k2: Seq<u8>| #[trigger] m.contains_key(k2) ==> k2 == k || lex_lt(k2, k)
}

/// `k` is the lexicographically greatest key of `m` among those
/// beginning with `p`.
pub open spec fn top_prefixed_key(m: Map<Seq<u8>, Seq<u8>>, p: Seq<u8>, k: Seq<u8>) -> bool {
    &&& m.contains_key(k)
    &&& is_prefix_of(p, k)
    &&& forall|k2: Seq<u8>|
        #[trigger] m.contains_key(k2) && is_prefix_of(p, k2) ==> k2 == k || lex_lt(k2, k)
}

/// Relies on `sled::Db::open_tree` and `sled::Tree::get`: a point read
/// returns the value stored under the key, if any.
#[verifier::external_body]
pub fn kv_get(db: &sled::Db, tree: &Vec<u8>, key: &Vec<u8>) -> (r: Result<Option<Vec<u8>>, Error>)
    ensures
        r matches Err(e) ==> e is Engine,
        r matches Ok(o) ==> {
            let m = tree_of(db_view(*db), tree@);
            &&& (o is Some <==> m.contains_key(key@))
            &&& (o matches Some(v) ==> m[key@] == v@)
        },
{
    match db.open_tree(tree.as_slice()) {
        Ok(t) => match t.get(key.as_slice()) {
            Ok(o) => Ok(o.map(|v| v.to_vec())),
            Err(_) => Err(Error::Engine),
        },
        Err(_) => Err(Error::Engine),
    }
}

/// Relies on `sled::Db::open_tree` and `sled::Tree::insert`: an atomic
/// single-key write stores the value under the key and changes nothing
/// else.
#[verifier::external_body]
pub fn kv_put(db: &mut sled::Db, tree: &Vec<u8>, key: &Vec<u8>, val: &Vec<u8>) -> (r: Result<
    (),
    Error,
>)
    ensures
        r matches Err(e) ==> e is Engine,
        r is Ok ==> db_view(*final(db)) == db_view(*old(db)).insert(
            tree@,
            tree_of(db_view(*old(db)), tree@).insert(key@, val@),
        ),
{
    match db.open_tree(tree.as_slice()) {
        Ok(t) => match t.insert(key.as_slice(), val.as_slice()) {
            Ok(_) => Ok(()),
            Err(_) => Err(Error::Engine),
        },
        Err(_) => Err(Error::Engine),
    }
}

/// Relies on `sled::Db::open_tree` and `sled::Tree::remove`: an atomic
/// single-key removal deletes the entry under the key and changes nothing
/// else.
#[verifier::external_body]
pub fn kv_del(db: &mut sled::Db, tree: &Vec<u8>, key: &Vec<u8>) -> (r: Result<(), Error>)
    ensures
        r matches Err(e) ==> e is Engine,
        r is Ok ==> db_view(*final(db)) == db_view(*old(db)).insert(
            tree@,
            tree_of(db_view(*old(db)), tree@).remove(key@),
        ),
{
    match db.open_tree(tree.as_slice()) {
        Ok(t) => match t.remove(key.as_slice()) {
            Ok(_) => Ok(()),
            Err(_) => Err(Error::Engine),
        },
        Err(_) => Err(Error::Engine),
    }
}

/// Relies on `sled::Db::open_tree` and `sled::Tree::scan_prefix`: the
/// iterator yields exactly the entries whose key begins with the prefix,
/// in ascending lexicographic key order.
#[verifier::external_body]
pub fn kv_scan_prefix(db: &sled::Db, tree: &Vec<u8>, prefix: &Vec<u8>) -> (r: Result<
    Vec<(Vec<u8>, Vec<u8>)>,
    Error,
>)
    ensures
        r matches Err(e) ==> e is Engine,
        r matches Ok(v) ==> scan_matches(tree_of(db_view(*db), tree@), prefix@, v@),
{
    let t = db.open_tree(tree.as_slice()).map_err(|_| Error::Engine)?;
    let mut out = Vec::new();
    for item in t.scan_prefix(prefix.as_slice()) {
        match item {
            Ok((k, v)) => out.push((k.to_vec(), v.to_vec())),
            Err(_) => return Err(Error::Engine),
        }
    }
    Ok(out)
}

/// Relies on `sled::Db::open_tree` and `sled::Tree::last`: the entry with
/// the lexicographically greatest key, or nothing when the tree is empty.
#[verifier::external_body]
pub fn kv_last(db: &sled::Db, tree: &Vec<u8>) -> (r: Result<Option<(Vec<u8>, Vec<u8>)>, Error>)
    ensures
        r matches Err(e) ==> e is Engine,
        r matches Ok(o) ==> {
            let m = tree_of(db_view(*db), tree@);
            &&& (o is None ==> forall|k: Seq<u8>| !m.contains_key(k))
            &&& (o matches Some(p) ==> m.contains_key(p.0@) && m[p.0@] == p.1@ && forall|k: Seq<u8>|
                #![trigger m.contains_key(k)]
                m.contains_key(k) ==> k == p.0@ || lex_lt(k, p.0@))
        },
{
    match db.open_tree(tree.as_slice()) {
        Ok(t) => match t.last() {
            Ok(o) => Ok(o.map(|(k, v)| (k.to_vec(), v.to_vec()))),
            Err(_) => Err(Error::Engine),
        },
        Err(_) => Err(Error::Engine),
    }
}

/// Relies on `sled::Db::open_tree` and `sled::Tree::len`: the number of
/// entries in the tree.
#[verifier::external_body]
pub fn kv_len(db: &sled::Db, tree: &Vec<u8>) -> (r: Result<usize, Error>)
    ensures
        r matches Err(e) ==> e is Engine,
        r matches Ok(n) ==> {
            let m = tree_of(db_view(*db), tree@);
            m.dom().finite() && n as nat == m.dom().len()
        },
{
    match db.open_tree(tree.as_slice()) {
        Ok(t) => Ok(t.len()),
        Err(_) => Err(Error::Engine),
    }
}

/// A handle on one database, the only shared mutable resource.  All
/// entity operations go through a `Store`; its abstract contents are
/// `self.view()`.
pub struct Store {
    db: sled::Db,
}

impl Store {
    /// The abstract contents of the database behind this handle.
    pub closed spec fn view(&self) -> DbView {
        db_view(self.db)
    }

    /// Wraps an open database handle.  The handle must be the only one in
    /// use for this database while the store is alive.
    pub fn attach(db: sled::Db) -> (s: Store)
        ensures
            s.view() == db_view(db),
    {
        Store { db }
    }

    pub(crate) fn db_ref(&self) -> (r: &sled::Db)
        ensures
            db_view(*r) == self.view(),
    {
        &self.db
    }

    pub(crate) fn db_mut(&mut self) -> (r: &mut sled::Db)
        ensures
            db_view(*r) == old(self).view(),
            final(self).view() == db_view(*final(r)),
    {
        &mut self.db
    }
}

} // verus!
