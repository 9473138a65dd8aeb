//! The entity capability: the contract every entity type fulfils.
//!
//! An entity type names its store, declares its children and siblings,
//! and gives its values a byte codec proved to round-trip.  Everything
//! else — saving, fetching, counting, registering, relating and removing —
//! is provided here once, generically, against the abstract database
//! view.

use vstd::prelude::*;
use vstd::utf8::encode_utf8;
use crate::keys::AsBytes;
use crate::kv::{
    entity_tree, entity_tree_name, family_tree, family_tree_name, kv_get, kv_len, kv_put, tree_of,
    DbView, Store,
};
use crate::relation::{decls_view, family_enc, family_of, FamilyDescriptor, FamilyView};
use crate::DeletionBehaviour;
use crate::Error;

verus! {

/// A typed record stored under the byte encoding of its key.  The
/// type's view is its mathematical content; the decoder yields views, the
/// encoder works on values.
pub trait Entity: Sized + View {
    /// The key type; its byte encoding orders and prefixes the store.
    type Key: AsBytes;

    /// The store's name, stable and unique in the database.
    spec fn store_name_spec() -> Seq<char>;

    /// The declared schema version.
    spec fn version_spec() -> u32;

    /// The declared child stores with their deletion behaviours.
    spec fn child_stores_spec() -> Seq<(Seq<char>, DeletionBehaviour)>;

    /// The declared sibling stores with their deletion behaviours.
    spec fn sibling_stores_spec() -> Seq<(Seq<char>, DeletionBehaviour)>;

    /// This entity's key.
    spec fn key_spec(&self) -> Self::Key;

    /// The byte encoding of this entity's value.
    spec fn value_enc(&self) -> Seq<u8>;

    /// The decoding of a stored value.
    spec fn value_dec(b: Seq<u8>) -> Option<Self::V>;

    fn store_name() -> (s: String)
        ensures
            s@ == Self::store_name_spec(),
    ;

    fn version() -> (v: u32)
        ensures
            v == Self::version_spec(),
    ;

    fn child_stores() -> (v: Vec<(String, DeletionBehaviour)>)
        ensures
            decls_view(v@) == Self::child_stores_spec(),
    ;

    fn sibling_stores() -> (v: Vec<(String, DeletionBehaviour)>)
        ensures
            decls_view(v@) == Self::sibling_stores_spec(),
    ;

    fn get_key(&self) -> (k: &Self::Key)
        ensures
            *k == self.key_spec(),
    ;

    fn set_key(&mut self, k: &Self::Key)
        ensures
            final(self).key_spec() == *k,
    ;

    fn to_bytes(&self) -> (b: Vec<u8>)
        ensures
            b@ == self.value_enc(),
    ;

    fn from_bytes(b: &Vec<u8>) -> (r: Option<Self>)
        ensures
            r matches Some(v) ==> Self::value_dec(b@) == Some(v@),
            r is None ==> Self::value_dec(b@) is None,
    ;

    /// Decoding an encoded value yields the value back.
    proof fn lemma_round_trip(&self)
        ensures
            Self::value_dec(self.value_enc()) == Some(self@),
    ;
}

/// The UTF-8 bytes of an entity type's store name.
pub open spec fn store_bytes<T: Entity>() -> Seq<u8> {
    encode_utf8(T::store_name_spec())
}

/// A store name beginning with two underscores is reserved for the
/// store's own metadata and refused at registration.
pub open spec fn reserved_name(b: Seq<u8>) -> bool {
    b.len() >= 2 && b[0] == 0x5f && b[1] == 0x5f
}

/// The raw row stored for key bytes `kb` in `store`'s value tree.
pub open spec fn stored(v: DbView, store: Seq<u8>, kb: Seq<u8>) -> Option<Seq<u8>> {
    let t = tree_of(v, entity_tree_name(store));
    if t.contains_key(kb) {
        Some(t[kb])
    } else {
        None
    }
}

/// The decoded entity stored under key bytes `kb`, when present and
/// readable.
pub open spec fn decoded<T: Entity>(v: DbView, kb: Seq<u8>) -> Option<T::V> {
    match stored(v, store_bytes::<T>(), kb) {
        Some(row) => T::value_dec(row),
        None => None,
    }
}

/// The database after saving entity `e`: only its row in its own value
/// tree changes.
pub open spec fn saved_view<T: Entity>(v: DbView, e: T) -> DbView {
    let name = entity_tree_name(store_bytes::<T>());
    v.insert(name, tree_of(v, name).insert(e.key_spec().key_enc(), e.value_enc()))
}

/// The family descriptor an entity type declares.
pub open spec fn declared_family<T: Entity>() -> FamilyView {
    FamilyView {
        name: T::store_name_spec(),
        version: T::version_spec(),
        children: T::child_stores_spec(),
        siblings: T::sibling_stores_spec(),
    }
}

/// Saving then fetching yields the entity back, whatever the database
/// held before: the save/get round trip.
pub proof fn lemma_save_then_get<T: Entity>(v: DbView, e: T)
    ensures
        decoded::<T>(saved_view::<T>(v, e), e.key_spec().key_enc()) == Some(e@),
{
    e.lemma_round_trip();
}

/// The entities found under the key encodings `kbs`, in that order,
/// skipping the absent and the unreadable.
pub open spec fn fetched<T: Entity>(v: DbView, kbs: Seq<Seq<u8>>) -> Seq<T::V>
    decreases kbs.len(),
{
    if kbs.len() == 0 {
        Seq::empty()
    } else {
        let rest = fetched::<T>(v, kbs.skip(1));
        match decoded::<T>(v, kbs[0]) {
            Some(e) => seq![e] + rest,
            None => rest,
        }
    }
}

/// Looking one key further extends the fetch result at the end.
pub proof fn lemma_fetched_push<T: Entity>(v: DbView, kbs: Seq<Seq<u8>>, k: Seq<u8>)
    ensures
        fetched::<T>(v, kbs.push(k)) == fetched::<T>(v, kbs) + (match decoded::<T>(v, k) {
            Some(e) => seq![e],
            None => Seq::<T::V>::empty(),
        }),
    decreases kbs.len(),
{
    let tail = match decoded::<T>(v, k) {
        Some(e) => seq![e],
        None => Seq::<T::V>::empty(),
    };
    if kbs.len() == 0 {
        assert(kbs.push(k)[0] == k);
        assert(kbs.push(k).skip(1) =~= Seq::<Seq<u8>>::empty());
        assert(fetched::<T>(v, Seq::<Seq<u8>>::empty()) == Seq::<T::V>::empty());
        assert(fetched::<T>(v, kbs) == Seq::<T::V>::empty());
        match decoded::<T>(v, k) {
            Some(e) => {
                assert(fetched::<T>(v, kbs.push(k)) == seq![e] + Seq::<T::V>::empty());
                assert(seq![e] + Seq::<T::V>::empty() =~= Seq::<T::V>::empty() + seq![e]);
            },
            None => {
                assert(fetched::<T>(v, kbs.push(k)) == Seq::<T::V>::empty());
                assert(Seq::<T::V>::empty() + Seq::<T::V>::empty() =~= Seq::<T::V>::empty());
            },
        }
    } else {
        assert(kbs.push(k)[0] == kbs[0]);
        assert(kbs.push(k).skip(1) =~= kbs.skip(1).push(k));
        lemma_fetched_push::<T>(v, kbs.skip(1), k);
        match decoded::<T>(v, kbs[0]) {
            Some(e) => {
                assert(fetched::<T>(v, kbs.push(k)) == seq![e] + (fetched::<T>(v, kbs.skip(1))
                    + tail));
                assert(fetched::<T>(v, kbs) == seq![e] + fetched::<T>(v, kbs.skip(1)));
                assert(seq![e] + (fetched::<T>(v, kbs.skip(1)) + tail) =~= (seq![e] + fetched::<T>(
                    v,
                    kbs.skip(1),
                )) + tail);
            },
            None => {
                assert(fetched::<T>(v, kbs.push(k)) == fetched::<T>(v, kbs.skip(1)) + tail);
                assert(fetched::<T>(v, kbs) == fetched::<T>(v, kbs.skip(1)));
            },
        }
    }
}

/// Reads the entities stored under the given raw key encodings, in that
/// order, returning only those found and readable.
pub fn fetch_each_raw<T: Entity>(kbs: &Vec<Vec<u8>>, s: &Store) -> (r: Result<Vec<T>, Error>)
    ensures
        r matches Err(e) ==> e is Engine,
        kbs@.len() == 0 ==> r is Ok,
        r matches Ok(out) ==> out@.map_values(|e: T| e@) == fetched::<T>(
            s.view(),
            kbs@.map_values(|k: Vec<u8>| k@),
        ),
{
    let name = T::store_name();
    let nb = vstd::string::StrSliceExecFns::as_bytes_vec(name.as_str());
    let tree = entity_tree(&nb);
    let ghost kseqs = kbs@.map_values(|k: Vec<u8>| k@);
    let mut out: Vec<T> = Vec::new();
    let mut i: usize = 0;
    while i < kbs.len()
        invariant
            i <= kbs@.len(),
            kseqs == kbs@.map_values(|k: Vec<u8>| k@),
            nb@ == store_bytes::<T>(),
            tree@ == entity_tree_name(store_bytes::<T>()),
            out@.map_values(|e: T| e@) == fetched::<T>(s.view(), kseqs.take(i as int)),
        decreases kbs@.len() - i,
    {
        proof {
            assert(kseqs.take(i + 1) =~= kseqs.take(i as int).push(kseqs[i as int]));
            lemma_fetched_push::<T>(s.view(), kseqs.take(i as int), kseqs[i as int]);
        }
        let ghost before = out@;
        match kv_get(s.db_ref(), &tree, &kbs[i]) {
            Ok(Some(row)) => match T::from_bytes(&row) {
                Some(v) => {
                    out.push(v);
                    assert(out@.map_values(|e: T| e@) =~= before.map_values(|e: T| e@).push(
                        out@[out@.len() - 1]@,
                    ));
                },
                None => {},
            },
            Ok(None) => {},
            Err(e) => {
                return Err(e);
            },
        }
        i = i + 1;
    }
    assert(kseqs.take(kbs@.len() as int) =~= kseqs);
    Ok(out)
}

/// Generic storage operations, provided for every entity type.
pub trait EntityOps: Entity {
    /// Writes this entity under the encoding of its key, overwriting any
    /// prior value there.
    fn save(&self, s: &mut Store) -> (r: Result<(), Error>)
        ensures
            r matches Err(e) ==> e is Engine,
            r is Ok ==> final(s).view() == saved_view::<Self>(old(s).view(), *self),
    ;

    /// Reads the entity stored under `key`, absence reading as `None`.
    fn get(key: &Self::Key, s: &Store) -> (r: Result<Option<Self>, Error>)
        ensures
            r matches Err(e) ==> e is Engine || e is Serialisation,
            r matches Ok(o) ==> match o {
                Some(v) => decoded::<Self>(s.view(), key.key_enc()) == Some(v@),
                None => decoded::<Self>(s.view(), key.key_enc()) is None && stored(
                    s.view(),
                    store_bytes::<Self>(),
                    key.key_enc(),
                ) is None,
            },
    ;

    /// Reads the entities stored under `keys`, in that order, returning
    /// only those found.
    fn get_each(keys: &Vec<Self::Key>, s: &Store) -> (r: Result<Vec<Self>, Error>)
        ensures
            r matches Err(e) ==> e is Engine,
            r matches Ok(out) ==> out@.map_values(|e: Self| e@) == fetched::<Self>(
                s.view(),
                keys@.map_values(|k: Self::Key| k.key_enc()),
            ),
    ;

    /// The number of entities in this type's store.
    fn get_count(s: &Store) -> (r: Result<usize, Error>)
        ensures
            r matches Err(e) ==> e is Engine,
            r matches Ok(n) ==> {
                let m = tree_of(s.view(), entity_tree_name(store_bytes::<Self>()));
                m.dom().finite() && n as nat == m.dom().len()
            },
    ;

    /// Records this type's family descriptor.  A first registration
    /// writes it; a repeated identical registration changes nothing; a
    /// conflicting one is refused.
    fn register(s: &mut Store) -> (r: Result<(), Error>)
        ensures
            r matches Err(e) ==> e is Engine || e is RegistrationConflict
                || e is InvalidStoreName,
            (r matches Err(e) && e is InvalidStoreName) <==> reserved_name(store_bytes::<Self>()),
            r matches Err(e) && e is RegistrationConflict ==> ({
                let t = tree_of(old(s).view(), family_tree_name());
                t.contains_key(store_bytes::<Self>()) && t[store_bytes::<Self>()] != family_enc(
                    declared_family::<Self>(),
                )
            }),
            r is Ok ==> ({
                let t = tree_of(old(s).view(), family_tree_name());
                t.contains_key(store_bytes::<Self>()) ==> t[store_bytes::<Self>()] == family_enc(
                    declared_family::<Self>(),
                )
            }),
            r is Ok ==> final(s).view() == old(s).view().insert(
                family_tree_name(),
                tree_of(old(s).view(), family_tree_name()).insert(
                    store_bytes::<Self>(),
                    family_enc(declared_family::<Self>()),
                ),
            ),
            r is Ok ==> family_of(final(s).view(), store_bytes::<Self>()) == Some(
                declared_family::<Self>(),
            ),
            r matches Err(e) && (e is RegistrationConflict || e is InvalidStoreName)
                ==> final(s).view() == old(s).view(),
    ;
}

impl<T: Entity> EntityOps for T {
    fn save(&self, s: &mut Store) -> (r: Result<(), Error>)
        ensures
            r matches Err(e) ==> e is Engine,
            r is Ok ==> final(s).view() == saved_view::<Self>(old(s).view(), *self),
    {
        let name = T::store_name();
        let nb = vstd::string::StrSliceExecFns::as_bytes_vec(name.as_str());
        let tree = entity_tree(&nb);
        let kb = self.get_key().key_bytes();
        let row = self.to_bytes();
        kv_put(s.db_mut(), &tree, &kb, &row)
    }

    fn get(key: &Self::Key, s: &Store) -> (r: Result<Option<Self>, Error>)
        ensures
            r matches Err(e) ==> e is Engine || e is Serialisation,
            r matches Ok(o) ==> match o {
                Some(v) => decoded::<Self>(s.view(), key.key_enc()) == Some(v@),
                None => decoded::<Self>(s.view(), key.key_enc()) is None && stored(
                    s.view(),
                    store_bytes::<Self>(),
                    key.key_enc(),
                ) is None,
            },
    {
        let name = T::store_name();
        let nb = vstd::string::StrSliceExecFns::as_bytes_vec(name.as_str());
        let tree = entity_tree(&nb);
        let kb = key.key_bytes();
        match kv_get(s.db_ref(), &tree, &kb) {
            Ok(Some(row)) => match T::from_bytes(&row) {
                Some(v) => Ok(Some(v)),
                None => Err(Error::Serialisation),
            },
            Ok(None) => Ok(None),
            Err(e) => Err(e),
        }
    }

    fn get_each(keys: &Vec<Self::Key>, s: &Store) -> (r: Result<Vec<Self>, Error>)
        ensures
            r matches Err(e) ==> e is Engine,
            r matches Ok(out) ==> out@.map_values(|e: Self| e@) == fetched::<Self>(
                s.view(),
                keys@.map_values(|k: Self::Key| k.key_enc()),
            ),
    {
        let name = T::store_name();
        let nb = vstd::string::StrSliceExecFns::as_bytes_vec(name.as_str());
        let tree = entity_tree(&nb);
        let ghost kbs = keys@.map_values(|k: Self::Key| k.key_enc());
        let mut out: Vec<Self> = Vec::new();
        let mut i: usize = 0;
        while i < keys.len()
            invariant
                i <= keys@.len(),
                kbs == keys@.map_values(|k: Self::Key| k.key_enc()),
                nb@ == store_bytes::<Self>(),
                tree@ == entity_tree_name(store_bytes::<Self>()),
                out@.map_values(|e: Self| e@) == fetched::<Self>(s.view(), kbs.take(i as int)),
            decreases keys@.len() - i,
        {
            let kb = keys[i].key_bytes();
            proof {
                assert(kbs.take(i + 1) =~= kbs.take(i as int).push(kbs[i as int]));
                lemma_fetched_push::<Self>(s.view(), kbs.take(i as int), kbs[i as int]);
            }
            let ghost before = out@;
            match kv_get(s.db_ref(), &tree, &kb) {
                Ok(Some(row)) => match T::from_bytes(&row) {
                    Some(v) => {
                        out.push(v);
                        assert(out@.map_values(|e: Self| e@) =~= before.map_values(
                            |e: Self| e@,
                        ).push(out@[out@.len() - 1]@));
                    },
                    None => {},
                },
                Ok(None) => {},
                Err(e) => {
                    return Err(e);
                },
            }
            i = i + 1;
        }
        assert(kbs.take(keys@.len() as int) =~= kbs);
        Ok(out)
    }

    fn get_count(s: &Store) -> (r: Result<usize, Error>)
        ensures
            r matches Err(e) ==> e is Engine,
            r matches Ok(n) ==> {
                let m = tree_of(s.view(), entity_tree_name(store_bytes::<Self>()));
                m.dom().finite() && n as nat == m.dom().len()
            },
    {
        let name = T::store_name();
        let nb = vstd::string::StrSliceExecFns::as_bytes_vec(name.as_str());
        let tree = entity_tree(&nb);
        kv_len(s.db_ref(), &tree)
    }

    fn register(s: &mut Store) -> (r: Result<(), Error>)
        ensures
            r matches Err(e) ==> e is Engine || e is RegistrationConflict
                || e is InvalidStoreName,
            (r matches Err(e) && e is InvalidStoreName) <==> reserved_name(store_bytes::<Self>()),
            r matches Err(e) && e is RegistrationConflict ==> ({
                let t = tree_of(old(s).view(), family_tree_name());
                t.contains_key(store_bytes::<Self>()) && t[store_bytes::<Self>()] != family_enc(
                    declared_family::<Self>(),
                )
            }),
            r is Ok ==> ({
                let t = tree_of(old(s).view(), family_tree_name());
                t.contains_key(store_bytes::<Self>()) ==> t[store_bytes::<Self>()] == family_enc(
                    declared_family::<Self>(),
                )
            }),
            r is Ok ==> final(s).view() == old(s).view().insert(
                family_tree_name(),
                tree_of(old(s).view(), family_tree_name()).insert(
                    store_bytes::<Self>(),
                    family_enc(declared_family::<Self>()),
                ),
            ),
            r is Ok ==> family_of(final(s).view(), store_bytes::<Self>()) == Some(
                declared_family::<Self>(),
            ),
            r matches Err(e) && (e is RegistrationConflict || e is InvalidStoreName)
                ==> final(s).view() == old(s).view(),
    {
        let name = T::store_name();
        let nb = vstd::string::StrSliceExecFns::as_bytes_vec(name.as_str());
        if nb.len() >= 2 && nb[0] == 0x5f && nb[1] == 0x5f {
            return Err(Error::InvalidStoreName);
        }
        let desc = FamilyDescriptor {
            name,
            version: T::version(),
            child_trees: T::child_stores(),
            sibling_trees: T::sibling_stores(),
        };
        assert(desc@ == declared_family::<Self>());
        let row = desc.to_bytes();
        let tree = family_tree();
        match kv_get(s.db_ref(), &tree, &nb) {
            Ok(Some(existing)) => {
                if crate::codec::bytes_eq(&existing, &row) {
                    proof {
                        crate::relation::lemma_family_round_trip(desc@);
                        let v = s.view();
                        let t = tree_of(v, family_tree_name());
                        assert(t.insert(nb@, row@) =~= t);
                        assert(v.insert(family_tree_name(), t) =~= v);
                    }
                    Ok(())
                } else {
                    Err(Error::RegistrationConflict)
                }
            },
            Ok(None) => {
                let res = kv_put(s.db_mut(), &tree, &nb, &row);
                proof {
                    if res is Ok {
                        crate::relation::lemma_family_round_trip(desc@);
                    }
                }
                res
            },
            Err(e) => Err(e),
        }
    }
}

} // verus!
