//! Reference entity types exercising the capability.
//!
//! These are the hand-written bindings a schema generator would emit for
//! six declared types: three roots, two children and a grandchild,
//! covering numeric, string and compound keys and every deletion
//! behaviour.  The integration tests drive the store through them.

use vstd::prelude::*;
use vstd::utf8::encode_utf8;
use crate::codec::{
    lemma_read_tail_str_at, lemma_read_u32_at, read_tail_str, read_tail_str_at, read_u32,
    read_u32_at, u32_be, write_bytes, write_u32,
};
use crate::entity::Entity;
use crate::relation::decls_view;
use crate::DeletionBehaviour;
use vstd::string::StringExecFns;

verus! {

/// A root entity with a numeric key and a text property; it declares
/// `entity_3` as a cascading sibling.
pub struct Entity1 {
    pub id: u32,
    pub prop1: String,
}

/// The mathematical content of an [`Entity1`].
pub struct Entity1View {
    pub id: u32,
    pub prop1: Seq<char>,
}

impl View for Entity1 {
    type V = Entity1View;

    open spec fn view(&self) -> Entity1View {
        Entity1View { id: self.id, prop1: self.prop1@ }
    }
}

impl Entity for Entity1 {
    type Key = u32;

    open spec fn store_name_spec() -> Seq<char> {
        "entity_1"@
    }

    open spec fn version_spec() -> u32 {
        1
    }

    open spec fn child_stores_spec() -> Seq<(Seq<char>, DeletionBehaviour)> {
        Seq::empty()
    }

    open spec fn sibling_stores_spec() -> Seq<(Seq<char>, DeletionBehaviour)> {
        seq![("entity_3"@, DeletionBehaviour::Cascade)]
    }

    open spec fn key_spec(&self) -> u32 {
        self.id
    }

    open spec fn value_enc(&self) -> Seq<u8> {
        u32_be(self.id) + encode_utf8(self.prop1@)
    }

    open spec fn value_dec(b: Seq<u8>) -> Option<Entity1View> {
        match read_u32(b, 0) {
            Some((id, p)) => match read_tail_str(b, p) {
                Some(prop1) => Some(Entity1View { id, prop1 }),
                None => None,
            },
            None => None,
        }
    }

    fn store_name() -> (s: String) {
        String::from_str("entity_1")
    }

    fn version() -> (v: u32) {
        1
    }

    fn child_stores() -> (v: Vec<(String, DeletionBehaviour)>) {
        let v: Vec<(String, DeletionBehaviour)> = Vec::new();
        assert(decls_view(v@) =~= Self::child_stores_spec());
        v
    }

    fn sibling_stores() -> (v: Vec<(String, DeletionBehaviour)>) {
        let mut v: Vec<(String, DeletionBehaviour)> = Vec::new();
        v.push((String::from_str("entity_3"), DeletionBehaviour::Cascade));
        assert(decls_view(v@) =~= Self::sibling_stores_spec());
        v
    }

    fn get_key(&self) -> (k: &u32) {
        &self.id
    }

    fn set_key(&mut self, k: &u32) {
        self.id = *k;
    }

    fn to_bytes(&self) -> (b: Vec<u8>) {
        let mut b: Vec<u8> = Vec::new();
        write_u32(&mut b, self.id);
        let sb = vstd::string::StrSliceExecFns::as_bytes_vec(self.prop1.as_str());
        write_bytes(&mut b, &sb);
        assert(b@ =~= self.value_enc());
        b
    }

    fn from_bytes(b: &Vec<u8>) -> (r: Option<Entity1>) {
        match read_u32_at(b, 0) {
            Some((id, p)) => match read_tail_str_at(b, p) {
                Some(prop1) => Some(Entity1 { id, prop1 }),
                None => None,
            },
            None => None,
        }
    }

    proof fn lemma_round_trip(&self) {
        let b = self.value_enc();
        assert(b.subrange(0, 4) =~= u32_be(self.id));
        lemma_read_u32_at(b, 0, self.id);
        assert(b.subrange(4, b.len() as int) =~= encode_utf8(self.prop1@));
        lemma_read_tail_str_at(b, 4, self.prop1@);
    }
}

/// A root entity with a string key and a numeric property; it declares
/// `child_entity_1` as cascading children.
pub struct Entity2 {
    pub id: String,
    pub prop2: u32,
}

/// The mathematical content of an [`Entity2`].
pub struct Entity2View {
    pub id: Seq<char>,
    pub prop2: u32,
}

impl View for Entity2 {
    type V = Entity2View;

    open spec fn view(&self) -> Entity2View {
        Entity2View { id: self.id@, prop2: self.prop2 }
    }
}

impl Clone for Entity2 {
    fn clone(&self) -> (r: Self)
        ensures
            r@ == self@,
    {
        Entity2 { id: self.id.clone(), prop2: self.prop2 }
    }
}

impl Entity for Entity2 {
    type Key = String;

    open spec fn store_name_spec() -> Seq<char> {
        "entity_2"@
    }

    open spec fn version_spec() -> u32 {
        1
    }

    open spec fn child_stores_spec() -> Seq<(Seq<char>, DeletionBehaviour)> {
        seq![("child_entity_1"@, DeletionBehaviour::Cascade)]
    }

    open spec fn sibling_stores_spec() -> Seq<(Seq<char>, DeletionBehaviour)> {
        Seq::empty()
    }

    open spec fn key_spec(&self) -> String {
        self.id
    }

    open spec fn value_enc(&self) -> Seq<u8> {
        u32_be(self.prop2) + encode_utf8(self.id@)
    }

    open spec fn value_dec(b: Seq<u8>) -> Option<Entity2View> {
        match read_u32(b, 0) {
            Some((prop2, p)) => match read_tail_str(b, p) {
                Some(id) => Some(Entity2View { id, prop2 }),
                None => None,
            },
            None => None,
        }
    }

    fn store_name() -> (s: String) {
        String::from_str("entity_2")
    }

    fn version() -> (v: u32) {
        1
    }

    fn child_stores() -> (v: Vec<(String, DeletionBehaviour)>) {
        let mut v: Vec<(String, DeletionBehaviour)> = Vec::new();
        v.push((String::from_str("child_entity_1"), DeletionBehaviour::Cascade));
        assert(decls_view(v@) =~= Self::child_stores_spec());
        v
    }

    fn sibling_stores() -> (v: Vec<(String, DeletionBehaviour)>) {
        let v: Vec<(String, DeletionBehaviour)> = Vec::new();
        assert(decls_view(v@) =~= Self::sibling_stores_spec());
        v
    }

    fn get_key(&self) -> (k: &String) {
        &self.id
    }

    fn set_key(&mut self, k: &String) {
        self.id = k.clone();
    }

    fn to_bytes(&self) -> (b: Vec<u8>) {
        let mut b: Vec<u8> = Vec::new();
        write_u32(&mut b, self.prop2);
        let sb = vstd::string::StrSliceExecFns::as_bytes_vec(self.id.as_str());
        write_bytes(&mut b, &sb);
        assert(b@ =~= self.value_enc());
        b
    }

    fn from_bytes(b: &Vec<u8>) -> (r: Option<Entity2>) {
        match read_u32_at(b, 0) {
            Some((prop2, p)) => match read_tail_str_at(b, p) {
                Some(id) => Some(Entity2 { id, prop2 }),
                None => None,
            },
            None => None,
        }
    }

    proof fn lemma_round_trip(&self) {
        let b = self.value_enc();
        assert(b.subrange(0, 4) =~= u32_be(self.prop2));
        lemma_read_u32_at(b, 0, self.prop2);
        assert(b.subrange(4, b.len() as int) =~= encode_utf8(self.id@));
        lemma_read_tail_str_at(b, 4, self.id@);
    }
}

/// A root entity declaring `entity_1` as an error-protected sibling and
/// `child_entity_2` as error-protected children.
pub struct Entity3 {
    pub id: u32,
    pub some_bool: bool,
}

/// The mathematical content of an [`Entity3`].
pub struct Entity3View {
    pub id: u32,
    pub some_bool: bool,
}

impl View for Entity3 {
    type V = Entity3View;

    open spec fn view(&self) -> Entity3View {
        Entity3View { id: self.id, some_bool: self.some_bool }
    }
}

/// The byte an entity's boolean field is stored as.
pub open spec fn bool_byte(b: bool) -> u8 {
    if b {
        1
    } else {
        0
    }
}

impl Entity for Entity3 {
    type Key = u32;

    open spec fn store_name_spec() -> Seq<char> {
        "entity_3"@
    }

    open spec fn version_spec() -> u32 {
        1
    }

    open spec fn child_stores_spec() -> Seq<(Seq<char>, DeletionBehaviour)> {
        seq![("child_entity_2"@, DeletionBehaviour::Error)]
    }

    open spec fn sibling_stores_spec() -> Seq<(Seq<char>, DeletionBehaviour)> {
        seq![("entity_1"@, DeletionBehaviour::Error)]
    }

    open spec fn key_spec(&self) -> u32 {
        self.id
    }

    open spec fn value_enc(&self) -> Seq<u8> {
        u32_be(self.id) + seq![bool_byte(self.some_bool)]
    }

    open spec fn value_dec(b: Seq<u8>) -> Option<Entity3View> {
        match read_u32(b, 0) {
            Some((id, p)) => if b.len() == p + 1 && (b[p] == 0 || b[p] == 1) {
                Some(Entity3View { id, some_bool: b[p] == 1 })
            } else {
                None
            },
            None => None,
        }
    }

    fn store_name() -> (s: String) {
        String::from_str("entity_3")
    }

    fn version() -> (v: u32) {
        1
    }

    fn child_stores() -> (v: Vec<(String, DeletionBehaviour)>) {
        let mut v: Vec<(String, DeletionBehaviour)> = Vec::new();
        v.push((String::from_str("child_entity_2"), DeletionBehaviour::Error));
        assert(decls_view(v@) =~= Self::child_stores_spec());
        v
    }

    fn sibling_stores() -> (v: Vec<(String, DeletionBehaviour)>) {
        let mut v: Vec<(String, DeletionBehaviour)> = Vec::new();
        v.push((String::from_str("entity_1"), DeletionBehaviour::Error));
        assert(decls_view(v@) =~= Self::sibling_stores_spec());
        v
    }

    fn get_key(&self) -> (k: &u32) {
        &self.id
    }

    fn set_key(&mut self, k: &u32) {
        self.id = *k;
    }

    fn to_bytes(&self) -> (b: Vec<u8>) {
        let mut b: Vec<u8> = Vec::new();
        write_u32(&mut b, self.id);
        if self.some_bool {
            b.push(1u8);
        } else {
            b.push(0u8);
        }
        assert(b@ =~= self.value_enc());
        b
    }

    fn from_bytes(b: &Vec<u8>) -> (r: Option<Entity3>) {
        match read_u32_at(b, 0) {
            Some((id, p)) => {
                if b.len() == p + 1 {
                    let t = b[p];
                    if t == 0 || t == 1 {
                        Some(Entity3 { id, some_bool: t == 1 })
                    } else {
                        None
                    }
                } else {
                    None
                }
            },
            None => None,
        }
    }

    proof fn lemma_round_trip(&self) {
        let b = self.value_enc();
        assert(b.subrange(0, 4) =~= u32_be(self.id));
        lemma_read_u32_at(b, 0, self.id);
        assert(b[4] == bool_byte(self.some_bool));
    }
}

/// A child of `entity_2`, keyed `(parent_key, local_id)`; it declares
/// `grand_child_entity` as cascading children.
pub struct ChildEntity1 {
    pub id: (String, u32),
}

/// The mathematical content of a [`ChildEntity1`].
pub struct ChildEntity1View {
    pub id: (Seq<char>, u32),
}

impl View for ChildEntity1 {
    type V = ChildEntity1View;

    open spec fn view(&self) -> ChildEntity1View {
        ChildEntity1View { id: (self.id.0@, self.id.1) }
    }
}

impl Clone for ChildEntity1 {
    fn clone(&self) -> (r: Self)
        ensures
            r@ == self@,
    {
        ChildEntity1 { id: (self.id.0.clone(), self.id.1) }
    }
}

impl Entity for ChildEntity1 {
    type Key = (String, u32);

    open spec fn store_name_spec() -> Seq<char> {
        "child_entity_1"@
    }

    open spec fn version_spec() -> u32 {
        1
    }

    open spec fn child_stores_spec() -> Seq<(Seq<char>, DeletionBehaviour)> {
        seq![("grand_child_entity"@, DeletionBehaviour::Cascade)]
    }

    open spec fn sibling_stores_spec() -> Seq<(Seq<char>, DeletionBehaviour)> {
        Seq::empty()
    }

    open spec fn key_spec(&self) -> (String, u32) {
        self.id
    }

    open spec fn value_enc(&self) -> Seq<u8> {
        u32_be(self.id.1) + encode_utf8(self.id.0@)
    }

    open spec fn value_dec(b: Seq<u8>) -> Option<ChildEntity1View> {
        match read_u32(b, 0) {
            Some((local, p)) => match read_tail_str(b, p) {
                Some(parent) => Some(ChildEntity1View { id: (parent, local) }),
                None => None,
            },
            None => None,
        }
    }

    fn store_name() -> (s: String) {
        String::from_str("child_entity_1")
    }

    fn version() -> (v: u32) {
        1
    }

    fn child_stores() -> (v: Vec<(String, DeletionBehaviour)>) {
        let mut v: Vec<(String, DeletionBehaviour)> = Vec::new();
        v.push((String::from_str("grand_child_entity"), DeletionBehaviour::Cascade));
        assert(decls_view(v@) =~= Self::child_stores_spec());
        v
    }

    fn sibling_stores() -> (v: Vec<(String, DeletionBehaviour)>) {
        let v: Vec<(String, DeletionBehaviour)> = Vec::new();
        assert(decls_view(v@) =~= Self::sibling_stores_spec());
        v
    }

    fn get_key(&self) -> (k: &(String, u32)) {
        &self.id
    }

    fn set_key(&mut self, k: &(String, u32)) {
        self.id = (k.0.clone(), k.1);
        assert(self.key_spec() == *k);
    }

    fn to_bytes(&self) -> (b: Vec<u8>) {
        let mut b: Vec<u8> = Vec::new();
        write_u32(&mut b, self.id.1);
        let sb = vstd::string::StrSliceExecFns::as_bytes_vec(self.id.0.as_str());
        write_bytes(&mut b, &sb);
        assert(b@ =~= self.value_enc());
        b
    }

    fn from_bytes(b: &Vec<u8>) -> (r: Option<ChildEntity1>) {
        match read_u32_at(b, 0) {
            Some((local, p)) => match read_tail_str_at(b, p) {
                Some(parent) => Some(ChildEntity1 { id: (parent, local) }),
                None => None,
            },
            None => None,
        }
    }

    proof fn lemma_round_trip(&self) {
        let b = self.value_enc();
        assert(b.subrange(0, 4) =~= u32_be(self.id.1));
        lemma_read_u32_at(b, 0, self.id.1);
        assert(b.subrange(4, b.len() as int) =~= encode_utf8(self.id.0@));
        lemma_read_tail_str_at(b, 4, self.id.0@);
    }
}

/// A child of `entity_3`, keyed `(parent_key, local_id)` with a numeric
/// parent key.
pub struct ChildEntity2 {
    pub id: (u32, u32),
}

/// The mathematical content of a [`ChildEntity2`].
pub struct ChildEntity2View {
    pub id: (u32, u32),
}

impl View for ChildEntity2 {
    type V = ChildEntity2View;

    open spec fn view(&self) -> ChildEntity2View {
        ChildEntity2View { id: self.id }
    }
}

impl Entity for ChildEntity2 {
    type Key = (u32, u32);

    open spec fn store_name_spec() -> Seq<char> {
        "child_entity_2"@
    }

    open spec fn version_spec() -> u32 {
        1
    }

    open spec fn child_stores_spec() -> Seq<(Seq<char>, DeletionBehaviour)> {
        Seq::empty()
    }

    open spec fn sibling_stores_spec() -> Seq<(Seq<char>, DeletionBehaviour)> {
        Seq::empty()
    }

    open spec fn key_spec(&self) -> (u32, u32) {
        self.id
    }

    open spec fn value_enc(&self) -> Seq<u8> {
        u32_be(self.id.0) + u32_be(self.id.1)
    }

    open spec fn value_dec(b: Seq<u8>) -> Option<ChildEntity2View> {
        match read_u32(b, 0) {
            Some((parent, p)) => match read_u32(b, p) {
                Some((local, q)) => if q == b.len() {
                    Some(ChildEntity2View { id: (parent, local) })
                } else {
                    None
                },
                None => None,
            },
            None => None,
        }
    }

    fn store_name() -> (s: String) {
        String::from_str("child_entity_2")
    }

    fn version() -> (v: u32) {
        1
    }

    fn child_stores() -> (v: Vec<(String, DeletionBehaviour)>) {
        let v: Vec<(String, DeletionBehaviour)> = Vec::new();
        assert(decls_view(v@) =~= Self::child_stores_spec());
        v
    }

    fn sibling_stores() -> (v: Vec<(String, DeletionBehaviour)>) {
        let v: Vec<(String, DeletionBehaviour)> = Vec::new();
        assert(decls_view(v@) =~= Self::sibling_stores_spec());
        v
    }

    fn get_key(&self) -> (k: &(u32, u32)) {
        &self.id
    }

    fn set_key(&mut self, k: &(u32, u32)) {
        self.id = (k.0, k.1);
        assert(self.key_spec() == *k);
    }

    fn to_bytes(&self) -> (b: Vec<u8>) {
        let mut b: Vec<u8> = Vec::new();
        write_u32(&mut b, self.id.0);
        write_u32(&mut b, self.id.1);
        assert(b@ =~= self.value_enc());
        b
    }

    fn from_bytes(b: &Vec<u8>) -> (r: Option<ChildEntity2>) {
        match read_u32_at(b, 0) {
            Some((parent, p)) => match read_u32_at(b, p) {
                Some((local, q)) => {
                    if q == b.len() {
                        Some(ChildEntity2 { id: (parent, local) })
                    } else {
                        None
                    }
                },
                None => None,
            },
            None => None,
        }
    }

    proof fn lemma_round_trip(&self) {
        let b = self.value_enc();
        assert(b.subrange(0, 4) =~= u32_be(self.id.0));
        lemma_read_u32_at(b, 0, self.id.0);
        assert(b.subrange(4, 8) =~= u32_be(self.id.1));
        lemma_read_u32_at(b, 4, self.id.1);
    }
}

/// A child of `child_entity_1`: its key nests its parent's compound key.
pub struct GrandChildEntity {
    pub id: ((String, u32), u32),
}

/// The mathematical content of a [`GrandChildEntity`].
pub struct GrandChildEntityView {
    pub id: ((Seq<char>, u32), u32),
}

impl View for GrandChildEntity {
    type V = GrandChildEntityView;

    open spec fn view(&self) -> GrandChildEntityView {
        GrandChildEntityView { id: ((self.id.0.0@, self.id.0.1), self.id.1) }
    }
}

impl Entity for GrandChildEntity {
    type Key = ((String, u32), u32);

    open spec fn store_name_spec() -> Seq<char> {
        "grand_child_entity"@
    }

    open spec fn version_spec() -> u32 {
        1
    }

    open spec fn child_stores_spec() -> Seq<(Seq<char>, DeletionBehaviour)> {
        Seq::empty()
    }

    open spec fn sibling_stores_spec() -> Seq<(Seq<char>, DeletionBehaviour)> {
        Seq::empty()
    }

    open spec fn key_spec(&self) -> ((String, u32), u32) {
        self.id
    }

    open spec fn value_enc(&self) -> Seq<u8> {
        u32_be(self.id.0.1) + u32_be(self.id.1) + encode_utf8(self.id.0.0@)
    }

    open spec fn value_dec(b: Seq<u8>) -> Option<GrandChildEntityView> {
        match read_u32(b, 0) {
            Some((mid, p)) => match read_u32(b, p) {
                Some((local, q)) => match read_tail_str(b, q) {
                    Some(root) => Some(GrandChildEntityView { id: ((root, mid), local) }),
                    None => None,
                },
                None => None,
            },
            None => None,
        }
    }

    fn store_name() -> (s: String) {
        String::from_str("grand_child_entity")
    }

    fn version() -> (v: u32) {
        1
    }

    fn child_stores() -> (v: Vec<(String, DeletionBehaviour)>) {
        let v: Vec<(String, DeletionBehaviour)> = Vec::new();
        assert(decls_view(v@) =~= Self::child_stores_spec());
        v
    }

    fn sibling_stores() -> (v: Vec<(String, DeletionBehaviour)>) {
        let v: Vec<(String, DeletionBehaviour)> = Vec::new();
        assert(decls_view(v@) =~= Self::sibling_stores_spec());
        v
    }

    fn get_key(&self) -> (k: &((String, u32), u32)) {
        &self.id
    }

    fn set_key(&mut self, k: &((String, u32), u32)) {
        self.id = ((k.0.0.clone(), k.0.1), k.1);
        assert(self.key_spec() == *k);
    }

    fn to_bytes(&self) -> (b: Vec<u8>) {
        let mut b: Vec<u8> = Vec::new();
        write_u32(&mut b, self.id.0.1);
        write_u32(&mut b, self.id.1);
        let sb = vstd::string::StrSliceExecFns::as_bytes_vec(self.id.0.0.as_str());
        write_bytes(&mut b, &sb);
        assert(b@ =~= self.value_enc());
        b
    }

    fn from_bytes(b: &Vec<u8>) -> (r: Option<GrandChildEntity>) {
        match read_u32_at(b, 0) {
            Some((mid, p)) => match read_u32_at(b, p) {
                Some((local, q)) => match read_tail_str_at(b, q) {
                    Some(root) => Some(GrandChildEntity { id: ((root, mid), local) }),
                    None => None,
                },
                None => None,
            },
            None => None,
        }
    }

    proof fn lemma_round_trip(&self) {
        let b = self.value_enc();
        assert(b.subrange(0, 4) =~= u32_be(self.id.0.1));
        lemma_read_u32_at(b, 0, self.id.0.1);
        assert(b.subrange(4, 8) =~= u32_be(self.id.1));
        lemma_read_u32_at(b, 4, self.id.1);
        assert(b.subrange(8, b.len() as int) =~= encode_utf8(self.id.0.0@));
        lemma_read_tail_str_at(b, 8, self.id.0.0@);
    }
}

} // verus!
