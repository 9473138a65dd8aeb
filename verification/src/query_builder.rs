//! A query is built from up to three predicate families — explicit keys,
//! a parent-key prefix, and required relations — and resolves to a key
//! set: the families compose by conjunction, the clauses within the
//! relation family by disjunction.

use vstd::prelude::*;
use vstd::utf8::encode_utf8;
use crate::codec::{bytes_eq, bytes_starts_with, is_prefix_of};
use crate::entity::{fetch_each_raw, fetched, store_bytes, Entity};
use crate::keys::AsBytes;
use crate::kv::{entity_tree, entity_tree_name, kv_scan_prefix, scan_matches, tree_of, DbView, Store};
use crate::relate::{keys_to, NameFilter};
use crate::relation::{load_relations, rels_of};
use crate::Error;
use vstd::string::StringExecFns;

verus! {

/// The mathematical content of a query under construction.
pub struct QueryView {
    pub ids: Seq<Seq<u8>>,
    pub parent: Option<Seq<u8>>,
    pub related_to: Seq<(Seq<char>, Seq<u8>, Option<Seq<char>>)>,
}

/// A query under construction: candidate keys, a parent-prefix
/// restriction, and required relations, all optional.
pub struct QueryBuilder {
    ids: Vec<Vec<u8>>,
    parent: Option<Vec<u8>>,
    related_to: Vec<(String, Vec<u8>, Option<String>)>,
}

impl View for QueryBuilder {
    type V = QueryView;

    closed spec fn view(&self) -> QueryView {
        QueryView {
            ids: self.ids@.map_values(|k: Vec<u8>| k@),
            parent: match self.parent {
                Some(p) => Some(p@),
                None => None,
            },
            related_to: self.related_to@.map_values(
                |c: (String, Vec<u8>, Option<String>)|
                    (
                        c.0@,
                        c.1@,
                        match c.2 {
                            Some(n) => Some(n@),
                            None => None,
                        },
                    ),
            ),
        }
    }
}

/// The keys pulled in by the relation clauses: for each clause, the peer
/// keys of the named peer's edges towards the queried store whose name
/// matches the clause exactly, clauses concatenated in order.
pub open spec fn related_ids(
    v: DbView,
    clauses: Seq<(Seq<char>, Seq<u8>, Option<Seq<char>>)>,
    target: Seq<char>,
) -> Seq<Seq<u8>>
    decreases clauses.len(),
{
    if clauses.len() == 0 {
        Seq::empty()
    } else {
        keys_to(rels_of(v, encode_utf8(clauses[0].0), clauses[0].1), target, Some(clauses[0].2))
            + related_ids(v, clauses.skip(1), target)
    }
}

/// One more clause extends the pulled keys at the end.
pub proof fn lemma_related_ids_push(
    v: DbView,
    clauses: Seq<(Seq<char>, Seq<u8>, Option<Seq<char>>)>,
    c: (Seq<char>, Seq<u8>, Option<Seq<char>>),
    target: Seq<char>,
)
    ensures
        related_ids(v, clauses.push(c), target) == related_ids(v, clauses, target) + keys_to(
            rels_of(v, encode_utf8(c.0), c.1),
            target,
            Some(c.2),
        ),
    decreases clauses.len(),
{
    let tail = keys_to(rels_of(v, encode_utf8(c.0), c.1), target, Some(c.2));
    if clauses.len() == 0 {
        assert(clauses.push(c)[0] == c);
        assert(clauses.push(c).skip(1) =~= Seq::<(Seq<char>, Seq<u8>, Option<Seq<char>>)>::empty());
        assert(related_ids(v, Seq::<(Seq<char>, Seq<u8>, Option<Seq<char>>)>::empty(), target)
            == Seq::<Seq<u8>>::empty());
        assert(related_ids(v, clauses.push(c), target) == tail + Seq::<Seq<u8>>::empty());
        assert(tail + Seq::<Seq<u8>>::empty() =~= Seq::<Seq<u8>>::empty() + tail);
    } else {
        assert(clauses.push(c)[0] == clauses[0]);
        assert(clauses.push(c).skip(1) =~= clauses.skip(1).push(c));
        lemma_related_ids_push(v, clauses.skip(1), c, target);
        let head = keys_to(
            rels_of(v, encode_utf8(clauses[0].0), clauses[0].1),
            target,
            Some(clauses[0].2),
        );
        assert(related_ids(v, clauses.push(c), target) == head + (related_ids(
            v,
            clauses.skip(1),
            target,
        ) + tail));
        assert(head + (related_ids(v, clauses.skip(1), target) + tail) =~= (head + related_ids(
            v,
            clauses.skip(1),
            target,
        )) + tail);
    }
}

/// The keys of `ks` that begin with the parent prefix, in order; all of
/// them when no parent restriction is set.
pub open spec fn kept_by_parent(ks: Seq<Seq<u8>>, parent: Option<Seq<u8>>) -> Seq<Seq<u8>>
    decreases ks.len(),
{
    match parent {
        None => ks,
        Some(p) => if ks.len() == 0 {
            Seq::empty()
        } else {
            let rest = kept_by_parent(ks.skip(1), parent);
            if is_prefix_of(p, ks[0]) {
                seq![ks[0]] + rest
            } else {
                rest
            }
        },
    }
}

pub proof fn lemma_kept_by_parent_push(ks: Seq<Seq<u8>>, k: Seq<u8>, parent: Option<Seq<u8>>)
    ensures
        kept_by_parent(ks.push(k), parent) == kept_by_parent(ks, parent) + (match parent {
            None => seq![k],
            Some(p) => if is_prefix_of(p, k) {
                seq![k]
            } else {
                Seq::<Seq<u8>>::empty()
            },
        }),
    decreases ks.len(),
{
    match parent {
        None => {
            assert(kept_by_parent(ks.push(k), parent) =~= kept_by_parent(ks, parent) + seq![k]);
        },
        Some(p) => {
            let tail = if is_prefix_of(p, k) {
                seq![k]
            } else {
                Seq::<Seq<u8>>::empty()
            };
            if ks.len() == 0 {
                assert(ks.push(k)[0] == k);
                assert(ks.push(k).skip(1) =~= Seq::<Seq<u8>>::empty());
                assert(kept_by_parent(Seq::<Seq<u8>>::empty(), parent) == Seq::<Seq<u8>>::empty());
                if is_prefix_of(p, k) {
                    assert(kept_by_parent(ks.push(k), parent) == seq![k] + Seq::<Seq<u8>>::empty());
                    assert(seq![k] + Seq::<Seq<u8>>::empty() =~= Seq::<Seq<u8>>::empty() + seq![k]);
                } else {
                    assert(kept_by_parent(ks.push(k), parent) == Seq::<Seq<u8>>::empty());
                    assert(Seq::<Seq<u8>>::empty() + tail =~= Seq::<Seq<u8>>::empty());
                }
            } else {
                assert(ks.push(k)[0] == ks[0]);
                assert(ks.push(k).skip(1) =~= ks.skip(1).push(k));
                lemma_kept_by_parent_push(ks.skip(1), k, parent);
                if is_prefix_of(p, ks[0]) {
                    assert(kept_by_parent(ks.push(k), parent) == seq![ks[0]] + (kept_by_parent(
                        ks.skip(1),
                        parent,
                    ) + tail));
                    assert(kept_by_parent(ks, parent) == seq![ks[0]] + kept_by_parent(
                        ks.skip(1),
                        parent,
                    ));
                    assert(seq![ks[0]] + (kept_by_parent(ks.skip(1), parent) + tail) =~= (seq![
                        ks[0],
                    ] + kept_by_parent(ks.skip(1), parent)) + tail);
                } else {
                    assert(kept_by_parent(ks.push(k), parent) == kept_by_parent(ks.skip(1), parent)
                        + tail);
                    assert(kept_by_parent(ks, parent) == kept_by_parent(ks.skip(1), parent));
                }
            }
        },
    }
}

/// The keys of `ks` that also occur among `ids`, in the order of `ks`.
pub open spec fn kept_in(ks: Seq<Seq<u8>>, ids: Seq<Seq<u8>>) -> Seq<Seq<u8>>
    decreases ks.len(),
{
    if ks.len() == 0 {
        Seq::empty()
    } else {
        let rest = kept_in(ks.skip(1), ids);
        if ids.contains(ks[0]) {
            seq![ks[0]] + rest
        } else {
            rest
        }
    }
}

pub proof fn lemma_kept_in_push(ks: Seq<Seq<u8>>, k: Seq<u8>, ids: Seq<Seq<u8>>)
    ensures
        kept_in(ks.push(k), ids) == kept_in(ks, ids) + (if ids.contains(k) {
            seq![k]
        } else {
            Seq::<Seq<u8>>::empty()
        }),
    decreases ks.len(),
{
    let tail = if ids.contains(k) {
        seq![k]
    } else {
        Seq::<Seq<u8>>::empty()
    };
    if ks.len() == 0 {
        assert(ks.push(k)[0] == k);
        assert(ks.push(k).skip(1) =~= Seq::<Seq<u8>>::empty());
        assert(kept_in(Seq::<Seq<u8>>::empty(), ids) == Seq::<Seq<u8>>::empty());
        if ids.contains(k) {
            assert(kept_in(ks.push(k), ids) == seq![k] + Seq::<Seq<u8>>::empty());
            assert(seq![k] + Seq::<Seq<u8>>::empty() =~= Seq::<Seq<u8>>::empty() + seq![k]);
        } else {
            assert(kept_in(ks.push(k), ids) == Seq::<Seq<u8>>::empty());
            assert(Seq::<Seq<u8>>::empty() + tail =~= Seq::<Seq<u8>>::empty());
        }
    } else {
        assert(ks.push(k)[0] == ks[0]);
        assert(ks.push(k).skip(1) =~= ks.skip(1).push(k));
        lemma_kept_in_push(ks.skip(1), k, ids);
        if ids.contains(ks[0]) {
            assert(kept_in(ks.push(k), ids) == seq![ks[0]] + (kept_in(ks.skip(1), ids) + tail));
            assert(kept_in(ks, ids) == seq![ks[0]] + kept_in(ks.skip(1), ids));
            assert(seq![ks[0]] + (kept_in(ks.skip(1), ids) + tail) =~= (seq![ks[0]] + kept_in(
                ks.skip(1),
                ids,
            )) + tail);
        } else {
            assert(kept_in(ks.push(k), ids) == kept_in(ks.skip(1), ids) + tail);
            assert(kept_in(ks, ids) == kept_in(ks.skip(1), ids));
        }
    }
}

/// The key set a query resolves to when it names keys or relations:
/// relation clauses pull keys (intersected with the explicit keys when
/// both are given, the explicit keys alone when no clause is given), and
/// a parent restriction filters the outcome.
pub open spec fn query_keys(v: DbView, q: QueryView, target: Seq<char>) -> Seq<Seq<u8>> {
    let base = if q.related_to.len() == 0 {
        q.ids
    } else if q.ids.len() == 0 {
        related_ids(v, q.related_to, target)
    } else {
        kept_in(related_ids(v, q.related_to, target), q.ids)
    };
    kept_by_parent(base, q.parent)
}


/// The keys a conditionless-but-parented query returns: some scan
/// listing of exactly the prefixed entries of the queried tree.
pub open spec fn scan_ids_ok<T: Entity>(v: DbView, p: Seq<u8>, out: Seq<Vec<u8>>) -> bool {
    exists|pairs: Seq<(Vec<u8>, Vec<u8>)>|
        {
            &&& #[trigger] scan_matches(tree_of(v, entity_tree_name(store_bytes::<T>())), p, pairs)
            &&& out.len() == pairs.len()
            &&& forall|j: int| 0 <= j < pairs.len() ==> (#[trigger] pairs[j]).0@ == out[j]@
        }
}

/// What a resolved key set must be, by query shape.
pub open spec fn resolved_ids_ok<T: Entity>(v: DbView, q: QueryView, out: Seq<Vec<u8>>) -> bool {
    if q.ids.len() == 0 && q.related_to.len() == 0 {
        match q.parent {
            None => out.len() == 0,
            Some(p) => scan_ids_ok::<T>(v, p, out),
        }
    } else {
        out.map_values(|k: Vec<u8>| k@) == query_keys(v, q, T::store_name_spec())
    }
}

/// What a query's fetched entity list must be, by query shape: nothing
/// for the empty query, the decoded prefixed entries for a bare parent
/// restriction, the fetch of the resolved key set otherwise.
pub open spec fn query_result_ok<T: Entity>(v: DbView, q: QueryView, out: Seq<T::V>) -> bool {
    if q.ids.len() == 0 && q.related_to.len() == 0 && q.parent is None {
        out.len() == 0
    } else if q.ids.len() == 0 && q.related_to.len() == 0 {
        exists|ks: Seq<Vec<u8>>|
            #[trigger] scan_ids_ok::<T>(v, q.parent->0, ks) && out == fetched::<T>(
                v,
                ks.map_values(|k: Vec<u8>| k@),
            )
    } else {
        out == fetched::<T>(v, query_keys(v, q, T::store_name_spec()))
    }
}

/// The elements of `l` kept by the acceptance mask, in order.
pub open spec fn masked<T>(l: Seq<T>, keep: Seq<bool>) -> Seq<T>
    decreases l.len(),
{
    if l.len() == 0 {
        Seq::empty()
    } else {
        let rest = masked(l.skip(1), keep.skip(1));
        if keep.len() > 0 && keep[0] {
            seq![l[0]] + rest
        } else {
            rest
        }
    }
}

/// Deciding one more element extends the kept list at the end.
pub proof fn lemma_masked_push<T>(l: Seq<T>, keep: Seq<bool>, e: T, b: bool)
    requires
        keep.len() == l.len(),
    ensures
        masked(l.push(e), keep.push(b)) == masked(l, keep) + (if b {
            seq![e]
        } else {
            Seq::<T>::empty()
        }),
    decreases l.len(),
{
    let tail = if b {
        seq![e]
    } else {
        Seq::<T>::empty()
    };
    if l.len() == 0 {
        assert(l.push(e)[0] == e);
        assert(keep.push(b)[0] == b);
        assert(l.push(e).skip(1) =~= Seq::<T>::empty());
        assert(keep.push(b).skip(1) =~= Seq::<bool>::empty());
        assert(masked(Seq::<T>::empty(), Seq::<bool>::empty()) == Seq::<T>::empty());
        assert(masked(l, keep) == Seq::<T>::empty());
        if b {
            assert(masked(l.push(e), keep.push(b)) == seq![e] + Seq::<T>::empty());
            assert(seq![e] + Seq::<T>::empty() =~= Seq::<T>::empty() + seq![e]);
        } else {
            assert(masked(l.push(e), keep.push(b)) == Seq::<T>::empty());
            assert(Seq::<T>::empty() + tail =~= Seq::<T>::empty());
        }
    } else {
        assert(l.push(e)[0] == l[0]);
        assert(keep.push(b)[0] == keep[0]);
        assert(l.push(e).skip(1) =~= l.skip(1).push(e));
        assert(keep.push(b).skip(1) =~= keep.skip(1).push(b));
        lemma_masked_push(l.skip(1), keep.skip(1), e, b);
        if keep[0] {
            assert(masked(l.push(e), keep.push(b)) == seq![l[0]] + (masked(l.skip(1), keep.skip(1))
                + tail));
            assert(masked(l, keep) == seq![l[0]] + masked(l.skip(1), keep.skip(1)));
            assert(seq![l[0]] + (masked(l.skip(1), keep.skip(1)) + tail) =~= (seq![l[0]] + masked(
                l.skip(1),
                keep.skip(1),
            )) + tail);
        } else {
            assert(masked(l.push(e), keep.push(b)) == masked(l.skip(1), keep.skip(1)) + tail);
            assert(masked(l, keep) == masked(l.skip(1), keep.skip(1)));
        }
    }
}

impl QueryBuilder {
    /// A query with no conditions; it resolves to the empty set.
    pub fn new() -> (r: QueryBuilder)
        ensures
            r@.ids == Seq::<Seq<u8>>::empty(),
            r@.parent is None,
            r@.related_to == Seq::<(Seq<char>, Seq<u8>, Option<Seq<char>>)>::empty(),
    {
        let r = QueryBuilder { ids: Vec::new(), parent: None, related_to: Vec::new() };
        proof {
            assert(r@.ids =~= Seq::<Seq<u8>>::empty());
            assert(r@.related_to =~= Seq::<(Seq<char>, Seq<u8>, Option<Seq<char>>)>::empty());
        }
        r
    }

    /// Adds candidate keys; may be used repeatedly.
    pub fn with_ids<K: AsBytes>(&mut self, ids: &Vec<K>) -> (r: &mut QueryBuilder)
        ensures
            *final(self) == *final(r),
            r@.ids == old(self)@.ids + ids@.map_values(|k: K| k.key_enc()),
            r@.parent == old(self)@.parent,
            r@.related_to == old(self)@.related_to,
    {
        let mut i: usize = 0;
        while i < ids.len()
            invariant
                i <= ids@.len(),
                self@.ids == old(self)@.ids + ids@.map_values(|k: K| k.key_enc()).take(i as int),
                self@.parent == old(self)@.parent,
                self@.related_to == old(self)@.related_to,
            decreases ids@.len() - i,
        {
            let ghost before = self@.ids;
            self.ids.push(ids[i].key_bytes());
            proof {
                assert(self@.ids =~= before.push(ids@[i as int].key_enc()));
                assert(self@.ids =~= old(self)@.ids + ids@.map_values(|k: K| k.key_enc()).take(
                    i + 1,
                ));
            }
            i = i + 1;
        }
        assert(ids@.map_values(|k: K| k.key_enc()).take(ids@.len() as int) =~= ids@.map_values(
            |k: K| k.key_enc(),
        ));
        self
    }

    /// Adds one candidate key; may be used repeatedly.
    pub fn with_id<K: AsBytes>(&mut self, id: &K) -> (r: &mut QueryBuilder)
        ensures
            *final(self) == *final(r),
            r@.ids == old(self)@.ids.push(id.key_enc()),
            r@.parent == old(self)@.parent,
            r@.related_to == old(self)@.related_to,
    {
        let ghost before = self@.ids;
        self.ids.push(id.key_bytes());
        proof {
            assert(self@.ids =~= before.push(id.key_enc()));
        }
        self
    }

    /// Restricts the query to keys beginning with the encoding of `id`:
    /// the children of that parent.
    pub fn with_parent<K: AsBytes>(&mut self, id: &K) -> (r: &mut QueryBuilder)
        ensures
            *final(self) == *final(r),
            r@.ids == old(self)@.ids,
            r@.parent == Some(id.key_enc()),
            r@.related_to == old(self)@.related_to,
    {
        self.parent = Some(id.key_bytes());
        self
    }

    /// Requires an edge named exactly `name` towards the entity of type
    /// `OT` under `id`; may be used repeatedly.
    pub fn with_named_relation_to<OT: Entity>(&mut self, id: &OT::Key, name: &str) -> (r:
        &mut QueryBuilder)
        ensures
            *final(self) == *final(r),
            r@.ids == old(self)@.ids,
            r@.parent == old(self)@.parent,
            r@.related_to == old(self)@.related_to.push(
                (OT::store_name_spec(), id.key_enc(), Some(name@)),
            ),
    {
        let ghost before = self@.related_to;
        self.related_to.push((OT::store_name(), id.key_bytes(), Some(String::from_str(name))));
        proof {
            assert(self@.related_to =~= before.push(
                (OT::store_name_spec(), id.key_enc(), Some(name@)),
            ));
        }
        self
    }

    /// Requires an unnamed edge towards the entity of type `OT` under
    /// `id`; may be used repeatedly.
    pub fn with_relation_to<OT: Entity>(&mut self, id: &OT::Key) -> (r: &mut QueryBuilder)
        ensures
            *final(self) == *final(r),
            r@.ids == old(self)@.ids,
            r@.parent == old(self)@.parent,
            r@.related_to == old(self)@.related_to.push(
                (OT::store_name_spec(), id.key_enc(), None),
            ),
    {
        let ghost before = self@.related_to;
        self.related_to.push((OT::store_name(), id.key_bytes(), None));
        proof {
            assert(self@.related_to =~= before.push((OT::store_name_spec(), id.key_enc(), None)));
        }
        self
    }

    /// The raw key set the query resolves to.
    #[verifier::rlimit(100)]
    fn get_ids<T: Entity>(&self, s: &Store) -> (r: Result<Vec<Vec<u8>>, Error>)
        ensures
            r matches Err(e) ==> e is Engine || e is Serialisation,
            self@.ids.len() == 0 && self@.related_to.len() == 0 && self@.parent is None ==> r is Ok,
            r matches Ok(out) ==> resolved_ids_ok::<T>(s.view(), self@, out@),
    {
        let no_ids = self.ids.len() == 0;
        let no_rel = self.related_to.len() == 0;
        if no_ids && no_rel {
            match &self.parent {
                None => {
                    let out: Vec<Vec<u8>> = Vec::new();
                    assert(resolved_ids_ok::<T>(s.view(), self@, out@));
                    return Ok(out);
                },
                Some(p) => {
                    let name = T::store_name();
                    let nb = vstd::string::StrSliceExecFns::as_bytes_vec(name.as_str());
                    let tree = entity_tree(&nb);
                    let rows = match kv_scan_prefix(s.db_ref(), &tree, p) {
                        Ok(r) => r,
                        Err(e) => {
                            return Err(e);
                        },
                    };
                    let mut out: Vec<Vec<u8>> = Vec::new();
                    let mut i: usize = 0;
                    while i < rows.len()
                        invariant
                            i <= rows@.len(),
                            out@.len() == i,
                            self@.parent == Some(p@),
                            self@.ids.len() == 0,
                            self@.related_to.len() == 0,
                            scan_matches(
                                tree_of(s.view(), entity_tree_name(store_bytes::<T>())),
                                p@,
                                rows@,
                            ),
                            forall|j: int|
                                0 <= j < i ==> (#[trigger] rows@[j]).0@ == out@[j]@,
                        decreases rows@.len() - i,
                    {
                        out.push(rows[i].0.clone());
                        i = i + 1;
                    }
                    proof {
                        let pairs = rows@;
                        assert(scan_matches(
                            tree_of(s.view(), entity_tree_name(store_bytes::<T>())),
                            p@,
                            pairs,
                        ) && out@.len() == pairs.len() && forall|j: int|
                            0 <= j < pairs.len() ==> (#[trigger] pairs[j]).0@ == out@[j]@);
                        assert(scan_ids_ok::<T>(s.view(), p@, out@));
                        assert(resolved_ids_ok::<T>(s.view(), self@, out@));
                    }
                    return Ok(out);
                },
            }
        }
        // Keys pulled in by the relation clauses.
        let target = T::store_name();
        let mut pulled: Vec<Vec<u8>> = Vec::new();
        let ghost clauses = self@.related_to;
        let mut i: usize = 0;
        while i < self.related_to.len()
            invariant
                i <= self.related_to@.len(),
                clauses == self@.related_to,
                target@ == T::store_name_spec(),
                pulled@.map_values(|k: Vec<u8>| k@) == related_ids(
                    s.view(),
                    clauses.take(i as int),
                    T::store_name_spec(),
                ),
            decreases self.related_to@.len() - i,
        {
            proof {
                assert(clauses.take(i + 1) =~= clauses.take(i as int).push(clauses[i as int]));
                lemma_related_ids_push(
                    s.view(),
                    clauses.take(i as int),
                    clauses[i as int],
                    T::store_name_spec(),
                );
            }
            let clause = &self.related_to[i];
            assert(clause.0@ == clauses[i as int].0);
            let peer_nb = vstd::string::StrSliceExecFns::as_bytes_vec(clause.0.as_str());
            let rr = match load_relations(s, &peer_nb, &clause.1) {
                Ok(rr) => rr,
                Err(e) => {
                    return Err(e);
                },
            };
            let filter = match &clause.2 {
                Some(n) => NameFilter::Exact(Some(n.as_str())),
                None => NameFilter::Exact(None),
            };
            let mut ks = crate::relate::collect_keys(&rr, &target, filter);
            let ghost before = pulled@;
            let ghost ksv = ks@;
            let mut j: usize = 0;
            while j < ks.len()
                invariant
                    j <= ks@.len(),
                    ks@ == ksv,
                    pulled@.map_values(|k: Vec<u8>| k@) == before.map_values(|k: Vec<u8>| k@)
                        + ksv.map_values(|k: Vec<u8>| k@).take(j as int),
                decreases ks@.len() - j,
            {
                let ghost mid = pulled@;
                pulled.push(ks[j].clone());
                proof {
                    assert(pulled@.map_values(|k: Vec<u8>| k@) =~= mid.map_values(
                        |k: Vec<u8>| k@,
                    ).push(ksv[j as int]@));
                    assert(pulled@.map_values(|k: Vec<u8>| k@) =~= before.map_values(
                        |k: Vec<u8>| k@,
                    ) + ksv.map_values(|k: Vec<u8>| k@).take(j + 1));
                }
                j = j + 1;
            }
            proof {
                assert(ksv.map_values(|k: Vec<u8>| k@).take(ksv.len() as int) =~= ksv.map_values(
                    |k: Vec<u8>| k@,
                ));
            }
            i = i + 1;
        }
        assert(clauses.take(self.related_to@.len() as int) =~= clauses);
        // Intersect with the explicit keys, or fall back to them.
        let base: Vec<Vec<u8>> = if no_rel {
            let mut b: Vec<Vec<u8>> = Vec::new();
            let mut i2: usize = 0;
            while i2 < self.ids.len()
                invariant
                    i2 <= self.ids@.len(),
                    b@.len() == i2,
                    forall|j: int| 0 <= j < i2 ==> (#[trigger] b@[j])@ == self.ids@[j]@,
                decreases self.ids@.len() - i2,
            {
                b.push(self.ids[i2].clone());
                i2 = i2 + 1;
            }
            assert(b@.map_values(|k: Vec<u8>| k@) =~= self@.ids);
            b
        } else if no_ids {
            pulled
        } else {
            let mut b: Vec<Vec<u8>> = Vec::new();
            let ghost pv = pulled@.map_values(|k: Vec<u8>| k@);
            let mut i2: usize = 0;
            while i2 < pulled.len()
                invariant
                    i2 <= pulled@.len(),
                    pv == pulled@.map_values(|k: Vec<u8>| k@),
                    b@.map_values(|k: Vec<u8>| k@) == kept_in(pv.take(i2 as int), self@.ids),
                decreases pulled@.len() - i2,
            {
                proof {
                    assert(pv.take(i2 + 1) =~= pv.take(i2 as int).push(pv[i2 as int]));
                    lemma_kept_in_push(pv.take(i2 as int), pv[i2 as int], self@.ids);
                }
                let mut found = false;
                let mut j: usize = 0;
                while j < self.ids.len()
                    invariant
                        j <= self.ids@.len(),
                        i2 < pulled@.len(),
                        pv == pulled@.map_values(|k: Vec<u8>| k@),
                        found ==> self@.ids.contains(pv[i2 as int]),
                        !found ==> forall|j2: int|
                            0 <= j2 < j ==> self@.ids[j2] != pv[i2 as int],
                    decreases self.ids@.len() - j,
                {
                    if bytes_eq(&self.ids[j], &pulled[i2]) {
                        assert(self@.ids[j as int] == pv[i2 as int]);
                        found = true;
                    }
                    j = j + 1;
                }
                let ghost mid = b@;
                if found {
                    b.push(pulled[i2].clone());
                    proof {
                        assert(b@.map_values(|k: Vec<u8>| k@) =~= mid.map_values(
                            |k: Vec<u8>| k@,
                        ).push(pv[i2 as int]));
                    }
                } else {
                    assert(!self@.ids.contains(pv[i2 as int]));
                }
                i2 = i2 + 1;
            }
            assert(pv.take(pulled@.len() as int) =~= pv);
            b
        };
        // Filter by the parent prefix.
        match &self.parent {
            None => {
                assert(kept_by_parent(base@.map_values(|k: Vec<u8>| k@), self@.parent)
                    == base@.map_values(|k: Vec<u8>| k@));
                assert(resolved_ids_ok::<T>(s.view(), self@, base@));
                Ok(base)
            },
            Some(p) => {
                let mut out: Vec<Vec<u8>> = Vec::new();
                let ghost bv = base@.map_values(|k: Vec<u8>| k@);
                let mut i2: usize = 0;
                while i2 < base.len()
                    invariant
                        i2 <= base@.len(),
                        bv == base@.map_values(|k: Vec<u8>| k@),
                        self@.parent == Some(p@),
                        out@.map_values(|k: Vec<u8>| k@) == kept_by_parent(
                            bv.take(i2 as int),
                            self@.parent,
                        ),
                    decreases base@.len() - i2,
                {
                    proof {
                        assert(bv.take(i2 + 1) =~= bv.take(i2 as int).push(bv[i2 as int]));
                        lemma_kept_by_parent_push(bv.take(i2 as int), bv[i2 as int], self@.parent);
                    }
                    let ghost mid = out@;
                    if bytes_starts_with(&base[i2], p) {
                        out.push(base[i2].clone());
                        proof {
                            assert(out@.map_values(|k: Vec<u8>| k@) =~= mid.map_values(
                                |k: Vec<u8>| k@,
                            ).push(bv[i2 as int]));
                        }
                    }
                    i2 = i2 + 1;
                }
                assert(bv.take(base@.len() as int) =~= bv);
                assert(resolved_ids_ok::<T>(s.view(), self@, out@));
                Ok(out)
            },
        }
    }

    /// Resolves the query and fetches the matching entities, in key-set
    /// order.  A query with no conditions yields the empty list, not an
    /// error.
    #[verifier::rlimit(100)]
    pub fn get<T: Entity>(&self, s: &Store) -> (r: Result<Vec<T>, Error>)
        ensures
            r matches Err(e) ==> e is Engine || e is Serialisation,
            self@.ids.len() == 0 && self@.related_to.len() == 0 && self@.parent is None ==> r is Ok,
            r matches Ok(out) ==> query_result_ok::<T>(s.view(), self@, out@.map_values(|e: T| e@)),
    {
        let kbs = match self.get_ids::<T>(s) {
            Ok(k) => k,
            Err(e) => {
                return Err(e);
            },
        };
        let res = fetch_each_raw::<T>(&kbs, s);
        proof {
            if res is Ok {
                if kbs@.len() == 0 {
                    assert(kbs@.map_values(|k: Vec<u8>| k@) =~= Seq::<Seq<u8>>::empty());
                    assert(fetched::<T>(s.view(), Seq::<Seq<u8>>::empty()) == Seq::<T::V>::empty());
                }
                let q = self@;
                let outv = (match &res {
                    Ok(out) => out@.map_values(|e: T| e@),
                    Err(_) => Seq::<T::V>::empty(),
                });
                if q.ids.len() == 0 && q.related_to.len() == 0 && q.parent is None {
                    assert(outv.len() == 0);
                } else if q.ids.len() == 0 && q.related_to.len() == 0 {
                    assert(scan_ids_ok::<T>(s.view(), q.parent->0, kbs@) && outv == fetched::<T>(
                        s.view(),
                        kbs@.map_values(|k: Vec<u8>| k@),
                    ));
                } else {
                    assert(outv == fetched::<T>(s.view(), query_keys(s.view(), q, T::store_name_spec())));
                }
                assert(query_result_ok::<T>(s.view(), q, outv));
            }
        }
        res
    }

    /// Resolves the query and fetches the first matching entity, if any.
    pub fn get_single<T: Entity>(&self, s: &Store) -> (r: Result<Option<T>, Error>)
        ensures
            r matches Err(e) ==> e is Engine || e is Serialisation,
            self@.ids.len() == 0 && self@.related_to.len() == 0 && self@.parent is None ==> r is Ok,
            r matches Ok(o) ==> exists|l: Seq<T::V>|
                #[trigger] query_result_ok::<T>(s.view(), self@, l) && (match o {
                    Some(x) => l.len() > 0 && l[0] == x@,
                    None => l.len() == 0,
                }),
    {
        match self.get::<T>(s) {
            Ok(mut out) => {
                let ghost l = out@.map_values(|e: T| e@);
                if out.len() == 0 {
                    assert(l.len() == 0);
                    Ok(None)
                } else {
                    assert(l.len() > 0);
                    let ghost pre = out@;
                    let first = out.remove(0);
                    assert(pre.map_values(|e: T| e@)[0] == first@);
                    Ok(Some(first))
                }
            },
            Err(e) => Err(e),
        }
    }

    /// Resolves the query, fetches the matching entities, and keeps
    /// exactly those the predicate accepts, in order.
    pub fn get_with_filter<T: Entity, F: Fn(&T) -> bool>(&self, pred: F, s: &Store) -> (r: Result<
        Vec<T>,
        Error,
    >)
        requires
            forall|e: &T| #[trigger] pred.requires((e,)),
        ensures
            r matches Err(e) ==> e is Engine || e is Serialisation,
            r matches Ok(out) ==> forall|i: int|
                0 <= i < out@.len() ==> pred.ensures((&out@[i],), true),
            r matches Ok(out) ==> exists|all: Seq<T>, keep: Seq<bool>|
                #![trigger masked(all, keep)]
                {
                    &&& query_result_ok::<T>(s.view(), self@, all.map_values(|e: T| e@))
                    &&& keep.len() == all.len()
                    &&& out@ == masked(all, keep)
                    &&& forall|i: int| 0 <= i < all.len() ==> pred.ensures((&all[i],), keep[i])
                },
    {
        let all = match self.get::<T>(s) {
            Ok(v) => v,
            Err(e) => {
                return Err(e);
            },
        };
        let ghost orig = all@;
        let ghost keep = Seq::<bool>::empty();
        let total = all.len();
        assert(orig.len() == total);
        let mut out: Vec<T> = Vec::new();
        let mut rest = all;
        let mut cnt: usize = 0;
        while rest.len() > 0
            invariant
                forall|e: &T| #[trigger] pred.requires((e,)),
                orig.len() <= usize::MAX,
                cnt + rest@.len() == orig.len(),
                rest@ == orig.skip(cnt as int),
                keep.len() == cnt,
                out@ == masked(orig.take(cnt as int), keep),
                forall|i: int| 0 <= i < cnt ==> pred.ensures((&orig[i],), keep[i]),
                forall|i: int| 0 <= i < out@.len() ==> pred.ensures((&out@[i],), true),
            decreases rest@.len(),
        {
            assert(rest@[0] == orig[cnt as int]);
            let e = rest.remove(0);
            let b = pred(&e);
            let ghost keep0 = keep;
            let ghost out0 = out@;
            proof {
                lemma_masked_push(orig.take(cnt as int), keep0, e, b);
                assert(orig.take(cnt + 1) =~= orig.take(cnt as int).push(e));
                keep = keep0.push(b);
            }
            if b {
                out.push(e);
                assert(out@ =~= out0 + seq![e]);
            } else {
                assert(out@ =~= out0 + Seq::<T>::empty());
            }
            cnt = cnt + 1;
            proof {
                assert(rest@ =~= orig.skip(cnt as int));
                assert(out@ == masked(orig.take(cnt as int), keep));
                assert forall|i: int| 0 <= i < cnt implies pred.ensures((&orig[i],), keep[i]) by {
                    if i < cnt - 1 {
                        assert(keep[i] == keep0[i]);
                    } else {
                        assert(keep[i] == b);
                        assert(orig[i] == e);
                    }
                }
            }
        }
        proof {
            assert(orig.take(orig.len() as int) =~= orig);
            assert(query_result_ok::<T>(s.view(), self@, orig.map_values(|e: T| e@)) && keep.len()
                == orig.len() && out@ == masked(orig, keep) && forall|i: int|
                0 <= i < orig.len() ==> pred.ensures((&orig[i],), keep[i]));
        }
        Ok(out)
    }
}

} // verus!
