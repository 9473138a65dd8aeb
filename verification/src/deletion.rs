//! The deletion engine: policy-driven, recursive, two-phase removal.
//!
//! Phase one walks the relation graph from the entity being removed —
//! declared children by prefix scan, declared siblings by shared key,
//! free named edges from the relations row — and builds the set of
//! entities to delete and the back-edges to sever, honouring each edge's
//! behaviour: `Cascade` schedules the target, `BreakLink` schedules an
//! edge removal, `Error` refuses the whole removal — unless the edge
//! points back at the very entity whose removal propagated here, the
//! mirror of the edge being traversed.  When one peer is reachable both
//! through a cascading path and through an error-policy edge, the
//! refusal wins.  Phase one only reads; a refusal therefore leaves the
//! database exactly as it was.
//!
//! Phase two severs the planned edges first, then deletes the planned
//! rows.  A visited set keyed by `(store, key)` makes cycles — including
//! an entity related to itself — contribute no new work.

use vstd::prelude::*;
use vstd::utf8::encode_utf8;
use crate::codec::{bytes_eq, is_prefix_of};
use crate::entity::{store_bytes, Entity};
use crate::keys::AsBytes;
use crate::kv::{
    entity_tree, entity_tree_name, family_tree, kv_del, kv_get, kv_scan_prefix, rel_tree,
    rel_tree_name, scan_matches, tree_of, DbView, Store,
};
use crate::relation::{
    load_relations, rels_of, save_relations, Edge, EntityRelations, FamilyDescriptor, family_of,
};
use crate::DeletionBehaviour;
use crate::Error;

verus! {

/// The pair list holds `(store, key)`.
pub open spec fn pair_in(ps: Seq<(Vec<u8>, Vec<u8>)>, st: Seq<u8>, k: Seq<u8>) -> bool {
    exists|j: int| 0 <= j < ps.len() && (#[trigger] ps[j]).0@ == st && ps[j].1@ == k
}

/// A pair list only ever grows during planning; membership persists.
pub proof fn lemma_pair_in_grows(a: Seq<(Vec<u8>, Vec<u8>)>, b: Seq<(Vec<u8>, Vec<u8>)>, st: Seq<u8>, k: Seq<u8>)
    requires
        a.is_prefix_of(b),
        pair_in(a, st, k),
    ensures
        pair_in(b, st, k),
{
    let j = choose|j: int| 0 <= j < a.len() && (#[trigger] a[j]).0@ == st && a[j].1@ == k;
    assert(b[j] == a[j]);
}

/// Prefix-of is transitive on pair lists.
proof fn lemma_prefix_trans(a: Seq<(Vec<u8>, Vec<u8>)>, b: Seq<(Vec<u8>, Vec<u8>)>, c: Seq<(Vec<u8>, Vec<u8>)>)
    requires
        a.is_prefix_of(b),
        b.is_prefix_of(c),
    ensures
        a.is_prefix_of(c),
{
    assert(c.take(a.len() as int) =~= a);
}

/// The mathematical content of a pair list.
pub open spec fn pairs_view(ps: Seq<(Vec<u8>, Vec<u8>)>) -> Seq<(Seq<u8>, Seq<u8>)> {
    ps.map_values(|p: (Vec<u8>, Vec<u8>)| (p.0@, p.1@))
}

/// One propagation step of the deletion policy in view `v`: removing
/// `from` schedules `to` because `to` is a row of a declared non-error
/// child tree under `from`'s key prefix, a declared cascade sibling at
/// the same key, or the target of a cascade edge on `from`'s row.
pub open spec fn cascade_step(v: DbView, from: (Seq<u8>, Seq<u8>), to: (Seq<u8>, Seq<u8>)) -> bool {
    ||| (match family_of(v, from.0) {
        Some(f) => exists|i: int|
            0 <= i < f.children.len() && encode_utf8((#[trigger] f.children[i]).0) == to.0 && !(
            f.children[i].1 is Error) && is_prefix_of(from.1, to.1) && tree_of(
                v,
                entity_tree_name(to.0),
            ).contains_key(to.1),
        None => false,
    })
    ||| (match family_of(v, from.0) {
        Some(f) => exists|i: int|
            0 <= i < f.siblings.len() && encode_utf8((#[trigger] f.siblings[i]).0) == to.0 && f.siblings[i].1
                is Cascade && to.1 == from.1,
        None => false,
    })
    ||| (exists|i: int|
        0 <= i < rels_of(v, from.0, from.1).len() && (#[trigger] rels_of(v, from.0, from.1)[i]).local
            is Cascade && to == (
            encode_utf8(rels_of(v, from.0, from.1)[i].peer_store),
            rels_of(v, from.0, from.1)[i].peer_key,
        ))
}

/// A discovery-ordered deletion plan: it begins at the root and every
/// later entry is one policy step away from an earlier one.
pub open spec fn plan_justified(v: DbView, root: (Seq<u8>, Seq<u8>), del: Seq<(Seq<u8>, Seq<u8>)>) -> bool {
    &&& del.len() >= 1
    &&& del[0] == root
    &&& forall|j: int|
        1 <= j < del.len() ==> exists|j2: int|
            0 <= j2 < j && cascade_step(v, del[j2], #[trigger] del[j])
}

/// A live refusal at `q`: an error-policy child, sibling or edge of `q`
/// whose protected entity exists.
pub open spec fn blocks(v: DbView, q: (Seq<u8>, Seq<u8>)) -> bool {
    ||| (match family_of(v, q.0) {
        Some(f) => exists|i: int, k: Seq<u8>|
            #![trigger f.children[i], tree_of(v, entity_tree_name(encode_utf8(f.children[i].0))).contains_key(k)]
            0 <= i < f.children.len() && f.children[i].1 is Error && tree_of(
                v,
                entity_tree_name(encode_utf8(f.children[i].0)),
            ).contains_key(k) && is_prefix_of(q.1, k),
        None => false,
    })
    ||| (match family_of(v, q.0) {
        Some(f) => exists|i: int|
            0 <= i < f.siblings.len() && (#[trigger] f.siblings[i]).1 is Error && tree_of(
                v,
                entity_tree_name(encode_utf8(f.siblings[i].0)),
            ).contains_key(q.1),
        None => false,
    })
    ||| (exists|i: int|
        0 <= i < rels_of(v, q.0, q.1).len() && (#[trigger] rels_of(v, q.0, q.1)[i]).local is Error
            && tree_of(
            v,
            entity_tree_name(encode_utf8(rels_of(v, q.0, q.1)[i].peer_store)),
        ).contains_key(rels_of(v, q.0, q.1)[i].peer_key))
}

/// Everything one policy step from `p` that must be scheduled is in the
/// pair list: every row of a declared child tree under `p`'s key prefix,
/// every present cascade sibling, and every cascade edge target.
pub open spec fn step_targets_scheduled(
    v: DbView,
    p: (Seq<u8>, Seq<u8>),
    vis: Seq<(Vec<u8>, Vec<u8>)>,
) -> bool {
    &&& (match family_of(v, p.0) {
        Some(f) => forall|i: int, k: Seq<u8>|
            #![trigger f.children[i], tree_of(v, entity_tree_name(encode_utf8(f.children[i].0))).contains_key(k)]
            0 <= i < f.children.len() && tree_of(
                v,
                entity_tree_name(encode_utf8(f.children[i].0)),
            ).contains_key(k) && is_prefix_of(p.1, k) ==> pair_in(
                vis,
                encode_utf8(f.children[i].0),
                k,
            ),
        None => true,
    })
    &&& (match family_of(v, p.0) {
        Some(f) => forall|i: int|
            #![trigger f.siblings[i]]
            0 <= i < f.siblings.len() && f.siblings[i].1 is Cascade && tree_of(
                v,
                entity_tree_name(encode_utf8(f.siblings[i].0)),
            ).contains_key(p.1) ==> pair_in(vis, encode_utf8(f.siblings[i].0), p.1),
        None => true,
    })
    &&& (forall|i: int|
        0 <= i < rels_of(v, p.0, p.1).len() && (#[trigger] rels_of(v, p.0, p.1)[i]).local
            is Cascade ==> pair_in(
            vis,
            encode_utf8(rels_of(v, p.0, p.1)[i].peer_store),
            rels_of(v, p.0, p.1)[i].peer_key,
        ))
}

/// Scheduled step targets stay scheduled as the pair list grows.
proof fn lemma_step_targets_grow(
    v: DbView,
    p: (Seq<u8>, Seq<u8>),
    a: Seq<(Vec<u8>, Vec<u8>)>,
    b: Seq<(Vec<u8>, Vec<u8>)>,
)
    requires
        step_targets_scheduled(v, p, a),
        a.is_prefix_of(b),
    ensures
        step_targets_scheduled(v, p, b),
{
    match family_of(v, p.0) {
        Some(f) => {
            assert forall|i: int, k: Seq<u8>|
                #![trigger f.children[i], tree_of(v, entity_tree_name(encode_utf8(f.children[i].0))).contains_key(k)]
                0 <= i < f.children.len() && tree_of(
                    v,
                    entity_tree_name(encode_utf8(f.children[i].0)),
                ).contains_key(k) && is_prefix_of(p.1, k) implies pair_in(
                b,
                encode_utf8(f.children[i].0),
                k,
            ) by {
                lemma_pair_in_grows(a, b, encode_utf8(f.children[i].0), k);
            }
            assert forall|i: int|
                #![trigger f.siblings[i]]
                0 <= i < f.siblings.len() && f.siblings[i].1 is Cascade && tree_of(
                    v,
                    entity_tree_name(encode_utf8(f.siblings[i].0)),
                ).contains_key(p.1) implies pair_in(b, encode_utf8(f.siblings[i].0), p.1) by {
                lemma_pair_in_grows(a, b, encode_utf8(f.siblings[i].0), p.1);
            }
        },
        None => {},
    }
    assert forall|i: int|
        0 <= i < rels_of(v, p.0, p.1).len() && (#[trigger] rels_of(v, p.0, p.1)[i]).local
            is Cascade implies pair_in(
        b,
        encode_utf8(rels_of(v, p.0, p.1)[i].peer_store),
        rels_of(v, p.0, p.1)[i].peer_key,
    ) by {
        lemma_pair_in_grows(
            a,
            b,
            encode_utf8(rels_of(v, p.0, p.1)[i].peer_store),
            rels_of(v, p.0, p.1)[i].peer_key,
        );
    }
}

/// Every scheduled pair is either already processed (listed in `done`)
/// or still queued.
pub open spec fn covered(
    visited: Seq<(Vec<u8>, Vec<u8>)>,
    done: Seq<(Seq<u8>, Seq<u8>)>,
    w: Seq<((Vec<u8>, Vec<u8>), (Vec<u8>, Vec<u8>))>,
) -> bool {
    forall|j: int|
        0 <= j < visited.len() ==> (done.contains(((#[trigger] visited[j]).0@, visited[j].1@))
            || exists|j2: int|
            0 <= j2 < w.len() && ((#[trigger] w[j2]).0.0@, w[j2].0.1@) == (
                visited[j].0@,
                visited[j].1@,
            ))
}

/// Popping the last queued entry keeps coverage, once the popped pair
/// is listed as processed.
proof fn lemma_pop_transfers_coverage(
    visited: Seq<(Vec<u8>, Vec<u8>)>,
    done: Seq<(Seq<u8>, Seq<u8>)>,
    wb: Seq<((Vec<u8>, Vec<u8>), (Vec<u8>, Vec<u8>))>,
    wa: Seq<((Vec<u8>, Vec<u8>), (Vec<u8>, Vec<u8>))>,
    pv: (Seq<u8>, Seq<u8>),
)
    requires
        covered(visited, done, wb),
        wb.len() >= 1,
        wa == wb.take(wb.len() - 1),
        pv == (wb[wb.len() - 1].0.0@, wb[wb.len() - 1].0.1@),
    ensures
        covered(visited, done.push(pv), wa),
{
    let done_next = done.push(pv);
    assert(done_next[done_next.len() - 1] == pv);
    assert(done_next.contains(pv));
    assert forall|j: int|
        0 <= j < visited.len() implies (done_next.contains(
        ((#[trigger] visited[j]).0@, visited[j].1@),
    ) || exists|j2: int|
        0 <= j2 < wa.len() && ((#[trigger] wa[j2]).0.0@, wa[j2].0.1@) == (
            visited[j].0@,
            visited[j].1@,
        )) by {
        if done.contains((visited[j].0@, visited[j].1@)) {
            let idx = choose|idx: int|
                0 <= idx < done.len() && done[idx] == (visited[j].0@, visited[j].1@);
            assert(done_next[idx] == done[idx]);
            assert(done_next.contains((visited[j].0@, visited[j].1@)));
        } else {
            let j2 = choose|j2: int|
                0 <= j2 < wb.len() && ((#[trigger] wb[j2]).0.0@, wb[j2].0.1@) == (
                    visited[j].0@,
                    visited[j].1@,
                );
            if j2 < wb.len() - 1 {
                assert(wa[j2] == wb[j2]);
            } else {
                assert((visited[j].0@, visited[j].1@) == pv);
            }
        }
    }
}

/// Processed pairs keep their scheduled step targets as the pair list
/// grows.
proof fn lemma_done_targets_grow(
    v: DbView,
    done: Seq<(Seq<u8>, Seq<u8>)>,
    a: Seq<(Vec<u8>, Vec<u8>)>,
    b: Seq<(Vec<u8>, Vec<u8>)>,
)
    requires
        forall|j: int|
            0 <= j < done.len() ==> step_targets_scheduled(v, #[trigger] done[j], a),
        a.is_prefix_of(b),
    ensures
        forall|j: int|
            0 <= j < done.len() ==> step_targets_scheduled(v, #[trigger] done[j], b),
{
    assert forall|j: int|
        0 <= j < done.len() implies step_targets_scheduled(v, #[trigger] done[j], b) by {
        lemma_step_targets_grow(v, done[j], a, b);
    }
}

/// A prefix of a justified plan is a justified plan.
proof fn lemma_plan_prefix(v: DbView, root: (Seq<u8>, Seq<u8>), del: Seq<(Seq<u8>, Seq<u8>)>, n: int)
    requires
        plan_justified(v, root, del),
        1 <= n <= del.len(),
    ensures
        plan_justified(v, root, del.take(n)),
{
    assert forall|j: int| 1 <= j < del.take(n).len() implies exists|j2: int|
        0 <= j2 < j && cascade_step(v, del.take(n)[j2], #[trigger] del.take(n)[j]) by {
        let j2 = choose|j2: int| 0 <= j2 < j && cascade_step(v, del[j2], del[j]);
        assert(del.take(n)[j2] == del[j2]);
        assert(cascade_step(v, del.take(n)[j2], del.take(n)[j]));
    }
}

/// Whether the pair list holds `(st, k)`.
fn pair_contains(v: &Vec<(Vec<u8>, Vec<u8>)>, st: &Vec<u8>, k: &Vec<u8>) -> (r: bool)
    ensures
        r == pair_in(v@, st@, k@),
{
    let mut i: usize = 0;
    while i < v.len()
        invariant
            i <= v@.len(),
            forall|j: int| 0 <= j < i ==> !((#[trigger] v@[j]).0@ == st@ && v@[j].1@ == k@),
        decreases v@.len() - i,
    {
        if bytes_eq(&v[i].0, st) && bytes_eq(&v[i].1, k) {
            return true;
        }
        i = i + 1;
    }
    false
}

/// Every queued entry — the pair to process and the cause that
/// scheduled it — is in the visited set.
pub open spec fn work_scheduled(
    w: Seq<((Vec<u8>, Vec<u8>), (Vec<u8>, Vec<u8>))>,
    visited: Seq<(Vec<u8>, Vec<u8>)>,
) -> bool {
    forall|j: int|
        0 <= j < w.len() ==> (pair_in(visited, (#[trigger] w[j]).0.0@, w[j].0.1@) && pair_in(
            visited,
            w[j].1.0@,
            w[j].1.1@,
        ))
}

/// Schedules `(st, k)` for deletion, caused by the already-scheduled
/// `(cs, ck)` through one policy step, unless it is already scheduled.
fn enqueue(
    visited: &mut Vec<(Vec<u8>, Vec<u8>)>,
    work: &mut Vec<((Vec<u8>, Vec<u8>), (Vec<u8>, Vec<u8>))>,
    st: &Vec<u8>,
    k: &Vec<u8>,
    cs: &Vec<u8>,
    ck: &Vec<u8>,
    Ghost(v): Ghost<DbView>,
    Ghost(root): Ghost<(Seq<u8>, Seq<u8>)>,
    Ghost(done): Ghost<Seq<(Seq<u8>, Seq<u8>)>>,
)
    requires
        pair_in(old(visited)@, cs@, ck@),
        work_scheduled(old(work)@, old(visited)@),
        plan_justified(v, root, pairs_view(old(visited)@)),
        cascade_step(v, (cs@, ck@), (st@, k@)),
        covered(old(visited)@, done, old(work)@),
    ensures
        old(visited)@.is_prefix_of(final(visited)@),
        pair_in(final(visited)@, st@, k@),
        work_scheduled(final(work)@, final(visited)@),
        plan_justified(v, root, pairs_view(final(visited)@)),
        covered(final(visited)@, done, final(work)@),
{
    if !pair_contains(visited, st, k) {
        let ghost w0 = work@;
        let ghost v0 = visited@;
        let pair = (st.clone(), k.clone());
        visited.push((st.clone(), k.clone()));
        work.push((pair, (cs.clone(), ck.clone())));
        assert(visited@[visited@.len() - 1].0@ == st@);
        assert(visited@.take(old(visited)@.len() as int) =~= old(visited)@);
        assert(old(visited)@.is_prefix_of(visited@));
        proof {
            assert forall|j: int|
                0 <= j < work@.len() implies (pair_in(
                visited@,
                (#[trigger] work@[j]).0.0@,
                work@[j].0.1@,
            ) && pair_in(visited@, work@[j].1.0@, work@[j].1.1@)) by {
                if j < w0.len() {
                    assert(work@[j] == w0[j]);
                    lemma_pair_in_grows(old(visited)@, visited@, w0[j].0.0@, w0[j].0.1@);
                    lemma_pair_in_grows(old(visited)@, visited@, w0[j].1.0@, w0[j].1.1@);
                } else {
                    assert(visited@[visited@.len() - 1].1@ == k@);
                    lemma_pair_in_grows(old(visited)@, visited@, cs@, ck@);
                }
            }
            assert forall|j: int|
                0 <= j < visited@.len() implies (done.contains(
                ((#[trigger] visited@[j]).0@, visited@[j].1@),
            ) || exists|j2: int|
                0 <= j2 < work@.len() && ((#[trigger] work@[j2]).0.0@, work@[j2].0.1@) == (
                    visited@[j].0@,
                    visited@[j].1@,
                )) by {
                if j < v0.len() {
                    assert(visited@[j] == v0[j]);
                    if !done.contains((v0[j].0@, v0[j].1@)) {
                        let j2 = choose|j2: int|
                            0 <= j2 < w0.len() && ((#[trigger] w0[j2]).0.0@, w0[j2].0.1@) == (
                                v0[j].0@,
                                v0[j].1@,
                            );
                        assert((work@[j2].0.0@, work@[j2].0.1@) == (visited@[j].0@, visited@[j].1@));
                    }
                } else {
                    assert((work@[work@.len() - 1].0.0@, work@[work@.len() - 1].0.1@) == (
                        visited@[j].0@,
                        visited@[j].1@,
                    ));
                }
            }
            // The new entry is justified by its cause's entry.
            let pv0 = pairs_view(v0);
            let pv1 = pairs_view(visited@);
            assert(pv1 =~= pv0.push((st@, k@)));
            let j2 = choose|j2: int| 0 <= j2 < v0.len() && (#[trigger] v0[j2]).0@ == cs@ && v0[j2].1@ == ck@;
            assert(pv1[j2] == (cs@, ck@));
            assert forall|j: int| 1 <= j < pv1.len() implies exists|jj: int|
                0 <= jj < j && cascade_step(v, pv1[jj], #[trigger] pv1[j]) by {
                if j < pv0.len() {
                    assert(pv1[j] == pv0[j]);
                    let jj = choose|jj: int| 0 <= jj < j && cascade_step(v, pv0[jj], pv0[j]);
                    assert(pv1[jj] == pv0[jj]);
                    assert(cascade_step(v, pv1[jj], pv1[j]));
                } else {
                    assert(pv1[j] == (st@, k@));
                    assert(cascade_step(v, pv1[j2], pv1[j]));
                }
            }
        }
    } else {
        assert(visited@.is_prefix_of(visited@));
    }
}

/// One planned edge removal: in the relations row of `(row_store,
/// row_key)`, drop every edge towards `(target_store, target_key)` that
/// carries `name`.
pub struct EdgeRemoval {
    pub row_store: Vec<u8>,
    pub row_key: Vec<u8>,
    pub target_store: Vec<u8>,
    pub target_key: Vec<u8>,
    pub name: Option<String>,
}

/// Plans everything the removal of one entity implies for the entity's
/// own row: scheduling its declared children and cascade peers, planning
/// the severing of its break-link edges, and refusing on an error-policy
/// edge — exempting only the edge back at `(cause_s, cause_k)`, the
/// already-scheduled entity whose removal propagated here.  Reads only.
#[verifier::rlimit(100)]
fn process_pair(
    s: &Store,
    root_store: &Vec<u8>,
    root_key: &Vec<u8>,
    ps: &Vec<u8>,
    pk: &Vec<u8>,
    cause_s: &Vec<u8>,
    cause_k: &Vec<u8>,
    visited: &mut Vec<(Vec<u8>, Vec<u8>)>,
    work: &mut Vec<((Vec<u8>, Vec<u8>), (Vec<u8>, Vec<u8>))>,
    removals: &mut Vec<EdgeRemoval>,
    Ghost(done): Ghost<Seq<(Seq<u8>, Seq<u8>)>>,
) -> (r: Result<(), Error>)
    requires
        pair_in(old(visited)@, ps@, pk@),
        pair_in(old(visited)@, cause_s@, cause_k@),
        work_scheduled(old(work)@, old(visited)@),
        plan_justified(s.view(), (root_store@, root_key@), pairs_view(old(visited)@)),
        covered(old(visited)@, done, old(work)@),
    ensures
        r matches Err(e) ==> e is Engine || e is Serialisation || e is DeletionBlocked,
        old(visited)@.is_prefix_of(final(visited)@),
        work_scheduled(final(work)@, final(visited)@),
        plan_justified(s.view(), (root_store@, root_key@), pairs_view(final(visited)@)),
        r is Ok ==> covered(final(visited)@, done, final(work)@),
        r matches Err(e) && e is DeletionBlocked ==> blocks(s.view(), (ps@, pk@)),
        r is Ok ==> step_targets_scheduled(s.view(), (ps@, pk@), final(visited)@),
{
    let ghost rootp = (root_store@, root_key@);
    let ftree = family_tree();
    let fam = match kv_get(s.db_ref(), &ftree, ps) {
        Ok(Some(row)) => match FamilyDescriptor::from_bytes(&row) {
            Some(f) => Some(f),
            None => {
                return Err(Error::Serialisation);
            },
        },
        Ok(None) => None,
        Err(e) => {
            return Err(e);
        },
    };
    match &fam {
        Some(f) => {
            let ghost fview = f@;
            assert(family_of(s.view(), ps@) == Some(fview));
            // Declared children: everything under this entity's key
            // prefix in each declared child tree.
            let mut i: usize = 0;
            while i < f.child_trees.len()
                invariant
                    i <= f.child_trees@.len(),
                    fview == f@,
                    rootp == (root_store@, root_key@),
                    family_of(s.view(), ps@) == Some(fview),
                    old(visited)@.is_prefix_of(visited@),
                    pair_in(visited@, ps@, pk@),
                    pair_in(visited@, cause_s@, cause_k@),
                    work_scheduled(work@, visited@),
                    plan_justified(s.view(), rootp, pairs_view(visited@)),
                    covered(visited@, done, work@),
                    forall|i2: int, k: Seq<u8>|
                        #![trigger fview.children[i2], tree_of(s.view(), entity_tree_name(encode_utf8(fview.children[i2].0))).contains_key(k)]
                        0 <= i2 < i && tree_of(
                            s.view(),
                            entity_tree_name(encode_utf8(fview.children[i2].0)),
                        ).contains_key(k) && is_prefix_of(pk@, k) ==> pair_in(
                            visited@,
                            encode_utf8(fview.children[i2].0),
                            k,
                        ),
                decreases f.child_trees@.len() - i,
            {
                let ghost visited_at_decl = visited@;
                let ctb = vstd::string::StrSliceExecFns::as_bytes_vec(
                    f.child_trees[i].0.as_str(),
                );
                assert(ctb@ == encode_utf8(fview.children[i as int].0));
                let ctree = entity_tree(&ctb);
                let rows = match kv_scan_prefix(s.db_ref(), &ctree, pk) {
                    Ok(r) => r,
                    Err(e) => {
                        return Err(e);
                    },
                };
                let is_error = matches!(f.child_trees[i].1, DeletionBehaviour::Error);
                assert(is_error == (fview.children[i as int].1 is Error));
                let mut j: usize = 0;
                while j < rows.len()
                    invariant
                        j <= rows@.len(),
                        i < f.child_trees@.len(),
                        fview == f@,
                        rootp == (root_store@, root_key@),
                        family_of(s.view(), ps@) == Some(fview),
                        ctb@ == encode_utf8(fview.children[i as int].0),
                        is_error == (fview.children[i as int].1 is Error),
                        scan_matches(tree_of(s.view(), entity_tree_name(ctb@)), pk@, rows@),
                        old(visited)@.is_prefix_of(visited@),
                        visited_at_decl.is_prefix_of(visited@),
                        pair_in(visited@, ps@, pk@),
                        pair_in(visited@, cause_s@, cause_k@),
                        work_scheduled(work@, visited@),
                        plan_justified(s.view(), rootp, pairs_view(visited@)),
                        covered(visited@, done, work@),
                        forall|j2: int|
                            0 <= j2 < j ==> pair_in(visited@, ctb@, (#[trigger] rows@[j2]).0@),
                    decreases rows@.len() - j,
                {
                    let ghost visited_before = visited@;
                    if is_error {
                        // An error-policy child refuses the removal,
                        // unless it is the entity this removal came
                        // from.
                        if !(bytes_eq(&ctb, cause_s) && bytes_eq(&rows[j].0, cause_k)) {
                            proof {
                                assert(tree_of(
                                    s.view(),
                                    entity_tree_name(encode_utf8(fview.children[i as int].0)),
                                ).contains_key(rows@[j as int].0@));
                                assert(blocks(s.view(), (ps@, pk@)));
                            }
                            return Err(
                                Error::DeletionBlocked {
                                    store: root_store.clone(),
                                    key: root_key.clone(),
                                    blocker_store: ctb,
                                    blocker_key: rows[j].0.clone(),
                                },
                            );
                        }
                        assert(pair_in(visited@, ctb@, rows@[j as int].0@));
                        assert(visited@.is_prefix_of(visited@));
                    } else {
                        proof {
                            assert(tree_of(s.view(), entity_tree_name(ctb@)).contains_key(
                                rows@[j as int].0@,
                            ));
                            assert(cascade_step(s.view(), (ps@, pk@), (ctb@, rows@[j as int].0@)));
                        }
                        enqueue(
                            visited,
                            work,
                            &ctb,
                            &rows[j].0,
                            ps,
                            pk,
                            Ghost(s.view()),
                            Ghost(rootp),
                            Ghost(done),
                        );
                    }
                    proof {
                        lemma_prefix_trans(old(visited)@, visited_before, visited@);
                        lemma_prefix_trans(visited_at_decl, visited_before, visited@);
                        lemma_pair_in_grows(visited_before, visited@, ps@, pk@);
                        lemma_pair_in_grows(visited_before, visited@, cause_s@, cause_k@);
                        assert forall|j2: int|
                            0 <= j2 < j + 1 implies pair_in(
                            visited@,
                            ctb@,
                            (#[trigger] rows@[j2]).0@,
                        ) by {
                            if j2 < j {
                                lemma_pair_in_grows(visited_before, visited@, ctb@, rows@[j2].0@);
                            }
                        }
                    }
                    j = j + 1;
                }
                proof {
                    let m = tree_of(s.view(), entity_tree_name(ctb@));
                    assert forall|k: Seq<u8>|
                        #[trigger] m.contains_key(k) && is_prefix_of(pk@, k) implies pair_in(
                        visited@,
                        ctb@,
                        k,
                    ) by {
                        let j2 = choose|j2: int|
                            0 <= j2 < rows@.len() && (#[trigger] rows@[j2]).0@ == k;
                        assert(pair_in(visited@, ctb@, rows@[j2].0@));
                    }
                    assert forall|i2: int, k: Seq<u8>|
                        #![trigger fview.children[i2], tree_of(s.view(), entity_tree_name(encode_utf8(fview.children[i2].0))).contains_key(k)]
                        0 <= i2 < i + 1 && tree_of(
                            s.view(),
                            entity_tree_name(encode_utf8(fview.children[i2].0)),
                        ).contains_key(k) && is_prefix_of(pk@, k) implies pair_in(
                        visited@,
                        encode_utf8(fview.children[i2].0),
                        k,
                    ) by {
                        if i2 < i {
                            lemma_pair_in_grows(
                                visited_at_decl,
                                visited@,
                                encode_utf8(fview.children[i2].0),
                                k,
                            );
                        }
                    }
                }
                i = i + 1;
            }
            // Declared siblings: the entity in the sibling store sharing
            // this key, if present.
            let mut i: usize = 0;
            while i < f.sibling_trees.len()
                invariant
                    i <= f.sibling_trees@.len(),
                    fview == f@,
                    rootp == (root_store@, root_key@),
                    family_of(s.view(), ps@) == Some(fview),
                    old(visited)@.is_prefix_of(visited@),
                    pair_in(visited@, ps@, pk@),
                    pair_in(visited@, cause_s@, cause_k@),
                    work_scheduled(work@, visited@),
                    plan_justified(s.view(), rootp, pairs_view(visited@)),
                    covered(visited@, done, work@),
                    forall|i2: int, k: Seq<u8>|
                        #![trigger fview.children[i2], tree_of(s.view(), entity_tree_name(encode_utf8(fview.children[i2].0))).contains_key(k)]
                        0 <= i2 < fview.children.len() && tree_of(
                            s.view(),
                            entity_tree_name(encode_utf8(fview.children[i2].0)),
                        ).contains_key(k) && is_prefix_of(pk@, k) ==> pair_in(
                            visited@,
                            encode_utf8(fview.children[i2].0),
                            k,
                        ),
                    forall|i2: int|
                        #![trigger fview.siblings[i2]]
                        0 <= i2 < i && fview.siblings[i2].1 is Cascade && tree_of(
                            s.view(),
                            entity_tree_name(encode_utf8(fview.siblings[i2].0)),
                        ).contains_key(pk@) ==> pair_in(
                            visited@,
                            encode_utf8(fview.siblings[i2].0),
                            pk@,
                        ),
                decreases f.sibling_trees@.len() - i,
            {
                let ghost visited_before = visited@;
                let stb = vstd::string::StrSliceExecFns::as_bytes_vec(
                    f.sibling_trees[i].0.as_str(),
                );
                assert(stb@ == encode_utf8(fview.siblings[i as int].0));
                let stree = entity_tree(&stb);
                let present = match kv_get(s.db_ref(), &stree, pk) {
                    Ok(o) => o.is_some(),
                    Err(e) => {
                        return Err(e);
                    },
                };
                if present {
                    match f.sibling_trees[i].1 {
                        DeletionBehaviour::Cascade => {
                            proof {
                                assert(fview.siblings[i as int].1 is Cascade);
                                assert(cascade_step(s.view(), (ps@, pk@), (stb@, pk@)));
                            }
                            enqueue(
                                visited,
                                work,
                                &stb,
                                pk,
                                ps,
                                pk,
                                Ghost(s.view()),
                                Ghost(rootp),
                                Ghost(done),
                            );
                        },
                        DeletionBehaviour::Error => {
                            if !(bytes_eq(&stb, cause_s) && bytes_eq(pk, cause_k)) {
                                proof {
                                    assert(fview.siblings[i as int].1 is Error);
                                    assert(tree_of(
                                        s.view(),
                                        entity_tree_name(encode_utf8(fview.siblings[i as int].0)),
                                    ).contains_key(pk@));
                                    assert(blocks(s.view(), (ps@, pk@)));
                                }
                                return Err(
                                    Error::DeletionBlocked {
                                        store: root_store.clone(),
                                        key: root_key.clone(),
                                        blocker_store: stb,
                                        blocker_key: pk.clone(),
                                    },
                                );
                            }
                        },
                        DeletionBehaviour::BreakLink => {},
                    }
                }
                proof {
                    lemma_prefix_trans(old(visited)@, visited_before, visited@);
                    lemma_pair_in_grows(visited_before, visited@, ps@, pk@);
                    lemma_pair_in_grows(visited_before, visited@, cause_s@, cause_k@);
                    assert forall|i2: int, k: Seq<u8>|
                        #![trigger fview.children[i2], tree_of(s.view(), entity_tree_name(encode_utf8(fview.children[i2].0))).contains_key(k)]
                        0 <= i2 < fview.children.len() && tree_of(
                            s.view(),
                            entity_tree_name(encode_utf8(fview.children[i2].0)),
                        ).contains_key(k) && is_prefix_of(pk@, k) implies pair_in(
                        visited@,
                        encode_utf8(fview.children[i2].0),
                        k,
                    ) by {
                        lemma_pair_in_grows(
                            visited_before,
                            visited@,
                            encode_utf8(fview.children[i2].0),
                            k,
                        );
                    }
                    assert forall|i2: int|
                        #![trigger fview.siblings[i2]]
                        0 <= i2 < i + 1 && fview.siblings[i2].1 is Cascade && tree_of(
                            s.view(),
                            entity_tree_name(encode_utf8(fview.siblings[i2].0)),
                        ).contains_key(pk@) implies pair_in(
                        visited@,
                        encode_utf8(fview.siblings[i2].0),
                        pk@,
                    ) by {
                        if i2 < i {
                            lemma_pair_in_grows(
                                visited_before,
                                visited@,
                                encode_utf8(fview.siblings[i2].0),
                                pk@,
                            );
                        }
                    }
                }
                i = i + 1;
            }
        },
        None => {},
    }
    let ghost visited_after_decls = visited@;
    // Free named relations: this entity's outgoing edges.
    let rels = match load_relations(s, ps, pk) {
        Ok(rr) => rr,
        Err(e) => {
            return Err(e);
        },
    };
    assert(rels@ == rels_of(s.view(), ps@, pk@));
    let mut i: usize = 0;
    while i < rels.edges.len()
        invariant
            i <= rels.edges@.len(),
            rels@ == rels_of(s.view(), ps@, pk@),
            old(visited)@.is_prefix_of(visited@),
            visited_after_decls.is_prefix_of(visited@),
            pair_in(visited@, ps@, pk@),
            work_scheduled(work@, visited@),
            plan_justified(s.view(), (root_store@, root_key@), pairs_view(visited@)),
            covered(visited@, done, work@),
            forall|i2: int|
                0 <= i2 < i && (#[trigger] rels_of(s.view(), ps@, pk@)[i2]).local is Cascade
                    ==> pair_in(
                    visited@,
                    encode_utf8(rels_of(s.view(), ps@, pk@)[i2].peer_store),
                    rels_of(s.view(), ps@, pk@)[i2].peer_key,
                ),
        decreases rels.edges@.len() - i,
    {
        let ghost visited_before = visited@;
        let e = &rels.edges[i];
        assert(e@ == rels_of(s.view(), ps@, pk@)[i as int]);
        let pstb = vstd::string::StrSliceExecFns::as_bytes_vec(e.peer_store.as_str());
        match e.local {
            DeletionBehaviour::Cascade => {
                proof {
                    assert(cascade_step(s.view(), (ps@, pk@), (pstb@, e.peer_key@)));
                }
                enqueue(
                    visited,
                    work,
                    &pstb,
                    &e.peer_key,
                    ps,
                    pk,
                    Ghost(s.view()),
                    Ghost((root_store@, root_key@)),
                    Ghost(done),
                );
            },
            DeletionBehaviour::BreakLink => {
                removals.push(
                    EdgeRemoval {
                        row_store: pstb,
                        row_key: e.peer_key.clone(),
                        target_store: ps.clone(),
                        target_key: pk.clone(),
                        name: match &e.name {
                            Some(n) => Some(n.clone()),
                            None => None,
                        },
                    },
                );
            },
            DeletionBehaviour::Error => {
                if !(bytes_eq(&pstb, cause_s) && bytes_eq(&e.peer_key, cause_k)) {
                    let ptree = entity_tree(&pstb);
                    let peer_present = match kv_get(s.db_ref(), &ptree, &e.peer_key) {
                        Ok(o) => o.is_some(),
                        Err(er) => {
                            return Err(er);
                        },
                    };
                    if peer_present {
                        proof {
                            assert(rels_of(s.view(), ps@, pk@)[i as int].local is Error);
                            assert(tree_of(
                                s.view(),
                                entity_tree_name(
                                    encode_utf8(rels_of(s.view(), ps@, pk@)[i as int].peer_store),
                                ),
                            ).contains_key(rels_of(s.view(), ps@, pk@)[i as int].peer_key));
                            assert(blocks(s.view(), (ps@, pk@)));
                        }
                        return Err(
                            Error::DeletionBlocked {
                                store: root_store.clone(),
                                key: root_key.clone(),
                                blocker_store: pstb,
                                blocker_key: e.peer_key.clone(),
                            },
                        );
                    }
                }
            },
        }
        proof {
            lemma_prefix_trans(old(visited)@, visited_before, visited@);
            lemma_prefix_trans(visited_after_decls, visited_before, visited@);
            lemma_pair_in_grows(visited_before, visited@, ps@, pk@);
            assert forall|i2: int|
                0 <= i2 < i + 1 && (#[trigger] rels_of(s.view(), ps@, pk@)[i2]).local is Cascade
                    implies pair_in(
                visited@,
                encode_utf8(rels_of(s.view(), ps@, pk@)[i2].peer_store),
                rels_of(s.view(), ps@, pk@)[i2].peer_key,
            ) by {
                if i2 < i {
                    lemma_pair_in_grows(
                        visited_before,
                        visited@,
                        encode_utf8(rels_of(s.view(), ps@, pk@)[i2].peer_store),
                        rels_of(s.view(), ps@, pk@)[i2].peer_key,
                    );
                }
            }
        }
        i = i + 1;
    }
    proof {
        // The declared-relative clauses proved before the edge walk
        // still hold of the grown visited set; the edge clause was
        // established by the walk itself.
        match family_of(s.view(), ps@) {
            Some(f) => {
                assert forall|i2: int, k: Seq<u8>|
                    #![trigger f.children[i2], tree_of(s.view(), entity_tree_name(encode_utf8(f.children[i2].0))).contains_key(k)]
                    0 <= i2 < f.children.len() && tree_of(
                        s.view(),
                        entity_tree_name(encode_utf8(f.children[i2].0)),
                    ).contains_key(k) && is_prefix_of(pk@, k) implies pair_in(
                    visited@,
                    encode_utf8(f.children[i2].0),
                    k,
                ) by {
                    lemma_pair_in_grows(
                        visited_after_decls,
                        visited@,
                        encode_utf8(f.children[i2].0),
                        k,
                    );
                }
                assert forall|i2: int|
                    #![trigger f.siblings[i2]]
                    0 <= i2 < f.siblings.len() && f.siblings[i2].1 is Cascade && tree_of(
                        s.view(),
                        entity_tree_name(encode_utf8(f.siblings[i2].0)),
                    ).contains_key(pk@) implies pair_in(
                    visited@,
                    encode_utf8(f.siblings[i2].0),
                    pk@,
                ) by {
                    lemma_pair_in_grows(
                        visited_after_decls,
                        visited@,
                        encode_utf8(f.siblings[i2].0),
                        pk@,
                    );
                }
            },
            None => {},
        }
        assert(step_targets_scheduled(s.view(), (ps@, pk@), visited@));
    }
    Ok(())
}

/// Plans the removal of `(root_store, root_key)`: the rows to delete —
/// a discovery-ordered list in which every entry is one policy step from
/// an earlier one — and the edges to sever.  Refusal, which plans
/// nothing, happens only where some policy-reachable entity carries a
/// live error-policy edge, child or sibling.  Reads only.
#[verifier::spinoff_prover]
#[verifier::rlimit(100)]
fn plan_removal(s: &Store, root_store: &Vec<u8>, root_key: &Vec<u8>) -> (r: Result<
    (Vec<(Vec<u8>, Vec<u8>)>, Vec<EdgeRemoval>),
    Error,
>)
    ensures
        r matches Err(e) ==> e is Engine || e is Serialisation || e is DeletionBlocked,
        r matches Err(e) && e is DeletionBlocked ==> exists|path: Seq<(Seq<u8>, Seq<u8>)>|
            #[trigger] plan_justified(s.view(), (root_store@, root_key@), path) && blocks(
                s.view(),
                path[path.len() - 1],
            ),
        r matches Ok(plan) ==> {
            &&& pair_in(plan.0@, root_store@, root_key@)
            &&& plan_justified(s.view(), (root_store@, root_key@), pairs_view(plan.0@))
            &&& step_targets_scheduled(s.view(), (root_store@, root_key@), plan.0@)
            &&& forall|j: int|
                0 <= j < plan.0@.len() ==> step_targets_scheduled(
                    s.view(),
                    ((#[trigger] plan.0@[j]).0@, plan.0@[j].1@),
                    plan.0@,
                )
        },
{
    let ghost rootp = (root_store@, root_key@);
    let mut visited: Vec<(Vec<u8>, Vec<u8>)> = Vec::new();
    let mut work: Vec<((Vec<u8>, Vec<u8>), (Vec<u8>, Vec<u8>))> = Vec::new();
    let mut removals: Vec<EdgeRemoval> = Vec::new();
    visited.push((root_store.clone(), root_key.clone()));
    assert(visited@[0].0@ == root_store@ && visited@[0].1@ == root_key@);
    assert(pair_in(visited@, root_store@, root_key@));
    proof {
        assert(pairs_view(visited@).len() == 1);
        assert(pairs_view(visited@)[0] == rootp);
        assert(plan_justified(s.view(), rootp, pairs_view(visited@)));
    }
    let ghost done_list = seq![rootp];
    proof {
        assert(done_list[0] == rootp);
        assert(done_list.contains(rootp));
        assert(covered(visited@, done_list, work@));
    }
    // The root is its own cause: an error-policy edge of the root
    // pointing at the root itself cannot protect it from itself.
    match process_pair(
        s,
        root_store,
        root_key,
        root_store,
        root_key,
        root_store,
        root_key,
        &mut visited,
        &mut work,
        &mut removals,
        Ghost(done_list),
    ) {
        Ok(()) => {},
        Err(e) => {
            proof {
                if e is DeletionBlocked {
                    let pv = pairs_view(visited@);
                    let j = choose|j: int|
                        0 <= j < visited@.len() && (#[trigger] visited@[j]).0@ == root_store@
                            && visited@[j].1@ == root_key@;
                    assert(pv[j] == (root_store@, root_key@));
                    lemma_plan_prefix(s.view(), rootp, pv, j + 1);
                    assert(pv.take(j + 1)[j] == pv[j]);
                    assert(plan_justified(s.view(), rootp, pv.take(j + 1)) && blocks(
                        s.view(),
                        pv.take(j + 1)[pv.take(j + 1).len() - 1],
                    ));
                }
            }
            return Err(e);
        },
    }
    let ghost visited_root = visited@;
    let ghost mut done_list = done_list;
    // The traversal is bounded by the entities reachable in the
    // database; the explicit budget gives the loop a decreasing measure.
    let mut budget: u64 = u64::MAX;
    while work.len() > 0
        invariant
            rootp == (root_store@, root_key@),
            visited_root.is_prefix_of(visited@),
            pair_in(visited_root, root_store@, root_key@),
            work_scheduled(work@, visited@),
            plan_justified(s.view(), rootp, pairs_view(visited@)),
            step_targets_scheduled(s.view(), rootp, visited_root),
            covered(visited@, done_list, work@),
            forall|j: int|
                0 <= j < done_list.len() ==> step_targets_scheduled(
                    s.view(),
                    #[trigger] done_list[j],
                    visited@,
                ),
        decreases budget,
    {
        if budget == 0 {
            return Err(Error::Engine);
        }
        budget = budget - 1;
        let ghost visited_before = visited@;
        let ghost work_before = work@;
        let item = match work.pop() {
            Some(p) => p,
            None => {
                return Err(Error::Engine);
            },
        };
        let (pair, cause) = item;
        let ghost done_next = done_list.push((pair.0@, pair.1@));
        proof {
            assert(work_before[work_before.len() - 1] == (pair, cause));
            assert(pair_in(visited@, pair.0@, pair.1@));
            assert(pair_in(visited@, cause.0@, cause.1@));
            assert forall|j: int|
                0 <= j < work@.len() implies (pair_in(
                visited@,
                (#[trigger] work@[j]).0.0@,
                work@[j].0.1@,
            ) && pair_in(visited@, work@[j].1.0@, work@[j].1.1@)) by {
                assert(work@[j] == work_before[j]);
            }
            // The popped entry moves from the queue into the processed
            // list; coverage is kept.
            assert(work@ =~= work_before.take(work_before.len() - 1));
            lemma_pop_transfers_coverage(
                visited@,
                done_list,
                work_before,
                work@,
                (pair.0@, pair.1@),
            );
        }
        match process_pair(
            s,
            root_store,
            root_key,
            &pair.0,
            &pair.1,
            &cause.0,
            &cause.1,
            &mut visited,
            &mut work,
            &mut removals,
            Ghost(done_next),
        ) {
            Ok(()) => {},
            Err(e) => {
                proof {
                    if e is DeletionBlocked {
                        lemma_pair_in_grows(visited_before, visited@, pair.0@, pair.1@);
                        let pv = pairs_view(visited@);
                        let j = choose|j: int|
                            0 <= j < visited@.len() && (#[trigger] visited@[j]).0@ == pair.0@
                                && visited@[j].1@ == pair.1@;
                        assert(pv[j] == (pair.0@, pair.1@));
                        lemma_plan_prefix(s.view(), rootp, pv, j + 1);
                        assert(pv.take(j + 1)[j] == pv[j]);
                        assert(plan_justified(s.view(), rootp, pv.take(j + 1)) && blocks(
                            s.view(),
                            pv.take(j + 1)[pv.take(j + 1).len() - 1],
                        ));
                    }
                }
                return Err(e);
            },
        }
        proof {
            lemma_prefix_trans(visited_root, visited_before, visited@);
            lemma_done_targets_grow(s.view(), done_list, visited_before, visited@);
            done_list = done_next;
            assert forall|j: int|
                0 <= j < done_list.len() implies step_targets_scheduled(
                s.view(),
                #[trigger] done_list[j],
                visited@,
            ) by {
                if j == done_list.len() - 1 {
                    assert(done_list[j] == (pair.0@, pair.1@));
                }
            }
        }
    }
    proof {
        lemma_pair_in_grows(visited_root, visited@, root_store@, root_key@);
        lemma_step_targets_grow(s.view(), rootp, visited_root, visited@);
        // With the queue empty, every scheduled pair has been processed,
        // so its own step targets are scheduled too.
        assert forall|j: int|
            0 <= j < visited@.len() implies step_targets_scheduled(
            s.view(),
            ((#[trigger] visited@[j]).0@, visited@[j].1@),
            visited@,
        ) by {
            assert(done_list.contains((visited@[j].0@, visited@[j].1@)));
            let idx = choose|idx: int|
                0 <= idx < done_list.len() && done_list[idx] == (visited@[j].0@, visited@[j].1@);
            assert(step_targets_scheduled(s.view(), done_list[idx], visited@));
        }
    }
    Ok((visited, removals))
}

/// Whether two optional edge names are the same.
fn opt_name_eq(a: &Option<String>, b: &Option<String>) -> (r: bool)
    ensures
        r == (match (a, b) {
            (Some(x), Some(y)) => x@ == y@,
            (None, None) => true,
            _ => false,
        }),
{
    match (a, b) {
        (Some(x), Some(y)) => crate::relate::str_eq(x.as_str(), y.as_str()),
        (None, None) => true,
        _ => false,
    }
}

/// Executes a plan: severs the planned edges first, so that no stale
/// back-reference survives, then deletes every planned entity row and
/// its relations row.  Entity trees only ever lose entries.
fn apply_plan(
    s: &mut Store,
    deletions: &Vec<(Vec<u8>, Vec<u8>)>,
    removals: &Vec<EdgeRemoval>,
) -> (r: Result<(), Error>)
    ensures
        r matches Err(e) ==> e is Engine || e is Serialisation,
        r is Ok ==> ({
            let v0 = old(s).view();
            let v1 = final(s).view();
            &&& (forall|j: int|
                0 <= j < deletions@.len() ==> (!tree_of(
                    v1,
                    entity_tree_name((#[trigger] deletions@[j]).0@),
                ).contains_key(deletions@[j].1@) && !tree_of(
                    v1,
                    rel_tree_name(deletions@[j].0@),
                ).contains_key(deletions@[j].1@)))
            &&& (forall|st: Seq<u8>, k: Seq<u8>|
                #[trigger] tree_of(v1, entity_tree_name(st)).contains_key(k) ==> tree_of(
                    v0,
                    entity_tree_name(st),
                ).contains_key(k))
            &&& (forall|st: Seq<u8>, k: Seq<u8>|
                #![trigger tree_of(v1, entity_tree_name(st)).contains_key(k)]
                tree_of(v0, entity_tree_name(st)).contains_key(k) && !pair_in(deletions@, st, k)
                    ==> tree_of(v1, entity_tree_name(st)).contains_key(k))
        }),
{
    let ghost v0 = s.view();
    // Sever the planned edges.
    let mut i: usize = 0;
    while i < removals.len()
        invariant
            i <= removals@.len(),
            forall|st: Seq<u8>| #![trigger entity_tree_name(st)]
                tree_of(s.view(), entity_tree_name(st)) == tree_of(v0, entity_tree_name(st)),
        decreases removals@.len() - i,
    {
        let ghost vb = s.view();
        let rm = &removals[i];
        let rr = match load_relations(s, &rm.row_store, &rm.row_key) {
            Ok(rr) => rr,
            Err(e) => {
                return Err(e);
            },
        };
        let mut kept: Vec<Edge> = Vec::new();
        let mut j: usize = 0;
        while j < rr.edges.len()
            invariant
                j <= rr.edges@.len(),
            decreases rr.edges@.len() - j,
        {
            let e = &rr.edges[j];
            let pstb = vstd::string::StrSliceExecFns::as_bytes_vec(e.peer_store.as_str());
            let severed = bytes_eq(&pstb, &rm.target_store) && bytes_eq(&e.peer_key, &rm.target_key)
                && opt_name_eq(&e.name, &rm.name);
            if !severed {
                kept.push(e.clone());
            }
            j = j + 1;
        }
        let new_row = EntityRelations { edges: kept };
        match save_relations(s, &rm.row_store, &rm.row_key, &new_row) {
            Ok(()) => {},
            Err(e) => {
                return Err(e);
            },
        }
        proof {
            assert forall|st: Seq<u8>| #![trigger entity_tree_name(st)]
                tree_of(s.view(), entity_tree_name(st)) == tree_of(v0, entity_tree_name(st)) by {
                crate::kv::lemma_tree_names_disjoint(st, rm.row_store@);
                assert(entity_tree_name(st) != rel_tree_name(rm.row_store@));
                assert(tree_of(s.view(), entity_tree_name(st)) == tree_of(
                    vb,
                    entity_tree_name(st),
                ));
            }
        }
        i = i + 1;
    }
    // Delete the planned rows.
    let ghost v_mid = s.view();
    let mut i: usize = 0;
    while i < deletions.len()
        invariant
            i <= deletions@.len(),
            forall|st: Seq<u8>, k: Seq<u8>|
                #[trigger] tree_of(s.view(), entity_tree_name(st)).contains_key(k) ==> tree_of(
                    v0,
                    entity_tree_name(st),
                ).contains_key(k),
            forall|st: Seq<u8>, k: Seq<u8>|
                #![trigger tree_of(s.view(), entity_tree_name(st)).contains_key(k)]
                tree_of(v0, entity_tree_name(st)).contains_key(k) && !pair_in(deletions@, st, k)
                    ==> tree_of(s.view(), entity_tree_name(st)).contains_key(k),
            forall|j: int|
                0 <= j < i ==> (!tree_of(
                    s.view(),
                    entity_tree_name((#[trigger] deletions@[j]).0@),
                ).contains_key(deletions@[j].1@) && !tree_of(
                    s.view(),
                    rel_tree_name(deletions@[j].0@),
                ).contains_key(deletions@[j].1@)),
        decreases deletions@.len() - i,
    {
        let ghost vb = s.view();
        let pair = &deletions[i];
        let etree = entity_tree(&pair.0);
        let rtree = rel_tree(&pair.0);
        match kv_del(s.db_mut(), &etree, &pair.1) {
            Ok(()) => {},
            Err(e) => {
                return Err(e);
            },
        }
        match kv_del(s.db_mut(), &rtree, &pair.1) {
            Ok(()) => {},
            Err(e) => {
                return Err(e);
            },
        }
        proof {
            let vn = s.view();
            crate::kv::lemma_tree_names_disjoint(pair.0@, pair.0@);
            assert(entity_tree_name(pair.0@) != rel_tree_name(pair.0@));
            assert(!tree_of(vn, entity_tree_name(pair.0@)).contains_key(pair.1@));
            assert(!tree_of(vn, rel_tree_name(pair.0@)).contains_key(pair.1@));
            assert forall|t: Seq<u8>, k: Seq<u8>|
                #[trigger] tree_of(vn, t).contains_key(k) implies tree_of(vb, t).contains_key(
                k,
            ) by {}
            assert(pair.0@ == deletions@[i as int].0@ && pair.1@ == deletions@[i as int].1@);
            assert(pair_in(deletions@, pair.0@, pair.1@));
            assert forall|st: Seq<u8>, k: Seq<u8>|
                #![trigger tree_of(vn, entity_tree_name(st)).contains_key(k)]
                tree_of(v0, entity_tree_name(st)).contains_key(k) && !pair_in(deletions@, st, k)
                    implies tree_of(vn, entity_tree_name(st)).contains_key(k) by {
                assert(tree_of(vb, entity_tree_name(st)).contains_key(k));
                crate::kv::lemma_tree_names_disjoint(st, pair.0@);
                if st == pair.0@ {
                    assert(k != pair.1@);
                }
            }
            assert forall|j: int|
                0 <= j < i + 1 implies (!tree_of(
                vn,
                entity_tree_name((#[trigger] deletions@[j]).0@),
            ).contains_key(deletions@[j].1@) && !tree_of(
                vn,
                rel_tree_name(deletions@[j].0@),
            ).contains_key(deletions@[j].1@)) by {
                if j < i {
                    assert(tree_of(vn, entity_tree_name(deletions@[j].0@)).contains_key(
                        deletions@[j].1@,
                    ) ==> tree_of(vb, entity_tree_name(deletions@[j].0@)).contains_key(
                        deletions@[j].1@,
                    ));
                    assert(tree_of(vn, rel_tree_name(deletions@[j].0@)).contains_key(
                        deletions@[j].1@,
                    ) ==> tree_of(vb, rel_tree_name(deletions@[j].0@)).contains_key(
                        deletions@[j].1@,
                    ));
                }
            }
        }
        i = i + 1;
    }
    Ok(())
}

/// Removes `(store, key)` under the deletion policy: refused with the
/// database untouched when a live error-policy edge protects any entity
/// reached; on success the entity, its relations row, and everything its
/// policy cascades to are gone.
pub fn remove_raw(s: &mut Store, store: &Vec<u8>, key: &Vec<u8>) -> (r: Result<(), Error>)
    ensures
        r matches Err(e) ==> e is Engine || e is Serialisation || e is DeletionBlocked,
        r matches Err(e) && e is DeletionBlocked ==> final(s).view() == old(s).view(),
        r matches Err(e) && e is DeletionBlocked ==> exists|path: Seq<(Seq<u8>, Seq<u8>)>|
            #[trigger] plan_justified(old(s).view(), (store@, key@), path) && blocks(
                old(s).view(),
                path[path.len() - 1],
            ),
        r is Ok ==> exists|del: Seq<(Vec<u8>, Vec<u8>)>|
            #![trigger plan_justified(old(s).view(), (store@, key@), pairs_view(del))]
            {
                &&& plan_justified(old(s).view(), (store@, key@), pairs_view(del))
                &&& pair_in(del, store@, key@)
                &&& (forall|st: Seq<u8>, k: Seq<u8>|
                    #![trigger tree_of(old(s).view(), entity_tree_name(st)).contains_key(k)]
                    tree_of(old(s).view(), entity_tree_name(st)).contains_key(k) && !tree_of(
                        final(s).view(),
                        entity_tree_name(st),
                    ).contains_key(k) ==> pair_in(del, st, k))
                &&& (forall|j: int|
                    0 <= j < del.len() ==> step_targets_scheduled(
                        old(s).view(),
                        ((#[trigger] del[j]).0@, del[j].1@),
                        del,
                    ))
                &&& (forall|j: int|
                    0 <= j < del.len() ==> (!tree_of(
                        final(s).view(),
                        entity_tree_name((#[trigger] del[j]).0@),
                    ).contains_key(del[j].1@) && !tree_of(
                        final(s).view(),
                        rel_tree_name(del[j].0@),
                    ).contains_key(del[j].1@)))
            },
        r is Ok ==> (match family_of(old(s).view(), store@) {
            Some(f) => forall|i: int|
                #![trigger f.siblings[i]]
                0 <= i < f.siblings.len() && f.siblings[i].1 is Cascade ==> !tree_of(
                    final(s).view(),
                    entity_tree_name(encode_utf8(f.siblings[i].0)),
                ).contains_key(key@),
            None => true,
        }),
        r is Ok ==> forall|i: int|
            0 <= i < rels_of(old(s).view(), store@, key@).len() && (#[trigger] rels_of(
                old(s).view(),
                store@,
                key@,
            )[i]).local is Cascade ==> !tree_of(
                final(s).view(),
                entity_tree_name(
                    encode_utf8(rels_of(old(s).view(), store@, key@)[i].peer_store),
                ),
            ).contains_key(rels_of(old(s).view(), store@, key@)[i].peer_key),
        r is Ok ==> !tree_of(final(s).view(), entity_tree_name(store@)).contains_key(key@)
            && !tree_of(final(s).view(), rel_tree_name(store@)).contains_key(key@),
        r is Ok ==> forall|st: Seq<u8>, k: Seq<u8>|
            #[trigger] tree_of(final(s).view(), entity_tree_name(st)).contains_key(k) ==> tree_of(
                old(s).view(),
                entity_tree_name(st),
            ).contains_key(k),
        r is Ok ==> (match family_of(old(s).view(), store@) {
            Some(f) => forall|i: int, k: Seq<u8>|
                #![trigger f.children[i], tree_of(final(s).view(), entity_tree_name(encode_utf8(f.children[i].0))).contains_key(k)]
                0 <= i < f.children.len() && is_prefix_of(key@, k) ==> !tree_of(
                    final(s).view(),
                    entity_tree_name(encode_utf8(f.children[i].0)),
                ).contains_key(k),
            None => true,
        }),
{
    let plan = {
        let s_ref: &Store = s;
        match plan_removal(s_ref, store, key) {
            Ok(p) => p,
            Err(e) => {
                return Err(e);
            },
        }
    };
    let (deletions, removals) = plan;
    let ghost v0 = s.view();
    let res = apply_plan(s, &deletions, &removals);
    proof {
        if res is Ok {
            let v1 = s.view();
            // The executed plan witnesses the contract: justified,
            // closed under the policy, fully applied, and covering every
            // vanished row.
            assert(plan_justified(v0, (store@, key@), pairs_view(deletions@)));
            // Direct cascade siblings and cascade edge targets are gone.
            match family_of(v0, store@) {
                Some(f) => {
                    assert forall|i: int|
                        #![trigger f.siblings[i]]
                        0 <= i < f.siblings.len() && f.siblings[i].1 is Cascade implies !tree_of(
                        v1,
                        entity_tree_name(encode_utf8(f.siblings[i].0)),
                    ).contains_key(key@) by {
                        if tree_of(v0, entity_tree_name(encode_utf8(f.siblings[i].0))).contains_key(
                            key@,
                        ) {
                            assert(pair_in(deletions@, encode_utf8(f.siblings[i].0), key@));
                            let j = choose|j: int|
                                0 <= j < deletions@.len() && (#[trigger] deletions@[j]).0@
                                    == encode_utf8(f.siblings[i].0) && deletions@[j].1@ == key@;
                            assert(!tree_of(
                                v1,
                                entity_tree_name(deletions@[j].0@),
                            ).contains_key(deletions@[j].1@));
                        } else {
                            assert(tree_of(
                                v1,
                                entity_tree_name(encode_utf8(f.siblings[i].0)),
                            ).contains_key(key@) ==> tree_of(
                                v0,
                                entity_tree_name(encode_utf8(f.siblings[i].0)),
                            ).contains_key(key@));
                        }
                    }
                },
                None => {},
            }
            assert forall|i: int|
                0 <= i < rels_of(v0, store@, key@).len() && (#[trigger] rels_of(
                    v0,
                    store@,
                    key@,
                )[i]).local is Cascade implies !tree_of(
                v1,
                entity_tree_name(encode_utf8(rels_of(v0, store@, key@)[i].peer_store)),
            ).contains_key(rels_of(v0, store@, key@)[i].peer_key) by {
                assert(pair_in(
                    deletions@,
                    encode_utf8(rels_of(v0, store@, key@)[i].peer_store),
                    rels_of(v0, store@, key@)[i].peer_key,
                ));
                let j = choose|j: int|
                    0 <= j < deletions@.len() && (#[trigger] deletions@[j]).0@ == encode_utf8(
                        rels_of(v0, store@, key@)[i].peer_store,
                    ) && deletions@[j].1@ == rels_of(v0, store@, key@)[i].peer_key;
                assert(!tree_of(v1, entity_tree_name(deletions@[j].0@)).contains_key(
                    deletions@[j].1@,
                ));
            }
            let v1 = s.view();
            let j = choose|j: int|
                0 <= j < deletions@.len() && (#[trigger] deletions@[j]).0@ == store@
                    && deletions@[j].1@ == key@;
            assert(!tree_of(v1, entity_tree_name(store@)).contains_key(key@));
            match family_of(v0, store@) {
                Some(f) => {
                    assert forall|i: int, k: Seq<u8>|
                        #![trigger f.children[i], tree_of(v1, entity_tree_name(encode_utf8(f.children[i].0))).contains_key(k)]
                        0 <= i < f.children.len() && is_prefix_of(key@, k) implies !tree_of(
                        v1,
                        entity_tree_name(encode_utf8(f.children[i].0)),
                    ).contains_key(k) by {
                        if tree_of(v1, entity_tree_name(encode_utf8(f.children[i].0))).contains_key(
                            k,
                        ) {
                            assert(tree_of(
                                v0,
                                entity_tree_name(encode_utf8(f.children[i].0)),
                            ).contains_key(k));
                            assert(pair_in(deletions@, encode_utf8(f.children[i].0), k));
                            let j2 = choose|j2: int|
                                0 <= j2 < deletions@.len() && (#[trigger] deletions@[j2]).0@
                                    == encode_utf8(f.children[i].0) && deletions@[j2].1@ == k;
                            assert(false);
                        }
                    }
                },
                None => {},
            }
        }
    }
    res
}

/// Removal under the deletion policy, provided for every entity type.
pub trait RemoveOps: Entity {
    /// Removes the entity stored under `key`, recursively applying each
    /// traversed edge's deletion behaviour.  A refusal happens only
    /// where some policy-reachable entity carries a live error-policy
    /// edge, child or sibling, and leaves the database exactly as it
    /// was.  A success executes a policy-justified plan: a deletion set
    /// rooted at this entity, closed under cascade steps, whose rows —
    /// values and relation records — are all gone; nothing outside the
    /// set is deleted, no entity row is added anywhere, and no entry
    /// with this key's prefix survives in any declared child tree.
    fn remove(key: &Self::Key, s: &mut Store) -> (r: Result<(), Error>)
        ensures
            r matches Err(e) ==> e is Engine || e is Serialisation || e is DeletionBlocked,
            r matches Err(e) && e is DeletionBlocked ==> final(s).view() == old(s).view(),
            r matches Err(e) && e is DeletionBlocked ==> exists|path: Seq<(Seq<u8>, Seq<u8>)>|
                #[trigger] plan_justified(
                    old(s).view(),
                    (store_bytes::<Self>(), key.key_enc()),
                    path,
                ) && blocks(old(s).view(), path[path.len() - 1]),
            r is Ok ==> !tree_of(
                final(s).view(),
                entity_tree_name(store_bytes::<Self>()),
            ).contains_key(key.key_enc()) && !tree_of(
                final(s).view(),
                rel_tree_name(store_bytes::<Self>()),
            ).contains_key(key.key_enc()),
            r is Ok ==> forall|st: Seq<u8>, k: Seq<u8>|
                #[trigger] tree_of(final(s).view(), entity_tree_name(st)).contains_key(k)
                    ==> tree_of(old(s).view(), entity_tree_name(st)).contains_key(k),
            r is Ok ==> exists|del: Seq<(Vec<u8>, Vec<u8>)>|
                #![trigger plan_justified(old(s).view(), (store_bytes::<Self>(), key.key_enc()), pairs_view(del))]
                {
                    &&& plan_justified(
                        old(s).view(),
                        (store_bytes::<Self>(), key.key_enc()),
                        pairs_view(del),
                    )
                    &&& pair_in(del, store_bytes::<Self>(), key.key_enc())
                    &&& (forall|st: Seq<u8>, k: Seq<u8>|
                        #![trigger tree_of(old(s).view(), entity_tree_name(st)).contains_key(k)]
                        tree_of(old(s).view(), entity_tree_name(st)).contains_key(k) && !tree_of(
                            final(s).view(),
                            entity_tree_name(st),
                        ).contains_key(k) ==> pair_in(del, st, k))
                    &&& (forall|j: int|
                        0 <= j < del.len() ==> step_targets_scheduled(
                            old(s).view(),
                            ((#[trigger] del[j]).0@, del[j].1@),
                            del,
                        ))
                    &&& (forall|j: int|
                        0 <= j < del.len() ==> (!tree_of(
                            final(s).view(),
                            entity_tree_name((#[trigger] del[j]).0@),
                        ).contains_key(del[j].1@) && !tree_of(
                            final(s).view(),
                            rel_tree_name(del[j].0@),
                        ).contains_key(del[j].1@)))
                },
            r is Ok ==> (match family_of(old(s).view(), store_bytes::<Self>()) {
                Some(f) => forall|i: int, k: Seq<u8>|
                    #![trigger f.children[i], tree_of(final(s).view(), entity_tree_name(encode_utf8(f.children[i].0))).contains_key(k)]
                    0 <= i < f.children.len() && is_prefix_of(key.key_enc(), k) ==> !tree_of(
                        final(s).view(),
                        entity_tree_name(encode_utf8(f.children[i].0)),
                    ).contains_key(k),
                None => true,
            }),
            r is Ok ==> (match family_of(old(s).view(), store_bytes::<Self>()) {
                Some(f) => forall|i: int|
                    #![trigger f.siblings[i]]
                    0 <= i < f.siblings.len() && f.siblings[i].1 is Cascade ==> !tree_of(
                        final(s).view(),
                        entity_tree_name(encode_utf8(f.siblings[i].0)),
                    ).contains_key(key.key_enc()),
                None => true,
            }),
            r is Ok ==> forall|i: int|
                0 <= i < rels_of(old(s).view(), store_bytes::<Self>(), key.key_enc()).len() && (
                #[trigger] rels_of(
                    old(s).view(),
                    store_bytes::<Self>(),
                    key.key_enc(),
                )[i]).local is Cascade ==> !tree_of(
                    final(s).view(),
                    entity_tree_name(
                        encode_utf8(
                            rels_of(
                                old(s).view(),
                                store_bytes::<Self>(),
                                key.key_enc(),
                            )[i].peer_store,
                        ),
                    ),
                ).contains_key(
                    rels_of(old(s).view(), store_bytes::<Self>(), key.key_enc())[i].peer_key,
                ),
    ;
}

impl<T: Entity> RemoveOps for T {
    fn remove(key: &Self::Key, s: &mut Store) -> (r: Result<(), Error>)
    {
        let name = T::store_name();
        let nb = vstd::string::StrSliceExecFns::as_bytes_vec(name.as_str());
        let kb = key.key_bytes();
        remove_raw(s, &nb, &kb)
    }
}

} // verus!
