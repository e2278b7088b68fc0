//! ReconciliationEngine: computes the identifiers the remote store holds and
//! the local store lacks, and re-ingests each missing document under its
//! original remote identifier.
use crate::assemble::assemble;
use crate::assemble::assembled_body;
use crate::errors::KartkaError;
use crate::names::contains_name;
use crate::names::dedup_keep;
use crate::names::dedup_new_names;
use crate::names::lemma_dedup_keep_membership;
use crate::names::lemma_dedup_keep_no_duplicates;
use crate::store::lemma_map_of_records_domain;
use crate::store::put_accepts;
use crate::store::put_result;
use crate::store::ContentStore;
use vstd::prelude::*;

verus! {

/// The stored identifiers seen as a set are the domain of the store's map.
pub proof fn lemma_store_ids_are_domain(s: ContentStore)
    ensures
        s.map_view().dom() == s.ids().to_set(),
{
    lemma_map_of_records_domain(s.records@);
    assert(s.map_view().dom() =~= s.ids().to_set()) by {
        assert forall|k: Seq<char>| #[trigger] s.map_view().dom().contains(k) implies s.ids().to_set().contains(k) by {
            assert(s.map_view().contains_key(k));
            let i = choose|i: int| 0 <= i < s.records@.len() && s.records@[i].name@ == k;
            assert(s.ids()[i] == k);
            assert(s.ids().contains(k));
        }
        assert forall|k: Seq<char>| #[trigger] s.ids().to_set().contains(k) implies s.map_view().dom().contains(k) by {
            let i = choose|i: int| 0 <= i < s.ids().len() && s.ids()[i] == k;
            assert(s.records@[i].name@ == k);
            assert(s.map_view().contains_key(k));
        }
    }
}

/// MissingSet: the remote identifiers absent from the local listing, each
/// once, in remote order.
pub fn missing_identifiers(remote: &Vec<String>, local: &Vec<String>) -> (r: Vec<String>)
    ensures
        r.deep_view() == dedup_keep(remote.deep_view(), local.deep_view().to_set()),
{
    dedup_new_names(remote, local)
}

/// Reconciliation idempotence: when the local names cover the remote
/// listing, nothing is missing and a hydrate run pulls zero items.
pub proof fn lemma_missing_empty_when_covered(remote: Seq<Seq<char>>, local: Set<Seq<char>>)
    requires
        forall|x: Seq<char>| #[trigger] remote.contains(x) ==> local.contains(x),
    ensures
        dedup_keep(remote, local) == Seq::<Seq<char>>::empty(),
{
    lemma_dedup_keep_membership(remote, local);
    let d = dedup_keep(remote, local);
    if d.len() > 0 {
        assert(d.contains(d[0]));
        assert(false);
    }
    assert(d =~= Seq::<Seq<char>>::empty());
}

/// Reconciliation convergence: pulling exactly the missing identifiers
/// extends the local name set to the union of local and remote.
pub proof fn lemma_hydrate_convergence(remote: Seq<Seq<char>>, local: Set<Seq<char>>)
    ensures
        dedup_keep(remote, local).to_set().union(local) == remote.to_set().union(local),
{
    lemma_dedup_keep_membership(remote, local);
    assert(dedup_keep(remote, local).to_set().union(local) =~= remote.to_set().union(local));
}

/// The map after storing each listed body under its identifier, in order,
/// each `put` refusing an identifier already present.
pub open spec fn insert_all(
    m: Map<Seq<char>, Seq<char>>,
    ids: Seq<Seq<char>>,
    bodies: Seq<Seq<char>>,
) -> Map<Seq<char>, Seq<char>>
    decreases ids.len(),
{
    if ids.len() == 0 {
        m
    } else {
        put_result(insert_all(m, ids.drop_last(), bodies.drop_last()), ids.last(), bodies.last())
    }
}

/// A key is present after `insert_all` exactly when it was present before
/// or is one of the inserted identifiers.
pub proof fn lemma_insert_all_domain(
    m: Map<Seq<char>, Seq<char>>,
    ids: Seq<Seq<char>>,
    bodies: Seq<Seq<char>>,
)
    ensures
        forall|k: Seq<char>|
            #[trigger] insert_all(m, ids, bodies).contains_key(k) <==> (m.contains_key(k)
                || ids.contains(k)),
    decreases ids.len(),
{
    if ids.len() > 0 {
        lemma_insert_all_domain(m, ids.drop_last(), bodies.drop_last());
        assert forall|k: Seq<char>|
            #[trigger] insert_all(m, ids, bodies).contains_key(k) <==> (m.contains_key(k)
                || ids.contains(k)) by {
            assert(insert_all(m, ids.drop_last(), bodies.drop_last()).contains_key(k) <==> (
            m.contains_key(k) || ids.drop_last().contains(k)));
            if ids.drop_last().contains(k) {
                let i = choose|i: int| 0 <= i < ids.drop_last().len() && ids.drop_last()[i] == k;
                assert(ids[i] == k);
            }
            if k == ids.last() {
                assert(ids[ids.len() - 1] == k);
            }
            if ids.contains(k) && k != ids.last() {
                let i = choose|i: int| 0 <= i < ids.len() && ids[i] == k;
                assert(ids.drop_last()[i] == k);
            }
        }
    }
}

/// Reconciliation convergence at the store: after a hydrate run stores one
/// body under each missing identifier, the store holds a key exactly when
/// it held it before or the remote listing names it.
pub proof fn lemma_store_convergence(
    m: Map<Seq<char>, Seq<char>>,
    remote: Seq<Seq<char>>,
    bodies: Seq<Seq<char>>,
)
    ensures
        forall|k: Seq<char>|
            #[trigger] insert_all(m, dedup_keep(remote, m.dom()), bodies).contains_key(k) <==> (
            m.contains_key(k) || remote.contains(k)),
{
    lemma_insert_all_domain(m, dedup_keep(remote, m.dom()), bodies);
    lemma_dedup_keep_membership(remote, m.dom());
}

/// Whether a hydrate run over these identifiers goes through: they are
/// pairwise distinct and none is already stored.
pub open spec fn all_new(m: Map<Seq<char>, Seq<char>>, ids: Seq<Seq<char>>) -> bool {
    ids.no_duplicates() && forall|i: int| 0 <= i < ids.len() ==> !m.contains_key(#[trigger] ids[i])
}

/// The missing identifiers computed against a store are always fresh for
/// that store: distinct and absent, so a hydrate run over them is accepted.
pub proof fn lemma_missing_all_new(s: ContentStore, remote: Seq<Seq<char>>)
    ensures
        all_new(s.map_view(), dedup_keep(remote, s.map_view().dom())),
{
    let d = dedup_keep(remote, s.map_view().dom());
    lemma_dedup_keep_membership(remote, s.map_view().dom());
    lemma_dedup_keep_no_duplicates(remote, s.map_view().dom());
    assert forall|i: int| 0 <= i < d.len() implies !s.map_view().contains_key(
        #[trigger] d[i],
    ) by {
        assert(d.contains(d[i]));
    }
}

impl ContentStore {
    /// The remote identifiers this store lacks, each once, in remote order.
    pub fn missing_from_remote(&self, remote: &Vec<String>) -> (r: Vec<String>)
        ensures
            r.deep_view() == dedup_keep(remote.deep_view(), self.map_view().dom()),
    {
        let local = self.list_identifiers();
        proof {
            lemma_store_ids_are_domain(*self);
            assert(local.deep_view().to_set() == self.map_view().dom());
        }
        missing_identifiers(remote, &local)
    }

    /// Ingests one batch of page texts under a fixed identifier: the scan
    /// path of assembling a body and storing it, with the minting step
    /// bypassed so a rehydrated document keeps its remote name.
    pub fn ingest(&mut self, name: &String, pages: &Vec<String>) -> (r: Result<(), KartkaError>)
        requires
            old(self).wf(),
        ensures
            final(self).wf(),
            r is Ok <==> put_accepts(old(self).map_view(), name@),
            final(self).map_view() == put_result(
                old(self).map_view(),
                name@,
                assembled_body(pages.deep_view()),
            ),
            r is Err ==> r->Err_0 == KartkaError::DuplicateIdentifier && *final(self) == *old(
                self,
            ),
    {
        let body = assemble(pages);
        self.put(name.clone(), body)
    }

    /// Runs the whole hydrate application: one batch of page texts per
    /// missing identifier, ingested in order under that identifier. Returns
    /// the number of items pulled, or fails fast on the first refused `put`,
    /// leaving the earlier items stored.
    #[verifier::loop_isolation(false)]
    pub fn hydrate_apply(&mut self, missing: &Vec<String>, batches: &Vec<Vec<String>>) -> (r:
        Result<usize, KartkaError>)
        requires
            old(self).wf(),
            missing@.len() == batches@.len(),
        ensures
            final(self).wf(),
            r is Ok <==> all_new(old(self).map_view(), missing.deep_view()),
            r is Ok ==> r->Ok_0 == missing@.len() && final(self).map_view() == insert_all(
                old(self).map_view(),
                missing.deep_view(),
                batches.deep_view().map_values(|b: Seq<Seq<char>>| assembled_body(b)),
            ),
            r is Err ==> r->Err_0 == KartkaError::DuplicateIdentifier,
            r is Err ==> exists|j: int|
                #![trigger missing.deep_view().take(j)]
                {
                    &&& 0 <= j < missing@.len()
                    &&& !put_accepts(
                        insert_all(
                            old(self).map_view(),
                            missing.deep_view().take(j),
                            batches.deep_view().map_values(
                                |b: Seq<Seq<char>>| assembled_body(b),
                            ).take(j),
                        ),
                        missing.deep_view()[j],
                    )
                    &&& final(self).map_view() == insert_all(
                        old(self).map_view(),
                        missing.deep_view().take(j),
                        batches.deep_view().map_values(|b: Seq<Seq<char>>| assembled_body(b)).take(
                            j,
                        ),
                    )
                    &&& forall|p: int|
                        0 <= p < j ==> put_accepts(
                            insert_all(
                                old(self).map_view(),
                                missing.deep_view().take(p),
                                batches.deep_view().map_values(
                                    |b: Seq<Seq<char>>| assembled_body(b),
                                ).take(p),
                            ),
                            #[trigger] missing.deep_view()[p],
                        )
                },
    {
        let ghost m0: Map<Seq<char>, Seq<char>> = self.map_view();
        let ghost ids: Seq<Seq<char>> = missing.deep_view();
        let ghost bodies: Seq<Seq<char>> = batches.deep_view().map_values(
            |b: Seq<Seq<char>>| assembled_body(b),
        );
        let n = missing.len();
        let mut i: usize = 0;
        proof {
            assert(insert_all(m0, ids.take(0), bodies.take(0)) == m0) by {
                assert(ids.take(0).len() == 0);
            }
        }
        while i < n
            invariant
                i <= n,
                self.wf(),
                self.map_view() == insert_all(m0, ids.take(i as int), bodies.take(i as int)),
                forall|j: int|
                    0 <= j < i ==> put_accepts(
                        insert_all(m0, ids.take(j), bodies.take(j)),
                        #[trigger] ids[j],
                    ),
            decreases n - i,
        {
            let res = self.ingest(&missing[i], &batches[i]);
            proof {
                assert(missing[i as int]@ == ids[i as int]);
                assert(batches@[i as int].deep_view() == batches.deep_view()[i as int]);
                assert(ids.take(i + 1).drop_last() =~= ids.take(i as int));
                assert(bodies.take(i + 1).drop_last() =~= bodies.take(i as int));
                assert(ids.take(i + 1).last() == ids[i as int]);
                assert(bodies.take(i + 1).last() == bodies[i as int]);
            }
            if res.is_err() {
                proof {
                    let j = i as int;
                    assert(ids.take(j) == missing.deep_view().take(j));
                    assert(!put_accepts(insert_all(m0, ids.take(j), bodies.take(j)), ids[j]));
                    assert(self.map_view() == insert_all(m0, ids.take(j), bodies.take(j)));
                    assert(!all_new(m0, ids)) by {
                        lemma_insert_all_domain(m0, ids.take(j), bodies.take(j));
                        if ids.take(j).contains(ids[j]) {
                            let p = choose|p: int| 0 <= p < j && ids.take(j)[p] == ids[j];
                            assert(ids[p] == ids[j]);
                        }
                    }
                }
                return Err(KartkaError::DuplicateIdentifier);
            }
            i = i + 1;
        }
        proof {
            assert(ids.take(n as int) =~= ids);
            assert(bodies.take(n as int) =~= bodies);
            assert(all_new(m0, ids)) by {
                assert forall|p: int, q: int| 0 <= p < q < ids.len() implies ids[p] != ids[q] by {
                    lemma_insert_all_domain(m0, ids.take(q), bodies.take(q));
                    assert(ids.take(q)[p] == ids[p]);
                    assert(ids.take(q).contains(ids[p]));
                    assert(!insert_all(m0, ids.take(q), bodies.take(q)).contains_key(ids[q]));
                }
                assert forall|j: int| 0 <= j < ids.len() implies !m0.contains_key(
                    #[trigger] ids[j],
                ) by {
                    lemma_insert_all_domain(m0, ids.take(j), bodies.take(j));
                    assert(!insert_all(m0, ids.take(j), bodies.take(j)).contains_key(ids[j]));
                }
            }
        }
        Ok(n)
    }
}

} // verus!
