//! ContentStore: a keyed store of document bodies with create-only-if-absent
//! semantics. Once written, a record is immutable; a second `put` under the
//! same identifier fails instead of overwriting.
use crate::errors::KartkaError;
use vstd::prelude::*;

verus! {

/// One archived document: an immutable text body under its identifier.
pub struct ContentRecord {
    pub name: String,
    pub body: String,
}

/// The keyed store. Identifiers map one-to-one to records; the backing
/// directory on disk mirrors this structure, one file per record.
pub struct ContentStore {
    pub records: Vec<ContentRecord>,
}

/// The map a record sequence denotes, later records taking precedence; a
/// well-formed store never holds two records with one name, so no record
/// shadows another.
pub open spec fn map_of_records(s: Seq<ContentRecord>) -> Map<Seq<char>, Seq<char>>
    decreases s.len(),
{
    if s.len() == 0 {
        Map::<Seq<char>, Seq<char>>::empty()
    } else {
        map_of_records(s.drop_last()).insert(s.last().name@, s.last().body@)
    }
}

/// A key is in the denoted map exactly when some record bears it.
pub proof fn lemma_map_of_records_domain(s: Seq<ContentRecord>)
    ensures
        forall|k: Seq<char>|
            #[trigger] map_of_records(s).contains_key(k) <==> exists|i: int|
                0 <= i < s.len() && s[i].name@ == k,
    decreases s.len(),
{
    if s.len() > 0 {
        lemma_map_of_records_domain(s.drop_last());
        assert forall|k: Seq<char>| #[trigger]
            map_of_records(s).contains_key(k) implies exists|i: int|
            0 <= i < s.len() && s[i].name@ == k by {
            if k == s.last().name@ {
                assert(s[s.len() - 1].name@ == k);
            } else {
                assert(map_of_records(s.drop_last()).contains_key(k));
                let i = choose|i: int| 0 <= i < s.drop_last().len() && s.drop_last()[i].name@ == k;
                assert(s[i].name@ == k);
            }
        }
        assert forall|k: Seq<char>|
            (exists|i: int| 0 <= i < s.len() && s[i].name@ == k) implies #[trigger]
        map_of_records(s).contains_key(k) by {
            let i = choose|i: int| 0 <= i < s.len() && s[i].name@ == k;
            if i < s.len() - 1 {
                assert(s.drop_last()[i].name@ == k);
                assert(map_of_records(s.drop_last()).contains_key(k));
            }
        }
    }
}

/// In a duplicate-free record sequence, each record's body is what the
/// denoted map holds under its name.
pub proof fn lemma_map_of_records_index(s: Seq<ContentRecord>, i: int)
    requires
        forall|p: int, q: int| 0 <= p < q < s.len() ==> s[p].name@ != s[q].name@,
        0 <= i < s.len(),
    ensures
        map_of_records(s).contains_key(s[i].name@),
        map_of_records(s)[s[i].name@] == s[i].body@,
    decreases s.len(),
{
    if i == s.len() - 1 {
    } else {
        lemma_map_of_records_index(s.drop_last(), i);
        assert(s.drop_last()[i] == s[i]);
        assert(s[i].name@ != s.last().name@);
    }
}

/// What a `put` leaves in the map: the new pair when the key was absent,
/// the old map untouched otherwise.
pub open spec fn put_result(
    m: Map<Seq<char>, Seq<char>>,
    k: Seq<char>,
    v: Seq<char>,
) -> Map<Seq<char>, Seq<char>> {
    if m.contains_key(k) {
        m
    } else {
        m.insert(k, v)
    }
}

/// A `put` succeeds exactly when the key is absent.
pub open spec fn put_accepts(m: Map<Seq<char>, Seq<char>>, k: Seq<char>) -> bool {
    !m.contains_key(k)
}

/// Uniqueness law: after `put(k, v1)`, a second `put(k, v2)` is refused and
/// the stored body under `k` is still `v1`.
pub proof fn lemma_put_uniqueness(
    m: Map<Seq<char>, Seq<char>>,
    k: Seq<char>,
    v1: Seq<char>,
    v2: Seq<char>,
)
    requires
        put_accepts(m, k),
    ensures
        !put_accepts(put_result(m, k, v1), k),
        put_result(put_result(m, k, v1), k, v2)[k] == v1,
{
}

impl ContentStore {
    /// No two records share a name.
    pub open spec fn wf(self) -> bool {
        forall|i: int, j: int|
            0 <= i < j < self.records.len() ==> self.records[i].name@ != self.records[j].name@
    }

    /// The store seen as a map from identifier to stored body.
    pub open spec fn map_view(self) -> Map<Seq<char>, Seq<char>> {
        map_of_records(self.records@)
    }

    /// The stored identifiers, in store order.
    pub open spec fn ids(self) -> Seq<Seq<char>> {
        self.records@.map_values(|r: ContentRecord| r.name@)
    }

    /// An empty store.
    pub fn new() -> (r: ContentStore)
        ensures
            r.wf(),
            r.map_view() == Map::<Seq<char>, Seq<char>>::empty(),
            r.ids() == Seq::<Seq<char>>::empty(),
    {
        let r = ContentStore { records: Vec::new() };
        proof {
            assert(r.ids() =~= Seq::<Seq<char>>::empty());
        }
        r
    }

    /// Creates a new record, or fails with `DuplicateIdentifier` when a
    /// record already bears this name; it never overwrites.
    #[verifier::loop_isolation(false)]
    pub fn put(&mut self, name: String, body: String) -> (r: Result<(), KartkaError>)
        requires
            old(self).wf(),
        ensures
            final(self).wf(),
            r is Ok <==> put_accepts(old(self).map_view(), name@),
            final(self).map_view() == put_result(old(self).map_view(), name@, body@),
            r is Err ==> r->Err_0 == KartkaError::DuplicateIdentifier && *final(self) == *old(
                self,
            ),
            r is Ok ==> final(self).ids() == old(self).ids().push(name@),
    {
        proof {
            lemma_map_of_records_domain(self.records@);
        }
        let n = self.records.len();
        let mut i: usize = 0;
        while i < n
            invariant
                i <= n,
                n == self.records.len(),
                forall|k: int| 0 <= k < i ==> self.records[k].name@ != name@,
            decreases n - i,
        {
            if self.records[i].name == name {
                return Err(KartkaError::DuplicateIdentifier);
            }
            i = i + 1;
        }
        let ghost before: Seq<ContentRecord> = self.records@;
        self.records.push(ContentRecord { name, body });
        proof {
            assert(self.records@.drop_last() =~= before);
            assert(self.ids() =~= old(self).ids().push(self.records@.last().name@));
        }
        Ok(())
    }

    /// Looks a body up by identifier.
    #[verifier::loop_isolation(false)]
    pub fn get(&self, name: &String) -> (r: Option<&String>)
        requires
            self.wf(),
        ensures
            r is Some <==> self.map_view().contains_key(name@),
            r is Some ==> r->0@ == self.map_view()[name@],
    {
        proof {
            lemma_map_of_records_domain(self.records@);
        }
        let n = self.records.len();
        let mut i: usize = 0;
        while i < n
            invariant
                i <= n,
                n == self.records.len(),
                forall|k: int| 0 <= k < i ==> self.records[k].name@ != name@,
            decreases n - i,
        {
            if self.records[i].name == *name {
                proof {
                    lemma_map_of_records_index(self.records@, i as int);
                }
                return Some(&self.records[i].body);
            }
            i = i + 1;
        }
        None
    }

    /// Enumerates the stored identifiers, the local side of reconciliation.
    #[verifier::loop_isolation(false)]
    pub fn list_identifiers(&self) -> (r: Vec<String>)
        ensures
            r.deep_view() == self.ids(),
    {
        let n = self.records.len();
        let mut out: Vec<String> = Vec::new();
        let mut i: usize = 0;
        while i < n
            invariant
                i <= n,
                n == self.records.len(),
                out.deep_view() =~= self.ids().take(i as int),
            decreases n - i,
        {
            out.push(self.records[i].name.clone());
            proof {
                assert(out.deep_view() =~= self.ids().take(i + 1));
            }
            i = i + 1;
        }
        proof {
            assert(self.ids().take(n as int) =~= self.ids());
        }
        out
    }
}

} // verus!
