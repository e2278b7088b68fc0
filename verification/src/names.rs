//! Identifier-set utilities: membership over name lists and reduction of a
//! name sequence to its first occurrences, the shape shared by search
//! deduplication and the reconciliation missing-set.
use vstd::prelude::*;

verus! {

/// True when some entry of `v` is the name `x`.
#[verifier::loop_isolation(false)]
pub fn contains_name(v: &Vec<String>, x: &String) -> (r: bool)
    ensures
        r == v.deep_view().contains(x@),
{
    let n = v.len();
    let mut i: usize = 0;
    while i < n
        invariant
            i <= n,
            forall|k: int| 0 <= k < i ==> v.deep_view()[k] != x@,
        decreases n - i,
    {
        if v[i].eq(x) {
            proof {
                assert(v.deep_view()[i as int] == x@);
            }
            return true;
        }
        i = i + 1;
    }
    false
}

/// The first occurrences of the names of `s` that are not excluded, in the
/// order `s` presents them: each name contributes at most once, and a name
/// in `excl` not at all.
pub open spec fn dedup_keep(s: Seq<Seq<char>>, excl: Set<Seq<char>>) -> Seq<Seq<char>>
    decreases s.len(),
{
    if s.len() == 0 {
        Seq::<Seq<char>>::empty()
    } else if excl.contains(s[0]) {
        dedup_keep(s.drop_first(), excl)
    } else {
        seq![s[0]] + dedup_keep(s.drop_first(), excl.insert(s[0]))
    }
}

/// A name comes out of `dedup_keep` exactly when it occurs in the input and
/// is not excluded.
pub proof fn lemma_dedup_keep_membership(s: Seq<Seq<char>>, excl: Set<Seq<char>>)
    ensures
        forall|x: Seq<char>|
            #[trigger] dedup_keep(s, excl).contains(x) <==> (s.contains(x) && !excl.contains(x)),
    decreases s.len(),
{
    if s.len() == 0 {
    } else {
        let head = s[0];
        let tail = s.drop_first();
        assert forall|x: Seq<char>| #[trigger] s.contains(x) implies (x == head || tail.contains(
            x,
        )) by {
            let i = choose|i: int| 0 <= i < s.len() && s[i] == x;
            if i > 0 {
                assert(tail[i - 1] == x);
            }
        }
        assert forall|x: Seq<char>| tail.contains(x) implies #[trigger] s.contains(x) by {
            let i = choose|i: int| 0 <= i < tail.len() && tail[i] == x;
            assert(s[i + 1] == x);
        }
        assert(s.contains(head)) by {
            assert(s[0] == head);
        }
        if excl.contains(head) {
            lemma_dedup_keep_membership(tail, excl);
            assert forall|x: Seq<char>|
                #[trigger] dedup_keep(s, excl).contains(x) <==> (s.contains(x) && !excl.contains(
                    x,
                )) by {
                assert(dedup_keep(s, excl) == dedup_keep(tail, excl));
                assert(dedup_keep(tail, excl).contains(x) <==> (tail.contains(x) && !excl.contains(
                    x,
                )));
                if s.contains(x) && !excl.contains(x) {
                    assert(x != head);
                    assert(tail.contains(x));
                }
            }
        } else {
            lemma_dedup_keep_membership(tail, excl.insert(head));
            let d = dedup_keep(s, excl);
            let rest = dedup_keep(tail, excl.insert(head));
            assert forall|x: Seq<char>| #[trigger] d.contains(x) implies (s.contains(x)
                && !excl.contains(x)) by {
                let i = choose|i: int| 0 <= i < d.len() && d[i] == x;
                if i > 0 {
                    assert(rest[i - 1] == x);
                    assert(rest.contains(x));
                }
            }
            assert forall|x: Seq<char>| (s.contains(x) && !excl.contains(x)) implies #[trigger]
            d.contains(x) by {
                if x == head {
                    assert(d[0] == x);
                } else {
                    assert(rest.contains(x));
                    let i = choose|i: int| 0 <= i < rest.len() && rest[i] == x;
                    assert(d[i + 1] == x);
                }
            }
        }
    }
}

/// `dedup_keep` never repeats a name.
pub proof fn lemma_dedup_keep_no_duplicates(s: Seq<Seq<char>>, excl: Set<Seq<char>>)
    ensures
        dedup_keep(s, excl).no_duplicates(),
    decreases s.len(),
{
    if s.len() == 0 {
    } else if excl.contains(s[0]) {
        lemma_dedup_keep_no_duplicates(s.drop_first(), excl);
    } else {
        let head = s[0];
        let tail = s.drop_first();
        let rest = dedup_keep(tail, excl.insert(head));
        let d = dedup_keep(s, excl);
        lemma_dedup_keep_no_duplicates(tail, excl.insert(head));
        lemma_dedup_keep_membership(tail, excl.insert(head));
        assert(!rest.contains(head));
        assert forall|i: int, j: int| 0 <= i < j < d.len() implies d[i] != d[j] by {
            if i == 0 {
                assert(d[j] == rest[j - 1]);
                assert(rest.contains(rest[j - 1]));
            } else {
                assert(d[i] == rest[i - 1]);
                assert(d[j] == rest[j - 1]);
            }
        }
    }
}

/// Reduces `items` to the first occurrence of each name not in `excl`,
/// keeping input order.
#[verifier::loop_isolation(false)]
pub fn dedup_new_names(items: &Vec<String>, excl: &Vec<String>) -> (r: Vec<String>)
    ensures
        r.deep_view() == dedup_keep(items.deep_view(), excl.deep_view().to_set()),
{
    let ghost idv: Seq<Seq<char>> = items.deep_view();
    let ghost e0: Set<Seq<char>> = excl.deep_view().to_set();
    let mut out: Vec<String> = Vec::new();
    let mut i: usize = 0;
    proof {
        assert(idv.skip(0) =~= idv);
        assert(out.deep_view() =~= Seq::<Seq<char>>::empty());
        assert(e0.union(out.deep_view().to_set()) =~= e0);
        assert(out.deep_view() + dedup_keep(idv, e0) =~= dedup_keep(idv, e0));
    }
    while i < items.len()
        invariant
            i <= items.len(),
            dedup_keep(idv, e0) == out.deep_view() + dedup_keep(
                idv.skip(i as int),
                e0.union(out.deep_view().to_set()),
            ),
        decreases items.len() - i,
    {
        let ghost od: Seq<Seq<char>> = out.deep_view();
        let ghost e: Set<Seq<char>> = e0.union(od.to_set());
        let x = &items[i];
        proof {
            assert(x@ == idv[i as int]);
            assert(idv.skip(i as int)[0] == idv[i as int]);
            assert(idv.skip(i as int).drop_first() =~= idv.skip(i + 1));
        }
        let in_excl = contains_name(excl, x);
        let in_out = contains_name(&out, x);
        if !in_excl && !in_out {
            out.push(x.clone());
            proof {
                assert(!e.contains(x@));
                assert(out.deep_view() =~= od.push(x@));
                assert(e.insert(x@) =~= e0.union(out.deep_view().to_set())) by {
                    assert forall|y: Seq<char>| #[trigger]
                        out.deep_view().to_set().contains(y) implies (od.to_set().contains(y) || y
                        == x@) by {
                        let k = choose|k: int|
                            0 <= k < out.deep_view().len() && out.deep_view()[k] == y;
                        if k < od.len() {
                            assert(od[k] == y);
                        }
                    }
                    assert(out.deep_view().contains(x@)) by {
                        assert(out.deep_view()[od.len() as int] == x@);
                    }
                    assert forall|y: Seq<char>| #[trigger]
                        od.to_set().contains(y) implies out.deep_view().to_set().contains(y) by {
                        let k = choose|k: int| 0 <= k < od.len() && od[k] == y;
                        assert(out.deep_view()[k] == y);
                    }
                }
                assert(dedup_keep(idv.skip(i as int), e) == seq![idv[i as int]] + dedup_keep(
                    idv.skip(i + 1),
                    e.insert(idv[i as int]),
                ));
                assert(od + (seq![idv[i as int]] + dedup_keep(idv.skip(i + 1), e.insert(x@))) =~= od.push(
                    x@,
                ) + dedup_keep(idv.skip(i + 1), e.insert(x@)));
            }
        } else {
            proof {
                if in_out {
                    let k = choose|k: int| 0 <= k < od.len() && od[k] == x@;
                    assert(od.to_set().contains(x@));
                }
                assert(e.contains(idv[i as int]));
            }
        }
        i = i + 1;
    }
    proof {
        assert(idv.skip(idv.len() as int) =~= Seq::<Seq<char>>::empty());
        assert(out.deep_view() + Seq::<Seq<char>>::empty() =~= out.deep_view());
    }
    out
}

} // verus!
