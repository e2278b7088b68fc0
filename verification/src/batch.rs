//! ImageBatchCollector: turns a raw directory listing into the ordered batch
//! of page names to process. Entries whose name could not be read as text and
//! hidden entries are excluded; the rest are ordered by name, ascending, so
//! that per-page text is concatenated in reading order.
use vstd::prelude::*;
use vstd::string::StrSliceExecFns;

verus! {

/// Lexicographic order on names by scalar character value, the order the
/// batch is processed in.
pub open spec fn lex_le(a: Seq<char>, b: Seq<char>) -> bool
    decreases a.len(),
{
    if a.len() == 0 {
        true
    } else if b.len() == 0 {
        false
    } else if a[0] == b[0] {
        lex_le(a.drop_first(), b.drop_first())
    } else {
        (a[0] as u32) < (b[0] as u32)
    }
}

/// Every pair of entries is in order.
pub open spec fn name_sorted(s: Seq<Seq<char>>) -> bool {
    forall|i: int, j: int| 0 <= i < j < s.len() ==> lex_le(s[i], s[j])
}

/// `lex_le` is total.
pub proof fn lemma_lex_le_total(a: Seq<char>, b: Seq<char>)
    ensures
        lex_le(a, b) || lex_le(b, a),
    decreases a.len(),
{
    if a.len() == 0 {
    } else if b.len() == 0 {
    } else if a[0] == b[0] {
        lemma_lex_le_total(a.drop_first(), b.drop_first());
    } else {
        vstd::utf8::char_u32_cast(a[0], a[0] as u32);
        vstd::utf8::char_u32_cast(b[0], b[0] as u32);
        assert((a[0] as u32) != (b[0] as u32));
    }
}

/// `lex_le` is transitive.
pub proof fn lemma_lex_le_trans(a: Seq<char>, b: Seq<char>, c: Seq<char>)
    requires
        lex_le(a, b),
        lex_le(b, c),
    ensures
        lex_le(a, c),
    decreases a.len(),
{
    if a.len() == 0 {
    } else {
        if a[0] == b[0] && b[0] == c[0] {
            lemma_lex_le_trans(a.drop_first(), b.drop_first(), c.drop_first());
        }
    }
}

/// `lex_le` is antisymmetric: mutually ordered names are equal.
pub proof fn lemma_lex_le_antisymmetric(a: Seq<char>, b: Seq<char>)
    requires
        lex_le(a, b),
        lex_le(b, a),
    ensures
        a == b,
    decreases a.len(),
{
    if a.len() == 0 {
        assert(b.len() == 0);
        assert(a =~= b);
    } else {
        assert(b.len() > 0);
        if a[0] == b[0] {
            lemma_lex_le_antisymmetric(a.drop_first(), b.drop_first());
            assert(a =~= b) by {
                assert(a.drop_first() == b.drop_first());
                assert(a.len() == b.len());
                assert forall|i: int| 0 <= i < a.len() implies a[i] == b[i] by {
                    if i > 0 {
                        assert(a.drop_first()[i - 1] == b.drop_first()[i - 1]);
                    }
                }
            }
        }
    }
}

/// The batch contract is categorical: two sorted arrangements of the same
/// names are the same sequence, so sortedness plus the kept multiset pins
/// the collected batch exactly.
pub proof fn lemma_sorted_names_unique(s1: Seq<Seq<char>>, s2: Seq<Seq<char>>)
    requires
        name_sorted(s1),
        name_sorted(s2),
        s1.to_multiset() == s2.to_multiset(),
    ensures
        s1 == s2,
    decreases s1.len(),
{
    broadcast use vstd::seq_lib::group_to_multiset_ensures;

    if s1.len() == 0 {
        assert(s2.to_multiset().len() == 0);
        assert(s1 =~= s2);
    } else {
        assert(s2.to_multiset().len() > 0);
        assert(s2.len() > 0);
        assert(s1.contains(s1[0]));
        assert(s2.contains(s2[0]));
        assert(s2.to_multiset().count(s1[0]) > 0);
        assert(s2.contains(s1[0]));
        assert(s1.to_multiset().count(s2[0]) > 0);
        assert(s1.contains(s2[0]));
        let i = choose|i: int| 0 <= i < s2.len() && s2[i] == s1[0];
        let j = choose|j: int| 0 <= j < s1.len() && s1[j] == s2[0];
        assert(lex_le(s2[0], s2[i]) || i == 0);
        assert(lex_le(s1[0], s1[j]) || j == 0);
        assert(lex_le(s2[0], s1[0]) && lex_le(s1[0], s2[0])) by {
            lemma_lex_le_total(s1[0], s2[0]);
        }
        lemma_lex_le_antisymmetric(s1[0], s2[0]);
        assert(s1[0] == s2[0]);
        let t1 = s1.drop_first();
        let t2 = s2.drop_first();
        assert(s1.remove(0) =~= t1);
        assert(s2.remove(0) =~= t2);
        assert(t1.to_multiset() == s1.to_multiset().remove(s1[0]));
        assert(t2.to_multiset() == s2.to_multiset().remove(s2[0]));
        assert(name_sorted(t1)) by {
            assert forall|p: int, q: int| 0 <= p < q < t1.len() implies lex_le(t1[p], t1[q]) by {
                assert(t1[p] == s1[p + 1] && t1[q] == s1[q + 1]);
            }
        }
        assert(name_sorted(t2)) by {
            assert forall|p: int, q: int| 0 <= p < q < t2.len() implies lex_le(t2[p], t2[q]) by {
                assert(t2[p] == s2[p + 1] && t2[q] == s2[q + 1]);
            }
        }
        lemma_sorted_names_unique(t1, t2);
        assert(s1 =~= s2) by {
            assert forall|k: int| 0 <= k < s1.len() implies s1[k] == s2[k] by {
                if k > 0 {
                    assert(t1[k - 1] == t2[k - 1]);
                }
            }
        }
    }
}

/// Decides `lex_le` on two names.
pub fn str_lex_le(a: &str, b: &str) -> (r: bool)
    ensures
        r == lex_le(a@, b@),
{
    let alen = a.unicode_len();
    let blen = b.unicode_len();
    let mut i: usize = 0;
    proof {
        assert(a@.skip(0) =~= a@);
        assert(b@.skip(0) =~= b@);
    }
    loop
        invariant
            i <= alen,
            i <= blen,
            alen == a@.len(),
            blen == b@.len(),
            lex_le(a@, b@) == lex_le(a@.skip(i as int), b@.skip(i as int)),
        decreases alen - i,
    {
        if i == alen {
            proof {
                assert(a@.skip(i as int).len() == 0);
            }
            return true;
        }
        if i == blen {
            proof {
                assert(b@.skip(i as int).len() == 0);
                assert(a@.skip(i as int).len() > 0);
            }
            return false;
        }
        let ca = a.get_char(i);
        let cb = b.get_char(i);
        proof {
            assert(a@.skip(i as int)[0] == a@[i as int]);
            assert(b@.skip(i as int)[0] == b@[i as int]);
        }
        if ca != cb {
            return (ca as u32) < (cb as u32);
        }
        proof {
            assert(a@.skip(i as int).drop_first() =~= a@.skip(i + 1));
            assert(b@.skip(i as int).drop_first() =~= b@.skip(i + 1));
        }
        i = i + 1;
    }
}

/// A name marks its entry hidden when it begins with the hidden-file marker.
pub open spec fn is_hidden_name(name: Seq<char>) -> bool {
    name.len() > 0 && name[0] == '.'
}

/// An entry enters the batch only when its name was readable as text and is
/// not hidden.
pub open spec fn keeps_entry(e: Option<Seq<char>>) -> bool {
    match e {
        Some(name) => !is_hidden_name(name),
        None => false,
    }
}

/// The names kept from a raw listing, in listing order.
pub open spec fn kept_names(entries: Seq<Option<Seq<char>>>) -> Seq<Seq<char>>
    decreases entries.len(),
{
    if entries.len() == 0 {
        Seq::<Seq<char>>::empty()
    } else {
        let rest = kept_names(entries.drop_first());
        if keeps_entry(entries[0]) {
            seq![entries[0]->0] + rest
        } else {
            rest
        }
    }
}

/// Decides whether one listed name enters the batch.
pub fn keep_name(name: &String) -> (r: bool)
    ensures
        r == !is_hidden_name(name@),
{
    let n = name.as_str().unicode_len();
    if n == 0 {
        return true;
    }
    let c = name.as_str().get_char(0);
    c != '.'
}

/// Inserts `x` into the already sorted `out`, keeping it sorted.
fn insert_sorted(out: &mut Vec<String>, x: String)
    requires
        name_sorted(old(out).deep_view()),
    ensures
        name_sorted(final(out).deep_view()),
        final(out).deep_view().to_multiset() == old(out).deep_view().to_multiset().insert(x@),
{
    let ghost od: Seq<Seq<char>> = out.deep_view();
    let mut j: usize = 0;
    while j < out.len() && str_lex_le(out[j].as_str(), x.as_str())
        invariant
            j <= out.len(),
            od == out.deep_view(),
            forall|k: int| 0 <= k < j ==> lex_le(od[k], x@),
        decreases out.len() - j,
    {
        j = j + 1;
    }
    proof {
        if j < od.len() {
            lemma_lex_le_total(od[j as int], x@);
        }
    }
    out.insert(j, x);
    proof {
        let nd = out.deep_view();
        assert(nd =~= od.insert(j as int, x@));
        assert forall|p: int, q: int| 0 <= p < q < nd.len() implies lex_le(nd[p], nd[q]) by {
            let ji = j as int;
            if q < ji {
                assert(lex_le(od[p], od[q]));
            } else if p < ji && q == ji {
                assert(lex_le(od[p], x@));
            } else if p < ji && q > ji {
                assert(lex_le(od[p], od[q - 1]));
            } else if p == ji {
                // q > ji: x goes before od[q - 1]
                assert(lex_le(x@, od[ji]));
                if q - 1 > ji {
                    assert(lex_le(od[ji], od[q - 1]));
                    lemma_lex_le_trans(x@, od[ji], od[q - 1]);
                }
            } else {
                assert(lex_le(od[p - 1], od[q - 1]));
            }
        }
        vstd::seq_lib::to_multiset_insert(od, j as int, x@);
    }
}

/// Sorts the kept names ascending.
pub fn sort_names(v: Vec<String>) -> (r: Vec<String>)
    ensures
        name_sorted(r.deep_view()),
        r.deep_view().to_multiset() == v.deep_view().to_multiset(),
{
    let ghost vd: Seq<Seq<char>> = v.deep_view();
    let mut out: Vec<String> = Vec::new();
    let mut i: usize = 0;
    proof {
        assert(out.deep_view() =~= vd.take(0));
    }
    while i < v.len()
        invariant
            i <= v.len(),
            vd == v.deep_view(),
            name_sorted(out.deep_view()),
            out.deep_view().to_multiset() == vd.take(i as int).to_multiset(),
        decreases v.len() - i,
    {
        let x = v[i].clone();
        proof {
            assert(x@ == vd[i as int]);
        }
        insert_sorted(&mut out, x);
        proof {
            assert(vd.take(i + 1) =~= vd.take(i as int).push(vd[i as int]));
            vstd::seq_lib::to_multiset_build(vd.take(i as int), vd[i as int]);
        }
        i = i + 1;
    }
    proof {
        assert(vd.take(v.len() as int) =~= vd);
    }
    out
}

/// Collects a raw directory listing into the ordered batch: unreadable and
/// hidden names dropped, the rest sorted ascending by name. The result is
/// the unique sorted arrangement of the kept names.
pub fn collect_batch(entries: &Vec<Option<String>>) -> (r: Vec<String>)
    ensures
        name_sorted(r.deep_view()),
        r.deep_view().to_multiset() == kept_names(entries.deep_view()).to_multiset(),
{
    let ghost ed: Seq<Option<Seq<char>>> = entries.deep_view();
    let mut kept: Vec<String> = Vec::new();
    let mut i: usize = 0;
    while i < entries.len()
        invariant
            i <= entries.len(),
            ed == entries.deep_view(),
            kept.deep_view() == kept_names(ed.take(i as int)),
        decreases entries.len() - i,
    {
        match &entries[i] {
            Some(name) => {
                if keep_name(name) {
                    kept.push(name.clone());
                }
            },
            None => {},
        }
        proof {
            lemma_kept_names_take_succ(ed, i as int);
            assert(kept.deep_view() =~= kept_names(ed.take(i + 1)));
        }
        i = i + 1;
    }
    proof {
        assert(ed.take(entries.len() as int) =~= ed);
    }
    sort_names(kept)
}

/// What enters a batch, read as membership: a name is kept exactly when
/// some listing entry bears it readably and it is not hidden.
pub proof fn lemma_kept_names_membership(entries: Seq<Option<Seq<char>>>)
    ensures
        forall|x: Seq<char>|
            #[trigger] kept_names(entries).contains(x) <==> exists|i: int|
                0 <= i < entries.len() && entries[i] == Some(x) && !is_hidden_name(x),
    decreases entries.len(),
{
    if entries.len() > 0 {
        let tail = entries.drop_first();
        let kn = kept_names(entries);
        let rest = kept_names(tail);
        lemma_kept_names_membership(tail);
        assert forall|x: Seq<char>| #[trigger] kn.contains(x) implies exists|i: int|
            0 <= i < entries.len() && entries[i] == Some(x) && !is_hidden_name(x) by {
            let j = choose|j: int| 0 <= j < kn.len() && kn[j] == x;
            if keeps_entry(entries[0]) {
                if j == 0 {
                    assert(entries[0] == Some(x));
                } else {
                    assert(rest[j - 1] == x);
                    assert(rest.contains(x));
                    let i = choose|i: int|
                        0 <= i < tail.len() && tail[i] == Some(x) && !is_hidden_name(x);
                    assert(entries[i + 1] == Some(x));
                }
            } else {
                assert(rest[j] == x);
                assert(rest.contains(x));
                let i = choose|i: int|
                    0 <= i < tail.len() && tail[i] == Some(x) && !is_hidden_name(x);
                assert(entries[i + 1] == Some(x));
            }
        }
        assert forall|x: Seq<char>|
            (exists|i: int|
                0 <= i < entries.len() && entries[i] == Some(x) && !is_hidden_name(
                    x,
                )) implies #[trigger] kn.contains(x) by {
            let i = choose|i: int|
                0 <= i < entries.len() && entries[i] == Some(x) && !is_hidden_name(x);
            if i == 0 {
                assert(keeps_entry(entries[0]));
                assert(kn[0] == x);
            } else {
                assert(tail[i - 1] == Some(x));
                assert(rest.contains(x));
                let j = choose|j: int| 0 <= j < rest.len() && rest[j] == x;
                if keeps_entry(entries[0]) {
                    assert(kn[j + 1] == x);
                } else {
                    assert(kn[j] == x);
                }
            }
        }
    }
}

/// Hidden-file exclusion: no hidden name, and no unreadable entry, ever
/// enters a collected batch.
pub proof fn lemma_batch_excludes_hidden(entries: Seq<Option<Seq<char>>>, batch: Seq<Seq<char>>)
    requires
        batch.to_multiset() == kept_names(entries).to_multiset(),
    ensures
        forall|x: Seq<char>| #[trigger] batch.contains(x) ==> !is_hidden_name(x),
        forall|x: Seq<char>| #[trigger] batch.contains(x) ==> entries.contains(Some(x)),
{
    broadcast use vstd::seq_lib::group_to_multiset_ensures;

    lemma_kept_names_membership(entries);
    assert forall|x: Seq<char>| #[trigger] batch.contains(x) implies !is_hidden_name(x)
        && entries.contains(Some(x)) by {
        assert(batch.to_multiset().count(x) > 0);
        assert(kept_names(entries).contains(x));
        let i = choose|i: int|
            0 <= i < entries.len() && entries[i] == Some(x) && !is_hidden_name(x);
        assert(entries[i] == Some(x));
    }
}

/// Unfolds `kept_names` over one more listing entry.
proof fn lemma_kept_names_take_succ(entries: Seq<Option<Seq<char>>>, i: int)
    requires
        0 <= i < entries.len(),
    ensures
        kept_names(entries.take(i + 1)) == if keeps_entry(entries[i]) {
            kept_names(entries.take(i)).push(entries[i]->0)
        } else {
            kept_names(entries.take(i))
        },
{
    lemma_kept_names_snoc(entries.take(i + 1));
    assert(entries.take(i + 1).drop_last() =~= entries.take(i));
    assert(entries.take(i + 1).last() == entries[i]);
}

/// `kept_names` of a listing with one more entry at the end.
proof fn lemma_kept_names_snoc(entries: Seq<Option<Seq<char>>>)
    requires
        entries.len() > 0,
    ensures
        kept_names(entries) == if keeps_entry(entries.last()) {
            kept_names(entries.drop_last()).push(entries.last()->0)
        } else {
            kept_names(entries.drop_last())
        },
    decreases entries.len(),
{
    if entries.len() == 1 {
        assert(entries.drop_first() =~= Seq::<Option<Seq<char>>>::empty());
        assert(entries.drop_last() =~= Seq::<Option<Seq<char>>>::empty());
        if keeps_entry(entries[0]) {
            assert(kept_names(entries) =~= kept_names(entries.drop_last()).push(entries[0]->0));
        }
    } else {
        let tail = entries.drop_first();
        lemma_kept_names_snoc(tail);
        assert(tail.last() == entries.last());
        assert(tail.drop_last() =~= entries.drop_last().drop_first());
        assert(entries.drop_last()[0] == entries[0]);
        assert(entries.drop_last().len() > 0);
        if keeps_entry(entries.last()) {
            if keeps_entry(entries[0]) {
                assert(kept_names(entries) == seq![entries[0]->0] + kept_names(tail));
                assert(seq![entries[0]->0] + kept_names(tail.drop_last()).push(entries.last()->0)
                    =~= (seq![entries[0]->0] + kept_names(tail.drop_last())).push(
                    entries.last()->0,
                ));
            }
        }
    }
}

} // verus!
