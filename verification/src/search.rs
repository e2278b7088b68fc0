//! SearchIndexAdapter: reduces the line-delimited JSON output of the
//! external search tool to the set of matching document identifiers. Only
//! lines tagged `match` contribute; each contributes the final path
//! component of its file path; identifiers are deduplicated.
use crate::errors::KartkaError;
use crate::names::dedup_keep;
use crate::names::dedup_new_names;
use vstd::prelude::*;
use vstd::string::StrSliceExecFns;
use vstd::string::StringExecFns;

verus! {

/// One structured line of search-tool output, reduced to the two fields
/// this system consumes: the record's type tag and the matched file path.
pub struct SearchHit {
    pub kind: String,
    pub path: String,
}

/// What parsing one line of search-tool output yields: `None` for a line
/// that is not a JSON record carrying a string `type` tag and a string
/// `data.path.text` field, and those two field values otherwise. The result
/// depends on the line's characters alone.
pub uninterp spec fn hit_fields_of(line: Seq<char>) -> Option<(Seq<char>, Seq<char>)>;

/// Relies on serde_json::from_str::<serde_json::Value>,
/// serde_json::Value::get and serde_json::Value::as_str: together they parse
/// one output line and read its `type` and `data.path.text` string fields,
/// a function of the line alone, named `hit_fields_of`.
#[verifier::external_body]
fn parse_hit_line(line: &str) -> (r: Option<SearchHit>)
    ensures
        r is Some <==> hit_fields_of(line@) is Some,
        r is Some ==> r->0.kind@ == (hit_fields_of(line@)->0).0 && r->0.path@ == (hit_fields_of(
            line@,
        )->0).1,
{
    let v: serde_json::Value = serde_json::from_str(line).ok()?;
    let kind = v.get("type")?.as_str()?.to_string();
    let path = v.get("data")?.get("path")?.get("text")?.as_str()?.to_string();
    Some(SearchHit { kind, path })
}

/// Parses every output line, failing on the first malformed one: a line the
/// search tool emitted that this system cannot read is a hard error, not a
/// silent skip.
#[verifier::loop_isolation(false)]
pub fn parse_hits(lines: &Vec<String>) -> (r: Result<Vec<SearchHit>, KartkaError>)
    ensures
        r is Ok <==> forall|i: int|
            0 <= i < lines@.len() ==> hit_fields_of(#[trigger] lines.deep_view()[i]) is Some,
        r is Ok ==> r->Ok_0@.len() == lines@.len() && forall|i: int|
            0 <= i < lines@.len() ==> (#[trigger] r->Ok_0@[i].kind@, r->Ok_0@[i].path@)
                == hit_fields_of(lines.deep_view()[i])->0,
        r is Err ==> r->Err_0 == KartkaError::ParseError,
        r is Err ==> exists|j: int|
            #![trigger lines.deep_view()[j]]
            0 <= j < lines@.len() && hit_fields_of(lines.deep_view()[j]) is None,
{
    let n = lines.len();
    let mut hits: Vec<SearchHit> = Vec::new();
    let mut i: usize = 0;
    while i < n
        invariant
            i <= n,
            hits@.len() == i,
            forall|j: int| 0 <= j < i ==> hit_fields_of(#[trigger] lines.deep_view()[j]) is Some,
            forall|j: int|
                0 <= j < i ==> (#[trigger] hits@[j].kind@, hits@[j].path@) == hit_fields_of(
                    lines.deep_view()[j],
                )->0,
        decreases n - i,
    {
        match parse_hit_line(lines[i].as_str()) {
            Some(hit) => {
                hits.push(hit);
            },
            None => {
                proof {
                    assert(hit_fields_of(lines.deep_view()[i as int]) is None);
                }
                return Err(KartkaError::ParseError);
            },
        }
        i = i + 1;
    }
    Ok(hits)
}

/// The final path component: the characters after the last separator.
pub open spec fn after_last_slash(p: Seq<char>) -> Seq<char>
    decreases p.len(),
{
    if p.len() == 0 {
        p
    } else if p.last() == '/' {
        Seq::<char>::empty()
    } else {
        after_last_slash(p.drop_last()).push(p.last())
    }
}

/// When nothing at or after position `k` is a separator and `k` sits just
/// past one (or at the start), the final component is the suffix from `k`.
proof fn lemma_after_last_slash_suffix(p: Seq<char>, k: int)
    requires
        0 <= k <= p.len(),
        forall|i: int| k <= i < p.len() ==> p[i] != '/',
        k > 0 ==> p[k - 1] == '/',
    ensures
        after_last_slash(p) == p.subrange(k, p.len() as int),
    decreases p.len(),
{
    if k == p.len() {
        if p.len() == 0 {
            assert(p.subrange(0, 0) =~= p);
        } else {
            assert(p.last() == '/');
            assert(p.subrange(k, p.len() as int) =~= Seq::<char>::empty());
        }
    } else {
        assert(p[p.len() - 1] != '/');
        lemma_after_last_slash_suffix(p.drop_last(), k);
        assert(p.drop_last().subrange(k, p.len() - 1) =~= p.subrange(k, p.len() - 1));
        assert(p.subrange(k, p.len() - 1).push(p.last()) =~= p.subrange(k, p.len() as int));
    }
}

/// Extracts the final path component of a matched file path.
#[verifier::loop_isolation(false)]
pub fn basename(p: &str) -> (r: String)
    ensures
        r@ == after_last_slash(p@),
{
    let n = p.unicode_len();
    let mut cut: usize = 0;
    let mut i: usize = 0;
    while i < n
        invariant
            i <= n,
            cut <= i,
            cut > 0 ==> p@[cut - 1] == '/',
            forall|j: int| cut <= j < i ==> p@[j] != '/',
        decreases n - i,
    {
        if p.get_char(i) == '/' {
            cut = i + 1;
        }
        i = i + 1;
    }
    let s = p.substring_char(cut, n);
    proof {
        lemma_after_last_slash_suffix(p@, cut as int);
    }
    String::from_str(s)
}

/// A hit contributes exactly when its type tag is `match`.
pub open spec fn is_match_hit(h: SearchHit) -> bool {
    h.kind@ == "match"@
}

/// The identifier one hit names.
pub open spec fn hit_basename(h: SearchHit) -> Seq<char> {
    after_last_slash(h.path@)
}

/// The identifiers of the contributing hits, in hit order, duplicates kept.
pub open spec fn matched_names(hits: Seq<SearchHit>) -> Seq<Seq<char>> {
    hits.filter(|h: SearchHit| is_match_hit(h)).map_values(|h: SearchHit| hit_basename(h))
}

/// The identifiers a hit sequence names: the final path component of each
/// hit tagged `match`, deduplicated, in first-occurrence order.
pub open spec fn match_identifiers_of(hits: Seq<SearchHit>) -> Seq<Seq<char>> {
    dedup_keep(matched_names(hits), Set::<Seq<char>>::empty())
}

/// Search dedup, read as a set: an identifier comes out exactly when some
/// hit tagged `match` names it, and none comes out twice, however many
/// lines matched it.
pub proof fn lemma_match_identifiers_characterization(hits: Seq<SearchHit>)
    ensures
        match_identifiers_of(hits).no_duplicates(),
        forall|x: Seq<char>|
            #[trigger] match_identifiers_of(hits).contains(x) <==> exists|i: int|
                0 <= i < hits.len() && is_match_hit(#[trigger] hits[i]) && hit_basename(hits[i])
                    == x,
{
    broadcast use vstd::seq_lib::group_filter_ensures;

    let f = |h: SearchHit| is_match_hit(h);
    let g = |h: SearchHit| hit_basename(h);
    let mn = matched_names(hits);
    let filtered = hits.filter(f);
    crate::names::lemma_dedup_keep_no_duplicates(mn, Set::<Seq<char>>::empty());
    crate::names::lemma_dedup_keep_membership(mn, Set::<Seq<char>>::empty());
    assert forall|x: Seq<char>| #[trigger] mn.contains(x) implies exists|i: int|
        0 <= i < hits.len() && is_match_hit(#[trigger] hits[i]) && hit_basename(hits[i]) == x by {
        let j = choose|j: int| 0 <= j < mn.len() && mn[j] == x;
        assert(mn[j] == g(filtered[j]));
        assert(f(filtered[j]));
        assert(filtered.contains(filtered[j]));
        hits.lemma_filter_contains_rev(f, filtered[j]);
        let i = choose|i: int| 0 <= i < hits.len() && hits[i] == filtered[j];
        assert(is_match_hit(hits[i]) && hit_basename(hits[i]) == x);
    }
    assert forall|x: Seq<char>|
        (exists|i: int|
            0 <= i < hits.len() && is_match_hit(#[trigger] hits[i]) && hit_basename(hits[i])
                == x) implies #[trigger] mn.contains(x) by {
        let i = choose|i: int|
            0 <= i < hits.len() && is_match_hit(hits[i]) && hit_basename(hits[i]) == x;
        hits.lemma_filter_contains(f, i);
        let j = choose|j: int| 0 <= j < filtered.len() && filtered[j] == hits[i];
        assert(mn[j] == g(filtered[j]));
        assert(mn.contains(mn[j]));
    }
}

/// One more hit extends the contributed identifiers by one or not at all.
proof fn lemma_matched_names_push(s: Seq<SearchHit>, x: SearchHit)
    ensures
        matched_names(s.push(x)) == if is_match_hit(x) {
            matched_names(s).push(hit_basename(x))
        } else {
            matched_names(s)
        },
{
    let f = |h: SearchHit| is_match_hit(h);
    let g = |h: SearchHit| hit_basename(h);
    s.lemma_filter_push(x, f);
    assert(s.push(x).filter(f) == if f(x) {
        s.filter(f).push(x)
    } else {
        s.filter(f)
    });
    if f(x) {
        assert(s.filter(f).push(x).map_values(g) =~= s.filter(f).map_values(g).push(g(x)));
    }
}

/// Reduces parsed hits to the deduplicated set of matching document
/// identifiers, in first-occurrence order: rows not tagged `match`
/// contribute nothing, and a document matching on many lines contributes
/// one identifier.
#[verifier::loop_isolation(false)]
pub fn match_identifiers(hits: &Vec<SearchHit>) -> (r: Vec<String>)
    ensures
        r.deep_view() == match_identifiers_of(hits@),
{
    let n = hits.len();
    let tag = String::from_str("match");
    let mut candidates: Vec<String> = Vec::new();
    let mut i: usize = 0;
    proof {
        assert(hits@.take(0) =~= Seq::<SearchHit>::empty());
        assert(candidates.deep_view() =~= matched_names(hits@.take(0)));
    }
    while i < n
        invariant
            i <= n,
            tag@ == "match"@,
            candidates.deep_view() == matched_names(hits@.take(i as int)),
        decreases n - i,
    {
        let ghost prev: Seq<Seq<char>> = candidates.deep_view();
        if hits[i].kind.eq(&tag) {
            candidates.push(basename(hits[i].path.as_str()));
            proof {
                assert(candidates.deep_view() =~= prev.push(hit_basename(hits@[i as int])));
            }
        }
        proof {
            assert(hits@.take(i + 1) =~= hits@.take(i as int).push(hits@[i as int]));
            lemma_matched_names_push(hits@.take(i as int), hits@[i as int]);
        }
        i = i + 1;
    }
    proof {
        assert(hits@.take(n as int) =~= hits@);
    }
    let empty: Vec<String> = Vec::new();
    let r = dedup_new_names(&candidates, &empty);
    proof {
        assert(empty.deep_view().to_set() =~= Set::<Seq<char>>::empty());
    }
    r
}

/// The field pairs of all output lines, assuming each parses.
pub open spec fn line_pairs(lines: Seq<Seq<char>>) -> Seq<(Seq<char>, Seq<char>)> {
    lines.map_values(|l: Seq<char>| hit_fields_of(l)->0)
}

/// The contributed identifiers read off the raw lines themselves.
pub open spec fn matched_pair_names(lines: Seq<Seq<char>>) -> Seq<Seq<char>> {
    line_pairs(lines).filter(|kp: (Seq<char>, Seq<char>)| kp.0 == "match"@).map_values(
        |kp: (Seq<char>, Seq<char>)| after_last_slash(kp.1),
    )
}

/// What a whole search reduction returns for parseable output: the
/// deduplicated identifiers of the `match` rows, in first-occurrence order.
pub open spec fn search_identifiers_of(lines: Seq<Seq<char>>) -> Seq<Seq<char>> {
    dedup_keep(matched_pair_names(lines), Set::<Seq<char>>::empty())
}

/// One more line extends the contributed identifiers the same way one more
/// hit does.
proof fn lemma_matched_pair_names_push(lines: Seq<Seq<char>>, l: Seq<char>)
    ensures
        matched_pair_names(lines.push(l)) == if (hit_fields_of(l)->0).0 == "match"@ {
            matched_pair_names(lines).push(after_last_slash((hit_fields_of(l)->0).1))
        } else {
            matched_pair_names(lines)
        },
{
    let hp = |l: Seq<char>| hit_fields_of(l)->0;
    let fp = |kp: (Seq<char>, Seq<char>)| kp.0 == "match"@;
    let gp = |kp: (Seq<char>, Seq<char>)| after_last_slash(kp.1);
    assert(line_pairs(lines.push(l)) =~= line_pairs(lines).push(hp(l)));
    line_pairs(lines).lemma_filter_push(hp(l), fp);
    assert(line_pairs(lines).push(hp(l)).filter(fp) == if fp(hp(l)) {
        line_pairs(lines).filter(fp).push(hp(l))
    } else {
        line_pairs(lines).filter(fp)
    });
    if fp(hp(l)) {
        assert(line_pairs(lines).filter(fp).push(hp(l)).map_values(gp) =~= line_pairs(
            lines,
        ).filter(fp).map_values(gp).push(gp(hp(l))));
    }
}

/// Hits read field-for-field off the lines contribute the same identifiers
/// as the lines themselves.
proof fn lemma_hits_match_lines(hits: Seq<SearchHit>, lines: Seq<Seq<char>>)
    requires
        hits.len() == lines.len(),
        forall|i: int|
            0 <= i < hits.len() ==> (#[trigger] hits[i].kind@, hits[i].path@) == hit_fields_of(
                lines[i],
            )->0,
    ensures
        matched_names(hits) == matched_pair_names(lines),
    decreases hits.len(),
{
    if hits.len() == 0 {
        assert(matched_names(hits) =~= Seq::<Seq<char>>::empty());
        assert(matched_pair_names(lines) =~= Seq::<Seq<char>>::empty());
    } else {
        let hs = hits.drop_last();
        let ls = lines.drop_last();
        lemma_hits_match_lines(hs, ls);
        assert(hits =~= hs.push(hits.last()));
        assert(lines =~= ls.push(lines.last()));
        lemma_matched_names_push(hs, hits.last());
        lemma_matched_pair_names_push(ls, lines.last());
        assert((hits.last().kind@, hits.last().path@) == hit_fields_of(lines.last())->0) by {
            assert(hits[hits.len() - 1] == hits.last());
        }
    }
}

/// The full reduction of raw search-tool output: parse every line, keep the
/// `match` rows, reduce to deduplicated identifiers; fail with `ParseError`
/// on any malformed line.
pub fn search_identifiers(lines: &Vec<String>) -> (r: Result<Vec<String>, KartkaError>)
    ensures
        r is Ok <==> forall|i: int|
            0 <= i < lines@.len() ==> hit_fields_of(#[trigger] lines.deep_view()[i]) is Some,
        r is Ok ==> r->Ok_0.deep_view() == search_identifiers_of(lines.deep_view()),
        r is Err ==> r->Err_0 == KartkaError::ParseError,
        r is Err ==> exists|j: int|
            #![trigger lines.deep_view()[j]]
            0 <= j < lines@.len() && hit_fields_of(lines.deep_view()[j]) is None,
{
    let hits = match parse_hits(lines) {
        Ok(hits) => hits,
        Err(e) => {
            return Err(e);
        },
    };
    let r = match_identifiers(&hits);
    proof {
        lemma_hits_match_lines(hits@, lines.deep_view());
    }
    Ok(r)
}

/// The boundary rule for queries: an empty query is answered with no
/// results and is never forwarded to the search tool.
pub fn query_is_searchable(query: &str) -> (r: bool)
    ensures
        r == (query@.len() != 0),
{
    query.unicode_len() != 0
}

/// The presentation link for one matching document identifier.
pub fn preview_link(id: &String) -> (r: String)
    ensures
        r@ == "https://www.dropbox.com/home/Apps/kartka?preview="@ + id@,
{
    let base = String::from_str("https://www.dropbox.com/home/Apps/kartka?preview=");
    base.concat(id.as_str())
}

} // verus!
