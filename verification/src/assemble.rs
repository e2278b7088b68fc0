//! ContentAssembler: concatenates per-page text, in batch order, into one
//! document body.
use vstd::prelude::*;
use vstd::string::StringExecFns;

verus! {

/// The body assembled from a sequence of page texts: each page's text in
/// order, each followed by a single record separator (a newline).
pub open spec fn assembled_body(pages: Seq<Seq<char>>) -> Seq<char>
    decreases pages.len(),
{
    if pages.len() == 0 {
        Seq::<char>::empty()
    } else {
        assembled_body(pages.drop_last()) + pages.last() + seq!['\n']
    }
}

/// Concatenates the page texts into one document body. Pure: no I/O and no
/// failure path.
pub fn assemble(pages: &Vec<String>) -> (r: String)
    ensures
        r@ == assembled_body(pages.deep_view()),
{
    let ghost pv: Seq<Seq<char>> = pages.deep_view();
    let mut body = String::new();
    let mut i: usize = 0;
    while i < pages.len()
        invariant
            i <= pages.len(),
            pv == pages.deep_view(),
            body@ == assembled_body(pv.take(i as int)),
        decreases pages.len() - i,
    {
        body.append(pages[i].as_str());
        body.append("\n");
        proof {
            reveal_strlit("\n");
            assert("\n"@ =~= seq!['\n']);
            assert(pv.take(i + 1).drop_last() =~= pv.take(i as int));
            assert(pv.take(i + 1).last() == pv[i as int]);
        }
        i = i + 1;
    }
    proof {
        assert(pv.take(pages.len() as int) =~= pv);
    }
    body
}

} // verus!
