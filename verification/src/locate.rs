//! Selecting located files by extension.
//!
//! The surrounding program enumerates the regular files under a root
//! directory; the functions here pick out the archive files, their
//! complement, and the script files, keeping the enumeration order.

use vstd::prelude::*;
use crate::paths::{is_lua_path, is_pak_path, is_lua, is_pak, copy_bytes};

verus! {

/// The byte sequences of a list of paths, in order.
pub open spec fn views_of(s: Seq<Vec<u8>>) -> Seq<Seq<u8>> {
    s.map_values(|v: Vec<u8>| v@)
}

/// The archive files among `files`, in order.
pub fn find_pak_files(files: &Vec<Vec<u8>>) -> (r: Vec<Vec<u8>>)
    ensures
        views_of(r@) == views_of(files@).filter(|p: Seq<u8>| is_pak_path(p)),
{
    let ghost vs = views_of(files@);
    let mut r: Vec<Vec<u8>> = Vec::new();
    let n = files.len();
    let mut i: usize = 0;
    proof {
        reveal(Seq::filter);
        assert(views_of(r@) =~= vs.take(0).filter(|p: Seq<u8>| is_pak_path(p)));
    }
    while i < n
        invariant
            i <= n,
            n == files@.len(),
            vs == views_of(files@),
            views_of(r@) == vs.take(i as int).filter(|p: Seq<u8>| is_pak_path(p)),
        decreases n - i,
    {
        proof {
            reveal(Seq::filter);
            assert(vs.take(i as int + 1).drop_last() =~= vs.take(i as int));
            assert(vs.take(i as int + 1).last() == files@[i as int]@);
        }
        if is_pak(&files[i]) {
            let c = copy_bytes(&files[i]);
            proof {
                assert(views_of(r@.push(c)) =~= views_of(r@).push(files@[i as int]@));
            }
            r.push(c);
        }
        i = i + 1;
    }
    proof {
        assert(vs.take(n as int) =~= vs);
    }
    r
}

/// The non-archive files among `files`, in order.
pub fn find_non_pak_files(files: &Vec<Vec<u8>>) -> (r: Vec<Vec<u8>>)
    ensures
        views_of(r@) == views_of(files@).filter(|p: Seq<u8>| !is_pak_path(p)),
{
    let ghost vs = views_of(files@);
    let mut r: Vec<Vec<u8>> = Vec::new();
    let n = files.len();
    let mut i: usize = 0;
    proof {
        reveal(Seq::filter);
        assert(views_of(r@) =~= vs.take(0).filter(|p: Seq<u8>| !is_pak_path(p)));
    }
    while i < n
        invariant
            i <= n,
            n == files@.len(),
            vs == views_of(files@),
            views_of(r@) == vs.take(i as int).filter(|p: Seq<u8>| !is_pak_path(p)),
        decreases n - i,
    {
        proof {
            reveal(Seq::filter);
            assert(vs.take(i as int + 1).drop_last() =~= vs.take(i as int));
            assert(vs.take(i as int + 1).last() == files@[i as int]@);
        }
        if !is_pak(&files[i]) {
            let c = copy_bytes(&files[i]);
            proof {
                assert(views_of(r@.push(c)) =~= views_of(r@).push(files@[i as int]@));
            }
            r.push(c);
        }
        i = i + 1;
    }
    proof {
        assert(vs.take(n as int) =~= vs);
    }
    r
}

/// The script files among `files`, in order.
pub fn find_lua_files(files: &Vec<Vec<u8>>) -> (r: Vec<Vec<u8>>)
    ensures
        views_of(r@) == views_of(files@).filter(|p: Seq<u8>| is_lua_path(p)),
{
    let ghost vs = views_of(files@);
    let mut r: Vec<Vec<u8>> = Vec::new();
    let n = files.len();
    let mut i: usize = 0;
    proof {
        reveal(Seq::filter);
        assert(views_of(r@) =~= vs.take(0).filter(|p: Seq<u8>| is_lua_path(p)));
    }
    while i < n
        invariant
            i <= n,
            n == files@.len(),
            vs == views_of(files@),
            views_of(r@) == vs.take(i as int).filter(|p: Seq<u8>| is_lua_path(p)),
        decreases n - i,
    {
        proof {
            reveal(Seq::filter);
            assert(vs.take(i as int + 1).drop_last() =~= vs.take(i as int));
            assert(vs.take(i as int + 1).last() == files@[i as int]@);
        }
        if is_lua(&files[i]) {
            let c = copy_bytes(&files[i]);
            proof {
                assert(views_of(r@.push(c)) =~= views_of(r@).push(files@[i as int]@));
            }
            r.push(c);
        }
        i = i + 1;
    }
    proof {
        assert(vs.take(n as int) =~= vs);
    }
    r
}

proof fn lemma_filter_from_source<A>(s: Seq<A>, pred: spec_fn(A) -> bool, x: A)
    requires
        s.filter(pred).contains(x),
    ensures
        s.contains(x) && pred(x),
    decreases s.len(),
{
    reveal(Seq::filter);
    let f = s.filter(pred);
    if s.len() == 0 {
        assert(false);
    } else {
        let g = s.drop_last().filter(pred);
        if pred(s.last()) {
            assert(f == g.push(s.last()));
            if x == s.last() {
                assert(s[s.len() - 1] == x);
            } else {
                let i = choose|i: int| 0 <= i < f.len() && f[i] == x;
                assert(i < g.len());
                assert(g[i] == x);
                lemma_filter_from_source(s.drop_last(), pred, x);
                let j = choose|j: int| 0 <= j < s.drop_last().len() && s.drop_last()[j] == x;
                assert(s[j] == x);
            }
        } else {
            assert(f == g);
            lemma_filter_from_source(s.drop_last(), pred, x);
            let j = choose|j: int| 0 <= j < s.drop_last().len() && s.drop_last()[j] == x;
            assert(s[j] == x);
        }
    }
}

proof fn lemma_filter_has<A>(s: Seq<A>, pred: spec_fn(A) -> bool, i: int)
    requires
        0 <= i < s.len(),
        pred(s[i]),
    ensures
        s.filter(pred).contains(s[i]),
    decreases s.len(),
{
    reveal(Seq::filter);
    if i == s.len() - 1 {
        assert(s.filter(pred).last() == s[i]);
    } else {
        lemma_filter_has(s.drop_last(), pred, i);
        let f = s.drop_last().filter(pred);
        let j = choose|j: int| 0 <= j < f.len() && f[j] == s.drop_last()[i];
        if pred(s.last()) {
            assert(s.filter(pred)[j] == s[i]);
        } else {
            assert(s.filter(pred)[j] == s[i]);
        }
    }
}

proof fn lemma_filter_split_len<A>(s: Seq<A>, pred: spec_fn(A) -> bool, co: spec_fn(A) -> bool)
    requires
        forall|x: A| #[trigger] co(x) <==> !pred(x),
    ensures
        s.filter(pred).len() + s.filter(co).len() == s.len(),
    decreases s.len(),
{
    reveal(Seq::filter);
    if s.len() > 0 {
        lemma_filter_split_len(s.drop_last(), pred, co);
    }
}

proof fn lemma_filter_no_duplicates<A>(s: Seq<A>, pred: spec_fn(A) -> bool)
    requires
        s.no_duplicates(),
    ensures
        s.filter(pred).no_duplicates(),
    decreases s.len(),
{
    reveal(Seq::filter);
    if s.len() > 0 {
        assert(s.drop_last().no_duplicates());
        lemma_filter_no_duplicates(s.drop_last(), pred);
        let f = s.filter(pred);
        let g = s.drop_last().filter(pred);
        if pred(s.last()) {
            assert(f == g.push(s.last()));
            assert forall|i: int, j: int| 0 <= i < j < f.len() implies f[i] != f[j] by {
                if j == f.len() - 1 {
                    assert(f[j] == s.last());
                    assert(g.contains(g[i]));
                    lemma_filter_from_source(s.drop_last(), pred, g[i]);
                    let t = choose|t: int|
                        0 <= t < s.drop_last().len() && s.drop_last()[t] == g[i];
                    assert(s[t] == g[i]);
                }
            }
        }
    }
}

/// Partition law: over any duplicate-free enumeration, the archive
/// selection holds exactly the paths with the archive extension, the
/// non-archive selection exactly the rest; no path is in both, each path is
/// in one of the two, neither selection holds duplicates, and together they
/// cover the enumeration.
pub proof fn lemma_pak_partition(files: Seq<Seq<u8>>)
    requires
        files.no_duplicates(),
    ensures
        ({
            let paks = files.filter(|p: Seq<u8>| is_pak_path(p));
            let rest = files.filter(|p: Seq<u8>| !is_pak_path(p));
            &&& forall|f: Seq<u8>| #[trigger] paks.contains(f) <==> files.contains(f) && is_pak_path(f)
            &&& forall|f: Seq<u8>|
                #[trigger] rest.contains(f) <==> files.contains(f) && !is_pak_path(f)
            &&& forall|f: Seq<u8>| !(#[trigger] paks.contains(f) && rest.contains(f))
            &&& forall|f: Seq<u8>|
                #[trigger] files.contains(f) ==> paks.contains(f) || rest.contains(f)
            &&& paks.len() + rest.len() == files.len()
            &&& paks.no_duplicates()
            &&& rest.no_duplicates()
        }),
{
    let is_pak_pred = |p: Seq<u8>| is_pak_path(p);
    let not_pak_pred = |p: Seq<u8>| !is_pak_path(p);
    let paks = files.filter(is_pak_pred);
    let rest = files.filter(not_pak_pred);
    assert forall|f: Seq<u8>| #[trigger] paks.contains(f) implies files.contains(f) && is_pak_path(
        f,
    ) by {
        lemma_filter_from_source(files, is_pak_pred, f);
    }
    assert forall|f: Seq<u8>| files.contains(f) && is_pak_path(f) implies #[trigger] paks.contains(
        f,
    ) by {
        let i = choose|i: int| 0 <= i < files.len() && files[i] == f;
        lemma_filter_has(files, is_pak_pred, i);
    }
    assert forall|f: Seq<u8>| #[trigger] rest.contains(f) implies files.contains(f) && !is_pak_path(
        f,
    ) by {
        lemma_filter_from_source(files, not_pak_pred, f);
    }
    assert forall|f: Seq<u8>| files.contains(f) && !is_pak_path(f) implies #[trigger] rest.contains(
        f,
    ) by {
        let i = choose|i: int| 0 <= i < files.len() && files[i] == f;
        lemma_filter_has(files, not_pak_pred, i);
    }
    assert(paks.len() + rest.len() == files.len()) by {
        lemma_filter_split_len(files, is_pak_pred, not_pak_pred);
    }
    lemma_filter_no_duplicates(files, is_pak_pred);
    lemma_filter_no_duplicates(files, not_pak_pred);
}

} // verus!
