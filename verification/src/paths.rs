//! Byte-level path reasoning.
//!
//! Paths are handled as their raw bytes.  For parsing a file name or an
//! extension, both `/` and `\` count as separators; paths that the plan
//! builders combine are expected in `/`-separated form, which the
//! surrounding program establishes before handing a path in.

use vstd::prelude::*;

verus! {

/// True of the two bytes that separate path components: `/` and `\`.
pub open spec fn is_sep(b: u8) -> bool {
    b == 47u8 || b == 92u8
}

/// Index where the file name of `p` begins: just after the last separator,
/// or 0 when `p` holds no separator.
pub open spec fn name_start(p: Seq<u8>) -> int
    decreases p.len(),
{
    if p.len() == 0 {
        0
    } else if is_sep(p.last()) {
        p.len() as int
    } else {
        name_start(p.drop_last())
    }
}

pub proof fn lemma_name_start_bounds(p: Seq<u8>)
    ensures
        0 <= name_start(p) <= p.len(),
    decreases p.len(),
{
    if p.len() > 0 && !is_sep(p.last()) {
        lemma_name_start_bounds(p.drop_last());
    }
}

/// The file name of `p`: everything after the last separator.
pub open spec fn file_name_of(p: Seq<u8>) -> Seq<u8> {
    p.skip(name_start(p))
}

/// Scanning left from position `i`, the position of the first `.` found
/// before any separator, if there is one.
pub open spec fn dot_before(p: Seq<u8>, i: int) -> Option<int>
    recommends
        i <= p.len(),
    decreases i,
{
    if i <= 0 {
        None
    } else if is_sep(p[i - 1]) {
        None
    } else if p[i - 1] == 46u8 {
        Some(i - 1)
    } else {
        dot_before(p, i - 1)
    }
}

/// The dot that begins `p`'s extension, if `p` has one.  As with the
/// standard library's notion of an extension, the last `.` of the file name
/// counts only when something of the name stands before it, so a name with
/// a single leading dot has no extension.
pub open spec fn ext_dot(p: Seq<u8>) -> Option<int> {
    match dot_before(p, p.len() as int) {
        None => None,
        Some(j) => if j > 0 && !is_sep(p[j - 1]) {
            Some(j)
        } else {
            None
        },
    }
}

/// The extension of `p`: the bytes after the final dot of its file name.
pub open spec fn extension_of(p: Seq<u8>) -> Option<Seq<u8>> {
    match ext_dot(p) {
        None => None,
        Some(j) => Some(p.subrange(j + 1, p.len() as int)),
    }
}

/// `p` without its extension (and without the dot before it).
pub open spec fn stem_of(p: Seq<u8>) -> Seq<u8> {
    match ext_dot(p) {
        None => p,
        Some(j) => p.take(j),
    }
}

proof fn lemma_dot_before_bounds(p: Seq<u8>, i: int)
    requires
        i <= p.len(),
    ensures
        match dot_before(p, i) {
            None => true,
            Some(j) => 0 <= j < i && p[j] == 46u8,
        },
    decreases i,
{
    if i > 0 && !is_sep(p[i - 1]) && p[i - 1] != 46u8 {
        lemma_dot_before_bounds(p, i - 1);
    }
}

pub proof fn lemma_ext_dot_bounds(p: Seq<u8>)
    ensures
        match ext_dot(p) {
            None => true,
            Some(j) => 0 <= j < p.len() && p[j] == 46u8,
        },
{
    lemma_dot_before_bounds(p, p.len() as int);
}

/// A copy of `v` with the same bytes.
pub fn copy_bytes(v: &Vec<u8>) -> (r: Vec<u8>)
    ensures
        r@ == v@,
{
    let n = v.len();
    let mut r: Vec<u8> = Vec::new();
    let mut i: usize = 0;
    while i < n
        invariant
            i <= n,
            n == v@.len(),
            r@ =~= v@.take(i as int),
        decreases n - i,
    {
        r.push(v[i]);
        i = i + 1;
    }
    proof {
        assert(r@ =~= v@);
    }
    r
}

/// Index where the file name of `p` begins.
pub fn find_name_start(p: &Vec<u8>) -> (r: usize)
    ensures
        r == name_start(p@),
{
    let mut i: usize = p.len();
    proof {
        assert(p@.take(p@.len() as int) =~= p@);
    }
    while i > 0
        invariant
            i <= p@.len(),
            name_start(p@) == name_start(p@.take(i as int)),
        decreases i,
    {
        if p[i - 1] == 47u8 || p[i - 1] == 92u8 {
            proof {
                assert(p@.take(i as int).last() == p@[i - 1]);
            }
            return i;
        }
        proof {
            assert(p@.take(i as int).drop_last() =~= p@.take(i as int - 1));
            assert(!is_sep(p@.take(i as int).last()));
        }
        i = i - 1;
    }
    0
}

/// The position just after the dot that begins `p`'s extension, if any.
pub fn find_ext_start(p: &Vec<u8>) -> (r: Option<usize>)
    ensures
        match r {
            Some(k) => ext_dot(p@) == Some(k - 1) && 0 < k <= p@.len(),
            None => ext_dot(p@) is None,
        },
{
    let n = p.len();
    let mut i: usize = n;
    while i > 0
        invariant
            i <= n,
            n == p@.len(),
            dot_before(p@, n as int) == dot_before(p@, i as int),
        decreases i,
    {
        let b = p[i - 1];
        if b == 47u8 || b == 92u8 {
            return None;
        }
        if b == 46u8 {
            if i - 1 > 0 {
                let before = p[i - 2];
                if !(before == 47u8 || before == 92u8) {
                    return Some(i);
                }
            }
            return None;
        }
        i = i - 1;
    }
    None
}

/// Whether `p`'s extension is exactly `ext`.
pub fn has_extension(p: &Vec<u8>, ext: &Vec<u8>) -> (r: bool)
    ensures
        r == (extension_of(p@) == Some(ext@)),
{
    match find_ext_start(p) {
        None => false,
        Some(k) => {
            let n = p.len();
            let m = n - k;
            if m != ext.len() {
                proof {
                    assert(extension_of(p@).unwrap().len() == m);
                }
                return false;
            }
            let mut j: usize = 0;
            while j < m
                invariant
                    j <= m,
                    m == ext@.len(),
                    k + m == n,
                    n == p@.len(),
                    0 < k <= n,
                    ext_dot(p@) == Some(k - 1),
                    forall|t: int| 0 <= t < j ==> p@[k + t] == ext@[t],
                decreases m - j,
            {
                if p[k + j] != ext[j] {
                    proof {
                        assert(extension_of(p@).unwrap()[j as int] == p@[k + j]);
                    }
                    return false;
                }
                j = j + 1;
            }
            proof {
                assert(extension_of(p@).unwrap() =~= ext@);
            }
            true
        },
    }
}

/// The bytes of the archive extension, `pak`.
pub open spec fn pak_ext() -> Seq<u8> {
    seq![112u8, 97u8, 107u8]
}

/// The bytes of the script extension, `lua`.
pub open spec fn lua_ext() -> Seq<u8> {
    seq![108u8, 117u8, 97u8]
}

/// An archive file: its extension is exactly `pak`.
pub open spec fn is_pak_path(p: Seq<u8>) -> bool {
    extension_of(p) == Some(pak_ext())
}

/// A script file: its extension is exactly `lua`.
pub open spec fn is_lua_path(p: Seq<u8>) -> bool {
    extension_of(p) == Some(lua_ext())
}

pub fn pak_ext_bytes() -> (r: Vec<u8>)
    ensures
        r@ == pak_ext(),
{
    let mut v: Vec<u8> = Vec::new();
    v.push(112u8);
    v.push(97u8);
    v.push(107u8);
    proof {
        assert(v@ =~= pak_ext());
    }
    v
}

pub fn lua_ext_bytes() -> (r: Vec<u8>)
    ensures
        r@ == lua_ext(),
{
    let mut v: Vec<u8> = Vec::new();
    v.push(108u8);
    v.push(117u8);
    v.push(97u8);
    proof {
        assert(v@ =~= lua_ext());
    }
    v
}

/// Whether `p` names an archive file.
pub fn is_pak(p: &Vec<u8>) -> (r: bool)
    ensures
        r == is_pak_path(p@),
{
    let ext = pak_ext_bytes();
    has_extension(p, &ext)
}

/// Whether `p` names a script file.
pub fn is_lua(p: &Vec<u8>) -> (r: bool)
    ensures
        r == is_lua_path(p@),
{
    let ext = lua_ext_bytes();
    has_extension(p, &ext)
}

/// `p` lies strictly under the directory `root`: `root`, then `/`, then a
/// nonempty remainder.
pub open spec fn is_under(p: Seq<u8>, root: Seq<u8>) -> bool {
    &&& p.len() > root.len() + 1
    &&& p.take(root.len() as int) == root
    &&& p[root.len() as int] == 47u8
}

/// The path of `p` relative to `root`.
pub open spec fn rel_of(p: Seq<u8>, root: Seq<u8>) -> Seq<u8> {
    p.skip(root.len() as int + 1)
}

/// `base`, a separator, then `rel`.
pub open spec fn join(base: Seq<u8>, rel: Seq<u8>) -> Seq<u8> {
    base + seq![47u8] + rel
}

/// Whether `p` lies strictly under `root`.
pub fn check_under(p: &Vec<u8>, root: &Vec<u8>) -> (r: bool)
    ensures
        r == is_under(p@, root@),
{
    let n = root.len();
    if p.len() <= n || p.len() - n <= 1 {
        return false;
    }
    if p[n] != 47u8 {
        return false;
    }
    let mut i: usize = 0;
    while i < n
        invariant
            i <= n,
            n < p@.len(),
            n == root@.len(),
            forall|t: int| 0 <= t < i ==> p@[t] == root@[t],
        decreases n - i,
    {
        if p[i] != root[i] {
            proof {
                assert(p@.take(n as int)[i as int] == p@[i as int]);
            }
            return false;
        }
        i = i + 1;
    }
    proof {
        assert(p@.take(n as int) =~= root@);
    }
    true
}

/// The path of `p` relative to `root`.
pub fn rel_path(p: &Vec<u8>, root: &Vec<u8>) -> (r: Vec<u8>)
    requires
        is_under(p@, root@),
    ensures
        r@ == rel_of(p@, root@),
{
    let mut r: Vec<u8> = Vec::new();
    let n = p.len();
    let mut i: usize = root.len() + 1;
    while i < n
        invariant
            n == p@.len(),
            root@.len() + 1 <= i <= p@.len(),
            r@ =~= p@.subrange(root@.len() as int + 1, i as int),
        decreases p@.len() - i,
    {
        r.push(p[i]);
        i = i + 1;
    }
    proof {
        assert(r@ =~= rel_of(p@, root@));
    }
    r
}

/// `base`, a `/`, then `rel`.
pub fn join_path(base: &Vec<u8>, rel: &Vec<u8>) -> (r: Vec<u8>)
    ensures
        r@ == join(base@, rel@),
{
    let mut r: Vec<u8> = Vec::new();
    let mut i: usize = 0;
    while i < base.len()
        invariant
            i <= base@.len(),
            r@ =~= base@.take(i as int),
        decreases base@.len() - i,
    {
        r.push(base[i]);
        i = i + 1;
    }
    r.push(47u8);
    let mut j: usize = 0;
    while j < rel.len()
        invariant
            j <= rel@.len(),
            r@ =~= base@ + seq![47u8] + rel@.take(j as int),
        decreases rel@.len() - j,
    {
        r.push(rel[j]);
        j = j + 1;
    }
    proof {
        assert(r@ =~= join(base@, rel@));
    }
    r
}

/// The file name of `p`.
pub fn file_name(p: &Vec<u8>) -> (r: Vec<u8>)
    ensures
        r@ == file_name_of(p@),
{
    let start = find_name_start(p);
    let mut r: Vec<u8> = Vec::new();
    let mut i: usize = start;
    proof {
        lemma_name_start_bounds(p@);
    }
    while i < p.len()
        invariant
            start <= i <= p@.len(),
            start == name_start(p@),
            r@ =~= p@.subrange(start as int, i as int),
        decreases p@.len() - i,
    {
        r.push(p[i]);
        i = i + 1;
    }
    proof {
        assert(r@ =~= file_name_of(p@));
    }
    r
}

/// The directory holding `p`: everything before the last separator, or the
/// empty path when `p` holds no separator.
pub open spec fn parent_of(p: Seq<u8>) -> Seq<u8> {
    if name_start(p) > 0 {
        p.take(name_start(p) - 1)
    } else {
        Seq::empty()
    }
}

/// The directory holding `p`.
pub fn parent_path(p: &Vec<u8>) -> (r: Vec<u8>)
    ensures
        r@ == parent_of(p@),
{
    let start = find_name_start(p);
    let mut r: Vec<u8> = Vec::new();
    if start == 0 {
        proof {
            assert(r@ =~= parent_of(p@));
        }
        return r;
    }
    proof {
        lemma_name_start_bounds(p@);
    }
    let mut i: usize = 0;
    while i < start - 1
        invariant
            i <= start - 1,
            0 < start <= p@.len(),
            start == name_start(p@),
            r@ =~= p@.take(i as int),
        decreases start - i,
    {
        r.push(p[i]);
        i = i + 1;
    }
    proof {
        assert(r@ =~= parent_of(p@));
    }
    r
}

/// The container the decryptor writes beside its input: the input path with
/// `.zip` appended.
pub open spec fn zip_name_of(p: Seq<u8>) -> Seq<u8> {
    p + seq![46u8, 122u8, 105u8, 112u8]
}

/// The input path with `.zip` appended.
pub fn zip_name(p: &Vec<u8>) -> (r: Vec<u8>)
    ensures
        r@ == zip_name_of(p@),
{
    let mut r = p.clone();
    r.push(46u8);
    r.push(122u8);
    r.push(105u8);
    r.push(112u8);
    proof {
        assert(r@ =~= zip_name_of(p@));
    }
    r
}

/// The suffix a result file carries in place of the script extension:
/// `.decomp.lua`.
pub open spec fn result_suffix() -> Seq<u8> {
    seq![46u8, 100u8, 101u8, 99u8, 111u8, 109u8, 112u8, 46u8, 108u8, 117u8, 97u8]
}

/// Where the decompiled text of the script `p` is stored: `p` with its
/// extension replaced by `decomp.lua` (appended when `p` has no extension).
pub open spec fn result_path_of(p: Seq<u8>) -> Seq<u8> {
    stem_of(p) + result_suffix()
}

/// Where the decompiled text of the script `p` is stored.
pub fn result_path(p: &Vec<u8>) -> (r: Vec<u8>)
    ensures
        r@ == result_path_of(p@),
{
    let stop: usize = match find_ext_start(p) {
        Some(k) => k - 1,
        None => p.len(),
    };
    proof {
        lemma_ext_dot_bounds(p@);
    }
    let mut r: Vec<u8> = Vec::new();
    let mut i: usize = 0;
    while i < stop
        invariant
            i <= stop,
            stop <= p@.len(),
            r@ =~= p@.take(i as int),
        decreases stop - i,
    {
        r.push(p[i]);
        i = i + 1;
    }
    r.push(46u8);
    r.push(100u8);
    r.push(101u8);
    r.push(99u8);
    r.push(111u8);
    r.push(109u8);
    r.push(112u8);
    r.push(46u8);
    r.push(108u8);
    r.push(117u8);
    r.push(97u8);
    proof {
        assert(r@ =~= result_path_of(p@));
    }
    r
}

/// The four bytes of the extended-path prefix `\\?\`.
pub open spec fn verbatim_mark() -> Seq<u8> {
    seq![92u8, 92u8, 63u8, 92u8]
}

/// `s` with every occurrence of `\\?\` removed, scanning left to right.
pub open spec fn strip_marks(s: Seq<u8>) -> Seq<u8>
    decreases s.len(),
{
    if s.len() < 4 {
        s
    } else if s.take(4) == verbatim_mark() {
        strip_marks(s.skip(4))
    } else {
        seq![s[0]] + strip_marks(s.skip(1))
    }
}

/// `s` with every occurrence of `\\?\` removed.
pub fn strip_verbatim(s: &Vec<u8>) -> (r: Vec<u8>)
    ensures
        r@ == strip_marks(s@),
{
    let n = s.len();
    let mut r: Vec<u8> = Vec::new();
    let mut i: usize = 0;
    proof {
        assert(s@.skip(0) =~= s@);
    }
    while i < n
        invariant
            i <= n,
            n == s@.len(),
            strip_marks(s@) == r@ + strip_marks(s@.skip(i as int)),
        decreases n - i,
    {
        let rest = n - i;
        if rest >= 4 && s[i] == 92u8 && s[i + 1] == 92u8 && s[i + 2] == 63u8 && s[i + 3] == 92u8 {
            proof {
                assert(s@.skip(i as int).take(4) =~= verbatim_mark());
                assert(s@.skip(i as int).skip(4) =~= s@.skip(i as int + 4));
            }
            i = i + 4;
        } else {
            proof {
                let t = s@.skip(i as int);
                if t.len() >= 4 {
                    assert(t.take(4)[0] == s@[i as int]);
                    assert(t.take(4)[1] == s@[i as int + 1]);
                    assert(t.take(4)[2] == s@[i as int + 2]);
                    assert(t.take(4)[3] == s@[i as int + 3]);
                    assert(t.take(4) != verbatim_mark());
                } else {
                    assert(t =~= seq![t[0]] + t.skip(1));
                }
                assert(strip_marks(t) == seq![s@[i as int]] + strip_marks(t.skip(1)));
                assert(t.skip(1) =~= s@.skip(i as int + 1));
                assert((r@ + seq![s@[i as int]]) + strip_marks(s@.skip(i as int + 1)) =~= r@ + (seq![
                    s@[i as int],
                ] + strip_marks(s@.skip(i as int + 1))));
            }
            r.push(s[i]);
            i = i + 1;
        }
    }
    proof {
        assert(s@.skip(n as int) =~= Seq::<u8>::empty());
        assert(r@ + Seq::<u8>::empty() =~= r@);
    }
    r
}

/// A `..` path component stands at position `i` of `name`.
pub open spec fn parent_component_at(name: Seq<u8>, i: int) -> bool {
    &&& 0 <= i
    &&& i + 2 <= name.len()
    &&& name[i] == 46u8
    &&& name[i + 1] == 46u8
    &&& i == 0 || is_sep(name[i - 1])
    &&& i + 2 == name.len() || is_sep(name[i + 2])
}

/// Some component of `name` is `..`.
pub open spec fn has_parent_component(name: Seq<u8>) -> bool {
    exists|i: int| parent_component_at(name, i)
}

/// A name that cannot leave the directory it is placed under: nonempty,
/// relative, and without a `..` component.
pub open spec fn safe_entry_name(name: Seq<u8>) -> bool {
    name.len() > 0 && !is_sep(name[0]) && !has_parent_component(name)
}

/// Whether `name` can leave the directory it is placed under.
pub fn is_safe_entry_name(name: &Vec<u8>) -> (r: bool)
    ensures
        r == safe_entry_name(name@),
{
    let n = name.len();
    if n == 0 {
        return false;
    }
    if name[0] == 47u8 || name[0] == 92u8 {
        return false;
    }
    let mut i: usize = 0;
    while n - i >= 2
        invariant
            i <= n,
            n == name@.len(),
            forall|t: int| 0 <= t < i ==> !parent_component_at(name@, t),
        decreases n - i,
    {
        if name[i] == 46u8 && name[i + 1] == 46u8 && (i == 0 || name[i - 1] == 47u8 || name[i - 1]
            == 92u8) && (i + 2 == n || name[i + 2] == 47u8 || name[i + 2] == 92u8) {
            proof {
                assert(parent_component_at(name@, i as int));
            }
            return false;
        }
        i = i + 1;
    }
    proof {
        assert forall|t: int| !parent_component_at(name@, t) by {
            if 0 <= t && t + 2 <= name@.len() {
                assert(t < i);
            }
        }
    }
    true
}

} // verus!
