//! Filesystem actions, the plans the workflow builds from them, and the
//! laws those plans obey.
//!
//! A plan is a sequence of [`FsOp`] values; the surrounding program
//! performs them in order against the real filesystem.  Their meaning is
//! given by two models: [`dir_step`] tracks which directory occupies each
//! top-level slot (for the output rotation), and [`file_step`] tracks the
//! contents of each regular file (for copying, extraction and result
//! writing).

use vstd::prelude::*;
use crate::paths::{
    copy_bytes, file_name, file_name_of, is_sep, is_under, join, join_path, parent_of, parent_path,
    rel_of, rel_path, zip_name, zip_name_of,
};

verus! {

/// One step against the filesystem or the external decryptor.
#[derive(Clone, PartialEq, Eq, Debug)]
pub enum FsOp {
    /// Create a directory whose parent already exists.
    CreateDir { path: Vec<u8> },
    /// Create a directory and any missing parents.
    CreateDirAll { path: Vec<u8> },
    /// Delete a directory and everything under it.
    RemoveDirAll { path: Vec<u8> },
    /// Rename a directory; the target must not exist.
    RenameDir { from: Vec<u8>, to: Vec<u8> },
    /// Copy a regular file, overwriting the target.
    CopyFile { from: Vec<u8>, to: Vec<u8> },
    /// Write a regular file, creating or truncating it.
    WriteFile { path: Vec<u8>, data: Vec<u8> },
    /// Delete a regular file.
    RemoveFile { path: Vec<u8> },
    /// Run the external decryptor on `path`; it writes the container
    /// `path` + `.zip` beside its input.
    RunDecryptor { path: Vec<u8> },
}

/// The mathematical form of an [`FsOp`].
pub enum FsStep {
    CreateDir { path: Seq<u8> },
    CreateDirAll { path: Seq<u8> },
    RemoveDirAll { path: Seq<u8> },
    RenameDir { from: Seq<u8>, to: Seq<u8> },
    CopyFile { from: Seq<u8>, to: Seq<u8> },
    WriteFile { path: Seq<u8>, data: Seq<u8> },
    RemoveFile { path: Seq<u8> },
    RunDecryptor { path: Seq<u8> },
}

impl View for FsOp {
    type V = FsStep;

    open spec fn view(&self) -> FsStep {
        match self {
            FsOp::CreateDir { path } => FsStep::CreateDir { path: path@ },
            FsOp::CreateDirAll { path } => FsStep::CreateDirAll { path: path@ },
            FsOp::RemoveDirAll { path } => FsStep::RemoveDirAll { path: path@ },
            FsOp::RenameDir { from, to } => FsStep::RenameDir { from: from@, to: to@ },
            FsOp::CopyFile { from, to } => FsStep::CopyFile { from: from@, to: to@ },
            FsOp::WriteFile { path, data } => FsStep::WriteFile { path: path@, data: data@ },
            FsOp::RemoveFile { path } => FsStep::RemoveFile { path: path@ },
            FsOp::RunDecryptor { path } => FsStep::RunDecryptor { path: path@ },
        }
    }
}

/// The mathematical form of a plan.
pub open spec fn steps_of(s: Seq<FsOp>) -> Seq<FsStep> {
    s.map_values(|o: FsOp| o@)
}

/// The rebuild plan: create the output root when it is missing; otherwise
/// drop the old backup if one is there, move the output root into the
/// backup slot, and create a fresh output root.
pub open spec fn rebuild_steps(out: Seq<u8>, bak: Seq<u8>, out_exists: bool, bak_exists: bool) -> Seq<
    FsStep,
> {
    if !out_exists {
        seq![FsStep::CreateDir { path: out }]
    } else if bak_exists {
        seq![
            FsStep::RemoveDirAll { path: bak },
            FsStep::RenameDir { from: out, to: bak },
            FsStep::CreateDir { path: out },
        ]
    } else {
        seq![FsStep::RenameDir { from: out, to: bak }, FsStep::CreateDir { path: out }]
    }
}

/// Build the rebuild plan for the given state of the two slots.
pub fn rebuild_plan(out: &Vec<u8>, bak: &Vec<u8>, out_exists: bool, bak_exists: bool) -> (r: Vec<
    FsOp,
>)
    ensures
        steps_of(r@) == rebuild_steps(out@, bak@, out_exists, bak_exists),
{
    let mut r: Vec<FsOp> = Vec::new();
    if !out_exists {
        r.push(FsOp::CreateDir { path: copy_bytes(out) });
    } else {
        if bak_exists {
            r.push(FsOp::RemoveDirAll { path: copy_bytes(bak) });
        }
        r.push(FsOp::RenameDir { from: copy_bytes(out), to: copy_bytes(bak) });
        r.push(FsOp::CreateDir { path: copy_bytes(out) });
    }
    proof {
        assert(steps_of(r@) =~= rebuild_steps(out@, bak@, out_exists, bak_exists));
    }
    r
}

/// The error of the mirroring mode: it demands an existing output root.
#[derive(Clone, Copy, PartialEq, Eq, Structural, Debug)]
pub enum PlanError {
    OutputMissing,
}

/// Where the mirror of `f` stands: the output root joined with `f`'s path
/// relative to the source root.
pub open spec fn mirror_of(src_root: Seq<u8>, out_root: Seq<u8>, f: Seq<u8>) -> Seq<u8> {
    join(out_root, rel_of(f, src_root))
}

/// The two steps that mirror one file.
pub open spec fn copy_one_steps(src_root: Seq<u8>, out_root: Seq<u8>, f: Seq<u8>) -> Seq<FsStep> {
    seq![
        FsStep::CreateDirAll { path: parent_of(mirror_of(src_root, out_root, f)) },
        FsStep::CopyFile { from: f, to: mirror_of(src_root, out_root, f) },
    ]
}

/// The steps that mirror every listed file, in order.
pub open spec fn copy_extras_steps(src_root: Seq<u8>, out_root: Seq<u8>, files: Seq<Seq<u8>>) -> Seq<
    FsStep,
>
    decreases files.len(),
{
    if files.len() == 0 {
        Seq::empty()
    } else {
        copy_extras_steps(src_root, out_root, files.drop_last()) + copy_one_steps(
            src_root,
            out_root,
            files.last(),
        )
    }
}

/// Build the mirroring plan.  When the output root does not exist the mode
/// fails up front and plans nothing, so nothing on disk is touched.
pub fn copy_extras_plan(
    src_root: &Vec<u8>,
    out_root: &Vec<u8>,
    out_exists: bool,
    files: &Vec<Vec<u8>>,
) -> (r: Result<Vec<FsOp>, PlanError>)
    requires
        forall|i: int| 0 <= i < files@.len() ==> is_under(#[trigger] files@[i]@, src_root@),
    ensures
        r is Ok <==> out_exists,
        r matches Err(e) ==> e == PlanError::OutputMissing,
        r matches Ok(v) ==> steps_of(v@) == copy_extras_steps(
            src_root@,
            out_root@,
            crate::locate::views_of(files@),
        ),
{
    if !out_exists {
        return Err(PlanError::OutputMissing);
    }
    let ghost vs = crate::locate::views_of(files@);
    let mut r: Vec<FsOp> = Vec::new();
    let n = files.len();
    let mut i: usize = 0;
    proof {
        assert(steps_of(r@) =~= copy_extras_steps(src_root@, out_root@, vs.take(0)));
    }
    while i < n
        invariant
            i <= n,
            n == files@.len(),
            vs == crate::locate::views_of(files@),
            forall|t: int| 0 <= t < files@.len() ==> is_under(#[trigger] files@[t]@, src_root@),
            steps_of(r@) == copy_extras_steps(src_root@, out_root@, vs.take(i as int)),
        decreases n - i,
    {
        let rel = rel_path(&files[i], src_root);
        let dest = join_path(out_root, &rel);
        let parent = parent_path(&dest);
        proof {
            assert(vs.take(i as int + 1).drop_last() =~= vs.take(i as int));
            assert(vs.take(i as int + 1).last() == files@[i as int]@);
        }
        let ghost old_steps = steps_of(r@);
        r.push(FsOp::CreateDirAll { path: parent });
        r.push(FsOp::CopyFile { from: copy_bytes(&files[i]), to: dest });
        proof {
            assert(steps_of(r@) =~= old_steps + copy_one_steps(
                src_root@,
                out_root@,
                files@[i as int]@,
            ));
        }
        i = i + 1;
    }
    proof {
        assert(vs.take(n as int) =~= vs);
    }
    Ok(r)
}

/// Which directory occupies each slot, by full path.  Each step is mapped
/// to its effect when it succeeds.  A directory's identity does not change
/// when files are written inside it, so the steps that act on single files
/// leave this model as it is.
pub open spec fn dir_step<T>(m: Map<Seq<u8>, T>, op: FsStep, fresh: T) -> Map<Seq<u8>, T> {
    match op {
        FsStep::CreateDir { path } => m.insert(path, fresh),
        FsStep::CreateDirAll { path } => if m.dom().contains(path) {
            m
        } else {
            m.insert(path, fresh)
        },
        FsStep::RemoveDirAll { path } => m.remove(path),
        FsStep::RenameDir { from, to } => if m.dom().contains(from) {
            m.remove(from).insert(to, m[from])
        } else {
            m
        },
        _ => m,
    }
}

/// `dir_step`, over a whole plan.
pub open spec fn dir_run<T>(m: Map<Seq<u8>, T>, steps: Seq<FsStep>, fresh: T) -> Map<Seq<u8>, T>
    decreases steps.len(),
{
    if steps.len() == 0 {
        m
    } else {
        dir_run(dir_step(m, steps[0], fresh), steps.skip(1), fresh)
    }
}

/// Rotation law: running the rebuild plan twice in a row keeps a single
/// backup generation.  After the second run the backup slot holds exactly
/// the first run's output — the older backup is replaced, not kept beside
/// it — and no slot other than the output and the backup is touched.
pub proof fn lemma_rebuild_twice<T>(
    m0: Map<Seq<u8>, T>,
    out: Seq<u8>,
    bak: Seq<u8>,
    fresh1: T,
    fresh2: T,
)
    requires
        out != bak,
    ensures
        ({
            let m1 = dir_run(
                m0,
                rebuild_steps(out, bak, m0.dom().contains(out), m0.dom().contains(bak)),
                fresh1,
            );
            let m2 = dir_run(
                m1,
                rebuild_steps(out, bak, m1.dom().contains(out), m1.dom().contains(bak)),
                fresh2,
            );
            &&& m1.dom().contains(out) && m1[out] == fresh1
            &&& m2.dom().contains(out) && m2[out] == fresh2
            &&& m2.dom().contains(bak) && m2[bak] == m1[out]
            &&& forall|p: Seq<u8>|
                p != out && p != bak ==> (#[trigger] m2.dom().contains(p) <==> m0.dom().contains(p))
            &&& forall|p: Seq<u8>|
                p != out && p != bak && m0.dom().contains(p) ==> #[trigger] m2[p] == m0[p]
        }),
{
    reveal_with_fuel(dir_run, 5);
    let s1 = rebuild_steps(out, bak, m0.dom().contains(out), m0.dom().contains(bak));
    let m1 = dir_run(m0, s1, fresh1);
    if !m0.dom().contains(out) {
        assert(s1 =~= seq![FsStep::CreateDir { path: out }]);
        assert(s1.skip(1) =~= Seq::<FsStep>::empty());
        assert(m1 == m0.insert(out, fresh1));
    } else if m0.dom().contains(bak) {
        let a = FsStep::RemoveDirAll { path: bak };
        let b = FsStep::RenameDir { from: out, to: bak };
        let c = FsStep::CreateDir { path: out };
        assert(s1 =~= seq![a, b, c]);
        assert(s1.skip(1) =~= seq![b, c]);
        assert(seq![b, c].skip(1) =~= seq![c]);
        assert(seq![c].skip(1) =~= Seq::<FsStep>::empty());
        assert(m1 == m0.remove(bak).remove(out).insert(bak, m0[out]).insert(out, fresh1));
    } else {
        let b = FsStep::RenameDir { from: out, to: bak };
        let c = FsStep::CreateDir { path: out };
        assert(s1 =~= seq![b, c]);
        assert(s1.skip(1) =~= seq![c]);
        assert(seq![c].skip(1) =~= Seq::<FsStep>::empty());
        assert(m1 == m0.remove(out).insert(bak, m0[out]).insert(out, fresh1));
    }
    let s2 = rebuild_steps(out, bak, m1.dom().contains(out), m1.dom().contains(bak));
    let m2 = dir_run(m1, s2, fresh2);
    if m1.dom().contains(bak) {
        let a = FsStep::RemoveDirAll { path: bak };
        let b = FsStep::RenameDir { from: out, to: bak };
        let c = FsStep::CreateDir { path: out };
        assert(s2 =~= seq![a, b, c]);
        assert(s2.skip(1) =~= seq![b, c]);
        assert(seq![b, c].skip(1) =~= seq![c]);
        assert(seq![c].skip(1) =~= Seq::<FsStep>::empty());
        assert(m2 == m1.remove(bak).remove(out).insert(bak, m1[out]).insert(out, fresh2));
    } else {
        let b = FsStep::RenameDir { from: out, to: bak };
        let c = FsStep::CreateDir { path: out };
        assert(s2 =~= seq![b, c]);
        assert(s2.skip(1) =~= seq![c]);
        assert(seq![c].skip(1) =~= Seq::<FsStep>::empty());
        assert(m2 == m1.remove(out).insert(bak, m1[out]).insert(out, fresh2));
    }
}

/// The contents of each regular file, by full path.  Each step is mapped
/// to its effect when it succeeds: a rename moves every file under the
/// source directory, a recursive removal drops every file under its
/// target, and creating directories changes no file.  `dec` gives the
/// container bytes the external decryptor writes beside its input path.
pub open spec fn file_step(
    m: Map<Seq<u8>, Seq<u8>>,
    op: FsStep,
    dec: spec_fn(Seq<u8>) -> Seq<u8>,
) -> Map<Seq<u8>, Seq<u8>> {
    match op {
        FsStep::CreateDir { path } => m,
        FsStep::CreateDirAll { path } => m,
        FsStep::RemoveDirAll { path } => m.remove_keys(Set::new(|k: Seq<u8>| is_under(k, path))),
        FsStep::RenameDir { from, to } => Map::new(
            |k: Seq<u8>|
                if is_under(k, to) {
                    m.dom().contains(join(from, rel_of(k, to)))
                } else {
                    m.dom().contains(k) && !is_under(k, from)
                },
            |k: Seq<u8>|
                if is_under(k, to) {
                    m[join(from, rel_of(k, to))]
                } else {
                    m[k]
                },
        ),
        FsStep::CopyFile { from, to } => if m.dom().contains(from) {
            m.insert(to, m[from])
        } else {
            m
        },
        FsStep::WriteFile { path, data } => m.insert(path, data),
        FsStep::RemoveFile { path } => m.remove(path),
        FsStep::RunDecryptor { path } => m.insert(zip_name_of(path), dec(path)),
    }
}

/// `file_step`, over a whole plan.
pub open spec fn file_run(
    m: Map<Seq<u8>, Seq<u8>>,
    steps: Seq<FsStep>,
    dec: spec_fn(Seq<u8>) -> Seq<u8>,
) -> Map<Seq<u8>, Seq<u8>>
    decreases steps.len(),
{
    if steps.len() == 0 {
        m
    } else {
        file_run(file_step(m, steps[0], dec), steps.skip(1), dec)
    }
}

pub proof fn lemma_file_run_app(
    m: Map<Seq<u8>, Seq<u8>>,
    a: Seq<FsStep>,
    b: Seq<FsStep>,
    dec: spec_fn(Seq<u8>) -> Seq<u8>,
)
    ensures
        file_run(m, a + b, dec) == file_run(file_run(m, a, dec), b, dec),
    decreases a.len(),
{
    if a.len() == 0 {
        assert(a + b =~= b);
    } else {
        assert((a + b)[0] == a[0]);
        assert((a + b).skip(1) =~= a.skip(1) + b);
        lemma_file_run_app(file_step(m, a[0], dec), a.skip(1), b, dec);
    }
}

pub proof fn lemma_join_under(base: Seq<u8>, rel: Seq<u8>)
    requires
        rel.len() > 0,
    ensures
        is_under(join(base, rel), base),
{
    assert(join(base, rel).take(base.len() as int) =~= base);
    assert(join(base, rel)[base.len() as int] == 47u8);
}

pub proof fn lemma_join_under_deep(p: Seq<u8>, root: Seq<u8>, x: Seq<u8>)
    requires
        is_under(p, root),
    ensures
        is_under(join(p, x), root),
{
    assert(join(p, x).take(root.len() as int) =~= root);
    assert(join(p, x)[root.len() as int] == p[root.len() as int]);
}

pub proof fn lemma_join_injective(base: Seq<u8>, a: Seq<u8>, b: Seq<u8>)
    requires
        join(base, a) == join(base, b),
    ensures
        a == b,
{
    assert(a =~= join(base, a).skip(base.len() as int + 1));
    assert(b =~= join(base, b).skip(base.len() as int + 1));
}

pub proof fn lemma_mirror_injective(src_root: Seq<u8>, out_root: Seq<u8>, a: Seq<u8>, b: Seq<u8>)
    requires
        is_under(a, src_root),
        is_under(b, src_root),
        mirror_of(src_root, out_root, a) == mirror_of(src_root, out_root, b),
    ensures
        a == b,
{
    lemma_join_injective(out_root, rel_of(a, src_root), rel_of(b, src_root));
    assert(a =~= b) by {
        assert(a.len() == src_root.len() + 1 + rel_of(a, src_root).len());
        assert(forall|i: int|
            0 <= i < src_root.len() ==> a[i] == src_root[i] && b[i] == src_root[i]);
        assert(forall|i: int|
            src_root.len() + 1 <= i < a.len() ==> a[i] == rel_of(a, src_root)[i - src_root.len()
                - 1]);
        assert(forall|i: int|
            src_root.len() + 1 <= i < b.len() ==> b[i] == rel_of(b, src_root)[i - src_root.len()
                - 1]);
    }
}

/// Mirroring law: after the mirroring plan runs, every listed file has a
/// byte-identical counterpart at its mirrored relative path under the
/// output root, and every file outside the output tree — the listed
/// source files included — is exactly as it was.
pub proof fn lemma_copy_extras_mirrors(
    m0: Map<Seq<u8>, Seq<u8>>,
    src_root: Seq<u8>,
    out_root: Seq<u8>,
    files: Seq<Seq<u8>>,
    dec: spec_fn(Seq<u8>) -> Seq<u8>,
)
    requires
        forall|i: int| 0 <= i < files.len() ==> is_under(#[trigger] files[i], src_root),
        forall|i: int| 0 <= i < files.len() ==> m0.dom().contains(#[trigger] files[i]),
        forall|i: int| 0 <= i < files.len() ==> !is_under(#[trigger] files[i], out_root),
        files.no_duplicates(),
    ensures
        ({
            let m1 = file_run(m0, copy_extras_steps(src_root, out_root, files), dec);
            &&& forall|i: int|
                0 <= i < files.len() ==> m1.dom().contains(
                    mirror_of(src_root, out_root, #[trigger] files[i]),
                )
            &&& forall|i: int|
                0 <= i < files.len() ==> m1[mirror_of(src_root, out_root, #[trigger] files[i])]
                    == m0[files[i]]
            &&& forall|p: Seq<u8>|
                !is_under(p, out_root) ==> (#[trigger] m1.dom().contains(p) <==> m0.dom().contains(
                    p,
                ))
            &&& forall|p: Seq<u8>|
                !is_under(p, out_root) && m0.dom().contains(p) ==> #[trigger] m1[p] == m0[p]
        }),
    decreases files.len(),
{
    reveal_with_fuel(file_run, 4);
    let m1 = file_run(m0, copy_extras_steps(src_root, out_root, files), dec);
    if files.len() == 0 {
    } else {
        let init = files.drop_last();
        let f = files.last();
        let dest = mirror_of(src_root, out_root, f);
        let mprev = file_run(m0, copy_extras_steps(src_root, out_root, init), dec);
        assert(init.no_duplicates());
        lemma_copy_extras_mirrors(m0, src_root, out_root, init, dec);
        lemma_file_run_app(
            m0,
            copy_extras_steps(src_root, out_root, init),
            copy_one_steps(src_root, out_root, f),
            dec,
        );
        let cs = copy_one_steps(src_root, out_root, f);
        assert(cs.skip(1) =~= seq![cs[1]]);
        assert(cs.skip(1).skip(1) =~= Seq::<FsStep>::empty());
        assert(mprev.dom().contains(f) && mprev[f] == m0[f]);
        assert(m1 == mprev.insert(dest, mprev[f]));
        assert(rel_of(f, src_root).len() > 0);
        lemma_join_under(out_root, rel_of(f, src_root));
        assert(is_under(dest, out_root));
        assert forall|i: int| 0 <= i < files.len() implies m1.dom().contains(
            mirror_of(src_root, out_root, #[trigger] files[i]),
        ) && m1[mirror_of(src_root, out_root, files[i])] == m0[files[i]] by {
            if i == files.len() - 1 {
                assert(m1[dest] == mprev[f]);
            } else {
                assert(init[i] == files[i]);
                if mirror_of(src_root, out_root, files[i]) == dest {
                    lemma_mirror_injective(src_root, out_root, files[i], f);
                    assert(false);
                }
            }
        }
    }
}

/// Overwrite law: writing a script's result twice leaves exactly the
/// second text at the result path; the first is gone, nothing is
/// appended, and no other file moves.
pub proof fn lemma_result_overwrite(
    m0: Map<Seq<u8>, Seq<u8>>,
    script: Seq<u8>,
    t1: Seq<u8>,
    t2: Seq<u8>,
    dec: spec_fn(Seq<u8>) -> Seq<u8>,
)
    ensures
        ({
            let rp = crate::paths::result_path_of(script);
            let w1 = FsStep::WriteFile { path: rp, data: t1 };
            let w2 = FsStep::WriteFile { path: rp, data: t2 };
            file_step(file_step(m0, w1, dec), w2, dec) == m0.insert(rp, t2)
        }),
{
    let rp = crate::paths::result_path_of(script);
    assert(m0.insert(rp, t1).insert(rp, t2) =~= m0.insert(rp, t2));
}

/// The first two steps of one archive's run: copy it beside the tool and
/// hand the copy to the external decryptor, which writes the container
/// beside it.
pub open spec fn prepare_steps(archive: Seq<u8>, copy_to: Seq<u8>) -> Seq<FsStep> {
    seq![
        FsStep::CopyFile { from: archive, to: copy_to },
        FsStep::RunDecryptor { path: copy_to },
    ]
}

/// Build the preparation plan for one archive; also returns the working
/// copy's path, which the later steps of the run revolve around.
pub fn pipeline_prepare(archive: &Vec<u8>, workdir: &Vec<u8>) -> (r: (Vec<FsOp>, Vec<u8>))
    ensures
        r.1@ == join(workdir@, file_name_of(archive@)),
        steps_of(r.0@) == prepare_steps(archive@, r.1@),
{
    let name = file_name(archive);
    let copy_to = join_path(workdir, &name);
    let mut ops: Vec<FsOp> = Vec::new();
    ops.push(FsOp::CopyFile { from: copy_bytes(archive), to: copy_bytes(&copy_to) });
    ops.push(FsOp::RunDecryptor { path: copy_bytes(&copy_to) });
    proof {
        assert(steps_of(ops@) =~= prepare_steps(archive@, copy_to@));
    }
    (ops, copy_to)
}

/// The last two steps of one archive's run: delete the transient
/// container and the working copy.
pub open spec fn cleanup_steps(copy_to: Seq<u8>) -> Seq<FsStep> {
    seq![
        FsStep::RemoveFile { path: zip_name_of(copy_to) },
        FsStep::RemoveFile { path: copy_to },
    ]
}

/// Build the cleanup plan for one archive's working copy.
pub fn pipeline_cleanup(copy_to: &Vec<u8>) -> (r: Vec<FsOp>)
    ensures
        steps_of(r@) == cleanup_steps(copy_to@),
{
    let mut ops: Vec<FsOp> = Vec::new();
    ops.push(FsOp::RemoveFile { path: zip_name(copy_to) });
    ops.push(FsOp::RemoveFile { path: copy_bytes(copy_to) });
    proof {
        assert(steps_of(ops@) =~= cleanup_steps(copy_to@));
    }
    ops
}

/// A container entry that stands for a directory: its name is empty or
/// ends in a separator.
pub open spec fn is_dir_entry(name: Seq<u8>) -> bool {
    name.len() == 0 || is_sep(name.last())
}

/// What one container entry adds to the plan: nothing for an empty name,
/// the directory itself (without its trailing separator) for a directory
/// entry, and a write for a file entry.
pub open spec fn entry_step(e: (Seq<u8>, Seq<u8>), dest: Seq<u8>) -> Seq<FsStep> {
    if e.0.len() == 0 {
        Seq::empty()
    } else if is_dir_entry(e.0) {
        seq![FsStep::CreateDirAll { path: join(dest, e.0.take(e.0.len() - 1)) }]
    } else {
        seq![FsStep::WriteFile { path: join(dest, e.0), data: e.1 }]
    }
}

/// The steps that recreate a container under `dest`, in entry order:
/// every directory entry's directory, every file entry's bytes.
pub open spec fn extract_steps(entries: Seq<(Seq<u8>, Seq<u8>)>, dest: Seq<u8>) -> Seq<FsStep>
    decreases entries.len(),
{
    if entries.len() == 0 {
        Seq::empty()
    } else {
        extract_steps(entries.drop_last(), dest) + entry_step(entries.last(), dest)
    }
}

/// Whether `p` is where some file entry of the container lands.
pub open spec fn is_extract_target(entries: Seq<(Seq<u8>, Seq<u8>)>, dest: Seq<u8>, p: Seq<u8>) -> bool {
    exists|i: int|
        0 <= i < entries.len() && !is_dir_entry((#[trigger] entries[i]).0) && p == join(
            dest,
            entries[i].0,
        )
}

/// Extraction effect: each file entry lands under `dest` with its bytes
/// (entry names are unique within a container), and no other file moves.
pub proof fn lemma_extract_writes(
    m: Map<Seq<u8>, Seq<u8>>,
    entries: Seq<(Seq<u8>, Seq<u8>)>,
    dest: Seq<u8>,
    dec: spec_fn(Seq<u8>) -> Seq<u8>,
)
    requires
        forall|i: int, j: int|
            0 <= i < j < entries.len() ==> (#[trigger] entries[i]).0 != (#[trigger] entries[j]).0,
    ensures
        ({
            let m1 = file_run(m, extract_steps(entries, dest), dec);
            &&& forall|i: int|
                0 <= i < entries.len() && !is_dir_entry((#[trigger] entries[i]).0)
                    ==> m1.dom().contains(join(dest, entries[i].0)) && m1[join(dest, entries[i].0)]
                    == entries[i].1
            &&& forall|p: Seq<u8>|
                #[trigger] m1.dom().contains(p) <==> m.dom().contains(p) || is_extract_target(
                    entries,
                    dest,
                    p,
                )
            &&& forall|p: Seq<u8>|
                m.dom().contains(p) && !is_extract_target(entries, dest, p) ==> #[trigger] m1[p]
                    == m[p]
        }),
    decreases entries.len(),
{
    reveal_with_fuel(file_run, 3);
    let m1 = file_run(m, extract_steps(entries, dest), dec);
    if entries.len() == 0 {
        assert(forall|p: Seq<u8>| !is_extract_target(entries, dest, p));
    } else {
        let init = entries.drop_last();
        let e = entries.last();
        lemma_extract_writes(m, init, dest, dec);
        let mprev = file_run(m, extract_steps(init, dest), dec);
        let tail: Seq<FsStep> = entry_step(e, dest);
        lemma_file_run_app(m, extract_steps(init, dest), tail, dec);
        assert forall|p: Seq<u8>|
            is_extract_target(init, dest, p) implies is_extract_target(entries, dest, p) by {
            let i = choose|i: int|
                0 <= i < init.len() && !is_dir_entry((#[trigger] init[i]).0) && p == join(
                    dest,
                    init[i].0,
                );
            assert(entries[i] == init[i]);
            assert(!is_dir_entry(entries[i].0) && p == join(dest, entries[i].0));
        }
        if is_dir_entry(e.0) {
            if e.0.len() > 0 {
                assert(tail.skip(1) =~= Seq::<FsStep>::empty());
            }
            assert(m1 == mprev);
            assert forall|p: Seq<u8>|
                is_extract_target(entries, dest, p) implies is_extract_target(init, dest, p) by {
                let i = choose|i: int|
                    0 <= i < entries.len() && !is_dir_entry((#[trigger] entries[i]).0) && p == join(
                        dest,
                        entries[i].0,
                    );
                assert(i < init.len() && init[i] == entries[i]);
            }
            assert forall|i: int|
                0 <= i < entries.len() && !is_dir_entry((#[trigger] entries[i]).0) implies m1.dom()
                .contains(join(dest, entries[i].0)) && m1[join(dest, entries[i].0)]
                == entries[i].1 by {
                assert(i < init.len());
                assert(init[i] == entries[i]);
            }
        } else {
            let target = join(dest, e.0);
            assert(tail.skip(1) =~= Seq::<FsStep>::empty());
            assert(m1 == mprev.insert(target, e.1));
            assert(is_extract_target(entries, dest, target)) by {
                assert(!is_dir_entry((entries[entries.len() - 1]).0) && target == join(
                    dest,
                    entries[entries.len() - 1].0,
                ));
            }
            assert forall|p: Seq<u8>|
                is_extract_target(entries, dest, p) && p != target implies is_extract_target(
                init,
                dest,
                p,
            ) by {
                let i = choose|i: int|
                    0 <= i < entries.len() && !is_dir_entry((#[trigger] entries[i]).0) && p == join(
                        dest,
                        entries[i].0,
                    );
                if i == entries.len() - 1 {
                    assert(false);
                } else {
                    assert(i < init.len() && init[i] == entries[i]);
                }
            }
            assert forall|i: int|
                0 <= i < entries.len() && !is_dir_entry((#[trigger] entries[i]).0) implies m1.dom()
                .contains(join(dest, entries[i].0)) && m1[join(dest, entries[i].0)]
                == entries[i].1 by {
                if i == entries.len() - 1 {
                } else {
                    assert(init[i] == entries[i]);
                    if join(dest, entries[i].0) == target {
                        lemma_join_injective(dest, entries[i].0, e.0);
                        assert(false);
                    }
                }
            }
        }
    }
}

/// The steps of one archive's full run through the pipeline: copy it into
/// the working directory, run the decryptor, write the container's file
/// entries at the archive's mirrored output path, and delete both
/// transients.
pub open spec fn pipeline_steps(
    archive: Seq<u8>,
    src_root: Seq<u8>,
    out_root: Seq<u8>,
    workdir: Seq<u8>,
    entries: Seq<(Seq<u8>, Seq<u8>)>,
) -> Seq<FsStep> {
    let copy_to = join(workdir, file_name_of(archive));
    prepare_steps(archive, copy_to) + extract_steps(
        entries,
        mirror_of(src_root, out_root, archive),
    ) + cleanup_steps(copy_to)
}

/// Pipeline law: when the decryptor writes beside its input a container
/// holding `entries`, one archive's run leaves the output tree holding
/// exactly the container's file entries at the archive's mirrored path,
/// leaves no working copy and no container behind, and leaves the source
/// archive and every other file as they were.
pub proof fn lemma_pipeline_exact(
    m0: Map<Seq<u8>, Seq<u8>>,
    archive: Seq<u8>,
    src_root: Seq<u8>,
    out_root: Seq<u8>,
    workdir: Seq<u8>,
    entries: Seq<(Seq<u8>, Seq<u8>)>,
    dec: spec_fn(Seq<u8>) -> Seq<u8>,
)
    requires
        m0.dom().contains(archive),
        is_under(archive, src_root),
        !is_under(archive, out_root),
        !is_under(join(workdir, file_name_of(archive)), out_root),
        !is_under(zip_name_of(join(workdir, file_name_of(archive))), out_root),
        join(workdir, file_name_of(archive)) != archive,
        zip_name_of(join(workdir, file_name_of(archive))) != archive,
        forall|i: int, j: int|
            0 <= i < j < entries.len() ==> (#[trigger] entries[i]).0 != (#[trigger] entries[j]).0,
    ensures
        ({
            let copy_to = join(workdir, file_name_of(archive));
            let dest = mirror_of(src_root, out_root, archive);
            let m1 = file_run(
                m0,
                pipeline_steps(archive, src_root, out_root, workdir, entries),
                dec,
            );
            &&& forall|i: int|
                0 <= i < entries.len() && !is_dir_entry((#[trigger] entries[i]).0)
                    ==> m1.dom().contains(join(dest, entries[i].0)) && m1[join(dest, entries[i].0)]
                    == entries[i].1
            &&& !m1.dom().contains(copy_to)
            &&& !m1.dom().contains(zip_name_of(copy_to))
            &&& m1.dom().contains(archive) && m1[archive] == m0[archive]
            &&& forall|p: Seq<u8>|
                #[trigger] m1.dom().contains(p) <==> ((m0.dom().contains(p) && p != copy_to && p
                    != zip_name_of(copy_to)) || is_extract_target(entries, dest, p))
            &&& forall|p: Seq<u8>|
                m0.dom().contains(p) && p != copy_to && p != zip_name_of(copy_to)
                    && !is_extract_target(entries, dest, p) ==> #[trigger] m1[p] == m0[p]
        }),
{
    reveal_with_fuel(file_run, 3);
    let copy_to = join(workdir, file_name_of(archive));
    let dest = mirror_of(src_root, out_root, archive);
    let a = prepare_steps(archive, copy_to);
    let b = extract_steps(entries, dest);
    let c = cleanup_steps(copy_to);
    let whole = pipeline_steps(archive, src_root, out_root, workdir, entries);
    assert(whole == (a + b) + c);
    lemma_file_run_app(m0, a + b, c, dec);
    lemma_file_run_app(m0, a, b, dec);
    let m_a = file_run(m0, a, dec);
    assert(a.skip(1) =~= seq![a[1]]);
    assert(seq![a[1]].skip(1) =~= Seq::<FsStep>::empty());
    assert(m_a == m0.insert(copy_to, m0[archive]).insert(zip_name_of(copy_to), dec(copy_to)));
    lemma_extract_writes(m_a, entries, dest, dec);
    let m_b = file_run(m_a, b, dec);
    let m_c = file_run(m_b, c, dec);
    assert(c.skip(1) =~= seq![c[1]]);
    assert(seq![c[1]].skip(1) =~= Seq::<FsStep>::empty());
    assert(m_c == m_b.remove(zip_name_of(copy_to)).remove(copy_to));
    assert(rel_of(archive, src_root).len() > 0);
    lemma_join_under(out_root, rel_of(archive, src_root));
    assert forall|p: Seq<u8>| is_extract_target(entries, dest, p) implies is_under(p, out_root)
        && p != copy_to && p != zip_name_of(copy_to) && p != archive by {
        let i = choose|i: int|
            0 <= i < entries.len() && !is_dir_entry((#[trigger] entries[i]).0) && p == join(
                dest,
                entries[i].0,
            );
        lemma_join_under_deep(dest, out_root, entries[i].0);
    }
    assert(!is_extract_target(entries, dest, copy_to));
    assert(!is_extract_target(entries, dest, zip_name_of(copy_to)));
    assert(!is_extract_target(entries, dest, archive));
    let m1 = file_run(m0, whole, dec);
    assert(m1 == m_c);
    assert forall|i: int|
        0 <= i < entries.len() && !is_dir_entry((#[trigger] entries[i]).0) implies m1.dom()
        .contains(join(dest, entries[i].0)) && m1[join(dest, entries[i].0)] == entries[i].1 by {
        let p = join(dest, entries[i].0);
        assert(is_extract_target(entries, dest, p)) by {
            assert(!is_dir_entry((entries[i]).0) && p == join(dest, entries[i].0));
        }
        assert(m_b.dom().contains(p) && m_b[p] == entries[i].1);
    }
}

/// Build the step that stores `text` as the result of `script`.
pub fn result_write_op(script: &Vec<u8>, text: &Vec<u8>) -> (r: FsOp)
    ensures
        r@ == (FsStep::WriteFile {
            path: crate::paths::result_path_of(script@),
            data: text@,
        }),
{
    FsOp::WriteFile { path: crate::paths::result_path(script), data: copy_bytes(text) }
}

} // verus!
