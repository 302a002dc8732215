//! Reading the compressed container a decrypted archive yields.
//!
//! The container format itself is read through the `zip` crate; the
//! declarations below give its reader a contract in terms of two names,
//! both purely byte-determined: [`container_entries_of`], the entry list
//! of a container, and [`entry_readable_of`], whether one entry reads
//! back cleanly.  Everything after the raw reads — collecting the
//! entries, refusing names that could leave the destination, and turning
//! the rest into steps — is verified.

use vstd::prelude::*;
use crate::plan::{entry_step, extract_steps, steps_of, FsOp};
use crate::paths::{copy_bytes, is_safe_entry_name, join_path, safe_entry_name};

verus! {

/// One entry of a container: its name as stored, and its decompressed
/// bytes (empty for an entry that stands for a directory).
#[derive(Clone, PartialEq, Eq, Debug)]
pub struct ZipEntry {
    pub name: Vec<u8>,
    pub data: Vec<u8>,
}

/// The (name, bytes) pairs of a list of entries, in order.
pub open spec fn entries_view(s: Seq<ZipEntry>) -> Seq<(Seq<u8>, Seq<u8>)> {
    s.map_values(|e: ZipEntry| (e.name@, e.data@))
}

/// Reading a container can fail on a malformed central directory or on a
/// corrupt entry; recreating one is refused when an entry's name could
/// leave the destination directory.
#[derive(Clone, Copy, PartialEq, Eq, Structural, Debug)]
pub enum UnpackError {
    BadContainer,
    BadEntry,
    UnsafeEntryName,
}

#[verifier::external_type_specification]
#[verifier::external_body]
#[verifier::reject_recursive_types(T)]
pub struct ExCursor<T>(std::io::Cursor<T>);

#[verifier::external_type_specification]
#[verifier::external_body]
#[verifier::reject_recursive_types(R)]
pub struct ExZipArchive<R>(zip::ZipArchive<R>);

/// The entry list of a container, as (raw name, decompressed bytes)
/// pairs in the order of the reader's name-keyed index — central
/// directory order, with duplicate stored names collapsed to one entry —
/// or nothing when the bytes do not parse as a container.
pub uninterp spec fn container_entries_of(bytes: Seq<u8>) -> Option<Seq<(Seq<u8>, Seq<u8>)>>;

/// Whether entry `i` of the container `bytes` reads back cleanly: its
/// local header, decompression and checksum all pass.  A function of the
/// bytes and the index alone.
pub uninterp spec fn entry_readable_of(bytes: Seq<u8>, i: int) -> bool;

/// What an open archive value holds.
pub uninterp spec fn archive_entries(a: zip::ZipArchive<std::io::Cursor<Vec<u8>>>) -> Seq<
    (Seq<u8>, Seq<u8>),
>;

/// Whether entry `i` of the open archive reads back cleanly.
pub uninterp spec fn entry_readable(a: zip::ZipArchive<std::io::Cursor<Vec<u8>>>, i: int) -> bool;

/// Relies on zip::ZipArchive::new: parsing an in-memory container's
/// central directory is a function of the bytes alone, and succeeds
/// exactly when the bytes parse as a container; what the open archive
/// then holds, and which of its entries read cleanly, are likewise fixed
/// by the bytes.
#[verifier::external_body]
fn open_container(bytes: &Vec<u8>) -> (r: Result<
    zip::ZipArchive<std::io::Cursor<Vec<u8>>>,
    UnpackError,
>)
    ensures
        r is Ok <==> container_entries_of(bytes@) is Some,
        r matches Ok(a) ==> container_entries_of(bytes@) == Some(archive_entries(a)),
        r matches Ok(a) ==> forall|i: int|
            #[trigger] entry_readable(a, i) == entry_readable_of(bytes@, i),
        r matches Err(e) ==> e == UnpackError::BadContainer,
{
    match zip::ZipArchive::new(std::io::Cursor::new(bytes.clone())) {
        Ok(a) => Ok(a),
        Err(_) => Err(UnpackError::BadContainer),
    }
}

/// Relies on zip::ZipArchive::len: the number of entries the reader's
/// index lists.
#[verifier::external_body]
fn container_len(a: &zip::ZipArchive<std::io::Cursor<Vec<u8>>>) -> (n: usize)
    ensures
        n == archive_entries(*a).len(),
{
    a.len()
}

/// Relies on zip::ZipArchive::by_index and std::io::Read::read_to_end:
/// entry `i`'s raw stored name and decompressed bytes.  Reading seeks the
/// underlying cursor but changes neither the archive's entry list nor
/// which entries are readable; it succeeds exactly when entry `i` reads
/// cleanly, and never hands back a wrong pair.
#[verifier::external_body]
fn read_entry(a: &mut zip::ZipArchive<std::io::Cursor<Vec<u8>>>, i: usize) -> (r: Result<
    ZipEntry,
    UnpackError,
>)
    requires
        i < archive_entries(*old(a)).len(),
    ensures
        archive_entries(*final(a)) == archive_entries(*old(a)),
        forall|j: int| #[trigger] entry_readable(*final(a), j) == entry_readable(*old(a), j),
        r is Ok <==> entry_readable(*old(a), i as int),
        r matches Ok(e) ==> (e.name@, e.data@) == archive_entries(*final(a))[i as int],
        r matches Err(e) ==> e == UnpackError::BadEntry,
{
    let mut f = match a.by_index(i) {
        Ok(f) => f,
        Err(_) => return Err(UnpackError::BadEntry),
    };
    let name = f.name_raw().to_vec();
    let mut data = Vec::new();
    if std::io::Read::read_to_end(&mut f, &mut data).is_err() {
        return Err(UnpackError::BadEntry);
    }
    Ok(ZipEntry { name, data })
}

/// Read every entry of the container `bytes`.  Succeeds, with exactly the
/// container's entry list, precisely when the bytes parse as a container
/// and every entry reads back cleanly; fails with `BadContainer` exactly
/// when the bytes do not parse, and with `BadEntry` when an entry does
/// not read.
pub fn unpack_container(bytes: &Vec<u8>) -> (r: Result<Vec<ZipEntry>, UnpackError>)
    ensures
        r is Ok <==> (container_entries_of(bytes@) matches Some(es) && forall|i: int|
            0 <= i < es.len() ==> #[trigger] entry_readable_of(bytes@, i)),
        r matches Ok(v) ==> container_entries_of(bytes@) == Some(entries_view(v@)),
        container_entries_of(bytes@) is None <==> r == Err::<Vec<ZipEntry>, UnpackError>(
            UnpackError::BadContainer,
        ),
{
    let mut a = match open_container(bytes) {
        Ok(a) => a,
        Err(e) => return Err(e),
    };
    let n = container_len(&a);
    let mut v: Vec<ZipEntry> = Vec::new();
    let mut i: usize = 0;
    proof {
        assert(entries_view(v@) =~= archive_entries(a).take(0));
    }
    while i < n
        invariant
            i <= n,
            n == archive_entries(a).len(),
            container_entries_of(bytes@) == Some(archive_entries(a)),
            forall|j: int| #[trigger] entry_readable(a, j) == entry_readable_of(bytes@, j),
            forall|j: int| 0 <= j < i ==> #[trigger] entry_readable_of(bytes@, j),
            entries_view(v@) == archive_entries(a).take(i as int),
        decreases n - i,
    {
        let e = match read_entry(&mut a, i) {
            Ok(e) => e,
            Err(e) => {
                proof {
                    assert(!entry_readable_of(bytes@, i as int));
                }
                return Err(e);
            },
        };
        proof {
            assert(entries_view(v@.push(e)) =~= entries_view(v@).push((e.name@, e.data@)));
            assert(archive_entries(a).take(i as int + 1) =~= archive_entries(a).take(
                i as int,
            ).push(archive_entries(a)[i as int]));
        }
        v.push(e);
        i = i + 1;
    }
    proof {
        assert(archive_entries(a).take(n as int) =~= archive_entries(a));
    }
    Ok(v)
}

/// Build the steps that recreate the container under `dest`: a directory
/// for each directory entry, a write for each file entry, in entry
/// order.  An entry whose name could leave `dest` — an absolute name, or
/// one with a `..` component, which the container format admits but the
/// extraction must refuse — gives an error and no plan at all.
pub fn extract_ops(entries: &Vec<ZipEntry>, dest: &Vec<u8>) -> (r: Result<Vec<FsOp>, UnpackError>)
    ensures
        r is Ok <==> (forall|i: int|
            0 <= i < entries@.len() ==> ((#[trigger] entries@[i]).name@.len() == 0
                || safe_entry_name(entries@[i].name@))),
        r matches Ok(v) ==> steps_of(v@) == extract_steps(entries_view(entries@), dest@),
        r matches Err(e) ==> e == UnpackError::UnsafeEntryName,
{
    let ghost es = entries_view(entries@);
    let mut r: Vec<FsOp> = Vec::new();
    let n = entries.len();
    let mut i: usize = 0;
    proof {
        assert(steps_of(r@) =~= extract_steps(es.take(0), dest@));
    }
    while i < n
        invariant
            i <= n,
            n == entries@.len(),
            es == entries_view(entries@),
            forall|t: int|
                0 <= t < i ==> ((#[trigger] entries@[t]).name@.len() == 0 || safe_entry_name(
                    entries@[t].name@,
                )),
            steps_of(r@) == extract_steps(es.take(i as int), dest@),
        decreases n - i,
    {
        proof {
            assert(es.take(i as int + 1).drop_last() =~= es.take(i as int));
            assert(es.take(i as int + 1).last() == (entries@[i as int].name@,
            entries@[i as int].data@));
        }
        let name_len = entries[i].name.len();
        if name_len > 0 {
            if !is_safe_entry_name(&entries[i].name) {
                return Err(UnpackError::UnsafeEntryName);
            }
            let last = entries[i].name[name_len - 1];
            let ghost old_steps = steps_of(r@);
            if last == 47u8 || last == 92u8 {
                let mut dir = copy_bytes(&entries[i].name);
                dir.pop();
                proof {
                    assert(dir@ =~= entries@[i as int].name@.take(
                        entries@[i as int].name@.len() - 1,
                    ));
                }
                let target = join_path(dest, &dir);
                r.push(FsOp::CreateDirAll { path: target });
            } else {
                let target = join_path(dest, &entries[i].name);
                r.push(FsOp::WriteFile { path: target, data: copy_bytes(&entries[i].data) });
            }
            proof {
                assert(steps_of(r@) =~= old_steps.push(r@.last()@));
                assert(old_steps.push(r@.last()@) =~= old_steps + entry_step(
                    es[i as int],
                    dest@,
                ));
            }
        }
        proof {
            assert(steps_of(r@) =~= extract_steps(es.take(i as int + 1), dest@));
        }
        i = i + 1;
    }
    proof {
        assert(es.take(n as int) =~= es);
    }
    Ok(r)
}

} // verus!
