//! What the recursive digest of a dependency asks about each filesystem
//! entry that it visits: the two bytes of permission state that go into the
//! digest with the entry, and whether the entry is to be left out.
//!
//! A path is held as the list of its components, each component as its
//! bytes, so that two paths are the same exactly when their lists are.

use crate::order::chunks_of;
use vstd::prelude::*;

verus! {

/// The permission state of an entry on a system with POSIX permissions: the
/// low nine bits of its mode (`rwxrwxrwx`), file type and special bits
/// dropped.
pub fn metadata_to_u16(mode: u32) -> (bits: u16)
    ensures
        bits == mode % 512,
{
    assert(mode & 0x1ff == mode % 512) by (bit_vector);
    (mode & 0x1ff) as u16
}

/// The permission state that stands for an entry on a system without POSIX
/// permissions, in octal: `444` for a file and `555` for a directory, and
/// `666` and `777` for a read-only file and a read-only directory.
pub open spec fn surrogate_mode(readonly: bool, is_dir: bool) -> u16 {
    if !readonly && !is_dir {
        0o444
    } else if !readonly {
        0o555
    } else if !is_dir {
        0o666
    } else {
        0o777
    }
}

/// The permission state of an entry on a system without POSIX permissions,
/// from the two things such a system does tell.
pub fn surrogate_metadata_to_u16(readonly: bool, is_dir: bool) -> (bits: u16)
    ensures
        bits == surrogate_mode(readonly, is_dir),
        bits < 512,
{
    match (readonly, is_dir) {
        (false, false) => 0o444,
        (false, true) => 0o555,
        (true, false) => 0o666,
        (true, true) => 0o777,
    }
}

/// The two bytes that are hashed for a permission state: the state as a
/// 16-bit number, high byte first.
pub open spec fn permission_bytes_of(bits: u16) -> Seq<u8> {
    seq![(bits / 256) as u8, (bits % 256) as u8]
}

/// The two bytes that are hashed with an entry for its permission state.
pub fn permission_bytes(bits: u16) -> (bytes: [u8; 2])
    ensures
        bytes@ == permission_bytes_of(bits),
{
    assert(bits >> 8 == bits / 256 && bits & 0xff == bits % 256) by (bit_vector);
    assert(bits >> 8 < 256) by (bit_vector);
    let bytes = [(bits >> 8) as u8, (bits & 0xff) as u8];
    assert(bytes@ =~= permission_bytes_of(bits));
    bytes
}

/// Two permission states are hashed as the same bytes only if they are the
/// same state.
pub proof fn lemma_permission_bytes_differ(a: u16, b: u16)
    requires
        a != b,
    ensures
        permission_bytes_of(a) != permission_bytes_of(b),
{
    if permission_bytes_of(a) == permission_bytes_of(b) {
        assert(permission_bytes_of(a)[0] == permission_bytes_of(b)[0]);
        assert(permission_bytes_of(a)[1] == permission_bytes_of(b)[1]);
    }
}

/// Two modes whose permission bits differ are hashed as different bytes.
pub proof fn lemma_mode_change_changes_bytes(mode: u32, changed: u32)
    requires
        mode % 512 != changed % 512,
    ensures
        permission_bytes_of((mode % 512) as u16) != permission_bytes_of((changed % 512) as u16),
{
    lemma_permission_bytes_differ((mode % 512) as u16, (changed % 512) as u16);
}

/// `path` lies at or below `root`: its first components are those of `root`.
pub open spec fn is_under(path: Seq<Seq<u8>>, root: Seq<Seq<u8>>) -> bool {
    root.len() <= path.len() && path.take(root.len() as int) == root
}

/// The paths that a list of component lists holds.
pub open spec fn paths_of(paths: Seq<Vec<Vec<u8>>>) -> Seq<Seq<Seq<u8>>> {
    paths.map_values(|path: Vec<Vec<u8>>| chunks_of(path@))
}

/// Whether two byte vectors hold the same bytes.
fn same_bytes(a: &Vec<u8>, b: &Vec<u8>) -> (same: bool)
    ensures
        same == (a@ == b@),
{
    if a.len() != b.len() {
        return false;
    }
    let mut i: usize = 0;
    while i < a.len()
        invariant
            i <= a.len() == b.len(),
            a@.take(i as int) == b@.take(i as int),
        decreases a.len() - i,
    {
        if a[i] != b[i] {
            return false;
        }
        proof {
            assert(a@.take(i + 1) =~= a@.take(i as int).push(a@[i as int]));
            assert(b@.take(i + 1) =~= b@.take(i as int).push(b@[i as int]));
        }
        i += 1;
    }
    proof {
        assert(a@.take(i as int) =~= a@);
        assert(b@.take(i as int) =~= b@);
    }
    true
}

/// Whether two paths have the same components.
fn same_path(a: &Vec<Vec<u8>>, b: &Vec<Vec<u8>>) -> (same: bool)
    ensures
        same == (chunks_of(a@) == chunks_of(b@)),
{
    if a.len() != b.len() {
        proof {
            assert(chunks_of(a@).len() != chunks_of(b@).len());
        }
        return false;
    }
    let mut i: usize = 0;
    while i < a.len()
        invariant
            i <= a.len() == b.len(),
            chunks_of(a@).take(i as int) == chunks_of(b@).take(i as int),
        decreases a.len() - i,
    {
        if !same_bytes(&a[i], &b[i]) {
            proof {
                assert(chunks_of(a@)[i as int] != chunks_of(b@)[i as int]);
            }
            return false;
        }
        proof {
            let x = chunks_of(a@);
            let y = chunks_of(b@);
            assert(x.take(i + 1) =~= x.take(i as int).push(x[i as int]));
            assert(y.take(i + 1) =~= y.take(i as int).push(y[i as int]));
        }
        i += 1;
    }
    proof {
        assert(chunks_of(a@).take(i as int) =~= chunks_of(a@));
        assert(chunks_of(b@).take(i as int) =~= chunks_of(b@));
    }
    true
}

/// The path of an entry relative to the dependency it belongs to: what is
/// left of `path` after the components of `root`. There is none if `path`
/// does not lie at or below `root`.
pub fn relative_path(path: &Vec<Vec<u8>>, root: &Vec<Vec<u8>>) -> (relative: Option<
    Vec<Vec<u8>>,
>)
    ensures
        is_under(chunks_of(path@), chunks_of(root@)) ==> relative is Some && chunks_of(
            relative->Some_0@,
        ) == chunks_of(path@).skip(root@.len() as int),
        !is_under(chunks_of(path@), chunks_of(root@)) ==> relative is None,
{
    let ghost whole = chunks_of(path@);
    let ghost base = chunks_of(root@);
    if root.len() > path.len() {
        return None;
    }
    let mut i: usize = 0;
    while i < root.len()
        invariant
            i <= root.len() <= path.len(),
            whole == chunks_of(path@),
            base == chunks_of(root@),
            whole.take(i as int) == base.take(i as int),
        decreases root.len() - i,
    {
        if !same_bytes(&path[i], &root[i]) {
            proof {
                assert(whole.take(root.len() as int)[i as int] != base[i as int]);
            }
            return None;
        }
        proof {
            assert(whole.take(i + 1) =~= whole.take(i as int).push(whole[i as int]));
            assert(base.take(i + 1) =~= base.take(i as int).push(base[i as int]));
        }
        i += 1;
    }
    proof {
        assert(base.take(i as int) =~= base);
    }
    let mut relative: Vec<Vec<u8>> = Vec::new();
    let mut j: usize = root.len();
    proof {
        assert(chunks_of(relative@) =~= whole.subrange(root.len() as int, j as int));
    }
    while j < path.len()
        invariant
            root.len() <= j <= path.len(),
            whole == chunks_of(path@),
            chunks_of(relative@) == whole.subrange(root.len() as int, j as int),
        decreases path.len() - j,
    {
        let ghost before = chunks_of(relative@);
        let component = path[j].clone();
        proof {
            assert(component@ =~= path@[j as int]@);
        }
        relative.push(component);
        proof {
            assert(chunks_of(relative@) =~= before.push(whole[j as int]));
            assert(whole.subrange(root.len() as int, j + 1) =~= whole.subrange(
                root.len() as int,
                j as int,
            ).push(whole[j as int]));
        }
        j += 1;
    }
    proof {
        assert(whole.subrange(root.len() as int, j as int) =~= whole.skip(root.len() as int));
    }
    Some(relative)
}

/// Whether an entry is to be left out of the digest of its dependency: its
/// path relative to the dependency is one of the ignored paths.
///
/// An entry that is left out takes everything below it along.
pub fn is_ignored(ignore: &Vec<Vec<Vec<u8>>>, relative: &Vec<Vec<u8>>) -> (ignored: bool)
    ensures
        ignored == paths_of(ignore@).contains(chunks_of(relative@)),
{
    let mut i: usize = 0;
    while i < ignore.len()
        invariant
            i <= ignore.len(),
            forall|k: int| 0 <= k < i ==> #[trigger] paths_of(ignore@)[k] != chunks_of(relative@),
        decreases ignore.len() - i,
    {
        if same_path(&ignore[i], relative) {
            proof {
                assert(paths_of(ignore@)[i as int] == chunks_of(relative@));
            }
            return true;
        }
        i += 1;
    }
    false
}

/// Whether the digest of the dependency at `root` takes in the entry at
/// `path`: it does unless the path of the entry relative to `root` is one
/// of the ignored paths. There is no answer for a path that does not lie at
/// or below `root`.
pub fn keeps_entry(ignore: &Vec<Vec<Vec<u8>>>, root: &Vec<Vec<u8>>, path: &Vec<Vec<u8>>) -> (keep:
    Option<bool>)
    ensures
        is_under(chunks_of(path@), chunks_of(root@)) ==> keep == Some(
            !paths_of(ignore@).contains(chunks_of(path@).skip(root@.len() as int)),
        ),
        !is_under(chunks_of(path@), chunks_of(root@)) ==> keep is None,
{
    match relative_path(path, root) {
        Some(relative) => Some(!is_ignored(ignore, &relative)),
        None => None,
    }
}

} // verus!
