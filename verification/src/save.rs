//! Save slots on the writable filesystem: slot names, slot paths and what each
//! storage request comes to once the filesystem has answered.
//!
//! Files live at `<base_dir>/<slot>.sav`. Slot names that could lead out of the
//! base directory are refused, and nothing is asked of the filesystem while
//! the storage is unavailable.

use crate::strings::{chars_of, push_text};
use vstd::prelude::*;

verus! {

/// The base directory where no other is chosen.
pub const DEFAULT_BASE_DIR: &'static str = "fat:/bevy-ds/";

/// Could the writable filesystem be mounted and the base directory be made?
#[derive(Debug, Clone, Copy, PartialEq, Eq, Structural)]
pub enum StorageStatus {
    /// No filesystem, or no base directory: every request fails.
    Unavailable,
    /// Requests can be attempted.
    Ready,
}

impl StorageStatus {
    /// Can requests be attempted?
    pub fn is_ready(self) -> (r: bool)
        ensures
            r == (self == StorageStatus::Ready),
    {
        matches!(self, StorageStatus::Ready)
    }
}

/// A name that stays inside the base directory and survives as a C string.
pub open spec fn valid_slot(slot: Seq<char>) -> bool {
    &&& slot.len() > 0
    &&& slot != seq!['.']
    &&& slot != seq!['.', '.']
    &&& forall|i: int|
        0 <= i < slot.len() ==> (#[trigger] slot[i]) != '/' && slot[i] != '\\' && slot[i] != '\0'
}

/// `dir` with exactly what it takes to end in a separator.
pub open spec fn as_dir(dir: Seq<char>) -> Seq<char> {
    if dir.len() > 0 && dir.last() == '/' {
        dir
    } else {
        dir.push('/')
    }
}

/// Where a slot's file stands; none for a name that is refused.
pub open spec fn path_of_slot(base_dir: Seq<char>, slot: Seq<char>) -> Option<Seq<char>> {
    if valid_slot(slot) {
        Some(as_dir(base_dir) + slot + ".sav"@)
    } else {
        None
    }
}

/// Refuse empty names, `.` and `..`, and names with a separator or a NUL.
pub fn is_valid_slot(slot: &str) -> (r: bool)
    ensures
        r == valid_slot(slot@),
{
    let v: Vec<char> = chars_of(slot);
    if v.len() == 0 {
        return false;
    }
    if v.len() == 1 && v[0] == '.' {
        assert(slot@ =~= seq!['.']);
        return false;
    }
    if v.len() == 2 && v[0] == '.' && v[1] == '.' {
        assert(slot@ =~= seq!['.', '.']);
        return false;
    }
    let mut i: usize = 0;
    while i < v.len()
        invariant
            i <= v.len(),
            v@ == slot@,
            forall|k: int|
                0 <= k < i ==> (#[trigger] slot@[k]) != '/' && slot@[k] != '\\' && slot@[k] != '\0',
        decreases v.len() - i,
    {
        if v[i] == '/' || v[i] == '\\' || v[i] == '\0' {
            assert(slot@[i as int] == v@[i as int]);
            return false;
        }
        i = i + 1;
    }
    proof {
        if slot@ == seq!['.'] {
            assert(v@.len() == 1 && v@[0] == '.');
        }
        if slot@ == seq!['.', '.'] {
            assert(v@.len() == 2 && v@[0] == '.' && v@[1] == '.');
        }
    }
    true
}

/// `<base_dir>/<slot>.sav`, or nothing where the name is refused.
pub fn slot_path(base_dir: &str, slot: &str) -> (r: Option<String>)
    ensures
        match r {
            Some(p) => path_of_slot(base_dir@, slot@) == Some(p@),
            None => path_of_slot(base_dir@, slot@) is None,
        },
{
    if !is_valid_slot(slot) {
        return None;
    }
    let mut out: String = String::new();
    push_text(&mut out, base_dir);
    assert(out@ =~= base_dir@);
    let v: Vec<char> = chars_of(base_dir);
    if v.len() == 0 || v[v.len() - 1] != '/' {
        out.push('/');
    }
    push_text(&mut out, slot);
    push_text(&mut out, ".sav");
    Some(out)
}

/// `dir` without the separators at its end.
pub open spec fn trimmed(dir: Seq<char>) -> Seq<char>
    decreases dir.len(),
{
    if dir.len() > 0 && dir.last() == '/' {
        trimmed(dir.drop_last())
    } else {
        dir
    }
}

/// The base directory as `mkdir` wants it: without the separators at its end.
pub fn mount_dir(base_dir: &str) -> (r: String)
    ensures
        r@ == trimmed(base_dir@),
{
    let v: Vec<char> = chars_of(base_dir);
    let mut n: usize = v.len();
    assert(v@.take(n as int) =~= v@);
    while n > 0 && v[n - 1] == '/'
        invariant
            n <= v.len(),
            trimmed(v@.take(n as int)) == trimmed(v@),
        decreases n,
    {
        assert(v@.take(n as int).drop_last() =~= v@.take(n - 1));
        n = n - 1;
    }
    let mut out: String = String::new();
    let mut i: usize = 0;
    assert(out@ =~= v@.take(0));
    while i < n
        invariant
            i <= n <= v.len(),
            out@ == v@.take(i as int),
        decreases n - i,
    {
        out.push(v[i]);
        assert(v@.take(i + 1) =~= v@.take(i as int).push(v@[i as int]));
        i = i + 1;
    }
    out
}

/// What the start-up steps come to. The filesystem has to mount; the directory
/// has to have been made, or to be there already.
pub fn status_after_mount(mounted: bool, made: bool, present: bool) -> (r: StorageStatus)
    ensures
        r == if mounted && (made || present) {
            StorageStatus::Ready
        } else {
            StorageStatus::Unavailable
        },
{
    if mounted && (made || present) {
        StorageStatus::Ready
    } else {
        StorageStatus::Unavailable
    }
}

/// What a file read comes to: the bytes, if the file told its length, all of it
/// was read and it closed cleanly.
pub fn read_result(length: Option<usize>, bytes: Vec<u8>, closed: bool) -> (r: Option<Vec<u8>>)
    ensures
        r == if length == Some(bytes@.len() as usize) && closed {
            Some(bytes)
        } else {
            None::<Vec<u8>>
        },
{
    match length {
        Some(n) => if n == bytes.len() && closed {
            Some(bytes)
        } else {
            None
        },
        None => None,
    }
}

/// What a file write comes to: all of it was written and it closed cleanly.
pub fn write_result(length: usize, written: usize, closed: bool) -> (r: bool)
    ensures
        r == (written == length && closed),
{
    written == length && closed
}

/// What a removal comes to: the file was removed, or is not there anyway.
pub fn delete_result(removed: bool, present: bool) -> (r: bool)
    ensures
        r == (removed || !present),
{
    removed || !present
}

/// Save slots below one directory.
#[derive(Debug, Clone)]
pub struct SaveStorage {
    pub base_dir: String,
    pub status: StorageStatus,
}

impl SaveStorage {
    /// The file a request for `slot` goes to; none where the storage is
    /// unavailable or the name is refused.
    pub open spec fn file_of(self, slot: Seq<char>) -> Option<Seq<char>> {
        if self.status == StorageStatus::Ready {
            path_of_slot(self.base_dir@, slot)
        } else {
            None
        }
    }

    /// Storage below `base_dir`, or below the default directory.
    pub fn new(base_dir: Option<String>, status: StorageStatus) -> (r: SaveStorage)
        ensures
            r.status == status,
            r.base_dir@ == match base_dir {
                Some(d) => d@,
                None => DEFAULT_BASE_DIR@,
            },
    {
        match base_dir {
            Some(d) => SaveStorage { base_dir: d, status },
            None => {
                let mut d: String = String::new();
                push_text(&mut d, DEFAULT_BASE_DIR);
                assert(d@ =~= DEFAULT_BASE_DIR@);
                SaveStorage { base_dir: d, status }
            },
        }
    }

    /// Was the storage mounted?
    pub fn status(&self) -> (r: StorageStatus)
        ensures
            r == self.status,
    {
        self.status
    }

    /// The slot's path, whether the storage is there or not.
    pub fn path_for(&self, slot: &str) -> (r: Option<String>)
        ensures
            match r {
                Some(p) => path_of_slot(self.base_dir@, slot@) == Some(p@),
                None => path_of_slot(self.base_dir@, slot@) is None,
            },
    {
        slot_path(&self.base_dir, slot)
    }

    /// The file a request for `slot` goes to. Where there is none a read gives
    /// nothing, and a write, a look or a removal gives `false`.
    pub fn target(&self, slot: &str) -> (r: Option<String>)
        ensures
            match r {
                Some(p) => self.file_of(slot@) == Some(p@),
                None => self.file_of(slot@) is None,
            },
    {
        if !self.status.is_ready() {
            return None;
        }
        self.path_for(slot)
    }
}

/// Every request goes to a file directly in the base directory: behind the
/// directory's separator no other separator follows.
pub proof fn law_slots_stay_in_their_directory(base_dir: Seq<char>, slot: Seq<char>)
    requires
        path_of_slot(base_dir, slot) is Some,
    ensures
        as_dir(base_dir).is_prefix_of(path_of_slot(base_dir, slot)->0),
        as_dir(base_dir).last() == '/',
        forall|i: int|
            as_dir(base_dir).len() <= i < (path_of_slot(base_dir, slot)->0).len()
                ==> (#[trigger] (path_of_slot(base_dir, slot)->0)[i]) != '/'
                && (path_of_slot(base_dir, slot)->0)[i] != '\\'
                && (path_of_slot(base_dir, slot)->0)[i] != '\0',
{
    reveal_strlit(".sav");
    let dir = as_dir(base_dir);
    let path = path_of_slot(base_dir, slot)->0;
    assert(path.take(dir.len() as int) =~= dir);
    assert forall|i: int| dir.len() <= i < path.len() implies (#[trigger] path[i]) != '/' && path[i]
        != '\\' && path[i] != '\0' by {
        if i < dir.len() + slot.len() {
            assert(path[i] == slot[i - dir.len()]);
        } else {
            assert(path[i] == ".sav"@[i - dir.len() - slot.len()]);
        }
    }
}

/// Two slots never share a file.
pub proof fn law_slots_have_files_of_their_own(base_dir: Seq<char>, a: Seq<char>, b: Seq<char>)
    requires
        path_of_slot(base_dir, a) is Some,
        path_of_slot(base_dir, a) == path_of_slot(base_dir, b),
    ensures
        a == b,
{
    let dir = as_dir(base_dir);
    let p = dir + a + ".sav"@;
    let q = dir + b + ".sav"@;
    assert(p == q);
    assert(p.len() == q.len());
    assert(p.subrange(dir.len() as int, (dir.len() + a.len()) as int) =~= a);
    assert(q.subrange(dir.len() as int, (dir.len() + b.len()) as int) =~= b);
}

} // verus!
