//! The rules of the scan: which entries are followed, which are recorded,
//! and which directories count as empty.

use vstd::prelude::*;

verus! {

/// What the scan does with a directory entry.
#[derive(PartialEq, Eq, Structural, Clone, Copy)]
pub enum EntryKind {
    /// A directory to look into.
    Directory,
    /// A file to record.
    File,
    /// Neither.
    Ignored,
}

/// The rule for an entry: a directory other than `.spydir` is looked into;
/// a file other than `.DS_Store` is recorded; nothing else is.
pub open spec fn entry_kind(is_dir: bool, is_file: bool, name: Seq<char>) -> EntryKind {
    if is_dir && name != ".spydir"@ {
        EntryKind::Directory
    } else if is_file && name != ".DS_Store"@ {
        EntryKind::File
    } else {
        EntryKind::Ignored
    }
}

/// Only a `.spydir` directory and a `.DS_Store` file are passed over: every
/// other directory is looked into and every other file that is not a
/// directory is recorded, whatever its name, hidden names included; an entry
/// that is neither a directory nor a file is passed over.
pub proof fn lemma_only_two_names_are_passed_over(is_file: bool, name: Seq<char>)
    ensures
        name != ".spydir"@ ==> entry_kind(true, is_file, name) == EntryKind::Directory,
        name != ".DS_Store"@ ==> entry_kind(false, true, name) == EntryKind::File,
        entry_kind(true, is_file, ".spydir"@) != EntryKind::Directory,
        entry_kind(true, false, ".spydir"@) == EntryKind::Ignored,
        entry_kind(false, true, ".DS_Store"@) == EntryKind::Ignored,
        entry_kind(false, false, name) == EntryKind::Ignored,
{
}

/// What the scan does with an entry of this type and name.
pub fn classify_entry(is_dir: bool, is_file: bool, name: &str) -> (kind: EntryKind)
    ensures
        kind == entry_kind(is_dir, is_file, name@),
{
    let name = name.to_owned();
    if is_dir && name != ".spydir".to_owned() {
        EntryKind::Directory
    } else if is_file && name != ".DS_Store".to_owned() {
        EntryKind::File
    } else {
        EntryKind::Ignored
    }
}

/// The rule for a directory: it counts as empty when it has no entry, when
/// its only entry is a `.DS_Store` file or a `.spydir` directory, or when its
/// two entries are exactly those.
pub open spec fn counts_as_empty(entry_count: nat, has_ds_store_file: bool, has_spydir_dir: bool) -> bool {
    ||| entry_count == 0
    ||| entry_count == 1 && (has_ds_store_file || has_spydir_dir)
    ||| entry_count == 2 && has_ds_store_file && has_spydir_dir
}

/// Whether a directory with these entries counts as empty (see
/// [`counts_as_empty`]); one that does not is looked into.
pub fn dir_counts_as_empty(entry_count: usize, has_ds_store_file: bool, has_spydir_dir: bool) -> (b: bool)
    ensures
        b == counts_as_empty(entry_count as nat, has_ds_store_file, has_spydir_dir),
{
    match entry_count {
        0 => true,
        1 => has_ds_store_file || has_spydir_dir,
        2 => has_ds_store_file && has_spydir_dir,
        _ => false,
    }
}

/// A directory counts as empty exactly when every entry in it is a
/// `.DS_Store` file or a `.spydir` directory: when its entries number no
/// more than those of these two that it has.
pub proof fn lemma_empty_when_only_passed_over_entries(
    entry_count: nat,
    has_ds_store_file: bool,
    has_spydir_dir: bool,
)
    requires
        entry_count >= (if has_ds_store_file { 1nat } else { 0nat }) + (if has_spydir_dir {
            1nat
        } else {
            0nat
        }),
    ensures
        counts_as_empty(entry_count, has_ds_store_file, has_spydir_dir) <==> entry_count == (
        if has_ds_store_file {
            1nat
        } else {
            0nat
        }) + (if has_spydir_dir {
            1nat
        } else {
            0nat
        }),
{
}

} // verus!
