//! What changed between the previous record and a new one.

use vstd::prelude::*;

use crate::item::{
    common_file_line, copy_dir, copy_file, dirs_text, dirs_view, empty_dir_line, files_text,
    files_view, push_dir_lines, push_file_lines, CommonFile, CommonFileView, EmptyDir,
};
use crate::item::is_well_formed_file;
use crate::result::last::{
    lemma_record_lines_read_back, lemma_record_text_is_lines, record_dirs, record_files, record_lines, LastResult,
};
use crate::result::new::NewResult;
use crate::seqs;

verus! {

/// Files and empty directories on one side of a change.
pub struct Items {
    pub common_files: Vec<CommonFile>,
    pub empty_dirs: Vec<EmptyDir>,
}

/// The entries that appeared and the entries that went away.
pub struct ChangedPart {
    pub added: Items,
    pub removed: Items,
}

/// The outcome of comparing two records.
pub enum DiffResult {
    Changed(ChangedPart),
    NoChange,
}

/// Two files are the same entry when their relative path and digest agree
/// (the modification time does not count).
pub open spec fn same_file(a: CommonFileView, b: CommonFileView) -> bool {
    a.relpath == b.relpath && a.md5 == b.md5
}

/// `files` holds an entry that is the same as `f`.
pub open spec fn has_file(files: Seq<CommonFileView>, f: CommonFileView) -> bool {
    exists|i: int| 0 <= i < files.len() && same_file(#[trigger] files[i], f)
}

/// The directories of the previous record that the new one still has.
pub open spec fn unchanged_dirs(last: Seq<Seq<char>>, new: Seq<Seq<char>>) -> Seq<Seq<char>> {
    last.filter(|d: Seq<char>| new.contains(d))
}

/// The directories of the previous record that the new one no longer has.
pub open spec fn removed_dirs(last: Seq<Seq<char>>, new: Seq<Seq<char>>) -> Seq<Seq<char>> {
    last.filter(|d: Seq<char>| !new.contains(d))
}

/// The directories of the new record that are not among the unchanged ones.
pub open spec fn added_dirs(last: Seq<Seq<char>>, new: Seq<Seq<char>>) -> Seq<Seq<char>> {
    new.filter(|d: Seq<char>| !unchanged_dirs(last, new).contains(d))
}

/// The files of the previous record that the new one still has.
pub open spec fn unchanged_files(last: Seq<CommonFileView>, new: Seq<CommonFileView>) -> Seq<
    CommonFileView,
> {
    last.filter(|f: CommonFileView| has_file(new, f))
}

/// The files of the previous record that the new one no longer has.
pub open spec fn removed_files(last: Seq<CommonFileView>, new: Seq<CommonFileView>) -> Seq<
    CommonFileView,
> {
    last.filter(|f: CommonFileView| !has_file(new, f))
}

/// The files of the new record that are not among the unchanged ones.
pub open spec fn added_files(last: Seq<CommonFileView>, new: Seq<CommonFileView>) -> Seq<
    CommonFileView,
> {
    new.filter(|f: CommonFileView| !has_file(unchanged_files(last, new), f))
}

/// Nothing was added and nothing removed.
pub open spec fn nothing_changed(
    last_files: Seq<CommonFileView>,
    last_dirs: Seq<Seq<char>>,
    new_files: Seq<CommonFileView>,
    new_dirs: Seq<Seq<char>>,
) -> bool {
    &&& added_files(last_files, new_files).len() == 0
    &&& added_dirs(last_dirs, new_dirs).len() == 0
    &&& removed_files(last_files, new_files).len() == 0
    &&& removed_dirs(last_dirs, new_dirs).len() == 0
}

/// Whether `dirs` holds a directory with this relative path.
fn has_dir_exec(dirs: &Vec<EmptyDir>, relpath: &String) -> (b: bool)
    ensures
        b == dirs_view(dirs@).contains(relpath@),
{
    let mut i: usize = 0;
    while i < dirs.len()
        invariant
            i <= dirs@.len(),
            forall|k: int| 0 <= k < i ==> dirs@[k]@ != relpath@,
        decreases dirs@.len() - i,
    {
        if dirs[i].relpath == *relpath {
            assert(dirs_view(dirs@)[i as int] == relpath@);
            return true;
        }
        i = i + 1;
    }
    assert(!dirs_view(dirs@).contains(relpath@)) by {
        if dirs_view(dirs@).contains(relpath@) {
            let k = choose|k: int| 0 <= k < dirs_view(dirs@).len() && dirs_view(dirs@)[k] == relpath@;
            assert(dirs@[k]@ == relpath@);
        }
    }
    false
}

/// Whether `files` holds the same entry as `f`.
fn has_file_exec(files: &Vec<CommonFile>, f: &CommonFile) -> (b: bool)
    ensures
        b == has_file(files_view(files@), f@),
{
    let mut i: usize = 0;
    while i < files.len()
        invariant
            i <= files@.len(),
            forall|k: int| 0 <= k < i ==> !same_file(#[trigger] files_view(files@)[k], f@),
        decreases files@.len() - i,
    {
        if files[i].relpath == f.relpath && files[i].md5 == f.md5 {
            assert(same_file(files_view(files@)[i as int], f@));
            return true;
        }
        assert(!same_file(files_view(files@)[i as int], f@));
        i = i + 1;
    }
    false
}

/// Splits `dirs` by whether `other` has them: those it has first, the rest second.
fn partition_dirs(dirs: &Vec<EmptyDir>, other: &Vec<EmptyDir>) -> (r: (Vec<EmptyDir>, Vec<EmptyDir>))
    ensures
        dirs_view(r.0@) == dirs_view(dirs@).filter(|d: Seq<char>| dirs_view(other@).contains(d)),
        dirs_view(r.1@) == dirs_view(dirs@).filter(|d: Seq<char>| !dirs_view(other@).contains(d)),
{
    let ghost all = dirs_view(dirs@);
    let ghost o = dirs_view(other@);
    let ghost inp = |d: Seq<char>| o.contains(d);
    let ghost outp = |d: Seq<char>| !o.contains(d);
    let mut kept: Vec<EmptyDir> = Vec::new();
    let mut dropped: Vec<EmptyDir> = Vec::new();
    let mut i: usize = 0;
    while i < dirs.len()
        invariant
            i <= dirs@.len(),
            all == dirs_view(dirs@),
            o == dirs_view(other@),
            inp == (|d: Seq<char>| o.contains(d)),
            outp == (|d: Seq<char>| !o.contains(d)),
            dirs_view(kept@) == all.take(i as int).filter(inp),
            dirs_view(dropped@) == all.take(i as int).filter(outp),
        decreases dirs@.len() - i,
    {
        let d = &dirs[i];
        let ghost x = d@;
        proof {
            assert(all.take(i + 1) =~= all.take(i as int).push(x));
            all.take(i as int).lemma_filter_push(x, inp);
            all.take(i as int).lemma_filter_push(x, outp);
        }
        let ghost prev_kept = kept@;
        let ghost prev_dropped = dropped@;
        if has_dir_exec(other, &d.relpath) {
            kept.push(copy_dir(d));
            assert(dirs_view(kept@) =~= dirs_view(prev_kept).push(x));
        } else {
            dropped.push(copy_dir(d));
            assert(dirs_view(dropped@) =~= dirs_view(prev_dropped).push(x));
        }
        i = i + 1;
    }
    assert(all.take(dirs@.len() as int) =~= all);
    (kept, dropped)
}

/// Splits `files` by whether `other` has the same entry: those it has
/// first, the rest second.
fn partition_files(files: &Vec<CommonFile>, other: &Vec<CommonFile>) -> (r: (
    Vec<CommonFile>,
    Vec<CommonFile>,
))
    ensures
        files_view(r.0@) == files_view(files@).filter(
            |f: CommonFileView| has_file(files_view(other@), f),
        ),
        files_view(r.1@) == files_view(files@).filter(
            |f: CommonFileView| !has_file(files_view(other@), f),
        ),
{
    let ghost all = files_view(files@);
    let ghost o = files_view(other@);
    let ghost inp = |f: CommonFileView| has_file(o, f);
    let ghost outp = |f: CommonFileView| !has_file(o, f);
    let mut kept: Vec<CommonFile> = Vec::new();
    let mut dropped: Vec<CommonFile> = Vec::new();
    let mut i: usize = 0;
    while i < files.len()
        invariant
            i <= files@.len(),
            all == files_view(files@),
            o == files_view(other@),
            inp == (|f: CommonFileView| has_file(o, f)),
            outp == (|f: CommonFileView| !has_file(o, f)),
            files_view(kept@) == all.take(i as int).filter(inp),
            files_view(dropped@) == all.take(i as int).filter(outp),
        decreases files@.len() - i,
    {
        let f = &files[i];
        let ghost x = f@;
        proof {
            assert(all.take(i + 1) =~= all.take(i as int).push(x));
            all.take(i as int).lemma_filter_push(x, inp);
            all.take(i as int).lemma_filter_push(x, outp);
        }
        let ghost prev_kept = kept@;
        let ghost prev_dropped = dropped@;
        if has_file_exec(other, f) {
            kept.push(copy_file(f));
            assert(files_view(kept@) =~= files_view(prev_kept).push(x));
        } else {
            dropped.push(copy_file(f));
            assert(files_view(dropped@) =~= files_view(prev_dropped).push(x));
        }
        i = i + 1;
    }
    assert(all.take(files@.len() as int) =~= all);
    (kept, dropped)
}

impl LastResult {
    /// Compares this record with a new one. A directory counts as the same
    /// when its relative path agrees; a file when its relative path and
    /// digest agree. Entries of this record that the new one lacks are
    /// removed; entries of the new record that are not among the kept ones
    /// are added. The answer is `NoChange` exactly when both lists are empty.
    pub fn diff(&self, new_result: &NewResult) -> (r: DiffResult)
        ensures
            ({
                let lf = files_view(self.common_files@);
                let ld = dirs_view(self.empty_dirs@);
                let nf = files_view(new_result.common_files@);
                let nd = dirs_view(new_result.empty_dirs@);
                match r {
                    DiffResult::NoChange => nothing_changed(lf, ld, nf, nd),
                    DiffResult::Changed(part) => {
                        &&& !nothing_changed(lf, ld, nf, nd)
                        &&& files_view(part.added.common_files@) == added_files(lf, nf)
                        &&& dirs_view(part.added.empty_dirs@) == added_dirs(ld, nd)
                        &&& files_view(part.removed.common_files@) == removed_files(lf, nf)
                        &&& dirs_view(part.removed.empty_dirs@) == removed_dirs(ld, nd)
                    },
                }
            }),
    {
        let (unchanged_dirs_v, removed_dirs_v) = partition_dirs(&self.empty_dirs, &new_result.empty_dirs);
        let (_, added_dirs_v) = partition_dirs(&new_result.empty_dirs, &unchanged_dirs_v);
        let (unchanged_files_v, removed_files_v) = partition_files(&self.common_files, &new_result.common_files);
        let (_, added_files_v) = partition_files(&new_result.common_files, &unchanged_files_v);
        if added_files_v.len() == 0 && added_dirs_v.len() == 0 && removed_files_v.len() == 0
            && removed_dirs_v.len() == 0 {
            DiffResult::NoChange
        } else {
            DiffResult::Changed(
                ChangedPart {
                    added: Items { common_files: added_files_v, empty_dirs: added_dirs_v },
                    removed: Items { common_files: removed_files_v, empty_dirs: removed_dirs_v },
                },
            )
        }
    }
}

/// The heading above the added entries.
pub open spec fn added_heading() -> Seq<char> {
    "\x1B[92;1mNewly Added:\x1B[0m\n"@
}

/// The heading above the removed entries.
pub open spec fn removed_heading() -> Seq<char> {
    "\x1B[96;1mRemoved:\x1B[0m\n"@
}

/// The report of a change: when anything was added, a heading and the
/// added directories then files; a blank line when both sides have
/// entries; when anything was removed, a heading and the removed
/// directories then files. Each entry is its record line and a newline.
pub open spec fn changed_part_text(
    added_files: Seq<CommonFileView>,
    added_dirs: Seq<Seq<char>>,
    removed_files: Seq<CommonFileView>,
    removed_dirs: Seq<Seq<char>>,
) -> Seq<char> {
    let is_added_empty = added_files.len() == 0 && added_dirs.len() == 0;
    let is_removed_empty = removed_files.len() == 0 && removed_dirs.len() == 0;
    (if !is_added_empty {
        added_heading()
    } else {
        Seq::empty()
    }) + dirs_text(added_dirs) + files_text(added_files) + (if !is_added_empty
        && !is_removed_empty {
        "\n"@
    } else {
        Seq::empty()
    }) + (if !is_removed_empty {
        removed_heading()
    } else {
        Seq::empty()
    }) + dirs_text(removed_dirs) + files_text(removed_files)
}

impl ChangedPart {
    /// The report of this change (see [`changed_part_text`]).
    pub fn to_string(&self) -> (text: String)
        ensures
            text@ == changed_part_text(
                files_view(self.added.common_files@),
                dirs_view(self.added.empty_dirs@),
                files_view(self.removed.common_files@),
                dirs_view(self.removed.empty_dirs@),
            ),
    {
        let mut content = String::new();
        let is_added_empty = self.added.common_files.len() == 0 && self.added.empty_dirs.len()
            == 0;
        let is_removed_empty = self.removed.common_files.len() == 0
            && self.removed.empty_dirs.len() == 0;
        let ghost s0 = content@;
        if !is_added_empty {
            content.append("\x1B[92;1mNewly Added:\x1B[0m\n");
        }
        let ghost s1 = content@;
        push_dir_lines(&mut content, &self.added.empty_dirs);
        push_file_lines(&mut content, &self.added.common_files);
        let ghost s2 = content@;
        if !is_added_empty && !is_removed_empty {
            content.append("\n");
        }
        let ghost s3 = content@;
        if !is_removed_empty {
            content.append("\x1B[96;1mRemoved:\x1B[0m\n");
        }
        push_dir_lines(&mut content, &self.removed.empty_dirs);
        push_file_lines(&mut content, &self.removed.common_files);
        assert(s0 =~= Seq::<char>::empty());
        assert(content@ =~= changed_part_text(
            files_view(self.added.common_files@),
            dirs_view(self.added.empty_dirs@),
            files_view(self.removed.common_files@),
            dirs_view(self.removed.empty_dirs@),
        ));
        content
    }
}

/// `part` stands in `text` as a run of consecutive characters.
pub open spec fn occurs_in(part: Seq<char>, text: Seq<char>) -> bool {
    exists|k: int|
        0 <= k && k + part.len() <= text.len() && #[trigger] text.subrange(k, k + part.len())
            == part
}

/// What stands in a text stands in any text around it.
proof fn lemma_occurs_in_wider(part: Seq<char>, text: Seq<char>, x: Seq<char>, y: Seq<char>)
    requires
        occurs_in(part, text),
    ensures
        occurs_in(part, x + text + y),
{
    let k = choose|k: int|
        0 <= k && k + part.len() <= text.len() && #[trigger] text.subrange(k, k + part.len())
            == part;
    let t = x + text + y;
    assert(t.subrange(x.len() + k, x.len() + k + part.len()) =~= part);
}

/// Each piece of a joined list stands in the joined text.
proof fn lemma_piece_occurs_in_flatten(s: Seq<Seq<char>>, i: int)
    requires
        0 <= i < s.len(),
    ensures
        occurs_in(s[i], s.flatten()),
{
    assert(s =~= s.take(i) + s.skip(i));
    vstd::seq_lib::lemma_flatten_concat(s.take(i), s.skip(i));
    let r = s.skip(i);
    assert(r.first() == s[i]);
    assert(r.flatten() == r.first() + r.drop_first().flatten());
    let x = s.take(i).flatten();
    let y = r.drop_first().flatten();
    assert(s[i].subrange(0int, 0int + s[i].len()) =~= s[i]);
    assert(occurs_in(s[i], s[i]));
    lemma_occurs_in_wider(s[i], s[i], x, y);
    assert(s.flatten() =~= x + s[i] + y);
}

/// The report lists every entry of both sides: the line of each added and
/// each removed directory and file, with its newline, stands in it, and the
/// text under each heading is exactly the lines of that side's directories
/// followed by the lines of its files.
pub proof fn lemma_report_lists_every_entry(
    added_files: Seq<CommonFileView>,
    added_dirs: Seq<Seq<char>>,
    removed_files: Seq<CommonFileView>,
    removed_dirs: Seq<Seq<char>>,
)
    ensures
        forall|i: int|
            0 <= i < added_dirs.len() ==> occurs_in(
                empty_dir_line(#[trigger] added_dirs[i]) + "\n"@,
                changed_part_text(added_files, added_dirs, removed_files, removed_dirs),
            ),
        forall|i: int|
            0 <= i < added_files.len() ==> occurs_in(
                common_file_line(#[trigger] added_files[i]) + "\n"@,
                changed_part_text(added_files, added_dirs, removed_files, removed_dirs),
            ),
        forall|i: int|
            0 <= i < removed_dirs.len() ==> occurs_in(
                empty_dir_line(#[trigger] removed_dirs[i]) + "\n"@,
                changed_part_text(added_files, added_dirs, removed_files, removed_dirs),
            ),
        forall|i: int|
            0 <= i < removed_files.len() ==> occurs_in(
                common_file_line(#[trigger] removed_files[i]) + "\n"@,
                changed_part_text(added_files, added_dirs, removed_files, removed_dirs),
            ),
        changed_part_text(added_files, added_dirs, removed_files, removed_dirs) == (if added_files.len()
            + added_dirs.len() > 0 {
            added_heading()
        } else {
            Seq::empty()
        }) + record_lines(added_files, added_dirs).map_values(|l: Seq<char>| l + "\n"@).flatten()
            + (if added_files.len() + added_dirs.len() > 0 && removed_files.len()
            + removed_dirs.len() > 0 {
            "\n"@
        } else {
            Seq::empty()
        }) + (if removed_files.len() + removed_dirs.len() > 0 {
            removed_heading()
        } else {
            Seq::empty()
        }) + record_lines(removed_files, removed_dirs).map_values(
            |l: Seq<char>| l + "\n"@,
        ).flatten(),
{
    let t = changed_part_text(added_files, added_dirs, removed_files, removed_dirs);
    let is_added_empty = added_files.len() == 0 && added_dirs.len() == 0;
    let is_removed_empty = removed_files.len() == 0 && removed_dirs.len() == 0;
    let a = if !is_added_empty {
        added_heading()
    } else {
        Seq::empty()
    };
    let sep = if !is_added_empty && !is_removed_empty {
        "\n"@
    } else {
        Seq::empty()
    };
    let h = if !is_removed_empty {
        removed_heading()
    } else {
        Seq::empty()
    };
    let ad = dirs_text(added_dirs);
    let af = files_text(added_files);
    let rd = dirs_text(removed_dirs);
    let rf = files_text(removed_files);
    assert(t == a + ad + af + sep + h + rd + rf);
    lemma_record_text_is_lines(added_files, added_dirs);
    lemma_record_text_is_lines(removed_files, removed_dirs);
    assert forall|i: int| 0 <= i < added_dirs.len() implies occurs_in(
        empty_dir_line(#[trigger] added_dirs[i]) + "\n"@,
        t,
    ) by {
        let s = added_dirs.map_values(|d: Seq<char>| empty_dir_line(d) + "\n"@);
        lemma_piece_occurs_in_flatten(s, i);
        lemma_occurs_in_wider(s[i], ad, a, af + sep + h + rd + rf);
        assert(t =~= a + ad + (af + sep + h + rd + rf));
    }
    assert forall|i: int| 0 <= i < added_files.len() implies occurs_in(
        common_file_line(#[trigger] added_files[i]) + "\n"@,
        t,
    ) by {
        let s = added_files.map_values(|f: CommonFileView| common_file_line(f) + "\n"@);
        lemma_piece_occurs_in_flatten(s, i);
        lemma_occurs_in_wider(s[i], af, a + ad, sep + h + rd + rf);
        assert(t =~= (a + ad) + af + (sep + h + rd + rf));
    }
    assert forall|i: int| 0 <= i < removed_dirs.len() implies occurs_in(
        empty_dir_line(#[trigger] removed_dirs[i]) + "\n"@,
        t,
    ) by {
        let s = removed_dirs.map_values(|d: Seq<char>| empty_dir_line(d) + "\n"@);
        lemma_piece_occurs_in_flatten(s, i);
        lemma_occurs_in_wider(s[i], rd, a + ad + af + sep + h, rf);
        assert(t =~= (a + ad + af + sep + h) + rd + rf);
    }
    assert forall|i: int| 0 <= i < removed_files.len() implies occurs_in(
        common_file_line(#[trigger] removed_files[i]) + "\n"@,
        t,
    ) by {
        let s = removed_files.map_values(|f: CommonFileView| common_file_line(f) + "\n"@);
        lemma_piece_occurs_in_flatten(s, i);
        lemma_occurs_in_wider(s[i], rf, a + ad + af + sep + h + rd, Seq::empty());
        assert(t =~= (a + ad + af + sep + h + rd) + rf + Seq::empty());
    }
    assert(t =~= a + (ad + af) + sep + h + (rd + rf));
}

/// A directory of the new record is reported as added exactly when the
/// previous record does not have it.
pub proof fn lemma_added_dirs_are_new_not_in_last(last: Seq<Seq<char>>, new: Seq<Seq<char>>)
    ensures
        added_dirs(last, new) == new.filter(|d: Seq<char>| !last.contains(d)),
{
    let unchanged = unchanged_dirs(last, new);
    let keep = |d: Seq<char>| new.contains(d);
    let p = |d: Seq<char>| !unchanged.contains(d);
    let q = |d: Seq<char>| !last.contains(d);
    assert forall|i: int| 0 <= i < new.len() implies p(#[trigger] new[i]) == q(new[i]) by {
        let d = new[i];
        assert(new.contains(d));
        seqs::lemma_filter_contains_iff(last, keep, d);
    }
    seqs::lemma_filter_congruent(new, p, q);
}

/// A file of the new record is reported as added exactly when the previous
/// record has no entry with the same path and digest.
pub proof fn lemma_added_files_are_new_not_in_last(
    last: Seq<CommonFileView>,
    new: Seq<CommonFileView>,
)
    ensures
        added_files(last, new) == new.filter(|f: CommonFileView| !has_file(last, f)),
{
    let unchanged = unchanged_files(last, new);
    let keep = |f: CommonFileView| has_file(new, f);
    let p = |f: CommonFileView| !has_file(unchanged, f);
    let q = |f: CommonFileView| !has_file(last, f);
    assert forall|i: int| 0 <= i < new.len() implies p(#[trigger] new[i]) == q(new[i]) by {
        let f = new[i];
        if has_file(unchanged, f) {
            let j = choose|j: int| 0 <= j < unchanged.len() && same_file(#[trigger] unchanged[j], f);
            assert(unchanged.contains(unchanged[j]));
            seqs::lemma_filter_contains_iff(last, keep, unchanged[j]);
            let k = choose|k: int| 0 <= k < last.len() && last[k] == unchanged[j];
            assert(same_file(last[k], f));
        }
        if has_file(last, f) {
            let k = choose|k: int| 0 <= k < last.len() && same_file(#[trigger] last[k], f);
            assert(same_file(new[i], last[k]));
            assert(keep(last[k]));
            assert(last.contains(last[k]));
            seqs::lemma_filter_contains_iff(last, keep, last[k]);
            let j = choose|j: int| 0 <= j < unchanged.len() && unchanged[j] == last[k];
            assert(same_file(unchanged[j], f));
        }
    }
    seqs::lemma_filter_congruent(new, p, q);
}

/// No change is reported exactly when each record has every directory of
/// the other, and an entry with the same path and digest for every file of
/// the other.
pub proof fn lemma_nothing_changed_iff_same_entries(
    last_files: Seq<CommonFileView>,
    last_dirs: Seq<Seq<char>>,
    new_files: Seq<CommonFileView>,
    new_dirs: Seq<Seq<char>>,
)
    ensures
        nothing_changed(last_files, last_dirs, new_files, new_dirs) <==> {
            &&& forall|i: int| 0 <= i < last_dirs.len() ==> new_dirs.contains(#[trigger] last_dirs[i])
            &&& forall|i: int| 0 <= i < new_dirs.len() ==> last_dirs.contains(#[trigger] new_dirs[i])
            &&& forall|i: int| 0 <= i < last_files.len() ==> has_file(new_files, #[trigger] last_files[i])
            &&& forall|i: int| 0 <= i < new_files.len() ==> has_file(last_files, #[trigger] new_files[i])
        },
{
    lemma_added_dirs_are_new_not_in_last(last_dirs, new_dirs);
    lemma_added_files_are_new_not_in_last(last_files, new_files);
    seqs::lemma_filter_empty_iff(last_dirs, |d: Seq<char>| !new_dirs.contains(d));
    seqs::lemma_filter_empty_iff(new_dirs, |d: Seq<char>| !last_dirs.contains(d));
    seqs::lemma_filter_empty_iff(last_files, |f: CommonFileView| !has_file(new_files, f));
    seqs::lemma_filter_empty_iff(new_files, |f: CommonFileView| !has_file(last_files, f));
}

/// Comparing a record with one that holds the same entries reports no change.
pub proof fn lemma_same_entries_nothing_changed(files: Seq<CommonFileView>, dirs: Seq<Seq<char>>)
    ensures
        nothing_changed(files, dirs, files, dirs),
{
    lemma_nothing_changed_iff_same_entries(files, dirs, files, dirs);
    assert forall|i: int| 0 <= i < dirs.len() implies dirs.contains(#[trigger] dirs[i]) by {}
    assert forall|i: int| 0 <= i < files.len() implies has_file(files, #[trigger] files[i]) by {
        assert(same_file(files[i], files[i]));
    }
}

/// No entry is both added and removed: no added directory is a removed one,
/// and no added file has the path and digest of a removed one.
pub proof fn lemma_added_and_removed_are_disjoint(
    last_files: Seq<CommonFileView>,
    last_dirs: Seq<Seq<char>>,
    new_files: Seq<CommonFileView>,
    new_dirs: Seq<Seq<char>>,
)
    ensures
        forall|d: Seq<char>|
            !(#[trigger] added_dirs(last_dirs, new_dirs).contains(d) && removed_dirs(
                last_dirs,
                new_dirs,
            ).contains(d)),
        forall|i: int, j: int|
            0 <= i < added_files(last_files, new_files).len() && 0 <= j < removed_files(
                last_files,
                new_files,
            ).len() ==> !same_file(
                #[trigger] added_files(last_files, new_files)[i],
                #[trigger] removed_files(last_files, new_files)[j],
            ),
{
    lemma_added_dirs_are_new_not_in_last(last_dirs, new_dirs);
    lemma_added_files_are_new_not_in_last(last_files, new_files);
    let pa = |d: Seq<char>| !last_dirs.contains(d);
    let pr = |d: Seq<char>| !new_dirs.contains(d);
    assert forall|d: Seq<char>|
        !(#[trigger] added_dirs(last_dirs, new_dirs).contains(d) && removed_dirs(
            last_dirs,
            new_dirs,
        ).contains(d)) by {
        seqs::lemma_filter_contains_iff(new_dirs, pa, d);
        seqs::lemma_filter_contains_iff(last_dirs, pr, d);
    }
    let fa = |f: CommonFileView| !has_file(last_files, f);
    let fr = |f: CommonFileView| !has_file(new_files, f);
    let added = added_files(last_files, new_files);
    let removed = removed_files(last_files, new_files);
    assert forall|i: int, j: int|
        0 <= i < added.len() && 0 <= j < removed.len() implies !same_file(
        #[trigger] added[i],
        #[trigger] removed[j],
    ) by {
        assert(added.contains(added[i]));
        assert(removed.contains(removed[j]));
        seqs::lemma_filter_contains_iff(new_files, fa, added[i]);
        seqs::lemma_filter_contains_iff(last_files, fr, removed[j]);
        if same_file(added[i], removed[j]) {
            let k = choose|k: int| 0 <= k < new_files.len() && new_files[k] == added[i];
            assert(same_file(new_files[k], removed[j]));
        }
    }
}

/// A record whose files have well-formed times and digests, written as
/// text and read back, compares with itself as unchanged: two runs with
/// nothing changed in between report no change.
pub proof fn lemma_written_record_compares_unchanged(files: Seq<CommonFileView>, dirs: Seq<Seq<char>>)
    requires
        forall|i: int| 0 <= i < files.len() ==> is_well_formed_file(#[trigger] files[i]),
    ensures
        nothing_changed(
            record_files(record_lines(files, dirs)),
            record_dirs(record_lines(files, dirs)),
            files,
            dirs,
        ),
{
    lemma_record_lines_read_back(files, dirs);
    lemma_same_entries_nothing_changed(files, dirs);
}

/// Two lists of files that agree, position by position, in path and digest
/// (their times may differ).
pub open spec fn same_entries_in_order(a: Seq<CommonFileView>, b: Seq<CommonFileView>) -> bool {
    a.len() == b.len() && forall|i: int| 0 <= i < a.len() ==> same_file(#[trigger] a[i], b[i])
}

/// Filtering lists that agree in path and digest, by predicates that agree
/// on corresponding files, gives lists that agree in path and digest.
proof fn lemma_filter_same_entries(
    a: Seq<CommonFileView>,
    b: Seq<CommonFileView>,
    p: spec_fn(CommonFileView) -> bool,
    q: spec_fn(CommonFileView) -> bool,
)
    requires
        same_entries_in_order(a, b),
        forall|i: int| 0 <= i < a.len() ==> p(#[trigger] a[i]) == q(b[i]),
    ensures
        same_entries_in_order(a.filter(p), b.filter(q)),
    decreases a.len(),
{
    if a.len() == 0 {
        reveal(Seq::filter);
    } else {
        let ai = a.drop_last();
        let bi = b.drop_last();
        assert forall|i: int| 0 <= i < ai.len() implies same_file(#[trigger] ai[i], bi[i]) && p(
            ai[i],
        ) == q(bi[i]) by {
            assert(ai[i] == a[i] && bi[i] == b[i]);
        }
        lemma_filter_same_entries(ai, bi, p, q);
        assert(a =~= ai.push(a.last()));
        assert(b =~= bi.push(b.last()));
        ai.lemma_filter_push(a.last(), p);
        bi.lemma_filter_push(b.last(), q);
        assert(p(a[a.len() - 1]) == q(b[a.len() - 1]));
        let fa = ai.filter(p);
        let fb = bi.filter(q);
        if p(a.last()) {
            assert forall|i: int| 0 <= i < fa.len() + 1 implies same_file(
                #[trigger] fa.push(a.last())[i],
                fb.push(b.last())[i],
            ) by {
                if i < fa.len() {
                    assert(fa.push(a.last())[i] == fa[i]);
                    assert(fb.push(b.last())[i] == fb[i]);
                } else {
                    assert(same_file(a[a.len() - 1], b[a.len() - 1]));
                }
            }
        }
    }
}

/// Whether a list has a file with some path and digest depends only on the
/// paths and digests of the list, and of the file.
proof fn lemma_has_file_same_entries(
    a: Seq<CommonFileView>,
    b: Seq<CommonFileView>,
    f: CommonFileView,
    g: CommonFileView,
)
    requires
        same_entries_in_order(a, b),
        same_file(f, g),
    ensures
        has_file(a, f) == has_file(b, g),
{
    if has_file(a, f) {
        let i = choose|i: int| 0 <= i < a.len() && same_file(#[trigger] a[i], f);
        assert(same_file(b[i], g));
    }
    if has_file(b, g) {
        let i = choose|i: int| 0 <= i < b.len() && same_file(#[trigger] b[i], g);
        assert(same_file(a[i], f));
    }
}

/// The times of the files never matter to the comparison: with lists that
/// agree in path and digest position by position, the outcome is the same,
/// and the lists of added and removed files agree in path and digest.
pub proof fn lemma_diff_ignores_times(
    last_files: Seq<CommonFileView>,
    last_files2: Seq<CommonFileView>,
    last_dirs: Seq<Seq<char>>,
    new_files: Seq<CommonFileView>,
    new_files2: Seq<CommonFileView>,
    new_dirs: Seq<Seq<char>>,
)
    requires
        same_entries_in_order(last_files, last_files2),
        same_entries_in_order(new_files, new_files2),
    ensures
        nothing_changed(last_files, last_dirs, new_files, new_dirs) == nothing_changed(
            last_files2,
            last_dirs,
            new_files2,
            new_dirs,
        ),
        same_entries_in_order(added_files(last_files, new_files), added_files(last_files2, new_files2)),
        same_entries_in_order(
            removed_files(last_files, new_files),
            removed_files(last_files2, new_files2),
        ),
{
    lemma_added_files_are_new_not_in_last(last_files, new_files);
    lemma_added_files_are_new_not_in_last(last_files2, new_files2);
    let pa = |f: CommonFileView| !has_file(last_files, f);
    let qa = |f: CommonFileView| !has_file(last_files2, f);
    assert forall|i: int| 0 <= i < new_files.len() implies pa(#[trigger] new_files[i]) == qa(
        new_files2[i],
    ) by {
        lemma_has_file_same_entries(last_files, last_files2, new_files[i], new_files2[i]);
    }
    lemma_filter_same_entries(new_files, new_files2, pa, qa);
    let pr = |f: CommonFileView| !has_file(new_files, f);
    let qr = |f: CommonFileView| !has_file(new_files2, f);
    assert forall|i: int| 0 <= i < last_files.len() implies pr(#[trigger] last_files[i]) == qr(
        last_files2[i],
    ) by {
        lemma_has_file_same_entries(new_files, new_files2, last_files[i], last_files2[i]);
    }
    lemma_filter_same_entries(last_files, last_files2, pr, qr);
}

/// The order of the entries never matters to the comparison: with lists
/// that hold the same entries, counted with multiplicity, the outcome is the
/// same, and each of the four lists holds the same entries.
pub proof fn lemma_diff_ignores_order(
    last_files: Seq<CommonFileView>,
    last_files2: Seq<CommonFileView>,
    last_dirs: Seq<Seq<char>>,
    last_dirs2: Seq<Seq<char>>,
    new_files: Seq<CommonFileView>,
    new_files2: Seq<CommonFileView>,
    new_dirs: Seq<Seq<char>>,
    new_dirs2: Seq<Seq<char>>,
)
    requires
        last_files.to_multiset() == last_files2.to_multiset(),
        last_dirs.to_multiset() == last_dirs2.to_multiset(),
        new_files.to_multiset() == new_files2.to_multiset(),
        new_dirs.to_multiset() == new_dirs2.to_multiset(),
    ensures
        nothing_changed(last_files, last_dirs, new_files, new_dirs) == nothing_changed(
            last_files2,
            last_dirs2,
            new_files2,
            new_dirs2,
        ),
        added_files(last_files, new_files).to_multiset() == added_files(
            last_files2,
            new_files2,
        ).to_multiset(),
        added_dirs(last_dirs, new_dirs).to_multiset() == added_dirs(
            last_dirs2,
            new_dirs2,
        ).to_multiset(),
        removed_files(last_files, new_files).to_multiset() == removed_files(
            last_files2,
            new_files2,
        ).to_multiset(),
        removed_dirs(last_dirs, new_dirs).to_multiset() == removed_dirs(
            last_dirs2,
            new_dirs2,
        ).to_multiset(),
{
    broadcast use vstd::seq_lib::group_to_multiset_ensures;

    lemma_added_files_are_new_not_in_last(last_files, new_files);
    lemma_added_files_are_new_not_in_last(last_files2, new_files2);
    lemma_added_dirs_are_new_not_in_last(last_dirs, new_dirs);
    lemma_added_dirs_are_new_not_in_last(last_dirs2, new_dirs2);
    // the predicates are the same functions for both pairs of lists
    assert forall|f: CommonFileView| has_file(last_files, f) == has_file(last_files2, f) by {
        lemma_has_file_permuted(last_files, last_files2, f);
    }
    assert forall|f: CommonFileView| has_file(new_files, f) == has_file(new_files2, f) by {
        lemma_has_file_permuted(new_files, new_files2, f);
    }
    assert forall|d: Seq<char>| last_dirs.contains(d) == last_dirs2.contains(d) by {
        seqs::lemma_multiset_contains(last_dirs, last_dirs2, d);
    }
    assert forall|d: Seq<char>| new_dirs.contains(d) == new_dirs2.contains(d) by {
        seqs::lemma_multiset_contains(new_dirs, new_dirs2, d);
    }
    let pa = |f: CommonFileView| !has_file(last_files, f);
    assert(pa =~= (|f: CommonFileView| !has_file(last_files2, f)));
    let pr = |f: CommonFileView| !has_file(new_files, f);
    assert(pr =~= (|f: CommonFileView| !has_file(new_files2, f)));
    let da = |d: Seq<char>| !last_dirs.contains(d);
    assert(da =~= (|d: Seq<char>| !last_dirs2.contains(d)));
    let dr = |d: Seq<char>| !new_dirs.contains(d);
    assert(dr =~= (|d: Seq<char>| !new_dirs2.contains(d)));
    seqs::lemma_filter_multiset(new_files, new_files2, pa);
    seqs::lemma_filter_multiset(last_files, last_files2, pr);
    seqs::lemma_filter_multiset(new_dirs, new_dirs2, da);
    seqs::lemma_filter_multiset(last_dirs, last_dirs2, dr);
    vstd::seq_lib::to_multiset_len(added_files(last_files, new_files));
    vstd::seq_lib::to_multiset_len(added_files(last_files2, new_files2));
    vstd::seq_lib::to_multiset_len(added_dirs(last_dirs, new_dirs));
    vstd::seq_lib::to_multiset_len(added_dirs(last_dirs2, new_dirs2));
    vstd::seq_lib::to_multiset_len(removed_files(last_files, new_files));
    vstd::seq_lib::to_multiset_len(removed_files(last_files2, new_files2));
    vstd::seq_lib::to_multiset_len(removed_dirs(last_dirs, new_dirs));
    vstd::seq_lib::to_multiset_len(removed_dirs(last_dirs2, new_dirs2));
}

/// Lists with the same entries, counted with multiplicity, have an entry
/// with the same path and digest as a file in the same cases.
proof fn lemma_has_file_permuted(a: Seq<CommonFileView>, b: Seq<CommonFileView>, f: CommonFileView)
    requires
        a.to_multiset() == b.to_multiset(),
    ensures
        has_file(a, f) == has_file(b, f),
{
    if has_file(a, f) {
        let i = choose|i: int| 0 <= i < a.len() && same_file(#[trigger] a[i], f);
        assert(a.contains(a[i]));
        seqs::lemma_multiset_contains(a, b, a[i]);
        let j = choose|j: int| 0 <= j < b.len() && b[j] == a[i];
        assert(same_file(b[j], f));
    }
    if has_file(b, f) {
        let i = choose|i: int| 0 <= i < b.len() && same_file(#[trigger] b[i], f);
        assert(b.contains(b[i]));
        seqs::lemma_multiset_contains(a, b, b[i]);
        let j = choose|j: int| 0 <= j < a.len() && a[j] == b[i];
        assert(same_file(a[j], f));
    }
}

} // verus!
