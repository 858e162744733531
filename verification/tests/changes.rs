use spydir::item::{CommonFile, EmptyDir};
use spydir::result::diff::DiffResult;
use spydir::result::last::LastResult;
use spydir::result::new::NewResult;

const MARKER: &str = "               empty_directory                ";

fn file(md5: &str, mtime: &str, relpath: &str) -> CommonFile {
    CommonFile { md5: md5.to_string(), mtime: mtime.to_string(), relpath: relpath.to_string() }
}

fn dir(relpath: &str) -> EmptyDir {
    EmptyDir { relpath: relpath.to_string() }
}

const A: &str = "0123456789abcdef0123456789abcdef";
const B: &str = "fedcba9876543210fedcba9876543210";

fn last() -> LastResult {
    LastResult {
        common_files: vec![file(A, "250101000000", "./a"), file(B, "250101000000", "./b")],
        empty_dirs: vec![dir("./e")],
    }
}

#[test]
fn same_entries_no_change() {
    let new = NewResult {
        common_files: vec![file(A, "250101000000", "./a"), file(B, "250101000000", "./b")],
        empty_dirs: vec![dir("./e")],
    };
    assert!(matches!(last().diff(&new), DiffResult::NoChange));
}

#[test]
fn changed_time_alone_is_no_change() {
    let new = NewResult {
        common_files: vec![file(A, "250202000000", "./a"), file(B, "250303000000", "./b")],
        empty_dirs: vec![dir("./e")],
    };
    assert!(matches!(last().diff(&new), DiffResult::NoChange));
}

#[test]
fn changed_digest_is_removed_and_added() {
    let new = NewResult {
        common_files: vec![file(B, "250102000000", "./a"), file(B, "250101000000", "./b")],
        empty_dirs: vec![dir("./e")],
    };
    match last().diff(&new) {
        DiffResult::Changed(part) => {
            assert_eq!(part.added.common_files.len(), 1);
            assert_eq!(part.added.common_files[0].relpath, "./a");
            assert_eq!(part.added.common_files[0].md5, B);
            assert_eq!(part.removed.common_files.len(), 1);
            assert_eq!(part.removed.common_files[0].md5, A);
            assert!(part.added.empty_dirs.is_empty());
            assert!(part.removed.empty_dirs.is_empty());
            assert_eq!(
                part.to_string(),
                format!(
                    "\x1B[92;1mNewly Added:\x1B[0m\n250102000000 {} ./a\n\n\x1B[96;1mRemoved:\x1B[0m\n250101000000 {} ./a\n",
                    B, A
                )
            );
        }
        DiffResult::NoChange => panic!("a change was expected"),
    }
}

#[test]
fn added_and_removed_directories() {
    let new = NewResult {
        common_files: vec![file(A, "250101000000", "./a"), file(B, "250101000000", "./b")],
        empty_dirs: vec![dir("./f")],
    };
    match last().diff(&new) {
        DiffResult::Changed(part) => {
            assert_eq!(part.added.empty_dirs.len(), 1);
            assert_eq!(part.added.empty_dirs[0].relpath, "./f");
            assert_eq!(part.removed.empty_dirs.len(), 1);
            assert_eq!(part.removed.empty_dirs[0].relpath, "./e");
            assert_eq!(
                part.to_string(),
                format!(
                    "\x1B[92;1mNewly Added:\x1B[0m\n{m}./f\n\n\x1B[96;1mRemoved:\x1B[0m\n{m}./e\n",
                    m = MARKER
                )
            );
        }
        DiffResult::NoChange => panic!("a change was expected"),
    }
}

#[test]
fn only_added_has_no_removed_heading() {
    let new = NewResult {
        common_files: vec![
            file(A, "250101000000", "./a"),
            file(B, "250101000000", "./b"),
            file(A, "250105000000", "./c"),
        ],
        empty_dirs: vec![dir("./e")],
    };
    match last().diff(&new) {
        DiffResult::Changed(part) => {
            assert!(part.removed.common_files.is_empty());
            assert_eq!(
                part.to_string(),
                format!("\x1B[92;1mNewly Added:\x1B[0m\n250105000000 {} ./c\n", A)
            );
        }
        DiffResult::NoChange => panic!("a change was expected"),
    }
}

#[test]
fn only_removed_has_no_added_heading() {
    let new = NewResult { common_files: vec![file(A, "250101000000", "./a")], empty_dirs: vec![] };
    match last().diff(&new) {
        DiffResult::Changed(part) => {
            assert_eq!(
                part.to_string(),
                format!(
                    "\x1B[96;1mRemoved:\x1B[0m\n{}./e\n250101000000 {} ./b\n",
                    MARKER, B
                )
            );
        }
        DiffResult::NoChange => panic!("a change was expected"),
    }
}

#[test]
fn duplicate_new_entry_is_not_added() {
    // an entry of the new record that matches a kept one is not reported
    let new = NewResult {
        common_files: vec![
            file(A, "250101000000", "./a"),
            file(A, "250109000000", "./a"),
            file(B, "250101000000", "./b"),
        ],
        empty_dirs: vec![dir("./e"), dir("./e")],
    };
    assert!(matches!(last().diff(&new), DiffResult::NoChange));
}

#[test]
fn empty_records_no_change() {
    let l = LastResult { common_files: vec![], empty_dirs: vec![] };
    let n = NewResult { common_files: vec![], empty_dirs: vec![] };
    assert!(matches!(l.diff(&n), DiffResult::NoChange));
}

#[test]
fn order_of_entries_does_not_matter() {
    let permuted = LastResult {
        common_files: vec![file(B, "250101000000", "./b"), file(A, "250101000000", "./a")],
        empty_dirs: vec![dir("./e")],
    };
    let new = NewResult {
        common_files: vec![file(A, "250101000000", "./c"), file(B, "250101000000", "./b")],
        empty_dirs: vec![],
    };
    let new_permuted = NewResult {
        common_files: vec![file(B, "250101000000", "./b"), file(A, "250101000000", "./c")],
        empty_dirs: vec![],
    };
    let one = last().diff(&new);
    let two = permuted.diff(&new_permuted);
    match (one, two) {
        (DiffResult::Changed(p), DiffResult::Changed(q)) => {
            assert_eq!(p.to_string(), q.to_string());
        }
        _ => panic!("both comparisons should report a change"),
    }
}
