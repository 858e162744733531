use spydir::cli::{normalize_path, parse_path};
use spydir::item::{CommonFile, EmptyDir};
use spydir::result::last::LastResult;
use spydir::result::new::{
    finish_new_result, md5_hex, mtime_stamp, new_result_file_name, plan_new_result,
    relative_path_of, to_hex_lower, CommonFileIntermediate, ScannedFile,
};
use spydir::walk::{classify_entry, dir_counts_as_empty, EntryKind};

fn file(md5: &str, mtime: &str, relpath: &str) -> CommonFile {
    CommonFile { md5: md5.to_string(), mtime: mtime.to_string(), relpath: relpath.to_string() }
}

#[test]
fn md5_of_known_inputs() {
    assert_eq!(md5_hex(b"hello world"), "5eb63bbbe01eeed093cb22bb8f5acdc3");
    assert_eq!(md5_hex(b""), "d41d8cd98f00b204e9800998ecf8427e");
    assert_eq!(md5_hex(b"abc"), "900150983cd24fb0d6963f7d28e17f72");
}

#[test]
fn hex_is_two_lower_case_digits_per_byte() {
    assert_eq!(to_hex_lower(&[0x00, 0x0f, 0xa0, 0xff]), "000fa0ff");
    assert_eq!(to_hex_lower(&[]), "");
}

#[test]
fn digest_is_computed_from_contents() {
    let i = CommonFileIntermediate { mtime: "250101000000".to_string(), relpath: "./a".to_string(), id: 3 };
    let f = i.into_common_file(b"hello world");
    assert_eq!(f.md5, "5eb63bbbe01eeed093cb22bb8f5acdc3");
    assert_eq!(f.mtime, "250101000000");
    assert_eq!(f.relpath, "./a");
}

#[test]
fn relative_paths() {
    assert_eq!(relative_path_of("/home/u/w/a.txt", "/home/u/w"), Some("./a.txt".to_string()));
    assert_eq!(relative_path_of("/home/u/w", "/home/u/w"), Some(".".to_string()));
    assert_eq!(relative_path_of("/a", "/home/u/w"), None);
    // a cut inside a character gives nothing
    assert_eq!(relative_path_of("/é", "/x"), None);
    assert_eq!(relative_path_of("/ab/é", "/ab"), Some("./é".to_string()));
}

#[test]
fn plan_reuses_digests_of_unchanged_files() {
    let last = LastResult {
        common_files: vec![
            file("0123456789abcdef0123456789abcdef", "250101000000", "./a"),
            file("fedcba9876543210fedcba9876543210", "250101000000", "./b"),
        ],
        empty_dirs: vec![],
    };
    let files = vec![
        ScannedFile { path: "/w/a".to_string(), mtime: Some("250101000000".to_string()), id: 0 },
        ScannedFile { path: "/w/b".to_string(), mtime: Some("250202000000".to_string()), id: 1 },
        ScannedFile { path: "/w/c".to_string(), mtime: None, id: 2 },
        ScannedFile { path: "/w/d".to_string(), mtime: Some("250303000000".to_string()), id: 3 },
    ];
    let dirs = vec!["/w/e".to_string()];
    let plan = plan_new_result("/w", &dirs, &files, Some(&last));
    assert_eq!(plan.empty_dirs.len(), 1);
    assert_eq!(plan.empty_dirs[0].relpath, "./e");
    assert_eq!(plan.reused.len(), 1);
    assert_eq!(plan.reused[0].relpath, "./a");
    assert_eq!(plan.reused[0].md5, "0123456789abcdef0123456789abcdef");
    let ids: Vec<usize> = plan.to_hash.iter().map(|i| i.id).collect();
    assert_eq!(ids, vec![1, 3]);
    assert_eq!(plan.to_hash[0].relpath, "./b");
    assert_eq!(plan.to_hash[0].mtime, "250202000000");

    let full = plan_new_result("/w", &dirs, &files, None);
    assert!(full.reused.is_empty());
    assert_eq!(full.to_hash.len(), 3);
}

#[test]
fn new_record_is_sorted_by_path() {
    let reused = vec![file("0123456789abcdef0123456789abcdef", "250101000000", "./c")];
    let hashed = vec![
        file("fedcba9876543210fedcba9876543210", "250101000000", "./b"),
        file("fedcba9876543210fedcba9876543210", "250101000000", "./a/z"),
        file("fedcba9876543210fedcba9876543210", "250101000000", "./B"),
    ];
    let dirs = vec![EmptyDir { relpath: "./y".to_string() }, EmptyDir { relpath: "./x".to_string() }];
    let nr = finish_new_result(reused, hashed, dirs);
    let paths: Vec<&str> = nr.common_files.iter().map(|f| f.relpath.as_str()).collect();
    assert_eq!(paths, vec!["./B", "./a/z", "./b", "./c"]);
    let dpaths: Vec<&str> = nr.empty_dirs.iter().map(|d| d.relpath.as_str()).collect();
    assert_eq!(dpaths, vec!["./x", "./y"]);
}

fn assert_stamp(s: &str) {
    assert_eq!(s.len(), 12);
    assert!(s.chars().all(|c| c.is_ascii_digit()));
    let field = |k: usize| s[k..k + 2].parse::<u32>().unwrap();
    assert!((1..=12).contains(&field(2)));
    assert!((1..=31).contains(&field(4)));
    assert!(field(6) <= 23 && field(8) <= 59 && field(10) <= 60);
}

#[test]
fn time_stamps_are_twelve_digits() {
    assert_stamp(&mtime_stamp(1_700_000_000, 0).unwrap());
    assert_stamp(&mtime_stamp(-1_000_000, 999_999_999).unwrap());
    assert_stamp(&mtime_stamp(0, 0).unwrap());
    let name = new_result_file_name(1_700_000_000, 5).unwrap();
    assert_eq!(name.len(), 16);
    assert!(name.ends_with(".txt"));
    assert_stamp(&name[..12]);
}

#[test]
fn times_outside_chrono_range_give_nothing() {
    assert!(mtime_stamp(i64::MAX, 0).is_none());
    assert!(mtime_stamp(i64::MIN, 0).is_none());
    assert!(new_result_file_name(1 << 40 << 10, 0).is_none());
    assert!(mtime_stamp(0, 2_000_000_000).is_none());
}

#[test]
fn path_normalization() {
    assert_eq!(normalize_path("a//b/./c/"), "a/b/c");
    assert_eq!(normalize_path("./a"), "./a");
    assert_eq!(normalize_path("././a"), "./a");
    assert_eq!(normalize_path("/./a/"), "/a");
    assert_eq!(normalize_path("//a"), "/a");
    assert_eq!(normalize_path("/"), "/");
    assert_eq!(normalize_path("."), ".");
    assert_eq!(normalize_path("./"), ".");
    assert_eq!(normalize_path("a/."), "a");
    assert_eq!(normalize_path("../x/.."), "../x/..");
    assert_eq!(normalize_path(""), "");
    assert_eq!(normalize_path("dé/ü"), "dé/ü");
}

#[test]
fn path_argument_check() {
    assert_eq!(parse_path("a//b/", true), Ok("a/b".to_string()));
    assert_eq!(
        parse_path("a//b/", false),
        Err("'a//b/' was not a valid directory path.".to_string())
    );
}

#[test]
fn scan_rules() {
    assert!(classify_entry(true, false, "src") == EntryKind::Directory);
    assert!(classify_entry(true, false, ".spydir") == EntryKind::Ignored);
    assert!(classify_entry(false, true, "a.txt") == EntryKind::File);
    assert!(classify_entry(false, true, ".DS_Store") == EntryKind::Ignored);
    assert!(classify_entry(false, false, "link") == EntryKind::Ignored);
    assert!(dir_counts_as_empty(0, false, false));
    assert!(dir_counts_as_empty(1, true, false));
    assert!(dir_counts_as_empty(1, false, true));
    assert!(!dir_counts_as_empty(1, false, false));
    assert!(dir_counts_as_empty(2, true, true));
    assert!(!dir_counts_as_empty(2, true, false));
    assert!(!dir_counts_as_empty(3, true, true));
}

#[test]
fn normalizing_twice_changes_nothing() {
    for p in ["a//b/./c/", "././a", "/./a/", "//", "", ".", "./", "../x/..", "x/./.", "/.", "dé//ü/"] {
        let once = normalize_path(p);
        assert_eq!(normalize_path(&once), once);
    }
}

#[test]
fn equal_paths_keep_their_order() {
    let reused = vec![file("0123456789abcdef0123456789abcdef", "250101000000", "./same")];
    let hashed = vec![
        file("fedcba9876543210fedcba9876543210", "250101000000", "./same"),
        file("00000000000000000000000000000000", "250101000000", "./a"),
    ];
    let nr = finish_new_result(reused, hashed, vec![]);
    let got: Vec<(&str, &str)> =
        nr.common_files.iter().map(|f| (f.relpath.as_str(), f.md5.as_str())).collect();
    assert_eq!(
        got,
        vec![
            ("./a", "00000000000000000000000000000000"),
            ("./same", "0123456789abcdef0123456789abcdef"),
            ("./same", "fedcba9876543210fedcba9876543210"),
        ]
    );
}

#[test]
fn lent_digests_give_the_fresh_record() {
    let contents = |id: usize| format!("contents of file {}", id).into_bytes();
    let files = vec![
        ScannedFile { path: "/w/b".to_string(), mtime: Some("250101000000".to_string()), id: 0 },
        ScannedFile { path: "/w/a".to_string(), mtime: Some("250101000001".to_string()), id: 1 },
    ];
    let hash_all = |plan: spydir::result::new::NewResultPlan| {
        let hashed: Vec<CommonFile> =
            plan.to_hash.into_iter().map(|i| { let c = contents(i.id); i.into_common_file(&c) }).collect();
        finish_new_result(plan.reused, hashed, plan.empty_dirs)
    };
    let fresh = hash_all(plan_new_result("/w", &vec![], &files, None));
    let last = LastResult { common_files: vec![file(&md5_hex(&contents(0)), "250101000000", "./b")], empty_dirs: vec![] };
    let lent_plan = plan_new_result("/w", &vec![], &files, Some(&last));
    assert_eq!(lent_plan.reused.len(), 1);
    let lent = hash_all(lent_plan);
    assert_eq!(fresh.to_text(), lent.to_text());
}

#[test]
fn order_of_computed_digests_does_not_matter() {
    let x = file("0123456789abcdef0123456789abcdef", "250101000000", "./x");
    let y = file("fedcba9876543210fedcba9876543210", "250101000000", "./y");
    let one = finish_new_result(vec![], vec![x.clone(), y.clone()], vec![]);
    let two = finish_new_result(vec![], vec![y, x], vec![]);
    assert_eq!(one.to_text(), two.to_text());
}
