use spydir::info::{CommonFileInfo, EmptyDirInfo};
use spydir::item::{CommonFile, EmptyDir, ToCommonFile, ToEmptyDir};
use spydir::result::last::{
    is_record_line_exec, latest_result_id, parse_result_lines, result_file_id, result_file_name_for_id,
    starts_with_marker,
};
use spydir::result::new::{result_file_name, NewResult};

const MARKER: &str = "               empty_directory                ";

fn file(md5: &str, mtime: &str, relpath: &str) -> CommonFile {
    CommonFile { md5: md5.to_string(), mtime: mtime.to_string(), relpath: relpath.to_string() }
}

#[test]
fn common_file_line_format() {
    let f = file("5eb63bbbe01eeed093cb22bb8f5acdc3", "240131235959", "./a/b.txt");
    assert_eq!(f.to_string(), "240131235959 5eb63bbbe01eeed093cb22bb8f5acdc3 ./a/b.txt");
}

#[test]
fn empty_dir_line_format() {
    let d = EmptyDir { relpath: "./empty".to_string() };
    assert_eq!(d.to_string(), format!("{}./empty", MARKER));
    assert_eq!(MARKER.len(), 46);
}

#[test]
fn info_lines_match_item_lines() {
    let i = CommonFileInfo {
        md5: "d41d8cd98f00b204e9800998ecf8427e".to_string(),
        mtime: "990101000000".to_string(),
        relpath: "./x".to_string(),
    };
    assert_eq!(i.to_string(), "990101000000 d41d8cd98f00b204e9800998ecf8427e ./x");
    let e = EmptyDirInfo { relpath: "./y".to_string() };
    assert_eq!(e.to_string(), format!("{}./y", MARKER));
}

#[test]
fn line_parses_into_common_file() {
    let line = "240131235959 5eb63bbbe01eeed093cb22bb8f5acdc3 ./dir/file name.txt".to_string();
    let f = line.to_common_file();
    assert_eq!(f.mtime, "240131235959");
    assert_eq!(f.md5, "5eb63bbbe01eeed093cb22bb8f5acdc3");
    assert_eq!(f.relpath, "./dir/file name.txt");
}

#[test]
fn line_parses_by_bytes_not_characters() {
    // the path part may hold any characters; the cut is made at byte 46
    let line = "240131235959 5eb63bbbe01eeed093cb22bb8f5acdc3 ./héllo/日本".to_string();
    let f = line.to_common_file();
    assert_eq!(f.relpath, "./héllo/日本");
}

#[test]
fn line_parses_into_empty_dir() {
    let line = format!("{}./a/b", MARKER);
    assert_eq!(line.to_empty_dir().relpath, "./a/b");
    let short = format!("{}", MARKER);
    assert_eq!(short.to_empty_dir().relpath, "");
}

#[test]
fn common_file_roundtrip() {
    let f = file("0123456789abcdef0123456789abcdef", "250607080910", "./ünï/cödé");
    let back = f.to_string().to_common_file();
    assert_eq!(back.md5, f.md5);
    assert_eq!(back.mtime, f.mtime);
    assert_eq!(back.relpath, f.relpath);
}

#[test]
fn marker_detection() {
    assert!(starts_with_marker(&format!("{}./a", MARKER)));
    assert!(starts_with_marker(MARKER));
    assert!(!starts_with_marker(&MARKER[1..]));
    assert!(!starts_with_marker("240131235959 5eb63bbbe01eeed093cb22bb8f5acdc3 ./x"));
    assert!(!starts_with_marker(""));
}

#[test]
fn record_lines_split_into_dirs_and_files() {
    let lines = vec![
        format!("{}./e1", MARKER),
        "240131235959 5eb63bbbe01eeed093cb22bb8f5acdc3 ./f1".to_string(),
        format!("{}./e2", MARKER),
        "240201000000 d41d8cd98f00b204e9800998ecf8427e ./f2".to_string(),
    ];
    let r = parse_result_lines(&lines);
    let dirs: Vec<&str> = r.empty_dirs.iter().map(|d| d.relpath.as_str()).collect();
    assert_eq!(dirs, vec!["./e1", "./e2"]);
    let files: Vec<(&str, &str, &str)> = r
        .common_files
        .iter()
        .map(|f| (f.mtime.as_str(), f.md5.as_str(), f.relpath.as_str()))
        .collect();
    assert_eq!(
        files,
        vec![
            ("240131235959", "5eb63bbbe01eeed093cb22bb8f5acdc3", "./f1"),
            ("240201000000", "d41d8cd98f00b204e9800998ecf8427e", "./f2"),
        ]
    );
}

#[test]
fn written_record_reads_back() {
    let nr = NewResult {
        common_files: vec![
            file("0123456789abcdef0123456789abcdef", "250101000000", "./a"),
            file("fedcba9876543210fedcba9876543210", "250102000000", "./b/c"),
        ],
        empty_dirs: vec![EmptyDir { relpath: "./d".to_string() }],
    };
    let text = nr.to_text();
    assert_eq!(
        text,
        format!(
            "{}./d\n250101000000 0123456789abcdef0123456789abcdef ./a\n250102000000 fedcba9876543210fedcba9876543210 ./b/c\n",
            MARKER
        )
    );
    let lines: Vec<String> = text.lines().map(|l| l.to_string()).collect();
    let back = parse_result_lines(&lines);
    assert_eq!(back.empty_dirs.len(), 1);
    assert_eq!(back.empty_dirs[0].relpath, "./d");
    assert_eq!(back.common_files.len(), 2);
    for (a, b) in back.common_files.iter().zip(nr.common_files.iter()) {
        assert_eq!(a.md5, b.md5);
        assert_eq!(a.mtime, b.mtime);
        assert_eq!(a.relpath, b.relpath);
    }
}

#[test]
fn record_file_ids() {
    assert_eq!(result_file_id("250101120000.txt"), Some(250101120000));
    assert_eq!(result_file_id("050101120000.txt"), Some(50101120000));
    assert_eq!(result_file_id("+12345678901.txt"), Some(12345678901));
    assert_eq!(result_file_id("-12345678901.txt"), None);
    assert_eq!(result_file_id("2501011200a0.txt"), None);
    assert_eq!(result_file_id("25010112000.txt"), None);
    assert_eq!(result_file_id("2501011200000.txt"), None);
    assert_eq!(result_file_id("250101120000.log"), None);
    assert_eq!(result_file_id("ab"), None);
}

#[test]
fn latest_record_file_is_the_largest_number() {
    let names = vec![
        "240101000000.txt".to_string(),
        "notes.md".to_string(),
        "250101000000.txt".to_string(),
        "241231235959.txt".to_string(),
    ];
    assert_eq!(latest_result_id(&names), Some(250101000000));
    assert_eq!(latest_result_id(&vec!["x.txt".to_string()]), None);
    assert_eq!(latest_result_id(&vec![]), None);
}

#[test]
fn record_file_name_for_id_has_no_padding() {
    assert_eq!(result_file_name_for_id(250101000000), "250101000000.txt");
    assert_eq!(result_file_name_for_id(50101120000), "50101120000.txt");
    assert_eq!(result_file_name_for_id(0), "0.txt");
    assert_eq!(result_file_name(&"250101000000".to_string()), "250101000000.txt");
}

#[test]
fn written_name_is_found_again() {
    let stamp = "251224183000";
    let name = result_file_name(stamp);
    let id = result_file_id(&name).unwrap();
    assert_eq!(result_file_name_for_id(id), name);
}

#[test]
fn readable_record_lines() {
    assert!(is_record_line_exec(&format!("{}./d", MARKER)));
    assert!(is_record_line_exec("240131235959 5eb63bbbe01eeed093cb22bb8f5acdc3 ./f"));
    assert!(is_record_line_exec("240131235959 5eb63bbbe01eeed093cb22bb8f5acdc3 "));
    assert!(!is_record_line_exec("240131235959 5eb63bbbe01eeed093cb22bb8f5acdc3"));
    assert!(!is_record_line_exec("24013123595é 5eb63bbbe01eeed093cb22bb8f5acdc3 ./f"));
    assert!(!is_record_line_exec(""));
}
