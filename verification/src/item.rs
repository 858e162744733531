//! The two kinds of entries of a record, and their one-line text form.

use vstd::prelude::*;
use vstd::utf8::*;

use crate::sort::{views, Keyed};
use crate::text;

verus! {

broadcast use vstd::utf8::group_utf8_lib;

/// A regular file: its MD5 digest (lower-case hex), its modification time
/// (`yymmddHHMMSS`, local time) and its path relative to the watched directory.
#[derive(Clone)]
pub struct CommonFile {
    pub md5: String,
    pub mtime: String,
    pub relpath: String,
}

/// What a `CommonFile` holds, as character sequences.
pub struct CommonFileView {
    pub md5: Seq<char>,
    pub mtime: Seq<char>,
    pub relpath: Seq<char>,
}

impl View for CommonFile {
    type V = CommonFileView;

    open spec fn view(&self) -> CommonFileView {
        CommonFileView { md5: self.md5@, mtime: self.mtime@, relpath: self.relpath@ }
    }
}

/// The line that stands for a common file: `mtime md5 relpath`.
pub open spec fn common_file_line(f: CommonFileView) -> Seq<char> {
    f.mtime + seq![' '] + f.md5 + seq![' '] + f.relpath
}

/// A line can be cut into a common file: it is at least 46 bytes long in
/// UTF-8 and bytes 12, 13, 45 and 46 start characters.
pub open spec fn is_common_file_line(line: Seq<char>) -> bool {
    let b = encode_utf8(line);
    &&& b.len() >= 46
    &&& is_char_boundary(b, 12)
    &&& is_char_boundary(b, 13)
    &&& is_char_boundary(b, 45)
    &&& is_char_boundary(b, 46)
}

/// The common file that a line stands for: bytes `..12` are the time,
/// bytes `13..45` the digest and bytes `46..` the relative path.
pub open spec fn parse_common_file_line(line: Seq<char>) -> CommonFileView {
    let b = encode_utf8(line);
    CommonFileView {
        md5: decode_utf8(b.subrange(13, 45)),
        mtime: decode_utf8(b.subrange(0, 12)),
        relpath: decode_utf8(b.subrange(46, b.len() as int)),
    }
}

/// A character boundary of a valid byte sequence is still one in every
/// prefix that ends on a character boundary at or after it.
pub proof fn lemma_boundary_in_prefix(b: Seq<u8>, k: int, j: int)
    requires
        valid_utf8(b),
        0 <= k <= j <= b.len(),
        is_char_boundary(b, k),
        is_char_boundary(b, j),
    ensures
        valid_utf8(b.subrange(0, j)),
        is_char_boundary(b.subrange(0, j), k),
{
    let p = b.subrange(0, j);
    assert(valid_utf8(p));
    if k == j {
        assert(p.len() == j);
    } else if k == 0 {
    } else {
        assert(p[k] == b[k]);
        assert(!is_continuation_byte(b[k]));
        assert(!is_continuation_byte(p[k]));
    }
}

/// Turns a record line into a common file.
pub trait ToCommonFile: View<V = Seq<char>> {
    fn to_common_file(&self) -> (file: CommonFile)
        requires
            is_common_file_line(self@),
        ensures
            file@ == parse_common_file_line(self@),
    ;
}

impl ToCommonFile for String {
    fn to_common_file(&self) -> (file: CommonFile) {
        let s = self.as_str();
        let ghost b = encode_utf8(self@);
        let (mtime_part, _) = s.split_at(12);
        let (_, relpath_part) = s.split_at(46);
        let (upto_digest, _) = s.split_at(45);
        proof {
            lemma_boundary_in_prefix(b, 13, 45);
        }
        let (_, md5_part) = upto_digest.split_at(13);
        proof {
            assert(b.subrange(0, 45).subrange(13, 45) =~= b.subrange(13, 45));
            assert(mtime_part@ == decode_utf8(encode_utf8(mtime_part@)));
            assert(md5_part@ == decode_utf8(encode_utf8(md5_part@)));
            assert(relpath_part@ == decode_utf8(encode_utf8(relpath_part@)));
        }
        CommonFile {
            md5: md5_part.to_owned(),
            mtime: mtime_part.to_owned(),
            relpath: relpath_part.to_owned(),
        }
    }
}

/// The text in front of the relative path on a line that stands for an
/// empty directory.
pub open spec fn empty_dir_marker() -> Seq<char> {
    "               empty_directory                "@
}

/// The marker is 46 ASCII characters and starts with a space.
pub proof fn lemma_empty_dir_marker()
    ensures
        empty_dir_marker().len() == 46,
        is_ascii_chars(empty_dir_marker()),
        empty_dir_marker()[0] == ' ',
{
    reveal_strlit("               empty_directory                ");
}

/// An empty directory, by its path relative to the watched directory.
#[derive(Clone)]
pub struct EmptyDir {
    pub relpath: String,
}

impl View for EmptyDir {
    type V = Seq<char>;

    open spec fn view(&self) -> Seq<char> {
        self.relpath@
    }
}

/// The line that stands for an empty directory: the marker, then the path.
pub open spec fn empty_dir_line(relpath: Seq<char>) -> Seq<char> {
    empty_dir_marker() + relpath
}

/// A line can be cut into an empty directory: it is at least 46 bytes long
/// in UTF-8 and byte 46 starts a character.
pub open spec fn is_empty_dir_line(line: Seq<char>) -> bool {
    let b = encode_utf8(line);
    b.len() >= 46 && is_char_boundary(b, 46)
}

/// The relative path that a line stands for: its bytes from 46 on.
pub open spec fn parse_empty_dir_line(line: Seq<char>) -> Seq<char> {
    let b = encode_utf8(line);
    decode_utf8(b.subrange(46, b.len() as int))
}

/// Turns a record line into an empty directory.
pub trait ToEmptyDir: View<V = Seq<char>> {
    fn to_empty_dir(&self) -> (dir: EmptyDir)
        requires
            is_empty_dir_line(self@),
        ensures
            dir@ == parse_empty_dir_line(self@),
    ;
}

impl ToEmptyDir for String {
    fn to_empty_dir(&self) -> (dir: EmptyDir) {
        let (_, relpath_part) = self.as_str().split_at(46);
        proof {
            assert(relpath_part@ == decode_utf8(encode_utf8(relpath_part@)));
        }
        EmptyDir { relpath: relpath_part.to_owned() }
    }
}

impl CommonFile {
    /// The record line of this file.
    pub fn to_string(&self) -> (line: String)
        ensures
            line@ == common_file_line(self@),
    {
        let mut line = String::new();
        line.append(self.mtime.as_str());
        line.append(" ");
        line.append(self.md5.as_str());
        line.append(" ");
        line.append(self.relpath.as_str());
        proof {
            reveal_strlit(" ");
        }
        line
    }
}

impl EmptyDir {
    /// The record line of this directory.
    pub fn to_string(&self) -> (line: String)
        ensures
            line@ == empty_dir_line(self@),
    {
        let mut line = String::new();
        line.append("               empty_directory                ");
        line.append(self.relpath.as_str());
        line
    }
}

/// What a well-formed time stamp is: twelve ASCII decimal digits, as
/// `yymmddHHMMSS` gives.
pub open spec fn is_well_formed_mtime(s: Seq<char>) -> bool {
    s.len() == 12 && forall|i| 0 <= i < 12 ==> '0' <= #[trigger] s[i] <= '9'
}

/// A lower-case hexadecimal digit.
pub open spec fn is_lower_hex_digit(c: char) -> bool {
    ('0' <= c <= '9') || ('a' <= c <= 'f')
}

/// What a well-formed digest is: thirty-two lower-case hexadecimal digits,
/// as an MD5 digest is written.
pub open spec fn is_well_formed_md5(s: Seq<char>) -> bool {
    s.len() == 32 && forall|i: int| 0 <= i < 32 ==> is_lower_hex_digit(#[trigger] s[i])
}

/// A file with a well-formed time and digest.
pub open spec fn is_well_formed_file(f: CommonFileView) -> bool {
    is_well_formed_mtime(f.mtime) && is_well_formed_md5(f.md5)
}

/// The fields before the path take twelve and thirty-two bytes in UTF-8.
pub open spec fn has_field_widths(f: CommonFileView) -> bool {
    encode_utf8(f.mtime).len() == 12 && encode_utf8(f.md5).len() == 32
}

/// A well-formed file's time takes twelve bytes and its digest thirty-two.
pub proof fn lemma_well_formed_file_widths(f: CommonFileView)
    requires
        is_well_formed_file(f),
    ensures
        has_field_widths(f),
{
    lemma_well_formed_mtime_width(f.mtime);
    assert forall|i| 0 <= i < f.md5.len() implies '\0' <= #[trigger] f.md5[i] <= '\u{7f}' by {
        assert(is_lower_hex_digit(f.md5[i]));
    }
    text::lemma_encode_ascii_len(f.md5);
}

/// A well-formed time is twelve ASCII characters, so twelve bytes.
pub proof fn lemma_well_formed_mtime_width(s: Seq<char>)
    requires
        is_well_formed_mtime(s),
    ensures
        is_ascii_chars(s),
        encode_utf8(s).len() == 12,
{
    assert forall|i| 0 <= i < s.len() implies '\0' <= #[trigger] s[i] <= '\u{7f}' by {
        assert('0' <= s[i] <= '9');
    }
    text::lemma_encode_ascii_len(s);
}

/// The line of a file whose time takes twelve bytes and whose digest takes
/// thirty-two reads back as that same file; when the time is twelve digits
/// the line does not start with the empty-directory marker.
pub proof fn lemma_common_file_line_roundtrip(f: CommonFileView)
    requires
        has_field_widths(f),
    ensures
        is_common_file_line(common_file_line(f)),
        parse_common_file_line(common_file_line(f)) == f,
        is_well_formed_mtime(f.mtime) ==> !text::starts_with(
            common_file_line(f),
            empty_dir_marker(),
        ),
{
    let m = f.mtime;
    let d = f.md5;
    let r = f.relpath;
    let sp = seq![' '];
    let line = common_file_line(f);
    assert(is_ascii_chars(sp));
    text::lemma_encode_ascii_len(sp);
    let a2 = m + sp;
    let a3 = a2 + d;
    let a4 = a3 + sp;
    text::lemma_encode_concat(m, sp);
    text::lemma_encode_concat(a2, d);
    text::lemma_encode_concat(a3, sp);
    assert(line =~= m + (sp + d + sp + r));
    assert(line =~= a2 + (d + sp + r));
    assert(line =~= a3 + (sp + r));
    assert(line =~= a4 + r);
    text::lemma_concat_split(m, sp + d + sp + r);
    text::lemma_concat_split(a2, d + sp + r);
    text::lemma_concat_split(a3, sp + r);
    text::lemma_concat_split(a4, r);
    text::lemma_concat_split(a2, d);
    let b = encode_utf8(line);
    assert(b.subrange(0, 45) == encode_utf8(a3));
    assert(encode_utf8(a3).subrange(13, 45) == encode_utf8(d));
    assert(b.subrange(13, 45) =~= encode_utf8(a3).subrange(13, 45));
    assert(parse_common_file_line(line) =~= f) by {
        assert(decode_utf8(encode_utf8(m)) == m);
        assert(decode_utf8(encode_utf8(d)) == d);
        assert(decode_utf8(encode_utf8(r)) == r);
    }
    if is_well_formed_mtime(m) {
        lemma_empty_dir_marker();
        assert(line[0] == m[0]);
        assert('0' <= m[0] <= '9');
        if line.len() >= 46 {
            assert(line.subrange(0, 46)[0] == line[0]);
        }
    }
}

/// The views of a sequence of files.
pub open spec fn files_view(v: Seq<CommonFile>) -> Seq<CommonFileView> {
    views(v)
}

/// The views of a sequence of empty directories.
pub open spec fn dirs_view(v: Seq<EmptyDir>) -> Seq<Seq<char>> {
    views(v)
}

/// A line that begins with the empty-directory marker can be cut into an
/// empty directory.
pub proof fn lemma_marker_line_is_empty_dir_line(line: Seq<char>)
    requires
        text::starts_with(line, empty_dir_marker()),
    ensures
        is_empty_dir_line(line),
{
    lemma_empty_dir_marker();
    let rest = line.subrange(46, line.len() as int);
    assert(line =~= empty_dir_marker() + rest);
    text::lemma_ascii_prefix_split(empty_dir_marker(), rest);
}

/// The line of an empty directory begins with the marker and reads back as
/// that same directory.
pub proof fn lemma_empty_dir_line_roundtrip(relpath: Seq<char>)
    ensures
        text::starts_with(empty_dir_line(relpath), empty_dir_marker()),
        is_empty_dir_line(empty_dir_line(relpath)),
        parse_empty_dir_line(empty_dir_line(relpath)) == relpath,
{
    lemma_empty_dir_marker();
    let line = empty_dir_line(relpath);
    assert(line.subrange(0, 46) =~= empty_dir_marker());
    text::lemma_ascii_prefix_split(empty_dir_marker(), relpath);
    assert(decode_utf8(encode_utf8(relpath)) == relpath);
}

/// The text of a list of directories: each line followed by a newline.
pub open spec fn dirs_text(dirs: Seq<Seq<char>>) -> Seq<char> {
    dirs.map_values(|d: Seq<char>| empty_dir_line(d) + "\n"@).flatten()
}

/// The text of a list of files: each line followed by a newline.
pub open spec fn files_text(files: Seq<CommonFileView>) -> Seq<char> {
    files.map_values(|f: CommonFileView| common_file_line(f) + "\n"@).flatten()
}

/// Appends the line of each directory, each followed by a newline.
pub fn push_dir_lines(s: &mut String, dirs: &Vec<EmptyDir>)
    ensures
        final(s)@ == old(s)@ + dirs_text(dirs_view(dirs@)),
{
    let ghost start = s@;
    let ghost all = dirs_view(dirs@);
    let ghost f = |d: Seq<char>| empty_dir_line(d) + "\n"@;
    let mut i: usize = 0;
    while i < dirs.len()
        invariant
            i <= dirs@.len(),
            all == dirs_view(dirs@),
            f == (|d: Seq<char>| empty_dir_line(d) + "\n"@),
            s@ == start + all.take(i as int).map_values(f).flatten(),
        decreases dirs@.len() - i,
    {
        let line = dirs[i].to_string();
        s.append(line.as_str());
        s.append("\n");
        proof {
            let before = all.take(i as int);
            assert(all.take(i + 1) =~= before.push(all[i as int]));
            assert(before.push(all[i as int]).map_values(f) =~= before.map_values(f).push(
                f(all[i as int]),
            ));
            before.map_values(f).lemma_flatten_push(f(all[i as int]));
        }
        i = i + 1;
    }
    assert(all.take(dirs@.len() as int) =~= all);
}

/// Appends the line of each file, each followed by a newline.
pub fn push_file_lines(s: &mut String, files: &Vec<CommonFile>)
    ensures
        final(s)@ == old(s)@ + files_text(files_view(files@)),
{
    let ghost start = s@;
    let ghost all = files_view(files@);
    let ghost f = |x: CommonFileView| common_file_line(x) + "\n"@;
    let mut i: usize = 0;
    while i < files.len()
        invariant
            i <= files@.len(),
            all == files_view(files@),
            f == (|x: CommonFileView| common_file_line(x) + "\n"@),
            s@ == start + all.take(i as int).map_values(f).flatten(),
        decreases files@.len() - i,
    {
        let line = files[i].to_string();
        s.append(line.as_str());
        s.append("\n");
        proof {
            let before = all.take(i as int);
            assert(all.take(i + 1) =~= before.push(all[i as int]));
            assert(before.push(all[i as int]).map_values(f) =~= before.map_values(f).push(
                f(all[i as int]),
            ));
            before.map_values(f).lemma_flatten_push(f(all[i as int]));
        }
        i = i + 1;
    }
    assert(all.take(files@.len() as int) =~= all);
}

/// A copy of a file.
pub fn copy_file(f: &CommonFile) -> (c: CommonFile)
    ensures
        c@ == f@,
{
    CommonFile { md5: f.md5.clone(), mtime: f.mtime.clone(), relpath: f.relpath.clone() }
}

/// A copy of a directory.
pub fn copy_dir(d: &EmptyDir) -> (c: EmptyDir)
    ensures
        c@ == d@,
{
    EmptyDir { relpath: d.relpath.clone() }
}

impl Keyed for CommonFile {
    open spec fn key_of(v: CommonFileView) -> Seq<char> {
        v.relpath
    }

    fn key(&self) -> (k: &str) {
        self.relpath.as_str()
    }
}

impl Keyed for EmptyDir {
    open spec fn key_of(v: Seq<char>) -> Seq<char> {
        v
    }

    fn key(&self) -> (k: &str) {
        self.relpath.as_str()
    }
}

} // verus!
