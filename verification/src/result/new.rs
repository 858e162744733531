//! The record made from a new scan of the watched directory.

use vstd::prelude::*;
use vstd::utf8::*;

use chrono::{DateTime, Local, Utc};
use md5::{Digest, Md5};

use crate::item::{
    is_lower_hex_digit, is_well_formed_md5, is_well_formed_mtime, copy_file, dirs_text, dirs_view, files_text, files_view, push_dir_lines, push_file_lines,
    CommonFile, CommonFileView, EmptyDir,
};
use crate::result::last::{digit_char, LastResult};
use crate::sort::{
    distinct_keys, lemma_sorted_unique, sort_by_key, sorted_by_key, views, with_key,
};

verus! {

broadcast use vstd::utf8::group_utf8_lib;

/// The record of the current state of the watched directory.
pub struct NewResult {
    pub common_files: Vec<CommonFile>,
    pub empty_dirs: Vec<EmptyDir>,
}

/// The MD5 digest of some bytes, as computed by the `md-5` crate.
pub uninterp spec fn md5_digest(data: Seq<u8>) -> Seq<u8>;

/// Calls `md5::Md5::digest` (from the `digest` crate's `Digest` trait) on
/// the bytes. Trusted: the result is the digest of exactly these bytes, and
/// it is 16 bytes long (`Md5Core` declares `OutputSize = U16`).
#[verifier::external_body]
fn md5_of(data: &[u8]) -> (d: Vec<u8>)
    ensures
        d@ == md5_digest(data@),
        d@.len() == 16,
{
    Md5::digest(data).to_vec()
}

/// The lower-case hexadecimal digit for `n < 16`.
pub open spec fn hex_digit(n: nat) -> char {
    if n < 10 {
        (48 + n) as char
    } else {
        (87 + n) as char
    }
}

/// Each byte as two lower-case hexadecimal digits, as `{:02x}` writes it.
pub open spec fn hex_lower(bytes: Seq<u8>) -> Seq<char> {
    bytes.map_values(|b: u8| seq![hex_digit((b / 16) as nat), hex_digit((b % 16) as nat)]).flatten()
}

/// Writes bytes in lower-case hexadecimal, two digits each.
pub fn to_hex_lower(bytes: &[u8]) -> (s: String)
    ensures
        s@ == hex_lower(bytes@),
{
    let ghost f = |b: u8| seq![hex_digit((b / 16) as nat), hex_digit((b % 16) as nat)];
    let digits = "0123456789abcdef";
    proof {
        reveal_strlit("0123456789abcdef");
    }
    assert forall|n: int| 0 <= n < 16 implies #[trigger] digits@[n] == hex_digit(n as nat) by {
        reveal_strlit("0123456789abcdef");
    }
    let mut s = String::new();
    let mut i: usize = 0;
    while i < bytes.len()
        invariant
            i <= bytes@.len(),
            digits@.len() == 16,
            is_ascii_chars(digits@),
            f == (|b: u8| seq![hex_digit((b / 16) as nat), hex_digit((b % 16) as nat)]),
            forall|n: int| 0 <= n < 16 ==> #[trigger] digits@[n] == hex_digit(n as nat),
            s@ == bytes@.take(i as int).map_values(f).flatten(),
        decreases bytes@.len() - i,
    {
        let b = bytes[i];
        let hi: usize = (b / 16) as usize;
        let lo: usize = (b % 16) as usize;
        let ghost before = s@;
        s.append(digits.substring_ascii(hi, hi + 1));
        s.append(digits.substring_ascii(lo, lo + 1));
        proof {
            let prefix = bytes@.take(i as int);
            assert(bytes@.take(i + 1) =~= prefix.push(b));
            assert(prefix.push(b).map_values(f) =~= prefix.map_values(f).push(f(b)));
            prefix.map_values(f).lemma_flatten_push(f(b));
            assert(s@ =~= before + f(b));
        }
        i = i + 1;
    }
    assert(bytes@.take(bytes@.len() as int) =~= bytes@);
    s
}

/// The digest of some bytes, in lower-case hexadecimal.
pub fn md5_hex(data: &[u8]) -> (s: String)
    ensures
        s@ == hex_lower(md5_digest(data@)),
        is_well_formed_md5(s@),
{
    let d = md5_of(data);
    proof {
        lemma_hex_lower_len_ascii(d@);
    }
    to_hex_lower(d.as_slice())
}

/// A file found by the scan: its full path (lossily decoded), its
/// modification time as `yymmddHHMMSS` when it could be read, and a number
/// by which the caller finds the file again.
pub struct ScannedFile {
    pub path: String,
    pub mtime: Option<String>,
    pub id: usize,
}

/// The characters of an optional string.
pub open spec fn opt_view(o: Option<String>) -> Option<Seq<char>> {
    match o {
        Some(s) => Some(s@),
        None => None,
    }
}

/// What a `ScannedFile` holds.
pub struct ScannedFileView {
    pub path: Seq<char>,
    pub mtime: Option<Seq<char>>,
    pub id: usize,
}

impl View for ScannedFile {
    type V = ScannedFileView;

    open spec fn view(&self) -> ScannedFileView {
        ScannedFileView { path: self.path@, mtime: opt_view(self.mtime), id: self.id }
    }
}

/// A file whose digest is still to be computed.
pub struct CommonFileIntermediate {
    pub mtime: String,
    pub relpath: String,
    pub id: usize,
}

/// What a `CommonFileIntermediate` holds.
pub struct IntermediateView {
    pub mtime: Seq<char>,
    pub relpath: Seq<char>,
    pub id: usize,
}

impl View for CommonFileIntermediate {
    type V = IntermediateView;

    open spec fn view(&self) -> IntermediateView {
        IntermediateView { mtime: self.mtime@, relpath: self.relpath@, id: self.id }
    }
}

/// The path of `path` relative to `base`: `.` followed by what comes after
/// the first `base.len()` bytes of `path`, when that many bytes end on a
/// character boundary; nothing otherwise.
pub open spec fn relative_path(path: Seq<char>, base: Seq<char>) -> Option<Seq<char>> {
    let b = encode_utf8(path);
    let n = encode_utf8(base).len() as int;
    if is_char_boundary(b, n) {
        Some(seq!['.'] + decode_utf8(b.subrange(n, b.len() as int)))
    } else {
        None
    }
}

/// The path of `path` relative to `base` (see [`relative_path`]).
pub fn relative_path_of(path: &str, base: &str) -> (r: Option<String>)
    ensures
        opt_view(r) == relative_path(path@, base@),
{
    let n = base.as_bytes().len();
    if path.is_char_boundary(n) {
        let (_, rest) = path.split_at(n);
        let mut s = String::new();
        s.append(".");
        s.append(rest);
        proof {
            reveal_strlit(".");
            assert(rest@ == decode_utf8(encode_utf8(rest@)));
            assert(s@ =~= seq!['.'] + rest@);
        }
        Some(s)
    } else {
        None
    }
}

/// A scanned file that takes part in the record: one whose relative path
/// and modification time are both known.
pub open spec fn candidate(base: Seq<char>, f: ScannedFileView) -> Option<IntermediateView> {
    match (relative_path(f.path, base), f.mtime) {
        (Some(r), Some(m)) => Some(IntermediateView { mtime: m, relpath: r, id: f.id }),
        _ => None,
    }
}

/// The scanned files that take part in the record, in order.
pub open spec fn candidates(base: Seq<char>, files: Seq<ScannedFileView>) -> Seq<IntermediateView> {
    files.filter_map(|f: ScannedFileView| candidate(base, f))
}

/// The digest of the first file of the previous record with this relative
/// path and modification time, if there is one.
pub open spec fn first_md5_match(last: Seq<CommonFileView>, relpath: Seq<char>, mtime: Seq<char>) -> Option<
    Seq<char>,
>
    decreases last.len(),
{
    if last.len() == 0 {
        None
    } else if last[0].relpath == relpath && last[0].mtime == mtime {
        Some(last[0].md5)
    } else {
        first_md5_match(last.drop_first(), relpath, mtime)
    }
}

/// A candidate whose digest can be taken from the previous record, with
/// that digest.
pub open spec fn reuse(last: Seq<CommonFileView>, c: IntermediateView) -> Option<CommonFileView> {
    match first_md5_match(last, c.relpath, c.mtime) {
        Some(m) => Some(CommonFileView { md5: m, mtime: c.mtime, relpath: c.relpath }),
        None => None,
    }
}

/// The candidates whose digest is taken from the previous record.
pub open spec fn reused_files(cands: Seq<IntermediateView>, last: Seq<CommonFileView>) -> Seq<
    CommonFileView,
> {
    cands.filter_map(|c: IntermediateView| reuse(last, c))
}

/// The candidates whose digest must be computed.
pub open spec fn files_to_hash(cands: Seq<IntermediateView>, last: Seq<CommonFileView>) -> Seq<
    IntermediateView,
> {
    cands.filter(|c: IntermediateView| first_md5_match(last, c.relpath, c.mtime) is None)
}

/// The empty directories of the record, by the relative paths that exist.
pub open spec fn new_empty_dirs(base: Seq<char>, paths: Seq<Seq<char>>) -> Seq<Seq<char>> {
    paths.filter_map(|p: Seq<char>| relative_path(p, base))
}

/// The files of the previous record that may lend their digest; none when
/// every digest is to be computed.
pub open spec fn lender_files(last: Option<&LastResult>) -> Seq<CommonFileView> {
    match last {
        Some(l) => files_view(l.common_files@),
        None => Seq::empty(),
    }
}

/// What a scan leads to before any digest is computed.
pub struct NewResultPlan {
    pub empty_dirs: Vec<EmptyDir>,
    pub reused: Vec<CommonFile>,
    pub to_hash: Vec<CommonFileIntermediate>,
}

/// The digest of the first file in `last` with this path and time.
fn find_md5(last: &Vec<CommonFile>, relpath: &String, mtime: &String) -> (r: Option<String>)
    ensures
        opt_view(r) == first_md5_match(files_view(last@), relpath@, mtime@),
{
    let ghost all = files_view(last@);
    let mut i: usize = 0;
    assert(all.skip(0) =~= all);
    while i < last.len()
        invariant
            i <= last@.len(),
            all == files_view(last@),
            first_md5_match(all, relpath@, mtime@) == first_md5_match(all.skip(i as int), relpath@, mtime@),
        decreases last@.len() - i,
    {
        assert(all.skip(i as int)[0] == last@[i as int]@);
        if last[i].relpath == *relpath && last[i].mtime == *mtime {
            return Some(last[i].md5.clone());
        }
        assert(all.skip(i as int).drop_first() =~= all.skip(i + 1));
        i = i + 1;
    }
    assert(all.skip(i as int).len() == 0);
    None
}

/// Reads a scan: the empty directories by relative path; among the files
/// with a known relative path and time, those whose digest the previous
/// record lends (same path and time) and those whose digest must be computed.
pub fn plan_new_result(
    base: &str,
    empty_dir_paths: &Vec<String>,
    files: &Vec<ScannedFile>,
    last: Option<&LastResult>,
) -> (plan: NewResultPlan)
    ensures
        dirs_view(plan.empty_dirs@) == new_empty_dirs(base@, views(empty_dir_paths@)),
        files_view(plan.reused@) == reused_files(candidates(base@, views(files@)), lender_files(last)),
        views(plan.to_hash@) == files_to_hash(candidates(base@, views(files@)), lender_files(last)),
{
    let ghost dir_paths = views(empty_dir_paths@);
    let ghost rel = |p: Seq<char>| relative_path(p, base@);
    let mut empty_dirs: Vec<EmptyDir> = Vec::new();
    let mut i: usize = 0;
    while i < empty_dir_paths.len()
        invariant
            i <= empty_dir_paths@.len(),
            dir_paths == views(empty_dir_paths@),
            rel == (|p: Seq<char>| relative_path(p, base@)),
            dirs_view(empty_dirs@) == dir_paths.take(i as int).filter_map(rel),
        decreases empty_dir_paths@.len() - i,
    {
        let ghost prev = dirs_view(empty_dirs@);
        assert(dir_paths.take(i + 1).drop_last() =~= dir_paths.take(i as int));
        assert(dir_paths.take(i + 1).last() == empty_dir_paths@[i as int]@);
        match relative_path_of(empty_dir_paths[i].as_str(), base) {
            Some(r) => {
                empty_dirs.push(EmptyDir { relpath: r });
                assert(dirs_view(empty_dirs@) =~= prev + seq![rel(dir_paths[i as int])->0]);
            },
            None => {},
        }
        i = i + 1;
    }
    assert(dir_paths.take(empty_dir_paths@.len() as int) =~= dir_paths);

    let ghost scanned = views(files@);
    let ghost lender = lender_files(last);
    let ghost cand = |f: ScannedFileView| candidate(base@, f);
    let ghost lend = |c: IntermediateView| reuse(lender, c);
    let ghost unlent = |c: IntermediateView| first_md5_match(lender, c.relpath, c.mtime) is None;
    let mut reused: Vec<CommonFile> = Vec::new();
    let mut to_hash: Vec<CommonFileIntermediate> = Vec::new();
    let mut j: usize = 0;
    while j < files.len()
        invariant
            j <= files@.len(),
            scanned == views(files@),
            lender == lender_files(last),
            cand == (|f: ScannedFileView| candidate(base@, f)),
            lend == (|c: IntermediateView| reuse(lender, c)),
            unlent == (|c: IntermediateView| first_md5_match(lender, c.relpath, c.mtime) is None),
            files_view(reused@) == scanned.take(j as int).filter_map(cand).filter_map(lend),
            views(to_hash@) == scanned.take(j as int).filter_map(cand).filter(unlent),
        decreases files@.len() - j,
    {
        let f = &files[j];
        let ghost fv = f@;
        let ghost before = scanned.take(j as int).filter_map(cand);
        assert(scanned.take(j + 1).drop_last() =~= scanned.take(j as int));
        assert(scanned.take(j + 1).last() == fv);
        let rel = relative_path_of(f.path.as_str(), base);
        if let Some(relpath) = rel {
            if let Some(mtime_ref) = &f.mtime {
                let mtime = mtime_ref.clone();
                let ghost c = IntermediateView { mtime: mtime@, relpath: relpath@, id: f.id };
                assert(cand(fv) == Some(c));
                assert(scanned.take(j + 1).filter_map(cand) == before + seq![c]);
                proof {
                    assert((before + seq![c]).drop_last() =~= before);
                    assert((before + seq![c]).last() == c);
                    before.lemma_filter_push(c, unlent);
                    assert(before + seq![c] =~= before.push(c));
                }
                let found = match last {
                    Some(l) => find_md5(&l.common_files, &relpath, &mtime),
                    None => None,
                };
                assert(opt_view(found) == first_md5_match(lender, relpath@, mtime@));
                let ghost prev_reused = files_view(reused@);
                let ghost prev_hash = views(to_hash@);
                match found {
                    Some(md5) => {
                        reused.push(CommonFile { md5, mtime, relpath });
                        assert(files_view(reused@) =~= prev_reused + seq![lend(c)->0]);
                    },
                    None => {
                        to_hash.push(CommonFileIntermediate { mtime, relpath, id: f.id });
                        assert(views(to_hash@) =~= prev_hash.push(c));
                    },
                }
            } else {
                assert(cand(fv) is None);
            }
        } else {
            assert(cand(fv) is None);
        }
        j = j + 1;
    }
    assert(scanned.take(files@.len() as int) =~= scanned);
    NewResultPlan { empty_dirs, reused, to_hash }
}

impl CommonFileIntermediate {
    /// The file, with the digest of its contents.
    pub fn into_common_file(self, contents: &[u8]) -> (file: CommonFile)
        ensures
            file@ == (CommonFileView {
                md5: hex_lower(md5_digest(contents@)),
                mtime: self.mtime@,
                relpath: self.relpath@,
            }),
            is_well_formed_md5(file.md5@),
    {
        CommonFile { md5: md5_hex(contents), mtime: self.mtime, relpath: self.relpath }
    }
}

/// Puts the files (those with a lent digest, then those with a computed
/// one) and the empty directories in order of relative path, as a stable
/// sort does: entries with the same path keep their order.
pub fn finish_new_result(
    reused: Vec<CommonFile>,
    hashed: Vec<CommonFile>,
    empty_dirs: Vec<EmptyDir>,
) -> (r: NewResult)
    ensures
        files_view(r.common_files@).to_multiset() == (files_view(reused@) + files_view(
            hashed@,
        )).to_multiset(),
        sorted_by_key::<CommonFile>(files_view(r.common_files@)),
        forall|k: Seq<char>| #[trigger] with_key::<CommonFile>(files_view(r.common_files@), k)
            == with_key::<CommonFile>(files_view(reused@) + files_view(hashed@), k),
        dirs_view(r.empty_dirs@).to_multiset() == dirs_view(empty_dirs@).to_multiset(),
        sorted_by_key::<EmptyDir>(dirs_view(r.empty_dirs@)),
        forall|k: Seq<char>| #[trigger] with_key::<EmptyDir>(dirs_view(r.empty_dirs@), k)
            == with_key::<EmptyDir>(dirs_view(empty_dirs@), k),
{
    let mut all = reused;
    let mut rest = hashed;
    let ghost a = files_view(all@);
    let ghost b = files_view(rest@);
    all.append(&mut rest);
    assert(files_view(all@) =~= a + b);
    NewResult { common_files: sort_by_key(all), empty_dirs: sort_by_key(empty_dirs) }
}

impl NewResult {
    /// The text of the record file: the empty directories' lines, then the
    /// files' lines, each followed by a newline.
    pub fn to_text(&self) -> (text: String)
        ensures
            text@ == dirs_text(dirs_view(self.empty_dirs@)) + files_text(
                files_view(self.common_files@),
            ),
    {
        let mut text = String::new();
        push_dir_lines(&mut text, &self.empty_dirs);
        push_file_lines(&mut text, &self.common_files);
        assert(text@ =~= dirs_text(dirs_view(self.empty_dirs@)) + files_text(
            files_view(self.common_files@),
        ));
        text
    }
}

/// The name of the record file written at a time stamp: the stamp, then `.txt`.
pub fn result_file_name(stamp: &str) -> (name: String)
    ensures
        name@ == stamp@ + ".txt"@,
{
    let mut name = String::new();
    name.append(stamp);
    name.append(".txt");
    name
}

/// The number that the two digits at `i` and `i + 1` write.
pub open spec fn two_digit_value(s: Seq<char>, i: int) -> int {
    (s[i] as int - 48) * 10 + (s[i + 1] as int - 48)
}

/// A time stamp `yymmddHHMMSS`: twelve ASCII digits, with a month from 01
/// to 12, a day from 01 to 31, an hour from 00 to 23, a minute from 00 to 59
/// and a second from 00 to 60.
pub open spec fn is_time_stamp(s: Seq<char>) -> bool {
    &&& is_well_formed_mtime(s)
    &&& 1 <= two_digit_value(s, 2) <= 12
    &&& 1 <= two_digit_value(s, 4) <= 31
    &&& two_digit_value(s, 6) <= 23
    &&& two_digit_value(s, 8) <= 59
    &&& two_digit_value(s, 10) <= 60
}

/// The proleptic Gregorian date `(year, month, day)` of a day counted from
/// 1970-01-01 (day 0), negative before it.
pub open spec fn civil_from_days(days: int) -> (int, int, int) {
    let z = days + 719468;
    let era = z / 146097;
    let doe = z - era * 146097;
    let yoe = (doe - doe / 1460 + doe / 36524 - doe / 146096) / 365;
    let doy = doe - (365 * yoe + yoe / 4 - yoe / 100);
    let mp = (5 * doy + 2) / 153;
    let d = doy - (153 * mp + 2) / 5 + 1;
    let m = if mp < 10 {
        mp + 3
    } else {
        mp - 9
    };
    let y = yoe + era * 400 + (if m <= 2 {
        1int
    } else {
        0int
    });
    (y, m, d)
}

/// A number below 100 as two decimal digits, the first possibly `0`.
pub open spec fn two_digits(n: int) -> Seq<char> {
    seq![digit_char((n / 10) as nat), digit_char((n % 10) as nat)]
}

/// The stamp `yymmddHHMMSS` of a time given as seconds since 1970-01-01
/// 00:00:00 on the clock being shown (negative before it): the year modulo
/// 100, the month, the day, the hour, the minute and the second, each as two
/// digits. Nanoseconds of a second or more mark a leap second, shown as one
/// more second.
pub open spec fn civil_stamp(t: int, nanos: nat) -> Seq<char> {
    let days = t / 86400;
    let sod = t % 86400;
    let (y, m, d) = civil_from_days(days);
    let leap: int = if nanos >= 1_000_000_000 {
        1
    } else {
        0
    };
    two_digits(y % 100) + two_digits(m) + two_digits(d) + two_digits(sod / 3600) + two_digits(
        (sod % 3600) / 60,
    ) + two_digits(sod % 60 + leap)
}

/// The stamp of a UTC time shown on a clock that differs from UTC by less
/// than a day, as every local offset does.
pub open spec fn local_stamp_of(secs: int, nanos: nat, s: Seq<char>) -> bool {
    exists|off: int| -86_400 < off < 86_400 && s == #[trigger] shifted_stamp(secs, off, nanos)
}

/// The stamp of a time shifted by `off` seconds.
pub open spec fn shifted_stamp(secs: int, off: int, nanos: nat) -> Seq<char> {
    civil_stamp(secs + off, nanos)
}

/// Calls `chrono`'s `DateTime::<Utc>::from_timestamp(secs, nanos)` and, when
/// it gives a time, converts it with `with_timezone(&Local)` and formats it
/// with `%y%m%d%H%M%S`. Trusted:
/// - a text that comes back is the stamp of the time shifted by the local
///   offset, which chrono holds as a `FixedOffset` (under a day either way,
///   `east_opt`); the fields come from the local date and time, each written
///   by `write_two` with zero padding; a leap second (nanoseconds of a second
///   or more) shows as second 60;
/// - that text is a time stamp with fields in their documented ranges;
/// - a text comes back whenever the nanoseconds are below one second and the
///   seconds lie within 8,000,000,000,000 of the epoch (about 253,000 years,
///   inside chrono's range of years -262,144 to 262,143).
/// Left unsaid: which offset, since it depends on the local time zone, read
/// from `TZ` or `/etc/localtime`.
#[verifier::external_body]
fn format_local(secs: i64, nanos: u32) -> (stamp: Option<String>)
    ensures
        stamp matches Some(s) ==> local_stamp_of(secs as int, nanos as nat, s@),
        stamp matches Some(s) ==> is_time_stamp(s@),
        nanos < 1_000_000_000 && -8_000_000_000_000 <= secs <= 8_000_000_000_000 ==> stamp is Some,
{
    match DateTime::<Utc>::from_timestamp(secs, nanos) {
        Some(utc) => Some(utc.with_timezone(&Local).format("%y%m%d%H%M%S").to_string()),
        None => None,
    }
}

/// A time, given as seconds and nanoseconds since the epoch (seconds before
/// it negative, nanoseconds counted forward), as the record writes it: the
/// stamp `yymmddHHMMSS` of that time on the local clock; nothing when the
/// time lies outside the range that chrono handles.
pub fn mtime_stamp(secs: i64, nanos: u32) -> (stamp: Option<String>)
    ensures
        stamp matches Some(s) ==> local_stamp_of(secs as int, nanos as nat, s@),
        stamp matches Some(s) ==> is_time_stamp(s@),
        nanos < 1_000_000_000 && -8_000_000_000_000 <= secs <= 8_000_000_000_000 ==> stamp is Some,
{
    format_local(secs, nanos)
}

/// The name of a new record file written at a time (seconds and
/// nanoseconds since the epoch): the stamp of that time on the local clock,
/// then `.txt`; nothing when the time lies outside the range that chrono
/// handles.
pub fn new_result_file_name(secs: i64, nanos: u32) -> (name: Option<String>)
    ensures
        name matches Some(n) ==> exists|stamp: Seq<char>|
            local_stamp_of(secs as int, nanos as nat, stamp) && is_time_stamp(stamp) && n@ == stamp
                + ".txt"@,
        nanos < 1_000_000_000 && -8_000_000_000_000 <= secs <= 8_000_000_000_000 ==> name is Some,
{
    match format_local(secs, nanos) {
        Some(stamp) => Some(result_file_name(stamp.as_str())),
        None => None,
    }
}

/// Each byte gives two lower-case hexadecimal digits.
proof fn lemma_hex_lower_len_ascii(bytes: Seq<u8>)
    ensures
        hex_lower(bytes).len() == 2 * bytes.len(),
        forall|i: int| 0 <= i < hex_lower(bytes).len() ==> is_lower_hex_digit(#[trigger] hex_lower(bytes)[i]),
    decreases bytes.len(),
{
    let f = |b: u8| seq![hex_digit((b / 16) as nat), hex_digit((b % 16) as nat)];
    if bytes.len() == 0 {
        assert(bytes.map_values(f) =~= Seq::<Seq<char>>::empty());
        assert(hex_lower(bytes) =~= Seq::<char>::empty());
    } else {
        let init = bytes.drop_last();
        let b = bytes.last();
        lemma_hex_lower_len_ascii(init);
        assert(bytes =~= init.push(b));
        assert(bytes.map_values(f) =~= init.map_values(f).push(f(b)));
        init.map_values(f).lemma_flatten_push(f(b));
        let h = hex_lower(bytes);
        let hi = hex_lower(init);
        assert(h =~= hi + f(b));
        assert(is_lower_hex_digit(hex_digit((b / 16) as nat)));
        assert(is_lower_hex_digit(hex_digit((b % 16) as nat)));
        assert forall|i| 0 <= i < h.len() implies is_lower_hex_digit(#[trigger] h[i]) by {
            if i < hi.len() {
                assert(h[i] == hi[i]);
            } else {
                assert(h[i] == f(b)[i - hi.len()]);
            }
        }
    }
}

/// A candidate with its digest computed by `digest`.
pub open spec fn fresh_file(
    c: IntermediateView,
    digest: spec_fn(IntermediateView) -> Seq<char>,
) -> CommonFileView {
    CommonFileView { md5: digest(c), mtime: c.mtime, relpath: c.relpath }
}

/// The files of a plan once the remaining digests are computed: the lent
/// ones, then the computed ones.
pub open spec fn planned_files(
    cands: Seq<IntermediateView>,
    last: Seq<CommonFileView>,
    digest: spec_fn(IntermediateView) -> Seq<char>,
) -> Seq<CommonFileView> {
    reused_files(cands, last) + files_to_hash(cands, last).map_values(
        |c: IntermediateView| fresh_file(c, digest),
    )
}

/// When every digest lent for a candidate is the one `digest` gives it, the
/// planned files are the candidates with their computed digests, up to order.
proof fn lemma_planned_files_are_fresh(
    cands: Seq<IntermediateView>,
    last: Seq<CommonFileView>,
    digest: spec_fn(IntermediateView) -> Seq<char>,
)
    requires
        forall|i: int|
            0 <= i < cands.len() ==> (first_md5_match(last, #[trigger] cands[i].relpath, cands[i].mtime) matches Some(
                m,
            ) ==> m == digest(cands[i])),
    ensures
        planned_files(cands, last, digest).to_multiset() == cands.map_values(
            |c: IntermediateView| fresh_file(c, digest),
        ).to_multiset(),
    decreases cands.len(),
{
    broadcast use vstd::seq_lib::group_to_multiset_ensures;
    broadcast use vstd::multiset::group_multiset_axioms;

    let fr = |c: IntermediateView| fresh_file(c, digest);
    let lend = |c: IntermediateView| reuse(last, c);
    let unlent = |c: IntermediateView| first_md5_match(last, c.relpath, c.mtime) is None;
    if cands.len() == 0 {
        reveal(Seq::filter);
        assert(planned_files(cands, last, digest) =~= Seq::<CommonFileView>::empty());
        assert(cands.map_values(fr) =~= Seq::<CommonFileView>::empty());
    } else {
        let init = cands.drop_last();
        let c = cands.last();
        assert forall|i: int|
            0 <= i < init.len() implies (first_md5_match(last, #[trigger] init[i].relpath, init[i].mtime) matches Some(
            m,
        ) ==> m == digest(init[i])) by {
            assert(init[i] == cands[i]);
        }
        lemma_planned_files_are_fresh(init, last, digest);
        assert(cands =~= init.push(c));
        init.lemma_filter_push(c, unlent);
        let r0 = init.filter_map(lend);
        let h0 = init.filter(unlent).map_values(fr);
        assert(cands.map_values(fr) =~= init.map_values(fr).push(fr(c)));
        vstd::seq_lib::lemma_multiset_commutative(r0, h0);
        assert(first_md5_match(last, cands[cands.len() - 1].relpath, cands[cands.len() - 1].mtime)
            matches Some(m) ==> m == digest(c));
        match first_md5_match(last, c.relpath, c.mtime) {
            Some(m) => {
                assert(reused_files(cands, last) == r0 + seq![fr(c)]);
                assert(files_to_hash(cands, last) == init.filter(unlent));
                vstd::seq_lib::lemma_multiset_commutative(r0 + seq![fr(c)], h0);
                vstd::seq_lib::lemma_multiset_commutative(r0, seq![fr(c)]);
                assert(seq![fr(c)] =~= Seq::<CommonFileView>::empty().push(fr(c)));
                assert(planned_files(cands, last, digest).to_multiset() =~= cands.map_values(
                    fr,
                ).to_multiset());
            },
            None => {
                assert(reused_files(cands, last) == r0);
                assert(files_to_hash(cands, last) == init.filter(unlent).push(c));
                assert(init.filter(unlent).push(c).map_values(fr) =~= h0.push(fr(c)));
                vstd::seq_lib::lemma_multiset_commutative(r0, h0.push(fr(c)));
                assert(planned_files(cands, last, digest).to_multiset() =~= cands.map_values(
                    fr,
                ).to_multiset());
            },
        }
    }
}

/// Lending digests changes nothing when the lent digests are right: if
/// every digest that the previous record lends for a candidate is the one
/// computing it would give, the files of the plan (lent and computed) are
/// the files of the plan with no previous record, up to order.
pub proof fn lemma_lent_digests_give_fresh_record(
    cands: Seq<IntermediateView>,
    last: Seq<CommonFileView>,
    digest: spec_fn(IntermediateView) -> Seq<char>,
)
    requires
        forall|i: int|
            0 <= i < cands.len() ==> (first_md5_match(last, #[trigger] cands[i].relpath, cands[i].mtime) matches Some(
                m,
            ) ==> m == digest(cands[i])),
    ensures
        planned_files(cands, last, digest).to_multiset() == planned_files(
            cands,
            Seq::empty(),
            digest,
        ).to_multiset(),
{
    lemma_planned_files_are_fresh(cands, last, digest);
    lemma_planned_files_are_fresh(cands, Seq::empty(), digest);
}

/// The new record does not depend on the order in which digests arrive, nor
/// on whether right digests were lent: two lists of files sorted by path,
/// with no path twice and the same entries, are equal; and that is what
/// [`finish_new_result`] gives for lists with the same entries.
pub proof fn lemma_new_record_fixed_by_entries(a: Seq<CommonFileView>, b: Seq<CommonFileView>)
    requires
        a.to_multiset() == b.to_multiset(),
        sorted_by_key::<CommonFile>(a),
        sorted_by_key::<CommonFile>(b),
        distinct_keys::<CommonFile>(a),
    ensures
        a == b,
{
    lemma_sorted_unique::<CommonFile>(a, b);
}

/// Two runs over the same candidates give the same record, whatever each
/// run lends from its previous record (as long as what it lends is right)
/// and in whatever order its computed files arrive: each run's files are
/// the lent ones with the computed ones in some order, put in order of path
/// as [`finish_new_result`] does; when the paths are all different, the
/// two records are equal. With `last2` empty this is a run that lends
/// nothing; with `last1 == last2` it is two runs of the program.
pub proof fn lemma_runs_give_same_record(
    cands: Seq<IntermediateView>,
    digest: spec_fn(IntermediateView) -> Seq<char>,
    last1: Seq<CommonFileView>,
    hashed1: Seq<CommonFileView>,
    record1: Seq<CommonFileView>,
    last2: Seq<CommonFileView>,
    hashed2: Seq<CommonFileView>,
    record2: Seq<CommonFileView>,
)
    requires
        forall|i: int|
            0 <= i < cands.len() ==> (first_md5_match(last1, #[trigger] cands[i].relpath, cands[i].mtime) matches Some(
                m,
            ) ==> m == digest(cands[i])),
        forall|i: int|
            0 <= i < cands.len() ==> (first_md5_match(last2, #[trigger] cands[i].relpath, cands[i].mtime) matches Some(
                m,
            ) ==> m == digest(cands[i])),
        hashed1.to_multiset() == files_to_hash(cands, last1).map_values(
            |c: IntermediateView| fresh_file(c, digest),
        ).to_multiset(),
        hashed2.to_multiset() == files_to_hash(cands, last2).map_values(
            |c: IntermediateView| fresh_file(c, digest),
        ).to_multiset(),
        record1.to_multiset() == (reused_files(cands, last1) + hashed1).to_multiset(),
        record2.to_multiset() == (reused_files(cands, last2) + hashed2).to_multiset(),
        sorted_by_key::<CommonFile>(record1),
        sorted_by_key::<CommonFile>(record2),
        distinct_keys::<CommonFile>(record1),
    ensures
        record1 == record2,
{
    broadcast use vstd::seq_lib::group_to_multiset_ensures;

    let fr = |c: IntermediateView| fresh_file(c, digest);
    lemma_planned_files_are_fresh(cands, last1, digest);
    lemma_planned_files_are_fresh(cands, last2, digest);
    vstd::seq_lib::lemma_multiset_commutative(reused_files(cands, last1), hashed1);
    vstd::seq_lib::lemma_multiset_commutative(reused_files(cands, last2), hashed2);
    vstd::seq_lib::lemma_multiset_commutative(
        reused_files(cands, last1),
        files_to_hash(cands, last1).map_values(fr),
    );
    vstd::seq_lib::lemma_multiset_commutative(
        reused_files(cands, last2),
        files_to_hash(cands, last2).map_values(fr),
    );
    assert(record1.to_multiset() =~= record2.to_multiset());
    lemma_sorted_unique::<CommonFile>(record1, record2);
}

/// A digest is lent only by an entry of the previous record with the same
/// relative path and the same modification time, and it is the first such
/// entry; nothing is lent when no entry has both.
pub proof fn lemma_lent_digest_comes_from_same_path_and_time(
    last: Seq<CommonFileView>,
    relpath: Seq<char>,
    mtime: Seq<char>,
)
    ensures
        first_md5_match(last, relpath, mtime) is None <==> forall|i: int|
            0 <= i < last.len() ==> !(#[trigger] last[i].relpath == relpath && last[i].mtime
                == mtime),
        first_md5_match(last, relpath, mtime) matches Some(d) ==> exists|i: int|
            0 <= i < last.len() && #[trigger] last[i].relpath == relpath && last[i].mtime == mtime
                && last[i].md5 == d && forall|j: int|
                0 <= j < i ==> !(#[trigger] last[j].relpath == relpath && last[j].mtime == mtime),
    decreases last.len(),
{
    if last.len() > 0 {
        let rest = last.drop_first();
        lemma_lent_digest_comes_from_same_path_and_time(rest, relpath, mtime);
        if last[0].relpath == relpath && last[0].mtime == mtime {
            assert(last[0].relpath == relpath && last[0].mtime == mtime && last[0].md5 == last[0].md5);
        } else {
            assert forall|i: int| 0 <= i < rest.len() implies rest[i] == last[i + 1] by {}
            if first_md5_match(rest, relpath, mtime) is None {
                assert forall|i: int| 0 <= i < last.len() implies !(#[trigger] last[i].relpath
                    == relpath && last[i].mtime == mtime) by {
                    if i > 0 {
                        assert(last[i] == rest[i - 1]);
                    }
                }
            } else {
                let d = first_md5_match(rest, relpath, mtime)->0;
                let k = choose|k: int|
                    0 <= k < rest.len() && #[trigger] rest[k].relpath == relpath && rest[k].mtime
                        == mtime && rest[k].md5 == d && forall|j: int|
                        0 <= j < k ==> !(#[trigger] rest[j].relpath == relpath && rest[j].mtime
                            == mtime);
                assert(last[k + 1] == rest[k]);
                assert forall|j: int| 0 <= j < k + 1 implies !(#[trigger] last[j].relpath
                    == relpath && last[j].mtime == mtime) by {
                    if j > 0 {
                        assert(last[j] == rest[j - 1]);
                    }
                }
                assert(last[k + 1].relpath == relpath);
            }
        }
    }
}

} // verus!
