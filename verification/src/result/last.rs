//! The record of the previous run, read back from its text.

use vstd::prelude::*;
use vstd::utf8::*;

use crate::item::{
    common_file_line, dirs_text, empty_dir_line, files_text, is_well_formed_file,
    lemma_common_file_line_roundtrip, lemma_empty_dir_line_roundtrip, lemma_well_formed_file_widths,
    is_lower_hex_digit, CommonFileView,
    empty_dir_marker, is_well_formed_mtime, files_view, dirs_view, is_common_file_line, lemma_empty_dir_marker,
    lemma_marker_line_is_empty_dir_line, parse_common_file_line, parse_empty_dir_line,
    CommonFile, EmptyDir, ToCommonFile, ToEmptyDir,
};
use crate::seqs;
use crate::text;
use crate::text::{has_no, split_on, starts_with};

verus! {

broadcast use vstd::utf8::group_utf8_lib;

/// The record of the previous run.
pub struct LastResult {
    pub common_files: Vec<CommonFile>,
    pub empty_dirs: Vec<EmptyDir>,
}

/// A line of a record file: either it begins with the empty-directory
/// marker, or it can be cut into a common file.
pub open spec fn is_record_line(line: Seq<char>) -> bool {
    starts_with(line, empty_dir_marker()) || is_common_file_line(line)
}

/// The lines that stand for empty directories.
pub open spec fn is_marker_line(line: Seq<char>) -> bool {
    starts_with(line, empty_dir_marker())
}

/// The empty directories that the lines of a record file stand for, in order.
pub open spec fn record_dirs(lines: Seq<Seq<char>>) -> Seq<Seq<char>> {
    lines.filter(|l: Seq<char>| is_marker_line(l)).map_values(
        |l: Seq<char>| parse_empty_dir_line(l),
    )
}

/// The common files that the lines of a record file stand for, in order.
pub open spec fn record_files(lines: Seq<Seq<char>>) -> Seq<crate::item::CommonFileView> {
    lines.filter(|l: Seq<char>| !is_marker_line(l)).map_values(
        |l: Seq<char>| parse_common_file_line(l),
    )
}

/// The character views of a sequence of strings.
pub open spec fn strings_view(v: Seq<String>) -> Seq<Seq<char>> {
    v.map_values(|s: String| s@)
}

/// Whether `line` begins with the empty-directory marker.
pub fn starts_with_marker(line: &str) -> (b: bool)
    ensures
        b == is_marker_line(line@),
{
    proof {
        lemma_empty_dir_marker();
        reveal_strlit("               empty_directory                ");
    }
    let marker = "               empty_directory                ";
    if line.unicode_len() < 46 {
        return false;
    }
    let mut i: usize = 0;
    while i < 46
        invariant
            i <= 46,
            46 <= line@.len(),
            marker@ == empty_dir_marker(),
            marker@.len() == 46,
            forall|k: int| 0 <= k < i ==> line@[k] == marker@[k],
        decreases 46 - i,
    {
        if line.get_char(i) != marker.get_char(i) {
            assert(line@.subrange(0, 46)[i as int] != marker@[i as int]);
            return false;
        }
        i = i + 1;
    }
    assert(line@.subrange(0, 46) =~= marker@);
    true
}

/// Whether a line of a record file can be read: it begins with the marker,
/// or it can be cut into a common file.
pub fn is_record_line_exec(line: &str) -> (b: bool)
    ensures
        b == is_record_line(line@),
{
    if starts_with_marker(line) {
        return true;
    }
    let n = line.as_bytes().len();
    n >= 46 && line.is_char_boundary(12) && line.is_char_boundary(13) && line.is_char_boundary(45)
        && line.is_char_boundary(46)
}

/// Reads the lines of a record file: lines that begin with the marker are
/// empty directories, the others common files.
pub fn parse_result_lines(lines: &Vec<String>) -> (res: LastResult)
    requires
        forall|i: int| 0 <= i < lines@.len() ==> is_record_line(#[trigger] lines@[i]@),
    ensures
        files_view(res.common_files@) == record_files(strings_view(lines@)),
        dirs_view(res.empty_dirs@) == record_dirs(strings_view(lines@)),
{
    let mut common_files: Vec<CommonFile> = Vec::new();
    let mut empty_dirs: Vec<EmptyDir> = Vec::new();
    let ghost all = strings_view(lines@);
    let ghost is_dir = |l: Seq<char>| is_marker_line(l);
    let ghost is_file = |l: Seq<char>| !is_marker_line(l);
    let mut i: usize = 0;
    while i < lines.len()
        invariant
            i <= lines@.len(),
            all == strings_view(lines@),
            is_dir == (|l: Seq<char>| is_marker_line(l)),
            is_file == (|l: Seq<char>| !is_marker_line(l)),
            forall|j: int| 0 <= j < lines@.len() ==> is_record_line(#[trigger] lines@[j]@),
            files_view(common_files@) == all.take(i as int).filter(is_file).map_values(
                |l: Seq<char>| parse_common_file_line(l),
            ),
            dirs_view(empty_dirs@) == all.take(i as int).filter(is_dir).map_values(
                |l: Seq<char>| parse_empty_dir_line(l),
            ),
        decreases lines@.len() - i,
    {
        let line = &lines[i];
        let ghost l = line@;
        assert(all.take(i + 1) =~= all.take(i as int).push(l));
        proof {
            all.take(i as int).lemma_filter_push(l, is_dir);
            all.take(i as int).lemma_filter_push(l, is_file);
        }
        if starts_with_marker(line.as_str()) {
            proof {
                lemma_marker_line_is_empty_dir_line(l);
            }
            let dir = line.to_empty_dir();
            let ghost prev_dirs = empty_dirs@;
            empty_dirs.push(dir);
            proof {
                assert(is_dir(l));
                let before = all.take(i as int).filter(is_dir);
                assert(all.take(i + 1).filter(is_dir) == before.push(l));
                assert(before.push(l).map_values(|l: Seq<char>| parse_empty_dir_line(l))
                    =~= before.map_values(|l: Seq<char>| parse_empty_dir_line(l)).push(
                    parse_empty_dir_line(l),
                ));
                assert(dirs_view(empty_dirs@) =~= dirs_view(prev_dirs).push(dir@));
                assert(!is_file(l));
            }
        } else {
            let file = line.to_common_file();
            let ghost prev_files = common_files@;
            common_files.push(file);
            proof {
                assert(is_file(l));
                let before = all.take(i as int).filter(is_file);
                assert(all.take(i + 1).filter(is_file) == before.push(l));
                assert(before.push(l).map_values(|l: Seq<char>| parse_common_file_line(l))
                    =~= before.map_values(|l: Seq<char>| parse_common_file_line(l)).push(
                    parse_common_file_line(l),
                ));
                assert(files_view(common_files@) =~= files_view(prev_files).push(file@));
                assert(!is_dir(l));
            }
        }
        i = i + 1;
    }
    assert(all.take(lines@.len() as int) =~= all);
    LastResult { common_files, empty_dirs }
}

/// A byte that is an ASCII decimal digit.
pub open spec fn is_digit_byte(b: u8) -> bool {
    48 <= b <= 57
}

/// The number that a sequence of ASCII decimal digits writes.
pub open spec fn digits_value(d: Seq<u8>) -> nat
    decreases d.len(),
{
    if d.len() == 0 {
        0
    } else {
        digits_value(d.drop_last()) * 10 + (d.last() - 48) as nat
    }
}

/// What parsing bytes as a `u64` gives: an optional `+`, then one or more
/// ASCII digits whose value fits in a `u64`; anything else is refused.
pub open spec fn parse_u64_bytes(d: Seq<u8>) -> Option<nat> {
    if d.len() > 0 && d[0] == 43 {
        parse_digit_bytes(d.drop_first())
    } else {
        parse_digit_bytes(d)
    }
}

/// One or more ASCII digits whose value fits in a `u64`, and that value.
pub open spec fn parse_digit_bytes(d: Seq<u8>) -> Option<nat> {
    if d.len() > 0 && (forall|i: int| 0 <= i < d.len() ==> is_digit_byte(#[trigger] d[i]))
        && digits_value(d) <= u64::MAX {
        Some(digits_value(d))
    } else {
        None
    }
}

/// The bytes of `.txt`.
pub open spec fn txt_suffix_bytes() -> Seq<u8> {
    seq![46u8, 116u8, 120u8, 116u8]
}

/// The number of a record file, by its name: a name of 16 bytes that ends
/// with `.txt` and whose first 12 bytes parse as a `u64`.
pub open spec fn result_name_id(name: Seq<char>) -> Option<nat> {
    let b = encode_utf8(name);
    if b.len() == 16 && b.subrange(12, 16) == txt_suffix_bytes() {
        parse_u64_bytes(b.subrange(0, 12))
    } else {
        None
    }
}

/// The larger of two optional numbers; a missing one yields to the other.
pub open spec fn max_option(a: Option<nat>, b: Option<nat>) -> Option<nat> {
    match (a, b) {
        (None, y) => y,
        (x, None) => x,
        (Some(x), Some(y)) => Some(if x >= y { x } else { y }),
    }
}

/// The largest number among the names that are record files.
pub open spec fn latest_id(names: Seq<Seq<char>>) -> Option<nat>
    decreases names.len(),
{
    if names.len() == 0 {
        None
    } else {
        max_option(latest_id(names.drop_last()), result_name_id(names.last()))
    }
}

/// The latest number is the largest over all the names: every record file
/// among them has a number at most the latest, the latest is the number of
/// one of them, and there is none exactly when no name is a record file.
pub proof fn lemma_latest_id_is_largest(names: Seq<Seq<char>>)
    ensures
        forall|i: int|
            0 <= i < names.len() && (#[trigger] result_name_id(names[i])) is Some ==> latest_id(
                names,
            ) is Some && latest_id(names)->0 >= result_name_id(names[i])->0,
        latest_id(names) is Some ==> exists|i: int|
            0 <= i < names.len() && #[trigger] result_name_id(names[i]) == latest_id(names),
        latest_id(names) is None <==> forall|i: int|
            0 <= i < names.len() ==> (#[trigger] result_name_id(names[i])) is None,
    decreases names.len(),
{
    if names.len() > 0 {
        let init = names.drop_last();
        lemma_latest_id_is_largest(init);
        let n = names.len() - 1;
        assert forall|i: int| 0 <= i < n implies names[i] == #[trigger] init[i] by {}
        if latest_id(names) is Some {
            if latest_id(names) == result_name_id(names[n]) {
                assert(result_name_id(names[n]) == latest_id(names));
            } else {
                let j = choose|j: int|
                    0 <= j < init.len() && #[trigger] result_name_id(init[j]) == latest_id(init);
                assert(result_name_id(names[j]) == latest_id(names));
            }
        }
        assert forall|i: int|
            0 <= i < names.len() && (#[trigger] result_name_id(names[i])) is Some implies latest_id(
                names,
            ) is Some && latest_id(names)->0 >= result_name_id(names[i])->0 by {
            if i < n {
                assert(result_name_id(init[i]) is Some);
            }
        }
        if latest_id(names) is None {
            assert forall|i: int| 0 <= i < names.len() implies (#[trigger] result_name_id(
                names[i],
            )) is None by {
                if i < n {
                    assert(result_name_id(init[i]) is None);
                }
            }
        }
    }
}

/// A value of digits is at least the value of any prefix of them.
pub proof fn lemma_digits_value_prefix(d: Seq<u8>, k: int)
    requires
        0 <= k <= d.len(),
    ensures
        digits_value(d.take(k)) <= digits_value(d),
    decreases d.len(),
{
    if k < d.len() {
        assert(d.take(k) =~= d.drop_last().take(k));
        lemma_digits_value_prefix(d.drop_last(), k);
    } else {
        assert(d.take(k) =~= d);
    }
}

/// Parses `d[start..end]` as a `u64` made of digits only.
fn parse_digits(d: &[u8], start: usize, end: usize) -> (r: Option<u64>)
    requires
        start <= end <= d@.len(),
    ensures
        match r {
            Some(v) => parse_digit_bytes(d@.subrange(start as int, end as int)) == Some(v as nat),
            None => parse_digit_bytes(d@.subrange(start as int, end as int)) is None,
        },
{
    let ghost s = d@.subrange(start as int, end as int);
    if start == end {
        return None;
    }
    let mut value: u64 = 0;
    let mut i: usize = start;
    while i < end
        invariant
            start <= i <= end <= d@.len(),
            s == d@.subrange(start as int, end as int),
            forall|k: int| 0 <= k < i - start ==> is_digit_byte(#[trigger] s[k]),
            value == digits_value(s.take(i - start)),
        decreases end - i,
    {
        let c = d[i];
        assert(s[i - start] == c);
        if c < 48 || c > 57 {
            return None;
        }
        assert(s.take(i - start + 1).drop_last() =~= s.take(i - start));
        let digit: u64 = (c - 48) as u64;
        match value.checked_mul(10) {
            None => {
                proof {
                    lemma_digits_value_prefix(s, i - start + 1);
                }
                return None;
            },
            Some(times_ten) => match times_ten.checked_add(digit) {
                None => {
                    proof {
                        lemma_digits_value_prefix(s, i - start + 1);
                    }
                    return None;
                },
                Some(next) => {
                    value = next;
                },
            },
        }
        i = i + 1;
    }
    assert(s.take(end - start) =~= s);
    Some(value)
}

/// Parses bytes as a `u64` the way `str::parse::<u64>` does.
fn parse_u64(d: &[u8], end: usize) -> (r: Option<u64>)
    requires
        end <= d@.len(),
    ensures
        match r {
            Some(v) => parse_u64_bytes(d@.subrange(0, end as int)) == Some(v as nat),
            None => parse_u64_bytes(d@.subrange(0, end as int)) is None,
        },
{
    let ghost s = d@.subrange(0, end as int);
    assert(end > 0 ==> s[0] == d@[0]);
    if end > 0 && d[0] == 43 {
        assert(s.drop_first() =~= d@.subrange(1, end as int));
        parse_digits(d, 1, end)
    } else {
        parse_digits(d, 0, end)
    }
}

/// The number of a record file, by its name (see [`result_name_id`]).
pub fn result_file_id(name: &str) -> (r: Option<u64>)
    ensures
        match r {
            Some(v) => result_name_id(name@) == Some(v as nat),
            None => result_name_id(name@) is None,
        },
{
    let b = name.as_bytes();
    if b.len() == 16 && b[12] == 46 && b[13] == 116 && b[14] == 120 && b[15] == 116 {
        assert(b@.subrange(12, 16) =~= txt_suffix_bytes());
        parse_u64(b, 12)
    } else {
        assert(b@.len() == 16 ==> b@.subrange(12, 16)[0] == b@[12]);
        assert(b@.len() == 16 ==> b@.subrange(12, 16)[1] == b@[13]);
        assert(b@.len() == 16 ==> b@.subrange(12, 16)[2] == b@[14]);
        assert(b@.len() == 16 ==> b@.subrange(12, 16)[3] == b@[15]);
        None
    }
}

/// Among the names of the files in the record directory, the largest
/// number of a record file, if there is one.
pub fn latest_result_id(names: &Vec<String>) -> (r: Option<u64>)
    ensures
        match r {
            Some(v) => latest_id(strings_view(names@)) == Some(v as nat),
            None => latest_id(strings_view(names@)) is None,
        },
{
    let ghost all = strings_view(names@);
    let mut best: Option<u64> = None;
    let mut i: usize = 0;
    while i < names.len()
        invariant
            i <= names@.len(),
            all == strings_view(names@),
            match best {
                Some(v) => latest_id(all.take(i as int)) == Some(v as nat),
                None => latest_id(all.take(i as int)) is None,
            },
        decreases names@.len() - i,
    {
        let id = result_file_id(names[i].as_str());
        assert(all.take(i + 1).drop_last() =~= all.take(i as int));
        assert(all.take(i + 1).last() == names@[i as int]@);
        best = match (best, id) {
            (None, y) => y,
            (x, None) => x,
            (Some(x), Some(y)) => Some(if x >= y { x } else { y }),
        };
        i = i + 1;
    }
    assert(all.take(names@.len() as int) =~= all);
    best
}

/// The decimal digit character for `d < 10`.
pub open spec fn digit_char(d: nat) -> char {
    (48 + d) as char
}

/// The decimal form of a number, without leading zeros.
pub open spec fn decimal_string(n: nat) -> Seq<char>
    decreases n,
{
    if n < 10 {
        seq![digit_char(n)]
    } else {
        decimal_string(n / 10).push(digit_char(n % 10))
    }
}

/// Appends the decimal form of `n` to `s`.
fn push_decimal(s: &mut String, n: u64)
    ensures
        final(s)@ == old(s)@ + decimal_string(n as nat),
    decreases n,
{
    if n >= 10 {
        push_decimal(s, n / 10);
    }
    let d: usize = (n % 10) as usize;
    proof {
        reveal_strlit("0123456789");
    }
    let digits = "0123456789";
    assert(digits@[d as int] == digit_char(d as nat)) by {
        reveal_strlit("0123456789");
    }
    let one = digits.substring_ascii(d, d + 1);
    let ghost before = s@;
    s.append(one);
    assert(one@ =~= seq![digit_char((n % 10) as nat)]);
}

/// The name of the record file with number `id`: its decimal form, then `.txt`.
pub fn result_file_name_for_id(id: u64) -> (name: String)
    ensures
        name@ == decimal_string(id as nat) + ".txt"@,
{
    let mut name = String::new();
    push_decimal(&mut name, id);
    name.append(".txt");
    name
}

/// The lines of a record: the empty directories' lines, then the files'.
pub open spec fn record_lines(files: Seq<CommonFileView>, dirs: Seq<Seq<char>>) -> Seq<Seq<char>> {
    dirs.map_values(|d: Seq<char>| empty_dir_line(d)) + files.map_values(
        |f: CommonFileView| common_file_line(f),
    )
}

/// The text of a record is its lines, each followed by a newline.
pub proof fn lemma_record_text_is_lines(files: Seq<CommonFileView>, dirs: Seq<Seq<char>>)
    ensures
        dirs_text(dirs) + files_text(files) == record_lines(files, dirs).map_values(
            |l: Seq<char>| l + "\n"@,
        ).flatten(),
{
    let nl = |l: Seq<char>| l + "\n"@;
    let dl = dirs.map_values(|d: Seq<char>| empty_dir_line(d));
    let fl = files.map_values(|f: CommonFileView| common_file_line(f));
    assert((dl + fl).map_values(nl) =~= dl.map_values(nl) + fl.map_values(nl));
    vstd::seq_lib::lemma_flatten_concat(dl.map_values(nl), fl.map_values(nl));
    assert(dl.map_values(nl) =~= dirs.map_values(|d: Seq<char>| empty_dir_line(d) + "\n"@));
    assert(fl.map_values(nl) =~= files.map_values(
        |f: CommonFileView| common_file_line(f) + "\n"@,
    ));
}

/// The lines of a record whose files have well-formed times and digests
/// read back as that same record: each is a record line, the marker lines
/// give the directories and the others the files, both in order.
pub proof fn lemma_record_lines_read_back(files: Seq<CommonFileView>, dirs: Seq<Seq<char>>)
    requires
        forall|i: int| 0 <= i < files.len() ==> is_well_formed_file(#[trigger] files[i]),
    ensures
        forall|i: int|
            0 <= i < record_lines(files, dirs).len() ==> is_record_line(
                #[trigger] record_lines(files, dirs)[i],
            ),
        record_files(record_lines(files, dirs)) == files,
        record_dirs(record_lines(files, dirs)) == dirs,
{
    let dl = dirs.map_values(|d: Seq<char>| empty_dir_line(d));
    let fl = files.map_values(|f: CommonFileView| common_file_line(f));
    let lines = record_lines(files, dirs);
    let is_dir = |l: Seq<char>| is_marker_line(l);
    let is_file = |l: Seq<char>| !is_marker_line(l);
    assert forall|i: int| 0 <= i < dl.len() implies is_dir(#[trigger] dl[i]) && is_record_line(
        dl[i],
    ) by {
        lemma_empty_dir_line_roundtrip(dirs[i]);
    }
    assert forall|i: int| 0 <= i < fl.len() implies !is_dir(#[trigger] fl[i]) && is_record_line(
        fl[i],
    ) by {
        lemma_well_formed_file_widths(files[i]);
        lemma_common_file_line_roundtrip(files[i]);
    }
    assert forall|i: int| 0 <= i < lines.len() implies is_record_line(#[trigger] lines[i]) by {
        if i < dl.len() {
            assert(lines[i] == dl[i]);
        } else {
            assert(lines[i] == fl[i - dl.len()]);
        }
    }
    Seq::filter_distributes_over_add(dl, fl, is_dir);
    Seq::filter_distributes_over_add(dl, fl, is_file);
    seqs::lemma_filter_all(dl, is_dir);
    seqs::lemma_filter_none(dl, is_file);
    seqs::lemma_filter_none(fl, is_dir);
    seqs::lemma_filter_all(fl, is_file);
    assert(lines.filter(is_dir) =~= dl);
    assert(lines.filter(is_file) =~= fl);
    assert(dl.map_values(|l: Seq<char>| parse_empty_dir_line(l)) =~= dirs) by {
        assert forall|i: int| 0 <= i < dirs.len() implies #[trigger] parse_empty_dir_line(dl[i])
            == dirs[i] by {
            lemma_empty_dir_line_roundtrip(dirs[i]);
        }
    }
    assert(fl.map_values(|l: Seq<char>| parse_common_file_line(l)) =~= files) by {
        assert forall|i: int| 0 <= i < files.len() implies #[trigger] parse_common_file_line(fl[i])
            == files[i] by {
            lemma_well_formed_file_widths(files[i]);
        lemma_common_file_line_roundtrip(files[i]);
        }
    }
}

/// Ten to the power `n`.
pub open spec fn pow10(n: nat) -> nat
    decreases n,
{
    if n == 0 {
        1
    } else {
        10 * pow10((n - 1) as nat)
    }
}

/// A value of `n` digits is below ten to the `n`.
pub proof fn lemma_digits_value_bound(d: Seq<u8>)
    requires
        forall|i: int| 0 <= i < d.len() ==> is_digit_byte(#[trigger] d[i]),
    ensures
        digits_value(d) < pow10(d.len()),
    decreases d.len(),
{
    if d.len() > 0 {
        let init = d.drop_last();
        assert forall|i: int| 0 <= i < init.len() implies is_digit_byte(#[trigger] init[i]) by {
            assert(init[i] == d[i]);
        }
        lemma_digits_value_bound(init);
        let v = digits_value(init);
        let p = pow10(init.len());
        let last = (d.last() - 48) as nat;
        assert(is_digit_byte(d[d.len() - 1]));
        assert(last < 10);
        assert(v * 10 + last < 10 * p) by (nonlinear_arith)
            requires
                v < p,
                last < 10,
        ;
    }
}

/// Digits without a leading zero write back, in decimal, as the same digits.
pub proof fn lemma_decimal_of_digits(d: Seq<u8>, c: Seq<char>)
    requires
        d.len() == c.len(),
        d.len() >= 1,
        forall|i: int| 0 <= i < c.len() ==> '0' <= #[trigger] c[i] <= '9',
        forall|i: int| 0 <= i < d.len() ==> #[trigger] d[i] == c[i] as u8,
        c[0] != '0',
    ensures
        decimal_string(digits_value(d)) == c,
    decreases d.len(),
{
    assert forall|i: int| 0 <= i < d.len() implies is_digit_byte(#[trigger] d[i]) && d[i] as int
        == c[i] as int by {
        assert('0' <= c[i] <= '9');
    }
    let init = d.drop_last();
    let last = (d.last() - 48) as nat;
    assert(d[d.len() - 1] as int == c[c.len() - 1] as int);
    assert(digit_char(last) == c.last());
    if d.len() == 1 {
        assert(digits_value(init) == 0);
        assert(decimal_string(digits_value(d)) =~= c);
    } else {
        lemma_decimal_of_digits(init, c.drop_last());
        lemma_digits_value_prefix(init, 1);
        assert(init.take(1).drop_last() =~= Seq::<u8>::empty());
        assert(d[0] as int == c[0] as int);
        assert(digits_value(init.take(1)) >= 1);
        let v = digits_value(init);
        let n = digits_value(d);
        assert(n == v * 10 + last);
        assert(n >= 10 && n / 10 == v && n % 10 == last) by (nonlinear_arith)
            requires
                n == v * 10 + last,
                v >= 1,
                last < 10,
        ;
        assert(decimal_string(n) =~= c);
    }
}

/// The record file written at a stamp of twelve digits is recognised as a
/// record file, with the stamp's value as its number; when the stamp does
/// not start with `0`, the name made from that number is the written name.
pub proof fn lemma_result_name_read_back(stamp: Seq<char>)
    requires
        is_well_formed_mtime(stamp),
    ensures
        result_name_id(stamp + ".txt"@) == Some(digits_value(encode_utf8(stamp))),
        stamp[0] != '0' ==> decimal_string(digits_value(encode_utf8(stamp))) + ".txt"@ == stamp
            + ".txt"@,
{
    reveal_strlit(".txt");
    let txt = ".txt"@;
    assert(is_ascii_chars(stamp)) by {
        assert forall|i| 0 <= i < stamp.len() implies '\0' <= #[trigger] stamp[i] <= '\u{7f}' by {
            assert('0' <= stamp[i] <= '9');
        }
    }
    assert(is_ascii_chars(txt));
    is_ascii_chars_encode_utf8(stamp);
    is_ascii_chars_encode_utf8(txt);
    text::lemma_encode_concat(stamp, txt);
    let d = encode_utf8(stamp);
    let b = encode_utf8(stamp + txt);
    assert(b.subrange(12, 16) =~= txt_suffix_bytes());
    assert(b.subrange(0, 12) =~= d);
    assert forall|i: int| 0 <= i < d.len() implies is_digit_byte(#[trigger] d[i]) by {
        assert('0' <= stamp[i] <= '9');
        assert(d[i] == stamp[i] as u8);
    }
    assert(d[0] != 43) by {
        assert('0' <= stamp[0] <= '9');
        assert(d[0] == stamp[0] as u8);
    }
    lemma_digits_value_bound(d);
    assert(pow10(12) == 1000000000000) by {
        reveal_with_fuel(pow10, 13);
    }
    if stamp[0] != '0' {
        lemma_decimal_of_digits(d, stamp);
    }
}

/// A line without the carriage return that may end it.
pub open spec fn strip_cr(l: Seq<char>) -> Seq<char> {
    if l.len() > 0 && l.last() == '\r' {
        l.drop_last()
    } else {
        l
    }
}

/// The lines of a text as `BufRead::lines` gives them: the pieces between
/// newlines; each piece that a newline ends loses one carriage return at its
/// end; a last piece after the final newline is a line only when it is not
/// empty.
pub open spec fn text_lines(t: Seq<char>) -> Seq<Seq<char>> {
    let p = split_on(t, '\n');
    let ended = p.drop_last().map_values(|l: Seq<char>| strip_cr(l));
    if p.last().len() == 0 {
        ended
    } else {
        ended.push(p.last())
    }
}

/// Lines without newlines, none ending with a carriage return, each written
/// with a newline after it, read back as the same lines.
pub proof fn lemma_text_lines_of_written_lines(lines: Seq<Seq<char>>)
    requires
        forall|i: int| 0 <= i < lines.len() ==> has_no(#[trigger] lines[i], '\n'),
        forall|i: int| 0 <= i < lines.len() ==> strip_cr(#[trigger] lines[i]) == lines[i],
    ensures
        text_lines(lines.map_values(|l: Seq<char>| l + "\n"@).flatten()) == lines,
{
    reveal_strlit("\n");
    assert("\n"@ =~= seq!['\n']);
    let nl = |l: Seq<char>| l + "\n"@;
    // the pieces of the text written so far: the lines, then an empty piece
    assert forall|k: int| 0 <= k <= lines.len() implies #[trigger] split_on(
        lines.take(k).map_values(nl).flatten(),
        '\n',
    ) == lines.take(k).push(Seq::<char>::empty()) by {
        lemma_split_written_prefix(lines, k);
    }
    assert(lines.take(lines.len() as int) =~= lines);
    let p = lines.push(Seq::<char>::empty());
    assert(p.drop_last() =~= lines);
    assert(lines.map_values(|l: Seq<char>| strip_cr(l)) =~= lines);
}

/// The pieces of the first `k` lines written with newlines.
proof fn lemma_split_written_prefix(lines: Seq<Seq<char>>, k: int)
    requires
        0 <= k <= lines.len(),
        forall|i: int| 0 <= i < lines.len() ==> has_no(#[trigger] lines[i], '\n'),
        "\n"@ == seq!['\n'],
    ensures
        split_on(lines.take(k).map_values(|l: Seq<char>| l + "\n"@).flatten(), '\n')
            == lines.take(k).push(Seq::<char>::empty()),
    decreases k,
{
    let nl = |l: Seq<char>| l + "\n"@;
    if k == 0 {
        assert(lines.take(0).map_values(nl) =~= Seq::<Seq<char>>::empty());
        assert(lines.take(0).map_values(nl).flatten() =~= Seq::<char>::empty());
        assert(lines.take(0).push(Seq::<char>::empty()) =~= seq![Seq::<char>::empty()]);
    } else {
        lemma_split_written_prefix(lines, k - 1);
        let before = lines.take(k - 1);
        let l = lines[k - 1];
        assert(lines.take(k) =~= before.push(l));
        assert(before.push(l).map_values(nl) =~= before.map_values(nl).push(nl(l)));
        before.map_values(nl).lemma_flatten_push(nl(l));
        let x = before.map_values(nl).flatten();
        assert(x + nl(l) =~= (x + l).push('\n'));
        text::lemma_split_on_append_piece(x, l, '\n');
        assert((x + l).push('\n').drop_last() =~= x + l);
        assert(before.push(Seq::<char>::empty()).last() + l =~= l);
        assert(before.push(Seq::<char>::empty()).update(before.len() as int, l) =~= before.push(l));
    }
}

/// A record with well-formed files, whose paths hold no newline and do not
/// end with a carriage return, written as text and read back line by line as
/// `BufRead::lines` does, gives the same files and directories in the same
/// order.
pub proof fn lemma_written_record_reads_back(files: Seq<CommonFileView>, dirs: Seq<Seq<char>>)
    requires
        forall|i: int| 0 <= i < files.len() ==> is_well_formed_file(#[trigger] files[i]),
        forall|i: int| 0 <= i < files.len() ==> is_plain_path(#[trigger] files[i].relpath),
        forall|i: int| 0 <= i < dirs.len() ==> is_plain_path(#[trigger] dirs[i]),
    ensures
        text_lines(dirs_text(dirs) + files_text(files)) == record_lines(files, dirs),
        forall|i: int|
            0 <= i < text_lines(dirs_text(dirs) + files_text(files)).len() ==> is_record_line(
                #[trigger] text_lines(dirs_text(dirs) + files_text(files))[i],
            ),
        record_files(text_lines(dirs_text(dirs) + files_text(files))) == files,
        record_dirs(text_lines(dirs_text(dirs) + files_text(files))) == dirs,
{
    let lines = record_lines(files, dirs);
    lemma_record_text_is_lines(files, dirs);
    lemma_empty_dir_marker();
    reveal_strlit("               empty_directory                ");
    assert forall|i: int| 0 <= i < lines.len() implies has_no(#[trigger] lines[i], '\n')
        && strip_cr(lines[i]) == lines[i] by {
        let nd = dirs.len() as int;
        if i < nd {
            let d = dirs[i];
            let l = empty_dir_line(d);
            assert(lines[i] == l);
            assert forall|j: int| 0 <= j < l.len() implies #[trigger] l[j] != '\n' by {
                if j < 46 {
                    assert(l[j] == empty_dir_marker()[j]);
                } else {
                    assert(l[j] == d[j - 46]);
                }
            }
            assert(l.last() != '\r') by {
                if d.len() == 0 {
                    assert(l.last() == empty_dir_marker()[45]);
                } else {
                    assert(l.last() == d.last());
                }
            }
        } else {
            let f = files[i - nd];
            let l = common_file_line(f);
            assert(lines[i] == l);
            assert(is_well_formed_file(f));
            let head = f.mtime + seq![' '] + f.md5 + seq![' '];
            assert(l =~= head + f.relpath);
            assert forall|j: int| 0 <= j < l.len() implies #[trigger] l[j] != '\n' by {
                if j < 12 {
                    assert(l[j] == f.mtime[j]);
                    assert('0' <= f.mtime[j] <= '9');
                } else if 13 <= j < 45 {
                    assert(l[j] == f.md5[j - 13]);
                    assert(is_lower_hex_digit(f.md5[j - 13]));
                } else if j >= 46 {
                    assert(l[j] == f.relpath[j - 46]);
                }
            }
            assert(l.last() != '\r') by {
                if f.relpath.len() == 0 {
                    assert(l.last() == ' ');
                } else {
                    assert(l.last() == f.relpath.last());
                }
            }
        }
    }
    lemma_text_lines_of_written_lines(lines);
    lemma_record_lines_read_back(files, dirs);
}

/// A path that a record line can carry unchanged through a text file: no
/// newline in it, and no carriage return at its end.
pub open spec fn is_plain_path(p: Seq<char>) -> bool {
    has_no(p, '\n') && strip_cr(p) == p
}

} // verus!
