use chrono::{DateTime, Local, Offset, TimeZone, Utc};

use spydir::result::new::{mtime_stamp, new_result_file_name};

/// The proleptic Gregorian date of a day counted from 1970-01-01.
fn civil_from_days(days: i64) -> (i64, i64, i64) {
    let z = days + 719468;
    let era = z.div_euclid(146097);
    let doe = z - era * 146097;
    let yoe = (doe - doe / 1460 + doe / 36524 - doe / 146096) / 365;
    let doy = doe - (365 * yoe + yoe / 4 - yoe / 100);
    let mp = (5 * doy + 2) / 153;
    let d = doy - (153 * mp + 2) / 5 + 1;
    let m = if mp < 10 { mp + 3 } else { mp - 9 };
    let y = yoe + era * 400 + if m <= 2 { 1 } else { 0 };
    (y, m, d)
}

fn civil_stamp(t: i64, nanos: u32) -> String {
    let days = t.div_euclid(86400);
    let sod = t.rem_euclid(86400);
    let (y, m, d) = civil_from_days(days);
    let leap = if nanos >= 1_000_000_000 { 1 } else { 0 };
    format!(
        "{:02}{:02}{:02}{:02}{:02}{:02}",
        y.rem_euclid(100),
        m,
        d,
        sod / 3600,
        (sod % 3600) / 60,
        sod % 60 + leap
    )
}

fn local_offset(secs: i64) -> i64 {
    let utc: DateTime<Utc> = DateTime::from_timestamp(secs, 0).unwrap();
    Local.offset_from_utc_datetime(&utc.naive_utc()).fix().local_minus_utc() as i64
}

#[test]
fn calendar_of_known_days() {
    assert_eq!(civil_stamp(0, 0), "700101000000");
    assert_eq!(civil_stamp(1_700_000_000, 0), "231114221320");
    assert_eq!(civil_stamp(951_782_400, 0), "000229000000");
    assert_eq!(civil_stamp(-1, 0), "691231235959");
    assert_eq!(civil_stamp(1_483_228_799, 1_000_000_000), "161231235960");
}

#[test]
fn stamp_is_the_local_civil_time() {
    for secs in [0i64, 1_700_000_000, -1_000_000, 951_782_400, 4_102_444_800, -62_135_596_800] {
        let off = local_offset(secs);
        assert!(-86_400 < off && off < 86_400);
        assert_eq!(mtime_stamp(secs, 0).unwrap(), civil_stamp(secs + off, 0));
        assert_eq!(
            new_result_file_name(secs, 7).unwrap(),
            format!("{}.txt", civil_stamp(secs + off, 7))
        );
    }
}

#[test]
fn leap_second_shows_as_sixty() {
    let secs = 1_483_228_799i64;
    let off = local_offset(secs);
    assert_eq!(mtime_stamp(secs, 1_500_000_000).unwrap(), civil_stamp(secs + off, 1_500_000_000));
}
