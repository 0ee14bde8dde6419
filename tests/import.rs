use irclog_import::catalog::{split_channel_dir, Catalog, NameTable};
use irclog_import::clock::{parse_clock, parse_log_date, LogDate, TimeOfDay, Timestamp};
use irclog_import::line::{entry_row, parse_line, EntryKind, LineError};
use irclog_import::resolve::{after_insert, after_lookup, InsertOutcome, NextStep};

fn date(year: u16, month: u8, day: u8) -> LogDate {
    LogDate { year, month, day }
}

fn tod(hour: u8, minute: u8, second: u8) -> TimeOfDay {
    TimeOfDay { hour, minute, second }
}

fn lines(text: &[&str]) -> Vec<Vec<u8>> {
    text.iter().map(|l| l.as_bytes().to_vec()).collect()
}

#[test]
fn short_lines_are_skipped() {
    for l in ["", "12:00:00", "12:00:00 ", "123456789"] {
        assert_eq!(parse_line(l.as_bytes()).unwrap_err(), LineError::TooShort);
    }
    let mut cat = Catalog::new();
    let ch = cat.enter_channel_dir(b"c@s").unwrap();
    assert_eq!(cat.import_line(ch, date(2024, 1, 1), b"12:00:00 "), Err(LineError::TooShort));
    assert_eq!(cat.entries().len(), 0);
    assert_eq!(cat.users().len(), 0);
}

#[test]
fn ten_bytes_is_enough() {
    let p = parse_line(b"12:00:00 !").unwrap();
    assert_eq!(p.kind, EntryKind::SysMsg);
    assert_eq!(p.body, b"".to_vec());
}

#[test]
fn timestamp_keeps_date_and_time() {
    let mut cat = Catalog::new();
    let ch = cat.enter_channel_dir(b"c@s").unwrap();
    cat.import_line(ch, date(2023, 7, 15), b"23:59:58 +joined").unwrap();
    let e = &cat.entries()[0];
    assert_eq!(e.created_at.date, date(2023, 7, 15));
    assert_eq!(e.created_at.time, tod(23, 59, 58));
    let ts = Timestamp::combine(date(1999, 12, 31), tod(1, 2, 3));
    assert_eq!(ts.date, date(1999, 12, 31));
    assert_eq!(ts.time, tod(1, 2, 3));
}

#[test]
fn nick_line_names_the_speaker() {
    let p = parse_line(b"12:00:00 <alice> hello").unwrap();
    assert_eq!(p.user, b"alice".to_vec());
    assert_eq!(p.kind, EntryKind::Msg);
    assert_eq!(p.kind.as_str(), "msg");
    assert_eq!(p.body, b" hello".to_vec());
    assert_eq!(p.time, tod(12, 0, 0));
}

#[test]
fn bang_line_is_a_system_message() {
    let p = parse_line(b"12:00:00 !server restarted").unwrap();
    assert_eq!(p.user, b"server".to_vec());
    assert_eq!(p.kind, EntryKind::SysMsg);
    assert_eq!(p.kind.as_str(), "sysmsg");
    assert_eq!(p.body, b"server restarted".to_vec());
}

#[test]
fn join_part_and_notice_markers() {
    let j = parse_line(b"01:02:03 +bob joined").unwrap();
    assert_eq!((j.kind, j.user, j.body), (EntryKind::Join, b"server".to_vec(), b"bob joined".to_vec()));
    let p = parse_line(b"01:02:03 -bob left").unwrap();
    assert_eq!((p.kind, p.body), (EntryKind::Part, b"bob left".to_vec()));
    let n = parse_line(b"01:02:03 *topic set").unwrap();
    assert_eq!((n.kind, n.body), (EntryKind::Notice, b"topic set".to_vec()));
    assert_eq!(EntryKind::Join.as_str(), "join");
    assert_eq!(EntryKind::Part.as_str(), "part");
    assert_eq!(EntryKind::Notice.as_str(), "notice");
}

#[test]
fn nick_is_cut_at_the_first_closing_bracket() {
    let p = parse_line(b"12:00:00 <a>b> c").unwrap();
    assert_eq!(p.user, b"a".to_vec());
    assert_eq!(p.body, b"b> c".to_vec());
    let e = parse_line(b"12:00:00 <><>").unwrap();
    assert_eq!(e.user, b"".to_vec());
    assert_eq!(e.body, b"<>".to_vec());
}

#[test]
fn unclosed_nick_is_skipped() {
    assert_eq!(parse_line(b"12:00:00 <alice hello").unwrap_err(), LineError::UnclosedNick);
}

#[test]
fn bad_time_is_skipped() {
    assert_eq!(parse_line(b"ab:cd:ef <x> y").unwrap_err(), LineError::BadTime);
    assert_eq!(parse_line(b"24:00:00 !late").unwrap_err(), LineError::BadTime);
    assert_eq!(parse_line(b"12-00-00 !dash").unwrap_err(), LineError::BadTime);
}

#[test]
fn clock_fields_follow_strptime() {
    assert_eq!(parse_clock(b"07:08:09"), Some(tod(7, 8, 9)));
    assert_eq!(parse_clock(b"1:2:3 trailing"), Some(tod(1, 2, 3)));
    assert_eq!(parse_clock(b"23:59:60"), Some(tod(23, 59, 60)));
    assert_eq!(parse_clock(b"12:60:00"), None);
    assert_eq!(parse_clock(b"12:00"), None);
    assert_eq!(parse_clock(&[0xff, b'1', b':', b'2', b':', b'3']), None);
}

#[test]
fn log_dates_follow_strptime() {
    assert_eq!(parse_log_date(b"2024-01-01"), Some(date(2024, 1, 1)));
    assert_eq!(parse_log_date(b"2024-1-5"), Some(date(2024, 1, 5)));
    assert_eq!(parse_log_date(b"2024-13-01"), None);
    assert_eq!(parse_log_date(b"2024-12-32"), None);
    assert_eq!(parse_log_date(b"20240101"), None);
    assert_eq!(parse_log_date(b"24-01-01"), None);
}

#[test]
fn unix_seconds_of_timestamps() {
    let noon = Timestamp::combine(date(2024, 1, 1), tod(12, 0, 0));
    assert_eq!(noon.unix_seconds(), 1_704_110_400);
    let midnight = Timestamp::combine(date(2024, 1, 1), tod(0, 0, 0));
    assert_eq!(midnight.unix_seconds(), 1_704_067_200);
    let epoch = Timestamp::combine(date(1970, 1, 1), tod(0, 0, 1));
    assert_eq!(epoch.unix_seconds(), 1);
    let leap = Timestamp::combine(date(2000, 3, 1), tod(0, 0, 0));
    assert_eq!(leap.unix_seconds(), 951_868_800);
}

#[test]
fn resolving_twice_gives_the_same_id() {
    let mut t = NameTable::new();
    let a = t.resolve_or_create(b"alice");
    let b = t.resolve_or_create(b"bob");
    let a2 = t.resolve_or_create(b"alice");
    assert_eq!((a, b, a2), (1, 2, 1));
    assert_eq!(t.len(), 2);
    assert_eq!(t.lookup(b"bob"), Some(2));
    assert_eq!(t.lookup(b"carol"), None);
    assert_eq!(t.name(1), Some(&b"alice".to_vec()));
    assert_eq!(t.name(3), None);

    let mut cat = Catalog::new();
    let c1 = cat.enter_channel_dir(b"chan@srv").unwrap();
    let c2 = cat.enter_channel_dir(b"chan@srv").unwrap();
    assert_eq!(c1, c2);
    assert_eq!(cat.servers().len(), 1);
    assert_eq!(cat.channels().len(), 1);
}

#[test]
fn channel_unique_by_name_across_servers() {
    let mut cat = Catalog::new();
    let c1 = cat.enter_channel_dir(b"general@one").unwrap();
    let c2 = cat.enter_channel_dir(b"general@two").unwrap();
    assert_eq!(c1, c2);
    assert_eq!(cat.servers().len(), 2);
    assert_eq!(cat.channels().len(), 1);
    assert_eq!(cat.channel_server(c1), Some(1));
    assert_eq!(cat.channel_server(5), None);
}

#[test]
fn directory_without_at_is_skipped() {
    let mut cat = Catalog::new();
    assert_eq!(cat.enter_channel_dir(b"randomfolder"), None);
    assert_eq!(cat.servers().len(), 0);
    assert_eq!(cat.channels().len(), 0);
    assert_eq!(cat.users().len(), 0);
    assert_eq!(cat.entries().len(), 0);
    assert_eq!(split_channel_dir(b"randomfolder"), None);
}

#[test]
fn directory_splits_at_first_at() {
    assert_eq!(split_channel_dir(b"a@b@c"), Some((b"a".to_vec(), b"b@c".to_vec())));
    assert_eq!(split_channel_dir(b"@srv"), Some((b"".to_vec(), b"srv".to_vec())));
}

#[test]
fn end_to_end_import() {
    let mut cat = Catalog::new();
    let ch = cat.enter_channel_dir(b"test@irc.example").unwrap();
    let log = lines(&["12:00:00 <bob> hi", "00:00:00!notice test"]);
    assert!(cat.import_log(ch, b"2024-01-01", &log));
    assert_eq!(cat.servers().len(), 1);
    assert_eq!(cat.servers().name(1), Some(&b"irc.example".to_vec()));
    assert_eq!(cat.channels().len(), 1);
    assert_eq!(cat.channels().name(1), Some(&b"test".to_vec()));
    assert_eq!(cat.users().len(), 2);
    assert_eq!(cat.users().name(1), Some(&b"bob".to_vec()));
    assert_eq!(cat.users().name(2), Some(&b"server".to_vec()));
    let es = cat.entries();
    assert_eq!(es.len(), 2);
    assert_eq!((es[0].kind, es[0].user_id, es[0].channel_id), (EntryKind::Msg, 1, ch));
    assert_eq!(es[0].body, b" hi".to_vec());
    assert_eq!(es[0].created_at.unix_seconds(), 1_704_110_400);
    // Byte 9 is the marker: here it is `n`, so the line is a notice.
    assert_eq!((es[1].kind, es[1].user_id), (EntryKind::Notice, 2));
    assert_eq!(es[1].body, b"otice test".to_vec());
    assert_eq!(es[1].created_at, Timestamp::combine(date(2024, 1, 1), tod(0, 0, 0)));
    assert_eq!(es[1].created_at.unix_seconds(), 1_704_067_200);
}

#[test]
fn end_to_end_import_with_separator() {
    let mut cat = Catalog::new();
    let ch = cat.enter_channel_dir(b"test@irc.example").unwrap();
    let log = lines(&["12:00:00 <bob> hi", "00:00:00 !notice test"]);
    assert!(cat.import_log(ch, b"2024-01-01", &log));
    let es = cat.entries();
    assert_eq!(cat.users().len(), 2);
    assert_eq!(es[0].kind, EntryKind::Msg);
    assert_eq!(es[1].kind, EntryKind::SysMsg);
    assert_eq!(es[1].body, b"notice test".to_vec());
    assert_eq!(es[1].created_at.time, tod(0, 0, 0));
    assert_eq!(es[1].created_at.date, date(2024, 1, 1));
}

#[test]
fn log_with_bad_stem_is_skipped() {
    let mut cat = Catalog::new();
    let ch = cat.enter_channel_dir(b"c@s").unwrap();
    assert!(!cat.import_log(ch, b"notes", &lines(&["12:00:00 <bob> hi"])));
    assert_eq!(cat.entries().len(), 0);
    assert_eq!(cat.users().len(), 0);
}

#[test]
fn bad_lines_do_not_stop_a_log() {
    let mut cat = Catalog::new();
    let ch = cat.enter_channel_dir(b"c@s").unwrap();
    let log = lines(&["short", "xx:00:00 <a> b", "10:00:00 <a b", "10:00:01 <a> b", "10:00:02 <a> c"]);
    assert!(cat.import_log(ch, b"2020-02-29", &log));
    assert_eq!(cat.entries().len(), 2);
    assert_eq!(cat.users().len(), 1);
    assert_eq!(cat.entries()[1].created_at.time, tod(10, 0, 2));
}

#[test]
fn insert_outcomes_decide_the_next_step() {
    assert_eq!(after_insert(InsertOutcome::Inserted(7)), NextStep::UseId(7));
    assert_eq!(after_insert(InsertOutcome::Duplicate), NextStep::LookUp);
    assert_eq!(after_insert(InsertOutcome::Failed), NextStep::Abort);
    assert_eq!(after_lookup(Some(3)), NextStep::UseId(3));
    assert_eq!(after_lookup(None), NextStep::Abort);
}

#[test]
fn entry_rows_carry_what_is_stored() {
    let row = entry_row(date(2024, 1, 1), b"12:00:00 <bob> hi").unwrap();
    assert_eq!(row.user, b"bob".to_vec());
    assert_eq!(row.kind.as_str(), "msg");
    assert_eq!(row.body, b" hi".to_vec());
    assert_eq!(row.created_at, 1_704_110_400);
    let sys = entry_row(date(2024, 1, 1), b"00:00:00 !notice test").unwrap();
    assert_eq!((sys.user, sys.kind, sys.created_at), (b"server".to_vec(), EntryKind::SysMsg, 1_704_067_200));
    assert_eq!(entry_row(date(2024, 1, 1), b"short").unwrap_err(), LineError::TooShort);
    assert_eq!(entry_row(date(2024, 1, 1), b"12:00:00 <bob hi").unwrap_err(), LineError::UnclosedNick);
}

#[test]
fn unix_seconds_roll_over() {
    // Day 31 of February runs on into March; second 60 into the next minute.
    let feb31 = Timestamp::combine(date(2023, 2, 31), tod(0, 0, 0));
    let mar3 = Timestamp::combine(date(2023, 3, 3), tod(0, 0, 0));
    assert_eq!(feb31.unix_seconds(), mar3.unix_seconds());
    let leap = Timestamp::combine(date(2016, 12, 31), tod(23, 59, 60));
    assert_eq!(leap.unix_seconds(), 1_483_228_800);
    let early = Timestamp::combine(date(0, 1, 1), tod(0, 0, 0));
    assert_eq!(early.unix_seconds(), -62_167_219_200);
    let late = Timestamp::combine(date(9999, 12, 31), tod(23, 59, 59));
    assert_eq!(late.unix_seconds(), 253_402_300_799);
}

#[test]
fn reimporting_a_directory_duplicates_only_entries() {
    let mut cat = Catalog::new();
    let log = lines(&["12:00:00 <bob> hi", "12:00:01 <amy> yo", "short", "12:00:02 !restart"]);
    let c1 = cat.enter_channel_dir(b"test@irc.example").unwrap();
    assert!(cat.import_log(c1, b"2024-01-01", &log));
    let c2 = cat.enter_channel_dir(b"test@irc.example").unwrap();
    assert!(cat.import_log(c2, b"2024-01-01", &log));
    assert_eq!(c1, c2);
    assert_eq!(cat.servers().len(), 1);
    assert_eq!(cat.channels().len(), 1);
    assert_eq!(cat.users().len(), 3);
    assert_eq!(cat.entries().len(), 6);
    assert_eq!(cat.entries()[3].user_id, cat.entries()[0].user_id);
}
