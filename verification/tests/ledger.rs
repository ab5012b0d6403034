use fwevents::ledger::{
    compact_rows, entry_texts, filter_csv_by_date, filter_csv_by_date_at, keep_row,
    recent_entries, require_rows, sort_newest_first, write_to_csv, LedgerEntry, LedgerError,
    RETENTION_DAYS,
};
use fwevents::rows::get_field;
use fwevents::text::{join_fields, same_text, split_fields, starts_with, to_chars};
use fwevents::time::Timestamp;

const FEB_10: Timestamp = Timestamp { secs: 1_707_523_200, nanos: 0 };

fn row(fields: &[&str]) -> Vec<String> {
    fields.iter().map(|f| f.to_string()).collect()
}

fn lines(entries: &[LedgerEntry]) -> Vec<String> {
    entries.iter().map(|e| e.text.clone()).collect()
}

#[test]
fn retention_is_fifteen_days() {
    assert_eq!(RETENTION_DAYS, 15);
}

#[test]
fn only_the_recent_entry_survives() {
    let data = b"2024/01/01 00:00:00,IP_A,IP_B,old,2\n2024/02/01 00:00:00,IP_A,IP_B,new,2\n";
    let out = filter_csv_by_date_at(data, &FEB_10, 15).unwrap();
    assert_eq!(out, b"2024/02/01 00:00:00,IP_A,IP_B,new,2\n".to_vec());
}

#[test]
fn first_record_is_no_header() {
    let data = b"2024/02/01 00:00:00,IP_A,IP_B,new,2\n2024/01/01 00:00:00,IP_A,IP_B,old,2\n";
    let out = filter_csv_by_date_at(data, &FEB_10, 15).unwrap();
    assert_eq!(out, b"2024/02/01 00:00:00,IP_A,IP_B,new,2\n".to_vec());
}

#[test]
fn entry_at_the_cutoff_is_dropped() {
    let rows = vec![
        row(&["2024/01/26 00:00:00", "at"]),
        row(&["2024/01/26 00:00:01", "after"]),
        row(&["2024/01/25 23:59:59", "before"]),
    ];
    let out = compact_rows(&rows, &FEB_10, 15);
    assert_eq!(lines(&out), vec!["2024/01/26 00:00:01,after".to_string()]);
    assert_eq!(out[0].stamp.secs, 1_706_227_201);
}

#[test]
fn output_is_newest_first_and_ties_keep_their_order() {
    let rows = vec![
        row(&["2024/02/03 00:00:00", "c"]),
        row(&["2024/02/05 12:30:00", "a"]),
        row(&["2024/02/03 00:00:00", "b"]),
        row(&["2024/02/09 00:00:00", "z"]),
        row(&["2024/02/05 12:30:00", "a"]),
        row(&["2024/02/01 00:00:00", "y"]),
    ];
    let out = compact_rows(&rows, &FEB_10, 15);
    assert_eq!(
        lines(&out),
        vec![
            "2024/02/09 00:00:00,z".to_string(),
            "2024/02/05 12:30:00,a".to_string(),
            "2024/02/03 00:00:00,c".to_string(),
            "2024/02/03 00:00:00,b".to_string(),
            "2024/02/01 00:00:00,y".to_string(),
        ]
    );
    for pair in out.windows(2) {
        assert!(!pair[1].stamp.is_after(&pair[0].stamp));
    }
    assert_eq!(out[1].stamp.secs, 1_707_136_200);
}

#[test]
fn rows_that_are_no_entries_are_dropped_silently() {
    let rows = vec![
        row(&["not a date", "x"]),
        Vec::new(),
        row(&[""]),
        row(&["2024/02/05 12:30:00"]),
    ];
    let out = compact_rows(&rows, &FEB_10, 15);
    assert_eq!(lines(&out), vec!["2024/02/05 12:30:00".to_string()]);
}

#[test]
fn kept_row_holds_stamp_and_line() {
    let kept = keep_row(&row(&["2024/02/05 12:30:00", "a", "b"]), &FEB_10, 15).unwrap();
    assert_eq!(kept.text, "2024/02/05 12:30:00,a,b");
    assert_eq!((kept.stamp.secs, kept.stamp.nanos), (1_707_136_200, 0));
    assert!(keep_row(&row(&["2024/01/05 12:30:00", "a"]), &FEB_10, 15).is_none());
    assert!(keep_row(&row(&["a", "2024/02/05 12:30:00"]), &FEB_10, 15).is_none());
    assert!(keep_row(&Vec::new(), &FEB_10, 15).is_none());
}

#[test]
fn recent_entries_stay_in_file_order() {
    let rows = vec![
        row(&["2024/02/03 00:00:00", "c"]),
        row(&["2024/02/05 12:30:00", "a"]),
        row(&["2024/02/03 00:00:00", "c"]),
        row(&["2023/02/03 00:00:00", "c"]),
    ];
    let out = recent_entries(&rows, &FEB_10, 15);
    assert_eq!(
        lines(&out),
        vec!["2024/02/03 00:00:00,c".to_string(), "2024/02/05 12:30:00,a".to_string()]
    );
    assert_eq!(entry_texts(&out), lines(&out));
}

#[test]
fn sorting_keeps_every_entry() {
    let entries: Vec<LedgerEntry> = [5i64, 1, 4, 1, 5, 9, 2, 6]
        .iter()
        .enumerate()
        .map(|(i, s)| LedgerEntry { stamp: Timestamp { secs: *s, nanos: 0 }, text: format!("{}", i) })
        .collect();
    let out = sort_newest_first(&entries);
    let order: Vec<(i64, String)> = out.iter().map(|e| (e.stamp.secs, e.text.clone())).collect();
    let expected: Vec<(i64, String)> =
        [(9, "5"), (6, "7"), (5, "0"), (5, "4"), (4, "2"), (2, "6"), (1, "1"), (1, "3")]
            .iter()
            .map(|(s, t)| (*s, t.to_string()))
            .collect();
    assert_eq!(order, expected);
    assert!(sort_newest_first(&Vec::new()).is_empty());
}

#[test]
fn sorting_goes_by_nanoseconds_too() {
    let entries = vec![
        LedgerEntry { stamp: Timestamp { secs: 59, nanos: 0 }, text: "plain".to_string() },
        LedgerEntry { stamp: Timestamp { secs: 59, nanos: 1_000_000_000 }, text: "leap".to_string() },
        LedgerEntry { stamp: Timestamp { secs: 60, nanos: 0 }, text: "next".to_string() },
    ];
    assert_eq!(
        lines(&sort_newest_first(&entries)),
        vec!["next".to_string(), "leap".to_string(), "plain".to_string()]
    );
}

#[test]
fn unreadable_record_fails_the_compaction() {
    let data = b"2024/02/01 00:00:00,a,b\n2024/02/02 00:00:00,a,b\n2024/02/03 00:00:00,a\n1,2\n";
    assert_eq!(
        filter_csv_by_date_at(data, &FEB_10, 15),
        Err(LedgerError::MalformedRecord { index: 2 })
    );
    assert_eq!(
        filter_csv_by_date(b"x,y\n\xff,z\n", 15),
        Err(LedgerError::MalformedRecord { index: 1 })
    );
}

#[test]
fn rows_are_handed_out_or_refused() {
    let read = require_rows(vec![Some(row(&["a", "b"])), Some(row(&["c"]))]);
    assert_eq!(read, Ok(vec![row(&["a", "b"]), row(&["c"])]));
    let refused = require_rows(vec![None, Some(row(&["c"])), None]);
    assert_eq!(refused, Err(LedgerError::MalformedRecord { index: 0 }));
    assert_eq!(require_rows(Vec::new()), Ok(Vec::new()));
}

#[test]
fn empty_ledger_stays_empty() {
    assert_eq!(filter_csv_by_date_at(b"", &FEB_10, 15), Ok(Vec::new()));
    assert_eq!(filter_csv_by_date(b"", 15), Ok(Vec::new()));
}

#[test]
fn compaction_by_the_clock() {
    let data = b"1980/02/01 00:00:00,old\n9000/02/01 00:00:00,far\n9000/02/01 00:00:00,far\n";
    assert_eq!(filter_csv_by_date(data, 15), Ok(b"9000/02/01 00:00:00,far\n".to_vec()));
}

#[test]
fn entries_are_written_as_records() {
    let entries = vec![
        "2024/01/10 08:00:00,IP_A,IP_B,real text,2".to_string(),
        "2024/01/11 08:00:00,IP_A,IP_B,say \"hi\",3".to_string(),
        "".to_string(),
    ];
    let out = write_to_csv(&entries);
    let expected = "2024/01/10 08:00:00,IP_A,IP_B,real text,2\n\
2024/01/11 08:00:00,IP_A,IP_B,\"say \"\"hi\"\"\",3\n\
\"\"\n";
    assert_eq!(String::from_utf8(out).unwrap(), expected);
    assert!(write_to_csv(&Vec::new()).is_empty());
}

#[test]
fn comma_in_a_description_shifts_the_columns() {
    let out = write_to_csv(&vec!["2024/01/10 08:00:00,IP_A,IP_B,one, two,2".to_string()]);
    assert_eq!(String::from_utf8(out).unwrap(), "2024/01/10 08:00:00,IP_A,IP_B,one, two,2\n");
    assert_eq!(
        split_fields("2024/01/10 08:00:00,IP_A,IP_B,one, two,2", ',').len(),
        6
    );
}

#[test]
fn written_entries_read_back_field_by_field() {
    let tuples = vec![
        row(&["2024/02/05 12:30:00", "IP_A", "IP_B", "say \"hi\" to all", "2"]),
        row(&["2024/02/04 12:30:00", "10.0.0.1", "10.0.0.2", "", "7"]),
        row(&["2024/02/03 12:30:00", "::1", "fe80::1", "multi word text", ""]),
    ];
    let entries: Vec<String> = tuples.iter().map(|t| join_fields(t, ",")).collect();
    let bytes = write_to_csv(&entries);
    let mut reader = csv::ReaderBuilder::new().has_headers(false).from_reader(bytes.as_slice());
    let back: Vec<Vec<String>> = reader
        .records()
        .map(|r| r.unwrap().iter().map(String::from).collect())
        .collect();
    assert_eq!(back, tuples);
    let again = filter_csv_by_date_at(&bytes, &FEB_10, 15).unwrap();
    assert_eq!(again, bytes);
}

#[test]
fn compaction_is_stable_on_its_own_output() {
    let data = b"2024/02/01 00:00:00,a\n2024/02/09 00:00:00,b\n2024/02/01 00:00:00,a\n\
2024/02/05 00:00:00,\"c \"\"q\"\"\"\n";
    let once = filter_csv_by_date_at(data, &FEB_10, 15).unwrap();
    assert_eq!(
        String::from_utf8(once.clone()).unwrap(),
        "2024/02/09 00:00:00,b\n2024/02/05 00:00:00,\"c \"\"q\"\"\"\n2024/02/01 00:00:00,a\n"
    );
    assert_eq!(filter_csv_by_date_at(&once, &FEB_10, 15).unwrap(), once);
}

#[test]
fn splitting_and_joining() {
    assert_eq!(split_fields("", ','), row(&[""]));
    assert_eq!(split_fields(",", ','), row(&["", ""]));
    assert_eq!(split_fields("a,,b,", ','), row(&["a", "", "b", ""]));
    assert_eq!(split_fields("\u{e9},\u{4e2d}\u{6587}", ','), row(&["\u{e9}", "\u{4e2d}\u{6587}"]));
    assert_eq!(join_fields(&row(&["a", "", "b"]), ","), "a,,b");
    assert_eq!(join_fields(&row(&["only"]), ","), "only");
    assert_eq!(join_fields(&Vec::new(), ","), "");
    let fields = row(&["x", "y z", "", "w"]);
    assert_eq!(split_fields(&join_fields(&fields, ","), ','), fields);
}

#[test]
fn text_helpers() {
    assert_eq!(to_chars("a\u{e9}b"), vec!['a', '\u{e9}', 'b']);
    assert!(starts_with("fwddmp.log.tmp.1", "fwddmp.log.tmp"));
    assert!(starts_with("abc", ""));
    assert!(!starts_with("ab", "abc"));
    assert!(!starts_with("abd", "abc"));
    assert!(same_text("1", "1"));
    assert!(!same_text("1", "1 "));
    assert!(!same_text("1", "2"));
    assert_eq!(get_field(&row(&["a", "b"]), 1), "b");
    assert_eq!(get_field(&row(&["a", "b"]), 2), "");
}
