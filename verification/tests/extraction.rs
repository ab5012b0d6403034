use fwevents::entries::{dedup, extend_entries, holds, insert_entry};
use fwevents::extract::{
    canonical_entry, extract_entries, is_included, passes_gate, process_csv_file,
    process_csv_file_at,
};
use fwevents::time::{parse_timestamp, Timestamp};

const FEB_01: Timestamp = Timestamp { secs: 1_706_745_600, nanos: 0 };

fn row(fields: &[&str]) -> Vec<String> {
    fields.iter().map(|f| f.to_string()).collect()
}

fn record(stamp: &str, blocked: &str, description: &str) -> Vec<String> {
    row(&["a", "2", "c", description, stamp, "f", "IP_A", "h", "i", "j", "k", blocked, "IP_B"])
}

#[test]
fn blocked_record_inside_the_window_is_included() {
    let r = record("2024/01/10 08:00:00", "1", "[tag> real text");
    assert!(is_included(&r, &FEB_01, 30));
    assert_eq!(canonical_entry(&r), "2024/01/10 08:00:00,IP_A,IP_B,real text,2");
    let out = extract_entries(&vec![Some(r)], &FEB_01, 30);
    assert_eq!(out, vec!["2024/01/10 08:00:00,IP_A,IP_B,real text,2".to_string()]);
}

#[test]
fn record_that_is_not_blocked_is_excluded() {
    let r = record("2024/01/10 08:00:00", "0", "[tag> real text");
    assert!(!is_included(&r, &FEB_01, 30));
    assert!(extract_entries(&vec![Some(r)], &FEB_01, 30).is_empty());
}

#[test]
fn flag_must_be_exactly_one() {
    for flag in ["", "0", "11", "01", "1.0", "true", "yes", " 1"] {
        let r = record("2024/01/31 00:00:00", flag, "d");
        assert!(!is_included(&r, &FEB_01, 30));
    }
}

#[test]
fn gate_on_parsed_values() {
    let inside = Some(Timestamp { secs: FEB_01.secs - 86_400 + 1, nanos: 0 });
    let edge = Some(Timestamp { secs: FEB_01.secs - 86_400, nanos: 0 });
    assert!(passes_gate(inside, "1", &FEB_01, 1));
    assert!(!passes_gate(inside, "0", &FEB_01, 1));
    assert!(!passes_gate(edge, "1", &FEB_01, 1));
    assert!(!passes_gate(None, "1", &FEB_01, 1));
}

#[test]
fn record_at_the_cutoff_is_excluded() {
    let at = record("2024/01/02 00:00:00", "1", "d");
    let after = record("2024/01/02 00:00:01", "1", "d");
    assert!(!is_included(&at, &FEB_01, 30));
    assert!(is_included(&after, &FEB_01, 30));
}

#[test]
fn nanoseconds_of_the_clock_count() {
    let now = Timestamp { secs: FEB_01.secs, nanos: 5 };
    let before = Timestamp { secs: FEB_01.secs - 86_400, nanos: 4 };
    let after = Timestamp { secs: FEB_01.secs - 86_400, nanos: 6 };
    assert!(!before.within(&now, 1));
    assert!(after.within(&now, 1));
    assert!(after.is_after(&before));
    assert!(!before.is_after(&after));
    assert!(!before.is_after(&before));
}

#[test]
fn window_does_not_overflow() {
    let t = Timestamp { secs: 0, nanos: 0 };
    let low = Timestamp { secs: i64::MIN, nanos: 0 };
    let high = Timestamp { secs: i64::MAX, nanos: 0 };
    assert!(t.within(&low, i64::MAX));
    assert!(!t.within(&high, i64::MIN));
}

#[test]
fn record_with_a_bad_stamp_is_skipped() {
    for stamp in ["", "2024-01-10 08:00:00", "2024/01/10", "2024/13/10 08:00:00", "yesterday"] {
        let r = record(stamp, "1", "d");
        assert!(!is_included(&r, &FEB_01, 100_000));
    }
}

#[test]
fn short_record_reads_as_empty_fields() {
    let r = row(&["a", "7", "c", "text", "2024/01/31 00:00:00"]);
    assert!(!is_included(&r, &FEB_01, 30));
    assert_eq!(canonical_entry(&r), "2024/01/31 00:00:00,,,text,7");
    assert_eq!(canonical_entry(&Vec::new()), ",,,,");
}

#[test]
fn stamps_parse_to_seconds() {
    let t = parse_timestamp("2024/01/10 08:00:00").unwrap();
    assert_eq!((t.secs, t.nanos), (1_704_873_600, 0));
    let t = parse_timestamp("1970/01/01 00:00:00").unwrap();
    assert_eq!((t.secs, t.nanos), (0, 0));
    let t = parse_timestamp("2016/12/31 23:59:60").unwrap();
    assert_eq!((t.secs, t.nanos), (1_483_228_799, 1_000_000_000));
    assert!(parse_timestamp("2024/02/30 00:00:00").is_none());
    assert!(parse_timestamp("2024/01/10 08:00").is_none());
    assert!(parse_timestamp("2024/01/10 08:00:00 trailing").is_none());
}

#[test]
fn extraction_yields_each_entry_once() {
    let rows = vec![
        Some(record("2024/01/10 08:00:00", "1", "[t> same")),
        Some(record("2024/01/11 08:00:00", "1", "other")),
        None,
        Some(record("2024/01/10 08:00:00", "1", "same")),
        Some(record("2024/01/10 08:00:00", "0", "same")),
        Some(record("2024/01/10 08:00:00", "1", "[u>same")),
        Some(record("2023/01/10 08:00:00", "1", "old")),
    ];
    let out = extract_entries(&rows, &FEB_01, 30);
    assert_eq!(
        out,
        vec![
            "2024/01/10 08:00:00,IP_A,IP_B,same,2".to_string(),
            "2024/01/11 08:00:00,IP_A,IP_B,other,2".to_string(),
        ]
    );
}

#[test]
fn entries_differing_in_case_are_distinct() {
    let rows = vec![
        Some(record("2024/01/10 08:00:00", "1", "Text")),
        Some(record("2024/01/10 08:00:00", "1", "text")),
    ];
    assert_eq!(extract_entries(&rows, &FEB_01, 30).len(), 2);
}

#[test]
fn file_bytes_are_read_trimmed_and_without_header() {
    let data = b"a, 2 ,c, [tag> real text ,2024/01/10 08:00:00,f, IP_A,h,i,j,k,1,IP_B\n\
a,3,c,\"quoted, text\",2024/01/12 09:00:00,f,IP_C,h,i,j,k,1,IP_D\n\
a,3,c,d,2024/01/12 09:00:00,f,IP_C,h,i,j,k,0,IP_D\n";
    let out = process_csv_file_at(data, &FEB_01, 30);
    assert_eq!(
        out,
        vec![
            "2024/01/10 08:00:00,IP_A,IP_B,real text,2".to_string(),
            "2024/01/12 09:00:00,IP_C,IP_D,quoted, text,3".to_string(),
        ]
    );
}

#[test]
fn unreadable_records_are_skipped() {
    let mut data = Vec::new();
    data.extend_from_slice(b"a,2,c,d,2024/01/10 08:00:00,f,IP_A,h,i,j,k,1,IP_B\n");
    data.extend_from_slice(b"too,short\n");
    data.extend_from_slice(b"a,2,c,\xff\xfe,2024/01/11 08:00:00,f,IP_A,h,i,j,k,1,IP_B\n");
    data.extend_from_slice(b"a,4,c,e,2024/01/12 08:00:00,f,IP_A,h,i,j,k,1,IP_B\n");
    let out = process_csv_file_at(&data, &FEB_01, 30);
    assert_eq!(
        out,
        vec![
            "2024/01/10 08:00:00,IP_A,IP_B,d,2".to_string(),
            "2024/01/12 08:00:00,IP_A,IP_B,e,4".to_string(),
        ]
    );
}

#[test]
fn empty_file_yields_nothing() {
    assert!(process_csv_file_at(b"", &FEB_01, 30).is_empty());
    assert!(process_csv_file(b"", 30).is_empty());
}

#[test]
fn extraction_by_the_clock() {
    let data = b"a,2,c,d,1980/01/10 08:00:00,f,IP_A,h,i,j,k,1,IP_B\n\
a,2,c,d,9000/01/10 08:00:00,f,IP_A,h,i,j,k,1,IP_B\n";
    let out = process_csv_file(data, 1);
    assert_eq!(out, vec!["9000/01/10 08:00:00,IP_A,IP_B,d,2".to_string()]);
}

#[test]
fn dedup_keeps_first_occurrences() {
    let entries: Vec<String> = ["b", "a", "b", "c", "a", "b"].iter().map(|s| s.to_string()).collect();
    assert_eq!(dedup(&entries), vec!["b".to_string(), "a".to_string(), "c".to_string()]);
    assert!(dedup(&Vec::new()).is_empty());
}

#[test]
fn dedup_counts_distinct_texts() {
    let entries: Vec<String> = (0..40).map(|i| format!("entry {}", i % 7)).collect();
    assert_eq!(dedup(&entries).len(), 7);
}

#[test]
fn sets_merge_without_duplicates() {
    let mut all = vec!["x".to_string(), "y".to_string()];
    extend_entries(&mut all, &vec!["y".to_string(), "z".to_string(), "z".to_string()]);
    assert_eq!(all, vec!["x".to_string(), "y".to_string(), "z".to_string()]);
    assert!(holds(&all, &"z".to_string()));
    assert!(!holds(&all, &"w".to_string()));
    insert_entry(&mut all, "x".to_string());
    insert_entry(&mut all, "w".to_string());
    assert_eq!(all.len(), 4);
    assert_eq!(all[3], "w");
}
