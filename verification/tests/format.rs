use ddup::algorithm::DuplicateGroup;
use ddup::dirlist::DirList;
use ddup::error::AppError;
use ddup::globmatch::MatchConfig;
use ddup::json::{export_json, u64_to_string};
use ddup::wiztree::wiztree_entries;

fn cfg() -> MatchConfig {
    MatchConfig {
        case_sensitive: false,
        require_literal_leading_dot: false,
        require_literal_separator: false,
    }
}

#[test]
fn decimal_rendering() {
    assert_eq!(u64_to_string(0), "0");
    assert_eq!(u64_to_string(7), "7");
    assert_eq!(u64_to_string(1234567890123456789), "1234567890123456789");
    assert_eq!(u64_to_string(u64::MAX), "18446744073709551615");
}

#[test]
fn json_export_escapes_backslashes() {
    let groups = vec![DuplicateGroup {
        size: 5,
        paths: vec!["R\\a".to_string(), "R\\b".to_string()],
    }];
    let out = export_json(&groups);
    assert_eq!(out, "[{\"size\":5,\"paths\":[\"R\\\\a\",\"R\\\\b\"]}]");
}

#[test]
fn json_export_of_nothing_is_an_empty_array() {
    assert_eq!(export_json(&Vec::new()), "[]");
}

#[test]
fn json_export_escapes_quotes_and_controls() {
    let groups = vec![DuplicateGroup {
        size: 1,
        paths: vec!["a\"b".to_string(), "c\nd".to_string()],
    }];
    let out = export_json(&groups);
    assert_eq!(out, "[{\"size\":1,\"paths\":[\"a\\\"b\",\"c\\u000ad\"]}]");
}

#[test]
fn json_export_separates_groups_with_commas() {
    let groups = vec![
        DuplicateGroup { size: 1, paths: vec!["x".to_string()] },
        DuplicateGroup { size: 2, paths: vec!["y".to_string(), "z".to_string()] },
    ];
    let out = export_json(&groups);
    assert_eq!(out, "[{\"size\":1,\"paths\":[\"x\"]},{\"size\":2,\"paths\":[\"y\",\"z\"]}]");
}

#[test]
fn wiztree_extraction_rules() {
    let csv = "Generated by WizTree 4.10 - please do not edit\r\n\
               File Name,Size,Allocated,Modified\r\n\
               \"C:\\dir\\a, b.txt\",5,8,2024/01/01\r\n\
               C:\\dir\\sub\\,100,100,2024/01/01\r\n\
               C:\\dir\\c.txt,0,0,2024/01/01\r\n\
               C:\\dir\\d.txt,abc,0,2024/01/01\r\n\
               C:\\dir\\e.txt, 7 ,8,2024/01/01\r\n";
    let entries = wiztree_entries(csv.as_bytes()).unwrap();
    assert_eq!(entries.len(), 2);
    assert_eq!(entries[0].0, "C:\\dir\\a, b.txt");
    assert_eq!(entries[0].1, 5);
    assert_eq!(entries[1].0, "C:\\dir\\e.txt");
    assert_eq!(entries[1].1, 7);
}

#[test]
fn wiztree_doubled_quotes_and_size_limits() {
    let csv = "banner\n\
               File Name,Size\n\
               \"q\"\"x\",3\n\
               big,18446744073709551615\n\
               huge,18446744073709551616\n";
    let entries = wiztree_entries(csv.as_bytes()).unwrap();
    assert_eq!(entries.len(), 2);
    assert_eq!(entries[0].0, "q\"x");
    assert_eq!(entries[0].1, 3);
    assert_eq!(entries[1].0, "big");
    assert_eq!(entries[1].1, u64::MAX);
}

#[test]
fn wiztree_missing_column_is_an_error() {
    let csv = "banner\nName,Bytes\nx,1\n";
    let r = wiztree_entries(csv.as_bytes());
    match r {
        Err(AppError::Other { message }) => {
            assert_eq!(message, "Missing 'File Name' column");
        },
        _ => panic!("expected the missing-column error"),
    }
    let csv2 = "banner\nFile Name,Bytes\nx,1\n";
    match wiztree_entries(csv2.as_bytes()) {
        Err(AppError::Other { message }) => {
            assert_eq!(message, "Missing 'Size' column");
        },
        _ => panic!("expected the missing-column error"),
    }
}

#[test]
fn wiztree_without_a_header_is_an_error() {
    assert!(wiztree_entries(b"only one line").is_err());
    assert!(wiztree_entries(b"").is_err());
}

#[test]
fn from_wiztree_csv_applies_the_matcher() {
    let csv = "banner\r\n\
               File Name,Size\r\n\
               C:\\a.txt,10\r\n\
               C:\\b.dmp,10\r\n";
    let dl = DirList::from_wiztree_csv(csv.as_bytes(), Some("*.txt"), cfg()).unwrap();
    let entries = dl.iter();
    assert_eq!(entries.len(), 1);
    assert_eq!(entries[0].0, "C:\\a.txt");
    assert_eq!(entries[0].1, 10);
}

#[test]
fn from_wiztree_csv_rejects_a_bad_matcher() {
    let csv = "banner\r\nFile Name,Size\r\nC:\\a.txt,10\r\n";
    let r = DirList::from_wiztree_csv(csv.as_bytes(), Some("["), cfg());
    assert!(matches!(r, Err(AppError::Glob { .. })));
}

#[test]
fn dirlist_new_keeps_admitted_pairs_in_order() {
    let raw = vec![
        ("b.txt".to_string(), 2u64),
        ("c.bin".to_string(), 3u64),
        ("a.txt".to_string(), 1u64),
    ];
    let dl = DirList::new(raw, Some("*.txt"), cfg()).unwrap();
    let entries = dl.iter();
    assert_eq!(entries.len(), 2);
    assert_eq!(entries[0], ("b.txt".to_string(), 2));
    assert_eq!(entries[1], ("a.txt".to_string(), 1));
    let all = DirList::new(vec![("x".to_string(), 9)], None, cfg()).unwrap();
    assert_eq!(all.iter().len(), 1);
    let bad = DirList::new(Vec::new(), Some("["), cfg());
    assert!(matches!(bad, Err(AppError::Glob { .. })));
}

#[test]
fn wiztree_skips_rows_whose_name_is_not_utf8() {
    let mut csv = b"banner\nFile Name,Size\n".to_vec();
    csv.extend_from_slice(b"ok.txt,4\n");
    csv.extend_from_slice(&[b'b', 0xFF, b'd', b',', b'5', b'\n']);
    let entries = wiztree_entries(&csv).unwrap();
    assert_eq!(entries.len(), 1);
    assert_eq!(entries[0].0, "ok.txt");
}

#[test]
fn error_messages_name_their_kind() {
    let e = AppError::Io { message: "boom".to_string() };
    assert_eq!(e.message(), "IO error: boom");
    let e = AppError::VolumeOpen { drive: "C:".to_string(), message: "denied".to_string() };
    assert_eq!(e.message(), "Volume error for 'C:': denied");
    let e = AppError::UsnJournalQuery { message: "off".to_string() };
    assert_eq!(e.message(), "Failed to query USN journal: off");
    let e = AppError::Everything { message: "down".to_string() };
    assert_eq!(e.message(), "Everything search error: down");
    let e = AppError::Other { message: "x".to_string() };
    assert_eq!(e.message(), "Other error: x");
    let e = AppError::LockPoison { message: "y".to_string() };
    assert_eq!(e.message(), "Lock poison error: y");
    let e = AppError::Glob { message: "z".to_string() };
    assert_eq!(e.message(), "Glob pattern error: z");
}
