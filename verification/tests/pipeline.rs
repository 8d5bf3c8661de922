use ddup::algorithm::{find_duplicate_groups, run, Comparison, DuplicateGroup};
use ddup::groups::HashedEntry;
use ddup::dirlist::{hardlink_leader, strip_drive};
use ddup::globmatch::MatchConfig;

fn cfg(case_sensitive: bool) -> MatchConfig {
    MatchConfig {
        case_sensitive,
        require_literal_leading_dot: false,
        require_literal_separator: false,
    }
}

fn group_with_paths<'a>(groups: &'a [DuplicateGroup], path: &str) -> Option<&'a DuplicateGroup> {
    groups.iter().find(|g| g.paths.iter().any(|p| p == path))
}

#[test]
fn strict_finds_the_matching_pair() {
    let files = vec![
        ("R\\a".to_string(), b"hello".to_vec()),
        ("R\\b".to_string(), b"hello".to_vec()),
        ("R\\c".to_string(), b"world".to_vec()),
    ];
    let groups = run(files, None, cfg(false), Comparison::Strict).unwrap();
    assert_eq!(groups.len(), 1);
    assert_eq!(groups[0].size, 5);
    assert_eq!(groups[0].paths.len(), 2);
    assert!(groups[0].paths.contains(&"R\\a".to_string()));
    assert!(groups[0].paths.contains(&"R\\b".to_string()));
}

#[test]
fn matcher_keeps_only_matching_extension() {
    let mib = vec![0u8; 1024 * 1024];
    let files = vec![
        ("R\\x.dmp".to_string(), mib.clone()),
        ("R\\y.dmp".to_string(), mib.clone()),
        ("R\\z.txt".to_string(), mib.clone()),
    ];
    let groups = run(files, Some("*.dmp"), cfg(true), Comparison::Strict).unwrap();
    assert_eq!(groups.len(), 1);
    assert_eq!(groups[0].size, 1024 * 1024);
    assert_eq!(groups[0].paths.len(), 2);
    assert!(groups[0].paths.contains(&"R\\x.dmp".to_string()));
    assert!(groups[0].paths.contains(&"R\\y.dmp".to_string()));
    assert!(!groups[0].paths.contains(&"R\\z.txt".to_string()));
}

#[test]
fn double_star_prefix_is_rejected_by_glob() {
    // The glob crate refuses `**` unless it forms a whole path component,
    // so a matcher like this one fails the scan with the Glob error.
    let files = vec![("R\\x.dmp".to_string(), vec![0u8; 16])];
    let r = run(files, Some("**.dmp"), cfg(true), Comparison::Strict);
    assert!(matches!(r, Err(ddup::error::AppError::Glob { .. })));
}

#[test]
fn empty_files_form_a_group() {
    let files = vec![
        ("R\\e1".to_string(), Vec::new()),
        ("R\\e2".to_string(), Vec::new()),
    ];
    let groups = run(files, None, cfg(false), Comparison::Strict).unwrap();
    assert_eq!(groups.len(), 1);
    assert_eq!(groups[0].size, 0);
    assert_eq!(groups[0].paths.len(), 2);
    assert!(groups[0].paths.contains(&"R\\e1".to_string()));
    assert!(groups[0].paths.contains(&"R\\e2".to_string()));
}

#[test]
fn strict_sees_any_difference() {
    let big = vec![0u8; 16 * 1024 * 1024];
    let mut big2 = big.clone();
    for i in 4096..8192 {
        big2[i] = 1;
    }
    let files = vec![("R\\big".to_string(), big), ("R\\big2".to_string(), big2)];
    let groups = run(files, None, cfg(false), Comparison::Strict).unwrap();
    assert_eq!(groups.len(), 0);
}

#[test]
fn fuzzy_misses_an_unsampled_range() {
    // The thinning stride samples [0, 4096) and then [8192, 12288): a
    // difference confined to [4096, 8192) falls between the samples, so
    // fuzzy mode clusters the two files together.
    let big = vec![0u8; 16 * 1024 * 1024];
    let mut big2 = big.clone();
    for i in 4096..8192 {
        big2[i] = 1;
    }
    let files = vec![("R\\big".to_string(), big), ("R\\big2".to_string(), big2)];
    let groups = run(files, None, cfg(false), Comparison::Fuzzy).unwrap();
    assert_eq!(groups.len(), 1);
    assert_eq!(groups[0].paths.len(), 2);
}

#[test]
fn fuzzy_sees_a_sampled_difference() {
    let big = vec![0u8; 16 * 1024 * 1024];
    let mut big2 = big.clone();
    for i in 8192..12288 {
        big2[i] = 1;
    }
    let files = vec![("R\\big".to_string(), big), ("R\\big2".to_string(), big2)];
    let groups = run(files, None, cfg(false), Comparison::Fuzzy).unwrap();
    assert_eq!(groups.len(), 0);
}

#[test]
fn hardlink_collapse_keeps_one_entry() {
    let siblings = vec!["\\p".to_string(), "\\q".to_string()];
    let p = strip_drive("C:\\p");
    let q = strip_drive("C:\\q");
    assert_eq!(p, "\\p");
    assert_eq!(q, "\\q");
    assert!(hardlink_leader(p, &siblings));
    assert!(!hardlink_leader(q, &siblings));

    // Only the leader enters the pipeline: no duplicates are reported.
    let files = vec![("C:\\p".to_string(), b"same-bytes".to_vec())];
    let groups = run(files, None, cfg(false), Comparison::Strict).unwrap();
    assert_eq!(groups.len(), 0);
}

#[test]
fn hardlink_leader_with_no_sibling_info() {
    assert!(hardlink_leader("\\anything", &Vec::new()));
}

#[test]
fn identical_bytes_always_share_a_group() {
    let files = vec![
        ("R\\1".to_string(), vec![7u8; 100]),
        ("R\\2".to_string(), vec![8u8; 100]),
        ("R\\3".to_string(), vec![7u8; 100]),
        ("R\\4".to_string(), vec![7u8; 101]),
        ("R\\5".to_string(), vec![8u8; 100]),
    ];
    let groups = run(files, None, cfg(false), Comparison::Strict).unwrap();
    assert_eq!(groups.len(), 2);
    let g7 = group_with_paths(&groups, "R\\1").unwrap();
    assert!(g7.paths.contains(&"R\\3".to_string()));
    assert_eq!(g7.paths.len(), 2);
    let g8 = group_with_paths(&groups, "R\\2").unwrap();
    assert!(g8.paths.contains(&"R\\5".to_string()));
    assert_eq!(g8.paths.len(), 2);
}

#[test]
fn group_size_matches_file_sizes() {
    let files = vec![
        ("R\\m".to_string(), vec![1u8; 33]),
        ("R\\n".to_string(), vec![1u8; 33]),
    ];
    let groups = run(files, None, cfg(false), Comparison::Strict).unwrap();
    assert_eq!(groups.len(), 1);
    assert_eq!(groups[0].size, 33);
}

#[test]
fn no_singleton_groups() {
    let files = vec![
        ("R\\u1".to_string(), vec![1u8; 10]),
        ("R\\u2".to_string(), vec![2u8; 20]),
        ("R\\u3".to_string(), vec![3u8; 30]),
    ];
    let groups = run(files, None, cfg(false), Comparison::Strict).unwrap();
    assert!(groups.iter().all(|g| g.paths.len() >= 2));
    assert_eq!(groups.len(), 0);
}

#[test]
fn every_reported_path_matches_the_matcher() {
    let content = vec![9u8; 50];
    let files = vec![
        ("R\\k1.log".to_string(), content.clone()),
        ("R\\k2.log".to_string(), content.clone()),
        ("R\\k3.bin".to_string(), content.clone()),
        ("R\\k4.bin".to_string(), content.clone()),
    ];
    let groups = run(files, Some("*.log"), cfg(true), Comparison::Strict).unwrap();
    assert_eq!(groups.len(), 1);
    let pat = glob::Pattern::new("*.log").unwrap();
    let options = glob::MatchOptions {
        case_sensitive: true,
        require_literal_separator: false,
        require_literal_leading_dot: false,
    };
    for p in &groups[0].paths {
        assert!(pat.matches_with(p, options));
    }
}

#[test]
fn matcher_case_sensitivity_flag() {
    let content = vec![5u8; 12];
    let files = vec![
        ("R\\A.TXT".to_string(), content.clone()),
        ("R\\b.txt".to_string(), content.clone()),
    ];
    let sensitive = run(files.clone(), Some("*.txt"), cfg(true), Comparison::Strict).unwrap();
    assert_eq!(sensitive.len(), 0);
    let insensitive = run(files, Some("*.txt"), cfg(false), Comparison::Strict).unwrap();
    assert_eq!(insensitive.len(), 1);
    assert_eq!(insensitive[0].paths.len(), 2);
}

#[test]
fn prehashed_entries_cluster_by_size_then_digest() {
    let entries = vec![
        HashedEntry { path: "a".to_string(), size: 10, hash: 1 },
        HashedEntry { path: "b".to_string(), size: 10, hash: 1 },
        HashedEntry { path: "c".to_string(), size: 10, hash: 2 },
        HashedEntry { path: "d".to_string(), size: 11, hash: 1 },
    ];
    let groups = find_duplicate_groups(entries);
    assert_eq!(groups.len(), 1);
    assert_eq!(groups[0].size, 10);
    assert_eq!(groups[0].paths, vec!["a".to_string(), "b".to_string()]);
}

#[test]
fn fuzzy_and_strict_agree_on_identical_files() {
    let content: Vec<u8> = (0..100_000u32).map(|i| (i % 251) as u8).collect();
    let files = vec![
        ("R\\f1".to_string(), content.clone()),
        ("R\\f2".to_string(), content.clone()),
    ];
    let strict = run(files.clone(), None, cfg(false), Comparison::Strict).unwrap();
    let fuzzy = run(files, None, cfg(false), Comparison::Fuzzy).unwrap();
    assert_eq!(strict.len(), 1);
    assert_eq!(fuzzy.len(), 1);
}
