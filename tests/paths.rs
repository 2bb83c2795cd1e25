use kvs::paths::{
    compact_path_for, db_log_path, finalize_compacted_filename, is_db_log_file_name, join_path,
    latest_log_for_dir, make_db_log_path, make_next_db_log_path,
    use_existing_or_create_new_db_log_path, DirEntry,
};

const ID: &str = "0123456789abcdef0123456789abcdef";

fn entry(name: &str, modified: u128, is_file: bool) -> DirEntry {
    DirEntry { name: name.to_string(), modified, is_file }
}

fn is_id(s: &str) -> bool {
    s.len() == 32 && s.chars().all(|c| c.is_ascii_digit() || ('a'..='f').contains(&c))
}

#[test]
fn log_file_names() {
    assert!(is_db_log_file_name(&format!("kvsdb-{}.log", ID)));
    assert!(!is_db_log_file_name(&format!("kvsdb-{}.compact", ID)));
    assert!(!is_db_log_file_name(&format!("kvsdb-{}0.log", ID)));
    assert!(!is_db_log_file_name(&format!("kvsdX-{}.log", ID)));
    assert!(!is_db_log_file_name("kvsdb-.log"));
}

#[test]
fn joining_paths() {
    assert_eq!(join_path("./", "a.log"), "./a.log");
    assert_eq!(join_path("d", "a.log"), "d/a.log");
    assert_eq!(join_path("", "a.log"), "a.log");
    assert_eq!(db_log_path("d", ID), format!("d/kvsdb-{}.log", ID));
    assert_eq!(compact_path_for(&format!("./x/kvsdb-{}.log", ID), "ab"), "./x/kvsdb-ab.compact");
    assert_eq!(compact_path_for("kvsdb-1.log", "ab"), "kvsdb-ab.compact");
}

#[test]
fn fresh_paths_carry_a_random_id() {
    let p = make_db_log_path("./");
    assert!(p.starts_with("./kvsdb-") && p.ends_with(".log"));
    assert!(is_id(&p["./kvsdb-".len()..p.len() - ".log".len()]));
    let q = make_db_log_path("./");
    assert_ne!(p, q);
    let c = make_next_db_log_path(&p);
    assert!(c.starts_with("./kvsdb-") && c.ends_with(".compact"));
    assert!(is_id(&c["./kvsdb-".len()..c.len() - ".compact".len()]));
}

#[test]
fn finalizing_a_compaction_file() {
    assert_eq!(finalize_compacted_filename("d/kvsdb-ab.compact"), "d/kvsdb-ab.log");
    assert_eq!(finalize_compacted_filename("d/kvsdb-ab"), "d/kvsdb-ab.log");
}

#[test]
fn newest_log_is_chosen() {
    let a = format!("kvsdb-{}.log", ID);
    let b = format!("kvsdb-{}.log", "f".repeat(32));
    let entries = vec![
        entry("other.txt", 50, true),
        entry(&a, 10, true),
        entry(&b, 20, true),
        entry(&format!("kvsdb-{}.log", "e".repeat(32)), 20, true),
        entry(&format!("kvsdb-{}.log", "d".repeat(32)), 99, false),
    ];
    assert_eq!(latest_log_for_dir(&entries), Some(2));
    assert_eq!(use_existing_or_create_new_db_log_path("d", &entries), format!("d/{}", b));
    let none = vec![entry("other.txt", 50, true)];
    assert_eq!(latest_log_for_dir(&none), None);
    let p = use_existing_or_create_new_db_log_path("d", &none);
    assert!(p.starts_with("d/kvsdb-") && p.ends_with(".log"));
}

#[test]
fn log_names_need_lowercase_hex_ids() {
    assert!(!is_db_log_file_name(&format!("kvsdb-{}.log", "g".repeat(32))));
    assert!(!is_db_log_file_name(&format!("kvsdb-{}.log", "ABCDEF0123456789ABCDEF0123456789")));
    let entries = vec![entry(&format!("kvsdb-{}.log", "z".repeat(32)), 5, true)];
    assert_eq!(latest_log_for_dir(&entries), None);
}
