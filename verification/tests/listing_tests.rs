use kls::files::{FilesEntry, FilesList, FilesType, ChildInfo, MetaInfo, format_modified,
    get_block_size};
use kls::params::Opts;

fn meta(perms: u16, size: u64) -> MetaInfo {
    MetaInfo {
        perms,
        size,
        mtime: Some((1_000_000_000, 0)),
        links: 1,
        user: Some(String::from("root")),
        group: Some(String::from("root")),
    }
}

fn now() -> (i64, u32) {
    (1_700_000_000, 0)
}

fn dir_entry(path: &str) -> FilesEntry {
    let (s, n) = now();
    FilesEntry::new_dir(&String::from(path), meta(0o040755, 4096), s, n)
}

fn file_entry(path: &str, perms: u16) -> FilesEntry {
    let (s, n) = now();
    FilesEntry::new_file(&String::from(path), meta(perms, 10), s, n)
}

#[test]
fn mode_str_regular_file() {
    let e = file_entry("/d/a.txt", 0o100644);
    let m = e.get_mode_str();
    assert_eq!(m, "-rw-r--r--");
    assert_eq!(m.len(), 10);
}

#[test]
fn mode_str_kinds() {
    let (s, n) = now();
    let d = dir_entry("/d");
    assert_eq!(d.get_mode_str().chars().next(), Some('d'));
    let l = FilesEntry::new_sym(&String::from("/d/l"), &String::from("t"), meta(0o120777, 1),
        s, n);
    assert_eq!(l.get_mode_str(), "lrwxrwxrwx");
    let f = file_entry("/d/f", 0o100000);
    assert_eq!(f.get_mode_str().chars().next(), Some('-'));
}

#[test]
fn mode_str_special_bits() {
    assert_eq!(file_entry("/d/a", 0o104755).get_mode_str(), "-rwsr-xr-x");
    assert_eq!(file_entry("/d/a", 0o104644).get_mode_str(), "-rwSr--r--");
    assert_eq!(file_entry("/d/a", 0o102655).get_mode_str(), "-rw-r-sr-x");
    assert_eq!(file_entry("/d/a", 0o102645).get_mode_str(), "-rw-r-Sr-x");
    assert_eq!(file_entry("/d/a", 0o101777).get_mode_str(), "-rwxrwxrwt");
    assert_eq!(file_entry("/d/a", 0o101776).get_mode_str(), "-rwxrwxrwT");
}

#[test]
fn names_and_parents() {
    let e = file_entry("/usr/local/bin/kls", 0o100755);
    assert_eq!(e.name(), Some(String::from("kls")));
    assert_eq!(e.up_dir(), Some(String::from("/usr/local/bin")));
    let root = dir_entry("/");
    assert_eq!(root.name(), None);
    assert_eq!(root.up_dir(), None);
    let top = dir_entry("/etc");
    assert_eq!(top.up_dir(), Some(String::from("/")));
    let rel = file_entry("plain", 0o100644);
    assert_eq!(rel.name(), Some(String::from("plain")));
    assert_eq!(rel.up_dir(), None);
}

#[test]
fn path_of_symlink_is_the_link_itself() {
    let (s, n) = now();
    let l = FilesEntry::new_sym(&String::from("/d/link"), &String::from("../t"),
        meta(0o120777, 1), s, n);
    assert_eq!(l.path(), "/d/link");
    assert_eq!(l.file_type.path(), "/d/link");
    assert_eq!(file_entry("/d/f", 0o100644).path(), "/d/f");
}

#[test]
fn identity_fields() {
    let (s, n) = now();
    let mut m = meta(0o100644, 5);
    m.user = None;
    m.group = Some(String::from("wheel"));
    m.links = 3;
    let e = FilesEntry::new_file(&String::from("/d/f"), m, s, n);
    assert!(e.get_user_str().is_err());
    assert_eq!(e.get_group_str(), Ok(String::from("wheel")));
    assert_eq!(e.get_link_count(), 3);
}

#[test]
fn canonicalize_keeps_symlink_target() {
    let t = FilesType::Sym(String::from("l"), String::from("../raw"));
    match t.canonicalize(&String::from("/abs/l")).unwrap() {
        FilesType::Sym(s, target) => {
            assert_eq!(s, "/abs/l");
            assert_eq!(target, "../raw");
        },
        _ => panic!("kind changed"),
    }
    match FilesType::Dir(String::from("d")).canonicalize(&String::from("/abs/d")).unwrap() {
        FilesType::Dir(p) => assert_eq!(p, "/abs/d"),
        _ => panic!("kind changed"),
    }
}

#[test]
fn timestamp_recent_and_old() {
    assert_eq!(format_modified(2024, 3, 5, 7, 9, false), "Mar  5 07:09");
    assert_eq!(format_modified(2024, 3, 5, 7, 9, true), "Mar  5 2024");
    assert_eq!(format_modified(1999, 12, 31, 23, 59, false), "Dec 31 23:59");
    assert_eq!(format_modified(2024, 11, 17, 0, 0, false), "Nov 17 00:00");
}

#[test]
fn timestamp_recency_rule() {
    let (s, n) = now();
    let recent = FilesEntry::new_file(&String::from("/d/f"),
        MetaInfo { mtime: Some((s - 1000, 0)), ..meta(0o100644, 1) }, s, n);
    assert!(recent.modified.contains(':'));
    let old = FilesEntry::new_file(&String::from("/d/f"),
        MetaInfo { mtime: Some((s - 20_000_000, 0)), ..meta(0o100644, 1) }, s, n);
    assert!(!old.modified.contains(':'));
    let unknown = FilesEntry::new_file(&String::from("/d/f"),
        MetaInfo { mtime: None, ..meta(0o100644, 1) }, s, n);
    assert_eq!(unknown.modified, "Jan 01 1970");
}

#[test]
fn timestamp_boundary_at_180_days() {
    let (s, n) = now();
    let cutoff = s - 180 * 86_400;
    let at = FilesEntry::new_file(&String::from("/d/f"),
        MetaInfo { mtime: Some((cutoff, 0)), ..meta(0o100644, 1) }, s, n);
    assert!(!at.modified.contains(':'));
    let just_after = FilesEntry::new_file(&String::from("/d/f"),
        MetaInfo { mtime: Some((cutoff, 1)), ..meta(0o100644, 1) }, s, n);
    assert!(just_after.modified.contains(':'));
}

#[test]
fn old_timestamp_shows_calendar_year() {
    let (s, n) = now();
    // 2001-09-09T01:46:40Z falls in 2001 in every time zone.
    let old = FilesEntry::new_file(&String::from("/d/f"),
        MetaInfo { mtime: Some((1_000_000_000, 0)), ..meta(0o100644, 1) }, s, n);
    assert!(old.modified.contains("2001"));
    assert!(old.modified.starts_with("Sep "));
}

#[test]
fn block_size_resolution() {
    assert_eq!(get_block_size(&None, &None, &None, &None), 1024);
    assert_eq!(get_block_size(&Some(String::from("4096")), &None, &None, &None), 4096);
    assert_eq!(get_block_size(&Some(String::from("junk")), &Some(String::from("512")), &None,
        &None), 512);
    assert_eq!(get_block_size(&None, &None, &None, &Some(String::from("2048"))), 2048);
    assert_eq!(get_block_size(&Some(String::from("")), &None, &None, &None), 1024);
}

#[test]
fn listing_filters_hidden_and_counts_blocks() {
    let children = vec![
        ChildInfo { entry: file_entry("/d/.env", 0o100644), blocks: 8 },
        ChildInfo { entry: file_entry("/d/run.sh", 0o100755), blocks: 8 },
        ChildInfo { entry: dir_entry("/d/bin"), blocks: 8 },
    ];
    let opts = Opts { long_format: false, all_files: false };
    let l = FilesList::new(dir_entry("/d"), None, 8, 8, children, 1024, &opts);
    assert_eq!(l.entries.len(), 2);
    assert_eq!(l.entries[0].name(), Some(String::from("bin")));
    assert_eq!(l.entries[1].name(), Some(String::from("run.sh")));
    // Two included members of 8 blocks each: 16 * 512 / 1024.
    assert_eq!(l.blocks, 8);
}

#[test]
fn listing_with_hidden_counts_root_and_parent() {
    let children = vec![
        ChildInfo { entry: file_entry("/d/.env", 0o100644), blocks: 8 },
        ChildInfo { entry: file_entry("/d/run.sh", 0o100755), blocks: 8 },
    ];
    let opts = Opts { long_format: false, all_files: true };
    let l = FilesList::new(dir_entry("/d"), Some(dir_entry("/")), 8, 8, children, 1024, &opts);
    assert_eq!(l.entries.len(), 2);
    // Root 8 + parent 8 + members 16 = 32 blocks of 512 bytes.
    assert_eq!(l.blocks, 16);
    assert!(l.up_dir.is_some());
}

#[test]
fn default_unit_reports_raw_blocks_halved() {
    let opts = Opts { long_format: false, all_files: false };
    let children = vec![ChildInfo { entry: file_entry("/d/a", 0o100644), blocks: 7 }];
    let l = FilesList::new(dir_entry("/d"), None, 0, 0, children, 1024, &opts);
    assert_eq!(l.blocks, (7 * 512) / 1024);
}

#[test]
fn sort_is_case_insensitive_and_strips_dots() {
    let children = vec![
        ChildInfo { entry: file_entry("/d/file.txt", 0o100644), blocks: 0 },
        ChildInfo { entry: file_entry("/d/FILEB", 0o100644), blocks: 0 },
        ChildInfo { entry: file_entry("/d/filea", 0o100644), blocks: 0 },
    ];
    let opts = Opts { long_format: false, all_files: false };
    let l = FilesList::new(dir_entry("/d"), None, 0, 0, children, 1024, &opts);
    let names: Vec<String> = l.entries.iter().map(|e| e.name().unwrap()).collect();
    // Keys: filetxt, fileb, filea.
    assert_eq!(names, vec!["filea", "FILEB", "file.txt"]);
}

#[test]
fn sorting_sorted_listing_is_identity() {
    let children = vec![
        ChildInfo { entry: file_entry("/d/b", 0o100644), blocks: 0 },
        ChildInfo { entry: file_entry("/d/a", 0o100644), blocks: 0 },
        ChildInfo { entry: file_entry("/d/c", 0o100644), blocks: 0 },
    ];
    let opts = Opts { long_format: false, all_files: false };
    let mut l = FilesList::new(dir_entry("/d"), None, 0, 0, children, 1024, &opts);
    let once: Vec<String> = l.entries.iter().map(|e| e.name().unwrap()).collect();
    assert_eq!(once, vec!["a", "b", "c"]);
    l.sort();
    let twice: Vec<String> = l.entries.iter().map(|e| e.name().unwrap()).collect();
    assert_eq!(once, twice);
}

#[test]
fn sort_ties_keep_read_order() {
    // Both names share the sort key "ab".
    let children = vec![
        ChildInfo { entry: file_entry("/d/A.b", 0o100644), blocks: 0 },
        ChildInfo { entry: file_entry("/d/a.B", 0o100644), blocks: 0 },
    ];
    let opts = Opts { long_format: false, all_files: false };
    let l = FilesList::new(dir_entry("/d"), None, 0, 0, children, 1024, &opts);
    let names: Vec<String> = l.entries.iter().map(|e| e.name().unwrap()).collect();
    assert_eq!(names, vec!["A.b", "a.B"]);
}
