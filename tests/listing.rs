use dirlist::entry::{format_modified, map_data, EntryType, FileEntry, ModTime, RawMeta};
use dirlist::format::{format_bytes, format_mode_str, format_octal};
use dirlist::listing::{entry_name, get_files, list_path, RawEntry};
use dirlist::order::{chars_of, order_rows, precedes};
use dirlist::resolve::{resolve_target, ListError, Target};

fn file_meta(len: u64, mode: u32) -> RawMeta {
    RawMeta { is_dir: false, is_symlink: false, len, mode: Some(mode), modified: None }
}

fn dir_meta(mode: u32) -> RawMeta {
    RawMeta { is_dir: true, is_symlink: false, len: 4096, mode: Some(mode), modified: None }
}

fn raw(name: &str, meta: Option<RawMeta>) -> RawEntry {
    RawEntry { name: Some(name.to_string()), meta }
}

fn names(rows: &[FileEntry]) -> Vec<String> {
    rows.iter().map(|r| r.name.clone()).collect()
}

#[test]
fn bytes_zero() {
    assert_eq!(format_bytes(0), "0 B");
}

#[test]
fn bytes_below_one_kib() {
    assert_eq!(format_bytes(1023), "1023.0 B");
    assert_eq!(format_bytes(500), "500.0 B");
    assert_eq!(format_bytes(1), "1.0 B");
}

#[test]
fn bytes_kib_and_up() {
    assert_eq!(format_bytes(1024), "1.0 KB");
    assert_eq!(format_bytes(1536), "1.5 KB");
    assert_eq!(format_bytes(2048), "2.0 KB");
    assert_eq!(format_bytes(1048576), "1.0 MB");
    assert_eq!(format_bytes(1073741824), "1.0 GB");
    assert_eq!(format_bytes(1u64 << 40), "1.0 TB");
    assert_eq!(format_bytes(1u64 << 50), "1.0 PB");
    assert_eq!(format_bytes(1u64 << 60), "1.0 EB");
}

#[test]
fn bytes_never_beyond_eb() {
    assert_eq!(format_bytes(u64::MAX), "16.0 EB");
    assert_eq!(format_bytes(15u64 << 60), "15.0 EB");
}

#[test]
fn bytes_rounding_ties_to_even() {
    // 1.25 KB and 1.75 KB are exact ties
    assert_eq!(format_bytes(1280), "1.2 KB");
    assert_eq!(format_bytes(1792), "1.8 KB");
    // just under 1 MiB rounds up in its unit
    assert_eq!(format_bytes(1048575), "1024.0 KB");
}

#[test]
fn bytes_agree_with_float_formatting() {
    let units = ["B", "KB", "MB", "GB", "TB", "PB", "EB"];
    let mut samples: Vec<u64> = (1..5000u64).collect();
    let mut x: u64 = 1;
    while x < (1u64 << 52) {
        samples.push(x);
        samples.push(x + 1);
        samples.push(x * 3 / 2);
        samples.push(x + x / 20);
        x = x * 7 + 3;
    }
    for b in samples {
        let mut v = b as f64;
        let mut k = 0;
        while v >= 1024.0 && k < units.len() - 1 {
            v /= 1024.0;
            k += 1;
        }
        assert_eq!(format_bytes(b), format!("{:.1} {}", v, units[k]), "bytes {}", b);
    }
}

#[test]
fn mode_regular_files() {
    assert_eq!(format_mode_str(0o755, false, false), "-rwxr-xr-x");
    assert_eq!(format_mode_str(0o644, false, false), "-rw-r--r--");
    assert_eq!(format_mode_str(0o100644, false, false), "-rw-r--r--");
    assert_eq!(format_mode_str(0, false, false), "----------");
}

#[test]
fn mode_directory_and_link() {
    assert_eq!(format_mode_str(0o755, true, false), "drwxr-xr-x");
    assert_eq!(format_mode_str(0o644, true, false), "drw-r--r--");
    assert_eq!(format_mode_str(0o777, false, true), "lrwxrwxrwx");
}

#[test]
fn octal_three_digits() {
    assert_eq!(format_octal(0o640), "640");
    assert_eq!(format_octal(0o4), "004");
    assert_eq!(format_octal(0o100755), "755");
    assert_eq!(format_octal(0), "000");
}

#[test]
fn name_placeholder() {
    assert_eq!(entry_name(None), "unknown name");
    assert_eq!(entry_name(Some("a.txt".to_string())), "a.txt");
}

#[test]
fn modified_absent_is_blank() {
    assert_eq!(format_modified(None), "");
    let s = format_modified(Some(ModTime { secs: 0, nanos: 0 }));
    assert_eq!(s.len(), 19);
    assert_eq!(&s[4..5], "-");
    assert_eq!(&s[13..14], ":");
}

#[test]
fn map_data_skips_unreadable() {
    let mut data = Vec::new();
    map_data("gone".to_string(), None, &mut data);
    assert!(data.is_empty());
    map_data("x".to_string(), Some(file_meta(10, 0o600)), &mut data);
    assert_eq!(data.len(), 1);
    assert_eq!(data[0].name, "x");
    assert_eq!(data[0].e_type, EntryType::File);
    assert_eq!(data[0].len_bytes, "10.0 B");
    assert_eq!(data[0].mode, "-rw-------");
    assert_eq!(data[0].octal, "600");
    assert_eq!(data[0].modified, "");
    assert_eq!(data[0].no, 0);
}

#[test]
fn map_data_without_permissions() {
    let mut data = Vec::new();
    let meta = RawMeta { is_dir: false, is_symlink: false, len: 0, mode: None, modified: None };
    map_data("plain".to_string(), Some(meta), &mut data);
    assert_eq!(data[0].mode, "unavailable");
    assert_eq!(data[0].octal, "unavailable");
    assert_eq!(data[0].len_bytes, "0 B");
}

#[test]
fn scenario_directory_first_then_names() {
    let entries = vec![
        raw("Gamma.txt", Some(file_meta(2048, 0o644))),
        raw("alpha.txt", Some(file_meta(500, 0o644))),
        raw("Beta", Some(dir_meta(0o755))),
    ];
    let rows = get_files(entries);
    assert_eq!(names(&rows), vec!["Beta", "alpha.txt", "Gamma.txt"]);
    assert_eq!(rows[0].e_type, EntryType::Dir);
    assert_eq!(rows[0].mode, "drwxr-xr-x");
    assert_eq!(rows[1].len_bytes, "500.0 B");
    assert_eq!(rows[2].len_bytes, "2.0 KB");
    assert_eq!(rows[1].mode, "-rw-r--r--");
    assert_eq!(rows[1].octal, "644");
}

#[test]
fn rows_count_readable_entries_only() {
    let entries = vec![
        raw("a", Some(file_meta(1, 0o644))),
        raw("broken", None),
        raw("c", Some(file_meta(1, 0o644))),
        RawEntry { name: None, meta: Some(file_meta(3, 0o600)) },
    ];
    let rows = get_files(entries);
    assert_eq!(rows.len(), 3);
    assert_eq!(names(&rows), vec!["a", "c", "unknown name"]);
}

#[test]
fn directories_before_files_regardless_of_name() {
    let entries = vec![
        raw("a_file", Some(file_meta(1, 0o644))),
        raw("z_dir", Some(dir_meta(0o755))),
        raw("B_file", Some(file_meta(1, 0o644))),
        raw("Y_dir", Some(dir_meta(0o700))),
    ];
    let rows = get_files(entries);
    assert_eq!(names(&rows), vec!["Y_dir", "z_dir", "a_file", "B_file"]);
}

#[test]
fn case_insensitive_order() {
    let entries = vec![
        raw("C.txt", Some(file_meta(1, 0o644))),
        raw("b.txt", Some(file_meta(1, 0o644))),
        raw("A.txt", Some(file_meta(1, 0o644))),
    ];
    let rows = get_files(entries);
    assert_eq!(names(&rows), vec!["A.txt", "b.txt", "C.txt"]);
}

#[test]
fn ties_keep_enumeration_order() {
    let entries = vec![
        raw("readme", Some(file_meta(1, 0o644))),
        raw("README", Some(file_meta(2, 0o644))),
        raw("ReadMe", Some(file_meta(3, 0o644))),
        raw("other", Some(file_meta(4, 0o644))),
    ];
    let rows = get_files(entries);
    assert_eq!(names(&rows), vec!["other", "readme", "README", "ReadMe"]);
}

#[test]
fn numbering_is_contiguous() {
    let entries = vec![
        raw("d", Some(file_meta(1, 0o644))),
        raw("c", Some(dir_meta(0o755))),
        raw("x", None),
        raw("b", Some(file_meta(1, 0o644))),
        raw("a", Some(dir_meta(0o755))),
    ];
    let rows = get_files(entries);
    let nos: Vec<usize> = rows.iter().map(|r| r.no).collect();
    assert_eq!(nos, vec![1, 2, 3, 4]);
}

#[test]
fn empty_listing() {
    assert!(get_files(Vec::new()).is_empty());
}

#[test]
fn single_file_gives_one_row() {
    let rows = get_files(vec![raw("notes.md", Some(file_meta(1536, 0o600)))]);
    assert_eq!(rows.len(), 1);
    assert_eq!(rows[0].name, "notes.md");
    assert_eq!(rows[0].no, 1);
    assert_eq!(rows[0].len_bytes, "1.5 KB");
    assert_eq!(rows[0].mode, "-rw-------");
}

#[test]
fn order_rows_uses_given_folded_names() {
    let mut a = Vec::new();
    map_data("first".to_string(), Some(file_meta(1, 0o644)), &mut a);
    map_data("second".to_string(), Some(file_meta(1, 0o644)), &mut a);
    let second = a.pop().unwrap();
    let first = a.pop().unwrap();
    let items = vec![(first, vec!['z']), (second, vec!['a'])];
    let rows = order_rows(items);
    assert_eq!(names(&rows), vec!["second", "first"]);
    assert_eq!(rows[0].no, 1);
    assert_eq!(rows[1].no, 2);
}

#[test]
fn precedes_compares_kind_then_name() {
    let ab = chars_of("ab");
    let abc = chars_of("abc");
    let b = chars_of("b");
    assert!(precedes(EntryType::Dir, &b, EntryType::File, &ab));
    assert!(!precedes(EntryType::File, &ab, EntryType::Dir, &b));
    assert!(precedes(EntryType::File, &ab, EntryType::File, &abc));
    assert!(precedes(EntryType::File, &abc, EntryType::File, &b));
    assert!(!precedes(EntryType::File, &ab, EntryType::File, &ab));
}

#[test]
fn missing_path_is_an_error() {
    assert_eq!(resolve_target(Some(false), false), Err(ListError::PathNotFound));
    assert_eq!(resolve_target(Some(false), true), Err(ListError::PathNotFound));
    assert_eq!(ListError::PathNotFound.message(), "Path does not exist");
}

#[test]
fn failed_check_is_a_distinct_error() {
    assert_eq!(resolve_target(None, false), Err(ListError::PathCheckFailed));
    assert_eq!(ListError::PathCheckFailed.message(), "searching directory");
}

#[test]
fn existing_paths_resolve() {
    assert_eq!(resolve_target(Some(true), true), Ok(Target::File));
    assert_eq!(resolve_target(Some(true), false), Ok(Target::Directory));
}

#[test]
fn modified_in_range_has_full_form() {
    for secs in [-8_000_000_000_000i64, -1, 1_700_000_000, 8_000_000_000_000] {
        let s = format_modified(Some(ModTime { secs, nanos: 999_999_999 }));
        assert!(s.len() >= 19, "secs {}: {:?}", secs, s);
    }
    let mut data = Vec::new();
    let meta = RawMeta {
        is_dir: false,
        is_symlink: false,
        len: 1,
        mode: Some(0o644),
        modified: Some(ModTime { secs: 86_400, nanos: 0 }),
    };
    map_data("dated".to_string(), Some(meta), &mut data);
    assert_eq!(data[0].modified.len(), 19);
}

#[test]
fn list_path_missing_gives_no_rows() {
    let entries = vec![raw("ignored", Some(file_meta(1, 0o644)))];
    assert!(matches!(list_path(Some(false), false, entries), Err(ListError::PathNotFound)));
    let entries = vec![raw("ignored", Some(file_meta(1, 0o644)))];
    assert!(matches!(list_path(None, true, entries), Err(ListError::PathCheckFailed)));
}

#[test]
fn list_path_lists_existing() {
    let rows = list_path(Some(true), true, vec![raw("one.txt", Some(file_meta(2048, 0o640)))]).unwrap();
    assert_eq!(rows.len(), 1);
    assert_eq!(rows[0].len_bytes, "2.0 KB");
    assert_eq!(rows[0].octal, "640");
    let rows = list_path(
        Some(true),
        false,
        vec![raw("Gamma.txt", Some(file_meta(2048, 0o644))), raw("Beta", Some(dir_meta(0o755))), raw("alpha.txt", Some(file_meta(500, 0o644)))],
    )
    .unwrap();
    assert_eq!(names(&rows), vec!["Beta", "alpha.txt", "Gamma.txt"]);
    let nos: Vec<usize> = rows.iter().map(|r| r.no).collect();
    assert_eq!(nos, vec![1, 2, 3]);
}
