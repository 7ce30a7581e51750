use list_big_files::{parse_size, scan_result, select_big_files, sort_largest_first};
use list_big_files::{FileInfo, FoundFile};

const MB: u64 = 1024 * 1024;

fn found(entries: &[(&str, u64)]) -> Vec<FoundFile> {
    entries
        .iter()
        .map(|&(path, size)| FoundFile { path: format!("/tmp/scan/{}", path), size_bytes: Some(size) })
        .collect()
}

fn sizes(files: &[FileInfo]) -> Vec<u64> {
    files.iter().map(|f| f.size_bytes).collect()
}

#[test]
fn test_list_big_files_empty_directory() {
    let (files, scanned_count) = select_big_files(&found(&[]), 100 * 1024 * 1024);
    assert_eq!(files.len(), 0);
    assert_eq!(scanned_count, 0);
}

#[test]
fn test_list_big_files_all_small_files() {
    let entries = found(&[("small1.txt", 1024), ("small2.txt", 2048), ("small3.txt", 4096)]);
    let (files, scanned_count) = select_big_files(&entries, 100 * 1024 * 1024);
    assert_eq!(files.len(), 0);
    assert_eq!(scanned_count, 3);
}

#[test]
fn test_list_big_files_all_large_files() {
    let entries = found(&[("large1.txt", 150 * 1024 * 1024), ("large2.txt", 200 * 1024 * 1024)]);
    let (mut files, scanned_count) = select_big_files(&entries, 100 * 1024 * 1024);
    sort_largest_first(&mut files);
    assert_eq!(files.len(), 2);
    assert_eq!(scanned_count, 2);
    assert!(files[0].size_bytes > files[1].size_bytes);
    assert_eq!(files[0].size_bytes, 200 * MB);
}

#[test]
fn test_list_big_files_mixed_sizes() {
    let entries = found(&[
        ("small.txt", 1024),
        ("large.txt", 150 * 1024 * 1024),
        ("medium.txt", 50 * 1024 * 1024),
        ("huge.txt", 500 * 1024 * 1024),
    ]);
    let (mut files, scanned_count) = select_big_files(&entries, 100 * 1024 * 1024);
    sort_largest_first(&mut files);
    assert_eq!(files.len(), 2);
    assert_eq!(scanned_count, 4);
    assert!(files[0].size_bytes > files[1].size_bytes);
    assert!(files[0].path.ends_with("huge.txt"));
    assert!(files[1].path.ends_with("large.txt"));
}

#[test]
fn test_list_big_files_nested_directories() {
    let entries = found(&[
        ("root_file.txt", 150 * 1024 * 1024),
        ("subdir/sub_file.txt", 200 * 1024 * 1024),
        ("subdir/nested/nested_file.txt", 100 * 1024 * 1024),
    ]);
    let (files, scanned_count) = select_big_files(&entries, 100 * 1024 * 1024);
    assert_eq!(files.len(), 3);
    assert_eq!(scanned_count, 3);
}

#[test]
fn test_list_big_files_threshold_boundary() {
    let entries = found(&[
        ("exactly_100mb.txt", 100 * 1024 * 1024),
        ("just_under_100mb.txt", 100 * 1024 * 1024 - 1),
    ]);
    let (files, scanned_count) = select_big_files(&entries, 100 * 1024 * 1024);
    assert_eq!(files.len(), 1);
    assert_eq!(scanned_count, 2);
    assert_eq!(files[0].size_bytes, 100 * 1024 * 1024);
}

#[test]
fn test_list_big_files_size_threshold_bytes() {
    let entries = found(&[("1mb.txt", 1024 * 1024), ("2mb.txt", 2 * 1024 * 1024)]);
    let (files, scanned_count) = select_big_files(&entries, 1024 * 1024);
    assert_eq!(files.len(), 2);
    assert_eq!(scanned_count, 2);
}

#[test]
fn test_list_big_files_zero_threshold() {
    let entries = found(&[("tiny.txt", 1)]);
    let (files, scanned_count) = select_big_files(&entries, 0);
    assert_eq!(files.len(), 1);
    assert_eq!(scanned_count, 1);
}

#[test]
fn test_file_info_contains_correct_data() {
    let test_size = 150 * 1024 * 1024;
    let entries = found(&[("test.txt", test_size)]);
    let (files, _) = select_big_files(&entries, 100 * 1024 * 1024);
    assert_eq!(files.len(), 1);
    assert_eq!(files[0].size_bytes, test_size as u64);
    assert!(files[0].path.contains("test.txt"));
}

#[test]
fn zero_token_lists_every_file() {
    let t = parse_size("0");
    let entries = found(&[("tiny.txt", 1), ("empty.txt", 0), ("big.bin", 3 * MB)]);
    let r = scan_result(&entries, t.bytes);
    assert_eq!(r.records.len(), 3);
    assert_eq!(r.scanned_count, 3);
    assert_eq!(sizes(&r.records), vec![3 * MB, 1, 0]);
}

#[test]
fn unreadable_sizes_are_counted_but_not_listed() {
    let mut entries = found(&[("a.bin", 300 * MB)]);
    entries.push(FoundFile { path: "/tmp/scan/vanished.bin".to_string(), size_bytes: None });
    let (files, scanned_count) = select_big_files(&entries, 0);
    assert_eq!(files.len(), 1);
    assert_eq!(scanned_count, 2);
    assert_eq!(files[0].path, "/tmp/scan/a.bin");
}

#[test]
fn records_keep_the_order_found_before_sorting() {
    let entries = found(&[("a", 5), ("b", 1), ("c", 9), ("d", 7)]);
    let (files, _) = select_big_files(&entries, 5);
    assert_eq!(sizes(&files), vec![5, 9, 7]);
    let paths: Vec<&str> = files.iter().map(|f| f.path.as_str()).collect();
    assert_eq!(paths, vec!["/tmp/scan/a", "/tmp/scan/c", "/tmp/scan/d"]);
}

#[test]
fn sorting_puts_the_largest_first_and_keeps_every_record() {
    let entries = found(&[("a", 5), ("b", 9), ("c", 5), ("d", 12), ("e", 0), ("f", 9)]);
    let (mut files, _) = select_big_files(&entries, 0);
    sort_largest_first(&mut files);
    assert_eq!(sizes(&files), vec![12, 9, 9, 5, 5, 0]);
    let mut paths: Vec<String> = files.iter().map(|f| f.path.clone()).collect();
    paths.sort();
    assert_eq!(paths.len(), 6);
    assert_eq!(paths[0], "/tmp/scan/a");
    assert_eq!(paths[5], "/tmp/scan/f");
}

#[test]
fn scanning_in_another_order_gives_the_same_records() {
    let first = found(&[("x", 150 * MB), ("y", 20), ("z", 200 * MB), ("w", 100 * MB)]);
    let second = found(&[("w", 100 * MB), ("z", 200 * MB), ("x", 150 * MB), ("y", 20)]);
    let a = scan_result(&first, 100 * MB);
    let b = scan_result(&second, 100 * MB);
    assert_eq!(a.scanned_count, b.scanned_count);
    let mut pa: Vec<(String, u64)> = a.records.iter().map(|f| (f.path.clone(), f.size_bytes)).collect();
    let mut pb: Vec<(String, u64)> = b.records.iter().map(|f| (f.path.clone(), f.size_bytes)).collect();
    pa.sort();
    pb.sort();
    assert_eq!(pa, pb);
    assert_eq!(sizes(&a.records), vec![200 * MB, 150 * MB, 100 * MB]);
}

#[test]
fn scan_of_large_files_is_sorted() {
    let entries = found(&[("large1.txt", 150 * MB), ("large2.txt", 200 * MB)]);
    let r = scan_result(&entries, parse_size("100").bytes);
    assert_eq!(r.scanned_count, 2);
    assert_eq!(sizes(&r.records), vec![200 * MB, 150 * MB]);
    assert!(r.records[0].path.ends_with("large2.txt"));
}

#[test]
fn three_one_kb_files_under_the_default_threshold() {
    let entries = found(&[("a.txt", 1024), ("b.txt", 1024), ("c.txt", 1024)]);
    let r = scan_result(&entries, parse_size("100MB").bytes);
    assert_eq!(r.scanned_count, 3);
    assert_eq!(r.records.len(), 0);
}
