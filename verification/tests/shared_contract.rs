use node_path::shared::{
    dot_segment, is_posix_separator, is_win32_separator, slice, sum_capacity, win32_root_len,
    DotSegment,
};
use node_path::{DriveCwd, NodeHost, PathContext};

#[test]
fn drive_lookup_is_ascii_case_insensitive() {
    let context = PathContext::new(
        NodeHost::Win32,
        "C:\\root",
        vec![DriveCwd {
            device: "c:".into(),
            cwd: "C:\\work".into(),
        }],
    )
    .unwrap();

    assert_eq!(context.drive_cwd("C:"), Some("C:\\work"));
}

#[test]
fn classifies_ascii_separators() {
    assert!(is_posix_separator(b'/'));
    assert!(!is_posix_separator(b'\\'));
    assert!(is_win32_separator(b'/'));
    assert!(is_win32_separator(b'\\'));
    assert!(!is_win32_separator(b':'));
}

#[test]
fn recognizes_drive_and_unc_roots() {
    assert_eq!(win32_root_len("C:\\work"), 3);
    assert_eq!(win32_root_len("C:work"), 2);
    assert_eq!(win32_root_len("\\\\server\\share\\file"), 15);
    assert_eq!(win32_root_len("relative"), 0);
}

#[test]
fn classifies_dot_segments() {
    assert_eq!(dot_segment("."), DotSegment::Current);
    assert_eq!(dot_segment(".."), DotSegment::Parent);
    assert_eq!(dot_segment("..."), DotSegment::Other);
    assert_eq!(dot_segment("文件"), DotSegment::Other);
}

#[test]
fn slicing_stays_on_utf8_boundaries() {
    let value = "a/文件.txt";
    assert_eq!(slice(value, 2, value.len()), "文件.txt");
    assert_eq!(slice(value, 2, 2), "");
}

#[test]
fn capacity_planning_saturates() {
    assert_eq!(sum_capacity(&[1, 2, 3]), 6);
    assert_eq!(sum_capacity(&[usize::MAX, 1]), usize::MAX);
}
