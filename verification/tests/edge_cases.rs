use std::borrow::Cow;

use node_path::context::drive_cwds_from_env;
use node_path::shared::{is_windows_device_root, is_windows_reserved_name, normalize_string};
use node_path::{posix, win32, ContextError, DriveCwd, GlobError, NodeHost, PathContext};

fn posix_context() -> PathContext {
    PathContext::new(NodeHost::OtherPosix, "/", vec![]).unwrap()
}

#[test]
fn posix_basename_suffix_rules() {
    assert_eq!(posix::basename("/a/b/", None), "b");
    assert_eq!(posix::basename("aaa", Some("a")), "aa");
    assert_eq!(posix::basename("a", Some("a")), "");
    assert_eq!(posix::basename("/dir/a", Some("a")), "a");
    assert_eq!(posix::basename("/dir/file.js", Some("")), "file.js");
    assert_eq!(posix::basename("///", None), "");
}

#[test]
fn posix_extname_and_dirname_edges() {
    assert_eq!(posix::extname(".profile"), "");
    assert_eq!(posix::extname("a."), ".");
    assert_eq!(posix::extname(".."), "");
    assert_eq!(posix::extname("a.b.c"), ".c");
    assert_eq!(posix::dirname(""), ".");
    assert_eq!(posix::dirname("a"), ".");
    assert_eq!(posix::dirname("/"), "/");
    assert_eq!(posix::dirname("/a"), "/");
    assert_eq!(posix::dirname("a/b/c"), "a/b");
}

#[test]
fn win32_roots_and_components() {
    assert_eq!(win32::dirname("C:"), "C:");
    assert_eq!(win32::dirname("C:\\"), "C:\\");
    assert_eq!(win32::dirname("C:foo"), "C:");
    assert_eq!(win32::dirname("\\\\server\\share\\a"), "\\\\server\\share\\");
    assert_eq!(win32::basename("C:foo", None), "foo");
    assert_eq!(win32::basename("C:\\foo\\", None), "foo");
    assert!(!win32::is_absolute("C:"));
    assert!(win32::is_absolute("/"));
    assert!(!win32::is_absolute("a\\b"));
    assert_eq!(win32::extname("C:\\a\\b.TXT"), ".TXT");
}

#[test]
fn win32_normalize_edges() {
    assert_eq!(win32::normalize("/"), "\\");
    assert_eq!(win32::normalize("a"), "a");
    assert_eq!(win32::normalize("\\\\?\\C:\\a\\..\\b"), "\\\\?\\C:\\b");
    assert_eq!(win32::normalize("C:"), "C:.");
    assert_eq!(win32::join(&["C:", "a", "..", "b"]), "C:\\b");
}

#[test]
fn posix_context_operations_on_a_windows_host() {
    let context = PathContext::new(NodeHost::Win32, "C:\\work\\x", vec![]).unwrap();
    assert_eq!(posix::resolve_with_context(&context, &["a"]), "/work/x/a");
    assert_eq!(posix::relative_with_context(&context, "/work", "a"), "x/a");
}

#[test]
fn win32_relative_compares_without_case() {
    let context = PathContext::new(NodeHost::Win32, "C:\\", vec![]).unwrap();
    assert_eq!(
        win32::relative_with_context(&context, "C:\\Foo\\Bar", "c:\\foo\\baz"),
        "..\\baz"
    );
    assert_eq!(win32::relative_with_context(&context, "C:\\ÄB", "C:\\äb"), "");
    assert_eq!(win32::relative_with_context(&context, "C:\\a", "D:\\b"), "D:\\b");
}

#[test]
fn win32_resolve_uses_drive_cwds_and_the_cwd() {
    let context = PathContext::new(
        NodeHost::Win32,
        "C:\\work",
        vec![DriveCwd { device: "d:".into(), cwd: "D:\\data".into() }],
    )
    .unwrap();
    assert_eq!(win32::resolve_with_context(&context, &["x"]), "C:\\work\\x");
    assert_eq!(win32::resolve_with_context(&context, &["D:y"]), "D:\\data\\y");
    assert_eq!(win32::resolve_with_context(&context, &["E:z"]), "E:\\z");
    assert_eq!(win32::resolve_with_context(&context, &["\\top"]), "C:\\top");
    assert_eq!(context.drive_cwd("D:"), Some("D:\\data"));
    assert_eq!(context.drive_cwd("E:"), None);
}

#[test]
fn namespaced_paths() {
    let context = PathContext::new(NodeHost::Win32, "C:\\work", vec![]).unwrap();
    assert_eq!(win32::to_namespaced_path_with_context(&context, "a"), "\\\\?\\C:\\work\\a");
    assert_eq!(win32::to_namespaced_path_with_context(&context, ""), "");
    assert_eq!(
        win32::to_namespaced_path_with_context(&context, "\\\\?\\C:\\x"),
        "\\\\?\\C:\\x"
    );
    assert_eq!(
        win32::_make_long_with_context(&context, "C:\\a"),
        win32::to_namespaced_path_with_context(&context, "C:\\a")
    );
    assert_eq!(
        posix::to_namespaced_path_with_context(&posix_context(), "a\\b"),
        Cow::Borrowed("a\\b")
    );
}

#[test]
fn glob_features() {
    let context = posix_context();
    let check = |path: &str, pattern: &str| {
        posix::matches_glob_with_context(&context, path, pattern).unwrap()
    };
    assert!(check("2", "{1..3}"));
    assert!(!check("4", "{1..3}"));
    assert!(check("b", "{a..c}"));
    assert!(!check("d", "{a..c}"));
    assert!(check("05", "{01..10}"));
    assert!(!check(".hidden.js", "*.js"));
    assert!(check("a/b/c", "**"));
    assert!(check("a.txt", "?.txt"));
    assert!(check("b.js", "[!a].js"));
    assert!(!check("a.js", "[!a].js"));
    assert!(check("dir/stem.js", "**/*.js"));
    assert!(!check("FILE.TXT", "*.txt"));
    let windows = PathContext::new(NodeHost::Win32, "C:\\", vec![]).unwrap();
    assert!(win32::matches_glob_with_context(&windows, "foo\\bar.js", "foo/*.js").unwrap());
    assert!(win32::matches_glob_with_context(&windows, "foo/bar.js", "foo\\*.js").unwrap());
}

#[test]
fn glob_pattern_limit_is_inclusive() {
    let context = posix_context();
    let pattern = "a".repeat(65_536);
    assert_eq!(posix::matches_glob_with_context(&context, "a", &pattern), Ok(false));
    let pattern = "a".repeat(65_537);
    assert_eq!(
        posix::matches_glob_with_context(&context, "a", &pattern),
        Err(GlobError::PatternTooLong { utf16_units: 65_537, maximum: 65_536 })
    );
}

#[test]
fn error_messages() {
    let too_long = GlobError::PatternTooLong { utf16_units: 65_537, maximum: 65_536 };
    assert_eq!(
        too_long.message(),
        "glob pattern contains 65537 UTF-16 units; maximum is 65536"
    );
    assert_eq!(GlobError::MatcherInvariant.message(), "glob matcher invariant violated");

    let duplicate = ContextError::DuplicateDriveDevice("C:".into());
    assert_eq!(duplicate.message(), "duplicate Windows drive device: C:");
    assert!(duplicate.source().is_none());

    let io = ContextError::CurrentDirectory(std::io::Error::new(std::io::ErrorKind::NotFound, "gone"));
    assert_eq!(io.message(), "failed to read the current directory: gone");
    assert_eq!(io.source().map(|e| e.kind()), Some(std::io::ErrorKind::NotFound));

    let path = ContextError::NonUnicodeCurrentDirectory("/some/dir".into());
    assert_eq!(path.message(), "current directory is not valid Unicode: /some/dir");
}

#[test]
fn context_validation() {
    let bad = PathContext::new(
        NodeHost::Win32,
        "C:\\",
        vec![DriveCwd { device: "1:".into(), cwd: "x".into() }],
    );
    assert!(matches!(bad, Err(ContextError::InvalidDriveDevice(ref d)) if d == "1:"));
    let posix_host = PathContext::new(
        NodeHost::OtherPosix,
        "/",
        vec![DriveCwd { device: "Z:".into(), cwd: "Z:\\".into() }],
    )
    .unwrap();
    assert_eq!(posix_host.drive_cwd("z:"), Some("Z:\\"));
    assert_eq!(posix_host.drive_cwd("zz"), None);
}

#[test]
fn shared_helpers() {
    assert!(is_windows_device_root('c'));
    assert!(!is_windows_device_root('1'));
    assert!(is_windows_reserved_name("con"));
    assert!(is_windows_reserved_name("COM1"));
    assert!(is_windows_reserved_name("lpt\u{b9}"));
    assert!(!is_windows_reserved_name("COM0"));
    assert!(!is_windows_reserved_name("CONX"));
    let input: Vec<char> = "a/./b/../../..".chars().collect();
    let out: String = normalize_string(&input, true, false).into_iter().collect();
    assert_eq!(out, "..");
    let out: String = normalize_string(&input, false, false).into_iter().collect();
    assert_eq!(out, "");
}

#[test]
fn drive_cwds_come_from_equals_drive_variables() {
    let vars = vec![
        ("=C:".to_owned(), "C:\\work".to_owned()),
        ("PATH".to_owned(), "x".to_owned()),
        ("=ExitCode".to_owned(), "0".to_owned()),
        ("=d:".to_owned(), "D:\\data".to_owned()),
        ("=1:".to_owned(), "nope".to_owned()),
    ];
    let drives = drive_cwds_from_env(&vars);
    assert_eq!(
        drives,
        vec![
            DriveCwd { device: "C:".into(), cwd: "C:\\work".into() },
            DriveCwd { device: "d:".into(), cwd: "D:\\data".into() },
        ]
    );
}

#[test]
fn unsupported_inputs_are_detected() {
    assert!(node_path::glob::glob_pattern_supported("{1..3}"));
    assert!(node_path::glob::glob_pattern_supported("{1..2..-5}"));
    assert!(!node_path::glob::glob_pattern_supported("{1..2..-9223372036854775807}"));
    assert!(!node_path::glob::glob_pattern_supported("{1..2..-9223372036854775808}"));
    assert!(!node_path::glob::glob_pattern_supported("{9223372036854775806..9223372036854775807..5}"));
    let context = PathContext::new(NodeHost::OtherPosix, "/", vec![]).unwrap();
    assert!(posix::relative_supported(&context, "/a", "/b"));
    assert!(posix::relative_supported(&context, "é", "/b"));
    let empty_cwd = PathContext::new(NodeHost::OtherPosix, "", vec![]).unwrap();
    assert!(!posix::relative_supported(&empty_cwd, "é", "/b"));
    assert!(posix::relative_supported(&empty_cwd, "é", "é"));
    assert!(posix::relative_supported(&empty_cwd, "a", "b"));
    // With a relative cwd the resolved paths are relative too, and their first character is
    // dropped as if it were the root.
    assert_eq!(posix::relative_with_context(&empty_cwd, "a", "b"), "");
}

#[test]
fn win32_normalization_of_a_device_stream_is_not_idempotent() {
    assert_eq!(win32::normalize("CON:"), ".\\CON:.");
    assert_eq!(win32::normalize(".\\CON:."), "CON:.");
}

#[test]
fn bare_namespace_prefixes() {
    let context = PathContext::new(NodeHost::Win32, "C:\\work", vec![]).unwrap();
    // Outside `normalize`, a namespace prefix with nothing after it is a plain rooted path.
    assert_eq!(win32::resolve_with_context(&context, &["\\\\.\\"]), "C:\\");
    // `normalize` keeps it as the device, so that normalizing `\\.\x\..` twice agrees.
    assert_eq!(win32::normalize("\\\\.\\x\\.."), "\\\\.\\");
    assert_eq!(win32::normalize("\\\\.\\"), "\\\\.\\");
}

#[test]
fn brace_expansion_stops_at_its_limit() {
    let context = posix_context();
    assert!(posix::matches_glob_with_context(&context, "1024", "{1..2000}").unwrap());
    assert!(!posix::matches_glob_with_context(&context, "1025", "{1..2000}").unwrap());
}
