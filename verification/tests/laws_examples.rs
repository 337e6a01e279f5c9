use node_path::{posix, win32, NodeHost, PathContext};

#[test]
fn normalizing_twice_changes_nothing() {
    for p in ["/a//b/../c/./", "../../x/./y/..", "", ".", "./", "//", "a/b/c/../../.."] {
        let once = posix::normalize(p).into_owned();
        assert_eq!(posix::normalize(&once), once);
    }
    assert_eq!(posix::normalize("/a//b/../c/./"), "/a/c/");
}

#[test]
fn join_results_are_normalized() {
    let joined = posix::join(&["a", "../b/", "./c//"]);
    assert_eq!(joined, "b/c/");
    assert_eq!(posix::normalize(&joined), joined);
    assert_eq!(posix::join(&["", ""]), ".");
}

#[test]
fn resolving_a_relative_path_reaches_its_target() {
    let context = PathContext::new(NodeHost::OtherPosix, "/work", vec![]).unwrap();
    let cases = [
        ("a/b", "/x/y", "../../../x/y"),
        ("/a/b/c", "/a/d", "../../d"),
        ("/a", "/a/b/c", "b/c"),
        ("", "/", ".."),
        (".", "sub", "sub"),
        ("/same", "/same/", ""),
    ];
    for (from, to, expected) in cases {
        let rel = posix::relative_with_context(&context, from, to);
        assert_eq!(rel, expected);
        assert_eq!(
            posix::resolve_with_context(&context, &[from, rel.as_str()]),
            posix::resolve_with_context(&context, &[to])
        );
    }
}

#[test]
fn parse_fields_are_slices_of_the_input() {
    let input = "/home/u/file.tar.gz";
    let parsed = posix::parse(input);
    assert_eq!(parsed.root, "/");
    assert_eq!(parsed.dir, "/home/u");
    assert_eq!(parsed.name, "file.tar");
    assert_eq!(parsed.ext, ".gz");
    assert_eq!(format!("{}{}", parsed.name, parsed.ext), parsed.base);
    for field in [parsed.root, parsed.dir, parsed.base, parsed.ext, parsed.name] {
        assert!(input.contains(field));
    }
    let parsed = win32::parse("\\\\server\\share\\dir\\.profile");
    assert_eq!(parsed.root, "\\\\server\\share\\");
    assert_eq!(parsed.dir, "\\\\server\\share\\dir");
    assert_eq!(parsed.base, ".profile");
    assert_eq!(parsed.ext, "");
    assert_eq!(parsed.name, ".profile");
}

#[test]
fn format_undoes_parse() {
    for p in ["/a/b.txt", "a/b", "/", "", "file", "/a", "a//b", "//a/b"] {
        assert_eq!(posix::format(&posix::parse(p)), p);
    }
    for p in ["C:\\a\\b.txt", "C:\\", "C:a", "\\\\server\\share\\f.x", "\\\\server\\share", "a\\b"] {
        assert_eq!(win32::format(&win32::parse(p)), p);
    }
}

#[test]
fn format_does_not_undo_parse_outside_its_domain() {
    assert_eq!(posix::format(&posix::parse("a/")), "a");
    assert_eq!(posix::format(&posix::parse("//a")), "/a");
    assert_eq!(win32::format(&win32::parse("a/b")), "a\\b");
    assert_eq!(win32::format(&win32::parse("C:\\\\a")), "C:\\a");
}

#[test]
fn resolve_results_are_normalized_and_absolute() {
    let context = PathContext::new(NodeHost::OtherPosix, "/a", vec![]).unwrap();
    let resolved = posix::resolve_with_context(&context, &["b/", "../c//"]);
    assert_eq!(resolved, "/a/c");
    assert_eq!(posix::normalize(&resolved), resolved);
    assert_eq!(posix::resolve_with_context(&context, &["/", ".."]), "/");

    let relative_cwd = PathContext::new(NodeHost::OtherPosix, "work", vec![]).unwrap();
    assert_eq!(posix::resolve_with_context(&relative_cwd, &["../../x"]), "../x");
}

#[test]
fn a_non_canonical_cwd_is_returned_unchanged() {
    let context = PathContext::new(NodeHost::OtherPosix, "/a/../b/", vec![]).unwrap();
    assert_eq!(posix::resolve_with_context(&context, &[]), "/a/../b/");
    assert_eq!(posix::resolve_with_context(&context, &["x"]), "/b/x");
}

#[test]
fn normalization_is_idempotent_on_separator_and_name_characters() {
    let alphabet: Vec<char> =
        "abcCONPRNAUXLTMxyz0123456789._/\\".chars().collect();
    let mut state: u64 = 0x3f42_cfac;
    let mut inputs: Vec<String> = vec![
        "CONx".into(),
        "COM1a".into(),
        "nul.".into(),
        "\\\\server\\share".into(),
        "//./x/../y".into(),
        "a/..".into(),
        "a/../".into(),
    ];
    for _ in 0..2000 {
        state = state.wrapping_mul(6364136223846793005).wrapping_add(1442695040888963407);
        let len = (state >> 33) as usize % 24;
        let mut s = String::new();
        for _ in 0..len {
            state = state.wrapping_mul(6364136223846793005).wrapping_add(1442695040888963407);
            s.push(alphabet[(state >> 33) as usize % alphabet.len()]);
        }
        inputs.push(s);
    }
    for path in &inputs {
        let posix_once = posix::normalize(path).into_owned();
        assert_eq!(posix::normalize(&posix_once), posix_once);
        let win_once = win32::normalize(path).into_owned();
        assert_eq!(win32::normalize(&win_once), win_once, "{path:?}");
    }
    assert_eq!(win32::normalize("CONx"), "CONx");
}

#[test]
fn normal_inputs_come_back_borrowed() {
    assert!(matches!(posix::normalize("already/clean"), std::borrow::Cow::Borrowed("already/clean")));
    assert!(matches!(win32::normalize("C:\\a\\b"), std::borrow::Cow::Borrowed("C:\\a\\b")));
    assert!(matches!(posix::normalize("a//b"), std::borrow::Cow::Owned(_)));
}

#[test]
fn resolve_starts_from_the_last_absolute_path() {
    let context = PathContext::new(NodeHost::OtherPosix, "/work", vec![]).unwrap();
    assert_eq!(
        posix::resolve_with_context(&context, &["a", "/b", "c", "/d", "e"]),
        posix::resolve_with_context(&context, &["/d", "e"])
    );
    assert_eq!(posix::resolve_with_context(&context, &["a", "/d", "e"]), "/d/e");
}

#[test]
fn win32_normalization_is_idempotent_on_all_short_colon_free_paths() {
    let alphabet = ['a', '.', '/', '\\', '?'];
    let mut current: Vec<String> = vec![String::new()];
    for _ in 0..7 {
        let mut next = Vec::new();
        for s in &current {
            let once = win32::normalize(s).into_owned();
            assert_eq!(win32::normalize(&once), once, "{s:?}");
            for c in alphabet {
                let mut t = s.clone();
                t.push(c);
                next.push(t);
            }
        }
        current = next;
    }
}
