use node_path::{posix, win32};

#[test]
fn test_path_join() {
    let cases: &[(&[&str], &str)] = &[
        (&[".", "x/b", "..", "/b/c.js"], "x/b/c.js"),
        (&[], "."),
        (&["/.", "x/b", "..", "/b/c.js"], "/x/b/c.js"),
        (&["/foo", "../../../bar"], "/bar"),
        (&["foo", "../../../bar"], "../../bar"),
        (&["foo/", "../../../bar"], "../../bar"),
        (&["foo/x", "../../../bar"], "../bar"),
        (&["foo/x", "./bar"], "foo/x/bar"),
        (&["foo/x/", "./bar"], "foo/x/bar"),
        (&["foo/x/", ".", "bar"], "foo/x/bar"),
        (&["./"], "./"),
        (&[".", "./"], "./"),
        (&[".", ".", "."], "."),
        (&[".", "./", "."], "."),
        (&[".", "/./", "."], "."),
        (&[".", "/////./", "."], "."),
        (&["."], "."),
        (&["", "."], "."),
        (&["", "foo"], "foo"),
        (&["foo", "/bar"], "foo/bar"),
        (&["", "/foo"], "/foo"),
        (&["", "", "/foo"], "/foo"),
        (&["", "", "foo"], "foo"),
        (&["foo", ""], "foo"),
        (&["foo/", ""], "foo/"),
        (&["foo", "", "/bar"], "foo/bar"),
        (&["./", "..", "/foo"], "../foo"),
        (&["./", "..", "..", "/foo"], "../../foo"),
        (&[".", "..", "..", "/foo"], "../../foo"),
        (&["", "..", "..", "/foo"], "../../foo"),
        (&["/"], "/"),
        (&["/", "."], "/"),
        (&["/", ".."], "/"),
        (&["/", "..", ".."], "/"),
        (&[""], "."),
        (&["", ""], "."),
        (&[" /foo"], " /foo"),
        (&[" ", "foo"], " /foo"),
        (&[" ", "."], " "),
        (&[" ", "/"], " /"),
        (&[" ", ""], " "),
        (&["/", "foo"], "/foo"),
        (&["/", "/foo"], "/foo"),
        (&["/", "//foo"], "/foo"),
        (&["/", "", "/foo"], "/foo"),
        (&["", "/", "foo"], "/foo"),
        (&["", "/", "/foo"], "/foo"),
    ];
    for (paths, expected) in cases {
        let joined = posix::join(paths);
        assert_eq!(posix::normalize(&joined), *expected);

        // The shared cases are written with forward slashes; the win32 result is compared
        // after turning its backslashes into slashes.
        let joined = win32::join(paths);
        assert_eq!(win32::normalize(&joined).replace('\\', "/"), *expected);
    }
}

#[test]
fn test_path_join_windows() {
    let cases: &[(&[&str], &str)] = &[
        // UNC path expected
        (&["//foo/bar"], "\\\\foo\\bar\\"),
        (&["\\/foo/bar"], "\\\\foo\\bar\\"),
        (&["\\\\foo/bar"], "\\\\foo\\bar\\"),
        // UNC path expected - server and share separate
        (&["//foo", "bar"], "\\\\foo\\bar\\"),
        (&["//foo/", "bar"], "\\\\foo\\bar\\"),
        (&["//foo", "/bar"], "\\\\foo\\bar\\"),
        // UNC path expected - questionable
        (&["//foo", "", "bar"], "\\\\foo\\bar\\"),
        (&["//foo/", "", "bar"], "\\\\foo\\bar\\"),
        (&["//foo/", "", "/bar"], "\\\\foo\\bar\\"),
        // UNC path expected - even more questionable
        (&["", "//foo", "bar"], "\\\\foo\\bar\\"),
        (&["", "//foo/", "bar"], "\\\\foo\\bar\\"),
        (&["", "//foo/", "/bar"], "\\\\foo\\bar\\"),
        // No UNC path expected (no double slash in first component)
        (&["\\", "foo/bar"], "\\foo\\bar"),
        (&["\\", "/foo/bar"], "\\foo\\bar"),
        (&["", "/", "/foo/bar"], "\\foo\\bar"),
        // No UNC path expected (no non-slashes in first component -
        // questionable)
        (&["//", "foo/bar"], "\\foo\\bar"),
        (&["//", "/foo/bar"], "\\foo\\bar"),
        (&["\\\\", "/", "/foo/bar"], "\\foo\\bar"),
        (&["//"], "\\"),
        // No UNC path expected (share name missing - questionable).
        (&["//foo"], "\\foo"),
        (&["//foo/"], "\\foo\\"),
        (&["//foo", "/"], "\\foo\\"),
        (&["//foo", "", "/"], "\\foo\\"),
        // No UNC path expected (too many leading slashes - questionable)
        (&["///foo/bar"], "\\foo\\bar"),
        (&["////foo", "bar"], "\\foo\\bar"),
        (&["\\\\\\/foo/bar"], "\\foo\\bar"),
        // Drive-relative vs drive-absolute paths. This merely describes the
        // status quo, rather than being obviously right
        (&["c:"], "c:."),
        (&["c:."], "c:."),
        (&["c:", ""], "c:."),
        (&["", "c:"], "c:."),
        (&["c:.", "/"], "c:.\\"),
        (&["c:.", "file"], "c:file"),
        (&["c:", "/"], "c:\\"),
        (&["c:", "file"], "c:\\file"),
        // A drive-like segment after a leading `..` stays relative.
        (&["./upload", "/../C:/Windows"], ".\\C:\\Windows"),
        (&["upload", "../", "C:foo"], ".\\C:foo"),
        (&["test/..", "??/D:/Test"], ".\\??\\D:\\Test"),
        (&["test", "..", "D:"], ".\\D:"),
        (&["test", "..", "D:\\"], ".\\D:\\"),
        (&["test", "..", "D:foo"], ".\\D:foo"),
    ];
    for (paths, expected) in cases {
        let joined = win32::join(paths);
        assert_eq!(win32::normalize(&joined), *expected);
    }
}
