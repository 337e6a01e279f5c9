use node_path::{posix, win32};


#[test]
fn test_path_normalize_test_path_normalize_windows() {
    assert_eq!(
        win32::normalize("./fixtures///b/../b/c.js"),
        "fixtures\\b\\c.js"
    );
    assert_eq!(
        win32::normalize("/foo/../../../bar"),
        "\\bar"
    );
    assert_eq!(
        win32::normalize("a//b//../b"),
        "a\\b"
    );
    assert_eq!(
        win32::normalize("a//b//./c"),
        "a\\b\\c"
    );
    assert_eq!(win32::normalize("a//b//."), "a\\b");
    assert_eq!(
        win32::normalize("//server/share/dir/file.ext"),
        "\\\\server\\share\\dir\\file.ext"
    );
    assert_eq!(
        win32::normalize("/a/b/c/../../../x/y/z"),
        "\\x\\y\\z"
    );
    assert_eq!(win32::normalize("C:"), "C:.");
    assert_eq!(
        win32::normalize("C:..\\abc"),
        "C:..\\abc"
    );
    assert_eq!(
        win32::normalize("C:..\\..\\abc\\..\\def"),
        "C:..\\..\\def"
    );
    assert_eq!(win32::normalize("C:\\."), "C:\\");
    assert_eq!(
        win32::normalize("file:stream"),
        "file:stream"
    );
    assert_eq!(
        win32::normalize("bar\\foo..\\..\\"),
        "bar\\"
    );
    assert_eq!(
        win32::normalize("bar\\foo..\\.."),
        "bar"
    );
    assert_eq!(
        win32::normalize("bar\\foo..\\..\\baz"),
        "bar\\baz"
    );
    assert_eq!(
        win32::normalize("bar\\foo..\\"),
        "bar\\foo..\\"
    );
    assert_eq!(
        win32::normalize("bar\\foo.."),
        "bar\\foo.."
    );
    assert_eq!(
        win32::normalize("..\\foo..\\..\\..\\bar"),
        "..\\..\\bar"
    );
    assert_eq!(
        win32::normalize("..\\...\\..\\.\\...\\..\\..\\bar"),
        "..\\..\\bar"
    );
    assert_eq!(
        win32::normalize("../../../foo/../../../bar"),
        "..\\..\\..\\..\\..\\bar"
    );
    assert_eq!(
        win32::normalize("../../../foo/../../../bar/../../"),
        "..\\..\\..\\..\\..\\..\\"
    );
    assert_eq!(
        win32::normalize("../foobar/barfoo/foo/../../../bar/../../"),
        "..\\..\\"
    );
    assert_eq!(
        win32::normalize("../.../../foobar/../../../bar/../../baz"),
        "..\\..\\..\\..\\baz"
    );
    assert_eq!(
        win32::normalize("foo/bar\\baz"),
        "foo\\bar\\baz"
    );
    assert_eq!(
        win32::normalize("\\\\.\\foo"),
        "\\\\.\\foo"
    );
    assert_eq!(
        win32::normalize("\\\\.\\foo\\"),
        "\\\\.\\foo\\"
    );
    assert_eq!(
        win32::normalize("test/../C:/Windows"),
        ".\\C:\\Windows"
    );
    assert_eq!(
        win32::normalize("test/../C:Windows"),
        ".\\C:Windows"
    );
    assert_eq!(
        win32::normalize("./upload/../C:/Windows"),
        ".\\C:\\Windows"
    );
    assert_eq!(
        win32::normalize("./upload/../C:x"),
        ".\\C:x"
    );
    assert_eq!(
        win32::normalize("test/../??/D:/Test"),
        ".\\??\\D:\\Test"
    );
    assert_eq!(
        win32::normalize("test/C:/../../F:"),
        ".\\F:"
    );
    assert_eq!(
        win32::normalize("test/C:foo/../../F:"),
        ".\\F:"
    );
    assert_eq!(
        win32::normalize("test/C:/../../F:\\"),
        ".\\F:\\"
    );
    assert_eq!(
        win32::normalize("test/C:foo/../../F:\\"),
        ".\\F:\\"
    );
    assert_eq!(
        win32::normalize("test/C:/../../F:x"),
        ".\\F:x"
    );
    assert_eq!(
        win32::normalize("test/C:foo/../../F:x"),
        ".\\F:x"
    );
    assert_eq!(
        win32::normalize("/test/../??/D:/Test"),
        "\\??\\D:\\Test"
    );
    assert_eq!(
        win32::normalize("/test/../?/D:/Test"),
        "\\?\\D:\\Test"
    );
    assert_eq!(
        win32::normalize("//test/../??/D:/Test"),
        "\\\\test\\..\\??\\D:\\Test"
    );
    assert_eq!(
        win32::normalize("//test/../?/D:/Test"),
        "\\\\test\\..\\?\\D:\\Test"
    );
    assert_eq!(
        win32::normalize("\\\\?\\test/../?/D:/Test"),
        "\\\\?\\?\\D:\\Test"
    );
    assert_eq!(
        win32::normalize("\\\\?\\test/../../?/D:/Test"),
        "\\\\?\\?\\D:\\Test"
    );
    assert_eq!(
        win32::normalize("\\\\.\\test/../?/D:/Test"),
        "\\\\.\\?\\D:\\Test"
    );
    assert_eq!(
        win32::normalize("\\\\.\\test/../../?/D:/Test"),
        "\\\\.\\?\\D:\\Test"
    );
    assert_eq!(
        win32::normalize("//server/share/dir/../../../?/D:/file"),
        "\\\\server\\share\\?\\D:\\file"
    );
    assert_eq!(
        win32::normalize("//server/goodshare/../badshare/file"),
        "\\\\server\\goodshare\\badshare\\file"
    );
}

#[test]
fn test_path_normalize_test_path_normalize_posix() {
    assert_eq!(
        posix::normalize("./fixtures///b/../b/c.js"),
        "fixtures/b/c.js"
    );
    assert_eq!(
        posix::normalize("/foo/../../../bar"),
        "/bar"
    );
    assert_eq!(
        posix::normalize("a//b//../b"),
        "a/b"
    );
    assert_eq!(
        posix::normalize("a//b//./c"),
        "a/b/c"
    );
    assert_eq!(
        posix::normalize("./fixtures///b/../b/c.js"),
        "fixtures/b/c.js"
    );
    assert_eq!(posix::normalize("a//b//."), "a/b");
    assert_eq!(
        posix::normalize("/a/b/c/../../../x/y/z"),
        "/x/y/z"
    );
    assert_eq!(
        posix::normalize("///..//./foo/.//bar"),
        "/foo/bar"
    );
    assert_eq!(
        posix::normalize("bar/foo../../"),
        "bar/"
    );
    assert_eq!(
        posix::normalize("bar/foo../.."),
        "bar"
    );
    assert_eq!(
        posix::normalize("bar/foo../../baz"),
        "bar/baz"
    );
    assert_eq!(
        posix::normalize("bar/foo../"),
        "bar/foo../"
    );
    assert_eq!(
        posix::normalize("bar/foo.."),
        "bar/foo.."
    );
    assert_eq!(
        posix::normalize("../foo../../../bar"),
        "../../bar"
    );
    assert_eq!(
        posix::normalize("../.../.././.../../../bar"),
        "../../bar"
    );
    assert_eq!(
        posix::normalize("../../../foo/../../../bar"),
        "../../../../../bar"
    );
    assert_eq!(
        posix::normalize("../../../foo/../../../bar/../../"),
        "../../../../../../"
    );
    assert_eq!(
        posix::normalize("../foobar/barfoo/foo/../../../bar/../../"),
        "../../"
    );
    assert_eq!(
        posix::normalize("../.../../foobar/../../../bar/../../baz"),
        "../../../../baz"
    );
    assert_eq!(
        posix::normalize("foo/bar\\baz"),
        "foo/bar\\baz"
    );
}
