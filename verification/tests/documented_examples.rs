use node_path::{posix, win32, NodeHost, PathContext};

#[test]
fn crate_documentation_examples() {
    assert_eq!(posix::normalize("/a//b/../c"), "/a/c");
    assert_eq!(win32::normalize("C:/a\\b\\..\\c"), "C:\\a\\c");

    let context = PathContext::new(NodeHost::OtherPosix, "/work", vec![]).unwrap();
    assert_eq!(posix::resolve_with_context(&context, &["src", "../tests"]), "/work/tests");
}

#[test]
fn readme_examples() {
    assert_eq!(posix::normalize("/srv//app/../lib"), "/srv/lib");
    assert_eq!(win32::normalize("C:/srv\\app\\..\\lib"), "C:\\srv\\lib");

    let context = PathContext::new(NodeHost::OtherPosix, "/workspace/project", vec![]).unwrap();
    assert_eq!(
        posix::resolve_with_context(&context, &["src", "../tests"]),
        "/workspace/project/tests",
    );
}

#[test]
fn format_precedence_of_the_path_object_fields() {
    let object = node_path::PathObject {
        root: "/ignored",
        dir: "",
        base: "",
        name: "report",
        ext: ".log",
    };
    assert_eq!(posix::format(&object), "/ignoredreport.log");
    let object = node_path::PathObject { root: "", dir: "", base: "", name: "x", ext: "" };
    assert_eq!(posix::format(&object), "x");
}
