use node_path::{ContextError, DriveCwd, NodeHost, PathContext};

#[test]
fn accepts_empty_cwd_and_exposes_an_immutable_snapshot() {
    let mut original_cwd = String::new();
    let mut original_drives = vec![DriveCwd {
        device: "C:".into(),
        cwd: "D:\\mismatched-but-retained".into(),
    }];
    let context = PathContext::new(
        NodeHost::Win32,
        &original_cwd.clone(),
        original_drives.clone(),
    )
    .unwrap();

    original_cwd.push_str("changed");
    original_drives[0].cwd.push_str("\\changed");

    assert_eq!(context.cwd(), "");
    assert_eq!(context.host(), NodeHost::Win32);
    assert_eq!(context.drive_cwds()[0].device, "C:");
    assert_eq!(context.drive_cwds()[0].cwd, "D:\\mismatched-but-retained");
}

#[test]
fn rejects_malformed_and_ascii_case_duplicate_devices() {
    let malformed = PathContext::new(
        NodeHost::Win32,
        "C:\\work",
        vec![DriveCwd {
            device: "CC:".into(),
            cwd: "C:\\work".into(),
        }],
    )
    .unwrap_err();
    assert!(matches!(
        malformed,
        ContextError::InvalidDriveDevice(ref device) if device == "CC:"
    ));

    let duplicate = PathContext::new(
        NodeHost::Win32,
        "C:\\work",
        vec![
            DriveCwd {
                device: "c:".into(),
                cwd: "C:\\one".into(),
            },
            DriveCwd {
                device: "C:".into(),
                cwd: "C:\\two".into(),
            },
        ],
    )
    .unwrap_err();
    assert!(matches!(
        duplicate,
        ContextError::DuplicateDriveDevice(ref device) if device == "C:"
    ));
}

#[test]
fn context_errors_are_actionable_and_dependency_independent() {
    let invalid = ContextError::InvalidDriveDevice("1:".into());
    assert_eq!(invalid.message(), "invalid Windows drive device: 1:");
    assert!(invalid.source().is_none());

    let non_unicode = ContextError::NonUnicodeCurrentDirectory("bad-cwd".into());
    assert!(non_unicode.message().contains("not valid Unicode"));
}
