use sideromelane::preferences::{validate_default_folder, validate_default_folder_in, DefaultFolderError, PreferencesWindow};

#[test]
fn accepts_normal_user_path() {
    assert!(validate_default_folder("/Users/alice/Notes").is_ok());
}

#[test]
fn rejects_fs_root() {
    let result = validate_default_folder("/");
    assert_eq!(result, Err(DefaultFolderError::FsRoot));
}

#[test]
fn rejects_system_exact() {
    let paths = [
        "/System", "/private", "/Library", "/usr", "/bin", "/sbin", "/etc", "/var", "/dev",
    ];
    for path in &paths {
        let result = validate_default_folder(path);
        assert!(
            matches!(result, Err(DefaultFolderError::SystemPath(_))),
            "expected SystemPath rejection for {path}",
        );
    }
}

#[test]
fn rejects_system_child() {
    let result = validate_default_folder("/etc/cron.d");
    assert!(
        matches!(result, Err(DefaultFolderError::SystemPath(_))),
        "expected SystemPath rejection for /etc/cron.d",
    );
}

#[test]
fn rejects_private_child() {
    let result = validate_default_folder("/private/tmp/foo");
    assert!(
        matches!(result, Err(DefaultFolderError::SystemPath(_))),
        "expected SystemPath rejection for /private/tmp/foo",
    );
}

#[test]
fn rejects_user_library() {
    if let Some(home) = dirs::home_dir() {
        let user_library = home.join("Library");
        let result = validate_default_folder(&user_library.to_string_lossy());
        assert_eq!(result, Err(DefaultFolderError::UserLibrary));
    }
}

#[test]
fn rejects_user_library_child() {
    if let Some(home) = dirs::home_dir() {
        let mail = home.join("Library").join("Mail");
        let result = validate_default_folder(&mail.to_string_lossy());
        assert_eq!(result, Err(DefaultFolderError::UserLibrary));
    }
}

#[test]
fn folder_rules_on_path_components() {
    assert_eq!(validate_default_folder_in("//", None), Err(DefaultFolderError::FsRoot));
    assert_eq!(validate_default_folder_in("/./", None), Err(DefaultFolderError::FsRoot));
    assert_eq!(
        validate_default_folder_in("//etc//x", None),
        Err(DefaultFolderError::SystemPath("//etc//x".to_owned()))
    );
    assert!(validate_default_folder_in("/etcetera", None).is_ok());
    assert!(validate_default_folder_in("etc", None).is_ok());
    assert_eq!(
        validate_default_folder_in("/home/u/Library/Mail", Some("/home/u")),
        Err(DefaultFolderError::UserLibrary)
    );
    assert_eq!(
        validate_default_folder_in("/home/u/Library", Some("/home/u/")),
        Err(DefaultFolderError::UserLibrary)
    );
    assert!(validate_default_folder_in("/home/u/Libraryish", Some("/home/u")).is_ok());
    assert!(validate_default_folder_in("/home/u/Library", None).is_ok());
}

#[test]
fn preferences_window_reports_rejected_folder() {
    let mut window = PreferencesWindow::default();
    assert_eq!(window.folder_error(), None);
    assert_eq!(window.choose_default_folder("/a", "/a"), None);
    assert_eq!(window.choose_default_folder("/a", "/etc"), None);
    assert_eq!(window.folder_error(), Some("Folder '/etc' is restricted; pick another."));
    assert_eq!(window.choose_default_folder("/a", "/tmp/notes"), Some("/tmp/notes".to_owned()));
    assert_eq!(window.folder_error(), None);
}

#[test]
fn error_messages_read_as_displayed() {
    assert_eq!(
        DefaultFolderError::SystemPath("/usr/local".to_owned()).message(),
        "'/usr/local' is a restricted system path; pick another folder"
    );
    assert_eq!(DefaultFolderError::FsRoot.message(), "the filesystem root is not a valid notes folder");
    assert_eq!(DefaultFolderError::UserLibrary.message(), "~/Library is restricted; pick another folder");
}

#[test]
fn choosing_a_folder_follows_the_verdict_for_a_given_home() {
    let mut window = PreferencesWindow::default();
    let home = Some("/Users/alice");
    assert_eq!(
        window.choose_default_folder_in("/Users/alice/Notes", "/Users/alice/Library/Notes", home),
        None
    );
    assert_eq!(
        window.folder_error(),
        Some("Folder '/Users/alice/Library/Notes' is restricted; pick another.")
    );
    assert_eq!(
        window.choose_default_folder_in("/Users/alice/Notes", "/Users/alice/Work", home),
        Some("/Users/alice/Work".to_owned())
    );
    assert_eq!(window.folder_error(), None);
    assert_eq!(window.choose_default_folder_in("/a", "/a", home), None);
}

#[test]
fn picking_the_current_folder_again_is_no_change() {
    let mut window = PreferencesWindow::default();
    assert_eq!(window.choose_default_folder_in("/tmp/notes", "/tmp/notes/", None), None);
    assert_eq!(window.choose_default_folder_in("/tmp/notes", "/tmp//notes", None), None);
    assert_eq!(window.folder_error(), None);
    assert_eq!(
        window.choose_default_folder_in("/tmp/notes", "/tmp/notes2", None),
        Some("/tmp/notes2".to_owned())
    );
}
