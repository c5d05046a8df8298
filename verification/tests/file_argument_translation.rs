use freebsd_flatpak::file_argument_translation::{
    host_path_from_arg, is_standalone_desktop_field_code, local_file_uri_path,
    looks_like_path_arg, normalize_absolute_path, percent_decode, percent_encode_path,
    ArgumentError, Surroundings,
};
use freebsd_flatpak::filesystem_grants::HostPathGrant;
use freebsd_flatpak::filesystem_permissions::AccessMode;
use freebsd_flatpak::host_filesystem::HostFilesystem;
use freebsd_flatpak::path::FsPath;

fn test_filesystem() -> HostFilesystem {
    HostFilesystem {
        permissions: Vec::new(),
        grants: vec![HostPathGrant::new(
            "xdg-documents",
            "xdg-documents",
            FsPath::new("/host/home/user/Documents"),
            FsPath::new("/host/home/user/Documents"),
            FsPath::new("/home/user/Documents"),
            AccessMode::ReadWrite,
        )
        .unwrap()],
        warnings: Vec::new(),
        sandbox_home: FsPath::new("/home/user"),
        persistent_paths: Vec::new(),
    }
}

fn around() -> Surroundings {
    Surroundings {
        home: Some(FsPath::new("/host/home/user")),
        current_dir: Some(FsPath::new("/host/home/user/Documents")),
    }
}

#[test]
fn translates_allowed_absolute_path() {
    let fs = test_filesystem();
    let args = fs
        .translate_args(&["/host/home/user/Documents/test.txt".to_string()], &around())
        .unwrap()
        .args;
    assert_eq!(args, ["/home/user/Documents/test.txt"]);
}

#[test]
fn translates_allowed_file_uri() {
    let fs = test_filesystem();
    let args = fs
        .translate_args(
            &["file:///host/home/user/Documents/a%20b.txt".to_string()],
            &around(),
        )
        .unwrap()
        .args;
    assert_eq!(args, ["file:///home/user/Documents/a%20b.txt"]);
}

#[test]
fn preserves_sandbox_internal_absolute_path() {
    let fs = test_filesystem();
    let args = fs
        .translate_args(&["/var/data/audio-test-tone.wav".to_string()], &around())
        .unwrap()
        .args;
    assert_eq!(args, ["/var/data/audio-test-tone.wav"]);
}

#[test]
fn preserves_sandbox_internal_file_uri() {
    let fs = test_filesystem();
    let args = fs
        .translate_args(
            &["file:///var/data/audio-test-tone.wav".to_string()],
            &around(),
        )
        .unwrap()
        .args;
    assert_eq!(args, ["file:///var/data/audio-test-tone.wav"]);
}

#[test]
fn drops_literal_desktop_field_codes() {
    let fs = test_filesystem();
    let args = fs
        .translate_args(&["--new-window".to_string(), "%U".to_string()], &around())
        .unwrap()
        .args;
    assert_eq!(args, ["--new-window"]);
}

#[test]
fn a_path_that_no_grant_shows_is_handed_on_and_reported() {
    let fs = test_filesystem();
    let translated = fs
        .translate_args(&["/host/other/file".to_string()], &around())
        .unwrap();
    assert_eq!(translated.args, ["/host/other/file"]);
    assert_eq!(translated.unseen.len(), 1);
}

#[test]
fn percent_escapes_are_decoded_to_the_text_of_their_bytes() {
    assert_eq!(percent_decode("a%20b%C3%A4").unwrap(), "a bä");
    assert!(matches!(percent_decode("%C3"), Err(ArgumentError::NotUtf8)));
    assert!(matches!(
        percent_decode("%2"),
        Err(ArgumentError::InvalidEscape(_))
    ));
    assert!(matches!(
        percent_decode("%zz"),
        Err(ArgumentError::InvalidEscape(_))
    ));
}

#[test]
fn an_encoded_path_is_decoded_to_itself() {
    for text in ["/a b/ü.txt", "/plain", "/100%/~x-y_z.q"] {
        let encoded = percent_encode_path(&FsPath::new(text));
        assert_eq!(percent_decode(&encoded).unwrap(), text);
    }
    assert_eq!(percent_encode_path(&FsPath::new("/a b")), "/a%20b");
}

#[test]
fn only_local_uris_name_a_path() {
    assert_eq!(
        local_file_uri_path("file:///a%20b").unwrap(),
        FsPath::new("/a b")
    );
    assert_eq!(
        local_file_uri_path("file://localhost/a").unwrap(),
        FsPath::new("/a")
    );
    assert!(matches!(
        local_file_uri_path("file://elsewhere/a"),
        Err(ArgumentError::NonLocalUri(_))
    ));
    assert!(matches!(
        local_file_uri_path("http://a"),
        Err(ArgumentError::NotFileUri)
    ));
}

#[test]
fn arguments_are_read_from_home_and_the_current_directory() {
    let here = around();
    assert_eq!(
        host_path_from_arg("~/x", &here).unwrap(),
        FsPath::new("/host/home/user/x")
    );
    assert_eq!(
        host_path_from_arg("./y", &here).unwrap(),
        FsPath::new("/host/home/user/Documents/y")
    );
    let nowhere = Surroundings {
        home: None,
        current_dir: None,
    };
    assert!(matches!(
        host_path_from_arg("~/x", &nowhere),
        Err(ArgumentError::HomeUnset)
    ));
    assert!(matches!(
        normalize_absolute_path(&FsPath::new("y"), &nowhere),
        Err(ArgumentError::NoNormalizationDirectory)
    ));
    assert_eq!(
        ArgumentError::NoNormalizationDirectory.message(),
        "determine current directory for path normalization"
    );
    assert!(matches!(
        host_path_from_arg("./y", &nowhere),
        Err(ArgumentError::NoCurrentDirectory)
    ));
    assert_eq!(
        normalize_absolute_path(&FsPath::new("/a/./b/../c"), &nowhere)
            .unwrap()
            .as_str(),
        "/a/c"
    );
}

#[test]
fn normalizing_a_path_again_changes_nothing() {
    let here = around();
    for text in ["/a/./b/../c", "//a//b/", "/..", "/", "x/../y", "."] {
        let once = normalize_absolute_path(&FsPath::new(text), &here).unwrap();
        let twice = normalize_absolute_path(&once, &here).unwrap();
        assert_eq!(twice.as_str(), once.as_str());
    }
}

#[test]
fn only_whole_field_codes_and_path_like_arguments_are_recognised() {
    assert!(is_standalone_desktop_field_code("%U"));
    assert!(!is_standalone_desktop_field_code("x%U"));
    assert!(looks_like_path_arg("../a"));
    assert!(!looks_like_path_arg("a/b"));
}
