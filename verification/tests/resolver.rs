use phillos_core::paths::{config_dir, file_name, normalize_path, parse_path, path_to_bytes,
    push_seg, resolve, SandboxError};

#[test]
fn null_byte_is_invalid() {
    assert!(matches!(
        resolve(b"a\0b", b"/storage", b"/"),
        Err(SandboxError::InvalidPath)
    ));
}

#[test]
fn relative_path_stays_under_root() {
    let p = resolve(b"docs/notes.txt", b"/storage", b"/home").unwrap();
    assert_eq!(path_to_bytes(&p), b"/storage/docs/notes.txt".to_vec());
}

#[test]
fn resolve_dot_yields_root() {
    let p = resolve(b".", b"/srv/files", b"/").unwrap();
    assert_eq!(path_to_bytes(&p), b"/srv/files".to_vec());
}

#[test]
fn empty_input_yields_root() {
    let p = resolve(b"", b"/srv/files", b"/").unwrap();
    assert_eq!(path_to_bytes(&p), b"/srv/files".to_vec());
}

#[test]
fn root_sibling_is_outside() {
    assert!(matches!(
        resolve(b"/storage/../sibling", b"/storage", b"/"),
        Err(SandboxError::OutsideSandbox)
    ));
}

#[test]
fn dotdot_escape_is_outside() {
    assert!(matches!(
        resolve(b"../a", b"/storage", b"/"),
        Err(SandboxError::OutsideSandbox)
    ));
}

#[test]
fn inner_dotdot_that_returns_is_accepted() {
    let p = resolve(b"sub/../other.txt", b"/storage", b"/").unwrap();
    assert_eq!(path_to_bytes(&p), b"/storage/other.txt".to_vec());
}

#[test]
fn absolute_outside_is_rejected() {
    assert!(matches!(
        resolve(b"/outside/a.txt", b"/base/storage", b"/"),
        Err(SandboxError::OutsideSandbox)
    ));
}

#[test]
fn absolute_inside_is_accepted() {
    let p = resolve(b"/base/storage/a.txt", b"/base/storage", b"/").unwrap();
    assert_eq!(path_to_bytes(&p), b"/base/storage/a.txt".to_vec());
}

#[test]
fn string_prefix_does_not_confine() {
    assert!(matches!(
        resolve(b"/storage2/file", b"/storage", b"/"),
        Err(SandboxError::OutsideSandbox)
    ));
}

#[test]
fn relative_root_config_uses_cwd() {
    let p = resolve(b"file", b"storage", b"/work").unwrap();
    assert_eq!(path_to_bytes(&p), b"/work/storage/file".to_vec());
}

#[test]
fn normalize_is_idempotent() {
    let parsed = parse_path(b"a/./b/../c//d");
    let once = normalize_path(&parsed);
    let twice = normalize_path(&once);
    assert_eq!(path_to_bytes(&once), b"a/c/d".to_vec());
    assert_eq!(path_to_bytes(&twice), path_to_bytes(&once));
}

#[test]
fn normalize_collapses_dots_and_doubled_separators() {
    let parsed = parse_path(b"/usr//lib/./self/../x");
    let norm = normalize_path(&parsed);
    assert_eq!(path_to_bytes(&norm), b"/usr/lib/x".to_vec());
}

#[test]
fn normalize_keeps_absolute_root_under_excess_dotdot() {
    let parsed = parse_path(b"/a/../../b");
    let norm = normalize_path(&parsed);
    assert_eq!(path_to_bytes(&norm), b"/b".to_vec());
}

#[test]
fn trailing_separator_is_dropped() {
    let p = resolve(b"sub/", b"/s", b"/").unwrap();
    assert_eq!(path_to_bytes(&p), b"/s/sub".to_vec());
}

#[test]
fn archive_destination_from_parts() {
    let src = resolve(b"a.txt", b"/work/base", b"/work").unwrap();
    let name = file_name(&src).unwrap();
    assert_eq!(name, b"a.txt".to_vec());
    let dest_dir = config_dir(b"archive", b"/work");
    let dest = push_seg(&dest_dir, &name);
    assert_eq!(path_to_bytes(&dest), b"/work/archive/a.txt".to_vec());
}

#[test]
fn config_dir_normalizes_relative_override() {
    let d = config_dir(b"cache/../store", b"/srv");
    assert_eq!(path_to_bytes(&d), b"/srv/store".to_vec());
}
