use docker_source_checksum::entry::{
    is_ignored, keeps_entry, metadata_to_u16, permission_bytes, relative_path,
    surrogate_metadata_to_u16,
};

fn path(components: &[&str]) -> Vec<Vec<u8>> {
    components.iter().map(|component| component.as_bytes().to_vec()).collect()
}

#[test]
fn permission_state_is_the_low_nine_bits() {
    assert_eq!(metadata_to_u16(0o100644), 0o644);
    assert_eq!(metadata_to_u16(0o040755), 0o755);
    assert_eq!(metadata_to_u16(0o104777), 0o777);
    assert_eq!(metadata_to_u16(0), 0);
    assert_eq!(metadata_to_u16(u32::MAX), 0o777);
    assert_eq!(metadata_to_u16(0o1000), 0);
}

#[test]
fn surrogate_states() {
    assert_eq!(surrogate_metadata_to_u16(false, false), 0o444);
    assert_eq!(surrogate_metadata_to_u16(false, true), 0o555);
    assert_eq!(surrogate_metadata_to_u16(true, false), 0o666);
    assert_eq!(surrogate_metadata_to_u16(true, true), 0o777);
}

#[test]
fn permission_bytes_are_big_endian() {
    assert_eq!(permission_bytes(0o644), [0x01, 0xa4]);
    assert_eq!(permission_bytes(0o644), 0o644u16.to_be_bytes());
    assert_eq!(permission_bytes(0), [0, 0]);
    assert_eq!(permission_bytes(0x1ff), [0x01, 0xff]);
    assert_eq!(permission_bytes(0xabcd), [0xab, 0xcd]);
}

#[test]
fn changed_permission_bits_change_the_bytes() {
    let before = permission_bytes(metadata_to_u16(0o100644));
    let after = permission_bytes(metadata_to_u16(0o100755));
    assert_ne!(before, after);
    let same = permission_bytes(metadata_to_u16(0o040644));
    assert_eq!(before, same);
}

#[test]
fn relative_path_strips_the_root() {
    assert_eq!(
        relative_path(&path(&["src", "a", "b.rs"]), &path(&["src"])),
        Some(path(&["a", "b.rs"]))
    );
    assert_eq!(relative_path(&path(&["src"]), &path(&["src"])), Some(path(&[])));
    assert_eq!(relative_path(&path(&["a", "b"]), &path(&[])), Some(path(&["a", "b"])));
}

#[test]
fn relative_path_needs_a_prefix() {
    assert_eq!(relative_path(&path(&["src", "a"]), &path(&["lib"])), None);
    assert_eq!(relative_path(&path(&["src"]), &path(&["src", "a"])), None);
    assert_eq!(relative_path(&path(&["srcs", "a"]), &path(&["src"])), None);
    assert_eq!(relative_path(&path(&["a", "src"]), &path(&["src"])), None);
}

#[test]
fn listed_paths_are_ignored() {
    let ignore = vec![path(&["target"]), path(&["docs", "draft.md"])];
    assert!(is_ignored(&ignore, &path(&["target"])));
    assert!(is_ignored(&ignore, &path(&["docs", "draft.md"])));
    assert!(!is_ignored(&ignore, &path(&["docs"])));
    assert!(!is_ignored(&ignore, &path(&["docs", "draft.md", "x"])));
    assert!(!is_ignored(&ignore, &path(&["draft.md"])));
    assert!(!is_ignored(&ignore, &path(&[])));
    assert!(!is_ignored(&Vec::new(), &path(&["target"])));
}

#[test]
fn ignoring_goes_by_the_path_below_the_dependency() {
    let ignore = vec![path(&["node_modules"])];
    let root = path(&["ctx", "app"]);
    let entry = path(&["ctx", "app", "node_modules"]);
    let relative = relative_path(&entry, &root).expect("the entry lies below the root");
    assert!(is_ignored(&ignore, &relative));
    let other = relative_path(&path(&["ctx", "app", "src"]), &root).expect("below the root");
    assert!(!is_ignored(&ignore, &other));
}

#[test]
fn entries_are_kept_unless_ignored() {
    let ignore = vec![path(&["node_modules"]), path(&["a", "b"])];
    let root = path(&["ctx", "app"]);
    assert_eq!(keeps_entry(&ignore, &root, &path(&["ctx", "app"])), Some(true));
    assert_eq!(keeps_entry(&ignore, &root, &path(&["ctx", "app", "src"])), Some(true));
    assert_eq!(keeps_entry(&ignore, &root, &path(&["ctx", "app", "node_modules"])), Some(false));
    assert_eq!(keeps_entry(&ignore, &root, &path(&["ctx", "app", "a", "b"])), Some(false));
    assert_eq!(keeps_entry(&ignore, &root, &path(&["ctx", "app", "a"])), Some(true));
    assert_eq!(keeps_entry(&ignore, &root, &path(&["ctx", "app", "x", "a", "b"])), Some(true));
    assert_eq!(keeps_entry(&ignore, &root, &path(&["ctx", "other"])), None);
    assert_eq!(keeps_entry(&ignore, &root, &path(&["ctx"])), None);
    assert_eq!(keeps_entry(&vec![path(&[])], &root, &path(&["ctx", "app"])), Some(false));
}
