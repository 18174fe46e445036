//! Tests of the drive-strings parser and the release-tag extraction.

use neko_filer::drives::drive_list;
use neko_filer::latest_version::get_latest_version;

#[test]
fn drive_buffer_splits_and_shortens() {
    let raw = b"C:\\\0D:\\\0".to_vec();
    assert_eq!(drive_list(raw), vec!["C:".to_string(), "D:".to_string()]);
}

#[test]
fn empty_groups_are_dropped() {
    let raw = b"C:\\\0\0\0D:\\\0\0".to_vec();
    assert_eq!(drive_list(raw), vec!["C:".to_string(), "D:".to_string()]);
}

#[test]
fn empty_buffer_lists_no_drive() {
    assert_eq!(drive_list(Vec::new()), Vec::<String>::new());
    assert_eq!(drive_list(vec![0, 0, 0]), Vec::<String>::new());
}

#[test]
fn group_without_separator_still_counts() {
    let raw = b"E:\\".to_vec();
    assert_eq!(drive_list(raw), vec!["E:".to_string()]);
}

#[test]
fn invalid_bytes_drop_only_their_group() {
    let raw = vec![0xff, 0xfe, 0, b'F', b':', b'\\', 0];
    assert_eq!(drive_list(raw), vec!["F:".to_string()]);
}

#[test]
fn release_tag_is_read_between_prefix_and_quote() {
    let html = "...href=\"/kuone314/NekoFiler/releases/tag/v1.2.3\">...".to_string();
    assert_eq!(get_latest_version(&html), Some("v1.2.3".to_string()));
}

#[test]
fn first_release_tag_wins() {
    let html = "kuone314/NekoFiler/releases/tag/v2.0\" and later kuone314/NekoFiler/releases/tag/v1.0\"".to_string();
    assert_eq!(get_latest_version(&html), Some("v2.0".to_string()));
}

#[test]
fn page_without_tag_names_no_version() {
    assert_eq!(get_latest_version(&"nothing here".to_string()), None);
    // A prefix with no closing quote after it names no version either.
    assert_eq!(
        get_latest_version(&"kuone314/NekoFiler/releases/tag/v1".to_string()),
        None
    );
}
