//! Tests of pane state: commands, sorting, selections, reconciliation and the
//! background refresh protocol with its cancellation.

use neko_filer::file_list::{get_file_list_ex, FileBaseInfo, FileListFullInfo};
use neko_filer::filter_info::{FilterInfo, FilterType};
use neko_filer::pane_info::{
    set_dirctry_path, set_filter, set_focus_idx, set_viewing_idx_range, Color, FilerData,
    PaneHandler, PaneInfo,
};
use neko_filer::reconcile::update_file_name_list;
use neko_filer::refresh::RefreshStep;
use neko_filer::selections::{add_selecting_idx, set_selecting_idx, toggle_selection};
use neko_filer::sort::{sort_file_list, SortKey};

fn base(name: &str, size: u64) -> FileBaseInfo {
    FileBaseInfo {
        file_name: name.to_string(),
        metadata_size: Some(size),
        is_directory: false,
        date: None,
        is_system_file: false,
    }
}

fn listing(names: &[&str]) -> Vec<FileBaseInfo> {
    names.iter().map(|n| base(n, 1)).collect()
}

fn pane_with(names: &[&str]) -> PaneInfo {
    PaneInfo {
        dirctry_path: "d".to_string(),
        filter: FilterInfo::new(),
        viewing_idx_start: 0,
        viewing_idx_end: 0,
        file_list_info: Some(FileListFullInfo::new(listing(names), None)),
    }
}

fn full_names(pane: &PaneInfo) -> Vec<String> {
    pane.file_list_info
        .as_ref()
        .unwrap()
        .full_item_list
        .iter()
        .map(|it| it.file_name.clone())
        .collect()
}

fn selected_names(pane: &PaneInfo) -> Vec<String> {
    pane.file_list_info
        .as_ref()
        .unwrap()
        .full_item_list
        .iter()
        .filter(|it| it.is_selected)
        .map(|it| it.file_name.clone())
        .collect()
}

fn focus_name(pane: &PaneInfo) -> Option<String> {
    pane.file_list_info.as_ref().unwrap().focus_file_name()
}

#[test]
fn sort_by_size_is_stable() {
    let mut pane = PaneInfo {
        dirctry_path: "d".to_string(),
        filter: FilterInfo::new(),
        viewing_idx_start: 0,
        viewing_idx_end: 0,
        file_list_info: Some(FileListFullInfo::new(
            vec![base("b.txt", 10), base("a.txt", 5), base("c.txt", 5)],
            None,
        )),
    };
    let snapshot = sort_file_list(&mut pane, SortKey::Size);
    assert!(snapshot.is_some());
    // Ascending by size; "a.txt" and "c.txt" share a size and keep their
    // original relative order.
    assert_eq!(full_names(&pane), vec!["a.txt", "c.txt", "b.txt"]);
}

#[test]
fn sort_by_name_orders_lexicographically() {
    let mut pane = pane_with(&["pear", "apple", "melon"]);
    sort_file_list(&mut pane, SortKey::Name);
    assert_eq!(full_names(&pane), vec!["apple", "melon", "pear"]);
}

#[test]
fn sort_restores_focus_by_name() {
    let mut pane = pane_with(&["pear", "apple", "melon"]);
    set_focus_idx(&mut pane, 0);
    assert_eq!(focus_name(&pane), Some("pear".to_string()));
    sort_file_list(&mut pane, SortKey::Name);
    assert_eq!(focus_name(&pane), Some("pear".to_string()));
}

#[test]
fn new_entries_draw_selection_and_focus() {
    // Directory holds apple and banana, focus on apple, nothing selected.
    // An external process adds grape; the next reconcile tick appends it,
    // selects only it, and moves the focus to its row.
    let mut pane = pane_with(&["apple.txt", "banana.txt"]);
    set_focus_idx(&mut pane, 0);
    assert_eq!(focus_name(&pane), Some("apple.txt".to_string()));

    update_file_name_list(&mut pane, Some(listing(&["apple.txt", "banana.txt", "grape.txt"])));

    assert_eq!(full_names(&pane), vec!["apple.txt", "banana.txt", "grape.txt"]);
    assert_eq!(selected_names(&pane), vec!["grape.txt"]);
    assert_eq!(focus_name(&pane), Some("grape.txt".to_string()));
    assert_eq!(pane.file_list_info.as_ref().unwrap().focus_idx, 2);
}

#[test]
fn reconcile_twice_changes_nothing_more() {
    let mut pane = pane_with(&["a", "b", "c"]);
    set_focus_idx(&mut pane, 1);
    let fresh = &["a", "c", "d"];
    update_file_name_list(&mut pane, Some(listing(fresh)));
    let names_once = full_names(&pane);
    let selected_once = selected_names(&pane);
    let focus_once = pane.file_list_info.as_ref().unwrap().focus_idx;

    update_file_name_list(&mut pane, Some(listing(fresh)));
    assert_eq!(full_names(&pane), names_once);
    assert_eq!(selected_names(&pane), selected_once);
    assert_eq!(pane.file_list_info.as_ref().unwrap().focus_idx, focus_once);
}

#[test]
fn superset_listing_moves_selection_to_new_entries() {
    let mut pane = pane_with(&["a", "b"]);
    add_selecting_idx(&mut pane, vec![0, 1]);
    assert_eq!(selected_names(&pane), vec!["a", "b"]);

    update_file_name_list(&mut pane, Some(listing(&["a", "b", "c", "d"])));
    assert_eq!(selected_names(&pane), vec!["c", "d"]);
    assert_eq!(full_names(&pane), vec!["a", "b", "c", "d"]);
}

#[test]
fn focus_follows_the_surviving_entry() {
    let mut pane = pane_with(&["a", "b", "c"]);
    set_focus_idx(&mut pane, 2);
    assert_eq!(focus_name(&pane), Some("c".to_string()));

    // "a" vanishes; nothing is added; the focused entry survives.
    update_file_name_list(&mut pane, Some(listing(&["b", "c"])));
    assert_eq!(focus_name(&pane), Some("c".to_string()));
}

#[test]
fn vanished_focus_rolls_up_by_missing_rows() {
    let mut pane = pane_with(&["a", "b", "c", "d"]);
    set_focus_idx(&mut pane, 2);
    assert_eq!(focus_name(&pane), Some("c".to_string()));

    // The focused "c" vanishes together with "a": of the two entries before
    // "c", only "b" survives, so the focus lands at row 1.
    update_file_name_list(&mut pane, Some(listing(&["b", "d"])));
    assert_eq!(pane.file_list_info.as_ref().unwrap().focus_idx, 1);
}

#[test]
fn failed_listing_clears_the_state() {
    let mut pane = pane_with(&["a", "b"]);
    update_file_name_list(&mut pane, None);
    assert!(pane.file_list_info.is_none());
}

#[test]
fn set_filter_ranks_and_filters() {
    let mut pane = pane_with(&["banana", "grape", "apple"]);
    let snapshot = set_filter(
        &mut pane,
        FilterInfo { filter_type: FilterType::StrMatch, matcher_str: "ap".to_string() },
    );
    // "apple" (run at 0) outranks "grape" (run at 2); "banana" matches not at
    // all and sinks to the bottom of the full list, excluded from the view.
    assert_eq!(full_names(&pane), vec!["apple", "grape", "banana"]);
    let ui = snapshot.unwrap();
    assert_eq!(ui.full_item_num, 3);
    assert_eq!(ui.filtered_item_list.len(), 2);
    assert_eq!(ui.filtered_item_list[0].file_list_item.file_name, "apple");
    assert_eq!(ui.filtered_item_list[0].matched_idx_list, vec![0, 1]);
    assert_eq!(ui.filtered_item_list[1].file_list_item.file_name, "grape");
    assert_eq!(ui.filtered_item_list[1].matched_idx_list, vec![2, 3]);
    assert_eq!(ui.focus_idx, 0);
}

#[test]
fn set_filter_without_listing_only_stores_the_filter() {
    let mut pane = PaneInfo::new();
    let snapshot = set_filter(
        &mut pane,
        FilterInfo { filter_type: FilterType::RegExpr, matcher_str: "a+".to_string() },
    );
    assert!(snapshot.is_none());
    assert_eq!(pane.filter.matcher_str, "a+");
}

#[test]
fn focus_is_clamped_into_the_filtered_view() {
    let mut pane = pane_with(&["a", "b", "c"]);
    set_focus_idx(&mut pane, 99);
    assert_eq!(pane.file_list_info.as_ref().unwrap().focus_idx, 2);
    set_focus_idx(&mut pane, 1);
    assert_eq!(pane.file_list_info.as_ref().unwrap().focus_idx, 1);
}

#[test]
fn selection_commands_flip_the_named_rows() {
    let mut pane = pane_with(&["a", "b", "c"]);
    add_selecting_idx(&mut pane, vec![0, 2, 99]);
    assert_eq!(selected_names(&pane), vec!["a", "c"]);
    set_selecting_idx(&mut pane, vec![1]);
    assert_eq!(selected_names(&pane), vec!["b"]);
    toggle_selection(&mut pane, 1);
    assert!(selected_names(&pane).is_empty());
    toggle_selection(&mut pane, 0);
    assert_eq!(selected_names(&pane), vec!["a"]);
    // An out-of-range index is silently ignored.
    toggle_selection(&mut pane, 42);
    assert_eq!(selected_names(&pane), vec!["a"]);
}

#[test]
fn selection_commands_without_listing_answer_nothing() {
    let mut pane = PaneInfo::new();
    assert!(add_selecting_idx(&mut pane, vec![0]).is_none());
    assert!(set_selecting_idx(&mut pane, vec![0]).is_none());
    assert!(toggle_selection(&mut pane, 0).is_none());
}

#[test]
fn same_directory_only_moves_the_focus() {
    let mut pane = pane_with(&["a", "b", "c"]);
    let path = "d".to_string();
    let snapshot = set_dirctry_path(&mut pane, &path, Some("b".to_string()), None);
    assert!(snapshot.is_some());
    assert_eq!(focus_name(&pane), Some("b".to_string()));
    assert_eq!(full_names(&pane), vec!["a", "b", "c"]);
}

#[test]
fn new_directory_rebuilds_the_pane() {
    let mut pane = pane_with(&["a", "b"]);
    add_selecting_idx(&mut pane, vec![0]);
    let path = "elsewhere".to_string();
    let snapshot = set_dirctry_path(
        &mut pane,
        &path,
        Some("y".to_string()),
        Some(listing(&["x", "y"])),
    );
    assert!(snapshot.is_some());
    assert_eq!(pane.dirctry_path, "elsewhere");
    assert_eq!(full_names(&pane), vec!["x", "y"]);
    assert!(selected_names(&pane).is_empty());
    assert_eq!(focus_name(&pane), Some("y".to_string()));
}

#[test]
fn new_directory_keeps_the_active_filter() {
    let mut pane = pane_with(&["apple", "pear"]);
    set_filter(
        &mut pane,
        FilterInfo { filter_type: FilterType::StrMatch, matcher_str: "a".to_string() },
    );
    let path = "elsewhere".to_string();
    let snapshot = set_dirctry_path(
        &mut pane,
        &path,
        Some("ac".to_string()),
        Some(listing(&["ab", "xy", "ac"])),
    );
    // The filter survives the directory change and shapes the initial view:
    // only "ab" and "ac" show, and the focus lands on the requested entry.
    assert_eq!(pane.filter.matcher_str, "a");
    assert_eq!(full_names(&pane), vec!["ab", "xy", "ac"]);
    let ui = snapshot.unwrap();
    assert_eq!(ui.filtered_item_list.len(), 2);
    assert_eq!(ui.filtered_item_list[0].file_list_item.file_name, "ab");
    assert_eq!(ui.filtered_item_list[1].file_list_item.file_name, "ac");
    assert_eq!(ui.focus_idx, 1);
    assert_eq!(focus_name(&pane), Some("ac".to_string()));
}

#[test]
fn unreadable_new_directory_leaves_no_listing() {
    let mut pane = pane_with(&["a"]);
    let path = "gone".to_string();
    let snapshot = set_dirctry_path(&mut pane, &path, None, None);
    assert!(snapshot.is_none());
    assert!(pane.file_list_info.is_none());
    assert_eq!(pane.dirctry_path, "gone");
}

#[test]
fn system_files_are_dropped_when_ignored() {
    let mut l = listing(&["a", "b"]);
    l[1].is_system_file = true;
    let kept = get_file_list_ex(Some(l), true).unwrap();
    assert_eq!(kept.len(), 1);
    assert_eq!(kept[0].file_name, "a");

    let mut l = listing(&["a", "b"]);
    l[1].is_system_file = true;
    let kept = get_file_list_ex(Some(l), false).unwrap();
    assert_eq!(kept.len(), 2);
    assert!(get_file_list_ex(None, true).is_none());
}

#[test]
fn extension_column_names_folders_and_plain_names() {
    let folder = FileBaseInfo {
        file_name: "src".to_string(),
        metadata_size: None,
        is_directory: true,
        date: None,
        is_system_file: false,
    };
    assert_eq!(folder.file_extension(), "folder");
    assert_eq!(base("a.txt", 0).file_extension(), "txt");
    assert_eq!(base("archive.tar.gz", 0).file_extension(), "gz");
    assert_eq!(base("noext", 0).file_extension(), "-");
    assert_eq!(base(".bashrc", 0).file_extension(), "-");
    assert_eq!(base("trailing.", 0).file_extension(), "-");
}

#[test]
fn directory_size_is_hidden() {
    let folder = FileBaseInfo {
        file_name: "src".to_string(),
        metadata_size: Some(4096),
        is_directory: true,
        date: None,
        is_system_file: false,
    };
    assert_eq!(folder.file_size(), None);
    assert_eq!(base("a", 7).file_size(), Some(7));
}

#[test]
fn filer_data_starts_with_two_empty_panes() {
    let data = FilerData::new();
    assert!(data.ignore_system_file);
    assert_eq!(data.get_background(), Color { r: 0, g: 0, b: 0 });
    assert_eq!(data.pane_info_list[0].pane_idx, 0);
    assert_eq!(data.pane_info_list[1].pane_idx, 1);
    assert!(data.pane_info_list[0].data.file_list_info.is_none());
}

#[test]
fn cancellation_stops_the_icon_walk_before_the_next_entry() {
    // An icon walk over ten entries is pre-empted after five: the walk must
    // stop before serving the sixth entry, and the icon-complete snapshot of
    // the aborted pass is never produced.
    let names: Vec<String> = (0..10).map(|i| format!("f{}", i)).collect();
    let name_refs: Vec<&str> = names.iter().map(|s| s.as_str()).collect();
    let mut handler = PaneHandler::new(0);
    handler.data = pane_with(&name_refs);
    set_viewing_idx_range(&mut handler.data, 0, 10);

    let (first_snapshot, mut walk) = handler.refresh_begin(Some(listing(&name_refs)));
    assert_eq!(first_snapshot.pane_idx, 0);
    assert!(first_snapshot.data.is_some());

    let mut served = 0;
    while served < 5 {
        match handler.refresh_walk_decision(&walk) {
            RefreshStep::Fetch { filtered_idx, file_name } => {
                assert_eq!(filtered_idx, served);
                assert_eq!(file_name, format!("f{}", served));
                handler.refresh_store_icon(&mut walk, Some("icon-bytes".to_string()));
                served += 1;
            },
            _ => panic!("the walk should still be serving entries"),
        }
    }

    // A UI command arrives for this pane and raises the pre-emption signal.
    handler.get_info_for_ui_operation();
    let _ = set_filter(
        &mut handler.data,
        FilterInfo { filter_type: FilterType::StrMatch, matcher_str: "f".to_string() },
    );

    // The walk checks between entries and stops at once: entry five was the
    // last one served, the sixth is never asked for, and no icon-complete
    // snapshot exists for this pass.
    assert!(matches!(handler.refresh_walk_decision(&walk), RefreshStep::Cancelled));
    assert_eq!(served, 5);
}

#[test]
fn uncancelled_walk_completes_and_reports_icons() {
    let mut handler = PaneHandler::new(1);
    handler.data = pane_with(&["a", "b"]);
    set_viewing_idx_range(&mut handler.data, 0, 2);
    let (_, mut walk) = handler.refresh_begin(Some(listing(&["a", "b"])));
    loop {
        match handler.refresh_walk_decision(&walk) {
            RefreshStep::Fetch { file_name, .. } => {
                let icon = format!("icon-of-{}", file_name);
                handler.refresh_store_icon(&mut walk, Some(icon));
            },
            RefreshStep::Complete => break,
            RefreshStep::Cancelled => panic!("nothing cancelled this walk"),
        }
    }
    let done = handler.refresh_complete();
    assert_eq!(done.pane_idx, 1);
    let ui = done.data.unwrap();
    assert_eq!(
        ui.filtered_item_list[0].file_list_item.file_icon,
        Some("icon-of-a".to_string())
    );
    assert_eq!(
        ui.filtered_item_list[1].file_list_item.file_icon,
        Some("icon-of-b".to_string())
    );
}

#[test]
fn reconcile_keeps_existing_icons() {
    let mut handler = PaneHandler::new(0);
    handler.data = pane_with(&["a", "b"]);
    set_viewing_idx_range(&mut handler.data, 0, 2);
    let (_, mut walk) = handler.refresh_begin(Some(listing(&["a", "b"])));
    while let RefreshStep::Fetch { .. } = handler.refresh_walk_decision(&walk) {
        handler.refresh_store_icon(&mut walk, Some("icon".to_string()));
    }
    // The next tick re-reads the same directory: the icons carry over.
    let (snapshot, _) = handler.refresh_begin(Some(listing(&["a", "b"])));
    let ui = snapshot.data.unwrap();
    assert_eq!(ui.filtered_item_list[0].file_list_item.file_icon, Some("icon".to_string()));
}
