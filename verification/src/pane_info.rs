//! Per-pane state and the commands the UI drives it with: directory changes,
//! focus moves, filter changes, and the two-pane container with its shared
//! settings and the per-pane "a UI operation intervened" signal.

use vstd::prelude::*;

use crate::file_list::{
    list_wf, opt_str_view, rows_view, spec_create, spec_rows, spec_to_ui, bases_view,
    first_name_pos, first_row_pos, items_view, FileBaseInfo, FileListFullInfo, FileListItem,
    FileListUiInfo, FilterdFileInfo, FullV, UiV,
};
use crate::filter_info::{spec_is_match, FilterInfo, FilterType, FilterV};
use crate::sort::{
    items_of_pairs, pairs_view, spec_ranked_of, spec_sort_pairs, PairV, RankedItem, SortOrder,
};

verus! {

/// A background colour of the UI.
#[derive(Debug, PartialEq, Eq, Structural, Clone, Copy)]
pub struct Color {
    pub r: u8,
    pub g: u8,
    pub b: u8,
}

/// Mathematical image of an optional UI snapshot.
pub open spec fn opt_ui_view(r: Option<FileListUiInfo>) -> Option<UiV> {
    match r {
        None => None,
        Some(u) => Some(u@),
    }
}

// ---------------------------------------------------------------------------
// One pane.
// ---------------------------------------------------------------------------

/// The state of one pane: its directory, the active filter, the viewing
/// window the icon walk covers, and the entry list once a listing succeeded.
#[derive(Debug)]
pub struct PaneInfo {
    pub dirctry_path: String,
    pub filter: FilterInfo,
    pub viewing_idx_start: usize,
    pub viewing_idx_end: usize,
    pub file_list_info: Option<FileListFullInfo>,
}

/// Mathematical image of a [`PaneInfo`].
#[verifier::ext_equal]
pub struct PaneV {
    pub dirctry_path: Seq<char>,
    pub filter: FilterV,
    pub viewing_start: int,
    pub viewing_end: int,
    pub file_list_info: Option<FullV>,
}

impl View for PaneInfo {
    type V = PaneV;

    open spec fn view(&self) -> PaneV {
        PaneV {
            dirctry_path: self.dirctry_path@,
            filter: self.filter@,
            viewing_start: self.viewing_idx_start as int,
            viewing_end: self.viewing_idx_end as int,
            file_list_info: match self.file_list_info {
                None => None,
                Some(l) => Some(l@),
            },
        }
    }
}

/// Structural soundness of a pane: its list state, when there is one, is
/// sound.
pub open spec fn pane_wf(p: PaneV) -> bool {
    match p.file_list_info {
        None => true,
        Some(v) => list_wf(v),
    }
}

impl PaneInfo {
    /// An empty pane: no directory, the default filter, no listing yet.
    pub fn new() -> (r: Self)
        ensures
            r@.dirctry_path.len() == 0,
            r@.filter.filter_type == FilterType::StrMatch,
            r@.filter.pattern.len() == 0,
            r@.viewing_start == 0,
            r@.viewing_end == 0,
            r@.file_list_info is None,
            pane_wf(r@),
    {
        PaneInfo {
            dirctry_path: String::new(),
            filter: FilterInfo::new(),
            viewing_idx_start: 0,
            viewing_idx_end: 0,
            file_list_info: None,
        }
    }

    /// The snapshot of this pane, when it holds a listing.
    pub fn to_ui_info(&self) -> (r: Option<FileListUiInfo>)
        requires
            pane_wf(self@),
        ensures
            opt_ui_view(r) == match self@.file_list_info {
                None => None::<UiV>,
                Some(v) => Some(spec_to_ui(v)),
            },
    {
        match &self.file_list_info {
            None => None,
            Some(l) => Some(l.to_ui_info()),
        }
    }
}

// ---------------------------------------------------------------------------
// Commands on one pane.
// ---------------------------------------------------------------------------

/// Remember which rows the UI shows, so the icon walk covers them.
pub fn set_viewing_idx_range(pane_info: &mut PaneInfo, range_stt: usize, range_end: usize)
    ensures
        final(pane_info)@ == (PaneV {
            viewing_start: range_stt as int,
            viewing_end: range_end as int,
            ..old(pane_info)@
        }),
{
    pane_info.viewing_idx_start = range_stt;
    pane_info.viewing_idx_end = range_end;
}

/// Move the focus to the given filtered row. An index beyond the filtered
/// view is clamped to its last row (or to 0 when the view is empty), so the
/// focus stays sound.
pub fn set_focus_idx(pane_info: &mut PaneInfo, new_focus_idx: usize) -> (r: Option<
    FileListUiInfo,
>)
    requires
        pane_wf(old(pane_info)@),
    ensures
        pane_wf(final(pane_info)@),
        final(pane_info)@.dirctry_path == old(pane_info)@.dirctry_path,
        final(pane_info)@.filter == old(pane_info)@.filter,
        final(pane_info)@.viewing_start == old(pane_info)@.viewing_start,
        final(pane_info)@.viewing_end == old(pane_info)@.viewing_end,
        match (old(pane_info)@.file_list_info, final(pane_info)@.file_list_info) {
            (None, None) => r is None && final(pane_info)@ == old(pane_info)@,
            (Some(oldv), Some(newv)) => {
                &&& newv.full == oldv.full
                &&& newv.filtered == oldv.filtered
                &&& newv.focus == spec_clamped_focus(new_focus_idx as int, oldv.filtered.len() as int)
                &&& opt_ui_view(r) == Some(spec_to_ui(newv))
            },
            _ => false,
        },
{
    let mut list = match pane_info.file_list_info.take() {
        None => {
            return None;
        },
        Some(l) => l,
    };
    proof {
        assert(list_wf(list@));
    }
    let rows = list.filtered_item_info.len();
    list.focus_idx = if rows == 0 {
        0
    } else if new_focus_idx >= rows {
        rows - 1
    } else {
        new_focus_idx
    };
    proof {
        assert(list_wf(list@));
    }
    pane_info.file_list_info = Some(list);
    proof {
        assert(pane_wf(pane_info@));
    }
    pane_info.to_ui_info()
}

/// Where a requested focus lands: clamped into the filtered view.
pub open spec fn spec_clamped_focus(requested: int, rows: int) -> int {
    if rows == 0 {
        0
    } else if requested >= rows {
        rows - 1
    } else {
        requested
    }
}

/// Change the pane's directory. When `path` is the pane's current directory
/// the listing is kept and only the focus may move, to the row named by
/// `initial_focus`. Otherwise the pane state is rebuilt from `fresh_list`
/// (the listing of `path`, `None` when it could not be read): selection is
/// cleared, the active filter is kept and applied to build the initial
/// filtered view, and the focus lands at the `initial_focus` entry when it is
/// present, else at the top.
#[verifier::rlimit(50)]
pub fn set_dirctry_path(
    pane_info: &mut PaneInfo,
    path: &String,
    initial_focus: Option<String>,
    fresh_list: Option<Vec<FileBaseInfo>>,
) -> (r: Option<FileListUiInfo>)
    requires
        pane_wf(old(pane_info)@),
    ensures
        pane_wf(final(pane_info)@),
        old(pane_info)@.dirctry_path == path@ ==> spec_same_path_change(
            old(pane_info)@,
            final(pane_info)@,
            opt_str_view(initial_focus),
            opt_ui_view(r),
        ),
        old(pane_info)@.dirctry_path != path@ ==> spec_new_path_change(
            old(pane_info)@,
            final(pane_info)@,
            path@,
            opt_str_view(initial_focus),
            match fresh_list {
                None => None,
                Some(l) => Some(bases_view(l@)),
            },
            opt_ui_view(r),
        ),
{
    if pane_info.dirctry_path == *path {
        let mut list = match pane_info.file_list_info.take() {
            None => {
                return None;
            },
            Some(l) => l,
        };
        proof {
            assert(list_wf(list@));
        }
        match &initial_focus {
            None => {},
            Some(focus) => {
                let new_idx = crate::file_list::row_position_of_name(
                    &list.full_item_list,
                    &list.filtered_item_info,
                    focus,
                );
                match new_idx {
                    Some(i) => {
                        list.focus_idx = i;
                    },
                    None => {},
                }
            },
        }
        let snapshot = list.to_ui_info();
        pane_info.file_list_info = Some(list);
        return Some(snapshot);
    }
    let file_list_info = match fresh_list {
        None => None,
        Some(l) => {
            let items = crate::file_list::items_of_listing(l);
            let full_focus: usize = match &initial_focus {
                None => 0,
                Some(f) => {
                    match crate::file_list::position_of_name(&items, f) {
                        Some(p) => {
                            proof {
                                crate::file_list::lemma_first_name_pos(items_view(items@), f@);
                            }
                            p
                        },
                        None => 0,
                    }
                },
            };
            Some(FileListFullInfo::create(items, full_focus, &pane_info.filter))
        },
    };
    pane_info.dirctry_path = path.clone();
    pane_info.viewing_idx_start = 0;
    pane_info.viewing_idx_end = 0;
    pane_info.file_list_info = file_list_info;
    pane_info.to_ui_info()
}

/// What a same-directory `set_dirctry_path` does: nothing but possibly the
/// focus, which moves to the first filtered row bearing the requested name.
pub open spec fn spec_same_path_change(
    old_p: PaneV,
    new_p: PaneV,
    initial_focus: Option<Seq<char>>,
    r: Option<UiV>,
) -> bool {
    &&& new_p.dirctry_path == old_p.dirctry_path
    &&& new_p.filter == old_p.filter
    &&& new_p.viewing_start == old_p.viewing_start
    &&& new_p.viewing_end == old_p.viewing_end
    &&& match (old_p.file_list_info, new_p.file_list_info) {
        (None, None) => r is None,
        (Some(oldv), Some(newv)) => {
            &&& newv.full == oldv.full
            &&& newv.filtered == oldv.filtered
            &&& newv.focus == match initial_focus {
                None => oldv.focus,
                Some(f) => match first_row_pos(oldv.full, oldv.filtered, f) {
                    Some(i) => i,
                    None => oldv.focus,
                },
            }
            &&& r == Some(spec_to_ui(newv))
        },
        _ => false,
    }
}

/// What a directory change does: the pane is rebuilt around the fresh
/// listing, every entry unselected, with the active filter kept and applied
/// to build the initial filtered view, split at the `initial_focus` entry's
/// full-list position (when it exists) so the focus lands on its row.
pub open spec fn spec_new_path_change(
    old_p: PaneV,
    new_p: PaneV,
    path: Seq<char>,
    initial_focus: Option<Seq<char>>,
    fresh: Option<Seq<crate::file_list::BaseV>>,
    r: Option<UiV>,
) -> bool {
    &&& new_p.dirctry_path == path
    &&& new_p.filter == old_p.filter
    &&& new_p.viewing_start == 0
    &&& new_p.viewing_end == 0
    &&& match (fresh, new_p.file_list_info) {
        (None, None) => r is None,
        (Some(l), Some(newv)) => {
            let items = l.map_values(
                |b: crate::file_list::BaseV| crate::file_list::spec_item_of_base(b, false),
            );
            let full_focus = match initial_focus {
                Some(f) => match first_name_pos(items, f) {
                    Some(p) => p,
                    None => 0,
                },
                None => 0,
            };
            &&& newv == spec_create(items, full_focus, old_p.filter)
            &&& r == Some(spec_to_ui(newv))
        },
        _ => false,
    }
}

/// Replace the pane's filter and rebuild its view: the entries are reordered
/// by descending matching rate (stable, so ties keep their order), the
/// filtered view keeps the matching ones, and the focus resets to the top.
/// With no listing yet, only the filter is stored.
#[verifier::rlimit(50)]
pub fn set_filter(pane_info: &mut PaneInfo, filter: FilterInfo) -> (r: Option<FileListUiInfo>)
    requires
        pane_wf(old(pane_info)@),
    ensures
        pane_wf(final(pane_info)@),
        final(pane_info)@.filter == filter@,
        final(pane_info)@.dirctry_path == old(pane_info)@.dirctry_path,
        final(pane_info)@.viewing_start == old(pane_info)@.viewing_start,
        final(pane_info)@.viewing_end == old(pane_info)@.viewing_end,
        match (old(pane_info)@.file_list_info, final(pane_info)@.file_list_info) {
            (None, None) => r is None,
            (Some(oldv), Some(newv)) => {
                let sorted = spec_sort_pairs(
                    SortOrder::ByRateDesc,
                    spec_ranked_of(oldv.full, filter@),
                );
                &&& newv.full == items_of_pairs(sorted)
                &&& newv.filtered == spec_rows(newv.full, filter@, 0, newv.full.len() as int)
                &&& newv.focus == 0
                &&& opt_ui_view(r) == Some(spec_to_ui(newv))
            },
            _ => false,
        },
{
    let list = match pane_info.file_list_info.take() {
        None => {
            pane_info.filter = filter;
            return None;
        },
        Some(l) => l,
    };
    let mut src = list.full_item_list;
    let ghost origv = items_view(src@);
    let mut pairs: Vec<RankedItem> = Vec::new();
    let mut taken: usize = 0;
    let len = src.len();
    let ghost srcv = src@;
    proof {
        assert(pairs_view(pairs@) =~= spec_ranked_of(items_view(srcv.take(0)), filter@));
    }
    #[verifier::loop_isolation(false)]
    while taken < len
        invariant
            taken <= len == srcv.len(),
            src@ == srcv.skip(taken as int),
            pairs_view(pairs@) == spec_ranked_of(items_view(srcv.take(taken as int)), filter@),
        decreases len - taken,
    {
        let item = src.remove(0);
        proof {
            assert(src@ =~= srcv.skip(taken + 1));
            assert(item@ == srcv[taken as int]@);
        }
        let ghost before = pairs_view(pairs@);
        let match_result = filter.is_match(&item.file_name);
        pairs.push(RankedItem { item, match_result });
        proof {
            assert(pairs_view(pairs@) =~= before.push(pairs@.last()@));
            assert(spec_ranked_of(items_view(srcv.take(taken + 1)), filter@) =~= before.push(
                pairs@.last()@,
            ));
        }
        taken = taken + 1;
    }
    proof {
        assert(srcv.take(len as int) =~= srcv);
    }
    let ghost rankedv = spec_ranked_of(origv, filter@);
    let sorted = crate::sort::sort_ranked_items(SortOrder::ByRateDesc, pairs);
    let ghost sortedv = spec_sort_pairs(SortOrder::ByRateDesc, rankedv);
    proof {
        crate::sort::lemma_sort_pairs_elements(SortOrder::ByRateDesc, rankedv);
        assert forall|i: int| 0 <= i < sortedv.len() implies (#[trigger] sortedv[i]).matched
            == spec_is_match(filter@, sortedv[i].item.file_name) by {
            assert(rankedv.contains(sortedv[i]));
            let w = choose|w: int| 0 <= w < rankedv.len() && rankedv[w] == sortedv[i];
            assert(rankedv[w] == PairV {
                item: origv[w],
                matched: spec_is_match(filter@, origv[w].file_name),
            });
        }
    }
    let ghost new_full = items_of_pairs(sortedv);
    let mut src = sorted;
    let ghost sorted_raw = src@;
    let mut full_item_list: Vec<FileListItem> = Vec::new();
    let mut filtered_item_info: Vec<FilterdFileInfo> = Vec::new();
    let mut org_idx: usize = 0;
    let len = src.len();
    proof {
        assert(pairs_view(sorted_raw) == sortedv);
        assert(items_view(full_item_list@) =~= new_full.take(0));
        assert(rows_view(filtered_item_info@) =~= Seq::<crate::file_list::RowV>::empty());
        crate::file_list::lemma_rows_concat(new_full, filter@, 0, 0, 0);
    }
    #[verifier::loop_isolation(false)]
    while org_idx < len
        invariant
            org_idx <= len,
            src@ == sorted_raw.skip(org_idx as int),
            len == sorted_raw.len(),
            items_view(full_item_list@) == new_full.take(org_idx as int),
            rows_view(filtered_item_info@) == spec_rows(new_full, filter@, 0, org_idx as int),
        decreases len - org_idx,
    {
        let x = src.remove(0);
        let ghost xv = x@;
        proof {
            assert(src@ =~= sorted_raw.skip(org_idx + 1));
            assert(xv == sorted_raw[org_idx as int]@);
            assert(xv == sortedv[org_idx as int]);
            assert(new_full.len() == sortedv.len());
            assert(new_full[org_idx as int] == sortedv[org_idx as int].item);
            assert(spec_is_match(filter@, new_full[org_idx as int].file_name) == xv.matched);
            crate::file_list::lemma_rows_concat(new_full, filter@, 0, org_idx as int, org_idx + 1);
        }
        let ghost rows_before = rows_view(filtered_item_info@);
        let ghost items_before = items_view(full_item_list@);
        let RankedItem { item, match_result } = x;
        match match_result {
            None => {
                proof {
                    assert(xv.matched is None);
                }
            },
            Some(matched_file_name_idx) => {
                proof {
                    assert(xv.matched == Some(
                        matched_file_name_idx@.map_values(|u: usize| u as int),
                    ));
                }
                filtered_item_info.push(FilterdFileInfo { org_idx, matched_file_name_idx });
                proof {
                    assert(rows_view(filtered_item_info@) =~= rows_before.push(
                        filtered_item_info@.last()@,
                    ));
                    assert(filtered_item_info@.last()@.matched == xv.matched->Some_0);
                    assert(filtered_item_info@.last()@.org_idx == org_idx as int);
                }
            },
        }
        full_item_list.push(item);
        proof {
            assert(items_view(full_item_list@) =~= items_before.push(xv.item));
            assert(items_view(full_item_list@) =~= new_full.take(org_idx + 1));
            let step = spec_rows(new_full, filter@, org_idx as int, org_idx + 1);
            assert(spec_rows(new_full, filter@, org_idx + 1, org_idx + 1) =~= Seq::<
                crate::file_list::RowV,
            >::empty());
            match spec_is_match(filter@, new_full[org_idx as int].file_name) {
                None => {
                    assert(step =~= Seq::<crate::file_list::RowV>::empty());
                    assert(rows_view(filtered_item_info@) =~= rows_before);
                    assert(rows_view(filtered_item_info@) =~~= spec_rows(
                        new_full,
                        filter@,
                        0,
                        org_idx + 1,
                    ));
                },
                Some(m) => {
                    assert(step =~= seq![
                        crate::file_list::RowV { org_idx: org_idx as int, matched: m },
                    ] + Seq::<crate::file_list::RowV>::empty());
                    assert(step.len() == 1);
                    assert(step[0].org_idx == org_idx as int);
                    assert(step[0].matched == m);
                    assert(m == xv.matched->Some_0);
                    assert(rows_view(filtered_item_info@) =~~= rows_before + step);
                    assert(rows_view(filtered_item_info@) =~~= spec_rows(
                        new_full,
                        filter@,
                        0,
                        org_idx + 1,
                    ));
                },
            }
        }
        org_idx = org_idx + 1;
    }
    proof {
        assert(new_full.take(len as int) =~= new_full);
        crate::file_list::lemma_rows_shape(new_full, filter@, 0, len as int);
    }
    pane_info.filter = filter;
    pane_info.file_list_info = Some(
        FileListFullInfo { full_item_list, filtered_item_info, focus_idx: 0 },
    );
    pane_info.to_ui_info()
}

// ---------------------------------------------------------------------------
// The two-pane container and its shared settings.
// ---------------------------------------------------------------------------

/// One pane together with the signal a UI command raises to pre-empt the
/// background refresh of that pane.
#[derive(Debug)]
pub struct PaneHandler {
    pub pane_idx: usize,
    pub data: PaneInfo,
    pub ui_operation_required: bool,
}

impl PaneHandler {
    /// A fresh handler around an empty pane.
    pub fn new(pane_idx: usize) -> (r: Self)
        ensures
            r.pane_idx == pane_idx,
            r.data@.file_list_info is None,
            r.data@.dirctry_path.len() == 0,
            r.data@.filter.pattern.len() == 0,
            r.data@.filter.filter_type == FilterType::StrMatch,
            !r.ui_operation_required,
            pane_wf(r.data@),
    {
        PaneHandler { pane_idx, data: PaneInfo::new(), ui_operation_required: false }
    }

    /// Open the pane for a UI command: raises the pre-emption signal, so an
    /// in-flight background icon walk on this pane stops at its next check.
    pub fn get_info_for_ui_operation(&mut self)
        ensures
            final(self).pane_idx == old(self).pane_idx,
            final(self).data == old(self).data,
            final(self).ui_operation_required,
    {
        self.ui_operation_required = true;
    }

    /// Whether a UI command asked for this pane since the last refresh began.
    pub fn ui_operation_required(&self) -> (r: bool)
        ensures
            r == self.ui_operation_required,
    {
        self.ui_operation_required
    }
}

/// Everything the application holds: the shared settings and the two panes.
#[derive(Debug)]
pub struct FilerData {
    pub ignore_system_file: bool,
    pub background: Color,
    pub pane_info_list: [PaneHandler; 2],
}

impl FilerData {
    /// The startup state: system files hidden, black background, two empty
    /// panes.
    pub fn new() -> (r: Self)
        ensures
            r.ignore_system_file,
            r.background == (Color { r: 0, g: 0, b: 0 }),
            r.pane_info_list[0].pane_idx == 0,
            r.pane_info_list[1].pane_idx == 1,
            r.pane_info_list[0].data@.file_list_info is None,
            r.pane_info_list[1].data@.file_list_info is None,
            !r.pane_info_list[0].ui_operation_required,
            !r.pane_info_list[1].ui_operation_required,
            pane_wf(r.pane_info_list[0].data@),
            pane_wf(r.pane_info_list[1].data@),
    {
        FilerData {
            ignore_system_file: true,
            background: Color { r: 0, g: 0, b: 0 },
            pane_info_list: [PaneHandler::new(0), PaneHandler::new(1)],
        }
    }

    /// The background colour the icon provider renders against.
    pub fn get_background(&self) -> (r: Color)
        ensures
            r == self.background,
    {
        self.background
    }
}

/// Set the UI background colour.
pub fn set_background_color(data: &mut FilerData, color: Color)
    ensures
        final(data).background == color,
        final(data).ignore_system_file == old(data).ignore_system_file,
        final(data).pane_info_list == old(data).pane_info_list,
{
    data.background = color;
}

/// Choose whether system files are hidden. The caller refreshes the panes
/// afterwards, so the change shows.
pub fn set_ignore_system_file(data: &mut FilerData, value: bool)
    ensures
        final(data).ignore_system_file == value,
        final(data).background == old(data).background,
        final(data).pane_info_list == old(data).pane_info_list,
{
    data.ignore_system_file = value;
}

/// Whether system files are hidden.
pub fn is_ignore_system_file(data: &FilerData) -> (r: bool)
    ensures
        r == data.ignore_system_file,
{
    data.ignore_system_file
}

} // verus!
