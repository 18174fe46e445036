//! The background refresh protocol of one pane, as decisions over plain
//! state: reconcile and emit a first snapshot, then walk the viewing range
//! attaching icons, checking between entries whether a UI command intervened;
//! when one did, stop at once and never emit the icon-complete snapshot.
//! The caller performs the outside work (listing, icon lookup, emission) and
//! drives these steps.

use vstd::prelude::*;

use crate::file_list::{
    bases_view, list_wf, opt_str_view, spec_to_ui, FileBaseInfo, FileListUiInfo, ItemV,
};
use crate::pane_info::{opt_ui_view, pane_wf, PaneHandler, PaneInfo};
use crate::reconcile::update_file_name_list;

verus! {

/// The payload of one `update_path_list` event: which pane, and its snapshot
/// (`None` when the pane has no listing).
#[derive(Debug)]
pub struct UpdateFileListUiInfo {
    pub pane_idx: usize,
    pub data: Option<FileListUiInfo>,
}

/// The payload of a per-file update event: one entry's refreshed display
/// fields.
#[derive(Debug)]
pub struct FileUpdateInfo {
    pub directory_path: String,
    pub file_name: String,
    pub file_icon: Option<String>,
    pub file_size: Option<String>,
    pub date: Option<String>,
}

/// An icon walk in progress: the next viewing-range position to serve, and
/// where the range ends.
#[derive(Debug, PartialEq, Eq, Structural, Clone, Copy)]
pub struct IconWalk {
    pub next_idx: usize,
    pub end_idx: usize,
}

/// What the walk asks its driver to do next.
#[derive(Debug)]
pub enum RefreshStep {
    /// A UI command intervened: stop now, emit nothing more.
    Cancelled,
    /// Fetch the icon of this entry and store it at this filtered row.
    Fetch { filtered_idx: usize, file_name: String },
    /// The range is walked: emit the icon-complete snapshot.
    Complete,
}

/// An entry with its icon replaced.
pub open spec fn spec_with_icon(it: ItemV, icon: Option<Seq<char>>) -> ItemV {
    ItemV { file_icon: icon, ..it }
}

/// Store a fetched icon at the entry a filtered row points at. A row index
/// outside the filtered view changes nothing.
pub fn icon_store(pane_info: &mut PaneInfo, filtered_idx: usize, icon: Option<String>)
    requires
        pane_wf(old(pane_info)@),
    ensures
        pane_wf(final(pane_info)@),
        final(pane_info)@.filter == old(pane_info)@.filter,
        final(pane_info)@.dirctry_path == old(pane_info)@.dirctry_path,
        final(pane_info)@.viewing_start == old(pane_info)@.viewing_start,
        final(pane_info)@.viewing_end == old(pane_info)@.viewing_end,
        match (old(pane_info)@.file_list_info, final(pane_info)@.file_list_info) {
            (None, None) => final(pane_info)@ == old(pane_info)@,
            (Some(oldv), Some(newv)) => {
                &&& newv.filtered == oldv.filtered
                &&& newv.focus == oldv.focus
                &&& newv.full == (if filtered_idx < oldv.filtered.len() {
                    oldv.full.update(
                        oldv.filtered[filtered_idx as int].org_idx,
                        spec_with_icon(
                            oldv.full[oldv.filtered[filtered_idx as int].org_idx],
                            opt_str_view(icon),
                        ),
                    )
                } else {
                    oldv.full
                })
            },
            _ => false,
        },
{
    let mut list = match pane_info.file_list_info.take() {
        None => {
            return;
        },
        Some(l) => l,
    };
    let ghost oldv = list@;
    proof {
        assert(list_wf(oldv));
    }
    if filtered_idx < list.filtered_item_info.len() {
        let org = list.filtered_item_info[filtered_idx].org_idx;
        proof {
            assert(list@.filtered[filtered_idx as int] == oldv.filtered[filtered_idx as int]);
            assert(0 <= org < list@.full.len());
        }
        list.full_item_list[org].file_icon = icon;
        proof {
            assert(list@.full =~= oldv.full.update(
                org as int,
                spec_with_icon(oldv.full[org as int], list@.full[org as int].file_icon),
            ));
        }
    }
    pane_info.file_list_info = Some(list);
}

/// The icon walk over a pane's current viewing range.
pub fn icon_walk_start(pane_info: &PaneInfo) -> (r: IconWalk)
    ensures
        r.next_idx == pane_info@.viewing_start,
        r.end_idx == pane_info@.viewing_end,
{
    IconWalk { next_idx: pane_info.viewing_idx_start, end_idx: pane_info.viewing_idx_end }
}

/// Move the walk past the row it just served.
pub fn icon_walk_advance(walk: &mut IconWalk)
    requires
        old(walk).next_idx < old(walk).end_idx,
    ensures
        final(walk).next_idx == old(walk).next_idx + 1,
        final(walk).end_idx == old(walk).end_idx,
{
    walk.next_idx = walk.next_idx + 1;
}

/// Decide the walk's next step over plain state: stop when a UI command
/// intervened (`ui_operation_required`); else serve the next viewing-range
/// row that points at an entry; else the walk is complete.
pub fn refresh_walk_step(pane_info: &PaneInfo, ui_operation_required: bool, walk: &IconWalk) -> (r:
    RefreshStep)
    requires
        pane_wf(pane_info@),
    ensures
        match r {
            RefreshStep::Cancelled => ui_operation_required,
            RefreshStep::Fetch { filtered_idx, file_name } => {
                &&& !ui_operation_required
                &&& filtered_idx == walk.next_idx
                &&& walk.next_idx < walk.end_idx
                &&& pane_info@.file_list_info matches Some(v) && walk.next_idx < v.filtered.len()
                    && file_name@ == v.full[v.filtered[walk.next_idx as int].org_idx].file_name
            },
            RefreshStep::Complete => {
                &&& !ui_operation_required
                &&& (pane_info@.file_list_info is None || walk.next_idx >= walk.end_idx || (
                pane_info@.file_list_info matches Some(v) && walk.next_idx >= v.filtered.len()))
            },
        },
{
    if ui_operation_required {
        return RefreshStep::Cancelled;
    }
    let list = match &pane_info.file_list_info {
        None => {
            return RefreshStep::Complete;
        },
        Some(l) => l,
    };
    if walk.next_idx < walk.end_idx && walk.next_idx < list.filtered_item_info.len() {
        proof {
            assert(list_wf(pane_info@.file_list_info->Some_0));
        }
        let org = list.filtered_item_info[walk.next_idx].org_idx;
        RefreshStep::Fetch {
            filtered_idx: walk.next_idx,
            file_name: list.full_item_list[org].file_name.clone(),
        }
    } else {
        RefreshStep::Complete
    }
}

impl PaneHandler {
    /// Begin one background tick: the pre-emption signal is cleared, the
    /// fresh listing is reconciled into the pane, and the first snapshot to
    /// emit is handed back together with the icon walk over the pane's
    /// viewing range. `None` stands for a listing that could not be read.
    pub fn refresh_begin(&mut self, fresh_list: Option<Vec<FileBaseInfo>>) -> (r: (
        UpdateFileListUiInfo,
        IconWalk,
    ))
        requires
            pane_wf(old(self).data@),
        ensures
            pane_wf(final(self).data@),
            final(self).pane_idx == old(self).pane_idx,
            !final(self).ui_operation_required,
            crate::reconcile::spec_reconciled(
                old(self).data@,
                match fresh_list {
                    None => None,
                    Some(l) => Some(bases_view(l@)),
                },
                final(self).data@,
            ),
            r.0.pane_idx == old(self).pane_idx,
            opt_ui_view(r.0.data) == match final(self).data@.file_list_info {
                None => None::<crate::file_list::UiV>,
                Some(v) => Some(spec_to_ui(v)),
            },
            r.1.next_idx == final(self).data@.viewing_start,
            r.1.end_idx == final(self).data@.viewing_end,
    {
        self.ui_operation_required = false;
        update_file_name_list(&mut self.data, fresh_list);
        let snapshot = UpdateFileListUiInfo {
            pane_idx: self.pane_idx,
            data: self.data.to_ui_info(),
        };
        let walk = icon_walk_start(&self.data);
        (snapshot, walk)
    }

    /// Decide the walk's next step: stop when a UI command intervened since
    /// the tick began; else serve the next viewing-range row that points at
    /// an entry; else the walk is complete.
    pub fn refresh_walk_decision(&self, walk: &IconWalk) -> (r: RefreshStep)
        requires
            pane_wf(self.data@),
        ensures
            match r {
                RefreshStep::Cancelled => self.ui_operation_required,
                RefreshStep::Fetch { filtered_idx, file_name } => {
                    &&& !self.ui_operation_required
                    &&& filtered_idx == walk.next_idx
                    &&& walk.next_idx < walk.end_idx
                    &&& self.data@.file_list_info matches Some(v) && walk.next_idx
                        < v.filtered.len() && file_name@ == v.full[v.filtered[walk.next_idx as int].org_idx].file_name
                },
                RefreshStep::Complete => {
                    &&& !self.ui_operation_required
                    &&& (self.data@.file_list_info is None || walk.next_idx >= walk.end_idx || (
                    self.data@.file_list_info matches Some(v) && walk.next_idx >= v.filtered.len()))
                },
            },
    {
        refresh_walk_step(&self.data, self.ui_operation_required, walk)
    }

    /// Store a fetched icon and move the walk past the served row.
    pub fn refresh_store_icon(&mut self, walk: &mut IconWalk, icon: Option<String>)
        requires
            pane_wf(old(self).data@),
            old(walk).next_idx < old(walk).end_idx,
        ensures
            pane_wf(final(self).data@),
            final(self).pane_idx == old(self).pane_idx,
            final(self).ui_operation_required == old(self).ui_operation_required,
            final(walk).next_idx == old(walk).next_idx + 1,
            final(walk).end_idx == old(walk).end_idx,
            final(self).data@.dirctry_path == old(self).data@.dirctry_path,
            final(self).data@.filter == old(self).data@.filter,
            final(self).data@.viewing_start == old(self).data@.viewing_start,
            final(self).data@.viewing_end == old(self).data@.viewing_end,
            match (old(self).data@.file_list_info, final(self).data@.file_list_info) {
                (None, None) => true,
                (Some(oldv), Some(newv)) => {
                    &&& newv.filtered == oldv.filtered
                    &&& newv.focus == oldv.focus
                    &&& newv.full == (if old(walk).next_idx < oldv.filtered.len() {
                        oldv.full.update(
                            oldv.filtered[old(walk).next_idx as int].org_idx,
                            spec_with_icon(
                                oldv.full[oldv.filtered[old(walk).next_idx as int].org_idx],
                                opt_str_view(icon),
                            ),
                        )
                    } else {
                        oldv.full
                    })
                },
                _ => false,
            },
    {
        icon_store(&mut self.data, walk.next_idx, icon);
        icon_walk_advance(walk);
    }

    /// The icon-complete snapshot, emitted only when the walk finished
    /// without being cancelled.
    pub fn refresh_complete(&self) -> (r: UpdateFileListUiInfo)
        requires
            pane_wf(self.data@),
        ensures
            r.pane_idx == self.pane_idx,
            opt_ui_view(r.data) == match self.data@.file_list_info {
                None => None::<crate::file_list::UiV>,
                Some(v) => Some(spec_to_ui(v)),
            },
    {
        UpdateFileListUiInfo { pane_idx: self.pane_idx, data: self.data.to_ui_info() }
    }
}

} // verus!
