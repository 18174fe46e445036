//! Selection commands: they flip the per-row selection flags of the entries
//! the given filtered-row indices point at. Indices outside the filtered view
//! are silently ignored.

use vstd::prelude::*;

use crate::file_list::{list_wf, spec_to_ui, FileListUiInfo, FullV, ItemV};
use crate::pane_info::{opt_ui_view, pane_wf, PaneInfo};

verus! {

/// Whether some index in `idxs` names a filtered row of `v` that points at
/// full-list position `j`.
pub open spec fn spec_named_by(v: FullV, idxs: Seq<usize>, j: int) -> bool {
    exists|k: int|
        0 <= k < idxs.len() && idxs[k] < v.filtered.len() && v.filtered[#[trigger] idxs[k] as int].org_idx
            == j
}

/// An entry with its selection flag replaced.
pub open spec fn spec_with_selected(it: ItemV, selected: bool) -> ItemV {
    ItemV { is_selected: selected, ..it }
}

/// Select, in addition to what is already selected, the entries of the given
/// filtered rows.
pub fn add_selecting_idx(pane_info: &mut PaneInfo, additional_select_idx_list: Vec<usize>) -> (r:
    Option<FileListUiInfo>)
    requires
        pane_wf(old(pane_info)@),
    ensures
        pane_wf(final(pane_info)@),
        final(pane_info)@.filter == old(pane_info)@.filter,
        final(pane_info)@.dirctry_path == old(pane_info)@.dirctry_path,
        final(pane_info)@.viewing_start == old(pane_info)@.viewing_start,
        final(pane_info)@.viewing_end == old(pane_info)@.viewing_end,
        match (old(pane_info)@.file_list_info, final(pane_info)@.file_list_info) {
            (None, None) => r is None && final(pane_info)@ == old(pane_info)@,
            (Some(oldv), Some(newv)) => {
                &&& newv.filtered == oldv.filtered
                &&& newv.focus == oldv.focus
                &&& newv.full.len() == oldv.full.len()
                &&& forall|j: int|
                    0 <= j < newv.full.len() ==> #[trigger] newv.full[j] == spec_with_selected(
                        oldv.full[j],
                        oldv.full[j].is_selected || spec_named_by(
                            oldv,
                            additional_select_idx_list@,
                            j,
                        ),
                    )
                &&& opt_ui_view(r) == Some(spec_to_ui(newv))
            },
            _ => false,
        },
{
    let mut list = match pane_info.file_list_info.take() {
        None => {
            return None;
        },
        Some(l) => l,
    };
    let ghost oldv = list@;
    proof {
        assert(list_wf(oldv));
    }
    let mut k: usize = 0;
    let n = additional_select_idx_list.len();
    #[verifier::loop_isolation(false)]
    while k < n
        invariant
            k <= n == additional_select_idx_list@.len(),
            list@.filtered == oldv.filtered,
            list@.focus == oldv.focus,
            list@.full.len() == oldv.full.len(),
            forall|j: int|
                0 <= j < list@.full.len() ==> #[trigger] list@.full[j] == spec_with_selected(
                    oldv.full[j],
                    oldv.full[j].is_selected || spec_named_by(
                        oldv,
                        additional_select_idx_list@.take(k as int),
                        j,
                    ),
                ),
        decreases n - k,
    {
        let idx = additional_select_idx_list[k];
        let ghost before = list@.full;
        if idx < list.filtered_item_info.len() {
            let org = list.filtered_item_info[idx].org_idx;
            proof {
                assert(list@.filtered[idx as int] == oldv.filtered[idx as int]);
                assert(0 <= org < list@.full.len());
            }
            list.full_item_list[org].is_selected = true;
            proof {
                assert(list@.full =~= before.update(
                    org as int,
                    spec_with_selected(before[org as int], true),
                ));
            }
        }
        proof {
            assert forall|j: int| 0 <= j < list@.full.len() implies #[trigger] list@.full[j]
                == spec_with_selected(
                oldv.full[j],
                oldv.full[j].is_selected || spec_named_by(
                    oldv,
                    additional_select_idx_list@.take(k + 1),
                    j,
                ),
            ) by {
                let idxs = additional_select_idx_list@;
                assert(idxs.take(k + 1)[k as int] == idxs[k as int]);
                assert forall|w: int| 0 <= w < k + 1 implies #[trigger] idxs.take(k + 1)[w]
                    == idxs.take(k as int).push(idxs[k as int])[w] by {}
                if spec_named_by(oldv, idxs.take(k as int), j) {
                    let w = choose|w: int|
                        0 <= w < idxs.take(k as int).len() && (#[trigger] idxs.take(k as int)[w])
                            < oldv.filtered.len() && oldv.filtered[idxs.take(k as int)[w] as int].org_idx
                            == j;
                    assert(idxs.take(k + 1)[w] == idxs.take(k as int)[w]);
                    assert(spec_named_by(oldv, idxs.take(k + 1), j));
                }
                if spec_named_by(oldv, idxs.take(k + 1), j) && !spec_named_by(
                    oldv,
                    idxs.take(k as int),
                    j,
                ) {
                    let w = choose|w: int|
                        0 <= w < idxs.take(k + 1).len() && (#[trigger] idxs.take(k + 1)[w])
                            < oldv.filtered.len() && oldv.filtered[idxs.take(k + 1)[w] as int].org_idx
                            == j;
                    if w < k {
                        assert(idxs.take(k as int)[w] == idxs.take(k + 1)[w]);
                        assert(spec_named_by(oldv, idxs.take(k as int), j));
                    } else {
                        assert(idxs.take(k + 1)[w] == idxs[k as int]);
                    }
                }
            }
        }
        k = k + 1;
    }
    proof {
        assert(additional_select_idx_list@.take(n as int) =~= additional_select_idx_list@);
    }
    pane_info.file_list_info = Some(list);
    pane_info.to_ui_info()
}

/// Replace the selection: clear every flag, then select the entries of the
/// given filtered rows.
#[verifier::rlimit(100)]
pub fn set_selecting_idx(pane_info: &mut PaneInfo, new_select_idx_list: Vec<usize>) -> (r: Option<
    FileListUiInfo,
>)
    requires
        pane_wf(old(pane_info)@),
    ensures
        pane_wf(final(pane_info)@),
        final(pane_info)@.filter == old(pane_info)@.filter,
        final(pane_info)@.dirctry_path == old(pane_info)@.dirctry_path,
        final(pane_info)@.viewing_start == old(pane_info)@.viewing_start,
        final(pane_info)@.viewing_end == old(pane_info)@.viewing_end,
        match (old(pane_info)@.file_list_info, final(pane_info)@.file_list_info) {
            (None, None) => r is None && final(pane_info)@ == old(pane_info)@,
            (Some(oldv), Some(newv)) => {
                &&& newv.filtered == oldv.filtered
                &&& newv.focus == oldv.focus
                &&& newv.full.len() == oldv.full.len()
                &&& forall|j: int|
                    0 <= j < newv.full.len() ==> #[trigger] newv.full[j] == spec_with_selected(
                        oldv.full[j],
                        spec_named_by(oldv, new_select_idx_list@, j),
                    )
                &&& opt_ui_view(r) == Some(spec_to_ui(newv))
            },
            _ => false,
        },
{
    let mut list = match pane_info.file_list_info.take() {
        None => {
            return None;
        },
        Some(l) => l,
    };
    let ghost oldv = list@;
    proof {
        assert(list_wf(oldv));
    }
    let mut j: usize = 0;
    let full_len = list.full_item_list.len();
    #[verifier::loop_isolation(false)]
    while j < full_len
        invariant
            j <= full_len == oldv.full.len(),
            list@.filtered == oldv.filtered,
            list@.focus == oldv.focus,
            list@.full.len() == oldv.full.len(),
            forall|w: int|
                0 <= w < j ==> #[trigger] list@.full[w] == spec_with_selected(oldv.full[w], false),
            forall|w: int| j <= w < oldv.full.len() ==> #[trigger] list@.full[w] == oldv.full[w],
        decreases full_len - j,
    {
        let ghost before = list@.full;
        list.full_item_list[j].is_selected = false;
        proof {
            assert(list@.full =~= before.update(
                j as int,
                spec_with_selected(before[j as int], false),
            ));
        }
        j = j + 1;
    }
    let ghost cleared = list@;
    let mut k: usize = 0;
    let n = new_select_idx_list.len();
    #[verifier::loop_isolation(false)]
    while k < n
        invariant
            k <= n == new_select_idx_list@.len(),
            list@.filtered == oldv.filtered,
            list@.focus == oldv.focus,
            list@.full.len() == oldv.full.len(),
            forall|w: int|
                0 <= w < list@.full.len() ==> #[trigger] list@.full[w] == spec_with_selected(
                    oldv.full[w],
                    spec_named_by(oldv, new_select_idx_list@.take(k as int), w),
                ),
        decreases n - k,
    {
        let idx = new_select_idx_list[k];
        let ghost before = list@.full;
        if idx < list.filtered_item_info.len() {
            let org = list.filtered_item_info[idx].org_idx;
            proof {
                assert(list@.filtered[idx as int] == oldv.filtered[idx as int]);
                assert(0 <= org < list@.full.len());
            }
            list.full_item_list[org].is_selected = true;
            proof {
                assert(list@.full =~= before.update(
                    org as int,
                    spec_with_selected(before[org as int], true),
                ));
            }
        }
        proof {
            let idxs = new_select_idx_list@;
            assert forall|w: int| 0 <= w < list@.full.len() implies #[trigger] list@.full[w]
                == spec_with_selected(
                oldv.full[w],
                spec_named_by(oldv, idxs.take(k + 1), w),
            ) by {
                assert(idxs.take(k + 1)[k as int] == idxs[k as int]);
                if spec_named_by(oldv, idxs.take(k as int), w) {
                    let u = choose|u: int|
                        0 <= u < idxs.take(k as int).len() && (#[trigger] idxs.take(k as int)[u])
                            < oldv.filtered.len() && oldv.filtered[idxs.take(k as int)[u] as int].org_idx
                            == w;
                    assert(idxs.take(k + 1)[u] == idxs.take(k as int)[u]);
                    assert(spec_named_by(oldv, idxs.take(k + 1), w));
                }
                if spec_named_by(oldv, idxs.take(k + 1), w) && !spec_named_by(
                    oldv,
                    idxs.take(k as int),
                    w,
                ) {
                    let u = choose|u: int|
                        0 <= u < idxs.take(k + 1).len() && (#[trigger] idxs.take(k + 1)[u])
                            < oldv.filtered.len() && oldv.filtered[idxs.take(k + 1)[u] as int].org_idx
                            == w;
                    if u < k {
                        assert(idxs.take(k as int)[u] == idxs.take(k + 1)[u]);
                        assert(spec_named_by(oldv, idxs.take(k as int), w));
                    } else {
                        assert(idxs.take(k + 1)[u] == idxs[k as int]);
                    }
                }
            }
        }
        k = k + 1;
    }
    proof {
        assert(new_select_idx_list@.take(n as int) =~= new_select_idx_list@);
    }
    pane_info.file_list_info = Some(list);
    pane_info.to_ui_info()
}

/// Flip the selection flag of the entry of one filtered row. An index outside
/// the filtered view changes nothing.
pub fn toggle_selection(pane_info: &mut PaneInfo, trg_idx: usize) -> (r: Option<FileListUiInfo>)
    requires
        pane_wf(old(pane_info)@),
    ensures
        pane_wf(final(pane_info)@),
        final(pane_info)@.filter == old(pane_info)@.filter,
        final(pane_info)@.dirctry_path == old(pane_info)@.dirctry_path,
        final(pane_info)@.viewing_start == old(pane_info)@.viewing_start,
        final(pane_info)@.viewing_end == old(pane_info)@.viewing_end,
        match (old(pane_info)@.file_list_info, final(pane_info)@.file_list_info) {
            (None, None) => r is None && final(pane_info)@ == old(pane_info)@,
            (Some(oldv), Some(newv)) => {
                &&& newv.filtered == oldv.filtered
                &&& newv.focus == oldv.focus
                &&& newv.full == (if trg_idx < oldv.filtered.len() {
                    oldv.full.update(
                        oldv.filtered[trg_idx as int].org_idx,
                        spec_with_selected(
                            oldv.full[oldv.filtered[trg_idx as int].org_idx],
                            !oldv.full[oldv.filtered[trg_idx as int].org_idx].is_selected,
                        ),
                    )
                } else {
                    oldv.full
                })
                &&& opt_ui_view(r) == Some(spec_to_ui(newv))
            },
            _ => false,
        },
{
    let mut list = match pane_info.file_list_info.take() {
        None => {
            return None;
        },
        Some(l) => l,
    };
    let ghost oldv = list@;
    proof {
        assert(list_wf(oldv));
    }
    if trg_idx < list.filtered_item_info.len() {
        let org = list.filtered_item_info[trg_idx].org_idx;
        proof {
            assert(list@.filtered[trg_idx as int] == oldv.filtered[trg_idx as int]);
            assert(0 <= org < list@.full.len());
        }
        let current = list.full_item_list[org].is_selected;
        list.full_item_list[org].is_selected = !current;
        proof {
            assert(list@.full =~= oldv.full.update(
                org as int,
                spec_with_selected(oldv.full[org as int], !oldv.full[org as int].is_selected),
            ));
        }
    }
    pane_info.file_list_info = Some(list);
    pane_info.to_ui_info()
}

} // verus!
