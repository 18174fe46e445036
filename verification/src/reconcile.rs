//! The reconciler: merges a freshly fetched directory listing into existing
//! pane state. Entries that survive keep their position, selection and icon;
//! entries that vanished are dropped; new entries are appended and become the
//! sole selection; the focus follows the focused entry where it can.

use vstd::prelude::*;

use crate::file_list::{
    bases_view, first_name_pos, items_view, lemma_first_name_pos, lemma_row_index_count,
    lemma_rows_concat, lemma_rows_shape, lemma_rows_split_at, list_wf, spec_create,
    spec_focus_name, spec_initial_rows, spec_item_of_base, spec_rows, BaseV, FileBaseInfo,
    FileListFullInfo, FileListItem, FullV, ItemV,
};
use crate::filter_info::{spec_is_match, FilterV};
use crate::pane_info::{pane_wf, PaneInfo, PaneV};
use crate::selections::spec_with_selected;

verus! {

// ---------------------------------------------------------------------------
// Names in listings and entry lists.
// ---------------------------------------------------------------------------

/// Whether the listing holds a record with this name.
pub open spec fn fresh_has_name(fresh: Seq<BaseV>, name: Seq<char>) -> bool {
    exists|i: int| 0 <= i < fresh.len() && (#[trigger] fresh[i]).file_name == name
}

/// Whether the entry list holds an entry with this name.
pub open spec fn items_have_name(items: Seq<ItemV>, name: Seq<char>) -> bool {
    exists|i: int| 0 <= i < items.len() && (#[trigger] items[i]).file_name == name
}

/// All names of a listing are distinct: no two records share one.
pub open spec fn fresh_names_distinct(fresh: Seq<BaseV>) -> bool {
    forall|i: int, j: int|
        0 <= i < j < fresh.len() ==> (#[trigger] fresh[i]).file_name != (#[trigger] fresh[j]).file_name
}

/// All names of an entry list are distinct.
pub open spec fn item_names_distinct(items: Seq<ItemV>) -> bool {
    forall|i: int, j: int|
        0 <= i < j < items.len() ==> (#[trigger] items[i]).file_name != (#[trigger] items[j]).file_name
}

/// First listing record with this name.
pub open spec fn first_base_pos(fresh: Seq<BaseV>, name: Seq<char>) -> Option<int>
    decreases fresh.len(),
{
    if fresh.len() == 0 {
        None
    } else if fresh[0].file_name == name {
        Some(0)
    } else {
        match first_base_pos(fresh.skip(1), name) {
            Some(i) => Some(i + 1),
            None => None,
        }
    }
}

/// What `first_base_pos` answers is the least record position bearing the
/// name; it answers `Some` exactly when the listing holds the name.
pub proof fn lemma_first_base_pos(fresh: Seq<BaseV>, name: Seq<char>)
    ensures
        match first_base_pos(fresh, name) {
            Some(i) => 0 <= i < fresh.len() && fresh[i].file_name == name && forall|j: int|
                0 <= j < i ==> (#[trigger] fresh[j]).file_name != name,
            None => forall|j: int|
                0 <= j < fresh.len() ==> (#[trigger] fresh[j]).file_name != name,
        },
        first_base_pos(fresh, name) is Some <==> fresh_has_name(fresh, name),
    decreases fresh.len(),
{
    if fresh.len() > 0 {
        lemma_first_base_pos(fresh.skip(1), name);
        if fresh[0].file_name != name {
            assert forall|j: int| 0 <= j < fresh.skip(1).len() implies fresh.skip(1)[j] == fresh[j
                + 1] by {}
            match first_base_pos(fresh.skip(1), name) {
                Some(i) => {
                    assert(fresh[i + 1].file_name == name);
                    assert forall|j: int| 0 <= j < i + 1 implies (#[trigger] fresh[j]).file_name
                        != name by {
                        if j > 0 {
                            assert(fresh.skip(1)[j - 1] == fresh[j]);
                        }
                    }
                },
                None => {
                    assert forall|j: int| 0 <= j < fresh.len() implies (#[trigger] fresh[j]).file_name
                        != name by {
                        if j > 0 {
                            assert(fresh.skip(1)[j - 1] == fresh[j]);
                        }
                    }
                },
            }
        }
    }
    match first_base_pos(fresh, name) {
        Some(i) => {
            assert(fresh_has_name(fresh, name));
        },
        None => {
            if fresh_has_name(fresh, name) {
                let i = choose|i: int|
                    0 <= i < fresh.len() && (#[trigger] fresh[i]).file_name == name;
                assert(false);
            }
        },
    }
}

/// Find the first listing record with the given name.
pub fn position_of_base_name(fresh: &Vec<FileBaseInfo>, name: &String) -> (r: Option<usize>)
    ensures
        match r {
            Some(i) => first_base_pos(bases_view(fresh@), name@) == Some(i as int),
            None => first_base_pos(bases_view(fresh@), name@) is None,
        },
{
    let ghost fv = bases_view(fresh@);
    proof {
        lemma_first_base_pos(fv, name@);
    }
    let mut i: usize = 0;
    #[verifier::loop_isolation(false)]
    while i < fresh.len()
        invariant
            i <= fv.len(),
            forall|j: int| 0 <= j < i ==> (#[trigger] fv[j]).file_name != name@,
        decreases fv.len() - i,
    {
        proof {
            assert(fv[i as int] == fresh@[i as int]@);
        }
        if fresh[i].file_name == *name {
            proof {
                if let Some(p) = first_base_pos(fv, name@) {
                    assert(p == i as int);
                } else {
                    assert(false);
                }
            }
            return Some(i);
        }
        i = i + 1;
    }
    None
}

// ---------------------------------------------------------------------------
// What one reconciliation computes.
// ---------------------------------------------------------------------------

/// The survivor an old entry turns into: metadata rebuilt from the fresh
/// record, old selection and old icon kept.
pub open spec fn spec_rebuilt(old_it: ItemV, b: BaseV) -> ItemV {
    ItemV { file_icon: old_it.file_icon, ..spec_item_of_base(b, old_it.is_selected) }
}

/// The old entries whose names survive in the fresh listing, in their old
/// order, each rebuilt from its fresh record.
pub open spec fn spec_remain(old_items: Seq<ItemV>, fresh: Seq<BaseV>) -> Seq<ItemV>
    decreases old_items.len(),
{
    if old_items.len() == 0 {
        Seq::empty()
    } else {
        let tail = spec_remain(old_items.skip(1), fresh);
        match first_base_pos(fresh, old_items[0].file_name) {
            None => tail,
            Some(p) => seq![spec_rebuilt(old_items[0], fresh[p])] + tail,
        }
    }
}

/// The fresh records whose names are not among the survivors, in listing
/// order, each a new entry that starts out selected.
pub open spec fn spec_added(fresh: Seq<BaseV>, remain: Seq<ItemV>) -> Seq<ItemV>
    decreases fresh.len(),
{
    if fresh.len() == 0 {
        Seq::empty()
    } else {
        let tail = spec_added(fresh.skip(1), remain);
        if items_have_name(remain, fresh[0].file_name) {
            tail
        } else {
            seq![spec_item_of_base(fresh[0], true)] + tail
        }
    }
}

/// Every entry deselected.
pub open spec fn spec_deselected(items: Seq<ItemV>) -> Seq<ItemV> {
    items.map_values(|it: ItemV| spec_with_selected(it, false))
}

/// The full list after one reconciliation: survivors first, in old order,
/// then the new entries in listing order. When anything was added, the new
/// entries become the sole selection.
pub open spec fn spec_full_after(old_items: Seq<ItemV>, fresh: Seq<BaseV>) -> Seq<ItemV> {
    let remain = spec_remain(old_items, fresh);
    let added = spec_added(fresh, remain);
    if added.len() > 0 {
        spec_deselected(remain) + added
    } else {
        remain + added
    }
}

/// How many of the old entries before the first one named `f` survive: where
/// a focused entry vanished, the focus rolls up by the rows that vanished
/// before it.
pub open spec fn spec_survivor_count(old_items: Seq<ItemV>, fresh: Seq<BaseV>, f: Seq<char>) -> int
    decreases old_items.len(),
{
    if old_items.len() == 0 {
        0
    } else if old_items[0].file_name == f {
        0
    } else {
        (if fresh_has_name(fresh, old_items[0].file_name) {
            1int
        } else {
            0int
        }) + spec_survivor_count(old_items.skip(1), fresh, f)
    }
}

/// The full-list focus position after one reconciliation: the first added
/// entry when anything was added; else the surviving focused entry's new
/// position; else the count of surviving entries before the vanished one.
pub open spec fn spec_focus_after(oldv: FullV, fresh: Seq<BaseV>) -> int {
    let remain = spec_remain(oldv.full, fresh);
    let added = spec_added(fresh, remain);
    if added.len() > 0 {
        remain.len() as int
    } else {
        match spec_focus_name(oldv) {
            None => 0,
            Some(f) => match first_name_pos(remain, f) {
                Some(p) => p,
                None => spec_survivor_count(oldv.full, fresh, f),
            },
        }
    }
}

/// The count of survivors before a vanished entry never exceeds the count of
/// survivors.
pub proof fn lemma_survivor_count_bounds(old_items: Seq<ItemV>, fresh: Seq<BaseV>, f: Seq<char>)
    ensures
        0 <= spec_survivor_count(old_items, fresh, f) <= spec_remain(old_items, fresh).len(),
    decreases old_items.len(),
{
    if old_items.len() > 0 {
        lemma_survivor_count_bounds(old_items.skip(1), fresh, f);
        lemma_first_base_pos(fresh, old_items[0].file_name);
    }
}

// ---------------------------------------------------------------------------
// What the computed pieces look like.
// ---------------------------------------------------------------------------

/// Rebuilding a survivor again from the same record changes nothing.
proof fn lemma_rebuilt_stable(it: ItemV, b: BaseV)
    ensures
        spec_rebuilt(spec_rebuilt(it, b), b) == spec_rebuilt(it, b),
{
}

/// Every survivor's name is an old name that the fresh listing still holds,
/// and a survivor is untouched by rebuilding it again from its (first) fresh
/// record.
proof fn lemma_remain_shape(old_items: Seq<ItemV>, fresh: Seq<BaseV>)
    ensures
        forall|k: int|
            0 <= k < spec_remain(old_items, fresh).len() ==> {
                let it = #[trigger] spec_remain(old_items, fresh)[k];
                &&& fresh_has_name(fresh, it.file_name)
                &&& items_have_name(old_items, it.file_name)
                &&& first_base_pos(fresh, it.file_name) matches Some(p) && it == spec_rebuilt(
                    it,
                    fresh[p],
                )
            },
    decreases old_items.len(),
{
    if old_items.len() > 0 {
        lemma_remain_shape(old_items.skip(1), fresh);
        lemma_first_base_pos(fresh, old_items[0].file_name);
        let remain = spec_remain(old_items, fresh);
        let tail = spec_remain(old_items.skip(1), fresh);
        assert forall|k: int| 0 <= k < tail.len() implies items_have_name(
            old_items,
            tail[k].file_name,
        ) by {
            let w = choose|w: int|
                0 <= w < old_items.skip(1).len() && (#[trigger] old_items.skip(1)[w]).file_name
                    == tail[k].file_name;
            assert(old_items[w + 1].file_name == tail[k].file_name);
        }
        match first_base_pos(fresh, old_items[0].file_name) {
            None => {},
            Some(p) => {
                let head = spec_rebuilt(old_items[0], fresh[p]);
                assert(head.file_name == old_items[0].file_name);
                lemma_rebuilt_stable(old_items[0], fresh[p]);
                assert forall|k: int| 0 <= k < remain.len() implies {
                    let it = #[trigger] remain[k];
                    &&& fresh_has_name(fresh, it.file_name)
                    &&& items_have_name(old_items, it.file_name)
                    &&& first_base_pos(fresh, it.file_name) matches Some(q) && it == spec_rebuilt(
                        it,
                        fresh[q],
                    )
                } by {
                    if k > 0 {
                        assert(remain[k] == tail[k - 1]);
                    }
                }
            },
        }
    }
}

/// A name is among the survivors exactly when it is an old name that the
/// fresh listing still holds.
proof fn lemma_remain_names(old_items: Seq<ItemV>, fresh: Seq<BaseV>, name: Seq<char>)
    ensures
        items_have_name(spec_remain(old_items, fresh), name) <==> (items_have_name(
            old_items,
            name,
        ) && fresh_has_name(fresh, name)),
    decreases old_items.len(),
{
    let remain = spec_remain(old_items, fresh);
    lemma_remain_shape(old_items, fresh);
    if items_have_name(remain, name) {
        let k = choose|k: int| 0 <= k < remain.len() && (#[trigger] remain[k]).file_name == name;
        assert(fresh_has_name(fresh, name) && items_have_name(old_items, name));
    }
    if old_items.len() > 0 {
        lemma_remain_names(old_items.skip(1), fresh, name);
        lemma_first_base_pos(fresh, old_items[0].file_name);
        let tail = spec_remain(old_items.skip(1), fresh);
        if items_have_name(old_items, name) && fresh_has_name(fresh, name) {
            let i = choose|i: int|
                0 <= i < old_items.len() && (#[trigger] old_items[i]).file_name == name;
            if i == 0 {
                match first_base_pos(fresh, old_items[0].file_name) {
                    None => {
                        assert(!fresh_has_name(fresh, name));
                    },
                    Some(p) => {
                        assert(remain[0].file_name == name);
                        assert(items_have_name(remain, name));
                    },
                }
            } else {
                assert(old_items.skip(1)[i - 1] == old_items[i]);
                assert(items_have_name(old_items.skip(1), name));
                let k = choose|k: int|
                    0 <= k < tail.len() && (#[trigger] tail[k]).file_name == name;
                match first_base_pos(fresh, old_items[0].file_name) {
                    None => {
                        assert(remain[k] == tail[k]);
                        assert(items_have_name(remain, name));
                    },
                    Some(p) => {
                        assert(remain[k + 1] == tail[k]);
                        assert(items_have_name(remain, name));
                    },
                }
            }
        }
    }
}

/// Every new arrival is selected, bears a listed name that no survivor bears,
/// and, when the listing's names are distinct, is exactly the entry its first
/// fresh record builds.
proof fn lemma_added_shape(fresh: Seq<BaseV>, remain: Seq<ItemV>)
    ensures
        forall|k: int|
            0 <= k < spec_added(fresh, remain).len() ==> {
                let it = #[trigger] spec_added(fresh, remain)[k];
                &&& it.is_selected
                &&& fresh_has_name(fresh, it.file_name)
                &&& !items_have_name(remain, it.file_name)
                &&& fresh_names_distinct(fresh) ==> (first_base_pos(fresh, it.file_name) matches Some(
                    p,
                ) && it == spec_item_of_base(fresh[p], true))
            },
    decreases fresh.len(),
{
    if fresh.len() > 0 {
        lemma_added_shape(fresh.skip(1), remain);
        let added = spec_added(fresh, remain);
        let tail = spec_added(fresh.skip(1), remain);
        assert forall|k: int| 0 <= k < tail.len() implies fresh_has_name(
            fresh,
            tail[k].file_name,
        ) && (fresh_names_distinct(fresh) ==> (first_base_pos(fresh, tail[k].file_name) matches Some(
            p,
        ) && tail[k] == spec_item_of_base(fresh[p], true))) by {
            let w = choose|w: int|
                0 <= w < fresh.skip(1).len() && (#[trigger] fresh.skip(1)[w]).file_name == tail[
                    k
                ].file_name;
            assert(fresh[w + 1].file_name == tail[k].file_name);
            if fresh_names_distinct(fresh) {
                assert(fresh_names_distinct(fresh.skip(1))) by {
                    assert forall|a: int, b: int|
                        0 <= a < b < fresh.skip(1).len() implies (#[trigger] fresh.skip(1)[a]).file_name
                        != (#[trigger] fresh.skip(1)[b]).file_name by {
                        assert(fresh.skip(1)[a] == fresh[a + 1]);
                        assert(fresh.skip(1)[b] == fresh[b + 1]);
                    }
                }
                let p = first_base_pos(fresh.skip(1), tail[k].file_name)->Some_0;
                lemma_first_base_pos(fresh.skip(1), tail[k].file_name);
                assert(fresh.skip(1)[p] == fresh[p + 1]);
                assert(fresh[0].file_name != tail[k].file_name) by {
                    assert(fresh[p + 1].file_name == tail[k].file_name);
                }
                lemma_first_base_pos(fresh, tail[k].file_name);
                match first_base_pos(fresh, tail[k].file_name) {
                    None => {
                        assert(false);
                    },
                    Some(q) => {
                        assert(fresh[q].file_name == tail[k].file_name);
                        assert(fresh[p + 1].file_name == tail[k].file_name);
                        assert(q == p + 1);
                    },
                }
            }
        }
        if !items_have_name(remain, fresh[0].file_name) {
            lemma_first_base_pos(fresh, fresh[0].file_name);
            assert(first_base_pos(fresh, fresh[0].file_name) == Some(0int));
            assert forall|k: int| 0 <= k < added.len() implies 0 <= k && (k == 0 || added[k]
                == tail[k - 1]) by {}
        }
    }
}

/// A name is among the new arrivals exactly when the listing holds it and no
/// survivor bears it.
proof fn lemma_added_names(fresh: Seq<BaseV>, remain: Seq<ItemV>, name: Seq<char>)
    ensures
        items_have_name(spec_added(fresh, remain), name) <==> (fresh_has_name(fresh, name)
            && !items_have_name(remain, name)),
    decreases fresh.len(),
{
    let added = spec_added(fresh, remain);
    lemma_added_shape(fresh, remain);
    if items_have_name(added, name) {
        let k = choose|k: int| 0 <= k < added.len() && (#[trigger] added[k]).file_name == name;
        assert(fresh_has_name(fresh, name) && !items_have_name(remain, name));
    }
    if fresh.len() > 0 {
        lemma_added_names(fresh.skip(1), remain, name);
        let tail = spec_added(fresh.skip(1), remain);
        if fresh_has_name(fresh, name) && !items_have_name(remain, name) && !items_have_name(
            added,
            name,
        ) {
            let i = choose|i: int| 0 <= i < fresh.len() && (#[trigger] fresh[i]).file_name == name;
            if i == 0 {
                assert(added[0].file_name == name);
                assert(false);
            } else {
                assert(fresh.skip(1)[i - 1] == fresh[i]);
                assert(fresh_has_name(fresh.skip(1), name));
                let k = choose|k: int|
                    0 <= k < tail.len() && (#[trigger] tail[k]).file_name == name;
                if items_have_name(remain, fresh[0].file_name) {
                    assert(added[k] == tail[k]);
                } else {
                    assert(added[k + 1] == tail[k]);
                }
                assert(false);
            }
        }
    }
}

/// When every listed name already has a survivor, nothing is added.
proof fn lemma_added_empty(fresh: Seq<BaseV>, remain: Seq<ItemV>)
    requires
        forall|i: int|
            0 <= i < fresh.len() ==> items_have_name(remain, (#[trigger] fresh[i]).file_name),
    ensures
        spec_added(fresh, remain).len() == 0,
    decreases fresh.len(),
{
    if fresh.len() > 0 {
        assert forall|i: int| 0 <= i < fresh.skip(1).len() implies items_have_name(
            remain,
            (#[trigger] fresh.skip(1)[i]).file_name,
        ) by {
            assert(fresh.skip(1)[i] == fresh[i + 1]);
        }
        lemma_added_empty(fresh.skip(1), remain);
    }
}

/// Deselecting keeps every name in place.
proof fn lemma_deselected_names(items: Seq<ItemV>)
    ensures
        spec_deselected(items).len() == items.len(),
        forall|k: int|
            0 <= k < items.len() ==> (#[trigger] spec_deselected(items)[k]).file_name == items[
                k
            ].file_name && !spec_deselected(items)[k].is_selected,
{
}

/// A name is in the reconciled full list exactly when the fresh listing
/// holds it.
pub proof fn lemma_full_after_names(old_items: Seq<ItemV>, fresh: Seq<BaseV>, name: Seq<char>)
    ensures
        items_have_name(spec_full_after(old_items, fresh), name) <==> fresh_has_name(fresh, name),
{
    let remain = spec_remain(old_items, fresh);
    let added = spec_added(fresh, remain);
    let full = spec_full_after(old_items, fresh);
    lemma_remain_shape(old_items, fresh);
    lemma_remain_names(old_items, fresh, name);
    lemma_added_shape(fresh, remain);
    lemma_added_names(fresh, remain, name);
    lemma_deselected_names(remain);
    let base = if added.len() > 0 {
        spec_deselected(remain)
    } else {
        remain
    };
    if items_have_name(full, name) {
        let k = choose|k: int| 0 <= k < full.len() && (#[trigger] full[k]).file_name == name;
        if k < base.len() {
            assert(full[k] == base[k]);
            assert(remain[k].file_name == name);
            assert(items_have_name(remain, name));
        } else {
            assert(full[k] == added[k - base.len()]);
            assert(items_have_name(added, name));
        }
    }
    if fresh_has_name(fresh, name) {
        if items_have_name(remain, name) {
            let k = choose|k: int|
                0 <= k < remain.len() && (#[trigger] remain[k]).file_name == name;
            assert(full[k].file_name == name);
            assert(items_have_name(full, name));
        } else {
            assert(items_have_name(added, name));
            let k = choose|k: int| 0 <= k < added.len() && (#[trigger] added[k]).file_name == name;
            assert(full[base.len() + k].file_name == name);
            assert(items_have_name(full, name));
        }
    }
}

// ---------------------------------------------------------------------------
// Laws of reconciliation.
// ---------------------------------------------------------------------------

/// Survivors keep distinct names when the old names were distinct.
proof fn lemma_remain_distinct(old_items: Seq<ItemV>, fresh: Seq<BaseV>)
    requires
        item_names_distinct(old_items),
    ensures
        item_names_distinct(spec_remain(old_items, fresh)),
    decreases old_items.len(),
{
    if old_items.len() > 0 {
        assert forall|a: int, b: int|
            0 <= a < b < old_items.skip(1).len() implies (#[trigger] old_items.skip(1)[a]).file_name
            != (#[trigger] old_items.skip(1)[b]).file_name by {
            assert(old_items.skip(1)[a] == old_items[a + 1]);
            assert(old_items.skip(1)[b] == old_items[b + 1]);
        }
        lemma_remain_distinct(old_items.skip(1), fresh);
        lemma_remain_shape(old_items.skip(1), fresh);
        let tail = spec_remain(old_items.skip(1), fresh);
        let remain = spec_remain(old_items, fresh);
        match first_base_pos(fresh, old_items[0].file_name) {
            None => {},
            Some(p) => {
                lemma_first_base_pos(fresh, old_items[0].file_name);
                assert forall|a: int, b: int|
                    0 <= a < b < remain.len() implies (#[trigger] remain[a]).file_name
                    != (#[trigger] remain[b]).file_name by {
                    if a == 0 {
                        assert(remain[b] == tail[b - 1]);
                        assert(items_have_name(old_items.skip(1), tail[b - 1].file_name));
                        let w = choose|w: int|
                            0 <= w < old_items.skip(1).len() && (#[trigger] old_items.skip(1)[w]).file_name
                                == tail[b - 1].file_name;
                        assert(old_items[w + 1].file_name == tail[b - 1].file_name);
                        assert(old_items[0].file_name != old_items[w + 1].file_name);
                    } else {
                        assert(remain[a] == tail[a - 1]);
                        assert(remain[b] == tail[b - 1]);
                    }
                }
            },
        }
    }
}

/// New arrivals keep distinct names when the listing's names are distinct.
proof fn lemma_added_distinct(fresh: Seq<BaseV>, remain: Seq<ItemV>)
    requires
        fresh_names_distinct(fresh),
    ensures
        item_names_distinct(spec_added(fresh, remain)),
    decreases fresh.len(),
{
    if fresh.len() > 0 {
        assert forall|a: int, b: int|
            0 <= a < b < fresh.skip(1).len() implies (#[trigger] fresh.skip(1)[a]).file_name
            != (#[trigger] fresh.skip(1)[b]).file_name by {
            assert(fresh.skip(1)[a] == fresh[a + 1]);
            assert(fresh.skip(1)[b] == fresh[b + 1]);
        }
        lemma_added_distinct(fresh.skip(1), remain);
        lemma_added_shape(fresh.skip(1), remain);
        let tail = spec_added(fresh.skip(1), remain);
        let added = spec_added(fresh, remain);
        if !items_have_name(remain, fresh[0].file_name) {
            assert forall|a: int, b: int|
                0 <= a < b < added.len() implies (#[trigger] added[a]).file_name
                != (#[trigger] added[b]).file_name by {
                if a == 0 {
                    assert(added[b] == tail[b - 1]);
                    assert(fresh_has_name(fresh.skip(1), tail[b - 1].file_name));
                    let w = choose|w: int|
                        0 <= w < fresh.skip(1).len() && (#[trigger] fresh.skip(1)[w]).file_name
                            == tail[b - 1].file_name;
                    assert(fresh.skip(1)[w] == fresh[w + 1]);
                    assert(fresh[0].file_name != fresh[w + 1].file_name);
                } else {
                    assert(added[a] == tail[a - 1]);
                    assert(added[b] == tail[b - 1]);
                }
            }
        }
    }
}

/// The reconciled full list keeps distinct names.
pub proof fn lemma_full_after_distinct(old_items: Seq<ItemV>, fresh: Seq<BaseV>)
    requires
        item_names_distinct(old_items),
        fresh_names_distinct(fresh),
    ensures
        item_names_distinct(spec_full_after(old_items, fresh)),
{
    let remain = spec_remain(old_items, fresh);
    let added = spec_added(fresh, remain);
    let full = spec_full_after(old_items, fresh);
    lemma_remain_distinct(old_items, fresh);
    lemma_added_distinct(fresh, remain);
    lemma_added_shape(fresh, remain);
    lemma_deselected_names(remain);
    let base = if added.len() > 0 {
        spec_deselected(remain)
    } else {
        remain
    };
    assert forall|a: int, b: int| 0 <= a < b < full.len() implies (#[trigger] full[a]).file_name
        != (#[trigger] full[b]).file_name by {
        if b < base.len() {
            assert(full[a] == base[a]);
            assert(full[b] == base[b]);
        } else if a >= base.len() {
            assert(full[a] == added[a - base.len()]);
            assert(full[b] == added[b - base.len()]);
        } else {
            assert(full[a] == base[a]);
            assert(full[b] == added[b - base.len()]);
            assert(full[a].file_name == remain[a].file_name);
            if full[a].file_name == full[b].file_name {
                assert(items_have_name(remain, full[b].file_name));
            }
        }
    }
}

/// In a list of distinct names, the first position of an entry's name is that
/// entry's own position.
proof fn lemma_first_name_pos_unique(items: Seq<ItemV>, i: int)
    requires
        item_names_distinct(items),
        0 <= i < items.len(),
    ensures
        first_name_pos(items, items[i].file_name) == Some(i),
{
    lemma_first_name_pos(items, items[i].file_name);
    match first_name_pos(items, items[i].file_name) {
        Some(p) => {
            if p != i {
                assert(items[p].file_name == items[i].file_name);
            }
        },
        None => {
            assert(false);
        },
    }
}

/// Entries that are fixed points of rebuilding pass through `spec_remain`
/// untouched.
proof fn lemma_remain_fixpoint(items: Seq<ItemV>, fresh: Seq<BaseV>)
    requires
        forall|k: int|
            0 <= k < items.len() ==> {
                let it = #[trigger] items[k];
                &&& fresh_has_name(fresh, it.file_name)
                &&& (first_base_pos(fresh, it.file_name) matches Some(p) && it == spec_rebuilt(
                    it,
                    fresh[p],
                ))
            },
    ensures
        spec_remain(items, fresh) == items,
    decreases items.len(),
{
    if items.len() > 0 {
        lemma_first_base_pos(fresh, items[0].file_name);
        assert forall|k: int| 0 <= k < items.skip(1).len() implies {
            let it = #[trigger] items.skip(1)[k];
            &&& fresh_has_name(fresh, it.file_name)
            &&& (first_base_pos(fresh, it.file_name) matches Some(p) && it == spec_rebuilt(
                it,
                fresh[p],
            ))
        } by {
            assert(items.skip(1)[k] == items[k + 1]);
        }
        lemma_remain_fixpoint(items.skip(1), fresh);
        let p = first_base_pos(fresh, items[0].file_name)->Some_0;
        assert(spec_remain(items, fresh) == seq![spec_rebuilt(items[0], fresh[p])] + items.skip(1));
        assert(spec_rebuilt(items[0], fresh[p]) == items[0]);
        assert(seq![items[0]] + items.skip(1) =~= items);
    }
}

/// Every entry of a reconciled full list is a fixed point of rebuilding,
/// provided the listing's names are distinct.
proof fn lemma_full_after_stable(old_items: Seq<ItemV>, fresh: Seq<BaseV>)
    requires
        fresh_names_distinct(fresh),
    ensures
        forall|k: int|
            0 <= k < spec_full_after(old_items, fresh).len() ==> {
                let it = #[trigger] spec_full_after(old_items, fresh)[k];
                &&& fresh_has_name(fresh, it.file_name)
                &&& (first_base_pos(fresh, it.file_name) matches Some(p) && it == spec_rebuilt(
                    it,
                    fresh[p],
                ))
            },
{
    let remain = spec_remain(old_items, fresh);
    let added = spec_added(fresh, remain);
    let full = spec_full_after(old_items, fresh);
    lemma_remain_shape(old_items, fresh);
    lemma_added_shape(fresh, remain);
    lemma_deselected_names(remain);
    let base = if added.len() > 0 {
        spec_deselected(remain)
    } else {
        remain
    };
    assert forall|k: int| 0 <= k < full.len() implies {
        let it = #[trigger] full[k];
        &&& fresh_has_name(fresh, it.file_name)
        &&& (first_base_pos(fresh, it.file_name) matches Some(p) && it == spec_rebuilt(
            it,
            fresh[p],
        ))
    } by {
        if k < base.len() {
            if added.len() > 0 {
                assert(full[k] == spec_with_selected(remain[k], false));
                let x = remain[k];
                let p = first_base_pos(fresh, x.file_name)->Some_0;
                assert(x == spec_rebuilt(x, fresh[p]));
                assert(spec_with_selected(x, false) == spec_rebuilt(
                    spec_with_selected(x, false),
                    fresh[p],
                ));
            } else {
                assert(full[k] == remain[k]);
            }
        } else {
            assert(full[k] == added[k - base.len()]);
            let it = added[k - base.len()];
            let p = first_base_pos(fresh, it.file_name)->Some_0;
            assert(it == spec_item_of_base(fresh[p], true));
            assert(it == spec_rebuilt(it, fresh[p]));
        }
    }
}

/// Reconciling twice against one unchanged fresh listing is reconciling once:
/// the second pass adds nothing, drops nothing, moves no selection, and (as
/// long as the first pass left the focus inside the filtered view, or the
/// view empty) keeps the focus where the first pass put it.
pub proof fn lemma_reconcile_idempotent(oldv: FullV, fresh: Seq<BaseV>, filter: FilterV)
    requires
        item_names_distinct(oldv.full),
        fresh_names_distinct(fresh),
        ({
            let s1 = spec_create(
                spec_full_after(oldv.full, fresh),
                spec_focus_after(oldv, fresh),
                filter,
            );
            s1.focus < s1.filtered.len() || s1.filtered.len() == 0
        }),
    ensures
        ({
            let s1 = spec_create(
                spec_full_after(oldv.full, fresh),
                spec_focus_after(oldv, fresh),
                filter,
            );
            let s2 = spec_create(
                spec_full_after(s1.full, fresh),
                spec_focus_after(s1, fresh),
                filter,
            );
            s2 == s1
        }),
{
    let full1 = spec_full_after(oldv.full, fresh);
    let f1 = spec_focus_after(oldv, fresh);
    let s1 = spec_create(full1, f1, filter);
    lemma_full_after_stable(oldv.full, fresh);
    lemma_remain_fixpoint(full1, fresh);
    assert(spec_remain(full1, fresh) == full1);
    assert forall|i: int| 0 <= i < fresh.len() implies items_have_name(
        full1,
        (#[trigger] fresh[i]).file_name,
    ) by {
        lemma_full_after_names(oldv.full, fresh, fresh[i].file_name);
        assert(fresh_has_name(fresh, fresh[i].file_name));
    }
    lemma_added_empty(fresh, full1);
    let added2 = spec_added(fresh, full1);
    let full2 = spec_full_after(full1, fresh);
    assert(full2 =~= full1) by {
        assert(full2 == full1 + added2);
        assert(added2.len() == 0);
    }
    assert(s1.full == full1);
    assert(s1.filtered == spec_rows(full1, filter, 0, full1.len() as int));
    let f2 = spec_focus_after(s1, fresh);
    let s2 = spec_create(full2, f2, filter);
    assert(s2.full == s1.full);
    assert(s2.filtered == s1.filtered);

    // Bounds of the first pass's full-list focus.
    assert(0 <= f1 <= full1.len()) by {
        let remain = spec_remain(oldv.full, fresh);
        let added = spec_added(fresh, remain);
        if added.len() > 0 {
            lemma_deselected_names(remain);
        } else {
            match spec_focus_name(oldv) {
                None => {},
                Some(f) => {
                    lemma_first_name_pos(remain, f);
                    match first_name_pos(remain, f) {
                        Some(p) => {},
                        None => {
                            lemma_survivor_count_bounds(oldv.full, fresh, f);
                        },
                    }
                },
            }
        }
    };

    if s1.filtered.len() == 0 {
        assert(s1.focus == 0) by {
            lemma_rows_concat(full1, filter, 0, f1, full1.len() as int);
        }
        assert(spec_focus_name(s1) is None);
        assert(f2 == 0);
        assert(s2.focus == 0) by {
            assert(spec_rows(full1, filter, 0, 0) =~= Seq::<crate::file_list::RowV>::empty());
        }
    } else {
        assert(0 <= s1.focus < s1.filtered.len());
        lemma_rows_shape(full1, filter, 0, full1.len() as int);
        let org = s1.filtered[s1.focus].org_idx;
        let f = full1[org].file_name;
        assert(spec_focus_name(s1) == Some(f));
        lemma_full_after_distinct(oldv.full, fresh);
        lemma_first_name_pos_unique(full1, org);
        assert(first_name_pos(full1, f) == Some(org));
        assert(f2 == org);
        lemma_row_index_count(full1, filter, full1.len() as int, s1.focus);
        assert(s2.focus == s1.focus);
    }
    assert(s2 == s1);
}

/// When the fresh listing is a strict superset of the old names, the second
/// snapshot's new entries become the sole selection: every reconciled entry
/// is selected exactly when its name is new, and the reconciled names are
/// exactly the listing's names.
pub proof fn lemma_reconcile_selects_new(old_items: Seq<ItemV>, fresh: Seq<BaseV>)
    requires
        forall|i: int|
            0 <= i < old_items.len() ==> fresh_has_name(
                fresh,
                (#[trigger] old_items[i]).file_name,
            ),
        exists|i: int|
            0 <= i < fresh.len() && !items_have_name(
                old_items,
                (#[trigger] fresh[i]).file_name,
            ),
    ensures
        forall|j: int|
            0 <= j < spec_full_after(old_items, fresh).len() ==> ((#[trigger] spec_full_after(
                old_items,
                fresh,
            )[j]).is_selected <==> !items_have_name(
                old_items,
                spec_full_after(old_items, fresh)[j].file_name,
            )),
        forall|n: Seq<char>|
            #[trigger] items_have_name(spec_full_after(old_items, fresh), n) <==> fresh_has_name(
                fresh,
                n,
            ),
{
    let remain = spec_remain(old_items, fresh);
    let added = spec_added(fresh, remain);
    let full = spec_full_after(old_items, fresh);
    lemma_remain_shape(old_items, fresh);
    lemma_added_shape(fresh, remain);
    lemma_deselected_names(remain);
    let i0 = choose|i: int|
        0 <= i < fresh.len() && !items_have_name(old_items, (#[trigger] fresh[i]).file_name);
    lemma_remain_names(old_items, fresh, fresh[i0].file_name);
    lemma_added_names(fresh, remain, fresh[i0].file_name);
    assert(fresh_has_name(fresh, fresh[i0].file_name));
    assert(items_have_name(added, fresh[i0].file_name));
    assert(added.len() > 0) by {
        let k = choose|k: int|
            0 <= k < added.len() && (#[trigger] added[k]).file_name == fresh[i0].file_name;
    }
    let base = spec_deselected(remain);
    assert(full == base + added);
    assert forall|j: int| 0 <= j < full.len() implies ((#[trigger] full[j]).is_selected
        <==> !items_have_name(old_items, full[j].file_name)) by {
        if j < base.len() {
            assert(full[j] == base[j]);
            assert(!full[j].is_selected);
            assert(full[j].file_name == remain[j].file_name);
            assert(items_have_name(old_items, remain[j].file_name));
        } else {
            assert(full[j] == added[j - base.len()]);
            assert(full[j].is_selected);
            let n = full[j].file_name;
            assert(!items_have_name(remain, n));
            lemma_remain_names(old_items, fresh, n);
            assert(fresh_has_name(fresh, n));
            if items_have_name(old_items, n) {
                assert(items_have_name(remain, n));
            }
        }
    }
    assert forall|n: Seq<char>| #[trigger]
        items_have_name(spec_full_after(old_items, fresh), n) <==> fresh_has_name(fresh, n) by {
        lemma_full_after_names(old_items, fresh, n);
    }
}

/// When nothing was added and the focused entry's name survives, the focus
/// still points at a row bearing that name after reconciliation.
pub proof fn lemma_reconcile_preserves_focus(oldv: FullV, fresh: Seq<BaseV>, filter: FilterV)
    requires
        list_wf(oldv),
        crate::file_list::view_consistent(oldv, filter),
        0 <= oldv.focus < oldv.filtered.len(),
        fresh_has_name(fresh, spec_focus_name(oldv)->Some_0),
        spec_added(fresh, spec_remain(oldv.full, fresh)).len() == 0,
    ensures
        ({
            let s1 = spec_create(
                spec_full_after(oldv.full, fresh),
                spec_focus_after(oldv, fresh),
                filter,
            );
            let f = spec_focus_name(oldv)->Some_0;
            &&& 0 <= s1.focus < s1.filtered.len()
            &&& s1.full[s1.filtered[s1.focus].org_idx].file_name == f
        }),
{
    let remain = spec_remain(oldv.full, fresh);
    let full1 = spec_full_after(oldv.full, fresh);
    let f = spec_focus_name(oldv)->Some_0;
    assert(full1 =~= remain) by {
        assert(full1 == remain + spec_added(fresh, remain));
    }

    // The focused entry's name is an old name, so it survives.
    let old_org = oldv.filtered[oldv.focus].org_idx;
    assert(oldv.full[old_org].file_name == f);
    assert(items_have_name(oldv.full, f));
    lemma_remain_names(oldv.full, fresh, f);
    assert(items_have_name(remain, f));
    lemma_first_name_pos(remain, f);
    let p = first_name_pos(remain, f)->Some_0;
    assert(first_name_pos(remain, f) is Some) by {
        if first_name_pos(remain, f) is None {
            let w = choose|w: int|
                0 <= w < remain.len() && (#[trigger] remain[w]).file_name == f;
            assert(false);
        }
    }
    assert(spec_focus_after(oldv, fresh) == p);
    assert(0 <= p < remain.len() && remain[p].file_name == f);

    // The name still matches the filter, so its row stands in the new view.
    assert(oldv.filtered == spec_rows(oldv.full, filter, 0, oldv.full.len() as int));
    lemma_rows_shape(oldv.full, filter, 0, oldv.full.len() as int);
    assert(spec_is_match(filter, f) == Some(oldv.filtered[oldv.focus].matched));
    assert(full1[p].file_name == f);
    lemma_rows_split_at(full1, filter, 0, full1.len() as int, p);
    let s1 = spec_create(full1, p, filter);
    let before = spec_rows(full1, filter, 0, p);
    assert(s1.focus == before.len());
    assert(s1.filtered == spec_rows(full1, filter, 0, full1.len() as int));
    assert(s1.filtered[before.len() as int].org_idx == p);
    assert(s1.focus < s1.filtered.len());
    assert(s1.full[s1.filtered[s1.focus].org_idx].file_name == f);
}

// ---------------------------------------------------------------------------
// The reconciliation itself.
// ---------------------------------------------------------------------------

/// Build the survivors: old entries whose names are still listed, rebuilt
/// with fresh metadata, keeping selection and icon.
fn build_remain(old_items: &Vec<FileListItem>, fresh: &Vec<FileBaseInfo>) -> (r: Vec<FileListItem>)
    ensures
        items_view(r@) == spec_remain(items_view(old_items@), bases_view(fresh@)),
{
    let ghost oldv = items_view(old_items@);
    let ghost freshv = bases_view(fresh@);
    let mut remain: Vec<FileListItem> = Vec::new();
    let mut i: usize = 0;
    let old_len = old_items.len();
    proof {
        assert(oldv.skip(0) =~= oldv);
        assert(items_view(remain@) + spec_remain(oldv, freshv) =~= spec_remain(oldv, freshv));
    }
    #[verifier::loop_isolation(false)]
    while i < old_len
        invariant
            i <= old_len == oldv.len(),
            spec_remain(oldv, freshv) == items_view(remain@) + spec_remain(
                oldv.skip(i as int),
                freshv,
            ),
        decreases old_len - i,
    {
        proof {
            assert(oldv.skip(i as int)[0] == oldv[i as int]);
            assert(oldv[i as int] == old_items@[i as int]@);
            assert(oldv.skip(i as int).skip(1) =~= oldv.skip(i + 1));
        }
        let ghost before = items_view(remain@);
        match position_of_base_name(fresh, &old_items[i].file_name) {
            None => {},
            Some(p) => {
                proof {
                    lemma_first_base_pos(freshv, oldv[i as int].file_name);
                }
                let mut new_item = FileListItem::new(&fresh[p], old_items[i].is_selected);
                new_item.file_icon = crate::file_list::clone_opt_string(&old_items[i].file_icon);
                proof {
                    assert(freshv[p as int] == fresh@[p as int]@);
                    assert(new_item@ =~= spec_rebuilt(oldv[i as int], freshv[p as int]));
                }
                remain.push(new_item);
                proof {
                    assert(items_view(remain@) =~= before.push(remain@.last()@));
                    assert(before + (seq![spec_rebuilt(oldv[i as int], freshv[p as int])]
                        + spec_remain(oldv.skip(i + 1), freshv)) =~= items_view(remain@)
                        + spec_remain(oldv.skip(i + 1), freshv));
                }
            },
        }
        i = i + 1;
    }
    proof {
        assert(oldv.skip(old_len as int) =~= Seq::<ItemV>::empty());
        assert(items_view(remain@) + Seq::<ItemV>::empty() =~= items_view(remain@));
    }
    remain
}

/// Build the new arrivals: fresh records not among the survivors, selected.
fn build_added(fresh: &Vec<FileBaseInfo>, remain: &Vec<FileListItem>) -> (r: Vec<FileListItem>)
    ensures
        items_view(r@) == spec_added(bases_view(fresh@), items_view(remain@)),
{
    let ghost freshv = bases_view(fresh@);
    let ghost remainv = items_view(remain@);
    let mut added: Vec<FileListItem> = Vec::new();
    let mut j: usize = 0;
    let fresh_len = fresh.len();
    proof {
        assert(freshv.skip(0) =~= freshv);
        assert(items_view(added@) + spec_added(freshv, remainv) =~= spec_added(freshv, remainv));
    }
    #[verifier::loop_isolation(false)]
    while j < fresh_len
        invariant
            j <= fresh_len == freshv.len(),
            spec_added(freshv, remainv) == items_view(added@) + spec_added(
                freshv.skip(j as int),
                remainv,
            ),
        decreases fresh_len - j,
    {
        proof {
            assert(freshv.skip(j as int)[0] == freshv[j as int]);
            assert(freshv[j as int] == fresh@[j as int]@);
            assert(freshv.skip(j as int).skip(1) =~= freshv.skip(j + 1));
            lemma_first_name_pos(remainv, freshv[j as int].file_name);
        }
        let ghost before = items_view(added@);
        match crate::file_list::position_of_name(remain, &fresh[j].file_name) {
            Some(_) => {
                proof {
                    assert(items_have_name(remainv, freshv[j as int].file_name));
                }
            },
            None => {
                proof {
                    if items_have_name(remainv, freshv[j as int].file_name) {
                        let w = choose|w: int|
                            0 <= w < remainv.len() && (#[trigger] remainv[w]).file_name == freshv[
                                j as int
                            ].file_name;
                        assert(false);
                    }
                }
                added.push(FileListItem::new(&fresh[j], true));
                proof {
                    assert(items_view(added@) =~= before.push(added@.last()@));
                    assert(before + (seq![spec_item_of_base(freshv[j as int], true)] + spec_added(
                        freshv.skip(j + 1),
                        remainv,
                    )) =~= items_view(added@) + spec_added(freshv.skip(j + 1), remainv));
                }
            },
        }
        j = j + 1;
    }
    proof {
        assert(freshv.skip(fresh_len as int) =~= Seq::<BaseV>::empty());
        assert(items_view(added@) + Seq::<ItemV>::empty() =~= items_view(added@));
    }
    added
}

/// Clear every selection flag.
fn deselect_all(items: &mut Vec<FileListItem>)
    ensures
        items_view(final(items)@) == spec_deselected(items_view(old(items)@)),
{
    let ghost origv = items_view(items@);
    let mut w: usize = 0;
    let len = items.len();
    #[verifier::loop_isolation(false)]
    while w < len
        invariant
            w <= len == origv.len(),
            items@.len() == origv.len(),
            forall|q: int|
                0 <= q < w ==> #[trigger] items_view(items@)[q] == spec_deselected(origv)[q],
            forall|q: int| w <= q < origv.len() ==> #[trigger] items_view(items@)[q] == origv[q],
        decreases len - w,
    {
        let ghost before = items_view(items@);
        items[w].is_selected = false;
        proof {
            assert(items_view(items@) =~= before.update(
                w as int,
                spec_with_selected(before[w as int], false),
            ));
            assert(spec_deselected(origv)[w as int] == spec_with_selected(origv[w as int], false));
        }
        w = w + 1;
    }
    proof {
        assert(items_view(items@) =~= spec_deselected(origv));
    }
}

/// Count the surviving entries before the first one named `f`.
fn count_survivors_before(
    old_items: &Vec<FileListItem>,
    fresh: &Vec<FileBaseInfo>,
    f: &String,
) -> (r: usize)
    ensures
        r == spec_survivor_count(items_view(old_items@), bases_view(fresh@), f@),
        r <= spec_remain(items_view(old_items@), bases_view(fresh@)).len(),
{
    let ghost oldv = items_view(old_items@);
    let ghost freshv = bases_view(fresh@);
    let ghost fv = f@;
    let old_len = old_items.len();
    let mut count: usize = 0;
    let mut q: usize = 0;
    let limit = match crate::file_list::position_of_name(old_items, f) {
        Some(stop) => stop,
        None => old_len,
    };
    proof {
        lemma_first_name_pos(oldv, fv);
        assert(oldv.skip(0) =~= oldv);
        lemma_survivor_count_bounds(oldv, freshv, fv);
    }
    let ghost remain_bound = spec_remain(oldv, freshv).len();
    #[verifier::loop_isolation(false)]
    while q < limit
        invariant
            q <= limit <= old_len == oldv.len(),
            count <= q,
            count <= remain_bound,
            forall|w: int| 0 <= w < limit ==> (#[trigger] oldv[w]).file_name != fv,
            limit < old_len ==> oldv[limit as int].file_name == fv,
            spec_survivor_count(oldv, freshv, fv) == count + spec_survivor_count(
                oldv.skip(q as int),
                freshv,
                fv,
            ),
        decreases limit - q,
    {
        proof {
            assert(oldv.skip(q as int)[0] == oldv[q as int]);
            assert(oldv[q as int] == old_items@[q as int]@);
            assert(oldv.skip(q as int).skip(1) =~= oldv.skip(q + 1));
            lemma_first_base_pos(freshv, oldv[q as int].file_name);
            lemma_survivor_count_bounds(oldv.skip(q + 1), freshv, fv);
        }
        match position_of_base_name(fresh, &old_items[q].file_name) {
            Some(_) => {
                proof {
                    assert(fresh_has_name(freshv, oldv[q as int].file_name));
                    assert(count + 1 + spec_survivor_count(oldv.skip(q + 1), freshv, fv)
                        <= remain_bound);
                }
                count = count + 1;
            },
            None => {
                proof {
                    if fresh_has_name(freshv, oldv[q as int].file_name) {
                        let w = choose|w: int|
                            0 <= w < freshv.len() && (#[trigger] freshv[w]).file_name == oldv[
                                q as int
                            ].file_name;
                        assert(false);
                    }
                }
            },
        }
        q = q + 1;
    }
    proof {
        if limit < old_len {
            assert(oldv.skip(limit as int)[0] == oldv[limit as int]);
            assert(spec_survivor_count(oldv.skip(limit as int), freshv, fv) == 0);
        } else {
            assert(oldv.skip(old_len as int) =~= Seq::<ItemV>::empty());
        }
    }
    count
}

/// How a pane relates to its former state after one reconciliation against
/// `fresh` (`None` when the listing could not be read): everything but the
/// listing state is untouched; a first listing becomes the initial state; a
/// failed listing clears the state; and an existing state is merged.
pub open spec fn spec_reconciled(oldp: PaneV, fresh: Option<Seq<BaseV>>, newp: PaneV) -> bool {
    &&& newp.filter == oldp.filter
    &&& newp.dirctry_path == oldp.dirctry_path
    &&& newp.viewing_start == oldp.viewing_start
    &&& newp.viewing_end == oldp.viewing_end
    &&& match (oldp.file_list_info, fresh) {
        (None, None) => newp.file_list_info is None,
        (None, Some(l)) => newp.file_list_info matches Some(newv) && {
            &&& newv.full == l.map_values(|b: BaseV| spec_item_of_base(b, false))
            &&& newv.filtered == spec_initial_rows(newv.full.len() as int)
            &&& newv.focus == 0
        },
        (Some(_), None) => newp.file_list_info is None,
        (Some(oldv), Some(l)) => newp.file_list_info == Some(
            spec_create(spec_full_after(oldv.full, l), spec_focus_after(oldv, l), oldp.filter),
        ),
    }
}

/// Merge a fresh listing into the pane. With no listing state yet, the fresh
/// listing is taken as the initial state (unfiltered, unselected, focus at
/// the top). When the listing failed, the state is cleared rather than left
/// stale. Otherwise survivors keep order, selection and icon; new entries are
/// appended, selected, and draw the focus; and the filtered view is rebuilt
/// from the new list and the active filter, split at the new focus so that
/// the focus lands on the count of matches before it.
#[verifier::rlimit(100)]
pub fn update_file_name_list(pane_info: &mut PaneInfo, fresh_list: Option<Vec<FileBaseInfo>>)
    requires
        pane_wf(old(pane_info)@),
    ensures
        pane_wf(final(pane_info)@),
        spec_reconciled(
            old(pane_info)@,
            match fresh_list {
                None => None,
                Some(l) => Some(bases_view(l@)),
            },
            final(pane_info)@,
        ),
{
    let file_list_info = match pane_info.file_list_info.take() {
        None => {
            match fresh_list {
                None => {
                    return;
                },
                Some(l) => {
                    pane_info.file_list_info = Some(FileListFullInfo::new(l, None));
                    return;
                },
            }
        },
        Some(l) => l,
    };
    let fresh = match fresh_list {
        None => {
            return;
        },
        Some(l) => l,
    };
    let ghost oldv = file_list_info@;
    let ghost freshv = bases_view(fresh@);
    proof {
        assert(list_wf(oldv));
    }
    let org_focus_file_name = file_list_info.focus_file_name();
    let old_items = &file_list_info.full_item_list;

    let mut remain = build_remain(old_items, &fresh);
    let ghost remainv = spec_remain(oldv.full, freshv);
    let mut added = build_added(&fresh, &remain);
    let ghost addedv = spec_added(freshv, remainv);

    // New arrivals draw attention: they become the sole selection.
    let added_len = added.len();
    let remain_len = remain.len();
    if added_len > 0 {
        deselect_all(&mut remain);
    }

    // The new focus, over the full list.
    let full_focus_idx: usize = if added_len > 0 {
        remain_len
    } else {
        match &org_focus_file_name {
            None => 0,
            Some(f) => {
                match crate::file_list::position_of_name(&remain, f) {
                    Some(p) => {
                        proof {
                            lemma_first_name_pos(remainv, f@);
                        }
                        p
                    },
                    None => {
                        proof {
                            lemma_first_name_pos(remainv, f@);
                        }
                        count_survivors_before(old_items, &fresh, f)
                    },
                }
            },
        }
    };

    let mut full_item_list = remain;
    full_item_list.append(&mut added);
    proof {
        assert(items_view(full_item_list@) =~= (if addedv.len() > 0 {
            spec_deselected(remainv)
        } else {
            remainv
        }) + addedv);
        assert(items_view(full_item_list@) == spec_full_after(oldv.full, freshv));
        assert(full_focus_idx as int == spec_focus_after(oldv, freshv));
        assert(full_focus_idx <= full_item_list@.len());
    }
    let new_list = FileListFullInfo::create(full_item_list, full_focus_idx, &pane_info.filter);
    proof {
        assert(new_list@ == spec_create(
            spec_full_after(oldv.full, freshv),
            spec_focus_after(oldv, freshv),
            pane_info.filter@,
        ));
    }
    pane_info.file_list_info = Some(new_list);
}

} // verus!
