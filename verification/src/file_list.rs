//! The per-pane entry list: entries built from directory-listing records,
//! the filtered view that refers back into the full list by index, and the
//! snapshots handed to the UI.

use vstd::prelude::*;
use vstd::string::*;

use crate::filter_info::{spec_is_match, FilterInfo, FilterV};

verus! {

// ---------------------------------------------------------------------------
// Listing records.
// ---------------------------------------------------------------------------

/// A directory-listing record, as the listing provider hands it over:
/// the name plus the plain metadata values the engine reads.
#[derive(Debug)]
pub struct FileBaseInfo {
    pub file_name: String,
    pub metadata_size: Option<u64>,
    pub is_directory: bool,
    pub date: Option<String>,
    pub is_system_file: bool,
}

/// Mathematical image of a [`FileBaseInfo`].
#[verifier::ext_equal]
pub struct BaseV {
    pub file_name: Seq<char>,
    pub metadata_size: Option<u64>,
    pub is_directory: bool,
    pub date: Option<Seq<char>>,
    pub is_system_file: bool,
}

/// Mathematical image of an optional string.
pub open spec fn opt_str_view(o: Option<String>) -> Option<Seq<char>> {
    match o {
        None => None,
        Some(s) => Some(s@),
    }
}

impl View for FileBaseInfo {
    type V = BaseV;

    open spec fn view(&self) -> BaseV {
        BaseV {
            file_name: self.file_name@,
            metadata_size: self.metadata_size,
            is_directory: self.is_directory,
            date: opt_str_view(self.date),
            is_system_file: self.is_system_file,
        }
    }
}

/// Position of the last `.` in a name, if any.
pub open spec fn last_dot(name: Seq<char>) -> Option<int>
    decreases name.len(),
{
    if name.len() == 0 {
        None
    } else if name.last() == '.' {
        Some(name.len() - 1)
    } else {
        last_dot(name.drop_last())
    }
}

/// The raw extension of a file name: what follows the final dot, and nothing
/// when there is no dot or the only dot leads the name.
pub open spec fn spec_raw_extension(name: Seq<char>) -> Seq<char> {
    match last_dot(name) {
        None => Seq::empty(),
        Some(d) => if d == 0 {
            Seq::empty()
        } else {
            name.skip(d + 1)
        },
    }
}

/// The extension column of an entry: directories show "folder", names
/// without an extension show "-".
pub open spec fn spec_extension_column(name: Seq<char>, is_directory: bool) -> Seq<char> {
    if is_directory {
        "folder"@
    } else if spec_raw_extension(name).len() == 0 {
        "-"@
    } else {
        spec_raw_extension(name)
    }
}

impl FileBaseInfo {
    /// Size shown for the entry: directories show none.
    pub fn file_size(&self) -> (r: Option<u64>)
        ensures
            r == spec_entry_size(self@),
    {
        if self.is_directory {
            None
        } else {
            self.metadata_size
        }
    }

    /// Whether the entry is a directory.
    pub fn is_directory(&self) -> (r: bool)
        ensures
            r == self@.is_directory,
    {
        self.is_directory
    }

    /// The modification date string, when the provider had one.
    pub fn date(&self) -> (r: Option<String>)
        ensures
            opt_str_view(r) == self@.date,
    {
        match &self.date {
            None => None,
            Some(d) => Some(d.clone()),
        }
    }

    /// The extension column for this entry.
    pub fn file_extension(&self) -> (r: String)
        ensures
            r@ == spec_extension_column(self@.file_name, self@.is_directory),
    {
        if self.is_directory {
            return String::from_str("folder");
        }
        let name = self.file_name.as_str();
        let n = name.unicode_len();
        let mut dot: Option<usize> = None;
        let mut i: usize = 0;
        #[verifier::loop_isolation(false)]
        while i < n
            invariant
                i <= n,
                n == name@.len(),
                match dot {
                    None => last_dot(name@.take(i as int)) is None,
                    Some(d) => d < i && last_dot(name@.take(i as int)) == Some(d as int),
                },
            decreases n - i,
        {
            proof {
                assert(name@.take(i + 1).drop_last() =~= name@.take(i as int));
                assert(name@.take(i + 1).last() == name@[i as int]);
            }
            if name.get_char(i) == '.' {
                dot = Some(i);
            }
            i = i + 1;
        }
        proof {
            assert(name@.take(n as int) =~= name@);
        }
        match dot {
            None => String::from_str("-"),
            Some(d) => {
                if d == 0 {
                    String::from_str("-")
                } else {
                    let ext = name.substring_char(d + 1, n).to_owned();
                    if ext.as_str().unicode_len() == 0 {
                        String::from_str("-")
                    } else {
                        ext
                    }
                }
            },
        }
    }
}

/// Size shown for an entry: directories show none.
pub open spec fn spec_entry_size(b: BaseV) -> Option<u64> {
    if b.is_directory {
        None
    } else {
        b.metadata_size
    }
}

// ---------------------------------------------------------------------------
// Entries of the full list.
// ---------------------------------------------------------------------------

/// One row of the full entry list of a pane.
#[derive(Debug)]
pub struct FileListItem {
    pub is_selected: bool,
    pub file_name: String,
    pub file_extension: String,
    pub file_size: Option<u64>,
    pub is_directory: bool,
    pub file_icon: Option<String>,
    pub date: Option<String>,
}

/// Mathematical image of a [`FileListItem`].
#[verifier::ext_equal]
pub struct ItemV {
    pub is_selected: bool,
    pub file_name: Seq<char>,
    pub file_extension: Seq<char>,
    pub file_size: Option<u64>,
    pub is_directory: bool,
    pub file_icon: Option<Seq<char>>,
    pub date: Option<Seq<char>>,
}

impl View for FileListItem {
    type V = ItemV;

    open spec fn view(&self) -> ItemV {
        ItemV {
            is_selected: self.is_selected,
            file_name: self.file_name@,
            file_extension: self.file_extension@,
            file_size: self.file_size,
            is_directory: self.is_directory,
            file_icon: opt_str_view(self.file_icon),
            date: opt_str_view(self.date),
        }
    }
}

/// The entry a listing record turns into: fresh metadata, no icon yet.
pub open spec fn spec_item_of_base(b: BaseV, is_selected: bool) -> ItemV {
    ItemV {
        is_selected,
        file_name: b.file_name,
        file_extension: spec_extension_column(b.file_name, b.is_directory),
        file_size: spec_entry_size(b),
        is_directory: b.is_directory,
        file_icon: None,
        date: b.date,
    }
}

pub fn clone_opt_string(o: &Option<String>) -> (r: Option<String>)
    ensures
        opt_str_view(r) == opt_str_view(*o),
{
    match o {
        None => None,
        Some(s) => Some(s.clone()),
    }
}

impl FileListItem {
    /// Build the entry for one listing record.
    pub fn new(base_info: &FileBaseInfo, is_selected: bool) -> (r: Self)
        ensures
            r@ == spec_item_of_base(base_info@, is_selected),
    {
        let r = FileListItem {
            is_selected,
            file_name: base_info.file_name.clone(),
            file_extension: base_info.file_extension(),
            file_size: base_info.file_size(),
            is_directory: base_info.is_directory,
            file_icon: None,
            date: base_info.date(),
        };
        r
    }

    /// A field-for-field copy of the entry.
    pub fn duplicate(&self) -> (r: Self)
        ensures
            r@ == self@,
    {
        FileListItem {
            is_selected: self.is_selected,
            file_name: self.file_name.clone(),
            file_extension: self.file_extension.clone(),
            file_size: self.file_size,
            is_directory: self.is_directory,
            file_icon: clone_opt_string(&self.file_icon),
            date: clone_opt_string(&self.date),
        }
    }
}

/// The views of a vector of entries.
pub open spec fn items_view(items: Seq<FileListItem>) -> Seq<ItemV> {
    items.map_values(|it: FileListItem| it@)
}

/// The views of a vector of listing records.
pub open spec fn bases_view(items: Seq<FileBaseInfo>) -> Seq<BaseV> {
    items.map_values(|b: FileBaseInfo| b@)
}

// ---------------------------------------------------------------------------
// The filtered view.
// ---------------------------------------------------------------------------

/// One row of the filtered view: an index into the full list plus the
/// matched character positions of its name. It never owns an entry.
#[derive(Debug)]
pub struct FilterdFileInfo {
    pub org_idx: usize,
    pub matched_file_name_idx: Vec<usize>,
}

/// Mathematical image of a [`FilterdFileInfo`].
#[verifier::ext_equal]
pub struct RowV {
    pub org_idx: int,
    pub matched: Seq<int>,
}

impl View for FilterdFileInfo {
    type V = RowV;

    open spec fn view(&self) -> RowV {
        RowV {
            org_idx: self.org_idx as int,
            matched: self.matched_file_name_idx@.map_values(|u: usize| u as int),
        }
    }
}

/// The views of a vector of filtered rows.
pub open spec fn rows_view(rows: Seq<FilterdFileInfo>) -> Seq<RowV> {
    rows.map_values(|r: FilterdFileInfo| r@)
}

/// The filtered rows over `full[lo..hi]`: one row per entry whose name the
/// filter matches, in index order, carrying the matched positions.
pub open spec fn spec_rows(full: Seq<ItemV>, filter: FilterV, lo: int, hi: int) -> Seq<RowV>
    decreases hi - lo,
{
    if lo >= hi || lo < 0 || hi > full.len() {
        Seq::empty()
    } else {
        let tail = spec_rows(full, filter, lo + 1, hi);
        match spec_is_match(filter, full[lo].file_name) {
            None => tail,
            Some(m) => seq![RowV { org_idx: lo, matched: m }] + tail,
        }
    }
}

/// Filtering a range is filtering its halves, one after the other.
pub proof fn lemma_rows_concat(full: Seq<ItemV>, filter: FilterV, lo: int, mid: int, hi: int)
    requires
        0 <= lo <= mid <= hi <= full.len(),
    ensures
        spec_rows(full, filter, lo, hi) == spec_rows(full, filter, lo, mid) + spec_rows(
            full,
            filter,
            mid,
            hi,
        ),
    decreases mid - lo,
{
    if lo == mid {
        assert(spec_rows(full, filter, lo, mid) + spec_rows(full, filter, mid, hi) =~= spec_rows(
            full,
            filter,
            mid,
            hi,
        ));
    } else {
        lemma_rows_concat(full, filter, lo + 1, mid, hi);
        match spec_is_match(filter, full[lo].file_name) {
            None => {},
            Some(m) => {
                assert(seq![RowV { org_idx: lo, matched: m }] + (spec_rows(full, filter, lo + 1, mid)
                    + spec_rows(full, filter, mid, hi)) =~= (seq![RowV { org_idx: lo, matched: m }]
                    + spec_rows(full, filter, lo + 1, mid)) + spec_rows(full, filter, mid, hi));
            },
        }
    }
}

/// Every filtered row points into `[lo, hi)`, the rows come in strictly
/// increasing index order, and each row carries exactly what the filter
/// answered for its entry's name.
pub proof fn lemma_rows_shape(full: Seq<ItemV>, filter: FilterV, lo: int, hi: int)
    requires
        0 <= lo <= hi <= full.len(),
    ensures
        forall|k: int|
            0 <= k < spec_rows(full, filter, lo, hi).len() ==> {
                let row = #[trigger] spec_rows(full, filter, lo, hi)[k];
                &&& lo <= row.org_idx < hi
                &&& spec_is_match(filter, full[row.org_idx].file_name) == Some(row.matched)
            },
        forall|k: int|
            0 < k < spec_rows(full, filter, lo, hi).len() ==> spec_rows(full, filter, lo, hi)[k
                - 1].org_idx < #[trigger] spec_rows(full, filter, lo, hi)[k].org_idx,
    decreases hi - lo,
{
    if lo < hi {
        lemma_rows_shape(full, filter, lo + 1, hi);
    }
}

/// The row of a matching entry stands in the filtered view exactly where the
/// count of earlier matches puts it.
pub proof fn lemma_rows_split_at(full: Seq<ItemV>, filter: FilterV, lo: int, hi: int, j: int)
    requires
        0 <= lo <= j < hi <= full.len(),
        spec_is_match(filter, full[j].file_name) is Some,
    ensures
        spec_rows(full, filter, lo, hi) == spec_rows(full, filter, lo, j) + seq![
            RowV {
                org_idx: j,
                matched: spec_is_match(filter, full[j].file_name)->Some_0,
            },
        ] + spec_rows(full, filter, j + 1, hi),
{
    lemma_rows_concat(full, filter, lo, j, hi);
    assert(spec_rows(full, filter, j, hi) == seq![
        RowV { org_idx: j, matched: spec_is_match(filter, full[j].file_name)->Some_0 },
    ] + spec_rows(full, filter, j + 1, hi));
}

/// Filtered rows come in strictly increasing index order, pairwise.
pub proof fn lemma_rows_org_monotone(
    full: Seq<ItemV>,
    filter: FilterV,
    lo: int,
    hi: int,
    i: int,
    j: int,
)
    requires
        0 <= lo <= hi <= full.len(),
        0 <= i < j < spec_rows(full, filter, lo, hi).len(),
    ensures
        spec_rows(full, filter, lo, hi)[i].org_idx < spec_rows(full, filter, lo, hi)[j].org_idx,
    decreases j - i,
{
    lemma_rows_shape(full, filter, lo, hi);
    if i + 1 < j {
        lemma_rows_org_monotone(full, filter, lo, hi, i, j - 1);
    }
}

/// A filtered row stands exactly at the count of matches before its entry.
pub proof fn lemma_row_index_count(full: Seq<ItemV>, filter: FilterV, n: int, k: int)
    requires
        0 <= n <= full.len(),
        0 <= k < spec_rows(full, filter, 0, n).len(),
    ensures
        ({
            let o = spec_rows(full, filter, 0, n)[k].org_idx;
            spec_rows(full, filter, 0, o).len() == k
        }),
{
    let rows = spec_rows(full, filter, 0, n);
    lemma_rows_shape(full, filter, 0, n);
    let o = rows[k].org_idx;
    assert(spec_is_match(filter, full[o].file_name) == Some(rows[k].matched));
    lemma_rows_split_at(full, filter, 0, n, o);
    let before = spec_rows(full, filter, 0, o);
    assert(rows[before.len() as int].org_idx == o);
    if k < before.len() {
        lemma_rows_org_monotone(full, filter, 0, n, k, before.len() as int);
        assert(false);
    }
    if k > before.len() {
        lemma_rows_org_monotone(full, filter, 0, n, before.len() as int, k);
        assert(false);
    }
}

/// Build the filtered rows for `full_item_list[range_start..range_end]` by
/// running the filter on each entry's name.
pub fn to_filtered_item_info(
    range_start: usize,
    range_end: usize,
    full_item_list: &Vec<FileListItem>,
    filter: &FilterInfo,
) -> (r: Vec<FilterdFileInfo>)
    requires
        range_start <= range_end <= full_item_list@.len(),
    ensures
        rows_view(r@) == spec_rows(
            items_view(full_item_list@),
            filter@,
            range_start as int,
            range_end as int,
        ),
{
    let ghost full = items_view(full_item_list@);
    let mut r: Vec<FilterdFileInfo> = Vec::new();
    let mut idx = range_start;
    proof {
        lemma_rows_concat(full, filter@, range_start as int, range_start as int, range_end as int);
        assert(rows_view(r@) =~= Seq::<RowV>::empty());
    }
    #[verifier::loop_isolation(false)]
    while idx < range_end
        invariant
            range_start <= idx <= range_end,
            spec_rows(full, filter@, range_start as int, range_end as int) == rows_view(r@)
                + spec_rows(full, filter@, idx as int, range_end as int),
        decreases range_end - idx,
    {
        let match_result = filter.is_match(&full_item_list[idx].file_name);
        let ghost r0 = rows_view(r@);
        match match_result {
            None => {},
            Some(matched_file_name_idx) => {
                let row = FilterdFileInfo { org_idx: idx, matched_file_name_idx };
                proof {
                    assert(spec_is_match(filter@, full[idx as int].file_name) == Some(row@.matched));
                }
                r.push(row);
                proof {
                    assert(rows_view(r@) =~= r0 + seq![r@.last()@]);
                }
            },
        }
        proof {
            let step = spec_rows(full, filter@, idx as int, range_end as int);
            let next = spec_rows(full, filter@, idx + 1, range_end as int);
            match spec_is_match(filter@, full[idx as int].file_name) {
                None => {
                    assert(rows_view(r@) + next =~= r0 + step);
                },
                Some(m) => {
                    assert(rows_view(r@) + next =~= r0 + (seq![
                        RowV { org_idx: idx as int, matched: m },
                    ] + next));
                },
            }
        }
        idx = idx + 1;
    }
    r
}

// ---------------------------------------------------------------------------
// The full per-pane list with its filtered view and focus.
// ---------------------------------------------------------------------------

/// All entries of a pane's directory, the filtered view over them, and the
/// focus position within the filtered view.
#[derive(Debug)]
pub struct FileListFullInfo {
    pub full_item_list: Vec<FileListItem>,
    pub filtered_item_info: Vec<FilterdFileInfo>,
    pub focus_idx: usize,
}

/// Mathematical image of a [`FileListFullInfo`].
#[verifier::ext_equal]
pub struct FullV {
    pub full: Seq<ItemV>,
    pub filtered: Seq<RowV>,
    pub focus: int,
}

impl View for FileListFullInfo {
    type V = FullV;

    open spec fn view(&self) -> FullV {
        FullV {
            full: items_view(self.full_item_list@),
            filtered: rows_view(self.filtered_item_info@),
            focus: self.focus_idx as int,
        }
    }
}

/// Structural soundness of a list state: every filtered row points into the
/// full list, and rows come in strictly increasing index order.
pub open spec fn list_wf(v: FullV) -> bool {
    &&& forall|i: int|
        0 <= i < v.filtered.len() ==> 0 <= (#[trigger] v.filtered[i]).org_idx < v.full.len()
    &&& forall|i: int|
        0 < i < v.filtered.len() ==> v.filtered[i - 1].org_idx < (#[trigger] v.filtered[i]).org_idx
}

/// The filtered view belongs to the full list and the active filter: it holds
/// exactly the matching entries, in order, with their matched positions.
pub open spec fn view_consistent(v: FullV, filter: FilterV) -> bool {
    v.filtered == spec_rows(v.full, filter, 0, v.full.len() as int)
}

/// The state `create` builds: the given entries, their filtered view, and the
/// focus at the count of matches before the given full-list position.
pub open spec fn spec_create(full: Seq<ItemV>, full_focus: int, filter: FilterV) -> FullV {
    FullV {
        full,
        filtered: spec_rows(full, filter, 0, full.len() as int),
        focus: spec_rows(full, filter, 0, full_focus).len() as int,
    }
}

/// The state a fresh listing turns into before any filtering: every entry
/// visible, unranked, unselected.
pub open spec fn spec_initial_rows(n: int) -> Seq<RowV> {
    Seq::new(n as nat, |i: int| RowV { org_idx: i, matched: Seq::empty() })
}

/// First position of a name in a list of entries.
pub open spec fn first_name_pos(items: Seq<ItemV>, name: Seq<char>) -> Option<int>
    decreases items.len(),
{
    if items.len() == 0 {
        None
    } else if items[0].file_name == name {
        Some(0)
    } else {
        match first_name_pos(items.skip(1), name) {
            Some(i) => Some(i + 1),
            None => None,
        }
    }
}

/// What `first_name_pos` answers is the least position bearing the name.
pub proof fn lemma_first_name_pos(items: Seq<ItemV>, name: Seq<char>)
    ensures
        match first_name_pos(items, name) {
            Some(i) => 0 <= i < items.len() && items[i].file_name == name && forall|j: int|
                0 <= j < i ==> (#[trigger] items[j]).file_name != name,
            None => forall|j: int| 0 <= j < items.len() ==> (#[trigger] items[j]).file_name != name,
        },
    decreases items.len(),
{
    if items.len() > 0 {
        lemma_first_name_pos(items.skip(1), name);
        if items[0].file_name != name {
            match first_name_pos(items.skip(1), name) {
                Some(i) => {
                    assert(items.skip(1)[i] == items[i + 1]);
                    assert forall|j: int| 0 <= j < i + 1 implies (#[trigger] items[j]).file_name
                        != name by {
                        if j > 0 {
                            assert(items.skip(1)[j - 1] == items[j]);
                        }
                    }
                },
                None => {
                    assert forall|j: int| 0 <= j < items.len() implies (#[trigger] items[j]).file_name
                        != name by {
                        if j > 0 {
                            assert(items.skip(1)[j - 1] == items[j]);
                        }
                    }
                },
            }
        }
    }
}

/// Find the first entry with the given name.
pub fn position_of_name(items: &Vec<FileListItem>, name: &String) -> (r: Option<usize>)
    ensures
        match r {
            Some(i) => first_name_pos(items_view(items@), name@) == Some(i as int),
            None => first_name_pos(items_view(items@), name@) is None,
        },
{
    let ghost iv = items_view(items@);
    proof {
        lemma_first_name_pos(iv, name@);
    }
    let mut i: usize = 0;
    #[verifier::loop_isolation(false)]
    while i < items.len()
        invariant
            i <= iv.len(),
            forall|j: int| 0 <= j < i ==> (#[trigger] iv[j]).file_name != name@,
        decreases iv.len() - i,
    {
        if items[i].file_name == *name {
            proof {
                assert(iv[i as int] == items@[i as int]@);
                assert(iv[i as int].file_name == name@);
                if let Some(p) = first_name_pos(iv, name@) {
                    assert(p == i as int);
                } else {
                    assert(false);
                }
            }
            return Some(i);
        }
        proof {
            assert(iv[i as int] == items@[i as int]@);
        }
        i = i + 1;
    }
    None
}

/// The entries a fresh listing turns into: listing order, unselected, no
/// icons yet.
pub fn items_of_listing(file_list: Vec<FileBaseInfo>) -> (r: Vec<FileListItem>)
    ensures
        items_view(r@) == bases_view(file_list@).map_values(|b: BaseV| spec_item_of_base(b, false)),
{
    let mut items: Vec<FileListItem> = Vec::new();
    let mut i: usize = 0;
    #[verifier::loop_isolation(false)]
    while i < file_list.len()
        invariant
            i <= file_list@.len(),
            items_view(items@) =~= bases_view(file_list@.take(i as int)).map_values(
                |b: BaseV| spec_item_of_base(b, false),
            ),
        decreases file_list@.len() - i,
    {
        let ghost before = items_view(items@);
        items.push(FileListItem::new(&file_list[i], false));
        proof {
            assert(items_view(items@) =~= before + seq![items@.last()@]);
            assert(bases_view(file_list@.take(i + 1)) =~= bases_view(file_list@.take(i as int))
                + seq![file_list@[i as int]@]);
            assert(items_view(items@) =~= bases_view(file_list@.take(i + 1)).map_values(
                |b: BaseV| spec_item_of_base(b, false),
            ));
        }
        i = i + 1;
    }
    proof {
        assert(file_list@.take(file_list@.len() as int) =~= file_list@);
    }
    items
}

impl FileListFullInfo {
    /// The state a fresh listing of a just-entered directory turns into:
    /// entries in listing order, unselected and without icons, every entry
    /// visible and unranked, focus at the entry named by `initial_focus` when
    /// present, else at the top.
    pub fn new(file_list: Vec<FileBaseInfo>, initial_focus: Option<String>) -> (r:
        FileListFullInfo)
        ensures
            r@.full == bases_view(file_list@).map_values(|b: BaseV| spec_item_of_base(b, false)),
            r@.filtered == spec_initial_rows(r@.full.len() as int),
            r@.focus == match initial_focus {
                Some(f) => match first_name_pos(r@.full, f@) {
                    Some(p) => p,
                    None => 0,
                },
                None => 0,
            },
            list_wf(r@),
    {
        let items = items_of_listing(file_list);
        let focus_idx: usize = match &initial_focus {
            None => 0,
            Some(f) => {
                match position_of_name(&items, f) {
                    Some(p) => p,
                    None => 0,
                }
            },
        };
        let mut filtered: Vec<FilterdFileInfo> = Vec::new();
        let mut k: usize = 0;
        #[verifier::loop_isolation(false)]
        while k < items.len()
            invariant
                k <= items@.len(),
                rows_view(filtered@) =~= spec_initial_rows(k as int),
            decreases items@.len() - k,
        {
            let ghost before = rows_view(filtered@);
            filtered.push(FilterdFileInfo { org_idx: k, matched_file_name_idx: Vec::new() });
            proof {
                assert(rows_view(filtered@) =~= before + seq![filtered@.last()@]);
                assert(filtered@.last()@.matched =~= Seq::<int>::empty());
                assert(rows_view(filtered@) =~= spec_initial_rows(k + 1));
            }
            k = k + 1;
        }
        FileListFullInfo { full_item_list: items, filtered_item_info: filtered, focus_idx }
    }

    /// The name of the focused row, when the focus points at one.
    pub fn focus_file_name(&self) -> (r: Option<String>)
        requires
            list_wf(self@),
        ensures
            opt_str_view(r) == spec_focus_name(self@),
    {
        if self.focus_idx < self.filtered_item_info.len() {
            let org = self.filtered_item_info[self.focus_idx].org_idx;
            Some(self.full_item_list[org].file_name.clone())
        } else {
            None
        }
    }

    /// The snapshot of this state handed to the UI.
    pub fn to_ui_info(&self) -> (r: FileListUiInfo)
        requires
            list_wf(self@),
        ensures
            r@ == spec_to_ui(self@),
    {
        let mut rows: Vec<FileListFilteredItem> = Vec::new();
        let mut i: usize = 0;
        #[verifier::loop_isolation(false)]
        while i < self.filtered_item_info.len()
            invariant
                i <= self@.filtered.len(),
                ui_rows_view(rows@) =~= spec_to_ui(self@).rows.take(i as int),
            decreases self@.filtered.len() - i,
        {
            let ghost before = ui_rows_view(rows@);
            let row = &self.filtered_item_info[i];
            proof {
                assert(row@ == self@.filtered[i as int]);
            }
            let mut matched: Vec<usize> = Vec::new();
            let mut k: usize = 0;
            #[verifier::loop_isolation(false)]
            while k < row.matched_file_name_idx.len()
                invariant
                    k <= row.matched_file_name_idx@.len(),
                    matched@ =~= row.matched_file_name_idx@.take(k as int),
                decreases row.matched_file_name_idx@.len() - k,
            {
                matched.push(row.matched_file_name_idx[k]);
                proof {
                    assert(matched@ =~= row.matched_file_name_idx@.take(k + 1));
                }
                k = k + 1;
            }
            proof {
                assert(matched@ =~= row.matched_file_name_idx@);
            }
            rows.push(
                FileListFilteredItem {
                    file_list_item: self.full_item_list[row.org_idx].duplicate(),
                    matched_idx_list: matched,
                },
            );
            proof {
                assert(ui_rows_view(rows@) =~= before + seq![rows@.last()@]);
                assert(rows@.last()@ == spec_to_ui(self@).rows[i as int]);
                assert(ui_rows_view(rows@) =~= spec_to_ui(self@).rows.take(i + 1));
            }
            i = i + 1;
        }
        proof {
            assert(spec_to_ui(self@).rows.take(self@.filtered.len() as int) =~= spec_to_ui(
                self@,
            ).rows);
        }
        FileListUiInfo {
            full_item_num: self.full_item_list.len(),
            filtered_item_list: rows,
            focus_idx: self.focus_idx,
        }
    }

    /// Build a list state from entries, a full-list focus position and the
    /// active filter. The filter runs separately on the halves before and
    /// after the focus position, so the new focus lands at the count of
    /// matches before it.
    pub fn create(
        full_item_list: Vec<FileListItem>,
        full_focus_idx: usize,
        filter: &FilterInfo,
    ) -> (r: FileListFullInfo)
        requires
            full_focus_idx <= full_item_list@.len(),
        ensures
            r@ == spec_create(items_view(full_item_list@), full_focus_idx as int, filter@),
            list_wf(r@),
            view_consistent(r@, filter@),
    {
        let ghost full = items_view(full_item_list@);
        let len = full_item_list.len();
        let mut before_focus = to_filtered_item_info(0, full_focus_idx, &full_item_list, filter);
        let mut after_focus = to_filtered_item_info(full_focus_idx, len, &full_item_list, filter);
        let focus_idx = before_focus.len();
        let ghost bv = rows_view(before_focus@);
        let ghost av = rows_view(after_focus@);
        before_focus.append(&mut after_focus);
        proof {
            assert(rows_view(before_focus@) =~= bv + av);
            lemma_rows_concat(full, filter@, 0, full_focus_idx as int, len as int);
            lemma_rows_shape(full, filter@, 0, len as int);
        }
        let r = FileListFullInfo {
            full_item_list,
            filtered_item_info: before_focus,
            focus_idx,
        };
        r
    }
}

/// The name of the focused row of a list state, when the focus is in range.
pub open spec fn spec_focus_name(v: FullV) -> Option<Seq<char>> {
    if 0 <= v.focus < v.filtered.len() {
        Some(v.full[v.filtered[v.focus].org_idx].file_name)
    } else {
        None
    }
}

/// First filtered row whose entry bears the given name.
pub open spec fn first_row_pos(full: Seq<ItemV>, rows: Seq<RowV>, name: Seq<char>) -> Option<int>
    decreases rows.len(),
{
    if rows.len() == 0 {
        None
    } else if 0 <= rows[0].org_idx < full.len() && full[rows[0].org_idx].file_name == name {
        Some(0)
    } else {
        match first_row_pos(full, rows.skip(1), name) {
            Some(i) => Some(i + 1),
            None => None,
        }
    }
}

/// What `first_row_pos` answers is the least row position bearing the name.
pub proof fn lemma_first_row_pos(full: Seq<ItemV>, rows: Seq<RowV>, name: Seq<char>)
    requires
        forall|i: int| 0 <= i < rows.len() ==> 0 <= (#[trigger] rows[i]).org_idx < full.len(),
    ensures
        match first_row_pos(full, rows, name) {
            Some(i) => 0 <= i < rows.len() && full[rows[i].org_idx].file_name == name && forall|
                j: int,
            | 0 <= j < i ==> full[(#[trigger] rows[j]).org_idx].file_name != name,
            None => forall|j: int|
                0 <= j < rows.len() ==> full[(#[trigger] rows[j]).org_idx].file_name != name,
        },
    decreases rows.len(),
{
    if rows.len() > 0 {
        assert forall|i: int| 0 <= i < rows.skip(1).len() implies 0 <= (#[trigger] rows.skip(
            1,
        )[i]).org_idx < full.len() by {
            assert(rows.skip(1)[i] == rows[i + 1]);
        }
        lemma_first_row_pos(full, rows.skip(1), name);
        if !(full[rows[0].org_idx].file_name == name) {
            match first_row_pos(full, rows.skip(1), name) {
                Some(i) => {
                    assert(rows.skip(1)[i] == rows[i + 1]);
                    assert forall|j: int| 0 <= j < i + 1 implies full[(#[trigger] rows[j]).org_idx].file_name
                        != name by {
                        if j > 0 {
                            assert(rows.skip(1)[j - 1] == rows[j]);
                        }
                    }
                },
                None => {
                    assert forall|j: int| 0 <= j < rows.len() implies full[(#[trigger] rows[j]).org_idx].file_name
                        != name by {
                        if j > 0 {
                            assert(rows.skip(1)[j - 1] == rows[j]);
                        }
                    }
                },
            }
        }
    }
}

/// Find the first filtered row whose entry bears the given name.
pub fn row_position_of_name(
    full_item_list: &Vec<FileListItem>,
    filtered_item_info: &Vec<FilterdFileInfo>,
    name: &String,
) -> (r: Option<usize>)
    requires
        forall|i: int|
            0 <= i < rows_view(filtered_item_info@).len() ==> 0 <= (#[trigger] rows_view(
                filtered_item_info@,
            )[i]).org_idx < items_view(full_item_list@).len(),
    ensures
        match r {
            Some(i) => first_row_pos(
                items_view(full_item_list@),
                rows_view(filtered_item_info@),
                name@,
            ) == Some(i as int),
            None => first_row_pos(
                items_view(full_item_list@),
                rows_view(filtered_item_info@),
                name@,
            ) is None,
        },
{
    let ghost full = items_view(full_item_list@);
    let ghost rows = rows_view(filtered_item_info@);
    proof {
        lemma_first_row_pos(full, rows, name@);
    }
    let mut i: usize = 0;
    #[verifier::loop_isolation(false)]
    while i < filtered_item_info.len()
        invariant
            i <= rows.len(),
            forall|j: int| 0 <= j < i ==> full[(#[trigger] rows[j]).org_idx].file_name != name@,
        decreases rows.len() - i,
    {
        proof {
            assert(rows[i as int] == filtered_item_info@[i as int]@);
        }
        let org = filtered_item_info[i].org_idx;
        proof {
            assert(full[org as int] == full_item_list@[org as int]@);
        }
        if full_item_list[org].file_name == *name {
            proof {
                if let Some(p) = first_row_pos(full, rows, name@) {
                    assert(p == i as int);
                } else {
                    assert(false);
                }
            }
            return Some(i);
        }
        i = i + 1;
    }
    None
}

// ---------------------------------------------------------------------------
// UI snapshots.
// ---------------------------------------------------------------------------

/// One row of a UI snapshot: the entry and the matched positions of its name.
#[derive(Debug)]
pub struct FileListFilteredItem {
    pub file_list_item: FileListItem,
    pub matched_idx_list: Vec<usize>,
}

/// Mathematical image of a [`FileListFilteredItem`].
#[verifier::ext_equal]
pub struct UiRowV {
    pub item: ItemV,
    pub matched: Seq<int>,
}

impl View for FileListFilteredItem {
    type V = UiRowV;

    open spec fn view(&self) -> UiRowV {
        UiRowV {
            item: self.file_list_item@,
            matched: self.matched_idx_list@.map_values(|u: usize| u as int),
        }
    }
}

/// The views of a vector of UI rows.
pub open spec fn ui_rows_view(rows: Seq<FileListFilteredItem>) -> Seq<UiRowV> {
    rows.map_values(|r: FileListFilteredItem| r@)
}

/// The snapshot of one pane handed to the UI: how many entries the directory
/// holds, the visible rows, and the focused row.
#[derive(Debug)]
pub struct FileListUiInfo {
    pub full_item_num: usize,
    pub filtered_item_list: Vec<FileListFilteredItem>,
    pub focus_idx: usize,
}

/// Mathematical image of a [`FileListUiInfo`].
#[verifier::ext_equal]
pub struct UiV {
    pub full_item_num: int,
    pub rows: Seq<UiRowV>,
    pub focus: int,
}

impl View for FileListUiInfo {
    type V = UiV;

    open spec fn view(&self) -> UiV {
        UiV {
            full_item_num: self.full_item_num as int,
            rows: ui_rows_view(self.filtered_item_list@),
            focus: self.focus_idx as int,
        }
    }
}

/// The snapshot a list state maps to: each filtered row resolved to its entry.
pub open spec fn spec_to_ui(v: FullV) -> UiV {
    UiV {
        full_item_num: v.full.len() as int,
        rows: v.filtered.map_values(|r: RowV| UiRowV { item: v.full[r.org_idx], matched: r.matched }),
        focus: v.focus,
    }
}

// ---------------------------------------------------------------------------
// Visibility of system files.
// ---------------------------------------------------------------------------

/// The listing with system files dropped when they are to be ignored.
pub open spec fn spec_visible(list: Seq<BaseV>, ignore_system_file: bool) -> Seq<BaseV>
    decreases list.len(),
{
    if !ignore_system_file {
        list
    } else if list.len() == 0 {
        Seq::empty()
    } else if list.last().is_system_file {
        spec_visible(list.drop_last(), true)
    } else {
        spec_visible(list.drop_last(), true).push(list.last())
    }
}

/// Drop system files from a listing when they are to be ignored; pass a
/// failed listing through.
pub fn get_file_list_ex(file_list: Option<Vec<FileBaseInfo>>, ignore_system_file: bool) -> (r:
    Option<Vec<FileBaseInfo>>)
    ensures
        match (file_list, r) {
            (Some(l), Some(v)) => bases_view(v@) == spec_visible(bases_view(l@), ignore_system_file),
            (None, None) => true,
            _ => false,
        },
{
    let list = match file_list {
        None => {
            return None;
        },
        Some(l) => l,
    };
    if !ignore_system_file {
        return Some(list);
    }
    let ghost lv = bases_view(list@);
    let mut out: Vec<FileBaseInfo> = Vec::new();
    let mut i: usize = 0;
    proof {
        assert(bases_view(out@) =~= spec_visible(bases_view(list@.take(0)), true));
    }
    let mut list = list;
    let len = list.len();
    let ghost orig = list@;
    let mut taken: usize = 0;
    #[verifier::loop_isolation(false)]
    while taken < len
        invariant
            list@ == orig.skip(taken as int),
            taken <= len == orig.len(),
            bases_view(out@) == spec_visible(bases_view(orig.take(taken as int)), true),
        decreases len - taken,
    {
        let item = list.remove(0);
        proof {
            assert(item@ == orig[taken as int]@);
            assert(list@ =~= orig.skip(taken + 1));
            assert(bases_view(orig.take(taken + 1)).drop_last() =~= bases_view(
                orig.take(taken as int),
            ));
            assert(bases_view(orig.take(taken + 1)).last() == orig[taken as int]@);
        }
        let ghost before = bases_view(out@);
        if !item.is_system_file {
            out.push(item);
            proof {
                assert(bases_view(out@) =~= before.push(orig[taken as int]@));
            }
        }
        taken = taken + 1;
    }
    proof {
        assert(orig.take(len as int) =~= orig);
    }
    Some(out)
}

} // verus!
