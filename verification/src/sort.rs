//! Sorting of the full entry list: by a user-chosen column, ascending, or by
//! descending matching rate when a filter ranks the rows. Both sorts are
//! stable: entries with equal keys keep their relative order.

use vstd::prelude::*;
use vstd::string::*;

use crate::file_list::{
    first_row_pos, items_view, list_wf, spec_focus_name, spec_rows, spec_to_ui, FileListFullInfo,
    FileListItem, FileListUiInfo, ItemV,
};
use crate::pane_info::{opt_ui_view, pane_wf, PaneInfo};
use crate::filter_info::{
    lemma_lex_cmp_basic, lemma_lex_cmp_trans, lemma_rate_cmp_total_order, lex_cmp, matching_rate,
    rate_cmp, spec_matching_rate,
};

verus! {

/// The column a pane's entries are ordered by.
#[derive(Debug, PartialEq, Eq, Structural, Clone, Copy)]
pub enum SortKey {
    Name,
    FileType,
    Size,
    Date,
}

/// Characters as their code points.
pub open spec fn chars_ints(s: Seq<char>) -> Seq<int> {
    s.map_values(|c: char| c as int)
}

/// Lexicographic order on character sequences, by code point.
pub open spec fn str_le(a: Seq<char>, b: Seq<char>) -> bool {
    lex_cmp(chars_ints(a), chars_ints(b)) <= 0
}

/// Order on optional sizes: absent sorts lowest.
pub open spec fn opt_u64_le(a: Option<u64>, b: Option<u64>) -> bool {
    match (a, b) {
        (None, _) => true,
        (Some(_), None) => false,
        (Some(x), Some(y)) => x <= y,
    }
}

/// Order on optional strings: absent sorts lowest, present ones
/// lexicographically.
pub open spec fn opt_str_le(a: Option<Seq<char>>, b: Option<Seq<char>>) -> bool {
    match (a, b) {
        (None, _) => true,
        (Some(_), None) => false,
        (Some(x), Some(y)) => str_le(x, y),
    }
}

/// The ascending order of a sort key over entries.
pub open spec fn item_le(key: SortKey, a: ItemV, b: ItemV) -> bool {
    match key {
        SortKey::Name => str_le(a.file_name, b.file_name),
        SortKey::FileType => str_le(a.file_extension, b.file_extension),
        SortKey::Size => opt_u64_le(a.file_size, b.file_size),
        SortKey::Date => opt_str_le(a.date, b.date),
    }
}

// ---------------------------------------------------------------------------
// Ranked entries: an entry together with what the filter answered for it.
// ---------------------------------------------------------------------------

/// An entry paired with its filter answer, the unit both sorts work on.
#[derive(Debug)]
pub struct RankedItem {
    pub item: FileListItem,
    pub match_result: Option<Vec<usize>>,
}

/// Mathematical image of a [`RankedItem`].
#[verifier::ext_equal]
pub struct PairV {
    pub item: ItemV,
    pub matched: Option<Seq<int>>,
}

impl View for RankedItem {
    type V = PairV;

    open spec fn view(&self) -> PairV {
        PairV {
            item: self.item@,
            matched: match self.match_result {
                None => None,
                Some(v) => Some(v@.map_values(|u: usize| u as int)),
            },
        }
    }
}

/// The views of a vector of ranked entries.
pub open spec fn pairs_view(v: Seq<RankedItem>) -> Seq<PairV> {
    v.map_values(|p: RankedItem| p@)
}

/// Which order a sort pass applies.
#[derive(Debug, PartialEq, Eq, Structural, Clone, Copy)]
pub enum SortOrder {
    /// Ascending by a column of the entry.
    ByKey(SortKey),
    /// Descending by the matching rate of the filter answer.
    ByRateDesc,
}

/// "May come before": the relation each sort pass leaves its output ordered
/// by. For the rate order, a higher rate comes first.
pub open spec fn pair_le(o: SortOrder, a: PairV, b: PairV) -> bool {
    match o {
        SortOrder::ByKey(k) => item_le(k, a.item, b.item),
        SortOrder::ByRateDesc => rate_cmp(
            spec_matching_rate(a.matched),
            spec_matching_rate(b.matched),
        ) >= 0,
    }
}

/// `pair_le` is total and transitive.
pub proof fn lemma_pair_le_total(o: SortOrder, a: PairV, b: PairV, c: PairV)
    ensures
        pair_le(o, a, b) || pair_le(o, b, a),
        pair_le(o, a, b) && pair_le(o, b, c) ==> pair_le(o, a, c),
{
    match o {
        SortOrder::ByKey(k) => {
            match k {
                SortKey::Name => {
                    lemma_str_le_total(a.item.file_name, b.item.file_name, c.item.file_name);
                },
                SortKey::FileType => {
                    lemma_str_le_total(
                        a.item.file_extension,
                        b.item.file_extension,
                        c.item.file_extension,
                    );
                },
                SortKey::Size => {},
                SortKey::Date => {
                    match (a.item.date, b.item.date, c.item.date) {
                        (Some(x), Some(y), Some(z)) => {
                            lemma_str_le_total(x, y, z);
                        },
                        (Some(x), Some(y), _) => {
                            lemma_str_le_total(x, y, y);
                        },
                        (Some(x), _, Some(z)) => {
                            lemma_str_le_total(x, x, z);
                        },
                        _ => {},
                    }
                },
            }
        },
        SortOrder::ByRateDesc => {
            let ra = spec_matching_rate(a.matched);
            let rb = spec_matching_rate(b.matched);
            let rc = spec_matching_rate(c.matched);
            lemma_rate_cmp_total_order(ra, rb, rb);
            lemma_rate_cmp_total_order(rb, rc, rc);
            lemma_rate_cmp_total_order(ra, rc, rc);
            lemma_rate_cmp_total_order(rc, rb, ra);
            lemma_rate_cmp_total_order(rb, ra, ra);
            lemma_rate_cmp_total_order(rc, ra, ra);
        },
    }
}

proof fn lemma_str_le_total(a: Seq<char>, b: Seq<char>, c: Seq<char>)
    ensures
        str_le(a, b) || str_le(b, a),
        str_le(a, b) && str_le(b, c) ==> str_le(a, c),
{
    lemma_lex_cmp_basic(chars_ints(a), chars_ints(b));
    lemma_lex_cmp_basic(chars_ints(b), chars_ints(c));
    lemma_lex_cmp_basic(chars_ints(a), chars_ints(c));
    if lex_cmp(chars_ints(a), chars_ints(b)) <= 0 && lex_cmp(chars_ints(b), chars_ints(c)) <= 0 {
        lemma_lex_cmp_trans(chars_ints(a), chars_ints(b), chars_ints(c));
    }
}

// ---------------------------------------------------------------------------
// Stable insertion sort.
// ---------------------------------------------------------------------------

/// Stable insertion of `x` into `s`: `x` lands after every element that may
/// come before it, so equal elements keep arrival order.
pub open spec fn spec_insert_pair(o: SortOrder, s: Seq<PairV>, x: PairV) -> Seq<PairV>
    decreases s.len(),
{
    if s.len() == 0 {
        seq![x]
    } else if pair_le(o, s.last(), x) {
        s.push(x)
    } else {
        spec_insert_pair(o, s.drop_last(), x).push(s.last())
    }
}

/// Stable insertion sort.
pub open spec fn spec_sort_pairs(o: SortOrder, s: Seq<PairV>) -> Seq<PairV>
    decreases s.len(),
{
    if s.len() == 0 {
        Seq::empty()
    } else {
        spec_insert_pair(o, spec_sort_pairs(o, s.drop_last()), s.last())
    }
}

/// Ordered according to `pair_le`, pairwise.
pub open spec fn pairs_sorted(o: SortOrder, s: Seq<PairV>) -> bool {
    forall|i: int, j: int| 0 <= i <= j < s.len() ==> pair_le(o, #[trigger] s[i], #[trigger] s[j])
}

proof fn lemma_insert_pair_sorted(o: SortOrder, s: Seq<PairV>, x: PairV)
    requires
        pairs_sorted(o, s),
    ensures
        pairs_sorted(o, spec_insert_pair(o, s, x)),
        spec_insert_pair(o, s, x).to_multiset() == s.to_multiset().insert(x),
        spec_insert_pair(o, s, x).len() == s.len() + 1,
        forall|i: int|
            0 <= i < spec_insert_pair(o, s, x).len() ==> s.contains(
                #[trigger] spec_insert_pair(o, s, x)[i],
            ) || spec_insert_pair(o, s, x)[i] == x,
    decreases s.len(),
{
    broadcast use vstd::seq_lib::group_seq_properties;

    let out = spec_insert_pair(o, s, x);
    if s.len() == 0 {
        lemma_pair_le_total(o, x, x, x);
        assert(out =~= seq![x]);
        assert(Seq::<PairV>::empty().push(x) =~= seq![x]);
        assert(Seq::<PairV>::empty().to_multiset().insert(x) =~= out.to_multiset()) by {
            Seq::<PairV>::empty().to_multiset_ensures();
        }
    } else if pair_le(o, s.last(), x) {
        s.to_multiset_ensures();
        assert forall|i: int, j: int| 0 <= i <= j < out.len() implies pair_le(
            o,
            #[trigger] out[i],
            #[trigger] out[j],
        ) by {
            if i == j {
                lemma_pair_le_total(o, out[i], out[i], out[i]);
            } else if j == out.len() - 1 {
                assert(out[i] == s[i]);
                assert(pair_le(o, s[i], s[s.len() - 1]));
                lemma_pair_le_total(o, s[i], s.last(), x);
            } else {
                assert(out[i] == s[i]);
                assert(out[j] == s[j]);
            }
        }
    } else {
        let head = s.drop_last();
        assert(pairs_sorted(o, head));
        lemma_insert_pair_sorted(o, head, x);
        let inner = spec_insert_pair(o, head, x);
        assert(out == inner.push(s.last()));
        lemma_pair_le_total(o, x, s.last(), s.last());
        assert(pair_le(o, x, s.last()));
        assert forall|i: int, j: int| 0 <= i <= j < out.len() implies pair_le(
            o,
            #[trigger] out[i],
            #[trigger] out[j],
        ) by {
            if i == j {
                lemma_pair_le_total(o, out[i], out[i], out[i]);
            } else if j == out.len() - 1 && i < out.len() - 1 {
                assert(out[i] == inner[i]);
                if head.contains(inner[i]) {
                    let w = choose|w: int| 0 <= w < head.len() && head[w] == inner[i];
                    assert(pair_le(o, head[w], head.last())) by {
                        assert(head[w] == s[w]);
                        assert(head.last() == s[s.len() - 2]);
                    }
                    lemma_pair_le_total(o, inner[i], head.last(), s.last());
                    lemma_pair_le_total(o, head.last(), s.last(), s.last());
                    assert(pair_le(o, head.last(), s.last()));
                } else {
                    assert(inner[i] == x);
                }
            }
        }
        inner.to_multiset_ensures();
        head.to_multiset_ensures();
        s.to_multiset_ensures();
        assert(head.push(s.last()) =~= s);
        assert(head.push(s.last()).to_multiset() =~= head.to_multiset().insert(s.last()));
        assert(out.to_multiset() =~= inner.to_multiset().insert(s.last()));
        assert(out.to_multiset() =~= s.to_multiset().insert(x)) by {
            assert(inner.to_multiset() == head.to_multiset().insert(x));
            assert(head.to_multiset().insert(x).insert(s.last()) =~= head.to_multiset().insert(
                s.last(),
            ).insert(x));
        }
    }
}

/// The sorted sequence is ordered and holds exactly the input's elements.
pub proof fn lemma_sort_pairs_sorted(o: SortOrder, s: Seq<PairV>)
    ensures
        pairs_sorted(o, spec_sort_pairs(o, s)),
        spec_sort_pairs(o, s).to_multiset() == s.to_multiset(),
        spec_sort_pairs(o, s).len() == s.len(),
    decreases s.len(),
{
    broadcast use vstd::seq_lib::group_seq_properties;

    if s.len() == 0 {
        assert(spec_sort_pairs(o, s) =~= Seq::<PairV>::empty());
    } else {
        let head = s.drop_last();
        lemma_sort_pairs_sorted(o, head);
        lemma_insert_pair_sorted(o, spec_sort_pairs(o, head), s.last());
        head.to_multiset_ensures();
        s.to_multiset_ensures();
        assert(head.push(s.last()) =~= s);
        assert(head.push(s.last()).to_multiset() =~= head.to_multiset().insert(s.last()));
    }
}

/// Where the scan from the right stops is exactly where the specification
/// inserts.
proof fn lemma_insert_pair_at(o: SortOrder, s: Seq<PairV>, x: PairV, j: int)
    requires
        0 <= j <= s.len(),
        forall|k: int| j <= k < s.len() ==> !pair_le(o, #[trigger] s[k], x),
        j > 0 ==> pair_le(o, s[j - 1], x),
    ensures
        spec_insert_pair(o, s, x) == s.insert(j, x),
    decreases s.len(),
{
    if j == s.len() {
        if s.len() == 0 {
            assert(spec_insert_pair(o, s, x) =~= s.insert(j, x));
        } else {
            assert(pair_le(o, s.last(), x));
            assert(s.push(x) =~= s.insert(j, x));
        }
    } else {
        assert(!pair_le(o, s.last(), x));
        let head = s.drop_last();
        lemma_insert_pair_at(o, head, x, j);
        assert(head.insert(j, x).push(s.last()) =~= s.insert(j, x));
    }
}

/// Stable sort of ranked entries: the result is the specification's stable
/// insertion sort of the input.
pub fn sort_ranked_items(order: SortOrder, items: Vec<RankedItem>) -> (r: Vec<RankedItem>)
    ensures
        pairs_view(r@) == spec_sort_pairs(order, pairs_view(items@)),
{
    let ghost orig = pairs_view(items@);
    let mut src = items;
    let mut out: Vec<RankedItem> = Vec::new();
    let mut taken: usize = 0;
    let len = src.len();
    proof {
        assert(pairs_view(out@) =~= spec_sort_pairs(order, pairs_view(src@.take(0))));
        assert(src@.map_values(|p: RankedItem| p@) == orig);
    }
    let ghost srcv = src@;
    #[verifier::loop_isolation(false)]
    while taken < len
        invariant
            taken <= len == srcv.len(),
            src@ == srcv.skip(taken as int),
            orig == pairs_view(srcv),
            pairs_view(out@) == spec_sort_pairs(order, pairs_view(srcv.take(taken as int))),
        decreases len - taken,
    {
        let x = src.remove(0);
        proof {
            assert(src@ =~= srcv.skip(taken + 1));
            assert(x@ == srcv[taken as int]@);
        }
        let ghost outv = pairs_view(out@);
        let mut j = out.len();
        #[verifier::loop_isolation(false)]
        while j > 0 && !pair_le_exec(order, &out[j - 1], &x)
            invariant
                j <= out@.len(),
                forall|k: int| j <= k < outv.len() ==> !pair_le(order, #[trigger] outv[k], x@),
            decreases j,
        {
            proof {
                assert(outv[j - 1] == out@[j - 1]@);
            }
            j = j - 1;
        }
        proof {
            if j > 0 {
                assert(outv[j - 1] == out@[j - 1]@);
            }
            lemma_insert_pair_at(order, outv, x@, j as int);
        }
        out.insert(j, x);
        proof {
            assert(pairs_view(out@) =~= outv.insert(j as int, x@));
            assert(pairs_view(srcv.take(taken + 1)).drop_last() =~= pairs_view(
                srcv.take(taken as int),
            ));
            assert(pairs_view(srcv.take(taken + 1)).last() == x@);
        }
        taken = taken + 1;
    }
    proof {
        assert(srcv.take(len as int) =~= srcv);
    }
    out
}

/// Each entry paired with what the filter answers for its name.
pub open spec fn spec_ranked_of(full: Seq<ItemV>, f: crate::filter_info::FilterV) -> Seq<PairV> {
    full.map_values(
        |it: ItemV| PairV { item: it, matched: crate::filter_info::spec_is_match(f, it.file_name) },
    )
}

/// Entries wrapped for a key sort: the filter answer plays no part.
pub open spec fn spec_plain_pairs(full: Seq<ItemV>) -> Seq<PairV> {
    full.map_values(|it: ItemV| PairV { item: it, matched: None })
}

/// The entries of a pair sequence.
pub open spec fn items_of_pairs(s: Seq<PairV>) -> Seq<ItemV> {
    s.map_values(|p: PairV| p.item)
}

/// Every element of the sorted sequence is an element of the input.
pub proof fn lemma_sort_pairs_elements(o: SortOrder, s: Seq<PairV>)
    ensures
        forall|i: int|
            0 <= i < spec_sort_pairs(o, s).len() ==> s.contains(#[trigger] spec_sort_pairs(o, s)[i]),
{
    broadcast use vstd::seq_lib::group_seq_properties;

    lemma_sort_pairs_sorted(o, s);
    let sorted = spec_sort_pairs(o, s);
    sorted.to_multiset_ensures();
    s.to_multiset_ensures();
    assert forall|i: int| 0 <= i < sorted.len() implies s.contains(#[trigger] sorted[i]) by {
        assert(sorted.contains(sorted[i]));
        assert(sorted.to_multiset().count(sorted[i]) > 0);
    }
}

/// Sort the pane's entries by the chosen column, ascending and stable,
/// rebuild the filtered view over the new order, and put the focus back on
/// the row that was focused before, when its entry still shows; else on the
/// top row. With no listing yet, nothing changes.
#[verifier::rlimit(100)]
pub fn sort_file_list(pane_info: &mut PaneInfo, sort_key: SortKey) -> (r: Option<FileListUiInfo>)
    requires
        pane_wf(old(pane_info)@),
    ensures
        pane_wf(final(pane_info)@),
        final(pane_info)@.filter == old(pane_info)@.filter,
        final(pane_info)@.dirctry_path == old(pane_info)@.dirctry_path,
        final(pane_info)@.viewing_start == old(pane_info)@.viewing_start,
        final(pane_info)@.viewing_end == old(pane_info)@.viewing_end,
        match (old(pane_info)@.file_list_info, final(pane_info)@.file_list_info) {
            (None, None) => r is None && final(pane_info)@ == old(pane_info)@,
            (Some(oldv), Some(newv)) => {
                let filter = old(pane_info)@.filter;
                &&& newv.full == items_of_pairs(
                    spec_sort_pairs(SortOrder::ByKey(sort_key), spec_plain_pairs(oldv.full)),
                )
                &&& newv.filtered == spec_rows(newv.full, filter, 0, newv.full.len() as int)
                &&& newv.focus == match spec_focus_name(oldv) {
                    None => 0,
                    Some(f) => match first_row_pos(newv.full, newv.filtered, f) {
                        Some(i) => i,
                        None => 0,
                    },
                }
                &&& opt_ui_view(r) == Some(spec_to_ui(newv))
            },
            _ => false,
        },
{
    let list = match pane_info.file_list_info.take() {
        None => {
            return None;
        },
        Some(l) => l,
    };
    proof {
        assert(list_wf(list@));
    }
    let focus_file_name = list.focus_file_name();
    let mut src = list.full_item_list;
    let ghost origv = items_view(src@);
    let mut pairs: Vec<RankedItem> = Vec::new();
    let mut taken: usize = 0;
    let len = src.len();
    let ghost srcv = src@;
    proof {
        assert(pairs_view(pairs@) =~= spec_plain_pairs(items_view(srcv.take(0))));
    }
    #[verifier::loop_isolation(false)]
    while taken < len
        invariant
            taken <= len == srcv.len(),
            src@ == srcv.skip(taken as int),
            pairs_view(pairs@) == spec_plain_pairs(items_view(srcv.take(taken as int))),
        decreases len - taken,
    {
        let item = src.remove(0);
        proof {
            assert(src@ =~= srcv.skip(taken + 1));
            assert(item@ == srcv[taken as int]@);
        }
        let ghost before = pairs_view(pairs@);
        pairs.push(RankedItem { item, match_result: None });
        proof {
            assert(pairs_view(pairs@) =~= before.push(pairs@.last()@));
            assert(spec_plain_pairs(items_view(srcv.take(taken + 1))) =~= before.push(
                pairs@.last()@,
            ));
        }
        taken = taken + 1;
    }
    proof {
        assert(srcv.take(len as int) =~= srcv);
    }
    let sorted = sort_ranked_items(SortOrder::ByKey(sort_key), pairs);
    let ghost sortedv = spec_sort_pairs(SortOrder::ByKey(sort_key), spec_plain_pairs(origv));
    let ghost sorted_raw = sorted@;
    let mut src = sorted;
    let mut full_item_list: Vec<FileListItem> = Vec::new();
    let mut taken: usize = 0;
    let len = src.len();
    proof {
        assert(pairs_view(sorted_raw) == sortedv);
        assert(items_view(full_item_list@) =~= items_of_pairs(sortedv).take(0));
    }
    #[verifier::loop_isolation(false)]
    while taken < len
        invariant
            taken <= len == sorted_raw.len(),
            src@ == sorted_raw.skip(taken as int),
            items_view(full_item_list@) == items_of_pairs(sortedv).take(taken as int),
        decreases len - taken,
    {
        let x = src.remove(0);
        let ghost xv = x@;
        proof {
            assert(src@ =~= sorted_raw.skip(taken + 1));
            assert(xv == sorted_raw[taken as int]@);
            assert(xv == sortedv[taken as int]);
        }
        let ghost before = items_view(full_item_list@);
        let RankedItem { item, match_result: _ } = x;
        full_item_list.push(item);
        proof {
            assert(items_view(full_item_list@) =~= before.push(xv.item));
            assert(items_view(full_item_list@) =~= items_of_pairs(sortedv).take(taken + 1));
        }
        taken = taken + 1;
    }
    proof {
        assert(items_of_pairs(sortedv).take(len as int) =~= items_of_pairs(sortedv));
    }
    let mut new_list = FileListFullInfo::create(full_item_list, 0, &pane_info.filter);
    new_list.focus_idx = match &focus_file_name {
        None => 0,
        Some(name) => {
            match crate::file_list::row_position_of_name(
                &new_list.full_item_list,
                &new_list.filtered_item_info,
                name,
            ) {
                Some(i) => i,
                None => 0,
            }
        },
    };
    proof {
        assert(list_wf(new_list@));
    }
    pane_info.file_list_info = Some(new_list);
    pane_info.to_ui_info()
}

/// Decide `pair_le` on two ranked entries.
fn pair_le_exec(order: SortOrder, a: &RankedItem, b: &RankedItem) -> (r: bool)
    ensures
        r == pair_le(order, a@, b@),
{
    match order {
        SortOrder::ByKey(k) => item_le_exec(k, &a.item, &b.item),
        SortOrder::ByRateDesc => {
            let ra = matching_rate(&a.match_result);
            let rb = matching_rate(&b.match_result);
            proof {
                lemma_rate_cmp_total_order(ra@, rb@, rb@);
            }
            match ra.cmp(&rb) {
                core::cmp::Ordering::Less => false,
                _ => true,
            }
        },
    }
}

/// Decide lexicographic order on two strings.
fn str_le_exec(a: &String, b: &String) -> (r: bool)
    ensures
        r == str_le(a@, b@),
{
    let ghost av = chars_ints(a@);
    let ghost bv = chars_ints(b@);
    proof {
        lemma_lex_cmp_basic(av, bv);
    }
    let an = a.as_str().unicode_len();
    let bn = b.as_str().unicode_len();
    let mut i: usize = 0;
    proof {
        assert(av.skip(0) =~= av);
        assert(bv.skip(0) =~= bv);
    }
    #[verifier::loop_isolation(false)]
    while i < an && i < bn
        invariant
            i <= an,
            i <= bn,
            an == av.len(),
            bn == bv.len(),
            lex_cmp(av, bv) == lex_cmp(av.skip(i as int), bv.skip(i as int)),
        decreases an - i,
    {
        let ca = a.as_str().get_char(i);
        let cb = b.as_str().get_char(i);
        proof {
            assert(av.skip(i as int)[0] == a@[i as int] as int);
            assert(bv.skip(i as int)[0] == b@[i as int] as int);
        }
        if (ca as u32) < (cb as u32) {
            return true;
        }
        if (ca as u32) > (cb as u32) {
            return false;
        }
        proof {
            assert(av.skip(i as int).skip(1) =~= av.skip(i + 1));
            assert(bv.skip(i as int).skip(1) =~= bv.skip(i + 1));
        }
        i = i + 1;
    }
    proof {
        if i >= an {
            assert(av.skip(i as int).len() == 0);
        } else {
            assert(bv.skip(i as int).len() == 0);
            assert(av.skip(i as int).len() > 0);
        }
    }
    an <= bn
}

/// Decide the column order on two entries.
fn item_le_exec(key: SortKey, a: &FileListItem, b: &FileListItem) -> (r: bool)
    ensures
        r == item_le(key, a@, b@),
{
    match key {
        SortKey::Name => str_le_exec(&a.file_name, &b.file_name),
        SortKey::FileType => str_le_exec(&a.file_extension, &b.file_extension),
        SortKey::Size => {
            match (&a.file_size, &b.file_size) {
                (None, _) => true,
                (Some(_), None) => false,
                (Some(x), Some(y)) => *x <= *y,
            }
        },
        SortKey::Date => {
            match (&a.date, &b.date) {
                (None, _) => true,
                (Some(_), None) => false,
                (Some(x), Some(y)) => str_le_exec(x, y),
            }
        },
    }
}

} // verus!
