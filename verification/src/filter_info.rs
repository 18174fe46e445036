//! The fuzzy filter engine: the greedy subsequence matcher, the regular
//! expression mode, and the deterministic ranking ("matching rate") that
//! orders filtered rows.

use vstd::prelude::*;
use vstd::string::*;

verus! {

/// Which matcher a filter uses.
#[derive(Debug, PartialEq, Eq, Structural, Clone, Copy)]
pub enum FilterType {
    StrMatch,
    RegExpr,
}

/// The active filter of one pane: a mode and a pattern.
#[derive(Debug)]
pub struct FilterInfo {
    pub filter_type: FilterType,
    pub matcher_str: String,
}

/// Mathematical image of a [`FilterInfo`].
#[verifier::ext_equal]
pub struct FilterV {
    pub filter_type: FilterType,
    pub pattern: Seq<char>,
}

impl View for FilterInfo {
    type V = FilterV;

    open spec fn view(&self) -> FilterV {
        FilterV { filter_type: self.filter_type, pattern: self.matcher_str@ }
    }
}

impl FilterInfo {
    /// The filter a pane starts with: subsequence mode, empty pattern.
    pub fn new() -> (r: Self)
        ensures
            r@.filter_type == FilterType::StrMatch,
            r@.pattern.len() == 0,
    {
        Self { filter_type: FilterType::StrMatch, matcher_str: String::new() }
    }
}

// ---------------------------------------------------------------------------
// Trusted names for the outside computations the matcher leans on.
// ---------------------------------------------------------------------------

/// The Unicode lowercase form of a character sequence.
pub uninterp spec fn lower_of(s: Seq<char>) -> Seq<char>;

/// The Unicode uppercase property of one character.
pub uninterp spec fn char_is_upper(c: char) -> bool;

/// The first match of a regular expression in a target, as character
/// positions, or `None` when the pattern does not compile or never matches.
pub uninterp spec fn regex_span(pattern: Seq<char>, target: Seq<char>) -> Option<(usize, usize)>;

/// Relies on str::to_lowercase: the result depends on the characters alone.
#[verifier::external_body]
fn to_lower(s: &str) -> (r: String)
    ensures
        r@ == lower_of(s@),
        s@.len() == 0 ==> r@.len() == 0,
{
    s.to_lowercase()
}

/// Relies on char::is_uppercase: the Unicode uppercase property, a function
/// of the character alone.
#[verifier::external_body]
fn is_upper_char(c: char) -> (r: bool)
    ensures
        r == char_is_upper(c),
{
    c.is_uppercase()
}

/// Relies on regex::Regex::new and regex::Regex::find: the leftmost match of
/// the compiled pattern in the target, its byte offsets (which fall on
/// character boundaries) converted to character positions, so that
/// start <= end <= the target's character count; `None` when the pattern does
/// not compile or does not match.
#[verifier::external_body]
fn regex_find_span(pattern: &str, target: &str) -> (r: Option<(usize, usize)>)
    ensures
        r == regex_span(pattern@, target@),
        r matches Some(se) ==> se.0 <= se.1 <= target@.len(),
{
    let re = match regex::Regex::new(pattern) {
        Ok(re) => re,
        Err(_) => return None,
    };
    let m = re.find(target)?;
    let start = target[..m.start()].chars().count();
    let end = start + target[m.start()..m.end()].chars().count();
    Some((start, end))
}

// ---------------------------------------------------------------------------
// The greedy subsequence matcher, specified.
// ---------------------------------------------------------------------------

/// `p` occurs as a contiguous block of `t` starting at `i`.
pub open spec fn sub_at(t: Seq<char>, p: Seq<char>, i: int) -> bool {
    &&& 0 <= i
    &&& i + p.len() <= t.len()
    &&& t.subrange(i, i + p.len() as int) == p
}

/// The first position where `p` occurs as a contiguous block of `t`.
pub open spec fn first_occurrence(t: Seq<char>, p: Seq<char>) -> Option<int>
    decreases t.len(),
{
    if p.len() > t.len() {
        None
    } else if t.subrange(0, p.len() as int) == p {
        Some(0)
    } else if t.len() == 0 {
        None
    } else {
        match first_occurrence(t.skip(1), p) {
            Some(i) => Some(i + 1),
            None => None,
        }
    }
}

/// The longest prefix of `p`, of length at most `l`, that occurs in `t`,
/// with the position of its first occurrence.
pub open spec fn longest_part(p: Seq<char>, t: Seq<char>, l: int) -> Option<(int, int)>
    decreases l,
{
    if l <= 0 {
        None
    } else {
        match first_occurrence(t, p.subrange(0, l)) {
            Some(s) => Some((s, l)),
            None => longest_part(p, t, l - 1),
        }
    }
}

/// The greedy match: repeatedly take the longest prefix of the unmatched
/// pattern that occurs in the unmatched target suffix, record its index
/// range shifted by `offset` (the count of target characters already
/// consumed), and continue past it.
pub open spec fn greedy_match(p: Seq<char>, t: Seq<char>, offset: int) -> Option<Seq<int>>
    decreases p.len(),
{
    if p.len() == 0 {
        Some(Seq::empty())
    } else {
        match longest_part(p, t, p.len() as int) {
            None => None,
            Some((s, l)) => {
                if 1 <= l <= p.len() && 0 <= s && s + l <= t.len() {
                    match greedy_match(
                        p.subrange(l, p.len() as int),
                        t.subrange(s + l, t.len() as int),
                        offset + s + l,
                    ) {
                        None => None,
                        Some(rest) => Some(Seq::new(l as nat, |i: int| offset + s + i) + rest),
                    }
                } else {
                    None
                }
            },
        }
    }
}

// ---------------------------------------------------------------------------
// Facts about the specification.
// ---------------------------------------------------------------------------

/// Shifting the target by one shifts every occurrence by one.
proof fn lemma_sub_at_skip(t: Seq<char>, p: Seq<char>, i: int)
    requires
        t.len() >= 1,
        0 <= i,
    ensures
        sub_at(t, p, i + 1) <==> sub_at(t.skip(1), p, i),
{
    if i + 1 + p.len() <= t.len() {
        assert(t.skip(1).subrange(i, i + p.len() as int) =~= t.subrange(
            i + 1,
            i + 1 + p.len() as int,
        ));
    }
}

/// `first_occurrence` finds exactly the least occurrence position.
proof fn lemma_first_occurrence(t: Seq<char>, p: Seq<char>)
    ensures
        match first_occurrence(t, p) {
            Some(i) => sub_at(t, p, i) && forall|j: int| 0 <= j < i ==> !sub_at(t, p, j),
            None => forall|j: int| !sub_at(t, p, j),
        },
    decreases t.len(),
{
    if p.len() > t.len() {
        assert(forall|j: int| !sub_at(t, p, j));
    } else if t.subrange(0, p.len() as int) == p {
        assert(sub_at(t, p, 0));
    } else if t.len() == 0 {
        assert(p.len() == 0);
        assert(t.subrange(0, 0) =~= p);
    } else {
        lemma_first_occurrence(t.skip(1), p);
        assert(!sub_at(t, p, 0));
        assert forall|j: int| 0 <= j implies (sub_at(t, p, j + 1) <==> sub_at(t.skip(1), p, j)) by {
            lemma_sub_at_skip(t, p, j);
        }
        match first_occurrence(t.skip(1), p) {
            Some(i) => {
                assert(sub_at(t.skip(1), p, i));
                assert(sub_at(t, p, i + 1));
                assert forall|j: int| 0 <= j < i + 1 implies !sub_at(t, p, j) by {
                    if j > 0 {
                        lemma_sub_at_skip(t, p, j - 1);
                    }
                }
            },
            None => {
                assert forall|j: int| !sub_at(t, p, j) by {
                    if j > 0 {
                        lemma_sub_at_skip(t, p, j - 1);
                    }
                }
            },
        }
    }
}

/// What `longest_part` returns is an occurrence of that prefix length, and
/// no longer admissible prefix occurs anywhere.
proof fn lemma_longest_part(p: Seq<char>, t: Seq<char>, l: int)
    requires
        l <= p.len(),
    ensures
        match longest_part(p, t, l) {
            Some((s, ll)) => 1 <= ll <= l && sub_at(t, p.subrange(0, ll), s)
                && first_occurrence(t, p.subrange(0, ll)) == Some(s),
            None => true,
        },
    decreases l,
{
    if l > 0 {
        lemma_first_occurrence(t, p.subrange(0, l));
        match first_occurrence(t, p.subrange(0, l)) {
            Some(_) => {},
            None => {
                lemma_longest_part(p, t, l - 1);
            },
        }
    }
}

// ---------------------------------------------------------------------------
// The executable matcher.
// ---------------------------------------------------------------------------

/// Collect the characters of a string.
pub fn chars_of(s: &str) -> (r: Vec<char>)
    ensures
        r@ == s@,
{
    let n = s.unicode_len();
    let mut r: Vec<char> = Vec::new();
    let mut i: usize = 0;
    while i < n
        invariant
            n == s@.len(),
            i <= n,
            r@ == s@.take(i as int),
        decreases n - i,
    {
        r.push(s.get_char(i));
        i = i + 1;
        assert(r@ =~= s@.take(i as int));
    }
    assert(r@ =~= s@);
    r
}

/// First position at or after `t_from` where `p[p_from .. p_to]` occurs as a
/// contiguous block of `t`.
pub(crate) fn find_sub(t: &Vec<char>, t_from: usize, p: &Vec<char>, p_from: usize, p_to: usize) -> (r: Option<
    usize,
>)
    requires
        t_from <= t@.len(),
        p_from <= p_to <= p@.len(),
    ensures
        match r {
            Some(i) => t_from <= i && i + (p_to - p_from) <= t@.len() && first_occurrence(
                t@.skip(t_from as int),
                p@.subrange(p_from as int, p_to as int),
            ) == Some(i - t_from),
            None => first_occurrence(
                t@.skip(t_from as int),
                p@.subrange(p_from as int, p_to as int),
            ) is None,
        },
{
    let ghost suffix = t@.skip(t_from as int);
    let ghost part = p@.subrange(p_from as int, p_to as int);
    proof {
        lemma_first_occurrence(suffix, part);
    }
    let plen = p_to - p_from;
    if plen > t.len() - t_from {
        return None;
    }
    let last_start = t.len() - plen;
    let mut i = t_from;
    #[verifier::loop_isolation(false)]
    while i <= last_start
        invariant
            t_from <= i,
            forall|j: int| 0 <= j < i - t_from ==> !sub_at(suffix, part, j),
        decreases last_start + 1 - i,
    {
        let mut k: usize = 0;
        let mut eq = true;
        #[verifier::loop_isolation(false)]
        while k < plen
            invariant
                k <= plen,
                i <= last_start,
                eq ==> forall|q: int| 0 <= q < k ==> suffix[i - t_from + q] == part[q],
                !eq ==> !sub_at(suffix, part, i - t_from) && plen >= 1,
            decreases plen - k,
        {
            if t[i + k] != p[p_from + k] {
                proof {
                    assert(suffix[i - t_from + k] == t@[i + k]);
                    assert(part[k as int] == p@[p_from + k]);
                    if sub_at(suffix, part, i - t_from) {
                        assert(suffix.subrange(i - t_from, i - t_from + plen)[k as int] == part[k as int]);
                    }
                }
                eq = false;
            }
            k = k + 1;
        }
        if eq {
            proof {
                assert(suffix.subrange(i - t_from, i - t_from + plen) =~= part);
                assert(sub_at(suffix, part, i - t_from));
            }
            return Some(i);
        }
        i = i + 1;
    }
    proof {
        if first_occurrence(suffix, part) is Some {
            let f = first_occurrence(suffix, part)->Some_0;
            assert(sub_at(suffix, part, f));
            assert(f + plen <= suffix.len());
            assert(f < i - t_from);
            assert(false);
        }
    }
    None
}

/// The longest prefix of `p[p_from..]` that occurs as a contiguous block of
/// `t[t_from..]`, with the absolute position of its first occurrence in `t`
/// and its length.
pub fn str_match_part(p: &Vec<char>, p_from: usize, t: &Vec<char>, t_from: usize) -> (r: Option<
    (usize, usize),
>)
    requires
        p_from < p@.len(),
        t_from <= t@.len(),
    ensures
        match r {
            Some((s, l)) => t_from <= s && 1 <= l && p_from + l <= p@.len() && s + l <= t@.len()
                && longest_part(
                p@.skip(p_from as int),
                t@.skip(t_from as int),
                p@.len() - p_from as int,
            ) == Some((s - t_from, l as int)),
            None => longest_part(
                p@.skip(p_from as int),
                t@.skip(t_from as int),
                p@.len() - p_from as int,
            ) is None,
        },
{
    let ghost pp = p@.skip(p_from as int);
    let ghost tt = t@.skip(t_from as int);
    let full = p.len() - p_from;
    let mut l = full;
    #[verifier::loop_isolation(false)]
    while l >= 1
        invariant
            l <= full,
            longest_part(pp, tt, full as int) == longest_part(pp, tt, l as int),
        decreases l,
    {
        proof {
            assert(pp.take(l as int) =~= p@.subrange(p_from as int, p_from + l as int));
        }
        match find_sub(t, t_from, p, p_from, p_from + l) {
            Some(s) => {
                return Some((s, l));
            },
            None => {},
        }
        l = l - 1;
    }
    None
}

/// The greedy subsequence matcher over character vectors: repeatedly matches
/// the longest remaining pattern prefix as a contiguous block of the
/// remaining target and records the matched positions.
pub fn str_match(matcher: &Vec<char>, target: &Vec<char>) -> (r: Option<Vec<usize>>)
    ensures
        match r {
            Some(v) => greedy_match(matcher@, target@, 0) == Some(
                v@.map_values(|u: usize| u as int),
            ),
            None => greedy_match(matcher@, target@, 0) is None,
        },
{
    let mut out: Vec<usize> = Vec::new();
    let mut p_cur: usize = 0;
    let mut t_cur: usize = 0;
    proof {
        assert(matcher@.skip(0) =~= matcher@);
        assert(target@.skip(0) =~= target@);
        if let Some(rest) = greedy_match(matcher@, target@, 0) {
            assert(out@.map_values(|u: usize| u as int) + rest =~= rest);
        }
    }
    #[verifier::loop_isolation(false)]
    while p_cur < matcher.len()
        invariant
            p_cur <= matcher@.len(),
            t_cur <= target@.len(),
            match greedy_match(matcher@.skip(p_cur as int), target@.skip(t_cur as int), t_cur as int) {
                None => greedy_match(matcher@, target@, 0) is None,
                Some(rest) => greedy_match(matcher@, target@, 0) == Some(
                    out@.map_values(|u: usize| u as int) + rest,
                ),
            },
        decreases matcher@.len() - p_cur,
    {
        let ghost pp = matcher@.skip(p_cur as int);
        let ghost tt = target@.skip(t_cur as int);
        match str_match_part(matcher, p_cur, target, t_cur) {
            None => {
                return None;
            },
            Some((s, l)) => {
                let ghost out0 = out@;
                let tlen = target.len();
                proof {
                    assert(s + l <= tlen);
                }
                let mut idx = s;
                #[verifier::loop_isolation(false)]
                while idx < s + l
                    invariant
                        s <= idx <= s + l,
                        s + l <= target@.len(),
                        out@ == out0 + Seq::new((idx - s) as nat, |i: int| (s + i) as usize),
                    decreases s + l - idx,
                {
                    proof {
                        assert(out@ + seq![idx] =~= out0 + Seq::new(
                            (idx + 1 - s) as nat,
                            |i: int| (s + i) as usize,
                        ));
                    }
                    out.push(idx);
                    idx = idx + 1;
                }
                proof {
                    let rel_s = s - t_cur;
                    assert(greedy_match(pp, tt, t_cur as int) == (match greedy_match(
                        pp.subrange(l as int, pp.len() as int),
                        tt.subrange(rel_s + l, tt.len() as int),
                        t_cur + rel_s + l,
                    ) {
                        None => None::<Seq<int>>,
                        Some(rest) => Some(
                            Seq::new(l as nat, |i: int| t_cur + rel_s + i) + rest,
                        ),
                    }));
                    assert(pp.subrange(l as int, pp.len() as int) =~= matcher@.skip(
                        p_cur + l as int,
                    ));
                    assert(tt.subrange(rel_s + l, tt.len() as int) =~= target@.skip(s + l as int));
                    let block = Seq::new(l as nat, |i: int| t_cur + rel_s + i);
                    match greedy_match(matcher@.skip(p_cur + l as int), target@.skip(s + l as int), s + l as int) {
                        None => {},
                        Some(rest) => {
                            assert(out@.map_values(|u: usize| u as int) =~= out0.map_values(
                                |u: usize| u as int,
                            ) + block);
                            assert(out0.map_values(|u: usize| u as int) + (block + rest) =~= (
                            out0.map_values(|u: usize| u as int) + block) + rest);
                        },
                    }
                }
                p_cur = p_cur + l;
                t_cur = s + l;
            },
        }
    }
    proof {
        assert(matcher@.skip(p_cur as int) =~= Seq::<char>::empty());
        assert(greedy_match(matcher@, target@, 0) == Some(
            out@.map_values(|u: usize| u as int) + Seq::<int>::empty(),
        ));
        assert(out@.map_values(|u: usize| u as int) + Seq::<int>::empty() =~= out@.map_values(
            |u: usize| u as int,
        ));
    }
    Some(out)
}

// ---------------------------------------------------------------------------
// The full filter: case folding and mode dispatch.
// ---------------------------------------------------------------------------

/// Some character of `s` has the Unicode uppercase property.
pub open spec fn spec_has_upper(s: Seq<char>) -> bool {
    exists|i: int| 0 <= i < s.len() && char_is_upper(s[i])
}

/// `s`, lowercased when `fold` holds.
pub open spec fn spec_folded(s: Seq<char>, fold: bool) -> Seq<char> {
    if fold {
        lower_of(s)
    } else {
        s
    }
}

/// The index list the regular-expression mode reports: the consecutive
/// character positions of the first match's span.
pub open spec fn spec_regex_indices(pattern: Seq<char>, target: Seq<char>) -> Option<Seq<int>> {
    match regex_span(pattern, target) {
        None => None,
        Some((s, e)) => if s <= e {
            Some(Seq::new((e - s) as nat, |i: int| s + i))
        } else {
            Some(Seq::empty())
        },
    }
}

/// What a filter answers for a target name: `None` for "excluded", `Some`
/// with the matched index list for "included". An empty pattern matches
/// everything with an empty index list. When the pattern holds no uppercase
/// character, both sides are lowercased before matching.
pub open spec fn spec_is_match(f: FilterV, target: Seq<char>) -> Option<Seq<int>> {
    if f.pattern.len() == 0 {
        Some(Seq::empty())
    } else {
        let fold = !spec_has_upper(f.pattern);
        let m = spec_folded(f.pattern, fold);
        let t = spec_folded(target, fold);
        match f.filter_type {
            FilterType::StrMatch => greedy_match(m, t, 0),
            FilterType::RegExpr => spec_regex_indices(m, t),
        }
    }
}

/// The mathematical image of a matcher's answer.
pub open spec fn match_result_view(r: Option<Vec<usize>>) -> Option<Seq<int>> {
    match r {
        None => None,
        Some(v) => Some(v@.map_values(|u: usize| u as int)),
    }
}

impl FilterInfo {
    /// Match this filter against one name. An empty pattern always answers
    /// `Some` with no matched index (the row is kept, unranked).
    pub fn is_match(&self, target: &String) -> (r: Option<Vec<usize>>)
        ensures
            match_result_view(r) == spec_is_match(self@, target@),
            self@.pattern.len() == 0 ==> r is Some && r->Some_0@.len() == 0,
    {
        if self.matcher_str.as_str().is_empty() {
            let empty: Vec<usize> = Vec::new();
            proof {
                assert(empty@.map_values(|u: usize| u as int) =~= Seq::<int>::empty());
            }
            return Some(empty);
        }
        let pat_chars = chars_of(self.matcher_str.as_str());
        let mut has_upper = false;
        let mut i: usize = 0;
        #[verifier::loop_isolation(false)]
        while i < pat_chars.len()
            invariant
                i <= pat_chars@.len(),
                has_upper ==> spec_has_upper(self.matcher_str@),
                !has_upper ==> forall|j: int|
                    0 <= j < i ==> !char_is_upper(self.matcher_str@[j]),
            decreases pat_chars@.len() - i,
        {
            if is_upper_char(pat_chars[i]) {
                has_upper = true;
            }
            i = i + 1;
        }
        proof {
            assert(has_upper == spec_has_upper(self.matcher_str@));
        }
        let fold = !has_upper;
        let m_str: String = if fold {
            to_lower(self.matcher_str.as_str())
        } else {
            self.matcher_str.clone()
        };
        let t_str: String = if fold {
            to_lower(target.as_str())
        } else {
            target.clone()
        };
        match self.filter_type {
            FilterType::StrMatch => {
                let mv = chars_of(m_str.as_str());
                let tv = chars_of(t_str.as_str());
                str_match(&mv, &tv)
            },
            FilterType::RegExpr => {
                match regex_find_span(m_str.as_str(), t_str.as_str()) {
                    None => None,
                    Some((s, e)) => {
                        let mut v: Vec<usize> = Vec::new();
                        let mut idx = s;
                        #[verifier::loop_isolation(false)]
                        while idx < e
                            invariant
                                s <= idx <= e,
                                v@ == Seq::new((idx - s) as nat, |k: int| (s + k) as usize),
                            decreases e - idx,
                        {
                            proof {
                                assert(v@ + seq![idx] =~= Seq::new(
                                    (idx + 1 - s) as nat,
                                    |k: int| (s + k) as usize,
                                ));
                            }
                            v.push(idx);
                            idx = idx + 1;
                        }
                        proof {
                            assert(v@.map_values(|u: usize| u as int) =~= Seq::new(
                                (e - s) as nat,
                                |i: int| s + i,
                            ));
                        }
                        Some(v)
                    },
                }
            },
        }
    }
}

/// `m` embeds `p` into `t`: strictly increasing positions, in bounds, and the
/// character at each position is the corresponding pattern character.
pub open spec fn is_embedding(m: Seq<int>, p: Seq<char>, t: Seq<char>) -> bool {
    &&& m.len() == p.len()
    &&& forall|k: int| 0 <= k < m.len() ==> 0 <= #[trigger] m[k] < t.len() && t[m[k]] == p[k]
    &&& forall|k: int| 0 < k < m.len() ==> m[k - 1] < #[trigger] m[k]
}

/// `p` is a (not necessarily contiguous) subsequence of `t`.
pub open spec fn is_subsequence_of(p: Seq<char>, t: Seq<char>) -> bool {
    exists|m: Seq<int>| is_embedding(m, p, t)
}

proof fn lemma_greedy_match_embeds_from(p: Seq<char>, t: Seq<char>, offset: int)
    ensures
        match greedy_match(p, t, offset) {
            Some(m) => {
                &&& m.len() == p.len()
                &&& forall|k: int|
                    0 <= k < m.len() ==> offset <= #[trigger] m[k] < offset + t.len() && t[m[k]
                        - offset] == p[k]
                &&& forall|k: int| 0 < k < m.len() ==> m[k - 1] < #[trigger] m[k]
            },
            None => true,
        },
    decreases p.len(),
{
    if p.len() == 0 {
    } else {
        lemma_longest_part(p, t, p.len() as int);
        match longest_part(p, t, p.len() as int) {
            None => {},
            Some((s, l)) => {
                if 1 <= l <= p.len() && 0 <= s && s + l <= t.len() {
                    let p2 = p.subrange(l, p.len() as int);
                    let t2 = t.subrange(s + l, t.len() as int);
                    lemma_greedy_match_embeds_from(p2, t2, offset + s + l);
                    match greedy_match(p2, t2, offset + s + l) {
                        None => {},
                        Some(rest) => {
                            let block = Seq::new(l as nat, |i: int| offset + s + i);
                            let m = block + rest;
                            assert(sub_at(t, p.subrange(0, l), s));
                            assert forall|k: int|
                                0 <= k < m.len() implies offset <= #[trigger] m[k] < offset
                                + t.len() && t[m[k] - offset] == p[k] by {
                                if k < l {
                                    assert(t.subrange(s, s + l)[k] == p.subrange(0, l)[k]);
                                } else {
                                    assert(m[k] == rest[k - l]);
                                    assert(t2[rest[k - l] - (offset + s + l)] == p2[k - l]);
                                }
                            }
                            assert forall|k: int| 0 < k < m.len() implies m[k - 1] < #[trigger] m[k] by {
                                if k == l {
                                    assert(rest.len() > 0);
                                    assert(offset + s + l <= rest[0]);
                                }
                            }
                        },
                    }
                }
            },
        }
    }
}

/// When the greedy subsequence matcher succeeds, the indices it reports embed
/// the pattern into the target: they are strictly increasing, within bounds,
/// and pick out exactly the pattern's characters, so the pattern is a
/// subsequence of the target.
pub proof fn lemma_greedy_match_is_subsequence(p: Seq<char>, t: Seq<char>)
    ensures
        match greedy_match(p, t, 0) {
            Some(m) => is_embedding(m, p, t) && is_subsequence_of(p, t),
            None => true,
        },
{
    lemma_greedy_match_embeds_from(p, t, 0);
}

/// A pattern that occurs as one contiguous block of the target always
/// matches: the greedy matcher takes the whole pattern in its first step.
/// (A scattered subsequence, by contrast, can escape it: the longest prefix
/// occurring as a block may stand too late in the target.)
pub proof fn lemma_contiguous_occurrence_matches(p: Seq<char>, t: Seq<char>)
    requires
        exists|i: int| sub_at(t, p, i),
    ensures
        greedy_match(p, t, 0) is Some,
{
    if p.len() == 0 {
    } else {
        lemma_first_occurrence(t, p);
        assert(p.subrange(0, p.len() as int) =~= p);
        match first_occurrence(t, p) {
            None => {
                let i = choose|i: int| sub_at(t, p, i);
                assert(false);
            },
            Some(s) => {
                assert(sub_at(t, p, s));
                assert(longest_part(p, t, p.len() as int) == Some((s, p.len() as int)));
                assert(p.subrange(p.len() as int, p.len() as int) =~= Seq::<char>::empty());
                assert(greedy_match(Seq::<char>::empty(), t.subrange(s + p.len(), t.len() as int), s + p.len() as int)
                    == Some(Seq::<int>::empty()));
                assert(greedy_match(p, t, 0) == Some(
                    Seq::new(p.len(), |i: int| s + i) + Seq::<int>::empty(),
                ));
            },
        }
    }
}

/// A successful subsequence-mode match reports indices that embed the
/// case-folded pattern into the case-folded target: strictly increasing,
/// within bounds, picking out the pattern's characters, so the pattern is a
/// subsequence of the target under the case rules. (An empty pattern matches
/// with no index at all.)
pub proof fn lemma_is_match_embeds(f: FilterV, target: Seq<char>)
    requires
        f.filter_type == FilterType::StrMatch,
    ensures
        match spec_is_match(f, target) {
            Some(m) => if f.pattern.len() == 0 {
                m.len() == 0
            } else {
                let fold = !spec_has_upper(f.pattern);
                &&& is_embedding(m, spec_folded(f.pattern, fold), spec_folded(target, fold))
                &&& is_subsequence_of(spec_folded(f.pattern, fold), spec_folded(target, fold))
            },
            None => true,
        },
{
    if f.pattern.len() > 0 {
        let fold = !spec_has_upper(f.pattern);
        lemma_greedy_match_is_subsequence(spec_folded(f.pattern, fold), spec_folded(target, fold));
    }
}

// ---------------------------------------------------------------------------
// The matching rate: run-length clusters of matched indices, totally ordered.
// ---------------------------------------------------------------------------

/// One contiguous run of matched indices: its length and where it starts.
#[derive(Debug)]
pub struct ClusterInfo {
    pub length: usize,
    pub start_idx: usize,
}

impl View for ClusterInfo {
    type V = (int, int);

    open spec fn view(&self) -> (int, int) {
        (self.length as int, self.start_idx as int)
    }
}

/// The ranking key of a filter answer. "No match" is the empty cluster list
/// and ranks below every match.
#[derive(Debug)]
pub struct MatchingRate {
    pub result: Vec<ClusterInfo>,
}

impl View for MatchingRate {
    type V = Seq<(int, int)>;

    open spec fn view(&self) -> Seq<(int, int)> {
        self.result@.map_values(|c: ClusterInfo| c@)
    }
}

/// Length of the initial run of consecutive values.
pub open spec fn run_length(m: Seq<int>) -> int
    decreases m.len(),
{
    if m.len() <= 1 {
        m.len() as int
    } else if m[1] == m[0] + 1 {
        1 + run_length(m.skip(1))
    } else {
        1
    }
}

proof fn lemma_run_length_bounds(m: Seq<int>)
    requires
        m.len() >= 1,
    ensures
        1 <= run_length(m) <= m.len(),
    decreases m.len(),
{
    if m.len() > 1 && m[1] == m[0] + 1 {
        lemma_run_length_bounds(m.skip(1));
    }
}

/// The (length, start) pairs of the maximal consecutive runs of `m`, in order.
pub open spec fn clusters_of(m: Seq<int>) -> Seq<(int, int)>
    decreases m.len(),
{
    if m.len() == 0 {
        Seq::empty()
    } else {
        let r = run_length(m);
        if 1 <= r <= m.len() {
            seq![(r, m[0])] + clusters_of(m.skip(r))
        } else {
            Seq::empty()
        }
    }
}

/// The rate of a filter answer: no clusters for "no match" or an empty match,
/// else the runs of the matched index list.
pub open spec fn spec_matching_rate(m: Option<Seq<int>>) -> Seq<(int, int)> {
    match m {
        None => Seq::empty(),
        Some(v) => clusters_of(v),
    }
}

/// A run of `r` consecutive values from position 0, broken (or ended) at `r`,
/// pins `run_length` down.
proof fn lemma_run_length_exact(m: Seq<int>, r: int)
    requires
        1 <= r <= m.len(),
        forall|j: int| 1 <= j < r ==> #[trigger] m[j] == m[j - 1] + 1,
        r < m.len() ==> m[r] != m[r - 1] + 1,
    ensures
        run_length(m) == r,
    decreases m.len(),
{
    if r == 1 {
        if m.len() > 1 {
            assert(m[1] != m[0] + 1);
        }
    } else {
        assert(m[1] == m[0] + 1);
        assert forall|j: int| 1 <= j < r - 1 implies #[trigger] m.skip(1)[j] == m.skip(1)[j - 1] + 1 by {
            assert(m.skip(1)[j] == m[j + 1]);
            assert(m.skip(1)[j - 1] == m[j]);
            assert(m[j + 1] == m[j] + 1);
        }
        assert(r - 1 < m.skip(1).len() ==> m.skip(1)[r - 1] != m.skip(1)[r - 2] + 1) by {
            if r - 1 < m.skip(1).len() {
                assert(m.skip(1)[r - 1] == m[r as int]);
                assert(m.skip(1)[r - 2] == m[r - 1]);
            }
        }
        lemma_run_length_exact(m.skip(1), r - 1);
    }
}

impl MatchingRate {
    /// The rate of an excluded row: the empty cluster list.
    pub fn no_match() -> (r: MatchingRate)
        ensures
            r@ == Seq::<(int, int)>::empty(),
    {
        let r = MatchingRate { result: Vec::new() };
        proof {
            assert(r@ =~= Seq::<(int, int)>::empty());
        }
        r
    }
}

/// Compute the rate of a filter answer: group the matched indices into
/// maximal consecutive runs.
#[verifier::rlimit(30)]
pub fn matching_rate(matched_idx_list: &Option<Vec<usize>>) -> (r: MatchingRate)
    ensures
        r@ == spec_matching_rate(
            match matched_idx_list {
                None => None,
                Some(v) => Some(v@.map_values(|u: usize| u as int)),
            },
        ),
{
    let list = match matched_idx_list {
        None => {
            return MatchingRate::no_match();
        },
        Some(v) => v,
    };
    if list.len() == 0 {
        proof {
            assert(list@.map_values(|u: usize| u as int) =~= Seq::<int>::empty());
        }
        return MatchingRate::no_match();
    }
    let ghost m = list@.map_values(|u: usize| u as int);
    let mut result: Vec<ClusterInfo> = Vec::new();
    let mut run_start: usize = 0;
    let mut k: usize = 1;
    proof {
        assert(m.skip(0) =~= m);
        assert(result@.map_values(|c: ClusterInfo| c@) + clusters_of(m) =~= clusters_of(m));
    }
    #[verifier::loop_isolation(false)]
    while k < list.len()
        invariant
            run_start < k <= list@.len(),
            forall|j: int| run_start < j < k ==> #[trigger] m[j] == m[j - 1] + 1,
            clusters_of(m) == result@.map_values(|c: ClusterInfo| c@) + clusters_of(
                m.skip(run_start as int),
            ),
        decreases list@.len() - k,
    {
        let cur = list[k - 1];
        let next = list[k];
        let broken = !(next > cur && next - cur == 1);
        if broken {
            let ghost tail = m.skip(run_start as int);
            proof {
                assert forall|j: int| 1 <= j < k - run_start implies #[trigger] tail[j] == tail[j - 1]
                    + 1 by {
                    assert(tail[j] == m[run_start + j]);
                    assert(tail[j - 1] == m[run_start + j - 1]);
                    assert(m[run_start + j] == m[run_start + j - 1] + 1);
                }
                assert(tail[(k - run_start) as int] == m[k as int]);
                assert(tail[(k - run_start) - 1] == m[k - 1]);
                lemma_run_length_exact(tail, k - run_start as int);
                assert(clusters_of(tail) == seq![(k - run_start as int, m[run_start as int])]
                    + clusters_of(tail.skip(k - run_start as int)));
                assert(tail.skip(k - run_start as int) =~= m.skip(k as int));
            }
            result.push(ClusterInfo { length: k - run_start, start_idx: list[run_start] });
            proof {
                assert(result@.map_values(|c: ClusterInfo| c@) =~= result@.subrange(
                    0,
                    result@.len() - 1,
                ).map_values(|c: ClusterInfo| c@) + seq![
                    (k - run_start as int, m[run_start as int]),
                ]);
            }
            run_start = k;
        }
        k = k + 1;
    }
    let ghost tail = m.skip(run_start as int);
    proof {
        assert forall|j: int| 1 <= j < k - run_start implies #[trigger] tail[j] == tail[j - 1] + 1 by {
            assert(tail[j] == m[run_start + j]);
            assert(tail[j - 1] == m[run_start + j - 1]);
            assert(m[run_start + j] == m[run_start + j - 1] + 1);
        }
        lemma_run_length_exact(tail, k - run_start as int);
        assert(clusters_of(tail) == seq![(k - run_start as int, m[run_start as int])]
            + clusters_of(tail.skip(k - run_start as int)));
        assert(tail.skip(k - run_start as int) =~= Seq::<int>::empty());
    }
    result.push(ClusterInfo { length: k - run_start, start_idx: list[run_start] });
    let r = MatchingRate { result };
    proof {
        assert(r@ =~= r.result@.subrange(0, r.result@.len() - 1).map_values(
            |c: ClusterInfo| c@,
        ) + seq![(k - run_start as int, m[run_start as int])]);
        assert(r@ =~= clusters_of(m));
    }
    r
}

// ---------------------------------------------------------------------------
// Ordering of matching rates.
// ---------------------------------------------------------------------------

/// Lexicographic comparison of integer sequences; a proper prefix is smaller.
/// Answers -1, 0 or 1.
pub open spec fn lex_cmp(a: Seq<int>, b: Seq<int>) -> int
    decreases a.len(),
{
    if a.len() == 0 && b.len() == 0 {
        0
    } else if a.len() == 0 {
        -1
    } else if b.len() == 0 {
        1
    } else if a[0] < b[0] {
        -1
    } else if a[0] > b[0] {
        1
    } else {
        lex_cmp(a.skip(1), b.skip(1))
    }
}

/// The run lengths of a cluster list.
pub open spec fn lengths_of(c: Seq<(int, int)>) -> Seq<int> {
    c.map_values(|p: (int, int)| p.0)
}

/// The run start positions of a cluster list.
pub open spec fn starts_of(c: Seq<(int, int)>) -> Seq<int> {
    c.map_values(|p: (int, int)| p.1)
}

/// How two rates compare: first by their run-length sequences,
/// lexicographically; on a tie, the rate whose runs start earlier is the
/// greater (start sequences are compared the other way round).
pub open spec fn rate_cmp(a: Seq<(int, int)>, b: Seq<(int, int)>) -> int {
    let by_length = lex_cmp(lengths_of(a), lengths_of(b));
    if by_length != 0 {
        by_length
    } else {
        lex_cmp(starts_of(b), starts_of(a))
    }
}

pub proof fn lemma_lex_cmp_basic(a: Seq<int>, b: Seq<int>)
    ensures
        -1 <= lex_cmp(a, b) <= 1,
        lex_cmp(a, b) == 0 <==> a == b,
        lex_cmp(a, b) == -lex_cmp(b, a),
    decreases a.len(),
{
    if a.len() == 0 && b.len() == 0 {
        assert(a =~= b);
    } else if a.len() == 0 || b.len() == 0 {
        assert(a != b);
    } else {
        lemma_lex_cmp_basic(a.skip(1), b.skip(1));
        if lex_cmp(a, b) == 0 {
            assert(a.skip(1) == b.skip(1));
            assert(a =~= b) by {
                assert forall|i: int| 0 <= i < a.len() implies a[i] == b[i] by {
                    if i > 0 {
                        assert(a.skip(1)[i - 1] == b.skip(1)[i - 1]);
                    }
                }
            }
        }
        if a == b {
            assert(a.skip(1) =~= b.skip(1));
        }
    }
}

pub proof fn lemma_lex_cmp_trans(a: Seq<int>, b: Seq<int>, c: Seq<int>)
    requires
        lex_cmp(a, b) <= 0,
        lex_cmp(b, c) <= 0,
    ensures
        lex_cmp(a, c) <= 0,
        lex_cmp(a, b) < 0 || lex_cmp(b, c) < 0 ==> lex_cmp(a, c) < 0,
    decreases a.len() + b.len() + c.len(),
{
    lemma_lex_cmp_basic(a, b);
    lemma_lex_cmp_basic(b, c);
    lemma_lex_cmp_basic(a, c);
    if a == b {
        assert(lex_cmp(a, c) == lex_cmp(b, c));
    } else if b == c {
        assert(lex_cmp(a, c) == lex_cmp(a, b));
    } else if a.len() == 0 {
        if c.len() == 0 {
            assert(lex_cmp(b, c) == 1 || b.len() == 0);
        }
    } else {
        assert(b.len() > 0);
        assert(c.len() > 0);
        if a[0] == b[0] && b[0] == c[0] {
            lemma_lex_cmp_trans(a.skip(1), b.skip(1), c.skip(1));
        }
    }
}

/// The matching rate is a total order: the comparison answers -1, 0 or 1;
/// it is antisymmetric (swapping the sides negates it, and 0 means the two
/// cluster lists are equal) and transitive.
pub proof fn lemma_rate_cmp_total_order(a: Seq<(int, int)>, b: Seq<(int, int)>, c: Seq<
    (int, int),
>)
    ensures
        -1 <= rate_cmp(a, b) <= 1,
        rate_cmp(a, b) == 0 <==> a == b,
        rate_cmp(a, b) == -rate_cmp(b, a),
        rate_cmp(a, b) <= 0 && rate_cmp(b, c) <= 0 ==> rate_cmp(a, c) <= 0,
{
    lemma_lex_cmp_basic(lengths_of(a), lengths_of(b));
    lemma_lex_cmp_basic(lengths_of(b), lengths_of(c));
    lemma_lex_cmp_basic(lengths_of(a), lengths_of(c));
    lemma_lex_cmp_basic(starts_of(a), starts_of(b));
    lemma_lex_cmp_basic(starts_of(b), starts_of(c));
    lemma_lex_cmp_basic(starts_of(a), starts_of(c));
    if rate_cmp(a, b) == 0 {
        assert(lengths_of(a) == lengths_of(b));
        assert(starts_of(a) == starts_of(b));
        assert(a =~= b) by {
            assert forall|i: int| 0 <= i < a.len() implies a[i] == b[i] by {
                assert(lengths_of(a)[i] == lengths_of(b)[i]);
                assert(starts_of(a)[i] == starts_of(b)[i]);
            }
        }
    }
    if rate_cmp(a, b) <= 0 && rate_cmp(b, c) <= 0 {
        lemma_lex_cmp_trans(lengths_of(a), lengths_of(b), lengths_of(c));
        if lex_cmp(lengths_of(a), lengths_of(b)) == 0 && lex_cmp(lengths_of(b), lengths_of(c))
            == 0 {
            lemma_lex_cmp_trans(starts_of(c), starts_of(b), starts_of(a));
        }
    }
}

/// "No match" (the empty cluster list) compares strictly below every match:
/// every non-empty matched index list yields a rate above it.
pub proof fn lemma_no_match_is_lowest(m: Seq<int>)
    requires
        m.len() >= 1,
    ensures
        rate_cmp(Seq::<(int, int)>::empty(), spec_matching_rate(Some(m))) == -1,
{
    lemma_run_length_bounds(m);
    assert(clusters_of(m).len() >= 1);
    assert(lengths_of(Seq::<(int, int)>::empty()).len() == 0);
    assert(lengths_of(clusters_of(m)).len() >= 1);
}

impl MatchingRate {
    /// Compare two rates: by run lengths lexicographically, then, the other
    /// way round, by run start positions, so that an earlier match ranks
    /// higher.
    pub fn cmp(&self, other: &Self) -> (r: core::cmp::Ordering)
        ensures
            r == core::cmp::Ordering::Less <==> rate_cmp(self@, other@) == -1,
            r == core::cmp::Ordering::Equal <==> rate_cmp(self@, other@) == 0,
            r == core::cmp::Ordering::Greater <==> rate_cmp(self@, other@) == 1,
    {
        proof {
            lemma_rate_cmp_total_order(self@, other@, other@);
        }
        let by_length = cmp_by_lengths(&self.result, &other.result);
        if by_length != 0 {
            if by_length < 0 {
                core::cmp::Ordering::Less
            } else {
                core::cmp::Ordering::Greater
            }
        } else {
            let by_start = cmp_by_starts(&other.result, &self.result);
            if by_start < 0 {
                core::cmp::Ordering::Less
            } else if by_start == 0 {
                core::cmp::Ordering::Equal
            } else {
                core::cmp::Ordering::Greater
            }
        }
    }
}

/// Lexicographic comparison of the `length` fields of two cluster lists.
fn cmp_by_lengths(a: &Vec<ClusterInfo>, b: &Vec<ClusterInfo>) -> (r: i8)
    ensures
        r as int == lex_cmp(
            lengths_of(a@.map_values(|c: ClusterInfo| c@)),
            lengths_of(b@.map_values(|c: ClusterInfo| c@)),
        ),
{
    let ghost av = lengths_of(a@.map_values(|c: ClusterInfo| c@));
    let ghost bv = lengths_of(b@.map_values(|c: ClusterInfo| c@));
    let mut i: usize = 0;
    proof {
        assert(av.skip(0) =~= av);
        assert(bv.skip(0) =~= bv);
    }
    #[verifier::loop_isolation(false)]
    while i < a.len() && i < b.len()
        invariant
            i <= a@.len(),
            i <= b@.len(),
            lex_cmp(av, bv) == lex_cmp(av.skip(i as int), bv.skip(i as int)),
        decreases a@.len() - i,
    {
        proof {
            assert(av.skip(i as int)[0] == a@[i as int]@.0);
            assert(bv.skip(i as int)[0] == b@[i as int]@.0);
        }
        if a[i].length < b[i].length {
            return -1;
        }
        if a[i].length > b[i].length {
            return 1;
        }
        proof {
            assert(av.skip(i as int).skip(1) =~= av.skip(i + 1));
            assert(bv.skip(i as int).skip(1) =~= bv.skip(i + 1));
        }
        i = i + 1;
    }
    if a.len() < b.len() {
        proof {
            assert(av.skip(i as int).len() == 0);
            assert(bv.skip(i as int).len() > 0);
        }
        -1
    } else if a.len() > b.len() {
        proof {
            assert(bv.skip(i as int).len() == 0);
            assert(av.skip(i as int).len() > 0);
        }
        1
    } else {
        proof {
            assert(av.skip(i as int).len() == 0);
            assert(bv.skip(i as int).len() == 0);
        }
        0
    }
}

/// Lexicographic comparison of the `start_idx` fields of two cluster lists.
fn cmp_by_starts(a: &Vec<ClusterInfo>, b: &Vec<ClusterInfo>) -> (r: i8)
    ensures
        r as int == lex_cmp(
            starts_of(a@.map_values(|c: ClusterInfo| c@)),
            starts_of(b@.map_values(|c: ClusterInfo| c@)),
        ),
{
    let ghost av = starts_of(a@.map_values(|c: ClusterInfo| c@));
    let ghost bv = starts_of(b@.map_values(|c: ClusterInfo| c@));
    let mut i: usize = 0;
    proof {
        assert(av.skip(0) =~= av);
        assert(bv.skip(0) =~= bv);
    }
    #[verifier::loop_isolation(false)]
    while i < a.len() && i < b.len()
        invariant
            i <= a@.len(),
            i <= b@.len(),
            lex_cmp(av, bv) == lex_cmp(av.skip(i as int), bv.skip(i as int)),
        decreases a@.len() - i,
    {
        proof {
            assert(av.skip(i as int)[0] == a@[i as int]@.1);
            assert(bv.skip(i as int)[0] == b@[i as int]@.1);
        }
        if a[i].start_idx < b[i].start_idx {
            return -1;
        }
        if a[i].start_idx > b[i].start_idx {
            return 1;
        }
        proof {
            assert(av.skip(i as int).skip(1) =~= av.skip(i + 1));
            assert(bv.skip(i as int).skip(1) =~= bv.skip(i + 1));
        }
        i = i + 1;
    }
    if a.len() < b.len() {
        proof {
            assert(av.skip(i as int).len() == 0);
            assert(bv.skip(i as int).len() > 0);
        }
        -1
    } else if a.len() > b.len() {
        proof {
            assert(bv.skip(i as int).len() == 0);
            assert(av.skip(i as int).len() > 0);
        }
        1
    } else {
        proof {
            assert(av.skip(i as int).len() == 0);
            assert(bv.skip(i as int).len() == 0);
        }
        0
    }
}

} // verus!
