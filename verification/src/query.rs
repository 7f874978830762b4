//! The channel query engine: serves one page of the channel table under a
//! filter (favorites, recently watched, a category, or none), sorted by
//! name or by catalog position, or searches by channel name and by
//! currently-airing programme title; the page's rows are hydrated with
//! their guide sublists, in exactly the order the selection produced.

use vstd::prelude::*;

use crate::model::{Channel, ChannelView, EpgEntry, EpgEntryView};
use crate::store::{
    catalog_wf, channel_by_id, has_category, has_channel, has_recent, Catalog, CatalogView,
};
use crate::text::{contains_ci, lex_lt};

verus! {

/// Stable insertion of a string-keyed pair: it lands after every pair
/// whose key is not greater.
pub open spec fn insort_str(p: (Seq<char>, i64), s: Seq<(Seq<char>, i64)>) -> Seq<(Seq<char>, i64)>
    decreases s.len(),
{
    if s.len() == 0 {
        seq![p]
    } else if lex_lt(p.0, s[0].0) {
        seq![p] + s
    } else {
        seq![s[0]] + insort_str(p, s.drop_first())
    }
}

/// Stable insertion sort over string keys, processing left to right.
pub open spec fn sort_str_pairs(s: Seq<(Seq<char>, i64)>) -> Seq<(Seq<char>, i64)>
    decreases s.len(),
{
    if s.len() == 0 {
        Seq::empty()
    } else {
        insort_str(s.last(), sort_str_pairs(s.drop_last()))
    }
}

/// Stable insertion of an integer-keyed pair.
pub open spec fn insort_i64(p: (i64, i64), s: Seq<(i64, i64)>) -> Seq<(i64, i64)>
    decreases s.len(),
{
    if s.len() == 0 {
        seq![p]
    } else if p.0 < s[0].0 {
        seq![p] + s
    } else {
        seq![s[0]] + insort_i64(p, s.drop_first())
    }
}

/// Stable insertion sort over integer keys.
pub open spec fn sort_i64_pairs(s: Seq<(i64, i64)>) -> Seq<(i64, i64)>
    decreases s.len(),
{
    if s.len() == 0 {
        Seq::empty()
    } else {
        insort_i64(s.last(), sort_i64_pairs(s.drop_last()))
    }
}

/// Stable insertion of a plain id.
pub open spec fn insort_id(p: i64, s: Seq<i64>) -> Seq<i64>
    decreases s.len(),
{
    if s.len() == 0 {
        seq![p]
    } else if p < s[0] {
        seq![p] + s
    } else {
        seq![s[0]] + insort_id(p, s.drop_first())
    }
}

/// Ascending sort of plain ids.
pub open spec fn sort_ids(s: Seq<i64>) -> Seq<i64>
    decreases s.len(),
{
    if s.len() == 0 {
        Seq::empty()
    } else {
        insort_id(s.last(), sort_ids(s.drop_last()))
    }
}

/// The sequence backwards.
pub open spec fn rev_seq<T>(s: Seq<T>) -> Seq<T> {
    Seq::new(s.len(), |i: int| s[s.len() - 1 - i])
}

/// Adjacent duplicates removed; on a sorted list, the distinct values.
pub open spec fn dedup_sorted(s: Seq<i64>) -> Seq<i64>
    decreases s.len(),
{
    if s.len() == 0 {
        Seq::empty()
    } else {
        let d = dedup_sorted(s.drop_last());
        if d.len() > 0 && d.last() == s.last() {
            d
        } else {
            d.push(s.last())
        }
    }
}

/// Every element an insertion yields is the inserted pair or one of the
/// existing ones.
proof fn lemma_insort_str_elems(p: (Seq<char>, i64), s: Seq<(Seq<char>, i64)>)
    ensures
        forall|i: int|
            0 <= i < insort_str(p, s).len() ==> #[trigger] insort_str(p, s)[i] == p || exists|j: int|
                0 <= j < s.len() && s[j] == insort_str(p, s)[i],
    decreases s.len(),
{
    if s.len() == 0 {
    } else if lex_lt(p.0, s[0].0) {
    } else {
        lemma_insort_str_elems(p, s.drop_first());
        assert forall|i: int| 0 <= i < insort_str(p, s).len() implies #[trigger] insort_str(
            p,
            s,
        )[i] == p || exists|j: int| 0 <= j < s.len() && s[j] == insort_str(p, s)[i] by {
            let r = insort_str(p, s);
            if i == 0 {
                assert(r[0] == s[0]);
            } else {
                let rr = insort_str(p, s.drop_first());
                assert(r[i] == rr[i - 1]);
                if rr[i - 1] == p {
                } else {
                    let j = choose|j: int|
                        0 <= j < s.drop_first().len() && #[trigger] s.drop_first()[j] == rr[i - 1];
                    assert(s[j + 1] == rr[i - 1]);
                }
            }
        }
    }
}

/// Every element the sort yields is one of the input pairs.
proof fn lemma_sort_str_elems(s: Seq<(Seq<char>, i64)>)
    ensures
        forall|i: int|
            0 <= i < sort_str_pairs(s).len() ==> exists|j: int|
                0 <= j < s.len() && s[j] == #[trigger] sort_str_pairs(s)[i],
    decreases s.len(),
{
    if s.len() > 0 {
        lemma_sort_str_elems(s.drop_last());
        lemma_insort_str_elems(s.last(), sort_str_pairs(s.drop_last()));
        assert forall|i: int| 0 <= i < sort_str_pairs(s).len() implies exists|j: int|
            0 <= j < s.len() && s[j] == #[trigger] sort_str_pairs(s)[i] by {
            let r = sort_str_pairs(s);
            let d = sort_str_pairs(s.drop_last());
            assert(r == insort_str(s.last(), d));
            if r[i] == s.last() {
                assert(s[s.len() - 1] == r[i]);
            } else {
                let j = choose|j: int| 0 <= j < d.len() && #[trigger] d[j] == r[i];
                let j2 = choose|j2: int|
                    0 <= j2 < s.drop_last().len() && #[trigger] s.drop_last()[j2] == d[j];
                assert(s[j2] == r[i]);
            }
        }
    }
}

/// Every element an insertion yields is the inserted pair or an existing
/// one.
proof fn lemma_insort_i64_elems(p: (i64, i64), s: Seq<(i64, i64)>)
    ensures
        forall|i: int|
            0 <= i < insort_i64(p, s).len() ==> #[trigger] insort_i64(p, s)[i] == p || exists|j: int|
                0 <= j < s.len() && s[j] == insort_i64(p, s)[i],
    decreases s.len(),
{
    if s.len() == 0 {
    } else if p.0 < s[0].0 {
    } else {
        lemma_insort_i64_elems(p, s.drop_first());
        assert forall|i: int| 0 <= i < insort_i64(p, s).len() implies #[trigger] insort_i64(
            p,
            s,
        )[i] == p || exists|j: int| 0 <= j < s.len() && s[j] == insort_i64(p, s)[i] by {
            let r = insort_i64(p, s);
            if i == 0 {
                assert(r[0] == s[0]);
            } else {
                let rr = insort_i64(p, s.drop_first());
                assert(r[i] == rr[i - 1]);
                if rr[i - 1] == p {
                } else {
                    let j = choose|j: int|
                        0 <= j < s.drop_first().len() && #[trigger] s.drop_first()[j] == rr[i - 1];
                    assert(s[j + 1] == rr[i - 1]);
                }
            }
        }
    }
}

/// Every element the sort yields is one of the input pairs.
proof fn lemma_sort_i64_elems(s: Seq<(i64, i64)>)
    ensures
        forall|i: int|
            0 <= i < sort_i64_pairs(s).len() ==> exists|j: int|
                0 <= j < s.len() && s[j] == #[trigger] sort_i64_pairs(s)[i],
    decreases s.len(),
{
    if s.len() > 0 {
        lemma_sort_i64_elems(s.drop_last());
        lemma_insort_i64_elems(s.last(), sort_i64_pairs(s.drop_last()));
        assert forall|i: int| 0 <= i < sort_i64_pairs(s).len() implies exists|j: int|
            0 <= j < s.len() && s[j] == #[trigger] sort_i64_pairs(s)[i] by {
            let r = sort_i64_pairs(s);
            let d = sort_i64_pairs(s.drop_last());
            assert(r == insort_i64(s.last(), d));
            if r[i] == s.last() {
                assert(s[s.len() - 1] == r[i]);
            } else {
                let j = choose|j: int| 0 <= j < d.len() && #[trigger] d[j] == r[i];
                let j2 = choose|j2: int|
                    0 <= j2 < s.drop_last().len() && #[trigger] s.drop_last()[j2] == d[j];
                assert(s[j2] == r[i]);
            }
        }
    }
}

/// `insort_str` lands the pair exactly at the first index whose key is
/// greater.
proof fn lemma_insort_str_at(s: Seq<(Seq<char>, i64)>, p: (Seq<char>, i64), idx: int)
    requires
        0 <= idx <= s.len(),
        forall|j: int| 0 <= j < idx ==> !lex_lt(p.0, (#[trigger] s[j]).0),
        idx < s.len() ==> lex_lt(p.0, s[idx].0),
    ensures
        insort_str(p, s) == s.subrange(0, idx) + seq![p] + s.subrange(idx, s.len() as int),
    decreases s.len(),
{
    if s.len() == 0 {
        assert(insort_str(p, s) =~= s.subrange(0, idx) + seq![p] + s.subrange(
            idx,
            s.len() as int,
        ));
    } else if lex_lt(p.0, s[0].0) {
        assert(idx == 0);
        assert(insort_str(p, s) =~= s.subrange(0, idx) + seq![p] + s.subrange(
            idx,
            s.len() as int,
        ));
    } else {
        assert(idx >= 1);
        let d = s.drop_first();
        assert forall|j: int| 0 <= j < idx - 1 implies !lex_lt(p.0, (#[trigger] d[j]).0) by {
            assert(d[j] == s[j + 1]);
        }
        if idx - 1 < d.len() {
            assert(d[idx - 1] == s[idx]);
        }
        lemma_insort_str_at(d, p, idx - 1);
        assert(insort_str(p, s) =~= s.subrange(0, idx) + seq![p] + s.subrange(
            idx,
            s.len() as int,
        ));
    }
}

/// `insort_i64` lands the pair exactly at the first index whose key is
/// greater.
proof fn lemma_insort_i64_at(s: Seq<(i64, i64)>, p: (i64, i64), idx: int)
    requires
        0 <= idx <= s.len(),
        forall|j: int| 0 <= j < idx ==> !(p.0 < (#[trigger] s[j]).0),
        idx < s.len() ==> p.0 < s[idx].0,
    ensures
        insort_i64(p, s) == s.subrange(0, idx) + seq![p] + s.subrange(idx, s.len() as int),
    decreases s.len(),
{
    if s.len() == 0 {
        assert(insort_i64(p, s) =~= s.subrange(0, idx) + seq![p] + s.subrange(
            idx,
            s.len() as int,
        ));
    } else if p.0 < s[0].0 {
        assert(idx == 0);
        assert(insort_i64(p, s) =~= s.subrange(0, idx) + seq![p] + s.subrange(
            idx,
            s.len() as int,
        ));
    } else {
        assert(idx >= 1);
        let d = s.drop_first();
        assert forall|j: int| 0 <= j < idx - 1 implies !(p.0 < (#[trigger] d[j]).0) by {
            assert(d[j] == s[j + 1]);
        }
        if idx - 1 < d.len() {
            assert(d[idx - 1] == s[idx]);
        }
        lemma_insort_i64_at(d, p, idx - 1);
        assert(insort_i64(p, s) =~= s.subrange(0, idx) + seq![p] + s.subrange(
            idx,
            s.len() as int,
        ));
    }
}

/// `insort_id` lands the id exactly at the first index holding a greater
/// one.
proof fn lemma_insort_id_at(s: Seq<i64>, p: i64, idx: int)
    requires
        0 <= idx <= s.len(),
        forall|j: int| 0 <= j < idx ==> !(p < #[trigger] s[j]),
        idx < s.len() ==> p < s[idx],
    ensures
        insort_id(p, s) == s.subrange(0, idx) + seq![p] + s.subrange(idx, s.len() as int),
    decreases s.len(),
{
    if s.len() == 0 {
        assert(insort_id(p, s) =~= s.subrange(0, idx) + seq![p] + s.subrange(idx, s.len() as int));
    } else if p < s[0] {
        assert(idx == 0);
        assert(insort_id(p, s) =~= s.subrange(0, idx) + seq![p] + s.subrange(idx, s.len() as int));
    } else {
        assert(idx >= 1);
        let d = s.drop_first();
        assert forall|j: int| 0 <= j < idx - 1 implies !(p < #[trigger] d[j]) by {
            assert(d[j] == s[j + 1]);
        }
        if idx - 1 < d.len() {
            assert(d[idx - 1] == s[idx]);
        }
        lemma_insort_id_at(d, p, idx - 1);
        assert(insort_id(p, s) =~= s.subrange(0, idx) + seq![p] + s.subrange(idx, s.len() as int));
    }
}

/// Abstract value of a string-keyed pair list.
pub open spec fn str_pairs_view(v: Seq<(Vec<char>, i64)>) -> Seq<(Seq<char>, i64)> {
    Seq::new(v.len(), |i: int| (v[i].0@, v[i].1))
}

/// First position whose key is greater than `key`.
fn str_insert_pos(r: &Vec<(Vec<char>, i64)>, key: &Vec<char>) -> (idx: usize)
    ensures
        idx <= r@.len(),
        forall|j: int| 0 <= j < idx ==> !lex_lt(key@, (#[trigger] str_pairs_view(r@)[j]).0),
        idx < r@.len() ==> lex_lt(key@, str_pairs_view(r@)[idx as int].0),
{
    let n = r.len();
    for i in 0..n
        invariant
            n == r@.len(),
            forall|j: int| 0 <= j < i ==> !lex_lt(key@, (#[trigger] str_pairs_view(r@)[j]).0),
    {
        if crate::text::lex_lt_exec(key, &r[i].0) {
            assert(str_pairs_view(r@)[i as int].0 == r@[i as int].0@);
            return i;
        }
        assert(str_pairs_view(r@)[i as int].0 == r@[i as int].0@);
    }
    n
}

/// Sorts string-keyed pairs, as `sort_str_pairs` says.
fn sort_str_pairs_exec(pairs: &Vec<(Vec<char>, i64)>) -> (r: Vec<(Vec<char>, i64)>)
    ensures
        str_pairs_view(r@) == sort_str_pairs(str_pairs_view(pairs@)),
{
    let ghost pv = str_pairs_view(pairs@);
    let mut out: Vec<(Vec<char>, i64)> = Vec::new();
    let n = pairs.len();
    proof {
        assert(str_pairs_view(out@) =~= Seq::<(Seq<char>, i64)>::empty());
        assert(pv.subrange(0, 0) =~= Seq::<(Seq<char>, i64)>::empty());
    }
    let mut i: usize = 0;
    while i < n
        invariant
            n == pv.len(),
            i <= n,
            str_pairs_view(pairs@) == pv,
            str_pairs_view(out@) == sort_str_pairs(pv.subrange(0, i as int)),
        decreases n - i,
    {
        let key = crate::text::copy_chars(&pairs[i].0);
        let id = pairs[i].1;
        proof {
            assert((key@, id) == pv[i as int]);
        }
        let ghost s0 = str_pairs_view(out@);
        let idx = str_insert_pos(&out, &key);
        let ghost kv = key@;
        out.insert(idx, (key, id));
        proof {
            lemma_insort_str_at(s0, (kv, id), idx as int);
            assert(str_pairs_view(out@) =~= s0.subrange(0, idx as int) + seq![(kv, id)]
                + s0.subrange(idx as int, s0.len() as int));
            let u = pv.subrange(0, i + 1);
            assert(u.drop_last() =~= pv.subrange(0, i as int));
            assert(u.last() == pv[i as int]);
            assert(str_pairs_view(out@) == sort_str_pairs(u));
        }
        i = i + 1;
    }
    proof {
        assert(pv.subrange(0, n as int) =~= pv);
    }
    out
}

/// First position whose key is greater than `key`.
fn i64_insert_pos(r: &Vec<(i64, i64)>, key: i64) -> (idx: usize)
    ensures
        idx <= r@.len(),
        forall|j: int| 0 <= j < idx ==> !(key < (#[trigger] r@[j]).0),
        idx < r@.len() ==> key < r@[idx as int].0,
{
    let n = r.len();
    for i in 0..n
        invariant
            n == r@.len(),
            forall|j: int| 0 <= j < i ==> !(key < (#[trigger] r@[j]).0),
    {
        if key < r[i].0 {
            return i;
        }
    }
    n
}

/// Sorts integer-keyed pairs, as `sort_i64_pairs` says.
fn sort_i64_pairs_exec(pairs: &Vec<(i64, i64)>) -> (r: Vec<(i64, i64)>)
    ensures
        r@ == sort_i64_pairs(pairs@),
{
    let ghost pv = pairs@;
    let mut out: Vec<(i64, i64)> = Vec::new();
    let n = pairs.len();
    proof {
        assert(pv.subrange(0, 0) =~= Seq::<(i64, i64)>::empty());
    }
    let mut i: usize = 0;
    while i < n
        invariant
            n == pv.len(),
            i <= n,
            pairs@ == pv,
            out@ == sort_i64_pairs(pv.subrange(0, i as int)),
        decreases n - i,
    {
        let p = pairs[i];
        let ghost s0 = out@;
        let idx = i64_insert_pos(&out, p.0);
        out.insert(idx, p);
        proof {
            lemma_insort_i64_at(s0, p, idx as int);
            assert(out@ =~= s0.subrange(0, idx as int) + seq![p] + s0.subrange(
                idx as int,
                s0.len() as int,
            ));
            let u = pv.subrange(0, i + 1);
            assert(u.drop_last() =~= pv.subrange(0, i as int));
            assert(u.last() == pv[i as int]);
            assert(out@ == sort_i64_pairs(u));
        }
        i = i + 1;
    }
    proof {
        assert(pv.subrange(0, n as int) =~= pv);
    }
    out
}

/// First position holding an id greater than `p`.
fn id_insert_pos(r: &Vec<i64>, p: i64) -> (idx: usize)
    ensures
        idx <= r@.len(),
        forall|j: int| 0 <= j < idx ==> !(p < #[trigger] r@[j]),
        idx < r@.len() ==> p < r@[idx as int],
{
    let n = r.len();
    for i in 0..n
        invariant
            n == r@.len(),
            forall|j: int| 0 <= j < i ==> !(p < #[trigger] r@[j]),
    {
        if p < r[i] {
            return i;
        }
    }
    n
}

/// Sorts plain ids ascending, as `sort_ids` says.
fn sort_ids_exec(ids: &Vec<i64>) -> (r: Vec<i64>)
    ensures
        r@ == sort_ids(ids@),
{
    let ghost pv = ids@;
    let mut out: Vec<i64> = Vec::new();
    let n = ids.len();
    proof {
        assert(pv.subrange(0, 0) =~= Seq::<i64>::empty());
    }
    let mut i: usize = 0;
    while i < n
        invariant
            n == pv.len(),
            i <= n,
            ids@ == pv,
            out@ == sort_ids(pv.subrange(0, i as int)),
        decreases n - i,
    {
        let p = ids[i];
        let ghost s0 = out@;
        let idx = id_insert_pos(&out, p);
        out.insert(idx, p);
        proof {
            lemma_insort_id_at(s0, p, idx as int);
            assert(out@ =~= s0.subrange(0, idx as int) + seq![p] + s0.subrange(
                idx as int,
                s0.len() as int,
            ));
            let u = pv.subrange(0, i + 1);
            assert(u.drop_last() =~= pv.subrange(0, i as int));
            assert(u.last() == pv[i as int]);
            assert(out@ == sort_ids(u));
        }
        i = i + 1;
    }
    proof {
        assert(pv.subrange(0, n as int) =~= pv);
    }
    out
}

/// Removes adjacent duplicates, as `dedup_sorted` says.
fn dedup_sorted_exec(ids: &Vec<i64>) -> (r: Vec<i64>)
    ensures
        r@ == dedup_sorted(ids@),
{
    let n = ids.len();
    let mut out: Vec<i64> = Vec::new();
    proof {
        assert(ids@.subrange(0, 0) =~= Seq::<i64>::empty());
    }
    for i in 0..n
        invariant
            n == ids@.len(),
            out@ == dedup_sorted(ids@.subrange(0, i as int)),
    {
        let ghost u = ids@.subrange(0, i + 1);
        proof {
            assert(u.drop_last() =~= ids@.subrange(0, i as int));
            assert(u.last() == ids@[i as int]);
        }
        let x = ids[i];
        let keep = if out.len() == 0 {
            true
        } else {
            out[out.len() - 1] != x
        };
        if keep {
            out.push(x);
        }
        proof {
            assert(out@ =~= dedup_sorted(u));
        }
    }
    proof {
        assert(ids@.subrange(0, n as int) =~= ids@);
    }
    out
}

/// Reverses a list of ids, as `rev_seq` says.
fn rev_ids_exec(ids: &Vec<i64>) -> (r: Vec<i64>)
    ensures
        r@ == rev_seq(ids@),
{
    let n = ids.len();
    let mut out: Vec<i64> = Vec::new();
    for i in 0..n
        invariant
            n == ids@.len(),
            out@.len() == i,
            forall|j: int| 0 <= j < i ==> out@[j] == ids@[n - 1 - j],
    {
        out.push(ids[n - 1 - i]);
    }
    proof {
        assert(out@ =~= rev_seq(ids@));
    }
    out
}

/// How browse mode orders the page.
#[derive(Clone, Copy, PartialEq, Eq, Structural, Debug)]
pub enum SortBy {
    Name,
    Position,
}

/// Sort direction.
#[derive(Clone, Copy, PartialEq, Eq, Structural, Debug)]
pub enum SortDir {
    Asc,
    Desc,
}

/// The query's filter, decided once at the boundary: a closed variant
/// instead of an ambient structured value.
#[derive(Clone, Copy, PartialEq, Eq, Structural, Debug)]
pub enum FilterSpec {
    NoFilter,
    Favorites,
    RecentlyWatched,
    Category(i64),
}

/// One result row: a channel with its guide sublist attached.
pub struct ChannelListing {
    pub channel: Channel,
    pub epg: Vec<EpgEntry>,
}

/// Abstract value of a result row.
pub struct ChannelListingView {
    pub channel: ChannelView,
    pub epg: Seq<EpgEntryView>,
}

impl View for ChannelListing {
    type V = ChannelListingView;

    open spec fn view(&self) -> ChannelListingView {
        ChannelListingView { channel: self.channel@, epg: crate::store::epg_view(self.epg@) }
    }
}

/// Abstract value of a result page.
pub open spec fn listings_view(v: Seq<ChannelListing>) -> Seq<ChannelListingView> {
    Seq::new(v.len(), |i: int| v[i]@)
}

/// One page of results.
pub struct PaginatedChannels {
    pub items: Vec<ChannelListing>,
    pub has_more: bool,
    pub total: usize,
}

/// The browse-mode row predicate: the favorites flag when asked, the
/// hidden flag always, and the category when one is given — matched by
/// the category link or by the denormalized name (which covers rows whose
/// link was lost).
pub open spec fn browse_keep(
    cats: Seq<crate::model::CategoryView>,
    favorites: bool,
    show_hidden: bool,
    cat: Option<i64>,
) -> spec_fn(ChannelView) -> bool {
    |c: ChannelView|
        (favorites ==> c.is_favorite) && c.is_hidden == show_hidden && (match cat {
            Some(cid) => c.category_id == Some(cid) || (has_category(cats, cid) && c.category
                == crate::store::category_by_id(cats, cid).name),
            None => true,
        })
}

/// The recently-watched row predicate: the hidden flag, and a watch row.
pub open spec fn rw_keep(
    recent: Seq<crate::model::RecentlyWatchedView>,
    show_hidden: bool,
) -> spec_fn(ChannelView) -> bool {
    |c: ChannelView| c.is_hidden == show_hidden && has_recent(recent, c.id)
}

/// A channel's name-sort pair.
pub open spec fn name_pair_fn() -> spec_fn(ChannelView) -> (Seq<char>, i64) {
    |c: ChannelView| (c.name, c.id)
}

/// A channel's position-sort pair.
pub open spec fn pos_pair_fn() -> spec_fn(ChannelView) -> (i64, i64) {
    |c: ChannelView| (c.sort_order, c.id)
}

/// A channel's watch-stamp pair.
pub open spec fn rw_pair_fn(recent: Seq<crate::model::RecentlyWatchedView>) -> spec_fn(
    ChannelView,
) -> (Seq<char>, i64) {
    |c: ChannelView| (crate::store::recent_by_id(recent, c.id).last_watched, c.id)
}

/// The id of a string-keyed pair.
pub open spec fn snd_str_fn() -> spec_fn((Seq<char>, i64)) -> i64 {
    |p: (Seq<char>, i64)| p.1
}

/// The id of an integer-keyed pair.
pub open spec fn snd_i64_fn() -> spec_fn((i64, i64)) -> i64 {
    |p: (i64, i64)| p.1
}

/// A channel's id.
pub open spec fn id_fn() -> spec_fn(ChannelView) -> i64 {
    |c: ChannelView| c.id
}

/// The id order browse mode serves, before pagination: the matching rows
/// in table order, stably sorted by the requested key (the watch stamp,
/// descending, in the recently-watched view), then flipped for a
/// descending sort.
pub open spec fn browse_ids(
    c: CatalogView,
    sort_by: SortBy,
    sort_dir: SortDir,
    filter: FilterSpec,
    show_hidden: bool,
) -> Seq<i64> {
    if filter == FilterSpec::RecentlyWatched {
        let pairs = c.channels.filter(rw_keep(c.recent, show_hidden)).map_values(
            rw_pair_fn(c.recent),
        );
        rev_seq(sort_str_pairs(pairs).map_values(snd_str_fn()))
    } else {
        let fav = filter == FilterSpec::Favorites;
        let cat = match filter {
            FilterSpec::Category(cid) => Some(cid),
            _ => None,
        };
        let kept = c.channels.filter(browse_keep(c.categories, fav, show_hidden, cat));
        let sorted = match sort_by {
            SortBy::Name => sort_str_pairs(kept.map_values(name_pair_fn())).map_values(
                snd_str_fn(),
            ),
            SortBy::Position => sort_i64_pairs(kept.map_values(pos_pair_fn())).map_values(
                snd_i64_fn(),
            ),
        };
        match sort_dir {
            SortDir::Asc => sorted,
            SortDir::Desc => rev_seq(sorted),
        }
    }
}

/// The name-search row predicate: favorites and hidden flags, and a
/// case-insensitive name match.
pub open spec fn name_search_keep(
    favorites: bool,
    show_hidden: bool,
    term: Seq<char>,
) -> spec_fn(ChannelView) -> bool {
    |c: ChannelView|
        (favorites ==> c.is_favorite) && c.is_hidden == show_hidden && contains_ci(c.name, term)
}

/// A guide row whose programme is airing now and whose title matches.
pub open spec fn airing_fn(term: Seq<char>, now: Seq<char>) -> spec_fn(EpgEntryView) -> bool {
    |e: EpgEntryView|
        contains_ci(e.title, term) && !lex_lt(now, e.start_time) && lex_lt(now, e.end_time)
}

/// The distinct channel ids of matching currently-airing guide rows, in
/// table order of first occurrence, from row `k` on.
pub open spec fn distinct_airing_ids(
    epg: Seq<EpgEntryView>,
    term: Seq<char>,
    now: Seq<char>,
    k: int,
    acc: Seq<i64>,
) -> Seq<i64>
    decreases epg.len() - k,
{
    if k < 0 || k >= epg.len() {
        acc
    } else {
        let e = epg[k];
        let acc2 = if airing_fn(term, now)(e) && !acc.contains(e.channel_id) {
            acc.push(e.channel_id)
        } else {
            acc
        };
        distinct_airing_ids(epg, term, now, k + 1, acc2)
    }
}

/// The re-verification predicate search mode applies to the combined id
/// set: the channel exists and honors the favorites and hidden flags (the
/// guide-title source did not check them at fetch time).
pub open spec fn verify_keep(
    chans: Seq<ChannelView>,
    favorites: bool,
    show_hidden: bool,
) -> spec_fn(i64) -> bool {
    |id: i64|
        has_channel(chans, id) && (favorites ==> channel_by_id(chans, id).is_favorite)
            && channel_by_id(chans, id).is_hidden == show_hidden
}

/// The id order search mode serves, before pagination: channels matching
/// by name under the flags, united with channels whose currently-airing
/// programme title matches, deduplicated and sorted ascending, then
/// re-verified against the flags.
pub open spec fn search_ids(
    c: CatalogView,
    term: Seq<char>,
    now: Seq<char>,
    filter: FilterSpec,
    show_hidden: bool,
) -> Seq<i64> {
    let fav = filter == FilterSpec::Favorites;
    let ids_a = c.channels.filter(name_search_keep(fav, show_hidden, term)).map_values(id_fn());
    let ids_b = distinct_airing_ids(c.epg, term, now, 0, Seq::empty());
    dedup_sorted(sort_ids(ids_a + ids_b)).filter(verify_keep(c.channels, fav, show_hidden))
}

/// Search results honor the flags from both of their sources: every id
/// the search serves — whether it matched by channel name or by a
/// currently-airing programme title — names an existing channel whose
/// hidden flag matches the request and which, under the favorites filter,
/// is a favorite.
pub proof fn lemma_search_honors_flags(
    c: CatalogView,
    term: Seq<char>,
    now: Seq<char>,
    filter: FilterSpec,
    show_hidden: bool,
    i: int,
)
    requires
        0 <= i < search_ids(c, term, now, filter, show_hidden).len(),
    ensures
        ({
            let id = search_ids(c, term, now, filter, show_hidden)[i];
            &&& has_channel(c.channels, id)
            &&& channel_by_id(c.channels, id).is_hidden == show_hidden
            &&& (filter == FilterSpec::Favorites ==> channel_by_id(c.channels, id).is_favorite)
        }),
{
    let fav = filter == FilterSpec::Favorites;
    let ids_a = c.channels.filter(name_search_keep(fav, show_hidden, term)).map_values(id_fn());
    let ids_b = distinct_airing_ids(c.epg, term, now, 0, Seq::empty());
    let pool = dedup_sorted(sort_ids(ids_a + ids_b));
    crate::store::lemma_filter_elem(pool, verify_keep(c.channels, fav, show_hidden), i);
    assert(verify_keep(c.channels, fav, show_hidden)(
        search_ids(c, term, now, filter, show_hidden)[i],
    ));
}

/// The id order a query serves, before pagination.
pub open spec fn spec_selection(
    c: CatalogView,
    term: Seq<char>,
    now: Seq<char>,
    sort_by: SortBy,
    sort_dir: SortDir,
    filter: FilterSpec,
    show_hidden: bool,
) -> Seq<i64> {
    if term.len() > 0 {
        search_ids(c, term, now, filter, show_hidden)
    } else {
        browse_ids(c, sort_by, sort_dir, filter, show_hidden)
    }
}

/// One page of the id order: the slice `[(page-1)*size, page*size)`.
pub open spec fn page_slice(ids: Seq<i64>, page: i64, page_size: i64) -> Seq<i64> {
    let off = (page - 1) * page_size;
    if off >= ids.len() {
        Seq::empty()
    } else if off + page_size >= ids.len() {
        ids.subrange(off as int, ids.len() as int)
    } else {
        ids.subrange(off as int, off + page_size)
    }
}

/// Decides the browse predicate for one channel row.
fn browse_keep_exec(catalog: &Catalog, i: usize, fav: bool, show_hidden: bool, cat: Option<i64>) -> (r:
    bool)
    requires
        catalog_wf(catalog@),
        i < catalog@.channels.len(),
    ensures
        r == browse_keep(catalog@.categories, fav, show_hidden, cat)(
            catalog@.channels[i as int],
        ),
{
    let c = &catalog.channels[i];
    proof {
        assert(catalog@.channels[i as int] == catalog.channels@[i as int]@);
    }
    if fav && !c.is_favorite {
        return false;
    }
    if c.is_hidden != show_hidden {
        return false;
    }
    match cat {
        None => true,
        Some(cid) => {
            let linked = match c.category_id {
                Some(x) => x == cid,
                None => false,
            };
            if linked {
                true
            } else {
                match catalog.find_category(cid) {
                    Some(w) => {
                        proof {
                            crate::store::lemma_category_at_index(catalog@.categories, w as int);
                        }
                        crate::text::str_eq(c.category.as_str(), catalog.categories[w].name.as_str())
                    },
                    None => false,
                }
            }
        },
    }
}

/// The browse-mode id order, as `browse_ids` says; every id names an
/// existing channel.
#[verifier::rlimit(60)]
fn select_browse(
    catalog: &Catalog,
    sort_by: SortBy,
    sort_dir: SortDir,
    filter: FilterSpec,
    show_hidden: bool,
) -> (r: Vec<i64>)
    requires
        catalog_wf(catalog@),
    ensures
        r@ == browse_ids(catalog@, sort_by, sort_dir, filter, show_hidden),
        forall|i: int| 0 <= i < r@.len() ==> has_channel(catalog@.channels, #[trigger] r@[i]),
{
    let ghost c = catalog@;
    let n = catalog.channels.len();
    if filter == FilterSpec::RecentlyWatched {
        let ghost pred = rw_keep(c.recent, show_hidden);
        let ghost kept = c.channels.filter(pred);
        let mut pairs: Vec<(Vec<char>, i64)> = Vec::new();
        proof {
            reveal(Seq::filter);
            assert(str_pairs_view(pairs@) =~= c.channels.subrange(0, 0).filter(pred).map_values(
                rw_pair_fn(c.recent),
            ));
        }
        for i in 0..n
            invariant
                n == c.channels.len(),
                catalog@ == c,
                catalog_wf(c),
                str_pairs_view(pairs@) == c.channels.subrange(0, i as int).filter(pred).map_values(
                    rw_pair_fn(c.recent),
                ),
        {
            let ghost u = c.channels.subrange(0, i + 1);
            proof {
                assert(u.drop_last() =~= c.channels.subrange(0, i as int));
                assert(u.last() == c.channels[i as int]);
                assert(c.channels[i as int] == catalog.channels@[i as int]@);
            }
            let ch = &catalog.channels[i];
            if ch.is_hidden == show_hidden {
                let mut found: Option<usize> = None;
                let rn = catalog.recently_watched.len();
                for t in 0..rn
                    invariant
                        rn == c.recent.len(),
                        catalog@ == c,
                        match found {
                            Some(w) => w < rn && c.recent[w as int].channel_id == ch.id,
                            None => forall|q: int|
                                0 <= q < t ==> (#[trigger] c.recent[q]).channel_id != ch.id,
                        },
                {
                    if found.is_none() && catalog.recently_watched[t].channel_id == ch.id {
                        found = Some(t);
                    }
                }
                match found {
                    Some(w) => {
                        proof {
                            assert(has_recent(c.recent, ch.id));
                            crate::store::lemma_recent_at_index(c.recent, w as int);
                        }
                        let ts = crate::text::str_to_chars(
                            catalog.recently_watched[w].last_watched.as_str(),
                        );
                        let ghost p0 = str_pairs_view(pairs@);
                        pairs.push((ts, ch.id));
                        proof {
                            reveal(Seq::filter);
                            assert(str_pairs_view(pairs@) =~~= p0.push(
                                rw_pair_fn(c.recent)(c.channels[i as int]),
                            ));
                            assert(u.filter(pred) =~= u.drop_last().filter(pred).push(u.last()));
                            assert(u.filter(pred).map_values(rw_pair_fn(c.recent)) =~~= p0.push(
                                rw_pair_fn(c.recent)(c.channels[i as int]),
                            ));
                            assert(str_pairs_view(pairs@) =~~= u.filter(pred).map_values(
                                rw_pair_fn(c.recent),
                            ));
                        }
                    },
                    None => {
                        proof {
                            reveal(Seq::filter);
                            assert(!has_recent(c.recent, ch.id));
                            assert(str_pairs_view(pairs@) =~= u.filter(pred).map_values(
                                rw_pair_fn(c.recent),
                            ));
                        }
                    },
                }
            } else {
                proof {
                    reveal(Seq::filter);
                    assert(str_pairs_view(pairs@) =~= u.filter(pred).map_values(
                        rw_pair_fn(c.recent),
                    ));
                }
            }
        }
        proof {
            assert(c.channels.subrange(0, n as int) =~= c.channels);
        }
        let sorted = sort_str_pairs_exec(&pairs);
        let sn = sorted.len();
        let mut ids: Vec<i64> = Vec::new();
        for i in 0..sn
            invariant
                sn == str_pairs_view(sorted@).len(),
                str_pairs_view(sorted@) == sort_str_pairs(str_pairs_view(pairs@)),
                ids@.len() == i,
                forall|j: int|
                    0 <= j < i ==> ids@[j] == sort_str_pairs(str_pairs_view(pairs@)).map_values(
                        snd_str_fn(),
                    )[j],
        {
            ids.push(sorted[i].1);
            proof {
                assert(str_pairs_view(sorted@)[i as int].1 == sorted@[i as int].1);
            }
        }
        proof {
            assert(ids@ =~= sort_str_pairs(str_pairs_view(pairs@)).map_values(snd_str_fn()));
        }
        let out = rev_ids_exec(&ids);
        proof {
            assert(str_pairs_view(pairs@) == kept.map_values(rw_pair_fn(c.recent)));
            assert(out@ == browse_ids(c, sort_by, sort_dir, filter, show_hidden));
            lemma_sort_str_elems(str_pairs_view(pairs@));
            assert forall|i: int| 0 <= i < out@.len() implies has_channel(
                c.channels,
                #[trigger] out@[i],
            ) by {
                let t = out@.len() - 1 - i;
                assert(out@[i] == ids@[t]);
                assert(ids@[t] == sort_str_pairs(str_pairs_view(pairs@))[t].1);
                let j = choose|j: int|
                    0 <= j < str_pairs_view(pairs@).len() && #[trigger] str_pairs_view(pairs@)[j]
                        == sort_str_pairs(str_pairs_view(pairs@))[t];
                assert(str_pairs_view(pairs@)[j] == rw_pair_fn(c.recent)(kept[j]));
                crate::store::lemma_filter_elem(c.channels, pred, j);
                let w = choose|w: int| 0 <= w < c.channels.len() && #[trigger] c.channels[w]
                    == kept[j];
                assert(c.channels[w].id == out@[i]);
            }
        }
        out
    } else {
        let fav = filter == FilterSpec::Favorites;
        let cat: Option<i64> = match filter {
            FilterSpec::Category(cid) => Some(cid),
            _ => None,
        };
        let ghost pred = browse_keep(c.categories, fav, show_hidden, cat);
        let ghost kept = c.channels.filter(pred);
        match sort_by {
            SortBy::Name => {
                let mut pairs: Vec<(Vec<char>, i64)> = Vec::new();
                proof {
                    reveal(Seq::filter);
                    assert(str_pairs_view(pairs@) =~= c.channels.subrange(0, 0).filter(
                        pred,
                    ).map_values(name_pair_fn()));
                }
                for i in 0..n
                    invariant
                        n == c.channels.len(),
                        catalog@ == c,
                        catalog_wf(c),
                        str_pairs_view(pairs@) == c.channels.subrange(0, i as int).filter(
                            pred,
                        ).map_values(name_pair_fn()),
                {
                    let ghost u = c.channels.subrange(0, i + 1);
                    proof {
                        assert(u.drop_last() =~= c.channels.subrange(0, i as int));
                        assert(u.last() == c.channels[i as int]);
                        assert(c.channels[i as int] == catalog.channels@[i as int]@);
                    }
                    if browse_keep_exec(catalog, i, fav, show_hidden, cat) {
                        let name = crate::text::str_to_chars(catalog.channels[i].name.as_str());
                        let ghost p0 = str_pairs_view(pairs@);
                        pairs.push((name, catalog.channels[i].id));
                        proof {
                            reveal(Seq::filter);
                            assert(str_pairs_view(pairs@) =~~= p0.push(
                                (c.channels[i as int].name, c.channels[i as int].id),
                            ));
                            assert(u.filter(pred) =~= u.drop_last().filter(pred).push(u.last()));
                            assert(u.filter(pred).map_values(name_pair_fn()) =~~= p0.push(
                                (c.channels[i as int].name, c.channels[i as int].id),
                            ));
                            assert(str_pairs_view(pairs@) =~~= u.filter(pred).map_values(
                                name_pair_fn(),
                            ));
                        }
                    } else {
                        proof {
                            reveal(Seq::filter);
                            assert(str_pairs_view(pairs@) =~= u.filter(pred).map_values(
                                name_pair_fn(),
                            ));
                        }
                    }
                }
                proof {
                    assert(c.channels.subrange(0, n as int) =~= c.channels);
                }
                let sorted = sort_str_pairs_exec(&pairs);
                let sn = sorted.len();
                let mut ids: Vec<i64> = Vec::new();
                for i in 0..sn
                    invariant
                        sn == str_pairs_view(sorted@).len(),
                        str_pairs_view(sorted@) == sort_str_pairs(str_pairs_view(pairs@)),
                        ids@.len() == i,
                        forall|j: int|
                            0 <= j < i ==> ids@[j] == sort_str_pairs(
                                str_pairs_view(pairs@),
                            ).map_values(snd_str_fn())[j],
                {
                    ids.push(sorted[i].1);
                    proof {
                        assert(str_pairs_view(sorted@)[i as int].1 == sorted@[i as int].1);
                    }
                }
                proof {
                    assert(ids@ =~= sort_str_pairs(str_pairs_view(pairs@)).map_values(
                        snd_str_fn(),
                    ));
                }
                let out = match sort_dir {
                    SortDir::Asc => ids,
                    SortDir::Desc => rev_ids_exec(&ids),
                };
                proof {
                    assert(str_pairs_view(pairs@) == kept.map_values(name_pair_fn()));
                    assert(out@ == browse_ids(c, sort_by, sort_dir, filter, show_hidden));
                    lemma_sort_str_elems(str_pairs_view(pairs@));
                    assert forall|i: int| 0 <= i < out@.len() implies has_channel(
                        c.channels,
                        #[trigger] out@[i],
                    ) by {
                        let t = if sort_dir == SortDir::Desc {
                            out@.len() - 1 - i
                        } else {
                            i
                        };
                        assert(out@[i] == sort_str_pairs(str_pairs_view(pairs@))[t].1);
                        let j = choose|j: int|
                            0 <= j < str_pairs_view(pairs@).len() && #[trigger] str_pairs_view(
                                pairs@,
                            )[j] == sort_str_pairs(str_pairs_view(pairs@))[t];
                        assert(str_pairs_view(pairs@)[j] == name_pair_fn()(kept[j]));
                        crate::store::lemma_filter_elem(c.channels, pred, j);
                        let w = choose|w: int|
                            0 <= w < c.channels.len() && #[trigger] c.channels[w] == kept[j];
                        assert(c.channels[w].id == out@[i]);
                    }
                }
                out
            },
            SortBy::Position => {
                let mut pairs: Vec<(i64, i64)> = Vec::new();
                proof {
                    reveal(Seq::filter);
                    assert(pairs@ =~= c.channels.subrange(0, 0).filter(pred).map_values(
                        pos_pair_fn(),
                    ));
                }
                for i in 0..n
                    invariant
                        n == c.channels.len(),
                        catalog@ == c,
                        catalog_wf(c),
                        pairs@ == c.channels.subrange(0, i as int).filter(pred).map_values(
                            pos_pair_fn(),
                        ),
                {
                    let ghost u = c.channels.subrange(0, i + 1);
                    proof {
                        assert(u.drop_last() =~= c.channels.subrange(0, i as int));
                        assert(u.last() == c.channels[i as int]);
                        assert(c.channels[i as int] == catalog.channels@[i as int]@);
                    }
                    if browse_keep_exec(catalog, i, fav, show_hidden, cat) {
                        pairs.push((catalog.channels[i].sort_order, catalog.channels[i].id));
                        proof {
                            reveal(Seq::filter);
                            assert(pairs@ =~= u.filter(pred).map_values(pos_pair_fn()));
                        }
                    } else {
                        proof {
                            reveal(Seq::filter);
                            assert(pairs@ =~= u.filter(pred).map_values(pos_pair_fn()));
                        }
                    }
                }
                proof {
                    assert(c.channels.subrange(0, n as int) =~= c.channels);
                }
                let sorted = sort_i64_pairs_exec(&pairs);
                let sn = sorted.len();
                let mut ids: Vec<i64> = Vec::new();
                for i in 0..sn
                    invariant
                        sn == sorted@.len(),
                        sorted@ == sort_i64_pairs(pairs@),
                        ids@.len() == i,
                        forall|j: int|
                            0 <= j < i ==> ids@[j] == sort_i64_pairs(pairs@).map_values(
                                snd_i64_fn(),
                            )[j],
                {
                    ids.push(sorted[i].1);
                }
                proof {
                    assert(ids@ =~= sort_i64_pairs(pairs@).map_values(snd_i64_fn()));
                }
                let out = match sort_dir {
                    SortDir::Asc => ids,
                    SortDir::Desc => rev_ids_exec(&ids),
                };
                proof {
                    assert(pairs@ == kept.map_values(pos_pair_fn()));
                    assert(out@ == browse_ids(c, sort_by, sort_dir, filter, show_hidden));
                    lemma_sort_i64_elems(pairs@);
                    assert forall|i: int| 0 <= i < out@.len() implies has_channel(
                        c.channels,
                        #[trigger] out@[i],
                    ) by {
                        let t = if sort_dir == SortDir::Desc {
                            out@.len() - 1 - i
                        } else {
                            i
                        };
                        assert(out@[i] == sort_i64_pairs(pairs@)[t].1);
                        let j = choose|j: int|
                            0 <= j < pairs@.len() && #[trigger] pairs@[j] == sort_i64_pairs(
                                pairs@,
                            )[t];
                        assert(pairs@[j] == pos_pair_fn()(kept[j]));
                        crate::store::lemma_filter_elem(c.channels, pred, j);
                        let w = choose|w: int|
                            0 <= w < c.channels.len() && #[trigger] c.channels[w] == kept[j];
                        assert(c.channels[w].id == out@[i]);
                    }
                }
                out
            },
        }
    }
}

/// The search-mode id order, as `search_ids` says; every id names an
/// existing channel.
#[verifier::rlimit(60)]
fn select_search(
    catalog: &Catalog,
    term: &str,
    now: &str,
    filter: FilterSpec,
    show_hidden: bool,
) -> (r: Vec<i64>)
    requires
        catalog_wf(catalog@),
    ensures
        r@ == search_ids(catalog@, term@, now@, filter, show_hidden),
        forall|i: int| 0 <= i < r@.len() ==> has_channel(catalog@.channels, #[trigger] r@[i]),
{
    let ghost c = catalog@;
    let fav = filter == FilterSpec::Favorites;
    let ghost preda = name_search_keep(fav, show_hidden, term@);

    let mut union: Vec<i64> = Vec::new();
    let n = catalog.channels.len();
    proof {
        reveal(Seq::filter);
        assert(union@ =~= c.channels.subrange(0, 0).filter(preda).map_values(id_fn()));
    }
    for i in 0..n
        invariant
            n == c.channels.len(),
            catalog@ == c,
            union@ == c.channels.subrange(0, i as int).filter(preda).map_values(id_fn()),
    {
        let ghost u = c.channels.subrange(0, i + 1);
        proof {
            assert(u.drop_last() =~= c.channels.subrange(0, i as int));
            assert(u.last() == c.channels[i as int]);
            assert(c.channels[i as int] == catalog.channels@[i as int]@);
        }
        let ch = &catalog.channels[i];
        let hit = (!fav || ch.is_favorite) && ch.is_hidden == show_hidden
            && crate::text::contains_ci_exec(ch.name.as_str(), term);
        if hit {
            union.push(ch.id);
            proof {
                reveal(Seq::filter);
                assert(union@ =~= u.filter(preda).map_values(id_fn()));
            }
        } else {
            proof {
                reveal(Seq::filter);
                assert(union@ =~= u.filter(preda).map_values(id_fn()));
            }
        }
    }
    proof {
        assert(c.channels.subrange(0, n as int) =~= c.channels);
    }
    let ghost idsa = union@;

    let nv = crate::text::str_to_chars(now);
    let mut accb: Vec<i64> = Vec::new();
    let en = catalog.epg_entries.len();
    let mut k: usize = 0;
    while k < en
        invariant
            en == c.epg.len(),
            catalog@ == c,
            k <= en,
            nv@ == now@,
            distinct_airing_ids(c.epg, term@, now@, k as int, accb@) == distinct_airing_ids(
                c.epg,
                term@,
                now@,
                0,
                Seq::empty(),
            ),
        decreases en - k,
    {
        proof {
            assert(c.epg[k as int] == catalog.epg_entries@[k as int]@);
        }
        let e = &catalog.epg_entries[k];
        let sv = crate::text::str_to_chars(e.start_time.as_str());
        let ev = crate::text::str_to_chars(e.end_time.as_str());
        let airing = crate::text::contains_ci_exec(e.title.as_str(), term)
            && !crate::text::lex_lt_exec(&nv, &sv) && crate::text::lex_lt_exec(&nv, &ev);
        if airing && !crate::store::contains_i64(&accb, e.channel_id) {
            accb.push(e.channel_id);
        }
        k = k + 1;
    }
    proof {
        assert(distinct_airing_ids(c.epg, term@, now@, en as int, accb@) == accb@);
    }
    let mut union = union;
    union.append(&mut accb);
    proof {
        assert(union@ == idsa + distinct_airing_ids(c.epg, term@, now@, 0, Seq::empty()));
    }

    let sorted = sort_ids_exec(&union);
    let dd = dedup_sorted_exec(&sorted);
    let ghost ddv = dd@;
    let ghost predv = verify_keep(c.channels, fav, show_hidden);

    let dn = dd.len();
    let mut out: Vec<i64> = Vec::new();
    proof {
        reveal(Seq::filter);
        assert(out@ =~= ddv.subrange(0, 0).filter(predv));
    }
    for i in 0..dn
        invariant
            dn == ddv.len(),
            catalog@ == c,
            catalog_wf(c),
            dd@ == ddv,
            out@ == ddv.subrange(0, i as int).filter(predv),
    {
        let ghost u = ddv.subrange(0, i + 1);
        proof {
            assert(u.drop_last() =~= ddv.subrange(0, i as int));
            assert(u.last() == ddv[i as int]);
        }
        let id = dd[i];
        let keep = match catalog.find_channel(id) {
            Some(w) => {
                proof {
                    crate::store::lemma_channel_at_index(c.channels, w as int);
                }
                (!fav || catalog.channels[w].is_favorite) && catalog.channels[w].is_hidden
                    == show_hidden
            },
            None => false,
        };
        proof {
            assert(keep == predv(ddv[i as int]));
        }
        if keep {
            out.push(id);
            proof {
                reveal(Seq::filter);
                assert(out@ =~= u.filter(predv));
            }
        } else {
            proof {
                reveal(Seq::filter);
                assert(out@ =~= u.filter(predv));
            }
        }
    }
    proof {
        assert(ddv.subrange(0, dn as int) =~= ddv);
        assert(out@ == search_ids(c, term@, now@, filter, show_hidden));
        assert forall|i: int| 0 <= i < out@.len() implies has_channel(
            c.channels,
            #[trigger] out@[i],
        ) by {
            crate::store::lemma_filter_elem(ddv, predv, i);
            assert(predv(out@[i]));
        }
    }
    out
}

/// Serves one page of channels. Browse mode (no search term) pages through
/// the rows matching the filter, counted in full and ordered as asked;
/// search mode pages through the union of name matches and channels whose
/// currently-airing programme title matches, re-verified against the
/// flags, in ascending id order. Each served row carries its guide
/// sublist, and the rows come back exactly in the selection's id order.
pub fn get_channels(
    catalog: &Catalog,
    page: i64,
    page_size: i64,
    search_term: &str,
    sort_by: SortBy,
    sort_dir: SortDir,
    filter: FilterSpec,
    show_hidden: bool,
    now: &str,
) -> (r: PaginatedChannels)
    requires
        catalog_wf(catalog@),
        1 <= page,
        1 <= page_size,
        page * page_size <= i64::MAX,
    ensures
        ({
            let ids = spec_selection(
                catalog@,
                search_term@,
                now@,
                sort_by,
                sort_dir,
                filter,
                show_hidden,
            );
            let slice = page_slice(ids, page, page_size);
            &&& r.total == ids.len()
            &&& r.has_more == (page * page_size < ids.len())
            &&& r.items@.len() == slice.len()
            &&& forall|i: int|
                0 <= i < slice.len() ==> (#[trigger] r.items@[i]@).channel == channel_by_id(
                    catalog@.channels,
                    slice[i],
                )
            &&& forall|i: int| 0 <= i < slice.len() ==> (#[trigger] r.items@[i]@).channel.id == slice[i]
            &&& forall|i: int|
                0 <= i < slice.len() ==> (#[trigger] r.items@[i]@).epg == catalog@.epg.filter(
                    crate::store::epg_of_channel(slice[i]),
                )
        }),
{
    let ghost c = catalog@;
    let ids: Vec<i64> = if !search_term.is_empty() {
        select_search(catalog, search_term, now, filter, show_hidden)
    } else {
        select_browse(catalog, sort_by, sort_dir, filter, show_hidden)
    };
    let ghost idsv = ids@;
    let ghost slice_spec = page_slice(idsv, page, page_size);
    let total = ids.len();

    proof {
        assert(0 <= (page - 1) * page_size && (page - 1) * page_size <= page * page_size)
            by (nonlinear_arith)
            requires
                1 <= page,
                1 <= page_size,
        ;
    }
    let off_i: i64 = (page - 1) * page_size;
    let mut slice: Vec<i64> = Vec::new();
    if (off_i as u128) < (total as u128) {
        let off = off_i as usize;
        let remaining = total - off;
        let count = if (page_size as u128) < (remaining as u128) {
            page_size as usize
        } else {
            remaining
        };
        let mut j: usize = 0;
        while j < count
            invariant
                off == off_i,
                off + count <= total,
                total == idsv.len(),
                ids@ == idsv,
                j <= count,
                slice@ == idsv.subrange(off as int, off + j),
            decreases count - j,
        {
            slice.push(ids[off + j]);
            proof {
                assert(slice@ =~= idsv.subrange(off as int, off + j + 1));
            }
            j = j + 1;
        }
        proof {
            assert(slice@ =~= slice_spec);
        }
    } else {
        proof {
            assert(slice@ =~= slice_spec);
        }
    }

    let m = slice.len();
    let mut items: Vec<ChannelListing> = Vec::new();
    for i in 0..m
        invariant
            m == slice_spec.len(),
            slice@ == slice_spec,
            catalog@ == c,
            catalog_wf(c),
            forall|j: int| 0 <= j < m ==> has_channel(c.channels, #[trigger] slice_spec[j]),
            items@.len() == i,
            forall|j: int|
                0 <= j < i ==> (#[trigger] items@[j]@).channel == channel_by_id(
                    c.channels,
                    slice_spec[j],
                ),
            forall|j: int| 0 <= j < i ==> (#[trigger] items@[j]@).channel.id == slice_spec[j],
            forall|j: int|
                0 <= j < i ==> (#[trigger] items@[j]@).epg == c.epg.filter(
                    crate::store::epg_of_channel(slice_spec[j]),
                ),
    {
        let id = slice[i];
        let w = match catalog.find_channel(id) {
            Some(w) => w,
            None => {
                proof {
                    assert(false);
                }
                0
            },
        };
        proof {
            crate::store::lemma_channel_at_index(c.channels, w as int);
        }
        let listing = ChannelListing {
            channel: crate::model::clone_channel(&catalog.channels[w]),
            epg: catalog.epg_for_channel(id),
        };
        items.push(listing);
    }

    let prod: i64 = page * page_size;
    let has_more = (prod as u128) < (total as u128);
    PaginatedChannels { items: items, has_more: has_more, total: total }
}

/// One channel with its guide sublist, or nothing when the id is unknown.
pub fn fetch_single_channel(catalog: &Catalog, id: i64) -> (r: Option<ChannelListing>)
    requires
        catalog_wf(catalog@),
    ensures
        match r {
            Some(l) => has_channel(catalog@.channels, id) && l@.channel == channel_by_id(
                catalog@.channels,
                id,
            ) && l@.epg == catalog@.epg.filter(crate::store::epg_of_channel(id)),
            None => !has_channel(catalog@.channels, id),
        },
{
    match catalog.find_channel(id) {
        Some(w) => {
            proof {
                crate::store::lemma_channel_at_index(catalog@.channels, w as int);
            }
            Some(
                ChannelListing {
                    channel: crate::model::clone_channel(&catalog.channels[w]),
                    epg: catalog.epg_for_channel(id),
                },
            )
        },
        None => None,
    }
}

} // verus!
