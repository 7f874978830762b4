//! The catalog store: an in-memory relational state holding playlists,
//! categories, channels, EPG entries and the recently-watched list, with
//! referential integrity (cascading deletes) and unique keys. A surrounding
//! application is expected to mirror this state into a durable relational
//! store; every operation here is a pure state transition with a contract.

use vstd::prelude::*;

use crate::model::{
    Category, CategoryView, Channel, ChannelView, EpgEntry, EpgEntryView, Playlist, PlaylistView,
    PlaylistStatus, RecentlyWatched, RecentlyWatchedView, clone_opt_string, opt_str_view,
};

verus! {

/// Abstract views of each table.
pub open spec fn playlists_view(v: Seq<Playlist>) -> Seq<PlaylistView> {
    Seq::new(v.len(), |i: int| v[i]@)
}

pub open spec fn categories_view(v: Seq<Category>) -> Seq<CategoryView> {
    Seq::new(v.len(), |i: int| v[i]@)
}

pub open spec fn channels_view(v: Seq<Channel>) -> Seq<ChannelView> {
    Seq::new(v.len(), |i: int| v[i]@)
}

pub open spec fn epg_view(v: Seq<EpgEntry>) -> Seq<EpgEntryView> {
    Seq::new(v.len(), |i: int| v[i]@)
}

pub open spec fn recent_view(v: Seq<RecentlyWatched>) -> Seq<RecentlyWatchedView> {
    Seq::new(v.len(), |i: int| v[i]@)
}

/// The whole catalog.
pub struct Catalog {
    pub playlists: Vec<Playlist>,
    pub categories: Vec<Category>,
    pub channels: Vec<Channel>,
    pub epg_entries: Vec<EpgEntry>,
    pub recently_watched: Vec<RecentlyWatched>,
    pub next_playlist_id: i64,
    pub next_category_id: i64,
}

/// Abstract value of the whole catalog.
pub struct CatalogView {
    pub playlists: Seq<PlaylistView>,
    pub categories: Seq<CategoryView>,
    pub channels: Seq<ChannelView>,
    pub epg: Seq<EpgEntryView>,
    pub recent: Seq<RecentlyWatchedView>,
    pub next_playlist_id: i64,
    pub next_category_id: i64,
}

impl View for Catalog {
    type V = CatalogView;

    open spec fn view(&self) -> CatalogView {
        CatalogView {
            playlists: playlists_view(self.playlists@),
            categories: categories_view(self.categories@),
            channels: channels_view(self.channels@),
            epg: epg_view(self.epg_entries@),
            recent: recent_view(self.recently_watched@),
            next_playlist_id: self.next_playlist_id,
            next_category_id: self.next_category_id,
        }
    }
}

/// A playlist row with this id exists.
pub open spec fn has_playlist(s: Seq<PlaylistView>, id: i64) -> bool {
    exists|i: int| 0 <= i < s.len() && (#[trigger] s[i]).id == id
}

/// A category row with this id exists.
pub open spec fn has_category(s: Seq<CategoryView>, id: i64) -> bool {
    exists|i: int| 0 <= i < s.len() && (#[trigger] s[i]).id == id
}

/// A channel row with this id exists.
pub open spec fn has_channel(s: Seq<ChannelView>, id: i64) -> bool {
    exists|i: int| 0 <= i < s.len() && (#[trigger] s[i]).id == id
}

/// A recently-watched row for this channel exists.
pub open spec fn has_recent(s: Seq<RecentlyWatchedView>, channel_id: i64) -> bool {
    exists|i: int| 0 <= i < s.len() && (#[trigger] s[i]).channel_id == channel_id
}

/// The playlist row with this id (meaningful when ids are unique).
pub open spec fn playlist_by_id(s: Seq<PlaylistView>, id: i64) -> PlaylistView {
    s[choose|i: int| 0 <= i < s.len() && (#[trigger] s[i]).id == id]
}

/// The channel row with this id (meaningful when ids are unique).
pub open spec fn channel_by_id(s: Seq<ChannelView>, id: i64) -> ChannelView {
    s[choose|i: int| 0 <= i < s.len() && (#[trigger] s[i]).id == id]
}

/// With unique ids, the row `playlist_by_id` picks is the row at any index
/// holding that id.
pub proof fn lemma_playlist_at_index(s: Seq<PlaylistView>, i: int)
    requires
        forall|a: int, b: int|
            0 <= a < b < s.len() ==> (#[trigger] s[a]).id != (#[trigger] s[b]).id,
        0 <= i < s.len(),
    ensures
        playlist_by_id(s, s[i].id) == s[i],
{
    let id = s[i].id;
    assert(has_playlist(s, id));
    let w = choose|w: int| 0 <= w < s.len() && (#[trigger] s[w]).id == id;
    if w != i {
        if w < i {
            assert(s[w].id != s[i].id);
        } else {
            assert(s[i].id != s[w].id);
        }
    }
}

/// With unique ids, the row `channel_by_id` picks is the row at any index
/// holding that id.
pub proof fn lemma_channel_at_index(s: Seq<ChannelView>, i: int)
    requires
        forall|a: int, b: int|
            0 <= a < b < s.len() ==> (#[trigger] s[a]).id != (#[trigger] s[b]).id,
        0 <= i < s.len(),
    ensures
        channel_by_id(s, s[i].id) == s[i],
{
    let id = s[i].id;
    assert(has_channel(s, id));
    let w = choose|w: int| 0 <= w < s.len() && (#[trigger] s[w]).id == id;
    if w != i {
        if w < i {
            assert(s[w].id != s[i].id);
        } else {
            assert(s[i].id != s[w].id);
        }
    }
}

/// The category row with this id (meaningful when ids are unique).
pub open spec fn category_by_id(s: Seq<CategoryView>, id: i64) -> CategoryView {
    s[choose|i: int| 0 <= i < s.len() && (#[trigger] s[i]).id == id]
}

/// With unique ids, the row `category_by_id` picks is the row at any index
/// holding that id.
pub proof fn lemma_category_at_index(s: Seq<CategoryView>, i: int)
    requires
        forall|a: int, b: int|
            0 <= a < b < s.len() ==> (#[trigger] s[a]).id != (#[trigger] s[b]).id,
        0 <= i < s.len(),
    ensures
        category_by_id(s, s[i].id) == s[i],
{
    let id = s[i].id;
    assert(has_category(s, id));
    let w = choose|w: int| 0 <= w < s.len() && (#[trigger] s[w]).id == id;
    if w != i {
        if w < i {
            assert(s[w].id != s[i].id);
        } else {
            assert(s[i].id != s[w].id);
        }
    }
}

/// The recently-watched row for this channel (meaningful when unique).
pub open spec fn recent_by_id(s: Seq<RecentlyWatchedView>, channel_id: i64) -> RecentlyWatchedView {
    s[choose|i: int| 0 <= i < s.len() && (#[trigger] s[i]).channel_id == channel_id]
}

/// With unique channel ids, the row `recent_by_id` picks is the row at any
/// index holding that channel.
pub proof fn lemma_recent_at_index(s: Seq<RecentlyWatchedView>, i: int)
    requires
        forall|a: int, b: int|
            0 <= a < b < s.len() ==> (#[trigger] s[a]).channel_id != (#[trigger] s[b]).channel_id,
        0 <= i < s.len(),
    ensures
        recent_by_id(s, s[i].channel_id) == s[i],
{
    let id = s[i].channel_id;
    assert(has_recent(s, id));
    let w = choose|w: int| 0 <= w < s.len() && (#[trigger] s[w]).channel_id == id;
    if w != i {
        if w < i {
            assert(s[w].channel_id != s[i].channel_id);
        } else {
            assert(s[i].channel_id != s[w].channel_id);
        }
    }
}

/// Well-formedness of the catalog: primary keys are unique, foreign keys
/// resolve, and the id counters are ahead of every existing row.
pub open spec fn catalog_wf(c: CatalogView) -> bool {
    &&& forall|i: int, j: int|
        0 <= i < j < c.playlists.len() ==> (#[trigger] c.playlists[i]).id != (
        #[trigger] c.playlists[j]).id
    &&& forall|i: int, j: int|
        0 <= i < j < c.categories.len() ==> (#[trigger] c.categories[i]).id != (
        #[trigger] c.categories[j]).id
    &&& forall|i: int, j: int|
        0 <= i < j < c.channels.len() ==> (#[trigger] c.channels[i]).id != (
        #[trigger] c.channels[j]).id
    &&& forall|i: int, j: int|
        0 <= i < j < c.epg.len() ==> (#[trigger] c.epg[i]).id != (#[trigger] c.epg[j]).id
    &&& forall|i: int, j: int|
        0 <= i < j < c.recent.len() ==> (#[trigger] c.recent[i]).channel_id != (
        #[trigger] c.recent[j]).channel_id
    &&& forall|i: int|
        0 <= i < c.categories.len() ==> has_playlist(
            c.playlists,
            (#[trigger] c.categories[i]).playlist_id,
        )
    &&& forall|i: int|
        0 <= i < c.channels.len() ==> has_playlist(
            c.playlists,
            (#[trigger] c.channels[i]).playlist_id,
        )
    &&& forall|i: int|
        0 <= i < c.epg.len() ==> has_channel(c.channels, (#[trigger] c.epg[i]).channel_id)
    &&& forall|i: int|
        0 <= i < c.recent.len() ==> has_channel(c.channels, (#[trigger] c.recent[i]).channel_id)
    &&& forall|i: int| 0 <= i < c.playlists.len() ==> (#[trigger] c.playlists[i]).id < c.next_playlist_id
    &&& forall|i: int| 0 <= i < c.categories.len() ==> (#[trigger] c.categories[i]).id < c.next_category_id
}

/// The empty catalog.
pub open spec fn empty_catalog() -> CatalogView {
    CatalogView {
        playlists: Seq::empty(),
        categories: Seq::empty(),
        channels: Seq::empty(),
        epg: Seq::empty(),
        recent: Seq::empty(),
        next_playlist_id: 1,
        next_category_id: 1,
    }
}

/// Data for a playlist created by user action.
pub struct NewPlaylistData {
    pub name: String,
    pub url: String,
    pub kind: crate::model::PlaylistKind,
    pub error_message: Option<String>,
    pub username: Option<String>,
    pub password: Option<String>,
    pub mac_address: Option<String>,
    pub max_connections: Option<i64>,
    pub expiration_date: Option<String>,
    pub last_updated: Option<String>,
}

/// The playlist row that `add_playlist` appends for `data` under id `id`:
/// inactive status, active flag set, as a fresh playlist starts out.
pub open spec fn spec_new_playlist(data: NewPlaylistData, id: i64) -> PlaylistView {
    PlaylistView {
        id: id,
        name: data.name@,
        url: data.url@,
        kind: data.kind,
        is_active: true,
        status: PlaylistStatus::Inactive,
        error_message: opt_str_view(data.error_message),
        username: opt_str_view(data.username),
        password: opt_str_view(data.password),
        mac_address: opt_str_view(data.mac_address),
        max_connections: data.max_connections,
        expiration_date: opt_str_view(data.expiration_date),
        last_updated: opt_str_view(data.last_updated),
    }
}

/// Playlist sequence with the row holding `id` given status `st`, error
/// text `err` and update stamp `now`; other rows untouched.
pub open spec fn spec_set_status(
    s: Seq<PlaylistView>,
    id: i64,
    st: PlaylistStatus,
    err: Option<Seq<char>>,
    now: Seq<char>,
) -> Seq<PlaylistView> {
    Seq::new(
        s.len(),
        |i: int|
            if s[i].id == id {
                PlaylistView { status: st, error_message: err, last_updated: Some(now), ..s[i] }
            } else {
                s[i]
            },
    )
}

/// Two playlist tables whose rows carry the same ids position by position
/// answer every id lookup the same way.
pub proof fn lemma_playlist_ids_preserved(op: Seq<PlaylistView>, np: Seq<PlaylistView>)
    requires
        np.len() == op.len(),
        forall|i: int| 0 <= i < op.len() ==> (#[trigger] np[i]).id == op[i].id,
    ensures
        forall|x: i64| #[trigger] has_playlist(op, x) ==> has_playlist(np, x),
        forall|x: i64| #[trigger] has_playlist(np, x) ==> has_playlist(op, x),
{
    assert forall|x: i64| has_playlist(op, x) implies has_playlist(np, x) by {
        let w = choose|i: int| 0 <= i < op.len() && (#[trigger] op[i]).id == x;
        assert(np[w].id == x);
    }
    assert forall|x: i64| has_playlist(np, x) implies has_playlist(op, x) by {
        let w = choose|i: int| 0 <= i < np.len() && (#[trigger] np[i]).id == x;
        assert(op[w].id == x);
    }
}

/// A filtered element satisfies the predicate and occurs in the sequence
/// it was filtered from.
pub proof fn lemma_filter_elem<T>(s: Seq<T>, pred: spec_fn(T) -> bool, i: int)
    requires
        0 <= i < s.filter(pred).len(),
    ensures
        pred(s.filter(pred)[i]),
        exists|k: int| 0 <= k < s.len() && s[k] == s.filter(pred)[i],
{
    s.lemma_filter_pred(pred, i);
    assert(s.filter(pred).contains(s.filter(pred)[i]));
    s.lemma_filter_contains_rev(pred, s.filter(pred)[i]);
    let k = choose|k: int| 0 <= k < s.len() && s[k] == s.filter(pred)[i];
    assert(0 <= k < s.len() && s[k] == s.filter(pred)[i]);
}

/// Filtering a table whose key column is unique keeps it unique.
pub proof fn lemma_filter_unique_key<T>(s: Seq<T>, pred: spec_fn(T) -> bool, key: spec_fn(T) -> i64)
    requires
        forall|i: int, j: int|
            #![trigger key(s[i]), key(s[j])]
            0 <= i < j < s.len() ==> key(s[i]) != key(s[j]),
    ensures
        forall|i: int, j: int|
            #![trigger key(s.filter(pred)[i]), key(s.filter(pred)[j])]
            0 <= i < j < s.filter(pred).len() ==> key(s.filter(pred)[i]) != key(s.filter(pred)[j]),
    decreases s.len(),
{
    reveal(Seq::filter);
    if s.len() == 0 {
    } else {
        let d = s.drop_last();
        assert forall|i: int, j: int|
            #![trigger key(d[i]), key(d[j])]
            0 <= i < j < d.len() implies key(d[i]) != key(d[j]) by {
            assert(key(s[i]) != key(s[j]));
        }
        lemma_filter_unique_key(d, pred, key);
        let f = s.filter(pred);
        let fd = d.filter(pred);
        assert forall|i: int, j: int|
            #![trigger key(f[i]), key(f[j])]
            0 <= i < j < f.len() implies key(f[i]) != key(f[j]) by {
            if pred(s.last()) {
                assert(f == fd.push(s.last()));
                if j < fd.len() {
                    assert(f[i] == fd[i] && f[j] == fd[j]);
                    assert(key(fd[i]) != key(fd[j]));
                } else {
                    assert(f[j] == s.last());
                    assert(f[i] == fd[i]);
                    lemma_filter_elem(d, pred, i);
                    let k = choose|k: int| 0 <= k < d.len() && d[k] == fd[i];
                    assert(key(s[k]) != key(s[s.len() - 1]));
                }
            } else {
                assert(f == fd);
                assert(key(fd[i]) != key(fd[j]));
            }
        }
    }
}

/// Deleting a playlist keeps a row exactly when it does not belong to the
/// playlist; EPG and recently-watched rows survive exactly when their
/// channel does (the cascade).
pub open spec fn keeps_playlist(id: i64) -> spec_fn(PlaylistView) -> bool {
    |p: PlaylistView| p.id != id
}

pub open spec fn keeps_category(id: i64) -> spec_fn(CategoryView) -> bool {
    |c: CategoryView| c.playlist_id != id
}

pub open spec fn keeps_channel(id: i64) -> spec_fn(ChannelView) -> bool {
    |c: ChannelView| c.playlist_id != id
}

pub open spec fn kept_epg(nch: Seq<ChannelView>) -> spec_fn(EpgEntryView) -> bool {
    |e: EpgEntryView| has_channel(nch, e.channel_id)
}

pub open spec fn kept_recent(nch: Seq<ChannelView>) -> spec_fn(RecentlyWatchedView) -> bool {
    |r: RecentlyWatchedView| has_channel(nch, r.channel_id)
}

/// The catalog after a playlist is deleted: the playlist row, its
/// categories and its channels go; EPG and recently-watched rows cascade
/// with their channels.
pub open spec fn spec_delete_playlist(c: CatalogView, id: i64) -> CatalogView {
    let nch = c.channels.filter(keeps_channel(id));
    CatalogView {
        playlists: c.playlists.filter(keeps_playlist(id)),
        categories: c.categories.filter(keeps_category(id)),
        channels: nch,
        epg: c.epg.filter(kept_epg(nch)),
        recent: c.recent.filter(kept_recent(nch)),
        ..c
    }
}

/// Decides `has_channel` over a channel table.
pub fn vec_has_channel(v: &Vec<Channel>, id: i64) -> (r: bool)
    ensures
        r == has_channel(channels_view(v@), id),
{
    let n = v.len();
    for i in 0..n
        invariant
            n == v@.len(),
            forall|j: int| 0 <= j < i ==> (#[trigger] channels_view(v@)[j]).id != id,
    {
        if v[i].id == id {
            assert(channels_view(v@)[i as int].id == id);
            return true;
        }
    }
    false
}


/// Two channel tables whose rows carry the same ids position by position
/// answer every id lookup the same way.
pub proof fn lemma_channel_ids_preserved(oc: Seq<ChannelView>, nc: Seq<ChannelView>)
    requires
        nc.len() == oc.len(),
        forall|i: int| 0 <= i < oc.len() ==> (#[trigger] nc[i]).id == oc[i].id,
    ensures
        forall|x: i64| #[trigger] has_channel(oc, x) ==> has_channel(nc, x),
        forall|x: i64| #[trigger] has_channel(nc, x) ==> has_channel(oc, x),
{
    assert forall|x: i64| has_channel(oc, x) implies has_channel(nc, x) by {
        let w = choose|i: int| 0 <= i < oc.len() && (#[trigger] oc[i]).id == x;
        assert(nc[w].id == x);
    }
    assert forall|x: i64| has_channel(nc, x) implies has_channel(oc, x) by {
        let w = choose|i: int| 0 <= i < nc.len() && (#[trigger] nc[i]).id == x;
        assert(oc[w].id == x);
    }
}

/// Decides membership in an id list.
pub fn contains_i64(v: &Vec<i64>, x: i64) -> (r: bool)
    ensures
        r == v@.contains(x),
{
    let n = v.len();
    for i in 0..n
        invariant
            n == v@.len(),
            forall|j: int| 0 <= j < i ==> v@[j] != x,
    {
        if v[i] == x {
            return true;
        }
    }
    false
}

/// The channel table with one channel's favorite flag flipped.
pub open spec fn spec_toggle_channel_favorite(s: Seq<ChannelView>, id: i64) -> Seq<ChannelView> {
    Seq::new(
        s.len(),
        |i: int|
            if s[i].id == id {
                ChannelView { is_favorite: !s[i].is_favorite, ..s[i] }
            } else {
                s[i]
            },
    )
}

/// The channel table with one channel's hidden flag flipped.
pub open spec fn spec_toggle_channel_visibility(s: Seq<ChannelView>, id: i64) -> Seq<ChannelView> {
    Seq::new(
        s.len(),
        |i: int|
            if s[i].id == id {
                ChannelView { is_hidden: !s[i].is_hidden, ..s[i] }
            } else {
                s[i]
            },
    )
}

/// The channel table with the hidden flag of every listed channel set.
pub open spec fn spec_set_channels_hidden(s: Seq<ChannelView>, ids: Seq<i64>, hidden: bool) -> Seq<
    ChannelView,
> {
    Seq::new(
        s.len(),
        |i: int|
            if ids.contains(s[i].id) {
                ChannelView { is_hidden: hidden, ..s[i] }
            } else {
                s[i]
            },
    )
}

/// The channel table with the favorite flag of every listed channel set.
pub open spec fn spec_set_channels_favorite(s: Seq<ChannelView>, ids: Seq<i64>, fav: bool) -> Seq<
    ChannelView,
> {
    Seq::new(
        s.len(),
        |i: int|
            if ids.contains(s[i].id) {
                ChannelView { is_favorite: fav, ..s[i] }
            } else {
                s[i]
            },
    )
}

/// The category table with one category's hidden flag flipped.
pub open spec fn spec_toggle_category_visibility(s: Seq<CategoryView>, id: i64) -> Seq<
    CategoryView,
> {
    Seq::new(
        s.len(),
        |i: int|
            if s[i].id == id {
                CategoryView { is_hidden: !s[i].is_hidden, ..s[i] }
            } else {
                s[i]
            },
    )
}

/// The category table with the hidden flag of every listed category set.
pub open spec fn spec_set_categories_hidden(s: Seq<CategoryView>, ids: Seq<i64>, hidden: bool) -> Seq<
    CategoryView,
> {
    Seq::new(
        s.len(),
        |i: int|
            if ids.contains(s[i].id) {
                CategoryView { is_hidden: hidden, ..s[i] }
            } else {
                s[i]
            },
    )
}

/// Row `i` is watched more recently than row `j`: a later stamp wins, and
/// on equal stamps the earlier row wins.
pub open spec fn rw_beats(s: Seq<RecentlyWatchedView>, i: int, j: int) -> bool {
    crate::text::lex_lt(s[j].last_watched, s[i].last_watched) || (s[i].last_watched
        == s[j].last_watched && i < j)
}

/// How many of the first `k` rows are watched more recently than row `j`.
pub open spec fn rw_beats_upto(s: Seq<RecentlyWatchedView>, j: int, k: int) -> int
    decreases k,
{
    if k <= 0 {
        0
    } else {
        rw_beats_upto(s, j, k - 1) + if rw_beats(s, k - 1, j) {
            1int
        } else {
            0int
        }
    }
}

/// How many rows are watched more recently than row `j`.
pub open spec fn rw_rank(s: Seq<RecentlyWatchedView>, j: int) -> int {
    rw_beats_upto(s, j, s.len() as int)
}

/// The first `k` rows of the table, with those outside the 15 most recent
/// dropped.
pub open spec fn prune_recent_upto(s: Seq<RecentlyWatchedView>, k: int) -> Seq<
    RecentlyWatchedView,
>
    decreases k,
{
    if k <= 0 {
        Seq::empty()
    } else if rw_rank(s, k - 1) < 15 {
        prune_recent_upto(s, k - 1).push(s[k - 1])
    } else {
        prune_recent_upto(s, k - 1)
    }
}

/// The table reduced to the 15 most recently watched rows.
pub open spec fn spec_prune_recent(s: Seq<RecentlyWatchedView>) -> Seq<RecentlyWatchedView> {
    prune_recent_upto(s, s.len() as int)
}

/// The table with the row for `cid` stamped `now`, added if absent.
pub open spec fn spec_upsert_recent(
    s: Seq<RecentlyWatchedView>,
    cid: i64,
    now: Seq<char>,
) -> Seq<RecentlyWatchedView> {
    if has_recent(s, cid) {
        Seq::new(
            s.len(),
            |i: int|
                if s[i].channel_id == cid {
                    RecentlyWatchedView { last_watched: now, ..s[i] }
                } else {
                    s[i]
                },
        )
    } else {
        s.push(RecentlyWatchedView { channel_id: cid, last_watched: now })
    }
}

/// Every pruned row is one of the first `k` rows of the table.
pub proof fn lemma_prune_sub(s: Seq<RecentlyWatchedView>, k: int)
    requires
        0 <= k <= s.len(),
    ensures
        forall|i: int|
            0 <= i < prune_recent_upto(s, k).len() ==> exists|t: int|
                0 <= t < k && s[t] == #[trigger] prune_recent_upto(s, k)[i],
    decreases k,
{
    if k > 0 {
        lemma_prune_sub(s, k - 1);
        assert forall|i: int| 0 <= i < prune_recent_upto(s, k).len() implies exists|t: int|
            0 <= t < k && s[t] == #[trigger] prune_recent_upto(s, k)[i] by {
            if rw_rank(s, k - 1) < 15 && i == prune_recent_upto(s, k - 1).len() {
                assert(prune_recent_upto(s, k)[i] == s[k - 1]);
            } else {
                assert(prune_recent_upto(s, k)[i] == prune_recent_upto(s, k - 1)[i]);
                let t = choose|t: int| 0 <= t < k - 1 && s[t] == prune_recent_upto(s, k - 1)[i];
                assert(s[t] == prune_recent_upto(s, k)[i]);
            }
        }
    }
}

/// Pruning a table with unique channel ids keeps them unique.
pub proof fn lemma_prune_unique(s: Seq<RecentlyWatchedView>, k: int)
    requires
        0 <= k <= s.len(),
        forall|i: int, j: int|
            0 <= i < j < s.len() ==> (#[trigger] s[i]).channel_id != (#[trigger] s[j]).channel_id,
    ensures
        forall|i: int, j: int|
            0 <= i < j < prune_recent_upto(s, k).len() ==> (#[trigger] prune_recent_upto(s, k)[i]).channel_id
                != (#[trigger] prune_recent_upto(s, k)[j]).channel_id,
    decreases k,
{
    if k > 0 {
        lemma_prune_unique(s, k - 1);
        lemma_prune_sub(s, k - 1);
        assert forall|i: int, j: int| 0 <= i < j < prune_recent_upto(s, k).len() implies (
        #[trigger] prune_recent_upto(s, k)[i]).channel_id != (
        #[trigger] prune_recent_upto(s, k)[j]).channel_id by {
            if rw_rank(s, k - 1) < 15 && j == prune_recent_upto(s, k - 1).len() {
                assert(prune_recent_upto(s, k)[j] == s[k - 1]);
                assert(prune_recent_upto(s, k)[i] == prune_recent_upto(s, k - 1)[i]);
                let t = choose|t: int| 0 <= t < k - 1 && s[t] == prune_recent_upto(s, k - 1)[i];
                assert(s[t].channel_id != s[k - 1].channel_id);
            } else {
                assert(prune_recent_upto(s, k)[i] == prune_recent_upto(s, k - 1)[i]);
                assert(prune_recent_upto(s, k)[j] == prune_recent_upto(s, k - 1)[j]);
            }
        }
    }
}

/// Decides `has_recent` over a recently-watched table.
pub fn vec_has_recent(v: &Vec<RecentlyWatched>, channel_id: i64) -> (r: bool)
    ensures
        r == has_recent(recent_view(v@), channel_id),
{
    let n = v.len();
    for i in 0..n
        invariant
            n == v@.len(),
            forall|j: int| 0 <= j < i ==> (#[trigger] recent_view(v@)[j]).channel_id != channel_id,
    {
        if v[i].channel_id == channel_id {
            assert(recent_view(v@)[i as int].channel_id == channel_id);
            return true;
        }
    }
    false
}

impl Catalog {
    /// Creates an empty catalog.
    pub fn new() -> (c: Catalog)
        ensures
            c@ == empty_catalog(),
            catalog_wf(c@),
    {
        let c = Catalog {
            playlists: Vec::new(),
            categories: Vec::new(),
            channels: Vec::new(),
            epg_entries: Vec::new(),
            recently_watched: Vec::new(),
            next_playlist_id: 1,
            next_category_id: 1,
        };
        proof {
            assert(c@.playlists =~= empty_catalog().playlists);
            assert(c@.categories =~= empty_catalog().categories);
            assert(c@.channels =~= empty_catalog().channels);
            assert(c@.epg =~= empty_catalog().epg);
            assert(c@.recent =~= empty_catalog().recent);
        }
        c
    }

    /// Index of the playlist row holding `id`.
    pub fn find_playlist(&self, id: i64) -> (r: Option<usize>)
        ensures
            match r {
                Some(i) => i < self@.playlists.len() && self@.playlists[i as int].id == id,
                None => !has_playlist(self@.playlists, id),
            },
    {
        let n = self.playlists.len();
        for i in 0..n
            invariant
                n == self@.playlists.len(),
                forall|j: int| 0 <= j < i ==> (#[trigger] self@.playlists[j]).id != id,
        {
            if self.playlists[i].id == id {
                return Some(i);
            }
        }
        None
    }

    /// Adds a playlist created by user action; returns its fresh id.
    pub fn add_playlist(&mut self, data: NewPlaylistData) -> (r: Option<i64>)
        requires
            catalog_wf(old(self)@),
        ensures
            catalog_wf(final(self)@),
            match r {
                Some(id) => {
                    &&& old(self)@.next_playlist_id < i64::MAX
                    &&& id == old(self)@.next_playlist_id
                    &&& final(self)@ == (CatalogView {
                        playlists: old(self)@.playlists.push(spec_new_playlist(data, id)),
                        next_playlist_id: (old(self)@.next_playlist_id + 1) as i64,
                        ..old(self)@
                    })
                },
                None => {
                    &&& old(self)@.next_playlist_id == i64::MAX
                    &&& *final(self) == *old(self)
                },
            },
    {
        if self.next_playlist_id == i64::MAX {
            return None;
        }
        let id = self.next_playlist_id;
        let row = Playlist {
            id: id,
            name: data.name,
            url: data.url,
            kind: data.kind,
            is_active: true,
            status: PlaylistStatus::Inactive,
            error_message: data.error_message,
            username: data.username,
            password: data.password,
            mac_address: data.mac_address,
            max_connections: data.max_connections,
            expiration_date: data.expiration_date,
            last_updated: data.last_updated,
        };
        self.playlists.push(row);
        self.next_playlist_id = self.next_playlist_id + 1;
        proof {
            assert(self@.playlists =~= old(self)@.playlists.push(spec_new_playlist(data, id)));
            assert(self@.categories =~= old(self)@.categories);
            assert(self@.channels =~= old(self)@.channels);
            assert(self@.epg =~= old(self)@.epg);
            assert(self@.recent =~= old(self)@.recent);
            let op = old(self)@.playlists;
            let np = self@.playlists;
            assert forall|x: i64| has_playlist(op, x) implies has_playlist(np, x) by {
                let w = choose|i: int| 0 <= i < op.len() && (#[trigger] op[i]).id == x;
                assert(np[w].id == x);
            }
        }
        Some(id)
    }

    /// Replaces the non-key fields of the playlist row holding `p.id` with
    /// those of `p`; rows with other ids are untouched. Returns whether a
    /// row was found.
    pub fn update_playlist(&mut self, p: &Playlist) -> (found: bool)
        requires
            catalog_wf(old(self)@),
        ensures
            catalog_wf(final(self)@),
            found == has_playlist(old(self)@.playlists, p.id),
            final(self)@ == (CatalogView {
                playlists: Seq::new(
                    old(self)@.playlists.len(),
                    |i: int|
                        if old(self)@.playlists[i].id == p.id {
                            p@
                        } else {
                            old(self)@.playlists[i]
                        },
                ),
                ..old(self)@
            }),
    {
        let ghost target = Seq::new(
            old(self)@.playlists.len(),
            |i: int|
                if old(self)@.playlists[i].id == p.id {
                    p@
                } else {
                    old(self)@.playlists[i]
                },
        );
        match self.find_playlist(p.id) {
            Some(i) => {
                self.playlists[i] = Playlist {
                    id: p.id,
                    name: p.name.clone(),
                    url: p.url.clone(),
                    kind: p.kind,
                    is_active: p.is_active,
                    status: p.status,
                    error_message: clone_opt_string(&p.error_message),
                    username: clone_opt_string(&p.username),
                    password: clone_opt_string(&p.password),
                    mac_address: clone_opt_string(&p.mac_address),
                    max_connections: p.max_connections,
                    expiration_date: clone_opt_string(&p.expiration_date),
                    last_updated: clone_opt_string(&p.last_updated),
                };
                proof {
                    assert forall|j: int| 0 <= j < self@.playlists.len() implies self@.playlists[j]
                        == target[j] by {
                        if j != i {
                            assert(old(self)@.playlists[j].id != p.id);
                        }
                    }
                    assert(self@.playlists =~= target);
                    lemma_playlist_ids_preserved(old(self)@.playlists, self@.playlists);
                }
                true
            },
            None => {
                proof {
                    assert(self@.playlists =~= target);
                }
                false
            },
        }
    }

    /// Sets the status, error text and update stamp of one playlist, as the
    /// refresh engine does on every transition; other rows untouched.
    pub fn set_playlist_status(
        &mut self,
        id: i64,
        st: PlaylistStatus,
        error_message: Option<String>,
        now: &str,
    ) -> (found: bool)
        requires
            catalog_wf(old(self)@),
        ensures
            catalog_wf(final(self)@),
            found == has_playlist(old(self)@.playlists, id),
            final(self)@ == (CatalogView {
                playlists: spec_set_status(
                    old(self)@.playlists,
                    id,
                    st,
                    opt_str_view(error_message),
                    now@,
                ),
                ..old(self)@
            }),
    {
        let ghost target = spec_set_status(
            old(self)@.playlists,
            id,
            st,
            opt_str_view(error_message),
            now@,
        );
        match self.find_playlist(id) {
            Some(i) => {
                self.playlists[i].status = st;
                self.playlists[i].error_message = error_message;
                self.playlists[i].last_updated = Some(now.to_owned());
                proof {
                    assert forall|j: int| 0 <= j < self@.playlists.len() implies self@.playlists[j]
                        == target[j] by {
                        if j != i {
                            assert(old(self)@.playlists[j].id != id);
                        }
                    }
                    assert(self@.playlists =~= target);
                    lemma_playlist_ids_preserved(old(self)@.playlists, self@.playlists);
                }
                true
            },
            None => {
                proof {
                    assert(self@.playlists =~= target);
                }
                false
            },
        }
    }

    /// Deletes a playlist and, by cascade, its categories, its channels,
    /// and the EPG and recently-watched rows of those channels.
    #[verifier::rlimit(60)]
    pub fn delete_playlist(&mut self, id: i64)
        requires
            catalog_wf(old(self)@),
        ensures
            catalog_wf(final(self)@),
            final(self)@ == spec_delete_playlist(old(self)@, id),
    {
        let ghost c0 = old(self)@;
        let ghost chp = keeps_channel(id);
        let ghost nchs = c0.channels.filter(chp);

        let mut nch: Vec<Channel> = Vec::new();
        let cn = self.channels.len();
        for i in 0..cn
            invariant
                cn == c0.channels.len(),
                self == old(self),
                channels_view(nch@) == c0.channels.subrange(0, i as int).filter(chp),
        {
            let ghost u = c0.channels.subrange(0, i + 1);
            proof {
                assert(u.drop_last() =~= c0.channels.subrange(0, i as int));
                assert(u.last() == c0.channels[i as int]);
            }
            if self.channels[i].playlist_id != id {
                nch.push(crate::model::clone_channel(&self.channels[i]));
                proof {
                    reveal(Seq::filter);
                    assert(channels_view(nch@) =~= u.filter(chp));
                }
            } else {
                proof {
                    reveal(Seq::filter);
                    assert(channels_view(nch@) =~= u.filter(chp));
                }
            }
        }
        proof {
            assert(c0.channels.subrange(0, cn as int) =~= c0.channels);
            assert(channels_view(nch@) == nchs);
        }

        let mut npl: Vec<Playlist> = Vec::new();
        let pn = self.playlists.len();
        for i in 0..pn
            invariant
                pn == c0.playlists.len(),
                self == old(self),
                playlists_view(npl@) == c0.playlists.subrange(0, i as int).filter(
                    keeps_playlist(id),
                ),
        {
            let ghost u = c0.playlists.subrange(0, i + 1);
            proof {
                assert(u.drop_last() =~= c0.playlists.subrange(0, i as int));
                assert(u.last() == c0.playlists[i as int]);
            }
            if self.playlists[i].id != id {
                npl.push(crate::model::clone_playlist(&self.playlists[i]));
                proof {
                    reveal(Seq::filter);
                    assert(playlists_view(npl@) =~= u.filter(keeps_playlist(id)));
                }
            } else {
                proof {
                    reveal(Seq::filter);
                    assert(playlists_view(npl@) =~= u.filter(keeps_playlist(id)));
                }
            }
        }
        proof {
            assert(c0.playlists.subrange(0, pn as int) =~= c0.playlists);
        }

        let mut ncat: Vec<Category> = Vec::new();
        let catn = self.categories.len();
        for i in 0..catn
            invariant
                catn == c0.categories.len(),
                self == old(self),
                categories_view(ncat@) == c0.categories.subrange(0, i as int).filter(
                    keeps_category(id),
                ),
        {
            let ghost u = c0.categories.subrange(0, i + 1);
            proof {
                assert(u.drop_last() =~= c0.categories.subrange(0, i as int));
                assert(u.last() == c0.categories[i as int]);
            }
            if self.categories[i].playlist_id != id {
                ncat.push(crate::model::clone_category(&self.categories[i]));
                proof {
                    reveal(Seq::filter);
                    assert(categories_view(ncat@) =~= u.filter(keeps_category(id)));
                }
            } else {
                proof {
                    reveal(Seq::filter);
                    assert(categories_view(ncat@) =~= u.filter(keeps_category(id)));
                }
            }
        }
        proof {
            assert(c0.categories.subrange(0, catn as int) =~= c0.categories);
        }

        let mut nepg: Vec<EpgEntry> = Vec::new();
        let en = self.epg_entries.len();
        for i in 0..en
            invariant
                en == c0.epg.len(),
                self == old(self),
                channels_view(nch@) == nchs,
                epg_view(nepg@) == c0.epg.subrange(0, i as int).filter(kept_epg(nchs)),
        {
            let ghost u = c0.epg.subrange(0, i + 1);
            proof {
                assert(u.drop_last() =~= c0.epg.subrange(0, i as int));
                assert(u.last() == c0.epg[i as int]);
            }
            if vec_has_channel(&nch, self.epg_entries[i].channel_id) {
                nepg.push(crate::model::clone_epg_entry(&self.epg_entries[i]));
                proof {
                    reveal(Seq::filter);
                    assert(epg_view(nepg@) =~= u.filter(kept_epg(nchs)));
                }
            } else {
                proof {
                    reveal(Seq::filter);
                    assert(epg_view(nepg@) =~= u.filter(kept_epg(nchs)));
                }
            }
        }
        proof {
            assert(c0.epg.subrange(0, en as int) =~= c0.epg);
        }

        let mut nrec: Vec<RecentlyWatched> = Vec::new();
        let rn = self.recently_watched.len();
        for i in 0..rn
            invariant
                rn == c0.recent.len(),
                self == old(self),
                channels_view(nch@) == nchs,
                recent_view(nrec@) == c0.recent.subrange(0, i as int).filter(kept_recent(nchs)),
        {
            let ghost u = c0.recent.subrange(0, i + 1);
            proof {
                assert(u.drop_last() =~= c0.recent.subrange(0, i as int));
                assert(u.last() == c0.recent[i as int]);
            }
            if vec_has_channel(&nch, self.recently_watched[i].channel_id) {
                nrec.push(crate::model::clone_recently_watched(&self.recently_watched[i]));
                proof {
                    reveal(Seq::filter);
                    assert(recent_view(nrec@) =~= u.filter(kept_recent(nchs)));
                }
            } else {
                proof {
                    reveal(Seq::filter);
                    assert(recent_view(nrec@) =~= u.filter(kept_recent(nchs)));
                }
            }
        }
        proof {
            assert(c0.recent.subrange(0, rn as int) =~= c0.recent);
        }

        self.channels = nch;
        self.playlists = npl;
        self.categories = ncat;
        self.epg_entries = nepg;
        self.recently_watched = nrec;

        proof {
            let c1 = self@;
            assert(c1.playlists == c0.playlists.filter(keeps_playlist(id)));
            assert(c1.categories == c0.categories.filter(keeps_category(id)));
            assert(c1.channels == nchs);
            assert(c1.epg == c0.epg.filter(kept_epg(nchs)));
            assert(c1.recent == c0.recent.filter(kept_recent(nchs)));

            let kpl = |p: PlaylistView| p.id;
            let kcat = |c: CategoryView| c.id;
            let kch = |c: ChannelView| c.id;
            let kepg = |e: EpgEntryView| e.id;
            let krec = |r: RecentlyWatchedView| r.channel_id;
            assert forall|i: int, j: int|
                #![trigger kpl(c0.playlists[i]), kpl(c0.playlists[j])]
                0 <= i < j < c0.playlists.len() implies kpl(c0.playlists[i]) != kpl(
                c0.playlists[j],
            ) by {}
            lemma_filter_unique_key(c0.playlists, keeps_playlist(id), kpl);
            assert forall|i: int, j: int|
                #![trigger kcat(c0.categories[i]), kcat(c0.categories[j])]
                0 <= i < j < c0.categories.len() implies kcat(c0.categories[i]) != kcat(
                c0.categories[j],
            ) by {}
            lemma_filter_unique_key(c0.categories, keeps_category(id), kcat);
            assert forall|i: int, j: int|
                #![trigger kch(c0.channels[i]), kch(c0.channels[j])]
                0 <= i < j < c0.channels.len() implies kch(c0.channels[i]) != kch(
                c0.channels[j],
            ) by {}
            lemma_filter_unique_key(c0.channels, keeps_channel(id), kch);
            assert forall|i: int, j: int|
                #![trigger kepg(c0.epg[i]), kepg(c0.epg[j])]
                0 <= i < j < c0.epg.len() implies kepg(c0.epg[i]) != kepg(c0.epg[j]) by {}
            lemma_filter_unique_key(c0.epg, kept_epg(nchs), kepg);
            assert forall|i: int, j: int|
                #![trigger krec(c0.recent[i]), krec(c0.recent[j])]
                0 <= i < j < c0.recent.len() implies krec(c0.recent[i]) != krec(
                c0.recent[j],
            ) by {}
            lemma_filter_unique_key(c0.recent, kept_recent(nchs), krec);

            assert forall|i: int, j: int| 0 <= i < j < c1.playlists.len() implies (
            #[trigger] c1.playlists[i]).id != (#[trigger] c1.playlists[j]).id by {
                assert(kpl(c1.playlists[i]) != kpl(c1.playlists[j]));
            }
            assert forall|i: int, j: int| 0 <= i < j < c1.categories.len() implies (
            #[trigger] c1.categories[i]).id != (#[trigger] c1.categories[j]).id by {
                assert(kcat(c1.categories[i]) != kcat(c1.categories[j]));
            }
            assert forall|i: int, j: int| 0 <= i < j < c1.channels.len() implies (
            #[trigger] c1.channels[i]).id != (#[trigger] c1.channels[j]).id by {
                assert(kch(c1.channels[i]) != kch(c1.channels[j]));
            }
            assert forall|i: int, j: int| 0 <= i < j < c1.epg.len() implies (
            #[trigger] c1.epg[i]).id != (#[trigger] c1.epg[j]).id by {
                assert(kepg(c1.epg[i]) != kepg(c1.epg[j]));
            }
            assert forall|i: int, j: int| 0 <= i < j < c1.recent.len() implies (
            #[trigger] c1.recent[i]).channel_id != (#[trigger] c1.recent[j]).channel_id by {
                assert(krec(c1.recent[i]) != krec(c1.recent[j]));
            }

            assert forall|i: int| 0 <= i < c1.categories.len() implies has_playlist(
                c1.playlists,
                (#[trigger] c1.categories[i]).playlist_id,
            ) by {
                lemma_filter_elem(c0.categories, keeps_category(id), i);
                let pid = c1.categories[i].playlist_id;
                assert(pid != id);
                let w = choose|w: int|
                    0 <= w < c0.playlists.len() && (#[trigger] c0.playlists[w]).id == pid;
                c0.playlists.lemma_filter_contains(keeps_playlist(id), w);
                let w2 = choose|w2: int|
                    0 <= w2 < c1.playlists.len() && c1.playlists[w2] == c0.playlists[w];
                assert(c1.playlists[w2].id == pid);
            }
            assert forall|i: int| 0 <= i < c1.channels.len() implies has_playlist(
                c1.playlists,
                (#[trigger] c1.channels[i]).playlist_id,
            ) by {
                lemma_filter_elem(c0.channels, keeps_channel(id), i);
                let pid = c1.channels[i].playlist_id;
                assert(pid != id);
                let k = choose|k: int| 0 <= k < c0.channels.len() && c0.channels[k]
                    == c1.channels[i];
                assert(has_playlist(c0.playlists, pid));
                let w = choose|w: int|
                    0 <= w < c0.playlists.len() && (#[trigger] c0.playlists[w]).id == pid;
                c0.playlists.lemma_filter_contains(keeps_playlist(id), w);
                let w2 = choose|w2: int|
                    0 <= w2 < c1.playlists.len() && c1.playlists[w2] == c0.playlists[w];
                assert(c1.playlists[w2].id == pid);
            }
            assert forall|i: int| 0 <= i < c1.epg.len() implies has_channel(
                c1.channels,
                (#[trigger] c1.epg[i]).channel_id,
            ) by {
                lemma_filter_elem(c0.epg, kept_epg(nchs), i);
            }
            assert forall|i: int| 0 <= i < c1.recent.len() implies has_channel(
                c1.channels,
                (#[trigger] c1.recent[i]).channel_id,
            ) by {
                lemma_filter_elem(c0.recent, kept_recent(nchs), i);
            }
            assert forall|i: int| 0 <= i < c1.playlists.len() implies (
            #[trigger] c1.playlists[i]).id < c1.next_playlist_id by {
                lemma_filter_elem(c0.playlists, keeps_playlist(id), i);
            }
            assert forall|i: int| 0 <= i < c1.categories.len() implies (
            #[trigger] c1.categories[i]).id < c1.next_category_id by {
                lemma_filter_elem(c0.categories, keeps_category(id), i);
            }
        }
    }

    /// Sets one playlist's active flag; other rows untouched.
    pub fn update_playlist_active_status(&mut self, id: i64, is_active: bool) -> (found: bool)
        requires
            catalog_wf(old(self)@),
        ensures
            catalog_wf(final(self)@),
            found == has_playlist(old(self)@.playlists, id),
            final(self)@ == (CatalogView {
                playlists: Seq::new(
                    old(self)@.playlists.len(),
                    |i: int|
                        if old(self)@.playlists[i].id == id {
                            PlaylistView { is_active: is_active, ..old(self)@.playlists[i] }
                        } else {
                            old(self)@.playlists[i]
                        },
                ),
                ..old(self)@
            }),
    {
        let ghost target = Seq::new(
            old(self)@.playlists.len(),
            |i: int|
                if old(self)@.playlists[i].id == id {
                    PlaylistView { is_active: is_active, ..old(self)@.playlists[i] }
                } else {
                    old(self)@.playlists[i]
                },
        );
        match self.find_playlist(id) {
            Some(i) => {
                self.playlists[i].is_active = is_active;
                proof {
                    assert forall|j: int| 0 <= j < self@.playlists.len() implies self@.playlists[j]
                        == target[j] by {
                        if j != i {
                            assert(old(self)@.playlists[j].id != id);
                        }
                    }
                    assert(self@.playlists =~= target);
                    lemma_playlist_ids_preserved(old(self)@.playlists, self@.playlists);
                }
                true
            },
            None => {
                proof {
                    assert(self@.playlists =~= target);
                }
                false
            },
        }
    }

    /// Index of the channel row holding `id`.
    pub fn find_channel(&self, id: i64) -> (r: Option<usize>)
        ensures
            match r {
                Some(i) => i < self@.channels.len() && self@.channels[i as int].id == id,
                None => !has_channel(self@.channels, id),
            },
    {
        let n = self.channels.len();
        for i in 0..n
            invariant
                n == self@.channels.len(),
                forall|j: int| 0 <= j < i ==> (#[trigger] self@.channels[j]).id != id,
        {
            if self.channels[i].id == id {
                return Some(i);
            }
        }
        None
    }

    /// Flips one channel's favorite flag; other rows untouched.
    pub fn toggle_channel_favorite(&mut self, id: i64) -> (found: bool)
        requires
            catalog_wf(old(self)@),
        ensures
            catalog_wf(final(self)@),
            found == has_channel(old(self)@.channels, id),
            final(self)@ == (CatalogView {
                channels: spec_toggle_channel_favorite(old(self)@.channels, id),
                ..old(self)@
            }),
    {
        let ghost target = spec_toggle_channel_favorite(old(self)@.channels, id);
        match self.find_channel(id) {
            Some(i) => {
                let cur = self.channels[i].is_favorite;
                self.channels[i].is_favorite = !cur;
                proof {
                    assert forall|j: int| 0 <= j < self@.channels.len() implies self@.channels[j]
                        == target[j] by {
                        if j != i {
                            assert(old(self)@.channels[j].id != id);
                        }
                    }
                    assert(self@.channels =~= target);
                    lemma_channel_ids_preserved(old(self)@.channels, self@.channels);
                }
                true
            },
            None => {
                proof {
                    assert(self@.channels =~= target);
                }
                false
            },
        }
    }

    /// Flips one channel's hidden flag; other rows untouched.
    pub fn toggle_channel_visibility(&mut self, id: i64) -> (found: bool)
        requires
            catalog_wf(old(self)@),
        ensures
            catalog_wf(final(self)@),
            found == has_channel(old(self)@.channels, id),
            final(self)@ == (CatalogView {
                channels: spec_toggle_channel_visibility(old(self)@.channels, id),
                ..old(self)@
            }),
    {
        let ghost target = spec_toggle_channel_visibility(old(self)@.channels, id);
        match self.find_channel(id) {
            Some(i) => {
                let cur = self.channels[i].is_hidden;
                self.channels[i].is_hidden = !cur;
                proof {
                    assert forall|j: int| 0 <= j < self@.channels.len() implies self@.channels[j]
                        == target[j] by {
                        if j != i {
                            assert(old(self)@.channels[j].id != id);
                        }
                    }
                    assert(self@.channels =~= target);
                    lemma_channel_ids_preserved(old(self)@.channels, self@.channels);
                }
                true
            },
            None => {
                proof {
                    assert(self@.channels =~= target);
                }
                false
            },
        }
    }

    /// Sets the hidden flag of every listed channel; other rows untouched.
    pub fn batch_update_channel_visibility(&mut self, ids: &Vec<i64>, is_hidden: bool)
        requires
            catalog_wf(old(self)@),
        ensures
            catalog_wf(final(self)@),
            final(self)@ == (CatalogView {
                channels: spec_set_channels_hidden(old(self)@.channels, ids@, is_hidden),
                ..old(self)@
            }),
    {
        let ghost target = spec_set_channels_hidden(old(self)@.channels, ids@, is_hidden);
        let n = self.channels.len();
        let mut out: Vec<Channel> = Vec::new();
        for i in 0..n
            invariant
                n == old(self)@.channels.len(),
                self == old(self),
                channels_view(out@) == target.subrange(0, i as int),
        {
            let row = crate::model::clone_channel(&self.channels[i]);
            if contains_i64(ids, row.id) {
                out.push(Channel { is_hidden: is_hidden, ..row });
            } else {
                out.push(row);
            }
            proof {
                assert(channels_view(out@) =~= target.subrange(0, i + 1));
            }
        }
        self.channels = out;
        proof {
            assert(self@.channels =~= target);
            lemma_channel_ids_preserved(old(self)@.channels, self@.channels);
        }
    }

    /// Sets the favorite flag of every listed channel; other rows untouched.
    pub fn batch_update_channel_favorite_status(&mut self, ids: &Vec<i64>, is_favorite: bool)
        requires
            catalog_wf(old(self)@),
        ensures
            catalog_wf(final(self)@),
            final(self)@ == (CatalogView {
                channels: spec_set_channels_favorite(old(self)@.channels, ids@, is_favorite),
                ..old(self)@
            }),
    {
        let ghost target = spec_set_channels_favorite(old(self)@.channels, ids@, is_favorite);
        let n = self.channels.len();
        let mut out: Vec<Channel> = Vec::new();
        for i in 0..n
            invariant
                n == old(self)@.channels.len(),
                self == old(self),
                channels_view(out@) == target.subrange(0, i as int),
        {
            let row = crate::model::clone_channel(&self.channels[i]);
            if contains_i64(ids, row.id) {
                out.push(Channel { is_favorite: is_favorite, ..row });
            } else {
                out.push(row);
            }
            proof {
                assert(channels_view(out@) =~= target.subrange(0, i + 1));
            }
        }
        self.channels = out;
        proof {
            assert(self@.channels =~= target);
            lemma_channel_ids_preserved(old(self)@.channels, self@.channels);
        }
    }

    /// Index of the category row holding `id`.
    pub fn find_category(&self, id: i64) -> (r: Option<usize>)
        ensures
            match r {
                Some(i) => i < self@.categories.len() && self@.categories[i as int].id == id,
                None => !has_category(self@.categories, id),
            },
    {
        let n = self.categories.len();
        for i in 0..n
            invariant
                n == self@.categories.len(),
                forall|j: int| 0 <= j < i ==> (#[trigger] self@.categories[j]).id != id,
        {
            if self.categories[i].id == id {
                return Some(i);
            }
        }
        None
    }

    /// Flips one category's hidden flag; other rows untouched.
    pub fn toggle_category_visibility(&mut self, id: i64) -> (found: bool)
        requires
            catalog_wf(old(self)@),
        ensures
            catalog_wf(final(self)@),
            found == has_category(old(self)@.categories, id),
            final(self)@ == (CatalogView {
                categories: spec_toggle_category_visibility(old(self)@.categories, id),
                ..old(self)@
            }),
    {
        let ghost target = spec_toggle_category_visibility(old(self)@.categories, id);
        match self.find_category(id) {
            Some(i) => {
                let cur = self.categories[i].is_hidden;
                self.categories[i].is_hidden = !cur;
                proof {
                    assert forall|j: int| 0 <= j < self@.categories.len() implies self@.categories[j]
                        == target[j] by {
                        if j != i {
                            assert(old(self)@.categories[j].id != id);
                        }
                    }
                    assert(self@.categories =~= target);
                }
                true
            },
            None => {
                proof {
                    assert(self@.categories =~= target);
                }
                false
            },
        }
    }

    /// Sets the hidden flag of every listed category; other rows untouched.
    pub fn batch_update_category_visibility(&mut self, ids: &Vec<i64>, is_hidden: bool)
        requires
            catalog_wf(old(self)@),
        ensures
            catalog_wf(final(self)@),
            final(self)@ == (CatalogView {
                categories: spec_set_categories_hidden(old(self)@.categories, ids@, is_hidden),
                ..old(self)@
            }),
    {
        let ghost target = spec_set_categories_hidden(old(self)@.categories, ids@, is_hidden);
        let n = self.categories.len();
        let mut out: Vec<Category> = Vec::new();
        for i in 0..n
            invariant
                n == old(self)@.categories.len(),
                self == old(self),
                categories_view(out@) == target.subrange(0, i as int),
        {
            let row = crate::model::clone_category(&self.categories[i]);
            if contains_i64(ids, row.id) {
                out.push(Category { is_hidden: is_hidden, ..row });
            } else {
                out.push(row);
            }
            proof {
                assert(categories_view(out@) =~= target.subrange(0, i + 1));
            }
        }
        self.categories = out;
        proof {
            assert(self@.categories =~= target);
        }
    }

    /// How many recently-watched rows are watched more recently than row `j`.
    fn rw_rank_exec(&self, j: usize) -> (r: usize)
        requires
            j < self@.recent.len(),
        ensures
            r as int == rw_rank(self@.recent, j as int),
    {
        let ghost sv = self@.recent;
        let n = self.recently_watched.len();
        let bv = crate::text::str_to_chars(self.recently_watched[j].last_watched.as_str());
        let mut cnt: usize = 0;
        for k in 0..n
            invariant
                n == sv.len(),
                j < n,
                bv@ == sv[j as int].last_watched,
                cnt <= k,
                cnt as int == rw_beats_upto(sv, j as int, k as int),
        {
            let av = crate::text::str_to_chars(self.recently_watched[k].last_watched.as_str());
            let beats = crate::text::lex_lt_exec(&bv, &av) || (self.recently_watched[k].last_watched
                == self.recently_watched[j].last_watched && k < j);
            if beats {
                cnt = cnt + 1;
            }
            proof {
                assert(rw_beats(sv, k as int, j as int) == beats);
            }
        }
        cnt
    }

    /// Records that a channel was just watched: stamps (or adds) its
    /// recently-watched row and prunes the table to the 15 most recent.
    /// Returns false, changing nothing, when the channel does not exist.
    pub fn add_to_recently_watched(&mut self, channel_id: i64, now: &str) -> (r: bool)
        requires
            catalog_wf(old(self)@),
        ensures
            catalog_wf(final(self)@),
            r == has_channel(old(self)@.channels, channel_id),
            r ==> final(self)@ == (CatalogView {
                recent: spec_prune_recent(
                    spec_upsert_recent(old(self)@.recent, channel_id, now@),
                ),
                ..old(self)@
            }),
            !r ==> *final(self) == *old(self),
    {
        if !vec_has_channel(&self.channels, channel_id) {
            return false;
        }
        let ghost up = spec_upsert_recent(old(self)@.recent, channel_id, now@);

        let mut found: Option<usize> = None;
        let rn = self.recently_watched.len();
        for i in 0..rn
            invariant
                rn == self@.recent.len(),
                self == old(self),
                match found {
                    Some(k) => k < rn && self@.recent[k as int].channel_id == channel_id,
                    None => forall|j: int|
                        0 <= j < i ==> (#[trigger] self@.recent[j]).channel_id != channel_id,
                },
        {
            if self.recently_watched[i].channel_id == channel_id {
                found = Some(i);
                break;
            }
        }
        match found {
            Some(i) => {
                proof {
                    assert(old(self)@.recent[i as int].channel_id == channel_id);
                    assert(has_recent(old(self)@.recent, channel_id));
                }
                self.recently_watched[i].last_watched = now.to_owned();
                proof {
                    assert forall|j: int| 0 <= j < self@.recent.len() implies self@.recent[j]
                        == up[j] by {
                        if j != i {
                            if j < i {
                                assert(old(self)@.recent[j].channel_id != old(self)@.recent[
                                    i as int].channel_id);
                            } else {
                                assert(old(self)@.recent[i as int].channel_id != old(
                                    self,
                                )@.recent[j].channel_id);
                            }
                            assert(self@.recent[j] == old(self)@.recent[j]);
                        }
                    }
                    assert(self@.recent =~= up);
                }
            },
            None => {
                self.recently_watched.push(
                    RecentlyWatched { channel_id: channel_id, last_watched: now.to_owned() },
                );
                proof {
                    assert(!has_recent(old(self)@.recent, channel_id));
                    assert(self@.recent =~= up);
                }
            },
        }

        let m = self.recently_watched.len();
        let mut kept: Vec<RecentlyWatched> = Vec::new();
        for j in 0..m
            invariant
                m == up.len(),
                self@.recent == up,
                self.playlists == old(self).playlists,
                self.categories == old(self).categories,
                self.channels == old(self).channels,
                self.epg_entries == old(self).epg_entries,
                self.next_playlist_id == old(self).next_playlist_id,
                self.next_category_id == old(self).next_category_id,
                recent_view(kept@) == prune_recent_upto(up, j as int),
        {
            let rank = self.rw_rank_exec(j);
            if rank < 15 {
                kept.push(crate::model::clone_recently_watched(&self.recently_watched[j]));
                proof {
                    assert(recent_view(kept@) =~= prune_recent_upto(up, j + 1));
                }
            } else {
                proof {
                    assert(recent_view(kept@) =~= prune_recent_upto(up, j + 1));
                }
            }
        }
        self.recently_watched = kept;
        proof {
            assert(self@.recent == spec_prune_recent(up));
            let c0 = old(self)@;
            assert forall|i: int, j: int| 0 <= i < j < up.len() implies (
            #[trigger] up[i]).channel_id != (#[trigger] up[j]).channel_id by {
                if has_recent(c0.recent, channel_id) {
                    assert(up[i].channel_id == c0.recent[i].channel_id);
                    assert(up[j].channel_id == c0.recent[j].channel_id);
                } else {
                    if j == c0.recent.len() {
                        assert(up[j].channel_id == channel_id);
                        assert(c0.recent[i].channel_id != channel_id);
                    }
                }
            }
            assert forall|i: int| 0 <= i < up.len() implies has_channel(
                c0.channels,
                (#[trigger] up[i]).channel_id,
            ) by {
                if has_recent(c0.recent, channel_id) {
                    assert(up[i].channel_id == c0.recent[i].channel_id);
                } else {
                    if i < c0.recent.len() {
                        assert(up[i].channel_id == c0.recent[i].channel_id);
                    } else {
                        assert(up[i].channel_id == channel_id);
                    }
                }
            }
            lemma_prune_unique(up, up.len() as int);
            lemma_prune_sub(up, up.len() as int);
            assert forall|i: int| 0 <= i < self@.recent.len() implies has_channel(
                self@.channels,
                (#[trigger] self@.recent[i]).channel_id,
            ) by {
                let t = choose|t: int| 0 <= t < up.len() && up[t] == self@.recent[i];
                assert(has_channel(c0.channels, up[t].channel_id));
            }
        }
        true
    }

    /// All EPG rows of one channel, in table order.
    pub fn epg_for_channel(&self, id: i64) -> (r: Vec<EpgEntry>)
        ensures
            epg_view(r@) == self@.epg.filter(epg_of_channel(id)),
    {
        let n = self.epg_entries.len();
        let mut out: Vec<EpgEntry> = Vec::new();
        for i in 0..n
            invariant
                n == self@.epg.len(),
                epg_view(out@) == self@.epg.subrange(0, i as int).filter(epg_of_channel(id)),
        {
            let ghost u = self@.epg.subrange(0, i + 1);
            proof {
                assert(u.drop_last() =~= self@.epg.subrange(0, i as int));
                assert(u.last() == self@.epg[i as int]);
            }
            if self.epg_entries[i].channel_id == id {
                out.push(crate::model::clone_epg_entry(&self.epg_entries[i]));
                proof {
                    reveal(Seq::filter);
                    assert(epg_view(out@) =~= u.filter(epg_of_channel(id)));
                }
            } else {
                proof {
                    reveal(Seq::filter);
                    assert(epg_view(out@) =~= u.filter(epg_of_channel(id)));
                }
            }
        }
        proof {
            assert(self@.epg.subrange(0, n as int) =~= self@.epg);
        }
        out
    }
}

/// The EPG rows belonging to one channel.
pub open spec fn epg_of_channel(id: i64) -> spec_fn(EpgEntryView) -> bool {
    |e: EpgEntryView| e.channel_id == id
}

} // verus!
