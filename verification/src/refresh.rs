//! The playlist refresh engine: one playlist's full re-sync, split into the
//! steps around the provider fetch. `refresh_begin` checks credentials,
//! marks the playlist loading and hands back what the fetch needs;
//! `refresh_apply` replaces the playlist's categories and channels with the
//! fetched catalog in one transition, carrying each surviving channel's
//! user flags and the eligible recently-watched rows across;
//! `refresh_mark_error` records a fetch failure, touching nothing else.

use vstd::prelude::*;

use crate::model::{
    opt_str_view, Category, CategoryView, Channel, ChannelView, EpgEntry, EpgEntryView,
    PlaylistStatus, RecentlyWatched, RecentlyWatchedView,
};
use crate::store::{
    catalog_wf, channels_view, has_channel, has_playlist, playlist_by_id, Catalog, CatalogView,
};
use crate::text::{parse_i64, parse_i64_spec, remove_all, str_to_chars};

verus! {

/// One category as the provider's API lists it.
pub struct FetchedCategory {
    pub category_id: String,
    pub category_name: String,
}

/// Abstract value of a fetched category.
pub struct FetchedCategoryView {
    pub category_id: Seq<char>,
    pub category_name: Seq<char>,
}

impl View for FetchedCategory {
    type V = FetchedCategoryView;

    open spec fn view(&self) -> FetchedCategoryView {
        FetchedCategoryView { category_id: self.category_id@, category_name: self.category_name@ }
    }
}

/// A stream id as the provider sent it: a number (already narrowed to a
/// machine integer where possible), a string, or something else entirely.
pub enum RawStreamId {
    Num(Option<i64>),
    Text(String),
    Other,
}

/// Abstract value of a raw stream id.
pub enum RawStreamIdView {
    Num(Option<i64>),
    Text(Seq<char>),
    Other,
}

impl View for RawStreamId {
    type V = RawStreamIdView;

    open spec fn view(&self) -> RawStreamIdView {
        match self {
            RawStreamId::Num(n) => RawStreamIdView::Num(*n),
            RawStreamId::Text(s) => RawStreamIdView::Text(s@),
            RawStreamId::Other => RawStreamIdView::Other,
        }
    }
}

/// One live stream as the provider's API lists it.
pub struct FetchedStream {
    pub stream_id: RawStreamId,
    pub name: String,
    pub stream_icon: Option<String>,
    pub category_id: Option<String>,
    pub epg_channel_id: Option<String>,
}

/// Abstract value of a fetched stream.
pub struct FetchedStreamView {
    pub stream_id: RawStreamIdView,
    pub name: Seq<char>,
    pub stream_icon: Option<Seq<char>>,
    pub category_id: Option<Seq<char>>,
    pub epg_channel_id: Option<Seq<char>>,
}

impl View for FetchedStream {
    type V = FetchedStreamView;

    open spec fn view(&self) -> FetchedStreamView {
        FetchedStreamView {
            stream_id: self.stream_id@,
            name: self.name@,
            stream_icon: opt_str_view(self.stream_icon),
            category_id: opt_str_view(self.category_id),
            epg_channel_id: opt_str_view(self.epg_channel_id),
        }
    }
}

/// Abstract values of a fetched category table and stream list.
pub open spec fn fetched_categories_view(v: Seq<FetchedCategory>) -> Seq<FetchedCategoryView> {
    Seq::new(v.len(), |i: int| v[i]@)
}

pub open spec fn fetched_streams_view(v: Seq<FetchedStream>) -> Seq<FetchedStreamView> {
    Seq::new(v.len(), |i: int| v[i]@)
}

/// The permissive stream-id coercion: a plain number is taken as is, a
/// numeric string is parsed, and everything unreadable becomes zero, the
/// invalid id.
pub open spec fn coerce_stream_id_spec(r: RawStreamIdView) -> i64 {
    match r {
        RawStreamIdView::Num(Some(n)) => n,
        RawStreamIdView::Num(None) => 0,
        RawStreamIdView::Text(s) => match parse_i64_spec(s) {
            Some(n) => n,
            None => 0,
        },
        RawStreamIdView::Other => 0,
    }
}

/// Coerces a raw stream id, as `coerce_stream_id_spec` says.
pub fn coerce_stream_id(r: &RawStreamId) -> (n: i64)
    ensures
        n == coerce_stream_id_spec(r@),
{
    match r {
        RawStreamId::Num(Some(n)) => *n,
        RawStreamId::Num(None) => 0,
        RawStreamId::Text(s) => {
            let v = str_to_chars(s.as_str());
            match parse_i64(&v) {
                Some(n) => n,
                None => 0,
            }
        },
        RawStreamId::Other => 0,
    }
}

/// An ASCII whitespace character, as trimming drops it.
pub open spec fn is_space(c: char) -> bool {
    c == ' ' || c == '\t' || c == '\n' || c == '\r' || c == '\u{b}' || c == '\u{c}'
}

/// The sequence with leading and trailing whitespace dropped.
pub open spec fn trim_spec(s: Seq<char>) -> Seq<char>
    decreases s.len(),
{
    if s.len() > 0 && is_space(s[0]) {
        trim_spec(s.drop_first())
    } else if s.len() > 0 && is_space(s.last()) {
        trim_spec(s.drop_last())
    } else {
        s
    }
}

fn is_space_exec(c: char) -> (r: bool)
    ensures
        r == is_space(c),
{
    c == ' ' || c == '\t' || c == '\n' || c == '\r' || c == '\u{b}' || c == '\u{c}'
}

/// Trims ASCII whitespace from both ends of a character vector.
pub fn trim_chars(v: &Vec<char>) -> (r: Vec<char>)
    ensures
        r@ == trim_spec(v@),
{
    let n = v.len();
    let mut a: usize = 0;
    proof {
        assert(v@.subrange(0, n as int) =~= v@);
    }
    while a < n && is_space_exec(v[a])
        invariant
            a <= n,
            trim_spec(v@) == trim_spec(v@.subrange(a as int, n as int)),
        decreases n - a,
    {
        proof {
            assert(v@.subrange(a as int, n as int).drop_first() =~= v@.subrange(a + 1, n as int));
        }
        a = a + 1;
    }
    let mut b: usize = n;
    while b > a && is_space_exec(v[b - 1])
        invariant
            a <= b <= n,
            a < n ==> !is_space(v@[a as int]),
            trim_spec(v@) == trim_spec(v@.subrange(a as int, b as int)),
        decreases b,
    {
        proof {
            assert(v@.subrange(a as int, b as int).drop_last() =~= v@.subrange(
                a as int,
                b - 1,
            ));
        }
        b = b - 1;
    }
    let mut r: Vec<char> = Vec::new();
    let mut i: usize = a;
    while i < b
        invariant
            a <= i <= b <= n,
            r@ == v@.subrange(a as int, i as int),
        decreases b - i,
    {
        r.push(v[i]);
        proof {
            assert(r@ =~= v@.subrange(a as int, i + 1));
        }
        i = i + 1;
    }
    proof {
        assert(r@ =~= v@.subrange(a as int, b as int));
    }
    r
}

/// The base URL normalized as the engine uses it: trimmed, the API page
/// name removed when it ends the URL, and a trailing slash guaranteed.
pub open spec fn clean_base_url_spec(s: Seq<char>) -> Seq<char> {
    let t = trim_spec(s);
    let u = if t.len() >= "player_api.php"@.len() && t.subrange(
        t.len() - "player_api.php"@.len(),
        t.len() as int,
    ) == "player_api.php"@ {
        remove_all(t, "player_api.php"@)
    } else {
        t
    };
    if u.len() == 0 || u.last() != '/' {
        u.push('/')
    } else {
        u
    }
}

/// Normalizes a base URL, as `clean_base_url_spec` says.
pub fn clean_base_url(s: &str) -> (r: Vec<char>)
    ensures
        r@ == clean_base_url_spec(s@),
{
    let raw = str_to_chars(s);
    let t = trim_chars(&raw);
    let pat = str_to_chars("player_api.php");
    let u = if t.len() >= pat.len() && crate::text::matches_at_exec(&t, &pat, t.len() - pat.len()) {
        proof {
            reveal_strlit("player_api.php");
        }
        crate::text::remove_all_exec(&t, &pat)
    } else {
        proof {
            reveal_strlit("player_api.php");
        }
        t
    };
    let mut u = u;
    if u.len() == 0 || u[u.len() - 1] != '/' {
        u.push('/');
    }
    u
}

/// The provider API endpoint for a base URL and credentials.
pub open spec fn player_api_url_spec(base: Seq<char>, user: Seq<char>, pass: Seq<char>) -> Seq<
    char,
> {
    clean_base_url_spec(base) + "player_api.php"@ + "?username="@ + user + "&password="@ + pass
}

/// The category listing endpoint.
pub open spec fn live_categories_url_spec(
    base: Seq<char>,
    user: Seq<char>,
    pass: Seq<char>,
) -> Seq<char> {
    player_api_url_spec(base, user, pass) + "&action=get_live_categories"@
}

/// The live stream listing endpoint.
pub open spec fn live_streams_url_spec(base: Seq<char>, user: Seq<char>, pass: Seq<char>) -> Seq<
    char,
> {
    player_api_url_spec(base, user, pass) + "&action=get_live_streams"@
}

/// The XMLTV schedule endpoint.
pub open spec fn epg_url_spec(base: Seq<char>, user: Seq<char>, pass: Seq<char>) -> Seq<char> {
    clean_base_url_spec(base) + "xmltv.php"@ + "?username="@ + user + "&password="@ + pass
}

fn build_api_url(base: &str, user: &str, pass: &str, page: &str, action: Option<&str>) -> (r: Vec<
    char,
>)
    ensures
        r@ == clean_base_url_spec(base@) + page@ + "?username="@ + user@ + "&password="@ + pass@
            + (match action {
            Some(a) => a@,
            None => Seq::<char>::empty(),
        }),
{
    let mut v = clean_base_url(base);
    crate::text::append_str_chars(&mut v, page);
    crate::text::append_str_chars(&mut v, "?username=");
    crate::text::append_str_chars(&mut v, user);
    crate::text::append_str_chars(&mut v, "&password=");
    crate::text::append_str_chars(&mut v, pass);
    match action {
        Some(a) => {
            crate::text::append_str_chars(&mut v, a);
        },
        None => {
            proof {
                assert(v@ + Seq::<char>::empty() =~= v@);
            }
        },
    }
    v
}

/// The URL the category fetch uses.
pub fn build_live_categories_url(base: &str, user: &str, pass: &str) -> (r: String)
    ensures
        r@ == live_categories_url_spec(base@, user@, pass@),
{
    let v = build_api_url(base, user, pass, "player_api.php", Some("&action=get_live_categories"));
    proof {
        assert(v@ =~= live_categories_url_spec(base@, user@, pass@));
    }
    crate::text::chars_to_string(&v)
}

/// The URL the live stream fetch uses.
pub fn build_live_streams_url(base: &str, user: &str, pass: &str) -> (r: String)
    ensures
        r@ == live_streams_url_spec(base@, user@, pass@),
{
    let v = build_api_url(base, user, pass, "player_api.php", Some("&action=get_live_streams"));
    proof {
        assert(v@ =~= live_streams_url_spec(base@, user@, pass@));
    }
    crate::text::chars_to_string(&v)
}

/// The URL the XMLTV schedule fetch uses.
pub fn build_epg_url(base: &str, user: &str, pass: &str) -> (r: String)
    ensures
        r@ == epg_url_spec(base@, user@, pass@),
{
    let v = build_api_url(base, user, pass, "xmltv.php", None);
    proof {
        assert(v@ =~= epg_url_spec(base@, user@, pass@));
    }
    crate::text::chars_to_string(&v)
}

/// Why a refresh could not start.
#[derive(PartialEq, Eq, Structural, Debug, Clone, Copy)]
pub enum RefreshError {
    PlaylistNotFound,
    MissingCredentials,
}

impl RefreshError {
    /// The user-visible error text.
    pub fn message(&self) -> (r: String)
        ensures
            *self == RefreshError::PlaylistNotFound ==> r@ == "Playlist not found"@,
            *self == RefreshError::MissingCredentials ==> r@ == "Missing credentials"@,
    {
        match self {
            RefreshError::PlaylistNotFound => "Playlist not found".to_owned(),
            RefreshError::MissingCredentials => "Missing credentials".to_owned(),
        }
    }
}

/// What the fetch step needs: the playlist's URL and trimmed credentials.
pub struct RefreshPrep {
    pub base_url: String,
    pub username: String,
    pub password: String,
}

/// Both credentials are present on a playlist row.
pub open spec fn creds_present(p: crate::model::PlaylistView) -> bool {
    p.username is Some && p.password is Some
}

/// The catalog once a refresh has started: the playlist is loading, its
/// error text cleared; nothing else moves.
pub open spec fn spec_refresh_begin(c: CatalogView, id: i64, now: Seq<char>) -> CatalogView {
    CatalogView {
        playlists: crate::store::spec_set_status(
            c.playlists,
            id,
            PlaylistStatus::Loading,
            None,
            now,
        ),
        ..c
    }
}

/// The catalog once a refresh has failed: the playlist carries the error
/// text; nothing else moves.
pub open spec fn spec_refresh_mark_error(
    c: CatalogView,
    id: i64,
    msg: Seq<char>,
    now: Seq<char>,
) -> CatalogView {
    CatalogView {
        playlists: crate::store::spec_set_status(
            c.playlists,
            id,
            PlaylistStatus::Failed,
            Some(msg),
            now,
        ),
        ..c
    }
}

/// A refresh that fails after its credentials check — started, then marked
/// failed — leaves categories, channels, EPG rows and the recently-watched
/// table exactly as they were.
pub proof fn lemma_refresh_failure_atomic(
    c: CatalogView,
    id: i64,
    msg: Seq<char>,
    now1: Seq<char>,
    now2: Seq<char>,
)
    ensures
        ({
            let after = spec_refresh_mark_error(spec_refresh_begin(c, id, now1), id, msg, now2);
            &&& after.categories == c.categories
            &&& after.channels == c.channels
            &&& after.epg == c.epg
            &&& after.recent == c.recent
        }),
{
}

/// Starts a refresh: checks that the playlist exists and has credentials,
/// marks it loading, and hands back what the fetch needs. On an error the
/// catalog is untouched, and the error says exactly what was missing.
pub fn refresh_begin(catalog: &mut Catalog, playlist_id: i64, now: &str) -> (r: Result<
    RefreshPrep,
    RefreshError,
>)
    requires
        catalog_wf(old(catalog)@),
    ensures
        catalog_wf(final(catalog)@),
        match r {
            Ok(prep) => {
                &&& has_playlist(old(catalog)@.playlists, playlist_id)
                &&& creds_present(playlist_by_id(old(catalog)@.playlists, playlist_id))
                &&& prep.base_url@ == playlist_by_id(old(catalog)@.playlists, playlist_id).url
                &&& prep.username@ == trim_spec(
                    playlist_by_id(old(catalog)@.playlists, playlist_id).username->Some_0,
                )
                &&& prep.password@ == trim_spec(
                    playlist_by_id(old(catalog)@.playlists, playlist_id).password->Some_0,
                )
                &&& final(catalog)@ == spec_refresh_begin(old(catalog)@, playlist_id, now@)
            },
            Err(e) => {
                &&& *final(catalog) == *old(catalog)
                &&& (e == RefreshError::PlaylistNotFound <==> !has_playlist(
                    old(catalog)@.playlists,
                    playlist_id,
                ))
                &&& (e == RefreshError::MissingCredentials <==> has_playlist(
                    old(catalog)@.playlists,
                    playlist_id,
                ) && !creds_present(playlist_by_id(old(catalog)@.playlists, playlist_id)))
            },
        },
{
    let idx = match catalog.find_playlist(playlist_id) {
        Some(i) => i,
        None => {
            return Err(RefreshError::PlaylistNotFound);
        },
    };
    proof {
        crate::store::lemma_playlist_at_index(catalog@.playlists, idx as int);
    }
    let (user, pass) = match (&catalog.playlists[idx].username, &catalog.playlists[idx].password) {
        (Some(u), Some(p)) => {
            let uc = trim_chars(&str_to_chars(u.as_str()));
            let pc = trim_chars(&str_to_chars(p.as_str()));
            (crate::text::chars_to_string(&uc), crate::text::chars_to_string(&pc))
        },
        _ => {
            return Err(RefreshError::MissingCredentials);
        },
    };
    let base = catalog.playlists[idx].url.clone();
    catalog.set_playlist_status(playlist_id, PlaylistStatus::Loading, None, now);
    Ok(RefreshPrep { base_url: base, username: user, password: pass })
}

/// Records a refresh failure on the playlist row: status, error text and
/// stamp; every other table is untouched.
pub fn refresh_mark_error(catalog: &mut Catalog, playlist_id: i64, message: &str, now: &str)
    requires
        catalog_wf(old(catalog)@),
    ensures
        catalog_wf(final(catalog)@),
        final(catalog)@ == spec_refresh_mark_error(old(catalog)@, playlist_id, message@, now@),
{
    catalog.set_playlist_status(
        playlist_id,
        PlaylistStatus::Failed,
        Some(message.to_owned()),
        now,
    );
}

/// A channel row of the playlist being refreshed.
pub open spec fn mine_channel(pid: i64) -> spec_fn(ChannelView) -> bool {
    |c: ChannelView| c.playlist_id == pid
}

/// Everything the stream insertion depends on besides the stream list:
/// the playlist, the normalized base URL, the credentials, the fetched
/// category table, and the channel table the flags snapshot was taken of.
pub struct RefreshCtx {
    pub pid: i64,
    pub clean: Seq<char>,
    pub user: Seq<char>,
    pub pass: Seq<char>,
    pub cats: Seq<FetchedCategoryView>,
    pub old_chans: Seq<ChannelView>,
}

/// The user flags the snapshot holds for a stream id: those of the
/// refreshed playlist's old channel with that id, or the defaults.
pub open spec fn snapshot_flags(chans: Seq<ChannelView>, pid: i64, sid: i64) -> (bool, bool) {
    if exists|i: int|
        0 <= i < chans.len() && (#[trigger] chans[i]).playlist_id == pid && chans[i].id == sid {
        let i = choose|i: int|
            0 <= i < chans.len() && (#[trigger] chans[i]).playlist_id == pid && chans[i].id == sid;
        (chans[i].is_favorite, chans[i].is_hidden)
    } else {
        (false, false)
    }
}

/// The name of the first fetched category carrying this provider id.
pub open spec fn find_category_name(cats: Seq<FetchedCategoryView>, cid: Seq<char>) -> Option<
    Seq<char>,
>
    decreases cats.len(),
{
    if cats.len() == 0 {
        None
    } else if cats[0].category_id == cid {
        Some(cats[0].category_name)
    } else {
        find_category_name(cats.drop_first(), cid)
    }
}

/// A stream's denormalized category name: looked up by its category id
/// (missing ids look up `"0"`), with a fixed fallback on a miss.
pub open spec fn resolve_category_name(
    cats: Seq<FetchedCategoryView>,
    cid_opt: Option<Seq<char>>,
) -> Seq<char> {
    let cid = match cid_opt {
        Some(c) => c,
        None => "0"@,
    };
    match find_category_name(cats, cid) {
        Some(n) => n,
        None => "Uncategorized"@,
    }
}

/// The synthesized play URL of a stream: base, credentials and id.
pub open spec fn stream_url_spec(
    clean: Seq<char>,
    user: Seq<char>,
    pass: Seq<char>,
    sid: i64,
) -> Seq<char> {
    clean + user + "/"@ + pass + "/"@ + crate::text::i64_dec(sid)
}

/// The channel row a valid stream becomes: provider fields rewritten, the
/// play URL synthesized, user flags restored from the snapshot, and the
/// stream's position kept as the natural sort order.
pub open spec fn stream_row(s: FetchedStreamView, sid: i64, idx: int, ctx: RefreshCtx) -> ChannelView {
    ChannelView {
        id: sid,
        playlist_id: ctx.pid,
        name: s.name,
        logo_url: match s.stream_icon {
            Some(x) => x,
            None => Seq::empty(),
        },
        stream_url: stream_url_spec(ctx.clean, ctx.user, ctx.pass, sid),
        category: resolve_category_name(ctx.cats, s.category_id),
        category_id: None,
        epg_channel_id: s.epg_channel_id,
        is_favorite: snapshot_flags(ctx.old_chans, ctx.pid, sid).0,
        is_hidden: snapshot_flags(ctx.old_chans, ctx.pid, sid).1,
        sort_order: idx as i64,
    }
}

/// Channel rows whose id differs from the one being inserted (the rows an
/// insert-or-replace keeps).
pub open spec fn other_id(sid: i64) -> spec_fn(ChannelView) -> bool {
    |c: ChannelView| c.id != sid
}

/// Inserts the streams from index `k` on into the channel table: an invalid
/// id is skipped, a valid one replaces any row carrying the same id.
pub open spec fn insert_streams(
    acc: Seq<ChannelView>,
    streams: Seq<FetchedStreamView>,
    k: int,
    ctx: RefreshCtx,
) -> Seq<ChannelView>
    decreases streams.len() - k,
{
    if k < 0 || k >= streams.len() {
        acc
    } else {
        let sid = coerce_stream_id_spec(streams[k].stream_id);
        if sid == 0 {
            insert_streams(acc, streams, k + 1, ctx)
        } else {
            insert_streams(
                acc.filter(other_id(sid)).push(stream_row(streams[k], sid, k, ctx)),
                streams,
                k + 1,
                ctx,
            )
        }
    }
}

/// Some stream from index `k` on carries this (valid) id.
pub open spec fn covers_from(streams: Seq<FetchedStreamView>, k: int, id: i64) -> bool {
    id != 0 && exists|t: int|
        k <= t < streams.len() && coerce_stream_id_spec((#[trigger] streams[t]).stream_id) == id
}

/// Some stream of the payload carries this (valid) id.
pub open spec fn stream_covers(streams: Seq<FetchedStreamView>, id: i64) -> bool {
    covers_from(streams, 0, id)
}

/// An EPG row survives the refresh when its channel does: a channel of
/// another playlist whose id no incoming stream replaces.
pub open spec fn epg_survives(
    chans: Seq<ChannelView>,
    streams: Seq<FetchedStreamView>,
    pid: i64,
) -> spec_fn(EpgEntryView) -> bool {
    |e: EpgEntryView|
        has_channel(chans, e.channel_id) && crate::store::channel_by_id(
            chans,
            e.channel_id,
        ).playlist_id != pid && !stream_covers(streams, e.channel_id)
}

/// A recently-watched row survives the refresh when its channel does.
pub open spec fn recent_survives(
    chans: Seq<ChannelView>,
    streams: Seq<FetchedStreamView>,
    pid: i64,
) -> spec_fn(crate::model::RecentlyWatchedView) -> bool {
    |r: crate::model::RecentlyWatchedView|
        has_channel(chans, r.channel_id) && crate::store::channel_by_id(
            chans,
            r.channel_id,
        ).playlist_id != pid && !stream_covers(streams, r.channel_id)
}

/// Re-inserts the snapshot of the recently-watched table from index `k`
/// on, keeping a row only when its channel still exists and no row for
/// that channel is present yet.
pub open spec fn restore_recent(
    acc: Seq<crate::model::RecentlyWatchedView>,
    snap: Seq<crate::model::RecentlyWatchedView>,
    k: int,
    nch: Seq<ChannelView>,
) -> Seq<crate::model::RecentlyWatchedView>
    decreases snap.len() - k,
{
    if k < 0 || k >= snap.len() {
        acc
    } else {
        let r = snap[k];
        if has_channel(nch, r.channel_id) && !crate::store::has_recent(acc, r.channel_id) {
            restore_recent(acc.push(r), snap, k + 1, nch)
        } else {
            restore_recent(acc, snap, k + 1, nch)
        }
    }
}

/// The fresh category rows a refresh inserts, numbered from `first`.
pub open spec fn new_categories(
    cats: Seq<FetchedCategoryView>,
    pid: i64,
    first: i64,
) -> Seq<CategoryView> {
    Seq::new(
        cats.len(),
        |i: int|
            CategoryView {
                id: (first + i) as i64,
                playlist_id: pid,
                name: cats[i].category_name,
                is_hidden: false,
            },
    )
}

/// The whole catalog after a playlist's refresh is applied: its categories
/// and channels replaced by the fetched catalog, user flags carried over by
/// stream id, cascaded EPG and recently-watched rows dropped, the eligible
/// snapshot of the recently-watched table re-inserted, and the playlist
/// marked active.
pub open spec fn spec_refresh_apply(
    c: CatalogView,
    pid: i64,
    cats: Seq<FetchedCategoryView>,
    streams: Seq<FetchedStreamView>,
    base: Seq<char>,
    user: Seq<char>,
    pass: Seq<char>,
    now: Seq<char>,
) -> CatalogView {
    let ctx = RefreshCtx {
        pid: pid,
        clean: clean_base_url_spec(base),
        user: user,
        pass: pass,
        cats: cats,
        old_chans: c.channels,
    };
    let base_ch = c.channels.filter(crate::store::keeps_channel(pid));
    let nch = insert_streams(base_ch, streams, 0, ctx);
    CatalogView {
        playlists: crate::store::spec_set_status(
            c.playlists,
            pid,
            PlaylistStatus::Active,
            None,
            now,
        ),
        categories: c.categories.filter(crate::store::keeps_category(pid)) + new_categories(
            cats,
            pid,
            c.next_category_id,
        ),
        channels: nch,
        epg: c.epg.filter(epg_survives(c.channels, streams, pid)),
        recent: restore_recent(
            c.recent.filter(recent_survives(c.channels, streams, pid)),
            c.recent,
            0,
            nch,
        ),
        next_playlist_id: c.next_playlist_id,
        next_category_id: (c.next_category_id + cats.len()) as i64,
    }
}

/// Inserting streams into a channel table with unique ids keeps them
/// unique.
pub proof fn lemma_insert_streams_unique(
    acc: Seq<ChannelView>,
    streams: Seq<FetchedStreamView>,
    k: int,
    ctx: RefreshCtx,
)
    requires
        forall|i: int, j: int|
            0 <= i < j < acc.len() ==> (#[trigger] acc[i]).id != (#[trigger] acc[j]).id,
    ensures
        forall|i: int, j: int|
            0 <= i < j < insert_streams(acc, streams, k, ctx).len() ==> (
            #[trigger] insert_streams(acc, streams, k, ctx)[i]).id != (
            #[trigger] insert_streams(acc, streams, k, ctx)[j]).id,
    decreases streams.len() - k,
{
    if k < 0 || k >= streams.len() {
    } else {
        let sid = coerce_stream_id_spec(streams[k].stream_id);
        if sid == 0 {
            lemma_insert_streams_unique(acc, streams, k + 1, ctx);
        } else {
            let kid = |c: ChannelView| c.id;
            assert forall|i: int, j: int|
                #![trigger kid(acc[i]), kid(acc[j])]
                0 <= i < j < acc.len() implies kid(acc[i]) != kid(acc[j]) by {}
            crate::store::lemma_filter_unique_key(acc, other_id(sid), kid);
            let f = acc.filter(other_id(sid));
            let nxt = f.push(stream_row(streams[k], sid, k, ctx));
            assert forall|i: int, j: int|
                0 <= i < j < nxt.len() implies (#[trigger] nxt[i]).id != (#[trigger] nxt[j]).id by {
                if j < f.len() {
                    assert(kid(f[i]) != kid(f[j]));
                } else {
                    crate::store::lemma_filter_elem(acc, other_id(sid), i);
                    assert(nxt[i].id != sid);
                }
            }
            lemma_insert_streams_unique(nxt, streams, k + 1, ctx);
        }
    }
}

/// Every channel the insertion yields either stood in the table already or
/// is a row of the refreshed playlist whose id some stream carries.
pub proof fn lemma_insert_streams_elem(
    acc: Seq<ChannelView>,
    streams: Seq<FetchedStreamView>,
    k: int,
    ctx: RefreshCtx,
)
    ensures
        forall|i: int|
            0 <= i < insert_streams(acc, streams, k, ctx).len() ==> {
                let x = #[trigger] insert_streams(acc, streams, k, ctx)[i];
                (exists|t: int| 0 <= t < acc.len() && acc[t] == x) || (x.playlist_id == ctx.pid
                    && stream_covers(streams, x.id))
            },
    decreases streams.len() - k,
{
    if k < 0 || k >= streams.len() {
    } else {
        let sid = coerce_stream_id_spec(streams[k].stream_id);
        if sid == 0 {
            lemma_insert_streams_elem(acc, streams, k + 1, ctx);
        } else {
            let f = acc.filter(other_id(sid));
            let row = stream_row(streams[k], sid, k, ctx);
            let nxt = f.push(row);
            lemma_insert_streams_elem(nxt, streams, k + 1, ctx);
            let res = insert_streams(acc, streams, k, ctx);
            assert forall|i: int| 0 <= i < res.len() implies {
                let x = #[trigger] res[i];
                (exists|t: int| 0 <= t < acc.len() && acc[t] == x) || (x.playlist_id == ctx.pid
                    && stream_covers(streams, x.id))
            } by {
                let x = res[i];
                assert(insert_streams(nxt, streams, k + 1, ctx)[i] == x);
                if exists|t: int| 0 <= t < nxt.len() && #[trigger] nxt[t] == x {
                    let t = choose|t: int| 0 <= t < nxt.len() && #[trigger] nxt[t] == x;
                    if t < f.len() {
                        crate::store::lemma_filter_elem(acc, other_id(sid), t);
                        let u = choose|u: int| 0 <= u < acc.len() && #[trigger] acc[u] == f[t];
                        assert(acc[u] == x);
                    } else {
                        assert(x == row);
                        assert(coerce_stream_id_spec(streams[k].stream_id) == sid);
                        assert(stream_covers(streams, sid));
                    }
                }
            }
        }
    }
}

/// A channel whose id no remaining stream carries survives the insertion
/// unchanged.
pub proof fn lemma_insert_streams_keeps(
    acc: Seq<ChannelView>,
    streams: Seq<FetchedStreamView>,
    k: int,
    ctx: RefreshCtx,
    j: int,
)
    requires
        0 <= j < acc.len(),
        !covers_from(streams, k, acc[j].id),
    ensures
        exists|i: int|
            0 <= i < insert_streams(acc, streams, k, ctx).len() && insert_streams(
                acc,
                streams,
                k,
                ctx,
            )[i] == acc[j],
    decreases streams.len() - k,
{
    if k < 0 || k >= streams.len() {
        assert(insert_streams(acc, streams, k, ctx)[j] == acc[j]);
    } else {
        let sid = coerce_stream_id_spec(streams[k].stream_id);
        if sid == 0 {
            assert(!covers_from(streams, k + 1, acc[j].id));
            lemma_insert_streams_keeps(acc, streams, k + 1, ctx, j);
            assert(insert_streams(acc, streams, k, ctx) == insert_streams(acc, streams, k + 1, ctx));
            let w = choose|w: int|
                0 <= w < insert_streams(acc, streams, k + 1, ctx).len() && #[trigger] insert_streams(
                    acc,
                    streams,
                    k + 1,
                    ctx,
                )[w] == acc[j];
            assert(insert_streams(acc, streams, k, ctx)[w] == acc[j]);
        } else {
            assert(acc[j].id != sid);
            let f = acc.filter(other_id(sid));
            let row = stream_row(streams[k], sid, k, ctx);
            let nxt = f.push(row);
            acc.lemma_filter_contains(other_id(sid), j);
            let t = choose|t: int| 0 <= t < f.len() && #[trigger] f[t] == acc[j];
            assert(nxt[t] == acc[j]);
            assert(!covers_from(streams, k + 1, nxt[t].id));
            lemma_insert_streams_keeps(nxt, streams, k + 1, ctx, t);
            assert(insert_streams(acc, streams, k, ctx) == insert_streams(nxt, streams, k + 1, ctx));
            let w = choose|w: int|
                0 <= w < insert_streams(nxt, streams, k + 1, ctx).len() && #[trigger] insert_streams(
                    nxt,
                    streams,
                    k + 1,
                    ctx,
                )[w] == nxt[t];
            assert(insert_streams(acc, streams, k, ctx)[w] == acc[j]);
        }
    }
}

/// A valid id some remaining stream carries ends up in the table as a row
/// of the refreshed playlist, with the snapshot's user flags.
pub proof fn lemma_insert_streams_covered(
    acc: Seq<ChannelView>,
    streams: Seq<FetchedStreamView>,
    k: int,
    ctx: RefreshCtx,
    sid: i64,
)
    requires
        0 <= k,
        covers_from(streams, k, sid),
        forall|i: int, j: int|
            0 <= i < j < acc.len() ==> (#[trigger] acc[i]).id != (#[trigger] acc[j]).id,
    ensures
        ({
            let res = insert_streams(acc, streams, k, ctx);
            &&& has_channel(res, sid)
            &&& crate::store::channel_by_id(res, sid).playlist_id == ctx.pid
            &&& crate::store::channel_by_id(res, sid).is_favorite == snapshot_flags(
                ctx.old_chans,
                ctx.pid,
                sid,
            ).0
            &&& crate::store::channel_by_id(res, sid).is_hidden == snapshot_flags(
                ctx.old_chans,
                ctx.pid,
                sid,
            ).1
        }),
    decreases streams.len() - k,
{
    let res = insert_streams(acc, streams, k, ctx);
    let cur = coerce_stream_id_spec(streams[k].stream_id);
    if cur == 0 || cur != sid {
        assert(covers_from(streams, k + 1, sid)) by {
            let t = choose|t: int|
                k <= t < streams.len() && coerce_stream_id_spec(
                    (#[trigger] streams[t]).stream_id,
                ) == sid;
            assert(k + 1 <= t < streams.len());
        }
        if cur == 0 {
            lemma_insert_streams_covered(acc, streams, k + 1, ctx, sid);
            assert(insert_streams(acc, streams, k, ctx) == insert_streams(acc, streams, k + 1, ctx));
        } else {
            let kid = |c: ChannelView| c.id;
            assert forall|i: int, j: int|
                #![trigger kid(acc[i]), kid(acc[j])]
                0 <= i < j < acc.len() implies kid(acc[i]) != kid(acc[j]) by {}
            crate::store::lemma_filter_unique_key(acc, other_id(cur), kid);
            let f = acc.filter(other_id(cur));
            let row = stream_row(streams[k], cur, k, ctx);
            let nxt = f.push(row);
            assert forall|i: int, j: int|
                0 <= i < j < nxt.len() implies (#[trigger] nxt[i]).id != (#[trigger] nxt[j]).id by {
                if j < f.len() {
                    assert(kid(f[i]) != kid(f[j]));
                } else {
                    crate::store::lemma_filter_elem(acc, other_id(cur), i);
                }
            }
            lemma_insert_streams_covered(nxt, streams, k + 1, ctx, sid);
            assert(insert_streams(acc, streams, k, ctx) == insert_streams(nxt, streams, k + 1, ctx));
        }
    } else {
        // the current stream inserts sid
        let f = acc.filter(other_id(sid));
        let row = stream_row(streams[k], sid, k, ctx);
        let nxt = f.push(row);
        let kid = |c: ChannelView| c.id;
        assert forall|i: int, j: int|
            #![trigger kid(acc[i]), kid(acc[j])]
            0 <= i < j < acc.len() implies kid(acc[i]) != kid(acc[j]) by {}
        crate::store::lemma_filter_unique_key(acc, other_id(sid), kid);
        assert forall|i: int, j: int|
            0 <= i < j < nxt.len() implies (#[trigger] nxt[i]).id != (#[trigger] nxt[j]).id by {
            if j < f.len() {
                assert(kid(f[i]) != kid(f[j]));
            } else {
                crate::store::lemma_filter_elem(acc, other_id(sid), i);
            }
        }
        if covers_from(streams, k + 1, sid) {
            lemma_insert_streams_covered(nxt, streams, k + 1, ctx, sid);
            assert(insert_streams(acc, streams, k, ctx) == insert_streams(nxt, streams, k + 1, ctx));
        } else {
            assert(nxt[f.len() as int] == row);
            lemma_insert_streams_keeps(nxt, streams, k + 1, ctx, f.len() as int);
            lemma_insert_streams_unique(nxt, streams, k + 1, ctx);
            let i = choose|i: int|
                0 <= i < insert_streams(nxt, streams, k + 1, ctx).len() && #[trigger] insert_streams(
                    nxt,
                    streams,
                    k + 1,
                    ctx,
                )[i] == row;
            assert(has_channel(insert_streams(nxt, streams, k + 1, ctx), sid));
            crate::store::lemma_channel_at_index(insert_streams(nxt, streams, k + 1, ctx), i);
            assert(insert_streams(acc, streams, k, ctx) == insert_streams(nxt, streams, k + 1, ctx));
        }
    }
}

/// A valid id no stream carries and no table row holds stays absent.
pub proof fn lemma_insert_streams_absent(
    acc: Seq<ChannelView>,
    streams: Seq<FetchedStreamView>,
    k: int,
    ctx: RefreshCtx,
    x: i64,
)
    requires
        !covers_from(streams, k, x) || x == 0,
        !has_channel(acc, x),
        x != 0 || !has_channel(acc, x),
    ensures
        !has_channel(insert_streams(acc, streams, k, ctx), x),
    decreases streams.len() - k,
{
    if k < 0 || k >= streams.len() {
    } else {
        let sid = coerce_stream_id_spec(streams[k].stream_id);
        if sid == 0 {
            lemma_insert_streams_absent(acc, streams, k + 1, ctx, x);
        } else {
            assert(sid != x);
            let f = acc.filter(other_id(sid));
            let row = stream_row(streams[k], sid, k, ctx);
            let nxt = f.push(row);
            assert forall|i: int| 0 <= i < nxt.len() implies (#[trigger] nxt[i]).id != x by {
                if i < f.len() {
                    crate::store::lemma_filter_elem(acc, other_id(sid), i);
                    let t = choose|t: int| 0 <= t < acc.len() && acc[t] == f[i];
                    assert(acc[t].id != x);
                }
            }
            assert(!has_channel(nxt, x));
            lemma_insert_streams_absent(nxt, streams, k + 1, ctx, x);
        }
    }
}

/// Restoring the snapshot keeps channel ids unique in the table.
pub proof fn lemma_restore_unique(
    acc: Seq<RecentlyWatchedView>,
    snap: Seq<RecentlyWatchedView>,
    k: int,
    nch: Seq<ChannelView>,
)
    requires
        forall|i: int, j: int|
            0 <= i < j < acc.len() ==> (#[trigger] acc[i]).channel_id != (
            #[trigger] acc[j]).channel_id,
    ensures
        forall|i: int, j: int|
            0 <= i < j < restore_recent(acc, snap, k, nch).len() ==> (
            #[trigger] restore_recent(acc, snap, k, nch)[i]).channel_id != (
            #[trigger] restore_recent(acc, snap, k, nch)[j]).channel_id,
    decreases snap.len() - k,
{
    if k < 0 || k >= snap.len() {
    } else {
        let r = snap[k];
        if has_channel(nch, r.channel_id) && !crate::store::has_recent(acc, r.channel_id) {
            let nxt = acc.push(r);
            assert forall|i: int, j: int|
                0 <= i < j < nxt.len() implies (#[trigger] nxt[i]).channel_id != (
                #[trigger] nxt[j]).channel_id by {
                if j == acc.len() {
                    assert(acc[i].channel_id != r.channel_id);
                }
            }
            lemma_restore_unique(nxt, snap, k + 1, nch);
            assert(restore_recent(acc, snap, k, nch) == restore_recent(nxt, snap, k + 1, nch));
        } else {
            lemma_restore_unique(acc, snap, k + 1, nch);
            assert(restore_recent(acc, snap, k, nch) == restore_recent(acc, snap, k + 1, nch));
        }
    }
}

/// Every restored row either stood in the table already or names a channel
/// that still exists.
pub proof fn lemma_restore_elem(
    acc: Seq<RecentlyWatchedView>,
    snap: Seq<RecentlyWatchedView>,
    k: int,
    nch: Seq<ChannelView>,
)
    ensures
        forall|i: int|
            0 <= i < restore_recent(acc, snap, k, nch).len() ==> {
                let x = #[trigger] restore_recent(acc, snap, k, nch)[i];
                (exists|t: int| 0 <= t < acc.len() && acc[t] == x) || has_channel(
                    nch,
                    x.channel_id,
                )
            },
    decreases snap.len() - k,
{
    if k < 0 || k >= snap.len() {
    } else {
        let r = snap[k];
        if has_channel(nch, r.channel_id) && !crate::store::has_recent(acc, r.channel_id) {
            let nxt = acc.push(r);
            lemma_restore_elem(nxt, snap, k + 1, nch);
            assert(restore_recent(acc, snap, k, nch) == restore_recent(nxt, snap, k + 1, nch));
            let res = restore_recent(acc, snap, k, nch);
            assert forall|i: int| 0 <= i < res.len() implies {
                let x = #[trigger] res[i];
                (exists|t: int| 0 <= t < acc.len() && acc[t] == x) || has_channel(
                    nch,
                    x.channel_id,
                )
            } by {
                let x = res[i];
                assert(restore_recent(nxt, snap, k + 1, nch)[i] == x);
                if exists|t: int| 0 <= t < nxt.len() && #[trigger] nxt[t] == x {
                    let t = choose|t: int| 0 <= t < nxt.len() && #[trigger] nxt[t] == x;
                    if t < acc.len() {
                        assert(acc[t] == x);
                    } else {
                        assert(x == r);
                    }
                }
            }
        } else {
            lemma_restore_elem(acc, snap, k + 1, nch);
            assert(restore_recent(acc, snap, k, nch) == restore_recent(acc, snap, k + 1, nch));
            let res = restore_recent(acc, snap, k, nch);
            assert forall|i: int| 0 <= i < res.len() implies {
                let x = #[trigger] res[i];
                (exists|t: int| 0 <= t < acc.len() && acc[t] == x) || has_channel(
                    nch,
                    x.channel_id,
                )
            } by {
                assert(restore_recent(acc, snap, k + 1, nch)[i] == res[i]);
            }
        }
    }
}

/// No row appears for a channel that is gone.
pub proof fn lemma_restore_no_channel(
    acc: Seq<RecentlyWatchedView>,
    snap: Seq<RecentlyWatchedView>,
    k: int,
    nch: Seq<ChannelView>,
    x: i64,
)
    requires
        !has_channel(nch, x),
        !crate::store::has_recent(acc, x),
    ensures
        !crate::store::has_recent(restore_recent(acc, snap, k, nch), x),
    decreases snap.len() - k,
{
    if k < 0 || k >= snap.len() {
    } else {
        let r = snap[k];
        if has_channel(nch, r.channel_id) && !crate::store::has_recent(acc, r.channel_id) {
            let nxt = acc.push(r);
            assert forall|i: int| 0 <= i < nxt.len() implies (#[trigger] nxt[i]).channel_id
                != x by {
                if i < acc.len() {
                    assert(!crate::store::has_recent(acc, x));
                } else {
                    assert(nxt[i] == r);
                    assert(has_channel(nch, r.channel_id));
                }
            }
            assert(!crate::store::has_recent(nxt, x));
            lemma_restore_no_channel(nxt, snap, k + 1, nch, x);
            assert(restore_recent(acc, snap, k, nch) == restore_recent(nxt, snap, k + 1, nch));
        } else {
            lemma_restore_no_channel(acc, snap, k + 1, nch, x);
            assert(restore_recent(acc, snap, k, nch) == restore_recent(acc, snap, k + 1, nch));
        }
    }
}

/// A channel row projected to what the flags snapshot keeps.
pub open spec fn flag_triple() -> spec_fn(ChannelView) -> (i64, bool, bool) {
    |c: ChannelView| (c.id, c.is_favorite, c.is_hidden)
}

/// Looks a stream id up in the flags snapshot, as `snapshot_flags` says.
fn lookup_flags(
    sn: &Vec<(i64, bool, bool)>,
    sid: i64,
    Ghost(chans): Ghost<Seq<ChannelView>>,
    Ghost(pid): Ghost<i64>,
) -> (r: (bool, bool))
    requires
        sn@ == chans.filter(mine_channel(pid)).map_values(flag_triple()),
        forall|i: int, j: int|
            0 <= i < j < chans.len() ==> (#[trigger] chans[i]).id != (#[trigger] chans[j]).id,
    ensures
        r == snapshot_flags(chans, pid, sid),
{
    let ghost flt = chans.filter(mine_channel(pid));
    let n = sn.len();
    for j in 0..n
        invariant
            n == sn@.len(),
            forall|t: int| 0 <= t < j ==> (#[trigger] sn@[t]).0 != sid,
    {
        if sn[j].0 == sid {
            proof {
                assert(sn@[j as int] == flag_triple()(flt[j as int]));
                assert(flt[j as int].id == sid);
                crate::store::lemma_filter_elem(chans, mine_channel(pid), j as int);
                let t = choose|t: int| 0 <= t < chans.len() && #[trigger] chans[t] == flt[j as int];
                assert(chans[t].playlist_id == pid && chans[t].id == sid);
                assert(exists|i: int|
                    0 <= i < chans.len() && (#[trigger] chans[i]).playlist_id == pid && chans[i].id
                        == sid);
                let i = choose|i: int|
                    0 <= i < chans.len() && (#[trigger] chans[i]).playlist_id == pid && chans[i].id
                        == sid;
                if i != t {
                    if i < t {
                        assert(chans[i].id != chans[t].id);
                    } else {
                        assert(chans[t].id != chans[i].id);
                    }
                }
                assert(chans[i] == flt[j as int]);
            }
            return (sn[j].1, sn[j].2);
        }
    }
    proof {
        if exists|i: int|
            0 <= i < chans.len() && (#[trigger] chans[i]).playlist_id == pid && chans[i].id
                == sid {
            let i = choose|i: int|
                0 <= i < chans.len() && (#[trigger] chans[i]).playlist_id == pid && chans[i].id
                    == sid;
            chans.lemma_filter_contains(mine_channel(pid), i);
            let w = choose|w: int| 0 <= w < flt.len() && #[trigger] flt[w] == chans[i];
            assert(sn@[w] == flag_triple()(flt[w]));
            assert(sn@[w].0 == sid);
        }
    }
    (false, false)
}

/// Copies a channel table without the rows carrying `sid`.
fn filter_out_id(v: &Vec<Channel>, sid: i64) -> (r: Vec<Channel>)
    ensures
        channels_view(r@) == channels_view(v@).filter(other_id(sid)),
{
    let n = v.len();
    let mut out: Vec<Channel> = Vec::new();
    proof {
        reveal(Seq::filter);
    }
    for i in 0..n
        invariant
            n == v@.len(),
            channels_view(out@) == channels_view(v@).subrange(0, i as int).filter(other_id(sid)),
    {
        let ghost u = channels_view(v@).subrange(0, i + 1);
        proof {
            assert(u.drop_last() =~= channels_view(v@).subrange(0, i as int));
            assert(u.last() == channels_view(v@)[i as int]);
        }
        if v[i].id != sid {
            out.push(crate::model::clone_channel(&v[i]));
            proof {
                reveal(Seq::filter);
                assert(channels_view(out@) =~= u.filter(other_id(sid)));
            }
        } else {
            proof {
                reveal(Seq::filter);
                assert(channels_view(out@) =~= u.filter(other_id(sid)));
            }
        }
    }
    proof {
        assert(channels_view(v@).subrange(0, n as int) =~= channels_view(v@));
    }
    out
}

/// `find_category_name` yields the name of the first matching category.
proof fn lemma_find_category_name(cats: Seq<FetchedCategoryView>, cid: Seq<char>)
    ensures
        match find_category_name(cats, cid) {
            Some(n) => exists|j: int|
                0 <= j < cats.len() && (#[trigger] cats[j]).category_id == cid
                    && cats[j].category_name == n,
            None => forall|j: int| 0 <= j < cats.len() ==> (#[trigger] cats[j]).category_id != cid,
        },
        forall|j: int|
            (0 <= j < cats.len() && (#[trigger] cats[j]).category_id == cid && (forall|t: int|
                0 <= t < j ==> (#[trigger] cats[t]).category_id != cid)) ==> find_category_name(
                cats,
                cid,
            ) == Some(cats[j].category_name),
    decreases cats.len(),
{
    if cats.len() == 0 {
    } else if cats[0].category_id == cid {
    } else {
        lemma_find_category_name(cats.drop_first(), cid);
        assert forall|j: int|
            (0 <= j < cats.len() && (#[trigger] cats[j]).category_id == cid && (forall|t: int|
                0 <= t < j ==> (#[trigger] cats[t]).category_id != cid)) implies find_category_name(
            cats,
            cid,
        ) == Some(cats[j].category_name) by {
            assert(j >= 1);
            let d = cats.drop_first();
            assert(d[j - 1] == cats[j]);
            assert forall|t: int| 0 <= t < j - 1 implies (#[trigger] d[t]).category_id != cid by {
                assert(d[t] == cats[t + 1]);
            }
        }
        match find_category_name(cats.drop_first(), cid) {
            Some(n) => {
                let j = choose|j: int|
                    0 <= j < cats.drop_first().len() && (
                    #[trigger] cats.drop_first()[j]).category_id == cid && cats.drop_first()[
                        j
                    ].category_name == n;
                assert(cats[j + 1] == cats.drop_first()[j]);
            },
            None => {
                assert forall|j: int| 0 <= j < cats.len() implies (
                #[trigger] cats[j]).category_id != cid by {
                    if j > 0 {
                        assert(cats.drop_first()[j - 1] == cats[j]);
                    }
                }
            },
        }
    }
}

/// Resolves a stream's category name against the fetched category table,
/// as `resolve_category_name` says.
fn resolve_category_exec(cats: &Vec<FetchedCategory>, cid: &Option<String>) -> (r: String)
    ensures
        r@ == resolve_category_name(fetched_categories_view(cats@), opt_str_view(*cid)),
{
    let cid_str: &str = match cid {
        Some(c) => c.as_str(),
        None => "0",
    };
    let ghost cv = fetched_categories_view(cats@);
    let ghost cidv = match cid {
        Some(c) => c@,
        None => "0"@,
    };
    proof {
        lemma_find_category_name(cv, cidv);
    }
    let n = cats.len();
    for j in 0..n
        invariant
            n == cv.len(),
            cid_str@ == cidv,
            forall|t: int| 0 <= t < j ==> (#[trigger] cv[t]).category_id != cidv,
    {
        if crate::text::str_eq(cats[j].category_id.as_str(), cid_str) {
            proof {
                assert(cv[j as int].category_id == cidv);
            }
            return cats[j].category_name.clone();
        }
    }
    "Uncategorized".to_owned()
}

/// Synthesizes a stream's play URL, as `stream_url_spec` says.
fn build_stream_url(clean: &Vec<char>, user: &str, pass: &str, sid: i64) -> (r: String)
    ensures
        r@ == stream_url_spec(clean@, user@, pass@, sid),
{
    let mut v = crate::text::copy_chars(clean);
    crate::text::append_str_chars(&mut v, user);
    crate::text::append_str_chars(&mut v, "/");
    crate::text::append_str_chars(&mut v, pass);
    crate::text::append_str_chars(&mut v, "/");
    let digits = crate::text::i64_to_chars(sid);
    crate::text::append_chars(&mut v, &digits);
    proof {
        assert(v@ =~= stream_url_spec(clean@, user@, pass@, sid));
    }
    crate::text::chars_to_string(&v)
}


/// The flags snapshot of one playlist's channels, as the refresh takes it.
fn snapshot_flags_vec(catalog: &Catalog, pid: i64) -> (sn: Vec<(i64, bool, bool)>)
    ensures
        sn@ == catalog@.channels.filter(mine_channel(pid)).map_values(flag_triple()),
{
    let ghost c0 = catalog@;
    let mut sn: Vec<(i64, bool, bool)> = Vec::new();
    let chn = catalog.channels.len();
    proof {
        reveal(Seq::filter);
        assert(c0.channels.subrange(0, 0).filter(mine_channel(pid)).map_values(flag_triple())
            =~= sn@);
    }
    for i in 0..chn
        invariant
            chn == c0.channels.len(),
            catalog@ == c0,
            sn@ == c0.channels.subrange(0, i as int).filter(mine_channel(pid)).map_values(
                flag_triple(),
            ),
    {
        let ghost u = c0.channels.subrange(0, i + 1);
        proof {
            assert(u.drop_last() =~= c0.channels.subrange(0, i as int));
            assert(u.last() == c0.channels[i as int]);
        }
        if catalog.channels[i].playlist_id == pid {
            let c = &catalog.channels[i];
            sn.push((c.id, c.is_favorite, c.is_hidden));
        }
        proof {
            reveal(Seq::filter);
            assert(sn@ =~= u.filter(mine_channel(pid)).map_values(flag_triple()));
        }
    }
    proof {
        assert(c0.channels.subrange(0, chn as int) =~= c0.channels);
    }
    sn
}

/// The channel table without one playlist's rows (the delete step).
fn channels_without_playlist(catalog: &Catalog, pid: i64) -> (r: Vec<Channel>)
    ensures
        channels_view(r@) == catalog@.channels.filter(crate::store::keeps_channel(pid)),
{
    let ghost c0 = catalog@;
    let mut cur: Vec<Channel> = Vec::new();
    let chn = catalog.channels.len();
    proof {
        reveal(Seq::filter);
        assert(c0.channels.subrange(0, 0).filter(crate::store::keeps_channel(pid))
            =~= channels_view(cur@));
    }
    for i in 0..chn
        invariant
            chn == c0.channels.len(),
            catalog@ == c0,
            channels_view(cur@) == c0.channels.subrange(0, i as int).filter(
                crate::store::keeps_channel(pid),
            ),
    {
        let ghost u = c0.channels.subrange(0, i + 1);
        proof {
            assert(u.drop_last() =~= c0.channels.subrange(0, i as int));
            assert(u.last() == c0.channels[i as int]);
        }
        if catalog.channels[i].playlist_id != pid {
            cur.push(crate::model::clone_channel(&catalog.channels[i]));
        }
        proof {
            reveal(Seq::filter);
            assert(channels_view(cur@) =~= u.filter(crate::store::keeps_channel(pid)));
        }
    }
    proof {
        assert(c0.channels.subrange(0, chn as int) =~= c0.channels);
    }
    cur
}

/// The insert step: every valid stream becomes a channel row, replacing
/// any row with the same id. Returns the new table and the list of
/// inserted ids.
#[verifier::rlimit(60)]
fn insert_streams_exec(
    base: Vec<Channel>,
    streams: &Vec<FetchedStream>,
    categories: &Vec<FetchedCategory>,
    clean: &Vec<char>,
    user: &str,
    pass: &str,
    sn: &Vec<(i64, bool, bool)>,
    pid: i64,
    Ghost(old_chans): Ghost<Seq<ChannelView>>,
) -> (r: (Vec<Channel>, Vec<i64>))
    requires
        sn@ == old_chans.filter(mine_channel(pid)).map_values(flag_triple()),
        forall|i: int, j: int|
            0 <= i < j < old_chans.len() ==> (#[trigger] old_chans[i]).id != (
            #[trigger] old_chans[j]).id,
        streams@.len() <= i64::MAX,
    ensures
        ({
            let ctx = RefreshCtx {
                pid: pid,
                clean: clean@,
                user: user@,
                pass: pass@,
                cats: fetched_categories_view(categories@),
                old_chans: old_chans,
            };
            let sv = fetched_streams_view(streams@);
            &&& channels_view(r.0@) == insert_streams(channels_view(base@), sv, 0, ctx)
            &&& forall|x: i64| #[trigger] r.1@.contains(x) <==> stream_covers(sv, x)
        }),
{
    let ghost ctx = RefreshCtx {
        pid: pid,
        clean: clean@,
        user: user@,
        pass: pass@,
        cats: fetched_categories_view(categories@),
        old_chans: old_chans,
    };
    let ghost sv = fetched_streams_view(streams@);
    let ghost base_ch = channels_view(base@);
    let sn_len = streams.len();
    let mut ins: Vec<i64> = Vec::new();
    let mut cur = base;
    let mut k: usize = 0;
    while k < sn_len
        invariant
            sn_len == sv.len(),
            k <= sn_len,
            insert_streams(channels_view(cur@), sv, k as int, ctx) == insert_streams(
                base_ch,
                sv,
                0,
                ctx,
            ),
            forall|x: i64|
                #[trigger] ins@.contains(x) <==> (x != 0 && exists|t: int|
                    0 <= t < k && coerce_stream_id_spec(#[trigger] sv[t].stream_id) == x),
        decreases sn_len - k,
    {
        let sid = coerce_stream_id(&streams[k].stream_id);
        proof {
            assert(sv[k as int] == streams@[k as int]@);
            assert(coerce_stream_id_spec(sv[k as int].stream_id) == sid);
        }
        if sid != 0 {
            let filtered = filter_out_id(&cur, sid);
            let name = streams[k].name.clone();
            let logo = match &streams[k].stream_icon {
                Some(s) => s.clone(),
                None => String::new(),
            };
            let url = build_stream_url(clean, user, pass, sid);
            let cat_name = resolve_category_exec(categories, &streams[k].category_id);
            let flags = lookup_flags(sn, sid, Ghost(old_chans), Ghost(pid));
            let epg_id = crate::model::clone_opt_string(&streams[k].epg_channel_id);
            let row = Channel {
                id: sid,
                playlist_id: pid,
                name: name,
                logo_url: logo,
                stream_url: url,
                category: cat_name,
                category_id: None,
                epg_channel_id: epg_id,
                is_favorite: flags.0,
                is_hidden: flags.1,
                sort_order: k as i64,
            };
            let ghost cur_v = channels_view(cur@);
            let mut filtered = filtered;
            filtered.push(row);
            proof {
                assert(row@ == stream_row(sv[k as int], sid, k as int, ctx));
                assert(channels_view(filtered@) =~= cur_v.filter(other_id(sid)).push(
                    stream_row(sv[k as int], sid, k as int, ctx),
                ));
                assert(insert_streams(cur_v, sv, k as int, ctx) == insert_streams(
                    channels_view(filtered@),
                    sv,
                    k + 1,
                    ctx,
                ));
            }
            cur = filtered;
            let ghost ins0 = ins@;
            ins.push(sid);
            proof {
                assert(ins@ =~= ins0.push(sid));
                assert forall|x: i64| #[trigger] ins@.contains(x) implies (x != 0 && exists|t: int|
                    0 <= t < k + 1 && coerce_stream_id_spec(#[trigger] sv[t].stream_id) == x) by {
                    let w = choose|w: int| 0 <= w < ins@.len() && #[trigger] ins@[w] == x;
                    if w < ins0.len() {
                        assert(ins0[w] == x);
                        assert(ins0.contains(x));
                    } else {
                        assert(x == sid);
                        assert(coerce_stream_id_spec(sv[k as int].stream_id) == x);
                    }
                }
                assert forall|x: i64| (x != 0 && exists|t: int|
                    0 <= t < k + 1 && coerce_stream_id_spec(#[trigger] sv[t].stream_id)
                        == x) implies #[trigger] ins@.contains(x) by {
                    let t = choose|t: int|
                        0 <= t < k + 1 && coerce_stream_id_spec(#[trigger] sv[t].stream_id) == x;
                    if t < k {
                        assert(ins0.contains(x));
                        let w = choose|w: int| 0 <= w < ins0.len() && #[trigger] ins0[w] == x;
                        assert(ins@[w] == x);
                    } else {
                        assert(ins@[ins@.len() - 1] == sid);
                    }
                }
            }
        } else {
            proof {
                assert(insert_streams(channels_view(cur@), sv, k as int, ctx) == insert_streams(
                    channels_view(cur@),
                    sv,
                    k + 1,
                    ctx,
                ));
                assert forall|x: i64| #[trigger] ins@.contains(x) implies (x != 0 && exists|t: int|
                    0 <= t < k + 1 && coerce_stream_id_spec(#[trigger] sv[t].stream_id) == x) by {}
                assert forall|x: i64| (x != 0 && exists|t: int|
                    0 <= t < k + 1 && coerce_stream_id_spec(#[trigger] sv[t].stream_id)
                        == x) implies #[trigger] ins@.contains(x) by {
                    let t = choose|t: int|
                        0 <= t < k + 1 && coerce_stream_id_spec(#[trigger] sv[t].stream_id) == x;
                    assert(t < k);
                }
            }
        }
        k = k + 1;
    }
    proof {
        assert(insert_streams(channels_view(cur@), sv, sn_len as int, ctx) == channels_view(cur@));
    }
    (cur, ins)
}

/// The category table after the refresh: the playlist's old rows replaced
/// by the fetched list under fresh ids.
fn categories_after_refresh(
    catalog: &Catalog,
    pid: i64,
    categories: &Vec<FetchedCategory>,
    first_cat_id: i64,
) -> (r: Vec<Category>)
    requires
        first_cat_id + categories@.len() <= i64::MAX,
        categories@.len() <= i64::MAX,
    ensures
        crate::store::categories_view(r@) == catalog@.categories.filter(
            crate::store::keeps_category(pid),
        ) + new_categories(fetched_categories_view(categories@), pid, first_cat_id),
{
    let ghost c0 = catalog@;
    let ghost cv = fetched_categories_view(categories@);
    let ghost cat_keep = c0.categories.filter(crate::store::keeps_category(pid));
    let mut ncat: Vec<Category> = Vec::new();
    let catn = catalog.categories.len();
    proof {
        reveal(Seq::filter);
        assert(c0.categories.subrange(0, 0).filter(crate::store::keeps_category(pid))
            =~= crate::store::categories_view(ncat@));
    }
    for i in 0..catn
        invariant
            catn == c0.categories.len(),
            catalog@ == c0,
            crate::store::categories_view(ncat@) == c0.categories.subrange(0, i as int).filter(
                crate::store::keeps_category(pid),
            ),
    {
        let ghost u = c0.categories.subrange(0, i + 1);
        proof {
            assert(u.drop_last() =~= c0.categories.subrange(0, i as int));
            assert(u.last() == c0.categories[i as int]);
        }
        if catalog.categories[i].playlist_id != pid {
            ncat.push(crate::model::clone_category(&catalog.categories[i]));
        }
        proof {
            reveal(Seq::filter);
            assert(crate::store::categories_view(ncat@) =~= u.filter(
                crate::store::keeps_category(pid),
            ));
        }
    }
    proof {
        assert(c0.categories.subrange(0, catn as int) =~= c0.categories);
    }
    let fcn = categories.len();
    let mut ci: usize = 0;
    while ci < fcn
        invariant
            fcn == cv.len(),
            catalog@ == c0,
            first_cat_id + fcn <= i64::MAX,
            fcn <= i64::MAX,
            ci <= fcn,
            crate::store::categories_view(ncat@) == cat_keep + new_categories(
                cv,
                pid,
                first_cat_id,
            ).subrange(0, ci as int),
        decreases fcn - ci,
    {
        proof {
            assert(cv[ci as int] == categories@[ci as int]@);
        }
        let ghost nc0 = crate::store::categories_view(ncat@);
        ncat.push(
            Category {
                id: first_cat_id + ci as i64,
                playlist_id: pid,
                name: categories[ci].category_name.clone(),
                is_hidden: false,
            },
        );
        proof {
            assert(crate::store::categories_view(ncat@) =~= nc0.push(
                new_categories(cv, pid, first_cat_id)[ci as int],
            ));
            assert(crate::store::categories_view(ncat@) =~= cat_keep + new_categories(
                cv,
                pid,
                first_cat_id,
            ).subrange(0, ci + 1));
        }
        ci = ci + 1;
    }
    proof {
        assert(new_categories(cv, pid, first_cat_id).subrange(0, fcn as int) =~= new_categories(
            cv,
            pid,
            first_cat_id,
        ));
    }
    ncat
}

/// The guide table after the cascade of the refresh's deletions.
fn epg_after_refresh(
    catalog: &Catalog,
    pid: i64,
    ins: &Vec<i64>,
    Ghost(sv): Ghost<Seq<FetchedStreamView>>,
) -> (r: Vec<EpgEntry>)
    requires
        catalog_wf(catalog@),
        forall|x: i64| #[trigger] ins@.contains(x) <==> stream_covers(sv, x),
    ensures
        crate::store::epg_view(r@) == catalog@.epg.filter(
            epg_survives(catalog@.channels, sv, pid),
        ),
{
    let ghost c0 = catalog@;
    let ghost epg_pred = epg_survives(c0.channels, sv, pid);
    let mut nepg: Vec<EpgEntry> = Vec::new();
    let epn = catalog.epg_entries.len();
    proof {
        reveal(Seq::filter);
        assert(c0.epg.subrange(0, 0).filter(epg_pred) =~= crate::store::epg_view(nepg@));
    }
    for i in 0..epn
        invariant
            epn == c0.epg.len(),
            catalog@ == c0,
            catalog_wf(c0),
            forall|x: i64| #[trigger] ins@.contains(x) <==> stream_covers(sv, x),
            crate::store::epg_view(nepg@) == c0.epg.subrange(0, i as int).filter(epg_pred),
    {
        let ghost u = c0.epg.subrange(0, i + 1);
        proof {
            assert(u.drop_last() =~= c0.epg.subrange(0, i as int));
            assert(u.last() == c0.epg[i as int]);
        }
        let cid = catalog.epg_entries[i].channel_id;
        let keep = match catalog.find_channel(cid) {
            Some(w) => {
                proof {
                    crate::store::lemma_channel_at_index(c0.channels, w as int);
                }
                catalog.channels[w].playlist_id != pid && !crate::store::contains_i64(ins, cid)
            },
            None => false,
        };
        proof {
            assert(keep == epg_pred(c0.epg[i as int]));
        }
        if keep {
            nepg.push(crate::model::clone_epg_entry(&catalog.epg_entries[i]));
        }
        proof {
            reveal(Seq::filter);
            assert(crate::store::epg_view(nepg@) =~= u.filter(epg_pred));
        }
    }
    proof {
        assert(c0.epg.subrange(0, epn as int) =~= c0.epg);
    }
    nepg
}

/// The recently-watched table after the cascade and the snapshot restore.
fn recent_after_refresh(
    catalog: &Catalog,
    pid: i64,
    ins: &Vec<i64>,
    cur: &Vec<Channel>,
    Ghost(sv): Ghost<Seq<FetchedStreamView>>,
) -> (r: Vec<RecentlyWatched>)
    requires
        catalog_wf(catalog@),
        forall|x: i64| #[trigger] ins@.contains(x) <==> stream_covers(sv, x),
    ensures
        crate::store::recent_view(r@) == restore_recent(
            catalog@.recent.filter(recent_survives(catalog@.channels, sv, pid)),
            catalog@.recent,
            0,
            channels_view(cur@),
        ),
{
    let ghost c0 = catalog@;
    let ghost nch = channels_view(cur@);
    let ghost rec_pred = recent_survives(c0.channels, sv, pid);
    let mut nrec: Vec<RecentlyWatched> = Vec::new();
    let rn = catalog.recently_watched.len();
    proof {
        reveal(Seq::filter);
        assert(c0.recent.subrange(0, 0).filter(rec_pred) =~= crate::store::recent_view(nrec@));
    }
    for i in 0..rn
        invariant
            rn == c0.recent.len(),
            catalog@ == c0,
            catalog_wf(c0),
            forall|x: i64| #[trigger] ins@.contains(x) <==> stream_covers(sv, x),
            crate::store::recent_view(nrec@) == c0.recent.subrange(0, i as int).filter(rec_pred),
    {
        let ghost u = c0.recent.subrange(0, i + 1);
        proof {
            assert(u.drop_last() =~= c0.recent.subrange(0, i as int));
            assert(u.last() == c0.recent[i as int]);
        }
        let cid = catalog.recently_watched[i].channel_id;
        let keep = match catalog.find_channel(cid) {
            Some(w) => {
                proof {
                    crate::store::lemma_channel_at_index(c0.channels, w as int);
                }
                catalog.channels[w].playlist_id != pid && !crate::store::contains_i64(ins, cid)
            },
            None => false,
        };
        proof {
            assert(keep == rec_pred(c0.recent[i as int]));
        }
        if keep {
            nrec.push(crate::model::clone_recently_watched(&catalog.recently_watched[i]));
        }
        proof {
            reveal(Seq::filter);
            assert(crate::store::recent_view(nrec@) =~= u.filter(rec_pred));
        }
    }
    proof {
        assert(c0.recent.subrange(0, rn as int) =~= c0.recent);
    }
    let ghost surv = c0.recent.filter(rec_pred);
    let mut ri: usize = 0;
    while ri < rn
        invariant
            rn == c0.recent.len(),
            catalog@ == c0,
            ri <= rn,
            restore_recent(crate::store::recent_view(nrec@), c0.recent, ri as int, nch)
                == restore_recent(surv, c0.recent, 0, nch),
        decreases rn - ri,
    {
        let cid = catalog.recently_watched[ri].channel_id;
        proof {
            assert(c0.recent[ri as int].channel_id == cid);
        }
        if crate::store::vec_has_channel(cur, cid) && !crate::store::vec_has_recent(&nrec, cid) {
            let ghost acc0 = crate::store::recent_view(nrec@);
            nrec.push(crate::model::clone_recently_watched(&catalog.recently_watched[ri]));
            proof {
                assert(crate::store::recent_view(nrec@) =~= acc0.push(c0.recent[ri as int]));
                assert(restore_recent(acc0, c0.recent, ri as int, nch) == restore_recent(
                    crate::store::recent_view(nrec@),
                    c0.recent,
                    ri + 1,
                    nch,
                ));
            }
        } else {
            proof {
                assert(restore_recent(
                    crate::store::recent_view(nrec@),
                    c0.recent,
                    ri as int,
                    nch,
                ) == restore_recent(crate::store::recent_view(nrec@), c0.recent, ri + 1, nch));
            }
        }
        ri = ri + 1;
    }
    proof {
        assert(restore_recent(crate::store::recent_view(nrec@), c0.recent, rn as int, nch)
            == crate::store::recent_view(nrec@));
    }
    nrec
}

/// The tables a refresh builds are well formed.
#[verifier::rlimit(100)]
proof fn lemma_refresh_apply_wf(
    c0: CatalogView,
    pid: i64,
    cv: Seq<FetchedCategoryView>,
    sv: Seq<FetchedStreamView>,
    ctx: RefreshCtx,
)
    requires
        catalog_wf(c0),
        has_playlist(c0.playlists, pid),
        c0.next_category_id + cv.len() <= i64::MAX,
        ctx.pid == pid,
        ctx.old_chans == c0.channels,
    ensures
        ({
            let base_ch = c0.channels.filter(crate::store::keeps_channel(pid));
            let nch = insert_streams(base_ch, sv, 0, ctx);
            let mid = CatalogView {
                playlists: c0.playlists,
                categories: c0.categories.filter(crate::store::keeps_category(pid))
                    + new_categories(cv, pid, c0.next_category_id),
                channels: nch,
                epg: c0.epg.filter(epg_survives(c0.channels, sv, pid)),
                recent: restore_recent(
                    c0.recent.filter(recent_survives(c0.channels, sv, pid)),
                    c0.recent,
                    0,
                    nch,
                ),
                next_playlist_id: c0.next_playlist_id,
                next_category_id: (c0.next_category_id + cv.len()) as i64,
            };
            catalog_wf(mid)
        }),
{
    let base_ch = c0.channels.filter(crate::store::keeps_channel(pid));
    let nch = insert_streams(base_ch, sv, 0, ctx);
    let cat_keep = c0.categories.filter(crate::store::keeps_category(pid));
    let epg_pred = epg_survives(c0.channels, sv, pid);
    let rec_pred = recent_survives(c0.channels, sv, pid);
    let surv = c0.recent.filter(rec_pred);
    let nrec = restore_recent(surv, c0.recent, 0, nch);
    let ncat = cat_keep + new_categories(cv, pid, c0.next_category_id);
    let nepg = c0.epg.filter(epg_pred);

    let kch = |c: ChannelView| c.id;
    assert forall|i: int, j: int|
        #![trigger kch(c0.channels[i]), kch(c0.channels[j])]
        0 <= i < j < c0.channels.len() implies kch(c0.channels[i]) != kch(c0.channels[j]) by {}
    crate::store::lemma_filter_unique_key(c0.channels, crate::store::keeps_channel(pid), kch);
    assert forall|i: int, j: int|
        0 <= i < j < base_ch.len() implies (#[trigger] base_ch[i]).id != (
        #[trigger] base_ch[j]).id by {
        assert(kch(base_ch[i]) != kch(base_ch[j]));
    }
    lemma_insert_streams_unique(base_ch, sv, 0, ctx);

    let kcat = |c: CategoryView| c.id;
    assert forall|i: int, j: int|
        #![trigger kcat(c0.categories[i]), kcat(c0.categories[j])]
        0 <= i < j < c0.categories.len() implies kcat(c0.categories[i]) != kcat(
        c0.categories[j],
    ) by {}
    crate::store::lemma_filter_unique_key(c0.categories, crate::store::keeps_category(pid), kcat);
    assert forall|i: int, j: int|
        0 <= i < j < ncat.len() implies (#[trigger] ncat[i]).id != (#[trigger] ncat[j]).id by {
        if j < cat_keep.len() {
            assert(kcat(cat_keep[i]) != kcat(cat_keep[j]));
        } else if i < cat_keep.len() {
            crate::store::lemma_filter_elem(c0.categories, crate::store::keeps_category(pid), i);
            let t = choose|t: int|
                0 <= t < c0.categories.len() && #[trigger] c0.categories[t] == cat_keep[i];
            assert(c0.categories[t].id < c0.next_category_id);
        } else {
        }
    }

    let kepg = |e: EpgEntryView| e.id;
    assert forall|i: int, j: int|
        #![trigger kepg(c0.epg[i]), kepg(c0.epg[j])]
        0 <= i < j < c0.epg.len() implies kepg(c0.epg[i]) != kepg(c0.epg[j]) by {}
    crate::store::lemma_filter_unique_key(c0.epg, epg_pred, kepg);
    assert forall|i: int, j: int|
        0 <= i < j < nepg.len() implies (#[trigger] nepg[i]).id != (#[trigger] nepg[j]).id by {
        assert(kepg(nepg[i]) != kepg(nepg[j]));
    }

    let krec = |r: RecentlyWatchedView| r.channel_id;
    assert forall|i: int, j: int|
        #![trigger krec(c0.recent[i]), krec(c0.recent[j])]
        0 <= i < j < c0.recent.len() implies krec(c0.recent[i]) != krec(c0.recent[j]) by {}
    crate::store::lemma_filter_unique_key(c0.recent, rec_pred, krec);
    assert forall|i: int, j: int|
        0 <= i < j < surv.len() implies (#[trigger] surv[i]).channel_id != (
        #[trigger] surv[j]).channel_id by {
        assert(krec(surv[i]) != krec(surv[j]));
    }
    lemma_restore_unique(surv, c0.recent, 0, nch);

    assert forall|i: int| 0 <= i < ncat.len() implies has_playlist(
        c0.playlists,
        (#[trigger] ncat[i]).playlist_id,
    ) by {
        if i < cat_keep.len() {
            crate::store::lemma_filter_elem(c0.categories, crate::store::keeps_category(pid), i);
        } else {
            assert(ncat[i].playlist_id == pid);
        }
    }
    lemma_insert_streams_elem(base_ch, sv, 0, ctx);
    assert forall|i: int| 0 <= i < nch.len() implies has_playlist(
        c0.playlists,
        (#[trigger] nch[i]).playlist_id,
    ) by {
        let x = nch[i];
        if exists|t: int| 0 <= t < base_ch.len() && #[trigger] base_ch[t] == x {
            let t = choose|t: int| 0 <= t < base_ch.len() && #[trigger] base_ch[t] == x;
            crate::store::lemma_filter_elem(c0.channels, crate::store::keeps_channel(pid), t);
        }
    }
    assert forall|i: int| 0 <= i < nepg.len() implies has_channel(
        nch,
        (#[trigger] nepg[i]).channel_id,
    ) by {
        crate::store::lemma_filter_elem(c0.epg, epg_pred, i);
        let e = nepg[i];
        let w = choose|w: int|
            0 <= w < c0.channels.len() && (#[trigger] c0.channels[w]).id == e.channel_id;
        assert(c0.channels[w].playlist_id != pid) by {
            crate::store::lemma_channel_at_index(c0.channels, w);
        }
        c0.channels.lemma_filter_contains(crate::store::keeps_channel(pid), w);
        let t = choose|t: int| 0 <= t < base_ch.len() && #[trigger] base_ch[t] == c0.channels[w];
        lemma_insert_streams_keeps(base_ch, sv, 0, ctx, t);
        let q = choose|q: int| 0 <= q < nch.len() && #[trigger] nch[q] == base_ch[t];
        assert(nch[q].id == e.channel_id);
    }
    lemma_restore_elem(surv, c0.recent, 0, nch);
    assert forall|i: int| 0 <= i < nrec.len() implies has_channel(
        nch,
        (#[trigger] nrec[i]).channel_id,
    ) by {
        let x = nrec[i];
        if exists|t: int| 0 <= t < surv.len() && #[trigger] surv[t] == x {
            let t = choose|t: int| 0 <= t < surv.len() && #[trigger] surv[t] == x;
            crate::store::lemma_filter_elem(c0.recent, rec_pred, t);
            let w = choose|w: int|
                0 <= w < c0.channels.len() && (#[trigger] c0.channels[w]).id == x.channel_id;
            assert(c0.channels[w].playlist_id != pid) by {
                crate::store::lemma_channel_at_index(c0.channels, w);
            }
            c0.channels.lemma_filter_contains(crate::store::keeps_channel(pid), w);
            let t2 = choose|t2: int|
                0 <= t2 < base_ch.len() && #[trigger] base_ch[t2] == c0.channels[w];
            lemma_insert_streams_keeps(base_ch, sv, 0, ctx, t2);
            let q = choose|q: int| 0 <= q < nch.len() && #[trigger] nch[q] == base_ch[t2];
            assert(nch[q].id == x.channel_id);
        }
    }
    assert forall|i: int| 0 <= i < ncat.len() implies (#[trigger] ncat[i]).id < (
    c0.next_category_id + cv.len()) as i64 by {
        if i < cat_keep.len() {
            crate::store::lemma_filter_elem(c0.categories, crate::store::keeps_category(pid), i);
            let t = choose|t: int|
                0 <= t < c0.categories.len() && #[trigger] c0.categories[t] == cat_keep[i];
        }
    }
}

/// An active playlist row.
pub open spec fn active_fn() -> spec_fn(crate::model::PlaylistView) -> bool {
    |p: crate::model::PlaylistView| p.is_active
}

/// A playlist row's id.
pub open spec fn playlist_id_fn() -> spec_fn(crate::model::PlaylistView) -> i64 {
    |p: crate::model::PlaylistView| p.id
}

/// The ids of the active playlists, in table order: what a refresh-all
/// driver fans out over, one independent task per playlist.
pub fn active_playlist_ids(catalog: &Catalog) -> (r: Vec<i64>)
    ensures
        r@ == catalog@.playlists.filter(active_fn()).map_values(playlist_id_fn()),
{
    let ghost pv = catalog@.playlists;
    let mut out: Vec<i64> = Vec::new();
    let n = catalog.playlists.len();
    proof {
        reveal(Seq::filter);
        assert(out@ =~= pv.subrange(0, 0).filter(active_fn()).map_values(playlist_id_fn()));
    }
    for i in 0..n
        invariant
            n == pv.len(),
            catalog@.playlists == pv,
            out@ == pv.subrange(0, i as int).filter(active_fn()).map_values(playlist_id_fn()),
    {
        let ghost u = pv.subrange(0, i + 1);
        proof {
            assert(u.drop_last() =~= pv.subrange(0, i as int));
            assert(u.last() == pv[i as int]);
            assert(pv[i as int] == catalog.playlists@[i as int]@);
        }
        if catalog.playlists[i].is_active {
            out.push(catalog.playlists[i].id);
            proof {
                reveal(Seq::filter);
                assert(out@ =~= u.filter(active_fn()).map_values(playlist_id_fn()));
            }
        } else {
            proof {
                reveal(Seq::filter);
                assert(out@ =~= u.filter(active_fn()).map_values(playlist_id_fn()));
            }
        }
    }
    proof {
        assert(pv.subrange(0, n as int) =~= pv);
    }
    out
}

/// A refresh preserves user state: a channel that stood in the catalog
/// before the refresh, and whose stream id the new payload still carries,
/// keeps its favorite and hidden flags.
pub proof fn lemma_refresh_preserves_user_state(
    c: CatalogView,
    pid: i64,
    cats: Seq<FetchedCategoryView>,
    streams: Seq<FetchedStreamView>,
    base: Seq<char>,
    user: Seq<char>,
    pass: Seq<char>,
    now: Seq<char>,
    sid: i64,
)
    requires
        catalog_wf(c),
        stream_covers(streams, sid),
        has_channel(c.channels, sid),
        crate::store::channel_by_id(c.channels, sid).playlist_id == pid,
    ensures
        ({
            let after = spec_refresh_apply(c, pid, cats, streams, base, user, pass, now);
            &&& has_channel(after.channels, sid)
            &&& crate::store::channel_by_id(after.channels, sid).is_favorite
                == crate::store::channel_by_id(c.channels, sid).is_favorite
            &&& crate::store::channel_by_id(after.channels, sid).is_hidden
                == crate::store::channel_by_id(c.channels, sid).is_hidden
        }),
{
    let ctx = RefreshCtx {
        pid: pid,
        clean: clean_base_url_spec(base),
        user: user,
        pass: pass,
        cats: cats,
        old_chans: c.channels,
    };
    let base_ch = c.channels.filter(crate::store::keeps_channel(pid));
    let kch = |ch: ChannelView| ch.id;
    assert forall|i: int, j: int|
        #![trigger kch(c.channels[i]), kch(c.channels[j])]
        0 <= i < j < c.channels.len() implies kch(c.channels[i]) != kch(c.channels[j]) by {}
    crate::store::lemma_filter_unique_key(c.channels, crate::store::keeps_channel(pid), kch);
    assert forall|i: int, j: int|
        0 <= i < j < base_ch.len() implies (#[trigger] base_ch[i]).id != (
        #[trigger] base_ch[j]).id by {
        assert(kch(base_ch[i]) != kch(base_ch[j]));
    }
    lemma_insert_streams_covered(base_ch, streams, 0, ctx, sid);

    let w = choose|w: int| 0 <= w < c.channels.len() && (#[trigger] c.channels[w]).id == sid;
    crate::store::lemma_channel_at_index(c.channels, w);
    assert(c.channels[w].playlist_id == pid);
    assert(exists|i: int|
        0 <= i < c.channels.len() && (#[trigger] c.channels[i]).playlist_id == pid
            && c.channels[i].id == sid);
    let i = choose|i: int|
        0 <= i < c.channels.len() && (#[trigger] c.channels[i]).playlist_id == pid
            && c.channels[i].id == sid;
    if i != w {
        if i < w {
            assert(c.channels[i].id != c.channels[w].id);
        } else {
            assert(c.channels[w].id != c.channels[i].id);
        }
    }
    assert(snapshot_flags(c.channels, pid, sid) == (
        c.channels[w].is_favorite,
        c.channels[w].is_hidden,
    ));
}

/// A refresh drops what the provider no longer lists: a channel of the
/// refreshed playlist whose stream id is absent from the new payload is
/// gone afterwards, and so is its recently-watched row.
pub proof fn lemma_refresh_drops_absent_channels(
    c: CatalogView,
    pid: i64,
    cats: Seq<FetchedCategoryView>,
    streams: Seq<FetchedStreamView>,
    base: Seq<char>,
    user: Seq<char>,
    pass: Seq<char>,
    now: Seq<char>,
    sid: i64,
)
    requires
        catalog_wf(c),
        !stream_covers(streams, sid),
        has_channel(c.channels, sid),
        crate::store::channel_by_id(c.channels, sid).playlist_id == pid,
    ensures
        ({
            let after = spec_refresh_apply(c, pid, cats, streams, base, user, pass, now);
            &&& !has_channel(after.channels, sid)
            &&& !crate::store::has_recent(after.recent, sid)
        }),
{
    let ctx = RefreshCtx {
        pid: pid,
        clean: clean_base_url_spec(base),
        user: user,
        pass: pass,
        cats: cats,
        old_chans: c.channels,
    };
    let base_ch = c.channels.filter(crate::store::keeps_channel(pid));
    let nch = insert_streams(base_ch, streams, 0, ctx);
    let w = choose|w: int| 0 <= w < c.channels.len() && (#[trigger] c.channels[w]).id == sid;
    crate::store::lemma_channel_at_index(c.channels, w);
    assert(c.channels[w].playlist_id == pid);

    assert forall|t: int| 0 <= t < base_ch.len() implies (#[trigger] base_ch[t]).id != sid by {
        crate::store::lemma_filter_elem(c.channels, crate::store::keeps_channel(pid), t);
        let u = choose|u: int| 0 <= u < c.channels.len() && #[trigger] c.channels[u] == base_ch[t];
        if base_ch[t].id == sid {
            if u != w {
                if u < w {
                    assert(c.channels[u].id != c.channels[w].id);
                } else {
                    assert(c.channels[w].id != c.channels[u].id);
                }
            }
        }
    }
    assert(!has_channel(base_ch, sid));
    lemma_insert_streams_absent(base_ch, streams, 0, ctx, sid);
    assert(!has_channel(nch, sid));

    let rec_pred = recent_survives(c.channels, streams, pid);
    let surv = c.recent.filter(rec_pred);
    assert forall|t: int| 0 <= t < surv.len() implies (#[trigger] surv[t]).channel_id != sid by {
        crate::store::lemma_filter_elem(c.recent, rec_pred, t);
        if surv[t].channel_id == sid {
            assert(rec_pred(surv[t]));
            assert(crate::store::channel_by_id(c.channels, sid).playlist_id != pid);
        }
    }
    assert(!crate::store::has_recent(surv, sid));
    lemma_restore_no_channel(surv, c.recent, 0, nch, sid);
}

/// Applies a fetched catalog to one playlist in a single transition, as
/// `spec_refresh_apply` says: categories and channels replaced, user flags
/// carried over by stream id, the guide and watch history cascaded, the
/// eligible history re-inserted, and the playlist marked active.
pub fn refresh_apply(
    catalog: &mut Catalog,
    playlist_id: i64,
    prep: &RefreshPrep,
    categories: &Vec<FetchedCategory>,
    streams: &Vec<FetchedStream>,
    now: &str,
)
    requires
        catalog_wf(old(catalog)@),
        has_playlist(old(catalog)@.playlists, playlist_id),
        old(catalog)@.next_category_id + categories@.len() <= i64::MAX,
        categories@.len() <= i64::MAX,
        streams@.len() <= i64::MAX,
    ensures
        catalog_wf(final(catalog)@),
        final(catalog)@ == spec_refresh_apply(
            old(catalog)@,
            playlist_id,
            fetched_categories_view(categories@),
            fetched_streams_view(streams@),
            prep.base_url@,
            prep.username@,
            prep.password@,
            now@,
        ),
{
    let ghost c0 = old(catalog)@;
    let ghost cv = fetched_categories_view(categories@);
    let ghost sv = fetched_streams_view(streams@);
    let ghost ctx = RefreshCtx {
        pid: playlist_id,
        clean: clean_base_url_spec(prep.base_url@),
        user: prep.username@,
        pass: prep.password@,
        cats: cv,
        old_chans: c0.channels,
    };

    let clean = clean_base_url(prep.base_url.as_str());
    let sn = snapshot_flags_vec(catalog, playlist_id);
    let base = channels_without_playlist(catalog, playlist_id);
    let (cur, ins) = insert_streams_exec(
        base,
        streams,
        categories,
        &clean,
        prep.username.as_str(),
        prep.password.as_str(),
        &sn,
        playlist_id,
        Ghost(c0.channels),
    );
    let first_cat_id = catalog.next_category_id;
    let ncat = categories_after_refresh(catalog, playlist_id, categories, first_cat_id);
    let nepg = epg_after_refresh(catalog, playlist_id, &ins, Ghost(sv));
    let nrec = recent_after_refresh(catalog, playlist_id, &ins, &cur, Ghost(sv));
    let fcn = categories.len();

    proof {
        lemma_refresh_apply_wf(c0, playlist_id, cv, sv, ctx);
    }

    catalog.channels = cur;
    catalog.categories = ncat;
    catalog.epg_entries = nepg;
    catalog.recently_watched = nrec;
    catalog.next_category_id = catalog.next_category_id + fcn as i64;

    proof {
        assert(catalog_wf(catalog@));
    }
    catalog.set_playlist_status(playlist_id, PlaylistStatus::Active, None, now);
    proof {
        assert(catalog@ == spec_refresh_apply(
            c0,
            playlist_id,
            cv,
            sv,
            prep.base_url@,
            prep.username@,
            prep.password@,
            now@,
        ));
    }
}

} // verus!
