//! The catalog's data model: playlists, categories, channels, EPG entries
//! and the recently-watched list, with the abstract view of each row type.

use vstd::prelude::*;

verus! {

/// What kind of provider a playlist points at.
#[derive(Clone, Copy, PartialEq, Eq, Structural, Debug)]
pub enum PlaylistKind {
    Xtream,
    M3u,
    Stalker,
}

/// Lifecycle state of a playlist, written only by the refresh engine.
#[derive(Clone, Copy, PartialEq, Eq, Structural, Debug)]
pub enum PlaylistStatus {
    Inactive,
    Loading,
    Active,
    Failed,
}

/// View of an optional string as an optional character sequence.
pub open spec fn opt_str_view(o: Option<String>) -> Option<Seq<char>> {
    match o {
        Some(s) => Some(s@),
        None => None,
    }
}

/// One playlist row.
pub struct Playlist {
    pub id: i64,
    pub name: String,
    pub url: String,
    pub kind: PlaylistKind,
    pub is_active: bool,
    pub status: PlaylistStatus,
    pub error_message: Option<String>,
    pub username: Option<String>,
    pub password: Option<String>,
    pub mac_address: Option<String>,
    pub max_connections: Option<i64>,
    pub expiration_date: Option<String>,
    pub last_updated: Option<String>,
}

/// Abstract value of a playlist row.
pub struct PlaylistView {
    pub id: i64,
    pub name: Seq<char>,
    pub url: Seq<char>,
    pub kind: PlaylistKind,
    pub is_active: bool,
    pub status: PlaylistStatus,
    pub error_message: Option<Seq<char>>,
    pub username: Option<Seq<char>>,
    pub password: Option<Seq<char>>,
    pub mac_address: Option<Seq<char>>,
    pub max_connections: Option<i64>,
    pub expiration_date: Option<Seq<char>>,
    pub last_updated: Option<Seq<char>>,
}

impl View for Playlist {
    type V = PlaylistView;

    open spec fn view(&self) -> PlaylistView {
        PlaylistView {
            id: self.id,
            name: self.name@,
            url: self.url@,
            kind: self.kind,
            is_active: self.is_active,
            status: self.status,
            error_message: opt_str_view(self.error_message),
            username: opt_str_view(self.username),
            password: opt_str_view(self.password),
            mac_address: opt_str_view(self.mac_address),
            max_connections: self.max_connections,
            expiration_date: opt_str_view(self.expiration_date),
            last_updated: opt_str_view(self.last_updated),
        }
    }
}

impl DeepView for Playlist {
    type V = PlaylistView;

    open spec fn deep_view(&self) -> PlaylistView {
        self.view()
    }
}

/// One category row; fully replaced on every refresh of its playlist.
pub struct Category {
    pub id: i64,
    pub playlist_id: i64,
    pub name: String,
    pub is_hidden: bool,
}

/// Abstract value of a category row.
pub struct CategoryView {
    pub id: i64,
    pub playlist_id: i64,
    pub name: Seq<char>,
    pub is_hidden: bool,
}

impl View for Category {
    type V = CategoryView;

    open spec fn view(&self) -> CategoryView {
        CategoryView {
            id: self.id,
            playlist_id: self.playlist_id,
            name: self.name@,
            is_hidden: self.is_hidden,
        }
    }
}

impl DeepView for Category {
    type V = CategoryView;

    open spec fn deep_view(&self) -> CategoryView {
        self.view()
    }
}

/// One channel row. The id is the provider's stream id, stable across
/// refreshes, which is what lets user flags survive a re-import.
pub struct Channel {
    pub id: i64,
    pub playlist_id: i64,
    pub name: String,
    pub logo_url: String,
    pub stream_url: String,
    pub category: String,
    pub category_id: Option<i64>,
    pub epg_channel_id: Option<String>,
    pub is_favorite: bool,
    pub is_hidden: bool,
    pub sort_order: i64,
}

/// Abstract value of a channel row.
pub struct ChannelView {
    pub id: i64,
    pub playlist_id: i64,
    pub name: Seq<char>,
    pub logo_url: Seq<char>,
    pub stream_url: Seq<char>,
    pub category: Seq<char>,
    pub category_id: Option<i64>,
    pub epg_channel_id: Option<Seq<char>>,
    pub is_favorite: bool,
    pub is_hidden: bool,
    pub sort_order: i64,
}

impl View for Channel {
    type V = ChannelView;

    open spec fn view(&self) -> ChannelView {
        ChannelView {
            id: self.id,
            playlist_id: self.playlist_id,
            name: self.name@,
            logo_url: self.logo_url@,
            stream_url: self.stream_url@,
            category: self.category@,
            category_id: self.category_id,
            epg_channel_id: opt_str_view(self.epg_channel_id),
            is_favorite: self.is_favorite,
            is_hidden: self.is_hidden,
            sort_order: self.sort_order,
        }
    }
}

impl DeepView for Channel {
    type V = ChannelView;

    open spec fn deep_view(&self) -> ChannelView {
        self.view()
    }
}

/// One program-guide row; the id is a derived hash, unique per channel.
pub struct EpgEntry {
    pub id: i64,
    pub channel_id: i64,
    pub title: String,
    pub description: Option<String>,
    pub start_time: String,
    pub end_time: String,
}

/// Abstract value of a program-guide row.
pub struct EpgEntryView {
    pub id: i64,
    pub channel_id: i64,
    pub title: Seq<char>,
    pub description: Option<Seq<char>>,
    pub start_time: Seq<char>,
    pub end_time: Seq<char>,
}

impl View for EpgEntry {
    type V = EpgEntryView;

    open spec fn view(&self) -> EpgEntryView {
        EpgEntryView {
            id: self.id,
            channel_id: self.channel_id,
            title: self.title@,
            description: opt_str_view(self.description),
            start_time: self.start_time@,
            end_time: self.end_time@,
        }
    }
}

impl DeepView for EpgEntry {
    type V = EpgEntryView;

    open spec fn deep_view(&self) -> EpgEntryView {
        self.view()
    }
}

/// One recently-watched row, keyed by channel and capped in number.
pub struct RecentlyWatched {
    pub channel_id: i64,
    pub last_watched: String,
}

/// Abstract value of a recently-watched row.
pub struct RecentlyWatchedView {
    pub channel_id: i64,
    pub last_watched: Seq<char>,
}

impl View for RecentlyWatched {
    type V = RecentlyWatchedView;

    open spec fn view(&self) -> RecentlyWatchedView {
        RecentlyWatchedView { channel_id: self.channel_id, last_watched: self.last_watched@ }
    }
}

impl DeepView for RecentlyWatched {
    type V = RecentlyWatchedView;

    open spec fn deep_view(&self) -> RecentlyWatchedView {
        self.view()
    }
}

/// Copies an optional string with the same abstract value.
pub fn clone_opt_string(o: &Option<String>) -> (r: Option<String>)
    ensures
        r == *o,
{
    match o {
        Some(s) => Some(s.clone()),
        None => None,
    }
}

/// Copies a channel row with the same abstract value.
pub fn clone_channel(c: &Channel) -> (r: Channel)
    ensures
        r == *c,
{
    Channel {
        id: c.id,
        playlist_id: c.playlist_id,
        name: c.name.clone(),
        logo_url: c.logo_url.clone(),
        stream_url: c.stream_url.clone(),
        category: c.category.clone(),
        category_id: c.category_id,
        epg_channel_id: clone_opt_string(&c.epg_channel_id),
        is_favorite: c.is_favorite,
        is_hidden: c.is_hidden,
        sort_order: c.sort_order,
    }
}

/// Copies a playlist row with the same abstract value.
pub fn clone_playlist(p: &Playlist) -> (r: Playlist)
    ensures
        r == *p,
{
    Playlist {
        id: p.id,
        name: p.name.clone(),
        url: p.url.clone(),
        kind: p.kind,
        is_active: p.is_active,
        status: p.status,
        error_message: clone_opt_string(&p.error_message),
        username: clone_opt_string(&p.username),
        password: clone_opt_string(&p.password),
        mac_address: clone_opt_string(&p.mac_address),
        max_connections: p.max_connections,
        expiration_date: clone_opt_string(&p.expiration_date),
        last_updated: clone_opt_string(&p.last_updated),
    }
}

/// Copies a category row with the same abstract value.
pub fn clone_category(c: &Category) -> (r: Category)
    ensures
        r == *c,
{
    Category {
        id: c.id,
        playlist_id: c.playlist_id,
        name: c.name.clone(),
        is_hidden: c.is_hidden,
    }
}

/// Copies a recently-watched row with the same abstract value.
pub fn clone_recently_watched(r0: &RecentlyWatched) -> (r: RecentlyWatched)
    ensures
        r == *r0,
{
    RecentlyWatched { channel_id: r0.channel_id, last_watched: r0.last_watched.clone() }
}

/// Copies a program-guide row with the same abstract value.
pub fn clone_epg_entry(e: &EpgEntry) -> (r: EpgEntry)
    ensures
        r == *e,
{
    EpgEntry {
        id: e.id,
        channel_id: e.channel_id,
        title: e.title.clone(),
        description: clone_opt_string(&e.description),
        start_time: e.start_time.clone(),
        end_time: e.end_time.clone(),
    }
}

} // verus!
