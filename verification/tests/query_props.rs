use iptv_catalog::epg::{reconcile_playlist, Programme, XmlChannelDef};
use iptv_catalog::model::PlaylistKind;
use iptv_catalog::query::{
    fetch_single_channel, get_channels, FilterSpec, SortBy, SortDir,
};
use iptv_catalog::refresh::{refresh_apply, refresh_begin, FetchedCategory, FetchedStream, RawStreamId};
use iptv_catalog::store::{Catalog, NewPlaylistData};

fn playlist_data() -> NewPlaylistData {
    NewPlaylistData {
        name: "Main".to_string(),
        url: "http://h.test/".to_string(),
        kind: PlaylistKind::Xtream,
        error_message: None,
        username: Some("u".to_string()),
        password: Some("p".to_string()),
        mac_address: None,
        max_connections: None,
        expiration_date: None,
        last_updated: None,
    }
}

fn stream(id: i64, name: &str) -> FetchedStream {
    FetchedStream {
        stream_id: RawStreamId::Num(Some(id)),
        name: name.to_string(),
        stream_icon: None,
        category_id: Some("7".to_string()),
        epg_channel_id: Some(format!("e{}", id)),
    }
}

fn setup(n: i64) -> (Catalog, i64) {
    let mut catalog = Catalog::new();
    let pid = catalog.add_playlist(playlist_data()).unwrap();
    let prep = refresh_begin(&mut catalog, pid, "t0").unwrap();
    let cats = vec![FetchedCategory {
        category_id: "7".to_string(),
        category_name: "News".to_string(),
    }];
    let streams: Vec<FetchedStream> =
        (1..=n).map(|i| stream(i, &format!("Channel {:02}", i))).collect();
    refresh_apply(&mut catalog, pid, &prep, &cats, &streams, "t1");
    (catalog, pid)
}

const NOW: &str = "2024-01-01T12:00:00+00:00";

#[test]
fn pagination_counts_and_has_more() {
    let (catalog, _) = setup(25);
    let p1 = get_channels(
        &catalog, 1, 10, "", SortBy::Position, SortDir::Asc, FilterSpec::NoFilter, false, NOW,
    );
    assert_eq!(p1.items.len(), 10);
    assert_eq!(p1.total, 25);
    assert!(p1.has_more);
    let p3 = get_channels(
        &catalog, 3, 10, "", SortBy::Position, SortDir::Asc, FilterSpec::NoFilter, false, NOW,
    );
    assert_eq!(p3.items.len(), 5);
    assert_eq!(p3.total, 25);
    assert!(!p3.has_more);
    let p4 = get_channels(
        &catalog, 4, 10, "", SortBy::Position, SortDir::Asc, FilterSpec::NoFilter, false, NOW,
    );
    assert_eq!(p4.items.len(), 0);
    assert!(!p4.has_more);
}

#[test]
fn hydration_order_matches_the_selection_order() {
    let (catalog, _) = setup(5);
    let page = get_channels(
        &catalog, 1, 5, "", SortBy::Name, SortDir::Desc, FilterSpec::NoFilter, false, NOW,
    );
    let names: Vec<String> = page.items.iter().map(|l| l.channel.name.clone()).collect();
    assert_eq!(names, vec!["Channel 05", "Channel 04", "Channel 03", "Channel 02", "Channel 01"]);
    let ids: Vec<i64> = page.items.iter().map(|l| l.channel.id).collect();
    assert_eq!(ids, vec![5, 4, 3, 2, 1]);
}

#[test]
fn favorites_filter_and_hidden_flag() {
    let (mut catalog, _) = setup(4);
    assert!(catalog.toggle_channel_favorite(2));
    assert!(catalog.toggle_channel_favorite(3));
    assert!(catalog.toggle_channel_visibility(3));
    let favs = get_channels(
        &catalog, 1, 10, "", SortBy::Position, SortDir::Asc, FilterSpec::Favorites, false, NOW,
    );
    let ids: Vec<i64> = favs.items.iter().map(|l| l.channel.id).collect();
    assert_eq!(ids, vec![2]);
    let hidden = get_channels(
        &catalog, 1, 10, "", SortBy::Position, SortDir::Asc, FilterSpec::NoFilter, true, NOW,
    );
    let hidden_ids: Vec<i64> = hidden.items.iter().map(|l| l.channel.id).collect();
    assert_eq!(hidden_ids, vec![3]);
}

#[test]
fn category_filter_matches_by_denormalized_name() {
    let (catalog, _) = setup(3);
    // channels carry no category link after a refresh; the filter falls
    // back to the denormalized name of the requested category row.
    let cat_id = catalog.categories[0].id;
    let page = get_channels(
        &catalog, 1, 10, "", SortBy::Position, SortDir::Asc, FilterSpec::Category(cat_id), false,
        NOW,
    );
    assert_eq!(page.total, 3);
    let missing = get_channels(
        &catalog, 1, 10, "", SortBy::Position, SortDir::Asc, FilterSpec::Category(9999), false,
        NOW,
    );
    assert_eq!(missing.total, 0);
}

#[test]
fn search_matches_names_and_airing_titles_and_honors_hidden() {
    let (mut catalog, pid) = setup(4);
    // channel 4 gets a currently-airing programme titled "Great Quiz"
    let defs: Vec<XmlChannelDef> = Vec::new();
    let progs = vec![Programme {
        start: "20240101110000".to_string(),
        stop: "20240101130000".to_string(),
        channel: "e4".to_string(),
        title: "Great Quiz".to_string(),
        desc: None,
    }];
    reconcile_playlist(&mut catalog, pid, &defs, &progs);

    let by_title = get_channels(
        &catalog, 1, 10, "quiz", SortBy::Position, SortDir::Asc, FilterSpec::NoFilter, false, NOW,
    );
    let ids: Vec<i64> = by_title.items.iter().map(|l| l.channel.id).collect();
    assert_eq!(ids, vec![4]);

    let by_name = get_channels(
        &catalog, 1, 10, "channel 0", SortBy::Position, SortDir::Asc, FilterSpec::NoFilter, false,
        NOW,
    );
    assert_eq!(by_name.total, 4);

    // a hidden channel is excluded from both sources
    assert!(catalog.toggle_channel_visibility(4));
    let hidden_now = get_channels(
        &catalog, 1, 10, "quiz", SortBy::Position, SortDir::Asc, FilterSpec::NoFilter, false, NOW,
    );
    assert_eq!(hidden_now.total, 0);

    // a programme outside its air window does not match
    let late = "2024-01-01T14:00:00+00:00";
    assert!(catalog.toggle_channel_visibility(4));
    let over = get_channels(
        &catalog, 1, 10, "quiz", SortBy::Position, SortDir::Asc, FilterSpec::NoFilter, false, late,
    );
    assert_eq!(over.total, 0);
}

#[test]
fn recently_watched_view_orders_by_stamp_descending() {
    let (mut catalog, _) = setup(3);
    assert!(catalog.add_to_recently_watched(1, "2024-01-01T10:00:00+00:00"));
    assert!(catalog.add_to_recently_watched(3, "2024-01-01T11:00:00+00:00"));
    assert!(catalog.add_to_recently_watched(2, "2024-01-01T09:00:00+00:00"));
    let page = get_channels(
        &catalog, 1, 10, "", SortBy::Name, SortDir::Asc, FilterSpec::RecentlyWatched, false, NOW,
    );
    let ids: Vec<i64> = page.items.iter().map(|l| l.channel.id).collect();
    assert_eq!(ids, vec![3, 1, 2]);
}

#[test]
fn single_channel_fetch_hydrates_its_guide() {
    let (mut catalog, pid) = setup(2);
    let defs: Vec<XmlChannelDef> = Vec::new();
    let progs = vec![Programme {
        start: "20240101110000".to_string(),
        stop: "20240101120000".to_string(),
        channel: "e1".to_string(),
        title: "Solo".to_string(),
        desc: None,
    }];
    reconcile_playlist(&mut catalog, pid, &defs, &progs);
    let one = fetch_single_channel(&catalog, 1).expect("channel 1 exists");
    assert_eq!(one.channel.id, 1);
    assert_eq!(one.epg.len(), 1);
    assert_eq!(one.epg[0].title, "Solo");
    assert!(fetch_single_channel(&catalog, 999).is_none());
}

#[test]
fn cascade_delete_removes_everything_owned() {
    let (mut catalog, pid) = setup(3);
    let defs: Vec<XmlChannelDef> = Vec::new();
    let progs = vec![Programme {
        start: "20240101110000".to_string(),
        stop: "20240101120000".to_string(),
        channel: "e2".to_string(),
        title: "Gone Soon".to_string(),
        desc: None,
    }];
    reconcile_playlist(&mut catalog, pid, &defs, &progs);
    assert!(catalog.add_to_recently_watched(2, "2024-01-01T10:00:00+00:00"));
    catalog.delete_playlist(pid);
    assert!(catalog.playlists.is_empty());
    assert!(catalog.categories.is_empty());
    assert!(catalog.channels.is_empty());
    assert!(catalog.epg_entries.is_empty());
    assert!(catalog.recently_watched.is_empty());
}
