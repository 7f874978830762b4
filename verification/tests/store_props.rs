use iptv_catalog::model::{Playlist, PlaylistKind, PlaylistStatus};
use iptv_catalog::refresh::{refresh_apply, refresh_begin, FetchedCategory, FetchedStream, RawStreamId};
use iptv_catalog::store::{Catalog, NewPlaylistData};

fn playlist_data(name: &str) -> NewPlaylistData {
    NewPlaylistData {
        name: name.to_string(),
        url: "http://h.test/".to_string(),
        kind: PlaylistKind::Xtream,
        error_message: None,
        username: Some("u".to_string()),
        password: Some("p".to_string()),
        mac_address: None,
        max_connections: None,
        expiration_date: None,
        last_updated: None,
    }
}

fn stream(id: i64, name: &str) -> FetchedStream {
    FetchedStream {
        stream_id: RawStreamId::Num(Some(id)),
        name: name.to_string(),
        stream_icon: None,
        category_id: None,
        epg_channel_id: None,
    }
}

fn setup(n: i64) -> (Catalog, i64) {
    let mut catalog = Catalog::new();
    let pid = catalog.add_playlist(playlist_data("Main")).unwrap();
    let prep = refresh_begin(&mut catalog, pid, "t0").unwrap();
    let cats = vec![FetchedCategory {
        category_id: "7".to_string(),
        category_name: "News".to_string(),
    }];
    let streams: Vec<FetchedStream> = (1..=n).map(|i| stream(i, &format!("Ch {}", i))).collect();
    refresh_apply(&mut catalog, pid, &prep, &cats, &streams, "t1");
    (catalog, pid)
}

#[test]
fn playlists_get_fresh_sequential_ids() {
    let mut catalog = Catalog::new();
    let a = catalog.add_playlist(playlist_data("A")).unwrap();
    let b = catalog.add_playlist(playlist_data("B")).unwrap();
    assert_eq!(a, 1);
    assert_eq!(b, 2);
    assert_eq!(catalog.playlists.len(), 2);
    assert_eq!(catalog.playlists[0].status, PlaylistStatus::Inactive);
    assert!(catalog.playlists[0].is_active);
}

#[test]
fn update_playlist_replaces_the_matching_row() {
    let mut catalog = Catalog::new();
    let a = catalog.add_playlist(playlist_data("A")).unwrap();
    let replacement = Playlist {
        id: a,
        name: "Renamed".to_string(),
        url: "http://other.test/".to_string(),
        kind: PlaylistKind::M3u,
        is_active: false,
        status: PlaylistStatus::Inactive,
        error_message: None,
        username: None,
        password: None,
        mac_address: None,
        max_connections: Some(2),
        expiration_date: None,
        last_updated: None,
    };
    assert!(catalog.update_playlist(&replacement));
    assert_eq!(catalog.playlists[0].name, "Renamed");
    assert_eq!(catalog.playlists[0].kind, PlaylistKind::M3u);
    let missing = Playlist { id: 999, ..replacement };
    assert!(!catalog.update_playlist(&missing));
}

#[test]
fn active_flag_toggles_one_row() {
    let mut catalog = Catalog::new();
    let a = catalog.add_playlist(playlist_data("A")).unwrap();
    let b = catalog.add_playlist(playlist_data("B")).unwrap();
    assert!(catalog.update_playlist_active_status(a, false));
    assert!(!catalog.playlists[0].is_active);
    assert!(catalog.playlists[1].is_active);
    let active = iptv_catalog::refresh::active_playlist_ids(&catalog);
    assert_eq!(active, vec![b]);
}

#[test]
fn batch_flag_updates_touch_only_the_listed_channels() {
    let (mut catalog, _) = setup(4);
    catalog.batch_update_channel_visibility(&vec![1, 3], true);
    let hidden: Vec<i64> =
        catalog.channels.iter().filter(|c| c.is_hidden).map(|c| c.id).collect();
    assert_eq!(hidden, vec![1, 3]);
    catalog.batch_update_channel_favorite_status(&vec![2], true);
    let favs: Vec<i64> =
        catalog.channels.iter().filter(|c| c.is_favorite).map(|c| c.id).collect();
    assert_eq!(favs, vec![2]);
}

#[test]
fn category_visibility_toggles_and_batches() {
    let (mut catalog, _) = setup(2);
    let cid = catalog.categories[0].id;
    assert!(catalog.toggle_category_visibility(cid));
    assert!(catalog.categories[0].is_hidden);
    assert!(catalog.toggle_category_visibility(cid));
    assert!(!catalog.categories[0].is_hidden);
    catalog.batch_update_category_visibility(&vec![cid], true);
    assert!(catalog.categories[0].is_hidden);
    assert!(!catalog.toggle_category_visibility(9999));
}

#[test]
fn watch_history_rejects_unknown_channels() {
    let (mut catalog, _) = setup(1);
    assert!(!catalog.add_to_recently_watched(999, "2024-01-01T00:00:00+00:00"));
    assert!(catalog.recently_watched.is_empty());
    // stamping the same channel twice keeps a single row
    assert!(catalog.add_to_recently_watched(1, "2024-01-01T00:00:00+00:00"));
    assert!(catalog.add_to_recently_watched(1, "2024-01-01T01:00:00+00:00"));
    assert_eq!(catalog.recently_watched.len(), 1);
    assert_eq!(catalog.recently_watched[0].last_watched, "2024-01-01T01:00:00+00:00");
}
