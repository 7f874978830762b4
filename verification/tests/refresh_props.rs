use iptv_catalog::model::{PlaylistKind, PlaylistStatus};
use iptv_catalog::refresh::{
    build_epg_url, build_live_categories_url, build_live_streams_url, coerce_stream_id,
    refresh_apply, refresh_begin, refresh_mark_error, FetchedCategory, FetchedStream, RawStreamId,
    RefreshError, RefreshPrep,
};
use iptv_catalog::store::{Catalog, NewPlaylistData};

fn playlist_data(user: Option<&str>, pass: Option<&str>) -> NewPlaylistData {
    NewPlaylistData {
        name: "Main".to_string(),
        url: "http://example.test/player_api.php".to_string(),
        kind: PlaylistKind::Xtream,
        error_message: None,
        username: user.map(|s| s.to_string()),
        password: pass.map(|s| s.to_string()),
        mac_address: None,
        max_connections: None,
        expiration_date: None,
        last_updated: None,
    }
}

fn stream(id: i64, name: &str, epg_id: Option<&str>) -> FetchedStream {
    FetchedStream {
        stream_id: RawStreamId::Num(Some(id)),
        name: name.to_string(),
        stream_icon: None,
        category_id: Some("7".to_string()),
        epg_channel_id: epg_id.map(|s| s.to_string()),
        }
}

fn one_category() -> Vec<FetchedCategory> {
    vec![FetchedCategory { category_id: "7".to_string(), category_name: "News".to_string() }]
}

#[test]
fn stream_id_coercion_is_permissive() {
    assert_eq!(coerce_stream_id(&RawStreamId::Num(Some(42))), 42);
    assert_eq!(coerce_stream_id(&RawStreamId::Num(None)), 0);
    assert_eq!(coerce_stream_id(&RawStreamId::Text("123".to_string())), 123);
    assert_eq!(coerce_stream_id(&RawStreamId::Text("+12".to_string())), 12);
    assert_eq!(coerce_stream_id(&RawStreamId::Text("-5".to_string())), -5);
    assert_eq!(coerce_stream_id(&RawStreamId::Text("12x".to_string())), 0);
    assert_eq!(coerce_stream_id(&RawStreamId::Text("".to_string())), 0);
    assert_eq!(coerce_stream_id(&RawStreamId::Text("9223372036854775807".to_string())), i64::MAX);
    assert_eq!(coerce_stream_id(&RawStreamId::Text("9223372036854775808".to_string())), 0);
    assert_eq!(coerce_stream_id(&RawStreamId::Text("-9223372036854775808".to_string())), i64::MIN);
    assert_eq!(coerce_stream_id(&RawStreamId::Other), 0);
}

#[test]
fn url_synthesis_cleans_the_base() {
    let cats = build_live_categories_url("  http://h.test/player_api.php  ", "u", "p");
    assert_eq!(
        cats,
        "http://h.test/player_api.php?username=u&password=p&action=get_live_categories"
    );
    let streams = build_live_streams_url("http://h.test", "u", "p");
    assert_eq!(
        streams,
        "http://h.test/player_api.php?username=u&password=p&action=get_live_streams"
    );
    let epg = build_epg_url("http://h.test/", "u", "p");
    assert_eq!(epg, "http://h.test/xmltv.php?username=u&password=p");
}

#[test]
fn begin_reports_missing_credentials() {
    let mut catalog = Catalog::new();
    let id = catalog.add_playlist(playlist_data(Some("u"), None)).unwrap();
    let r = refresh_begin(&mut catalog, id, "2024-01-01T00:00:00+00:00");
    assert!(matches!(r, Err(RefreshError::MissingCredentials)));
    let r2 = refresh_begin(&mut catalog, 999, "2024-01-01T00:00:00+00:00");
    assert!(matches!(r2, Err(RefreshError::PlaylistNotFound)));
}

#[test]
fn refresh_preserves_user_flags_for_surviving_ids() {
    let mut catalog = Catalog::new();
    let pid = catalog.add_playlist(playlist_data(Some("u"), Some("p"))).unwrap();
    let prep = refresh_begin(&mut catalog, pid, "t0").unwrap();
    refresh_apply(
        &mut catalog,
        pid,
        &prep,
        &one_category(),
        &vec![stream(101, "One", None), stream(102, "Two", None)],
        "t1",
    );
    assert!(catalog.toggle_channel_favorite(101));
    assert!(catalog.add_to_recently_watched(102, "2024-01-01T00:00:00+00:00"));

    // second refresh: 101 survives, 102 is gone
    let prep = refresh_begin(&mut catalog, pid, "t2").unwrap();
    refresh_apply(&mut catalog, pid, &prep, &one_category(), &vec![stream(101, "One", None)], "t3");

    let one = catalog.find_channel(101).expect("channel 101 must survive");
    assert!(catalog.channels[one].is_favorite);
    assert!(!catalog.channels[one].is_hidden);
    assert!(catalog.find_channel(102).is_none());
    assert!(catalog.recently_watched.iter().all(|r| r.channel_id != 102));
    assert_eq!(catalog.playlists[0].status, PlaylistStatus::Active);
}

#[test]
fn refresh_failure_is_atomic() {
    let mut catalog = Catalog::new();
    let pid = catalog.add_playlist(playlist_data(Some("u"), Some("p"))).unwrap();
    let prep = refresh_begin(&mut catalog, pid, "t0").unwrap();
    refresh_apply(&mut catalog, pid, &prep, &one_category(), &vec![stream(1, "A", None)], "t1");

    let channels_before: Vec<i64> = catalog.channels.iter().map(|c| c.id).collect();
    let categories_before: Vec<i64> = catalog.categories.iter().map(|c| c.id).collect();

    // a later refresh whose fetch fails after the credentials check
    let _ = refresh_begin(&mut catalog, pid, "t2").unwrap();
    refresh_mark_error(&mut catalog, pid, "connection reset", "t3");

    let channels_after: Vec<i64> = catalog.channels.iter().map(|c| c.id).collect();
    let categories_after: Vec<i64> = catalog.categories.iter().map(|c| c.id).collect();
    assert_eq!(channels_before, channels_after);
    assert_eq!(categories_before, categories_after);
    assert_eq!(catalog.playlists[0].status, PlaylistStatus::Failed);
    assert_eq!(catalog.playlists[0].error_message.as_deref(), Some("connection reset"));
}

#[test]
fn refresh_resolves_category_names_and_stream_urls() {
    let mut catalog = Catalog::new();
    let pid = catalog.add_playlist(playlist_data(Some(" user "), Some("pw"))).unwrap();
    let prep = refresh_begin(&mut catalog, pid, "t0").unwrap();
    assert_eq!(prep.username, "user");
    let mut unknown = stream(5, "Lost", None);
    unknown.category_id = Some("99".to_string());
    refresh_apply(
        &mut catalog,
        pid,
        &prep,
        &one_category(),
        &vec![stream(4, "Known", None), unknown, stream(0, "Invalid", None)],
        "t1",
    );
    let known = catalog.find_channel(4).unwrap();
    assert_eq!(catalog.channels[known].category, "News");
    assert_eq!(catalog.channels[known].stream_url, "http://example.test/user/pw/4");
    assert_eq!(catalog.channels[known].sort_order, 0);
    let lost = catalog.find_channel(5).unwrap();
    assert_eq!(catalog.channels[lost].category, "Uncategorized");
    assert_eq!(catalog.channels[lost].sort_order, 1);
    // the invalid zero id is excluded
    assert_eq!(catalog.channels.len(), 2);
    assert_eq!(catalog.categories.len(), 1);
    assert_eq!(catalog.categories[0].name, "News");
}

#[test]
fn recently_watched_caps_at_fifteen() {
    let mut catalog = Catalog::new();
    let pid = catalog.add_playlist(playlist_data(Some("u"), Some("p"))).unwrap();
    let prep = refresh_begin(&mut catalog, pid, "t0").unwrap();
    let streams: Vec<FetchedStream> =
        (1..=20).map(|i| stream(i, &format!("Ch {}", i), None)).collect();
    refresh_apply(&mut catalog, pid, &prep, &one_category(), &streams, "t1");
    for i in 1..=20i64 {
        assert!(catalog.add_to_recently_watched(i, &format!("2024-01-01T00:00:{:02}+00:00", i)));
    }
    assert_eq!(catalog.recently_watched.len(), 15);
    // the fifteen most recent stamps survive: channels 6..=20
    for i in 6..=20i64 {
        assert!(catalog.recently_watched.iter().any(|r| r.channel_id == i));
    }
    assert!(catalog.recently_watched.iter().all(|r| r.channel_id > 5));
}
