use iptv_catalog::epg::{
    reconcile_begin, reconcile_playlist, Programme, XmlChannelDef,
};
use iptv_catalog::model::PlaylistKind;
use iptv_catalog::refresh::{refresh_apply, refresh_begin, FetchedCategory, FetchedStream, RawStreamId};
use iptv_catalog::store::{Catalog, NewPlaylistData};
use iptv_catalog::timefmt::convert_to_iso;

fn playlist_data() -> NewPlaylistData {
    NewPlaylistData {
        name: "Main".to_string(),
        url: "http://h.test/".to_string(),
        kind: PlaylistKind::Xtream,
        error_message: None,
        username: Some("u".to_string()),
        password: Some("p".to_string()),
        mac_address: None,
        max_connections: None,
        expiration_date: None,
        last_updated: None,
    }
}

fn stream(id: i64, name: &str, epg_id: Option<&str>) -> FetchedStream {
    FetchedStream {
        stream_id: RawStreamId::Num(Some(id)),
        name: name.to_string(),
        stream_icon: None,
        category_id: None,
        epg_channel_id: epg_id.map(|s| s.to_string()),
    }
}

fn programme(channel: &str, title: &str, start: &str, stop: &str) -> Programme {
    Programme {
        start: start.to_string(),
        stop: stop.to_string(),
        channel: channel.to_string(),
        title: title.to_string(),
        desc: None,
    }
}

fn setup(streams: Vec<FetchedStream>) -> (Catalog, i64) {
    let mut catalog = Catalog::new();
    let pid = catalog.add_playlist(playlist_data()).unwrap();
    let prep = refresh_begin(&mut catalog, pid, "t0").unwrap();
    let cats: Vec<FetchedCategory> = Vec::new();
    refresh_apply(&mut catalog, pid, &prep, &cats, &streams, "t1");
    catalog
        .find_playlist(pid)
        .expect("playlist must exist");
    (catalog, pid)
}

#[test]
fn timestamp_waterfall_normalizes_to_one_instant() {
    let a = convert_to_iso("20241118120000 +0000");
    let b = convert_to_iso("20241118120000+0000");
    let c = convert_to_iso("20241118120000");
    assert_eq!(a, b);
    assert_eq!(b, c);
    assert_eq!(a, "2024-11-18T12:00:00+00:00");
    let shifted = convert_to_iso("20241118130000 +0100");
    assert_eq!(shifted, a);
}

#[test]
fn timestamp_fallback_passes_unknown_text_through() {
    assert_eq!(convert_to_iso("not a stamp"), "not a stamp");
    assert_eq!(convert_to_iso(""), "");
}

#[test]
fn id_match_takes_precedence_over_name_match() {
    // channel 1 carries the EPG id; channel 2's sanitized name matches the
    // programme's aliased display name. Only the id match may win.
    let (mut catalog, pid) = setup(vec![
        stream(1, "Alpha One", Some("abc")),
        stream(2, "News Channel", None),
    ]);
    let defs = vec![XmlChannelDef {
        id: "abc".to_string(),
        display_names: vec!["News Channel".to_string()],
    }];
    let progs = vec![programme("abc", "Morning Show", "20240101080000", "20240101090000")];
    reconcile_playlist(&mut catalog, pid, &defs, &progs);
    assert_eq!(catalog.epg_entries.len(), 1);
    assert_eq!(catalog.epg_entries[0].channel_id, 1);
    assert_eq!(catalog.epg_entries[0].title, "Morning Show");
    assert_eq!(catalog.epg_entries[0].start_time, "2024-01-01T08:00:00+00:00");
}

#[test]
fn name_fallback_runs_only_without_an_id_match() {
    let (mut catalog, pid) = setup(vec![stream(2, "News Channel HD", None)]);
    let defs = vec![XmlChannelDef {
        id: "xyz".to_string(),
        display_names: vec!["News Channel".to_string()],
    }];
    let progs = vec![programme("xyz", "Evening Show", "20240101200000", "20240101210000")];
    reconcile_playlist(&mut catalog, pid, &defs, &progs);
    assert_eq!(catalog.epg_entries.len(), 1);
    assert_eq!(catalog.epg_entries[0].channel_id, 2);
}

#[test]
fn unmatched_programme_inserts_nothing() {
    let (mut catalog, pid) = setup(vec![stream(1, "Alpha", Some("abc"))]);
    // no alias for "zzz", no channel with that EPG id
    let defs = vec![XmlChannelDef { id: "other".to_string(), display_names: Vec::new() }];
    let progs = vec![programme("zzz", "Nothing", "20240101080000", "20240101090000")];
    reconcile_playlist(&mut catalog, pid, &defs, &progs);
    assert_eq!(catalog.epg_entries.len(), 0);
}

#[test]
fn simulcast_fan_out_yields_distinct_entry_ids() {
    let (mut catalog, pid) = setup(vec![
        stream(10, "Sport SD", Some("abc")),
        stream(11, "Sport HD", Some("abc")),
    ]);
    let defs: Vec<XmlChannelDef> = Vec::new();
    let progs = vec![programme("abc", "The Match", "20240101080000", "20240101100000")];
    reconcile_playlist(&mut catalog, pid, &defs, &progs);
    assert_eq!(catalog.epg_entries.len(), 2);
    let ids: Vec<i64> = catalog.epg_entries.iter().map(|e| e.id).collect();
    assert_ne!(ids[0], ids[1]);
    let mut cids: Vec<i64> = catalog.epg_entries.iter().map(|e| e.channel_id).collect();
    cids.sort();
    assert_eq!(cids, vec![10, 11]);
}

#[test]
fn duplicate_keys_are_ignored_not_overwritten() {
    let (mut catalog, pid) = setup(vec![stream(1, "Alpha", Some("abc"))]);
    let defs: Vec<XmlChannelDef> = Vec::new();
    let progs = vec![
        programme("abc", "Show", "20240101080000", "20240101090000"),
        programme("abc", "Show", "20240101080000", "20240101090000"),
    ];
    reconcile_playlist(&mut catalog, pid, &defs, &progs);
    assert_eq!(catalog.epg_entries.len(), 1);
}

#[test]
fn reconcile_begin_wipes_globally_and_lists_eligible_playlists() {
    let (mut catalog, pid) = setup(vec![stream(1, "Alpha", Some("abc"))]);
    let defs: Vec<XmlChannelDef> = Vec::new();
    let progs = vec![programme("abc", "Show", "20240101080000", "20240101090000")];
    reconcile_playlist(&mut catalog, pid, &defs, &progs);
    assert_eq!(catalog.epg_entries.len(), 1);

    // an inactive playlist and one without credentials are not covered
    let mut no_creds = playlist_data();
    no_creds.username = None;
    let _skipped = catalog.add_playlist(no_creds).unwrap();

    let sources = reconcile_begin(&mut catalog);
    assert_eq!(catalog.epg_entries.len(), 0);
    assert_eq!(sources.len(), 1);
    assert_eq!(sources[0].playlist_id, pid);
    assert_eq!(sources[0].username, "u");
}
