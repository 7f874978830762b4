use iptv_catalog::sanitize::sanitize_name;

#[test]
fn strips_quality_and_region_tokens() {
    assert_eq!(sanitize_name("ESPN HD (US)"), "espn");
    assert_eq!(sanitize_name("espnhd"), "espn");
    assert_eq!(sanitize_name("ESPN HD (US)"), sanitize_name("espnhd"));
}

#[test]
fn idempotent_on_token_free_keys() {
    let cases = ["ESPN HD (US)", "CNN International", "BBC One [UK]", "TF1 4K HEVC"];
    for name in cases {
        let once = sanitize_name(name);
        let twice = sanitize_name(&once);
        assert_eq!(once, twice);
    }
}

#[test]
fn punctuation_can_splice_a_token_together() {
    // "h-d" collapses to "hd", which a second pass would remove: the
    // idempotence law holds only of keys free of the removal tokens.
    assert_eq!(sanitize_name("h-d"), "hd");
    assert_eq!(sanitize_name("hd"), "");
}

#[test]
fn iterative_bracket_removal() {
    assert_eq!(sanitize_name("Sky (One) (Two) Extra"), "skyextra");
    assert_eq!(sanitize_name("Alpha [x] [y] Beta"), "alphabeta");
}

#[test]
fn unterminated_bracket_is_kept() {
    assert_eq!(sanitize_name("News (live"), "newslive");
    assert_eq!(sanitize_name("News [live"), "newslive");
}

#[test]
fn token_order_longer_before_substring() {
    // "fhd" goes before "hd", so "Channel FHD" loses the whole token.
    assert_eq!(sanitize_name("Channel FHD"), "channel");
    assert_eq!(sanitize_name("Channel UHD"), "channel");
    assert_eq!(sanitize_name("US: Discovery SD"), "discovery");
}

#[test]
fn drops_non_alphanumerics() {
    assert_eq!(sanitize_name("A&E + Más!"), "aems");
}
