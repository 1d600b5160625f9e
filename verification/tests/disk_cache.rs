use yamusic::disk_cache::{
    cache_files, cached_path, is_cached, meta_of, valid_id, AlbumInfo, TrackDuration, TrackInfo,
};

#[test]
fn ids_that_may_name_files() {
    assert!(valid_id("12345"));
    assert!(valid_id("123:456"));
    assert!(!valid_id(""));
    assert!(!valid_id("a/b"));
    assert!(!valid_id("a\\b"));
}

#[test]
fn finds_the_first_known_extension_present() {
    let present = |name: &str| name == "42.flac" || name == "42.ogg";
    assert_eq!(
        cached_path("42", present),
        Some(("42.flac".to_string(), "flac".to_string()))
    );
    assert!(is_cached("42", present));
}

#[test]
fn nothing_cached() {
    let present = |_: &str| false;
    assert_eq!(cached_path("42", present), None);
    assert!(!is_cached("42", present));
}

#[test]
fn invalid_id_is_never_cached() {
    let present = |_: &str| true;
    assert_eq!(cached_path("../x", present), None);
    assert!(!is_cached("", present));
}

#[test]
fn cache_file_names() {
    let f = cache_files("42", "mp3", 10).unwrap();
    assert_eq!(f.audio, "42.mp3");
    assert_eq!(f.audio_tmp, "42.mp3.tmp");
    assert_eq!(f.meta, "42.meta.json");
    assert_eq!(f.meta_tmp, "42.meta.json.tmp");
    let f = cache_files("42", "", 1).unwrap();
    assert_eq!(f.audio, "42.bin");
    assert!(cache_files("42", "mp3", 0).is_none());
    assert!(cache_files("4/2", "mp3", 10).is_none());
}

#[test]
fn metadata_of_a_track() {
    let track = TrackInfo {
        id: "7".to_string(),
        title: Some("Song".to_string()),
        artist_names: vec![Some("A".to_string()), None, Some("B".to_string())],
        albums: vec![
            AlbumInfo { title: Some("Album".to_string()), cover_uri: Some("album/%%".to_string()) },
            AlbumInfo { title: Some("Other".to_string()), cover_uri: None },
        ],
        cover_uri: None,
        duration: Some(TrackDuration { secs: 61, subsec_nanos: 999_999_999 }),
    };
    let m = meta_of(&track);
    assert_eq!(m.id, "7");
    assert_eq!(m.title.as_deref(), Some("Song"));
    assert_eq!(m.artists, vec!["A".to_string(), "B".to_string()]);
    assert_eq!(m.album.as_deref(), Some("Album"));
    assert_eq!(m.cover_uri.as_deref(), Some("album/%%"));
    assert_eq!(m.duration_ms, Some(61_999));
}

#[test]
fn track_cover_wins_over_album_cover() {
    let track = TrackInfo {
        id: "7".to_string(),
        title: None,
        artist_names: vec![],
        albums: vec![],
        cover_uri: Some("track/%%".to_string()),
        duration: None,
    };
    let m = meta_of(&track);
    assert_eq!(m.cover_uri.as_deref(), Some("track/%%"));
    assert!(m.album.is_none());
    assert!(m.artists.is_empty());
    assert!(m.duration_ms.is_none());
}

#[test]
fn written_audio_of_a_known_codec_is_found() {
    let files = cache_files("42", "flac", 5).unwrap();
    let written = files.audio.clone();
    let present = |name: &str| name == written;
    assert_eq!(cached_path("42", present), Some((files.audio.clone(), "flac".to_string())));
}

#[test]
fn written_audio_of_another_codec_is_not_found() {
    for codec in ["", "mp4", "webm"] {
        let files = cache_files("42", codec, 5).unwrap();
        let written = files.audio.clone();
        let present = |name: &str| name == written;
        assert_eq!(cached_path("42", present), None);
    }
}
