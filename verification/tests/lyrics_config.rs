use yamusic::config::{cache_mode, get, init, CacheMode, Config};
use yamusic::lyrics::synced_lyrics;

#[test]
fn synced_lyrics_for_a_track() {
    let s = synced_lyrics("42", "[00:01.50]hello\n[00:03.00]world").unwrap();
    assert_eq!(s.file, "42.json");
    assert_eq!(s.tmp_file, "42.json.tmp");
    assert_eq!(s.lines.len(), 2);
    assert_eq!((s.lines[0].timestamp, s.lines[0].line.as_str()), (1500, "hello"));
    assert_eq!((s.lines[1].timestamp, s.lines[1].line.as_str()), (3000, "world"));
}

#[test]
fn nothing_kept_without_lines_or_with_a_bad_id() {
    assert!(synced_lyrics("42", "[ar:x]\nno times").is_none());
    assert!(synced_lyrics("4/2", "[00:01.00]a").is_none());
    assert!(synced_lyrics("", "[00:01.00]a").is_none());
}

#[test]
fn default_cache_mode_is_hotkey() {
    assert_eq!(Config::default().cache, CacheMode::Hotkey);
    assert_eq!(CacheMode::default(), CacheMode::Hotkey);
}

#[test]
fn init_sets_the_configuration_once() {
    let mut slot = None;
    init(&mut slot, Some(Config { cache: CacheMode::Auto }));
    init(&mut slot, Some(Config { cache: CacheMode::Off }));
    assert_eq!(get(&mut slot).cache, CacheMode::Auto);
    assert_eq!(cache_mode(&mut slot), CacheMode::Auto);
}

#[test]
fn unloaded_configuration_is_the_default() {
    let mut slot = None;
    init(&mut slot, None);
    assert_eq!(cache_mode(&mut slot), CacheMode::Hotkey);
    let mut empty = None;
    assert_eq!(cache_mode(&mut empty), CacheMode::Hotkey);
    assert_eq!(empty, Some(Config { cache: CacheMode::Hotkey }));
}
