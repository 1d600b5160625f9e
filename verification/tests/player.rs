use yamusic::cover::{cover_rect, gcd, lyric_box, Area};
use yamusic::mpris::{
    command_for, initial_poll_state, playback_status, poll_step, track_object_path,
    ControlRequest, Observation, PlayStatus, PlayerCommand,
};
use yamusic::stream::{download_plan, session_source, DownloadUrl, SessionSource};

#[test]
fn gcd_values() {
    assert_eq!(gcd(8, 16), 8);
    assert_eq!(gcd(9, 6), 3);
    assert_eq!(gcd(7, 0), 7);
    assert_eq!(gcd(0, 0), 1);
}

#[test]
fn cover_is_square_and_centred() {
    let area = Area { x: 0, y: 0, width: 100, height: 50 };
    let c = cover_rect(area, 8, 16, 500, 500, 22, false).unwrap();
    assert_eq!(c, Area { x: 28, y: 14, width: 44, height: 22 });
    assert_eq!(c.width as u32 * 8, c.height as u32 * 16);
    let c = cover_rect(area, 8, 16, 500, 500, 22, true).unwrap();
    assert_eq!(c, Area { x: 28, y: 12, width: 44, height: 22 });
}

#[test]
fn cover_limited_by_picture_and_empty_area() {
    let area = Area { x: 2, y: 3, width: 100, height: 50 };
    let c = cover_rect(area, 10, 20, 100, 400, 22, false).unwrap();
    assert_eq!(c, Area { x: 47, y: 25, width: 10, height: 5 });
    assert_eq!(cover_rect(Area { x: 0, y: 0, width: 0, height: 50 }, 8, 16, 500, 500, 22, false), None);
    assert_eq!(cover_rect(Area { x: 0, y: 0, width: 1, height: 50 }, 8, 16, 500, 500, 22, false), None);
}

#[test]
fn lyric_box_under_cover() {
    let area = Area { x: 0, y: 0, width: 100, height: 50 };
    let cover = Area { x: 28, y: 14, width: 44, height: 22 };
    assert_eq!(lyric_box(area, cover, "hello"), Area { x: 45, y: 37, width: 9, height: 3 });
    assert_eq!(lyric_box(area, cover, "日本"), Area { x: 46, y: 37, width: 8, height: 3 });
    let narrow = Area { x: 0, y: 0, width: 6, height: 50 };
    assert_eq!(lyric_box(narrow, cover, "a long line"), Area { x: 0, y: 37, width: 6, height: 3 });
}

#[test]
fn status_reported() {
    assert_eq!(playback_status(true, true), PlayStatus::Stopped);
    assert_eq!(playback_status(false, true), PlayStatus::Playing);
    assert_eq!(playback_status(false, false), PlayStatus::Paused);
}

#[test]
fn commands_for_requests() {
    assert_eq!(command_for(ControlRequest::Play, true, 0, 0), PlayerCommand::Resume);
    assert_eq!(command_for(ControlRequest::Stop, true, 0, 0), PlayerCommand::Pause);
    assert_eq!(command_for(ControlRequest::PlayPause, true, 0, 0), PlayerCommand::Pause);
    assert_eq!(command_for(ControlRequest::PlayPause, false, 0, 0), PlayerCommand::Resume);
    assert_eq!(command_for(ControlRequest::Seek(5000), true, 1000, 3000), PlayerCommand::Seek(3000));
    assert_eq!(command_for(ControlRequest::Seek(-5000), true, 1000, 3000), PlayerCommand::Seek(0));
    assert_eq!(command_for(ControlRequest::Seek(5000), true, 1000, 0), PlayerCommand::Seek(6000));
    assert_eq!(command_for(ControlRequest::SetPosition(-3), true, 0, 0), PlayerCommand::Seek(0));
    assert_eq!(command_for(ControlRequest::SetPosition(1234), true, 0, 0), PlayerCommand::Seek(1234));
}

#[test]
fn polling_reports_changes_once() {
    let mut st = initial_poll_state();
    let obs = || Observation {
        status: PlayStatus::Playing,
        track_id: Some("1".to_string()),
        volume: 80,
        pos_ms: 5000,
    };
    let a = poll_step(&mut st, obs());
    assert_eq!(a.set_status, Some(PlayStatus::Playing));
    assert!(a.refresh_metadata);
    assert_eq!(a.set_volume, Some(80));
    assert!(a.seeked);
    let b = poll_step(&mut st, obs());
    assert_eq!(b.set_status, None);
    assert!(!b.refresh_metadata);
    assert_eq!(b.set_volume, None);
    assert!(!b.seeked);
    assert_eq!(b.position_ms, 5000);
    let mut later = obs();
    later.pos_ms = 6000;
    assert!(!poll_step(&mut st, later).seeked);
}

#[test]
fn track_paths() {
    assert_eq!(
        track_object_path("123").as_deref(),
        Some("/org/mpris/MediaPlayer2/yamusic/track/123")
    );
    assert_eq!(track_object_path("12:3"), None);
    assert_eq!(track_object_path(""), None);
}

#[test]
fn audio_sources_in_order() {
    assert_eq!(session_source(true, true, true), SessionSource::DiskCache);
    assert_eq!(session_source(false, true, true), SessionSource::Prewarmed);
    assert_eq!(session_source(false, false, true), SessionSource::CachedUrl);
    assert_eq!(session_source(false, false, false), SessionSource::FetchUrl);
    assert_eq!(download_plan(true, true), None);
    assert_eq!(download_plan(false, true), Some(DownloadUrl::Remembered));
    assert_eq!(download_plan(false, false), Some(DownloadUrl::Fetched));
}
