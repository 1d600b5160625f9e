//! Decisions of the bridge to the desktop's media controls (MPRIS): what the
//! player reports, when it tells the desktop of a change, and which player
//! command a control request turns into.
use vstd::prelude::*;
use crate::disk_cache::{
    first_album_title, opt_view, present_names, strings_view, TrackInfo,
};

verus! {

/// The playback state that the player reports.
#[derive(Clone, Copy, Debug, PartialEq, Eq, Structural)]
pub enum PlayStatus {
    Playing,
    Paused,
    Stopped,
}

/// The playback state reported for a player that is `is_stopped` or `is_playing`.
pub open spec fn status_of(is_stopped: bool, is_playing: bool) -> PlayStatus {
    if is_stopped {
        PlayStatus::Stopped
    } else if is_playing {
        PlayStatus::Playing
    } else {
        PlayStatus::Paused
    }
}

/// The playback state of a player that is `is_stopped` or `is_playing`:
/// stopped wins over playing, and a player that is neither is paused.
pub fn playback_status(is_stopped: bool, is_playing: bool) -> (r: PlayStatus)
    ensures
        r == status_of(is_stopped, is_playing),
{
    if is_stopped {
        PlayStatus::Stopped
    } else if is_playing {
        PlayStatus::Playing
    } else {
        PlayStatus::Paused
    }
}

// ---------------------------------------------------------------------------
// Polling the player
// ---------------------------------------------------------------------------

/// What the bridge last told the desktop.
#[derive(Debug)]
pub struct PollState {
    pub last_status: Option<PlayStatus>,
    /// The id of the track last announced; `Some(None)` when that was no track.
    pub last_track_id: Option<Option<String>>,
    pub last_volume: Option<u8>,
    pub last_pos_ms: i64,
}

/// What the player shows at one poll.
#[derive(Debug)]
pub struct Observation {
    pub status: PlayStatus,
    pub track_id: Option<String>,
    pub volume: u8,
    pub pos_ms: i64,
}

/// What to tell the desktop after one poll.
#[derive(Debug)]
pub struct PollActions {
    /// A new playback state to report.
    pub set_status: Option<PlayStatus>,
    /// Whether the track changed, so that its metadata is to be sent anew.
    pub refresh_metadata: bool,
    /// A new volume, in percent, to report.
    pub set_volume: Option<u8>,
    /// The position to report, every poll.
    pub position_ms: i64,
    /// Whether the position jumped, so that a `Seeked` signal is due.
    pub seeked: bool,
}

/// How far the position may move between two polls before it counts as a jump.
pub const SEEK_EPSILON_MS: i64 = 1200;

/// Before any poll: nothing told yet.
pub fn initial_poll_state() -> (r: PollState)
    ensures
        r.last_status is None,
        r.last_track_id is None,
        r.last_volume is None,
        r.last_pos_ms == 0,
{
    PollState { last_status: None, last_track_id: None, last_volume: None, last_pos_ms: 0 }
}

/// The view of an optional track id.
pub open spec fn id_view(o: Option<Option<String>>) -> Option<Option<Seq<char>>> {
    match o {
        Some(i) => Some(opt_view(i)),
        None => None,
    }
}

/// The track of `obs` is not the one last announced.
pub open spec fn track_changed(state: PollState, obs: Observation) -> bool {
    id_view(state.last_track_id) != Some(opt_view(obs.track_id))
}

/// The position against which a jump is measured: the last one, or 0 when
/// the track changed.
pub open spec fn previous_pos(state: PollState, obs: Observation) -> int {
    if track_changed(state, obs) {
        0
    } else {
        state.last_pos_ms as int
    }
}

/// The distance between two positions.
pub open spec fn distance(a: int, b: int) -> int {
    if a >= b {
        a - b
    } else {
        b - a
    }
}

fn same_id(a: &Option<String>, b: &Option<String>) -> (r: bool)
    ensures
        r == (opt_view(*a) == opt_view(*b)),
{
    match (a, b) {
        (Some(x), Some(y)) => x.eq(y),
        (None, None) => true,
        _ => false,
    }
}

fn clone_id(a: &Option<String>) -> (r: Option<String>)
    ensures
        opt_view(r) == opt_view(*a),
{
    match a {
        Some(x) => Some(x.clone()),
        None => None,
    }
}

/// One poll: compares what the player shows with what the desktop was last
/// told, says what to tell it now, and records that. The state, track and
/// volume are reported when they changed; the position every time, with a
/// jump signal when it moved more than `SEEK_EPSILON_MS` from the last one
/// (from 0 after a track change).
pub fn poll_step(state: &mut PollState, obs: Observation) -> (r: PollActions)
    ensures
        r.set_status == if old(state).last_status == Some(obs.status) {
            None
        } else {
            Some(obs.status)
        },
        r.refresh_metadata == track_changed(*old(state), obs),
        r.set_volume == if old(state).last_volume == Some(obs.volume) {
            None
        } else {
            Some(obs.volume)
        },
        r.position_ms == obs.pos_ms,
        r.seeked == (distance(obs.pos_ms as int, previous_pos(*old(state), obs)) > SEEK_EPSILON_MS),
        final(state).last_status == Some(obs.status),
        id_view(final(state).last_track_id) == Some(opt_view(obs.track_id)),
        final(state).last_volume == Some(obs.volume),
        final(state).last_pos_ms == obs.pos_ms,
{
    let set_status = if state.last_status == Some(obs.status) {
        None
    } else {
        state.last_status = Some(obs.status);
        Some(obs.status)
    };
    let changed = match &state.last_track_id {
        Some(last) => !same_id(last, &obs.track_id),
        None => true,
    };
    if changed {
        state.last_track_id = Some(clone_id(&obs.track_id));
        state.last_pos_ms = 0;
    }
    let set_volume = if state.last_volume == Some(obs.volume) {
        None
    } else {
        state.last_volume = Some(obs.volume);
        Some(obs.volume)
    };
    let diff: i128 = obs.pos_ms as i128 - state.last_pos_ms as i128;
    let seeked = diff > SEEK_EPSILON_MS as i128 || diff < -(SEEK_EPSILON_MS as i128);
    state.last_pos_ms = obs.pos_ms;
    PollActions {
        set_status,
        refresh_metadata: changed,
        set_volume,
        position_ms: obs.pos_ms,
        seeked,
    }
}

/// A poll that finds the player as the previous poll left the record (same
/// state, track, volume and position) reports nothing new and no jump.
pub proof fn law_poll_quiet_when_unchanged(state: PollState, obs: Observation)
    requires
        state.last_status == Some(obs.status),
        id_view(state.last_track_id) == Some(opt_view(obs.track_id)),
        state.last_volume == Some(obs.volume),
        state.last_pos_ms == obs.pos_ms,
    ensures
        !track_changed(state, obs),
        !(distance(obs.pos_ms as int, previous_pos(state, obs)) > SEEK_EPSILON_MS),
{
}

/// The track's metadata is sent anew exactly when the observed track is not
/// the one last announced: always at the first poll; for two tracks with
/// ids, exactly when the ids differ; and when a track appears or goes away.
/// After such a change a jump is measured from position 0, otherwise from
/// the last position.
pub proof fn law_poll_refreshes_on_new_track(state: PollState, obs: Observation)
    ensures
        state.last_track_id is None ==> track_changed(state, obs),
        state.last_track_id matches Some(Some(a)) ==> (obs.track_id matches Some(b) ==> (
        track_changed(state, obs) <==> a@ != b@)),
        (state.last_track_id matches Some(Some(a)) && obs.track_id is None) ==> track_changed(
            state,
            obs,
        ),
        (state.last_track_id matches Some(None) && obs.track_id is Some) ==> track_changed(
            state,
            obs,
        ),
        (state.last_track_id matches Some(None) && obs.track_id is None) ==> !track_changed(
            state,
            obs,
        ),
        track_changed(state, obs) ==> previous_pos(state, obs) == 0,
        !track_changed(state, obs) ==> previous_pos(state, obs) == state.last_pos_ms,
{
}

// ---------------------------------------------------------------------------
// Control requests
// ---------------------------------------------------------------------------

/// A request of the desktop's media controls.
#[derive(Clone, Copy, Debug, PartialEq, Eq, Structural)]
pub enum ControlRequest {
    Play,
    Pause,
    Stop,
    PlayPause,
    Next,
    Previous,
    /// Move by this many milliseconds, back when negative.
    Seek(i64),
    /// Go to this position, in milliseconds.
    SetPosition(i64),
}

/// The player command that a control request becomes.
#[derive(Clone, Copy, Debug, PartialEq, Eq, Structural)]
pub enum PlayerCommand {
    Resume,
    Pause,
    Next,
    Previous,
    /// Go to this position, in milliseconds.
    Seek(u32),
}

/// A position in milliseconds as the player takes it: the low 32 bits of a
/// position that is not negative.
pub open spec fn seek_ms(target: int) -> u32 {
    (target % 0x1_0000_0000) as u32
}

/// Where a relative seek from `position_ms` by `offset_ms` lands: not before
/// the start and, when the length is known (not 0), not after the end.
pub open spec fn seek_target(position_ms: i64, offset_ms: i64, duration_ms: i64) -> int {
    let t = position_ms + offset_ms;
    let t = if t < 0 {
        0
    } else {
        t
    };
    if duration_ms > 0 && t > duration_ms {
        duration_ms as int
    } else {
        t
    }
}

/// The command for a control request, for a player that `is_playing` at
/// `position_ms` in a track of `duration_ms` (0 when not known).
pub open spec fn command_of(request: ControlRequest, is_playing: bool, position_ms: i64, duration_ms: i64) -> PlayerCommand {
    match request {
        ControlRequest::Play => PlayerCommand::Resume,
        ControlRequest::Pause => PlayerCommand::Pause,
        ControlRequest::Stop => PlayerCommand::Pause,
        ControlRequest::PlayPause => if is_playing {
            PlayerCommand::Pause
        } else {
            PlayerCommand::Resume
        },
        ControlRequest::Next => PlayerCommand::Next,
        ControlRequest::Previous => PlayerCommand::Previous,
        ControlRequest::Seek(offset) => PlayerCommand::Seek(
            seek_ms(seek_target(position_ms, offset, duration_ms)),
        ),
        ControlRequest::SetPosition(p) => PlayerCommand::Seek(
            seek_ms(
                if p < 0 {
                    0
                } else {
                    p as int
                },
            ),
        ),
    }
}

/// The command for a control request, for a player that `is_playing` at
/// `position_ms` in a track of `duration_ms` (0 when not known). Play-pause
/// pauses a playing player and resumes any other; stop pauses.
pub fn command_for(request: ControlRequest, is_playing: bool, position_ms: i64, duration_ms: i64) -> (r:
    PlayerCommand)
    ensures
        r == command_of(request, is_playing, position_ms, duration_ms),
{
    match request {
        ControlRequest::Play => PlayerCommand::Resume,
        ControlRequest::Pause => PlayerCommand::Pause,
        ControlRequest::Stop => PlayerCommand::Pause,
        ControlRequest::PlayPause => if is_playing {
            PlayerCommand::Pause
        } else {
            PlayerCommand::Resume
        },
        ControlRequest::Next => PlayerCommand::Next,
        ControlRequest::Previous => PlayerCommand::Previous,
        ControlRequest::Seek(offset) => {
            let sum: i128 = position_ms as i128 + offset as i128;
            let t: i128 = if sum < 0 {
                0
            } else {
                sum
            };
            let t: i128 = if duration_ms > 0 && t > duration_ms as i128 {
                duration_ms as i128
            } else {
                t
            };
            PlayerCommand::Seek((t % 0x1_0000_0000) as u32)
        },
        ControlRequest::SetPosition(p) => {
            let t: i64 = if p < 0 {
                0
            } else {
                p
            };
            PlayerCommand::Seek((t % 0x1_0000_0000) as u32)
        },
    }
}

/// A relative seek lands exactly at the position plus the offset whenever
/// that lies in the track (not before the start, and not after the end when
/// the length is known), and such a position is sent as it is.
pub proof fn law_seek_lands_at_offset(position_ms: i64, offset_ms: i64, duration_ms: i64)
    ensures
        (0 <= position_ms + offset_ms && (duration_ms <= 0 || position_ms + offset_ms
            <= duration_ms)) ==> seek_target(position_ms, offset_ms, duration_ms) == position_ms
            + offset_ms,
        position_ms + offset_ms < 0 ==> seek_target(position_ms, offset_ms, duration_ms) == 0,
        (duration_ms > 0 && position_ms + offset_ms > duration_ms) ==> seek_target(
            position_ms,
            offset_ms,
            duration_ms,
        ) == duration_ms,
        forall|t: int| 0 <= t < 0x1_0000_0000 ==> #[trigger] seek_ms(t) == t,
{
}

/// A relative seek never lands before the start, nor after the end of a track
/// whose length is known.
pub proof fn law_seek_stays_in_track(position_ms: i64, offset_ms: i64, duration_ms: i64)
    ensures
        0 <= seek_target(position_ms, offset_ms, duration_ms),
        duration_ms > 0 ==> seek_target(position_ms, offset_ms, duration_ms) <= duration_ms,
{
}

// ---------------------------------------------------------------------------
// Track metadata
// ---------------------------------------------------------------------------

/// A valid D-Bus object path: `/`, or `/` followed by elements of ASCII
/// letters, digits and `_`, one or more each, joined by single `/`.
pub open spec fn valid_object_path(s: Seq<char>) -> bool {
    &&& s.len() > 0
    &&& s[0] == '/'
    &&& (s.len() == 1 || s.last() != '/')
    &&& forall|i: int| 0 <= i < s.len() ==> is_path_char(#[trigger] s[i])
    &&& forall|i: int| 1 <= i < s.len() && #[trigger] s[i] == '/' ==> s[i - 1] != '/'
}

/// A character that may stand in an object path.
pub open spec fn is_path_char(c: char) -> bool {
    ('a' <= c && c <= 'z') || ('A' <= c && c <= 'Z') || ('0' <= c && c <= '9') || c == '_' || c
        == '/'
}

/// Whether `zbus::ObjectPath::try_from` accepts `s` (re-exported by
/// `mpris-server`): its validator in `zbus_utils::object_path` parses a `/`
/// and then elements of ASCII alphanumerics and `_` separated by `/`, and
/// fails unless that takes the whole input; this contract states that rule.
#[verifier::external_body]
fn object_path_ok(s: &str) -> (r: bool)
    ensures
        r == valid_object_path(s@),
{
    mpris_server::zbus::ObjectPath::try_from(s).is_ok()
}

/// The object path under which the track `id` is announced.
pub open spec fn track_path_of(id: Seq<char>) -> Seq<char> {
    "/org/mpris/MediaPlayer2/yamusic/track/"@ + id
}

/// The object path of the track `id`, when it is a valid one; `None` stands
/// for the "no track" path.
pub fn track_object_path(id: &str) -> (r: Option<String>)
    ensures
        r is Some <==> valid_object_path(track_path_of(id@)),
        r matches Some(p) ==> p@ == track_path_of(id@),
{
    let mut path = "/org/mpris/MediaPlayer2/yamusic/track/".to_owned();
    path.append(id);
    if object_path_ok(path.as_str()) {
        Some(path)
    } else {
        None
    }
}

/// The metadata announced for a track.
#[derive(Debug)]
pub struct MetadataFields {
    pub track_path: Option<String>,
    pub title: Option<String>,
    /// The artists' names, when at least one artist has a name.
    pub artists: Option<Vec<String>>,
    pub album: Option<String>,
    /// The length in microseconds, cut to an `i64` as `as i64` does.
    pub length_us: Option<i64>,
    pub art_url: Option<String>,
}

/// `n` cut to an `i64` as `as i64` does: its low 64 bits, read as a signed number.
pub open spec fn wrap_i64(n: int) -> int {
    let low = n % 0x1_0000_0000_0000_0000;
    if low >= 0x8000_0000_0000_0000 {
        low - 0x1_0000_0000_0000_0000
    } else {
        low
    }
}

/// The metadata of a track with the cover `cover_url`.
pub fn metadata_fields(track: &TrackInfo, cover_url: Option<String>) -> (r: MetadataFields)
    ensures
        r.track_path is Some <==> valid_object_path(track_path_of(track.id@)),
        r.track_path matches Some(p) ==> p@ == track_path_of(track.id@),
        opt_view(r.title) == opt_view(track.title),
        r.artists is Some <==> present_names(track.artist_names@).len() > 0,
        r.artists matches Some(a) ==> strings_view(a@) == present_names(track.artist_names@),
        opt_view(r.album) == first_album_title(*track),
        r.length_us == match track.duration {
            Some(d) => Some(wrap_i64(d.secs * 1_000_000 + d.subsec_nanos / 1000) as i64),
            None => None,
        },
        opt_view(r.art_url) == opt_view(cover_url),
{
    let track_path = track_object_path(track.id.as_str());
    let title = match &track.title {
        Some(t) => Some(t.clone()),
        None => None,
    };
    let meta = crate::disk_cache::meta_of(track);
    let artists = if meta.artists.len() > 0 {
        Some(meta.artists)
    } else {
        None
    };
    let length_us = match track.duration {
        Some(d) => {
            let micros: u128 = (d.secs as u128) * 1_000_000 + (d.subsec_nanos / 1000) as u128;
            let low: u128 = micros % 0x1_0000_0000_0000_0000u128;
            let signed: i128 = if low >= 0x8000_0000_0000_0000u128 {
                low as i128 - 0x1_0000_0000_0000_0000i128
            } else {
                low as i128
            };
            Some(signed as i64)
        },
        None => None,
    };
    MetadataFields { track_path, title, artists, album: meta.album, length_us, art_url: cover_url }
}

/// The distance between two positions is how far apart they are, either way.
pub proof fn law_distance(a: int, b: int)
    ensures
        distance(a, b) == distance(b, a),
        distance(a, b) >= 0,
        a >= b ==> distance(a, b) == a - b,
        distance(a, a) == 0,
{
}

/// A length that fits in an `i64` is announced as it is; a longer one wraps
/// around as `as i64` does.
pub proof fn law_wrap_i64(n: int)
    ensures
        0 <= n < 0x8000_0000_0000_0000 ==> wrap_i64(n) == n,
        0x8000_0000_0000_0000 <= n < 0x1_0000_0000_0000_0000 ==> wrap_i64(n) == n
            - 0x1_0000_0000_0000_0000,
{
}

/// A track whose id is made of ASCII letters and digits is announced under
/// its own path; an id with a character that may not stand in a path, or an
/// empty one, is announced as no track.
pub proof fn law_track_paths(id: Seq<char>)
    ensures
        (id.len() > 0 && forall|i: int|
            0 <= i < id.len() ==> (('a' <= #[trigger] id[i] && id[i] <= 'z') || ('A' <= id[i]
                && id[i] <= 'Z') || ('0' <= id[i] && id[i] <= '9'))) ==> valid_object_path(
            track_path_of(id),
        ),
        (exists|i: int| 0 <= i < id.len() && !is_path_char(#[trigger] id[i])) ==> !valid_object_path(
            track_path_of(id),
        ),
        id.len() == 0 ==> !valid_object_path(track_path_of(id)),
{
    reveal_strlit("/org/mpris/MediaPlayer2/yamusic/track/");
    let p = "/org/mpris/MediaPlayer2/yamusic/track/"@;
    let s = track_path_of(id);
    assert(p.len() == 38);
    assert forall|i: int| 0 <= i < id.len() implies s[p.len() + i] == #[trigger] id[i] by {}
    if id.len() > 0 && forall|i: int|
        0 <= i < id.len() ==> (('a' <= #[trigger] id[i] && id[i] <= 'z') || ('A' <= id[i] && id[i]
            <= 'Z') || ('0' <= id[i] && id[i] <= '9')) {
        assert(s.last() == id[id.len() - 1]);
        assert forall|i: int| 0 <= i < s.len() implies is_path_char(#[trigger] s[i]) by {
            if i >= p.len() {
                assert(s[i] == id[i - p.len()]);
            }
        }
        assert forall|i: int| 1 <= i < s.len() && #[trigger] s[i] == '/' implies s[i - 1] != '/' by {
            if i >= p.len() {
                assert(s[i] == id[i - p.len()]);
            }
        }
    }
    if exists|i: int| 0 <= i < id.len() && !is_path_char(#[trigger] id[i]) {
        let i = choose|i: int| 0 <= i < id.len() && !is_path_char(#[trigger] id[i]);
        assert(s[p.len() + i] == id[i]);
    }
    if id.len() == 0 {
        assert(s =~= p);
        assert(s.last() == '/');
    }
}

/// A stopped player is reported stopped, whether or not it is playing; a
/// player that is not stopped is reported playing when it plays and paused
/// otherwise.
pub proof fn law_status(is_playing: bool)
    ensures
        status_of(true, is_playing) == PlayStatus::Stopped,
        status_of(false, true) == PlayStatus::Playing,
        status_of(false, false) == PlayStatus::Paused,
{
}

/// Play resumes, pause and stop pause, play-pause turns a playing player to
/// paused and any other to playing, next and previous move in the queue, and
/// a seek or a position goes to a position, a negative one to the start.
pub proof fn law_commands(is_playing: bool, position_ms: i64, duration_ms: i64, offset_ms: i64, p: i64)
    ensures
        command_of(ControlRequest::Play, is_playing, position_ms, duration_ms) == PlayerCommand::Resume,
        command_of(ControlRequest::Pause, is_playing, position_ms, duration_ms) == PlayerCommand::Pause,
        command_of(ControlRequest::Stop, is_playing, position_ms, duration_ms) == PlayerCommand::Pause,
        command_of(ControlRequest::PlayPause, true, position_ms, duration_ms) == PlayerCommand::Pause,
        command_of(ControlRequest::PlayPause, false, position_ms, duration_ms)
            == PlayerCommand::Resume,
        command_of(ControlRequest::Next, is_playing, position_ms, duration_ms) == PlayerCommand::Next,
        command_of(ControlRequest::Previous, is_playing, position_ms, duration_ms)
            == PlayerCommand::Previous,
        command_of(ControlRequest::Seek(offset_ms), is_playing, position_ms, duration_ms)
            == PlayerCommand::Seek(seek_ms(seek_target(position_ms, offset_ms, duration_ms))),
        0 <= p < 0x1_0000_0000 ==> command_of(
            ControlRequest::SetPosition(p),
            is_playing,
            position_ms,
            duration_ms,
        ) == PlayerCommand::Seek(p as u32),
        p < 0 ==> command_of(ControlRequest::SetPosition(p), is_playing, position_ms, duration_ms)
            == PlayerCommand::Seek(0),
{
}

} // verus!
