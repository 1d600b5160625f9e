//! The on-disk cache of downloaded tracks: which track ids may name files,
//! which file names a cached track may have, how a cached track is found, and
//! the metadata kept beside it.
use vstd::prelude::*;
use crate::text::chars_of;

verus! {

/// How many audio file extensions a cached track may have.
pub const KNOWN_EXT_COUNT: usize = 7;

/// The audio file extensions of cached tracks, in the order they are looked for.
pub open spec fn known_exts() -> Seq<Seq<char>> {
    seq!["mp3"@, "aac"@, "m4a"@, "flac"@, "opus"@, "ogg"@, "wav"@]
}

/// A track id may name cache files: it is not empty and holds no path separator.
pub open spec fn spec_valid_id(id: Seq<char>) -> bool {
    id.len() > 0 && !id.contains('/') && !id.contains('\\')
}

/// The name of the file `id.ext`.
pub open spec fn cache_file_name(id: Seq<char>, ext: Seq<char>) -> Seq<char> {
    id + "."@ + ext
}

/// Whether `track_id` may name cache files.
pub fn valid_id(track_id: &str) -> (r: bool)
    ensures
        r == spec_valid_id(track_id@),
{
    let chars = chars_of(track_id);
    if chars.len() == 0 {
        return false;
    }
    let mut i: usize = 0;
    while i < chars.len()
        invariant
            i <= chars.len(),
            chars@ == track_id@,
            forall|j: int| 0 <= j < i ==> chars@[j] != '/' && chars@[j] != '\\',
        decreases chars.len() - i,
    {
        if chars[i] == '/' || chars[i] == '\\' {
            assert(track_id@.contains(chars@[i as int]));
            return false;
        }
        i += 1;
    }
    true
}

/// The `i`-th known audio file extension.
pub fn known_ext(i: usize) -> (r: &'static str)
    requires
        i < KNOWN_EXT_COUNT,
    ensures
        r@ == known_exts()[i as int],
{
    match i {
        0 => "mp3",
        1 => "aac",
        2 => "m4a",
        3 => "flac",
        4 => "opus",
        5 => "ogg",
        _ => "wav",
    }
}

/// The file name `id.ext`.
pub fn file_name(id: &str, ext: &str) -> (r: String)
    ensures
        r@ == cache_file_name(id@, ext@),
{
    let mut name = id.to_owned();
    name.append(".");
    name.append(ext);
    name
}

/// `probe`, called with a name whose view is `name`, answered `answer`.
pub open spec fn probed<F: Fn(&str) -> bool>(probe: F, name: Seq<char>, answer: bool) -> bool {
    exists|s: &str| s@ == name && #[trigger] probe.ensures((s,), answer)
}

/// The cached audio file of a track: the first of `id.mp3`, `id.aac`, ...,
/// `id.wav` for which `is_file` says a file of that name is in the cache
/// directory, with its extension. `None` for an id that may not name files,
/// and when none is there.
pub fn cached_path<F: Fn(&str) -> bool>(track_id: &str, is_file: F) -> (r: Option<(String, String)>)
    requires
        forall|s: &str| #[trigger] is_file.requires((s,)),
    ensures
        !spec_valid_id(track_id@) ==> r is None,
        r matches Some((name, ext)) ==> {
            &&& spec_valid_id(track_id@)
            &&& exists|i: int|
                0 <= i < KNOWN_EXT_COUNT && ext@ == known_exts()[i] && name@ == cache_file_name(
                    track_id@,
                    known_exts()[i],
                ) && probed(is_file, name@, true) && forall|j: int|
                    0 <= j < i ==> probed(
                        is_file,
                        #[trigger] cache_file_name(track_id@, known_exts()[j]),
                        false,
                    )
        },
        (r is None && spec_valid_id(track_id@)) ==> forall|j: int|
            0 <= j < KNOWN_EXT_COUNT ==> probed(
                is_file,
                #[trigger] cache_file_name(track_id@, known_exts()[j]),
                false,
            ),
{
    if !valid_id(track_id) {
        return None;
    }
    let mut i: usize = 0;
    while i < KNOWN_EXT_COUNT
        invariant
            i <= KNOWN_EXT_COUNT,
            spec_valid_id(track_id@),
            forall|s: &str| #[trigger] is_file.requires((s,)),
            forall|j: int|
                0 <= j < i ==> probed(
                    is_file,
                    #[trigger] cache_file_name(track_id@, known_exts()[j]),
                    false,
                ),
        decreases KNOWN_EXT_COUNT - i,
    {
        let ext = known_ext(i);
        let name = file_name(track_id, ext);
        let here = is_file(name.as_str());
        if here {
            let owned_ext = ext.to_owned();
            assert(probed(is_file, name@, true));
            assert(0 <= i < KNOWN_EXT_COUNT && owned_ext@ == known_exts()[i as int] && name@
                == cache_file_name(track_id@, known_exts()[i as int]));
            return Some((name, owned_ext));
        }
        assert(probed(is_file, cache_file_name(track_id@, known_exts()[i as int]), false));
        i += 1;
    }
    None
}

/// Whether a track is in the cache: `cached_path` finds a file for it.
pub fn is_cached<F: Fn(&str) -> bool>(track_id: &str, is_file: F) -> (r: bool)
    requires
        forall|s: &str| #[trigger] is_file.requires((s,)),
    ensures
        !spec_valid_id(track_id@) ==> !r,
        r ==> exists|i: int|
            0 <= i < KNOWN_EXT_COUNT && probed(
                is_file,
                #[trigger] cache_file_name(track_id@, known_exts()[i]),
                true,
            ),
        (!r && spec_valid_id(track_id@)) ==> forall|j: int|
            0 <= j < KNOWN_EXT_COUNT ==> probed(
                is_file,
                #[trigger] cache_file_name(track_id@, known_exts()[j]),
                false,
            ),
{
    let found = cached_path(track_id, is_file);
    match found {
        Some(p) => {
            proof {
                let i = choose|i: int|
                    0 <= i < KNOWN_EXT_COUNT && p.1@ == known_exts()[i] && p.0@ == cache_file_name(
                        track_id@,
                        known_exts()[i],
                    ) && probed(is_file, p.0@, true) && forall|j: int|
                        0 <= j < i ==> probed(
                            is_file,
                            #[trigger] cache_file_name(track_id@, known_exts()[j]),
                            false,
                        );
                assert(probed(is_file, cache_file_name(track_id@, known_exts()[i]), true));
            }
            true
        },
        None => false,
    }
}

// ---------------------------------------------------------------------------
// Metadata kept beside a cached track
// ---------------------------------------------------------------------------

/// The length of a track as `std::time::Duration` holds it.
#[derive(Clone, Copy, Debug)]
pub struct TrackDuration {
    pub secs: u64,
    pub subsec_nanos: u32,
}

/// An album of a track, as far as the cache reads it.
#[derive(Debug)]
pub struct AlbumInfo {
    pub title: Option<String>,
    pub cover_uri: Option<String>,
}

/// A track of the streaming service, as far as the cache reads it.
#[derive(Debug)]
pub struct TrackInfo {
    pub id: String,
    pub title: Option<String>,
    /// The name of each artist, in order; an artist may have none.
    pub artist_names: Vec<Option<String>>,
    pub albums: Vec<AlbumInfo>,
    pub cover_uri: Option<String>,
    pub duration: Option<TrackDuration>,
}

/// The metadata written beside a cached track.
#[derive(Debug)]
pub struct TrackMeta {
    pub id: String,
    pub title: Option<String>,
    pub artists: Vec<String>,
    pub album: Option<String>,
    pub cover_uri: Option<String>,
    pub duration_ms: Option<u64>,
}

/// The view of an optional string.
pub open spec fn opt_view(o: Option<String>) -> Option<Seq<char>> {
    match o {
        Some(s) => Some(s@),
        None => None,
    }
}

/// The names that are there, in order.
pub open spec fn present_names(names: Seq<Option<String>>) -> Seq<Seq<char>>
    decreases names.len(),
{
    if names.len() == 0 {
        seq![]
    } else {
        let before = present_names(names.drop_last());
        match names.last() {
            Some(n) => before.push(n@),
            None => before,
        }
    }
}

/// The views of a list of strings.
pub open spec fn strings_view(v: Seq<String>) -> Seq<Seq<char>> {
    v.map_values(|s: String| s@)
}

/// Whole milliseconds of a duration, as `Duration::as_millis` counts them,
/// cut to 64 bits as `as u64` does.
pub open spec fn duration_millis(d: TrackDuration) -> u64 {
    ((d.secs * 1000 + d.subsec_nanos / 1_000_000) % 0x1_0000_0000_0000_0000) as u64
}

/// The title of the first album, if there is an album and it has one.
pub open spec fn first_album_title(t: TrackInfo) -> Option<Seq<char>> {
    if t.albums@.len() > 0 {
        opt_view(t.albums@[0].title)
    } else {
        None
    }
}

/// The track's cover, or else the first album's.
pub open spec fn cover_of(t: TrackInfo) -> Option<Seq<char>> {
    match t.cover_uri {
        Some(c) => Some(c@),
        None => if t.albums@.len() > 0 {
            opt_view(t.albums@[0].cover_uri)
        } else {
            None
        },
    }
}

fn clone_opt(o: &Option<String>) -> (r: Option<String>)
    ensures
        opt_view(r) == opt_view(*o),
{
    match o {
        Some(s) => Some(s.clone()),
        None => None,
    }
}

/// The metadata of a track that the cache writes beside its audio: id, title,
/// the names of the artists that have one, the first album's title, the
/// track's cover (or else the first album's) and the length in milliseconds.
pub fn meta_of(track: &TrackInfo) -> (r: TrackMeta)
    ensures
        r.id@ == track.id@,
        opt_view(r.title) == opt_view(track.title),
        strings_view(r.artists@) == present_names(track.artist_names@),
        opt_view(r.album) == first_album_title(*track),
        opt_view(r.cover_uri) == cover_of(*track),
        r.duration_ms == match track.duration {
            Some(d) => Some(duration_millis(d)),
            None => None,
        },
{
    let mut artists: Vec<String> = Vec::new();
    let mut i: usize = 0;
    while i < track.artist_names.len()
        invariant
            i <= track.artist_names.len(),
            strings_view(artists@) == present_names(track.artist_names@.take(i as int)),
        decreases track.artist_names.len() - i,
    {
        let ghost names = track.artist_names@;
        assert(names.take(i + 1).drop_last() =~= names.take(i as int));
        match &track.artist_names[i] {
            Some(n) => {
                artists.push(n.clone());
                assert(strings_view(artists@) =~= present_names(names.take(i as int)).push(n@));
            },
            None => {},
        }
        i += 1;
    }
    assert(track.artist_names@.take(i as int) =~= track.artist_names@);
    let album = if track.albums.len() > 0 {
        clone_opt(&track.albums[0].title)
    } else {
        None
    };
    let cover_uri = match &track.cover_uri {
        Some(c) => Some(c.clone()),
        None => if track.albums.len() > 0 {
            clone_opt(&track.albums[0].cover_uri)
        } else {
            None
        },
    };
    let duration_ms = match track.duration {
        Some(d) => {
            let total: u128 = (d.secs as u128) * 1000 + (d.subsec_nanos / 1_000_000) as u128;
            Some((total % 0x1_0000_0000_0000_0000u128) as u64)
        },
        None => None,
    };
    TrackMeta {
        id: track.id.clone(),
        title: clone_opt(&track.title),
        artists,
        album,
        cover_uri,
        duration_ms,
    }
}

// ---------------------------------------------------------------------------
// Writing a track into the cache
// ---------------------------------------------------------------------------

/// The files that writing a track into the cache makes: the audio under
/// `id.ext`, the metadata under `id.meta.json`, each first written under a
/// `.tmp` name and then renamed.
#[derive(Debug)]
pub struct CacheFiles {
    pub audio: String,
    pub audio_tmp: String,
    pub meta: String,
    pub meta_tmp: String,
}

/// The extension under which audio of the codec `codec` is cached.
pub open spec fn audio_ext(codec: Seq<char>) -> Seq<char> {
    if codec.len() == 0 {
        "bin"@
    } else {
        codec
    }
}

fn joined(a: &str, b: &str) -> (r: String)
    ensures
        r@ == a@ + b@,
{
    let mut s = a.to_owned();
    s.append(b);
    s
}

/// The files under which `byte_count` bytes of audio of a track in the codec
/// `codec` go into the cache; `None` when nothing is written: the id may not
/// name files, or there are no bytes.
pub fn cache_files(track_id: &str, codec: &str, byte_count: usize) -> (r: Option<CacheFiles>)
    ensures
        r is None <==> !spec_valid_id(track_id@) || byte_count == 0,
        r matches Some(f) ==> {
            let audio = cache_file_name(track_id@, audio_ext(codec@));
            &&& f.audio@ == audio
            &&& f.audio_tmp@ == audio + ".tmp"@
            &&& f.meta@ == track_id@ + ".meta.json"@
            &&& f.meta_tmp@ == track_id@ + ".meta.json"@ + ".tmp"@
        },
{
    if !valid_id(track_id) || byte_count == 0 {
        return None;
    }
    let ext = if codec.is_empty() {
        "bin"
    } else {
        codec
    };
    let audio = file_name(track_id, ext);
    let audio_tmp = joined(audio.as_str(), ".tmp");
    let meta = joined(track_id, ".meta.json");
    let meta_tmp = joined(meta.as_str(), ".tmp");
    Some(CacheFiles { audio, audio_tmp, meta, meta_tmp })
}

proof fn lemma_file_name_cancels(id: Seq<char>, x: Seq<char>, y: Seq<char>)
    requires
        cache_file_name(id, x) == cache_file_name(id, y),
    ensures
        x == y,
{
    let k = id.len() + "."@.len();
    let n = cache_file_name(id, x);
    assert(n.subrange(k as int, n.len() as int) =~= x);
    assert(n.subrange(k as int, n.len() as int) =~= y);
}

/// What `cache_files` writes is what `cached_path` finds: audio of a codec
/// that is one of the known extensions goes under the very name that
/// `cached_path` probes for that extension, and audio of any other codec
/// (an empty codec is written as `bin`) goes under a name that `cached_path`
/// never probes.
pub proof fn law_written_audio_found(id: Seq<char>, codec: Seq<char>)
    ensures
        forall|i: int|
            0 <= i < KNOWN_EXT_COUNT && codec == known_exts()[i] ==> #[trigger] cache_file_name(
                id,
                known_exts()[i],
            ) == cache_file_name(id, audio_ext(codec)),
        (forall|i: int| 0 <= i < KNOWN_EXT_COUNT ==> codec != #[trigger] known_exts()[i]) ==> forall|
            j: int,
        |
            0 <= j < KNOWN_EXT_COUNT ==> #[trigger] cache_file_name(id, known_exts()[j])
                != cache_file_name(id, audio_ext(codec)),
{
    reveal_strlit("mp3");
    reveal_strlit("aac");
    reveal_strlit("m4a");
    reveal_strlit("flac");
    reveal_strlit("opus");
    reveal_strlit("ogg");
    reveal_strlit("wav");
    reveal_strlit("bin");
    assert forall|i: int|
        0 <= i < KNOWN_EXT_COUNT && codec == known_exts()[i] implies #[trigger] cache_file_name(
        id,
        known_exts()[i],
    ) == cache_file_name(id, audio_ext(codec)) by {
        assert(known_exts()[i].len() > 0);
    }
    if forall|i: int| 0 <= i < KNOWN_EXT_COUNT ==> codec != #[trigger] known_exts()[i] {
        assert forall|j: int| 0 <= j < KNOWN_EXT_COUNT implies #[trigger] cache_file_name(
            id,
            known_exts()[j],
        ) != cache_file_name(id, audio_ext(codec)) by {
            if cache_file_name(id, known_exts()[j]) == cache_file_name(id, audio_ext(codec)) {
                lemma_file_name_cancels(id, known_exts()[j], audio_ext(codec));
                if codec.len() == 0 {
                    assert(known_exts()[j] != "bin"@) by {
                        assert(known_exts()[j].len() == 3 ==> known_exts()[j][0] != 'b');
                    }
                }
            }
        }
    }
}

/// The cache looks for a track's audio as `mp3`, `aac`, `m4a`, `flac`,
/// `opus`, `ogg` and `wav`, in that order: the first extension probed is
/// `mp3`, the last `wav`, and no other is probed.
pub proof fn law_probed_extensions()
    ensures
        KNOWN_EXT_COUNT == 7,
        known_exts().len() == KNOWN_EXT_COUNT,
        known_exts()[0] == "mp3"@,
        known_exts()[1] == "aac"@,
        known_exts()[2] == "m4a"@,
        known_exts()[3] == "flac"@,
        known_exts()[4] == "opus"@,
        known_exts()[5] == "ogg"@,
        known_exts()[6] == "wav"@,
{
}

/// The metadata's cover is the track's own cover when it has one, whatever
/// its albums hold; only a track without a cover takes its first album's,
/// and a track with neither has none.
pub proof fn law_track_cover_first(t: TrackInfo)
    ensures
        t.cover_uri matches Some(c) ==> cover_of(t) == Some(c@),
        t.cover_uri is None && t.albums@.len() > 0 ==> cover_of(t) == opt_view(
            t.albums@[0].cover_uri,
        ),
        t.cover_uri is None && t.albums@.len() == 0 ==> cover_of(t) is None,
{
}

/// A track id names files exactly when it is not empty and no character of
/// it is `/` or `\`.
pub proof fn law_valid_id(id: Seq<char>)
    ensures
        spec_valid_id(id) <==> (id.len() > 0 && forall|i: int|
            0 <= i < id.len() ==> #[trigger] id[i] != '/' && id[i] != '\\'),
{
    if id.len() > 0 && forall|i: int| 0 <= i < id.len() ==> #[trigger] id[i] != '/' && id[i] != '\\' {
        assert(!id.contains('/'));
        assert(!id.contains('\\'));
    }
}

/// A cache file's name is the id, a dot, and the extension; audio of an
/// empty codec is written with the extension `bin`, of any other codec with
/// the codec as extension.
pub proof fn law_file_names(id: Seq<char>, ext: Seq<char>, codec: Seq<char>)
    ensures
        cache_file_name(id, ext) == id + seq!['.'] + ext,
        codec.len() == 0 ==> audio_ext(codec) == seq!['b', 'i', 'n'],
        codec.len() > 0 ==> audio_ext(codec) == codec,
{
    reveal_strlit(".");
    reveal_strlit("bin");
}

/// The artists kept in the metadata are the names that are there, in their
/// order: a name adds itself at the end, a missing one adds nothing.
pub proof fn law_present_names(names: Seq<Option<String>>, n: String)
    ensures
        present_names(Seq::empty()) == Seq::<Seq<char>>::empty(),
        present_names(names.push(Some(n))) == present_names(names).push(n@),
        present_names(names.push(None)) == present_names(names),
{
    assert(names.push(Some(n)).drop_last() =~= names);
    assert(names.push(None::<String>).drop_last() =~= names);
}

/// The album kept in the metadata is the first album's title; a track with no
/// album has none.
pub proof fn law_first_album(t: TrackInfo)
    ensures
        t.albums@.len() > 0 ==> first_album_title(t) == opt_view(t.albums@[0].title),
        t.albums@.len() == 0 ==> first_album_title(t) is None,
{
}

/// The length kept in the metadata is the whole milliseconds of the track's
/// length: a thousand per second and one per million nanoseconds.
pub proof fn law_duration_millis(d: TrackDuration)
    ensures
        d.secs < 0x4_0000_0000_0000 ==> duration_millis(d) == d.secs * 1000 + d.subsec_nanos
            / 1_000_000,
{
}

} // verus!
