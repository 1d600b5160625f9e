//! The synced-lyrics cache: which lines of an LRC text are kept for a track,
//! and under which file names.
use vstd::prelude::*;
use crate::disk_cache::{spec_valid_id, valid_id};
use crate::lrc::{entries_view, parse_lrc, spec_parse_lrc, Entry};

verus! {

/// One line of synced lyrics: when it is sung, in milliseconds, and its words.
#[derive(Debug)]
pub struct LyricLine {
    pub timestamp: u64,
    pub line: String,
}

/// The lyrics kept for a track and the files they go to: `id.json`, written
/// first under `id.json.tmp` and then renamed.
#[derive(Debug)]
pub struct SyncedLyrics {
    pub lines: Vec<LyricLine>,
    pub file: String,
    pub tmp_file: String,
}

/// The view of a list of lyric lines.
pub open spec fn lines_view(v: Seq<LyricLine>) -> Seq<Entry> {
    v.map_values(|l: LyricLine| (l.timestamp, l.line@))
}

/// What is kept of the LRC text `lrc` for the track `track_id`: its timed
/// lines, ordered by time, as `parse_lrc` gives them. `None` when nothing is
/// kept: the id may not name files, or the text has no timed line.
pub fn synced_lyrics(track_id: &str, lrc: &str) -> (r: Option<SyncedLyrics>)
    ensures
        r is None <==> !spec_valid_id(track_id@) || spec_parse_lrc(lrc@).len() == 0,
        r matches Some(s) ==> {
            &&& lines_view(s.lines@) == spec_parse_lrc(lrc@)
            &&& s.file@ == track_id@ + ".json"@
            &&& s.tmp_file@ == track_id@ + ".json"@ + ".tmp"@
        },
{
    if !valid_id(track_id) {
        return None;
    }
    let parsed = parse_lrc(lrc);
    if parsed.len() == 0 {
        return None;
    }
    let mut lines: Vec<LyricLine> = Vec::new();
    let mut i: usize = 0;
    while i < parsed.len()
        invariant
            i <= parsed.len(),
            lines@.len() == i,
            lines_view(lines@) == entries_view(parsed@).take(i as int),
        decreases parsed.len() - i,
    {
        let ghost old_lines = lines@;
        lines.push(LyricLine { timestamp: parsed[i].0, line: parsed[i].1.clone() });
        proof {
            assert forall|k: int| 0 <= k < i implies lines_view(lines@)[k] == entries_view(
                parsed@,
            )[k] by {
                assert(lines@[k] == old_lines[k]);
                assert(lines_view(old_lines)[k] == entries_view(parsed@).take(i as int)[k]);
            }
            assert(lines_view(lines@) =~= entries_view(parsed@).take(i + 1));
        }
        i += 1;
    }
    assert(entries_view(parsed@).take(i as int) =~= entries_view(parsed@));
    let mut file = track_id.to_owned();
    file.append(".json");
    let mut tmp_file = file.clone();
    tmp_file.append(".tmp");
    Some(SyncedLyrics { lines, file, tmp_file })
}

} // verus!
