# yamusic

The verified core of a terminal client for a music streaming service.

`src/` is the library, checked by Verus:

- `text`: characters, decimal numbers as `str::parse::<u64>` reads them,
  Unicode white space and trimming.
- `lrc`: the parser of synced lyrics (LRC), with the laws that its output is
  ordered by time, stable for equal times, trimmed, and that two texts
  joined by a newline parse to the stable merge of their results.
- `lyrics`: which lyric lines are kept for a track, and under which names.
- `disk_cache`: which track ids may name files, how a cached track is found,
  the files a download is written to (and that `cached_path` finds exactly
  the audio of known codecs), and the metadata kept beside it.
- `config`: the cache mode and the run's configuration slot.
- `cover`: greatest common divisor and the layout of the cover art and of
  the lyric box under it.
- `mpris`: decisions of the bridge to the desktop media controls.
- `stream`: where the audio of a track is taken from.

`app/` holds the file I/O, the serde forms of the library's types, and the
conversions to and from the streaming client's and the media server's types.
