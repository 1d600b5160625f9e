//! Where the audio of a track comes from, in the order the player prefers:
//! the disk cache, a session opened ahead of time, a known stream address,
//! or an address asked of the service.
use vstd::prelude::*;

verus! {

/// Where the player takes the audio of a track from.
#[derive(Clone, Copy, Debug, PartialEq, Eq, Structural)]
pub enum SessionSource {
    /// The file in the disk cache.
    DiskCache,
    /// The session opened ahead of time for this track, taken out of the
    /// ahead-of-time store.
    Prewarmed,
    /// A stream from the address remembered for this track.
    CachedUrl,
    /// A stream from an address asked of the service, then remembered.
    FetchUrl,
}

/// The source of a track's audio, by what is at hand.
pub open spec fn source_of(on_disk: bool, prewarmed: bool, url_known: bool) -> SessionSource {
    if on_disk {
        SessionSource::DiskCache
    } else if prewarmed {
        SessionSource::Prewarmed
    } else if url_known {
        SessionSource::CachedUrl
    } else {
        SessionSource::FetchUrl
    }
}

/// The source of a track's audio: the disk cache when the track is there,
/// else a session opened ahead of time, else a stream from a remembered
/// address, else a stream from an address asked of the service.
pub fn session_source(on_disk: bool, prewarmed: bool, url_known: bool) -> (r: SessionSource)
    ensures
        r == source_of(on_disk, prewarmed, url_known),
{
    if on_disk {
        SessionSource::DiskCache
    } else if prewarmed {
        SessionSource::Prewarmed
    } else if url_known {
        SessionSource::CachedUrl
    } else {
        SessionSource::FetchUrl
    }
}

/// Where the address of a track to download into the disk cache comes from.
#[derive(Clone, Copy, Debug, PartialEq, Eq, Structural)]
pub enum DownloadUrl {
    /// The address remembered for the track.
    Remembered,
    /// An address asked of the service, then remembered.
    Fetched,
}

/// How a track is downloaded into the disk cache, by what is at hand.
pub open spec fn plan_of(on_disk: bool, url_known: bool) -> Option<DownloadUrl> {
    if on_disk {
        None
    } else if url_known {
        Some(DownloadUrl::Remembered)
    } else {
        Some(DownloadUrl::Fetched)
    }
}

/// How a track is downloaded into the disk cache: not at all when it is
/// there already; else from the remembered address, or one asked of the
/// service.
pub fn download_plan(on_disk: bool, url_known: bool) -> (r: Option<DownloadUrl>)
    ensures
        r == plan_of(on_disk, url_known),
{
    if on_disk {
        None
    } else if url_known {
        Some(DownloadUrl::Remembered)
    } else {
        Some(DownloadUrl::Fetched)
    }
}

/// A track in the disk cache is played from there, whatever else is at hand;
/// a track not there is played from a session opened ahead of time when there
/// is one; otherwise from the remembered address when there is one, and only
/// when there is none is the service asked.
pub proof fn law_source_preference(prewarmed: bool, url_known: bool)
    ensures
        source_of(true, prewarmed, url_known) == SessionSource::DiskCache,
        source_of(false, true, url_known) == SessionSource::Prewarmed,
        source_of(false, false, true) == SessionSource::CachedUrl,
        source_of(false, false, false) == SessionSource::FetchUrl,
{
}

/// A track already in the disk cache is never downloaded again; one that is
/// not is downloaded from the remembered address when there is one, and only
/// otherwise from an address asked of the service.
pub proof fn law_download_plan(url_known: bool)
    ensures
        plan_of(true, url_known) is None,
        plan_of(false, true) == Some(DownloadUrl::Remembered),
        plan_of(false, false) == Some(DownloadUrl::Fetched),
{
}

} // verus!
