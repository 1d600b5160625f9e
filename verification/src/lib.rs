//! Verified core of a terminal music player: the synced-lyrics (LRC)
//! parser, the on-disk cache naming rules, the player configuration and
//! the decisions of the media-control bridge and the cover layout.
use vstd::prelude::*;

pub mod text;
pub mod lrc;
pub mod disk_cache;
pub mod lyrics;
pub mod config;
pub mod cover;
pub mod mpris;
pub mod stream;

verus! {

} // verus!
