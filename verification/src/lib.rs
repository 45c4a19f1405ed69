pub mod ignore;
pub mod index;
pub mod library;
pub mod parse;
pub mod paths;
pub mod pipeline;
pub mod raw;
pub mod traverse;

pub use library::{Library, Playlist};
pub use raw::Track;

use vstd::prelude::*;

verus! {

/// How a playlist behaves in the output: a master list, a folder of other
/// playlists, an ordinary playlist of tracks, or a distinguished system
/// playlist identified by a numeric code.
#[derive(Debug, Clone, Copy, PartialEq, Eq, Structural)]
pub enum PlaylistKind {
    Master,
    Folder,
    Generic,
    Unknown(u64),
}

/// Why an import cannot be turned into a library.
#[derive(Debug, Clone, Copy, PartialEq, Eq, Structural)]
pub enum ParseError {
    InvalidPlaylistId,
    InvalidTrackId,
    NonUtf8Path,
}

} // verus!
