use vstd::prelude::*;

verus! {

/// A track exactly as the importer hands it over: the location is still
/// percent-encoded.
#[derive(Debug, Clone)]
pub struct Track {
    pub name: String,
    pub location: String,
    pub duration_ms: u32,
}

/// A playlist record as imported: identifiers are hexadecimal strings and
/// the kind is still spread over two flags and an optional code.
#[derive(Debug, Clone)]
pub struct Playlist {
    pub persistent_id: String,
    pub parent_id: Option<String>,
    pub name: String,
    pub items: Vec<u64>,
    pub is_folder: bool,
    pub is_master: bool,
    pub distinguished_kind: Option<u64>,
}

/// The flat import: the track table as (decimal id, track) records, and the
/// playlist list in its original order.
#[derive(Debug, Clone)]
pub struct Library {
    pub tracks: Vec<(String, Track)>,
    pub playlists: Vec<Playlist>,
}

} // verus!
