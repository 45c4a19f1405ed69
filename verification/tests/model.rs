use m3trans::raw;
use m3trans::parse::{parse_u64, u64_to_dec};
use m3trans::paths::PathStack;
use m3trans::{Library, ParseError, PlaylistKind};

fn pl(pid: &str, parent: Option<&str>, name: &str, items: Vec<u64>) -> raw::Playlist {
    raw::Playlist {
        persistent_id: pid.to_string(),
        parent_id: parent.map(|s| s.to_string()),
        name: name.to_string(),
        items,
        is_folder: false,
        is_master: false,
        distinguished_kind: None,
    }
}

fn tr(name: &str, location: &str, duration_ms: u32) -> raw::Track {
    raw::Track { name: name.to_string(), location: location.to_string(), duration_ms }
}

#[test]
fn parse_hex_and_decimal() {
    assert_eq!(parse_u64("ff", 16), Some(255));
    assert_eq!(parse_u64("FF01", 16), Some(0xFF01));
    assert_eq!(parse_u64("+a", 16), Some(10));
    assert_eq!(parse_u64("", 16), None);
    assert_eq!(parse_u64("+", 16), None);
    assert_eq!(parse_u64("g1", 16), None);
    assert_eq!(parse_u64("ffffffffffffffff", 16), Some(u64::MAX));
    assert_eq!(parse_u64("1ffffffffffffffff", 16), None);
    assert_eq!(parse_u64("007", 10), Some(7));
    assert_eq!(parse_u64("12abc", 10), None);
    assert_eq!(parse_u64("18446744073709551615", 10), Some(u64::MAX));
    assert_eq!(parse_u64("18446744073709551616", 10), None);
}

#[test]
fn decimal_rendering() {
    assert_eq!(u64_to_dec(0), "0");
    assert_eq!(u64_to_dec(7), "7");
    assert_eq!(u64_to_dec(12345), "12345");
    assert_eq!(u64_to_dec(u64::MAX), "18446744073709551615");
}

#[test]
fn kind_classification_precedence() {
    let mut p = pl("1", None, "a", vec![]);
    p.is_master = true;
    p.is_folder = true;
    p.distinguished_kind = Some(4);
    let parsed = m3trans::Playlist::from_raw(p, 0).unwrap();
    assert_eq!(parsed.kind, PlaylistKind::Master);

    let mut p = pl("1", None, "a", vec![]);
    p.is_folder = true;
    p.distinguished_kind = Some(4);
    assert_eq!(m3trans::Playlist::from_raw(p, 0).unwrap().kind, PlaylistKind::Folder);

    let mut p = pl("1", None, "a", vec![]);
    p.distinguished_kind = Some(4);
    assert_eq!(m3trans::Playlist::from_raw(p, 0).unwrap().kind, PlaylistKind::Unknown(4));

    let p = pl("1", None, "a", vec![]);
    assert_eq!(m3trans::Playlist::from_raw(p, 0).unwrap().kind, PlaylistKind::Generic);
}

#[test]
fn invalid_ids_are_fatal() {
    let bad = raw::Library { tracks: vec![], playlists: vec![pl("xyz!", None, "a", vec![])] };
    assert_eq!(Library::from_raw(bad).unwrap_err(), ParseError::InvalidPlaylistId);

    let bad_parent = raw::Library {
        tracks: vec![],
        playlists: vec![pl("1", Some("nothex!"), "a", vec![])],
    };
    assert_eq!(Library::from_raw(bad_parent).unwrap_err(), ParseError::InvalidPlaylistId);

    let bad_track = raw::Library {
        tracks: vec![("notdec".to_string(), tr("t", "file://localhost/a.mp3", 1000))],
        playlists: vec![],
    };
    assert_eq!(Library::from_raw(bad_track).unwrap_err(), ParseError::InvalidTrackId);

    let bad_utf8 = raw::Library {
        tracks: vec![("1".to_string(), tr("t", "file://localhost/%FF%FE", 1000))],
        playlists: vec![],
    };
    assert_eq!(Library::from_raw(bad_utf8).unwrap_err(), ParseError::NonUtf8Path);
}

#[test]
fn locations_are_percent_decoded() {
    let lib = Library::from_raw(raw::Library {
        tracks: vec![("9".to_string(), tr("Song", "file://localhost/My%20Song.mp3", 1000))],
        playlists: vec![],
    })
    .unwrap();
    assert_eq!(lib.tracks[&9].location, "file://localhost/My Song.mp3");
    assert_eq!(lib.tracks[&9].name, "Song");
    assert_eq!(lib.tracks[&9].duration_ms, 1000);
}

#[test]
fn sibling_order_follows_import_sequence() {
    // Children share parent 0xF; their ids would sort the other way round,
    // so the visit order can only come from the import positions.
    let lib = Library::from_raw(raw::Library {
        tracks: vec![],
        playlists: vec![
            pl("f", None, "folder", vec![]),
            pl("30", Some("f"), "first", vec![]),
            pl("10", Some("f"), "second", vec![]),
        ],
    })
    .unwrap();
    let visits = lib.visit_playlists();
    assert_eq!(visits, vec![(0xf, 0), (0x30, 1), (0x10, 1)]);
}

#[test]
fn traversal_is_deterministic() {
    let lib = Library::from_raw(raw::Library {
        tracks: vec![],
        playlists: vec![
            pl("1", None, "a", vec![]),
            pl("2", Some("1"), "b", vec![]),
            pl("3", Some("2"), "c", vec![]),
            pl("4", None, "d", vec![]),
        ],
    })
    .unwrap();
    assert_eq!(lib.visit_playlists(), lib.visit_playlists());
}

#[test]
fn depths_follow_parents() {
    let lib = Library::from_raw(raw::Library {
        tracks: vec![],
        playlists: vec![
            pl("1", None, "root", vec![]),
            pl("2", Some("1"), "child", vec![]),
            pl("3", Some("2"), "grandchild", vec![]),
            pl("4", Some("1"), "child2", vec![]),
            pl("5", None, "root2", vec![]),
        ],
    })
    .unwrap();
    let visits = lib.visit_playlists();
    assert_eq!(
        visits,
        vec![(1, 0), (2, 1), (3, 2), (4, 1), (5, 0)],
    );
}

#[test]
fn path_stack_lengths() {
    // For the depth sequence [0,1,2,1,0] the stack lengths run [1,2,3,2,1].
    let mut ps = PathStack::new();
    let names = ["a", "b", "c", "d", "e"];
    let depths = [0usize, 1, 2, 1, 0];
    let expect_len = [1usize, 2, 3, 2, 1];
    let expect_path = ["a", "a/b", "a/b/c", "a/d", "e"];
    for k in 0..5 {
        ps.push_visit(names[k], depths[k]);
        assert_eq!(ps.names.len(), expect_len[k]);
        assert_eq!(ps.joined(), expect_path[k]);
    }
}

#[test]
fn duplicate_ids_last_record_wins() {
    let lib = Library::from_raw(raw::Library {
        tracks: vec![],
        playlists: vec![pl("7", None, "old", vec![]), pl("7", None, "new", vec![])],
    })
    .unwrap();
    assert_eq!(lib.playlists.len(), 1);
    assert_eq!(lib.playlists[&7].name, "new");
    assert_eq!(lib.visit_playlists(), vec![(7, 0)]);
}
