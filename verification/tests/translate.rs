use std::collections::HashMap;

use m3trans::pipeline::{
    plan_emission, plan_track_copy, plan_translation, playlist_entries, EmitAction, TrackAction,
};
use m3trans::ignore::IgnoreList;
use m3trans::raw;
use m3trans::{Library, PlaylistKind};

fn pl(pid: &str, parent: Option<&str>, name: &str, items: Vec<u64>) -> raw::Playlist {
    raw::Playlist {
        persistent_id: pid.to_string(),
        parent_id: parent.map(|s| s.to_string()),
        name: name.to_string(),
        items,
        is_folder: false,
        is_master: false,
        distinguished_kind: None,
    }
}

fn tr(name: &str, location: &str, duration_ms: u32) -> raw::Track {
    raw::Track { name: name.to_string(), location: location.to_string(), duration_ms }
}

/// One master playlist, one folder "Rock" holding one generic "Favorites"
/// with two tracks.
fn rock_library() -> Library {
    let mut master = pl("a", None, "Library", vec![1, 2]);
    master.is_master = true;
    let mut rock = pl("b", None, "Rock", vec![]);
    rock.is_folder = true;
    let favorites = pl("c", Some("b"), "Favorites", vec![1, 2]);
    Library::from_raw(raw::Library {
        tracks: vec![
            ("1".to_string(), tr("One", "file://localhost/music/one.mp3", 61000)),
            ("2".to_string(), tr("Two", "file://localhost/music/two.mp3", 2000)),
        ],
        playlists: vec![master, rock, favorites],
    })
    .unwrap()
}

fn copied_paths(lib: &Library) -> HashMap<u64, String> {
    let mut remote = HashMap::new();
    for (id, track) in &lib.tracks {
        match plan_track_copy(*id, &track.location) {
            TrackAction::Copy { remote_rel, .. } => {
                remote.insert(*id, remote_rel);
            }
            TrackAction::UnknownScheme => {}
        }
    }
    remote
}

#[test]
fn track_copy_paths() {
    match plan_track_copy(5, "file://localhost/dir/song.ogg") {
        TrackAction::Copy { source, remote_rel } => {
            assert_eq!(source, "dir/song.ogg");
            assert_eq!(remote_rel, "tracks/5.ogg");
        }
        _ => panic!("expected a copy"),
    }
    match plan_track_copy(5, "file://localhost/noext") {
        TrackAction::Copy { source, remote_rel } => {
            assert_eq!(source, "noext");
            assert_eq!(remote_rel, "tracks/5");
        }
        _ => panic!("expected a copy"),
    }
    match plan_track_copy(5, "file://localhost/d/.hidden") {
        TrackAction::Copy { remote_rel, .. } => assert_eq!(remote_rel, "tracks/5"),
        _ => panic!("expected a copy"),
    }
    assert_eq!(
        plan_track_copy(5, "http://example.com/song.mp3"),
        TrackAction::UnknownScheme
    );
    assert_eq!(plan_track_copy(5, "file:/short"), TrackAction::UnknownScheme);
}

#[test]
fn round_trip_emission() {
    let lib = rock_library();
    let remote = copied_paths(&lib);
    assert_eq!(remote[&1], "tracks/1.mp3");
    assert_eq!(remote[&2], "tracks/2.mp3");

    let (ignores, bad) = IgnoreList::compile(&vec![]);
    assert!(bad.is_empty());
    let actions = plan_emission(&lib, &remote, &ignores);

    // The master playlist produces nothing; the folder a directory; the
    // generic playlist a file whose entries climb two levels back.
    assert_eq!(actions.len(), 2);
    match &actions[0] {
        EmitAction::Folder { path } => assert_eq!(path, "Rock"),
        other => panic!("expected folder, got {:?}", other),
    }
    match &actions[1] {
        EmitAction::PlaylistFile { path, entries } => {
            assert_eq!(path, "Rock/Favorites.m3u8");
            assert_eq!(entries.len(), 2);
            assert_eq!(entries[0].path, "../../tracks/1.mp3");
            assert_eq!(entries[0].name, "One");
            assert_eq!(entries[0].duration_ms, 61000);
            assert_eq!(entries[1].path, "../../tracks/2.mp3");
            assert_eq!(entries[1].name, "Two");
            assert_eq!(entries[1].duration_ms, 2000);
        }
        other => panic!("expected playlist file, got {:?}", other),
    }
}

#[test]
fn ignored_node_children_still_emitted() {
    let lib = rock_library();
    let remote = copied_paths(&lib);
    let (ignores, bad) = IgnoreList::compile(&vec!["R*ck".to_string()]);
    assert!(bad.is_empty());
    let actions = plan_emission(&lib, &remote, &ignores);
    assert_eq!(actions.len(), 2);
    match &actions[0] {
        EmitAction::Ignored { path } => assert_eq!(path, "Rock"),
        other => panic!("expected ignored, got {:?}", other),
    }
    match &actions[1] {
        EmitAction::PlaylistFile { path, .. } => assert_eq!(path, "Rock/Favorites.m3u8"),
        other => panic!("expected playlist file, got {:?}", other),
    }
}

#[test]
fn invalid_ignore_lines_are_discarded() {
    let lib = rock_library();
    let remote = copied_paths(&lib);
    let lines = vec!["[".to_string(), "Rock/*".to_string()];
    let (bad, actions) = plan_translation(&lib, &remote, &lines);
    assert_eq!(bad, vec!["[".to_string()]);
    // The surviving pattern hides the generic playlist but not the folder.
    assert_eq!(actions.len(), 2);
    assert!(matches!(&actions[0], EmitAction::Folder { path } if path == "Rock"));
    assert!(matches!(&actions[1], EmitAction::Ignored { path } if path == "Rock/Favorites"));
}

#[test]
fn uncopied_tracks_are_silently_omitted() {
    let lib = rock_library();
    let mut remote = copied_paths(&lib);
    remote.remove(&1);
    let favorites = &lib.playlists[&0xc];
    assert_eq!(favorites.kind, PlaylistKind::Generic);
    let entries = playlist_entries(&lib, &remote, 2, favorites);
    assert_eq!(entries.len(), 1);
    assert_eq!(entries[0].path, "../../tracks/2.mp3");
}

#[test]
fn dry_run_plans_identically() {
    // The plan is computed without touching the filesystem; a dry run and a
    // real run act on the same plan, so their decisions and reports match.
    let lib = rock_library();
    let remote = copied_paths(&lib);
    let (ignores, _) = IgnoreList::compile(&vec![]);
    let first = plan_emission(&lib, &remote, &ignores);
    let second = plan_emission(&lib, &remote, &ignores);
    assert_eq!(first, second);
}

#[test]
fn rerun_overwrites_and_never_deletes() {
    // Re-running over unchanged input plans the same artifacts at the same
    // paths (they are overwritten in place); a removed playlist simply
    // stops being planned, and no action ever deletes prior output.
    let lib1 = rock_library();
    let remote1 = copied_paths(&lib1);
    let (ignores, _) = IgnoreList::compile(&vec![]);
    let plan1 = plan_emission(&lib1, &remote1, &ignores);
    let lib2 = rock_library();
    let remote2 = copied_paths(&lib2);
    let plan2 = plan_emission(&lib2, &remote2, &ignores);
    assert_eq!(plan1, plan2);

    let mut master = pl("a", None, "Library", vec![1]);
    master.is_master = true;
    let mut rock = pl("b", None, "Rock", vec![]);
    rock.is_folder = true;
    let shrunk = Library::from_raw(raw::Library {
        tracks: vec![("1".to_string(), tr("One", "file://localhost/music/one.mp3", 61000))],
        playlists: vec![master, rock],
    })
    .unwrap();
    let plan3 = plan_emission(&shrunk, &copied_paths(&shrunk), &ignores);
    assert_eq!(plan3.len(), 1);
    assert!(matches!(&plan3[0], EmitAction::Folder { path } if path == "Rock"));
    // Every possible action creates or reports; none removes.
    for a in &plan3 {
        assert!(matches!(
            a,
            EmitAction::Folder { .. } | EmitAction::PlaylistFile { .. } | EmitAction::Ignored { .. }
        ));
    }
}

#[test]
fn playlist_names_with_dots_get_one_extension() {
    let mut folder = pl("1", None, "Mixes", vec![]);
    folder.is_folder = true;
    let dotted = pl("2", Some("1"), "My.Mix", vec![]);
    let lib = Library::from_raw(raw::Library {
        tracks: vec![],
        playlists: vec![folder, dotted],
    })
    .unwrap();
    let (ignores, _) = IgnoreList::compile(&vec![]);
    let actions = plan_emission(&lib, &HashMap::new(), &ignores);
    assert_eq!(actions.len(), 2);
    assert!(matches!(&actions[1], EmitAction::PlaylistFile { path, .. } if path == "Mixes/My.m3u8"));
}

#[test]
fn distinguished_playlists_produce_no_artifact() {
    let mut special = pl("1", None, "Podcasts", vec![]);
    special.distinguished_kind = Some(10);
    let child = pl("2", Some("1"), "Inside", vec![]);
    let lib = Library::from_raw(raw::Library {
        tracks: vec![],
        playlists: vec![special, child],
    })
    .unwrap();
    assert_eq!(lib.playlists[&1].kind, PlaylistKind::Unknown(10));
    let (ignores, _) = IgnoreList::compile(&vec![]);
    let actions = plan_emission(&lib, &HashMap::new(), &ignores);
    // The distinguished node emits nothing, but its child is still walked
    // and emitted under the full path.
    assert_eq!(actions.len(), 1);
    assert!(
        matches!(&actions[0], EmitAction::PlaylistFile { path, .. } if path == "Podcasts/Inside.m3u8")
    );
}

#[test]
fn playlist_errors_win_over_track_errors() {
    let bad_both = raw::Library {
        tracks: vec![("notdec".to_string(), tr("t", "file://localhost/a.mp3", 1))],
        playlists: vec![pl("nothex!", None, "a", vec![])],
    };
    assert_eq!(
        Library::from_raw(bad_both).unwrap_err(),
        m3trans::ParseError::InvalidPlaylistId
    );
}
