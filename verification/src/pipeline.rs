use vstd::prelude::*;
use std::collections::HashMap;
use crate::ignore::{IgnoreList, spec_ignored};
use crate::library::{Library, Playlist, visits_view};
use crate::paths::{
    PathStack, names_view, depth_view, stack_after, join_names, ext_of, with_playlist_ext,
    set_playlist_ext, extension_of,
};
use crate::parse::{dec_str, u64_to_dec};
use crate::raw;
use crate::traverse::{spec_traversal, lemma_traverse_from_ids};
use crate::PlaylistKind;

verus! {

broadcast use vstd::std_specs::hash::group_hash_axioms;

/// The recognized local-file scheme prefix of a track location.
pub open spec fn local_prefix() -> Seq<char> {
    "file://localhost/"@
}

/// Whether a location carries the local-file prefix.
pub open spec fn is_local(s: Seq<char>) -> bool {
    s.len() >= local_prefix().len() && s.take(local_prefix().len() as int) == local_prefix()
}

/// The location with the local-file prefix stripped.
pub open spec fn local_suffix(s: Seq<char>) -> Seq<char> {
    s.skip(local_prefix().len() as int)
}

fn strip_local(s: &str) -> (r: Option<String>)
    ensures
        match r {
            Some(t) => is_local(s@) && t@ == local_suffix(s@),
            None => !is_local(s@),
        },
{
    proof {
        reveal_strlit("file://localhost/");
    }
    let pre = "file://localhost/";
    let plen = pre.unicode_len();
    let n = s.unicode_len();
    if n < plen {
        return None;
    }
    let mut i: usize = 0;
    while i < plen
        invariant
            0 <= i <= plen,
            plen == local_prefix().len(),
            pre@ == local_prefix(),
            n == s@.len(),
            n >= plen,
            forall|t: int| 0 <= t < i ==> s@[t] == local_prefix()[t],
        decreases plen - i,
    {
        if s.get_char(i) != pre.get_char(i) {
            proof {
                if is_local(s@) {
                    assert(s@.take(plen as int)[i as int] == s@[i as int]);
                    assert(false);
                }
            }
            return None;
        }
        i += 1;
    }
    proof {
        assert(s@.take(plen as int) =~= local_prefix());
    }
    let rest = s.substring_char(plen, n);
    proof {
        assert(rest@ =~= local_suffix(s@));
    }
    Some(String::from_str(rest))
}

/// The output-relative path a copied track lands at: the flat track
/// directory, the decimal id, and the source file's extension when it has
/// a non-empty one.
pub open spec fn spec_remote_rel(id: u64, local: Seq<char>) -> Seq<char> {
    let base = "tracks/"@ + dec_str(id as nat);
    match ext_of(local) {
        Some(e) => if e.len() > 0 {
            base + seq!['.'] + e
        } else {
            base
        },
        None => base,
    }
}

/// What the pipeline does with one track: copy a local file to its flat
/// destination, or skip a location with an unrecognized scheme.
#[derive(Debug, Clone, PartialEq, Eq)]
pub enum TrackAction {
    Copy { source: String, remote_rel: String },
    UnknownScheme,
}

/// Decide one track's copy: a location with the local-file prefix is copied
/// from the stripped path to the flat id-named destination; any other
/// scheme is skipped and reported by the caller.
pub fn plan_track_copy(track_id: u64, location: &str) -> (r: TrackAction)
    ensures
        match r {
            TrackAction::Copy { source, remote_rel } => is_local(location@) && source@
                == local_suffix(location@) && remote_rel@ == spec_remote_rel(track_id, source@),
            TrackAction::UnknownScheme => !is_local(location@),
        },
{
    match strip_local(location) {
        None => TrackAction::UnknownScheme,
        Some(src) => {
            let mut rr = String::from_str("tracks/");
            let digits = u64_to_dec(track_id);
            rr.append(digits.as_str());
            match extension_of(src.as_str()) {
                Some(e) => {
                    if e.unicode_len() > 0 {
                        proof {
                            reveal_strlit(".");
                            assert("."@ =~= seq!['.']);
                        }
                        rr.append(".");
                        rr.append(e.as_str());
                    }
                },
                None => {},
            }
            TrackAction::Copy { source: src, remote_rel: rr }
        },
    }
}

/// Mathematical image of one playlist-file entry.
pub struct EntryModel {
    pub path: Seq<char>,
    pub name: Seq<char>,
    pub duration_ms: u32,
}

/// One entry of an emitted playlist file: a relative path back into the
/// track directory, the track's title, and its duration in milliseconds
/// (the writer renders it in seconds).
#[derive(Debug, Clone, PartialEq, Eq)]
pub struct M3uEntry {
    pub path: String,
    pub name: String,
    pub duration_ms: u32,
}

/// The model of one entry.
pub open spec fn entry_model(e: M3uEntry) -> EntryModel {
    EntryModel { path: e.path@, name: e.name@, duration_ms: e.duration_ms }
}

/// The model of an entry list.
pub open spec fn entries_model(s: Seq<M3uEntry>) -> Seq<EntryModel> {
    s.map(|k: int, e: M3uEntry| entry_model(e))
}

/// The model of the remote-path map.
pub open spec fn remote_model(m: Map<u64, String>) -> Map<u64, Seq<char>> {
    Map::new(|k: u64| m.dom().contains(k), |k: u64| m[k]@)
}

/// `n` ascent markers: one `../` per output level.
pub open spec fn ups(n: nat) -> Seq<char>
    decreases n,
{
    if n == 0 {
        Seq::empty()
    } else {
        ups((n - 1) as nat) + "../"@
    }
}

fn ups_exec(levels: usize) -> (r: String)
    ensures
        r@ == ups(levels as nat),
{
    let mut r = String::new();
    let mut k: usize = 0;
    while k < levels
        invariant
            0 <= k <= levels,
            r@ == ups(k as nat),
        decreases levels - k,
    {
        r.append("../");
        k += 1;
    }
    r
}

/// The entries of one playlist file: one per referenced track, in stored
/// order, skipping tracks that were never copied or are unknown to the
/// track table; each entry ascends `levels` times and then descends to the
/// track's copied location.
pub open spec fn spec_entries(
    tracks: Map<u64, raw::Track>,
    remote: Map<u64, Seq<char>>,
    levels: nat,
    items: Seq<u64>,
) -> Seq<EntryModel>
    decreases items.len(),
{
    if items.len() == 0 {
        Seq::empty()
    } else {
        spec_entries(tracks, remote, levels, items.drop_last()) + (
        if remote.dom().contains(items.last()) && tracks.dom().contains(items.last()) {
            seq![
                EntryModel {
                    path: ups(levels) + remote[items.last()],
                    name: tracks[items.last()].name@,
                    duration_ms: tracks[items.last()].duration_ms,
                },
            ]
        } else {
            Seq::empty()
        })
    }
}

/// Build one playlist's entry list, as `spec_entries` describes.
pub fn playlist_entries(
    lib: &Library,
    remote: &HashMap<u64, String>,
    levels: usize,
    playlist: &Playlist,
) -> (r: Vec<M3uEntry>)
    ensures
        entries_model(r@) == spec_entries(
            lib.tracks@,
            remote_model(remote@),
            levels as nat,
            playlist.items@,
        ),
{
    let ghost items = playlist.items@;
    let mut r: Vec<M3uEntry> = Vec::new();
    let mut t: usize = 0;
    while t < playlist.items.len()
        invariant
            0 <= t <= items.len(),
            items == playlist.items@,
            entries_model(r@) == spec_entries(
                lib.tracks@,
                remote_model(remote@),
                levels as nat,
                items.take(t as int),
            ),
        decreases items.len() - t,
    {
        proof {
            assert(items.take(t + 1).drop_last() =~= items.take(t as int));
            assert(items.take(t + 1).last() == items[t as int]);
        }
        let id = playlist.items[t];
        let ghost r0 = r@;
        match remote.get(&id) {
            Some(rp) => match lib.tracks.get(&id) {
                Some(tr) => {
                    let mut path = ups_exec(levels);
                    path.append(rp.as_str());
                    proof {
                        assert(remote_model(remote@)[id] == remote@[id]@);
                    }
                    r.push(
                        M3uEntry { path, name: tr.name.clone(), duration_ms: tr.duration_ms },
                    );
                    proof {
                        assert(entries_model(r@) =~= entries_model(r0) + seq![
                            entry_model(r@[r@.len() - 1]),
                        ]);
                        assert(entries_model(r@) =~= spec_entries(
                            lib.tracks@,
                            remote_model(remote@),
                            levels as nat,
                            items.take(t + 1),
                        ));
                    }
                },
                None => {
                    proof {
                        assert(entries_model(r@) =~= spec_entries(
                            lib.tracks@,
                            remote_model(remote@),
                            levels as nat,
                            items.take(t + 1),
                        ));
                    }
                },
            },
            None => {
                proof {
                    assert(entries_model(r@) =~= spec_entries(
                        lib.tracks@,
                        remote_model(remote@),
                        levels as nat,
                        items.take(t + 1),
                    ));
                }
            },
        }
        t += 1;
    }
    proof {
        assert(items.take(playlist.items@.len() as int) =~= items);
    }
    r
}

/// Mathematical image of one emission step.
pub enum StepModel {
    Folder { path: Seq<char> },
    PlaylistFile { path: Seq<char>, entries: Seq<EntryModel> },
    Ignored { path: Seq<char> },
}

/// One planned emission: create a folder, write a playlist file with its
/// entries, or skip an ignored node (children are still walked either way).
/// Master and distinguished playlists contribute no action at all.
#[derive(Debug, Clone, PartialEq, Eq)]
pub enum EmitAction {
    Folder { path: String },
    PlaylistFile { path: String, entries: Vec<M3uEntry> },
    Ignored { path: String },
}

/// The model of one action.
pub open spec fn action_model(a: EmitAction) -> StepModel {
    match a {
        EmitAction::Folder { path } => StepModel::Folder { path: path@ },
        EmitAction::PlaylistFile { path, entries } => StepModel::PlaylistFile {
            path: path@,
            entries: entries_model(entries@),
        },
        EmitAction::Ignored { path } => StepModel::Ignored { path: path@ },
    }
}

/// The model of an action list.
pub open spec fn actions_model(s: Seq<EmitAction>) -> Seq<StepModel> {
    s.map(|k: int, a: EmitAction| action_model(a))
}

/// The walk state of the planner: the path stack, the previous depth, and
/// the actions planned so far.
pub struct PlanState {
    pub stack: Seq<Seq<char>>,
    pub last: Option<int>,
    pub steps: Seq<StepModel>,
}

/// One visit of the planner: update the path stack, reconstruct the node's
/// virtual path, and decide its artifact — nothing when ignored or when the
/// node is a master or distinguished playlist, a directory for a folder, a
/// playlist file with entries for a generic playlist.
pub open spec fn spec_step(
    tracks: Map<u64, raw::Track>,
    playlists: Map<u64, Playlist>,
    remote: Map<u64, Seq<char>>,
    pats: Seq<Seq<char>>,
    st: PlanState,
    v: (u64, int),
) -> PlanState {
    let p = playlists[v.0];
    let stack1 = stack_after(st.stack, st.last, p.name@, v.1);
    let vpath = join_names(stack1);
    let emitted: Seq<StepModel> = if spec_ignored(pats, vpath) {
        seq![StepModel::Ignored { path: vpath }]
    } else {
        match p.kind {
            PlaylistKind::Folder => seq![StepModel::Folder { path: vpath }],
            PlaylistKind::Generic => seq![
                StepModel::PlaylistFile {
                    path: with_playlist_ext(vpath),
                    entries: spec_entries(tracks, remote, stack1.len(), p.items@),
                },
            ],
            _ => Seq::empty(),
        }
    };
    PlanState { stack: stack1, last: Some(v.1), steps: st.steps + emitted }
}

/// The planner folded over a visit sequence, starting from an empty stack.
pub open spec fn spec_plan(
    tracks: Map<u64, raw::Track>,
    playlists: Map<u64, Playlist>,
    remote: Map<u64, Seq<char>>,
    pats: Seq<Seq<char>>,
    visits: Seq<(u64, int)>,
) -> PlanState
    decreases visits.len(),
{
    if visits.len() == 0 {
        PlanState { stack: Seq::empty(), last: None, steps: Seq::empty() }
    } else {
        spec_step(
            tracks,
            playlists,
            remote,
            pats,
            spec_plan(tracks, playlists, remote, pats, visits.drop_last()),
            visits.last(),
        )
    }
}

/// Walk the playlist forest and plan every emission, as `spec_plan` over
/// the library's traversal describes. The plan only describes mutations;
/// carrying it out, or merely reporting it on a dry run, is the caller's
/// part, so both modes decide identically.
pub fn plan_emission(lib: &Library, remote: &HashMap<u64, String>, ignores: &IgnoreList) -> (r:
    Vec<EmitAction>)
    requires
        lib.wf(),
        ignores.wf(),
        lib.playlist_index@.len() < usize::MAX,
    ensures
        actions_model(r@) == spec_plan(
            lib.tracks@,
            lib.playlists@,
            remote_model(remote@),
            ignores.pats(),
            spec_traversal(lib.playlist_index@),
        ).steps,
{
    let visits = lib.visit_playlists();
    let ghost vv = visits_view(visits@);
    proof {
        lemma_traverse_from_ids(
            lib.playlist_index@,
            None,
            0,
            (lib.playlist_index@.len() + 1) as nat,
        );
        assert forall|t: int| 0 <= t < vv.len() implies lib.playlists@.dom().contains(
            #[trigger] vv[t].0,
        ) by {
            let e = choose|u: int|
                0 <= u < lib.playlist_index@.len() && lib.playlist_index@[u].id == vv[t].0;
            assert(lib.playlists@.dom().contains(lib.playlist_index@[e].id));
        }
    }
    let ghost tracks = lib.tracks@;
    let ghost playlists = lib.playlists@;
    let ghost remote_m = remote_model(remote@);
    let ghost pats = ignores.pats();
    let mut ps = PathStack::new();
    let mut out: Vec<EmitAction> = Vec::new();
    let mut k: usize = 0;
    while k < visits.len()
        invariant
            0 <= k <= visits@.len(),
            vv == visits_view(visits@),
            tracks == lib.tracks@,
            playlists == lib.playlists@,
            remote_m == remote_model(remote@),
            pats == ignores.pats(),
            lib.wf(),
            ignores.wf(),
            forall|t: int| 0 <= t < vv.len() ==> playlists.dom().contains(#[trigger] vv[t].0),
            names_view(ps.names@) == spec_plan(tracks, playlists, remote_m, pats, vv.take(k as int)).stack,
            depth_view(ps.last_depth) == spec_plan(
                tracks,
                playlists,
                remote_m,
                pats,
                vv.take(k as int),
            ).last,
            actions_model(out@) == spec_plan(tracks, playlists, remote_m, pats, vv.take(k as int)).steps,
        decreases visits@.len() - k,
    {
        proof {
            assert(vv.take(k + 1).drop_last() =~= vv.take(k as int));
            assert(vv.take(k + 1).last() == vv[k as int]);
        }
        let pair = visits[k];
        let id = pair.0;
        let depth = pair.1;
        proof {
            assert(vv[k as int] == (id, depth as int));
        }
        let ghost st0 = spec_plan(tracks, playlists, remote_m, pats, vv.take(k as int));
        let ghost st1 = spec_plan(tracks, playlists, remote_m, pats, vv.take(k + 1));
        let p = match lib.playlists.get(&id) {
            Some(p) => p,
            None => {
                proof {
                    assert(playlists.dom().contains(vv[k as int].0));
                    assert(false);
                }
                vstd::pervasive::unreached()
            },
        };
        proof {
            assert(*p == playlists[id]);
        }
        ps.push_visit(p.name.as_str(), depth);
        let vpath = ps.joined();
        let levels = ps.names.len();
        proof {
            assert(names_view(ps.names@) == st1.stack);
            assert(vpath@ == join_names(st1.stack));
            assert(levels as nat == st1.stack.len());
        }
        let ghost out0 = out@;
        if ignores.is_ignored(vpath.as_str()) {
            out.push(EmitAction::Ignored { path: vpath });
            proof {
                assert(actions_model(out@) =~= actions_model(out0) + seq![
                    StepModel::Ignored { path: join_names(st1.stack) },
                ]);
                assert(actions_model(out@) =~= st1.steps);
            }
        } else {
            match p.kind {
                PlaylistKind::Folder => {
                    out.push(EmitAction::Folder { path: vpath });
                    proof {
                        assert(actions_model(out@) =~= actions_model(out0) + seq![
                            StepModel::Folder { path: join_names(st1.stack) },
                        ]);
                        assert(actions_model(out@) =~= st1.steps);
                    }
                },
                PlaylistKind::Generic => {
                    let entries = playlist_entries(lib, remote, levels, p);
                    let fpath = set_playlist_ext(vpath.as_str());
                    out.push(EmitAction::PlaylistFile { path: fpath, entries });
                    proof {
                        assert(actions_model(out@) =~= actions_model(out0) + seq![
                            StepModel::PlaylistFile {
                                path: with_playlist_ext(join_names(st1.stack)),
                                entries: spec_entries(tracks, remote_m, st1.stack.len(), playlists[id].items@),
                            },
                        ]);
                        assert(actions_model(out@) =~= st1.steps);
                    }
                },
                _ => {
                    proof {
                        assert(st1.steps =~= st0.steps + Seq::<StepModel>::empty());
                        assert(actions_model(out@) =~= st1.steps);
                    }
                },
            }
        }
        k += 1;
    }
    proof {
        assert(vv.take(visits@.len() as int) =~= vv);
    }
    out
}

/// Compile the ignore lines and plan the whole emission in one step: the
/// lines that are no valid globs are handed back as discarded, exactly as
/// `IgnoreList::compile` and `plan_emission` describe.
pub fn plan_translation(
    lib: &Library,
    remote: &HashMap<u64, String>,
    ignore_lines: &Vec<String>,
) -> (r: (Vec<String>, Vec<EmitAction>))
    requires
        lib.wf(),
        lib.playlist_index@.len() < usize::MAX,
    ensures
        crate::ignore::lines_view(r.0@) == crate::ignore::bad_lines(
            crate::ignore::lines_view(ignore_lines@),
        ),
        actions_model(r.1@) == spec_plan(
            lib.tracks@,
            lib.playlists@,
            remote_model(remote@),
            crate::ignore::kept_pats(crate::ignore::lines_view(ignore_lines@)),
            spec_traversal(lib.playlist_index@),
        ).steps,
{
    let (ignores, bad) = IgnoreList::compile(ignore_lines);
    let actions = plan_emission(lib, remote, &ignores);
    (bad, actions)
}

} // verus!
