use vstd::prelude::*;
use std::collections::HashMap;
use crate::index::{IndexEntry, entry_le, entry_lt, sorted_entries, sort_entries};
use crate::traverse::{children_of, traverse_from, traverse_list, spec_traversal, lemma_traverse_list_split};
use crate::parse::{parse_u64, parse_u64_radix};
use crate::raw;
use crate::{ParseError, PlaylistKind};

verus! {

broadcast use vstd::std_specs::hash::group_hash_axioms;

/// A playlist after import: identifiers parsed, kind classified, the track
/// references kept in their stored order.
#[derive(Debug)]
pub struct Playlist {
    pub persistent_id: u64,
    pub parent_id: Option<u64>,
    pub name: String,
    pub kind: PlaylistKind,
    pub items: Vec<u64>,
    pub order_key: usize,
}

/// Mathematical image of a processed track: the location already decoded.
pub struct TrackModel {
    pub name: Seq<char>,
    pub location: Seq<char>,
    pub duration_ms: u32,
}

/// The model of one track value.
pub open spec fn track_model(t: raw::Track) -> TrackModel {
    TrackModel { name: t.name@, location: t.location@, duration_ms: t.duration_ms }
}

/// The model of a whole track table.
pub open spec fn tracks_model(m: Map<u64, raw::Track>) -> Map<u64, TrackModel> {
    Map::new(|k: u64| m.dom().contains(k), |k: u64| track_model(m[k]))
}

/// What decoding a percent-encoded string to UTF-8 yields; `None` when the
/// decoded bytes are not valid UTF-8. A function of the input alone.
pub uninterp spec fn percent_decode_utf8(s: Seq<char>) -> Option<Seq<char>>;

/// Relies on percent_encoding::percent_decode_str together with
/// PercentDecode::decode_utf8: each %XX escape becomes the byte XX, all other
/// characters pass through, and the bytes are then checked as UTF-8. The
/// result depends on the input string alone.
#[verifier::external_body]
fn decode_location(s: &str) -> (r: Option<String>)
    ensures
        match r {
            Some(t) => percent_decode_utf8(s@) == Some(t@),
            None => percent_decode_utf8(s@) is None,
        },
{
    match percent_encoding::percent_decode_str(s).decode_utf8() {
        Ok(cow) => Some(cow.into_owned()),
        Err(_) => None,
    }
}

/// Kind classification: the master flag wins, then the folder flag, then a
/// distinguished code; a plain record is a generic playlist.
pub open spec fn spec_kind(rp: raw::Playlist) -> PlaylistKind {
    if rp.is_master {
        PlaylistKind::Master
    } else if rp.is_folder {
        PlaylistKind::Folder
    } else {
        match rp.distinguished_kind {
            None => PlaylistKind::Generic,
            Some(code) => PlaylistKind::Unknown(code),
        }
    }
}

/// What parsing one playlist record yields: both identifiers read as
/// hexadecimal, any failure classified as an invalid playlist id.
pub open spec fn spec_parse_playlist(rp: raw::Playlist, order_key: usize) -> Result<
    Playlist,
    ParseError,
> {
    match parse_u64_radix(rp.persistent_id@, 16) {
        None => Err(ParseError::InvalidPlaylistId),
        Some(pid) => match rp.parent_id {
            Some(ps) => match parse_u64_radix(ps@, 16) {
                None => Err(ParseError::InvalidPlaylistId),
                Some(par) => Ok(
                    Playlist {
                        persistent_id: pid,
                        parent_id: Some(par),
                        name: rp.name,
                        kind: spec_kind(rp),
                        items: rp.items,
                        order_key,
                    },
                ),
            },
            None => Ok(
                Playlist {
                    persistent_id: pid,
                    parent_id: None,
                    name: rp.name,
                    kind: spec_kind(rp),
                    items: rp.items,
                    order_key,
                },
            ),
        },
    }
}

/// What parsing the whole playlist list yields: records in order, each keyed
/// by its parsed persistent id (a later record with the same id replaces an
/// earlier one), stopping at the first failure.
pub open spec fn spec_parse_playlists(s: Seq<raw::Playlist>) -> Result<
    Map<u64, Playlist>,
    ParseError,
>
    decreases s.len(),
{
    if s.len() == 0 {
        Ok(Map::empty())
    } else {
        match spec_parse_playlists(s.drop_last()) {
            Err(e) => Err(e),
            Ok(m) => match spec_parse_playlist(s.last(), (s.len() - 1) as usize) {
                Err(e) => Err(e),
                Ok(p) => Ok(m.insert(p.persistent_id, p)),
            },
        }
    }
}

/// What parsing one track record yields: the id read as decimal, then the
/// location decoded from its percent-encoding.
pub open spec fn spec_parse_track(rec: (String, raw::Track)) -> Result<
    (u64, TrackModel),
    ParseError,
> {
    match parse_u64_radix(rec.0@, 10) {
        None => Err(ParseError::InvalidTrackId),
        Some(id) => match percent_decode_utf8(rec.1.location@) {
            None => Err(ParseError::NonUtf8Path),
            Some(loc) => Ok(
                (id, TrackModel { name: rec.1.name@, location: loc, duration_ms: rec.1.duration_ms }),
            ),
        },
    }
}

/// What parsing the whole track table yields, stopping at the first failure.
pub open spec fn spec_parse_tracks(s: Seq<(String, raw::Track)>) -> Result<
    Map<u64, TrackModel>,
    ParseError,
>
    decreases s.len(),
{
    if s.len() == 0 {
        Ok(Map::empty())
    } else {
        match spec_parse_tracks(s.drop_last()) {
            Err(e) => Err(e),
            Ok(m) => match spec_parse_track(s.last()) {
                Err(e) => Err(e),
                Ok(p) => Ok(m.insert(p.0, p.1)),
            },
        }
    }
}

/// Visit pairs as contracts speak of them: the depth widened to a
/// mathematical integer.
pub open spec fn visits_view(s: Seq<(u64, usize)>) -> Seq<(u64, int)> {
    s.map(|k: int, p: (u64, usize)| (p.0, p.1 as int))
}

/// The index row a parsed playlist contributes.
pub open spec fn entry_of(p: Playlist) -> IndexEntry {
    IndexEntry { parent: p.parent_id, order_key: p.order_key, id: p.persistent_id }
}

/// A failure in some prefix of the record list is the failure of the whole
/// list.
proof fn lemma_parse_playlists_prefix(s: Seq<raw::Playlist>, i: int)
    requires
        0 <= i <= s.len(),
        spec_parse_playlists(s.take(i)) is Err,
    ensures
        spec_parse_playlists(s) == spec_parse_playlists(s.take(i)),
    decreases s.len() - i,
{
    if i == s.len() {
        assert(s.take(i) =~= s);
    } else {
        let t = s.take(i + 1);
        assert(t.drop_last() =~= s.take(i));
        lemma_parse_playlists_prefix(s, i + 1);
    }
}

/// Same statement for the track table.
proof fn lemma_parse_tracks_prefix(s: Seq<(String, raw::Track)>, i: int)
    requires
        0 <= i <= s.len(),
        spec_parse_tracks(s.take(i)) is Err,
    ensures
        spec_parse_tracks(s) == spec_parse_tracks(s.take(i)),
    decreases s.len() - i,
{
    if i == s.len() {
        assert(s.take(i) =~= s);
    } else {
        let t = s.take(i + 1);
        assert(t.drop_last() =~= s.take(i));
        lemma_parse_tracks_prefix(s, i + 1);
    }
}

/// When the whole playlist list parses, every value of the resulting map is
/// the parse of the record its order key points at, every record parses, and
/// every record's id is a key of the map.
proof fn lemma_parse_playlists_values(s: Seq<raw::Playlist>)
    requires
        s.len() <= usize::MAX,
        spec_parse_playlists(s) is Ok,
    ensures
        forall|k: u64|
            spec_parse_playlists(s)->Ok_0.dom().contains(k) ==> {
                let p = spec_parse_playlists(s)->Ok_0[k];
                &&& p.persistent_id == k
                &&& p.order_key < s.len()
                &&& spec_parse_playlist(s[p.order_key as int], p.order_key) == Ok::<
                    Playlist,
                    ParseError,
                >(p)
            },
        forall|j: int| 0 <= j < s.len() ==> spec_parse_playlist(s[j], j as usize) is Ok,
        forall|j: int|
            0 <= j < s.len() ==> spec_parse_playlists(s)->Ok_0.dom().contains(
                spec_parse_playlist(s[j], j as usize)->Ok_0.persistent_id,
            ),
    decreases s.len(),
{
    if s.len() > 0 {
        lemma_parse_playlists_values(s.drop_last());
        let prev = spec_parse_playlists(s.drop_last())->Ok_0;
        let lastp = spec_parse_playlist(s.last(), (s.len() - 1) as usize)->Ok_0;
        assert(forall|j: int| 0 <= j < s.len() - 1 ==> s.drop_last()[j] == s[j]);
        assert(lastp.order_key == s.len() - 1);
        assert(lastp.persistent_id == spec_parse_playlist(
            s[s.len() - 1],
            (s.len() - 1) as usize,
        )->Ok_0.persistent_id);
    }
}

/// The library after import: the track and playlist tables, and the derived
/// parent-sorted playlist index used for ordered child lookup.
#[derive(Debug)]
pub struct Library {
    pub tracks: HashMap<u64, raw::Track>,
    pub playlists: HashMap<u64, Playlist>,
    pub playlist_index: Vec<IndexEntry>,
}

impl Library {
    /// The derived index, as contracts speak of it.
    pub open spec fn index_seq(&self) -> Seq<IndexEntry> {
        self.playlist_index@
    }

    /// Well-formedness: every index row mirrors the playlist it points at,
    /// every playlist has a row, and rows are strictly ordered by parent and
    /// then by import position.
    pub open spec fn wf(&self) -> bool {
        &&& forall|t: int|
            0 <= t < self.index_seq().len() ==> {
                let e = #[trigger] self.index_seq()[t];
                &&& self.playlists@.dom().contains(e.id)
                &&& self.playlists@[e.id].parent_id == e.parent
                &&& self.playlists@[e.id].order_key == e.order_key
            }
        &&& forall|k: u64|
            #[trigger] self.playlists@.dom().contains(k) ==> exists|t: int|
                0 <= t < self.index_seq().len() && self.index_seq()[t].id == k
        &&& forall|t1: int, t2: int|
            0 <= t1 < t2 < self.index_seq().len() ==> entry_lt(
                self.index_seq()[t1],
                self.index_seq()[t2],
            )
    }

    /// Two playlists sharing a parent stand in the index in their relative
    /// import order: the secondary sort by order key is strict and stable.
    pub proof fn lemma_index_parent_order(&self, t1: int, t2: int)
        requires
            self.wf(),
            0 <= t1 < t2 < self.index_seq().len(),
            self.index_seq()[t1].parent == self.index_seq()[t2].parent,
        ensures
            self.index_seq()[t1].order_key < self.index_seq()[t2].order_key,
    {
        assert(entry_lt(self.index_seq()[t1], self.index_seq()[t2]));
    }

    /// Build the library from the raw import, as the parse functions
    /// describe; a failure in the playlist list is reported before one in
    /// the track table.
    pub fn from_raw(rawlib: raw::Library) -> (r: Result<Library, ParseError>)
        ensures
            match r {
                Ok(lib) => {
                    &&& spec_parse_playlists(rawlib.playlists@) == Ok::<_, ParseError>(lib.playlists@)
                    &&& spec_parse_tracks(rawlib.tracks@) == Ok::<_, ParseError>(
                        tracks_model(lib.tracks@),
                    )
                    &&& lib.wf()
                },
                Err(e) => {
                    ||| spec_parse_playlists(rawlib.playlists@) == Err::<Map<u64, Playlist>, _>(e)
                    ||| (spec_parse_playlists(rawlib.playlists@) is Ok && spec_parse_tracks(
                        rawlib.tracks@,
                    ) == Err::<Map<u64, TrackModel>, _>(e))
                },
            },
    {
        let mut traws = rawlib.tracks;
        let mut raws = rawlib.playlists;
        let ghost orig = raws@;
        let ghost torig = traws@;
        let n = raws.len();
        let mut playlists: HashMap<u64, Playlist> = HashMap::new();
        let mut pre: Vec<IndexEntry> = Vec::new();
        let mut i: usize = 0;
        while i < n
            invariant
                0 <= i <= n,
                n == orig.len(),
                orig == rawlib.playlists@,
                raws@ =~= orig.skip(i as int),
                spec_parse_playlists(orig.take(i as int)) == Ok::<_, ParseError>(playlists@),
                pre@.len() == i,
                forall|j: int|
                    0 <= j < i ==> spec_parse_playlist(orig[j], j as usize) is Ok && pre@[j]
                        == entry_of(#[trigger] spec_parse_playlist(orig[j], j as usize)->Ok_0),
            decreases n - i,
        {
            let rp = raws.remove(0);
            assert(rp == orig[i as int]);
            proof {
                assert(orig.skip(i as int).remove(0) =~= orig.skip(i + 1));
            }
            let ghost cur = orig.take(i + 1);
            proof {
                assert(cur.drop_last() =~= orig.take(i as int));
                assert(cur.last() == orig[i as int]);
            }
            match Playlist::from_raw(rp, i) {
                Err(e) => {
                    proof {
                        assert(spec_parse_playlists(cur) == Err::<Map<u64, Playlist>, _>(e));
                        lemma_parse_playlists_prefix(orig, i + 1);
                    }
                    return Err(e);
                },
                Ok(p) => {
                    pre.push(
                        IndexEntry { parent: p.parent_id, order_key: p.order_key, id: p.persistent_id },
                    );
                    playlists.insert(p.persistent_id, p);
                },
            }
            i += 1;
        }
        proof {
            assert(orig.take(n as int) =~= orig);
            lemma_parse_playlists_values(orig);
        }
        let mut index: Vec<IndexEntry> = Vec::new();
        let mut j: usize = 0;
        while j < pre.len()
            invariant
                0 <= j <= pre@.len(),
                pre@.len() == orig.len(),
                orig.len() <= usize::MAX,
                spec_parse_playlists(orig) == Ok::<_, ParseError>(playlists@),
                forall|a: int|
                    0 <= a < orig.len() ==> spec_parse_playlist(orig[a], a as usize) is Ok
                        && pre@[a] == entry_of(
                        #[trigger] spec_parse_playlist(orig[a], a as usize)->Ok_0,
                    ),
                forall|t: int|
                    0 <= t < index@.len() ==> {
                        let e = #[trigger] index@[t];
                        &&& playlists@.dom().contains(e.id)
                        &&& playlists@[e.id].parent_id == e.parent
                        &&& playlists@[e.id].order_key == e.order_key
                        &&& e.order_key < j
                    },
                forall|a: int|
                    0 <= a < j ==> (playlists@.dom().contains(#[trigger] pre@[a].id)
                        && playlists@[pre@[a].id].order_key == pre@[a].order_key)
                        ==> index@.contains(pre@[a]),
                forall|t1: int, t2: int|
                    0 <= t1 < t2 < index@.len() ==> index@[t1].order_key < index@[t2].order_key,
            decreases pre@.len() - j,
        {
            proof {
                lemma_parse_playlists_values(orig);
            }
            let e = pre[j];
            assert(e.order_key == j);
            let ghost oldidx = index@;
            match playlists.get(&e.id) {
                Some(p) => {
                    if p.order_key == e.order_key {
                        proof {
                            let m = playlists@;
                            assert(m[e.id].order_key == j);
                            assert(m[e.id] == spec_parse_playlist(orig[j as int], j as usize)->Ok_0);
                        }
                        index.push(e);
                    }
                },
                None => {},
            }
            proof {
                assert forall|a: int|
                    0 <= a < j + 1 && (playlists@.dom().contains(pre@[a].id)
                        && playlists@[pre@[a].id].order_key == pre@[a].order_key) implies index@
                    .contains(pre@[a]) by {
                    if a < j {
                        assert(oldidx.contains(pre@[a]));
                        let t = choose|t: int| 0 <= t < oldidx.len() && oldidx[t] == pre@[a];
                        assert(index@[t] == pre@[a]);
                    } else {
                        assert(index@[index@.len() - 1] == pre@[a]);
                    }
                }
            }
            j += 1;
        }
        let ghost presort = index@;
        sort_entries(&mut index);
        proof {
            broadcast use vstd::seq_lib::group_to_multiset_ensures;

            lemma_parse_playlists_values(orig);
            presort.lemma_multiset_has_no_duplicates();
            let m = playlists@;
            let sorted = index@;
            // every sorted row came from the pre-sort rows and keeps its facts
            assert forall|t: int| 0 <= t < sorted.len() implies {
                let e = #[trigger] sorted[t];
                &&& m.dom().contains(e.id)
                &&& m[e.id].parent_id == e.parent
                &&& m[e.id].order_key == e.order_key
            } by {
                let e = sorted[t];
                assert(sorted.contains(e));
                assert(sorted.to_multiset().count(e) > 0);
                assert(presort.to_multiset().count(e) > 0);
                assert(presort.contains(e));
            }
            // every playlist still has a row
            assert forall|k: u64| #[trigger] m.dom().contains(k) implies exists|t: int|
                0 <= t < sorted.len() && sorted[t].id == k by {
                let ok = m[k].order_key;
                assert(spec_parse_playlist(orig[ok as int], ok) == Ok::<_, ParseError>(m[k]));
                let e = pre@[ok as int];
                assert(e == entry_of(m[k]));
                assert(e.id == k);
                assert(presort.contains(e));
                assert(presort.to_multiset().count(e) > 0);
                assert(sorted.to_multiset().count(e) > 0);
                assert(sorted.contains(e));
                let t = choose|t: int| 0 <= t < sorted.len() && sorted[t] == e;
                assert(sorted[t].id == k);
            }
            // the weak sort is strict, because rows with equal keys would be
            // the same row twice
            assert forall|t1: int, t2: int| 0 <= t1 < t2 < sorted.len() implies entry_lt(
                sorted[t1],
                sorted[t2],
            ) by {
                assert(entry_le(sorted[t1], sorted[t2]));
                let e1 = sorted[t1];
                let e2 = sorted[t2];
                if !entry_lt(e1, e2) {
                    assert(sorted.contains(e1));
                    assert(sorted.to_multiset().count(e1) > 0);
                    assert(presort.to_multiset().count(e1) > 0);
                    assert(presort.contains(e1));
                    assert(sorted.contains(e2));
                    assert(sorted.to_multiset().count(e2) > 0);
                    assert(presort.to_multiset().count(e2) > 0);
                    assert(presort.contains(e2));
                    assert(m[e1.id].persistent_id == e1.id);
                    assert(m[e2.id].persistent_id == e2.id);
                    assert(m[e1.id].order_key == m[e2.id].order_key);
                    let ok = m[e1.id].order_key;
                    assert(m[e1.id] == spec_parse_playlist(orig[ok as int], ok)->Ok_0);
                    assert(m[e2.id] == spec_parse_playlist(orig[ok as int], ok)->Ok_0);
                    assert(e1.id == e2.id);
                    assert(e1 == e2);
                    presort.lemma_multiset_has_no_duplicates();
                    let s0 = sorted.subrange(0, t2);
                    let s1 = sorted.subrange(t2, sorted.len() as int);
                    assert(sorted =~= s0 + s1);
                    vstd::seq_lib::lemma_multiset_commutative(s0, s1);
                    assert(s0.contains(e1));
                    assert(s1.contains(e2));
                    assert(s0.to_multiset().count(e1) > 0);
                    assert(s1.to_multiset().count(e1) > 0);
                    assert(sorted.to_multiset().count(e1) >= 2);
                    assert(presort.to_multiset().count(e1) >= 2);
                    assert(presort.contains(e1) && presort.to_multiset().count(e1) == 1);
                    assert(false);
                }
            }
        }
        let mut tracks: HashMap<u64, raw::Track> = HashMap::new();
        proof {
            assert(tracks_model(tracks@) =~= Map::<u64, TrackModel>::empty());
        }
        let tn = traws.len();
        let mut ti: usize = 0;
        while ti < tn
            invariant
                0 <= ti <= tn,
                tn == torig.len(),
                torig == rawlib.tracks@,
                spec_parse_playlists(rawlib.playlists@) is Ok,
                traws@ =~= torig.skip(ti as int),
                spec_parse_tracks(torig.take(ti as int)) == Ok::<_, ParseError>(
                    tracks_model(tracks@),
                ),
            decreases tn - ti,
        {
            let (ids, t) = traws.remove(0);
            assert((ids, t) == torig[ti as int]);
            proof {
                assert(torig.skip(ti as int).remove(0) =~= torig.skip(ti + 1));
            }
            let ghost cur = torig.take(ti + 1);
            proof {
                assert(cur.drop_last() =~= torig.take(ti as int));
                assert(cur.last() == torig[ti as int]);
            }
            let id = match parse_u64(ids.as_str(), 10) {
                Some(v) => v,
                None => {
                    proof {
                        lemma_parse_tracks_prefix(torig, ti + 1);
                    }
                    return Err(ParseError::InvalidTrackId);
                },
            };
            let loc = match decode_location(t.location.as_str()) {
                Some(v) => v,
                None => {
                    proof {
                        lemma_parse_tracks_prefix(torig, ti + 1);
                    }
                    return Err(ParseError::NonUtf8Path);
                },
            };
            let processed = raw::Track { name: t.name, location: loc, duration_ms: t.duration_ms };
            let ghost oldmap = tracks@;
            tracks.insert(id, processed);
            proof {
                assert(tracks_model(tracks@) =~= tracks_model(oldmap).insert(
                    id,
                    spec_parse_track(torig[ti as int])->Ok_0.1,
                ));
            }
            ti += 1;
        }
        proof {
            assert(torig.take(tn as int) =~= torig);
        }
        Ok(Library { tracks, playlists, playlist_index: index })
    }
}

impl Library {
    /// Collect the ordered children of one node by scanning the index.
    fn children_entries(&self, node_id: Option<u64>) -> (r: Vec<IndexEntry>)
        ensures
            r@ == children_of(self.playlist_index@, node_id),
    {
        let mut r: Vec<IndexEntry> = Vec::new();
        let mut t: usize = 0;
        let n = self.playlist_index.len();
        while t < n
            invariant
                0 <= t <= n,
                n == self.playlist_index@.len(),
                r@ == children_of(self.playlist_index@.take(t as int), node_id),
            decreases n - t,
        {
            let e = self.playlist_index[t];
            let ghost pre = self.playlist_index@.take(t as int);
            let ghost cur = self.playlist_index@.take(t + 1);
            proof {
                assert(cur.drop_last() =~= pre);
                assert(cur.last() == self.playlist_index@[t as int]);
            }
            let same = match (e.parent, node_id) {
                (None, None) => true,
                (Some(a), Some(b)) => a == b,
                _ => false,
            };
            if same {
                r.push(e);
                proof {
                    assert(r@ =~= children_of(pre, node_id) + seq![e]);
                }
            } else {
                proof {
                    assert(children_of(cur, node_id) =~= children_of(pre, node_id)
                        + Seq::<IndexEntry>::empty());
                    assert(r@ =~= children_of(pre, node_id) + Seq::<IndexEntry>::empty());
                }
            }
            t += 1;
        }
        proof {
            assert(self.playlist_index@.take(n as int) =~= self.playlist_index@);
        }
        r
    }

    /// Append the subtree walk below one node: children in index order,
    /// parent before child, one level deeper per descent.
    fn visit_playlists_inner(
        &self,
        node_id: Option<u64>,
        depth: usize,
        fuel: usize,
        out: &mut Vec<(u64, usize)>,
    )
        requires
            depth as int + fuel as int <= usize::MAX as int,
        ensures
            visits_view(final(out)@) == visits_view(old(out)@) + traverse_from(
                self.playlist_index@,
                node_id,
                depth as int,
                fuel as nat,
            ),
        decreases fuel,
    {
        if fuel == 0 {
            proof {
                assert(visits_view(out@) + traverse_from(
                    self.playlist_index@,
                    node_id,
                    depth as int,
                    fuel as nat,
                ) =~= visits_view(out@));
            }
            return ;
        }
        let kids = self.children_entries(node_id);
        let ghost base = out@;
        proof {
            assert(kids@.take(0) =~= Seq::<IndexEntry>::empty());
            assert(visits_view(out@) =~= visits_view(base) + traverse_list(
                self.playlist_index@,
                kids@.take(0),
                depth as int,
                (fuel - 1) as nat,
            ));
        }
        let mut c: usize = 0;
        while c < kids.len()
            invariant
                0 <= c <= kids@.len(),
                kids@ == children_of(self.playlist_index@, node_id),
                1 <= fuel,
                depth as int + fuel as int <= usize::MAX as int,
                visits_view(out@) == visits_view(base) + traverse_list(
                    self.playlist_index@,
                    kids@.take(c as int),
                    depth as int,
                    (fuel - 1) as nat,
                ),
            decreases kids@.len() - c,
        {
            let e = kids[c];
            let ghost out0 = out@;
            out.push((e.id, depth));
            proof {
                assert(visits_view(out@) =~= visits_view(out0) + seq![(e.id, depth as int)]);
            }
            let ghost out1 = out@;
            self.visit_playlists_inner(Some(e.id), depth + 1, fuel - 1, out);
            proof {
                lemma_traverse_list_split(
                    self.playlist_index@,
                    kids@,
                    c as int,
                    depth as int,
                    (fuel - 1) as nat,
                );
                assert(visits_view(out@) =~= visits_view(base) + traverse_list(
                    self.playlist_index@,
                    kids@.take(c + 1),
                    depth as int,
                    (fuel - 1) as nat,
                ));
            }
            c += 1;
        }
        proof {
            assert(kids@.take(kids@.len() as int) =~= kids@);
        }
    }

    /// The depth-first visit order of the playlist forest: every playlist
    /// paired with its depth, siblings in index order, parent before child.
    /// Two runs over the same library yield the same sequence.
    pub fn visit_playlists(&self) -> (r: Vec<(u64, usize)>)
        requires
            self.playlist_index@.len() < usize::MAX,
        ensures
            visits_view(r@) == spec_traversal(self.playlist_index@),
    {
        let mut out: Vec<(u64, usize)> = Vec::new();
        let fuel = self.playlist_index.len() + 1;
        self.visit_playlists_inner(None, 0, fuel, &mut out);
        proof {
            assert(visits_view(Seq::<(u64, usize)>::empty()) =~= Seq::<(u64, int)>::empty());
            assert(Seq::<(u64, int)>::empty() + spec_traversal(self.playlist_index@)
                =~= spec_traversal(self.playlist_index@));
        }
        out
    }
}

/// Rows sharing a parent are contiguous in the index: between two rows of
/// one parent no row of another parent stands, which is what makes range
/// lookup of children sound.
pub proof fn lemma_index_parent_contiguous(lib: &Library, t1: int, t2: int, t3: int)
    requires
        lib.wf(),
        0 <= t1 < t2 < t3 < lib.index_seq().len(),
        lib.index_seq()[t1].parent == lib.index_seq()[t3].parent,
    ensures
        lib.index_seq()[t2].parent == lib.index_seq()[t1].parent,
{
    let s = lib.index_seq();
    assert(entry_lt(s[t1], s[t2]));
    assert(entry_lt(s[t2], s[t3]));
    assert(crate::index::parent_rank(s[t1].parent) <= crate::index::parent_rank(s[t2].parent)
        <= crate::index::parent_rank(s[t3].parent));
    match (s[t1].parent, s[t2].parent) {
        (None, None) => {},
        (Some(_), None) => {},
        (None, Some(_)) => {
            assert(crate::index::parent_rank(s[t3].parent) == -1);
        },
        (Some(a), Some(b)) => {
            assert(a == b);
        },
    }
}

/// Depth discipline of the traversal: every visit at depth zero is of a
/// parentless playlist, and every deeper visit is preceded by a visit, one
/// level higher, of exactly the playlist its parent id names. Forest roots
/// therefore receive depth zero, and each node's depth is one more than its
/// parent's.
pub proof fn lemma_visit_depths(lib: &Library)
    requires
        lib.wf(),
    ensures
        forall|k: int|
            #![trigger spec_traversal(lib.playlist_index@)[k]]
            0 <= k < spec_traversal(lib.playlist_index@).len() ==> {
                let s = spec_traversal(lib.playlist_index@);
                &&& s[k].1 >= 0
                &&& (s[k].1 == 0 ==> lib.playlists@.dom().contains(s[k].0)
                    && lib.playlists@[s[k].0].parent_id is None)
                &&& (s[k].1 > 0 ==> exists|j: int|
                    #![trigger s[j]]
                    0 <= j < k && s[j].1 == s[k].1 - 1 && lib.playlists@.dom().contains(s[k].0)
                        && lib.playlists@[s[k].0].parent_id == Some(s[j].0))
            },
{
    let index = lib.playlist_index@;
    let s = spec_traversal(index);
    let fuel = (index.len() + 1) as nat;
    crate::traverse::lemma_traverse_from_depths(index, None, 0, fuel);
    assert(s == traverse_from(index, None, 0, fuel));
    assert forall|k: int| 0 <= k < s.len() implies {
        &&& #[trigger] s[k].1 >= 0
        &&& (s[k].1 == 0 ==> lib.playlists@.dom().contains(s[k].0)
            && lib.playlists@[s[k].0].parent_id is None)
        &&& (s[k].1 > 0 ==> exists|j: int|
            #![trigger s[j]]
            0 <= j < k && s[j].1 == s[k].1 - 1 && lib.playlists@.dom().contains(s[k].0)
                && lib.playlists@[s[k].0].parent_id == Some(s[j].0))
    } by {
        if s[k].1 == 0 {
            let t = choose|t: int|
                0 <= t < index.len() && index[t].id == s[k].0 && index[t].parent
                    == None::<u64>;
            assert(lib.playlists@.dom().contains(index[t].id));
        }
        if s[k].1 > 0 {
            let j = choose|j: int|
                #![trigger s[j]]
                0 <= j < k && s[j].1 == s[k].1 - 1 && exists|t: int|
                    0 <= t < index.len() && index[t].id == s[k].0 && index[t].parent == Some(
                        s[j].0,
                    );
            let t = choose|t: int|
                0 <= t < index.len() && index[t].id == s[k].0 && index[t].parent == Some(s[j].0);
            assert(lib.playlists@.dom().contains(index[t].id));
            assert(lib.playlists@[s[k].0].parent_id == Some(s[j].0));
        }
    }
}

/// Traversal is deterministic: the visit sequence is a function of the
/// library alone, so any two results that `visit_playlists` may return for
/// the same library are equal.
pub proof fn lemma_traversal_deterministic(
    lib: &Library,
    r1: Seq<(u64, int)>,
    r2: Seq<(u64, int)>,
)
    requires
        r1 == spec_traversal(lib.playlist_index@),
        r2 == spec_traversal(lib.playlist_index@),
    ensures
        r1 == r2,
{
}

impl Playlist {
    /// Parse one playlist record, as `spec_parse_playlist` describes.
    pub fn from_raw(raw: raw::Playlist, order_key: usize) -> (r: Result<Playlist, ParseError>)
        ensures
            r == spec_parse_playlist(raw, order_key),
    {
        let kind = if raw.is_master {
            PlaylistKind::Master
        } else if raw.is_folder {
            PlaylistKind::Folder
        } else {
            match raw.distinguished_kind {
                None => PlaylistKind::Generic,
                Some(code) => PlaylistKind::Unknown(code),
            }
        };
        let pid = match parse_u64(raw.persistent_id.as_str(), 16) {
            Some(v) => v,
            None => {
                return Err(ParseError::InvalidPlaylistId);
            },
        };
        let parent = match &raw.parent_id {
            Some(ps) => match parse_u64(ps.as_str(), 16) {
                Some(v) => Some(v),
                None => {
                    return Err(ParseError::InvalidPlaylistId);
                },
            },
            None => None,
        };
        Ok(
            Playlist {
                persistent_id: pid,
                parent_id: parent,
                name: raw.name,
                kind,
                items: raw.items,
                order_key,
            },
        )
    }
}

} // verus!
