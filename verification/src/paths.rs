use vstd::prelude::*;

verus! {

/// The views of a stack of path segments.
pub open spec fn names_view(s: Seq<String>) -> Seq<Seq<char>> {
    s.map(|k: int, x: String| x@)
}

/// A stack with its `n` last segments removed; an empty stack stays empty.
pub open spec fn pop_n(s: Seq<Seq<char>>, n: int) -> Seq<Seq<char>>
    decreases n,
{
    if n <= 0 {
        s
    } else if s.len() == 0 {
        s
    } else {
        pop_n(s.drop_last(), n - 1)
    }
}

/// The recorded depth of the previous visit, widened.
pub open spec fn depth_view(d: Option<usize>) -> Option<int> {
    match d {
        None => None,
        Some(v) => Some(v as int),
    }
}

/// The path stack after one visit at `depth`: when the walk stays level or
/// climbs, one level more than the difference is unwound; then the new
/// segment is pushed.
pub open spec fn stack_after(
    stack: Seq<Seq<char>>,
    last: Option<int>,
    name: Seq<char>,
    depth: int,
) -> Seq<Seq<char>> {
    let unwound = match last {
        Some(l) => if depth <= l {
            pop_n(stack, l - depth + 1)
        } else {
            stack
        },
        None => stack,
    };
    unwound.push(name)
}

/// The segments joined by `/`, with no leading or trailing separator.
pub open spec fn join_names(names: Seq<Seq<char>>) -> Seq<char>
    decreases names.len(),
{
    if names.len() == 0 {
        Seq::empty()
    } else if names.len() == 1 {
        names[0]
    } else {
        join_names(names.drop_last()) + seq!['/'] + names.last()
    }
}

/// Position of the last occurrence of `c`, or -1 when there is none.
pub open spec fn last_pos(s: Seq<char>, c: char) -> int
    decreases s.len(),
{
    if s.len() == 0 {
        -1
    } else if s.last() == c {
        s.len() - 1
    } else {
        last_pos(s.drop_last(), c)
    }
}

/// The extension of a slash-delimited path: what follows the last dot of the
/// final segment, provided that dot is neither its first character nor
/// absent.
pub open spec fn ext_of(p: Seq<char>) -> Option<Seq<char>> {
    let ls = last_pos(p, '/');
    let ld = last_pos(p, '.');
    if ld > ls + 1 {
        Some(p.skip(ld + 1))
    } else {
        None
    }
}

/// The path with its extension replaced by (or, when it has none, extended
/// with) the playlist-file extension.
pub open spec fn with_playlist_ext(p: Seq<char>) -> Seq<char> {
    let ls = last_pos(p, '/');
    let ld = last_pos(p, '.');
    if ld > ls + 1 {
        p.take(ld) + ".m3u8"@
    } else {
        p + ".m3u8"@
    }
}

/// The ancestor-segment stack of the walk, together with the depth of the
/// previous visit; drives path reconstruction for both the diagnostic walk
/// and the translation pipeline.
pub struct PathStack {
    pub names: Vec<String>,
    pub last_depth: Option<usize>,
}

impl PathStack {
    /// An empty stack, before any visit.
    pub fn new() -> (r: PathStack)
        ensures
            r.names@ =~= Seq::<String>::empty(),
            r.last_depth is None,
    {
        PathStack { names: Vec::new(), last_depth: None }
    }

    fn pop_level(&mut self)
        ensures
            names_view(final(self).names@) == pop_n(names_view(old(self).names@), 1),
            final(self).last_depth == old(self).last_depth,
    {
        proof {
            let v = names_view(self.names@);
            if self.names@.len() > 0 {
                assert(names_view(self.names@.drop_last()) =~= v.drop_last());
                assert(pop_n(v, 1) == pop_n(v.drop_last(), 0));
                assert(pop_n(v.drop_last(), 0) == v.drop_last());
            } else {
                assert(v.len() == 0);
                assert(pop_n(v, 1) == v);
            }
        }
        if self.names.len() > 0 {
            self.names.pop();
        }
    }

    /// One visit: unwind to the right ancestor, push the new segment, record
    /// the depth.
    pub fn push_visit(&mut self, name: &str, depth: usize)
        ensures
            names_view(final(self).names@) == stack_after(
                names_view(old(self).names@),
                depth_view(old(self).last_depth),
                name@,
                depth as int,
            ),
            final(self).last_depth == Some(depth),
    {
        let ghost v0 = names_view(self.names@);
        match self.last_depth {
            Some(l) => {
                if depth <= l {
                    let steps: usize = l - depth;
                    self.pop_level();
                    let mut k: usize = 0;
                    while k < steps
                        invariant
                            0 <= k <= steps,
                            names_view(self.names@) == pop_n(v0, 1 + k),
                            self.last_depth == Some(l),
                        decreases steps - k,
                    {
                        let ghost vc = names_view(self.names@);
                        self.pop_level();
                        proof {
                            lemma_pop_n_add(v0, 1 + k);
                        }
                        k += 1;
                    }
                    proof {
                        assert(names_view(self.names@) == pop_n(v0, l - depth + 1));
                    }
                }
            },
            None => {},
        }
        let ghost v1 = names_view(self.names@);
        self.names.push(String::from_str(name));
        proof {
            assert(names_view(self.names@) =~= v1.push(name@));
        }
        self.last_depth = Some(depth);
    }

    /// The reconstructed path of the current node: the stack joined by `/`.
    pub fn joined(&self) -> (r: String)
        ensures
            r@ == join_names(names_view(self.names@)),
    {
        let v = join_exec(&self.names);
        v
    }
}

/// Unwinding one more level after `n` is unwinding `n + 1` levels.
proof fn lemma_pop_n_add(s: Seq<Seq<char>>, n: int)
    requires
        0 <= n,
    ensures
        pop_n(pop_n(s, n), 1) == pop_n(s, n + 1),
    decreases n,
{
    if n > 0 && s.len() > 0 {
        lemma_pop_n_add(s.drop_last(), n - 1);
    }
}

/// Join segments with `/`, as `join_names` describes.
pub fn join_exec(names: &Vec<String>) -> (r: String)
    ensures
        r@ == join_names(names_view(names@)),
{
    let ghost v = names_view(names@);
    let mut r = String::new();
    let mut i: usize = 0;
    while i < names.len()
        invariant
            0 <= i <= names@.len(),
            v == names_view(names@),
            r@ == join_names(v.take(i as int)),
        decreases names@.len() - i,
    {
        proof {
            reveal_strlit("/");
            assert(v.take(i + 1).drop_last() =~= v.take(i as int));
            assert(v.take(i + 1).last() == v[i as int]);
            if i == 0 {
                assert(v.take(1)[0] == v[0]);
                assert(join_names(v.take(0)) =~= Seq::<char>::empty());
            }
        }
        if i > 0 {
            r.append("/");
            proof {
                assert("/"@ =~= seq!['/']);
            }
        }
        r.append(names[i].as_str());
        proof {
            if i == 0 {
                assert(r@ =~= join_names(v.take(1)));
            }
        }
        i += 1;
    }
    proof {
        assert(v.take(names@.len() as int) =~= v);
    }
    r
}

/// Find the last `/` and the last `.`, as `last_pos` describes, in one scan.
fn last_pos_exec(s: &str, c: char) -> (r: Option<usize>)
    ensures
        match r {
            Some(p) => last_pos(s@, c) == p as int && p < s@.len(),
            None => last_pos(s@, c) == -1,
        },
{
    let n = s.unicode_len();
    let mut i: usize = 0;
    let mut found: Option<usize> = None;
    while i < n
        invariant
            0 <= i <= n,
            n == s@.len(),
            match found {
                Some(p) => last_pos(s@.take(i as int), c) == p as int && p < i,
                None => last_pos(s@.take(i as int), c) == -1,
            },
        decreases n - i,
    {
        proof {
            assert(s@.take(i + 1).drop_last() =~= s@.take(i as int));
            assert(s@.take(i + 1).last() == s@[i as int]);
        }
        let ch = s.get_char(i);
        if ch == c {
            found = Some(i);
        }
        i += 1;
    }
    proof {
        assert(s@.take(n as int) =~= s@);
    }
    found
}

/// The extension of a slash path, as `ext_of` describes.
pub fn extension_of(s: &str) -> (r: Option<String>)
    ensures
        match r {
            Some(e) => ext_of(s@) == Some(e@),
            None => ext_of(s@) is None,
        },
{
    let n = s.unicode_len();
    let ls = last_pos_exec(s, '/');
    let ld = last_pos_exec(s, '.');
    let replace = match (ld, ls) {
        (Some(d), Some(sl)) => d > sl && d - sl > 1,
        (Some(d), None) => d > 0,
        (None, _) => false,
    };
    if replace {
        let d = match ld {
            Some(d) => d,
            None => 0,
        };
        let e = s.substring_char(d + 1, n);
        proof {
            assert(e@ =~= s@.skip(last_pos(s@, '.') + 1));
        }
        Some(String::from_str(e))
    } else {
        None
    }
}

/// Replace or add the playlist-file extension, as `with_playlist_ext`
/// describes.
pub fn set_playlist_ext(s: &str) -> (r: String)
    ensures
        r@ == with_playlist_ext(s@),
{
    let n = s.unicode_len();
    let ls = last_pos_exec(s, '/');
    let ld = last_pos_exec(s, '.');
    let replace = match (ld, ls) {
        (Some(d), Some(sl)) => d > sl && d - sl > 1,
        (Some(d), None) => d > 0,
        (None, _) => false,
    };
    if replace {
        let d = match ld {
            Some(d) => d,
            None => 0,
        };
        let stem = s.substring_char(0, d);
        proof {
            assert(stem@ =~= s@.take(last_pos(s@, '.')));
        }
        let mut r = String::from_str(stem);
        r.append(".m3u8");
        r
    } else {
        let mut r = String::from_str(s);
        r.append(".m3u8");
        r
    }
}

/// Unwinding `n` levels shortens the stack by `n`, to no less than empty.
pub proof fn lemma_pop_n_len(s: Seq<Seq<char>>, n: int)
    requires
        0 <= n,
    ensures
        pop_n(s, n).len() == if s.len() >= n {
            s.len() - n
        } else {
            0
        },
    decreases n,
{
    if n > 0 && s.len() > 0 {
        lemma_pop_n_len(s.drop_last(), n - 1);
    }
}

/// The stack discipline keeps one segment per level: when the stack holds
/// one more segment than the previous depth and the walk descends at most
/// one level at a time, a visit at `depth` leaves exactly `depth + 1`
/// segments — the ancestor chain of the visited node, ending in its own
/// name.
pub proof fn lemma_stack_after_len(
    stack: Seq<Seq<char>>,
    last: Option<int>,
    name: Seq<char>,
    depth: int,
)
    requires
        match last {
            None => depth == 0 && stack.len() == 0,
            Some(l) => stack.len() == l + 1 && 0 <= depth <= l + 1,
        },
    ensures
        stack_after(stack, last, name, depth).len() == depth + 1,
{
    match last {
        None => {},
        Some(l) => {
            if depth <= l {
                lemma_pop_n_len(stack, l - depth + 1);
            }
        },
    }
}

} // verus!
