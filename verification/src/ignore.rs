use vstd::prelude::*;

verus! {

/// Whether a glob pattern string compiles. A function of the string alone.
pub uninterp spec fn glob_valid(pat: Seq<char>) -> bool;

/// Whether a compiling glob pattern matches a path. A function of the
/// pattern string and the path alone.
pub uninterp spec fn glob_matches(pat: Seq<char>, path: Seq<char>) -> bool;

/// Relies on glob::Pattern::new: whether the pattern string is a valid glob.
#[verifier::external_body]
fn glob_compiles(pat: &str) -> (r: bool)
    ensures
        r == glob_valid(pat@),
{
    glob::Pattern::new(pat).is_ok()
}

/// Relies on glob::Pattern::new and glob::Pattern::matches: compiles the
/// pattern (the caller knows it compiles) and tests the path against it.
#[verifier::external_body]
fn glob_match(pat: &str, path: &str) -> (r: bool)
    requires
        glob_valid(pat@),
    ensures
        r == glob_matches(pat@, path@),
{
    match glob::Pattern::new(pat) {
        Ok(p) => p.matches(path),
        Err(_) => false,
    }
}

/// The lines of an ignore file that compile, in order.
pub open spec fn kept_pats(lines: Seq<Seq<char>>) -> Seq<Seq<char>>
    decreases lines.len(),
{
    if lines.len() == 0 {
        Seq::empty()
    } else {
        kept_pats(lines.drop_last()) + (if glob_valid(lines.last()) {
            seq![lines.last()]
        } else {
            Seq::empty()
        })
    }
}

/// The lines that do not compile and are reported and discarded, in order.
pub open spec fn bad_lines(lines: Seq<Seq<char>>) -> Seq<Seq<char>>
    decreases lines.len(),
{
    if lines.len() == 0 {
        Seq::empty()
    } else {
        bad_lines(lines.drop_last()) + (if glob_valid(lines.last()) {
            Seq::empty()
        } else {
            seq![lines.last()]
        })
    }
}

/// Whether any pattern of the list matches the path.
pub open spec fn spec_ignored(pats: Seq<Seq<char>>, path: Seq<char>) -> bool {
    exists|i: int| 0 <= i < pats.len() && glob_matches(pats[i], path)
}

/// The views of a list of strings.
pub open spec fn lines_view(s: Seq<String>) -> Seq<Seq<char>> {
    s.map(|k: int, x: String| x@)
}

/// The compiled ignore list: pattern strings, each known to compile.
pub struct IgnoreList {
    pub patterns: Vec<String>,
}

impl IgnoreList {
    /// The pattern strings, as contracts speak of them.
    pub open spec fn pats(&self) -> Seq<Seq<char>> {
        lines_view(self.patterns@)
    }

    /// Every kept pattern compiles.
    pub open spec fn wf(&self) -> bool {
        forall|i: int| 0 <= i < self.pats().len() ==> glob_valid(#[trigger] self.pats()[i])
    }

    /// Compile an ignore file: keep the lines that compile, hand back the
    /// ones that do not, both in file order.
    pub fn compile(lines: &Vec<String>) -> (r: (IgnoreList, Vec<String>))
        ensures
            r.0.wf(),
            r.0.pats() == kept_pats(lines_view(lines@)),
            lines_view(r.1@) == bad_lines(lines_view(lines@)),
    {
        let ghost lv = lines_view(lines@);
        let mut kept: Vec<String> = Vec::new();
        let mut bad: Vec<String> = Vec::new();
        let mut i: usize = 0;
        while i < lines.len()
            invariant
                0 <= i <= lines@.len(),
                lv == lines_view(lines@),
                lines_view(kept@) == kept_pats(lv.take(i as int)),
                lines_view(bad@) == bad_lines(lv.take(i as int)),
                forall|t: int|
                    0 <= t < kept@.len() ==> glob_valid(#[trigger] lines_view(kept@)[t]),
            decreases lines@.len() - i,
        {
            proof {
                assert(lv.take(i + 1).drop_last() =~= lv.take(i as int));
                assert(lv.take(i + 1).last() == lv[i as int]);
            }
            let line = &lines[i];
            let ghost k0 = kept@;
            let ghost b0 = bad@;
            if glob_compiles(line.as_str()) {
                kept.push(line.clone());
                proof {
                    assert(lines_view(kept@) =~= lines_view(k0) + seq![line@]);
                    assert(lines_view(bad@) =~= bad_lines(lv.take(i + 1)));
                }
            } else {
                bad.push(line.clone());
                proof {
                    assert(lines_view(bad@) =~= lines_view(b0) + seq![line@]);
                    assert(lines_view(kept@) =~= kept_pats(lv.take(i + 1)));
                }
            }
            i += 1;
        }
        proof {
            assert(lv.take(lines@.len() as int) =~= lv);
        }
        (IgnoreList { patterns: kept }, bad)
    }

    /// Whether any pattern matches the path: exactly when some kept line,
    /// tested as a glob, matches it.
    pub fn is_ignored(&self, path: &str) -> (r: bool)
        requires
            self.wf(),
        ensures
            r == spec_ignored(self.pats(), path@),
    {
        let mut i: usize = 0;
        while i < self.patterns.len()
            invariant
                0 <= i <= self.patterns@.len(),
                self.wf(),
                forall|t: int| 0 <= t < i ==> !glob_matches(#[trigger] self.pats()[t], path@),
            decreases self.patterns@.len() - i,
        {
            proof {
                assert(self.pats()[i as int] == self.patterns@[i as int]@);
            }
            if glob_match(self.patterns[i].as_str(), path) {
                proof {
                    assert(glob_matches(self.pats()[i as int], path@));
                }
                return true;
            }
            i += 1;
        }
        false
    }
}

} // verus!
