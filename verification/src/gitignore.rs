use vstd::prelude::*;

use crate::chars::is_ws_char;
use crate::strutil::{spec_split, spec_trim, spec_trim_end, spec_trim_start};
use crate::strutil::{str_split, str_trim};

verus! {

#[verifier::external_type_specification]
#[verifier::external_body]
pub struct ExGitignoreBuilder(ignore::gitignore::GitignoreBuilder);

#[verifier::external_type_specification]
#[verifier::external_body]
pub struct ExGitignore(ignore::gitignore::Gitignore);

/// The gitignore pattern lines a builder holds, in the order they were
/// added.
pub uninterp spec fn builder_patterns(b: ignore::gitignore::GitignoreBuilder) -> Seq<Seq<char>>;

/// The gitignore pattern lines a compiled matcher was built from.
pub uninterp spec fn matcher_patterns(g: ignore::gitignore::Gitignore) -> Seq<Seq<char>>;

/// Whether the `ignore` crate parses this line as one glob.
pub uninterp spec fn line_accepted(line: Seq<char>) -> bool;

/// Whether the glob set compiles from these pattern lines; like parsing,
/// compiling is a function of the lines alone.
pub uninterp spec fn globset_ok(patterns: Seq<Seq<char>>) -> bool;

/// The verdict of gitignore matching: whether `path` (a relative path with
/// directory-ness `is_dir`), or any parent directory of it, is ignored
/// under `patterns`.
pub uninterp spec fn gitignore_verdict(
    patterns: Seq<Seq<char>>,
    path: Seq<char>,
    is_dir: bool,
) -> bool;

/// Relies on `ignore::gitignore::GitignoreBuilder::new`: a fresh builder
/// holds no globs. The root is fixed to `.`, so paths are matched as
/// given, relative to that root.
#[verifier::external_body]
fn new_builder() -> (b: ignore::gitignore::GitignoreBuilder)
    ensures
        builder_patterns(b) == Seq::<Seq<char>>::empty(),
{
    ignore::gitignore::GitignoreBuilder::new(".")
}

/// Relies on `ignore::gitignore::GitignoreBuilder::add_line`: a line that
/// is not empty, does not open with `#` and carries no trailing white
/// space is parsed as one glob and appended, or rejected with the builder
/// unchanged. Every builder here comes from [`new_builder`], so it keeps
/// the crate's default configuration and whether a line parses depends on
/// the line alone.
#[verifier::external_body]
fn builder_add_line(b: &mut ignore::gitignore::GitignoreBuilder, line: &str) -> (ok: bool)
    requires
        line@.len() > 0,
        line@[0] != '#',
        !is_ws_char(line@[line@.len() - 1]),
    ensures
        ok == line_accepted(line@),
        ok ==> builder_patterns(*final(b)) == builder_patterns(*old(b)).push(line@),
        !ok ==> builder_patterns(*final(b)) == builder_patterns(*old(b)),
{
    b.add_line(None, line).is_ok()
}

/// Relies on `ignore::gitignore::GitignoreBuilder::build`: on success the
/// matcher holds exactly the globs added so far; whether the glob set
/// compiles is decided by those globs, and an empty set always compiles.
#[verifier::external_body]
fn builder_build(b: &ignore::gitignore::GitignoreBuilder) -> (r: Option<
    ignore::gitignore::Gitignore,
>)
    ensures
        r matches Some(g) ==> matcher_patterns(g) == builder_patterns(*b),
        r is Some == globset_ok(builder_patterns(*b)),
        builder_patterns(*b).len() == 0 ==> r is Some,
{
    match b.build() {
        Ok(g) => Some(g),
        Err(_) => None,
    }
}

/// Relies on `ignore::gitignore::Gitignore::matched_path_or_any_parents`
/// and `ignore::Match::is_ignore`: the matching verdict for a relative
/// path, every parent directory considered as well; it depends only on the
/// patterns, the path and `is_dir`; with no patterns at all, nothing is
/// ignored. The crate panics on a rooted path, so one is refused here.
#[verifier::external_body]
fn matcher_is_ignored(g: &ignore::gitignore::Gitignore, path: &str, is_dir: bool) -> (r: bool)
    requires
        path@.len() > 0 ==> path@[0] != '/',
    ensures
        r == gitignore_verdict(matcher_patterns(*g), path@, is_dir),
        matcher_patterns(*g).len() == 0 ==> r == false,
{
    g.matched_path_or_any_parents(path, is_dir).is_ignore()
}

// ---------- the pattern lines a text compiles to ----------

/// Trim each line, skip blank lines and `#` comments, and keep the lines
/// the glob parser accepts.
pub open spec fn spec_accepted_patterns(ls: Seq<Seq<char>>) -> Seq<Seq<char>>
    decreases ls.len(),
{
    if ls.len() == 0 {
        Seq::empty()
    } else {
        let t = spec_trim(ls[0]);
        (if t.len() > 0 && t[0] != '#' && line_accepted(t) {
            seq![t]
        } else {
            Seq::empty()
        }) + spec_accepted_patterns(ls.drop_first())
    }
}

/// The patterns that compiling `text` yields: its lines, trimmed, with
/// blanks, comments and unparsable lines dropped.
pub open spec fn spec_patterns_of_text(text: Seq<char>) -> Seq<Seq<char>> {
    spec_accepted_patterns(spec_split(text, '\n'))
}

/// The one-based numbers of the lines the glob parser rejects, counting
/// from `base`.
pub open spec fn spec_rejected_from(ls: Seq<Seq<char>>, base: int) -> Seq<int>
    decreases ls.len(),
{
    if ls.len() == 0 {
        Seq::empty()
    } else {
        let t = spec_trim(ls[0]);
        (if t.len() > 0 && t[0] != '#' && !line_accepted(t) {
            seq![base]
        } else {
            Seq::empty()
        }) + spec_rejected_from(ls.drop_first(), base + 1)
    }
}

/// The one-based numbers of the lines of `text` that are skipped as
/// unparsable.
pub open spec fn spec_rejected_lines(text: Seq<char>) -> Seq<int> {
    spec_rejected_from(spec_split(text, '\n'), 1)
}

proof fn lemma_trim_end_no_ws(s: Seq<char>)
    ensures
        spec_trim_end(s).len() > 0 ==> !is_ws_char(spec_trim_end(s)[spec_trim_end(s).len() - 1]),
    decreases s.len(),
{
    if s.len() > 0 && is_ws_char(s[s.len() - 1]) {
        lemma_trim_end_no_ws(s.drop_last());
    }
}

// ---------- the matcher ----------

/// A compiled gitignore matcher.
pub struct IgnoreMatcher {
    inner: ignore::gitignore::Gitignore,
}

impl IgnoreMatcher {
    /// The pattern lines this matcher was compiled from.
    pub closed spec fn patterns(&self) -> Seq<Seq<char>> {
        matcher_patterns(self.inner)
    }

    /// Compile gitignore pattern text: blank and `#` lines are skipped,
    /// unparsable lines are dropped and reported by line number, and the
    /// rest become the matcher's patterns. `None` exactly when the glob
    /// set fails to build from those patterns.
    pub fn from_text(text: &str) -> (r: Option<(IgnoreMatcher, Vec<usize>)>)
        ensures
            r matches Some(p) ==> p.0.patterns() == spec_patterns_of_text(text@)
                && p.1@.map_values(|x: usize| x as int) == spec_rejected_lines(text@),
            r is Some == globset_ok(spec_patterns_of_text(text@)),
    {
        let lines = str_split(text, '\n');
        let ghost ls = lines.deep_view();
        let mut b = new_builder();
        let mut skipped: Vec<usize> = Vec::new();
        let mut i: usize = 0;
        proof {
            assert(ls.skip(0) =~= ls);
            assert(Seq::<Seq<char>>::empty() + spec_accepted_patterns(ls)
                =~= spec_accepted_patterns(ls));
            assert(skipped@.map_values(|x: usize| x as int) =~= Seq::<int>::empty());
            assert(Seq::<int>::empty() + spec_rejected_from(ls, 1) =~= spec_rejected_from(ls, 1));
        }
        while i < lines.len()
            invariant
                ls == lines.deep_view(),
                i <= lines.len(),
                spec_accepted_patterns(ls) == builder_patterns(b) + spec_accepted_patterns(
                    ls.skip(i as int),
                ),
                spec_rejected_from(ls, 1) == skipped@.map_values(|x: usize| x as int)
                    + spec_rejected_from(ls.skip(i as int), i + 1),
            decreases lines.len() - i,
        {
            let ghost sk0 = skipped@.map_values(|x: usize| x as int);
            let t = str_trim(lines[i].as_str());
            proof {
                assert(lines[i as int]@ == ls[i as int]);
                assert(ls.skip(i as int)[0] == ls[i as int]);
                assert(ls.skip(i as int).drop_first() =~= ls.skip(i + 1));
            }
            let tlen = t.unicode_len();
            if tlen > 0 && t.get_char(0) != '#' {
                proof {
                    lemma_trim_end_no_ws(spec_trim_start(ls[i as int]));
                }
                let ghost before = builder_patterns(b);
                let ok = builder_add_line(&mut b, t);
                if !ok {
                    skipped.push(i + 1);
                }
                proof {
                    if ok {
                        assert(before.push(t@) =~= before + seq![t@]);
                        assert(before + (seq![t@] + spec_accepted_patterns(ls.skip(i + 1))) =~= (
                        before + seq![t@]) + spec_accepted_patterns(ls.skip(i + 1)));
                        assert(sk0 + (Seq::<int>::empty() + spec_rejected_from(ls.skip(i + 1), i
                            + 2)) =~= sk0 + spec_rejected_from(ls.skip(i + 1), i + 2));
                    } else {
                        assert(before + (Seq::<Seq<char>>::empty() + spec_accepted_patterns(
                            ls.skip(i + 1),
                        )) =~= before + spec_accepted_patterns(ls.skip(i + 1)));
                        assert(skipped@.map_values(|x: usize| x as int) =~= sk0.push(i + 1));
                        assert(sk0 + (seq![i + 1] + spec_rejected_from(ls.skip(i + 1), i + 2))
                            =~= sk0.push(i + 1) + spec_rejected_from(ls.skip(i + 1), i + 2));
                    }
                }
            } else {
                proof {
                    assert(builder_patterns(b) + (Seq::<Seq<char>>::empty()
                        + spec_accepted_patterns(ls.skip(i + 1))) =~= builder_patterns(b)
                        + spec_accepted_patterns(ls.skip(i + 1)));
                    assert(sk0 + (Seq::<int>::empty() + spec_rejected_from(ls.skip(i + 1), i + 2))
                        =~= sk0 + spec_rejected_from(ls.skip(i + 1), i + 2));
                }
            }
            i = i + 1;
        }
        proof {
            assert(ls.skip(lines.len() as int) =~= Seq::<Seq<char>>::empty());
            assert(builder_patterns(b) + Seq::<Seq<char>>::empty() =~= builder_patterns(b));
            assert(skipped@.map_values(|x: usize| x as int) + Seq::<int>::empty() =~= skipped@.map_values(
                |x: usize| x as int,
            ));
        }
        match builder_build(&b) {
            Some(g) => Some((IgnoreMatcher { inner: g }, skipped)),
            None => None,
        }
    }

    /// The matching verdict for a relative path: the path itself and every
    /// implied parent directory are tested against the patterns.
    pub fn is_ignored(&self, path: &str, is_dir: bool) -> (r: bool)
        requires
            path@.len() > 0 ==> path@[0] != '/',
        ensures
            r == gitignore_verdict(self.patterns(), path@, is_dir),
            self.patterns().len() == 0 ==> r == false,
    {
        matcher_is_ignored(&self.inner, path, is_dir)
    }
}

} // verus!
