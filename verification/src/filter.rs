use vstd::prelude::*;

use crate::gitignore::{
    gitignore_verdict, globset_ok, spec_patterns_of_text, spec_rejected_lines, IgnoreMatcher,
};
use crate::paths::{
    lemma_after_first_inv, lemma_normalize_props, normalize_path, rel_path, spec_after_first,
    spec_normalize, spec_rel_path,
};
use crate::strutil::{spec_contains, spec_starts_with, str_contains, str_eq, str_starts_with};
use crate::text::{is_likely_text, spec_likely_text};

verus! {

/// What is known of a file before its content is read.
pub struct FileMetadata {
    pub path: String,
    pub size: u32,
}

/// The switches of the metadata filter.
pub struct FilterOptions {
    pub text_only: bool,
    pub max_file_size: u32,
    pub include_patterns: Vec<String>,
    pub exclude_patterns: Vec<String>,
}

impl Default for FilterOptions {
    /// Text files only, a two-mebibyte size limit, and no substring
    /// patterns.
    fn default() -> (r: Self)
        ensures
            r.text_only == true,
            r.max_file_size == 2097152,
            r.include_patterns@.len() == 0,
            r.exclude_patterns@.len() == 0,
    {
        FilterOptions {
            text_only: true,
            max_file_size: 2097152,
            include_patterns: Vec::new(),
            exclude_patterns: Vec::new(),
        }
    }
}

/// The retained paths, in input order, and the numbers of the gitignore
/// lines that were skipped as unparsable.
pub struct FilterResult {
    pub paths: Vec<String>,
    pub skipped_lines: Vec<usize>,
}

/// How filtering can fail as a whole.
pub enum FilterError {
    /// The gitignore glob set failed to build.
    GitignoreBuild,
}

// ---------- the filter predicate ----------

/// An entry names a directory when its raw path ends with a slash.
pub open spec fn spec_is_dir_meta(m: FileMetadata) -> bool {
    m.path@.len() > 0 && m.path@[m.path@.len() - 1] == '/'
}

/// The root-relative path an entry is judged by.
pub open spec fn spec_meta_rel(m: FileMetadata) -> Seq<char> {
    spec_rel_path(spec_normalize(m.path@), spec_is_dir_meta(m))
}

/// Whether one entry survives the filter: a non-empty relative path, not
/// `.git` or inside it, not gitignored, text when only text is wanted, not
/// over the size limit, matching some include pattern when any are given,
/// and matching no exclude pattern.
pub open spec fn spec_keep(m: FileMetadata, patterns: Seq<Seq<char>>, o: FilterOptions) -> bool {
    let is_dir = spec_is_dir_meta(m);
    let rel = spec_meta_rel(m);
    &&& rel.len() > 0
    &&& !(rel == ".git"@ || spec_starts_with(rel, ".git/"@))
    &&& !gitignore_verdict(patterns, rel, is_dir)
    &&& ((o.text_only && !is_dir) ==> spec_likely_text(rel))
    &&& m.size <= o.max_file_size
    &&& (o.include_patterns@.len() > 0 ==> exists|k: int|
        0 <= k < o.include_patterns@.len() && spec_contains(
            rel,
            #[trigger] o.include_patterns@[k]@,
        ))
    &&& (forall|k: int|
        0 <= k < o.exclude_patterns@.len() ==> !spec_contains(
            rel,
            #[trigger] o.exclude_patterns@[k]@,
        ))
}

/// The kept entries' original paths, in input order.
pub open spec fn spec_filter(
    ms: Seq<FileMetadata>,
    patterns: Seq<Seq<char>>,
    o: FilterOptions,
) -> Seq<Seq<char>>
    decreases ms.len(),
{
    if ms.len() == 0 {
        Seq::empty()
    } else {
        (if spec_keep(ms[0], patterns, o) {
            seq![ms[0].path@]
        } else {
            Seq::empty()
        }) + spec_filter(ms.drop_first(), patterns, o)
    }
}

/// An entry over the size limit is dropped whatever the other options and
/// patterns say.
pub proof fn lemma_size_limit(m: FileMetadata, patterns: Seq<Seq<char>>, o: FilterOptions)
    ensures
        m.size > o.max_file_size ==> !spec_keep(m, patterns, o),
{
}

// ---------- runtime helpers ----------

fn any_contains(hay: &str, pats: &Vec<String>) -> (r: bool)
    ensures
        r == exists|k: int|
            0 <= k < pats@.len() && spec_contains(hay@, #[trigger] pats@[k]@),
{
    let mut k: usize = 0;
    while k < pats.len()
        invariant
            k <= pats@.len(),
            forall|j: int| 0 <= j < k ==> !spec_contains(hay@, #[trigger] pats@[j]@),
        decreases pats@.len() - k,
    {
        if str_contains(hay, pats[k].as_str()) {
            return true;
        }
        k = k + 1;
    }
    false
}

// ---------- the filter ----------

/// Filter a batch of entries against an already compiled matcher.
pub fn filter_files_with_matcher(
    metadata: &Vec<FileMetadata>,
    matcher: &IgnoreMatcher,
    options: &FilterOptions,
) -> (r: Vec<String>)
    ensures
        r.deep_view() == spec_filter(metadata@, matcher.patterns(), *options),
{
    let ghost ms = metadata@;
    let ghost pats = matcher.patterns();
    let mut kept: Vec<String> = Vec::new();
    let mut i: usize = 0;
    proof {
        assert(ms.skip(0) =~= ms);
        assert(Seq::<Seq<char>>::empty() + spec_filter(ms, pats, *options) =~= spec_filter(
            ms,
            pats,
            *options,
        ));
    }
    while i < metadata.len()
        invariant
            ms == metadata@,
            pats == matcher.patterns(),
            i <= ms.len(),
            spec_filter(ms, pats, *options) == kept.deep_view() + spec_filter(
                ms.skip(i as int),
                pats,
                *options,
            ),
        decreases ms.len() - i,
    {
        proof {
            assert(ms.skip(i as int)[0] == ms[i as int]);
            assert(ms.skip(i as int).drop_first() =~= ms.skip(i + 1));
        }
        let raw = metadata[i].path.as_str();
        let rawlen = raw.unicode_len();
        let is_dir = rawlen > 0 && raw.get_char(rawlen - 1) == '/';
        let norm = normalize_path(raw);
        let rel = rel_path(norm.as_str(), is_dir);
        proof {
            assert(is_dir == spec_is_dir_meta(ms[i as int]));
            assert(rel@ == spec_meta_rel(ms[i as int]));
        }
        let keep = {
            if rel.as_str().unicode_len() == 0 {
                false
            } else if str_eq(rel.as_str(), ".git") || str_starts_with(rel.as_str(), ".git/") {
                false
            } else {
                proof {
                    lemma_normalize_props(raw@);
                    if spec_after_first(norm@, '/') is Some {
                        lemma_after_first_inv(norm@, '/');
                        let k = choose|k: int|
                            0 <= k < norm@.len() && norm@[k] == '/' && #[trigger] norm@.skip(k + 1)
                                == spec_after_first(norm@, '/')->Some_0;
                        if rel@.len() > 0 {
                            assert(rel@[0] == norm@[k + 1]);
                        }
                    }
                }
                if matcher.is_ignored(rel.as_str(), is_dir) {
                    false
                } else if options.text_only && !is_dir && !is_likely_text(rel.as_str()) {
                    false
                } else if metadata[i].size > options.max_file_size {
                    false
                } else if options.include_patterns.len() > 0 && !any_contains(
                    rel.as_str(),
                    &options.include_patterns,
                ) {
                    false
                } else if any_contains(rel.as_str(), &options.exclude_patterns) {
                    false
                } else {
                    true
                }
            }
        };
        proof {
            assert(keep == spec_keep(ms[i as int], pats, *options));
        }
        if keep {
            let ghost dv0 = kept.deep_view();
            kept.push(metadata[i].path.clone());
            proof {
                assert(kept.deep_view() =~= dv0.push(ms[i as int].path@));
                assert(dv0 + (seq![ms[i as int].path@] + spec_filter(ms.skip(i + 1), pats, *options))
                    =~= dv0.push(ms[i as int].path@) + spec_filter(ms.skip(i + 1), pats, *options));
            }
        } else {
            proof {
                assert(kept.deep_view() + (Seq::<Seq<char>>::empty() + spec_filter(
                    ms.skip(i + 1),
                    pats,
                    *options,
                )) =~= kept.deep_view() + spec_filter(ms.skip(i + 1), pats, *options));
            }
        }
        i = i + 1;
    }
    proof {
        assert(ms.skip(ms.len() as int) =~= Seq::<FileMetadata>::empty());
        assert(kept.deep_view() + Seq::<Seq<char>>::empty() =~= kept.deep_view());
    }
    kept
}

/// Compile the gitignore text and filter a batch of entries. Unusable
/// gitignore lines are skipped, never fatal, and reported by line number;
/// the call fails exactly when the glob set does not build from the
/// usable lines.
pub fn filter_files(
    metadata: &Vec<FileMetadata>,
    gitignore_text: &str,
    options: &FilterOptions,
) -> (r: Result<FilterResult, FilterError>)
    ensures
        r matches Ok(fr) ==> fr.paths.deep_view() == spec_filter(
            metadata@,
            spec_patterns_of_text(gitignore_text@),
            *options,
        ) && fr.skipped_lines@.map_values(|x: usize| x as int) == spec_rejected_lines(
            gitignore_text@,
        ),
        r is Ok == globset_ok(spec_patterns_of_text(gitignore_text@)),
{
    match IgnoreMatcher::from_text(gitignore_text) {
        Some(p) => {
            let (m, skipped) = p;
            Ok(
                FilterResult {
                    paths: filter_files_with_matcher(metadata, &m, options),
                    skipped_lines: skipped,
                },
            )
        },
        None => Err(FilterError::GitignoreBuild),
    }
}

} // verus!
