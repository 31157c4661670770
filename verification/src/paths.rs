use vstd::prelude::*;

use crate::chars::{ascii_alpha, is_ascii_alpha};
use crate::strutil::spec_tail_after_last;
use crate::strutil::str_tail_after_last;

verus! {

// ---------- the passes of path normalization ----------

/// A DOS-style volume prefix stands at the front: a letter, a colon,
/// and then a separator or nothing.
pub open spec fn spec_is_vol(s: Seq<char>) -> bool {
    s.len() >= 2 && is_ascii_alpha(s[0]) && s[1] == ':' && (s.len() == 2 || s[2] == '/')
}

/// Drop leading slashes and volume prefixes until neither is left.
pub open spec fn spec_peel(s: Seq<char>) -> Seq<char>
    decreases s.len(),
{
    if s.len() > 0 && s[0] == '/' {
        spec_peel(s.skip(1))
    } else if spec_is_vol(s) {
        spec_peel(s.skip(2))
    } else {
        s
    }
}

/// Turn every backslash into a forward slash.
pub open spec fn spec_map_slash(s: Seq<char>) -> Seq<char> {
    Seq::new(s.len(), |i: int| if s[i] == '\\' {
        '/'
    } else {
        s[i]
    })
}

/// Collapse every run of slashes to a single slash.
pub open spec fn spec_collapse(s: Seq<char>) -> Seq<char>
    decreases s.len(),
{
    if s.len() == 0 {
        s
    } else if s.len() >= 2 && s[0] == '/' && s[1] == '/' {
        spec_collapse(s.drop_first())
    } else {
        seq![s[0]] + spec_collapse(s.drop_first())
    }
}

/// Drop one trailing slash.
pub open spec fn spec_strip_trail(s: Seq<char>) -> Seq<char> {
    if s.len() > 0 && s[s.len() - 1] == '/' {
        s.drop_last()
    } else {
        s
    }
}

/// The canonical form of a path: backslashes turned into slashes, slash
/// runs collapsed, root and volume prefixes peeled off the front, and no
/// trailing slash. Normalizing is idempotent ([`lemma_normalize_idempotent`]).
pub open spec fn spec_normalize(s: Seq<char>) -> Seq<char> {
    spec_strip_trail(spec_peel(spec_collapse(spec_map_slash(s))))
}

// ---------- facts about collapsed strings ----------

proof fn lemma_collapse_shape(s: Seq<char>)
    ensures
        s.len() > 0 ==> spec_collapse(s).len() > 0,
        s.len() > 0 ==> spec_collapse(s)[0] == s[0],
        forall|i: int|
            0 <= i < spec_collapse(s).len() - 1 ==> !(#[trigger] spec_collapse(s)[i] == '/'
                && spec_collapse(s)[i + 1] == '/'),
        forall|i: int|
            0 <= i < spec_collapse(s).len() ==> (exists|j: int|
                0 <= j < s.len() && #[trigger] spec_collapse(s)[i] == s[j]),
    decreases s.len(),
{
    if s.len() == 0 {
    } else if s.len() >= 2 && s[0] == '/' && s[1] == '/' {
        lemma_collapse_shape(s.drop_first());
        assert forall|i: int| 0 <= i < spec_collapse(s).len() implies (exists|j: int|
            0 <= j < s.len() && #[trigger] spec_collapse(s)[i] == s[j]) by {
            let t = s.drop_first();
            assert(spec_collapse(s)[i] == spec_collapse(t)[i]);
            let j = choose|j: int| 0 <= j < t.len() && spec_collapse(t)[i] == t[j];
            assert(s[j + 1] == t[j]);
        }
    } else {
        lemma_collapse_shape(s.drop_first());
        let t = s.drop_first();
        let r = spec_collapse(s);
        assert(r == seq![s[0]] + spec_collapse(t));
        assert forall|i: int| 0 <= i < r.len() - 1 implies !(#[trigger] r[i] == '/' && r[i + 1]
            == '/') by {
            if i == 0 {
                if s[0] == '/' && r.len() > 1 {
                    assert(t.len() > 0);
                    assert(s.len() >= 2 && !(s[0] == '/' && s[1] == '/'));
                    assert(r[1] == spec_collapse(t)[0]);
                    assert(spec_collapse(t)[0] == t[0]);
                    assert(t[0] == s[1]);
                }
            } else {
                assert(r[i] == spec_collapse(t)[i - 1]);
                assert(r[i + 1] == spec_collapse(t)[i]);
            }
        }
        assert forall|i: int| 0 <= i < r.len() implies (exists|j: int|
            0 <= j < s.len() && #[trigger] r[i] == s[j]) by {
            if i == 0 {
                assert(r[0] == s[0]);
            } else {
                let j = choose|j: int| 0 <= j < t.len() && spec_collapse(t)[i - 1] == t[j];
                assert(r[i] == spec_collapse(t)[i - 1]);
                assert(s[j + 1] == t[j]);
            }
        }
    }
}

/// Peeling takes a suffix, and what is left opens with neither a slash
/// nor a volume prefix.
proof fn lemma_peel_props(s: Seq<char>)
    ensures
        exists|k: int| 0 <= k <= s.len() && spec_peel(s) == #[trigger] s.skip(k),
        spec_peel(s).len() > 0 ==> spec_peel(s)[0] != '/',
        !spec_is_vol(spec_peel(s)),
    decreases s.len(),
{
    if s.len() > 0 && s[0] == '/' {
        lemma_peel_props(s.skip(1));
        let k = choose|k: int| 0 <= k <= s.skip(1).len() && spec_peel(s.skip(1)) == #[trigger] s.skip(
            1,
        ).skip(k);
        assert(s.skip(1).skip(k) =~= s.skip(k + 1));
        assert(spec_peel(s) == s.skip(k + 1));
    } else if spec_is_vol(s) {
        lemma_peel_props(s.skip(2));
        let k = choose|k: int| 0 <= k <= s.skip(2).len() && spec_peel(s.skip(2)) == #[trigger] s.skip(
            2,
        ).skip(k);
        assert(s.skip(2).skip(k) =~= s.skip(k + 2));
        assert(spec_peel(s) == s.skip(k + 2));
    } else {
        assert(s.skip(0) =~= s);
        assert(spec_peel(s) == s.skip(0));
    }
}

/// A string with no doubled slash collapses to itself.
proof fn lemma_collapse_fixpoint(s: Seq<char>)
    requires
        forall|i: int| 0 <= i < s.len() - 1 ==> !(#[trigger] s[i] == '/' && s[i + 1] == '/'),
    ensures
        spec_collapse(s) == s,
    decreases s.len(),
{
    if s.len() > 0 {
        assert forall|i: int| 0 <= i < s.drop_first().len() - 1 implies !(#[trigger] s.drop_first()[i]
            == '/' && s.drop_first()[i + 1] == '/') by {
            assert(s.drop_first()[i] == s[i + 1]);
            assert(s.drop_first()[i + 1] == s[i + 2]);
        }
        lemma_collapse_fixpoint(s.drop_first());
        assert(seq![s[0]] + s.drop_first() =~= s);
    }
}

/// A normalized path has no leading, trailing or doubled slash, no
/// backslash, and no volume prefix left at its front.
pub proof fn lemma_normalize_props(s: Seq<char>)
    ensures
        spec_normalize(s).len() > 0 ==> spec_normalize(s)[0] != '/',
        spec_normalize(s).len() > 0 ==> spec_normalize(s)[spec_normalize(s).len() - 1] != '/',
        forall|i: int|
            0 <= i < spec_normalize(s).len() - 1 ==> !(#[trigger] spec_normalize(s)[i] == '/'
                && spec_normalize(s)[i + 1] == '/'),
        forall|i: int| 0 <= i < spec_normalize(s).len() ==> #[trigger] spec_normalize(s)[i] != '\\',
        !spec_is_vol(spec_normalize(s)),
{
    let m = spec_map_slash(s);
    let c = spec_collapse(m);
    let l = spec_peel(c);
    let r = spec_normalize(s);
    lemma_collapse_shape(m);
    assert(forall|i: int| 0 <= i < m.len() ==> #[trigger] m[i] != '\\');
    assert forall|i: int| 0 <= i < c.len() implies #[trigger] c[i] != '\\' by {
        let j = choose|j: int| 0 <= j < m.len() && c[i] == m[j];
    }
    lemma_peel_props(c);
    let k = choose|k: int| 0 <= k <= c.len() && l == #[trigger] c.skip(k);
    // the peeled string inherits the collapsed string's shape
    assert forall|i: int| 0 <= i < l.len() - 1 implies !(#[trigger] l[i] == '/' && l[i + 1] == '/')
        by {
        assert(l[i] == c[k + i]);
        assert(l[i + 1] == c[k + i + 1]);
    }
    assert(forall|i: int| 0 <= i < l.len() ==> #[trigger] l[i] == c[k + i]);
    if r.len() > 0 {
        assert(r[0] == l[0]);
    }
    if l.len() > 0 && l[l.len() - 1] == '/' {
        // the dropped trailing slash was single
        assert(r =~= l.drop_last());
        if r.len() > 0 {
            assert(r[r.len() - 1] == l[l.len() - 2]);
            assert(!(l[l.len() as int - 2] == '/' && l[l.len() as int - 1] == '/'));
        }
        // a volume prefix cannot surface by dropping that slash: the
        // colon-and-slash shape would already have been peeled
        if spec_is_vol(r) {
            if r.len() == 2 {
                assert(l[2] == '/');
                assert(spec_is_vol(l));
            } else {
                assert(l[2] == r[2]);
                assert(spec_is_vol(l));
            }
        }
    } else {
        assert(r =~= l);
    }
    assert forall|i: int| 0 <= i < r.len() - 1 implies !(#[trigger] r[i] == '/' && r[i + 1] == '/')
        by {
        assert(r[i] == l[i]);
        assert(r[i + 1] == l[i + 1]);
    }
    assert forall|i: int| 0 <= i < r.len() implies #[trigger] r[i] != '\\' by {
        assert(r[i] == l[i]);
        assert(l[i] == c[k + i]);
    }
}

/// Normalizing is idempotent: a normalized path normalizes to itself.
pub proof fn lemma_normalize_idempotent(s: Seq<char>)
    ensures
        spec_normalize(spec_normalize(s)) == spec_normalize(s),
{
    let r = spec_normalize(s);
    lemma_normalize_props(s);
    assert(spec_map_slash(r) =~= r);
    lemma_collapse_fixpoint(r);
    assert(spec_collapse(spec_map_slash(r)) == r);
    if r.len() > 0 {
        assert(r[0] != '/');
    }
    assert(spec_peel(r) == r);
    if r.len() > 0 {
        assert(r[r.len() - 1] != '/');
    }
    assert(spec_strip_trail(r) == r);
}

// ---------- runtime normalization ----------

/// Canonicalize a path: turn backslashes into slashes, collapse slash
/// runs, peel root and volume prefixes off the front, and drop a
/// trailing slash.
pub fn normalize_path(path: &str) -> (r: String)
    ensures
        r@ == spec_normalize(path@),
{
    let ghost m = spec_map_slash(path@);
    let slen = path.unicode_len();
    let mut t = String::new();
    let mut i: usize = 0;
    proof {
        assert(m.skip(0) =~= m);
        assert(Seq::<char>::empty() + spec_collapse(m) =~= spec_collapse(m));
    }
    while i < slen
        invariant
            slen == path@.len(),
            m == spec_map_slash(path@),
            i <= slen,
            spec_collapse(m) == t@ + spec_collapse(m.skip(i as int)),
        decreases slen - i,
    {
        let c = path.get_char(i);
        let mapped_slash = c == '\\' || c == '/';
        let next_slash = i + 1 < slen && {
            let d = path.get_char(i + 1);
            d == '\\' || d == '/'
        };
        proof {
            assert(m.skip(i as int)[0] == m[i as int]);
            if i + 1 < slen {
                assert(m.skip(i as int)[1] == m[i + 1]);
            }
            assert(m.skip(i as int).drop_first() =~= m.skip(i + 1));
        }
        if mapped_slash && next_slash {
            // the first of two slashes is dropped
        } else if mapped_slash {
            let ghost t0 = t@;
            t.append("/");
            proof {
                reveal_strlit("/");
                assert(t@ =~= t0.push('/'));
                assert(t0 + (seq![m[i as int]] + spec_collapse(m.skip(i + 1))) =~= t0.push(
                    m[i as int],
                ) + spec_collapse(m.skip(i + 1)));
            }
        } else {
            let ghost t0 = t@;
            let piece = path.substring_char(i, i + 1);
            t.append(piece);
            proof {
                assert(piece@ =~= seq![path@[i as int]]);
                assert(m[i as int] == path@[i as int]);
                assert(t@ =~= t0.push(m[i as int]));
                assert(t0 + (seq![m[i as int]] + spec_collapse(m.skip(i + 1))) =~= t0.push(
                    m[i as int],
                ) + spec_collapse(m.skip(i + 1)));
            }
        }
        i = i + 1;
    }
    proof {
        assert(m.skip(slen as int) =~= Seq::<char>::empty());
        assert(t@ + Seq::<char>::empty() =~= t@);
        assert(t@ == spec_collapse(m));
    }
    // peel leading slashes and volume prefixes
    let tlen = t.as_str().unicode_len();
    let mut k: usize = 0;
    let mut done = false;
    proof {
        assert(t@.skip(0) =~= t@);
    }
    while !done
        invariant
            tlen == t@.len(),
            t@ == spec_collapse(m),
            k <= tlen,
            spec_peel(t@) == spec_peel(t@.skip(k as int)),
            done ==> spec_peel(t@.skip(k as int)) == t@.skip(k as int),
        decreases
            tlen - k,
            (if done {
                0int
            } else {
                1int
            }),
    {
        let u = t.as_str();
        proof {
            if k < tlen {
                assert(t@.skip(k as int)[0] == t@[k as int]);
            }
            if k + 1 < tlen {
                assert(t@.skip(k as int)[1] == t@[k + 1]);
            }
            if k + 2 < tlen {
                assert(t@.skip(k as int)[2] == t@[k + 2]);
            }
        }
        if k < tlen && u.get_char(k) == '/' {
            proof {
                assert(t@.skip(k as int).skip(1) =~= t@.skip(k + 1));
            }
            k = k + 1;
        } else if k < tlen && k + 1 < tlen && ascii_alpha(u.get_char(k)) && u.get_char(k + 1)
            == ':' && (k + 2 == tlen || u.get_char(k + 2) == '/') {
            proof {
                assert(spec_is_vol(t@.skip(k as int)));
                assert(t@.skip(k as int).skip(2) =~= t@.skip(k + 2));
            }
            k = k + 2;
        } else {
            proof {
                assert(!spec_is_vol(t@.skip(k as int)));
                assert(spec_peel(t@.skip(k as int)) == t@.skip(k as int));
            }
            done = true;
        }
    }
    // drop a trailing slash
    let b: usize = if tlen > k && t.as_str().get_char(tlen - 1) == '/' {
        tlen - 1
    } else {
        tlen
    };
    let r = t.as_str().substring_char(k, b).to_owned();
    proof {
        let l = spec_peel(t@);
        assert(l == t@.skip(k as int));
        if tlen > k && t@[tlen - 1] == '/' {
            assert(l[l.len() - 1] == t@[tlen - 1]);
            assert(spec_strip_trail(l) =~= l.drop_last());
        } else if l.len() > 0 {
            assert(l[l.len() - 1] == t@[tlen - 1]);
        }
        assert(r@ =~= spec_strip_trail(l));
    }
    r
}

// ---------- the display name of a path ----------

/// `s` with every trailing slash removed.
pub open spec fn spec_strip_trailing_slashes(s: Seq<char>) -> Seq<char>
    decreases s.len(),
{
    if s.len() > 0 && s[s.len() - 1] == '/' {
        spec_strip_trailing_slashes(s.drop_last())
    } else {
        s
    }
}

/// The last path segment: trailing slashes are ignored, and a path of
/// slashes alone names itself.
pub open spec fn spec_file_name(p: Seq<char>) -> Seq<char> {
    let q = spec_strip_trailing_slashes(p);
    if q.len() == 0 {
        p
    } else {
        spec_tail_after_last(q, '/')
    }
}

proof fn lemma_strip_trailing_slashes_take(s: Seq<char>, b: int)
    requires
        0 <= b <= s.len(),
        forall|j: int| b <= j < s.len() ==> s[j] == '/',
        b == 0 || s[b - 1] != '/',
    ensures
        spec_strip_trailing_slashes(s) == s.take(b),
    decreases s.len() - b,
{
    if b == s.len() {
        assert(s.take(b) =~= s);
    } else {
        assert(s[s.len() - 1] == '/');
        lemma_strip_trailing_slashes_take(s.drop_last(), b);
        assert(s.drop_last().take(b) =~= s.take(b));
    }
}

/// The final component of a path: the part after the last slash, with
/// trailing slashes ignored.
pub fn extract_file_name(path: &str) -> (r: String)
    ensures
        r@ == spec_file_name(path@),
{
    let len = path.unicode_len();
    let mut b: usize = len;
    while b > 0 && path.get_char(b - 1) == '/'
        invariant
            len == path@.len(),
            b <= len,
            forall|j: int| b <= j < len ==> path@[j] == '/',
        decreases b,
    {
        b = b - 1;
    }
    proof {
        lemma_strip_trailing_slashes_take(path@, b as int);
    }
    if b == 0 {
        proof {
            assert(spec_strip_trailing_slashes(path@).len() == 0);
        }
        return path.to_owned();
    }
    let q = path.substring_char(0, b);
    proof {
        assert(q@ =~= path@.take(b as int));
    }
    str_tail_after_last(q, '/').to_owned()
}

// ---------- the root-relative part of a path ----------

/// What follows the first occurrence of `c`, when `c` occurs at all.
pub open spec fn spec_after_first(s: Seq<char>, c: char) -> Option<Seq<char>>
    decreases s.len(),
{
    if s.len() == 0 {
        None
    } else if s[0] == c {
        Some(s.drop_first())
    } else {
        spec_after_first(s.drop_first(), c)
    }
}

/// A path with its first segment (the selected root folder) stripped: the
/// part after the first slash; without a slash, a directory is the root
/// itself (empty) and a file keeps its whole path.
pub open spec fn spec_rel_path(p: Seq<char>, is_dir: bool) -> Seq<char> {
    match spec_after_first(p, '/') {
        Some(t) => t,
        None => if is_dir {
            Seq::empty()
        } else {
            p
        },
    }
}

proof fn lemma_after_first_at(s: Seq<char>, c: char, k: int)
    requires
        0 <= k < s.len(),
        s[k] == c,
        forall|j: int| 0 <= j < k ==> s[j] != c,
    ensures
        spec_after_first(s, c) == Some(s.skip(k + 1)),
    decreases k,
{
    if k == 0 {
        assert(s.drop_first() =~= s.skip(1));
    } else {
        lemma_after_first_at(s.drop_first(), c, k - 1);
        assert(s.drop_first().skip(k) =~= s.skip(k + 1));
    }
}

/// When a first occurrence exists, the tail after it is a suffix whose
/// start follows an occurrence of `c`.
pub proof fn lemma_after_first_inv(s: Seq<char>, c: char)
    requires
        spec_after_first(s, c) is Some,
    ensures
        exists|k: int|
            0 <= k < s.len() && s[k] == c && #[trigger] s.skip(k + 1) == spec_after_first(
                s,
                c,
            )->Some_0,
    decreases s.len(),
{
    if s.len() > 0 {
        if s[0] == c {
            assert(s.drop_first() =~= s.skip(1));
            assert(s[0] == c && s.skip(0int + 1) == spec_after_first(s, c)->Some_0);
        } else {
            lemma_after_first_inv(s.drop_first(), c);
            let k = choose|k: int|
                0 <= k < s.drop_first().len() && s.drop_first()[k] == c && #[trigger] s.drop_first()
                    .skip(k + 1) == spec_after_first(s.drop_first(), c)->Some_0;
            assert(s.drop_first().skip(k + 1) =~= s.skip(k + 2));
            assert(s[k + 1] == c && s.skip((k + 1) + 1) == spec_after_first(s, c)->Some_0);
        }
    }
}

proof fn lemma_after_first_none(s: Seq<char>, c: char)
    requires
        forall|j: int| 0 <= j < s.len() ==> s[j] != c,
    ensures
        spec_after_first(s, c) is None,
    decreases s.len(),
{
    if s.len() > 0 {
        lemma_after_first_none(s.drop_first(), c);
    }
}

/// Runtime value of [`spec_rel_path`].
pub fn rel_path(p: &str, is_dir: bool) -> (r: String)
    ensures
        r@ == spec_rel_path(p@, is_dir),
{
    let len = p.unicode_len();
    let mut i: usize = 0;
    while i < len && p.get_char(i) != '/'
        invariant
            len == p@.len(),
            i <= len,
            forall|j: int| 0 <= j < i ==> p@[j] != '/',
        decreases len - i,
    {
        i = i + 1;
    }
    if i < len {
        proof {
            lemma_after_first_at(p@, '/', i as int);
        }
        let r = p.substring_char(i + 1, len).to_owned();
        proof {
            assert(r@ =~= p@.skip(i + 1));
        }
        r
    } else {
        proof {
            lemma_after_first_none(p@, '/');
        }
        if is_dir {
            let r = String::new();
            proof {
                assert(r@ =~= Seq::<char>::empty());
            }
            r
        } else {
            p.to_owned()
        }
    }
}

} // verus!
