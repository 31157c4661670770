use vstd::prelude::*;

use crate::chars::{ci_eq, is_ws, is_ws_char, lower_code, spec_lower};

verus! {

// ---------- equality ----------

/// Character-for-character string equality.
pub fn str_eq(a: &str, b: &str) -> (r: bool)
    ensures
        r == (a@ == b@),
{
    let la = a.unicode_len();
    let lb = b.unicode_len();
    if la != lb {
        proof {
            assert(a@ != b@);
        }
        return false;
    }
    let mut i: usize = 0;
    while i < la
        invariant
            la == a@.len(),
            la == b@.len(),
            i <= la,
            forall|j: int| 0 <= j < i ==> a@[j] == b@[j],
        decreases la - i,
    {
        if a.get_char(i) != b.get_char(i) {
            proof {
                assert(a@[i as int] != b@[i as int]);
            }
            return false;
        }
        i = i + 1;
    }
    proof {
        assert(a@ =~= b@);
    }
    true
}

// ---------- case-insensitive equality ----------

pub open spec fn spec_ci_eq_seq(a: Seq<char>, b: Seq<char>) -> bool {
    a.len() == b.len() && forall|j: int| 0 <= j < a.len() ==> ci_eq(a[j], b[j])
}

/// Equality up to ASCII case folding.
pub fn str_eq_ci(a: &str, b: &str) -> (r: bool)
    ensures
        r == spec_ci_eq_seq(a@, b@),
{
    let la = a.unicode_len();
    let lb = b.unicode_len();
    if la != lb {
        return false;
    }
    let mut i: usize = 0;
    while i < la
        invariant
            la == a@.len(),
            la == b@.len(),
            i <= la,
            forall|j: int| 0 <= j < i ==> ci_eq(a@[j], b@[j]),
        decreases la - i,
    {
        if lower_code(a.get_char(i)) != lower_code(b.get_char(i)) {
            return false;
        }
        i = i + 1;
    }
    true
}

// ---------- prefix / suffix / substring ----------

pub open spec fn spec_starts_with(s: Seq<char>, p: Seq<char>) -> bool {
    p.len() <= s.len() && s.subrange(0, p.len() as int) == p
}

pub fn str_starts_with(s: &str, p: &str) -> (r: bool)
    ensures
        r == spec_starts_with(s@, p@),
{
    let ls = s.unicode_len();
    let lp = p.unicode_len();
    if lp > ls {
        return false;
    }
    let mut i: usize = 0;
    while i < lp
        invariant
            ls == s@.len(),
            lp == p@.len(),
            lp <= ls,
            i <= lp,
            forall|j: int| 0 <= j < i ==> s@[j] == p@[j],
        decreases lp - i,
    {
        if s.get_char(i) != p.get_char(i) {
            proof {
                assert(s@.subrange(0, p@.len() as int)[i as int] != p@[i as int]);
            }
            return false;
        }
        i = i + 1;
    }
    proof {
        assert(s@.subrange(0, p@.len() as int) =~= p@);
    }
    true
}

/// `s` ends with `p`, compared case-insensitively (ASCII folding).
pub open spec fn spec_ends_with_ci(s: Seq<char>, p: Seq<char>) -> bool {
    p.len() <= s.len() && spec_ci_eq_seq(s.subrange(s.len() - p.len(), s.len() as int), p)
}

pub fn str_ends_with_ci(s: &str, p: &str) -> (r: bool)
    ensures
        r == spec_ends_with_ci(s@, p@),
{
    let ls = s.unicode_len();
    let lp = p.unicode_len();
    if lp > ls {
        return false;
    }
    let ghost tail = s@.subrange(s@.len() - p@.len(), s@.len() as int);
    let off: usize = ls - lp;
    let mut i: usize = 0;
    while i < lp
        invariant
            ls == s@.len(),
            lp == p@.len(),
            lp <= ls,
            off == ls - lp,
            tail == s@.subrange(s@.len() - p@.len(), s@.len() as int),
            i <= lp,
            forall|j: int| 0 <= j < i ==> ci_eq(tail[j], p@[j]),
        decreases lp - i,
    {
        if lower_code(s.get_char(off + i)) != lower_code(p.get_char(i)) {
            proof {
                assert(tail[i as int] == s@[off + i]);
            }
            return false;
        }
        proof {
            assert(tail[i as int] == s@[off + i]);
        }
        i = i + 1;
    }
    true
}

/// `n` occurs as a contiguous substring of `h`.
pub open spec fn spec_contains(h: Seq<char>, n: Seq<char>) -> bool {
    exists|i: int|
        0 <= i && i + n.len() <= h.len() && #[trigger] h.subrange(i, i + n.len() as int) == n
}

pub fn str_contains(h: &str, n: &str) -> (r: bool)
    ensures
        r == spec_contains(h@, n@),
{
    let lh = h.unicode_len();
    let ln = n.unicode_len();
    if ln > lh {
        return false;
    }
    if ln == 0 {
        proof {
            assert(h@.subrange(0, 0 + n@.len() as int) =~= n@);
        }
        return true;
    }
    let mut i: usize = 0;
    while i <= lh - ln
        invariant
            lh == h@.len(),
            ln == n@.len(),
            1 <= ln <= lh,
            i <= lh - ln + 1,
            forall|k: int|
                0 <= k < i ==> #[trigger] h@.subrange(k, k + n@.len() as int) != n@,
        decreases lh - ln - i + 1,
    {
        let mut j: usize = 0;
        let mut hit = true;
        while j < ln
            invariant
                lh == h@.len(),
                ln == n@.len(),
                i + ln <= lh,
                j <= ln,
                hit ==> forall|t: int| 0 <= t < j ==> h@[i + t] == n@[t],
                !hit ==> h@.subrange(i as int, i + n@.len() as int) != n@,
            decreases ln - j,
        {
            if h.get_char(i + j) != n.get_char(j) {
                hit = false;
                proof {
                    assert(h@.subrange(i as int, i + n@.len() as int)[j as int] != n@[j as int]);
                    assert(h@.subrange(i as int, i + n@.len() as int) != n@);
                }
                j = ln;
            } else {
                j = j + 1;
            }
        }
        if hit {
            proof {
                assert(h@.subrange(i as int, i + n@.len() as int) =~= n@);
            }
            return true;
        }
        proof {
            assert(h@.subrange(i as int, i + n@.len() as int) != n@);
        }
        i = i + 1;
    }
    proof {
        assert forall|k: int| 0 <= k && k + n@.len() <= h@.len() implies #[trigger] h@.subrange(
            k,
            k + n@.len() as int,
        ) != n@ by {
            assert(k < i);
        }
    }
    false
}

/// Some occurrence of the character `c` in `s`.
pub open spec fn spec_has_char(s: Seq<char>, c: char) -> bool {
    exists|j: int| 0 <= j < s.len() && s[j] == c
}

pub fn str_has_char(s: &str, c: char) -> (r: bool)
    ensures
        r == spec_has_char(s@, c),
{
    let len = s.unicode_len();
    let mut i: usize = 0;
    while i < len
        invariant
            len == s@.len(),
            i <= len,
            forall|j: int| 0 <= j < i ==> s@[j] != c,
        decreases len - i,
    {
        if s.get_char(i) == c {
            return true;
        }
        i = i + 1;
    }
    false
}

// ---------- trimming ----------

/// `s` with leading white space removed.
pub open spec fn spec_trim_start(s: Seq<char>) -> Seq<char>
    decreases s.len(),
{
    if s.len() > 0 && is_ws_char(s[0]) {
        spec_trim_start(s.drop_first())
    } else {
        s
    }
}

/// `s` with trailing white space removed.
pub open spec fn spec_trim_end(s: Seq<char>) -> Seq<char>
    decreases s.len(),
{
    if s.len() > 0 && is_ws_char(s[s.len() - 1]) {
        spec_trim_end(s.drop_last())
    } else {
        s
    }
}

/// `s` with leading and trailing white space removed, as `str::trim` does.
pub open spec fn spec_trim(s: Seq<char>) -> Seq<char> {
    spec_trim_end(spec_trim_start(s))
}

proof fn lemma_trim_start_skip(s: Seq<char>, a: int)
    requires
        0 <= a <= s.len(),
        forall|j: int| 0 <= j < a ==> is_ws_char(s[j]),
        a == s.len() || !is_ws_char(s[a]),
    ensures
        spec_trim_start(s) == s.skip(a),
    decreases a,
{
    if a == 0 {
        assert(s.skip(0) =~= s);
    } else {
        assert(is_ws_char(s[0]));
        lemma_trim_start_skip(s.drop_first(), a - 1);
        assert(s.drop_first().skip(a - 1) =~= s.skip(a));
    }
}

proof fn lemma_trim_end_take(s: Seq<char>, b: int)
    requires
        0 <= b <= s.len(),
        forall|j: int| b <= j < s.len() ==> is_ws_char(s[j]),
        b == 0 || !is_ws_char(s[b - 1]),
    ensures
        spec_trim_end(s) == s.take(b),
    decreases s.len() - b,
{
    if b == s.len() {
        assert(s.take(b) =~= s);
    } else {
        assert(is_ws_char(s[s.len() - 1]));
        lemma_trim_end_take(s.drop_last(), b);
        assert(s.drop_last().take(b) =~= s.take(b));
    }
}

/// White-space trimming on both ends, matching `str::trim`.
pub fn str_trim(s: &str) -> (r: &str)
    ensures
        r@ == spec_trim(s@),
{
    let len = s.unicode_len();
    let mut a: usize = 0;
    while a < len && is_ws(s.get_char(a))
        invariant
            len == s@.len(),
            a <= len,
            forall|j: int| 0 <= j < a ==> is_ws_char(s@[j]),
        decreases len - a,
    {
        a = a + 1;
    }
    let mut b: usize = len;
    while b > a && is_ws(s.get_char(b - 1))
        invariant
            len == s@.len(),
            a <= b <= len,
            forall|j: int| b <= j < len ==> is_ws_char(s@[j]),
        decreases b,
    {
        b = b - 1;
    }
    let r = s.substring_char(a, b);
    proof {
        lemma_trim_start_skip(s@, a as int);
        let t = s@.skip(a as int);
        lemma_trim_end_take(t, b - a);
        assert(t.take(b - a) =~= s@.subrange(a as int, b as int));
    }
    r
}

// ---------- splitting ----------

/// Split on a separator character; an empty string gives one empty piece,
/// as `str::split` does.
pub open spec fn spec_split(s: Seq<char>, sep: char) -> Seq<Seq<char>>
    decreases s.len(),
{
    if s.len() == 0 {
        seq![Seq::<char>::empty()]
    } else if s[0] == sep {
        seq![Seq::<char>::empty()] + spec_split(s.drop_first(), sep)
    } else {
        let r = spec_split(s.drop_first(), sep);
        seq![seq![s[0]] + r[0]] + r.drop_first()
    }
}

pub proof fn lemma_split_len(s: Seq<char>, sep: char)
    ensures
        spec_split(s, sep).len() >= 1,
    decreases s.len(),
{
    if s.len() > 0 {
        lemma_split_len(s.drop_first(), sep)
    }
}

/// A separator-free string splits to itself alone.
pub proof fn lemma_split_whole(u: Seq<char>, sep: char)
    requires
        forall|j: int| 0 <= j < u.len() ==> u[j] != sep,
    ensures
        spec_split(u, sep) == seq![u],
    decreases u.len(),
{
    if u.len() == 0 {
        assert(u =~= Seq::<char>::empty());
        assert(spec_split(u, sep) =~~= seq![u]);
    } else {
        lemma_split_whole(u.drop_first(), sep);
        lemma_split_len(u.drop_first(), sep);
        assert(seq![u[0]] + u.drop_first() =~= u);
        assert(spec_split(u, sep) =~= seq![u]);
    }
}

/// Splitting at the first separator.
pub proof fn lemma_split_step(u: Seq<char>, v: Seq<char>, sep: char)
    requires
        forall|j: int| 0 <= j < u.len() ==> u[j] != sep,
    ensures
        spec_split(u + seq![sep] + v, sep) == seq![u] + spec_split(v, sep),
    decreases u.len(),
{
    let s = u + seq![sep] + v;
    if u.len() == 0 {
        assert(s[0] == sep);
        assert(s.drop_first() =~= v);
        assert(u =~= Seq::<char>::empty());
        assert(seq![Seq::<char>::empty()] + spec_split(v, sep) =~~= seq![u] + spec_split(v, sep));
    } else {
        assert(s[0] == u[0]);
        assert(s[0] != sep);
        assert(s.drop_first() =~= u.drop_first() + seq![sep] + v);
        lemma_split_step(u.drop_first(), v, sep);
        let r = spec_split(s.drop_first(), sep);
        assert(r == seq![u.drop_first()] + spec_split(v, sep));
        assert(r[0] == u.drop_first());
        assert(seq![s[0]] + r[0] =~= u);
        assert(r.drop_first() =~= spec_split(v, sep));
        assert(spec_split(s, sep) =~= seq![u] + spec_split(v, sep));
    }
}

/// Split a string on a separator character.
pub fn str_split(s: &str, sep: char) -> (r: Vec<String>)
    ensures
        r.deep_view() == spec_split(s@, sep),
{
    let len = s.unicode_len();
    let mut done: Vec<String> = Vec::new();
    let mut start: usize = 0;
    let mut i: usize = 0;
    proof {
        assert(s@.skip(0) =~= s@);
        assert(done.deep_view() =~= Seq::<Seq<char>>::empty());
        assert(Seq::<Seq<char>>::empty() + spec_split(s@, sep) =~= spec_split(s@, sep));
    }
    while i < len
        invariant
            len == s@.len(),
            start <= i <= len,
            forall|j: int| start <= j < i ==> s@[j] != sep,
            spec_split(s@, sep) == done.deep_view() + spec_split(s@.skip(start as int), sep),
        decreases len - i,
    {
        if s.get_char(i) == sep {
            let ghost dv0 = done.deep_view();
            let piece = s.substring_char(start, i).to_owned();
            done.push(piece);
            proof {
                let u = s@.subrange(start as int, i as int);
                assert(s@.skip(start as int) =~= u + seq![sep] + s@.skip(i + 1));
                lemma_split_step(u, s@.skip(i + 1), sep);
                assert(done.deep_view() =~= dv0.push(u));
                assert(dv0 + (seq![u] + spec_split(s@.skip(i + 1), sep)) =~= dv0.push(u)
                    + spec_split(s@.skip(i + 1), sep));
            }
            start = i + 1;
        }
        i = i + 1;
    }
    let ghost dv0 = done.deep_view();
    let piece = s.substring_char(start, len).to_owned();
    done.push(piece);
    proof {
        let u = s@.subrange(start as int, len as int);
        assert(s@.skip(start as int) =~= u);
        lemma_split_whole(u, sep);
        assert(done.deep_view() =~= dv0.push(u));
        assert(dv0 + seq![u] =~= dv0.push(u));
    }
    done
}

// ---------- the tail after the last occurrence of a character ----------

/// The characters after the last occurrence of `c`; all of `s` when `c`
/// does not occur.
pub open spec fn spec_tail_after_last(s: Seq<char>, c: char) -> Seq<char>
    decreases s.len(),
{
    if s.len() == 0 {
        s
    } else if s[s.len() - 1] == c {
        Seq::empty()
    } else {
        spec_tail_after_last(s.drop_last(), c).push(s[s.len() - 1])
    }
}

proof fn lemma_tail_after_last_skip(s: Seq<char>, c: char, k: int)
    requires
        0 <= k <= s.len(),
        forall|j: int| k <= j < s.len() ==> s[j] != c,
        k == 0 || s[k - 1] == c,
    ensures
        spec_tail_after_last(s, c) == s.skip(k),
    decreases s.len() - k,
{
    if s.len() == 0 {
        assert(s.skip(0) =~= s);
    } else if k == s.len() {
        assert(s[s.len() - 1] == c);
        assert(s.skip(k) =~= Seq::<char>::empty());
    } else {
        assert(s[s.len() - 1] != c);
        lemma_tail_after_last_skip(s.drop_last(), c, k);
        assert(s.drop_last().skip(k).push(s[s.len() - 1]) =~= s.skip(k));
    }
}

/// Runtime value of [`spec_tail_after_last`].
pub fn str_tail_after_last(s: &str, c: char) -> (r: &str)
    ensures
        r@ == spec_tail_after_last(s@, c),
{
    let len = s.unicode_len();
    let mut k: usize = len;
    while k > 0 && s.get_char(k - 1) != c
        invariant
            len == s@.len(),
            k <= len,
            forall|j: int| k <= j < len ==> s@[j] != c,
        decreases k,
    {
        k = k - 1;
    }
    let r = s.substring_char(k, len);
    proof {
        lemma_tail_after_last_skip(s@, c, k as int);
        assert(s@.subrange(k as int, len as int) =~= s@.skip(k as int));
    }
    r
}

// ---------- lexicographic order on code points ----------

/// Strict lexicographic order on code points; a strict prefix precedes
/// the longer string. On lowercased strings this is the order
/// `String`'s own comparison gives, since UTF-8 keeps code-point order.
pub open spec fn spec_lex_lt(a: Seq<char>, b: Seq<char>) -> bool
    decreases a.len() + b.len(),
{
    if b.len() == 0 {
        false
    } else if a.len() == 0 {
        true
    } else if (a[0] as u32) < (b[0] as u32) {
        true
    } else if (a[0] as u32) > (b[0] as u32) {
        false
    } else {
        spec_lex_lt(a.drop_first(), b.drop_first())
    }
}

/// The order is strict: no two strings precede each other.
pub proof fn lemma_lex_lt_asym(a: Seq<char>, b: Seq<char>)
    ensures
        !(spec_lex_lt(a, b) && spec_lex_lt(b, a)),
    decreases a.len() + b.len(),
{
    if a.len() > 0 && b.len() > 0 && (a[0] as u32) == (b[0] as u32) {
        lemma_lex_lt_asym(a.drop_first(), b.drop_first());
    }
}

/// The order chains.
pub proof fn lemma_lex_lt_trans(a: Seq<char>, b: Seq<char>, c: Seq<char>)
    requires
        spec_lex_lt(a, b),
        spec_lex_lt(b, c),
    ensures
        spec_lex_lt(a, c),
    decreases a.len() + b.len() + c.len(),
{
    if a.len() > 0 && b.len() > 0 && c.len() > 0 && (a[0] as u32) == (b[0] as u32) && (b[0] as u32)
        == (c[0] as u32) {
        lemma_lex_lt_trans(a.drop_first(), b.drop_first(), c.drop_first());
    }
}

/// Runtime check for [`spec_lex_lt`].
pub fn str_lex_lt(a: &str, b: &str) -> (r: bool)
    ensures
        r == spec_lex_lt(a@, b@),
{
    let la = a.unicode_len();
    let lb = b.unicode_len();
    let mut i: usize = 0;
    proof {
        assert(a@.skip(0) =~= a@);
        assert(b@.skip(0) =~= b@);
    }
    while i < la && i < lb
        invariant
            la == a@.len(),
            lb == b@.len(),
            i <= la,
            i <= lb,
            spec_lex_lt(a@, b@) == spec_lex_lt(a@.skip(i as int), b@.skip(i as int)),
        decreases la - i,
    {
        let ca = a.get_char(i) as u32;
        let cb = b.get_char(i) as u32;
        proof {
            assert(a@.skip(i as int)[0] == a@[i as int]);
            assert(b@.skip(i as int)[0] == b@[i as int]);
            assert(a@.skip(i as int).drop_first() =~= a@.skip(i + 1));
            assert(b@.skip(i as int).drop_first() =~= b@.skip(i + 1));
        }
        if ca < cb {
            return true;
        }
        if ca > cb {
            return false;
        }
        i = i + 1;
    }
    proof {
        assert(a@.skip(i as int).len() == la - i);
        assert(b@.skip(i as int).len() == lb - i);
    }
    i < lb
}

} // verus!
