//! Character-level operations on strings: substring replacement and the
//! lexicographic order of strings by code point.

use vstd::prelude::*;

verus! {

/// `s` with every occurrence of `pat` replaced by `with`, scanning from the
/// left and never looking again at characters already consumed by a match.
///
/// An empty `pat` matches before every character and once more at the end.
pub open spec fn replaced(s: Seq<char>, pat: Seq<char>, with: Seq<char>) -> Seq<char>
    decreases s.len(),
{
    if s.len() == 0 {
        if pat.len() == 0 {
            with
        } else {
            s
        }
    } else if pat.len() == 0 {
        with + seq![s[0]] + replaced(s.skip(1), pat, with)
    } else if pat.is_prefix_of(s) {
        with + replaced(s.skip(pat.len() as int), pat, with)
    } else {
        seq![s[0]] + replaced(s.skip(1), pat, with)
    }
}

/// `s` without `prefix` at its start, where it starts with `prefix`, and
/// `s` itself where it does not. The prefix is taken off once.
pub open spec fn without_prefix(s: Seq<char>, prefix: Seq<char>) -> Seq<char> {
    if prefix.is_prefix_of(s) {
        s.skip(prefix.len() as int)
    } else {
        s
    }
}

/// `s` without `suffix` at its end, where it ends with `suffix`, and `s`
/// itself where it does not. The suffix is taken off once.
pub open spec fn without_suffix(s: Seq<char>, suffix: Seq<char>) -> Seq<char> {
    if suffix.is_suffix_of(s) {
        s.take(s.len() - suffix.len())
    } else {
        s
    }
}

/// `a` comes strictly before `b` in the lexicographic order by code point.
pub open spec fn lex_less(a: Seq<char>, b: Seq<char>) -> bool
    decreases a.len(),
{
    if b.len() == 0 {
        false
    } else if a.len() == 0 {
        true
    } else if a[0] != b[0] {
        (a[0] as u32) < (b[0] as u32)
    } else {
        lex_less(a.skip(1), b.skip(1))
    }
}

/// How two strings stand to each other in the lexicographic order.
#[derive(Clone, Copy, Debug, PartialEq, Eq)]
pub enum Position {
    Before,
    Same,
    After,
}

/// The characters of `s`, in order.
pub fn chars_of(s: &str) -> (v: Vec<char>)
    ensures
        v@ == s@,
{
    let mut v: Vec<char> = Vec::new();
    for c in it: s.chars()
        invariant
            v@ == it.seq().take(it.index()),
            it.seq() == s@,
    {
        v.push(c);
    }
    v
}

/// Whether two strings hold the same characters.
pub fn equal(a: &str, b: &str) -> (same: bool)
    ensures
        same == (a@ == b@),
{
    let x = a.to_owned();
    let y = b.to_owned();
    x == y
}

/// Whether the code point of `x` is below that of `y`.
fn char_before(x: char, y: char) -> (b: bool)
    ensures
        b == ((x as u32) < (y as u32)),
        x != y && !b ==> (y as u32) < (x as u32),
{
    x < y
}

/// Whether `pat` occurs in `s` starting at index `at`.
fn occurs_at(s: &Vec<char>, pat: &Vec<char>, at: usize) -> (b: bool)
    requires
        at <= s.len(),
    ensures
        b == pat@.is_prefix_of(s@.skip(at as int)),
{
    let n: usize = s.len();
    let m: usize = pat.len();
    if n - at < m {
        return false;
    }
    let mut k: usize = 0;
    while k < m
        invariant
            k <= m,
            m == pat.len(),
            n == s.len(),
            at <= n,
            m <= n - at,
            forall|j: int| 0 <= j < k ==> s@[at + j] == pat@[j],
        decreases m - k,
    {
        if s[at + k] != pat[k] {
            assert(s@.skip(at as int).subrange(0, m as int)[k as int] != pat@[k as int]);
            return false;
        }
        k += 1;
    }
    assert(pat@ =~= s@.skip(at as int).subrange(0, m as int));
    true
}

/// Takes `prefix` off the start of `s`, where `s` starts with it.
pub fn strip_prefix(s: &str, prefix: &str) -> (r: String)
    ensures
        r@ == without_prefix(s@, prefix@),
{
    let sv = chars_of(s);
    let pv = chars_of(prefix);
    assert(s@.skip(0) =~= s@);
    if occurs_at(&sv, &pv, 0) {
        s.substring_char(pv.len(), sv.len()).to_owned()
    } else {
        s.to_owned()
    }
}

/// Takes `suffix` off the end of `s`, where `s` ends with it.
pub fn strip_suffix(s: &str, suffix: &str) -> (r: String)
    ensures
        r@ == without_suffix(s@, suffix@),
{
    let sv = chars_of(s);
    let pv = chars_of(suffix);
    if pv.len() <= sv.len() {
        let at: usize = sv.len() - pv.len();
        assert(s@.skip(at as int).subrange(0, pv.len() as int) =~= s@.subrange(
            at as int,
            s@.len() as int,
        ));
        if occurs_at(&sv, &pv, at) {
            return s.substring_char(0, at).to_owned();
        }
    }
    s.to_owned()
}

/// Replaces every occurrence of `pat` in `s` by `with`.
pub fn replace_all(s: &str, pat: &str, with: &str) -> (r: String)
    ensures
        r@ == replaced(s@, pat@, with@),
{
    let sv = chars_of(s);
    let pv = chars_of(pat);
    let n: usize = sv.len();
    let m: usize = pv.len();
    let mut out = String::new();
    let mut kept: usize = 0;
    let mut i: usize = 0;
    assert(s@.skip(0) =~= s@);
    while i < n
        invariant
            kept <= i <= n,
            n == s@.len(),
            m == pat@.len(),
            sv@ == s@,
            pv@ == pat@,
            m == 0 ==> kept == i,
            out@ + s@.subrange(kept as int, i as int) + replaced(s@.skip(i as int), pat@, with@)
                == replaced(s@, pat@, with@),
        decreases n - i,
    {
        let ghost rest = s@.skip(i as int);
        assert(rest.len() > 0 && rest[0] == s@[i as int]);
        if m == 0 {
            assert(rest.skip(1) =~= s@.skip(i + 1));
            assert(s@.subrange(i as int, i + 1) =~= seq![s@[i as int]]);
            out.append(with);
            out.append(s.substring_char(i, i + 1));
            i += 1;
            kept = i;
        } else if occurs_at(&sv, &pv, i) {
            assert(rest.skip(m as int) =~= s@.skip(i + m));
            out.append(s.substring_char(kept, i));
            out.append(with);
            i += m;
            kept = i;
        } else {
            assert(rest.skip(1) =~= s@.skip(i + 1));
            assert(s@.subrange(kept as int, i + 1) =~= s@.subrange(kept as int, i as int) + seq![
                s@[i as int],
            ]);
            i += 1;
        }
    }
    assert(s@.skip(n as int).len() == 0);
    if m == 0 {
        out.append(with);
    } else {
        out.append(s.substring_char(kept, n));
    }
    out
}

/// Decides where `a` stands relative to `b` in the lexicographic order by
/// code point, which is the order of the strings' UTF-8 bytes.
pub fn position(a: &str, b: &str) -> (p: Position)
    ensures
        p == Position::Before <==> lex_less(a@, b@),
        p == Position::Same <==> a@ == b@,
        p == Position::After <==> lex_less(b@, a@),
{
    let av = chars_of(a);
    let bv = chars_of(b);
    let mut i: usize = 0;
    proof {
        lemma_lex_less_asymmetric(a@, b@);
        assert(a@.skip(0) =~= a@);
        assert(b@.skip(0) =~= b@);
    }
    while i < av.len() && i < bv.len()
        invariant
            i <= av.len(),
            i <= bv.len(),
            av@ == a@,
            bv@ == b@,
            a@.take(i as int) == b@.take(i as int),
            lex_less(a@, b@) == lex_less(a@.skip(i as int), b@.skip(i as int)),
            lex_less(b@, a@) == lex_less(b@.skip(i as int), a@.skip(i as int)),
        decreases av.len() - i,
    {
        let x: char = av[i];
        let y: char = bv[i];
        let ghost ra = a@.skip(i as int);
        let ghost rb = b@.skip(i as int);
        assert(ra[0] == x && rb[0] == y);
        if x != y {
            assert(a@.take(i + 1)[i as int] != b@.take(i + 1)[i as int]);
            assert(a@ != b@);
            return if char_before(x, y) {
                Position::Before
            } else {
                Position::After
            };
        }
        assert(ra.skip(1) =~= a@.skip(i + 1));
        assert(rb.skip(1) =~= b@.skip(i + 1));
        assert(a@.take(i + 1) =~= a@.take(i as int).push(x));
        assert(b@.take(i + 1) =~= b@.take(i as int).push(y));
        i += 1;
    }
    if i < bv.len() {
        assert(a@ != b@);
        Position::Before
    } else if i < av.len() {
        assert(a@ != b@);
        Position::After
    } else {
        assert(a@ =~= a@.take(i as int));
        assert(b@ =~= b@.take(i as int));
        Position::Same
    }
}

/// No string comes before itself, and of two strings at most one comes
/// before the other.
pub proof fn lemma_lex_less_asymmetric(a: Seq<char>, b: Seq<char>)
    ensures
        !lex_less(a, a),
        !(lex_less(a, b) && lex_less(b, a)),
    decreases a.len(),
{
    if a.len() > 0 {
        lemma_lex_less_asymmetric(a.skip(1), a.skip(1));
        if b.len() > 0 {
            lemma_lex_less_asymmetric(a.skip(1), b.skip(1));
        }
    }
}

/// The order is transitive.
pub proof fn lemma_lex_less_transitive(a: Seq<char>, b: Seq<char>, c: Seq<char>)
    requires
        lex_less(a, b),
        lex_less(b, c),
    ensures
        lex_less(a, c),
    decreases a.len(),
{
    if a.len() > 0 && a[0] == b[0] && b[0] == c[0] {
        lemma_lex_less_transitive(a.skip(1), b.skip(1), c.skip(1));
    }
}

/// Of two different strings one comes before the other.
pub proof fn lemma_lex_less_total(a: Seq<char>, b: Seq<char>)
    requires
        a != b,
    ensures
        lex_less(a, b) || lex_less(b, a),
    decreases a.len(),
{
    if a.len() > 0 && b.len() > 0 && a[0] == b[0] {
        assert(a.skip(1) != b.skip(1)) by {
            if a.skip(1) == b.skip(1) {
                assert(a =~= seq![a[0]] + a.skip(1));
                assert(b =~= seq![b[0]] + b.skip(1));
            }
        }
        lemma_lex_less_total(a.skip(1), b.skip(1));
    } else if a.len() == 0 && b.len() == 0 {
        assert(a =~= b);
    } else if a.len() > 0 && b.len() > 0 {
        lemma_code_points_differ(a[0], b[0]);
    }
}

/// Different characters have different code points.
proof fn lemma_code_points_differ(x: char, y: char)
    requires
        x != y,
    ensures
        x as u32 != y as u32,
{
}

/// The character sequences of a sequence of strings.
pub open spec fn views(strings: Seq<String>) -> Seq<Seq<char>> {
    Seq::new(strings.len(), |i: int| strings[i]@)
}

} // verus!
