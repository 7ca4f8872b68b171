//! Character-level helpers shared by the tokenizer, the redirection
//! resolver and the variable scanner: string equality and search,
//! separator splitting, and space trimming.

use vstd::prelude::*;
use vstd::string::StrSliceExecFns;
use vstd::string::StringExecFns;

verus! {

/// Relies on `String::push`: appends the given character to the end of the
/// string.
pub assume_specification[ String::push ](s: &mut String, c: char)
    ensures
        final(s)@ == old(s)@.push(c),
;

/// Whether two string slices hold the same characters.
pub fn str_eq(a: &str, b: &str) -> (r: bool)
    ensures
        r == (a@ == b@),
{
    let na = a.unicode_len();
    let nb = b.unicode_len();
    if na != nb {
        return false;
    }
    let mut i: usize = 0;
    while i < na
        invariant
            na == a@.len(),
            na == b@.len(),
            i <= na,
            forall|k: int| 0 <= k < i ==> a@[k] == b@[k],
        decreases na - i,
    {
        if a.get_char(i) != b.get_char(i) {
            return false;
        }
        i = i + 1;
    }
    proof {
        assert(a@ =~= b@);
    }
    true
}

/// Whether the characters of `s` end with the characters of `suffix`.
pub open spec fn seq_ends_with(s: Seq<char>, suffix: Seq<char>) -> bool {
    suffix.len() <= s.len() && s.skip(s.len() - suffix.len()) == suffix
}

/// Whether `s` ends with `suffix`, character for character.
pub fn str_ends_with(s: &str, suffix: &str) -> (r: bool)
    ensures
        r == seq_ends_with(s@, suffix@),
{
    let n = s.unicode_len();
    let m = suffix.unicode_len();
    if m > n {
        return false;
    }
    let start = n - m;
    let mut i: usize = 0;
    while i < m
        invariant
            n == s@.len(),
            m == suffix@.len(),
            start == n - m,
            i <= m,
            forall|k: int| 0 <= k < i ==> s@[start + k] == suffix@[k],
        decreases m - i,
    {
        if s.get_char(start + i) != suffix.get_char(i) {
            proof {
                assert(s@.skip(start as int)[i as int] != suffix@[i as int]);
            }
            return false;
        }
        i = i + 1;
    }
    proof {
        assert(s@.skip(start as int) =~= suffix@);
    }
    true
}

/// Whether `c` occurs among the characters of `s`.
pub fn str_contains_char(s: &str, c: char) -> (r: bool)
    ensures
        r == s@.contains(c),
{
    let n = s.unicode_len();
    let mut i: usize = 0;
    while i < n
        invariant
            n == s@.len(),
            i <= n,
            forall|k: int| 0 <= k < i ==> s@[k] != c,
        decreases n - i,
    {
        if s.get_char(i) == c {
            return true;
        }
        i = i + 1;
    }
    false
}

/// `s` with leading spaces removed.
pub open spec fn drop_leading_spaces(s: Seq<char>) -> Seq<char>
    decreases s.len(),
{
    if s.len() > 0 && s[0] == ' ' {
        drop_leading_spaces(s.drop_first())
    } else {
        s
    }
}

/// `s` with trailing spaces removed.
pub open spec fn drop_trailing_spaces(s: Seq<char>) -> Seq<char>
    decreases s.len(),
{
    if s.len() > 0 && s[s.len() - 1] == ' ' {
        drop_trailing_spaces(s.drop_last())
    } else {
        s
    }
}

/// `s` with leading and trailing spaces removed.
pub open spec fn trim_spec(s: Seq<char>) -> Seq<char> {
    drop_trailing_spaces(drop_leading_spaces(s))
}

proof fn lemma_drop_leading_spaces_range(s: Seq<char>, i: int)
    requires
        0 <= i <= s.len(),
        forall|k: int| 0 <= k < i ==> s[k] == ' ',
        i < s.len() ==> s[i] != ' ',
    ensures
        drop_leading_spaces(s) == s.skip(i),
    decreases i,
{
    if i == 0 {
        if s.len() > 0 && s[0] == ' ' {
            assert(false);
        }
        assert(s.skip(0) =~= s);
    } else {
        assert(s[0] == ' ');
        lemma_drop_leading_spaces_range(s.drop_first(), i - 1);
        assert(s.drop_first().skip(i - 1) =~= s.skip(i));
    }
}

proof fn lemma_drop_trailing_spaces_range(s: Seq<char>, j: int)
    requires
        0 <= j <= s.len(),
        forall|k: int| j <= k < s.len() ==> s[k] == ' ',
        j > 0 ==> s[j - 1] != ' ',
    ensures
        drop_trailing_spaces(s) == s.take(j),
    decreases s.len() - j,
{
    if j == s.len() {
        if s.len() > 0 && s[s.len() - 1] == ' ' {
            assert(false);
        }
        assert(s.take(j) =~= s);
    } else {
        assert(s[s.len() - 1] == ' ');
        lemma_drop_trailing_spaces_range(s.drop_last(), j);
        assert(s.drop_last().take(j) =~= s.take(j));
    }
}

/// The pieces of `s` between occurrences of the separator `c`: splitting an
/// empty string gives one empty piece, and every separator ends one piece and
/// begins another.
pub open spec fn split_on(s: Seq<char>, c: char) -> Seq<Seq<char>>
    decreases s.len(),
{
    if s.len() == 0 {
        seq![Seq::<char>::empty()]
    } else if s[0] == c {
        seq![Seq::<char>::empty()] + split_on(s.drop_first(), c)
    } else {
        let rest = split_on(s.drop_first(), c);
        seq![seq![s[0]] + rest[0]] + rest.drop_first()
    }
}

pub proof fn lemma_split_on_len(s: Seq<char>, c: char)
    ensures
        split_on(s, c).len() >= 1,
    decreases s.len(),
{
    if s.len() > 0 {
        lemma_split_on_len(s.drop_first(), c);
    }
}

/// `ss` with `p` prepended to its first piece; the shape a partial split
/// takes while a scan is midway through a piece.
pub open spec fn prepend_first(p: Seq<char>, ss: Seq<Seq<char>>) -> Seq<Seq<char>> {
    seq![p + ss[0]] + ss.drop_first()
}

proof fn lemma_split_on_step(s: Seq<char>, c: char, i: int)
    requires
        0 <= i < s.len(),
    ensures
        s[i] == c ==> split_on(s.skip(i), c) == seq![Seq::<char>::empty()] + split_on(
            s.skip(i + 1),
            c,
        ),
        s[i] != c ==> split_on(s.skip(i), c) == prepend_first(
            seq![s[i]],
            split_on(s.skip(i + 1), c),
        ),
{
    let t = s.skip(i);
    assert(t.len() > 0);
    assert(t[0] == s[i]);
    assert(t.drop_first() =~= s.skip(i + 1));
    if s[i] != c {
        let rest = split_on(s.skip(i + 1), c);
        assert(split_on(t, c) == seq![seq![t[0]] + rest[0]] + rest.drop_first());
        assert(seq![seq![s[i]] + rest[0]] + rest.drop_first() =~= prepend_first(
            seq![s[i]],
            rest,
        ));
    }
}

/// Splits `s` at every occurrence of `c`.
pub fn split_char(s: &str, c: char) -> (r: Vec<String>)
    ensures
        r.deep_view() == split_on(s@, c),
{
    let n = s.unicode_len();
    let mut out: Vec<String> = Vec::new();
    let mut cur = String::new();
    let mut i: usize = 0;
    proof {
        lemma_split_on_len(s@, c);
        assert(s@.skip(0) =~= s@);
        assert(prepend_first(Seq::<char>::empty(), split_on(s@, c)) =~~= split_on(s@, c));
        assert(out.deep_view() + prepend_first(cur@, split_on(s@.skip(0), c)) =~~= split_on(
            s@,
            c,
        ));
    }
    while i < n
        invariant
            n == s@.len(),
            i <= n,
            split_on(s@, c) == out.deep_view() + prepend_first(cur@, split_on(s@.skip(i as int), c)),
        decreases n - i,
    {
        let ch = s.get_char(i);
        proof {
            lemma_split_on_step(s@, c, i as int);
            lemma_split_on_len(s@.skip(i + 1 as int), c);
        }
        if ch == c {
            let ghost prev_out = out.deep_view();
            let ghost prev_cur = cur@;
            out.push(cur);
            cur = String::new();
            proof {
                let rest = split_on(s@.skip(i + 1 as int), c);
                assert(prepend_first(prev_cur, seq![Seq::<char>::empty()] + rest) =~~= seq![
                    prev_cur,
                ] + prepend_first(Seq::<char>::empty(), rest));
                assert(prepend_first(Seq::<char>::empty(), rest) =~~= rest);
                assert(out.deep_view() =~= prev_out + seq![prev_cur]);
                assert(out.deep_view() + prepend_first(cur@, rest) =~~= prev_out + (seq![prev_cur]
                    + prepend_first(Seq::<char>::empty(), rest)));
            }
        } else {
            let ghost prev_cur = cur@;
            cur.push(ch);
            proof {
                let rest = split_on(s@.skip(i + 1 as int), c);
                assert(cur@ =~= prev_cur.push(ch));
                assert(prepend_first(prev_cur, prepend_first(seq![ch], rest)) =~~= prepend_first(
                    prev_cur.push(ch),
                    rest,
                ));
            }
        }
        i = i + 1;
    }
    proof {
        assert(s@.skip(n as int) =~= Seq::<char>::empty());
        let last = split_on(s@.skip(n as int), c);
        assert(last =~~= seq![Seq::<char>::empty()]);
        assert(prepend_first(cur@, last) =~~= seq![cur@]);
    }
    out.push(cur);
    proof {
        assert(split_on(s@, c) =~~= out.deep_view());
    }
    out
}

/// `s` with leading and trailing spaces removed.
pub fn trim_spaces<'a>(s: &'a str) -> (r: &'a str)
    ensures
        r@ == trim_spec(s@),
{
    let n = s.unicode_len();
    let mut i: usize = 0;
    while i < n && s.get_char(i) == ' '
        invariant
            n == s@.len(),
            i <= n,
            forall|k: int| 0 <= k < i ==> s@[k] == ' ',
        decreases n - i,
    {
        i = i + 1;
    }
    proof {
        lemma_drop_leading_spaces_range(s@, i as int);
    }
    if i == n {
        let r = s.substring_char(i, n);
        proof {
            assert(drop_leading_spaces(s@) =~= Seq::<char>::empty());
            assert(r@ =~= Seq::<char>::empty());
        }
        return r;
    }
    let mut j: usize = n;
    while j > i && s.get_char(j - 1) == ' '
        invariant
            n == s@.len(),
            i <= j <= n,
            i < n,
            s@[i as int] != ' ',
            forall|k: int| j <= k < n ==> s@[k] == ' ',
        decreases j,
    {
        j = j - 1;
    }
    let r = s.substring_char(i, j);
    proof {
        let mid = s@.skip(i as int);
        assert(j > i);
        assert(s@[i as int] != ' ');
        assert(mid[j - i - 1] == s@[j - 1]);
        lemma_drop_trailing_spaces_range(mid, j - i);
        assert(mid.take(j - i) =~= s@.subrange(i as int, j as int));
    }
    r
}

} // verus!
