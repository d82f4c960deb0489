//! The orders the interactive sort uses: lexicographic order on text, and
//! numeric order on decimal strings such as a miss distance in kilometres.
//!
//! A decimal string is reduced to a key — integer digits without leading
//! zeros, fraction digits without trailing zeros — on which shorter-first,
//! then lexicographic, comparison of the integer digits and lexicographic
//! comparison of the fraction digits is exactly numeric order. A string
//! that is not a plain decimal reads as zero, whose key is a pair of empty
//! sequences.

use vstd::prelude::*;

verus! {

/// Strict lexicographic order by code point; a proper prefix comes first.
pub open spec fn lex_lt(a: Seq<char>, b: Seq<char>) -> bool
    decreases a.len(),
{
    if b.len() == 0 {
        false
    } else if a.len() == 0 {
        true
    } else if a[0] != b[0] {
        a[0] < b[0]
    } else {
        lex_lt(a.skip(1), b.skip(1))
    }
}

pub proof fn lemma_lex_lt_irrefl(a: Seq<char>)
    ensures
        !lex_lt(a, a),
    decreases a.len(),
{
    if a.len() > 0 {
        lemma_lex_lt_irrefl(a.skip(1));
    }
}

pub proof fn lemma_lex_lt_trans(a: Seq<char>, b: Seq<char>, c: Seq<char>)
    requires
        lex_lt(a, b),
        lex_lt(b, c),
    ensures
        lex_lt(a, c),
    decreases a.len(),
{
    if c.len() == 0 || b.len() == 0 {
    } else if a.len() == 0 {
    } else {
        if a[0] == b[0] && b[0] == c[0] {
            lemma_lex_lt_trans(a.skip(1), b.skip(1), c.skip(1));
        }
    }
}

pub proof fn lemma_lex_lt_connected(a: Seq<char>, b: Seq<char>)
    requires
        !lex_lt(a, b),
        !lex_lt(b, a),
    ensures
        a == b,
    decreases a.len(),
{
    if a.len() == 0 || b.len() == 0 {
        assert(a =~= b);
    } else {
        lemma_lex_lt_connected(a.skip(1), b.skip(1));
        assert forall|i: int| 0 <= i < a.len() implies a[i] == b[i] by {
            if i > 0 {
                assert(a[i] == a.skip(1)[i - 1]);
                assert(b[i] == b.skip(1)[i - 1]);
            }
        }
        assert(a =~= b);
    }
}

/// An ASCII decimal digit.
pub open spec fn is_digit(c: char) -> bool {
    '0' <= c && c <= '9'
}

pub open spec fn all_digits(s: Seq<char>) -> bool {
    forall|i: int| 0 <= i < s.len() ==> is_digit(#[trigger] s[i])
}

/// The index of the first `.`, or the length where there is none.
pub open spec fn dot_idx(s: Seq<char>) -> int
    decreases s.len(),
{
    if s.len() == 0 {
        0
    } else if s[0] == '.' {
        0
    } else {
        1 + dot_idx(s.skip(1))
    }
}

pub proof fn lemma_dot_idx_unique(s: Seq<char>, i: int)
    requires
        0 <= i <= s.len(),
        forall|k: int| 0 <= k < i ==> s[k] != '.',
        i < s.len() ==> s[i] == '.',
    ensures
        dot_idx(s) == i,
    decreases s.len(),
{
    if s.len() == 0 {
    } else if s[0] == '.' {
        assert(i == 0);
    } else {
        assert(i > 0);
        assert forall|k: int| 0 <= k < i - 1 implies s.skip(1)[k] != '.' by {
            assert(s.skip(1)[k] == s[k + 1]);
        }
        if i - 1 < s.len() - 1 {
            assert(s.skip(1)[i - 1] == s[i]);
        }
        lemma_dot_idx_unique(s.skip(1), i - 1);
    }
}

/// The digits before the first dot.
pub open spec fn int_part(s: Seq<char>) -> Seq<char> {
    s.take(dot_idx(s))
}

/// The digits after the first dot, or empty where there is no dot.
pub open spec fn frac_part(s: Seq<char>) -> Seq<char> {
    if dot_idx(s) < s.len() {
        s.skip(dot_idx(s) + 1)
    } else {
        Seq::empty()
    }
}

/// A plain decimal: digits with at most one dot and at least one digit.
pub open spec fn dec_valid(s: Seq<char>) -> bool {
    &&& s.len() > 0
    &&& all_digits(int_part(s))
    &&& all_digits(frac_part(s))
    &&& int_part(s).len() + frac_part(s).len() > 0
}

pub open spec fn strip_leading_zeros(s: Seq<char>) -> Seq<char>
    decreases s.len(),
{
    if s.len() > 0 && s[0] == '0' {
        strip_leading_zeros(s.skip(1))
    } else {
        s
    }
}

pub open spec fn strip_trailing_zeros(s: Seq<char>) -> Seq<char>
    decreases s.len(),
{
    if s.len() > 0 && s.last() == '0' {
        strip_trailing_zeros(s.drop_last())
    } else {
        s
    }
}

pub proof fn lemma_strip_leading_at(s: Seq<char>, j: int)
    requires
        0 <= j <= s.len(),
        forall|k: int| 0 <= k < j ==> s[k] == '0',
        j < s.len() ==> s[j] != '0',
    ensures
        strip_leading_zeros(s) == s.skip(j),
    decreases s.len(),
{
    if s.len() > 0 && s[0] == '0' {
        assert(j > 0);
        assert forall|k: int| 0 <= k < j - 1 implies s.skip(1)[k] == '0' by {
            assert(s.skip(1)[k] == s[k + 1]);
        }
        if j - 1 < s.len() - 1 {
            assert(s.skip(1)[j - 1] == s[j]);
        }
        lemma_strip_leading_at(s.skip(1), j - 1);
        assert(s.skip(1).skip(j - 1) =~= s.skip(j));
    } else {
        assert(j == 0);
        assert(s.skip(0) =~= s);
    }
}

pub proof fn lemma_strip_trailing_at(s: Seq<char>, j: int)
    requires
        0 <= j <= s.len(),
        forall|k: int| j <= k < s.len() ==> s[k] == '0',
        j > 0 ==> s[j - 1] != '0',
    ensures
        strip_trailing_zeros(s) == s.take(j),
    decreases s.len(),
{
    if s.len() > 0 && s.last() == '0' {
        assert(j < s.len());
        assert forall|k: int| j <= k < s.drop_last().len() implies s.drop_last()[k] == '0' by {
            assert(s.drop_last()[k] == s[k]);
        }
        lemma_strip_trailing_at(s.drop_last(), j);
        assert(s.drop_last().take(j) =~= s.take(j));
    } else {
        assert(j == s.len());
        assert(s.take(j) =~= s);
    }
}

/// The key of a decimal string; a string that is no plain decimal keys as
/// zero.
pub open spec fn dec_key(s: Seq<char>) -> (Seq<char>, Seq<char>) {
    if dec_valid(s) {
        (strip_leading_zeros(int_part(s)), strip_trailing_zeros(frac_part(s)))
    } else {
        (Seq::empty(), Seq::empty())
    }
}

/// Strict numeric order on keys: a shorter integer part is smaller, equal
/// lengths compare lexicographically, equal integer parts compare by the
/// fraction digits.
pub open spec fn key_lt(a: (Seq<char>, Seq<char>), b: (Seq<char>, Seq<char>)) -> bool {
    ||| a.0.len() < b.0.len()
    ||| (a.0.len() == b.0.len() && lex_lt(a.0, b.0))
    ||| (a.0 == b.0 && lex_lt(a.1, b.1))
}

pub proof fn lemma_key_lt_irrefl(a: (Seq<char>, Seq<char>))
    ensures
        !key_lt(a, a),
{
    lemma_lex_lt_irrefl(a.0);
    lemma_lex_lt_irrefl(a.1);
}

pub proof fn lemma_key_lt_trans(
    a: (Seq<char>, Seq<char>),
    b: (Seq<char>, Seq<char>),
    c: (Seq<char>, Seq<char>),
)
    requires
        key_lt(a, b),
        key_lt(b, c),
    ensures
        key_lt(a, c),
{
    if a.0.len() == b.0.len() && b.0.len() == c.0.len() {
        if lex_lt(a.0, b.0) && lex_lt(b.0, c.0) {
            lemma_lex_lt_trans(a.0, b.0, c.0);
        } else if a.0 == b.0 && b.0 == c.0 {
            lemma_lex_lt_trans(a.1, b.1, c.1);
        }
    }
}

pub proof fn lemma_key_lt_connected(a: (Seq<char>, Seq<char>), b: (Seq<char>, Seq<char>))
    requires
        !key_lt(a, b),
        !key_lt(b, a),
    ensures
        a.0 == b.0,
        a.1 == b.1,
{
    lemma_lex_lt_connected(a.0, b.0);
    lemma_lex_lt_connected(a.1, b.1);
}

/// The characters of a string as a vector.
pub fn chars_of(s: &str) -> (r: Vec<char>)
    ensures
        r@ == s@,
{
    let n = s.unicode_len();
    let mut r: Vec<char> = Vec::new();
    let mut i: usize = 0;
    while i < n
        invariant
            i <= n,
            n == s@.len(),
            r@ == s@.take(i as int),
        decreases n - i,
    {
        r.push(s.get_char(i));
        proof {
            assert(r@ =~= s@.take(i as int + 1));
        }
        i += 1;
    }
    proof {
        assert(s@.take(n as int) =~= s@);
    }
    r
}

/// Exactly [`lex_lt`] on the two vectors' characters.
pub fn lex_lt_chars(a: &Vec<char>, b: &Vec<char>) -> (r: bool)
    ensures
        r == lex_lt(a@, b@),
{
    let mut i: usize = 0;
    proof {
        assert(a@.skip(0) =~= a@);
        assert(b@.skip(0) =~= b@);
    }
    while i < a.len() && i < b.len()
        invariant
            i <= a@.len(),
            i <= b@.len(),
            lex_lt(a@, b@) == lex_lt(a@.skip(i as int), b@.skip(i as int)),
        decreases a@.len() - i,
    {
        let ca = a[i];
        let cb = b[i];
        proof {
            assert(a@.skip(i as int)[0] == a@[i as int]);
            assert(b@.skip(i as int)[0] == b@[i as int]);
        }
        if ca != cb {
            return ca < cb;
        }
        proof {
            assert(a@.skip(i as int).skip(1) =~= a@.skip(i as int + 1));
            assert(b@.skip(i as int).skip(1) =~= b@.skip(i as int + 1));
        }
        i += 1;
    }
    a.len() < b.len()
}

/// The key of a decimal string, exactly [`dec_key`].
pub fn dec_key_chars(s: &str) -> (r: (Vec<char>, Vec<char>))
    ensures
        (r.0@, r.1@) == dec_key(s@),
{
    let cs = chars_of(s);
    let n = cs.len();
    let mut d: usize = 0;
    while d < n && cs[d] != '.'
        invariant
            d <= n,
            n == cs@.len(),
            cs@ == s@,
            forall|k: int| 0 <= k < d ==> cs@[k] != '.',
        decreases n - d,
    {
        d += 1;
    }
    proof {
        lemma_dot_idx_unique(s@, d as int);
    }
    let mut alldig = true;
    let mut k: usize = 0;
    while k < n
        invariant
            k <= n,
            n == cs@.len(),
            cs@ == s@,
            d <= n,
            alldig == (forall|j: int|
                0 <= j < k && j != d ==> is_digit(#[trigger] cs@[j])),
        decreases n - k,
    {
        if k != d {
            let c = cs[k];
            let dig = '0' <= c && c <= '9';
            alldig = alldig && dig;
        }
        k += 1;
    }
    let frac_len: usize = if d < n { n - d - 1 } else { 0 };
    let valid = n > 0 && alldig && d + frac_len > 0;
    proof {
        assert(int_part(s@) == s@.take(d as int));
        assert(int_part(s@).len() == d);
        assert(frac_part(s@).len() == frac_len);
        if valid {
            assert forall|j: int| 0 <= j < int_part(s@).len() implies is_digit(
                #[trigger] int_part(s@)[j],
            ) by {
                assert(int_part(s@)[j] == cs@[j]);
            }
            assert forall|j: int| 0 <= j < frac_part(s@).len() implies is_digit(
                #[trigger] frac_part(s@)[j],
            ) by {
                assert(frac_part(s@)[j] == cs@[d + 1 + j]);
            }
            assert(dec_valid(s@));
        } else {
            if n > 0 && d + frac_len > 0 {
                let bad = choose|j: int| 0 <= j < n && j != d && !is_digit(cs@[j]);
                if bad < d {
                    assert(int_part(s@)[bad] == cs@[bad]);
                } else if d < bad {
                    assert(frac_part(s@)[bad - d - 1] == cs@[bad]);
                }
            }
            assert(!dec_valid(s@));
        }
    }
    if !valid {
        return (Vec::new(), Vec::new());
    }
    let mut j: usize = 0;
    while j < d && cs[j] == '0'
        invariant
            j <= d,
            d <= n,
            n == cs@.len(),
            cs@ == s@,
            forall|k2: int| 0 <= k2 < j ==> cs@[k2] == '0',
        decreases d - j,
    {
        j += 1;
    }
    let mut ik: Vec<char> = Vec::new();
    let mut p: usize = j;
    while p < d
        invariant
            j <= p <= d,
            d <= n,
            n == cs@.len(),
            cs@ == s@,
            ik@ == s@.subrange(j as int, p as int),
        decreases d - p,
    {
        ik.push(cs[p]);
        proof {
            assert(ik@ =~= s@.subrange(j as int, p as int + 1));
        }
        p += 1;
    }
    proof {
        assert forall|k2: int| 0 <= k2 < j implies int_part(s@)[k2] == '0' by {
            assert(int_part(s@)[k2] == cs@[k2]);
        }
        if (j as int) < d {
            assert(int_part(s@)[j as int] == cs@[j as int]);
        }
        lemma_strip_leading_at(int_part(s@), j as int);
        assert(int_part(s@).skip(j as int) =~= s@.subrange(j as int, d as int));
    }
    let start: usize = if d < n { d + 1 } else { n };
    let mut m: usize = n;
    while m > start && cs[m - 1] == '0'
        invariant
            start <= m <= n,
            n == cs@.len(),
            cs@ == s@,
            forall|k2: int| m <= k2 < n ==> cs@[k2] == '0',
        decreases m,
    {
        m -= 1;
    }
    let mut fk: Vec<char> = Vec::new();
    let mut q: usize = start;
    while q < m
        invariant
            start <= q <= m,
            m <= n,
            n == cs@.len(),
            cs@ == s@,
            fk@ == s@.subrange(start as int, q as int),
        decreases m - q,
    {
        fk.push(cs[q]);
        proof {
            assert(fk@ =~= s@.subrange(start as int, q as int + 1));
        }
        q += 1;
    }
    proof {
        if d < n {
            assert forall|k2: int| m - start <= k2 < frac_part(s@).len() implies frac_part(
                s@,
            )[k2] == '0' by {
                assert(frac_part(s@)[k2] == cs@[d + 1 + k2]);
            }
            if m > start {
                assert(frac_part(s@)[m - start - 1] == cs@[m - 1]);
            }
            lemma_strip_trailing_at(frac_part(s@), m as int - start as int);
            assert(frac_part(s@).take(m as int - start as int) =~= s@.subrange(
                start as int,
                m as int,
            ));
        } else {
            assert(frac_part(s@) =~= Seq::<char>::empty());
            assert(fk@ =~= Seq::<char>::empty());
        }
    }
    (ik, fk)
}

/// Exactly [`key_lt`] on the two keys.
pub fn key_lt_chars(a: &(Vec<char>, Vec<char>), b: &(Vec<char>, Vec<char>)) -> (r: bool)
    ensures
        r == key_lt((a.0@, a.1@), (b.0@, b.1@)),
{
    if a.0.len() < b.0.len() {
        return true;
    }
    if a.0.len() > b.0.len() {
        return false;
    }
    if lex_lt_chars(&a.0, &b.0) {
        return true;
    }
    if lex_lt_chars(&b.0, &a.0) {
        proof {
            lemma_lex_lt_irrefl(a.0@);
        }
        return false;
    }
    proof {
        lemma_lex_lt_connected(a.0@, b.0@);
    }
    lex_lt_chars(&a.1, &b.1)
}

} // verus!
