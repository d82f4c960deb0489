//! The interactive selection step: a yes/no answer gates each list; a
//! count and a sort-mode answer, each with a default on unparsable input,
//! pick how the list is ordered and cut.

use vstd::prelude::*;
use vstd::seq_lib::group_to_multiset_ensures;
use vstd::seq_lib::to_multiset_insert;
use crate::decode::Comet;
use crate::decode::SpaceProgram;
use crate::order::all_digits;
use crate::order::chars_of;
use crate::order::dec_key;
use crate::order::dec_key_chars;
use crate::order::is_digit;
use crate::order::key_lt;
use crate::order::key_lt_chars;
use crate::order::lex_lt;
use crate::order::lex_lt_chars;
use crate::order::strip_leading_zeros;
use crate::order::strip_trailing_zeros;
use crate::order::int_part;
use crate::order::frac_part;
use crate::order::dec_valid;
use crate::order::lemma_key_lt_irrefl;
use crate::order::lemma_key_lt_trans;
use crate::order::lemma_key_lt_connected;
use crate::order::lemma_lex_lt_irrefl;
use crate::order::lemma_lex_lt_trans;
use crate::order::lemma_lex_lt_connected;

verus! {

/// The numeric sort key of a comet: its miss distance read as a decimal
/// string; a missing distance keys as zero, like an unparsable one.
pub open spec fn spec_dist_key(c: Comet) -> (Seq<char>, Seq<char>) {
    match c.miss_distance_km {
        Some(s) => dec_key(s@),
        None => (Seq::<char>::empty(), Seq::<char>::empty()),
    }
}

/// The date sort key of a comet: its close-approach date, a missing date
/// reading as the empty string, which sorts first.
pub open spec fn spec_date_key(c: Comet) -> Seq<char> {
    match c.close_approach_date {
        Some(s) => s@,
        None => Seq::<char>::empty(),
    }
}

/// `a` at or before `b` under the chosen mode: mode 1 is ascending numeric
/// miss distance, any other mode is ascending date text.
pub open spec fn spec_comet_le(a: Comet, b: Comet, mode: u8) -> bool {
    if mode == 1 {
        !key_lt(spec_dist_key(b), spec_dist_key(a))
    } else {
        !lex_lt(spec_date_key(b), spec_date_key(a))
    }
}

/// `a` at or before `b`: ascending name text.
pub open spec fn spec_program_le(a: SpaceProgram, b: SpaceProgram) -> bool {
    !lex_lt(b.name@, a.name@)
}

pub proof fn lemma_comet_le_total(a: Comet, b: Comet, mode: u8)
    ensures
        spec_comet_le(a, b, mode) || spec_comet_le(b, a, mode),
{
    if mode == 1 {
        if key_lt(spec_dist_key(b), spec_dist_key(a)) && key_lt(
            spec_dist_key(a),
            spec_dist_key(b),
        ) {
            lemma_key_lt_trans(spec_dist_key(a), spec_dist_key(b), spec_dist_key(a));
            lemma_key_lt_irrefl(spec_dist_key(a));
        }
    } else {
        if lex_lt(spec_date_key(b), spec_date_key(a)) && lex_lt(
            spec_date_key(a),
            spec_date_key(b),
        ) {
            lemma_lex_lt_trans(spec_date_key(a), spec_date_key(b), spec_date_key(a));
            lemma_lex_lt_irrefl(spec_date_key(a));
        }
    }
}

pub proof fn lemma_comet_le_trans(a: Comet, b: Comet, c: Comet, mode: u8)
    requires
        spec_comet_le(a, b, mode),
        spec_comet_le(b, c, mode),
    ensures
        spec_comet_le(a, c, mode),
{
    if mode == 1 {
        let ka = spec_dist_key(a);
        let kb = spec_dist_key(b);
        let kc = spec_dist_key(c);
        if key_lt(kc, ka) {
            if key_lt(ka, kb) {
                lemma_key_lt_trans(kc, ka, kb);
            } else {
                lemma_key_lt_connected(ka, kb);
            }
        }
    } else {
        let da = spec_date_key(a);
        let db = spec_date_key(b);
        let dc = spec_date_key(c);
        if lex_lt(dc, da) {
            if lex_lt(da, db) {
                lemma_lex_lt_trans(dc, da, db);
            } else {
                lemma_lex_lt_connected(da, db);
            }
        }
    }
}

pub proof fn lemma_program_le_total(a: SpaceProgram, b: SpaceProgram)
    ensures
        spec_program_le(a, b) || spec_program_le(b, a),
{
    if lex_lt(b.name@, a.name@) && lex_lt(a.name@, b.name@) {
        lemma_lex_lt_trans(a.name@, b.name@, a.name@);
        lemma_lex_lt_irrefl(a.name@);
    }
}

pub proof fn lemma_program_le_trans(a: SpaceProgram, b: SpaceProgram, c: SpaceProgram)
    requires
        spec_program_le(a, b),
        spec_program_le(b, c),
    ensures
        spec_program_le(a, c),
{
    if lex_lt(c.name@, a.name@) {
        if lex_lt(a.name@, b.name@) {
            lemma_lex_lt_trans(c.name@, a.name@, b.name@);
        } else {
            lemma_lex_lt_connected(a.name@, b.name@);
        }
    }
}

fn comet_dist_key(c: &Comet) -> (r: (Vec<char>, Vec<char>))
    ensures
        (r.0@, r.1@) == spec_dist_key(*c),
{
    match &c.miss_distance_km {
        Some(s) => dec_key_chars(s.as_str()),
        None => (Vec::new(), Vec::new()),
    }
}

fn comet_date_key(c: &Comet) -> (r: Vec<char>)
    ensures
        r@ == spec_date_key(*c),
{
    match &c.close_approach_date {
        Some(s) => chars_of(s.as_str()),
        None => Vec::new(),
    }
}

/// Exactly [`spec_comet_le`].
pub fn comet_le(a: &Comet, b: &Comet, mode: u8) -> (r: bool)
    ensures
        r == spec_comet_le(*a, *b, mode),
{
    if mode == 1 {
        let ka = comet_dist_key(a);
        let kb = comet_dist_key(b);
        let lt = key_lt_chars(&kb, &ka);
        !lt
    } else {
        let da = comet_date_key(a);
        let db = comet_date_key(b);
        let lt = lex_lt_chars(&db, &da);
        !lt
    }
}

/// Exactly [`spec_program_le`].
pub fn program_le(a: &SpaceProgram, b: &SpaceProgram) -> (r: bool)
    ensures
        r == spec_program_le(*a, *b),
{
    let an = chars_of(a.name.as_str());
    let bn = chars_of(b.name.as_str());
    let lt = lex_lt_chars(&bn, &an);
    !lt
}

/// Ascending under [`spec_comet_le`] for the mode.
pub open spec fn spec_comets_sorted(s: Seq<Comet>, mode: u8) -> bool {
    forall|p: int, q: int|
        0 <= p < q < s.len() ==> spec_comet_le(#[trigger] s[p], #[trigger] s[q], mode)
}

/// Ascending under [`spec_program_le`].
pub open spec fn spec_programs_sorted(s: Seq<SpaceProgram>) -> bool {
    forall|p: int, q: int|
        0 <= p < q < s.len() ==> spec_program_le(#[trigger] s[p], #[trigger] s[q])
}

fn comet_gt_at(v: &Vec<Comet>, idx: usize, x: &Comet, mode: u8) -> (r: bool)
    requires
        idx < v@.len(),
    ensures
        r == !spec_comet_le(v@[idx as int], *x, mode),
{
    let le = comet_le(&v[idx], x, mode);
    !le
}

/// Sorts in place, ascending for the mode: a permutation of the input in
/// which each record is at or before every later one.
pub fn sort_comets(v: &mut Vec<Comet>, mode: u8)
    ensures
        final(v)@.to_multiset() == old(v)@.to_multiset(),
        final(v)@.len() == old(v)@.len(),
        spec_comets_sorted(final(v)@, mode),
{
    broadcast use group_to_multiset_ensures;
    broadcast use to_multiset_insert;

    let ghost orig = v@;
    if v.len() <= 1 {
        return ;
    }
    let mut i: usize = 1;
    while i < v.len()
        invariant
            1 <= i <= v@.len(),
            v@.len() == orig.len(),
            v@.to_multiset() == orig.to_multiset(),
            spec_comets_sorted(v@.take(i as int), mode),
        decreases v@.len() - i,
    {
        let ghost prev = v@;
        let x = v.remove(i);
        let ghost mid = v@;
        proof {
            assert(mid.take(i as int) =~= prev.take(i as int));
        }
        let mut j: usize = i;
        while j > 0 && comet_gt_at(v, j - 1, &x, mode)
            invariant
                j <= i,
                i <= v@.len(),
                v@ == mid,
                forall|k: int| j <= k < i ==> !spec_comet_le(#[trigger] v@[k], x, mode),
            decreases j,
        {
            j -= 1;
        }
        v.insert(j, x);
        proof {
            broadcast use group_to_multiset_ensures;
            broadcast use to_multiset_insert;

            let newv = v@;
            assert(newv == mid.insert(j as int, x));
            assert(prev.contains(prev[i as int]));
            assert(prev.remove(i as int).to_multiset() =~= prev.to_multiset().remove(
                prev[i as int],
            ));
            assert(newv.to_multiset() =~= orig.to_multiset());
            assert forall|p: int, q: int|
                0 <= p < q < i + 1 implies spec_comet_le(
                #[trigger] newv.take(i as int + 1)[p],
                #[trigger] newv.take(i as int + 1)[q],
                mode,
            ) by {
                let jj = j as int;
                let ii = i as int;
                if q < jj {
                    assert(mid.take(ii)[p] == mid[p]);
                    assert(mid.take(ii)[q] == mid[q]);
                } else if q == jj {
                    if p == jj - 1 {
                        assert(spec_comet_le(mid[jj - 1], x, mode));
                    } else {
                        assert(spec_comet_le(mid.take(ii)[p], mid.take(ii)[jj - 1], mode));
                        lemma_comet_le_trans(mid[p], mid[jj - 1], x, mode);
                    }
                } else {
                    if p < jj {
                        assert(spec_comet_le(mid.take(ii)[p], mid.take(ii)[q - 1], mode));
                    } else if p == jj {
                        lemma_comet_le_total(x, mid[q - 1], mode);
                    } else {
                        assert(spec_comet_le(mid.take(ii)[p - 1], mid.take(ii)[q - 1], mode));
                    }
                }
            }
        }
        i += 1;
    }
    proof {
        assert(v@.take(v@.len() as int) =~= v@);
    }
}

fn program_gt_at(v: &Vec<SpaceProgram>, idx: usize, x: &SpaceProgram) -> (r: bool)
    requires
        idx < v@.len(),
    ensures
        r == !spec_program_le(v@[idx as int], *x),
{
    let le = program_le(&v[idx], x);
    !le
}

/// Sorts in place, ascending by name: a permutation of the input in which
/// each record is at or before every later one.
pub fn sort_programs(v: &mut Vec<SpaceProgram>)
    ensures
        final(v)@.to_multiset() == old(v)@.to_multiset(),
        final(v)@.len() == old(v)@.len(),
        spec_programs_sorted(final(v)@),
{
    broadcast use group_to_multiset_ensures;
    broadcast use to_multiset_insert;

    let ghost orig = v@;
    if v.len() <= 1 {
        return ;
    }
    let mut i: usize = 1;
    while i < v.len()
        invariant
            1 <= i <= v@.len(),
            v@.len() == orig.len(),
            v@.to_multiset() == orig.to_multiset(),
            spec_programs_sorted(v@.take(i as int)),
        decreases v@.len() - i,
    {
        let ghost prev = v@;
        let x = v.remove(i);
        let ghost mid = v@;
        proof {
            assert(mid.take(i as int) =~= prev.take(i as int));
        }
        let mut j: usize = i;
        while j > 0 && program_gt_at(v, j - 1, &x)
            invariant
                j <= i,
                i <= v@.len(),
                v@ == mid,
                forall|k: int| j <= k < i ==> !spec_program_le(#[trigger] v@[k], x),
            decreases j,
        {
            j -= 1;
        }
        v.insert(j, x);
        proof {
            broadcast use group_to_multiset_ensures;
            broadcast use to_multiset_insert;

            let newv = v@;
            assert(newv == mid.insert(j as int, x));
            assert(prev.contains(prev[i as int]));
            assert(prev.remove(i as int).to_multiset() =~= prev.to_multiset().remove(
                prev[i as int],
            ));
            assert(newv.to_multiset() =~= orig.to_multiset());
            assert forall|p: int, q: int|
                0 <= p < q < i + 1 implies spec_program_le(
                #[trigger] newv.take(i as int + 1)[p],
                #[trigger] newv.take(i as int + 1)[q],
            ) by {
                let jj = j as int;
                let ii = i as int;
                if q < jj {
                    assert(mid.take(ii)[p] == mid[p]);
                    assert(mid.take(ii)[q] == mid[q]);
                } else if q == jj {
                    if p == jj - 1 {
                        assert(spec_program_le(mid[jj - 1], x));
                    } else {
                        assert(spec_program_le(mid.take(ii)[p], mid.take(ii)[jj - 1]));
                        lemma_program_le_trans(mid[p], mid[jj - 1], x);
                    }
                } else {
                    if p < jj {
                        assert(spec_program_le(mid.take(ii)[p], mid.take(ii)[q - 1]));
                    } else if p == jj {
                        lemma_program_le_total(x, mid[q - 1]);
                    } else {
                        assert(spec_program_le(mid.take(ii)[p - 1], mid.take(ii)[q - 1]));
                    }
                }
            }
        }
        i += 1;
    }
    proof {
        assert(v@.take(v@.len() as int) =~= v@);
    }
}

/// An ASCII case-insensitive match of the word "yes".
pub open spec fn spec_is_yes(s: Seq<char>) -> bool {
    &&& s.len() == 3
    &&& (s[0] == 'y' || s[0] == 'Y')
    &&& (s[1] == 'e' || s[1] == 'E')
    &&& (s[2] == 's' || s[2] == 'S')
}

/// True only on an affirmative answer, exactly [`spec_is_yes`]; anything
/// else declines.
pub fn is_yes(s: &str) -> (r: bool)
    ensures
        r == spec_is_yes(s@),
{
    let n = s.unicode_len();
    if n != 3 {
        return false;
    }
    let c0 = s.get_char(0);
    let c1 = s.get_char(1);
    let c2 = s.get_char(2);
    (c0 == 'y' || c0 == 'Y') && (c1 == 'e' || c1 == 'E') && (c2 == 's' || c2 == 'S')
}

/// The digits of a count answer: everything after one optional leading `+`.
pub open spec fn num_body(s: Seq<char>) -> Seq<char> {
    if s.len() > 0 && s[0] == '+' {
        s.skip(1)
    } else {
        s
    }
}

pub open spec fn digit_val(c: char) -> int {
    (c as u32) - ('0' as u32)
}

/// The value of a digit string read in base ten.
pub open spec fn digits_val(s: Seq<char>) -> int
    decreases s.len(),
{
    if s.len() == 0 {
        0
    } else {
        digits_val(s.drop_last()) * 10 + digit_val(s.last())
    }
}

pub proof fn lemma_digits_val_bounds(s: Seq<char>)
    requires
        all_digits(s),
    ensures
        digits_val(s) >= 0,
    decreases s.len(),
{
    if s.len() > 0 {
        assert(forall|k: int| 0 <= k < s.len() - 1 ==> is_digit(#[trigger] s.drop_last()[k]));
        lemma_digits_val_bounds(s.drop_last());
        assert(is_digit(s[s.len() - 1]));
    }
}

/// The value of a decimal answer, where the answer is one optional `+`,
/// then digits only, and the value is at most `max`.
pub open spec fn spec_decimal(s: Seq<char>, max: int) -> Option<int> {
    let b = num_body(s);
    if b.len() > 0 && all_digits(b) && digits_val(b) <= max {
        Some(digits_val(b))
    } else {
        None
    }
}

/// The count answer as a value, or 10 where it does not parse.
pub open spec fn spec_limit_of(s: Seq<char>) -> usize {
    match spec_decimal(s, usize::MAX as int) {
        Some(v) => v as usize,
        None => 10,
    }
}

/// The sort-mode answer as a code, or 1 where it does not parse.
pub open spec fn spec_sort_mode_of(s: Seq<char>) -> u8 {
    match spec_decimal(s, 255) {
        Some(v) => v as u8,
        None => 1,
    }
}

fn parse_decimal(s: &str, max: usize) -> (r: Option<usize>)
    ensures
        match spec_decimal(s@, max as int) {
            Some(v) => r matches Some(u) && u as int == v,
            None => r is None,
        },
{
    let cs = chars_of(s);
    let n = cs.len();
    let start: usize = if n > 0 && cs[0] == '+' {
        1
    } else {
        0
    };
    proof {
        assert(s@.skip(0) =~= s@);
        assert(num_body(s@) == s@.skip(start as int));
    }
    let ghost body = num_body(s@);
    if start == n {
        return None;
    }
    let mut acc: usize = 0;
    let mut over = false;
    let mut i: usize = start;
    while i < n
        invariant
            start <= i <= n,
            n == cs@.len(),
            cs@ == s@,
            body == num_body(s@),
            body == s@.skip(start as int),
            forall|k: int| start <= k < i ==> is_digit(#[trigger] cs@[k]),
            !over ==> acc as int == digits_val(body.take(i - start as int)),
            over ==> digits_val(body.take(i - start as int)) > usize::MAX as int,
        decreases n - i,
    {
        let c = cs[i];
        if !('0' <= c && c <= '9') {
            proof {
                assert(body[i - start as int] == cs@[i as int]);
                assert(!all_digits(body));
            }
            return None;
        }
        let d: usize = ((c as u32) - ('0' as u32)) as usize;
        proof {
            let ghost p = i - start as int;
            assert(body.take(p + 1).drop_last() =~= body.take(p));
            assert(body.take(p + 1).last() == body[p]);
            assert(body[p] == cs@[i as int]);
        }
        if !over {
            let q: usize = usize::MAX / 10;
            let rr: usize = usize::MAX % 10;
            proof {
                vstd::arithmetic::div_mod::lemma_fundamental_div_mod(usize::MAX as int, 10);
            }
            if acc > q || (acc == q && d > rr) {
                over = true;
            } else {
                acc = acc * 10 + d;
            }
        }
        i += 1;
    }
    proof {
        assert(body.take(n - start as int) =~= body);
        assert forall|k: int| 0 <= k < body.len() implies is_digit(#[trigger] body[k]) by {
            assert(body[k] == cs@[start + k]);
        }
    }
    if over {
        return None;
    }
    if acc > max {
        return None;
    }
    Some(acc)
}

/// The count answer: a decimal value, or 10 where it does not parse.
pub fn parse_limit(s: &str) -> (r: usize)
    ensures
        r == spec_limit_of(s@),
{
    proof {
        if spec_decimal(s@, usize::MAX as int) is Some {
            lemma_digits_val_bounds(num_body(s@));
        }
    }
    match parse_decimal(s, usize::MAX) {
        Some(v) => v,
        None => 10,
    }
}

/// The sort-mode answer: a decimal code, or 1 where it does not parse.
pub fn parse_sort_mode(s: &str) -> (r: u8)
    ensures
        r == spec_sort_mode_of(s@),
{
    proof {
        if spec_decimal(s@, 255) is Some {
            lemma_digits_val_bounds(num_body(s@));
        }
    }
    match parse_decimal(s, 255) {
        Some(v) => v as u8,
        None => 1,
    }
}

/// The first `n` elements in order, or all of them where fewer.
pub open spec fn spec_take_at_most<T>(s: Seq<T>, n: int) -> Seq<T> {
    if n <= s.len() {
        s.take(n)
    } else {
        s
    }
}

/// Cuts the list to its first `n` elements, keeping their order.
pub fn take_limit<T>(v: Vec<T>, n: usize) -> (r: Vec<T>)
    ensures
        r@ == spec_take_at_most(v@, n as int),
{
    let mut w = v;
    let ghost before = w@;
    w.truncate(n);
    proof {
        if n <= before.len() {
            assert(w@ =~= before.take(n as int));
        }
    }
    w
}

/// Applies the interactive choices to the comet list. A non-affirmative
/// answer yields the empty list and nothing else is consulted. Otherwise
/// the list is sorted for the chosen mode — an unparsable mode reads as
/// 1 — and cut to the chosen count, an unparsable count reading as 10: the
/// result is the first elements, in order, of a sorted permutation of the
/// data.
pub fn select_comets(answer: &str, count_input: &str, mode_input: &str, data: Vec<Comet>) -> (r:
    Vec<Comet>)
    ensures
        !spec_is_yes(answer@) ==> r@ == Seq::<Comet>::empty(),
        spec_is_yes(answer@) ==> exists|sorted: Seq<Comet>|
            {
                &&& #[trigger] sorted.to_multiset() == data@.to_multiset()
                &&& spec_comets_sorted(sorted, spec_sort_mode_of(mode_input@))
                &&& r@ == spec_take_at_most(sorted, spec_limit_of(count_input@) as int)
            },
        spec_is_yes(answer@) ==> r@.len() == (if spec_limit_of(count_input@) <= data@.len() {
            spec_limit_of(count_input@) as int
        } else {
            data@.len() as int
        }),
        spec_is_yes(answer@) ==> spec_comets_sorted(r@, spec_sort_mode_of(mode_input@)),
{
    if !is_yes(answer) {
        let r: Vec<Comet> = Vec::new();
        proof {
            assert(r@ =~= Seq::<Comet>::empty());
        }
        return r;
    }
    let limit = parse_limit(count_input);
    let mode = parse_sort_mode(mode_input);
    let mut v = data;
    sort_comets(&mut v, mode);
    let ghost sorted = v@;
    let r = take_limit(v, limit);
    proof {
        assert(sorted.to_multiset() == data@.to_multiset());
        assert(r@ == spec_take_at_most(sorted, spec_limit_of(count_input@) as int));
    }
    r
}

/// Applies the interactive choices to the space-program list. A
/// non-affirmative answer yields the empty list. Otherwise the list is
/// sorted ascending by name — the one order there is, whatever mode was
/// answered — and cut to the chosen count, an unparsable count reading as
/// 10.
pub fn select_programs(answer: &str, count_input: &str, data: Vec<SpaceProgram>) -> (r: Vec<
    SpaceProgram,
>)
    ensures
        !spec_is_yes(answer@) ==> r@ == Seq::<SpaceProgram>::empty(),
        spec_is_yes(answer@) ==> exists|sorted: Seq<SpaceProgram>|
            {
                &&& #[trigger] sorted.to_multiset() == data@.to_multiset()
                &&& spec_programs_sorted(sorted)
                &&& r@ == spec_take_at_most(sorted, spec_limit_of(count_input@) as int)
            },
        spec_is_yes(answer@) ==> r@.len() == (if spec_limit_of(count_input@) <= data@.len() {
            spec_limit_of(count_input@) as int
        } else {
            data@.len() as int
        }),
        spec_is_yes(answer@) ==> spec_programs_sorted(r@),
{
    if !is_yes(answer) {
        let r: Vec<SpaceProgram> = Vec::new();
        proof {
            assert(r@ =~= Seq::<SpaceProgram>::empty());
        }
        return r;
    }
    let limit = parse_limit(count_input);
    let mut v = data;
    sort_programs(&mut v);
    let ghost sorted = v@;
    let r = take_limit(v, limit);
    proof {
        assert(sorted.to_multiset() == data@.to_multiset());
        assert(r@ == spec_take_at_most(sorted, spec_limit_of(count_input@) as int));
    }
    r
}

/// Ten to the `n`.
pub open spec fn pow10(n: nat) -> int
    decreases n,
{
    if n == 0 {
        1
    } else {
        10 * pow10((n - 1) as nat)
    }
}

proof fn lemma_pow10_pos(n: nat)
    ensures
        pow10(n) >= 1,
    decreases n,
{
    if n > 0 {
        lemma_pow10_pos((n - 1) as nat);
    }
}

proof fn lemma_pow10_mono(m: nat, n: nat)
    requires
        m <= n,
    ensures
        pow10(m) <= pow10(n),
    decreases n,
{
    if m < n {
        lemma_pow10_mono(m, (n - 1) as nat);
        lemma_pow10_pos((n - 1) as nat);
    }
}

proof fn lemma_val_drop_zero_head(s: Seq<char>)
    requires
        s.len() > 0,
        s[0] == '0',
    ensures
        digits_val(s.skip(1)) == digits_val(s),
    decreases s.len(),
{
    if s.len() == 1 {
        assert(s.skip(1) =~= Seq::<char>::empty());
        assert(s.drop_last() =~= Seq::<char>::empty());
    } else {
        assert(s.drop_last()[0] == s[0]);
        lemma_val_drop_zero_head(s.drop_last());
        assert(s.skip(1).drop_last() =~= s.drop_last().skip(1));
        assert(s.skip(1).last() == s.last());
    }
}

proof fn lemma_val_strip_leading(s: Seq<char>)
    ensures
        digits_val(strip_leading_zeros(s)) == digits_val(s),
    decreases s.len(),
{
    if s.len() > 0 && s[0] == '0' {
        lemma_val_drop_zero_head(s);
        lemma_val_strip_leading(s.skip(1));
    }
}

proof fn lemma_strip_leading_props(s: Seq<char>)
    ensures
        strip_leading_zeros(s).len() > 0 ==> strip_leading_zeros(s)[0] != '0',
        all_digits(s) ==> all_digits(strip_leading_zeros(s)),
        strip_leading_zeros(s).len() <= s.len(),
    decreases s.len(),
{
    if s.len() > 0 && s[0] == '0' {
        if all_digits(s) {
            assert forall|k: int| 0 <= k < s.skip(1).len() implies is_digit(
                #[trigger] s.skip(1)[k],
            ) by {
                assert(s.skip(1)[k] == s[k + 1]);
            }
        }
        lemma_strip_leading_props(s.skip(1));
    }
}

proof fn lemma_val_bounds_any(s: Seq<char>)
    requires
        all_digits(s),
    ensures
        0 <= digits_val(s) < pow10(s.len() as nat),
    decreases s.len(),
{
    if s.len() > 0 {
        assert(forall|k: int| 0 <= k < s.len() - 1 ==> is_digit(#[trigger] s.drop_last()[k]));
        lemma_val_bounds_any(s.drop_last());
        assert(is_digit(s.last()));
    }
}

proof fn lemma_val_range(s: Seq<char>)
    requires
        all_digits(s),
        s.len() > 0,
        s[0] != '0',
    ensures
        pow10((s.len() - 1) as nat) <= digits_val(s) < pow10(s.len() as nat),
    decreases s.len(),
{
    if s.len() == 1 {
        assert(s.drop_last() =~= Seq::<char>::empty());
        assert(is_digit(s[0]));
        assert(digits_val(s) == digit_val(s[0]));
    } else {
        assert(forall|k: int| 0 <= k < s.len() - 1 ==> is_digit(#[trigger] s.drop_last()[k]));
        assert(s.drop_last()[0] == s[0]);
        lemma_val_range(s.drop_last());
        lemma_val_bounds_any(s.drop_last());
        assert(is_digit(s.last()));
        assert(digits_val(s) == digits_val(s.drop_last()) * 10 + digit_val(s.last()));
        assert(pow10((s.len() - 1) as nat) == 10 * pow10((s.len() - 2) as nat));
        assert(pow10(s.len() as nat) == 10 * pow10((s.len() - 1) as nat));
    }
}

proof fn lemma_val_front(s: Seq<char>)
    requires
        s.len() > 0,
    ensures
        digits_val(s) == digit_val(s[0]) * pow10((s.len() - 1) as nat) + digits_val(s.skip(1)),
    decreases s.len(),
{
    if s.len() == 1 {
        assert(s.skip(1) =~= Seq::<char>::empty());
        assert(s.drop_last() =~= Seq::<char>::empty());
    } else {
        let d = s.drop_last();
        assert(d[0] == s[0]);
        lemma_val_front(d);
        assert(s.skip(1).drop_last() =~= d.skip(1));
        assert(s.skip(1).last() == s.last());
        let h = digit_val(s[0]);
        let p = pow10((s.len() - 2) as nat);
        assert(pow10((s.len() - 1) as nat) == 10 * p);
        assert((h * p + digits_val(d.skip(1))) * 10 == h * p * 10 + digits_val(d.skip(1)) * 10);
        assert(h * p * 10 == h * (10 * p)) by (nonlinear_arith);
    }
}

proof fn lemma_equal_len_lex_val(a: Seq<char>, b: Seq<char>)
    requires
        all_digits(a),
        all_digits(b),
        a.len() == b.len(),
    ensures
        lex_lt(a, b) <==> digits_val(a) < digits_val(b),
    decreases a.len(),
{
    if a.len() > 0 {
        lemma_val_front(a);
        lemma_val_front(b);
        assert(forall|k: int| 0 <= k < a.len() - 1 ==> is_digit(#[trigger] a.skip(1)[k]));
        assert(forall|k: int| 0 <= k < b.len() - 1 ==> is_digit(#[trigger] b.skip(1)[k]));
        lemma_val_bounds_any(a.skip(1));
        lemma_val_bounds_any(b.skip(1));
        let p = pow10((a.len() - 1) as nat);
        lemma_pow10_pos((a.len() - 1) as nat);
        if a[0] != b[0] {
            assert(is_digit(a[0]));
            assert(is_digit(b[0]));
            if a[0] < b[0] {
                assert(digit_val(a[0]) + 1 <= digit_val(b[0]));
                assert((digit_val(a[0]) + 1) * p <= digit_val(b[0]) * p) by (nonlinear_arith)
                    requires
                        digit_val(a[0]) + 1 <= digit_val(b[0]),
                        p >= 1,
                ;
                assert((digit_val(a[0]) + 1) * p == digit_val(a[0]) * p + p) by (nonlinear_arith);
                assert(digits_val(a) < digits_val(b));
            } else {
                assert((digit_val(b[0]) + 1) * p <= digit_val(a[0]) * p) by (nonlinear_arith)
                    requires
                        digit_val(b[0]) + 1 <= digit_val(a[0]),
                        p >= 1,
                ;
                assert((digit_val(b[0]) + 1) * p == digit_val(b[0]) * p + p) by (nonlinear_arith);
                assert(digits_val(b) < digits_val(a));
            }
        } else {
            lemma_equal_len_lex_val(a.skip(1), b.skip(1));
        }
    }
}

/// Law: sort mode 1 is numeric, not textual. On plain digit strings the
/// miss-distance key comparison agrees exactly with the strings' base-ten
/// values, whatever leading zeros or lengths they have.
pub proof fn lemma_key_order_is_numeric(a: Seq<char>, b: Seq<char>)
    requires
        all_digits(a),
        all_digits(b),
        a.len() > 0,
        b.len() > 0,
    ensures
        key_lt(dec_key(a), dec_key(b)) <==> digits_val(a) < digits_val(b),
{
    lemma_digit_string_is_valid(a);
    lemma_digit_string_is_valid(b);
    lemma_val_strip_leading(a);
    lemma_val_strip_leading(b);
    lemma_strip_leading_props(a);
    lemma_strip_leading_props(b);
    let sa = strip_leading_zeros(a);
    let sb = strip_leading_zeros(b);
    lemma_val_bounds_any(sa);
    lemma_val_bounds_any(sb);
    lemma_lex_lt_irrefl(Seq::<char>::empty());
    if sa.len() < sb.len() {
        lemma_val_range(sb);
        lemma_pow10_mono(sa.len(), (sb.len() - 1) as nat);
    } else if sb.len() < sa.len() {
        lemma_val_range(sa);
        lemma_pow10_mono(sb.len(), (sa.len() - 1) as nat);
    } else {
        lemma_equal_len_lex_val(sa, sb);
    }
}

proof fn lemma_digit_string_is_valid(s: Seq<char>)
    requires
        all_digits(s),
        s.len() > 0,
    ensures
        dec_key(s) == (strip_leading_zeros(s), Seq::<char>::empty()),
{
    assert forall|k: int| 0 <= k < s.len() implies s[k] != '.' by {
        assert(is_digit(s[k]));
    }
    crate::order::lemma_dot_idx_unique(s, s.len() as int);
    assert(int_part(s) =~= s);
    assert(frac_part(s) =~= Seq::<char>::empty());
    assert(dec_valid(s));
}

/// `n` zero digits.
pub open spec fn zeros(n: nat) -> Seq<char> {
    Seq::new(n, |i: int| '0')
}

/// `s` padded with zero digits on the right to length `n`.
pub open spec fn pad(s: Seq<char>, n: nat) -> Seq<char> {
    s + zeros((n - s.len()) as nat)
}

proof fn lemma_val_append_zeros(s: Seq<char>, k: nat)
    ensures
        digits_val(s + zeros(k)) == digits_val(s) * pow10(k),
    decreases k,
{
    if k == 0 {
        assert(s + zeros(0) =~= s);
    } else {
        assert((s + zeros(k)).drop_last() =~= s + zeros((k - 1) as nat));
        assert((s + zeros(k)).last() == '0');
        lemma_val_append_zeros(s, (k - 1) as nat);
        assert((digits_val(s) * pow10((k - 1) as nat)) * 10 == digits_val(s) * (10 * pow10(
            (k - 1) as nat,
        ))) by (nonlinear_arith);
    }
}

proof fn lemma_strip_trailing_len(s: Seq<char>)
    ensures
        strip_trailing_zeros(s).len() <= s.len(),
    decreases s.len(),
{
    if s.len() > 0 && s.last() == '0' {
        lemma_strip_trailing_len(s.drop_last());
    }
}

proof fn lemma_stripped_last(s: Seq<char>)
    requires
        s == strip_trailing_zeros(s),
        s.len() > 0,
    ensures
        s.last() != '0',
{
    if s.last() == '0' {
        lemma_strip_trailing_len(s.drop_last());
    }
}

proof fn lemma_lex_pad(a: Seq<char>, b: Seq<char>, n: nat)
    requires
        all_digits(a),
        all_digits(b),
        a == strip_trailing_zeros(a),
        b == strip_trailing_zeros(b),
        a.len() <= n,
        b.len() <= n,
    ensures
        lex_lt(pad(a, n), pad(b, n)) == lex_lt(a, b),
    decreases n,
{
    assert(pad(a, n).len() == n);
    assert(pad(b, n).len() == n);
    if a.len() == 0 && b.len() == 0 {
        assert(pad(a, n) =~= pad(b, n));
        lemma_lex_lt_irrefl(pad(a, n));
    } else if n > 0 {
        let pa = pad(a, n);
        let pb = pad(b, n);
        let ha: char = if a.len() > 0 {
            a[0]
        } else {
            '0'
        };
        let hb: char = if b.len() > 0 {
            b[0]
        } else {
            '0'
        };
        assert(pa[0] == ha);
        assert(pb[0] == hb);
        if a.len() > 0 {
            assert(is_digit(a[0]));
        }
        if b.len() > 0 {
            assert(is_digit(b[0]));
        }
        if ha == hb {
            let ta: Seq<char> = if a.len() > 0 {
                a.skip(1)
            } else {
                a
            };
            let tb: Seq<char> = if b.len() > 0 {
                b.skip(1)
            } else {
                b
            };
            if a.len() > 0 {
                assert(forall|k: int| 0 <= k < ta.len() ==> #[trigger] ta[k] == a[k + 1]);
                if ta.len() > 0 {
                    assert(ta.last() == a.last());
                    lemma_stripped_last(a);
                }
                assert(ta == strip_trailing_zeros(ta)) by {
                    if ta.len() > 0 {
                        assert(ta.last() != '0');
                    }
                }
                assert(forall|k: int| 0 <= k < ta.len() ==> is_digit(#[trigger] ta[k]));
            }
            if b.len() > 0 {
                assert(forall|k: int| 0 <= k < tb.len() ==> #[trigger] tb[k] == b[k + 1]);
                if tb.len() > 0 {
                    assert(tb.last() == b.last());
                    lemma_stripped_last(b);
                }
                assert(tb == strip_trailing_zeros(tb)) by {
                    if tb.len() > 0 {
                        assert(tb.last() != '0');
                    }
                }
                assert(forall|k: int| 0 <= k < tb.len() ==> is_digit(#[trigger] tb[k]));
            }
            lemma_lex_pad(ta, tb, (n - 1) as nat);
            assert(pa.skip(1) =~= pad(ta, (n - 1) as nat));
            assert(pb.skip(1) =~= pad(tb, (n - 1) as nat));
            if a.len() > 0 && b.len() > 0 {
                assert(lex_lt(a, b) == lex_lt(ta, tb));
            } else if a.len() == 0 {
                // `b` starts with the same head '0'; it still ends in a
                // nonzero digit, so the empty string stays strictly below it.
                lemma_stripped_last(b);
                assert(b.len() >= 2);
                assert(tb.len() > 0);
                assert(lex_lt(a, b));
                assert(lex_lt(ta, tb));
            } else {
                lemma_stripped_last(a);
                assert(a.len() >= 2);
                assert(ta.len() > 0);
                assert(!lex_lt(a, b));
                assert(!lex_lt(ta, tb));
            }
        } else {
            assert(lex_lt(pa, pb) == (ha < hb));
            if a.len() > 0 && b.len() > 0 {
                assert(lex_lt(a, b) == (ha < hb));
            } else if a.len() == 0 {
                if b.len() == 1 {
                    lemma_stripped_last(b);
                }
                assert(lex_lt(a, b));
            } else {
                if a.len() == 1 {
                    lemma_stripped_last(a);
                }
                assert(!lex_lt(a, b));
            }
        }
    }
}

/// Law: the fraction comparison of sort mode 1 is numeric as well: on
/// trailing-zero-stripped fraction digits, lexicographic order equals the
/// order of the fractions' values scaled to a common denominator, and the
/// scaled value is the digits' value times the matching power of ten.
pub proof fn lemma_frac_order_is_numeric(a: Seq<char>, b: Seq<char>, n: nat)
    requires
        all_digits(a),
        all_digits(b),
        a == strip_trailing_zeros(a),
        b == strip_trailing_zeros(b),
        a.len() <= n,
        b.len() <= n,
    ensures
        lex_lt(a, b) <==> digits_val(pad(a, n)) < digits_val(pad(b, n)),
        digits_val(pad(a, n)) == digits_val(a) * pow10((n - a.len()) as nat),
{
    lemma_lex_pad(a, b, n);
    lemma_val_append_zeros(a, (n - a.len()) as nat);
    lemma_val_append_zeros(b, (n - b.len()) as nat);
    assert(forall|k: int| 0 <= k < pad(a, n).len() ==> is_digit(#[trigger] pad(a, n)[k]));
    assert(forall|k: int| 0 <= k < pad(b, n).len() ==> is_digit(#[trigger] pad(b, n)[k]));
    lemma_equal_len_lex_val(pad(a, n), pad(b, n));
}

} // verus!
