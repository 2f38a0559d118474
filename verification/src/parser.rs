//! Parsing of roll descriptions such as `4d6 + 2d12 vs 10d100` into the dice
//! of each side, and the range of bonuses that a table covers.

use vstd::prelude::*;

use crate::text::{
    first_two_words, first_word, parse_usize_chars, second_word, spec_parse_usize,
    lemma_parse_no_minus, lemma_split_piece_chars,
    digit_value, digits_value, is_digit, spec_parse_int,
    lemma_drop_white_space_concat, prepend_first,
    all_digits, char_is_numeric, chars_of, drop_white_space, is_numeric, lemma_split_on_len,
    parse_i32_chars, remove_white_space, spec_parse_i32, split_chars, split_on, string_views,
    strings_of, views,
};

verus! {

/// The separator of the two sides of an opposed roll.
pub open spec fn versus() -> Seq<char> {
    seq!['v', 's']
}

/// The characters a side of a roll may hold: numerals (the ASCII digits
/// among them), `d` and `+`.
pub open spec fn allowed_char(c: char) -> bool {
    is_digit(c) || char_is_numeric(c) || c == 'd' || c == '+'
}

pub open spec fn all_allowed(s: Seq<char>) -> bool {
    forall|i: int| 0 <= i < s.len() ==> allowed_char(#[trigger] s[i])
}

/// The two sides of a roll description: white space is dropped, the rest is
/// split on `vs`; more than one `vs`, or a character other than numerals,
/// `d` and `+`, gives `None`; a description without `vs`, or with nothing
/// after it, stands against itself.
pub open spec fn spec_outer(args: Seq<char>) -> Option<Seq<Seq<char>>> {
    let splits = split_on(drop_white_space(args), versus());
    if splits.len() > 2 {
        None
    } else if exists|k: int| 0 <= k < splits.len() && !all_allowed(#[trigger] splits[k]) {
        None
    } else if splits.len() == 1 || splits[1].len() == 0 {
        Some(seq![splits[0], splits[0]])
    } else {
        Some(splits)
    }
}

fn versus_chars() -> (r: Vec<char>)
    ensures
        r@ == versus(),
{
    let mut r = Vec::new();
    r.push('v');
    r.push('s');
    assert(r@ =~= versus());
    r
}

fn all_allowed_chars(v: &Vec<char>) -> (r: bool)
    ensures
        r == all_allowed(v@),
        r ==> !v@.contains('-'),
{
    let mut i: usize = 0;
    while i < v.len()
        invariant
            i <= v.len(),
            forall|j: int| 0 <= j < i ==> allowed_char(#[trigger] v@[j]),
            forall|j: int| 0 <= j < i ==> #[trigger] v@[j] != '-',
        decreases v.len() - i,
    {
        let c = v[i];
        if !is_numeric(c) && c != 'd' && c != '+' {
            return false;
        }
        i = i + 1;
    }
    true
}

/// The sides of a roll description, as character vectors.
pub fn outer_sides(args: &Vec<char>) -> (r: Option<Vec<Vec<char>>>)
    ensures
        match r {
            Some(v) => {
                &&& spec_outer(args@) == Some(views(v@))
                &&& v@.len() == 2
                &&& !v@[0]@.contains('-')
                &&& !v@[1]@.contains('-')
            },
            None => spec_outer(args@) is None,
        },
{
    let cleaned = remove_white_space(args);
    let vs = versus_chars();
    let splits = split_chars(&cleaned, &vs);
    proof {
        lemma_split_on_len(cleaned@, versus());
    }
    if splits.len() > 2 {
        return None;
    }
    let mut k: usize = 0;
    while k < splits.len()
        invariant
            k <= splits.len(),
            views(splits@) == split_on(drop_white_space(args@), versus()),
            forall|j: int| 0 <= j < k ==> all_allowed(#[trigger] views(splits@)[j]),
            forall|j: int| 0 <= j < k ==> !(#[trigger] splits@[j])@.contains('-'),
        decreases splits.len() - k,
    {
        if !all_allowed_chars(&splits[k]) {
            assert(!all_allowed(views(splits@)[k as int]));
            return None;
        }
        k = k + 1;
    }
    if splits.len() == 1 || splits[1].len() == 0 {
        let s0 = splits[0].clone();
        let s1 = splits[0].clone();
        let ghost first = views(splits@)[0];
        let mut pair: Vec<Vec<char>> = Vec::new();
        pair.push(s0);
        pair.push(s1);
        assert(views(pair@) =~= seq![first, first]);
        Some(pair)
    } else {
        Some(splits)
    }
}

/// Splits a roll description into its two sides, as in `"4d6 + 2d12 vs
/// 10d100"` to `["4d6+2d12", "10d100"]`.
pub fn advanced_parser_outer(args: &str) -> (r: Option<Vec<String>>)
    ensures
        match r {
            Some(v) => spec_outer(args@) == Some(string_views(v@)),
            None => spec_outer(args@) is None,
        },
{
    let v = chars_of(args);
    match outer_sides(&v) {
        Some(sides) => Some(strings_of(&sides)),
        None => None,
    }
}

/// One term of a side, such as `5d20` or `d20`: a count (1 where it does
/// not parse), `d`, and a number of faces.
pub open spec fn spec_term(x: Seq<char>) -> Option<(i32, i32)> {
    let nd = split_on(x, seq!['d']);
    if nd.len() == 2 && spec_parse_i32(nd[1]) is Some {
        Some(
            (
                match spec_parse_i32(nd[0]) {
                    Some(n) => n,
                    None => 1i32,
                },
                spec_parse_i32(nd[1])->0,
            ),
        )
    } else {
        None
    }
}

/// The terms of a side, or `None` where one of them does not parse.
pub open spec fn spec_terms(parts: Seq<Seq<char>>) -> Option<Seq<(i32, i32)>>
    decreases parts.len(),
{
    if parts.len() == 0 {
        Some(seq![])
    } else {
        match (spec_terms(parts.drop_last()), spec_term(parts.last())) {
            (Some(a), Some(t)) => Some(a.push(t)),
            _ => None,
        }
    }
}

/// The dice of one side, such as `5d10+6d12` to `[(5, 10), (6, 12)]`.
pub open spec fn spec_inner(comm: Seq<char>) -> Option<Seq<(i32, i32)>> {
    spec_terms(split_on(comm, seq!['+']))
}

/// Every piece is read: the pieces parse exactly when each of them does,
/// and then there is one term for each piece, in order.
pub proof fn lemma_terms_each(parts: Seq<Seq<char>>)
    ensures
        spec_terms(parts) is Some <==> (forall|i: int|
            0 <= i < parts.len() ==> #[trigger] spec_term(parts[i]) is Some),
        spec_terms(parts) matches Some(v) ==> v.len() == parts.len() && forall|i: int|
            0 <= i < parts.len() ==> v[i] == (#[trigger] spec_term(parts[i]))->0,
    decreases parts.len(),
{
    if parts.len() > 0 {
        let d = parts.drop_last();
        lemma_terms_each(d);
        assert(forall|i: int| 0 <= i < d.len() ==> d[i] == parts[i]);
        assert(parts.last() == parts[parts.len() - 1]);
        if spec_terms(parts) is Some {
            let v = spec_terms(parts)->0;
            let w = spec_terms(d)->0;
            assert forall|i: int| 0 <= i < parts.len() implies v[i] == (#[trigger] spec_term(
                parts[i],
            ))->0 by {
                if i < d.len() {
                    assert(d[i] == parts[i]);
                }
            }
        }
        if forall|i: int| 0 <= i < parts.len() ==> #[trigger] spec_term(parts[i]) is Some {
            assert forall|i: int| 0 <= i < d.len() implies #[trigger] spec_term(d[i]) is Some by {
                assert(d[i] == parts[i]);
                assert(spec_term(parts[i]) is Some);
            }
            assert(spec_term(parts[parts.len() - 1]) is Some);
        }
    }
}

/// Every term of a side is read: a side parses exactly when each of its
/// `+`-separated terms does, and then its dice are those terms, one for
/// each, in order (`2d20+5d12+d100` gives three).
pub proof fn lemma_inner_each_term(comm: Seq<char>)
    ensures
        spec_inner(comm) is Some <==> (forall|i: int|
            0 <= i < split_on(comm, seq!['+']).len() ==> #[trigger] spec_term(
                split_on(comm, seq!['+'])[i],
            ) is Some),
        spec_inner(comm) matches Some(v) ==> v.len() == split_on(comm, seq!['+']).len() && forall|
            i: int,
        |
            0 <= i < v.len() ==> v[i] == (#[trigger] spec_term(split_on(comm, seq!['+'])[i]))->0,
{
    lemma_terms_each(split_on(comm, seq!['+']));
}

fn parse_term(x: &Vec<char>) -> (r: Option<(i32, i32)>)
    ensures
        r == spec_term(x@),
        !x@.contains('-') ==> (r matches Some(t) ==> t.0 >= 0 && t.1 >= 0),
{
    let mut dsep: Vec<char> = Vec::new();
    dsep.push('d');
    assert(dsep@ =~= seq!['d']);
    let nd = split_chars(x, &dsep);
    if nd.len() != 2 {
        return None;
    }
    proof {
        if !x@.contains('-') {
            let dd = seq!['d'];
            assert(!nd@[0]@.contains('-')) by {
                if nd@[0]@.contains('-') {
                    let j = choose|j: int| 0 <= j < nd@[0]@.len() && nd@[0]@[j] == '-';
                    assert(views(nd@)[0] == nd@[0]@);
                    lemma_split_piece_chars(x@, dd, 0, j);
                }
            }
            assert(!nd@[1]@.contains('-')) by {
                if nd@[1]@.contains('-') {
                    let j = choose|j: int| 0 <= j < nd@[1]@.len() && nd@[1]@[j] == '-';
                    assert(views(nd@)[1] == nd@[1]@);
                    lemma_split_piece_chars(x@, dd, 1, j);
                }
            }
            if spec_parse_i32(nd@[0]@) is Some {
                lemma_parse_no_minus(nd@[0]@);
            }
            if spec_parse_i32(nd@[1]@) is Some {
                lemma_parse_no_minus(nd@[1]@);
            }
        }
    }
    let sides = parse_i32_chars(&nd[1]);
    match sides {
        Some(s) => {
            let count = match parse_i32_chars(&nd[0]) {
                Some(n) => n,
                None => 1,
            };
            Some((count, s))
        },
        None => None,
    }
}

/// The dice of one side, as character vectors.
pub fn inner_dice(comm: &Vec<char>) -> (r: Option<Vec<(i32, i32)>>)
    ensures
        match r {
            Some(v) => spec_inner(comm@) == Some(v@) && v@.len() == split_on(comm@, seq!['+']).len()
                && (!comm@.contains('-') ==> forall|i: int|
                0 <= i < v@.len() ==> (#[trigger] v@[i]).0 >= 0 && v@[i].1 >= 0),
            None => spec_inner(comm@) is None,
        },
{
    let mut plus: Vec<char> = Vec::new();
    plus.push('+');
    assert(plus@ =~= seq!['+']);
    let parts = split_chars(comm, &plus);
    let ghost ps = views(parts@);
    let mut output: Vec<(i32, i32)> = Vec::new();
    let mut i: usize = 0;
    assert(ps.take(0) =~= Seq::<Seq<char>>::empty());
    let mut failed = false;
    while i < parts.len()
        invariant
            i <= parts.len(),
            ps == views(parts@),
            ps == split_on(comm@, seq!['+']),
            !failed ==> spec_terms(ps.take(i as int)) == Some(output@),
            failed ==> spec_terms(ps.take(i as int)) is None,
            !comm@.contains('-') ==> forall|j: int|
                0 <= j < output@.len() ==> (#[trigger] output@[j]).0 >= 0 && output@[j].1 >= 0,
        decreases parts.len() - i,
    {
        proof {
            if !comm@.contains('-') {
                assert(!parts@[i as int]@.contains('-')) by {
                    if parts@[i as int]@.contains('-') {
                        let j = choose|j: int|
                            0 <= j < parts@[i as int]@.len() && parts@[i as int]@[j] == '-';
                        assert(ps[i as int] == parts@[i as int]@);
                        lemma_split_piece_chars(comm@, seq!['+'], i as int, j);
                    }
                }
            }
        }
        let t = parse_term(&parts[i]);
        assert(ps.take(i + 1).drop_last() =~= ps.take(i as int));
        assert(ps.take(i + 1).last() == parts@[i as int]@);
        match t {
            Some(term) => {
                if !failed {
                    output.push(term);
                }
            },
            None => {
                failed = true;
            },
        }
        i = i + 1;
    }
    assert(ps.take(i as int) =~= ps);
    proof {
        lemma_inner_each_term(comm@);
    }
    if failed {
        None
    } else {
        Some(output)
    }
}

/// Parses a side of a roll into its dice, as in `"5d10+6d12"` to
/// `[(5, 10), (6, 12)]`.
pub fn inner_parser(comm: &str) -> (r: Option<Vec<(i32, i32)>>)
    ensures
        match r {
            Some(v) => spec_inner(comm@) == Some(v@) && v@.len() == split_on(comm@, seq!['+']).len(),
            None => spec_inner(comm@) is None,
        },
{
    let v = chars_of(comm);
    inner_dice(&v)
}

/// The number of faces a plain roll such as `20 10000` names: its first word
/// read as an integer, or `default` where it does not read.
pub open spec fn spec_plain_dice(args: Seq<char>, default: i32) -> i32 {
    match spec_parse_i32(first_word(args)) {
        Some(n) => n,
        None => default,
    }
}

/// The number of rolls per bonus a plain roll such as `20 10000` names: its
/// second word read as a number, or `reps` where there is none that reads.
pub open spec fn spec_plain_reps(args: Seq<char>, reps: usize) -> usize {
    match spec_parse_usize(second_word(args)) {
        Some(n) => n,
        None => reps,
    }
}

/// Reads the arguments of a plain roll: the first word is the number of
/// faces, into `dice` (`default` where it does not read); the second the
/// number of rolls per bonus, into `x` (left alone where it does not read).
pub fn parse_args(args: &str, x: &mut usize, dice: &mut i32, default: i32)
    ensures
        *final(dice) == spec_plain_dice(args@, default),
        *final(x) == spec_plain_reps(args@, *old(x)),
{
    let v = chars_of(args);
    let (first, second) = first_two_words(&v);
    match parse_i32_chars(&first) {
        Some(num) => {
            *dice = num;
        },
        None => {
            *dice = default;
        },
    }
    match parse_usize_chars(&second) {
        Some(num) => {
            *x = num;
        },
        None => {},
    }
}

/// `s` holds no `vs`.
pub open spec fn no_versus(s: Seq<char>) -> bool {
    forall|i: int| 0 <= i && i + 1 < s.len() ==> !(#[trigger] s[i] == 'v' && s[i + 1] == 's')
}

/// A text without `vs` splits into itself alone.
pub proof fn lemma_split_no_versus(x: Seq<char>)
    requires
        no_versus(x),
    ensures
        split_on(x, versus()) == seq![x],
    decreases x.len(),
{
    if x.len() > 0 {
        if 2 <= x.len() {
            assert(x.take(2) != versus()) by {
                if x.take(2) == versus() {
                    assert(x[0] == x.take(2)[0]);
                    assert(x[1] == x.take(2)[1]);
                }
            }
        }
        assert(no_versus(x.skip(1))) by {
            assert forall|i: int| 0 <= i && i + 1 < x.skip(1).len() implies !(
            #[trigger] x.skip(1)[i] == 'v' && x.skip(1)[i + 1] == 's') by {
                assert(x.skip(1)[i] == x[i + 1]);
                assert(x.skip(1)[i + 1] == x[i + 2]);
            }
        }
        lemma_split_no_versus(x.skip(1));
        assert(seq![x[0]] + x.skip(1) =~= x);
        assert(prepend_first(seq![x[0]], seq![x.skip(1)]) =~= seq![x]);
    } else {
        assert(x =~= Seq::<char>::empty());
    }
}

/// The first `vs` ends the first side.
pub proof fn lemma_split_versus_after(x: Seq<char>, y: Seq<char>)
    requires
        no_versus(x),
    ensures
        split_on(x + versus() + y, versus()) == seq![x] + split_on(y, versus()),
    decreases x.len(),
{
    let s = x + versus() + y;
    if x.len() == 0 {
        assert(x =~= Seq::<char>::empty());
        assert(s.take(2) =~= versus());
        assert(s.skip(2) =~= y);
        assert(seq![Seq::<char>::empty()] + split_on(y, versus()) =~= seq![x] + split_on(
            y,
            versus(),
        ));
    } else {
        assert(s.take(2) != versus()) by {
            if s.take(2) == versus() {
                assert(s[0] == s.take(2)[0]);
                assert(s[1] == s.take(2)[1]);
                assert(s[0] == x[0]);
                if x.len() >= 2 {
                    assert(s[1] == x[1]);
                } else {
                    assert(s[1] == 'v');
                }
            }
        }
        assert(no_versus(x.skip(1))) by {
            assert forall|i: int| 0 <= i && i + 1 < x.skip(1).len() implies !(
            #[trigger] x.skip(1)[i] == 'v' && x.skip(1)[i + 1] == 's') by {
                assert(x.skip(1)[i] == x[i + 1]);
                assert(x.skip(1)[i + 1] == x[i + 2]);
            }
        }
        lemma_split_versus_after(x.skip(1), y);
        assert(s.skip(1) =~= x.skip(1) + versus() + y);
        lemma_split_on_len(y, versus());
        assert(seq![x[0]] + x.skip(1) =~= x);
        assert(prepend_first(seq![x[0]], seq![x.skip(1)] + split_on(y, versus())) =~= seq![x]
            + split_on(y, versus()));
    }
}

/// A roll written on its own stands against itself: `X` reads as the same
/// two sides as `X vs X`, for any `X` without `vs`.
pub proof fn lemma_self_opposed(s: Seq<char>)
    requires
        no_versus(drop_white_space(s)),
    ensures
        spec_outer(s + versus() + s) == spec_outer(s),
{
    let x = drop_white_space(s);
    lemma_drop_white_space_concat(s, versus());
    lemma_drop_white_space_concat(s + versus(), s);
    assert(drop_white_space(versus()) =~= versus()) by {
        let e = Seq::<char>::empty();
        assert(versus().drop_last() =~= seq!['v']);
        assert(seq!['v'].drop_last() =~= e);
        assert(drop_white_space(e) == e);
        assert(drop_white_space(seq!['v']) == drop_white_space(e).push('v'));
        assert(e.push('v') =~= seq!['v']);
        assert(drop_white_space(versus()) == drop_white_space(seq!['v']).push('s'));
    }
    lemma_split_versus_after(x, x);
    lemma_split_no_versus(x);
    assert(split_on(x + versus() + x, versus()) =~= seq![x, x]);
    assert(split_on(x, versus()) =~= seq![x]);
}

/// A roll with nothing after its `vs` stands against itself: `X vs` reads
/// as the same two sides as `X`, for any `X` without `vs`.
#[verifier::spinoff_prover]
#[verifier::rlimit(40)]
pub proof fn lemma_trailing_versus(s: Seq<char>)
    requires
        no_versus(drop_white_space(s)),
    ensures
        spec_outer(s + versus()) == spec_outer(s),
{
    let x = drop_white_space(s);
    let e = Seq::<char>::empty();
    lemma_drop_white_space_concat(s, versus());
    assert(drop_white_space(versus()) =~= versus()) by {
        assert(versus().drop_last() =~= seq!['v']);
        assert(seq!['v'].drop_last() =~= e);
        assert(drop_white_space(e) == e);
        assert(drop_white_space(seq!['v']) == drop_white_space(e).push('v'));
        assert(e.push('v') =~= seq!['v']);
        assert(drop_white_space(versus()) == drop_white_space(seq!['v']).push('s'));
    }
    lemma_split_versus_after(x, e);
    assert(x + versus() + e =~= x + versus());
    assert(split_on(e, versus()) == seq![e]);
    assert(split_on(x + versus(), versus()) =~= seq![x, e]);
    lemma_split_no_versus(x);
    assert(split_on(x, versus()) =~= seq![x]);
    let a = seq![x, e];
    let b = seq![x];
    assert(drop_white_space(s + versus()) == x + versus());
    assert(split_on(drop_white_space(s + versus()), versus()) == a);
    assert(split_on(drop_white_space(s), versus()) == b);
    assert(all_allowed(e));
    if all_allowed(x) {
        assert(!(exists|k: int| 0 <= k < a.len() && !all_allowed(#[trigger] a[k]))) by {
            assert forall|k: int| 0 <= k < a.len() implies all_allowed(#[trigger] a[k]) by {
                if k == 0 {
                    assert(a[0] == x);
                } else {
                    assert(a[1] == e);
                }
            }
        }
        assert(!(exists|k: int| 0 <= k < b.len() && !all_allowed(#[trigger] b[k]))) by {
            assert forall|k: int| 0 <= k < b.len() implies all_allowed(#[trigger] b[k]) by {
                assert(b[0] == x);
            }
        }
        assert(a[1].len() == 0);
        assert(spec_outer(s + versus()) == Some(seq![x, x]));
        assert(spec_outer(s) == Some(seq![x, x]));
    } else {
        assert(!all_allowed(a[0]));
        assert(!all_allowed(b[0]));
        assert(spec_outer(s + versus()) is None);
        assert(spec_outer(s) is None);
    }
}

/// A term without a count counts one die: `dN` reads as `1dN`.
pub proof fn lemma_implicit_count(n: Seq<char>)
    ensures
        spec_term(seq!['d'] + n) == spec_term(seq!['1', 'd'] + n),
{
    let a = seq!['d'] + n;
    let b = seq!['1', 'd'] + n;
    let dd = seq!['d'];
    assert(a.take(1) =~= dd);
    assert(a.skip(1) =~= n);
    assert(b.take(1) != dd) by {
        assert(b.take(1)[0] == '1');
    }
    assert(b.skip(1).take(1) =~= dd);
    assert(b.skip(1).skip(1) =~= n);
    lemma_split_on_len(n, dd);
    assert(split_on(b.skip(1), dd) == seq![Seq::<char>::empty()] + split_on(n, dd));
    assert(split_on(b, dd) =~= prepend_first(seq!['1'], seq![Seq::<char>::empty()] + split_on(
        n,
        dd,
    )));
    let one = seq!['1'];
    assert(spec_parse_i32(one) == Some(1i32)) by {
        assert(one.skip(0) =~= one);
        assert(one.drop_last() =~= Seq::<char>::empty());
        assert(is_digit(one[0]));
        assert(all_digits(one));
        assert(digit_value('1') == 1);
        assert(digits_value(one) == digits_value(one.drop_last()) * 10 + digit_value(one.last()));
        assert(spec_parse_int(one, true) == Some(1int));
    }
    assert(prepend_first(seq!['1'], seq![Seq::<char>::empty()] + split_on(n, dd))[0] =~= one);
    assert(spec_parse_i32(Seq::<char>::empty()) is None);
}

} // verus!
