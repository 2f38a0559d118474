//! The text of graph axis labels: a number cut to a few significant figures
//! with decimal rounding.

use vstd::prelude::*;

use crate::text::{all_digits, chars_of, contains_char, digit_value, digits_value, is_digit, string_of};

verus! {

/// Whether `b` is one of the characters of `a`.
pub fn lshash(a: &str, b: char) -> (r: bool)
    ensures
        r == a@.contains(b),
{
    contains_char(&chars_of(a), b)
}

/// The decimal rounding table: without a carry a character is kept; with
/// one, a digit goes up by one (`9` to `0`, passing the carry on) and any
/// other character is kept with the carry passed on.
pub open spec fn spec_match_to_round(round: bool, ch: char) -> (bool, char) {
    if !round {
        (false, ch)
    } else if is_digit(ch) && ch != '9' {
        (false, ((ch as int) + 1) as char)
    } else if ch == '9' {
        (true, '0')
    } else {
        (true, ch)
    }
}

/// Adds a carry to a digit: the digit that results, and whether a carry goes
/// on to the next digit.
pub fn match_to_round(round: bool, ch: char) -> (r: (bool, char))
    ensures
        r == spec_match_to_round(round, ch),
        round && is_digit(ch) ==> is_digit(r.1) && digit_value(r.1) + 10 * (if r.0 {
            1int
        } else {
            0int
        }) == digit_value(ch) + 1,
        !round ==> r == (false, ch),
{
    if !round {
        return (false, ch);
    } else {
        match ch {
            '0' => (false, '1'),
            '1' => (false, '2'),
            '2' => (false, '3'),
            '3' => (false, '4'),
            '4' => (false, '5'),
            '5' => (false, '6'),
            '6' => (false, '7'),
            '7' => (false, '8'),
            '8' => (false, '9'),
            '9' => (true, '0'),
            _ => (true, ch),
        }
    }
}


/// The characters that do not start the count of significant figures.
pub open spec fn is_insignificant(c: char) -> bool {
    c == '0' || c == '.' || c == '+' || c == '-'
}

/// The digits that round up.
pub open spec fn rounds_up(c: char) -> bool {
    c == '5' || c == '6' || c == '7' || c == '8' || c == '9'
}

/// The first pass over the decimal form `repr` of a number: the characters
/// kept (no signs; while the significant figures counted so far are within
/// `figs + 1` for a number below one in size, `figs + 2` otherwise; and past
/// that, the digits before the point), the count of significant figures (from
/// the first character other than `0`, `.` and signs on), whether the count
/// has started, and whether a point was seen.
pub open spec fn scan(repr: Seq<char>, figs: int, small: bool) -> (Seq<char>, int, bool, bool)
    decreases repr.len(),
{
    if repr.len() == 0 {
        (Seq::<char>::empty(), 0, false, false)
    } else {
        let prev = scan(repr.drop_last(), figs, small);
        let x = repr.last();
        let count = prev.2 || !is_insignificant(x);
        let has_dot = prev.3 || x == '.';
        let sig_figs = if count {
            prev.1 + 1
        } else {
            prev.1
        };
        let keep = if x == '-' || x == '+' {
            false
        } else if small && sig_figs <= figs + 1 {
            true
        } else if !small && sig_figs <= figs + 2 {
            true
        } else {
            !has_dot
        };
        (
            if keep {
                prev.0.push(x)
            } else {
                prev.0
            },
            sig_figs,
            count,
            has_dot,
        )
    }
}

/// The second pass, from the last kept character backwards over `k` of
/// them: digits before the point beyond the first `figs` become `0`; with a
/// carry a digit goes up by one; a carry out of the first character puts a
/// `1` in front. The characters come out last first, with the carry left.
pub open spec fn round_pass(new: Seq<char>, figs: int, has_dot: bool, round: bool, k: int) -> (
    Seq<char>,
    bool,
)
    decreases k,
{
    if k <= 0 {
        (Seq::<char>::empty(), round)
    } else {
        let prev = round_pass(new, figs, has_dot, round, k - 1);
        let lenn = new.len() as int;
        let x = new[lenn - k];
        if !has_dot && lenn - k > figs - 1 {
            (prev.0.push('0'), prev.1)
        } else if !prev.1 {
            (prev.0.push(x), prev.1)
        } else {
            let m = spec_match_to_round(prev.1, x);
            if m.0 && k == lenn {
                (prev.0.push(m.1).push('1'), m.0)
            } else {
                (prev.0.push(m.1), m.0)
            }
        }
    }
}

/// The text of the number whose decimal form is `repr`, cut to about `figs`
/// significant figures with rounding; `small` says the number is below one
/// in size and `negative` that it is below zero. Up to four significant
/// figures the kept characters come back as they are.
pub open spec fn spec_ff(figs: int, repr: Seq<char>, small: bool, negative: bool) -> Seq<char> {
    let sc = scan(repr, figs, small);
    let new = sc.0;
    let sig_figs = sc.1;
    let has_dot = sc.3;
    let sign = if negative {
        seq!['-']
    } else {
        Seq::<char>::empty()
    };
    if sig_figs <= 4 {
        sign + new
    } else {
        let round0 = rounds_up(new.last());
        let round = if !has_dot {
            figs < new.len() && rounds_up(new[figs])
        } else {
            round0
        };
        let new2 = if has_dot {
            new.drop_last()
        } else {
            new
        };
        let out = round_pass(new2, figs, has_dot, round, new2.len() as int).0 + sign;
        let res = out.reverse();
        if res.len() > 0 && res.last() == '.' {
            res.drop_last()
        } else {
            res
        }
    }
}

/// The inputs on which the cutting neither meets an empty text nor `figs - 1`
/// below zero.
pub open spec fn ff_fits(figs: int, repr: Seq<char>, small: bool) -> bool {
    let sc = scan(repr, figs, small);
    &&& sc.0.len() > 0
    &&& figs + 2 <= usize::MAX
    &&& figs >= 1 || sc.1 <= 4 || (sc.3 && sc.0.len() == 1)
}

/// Cuts the number whose decimal form is `repr` (as `f64::to_string` writes
/// it) to `figs` significant figures for an axis label. `small` says that
/// the square of the number is below one, `negative` that it is below zero.
pub fn ff(figs: usize, repr: &str, small: bool, negative: bool) -> (r: String)
    requires
        ff_fits(figs as int, repr@, small),
    ensures
        r@ == spec_ff(figs as int, repr@, small, negative),
{
    let old = chars_of(repr);
    let (mut new, sig_figs, _count, has_dot) = scan_text(&old, figs, small);
    let mut out: Vec<char> = Vec::new();
    let mut lenn = new.len();
    let l = new[lenn - 1];
    if sig_figs <= 4 {
        if negative {
            out.push('-');
        }
        let mut k: usize = 0;
        while k < new.len()
            invariant
                k <= new.len(),
                out@ == (if negative {
                    seq!['-']
                } else {
                    Seq::<char>::empty()
                }) + new@.take(k as int),
            decreases new.len() - k,
        {
            out.push(new[k]);
            k = k + 1;
            assert(out@ =~= (if negative {
                seq!['-']
            } else {
                Seq::<char>::empty()
            }) + new@.take(k as int));
        }
        assert(new@.take(k as int) =~= new@);
        return string_of(&out);
    }
    let mut round = rounds_up_char(l);
    let ln_rounds = figs < new.len() && rounds_up_char(new[figs]);
    round = if !has_dot && ln_rounds {
        true
    } else if !has_dot {
        false
    } else {
        round
    };
    let ghost new_all = new@;
    if has_dot {
        new.pop();
        lenn = lenn - 1;
    }
    assert(new@ == (if has_dot {
        new_all.drop_last()
    } else {
        new_all
    }));
    let ghost round_init = round;
    let mut counter: usize = 0;
    while counter < lenn
        invariant
            lenn == new.len(),
            counter <= lenn,
            figs >= 1 || lenn == 0,
            (out@, round) == round_pass(new@, figs as int, has_dot, round_init, counter as int),
        decreases lenn - counter,
    {
        let x = new[lenn - 1 - counter];
        counter = counter + 1;
        if !has_dot && (lenn - counter > figs - 1) {
            out.push('0');
        } else {
            if !round {
                out.push(x);
            } else {
                let to_do = match_to_round(round, x);
                round = to_do.0;
                if round && counter == lenn {
                    out.push(to_do.1);
                    out.push('1');
                } else {
                    out.push(to_do.1);
                }
            }
        }
    }
    if negative {
        out.push('-');
    }
    let ghost out_all = out@;
    let mut res: Vec<char> = Vec::new();
    let mut k: usize = out.len();
    while k > 0
        invariant
            k <= out.len(),
            out@ == out_all,
            res@ == out_all.reverse().take(out_all.len() - k),
        decreases k,
    {
        k = k - 1;
        res.push(out[k]);
        assert(res@ =~= out_all.reverse().take(out_all.len() - k));
    }
    assert(out_all.reverse().take(out_all.len() as int) =~= out_all.reverse());
    if res.len() > 0 && res[res.len() - 1] == '.' {
        res.pop();
    }
    string_of(&res)
}

/// A minus sign in front of a decimal form changes nothing of the first pass.
proof fn lemma_scan_sign(r: Seq<char>, figs: int, small: bool)
    ensures
        scan(seq!['-'] + r, figs, small) == scan(r, figs, small),
    decreases r.len(),
{
    let s = seq!['-'] + r;
    if r.len() == 0 {
        assert(s.drop_last() =~= Seq::<char>::empty());
        assert(s.last() == '-');
        assert(scan(s.drop_last(), figs, small) == (Seq::<char>::empty(), 0int, false, false));
        assert(scan(r, figs, small) == (Seq::<char>::empty(), 0int, false, false));
    } else {
        assert(s.drop_last() =~= seq!['-'] + r.drop_last());
        assert(s.last() == r.last());
        lemma_scan_sign(r.drop_last(), figs, small);
        assert(scan(s.drop_last(), figs, small) == scan(r.drop_last(), figs, small));
    }
}

/// Cutting a negative number gives a minus sign in front of the cut of its
/// size: negation only prefixes the label with `-`, and the one can be cut
/// exactly where the other can.
pub proof fn lemma_ff_negative(figs: int, r: Seq<char>, small: bool)
    ensures
        ff_fits(figs, seq!['-'] + r, small) == ff_fits(figs, r, small),
        spec_ff(figs, seq!['-'] + r, small, true) == seq!['-'] + spec_ff(figs, r, small, false),
{
    lemma_scan_sign(r, figs, small);
    let sc = scan(r, figs, small);
    let new = sc.0;
    if sc.1 <= 4 {
        assert(seq!['-'] + new =~= seq!['-'] + (Seq::<char>::empty() + new));
    } else {
        let round = if !sc.3 {
            figs < new.len() && rounds_up(new[figs])
        } else {
            rounds_up(new.last())
        };
        let new2 = if sc.3 {
            new.drop_last()
        } else {
            new
        };
        let x = round_pass(new2, figs, sc.3, round, new2.len() as int).0;
        let neg = (x + seq!['-']).reverse();
        let pos = (x + Seq::<char>::empty()).reverse();
        assert(pos =~= x.reverse());
        assert(neg =~= seq!['-'] + x.reverse());
        if pos.len() > 0 {
            assert(neg.last() == pos.last());
            assert(neg.drop_last() =~= seq!['-'] + pos.drop_last());
        } else {
            assert(neg =~= seq!['-']);
        }
    }
}

/// Where no figure is counted beyond those always kept, the first pass keeps
/// every character.
proof fn lemma_scan_keeps(r: Seq<char>, figs: int, small: bool)
    requires
        figs >= 3,
        !r.contains('-'),
        !r.contains('+'),
        scan(r, figs, small).1 <= 4,
    ensures
        scan(r, figs, small).0 == r,
    decreases r.len(),
{
    if r.len() > 0 {
        let d = r.drop_last();
        assert(!d.contains('-')) by {
            if d.contains('-') {
                let j = choose|j: int| 0 <= j < d.len() && d[j] == '-';
                assert(r[j] == '-');
            }
        }
        assert(!d.contains('+')) by {
            if d.contains('+') {
                let j = choose|j: int| 0 <= j < d.len() && d[j] == '+';
                assert(r[j] == '+');
            }
        }
        assert(r.last() == r[r.len() - 1]);
        lemma_scan_keeps(d, figs, small);
        assert(d.push(r.last()) =~= r);
    }
}

/// A label of a number with at most four significant figures and no sign is
/// its decimal form as it stands, for three figures or more.
pub proof fn lemma_ff_short(figs: int, r: Seq<char>, small: bool)
    requires
        figs >= 3,
        !r.contains('-'),
        !r.contains('+'),
        scan(r, figs, small).1 <= 4,
    ensures
        spec_ff(figs, r, small, false) == r,
{
    lemma_scan_keeps(r, figs, small);
    assert(Seq::<char>::empty() + r =~= r);
}

/// The first pass has seen a point exactly where the text holds one.
proof fn lemma_scan_dot(r: Seq<char>, figs: int, small: bool)
    ensures
        scan(r, figs, small).3 == r.contains('.'),
    decreases r.len(),
{
    if r.len() > 0 {
        let d = r.drop_last();
        lemma_scan_dot(d, figs, small);
        if d.contains('.') {
            let j = choose|j: int| 0 <= j < d.len() && d[j] == '.';
            assert(r[j] == '.');
        }
        if r.last() == '.' {
            assert(r[r.len() - 1] == '.');
        }
        if r.contains('.') {
            let j = choose|j: int| 0 <= j < r.len() && r[j] == '.';
            if j < r.len() - 1 {
                assert(d[j] == '.');
            }
        }
    }
}

/// Without a point, the second pass writes `0` for every character that
/// stands `figs` or more places before the last kept one.
proof fn lemma_round_zeros(new: Seq<char>, figs: int, round: bool, k: int)
    requires
        0 <= k <= new.len(),
    ensures
        round_pass(new, figs, false, round, k).0.len() >= k,
        k < new.len() ==> round_pass(new, figs, false, round, k).0.len() == k,
        forall|j: int|
            0 <= j < k && new.len() - 1 - j >= figs ==> #[trigger] round_pass(
                new,
                figs,
                false,
                round,
                k,
            ).0[j] == '0',
    decreases k,
{
    if k > 0 {
        lemma_round_zeros(new, figs, round, k - 1);
        let prev = round_pass(new, figs, false, round, k - 1).0;
        let cur = round_pass(new, figs, false, round, k).0;
        assert forall|j: int| 0 <= j < k && new.len() - 1 - j >= figs implies #[trigger] cur[j]
            == '0' by {
            if j < k - 1 {
                assert(cur[j] == prev[j]);
            }
        }
    }
}

/// A whole number is cut to its first `figs` figures, for one figure or
/// more: past more than four significant figures, each of the label's last
/// characters, as many as the kept characters exceed `figs`, reads `0`.
pub proof fn lemma_ff_whole_rounds(figs: int, repr: Seq<char>, small: bool, negative: bool)
    requires
        figs >= 1,
        !repr.contains('.'),
        scan(repr, figs, small).1 > 4,
    ensures
        forall|j: int|
            0 <= j < scan(repr, figs, small).0.len() - figs ==> #[trigger] spec_ff(
                figs,
                repr,
                small,
                negative,
            ).reverse()[j] == '0',
{
    lemma_scan_dot(repr, figs, small);
    let sc = scan(repr, figs, small);
    let new = sc.0;
    let round = figs < new.len() && rounds_up(new[figs]);
    lemma_round_zeros(new, figs, round, new.len() as int);
    let x = round_pass(new, figs, false, round, new.len() as int).0;
    let sign = if negative {
        seq!['-']
    } else {
        Seq::<char>::empty()
    };
    let out = x + sign;
    let res = out.reverse();
    assert(out.len() == x.len() + sign.len());
    assert(res.len() == out.len());
    assert forall|j: int| 0 <= j < x.len() implies #[trigger] res[res.len() - 1 - j] == x[j] by {
        assert(res[res.len() - 1 - j] == out[out.len() - 1 - (res.len() - 1 - j)]);
        assert(out[j] == x[j]);
    }
    if new.len() - figs > 0 {
        assert(new.len() - 1 - 0 >= figs);
        assert(round_pass(new, figs, false, round, new.len() as int).0[0] == '0');
        assert(res.last() == res[res.len() - 1]);
        assert(res[res.len() - 1 - 0] == x[0]);
        assert(spec_ff(figs, repr, small, negative) == res);
        assert(res.len() > 0);
        assert(res.reverse().len() == res.len());
        assert forall|j: int| 0 <= j < new.len() - figs implies #[trigger] res.reverse()[j]
            == '0' by {
            assert(res.reverse()[j] == res[res.len() - 1 - j]);
            assert(round_pass(new, figs, false, round, new.len() as int).0[j] == '0');
        }
    }
}

/// The first pass over the decimal form `old`: see `scan`.
fn scan_text(old: &Vec<char>, figs: usize, small: bool) -> (r: (Vec<char>, usize, bool, bool))
    requires
        figs + 2 <= usize::MAX,
    ensures
        (r.0@, r.1 as int, r.2, r.3) == scan(old@, figs as int, small),
{
    let mut new: Vec<char> = Vec::new();
    let mut sig_figs: usize = 0;
    let mut count = false;
    let mut has_dot = false;
    let mut i: usize = 0;
    assert(old@.take(0) =~= Seq::<char>::empty());
    while i < old.len()
        invariant
            i <= old.len(),
            figs + 2 <= usize::MAX,
            sig_figs <= i,
            (new@, sig_figs as int, count, has_dot) == scan(old@.take(i as int), figs as int, small),
        decreases old.len() - i,
    {
        let x = old[i];
        assert(old@.take(i + 1).drop_last() =~= old@.take(i as int));
        assert(old@.take(i + 1).last() == x);
        if !(x == '0' || x == '.' || x == '+' || x == '-') {
            count = true;
        }
        if x == '.' {
            has_dot = true;
        }
        if count {
            sig_figs = sig_figs + 1;
        }
        if x == '-' || x == '+' {
        } else if small && sig_figs <= figs + 1 {
            new.push(x);
        } else if !small && sig_figs <= figs + 2 {
            new.push(x);
        } else if !has_dot {
            new.push(x);
        }
        i = i + 1;
    }
    assert(old@.take(i as int) =~= old@);
    (new, sig_figs, count, has_dot)
}

/// Cuts a number for an axis label as `ff` does where the cut can be made
/// (see `ff_fits`), and gives `None` where it cannot.
pub fn ff_checked(figs: usize, repr: &str, small: bool, negative: bool) -> (r: Option<String>)
    ensures
        r is None <==> !ff_fits(figs as int, repr@, small),
        r matches Some(s) ==> s@ == spec_ff(figs as int, repr@, small, negative),
{
    if figs > usize::MAX - 2 {
        return None;
    }
    let (new, sig_figs, _count, has_dot) = scan_text(&chars_of(repr), figs, small);
    if new.len() == 0 || !(figs >= 1 || sig_figs <= 4 || (has_dot && new.len() == 1)) {
        return None;
    }
    Some(ff(figs, repr, small, negative))
}

/// Ten to the power `k`.
pub open spec fn p10(k: nat) -> int
    decreases k,
{
    if k == 0 {
        1
    } else {
        10 * p10((k - 1) as nat)
    }
}

/// The number a whole number's digits `repr` round to at `figs` figures:
/// the number its first `figs` digits spell, one more where the next digit
/// is 5 or more, times ten for each digit cut; a number of no more than
/// `figs` digits stays as it is.
pub open spec fn whole_rounded(repr: Seq<char>, figs: int) -> int {
    if 0 <= figs < repr.len() {
        (digits_value(repr.take(figs)) + if rounds_up(repr[figs]) {
            1int
        } else {
            0int
        }) * p10((repr.len() - figs) as nat)
    } else {
        digits_value(repr)
    }
}

/// The number that digits spell when read from the last: the first
/// character is the units.
spec fn little_value(s: Seq<char>) -> int
    decreases s.len(),
{
    if s.len() == 0 {
        0
    } else {
        little_value(s.drop_last()) + digit_value(s.last()) * p10((s.len() - 1) as nat)
    }
}

proof fn lemma_p10_add(a: nat, b: nat)
    ensures
        p10(a + b) == p10(a) * p10(b),
        p10(a) >= 1,
    decreases a,
{
    if a > 0 {
        lemma_p10_add((a - 1) as nat, b);
        assert(((a - 1) as nat + b) as nat == (a + b - 1) as nat);
        let x = p10((a - 1) as nat);
        let y = p10(b);
        assert(10 * (x * y) == (10 * x) * y) by (nonlinear_arith);
    }
}

proof fn lemma_digits_prepend(c: char, t: Seq<char>)
    ensures
        digits_value(seq![c] + t) == digit_value(c) * p10(t.len()) + digits_value(t),
    decreases t.len(),
{
    let s = seq![c] + t;
    if t.len() == 0 {
        assert(s.drop_last() =~= Seq::<char>::empty());
        assert(s.last() == c);
        assert(digits_value(s.drop_last()) == 0);
        assert(digits_value(t) == 0);
        assert(p10(0) == 1);
    } else {
        assert(s.drop_last() =~= seq![c] + t.drop_last());
        assert(s.last() == t.last());
        lemma_digits_prepend(c, t.drop_last());
        assert(digits_value(s) == digits_value(s.drop_last()) * 10 + digit_value(s.last()));
        assert(digits_value(t) == digits_value(t.drop_last()) * 10 + digit_value(t.last()));
        assert(t.drop_last().len() == (t.len() - 1) as nat);
        let a = digit_value(c);
        let p = p10(t.drop_last().len());
        assert(p10(t.len()) == 10 * p);
        assert((a * p + digits_value(t.drop_last())) * 10 == a * (10 * p) + digits_value(
            t.drop_last(),
        ) * 10) by (nonlinear_arith);
    }
}

proof fn lemma_reverse_value(s: Seq<char>)
    ensures
        digits_value(s.reverse()) == little_value(s),
        s.reverse().len() == s.len(),
    decreases s.len(),
{
    if s.len() > 0 {
        let d = s.drop_last();
        lemma_reverse_value(d);
        assert(s.reverse() =~= seq![s.last()] + d.reverse()) by {
            if d.len() > 0 {
                assert forall|i: int| 0 <= i < s.len() implies #[trigger] s.reverse()[i] == (seq![
                    s.last(),
                ] + d.reverse())[i] by {
                    if i > 0 {
                        assert(d.reverse()[i - 1] == d[d.len() - 1 - (i - 1)]);
                    }
                }
            }
        }
        lemma_digits_prepend(s.last(), d.reverse());
    }
}

proof fn lemma_carry_digit(x: char)
    requires
        is_digit(x),
    ensures
        is_digit(spec_match_to_round(true, x).1),
        digit_value(spec_match_to_round(true, x).1) + 10 * (if spec_match_to_round(true, x).0 {
            1int
        } else {
            0int
        }) == digit_value(x) + 1,
{
}

proof fn lemma_little_push(s: Seq<char>, c: char)
    ensures
        little_value(s.push(c)) == little_value(s) + digit_value(c) * p10(s.len()),
{
    assert(s.push(c).drop_last() =~= s);
}

/// The second pass over a whole number: the kept digits, read from the
/// last, with the carry left, spell the number of the digits taken so far
/// below the cut, plus the rounding, with zeros for the digits cut.
#[verifier::spinoff_prover]
proof fn lemma_round_value(new: Seq<char>, figs: int, round: bool, k: int)
    requires
        all_digits(new),
        1 <= figs,
        0 <= k <= new.len(),
    ensures
        ({
            let n = new.len() as int;
            let f = if figs < n {
                figs
            } else {
                n
            };
            let z = n - f;
            let b = if round {
                1int
            } else {
                0int
            };
            let rp = round_pass(new, figs, false, round, k);
            &&& rp.0.len() == k + (if k == n && rp.1 && k > z {
                1int
            } else {
                0int
            })
            &&& all_digits(rp.0)
            &&& k > z && rp.0.len() > k ==> rp.0[k] == '1'
            &&& k <= z ==> rp.1 == round && little_value(rp.0) == 0
            &&& k >= z ==> little_value(rp.0.take(k)) + (if rp.1 {
                p10(k as nat)
            } else {
                0int
            }) == (digits_value(new.subrange(n - k, f)) + b) * p10(z as nat)
        }),
    decreases k,
{
    let n = new.len() as int;
    let f = if figs < n {
        figs
    } else {
        n
    };
    let z = n - f;
    let b = if round {
        1int
    } else {
        0int
    };
    if k == 0 {
        if z == 0 {
            assert(new.subrange(n, f) =~= Seq::<char>::empty());
            assert(digits_value(new.subrange(n, f)) == 0);
        }
        assert(p10(0) == 1);
        let rp = round_pass(new, figs, false, round, 0);
        assert(rp.0.take(0) =~= Seq::<char>::empty());
        assert(rp.0 =~= Seq::<char>::empty());
    } else {
        lemma_round_value(new, figs, round, k - 1);
        let prev = round_pass(new, figs, false, round, k - 1);
        let cur = round_pass(new, figs, false, round, k);
        let p = n - k;
        let x = new[p];
        assert(is_digit(x));
        lemma_p10_add((k - 1) as nat, 0);
        assert(prev.0.take(k - 1) =~= prev.0);
        if p > figs - 1 {
            assert(cur == (prev.0.push('0'), prev.1));
            lemma_little_push(prev.0, '0');
            assert(cur.0.take(k) =~= cur.0);
            assert(digit_value('0') == 0);
            assert(little_value(cur.0) == little_value(prev.0) + 0 * p10((k - 1) as nat));
            assert(0 * p10((k - 1) as nat) == 0) by (nonlinear_arith);
            if k == z {
                assert(new.subrange(n - k, f) =~= Seq::<char>::empty());
                assert(digits_value(new.subrange(n - k, f)) == 0);
                assert(little_value(cur.0.take(k)) == 0);
                assert(cur.1 == round);
                assert(b * p10(z as nat) == (if round {
                    p10(k as nat)
                } else {
                    0int
                })) by (nonlinear_arith)
                    requires
                        k == z,
                        b == (if round {
                            1int
                        } else {
                            0int
                        }),
                ;
                assert(little_value(cur.0.take(k)) + (if cur.1 {
                p10(k as nat)
            } else {
                0int
            }) == (digits_value(new.subrange(n - k, f)) + b) * p10(z as nat));
            }
        } else {
            assert(k > z);
            let sub1 = new.subrange(p + 1, f);
            assert(new.subrange(p, f) =~= seq![x] + sub1);
            lemma_digits_prepend(x, sub1);
            assert(sub1.len() == k - 1 - z);
            lemma_p10_add((k - 1 - z) as nat, z as nat);
            assert(((k - 1 - z) as nat + z as nat) as nat == (k - 1) as nat);
            let pz = p10(z as nat);
            let pk1 = p10((k - 1) as nat);
            let pd = p10((k - 1 - z) as nat);
            let v1 = digits_value(sub1);
            let l = little_value(prev.0);
            assert(p10(k as nat) == 10 * pk1);
            if k - 1 < z {
                assert(false);
            }
            if !prev.1 {
                assert(cur == (prev.0.push(x), prev.1));
                lemma_little_push(prev.0, x);
                assert(cur.0.take(k) =~= cur.0);
                assert(little_value(cur.0.take(k)) == l + digit_value(x) * pk1);
                assert(digits_value(new.subrange(n - k, f)) == digit_value(x) * pd + v1);
                assert(l == (v1 + b) * pz);
                assert(pk1 == pd * pz);
                assert(l + digit_value(x) * pk1 == (digit_value(x) * pd + v1 + b) * pz) by (nonlinear_arith)
                    requires
                        l == (v1 + b) * pz,
                        pk1 == pd * pz,
                ;
                assert(little_value(cur.0.take(k)) + (if cur.1 {
                p10(k as nat)
            } else {
                0int
            }) == (digits_value(new.subrange(n - k, f)) + b) * p10(z as nat));
            } else {
                lemma_carry_digit(x);
                let m = spec_match_to_round(true, x);
                let c2 = if m.0 {
                    1int
                } else {
                    0int
                };
                lemma_little_push(prev.0, m.1);
                if m.0 && k == n {
                    assert(cur == (prev.0.push(m.1).push('1'), m.0));
                    assert(cur.0.take(k) =~= prev.0.push(m.1));
                } else {
                    assert(cur == (prev.0.push(m.1), m.0));
                    assert(cur.0.take(k) =~= cur.0);
                }
                assert(little_value(cur.0.take(k)) == l + digit_value(m.1) * pk1);
                assert(cur.1 == m.0);
                assert((if cur.1 {
                    p10(k as nat)
                } else {
                    0int
                }) == c2 * (10 * pk1)) by (nonlinear_arith)
                    requires
                        p10(k as nat) == 10 * pk1,
                        c2 == (if cur.1 {
                            1int
                        } else {
                            0int
                        }),
                ;
                assert(digits_value(new.subrange(n - k, f)) == digit_value(x) * pd + v1);
                assert(l + pk1 == (v1 + b) * pz);
                assert(pk1 == pd * pz);
                assert(l + digit_value(m.1) * pk1 + c2 * (10 * pk1) == (digit_value(x) * pd + v1
                    + b) * pz) by (nonlinear_arith)
                    requires
                        l + pk1 == (v1 + b) * pz,
                        pk1 == pd * pz,
                        digit_value(m.1) + 10 * c2 == digit_value(x) + 1,
                ;
                assert(little_value(cur.0.take(k)) + (if cur.1 {
                p10(k as nat)
            } else {
                0int
            }) == (digits_value(new.subrange(n - k, f)) + b) * p10(z as nat));
            }
        }
        assert forall|i: int| 0 <= i < cur.0.len() implies is_digit(#[trigger] cur.0[i]) by {
            if i < prev.0.len() {
                assert(cur.0[i] == prev.0[i]);
            }
        }
    }
}

/// The first pass keeps every digit of a whole number and sees no point.
proof fn lemma_scan_whole(r: Seq<char>, figs: int, small: bool)
    requires
        all_digits(r),
    ensures
        scan(r, figs, small).0 == r,
        !scan(r, figs, small).3,
    decreases r.len(),
{
    if r.len() > 0 {
        assert(is_digit(r[r.len() - 1]));
        assert(all_digits(r.drop_last()));
        lemma_scan_whole(r.drop_last(), figs, small);
        assert(r.drop_last().push(r.last()) =~= r);
    }
}

/// A whole number's label is the number rounded to `figs` figures: past
/// four significant figures, the label of the digits `repr` is all digits
/// and spells `whole_rounded(repr, figs)`, for one figure or more.
#[verifier::spinoff_prover]
pub proof fn lemma_ff_whole_value(figs: int, repr: Seq<char>, small: bool)
    requires
        1 <= figs,
        all_digits(repr),
        scan(repr, figs, small).1 > 4,
    ensures
        all_digits(spec_ff(figs, repr, small, false)),
        digits_value(spec_ff(figs, repr, small, false)) == whole_rounded(repr, figs),
{
    lemma_scan_whole(repr, figs, small);
    let n = repr.len() as int;
    let round = figs < n && rounds_up(repr[figs]);
    lemma_round_value(repr, figs, round, n);
    let f = if figs < n {
        figs
    } else {
        n
    };
    let z = n - f;
    let rp = round_pass(repr, figs, false, round, n);
    let out = rp.0 + Seq::<char>::empty();
    assert(out =~= rp.0);
    lemma_reverse_value(rp.0);
    let res = rp.0.reverse();
    assert(all_digits(res)) by {
        assert forall|i: int| 0 <= i < res.len() implies is_digit(#[trigger] res[i]) by {
            assert(res[i] == rp.0[rp.0.len() - 1 - i]);
        }
    }
    if res.len() > 0 {
        assert(res.last() == res[res.len() - 1]);
        assert(is_digit(res[res.len() - 1]));
    }
    assert(spec_ff(figs, repr, small, false) == res);
    assert(repr.subrange(0, f) =~= repr.take(f));
    if z > 0 {
        assert(n > z);
    }
    let b = if round {
        1int
    } else {
        0int
    };
    assert(n > z);
    assert(little_value(rp.0.take(n)) + (if rp.1 {
        p10(n as nat)
    } else {
        0int
    }) == (digits_value(repr.subrange(0, f)) + b) * p10(z as nat));
    if rp.0.len() > n {
        assert(rp.1);
        assert(rp.0[n] == '1');
        assert(rp.0.take(n).push(rp.0[n]) =~= rp.0);
        lemma_little_push(rp.0.take(n), rp.0[n]);
        assert(digit_value('1') == 1);
        assert(little_value(rp.0) == little_value(rp.0.take(n)) + 1 * p10(n as nat));
    } else {
        assert(!rp.1);
        assert(rp.0.take(n) =~= rp.0);
    }
    assert(digits_value(res) == (digits_value(repr.take(f)) + b) * p10(z as nat));
    if figs >= n {
        assert(repr.take(n) =~= repr);
        assert(b == 0 && z == 0);
        assert(p10(0) == 1);
        assert((digits_value(repr) + 0) * 1 == digits_value(repr));
    }
}

/// The characters of `s` before its first point: its whole part.
pub open spec fn before_point(s: Seq<char>) -> Seq<char>
    decreases s.len(),
{
    if s.len() == 0 || s[0] == '.' {
        Seq::empty()
    } else {
        seq![s[0]] + before_point(s.skip(1))
    }
}

proof fn lemma_before_point(u: Seq<char>, w: Seq<char>)
    requires
        all_digits(u),
    ensures
        before_point(u + seq!['.'] + w) == u,
        before_point(u) == u,
    decreases u.len(),
{
    if u.len() > 0 {
        assert(is_digit(u[0]));
        assert(all_digits(u.skip(1))) by {
            assert forall|i: int| 0 <= i < u.skip(1).len() implies is_digit(#[trigger] u.skip(1)[i]) by {
                assert(u.skip(1)[i] == u[i + 1]);
            }
        }
        lemma_before_point(u.skip(1), w);
        assert((u + seq!['.'] + w).skip(1) =~= u.skip(1) + seq!['.'] + w);
        assert((u + seq!['.'] + w)[0] == u[0]);
        assert(seq![u[0]] + u.skip(1) =~= u);
    } else {
        assert((u + seq!['.'] + w)[0] == '.');
        assert(u =~= Seq::<char>::empty());
    }
}

/// The first pass over a number of one or more in size, written as digits
/// with a point no further than `figs + 1` digits in: every character
/// counts, and the characters are kept up to the `figs + 2`th.
proof fn lemma_scan_point(repr: Seq<char>, n1: int, figs: int, m: int)
    requires
        0 <= m <= repr.len(),
        1 <= n1 < repr.len(),
        n1 <= figs + 1,
        forall|i: int| 0 <= i < repr.len() && i != n1 ==> is_digit(#[trigger] repr[i]),
        repr[n1] == '.',
        repr[0] != '0',
    ensures
        scan(repr.take(m), figs, false) == (
            repr.take(if m <= figs + 2 {
                m
            } else {
                figs + 2
            }),
            m,
            m >= 1,
            m > n1,
        ),
    decreases m,
{
    let t = repr.take(m);
    if m == 0 {
        assert(t =~= Seq::<char>::empty());
        assert(repr.take(0) =~= Seq::<char>::empty());
    } else {
        lemma_scan_point(repr, n1, figs, m - 1);
        assert(t.drop_last() =~= repr.take(m - 1));
        assert(t.last() == repr[m - 1]);
        let x = repr[m - 1];
        if m - 1 != n1 {
            assert(is_digit(x));
        }
        if m <= figs + 2 {
            assert(repr.take(m - 1).push(x) =~= repr.take(m));
        }
    }
}

/// The second pass over kept characters with a point, up to the whole part
/// `new.take(n1)` of digits: the characters after the whole part come out
/// first, ending with the point; then the whole part comes out, read from
/// its last digit, as its number plus the carry that the point passed on,
/// with a `1` in front where a carry is left.
proof fn lemma_dot_pass(new: Seq<char>, figs: int, round: bool, n1: int, k: int)
    requires
        1 <= n1 <= new.len(),
        forall|i: int| 0 <= i < n1 ==> is_digit(#[trigger] new[i]),
        n1 < new.len() ==> new[n1] == '.',
        0 <= k <= new.len(),
    ensures
        ({
            let n = new.len() as int;
            let base = n - n1;
            let rp = round_pass(new, figs, true, round, k);
            let c0 = if round_pass(new, figs, true, round, base).1 {
                1int
            } else {
                0int
            };
            &&& rp.0.len() == k + (if k == n && rp.1 {
                1int
            } else {
                0int
            })
            &&& k >= base ==> rp.0.take(base) == round_pass(new, figs, true, round, base).0
            &&& base >= 1 && k >= base ==> rp.0[base - 1] == '.'
            &&& k >= base ==> all_digits(rp.0.skip(base))
            &&& k > base && rp.0.len() > k ==> rp.0[k] == '1'
            &&& k >= base ==> little_value(rp.0.take(k).skip(base)) + (if rp.1 {
                p10((k - base) as nat)
            } else {
                0int
            }) == digits_value(new.subrange(n - k, n1)) + c0
        }),
    decreases k,
{
    let n = new.len() as int;
    let base = n - n1;
    if k > 0 {
        lemma_dot_pass(new, figs, round, n1, k - 1);
        let prev = round_pass(new, figs, true, round, k - 1);
        let cur = round_pass(new, figs, true, round, k);
        let p = n - k;
        let x = new[p];
        assert(prev.0.len() == k - 1);
        assert(prev.0.take(k - 1) =~= prev.0);
        if k <= base {
            if k == base {
                assert(x == '.');
                assert(spec_match_to_round(true, '.') == (true, '.'));
                assert(cur.0 == prev.0.push('.'));
                assert(cur.0.take(k) =~= cur.0);
                assert(cur.0.take(k).skip(base) =~= Seq::<char>::empty());
                assert(cur.0.skip(base) =~= Seq::<char>::empty());
                assert(new.subrange(n - k, n1) =~= Seq::<char>::empty());
                assert(digits_value(new.subrange(n - k, n1)) == 0);
                assert(little_value(Seq::<char>::empty()) == 0);
                assert(p10(0) == 1);
                assert(cur.0.take(base) =~= cur.0);
            }
        } else {
            assert(is_digit(x));
            let pb = prev.0.take(k - 1).skip(base);
            let pk = p10((k - 1 - base) as nat);
            assert(p10((k - base) as nat) == 10 * pk);
            let sub1 = new.subrange(p + 1, n1);
            assert(new.subrange(p, n1) =~= seq![x] + sub1);
            lemma_digits_prepend(x, sub1);
            assert(sub1.len() == k - 1 - base);
            let c0 = if round_pass(new, figs, true, round, base).1 {
                1int
            } else {
                0int
            };
            let l = little_value(pb);
            let y = if !prev.1 {
                x
            } else {
                spec_match_to_round(true, x).1
            };
            if !prev.1 {
                assert(cur == (prev.0.push(x), prev.1));
            } else {
                lemma_carry_digit(x);
                let m = spec_match_to_round(true, x);
                if m.0 && k == n {
                    assert(cur == (prev.0.push(m.1).push('1'), m.0));
                } else {
                    assert(cur == (prev.0.push(m.1), m.0));
                }
            }
            assert(cur.0.take(k) =~= prev.0.push(y));
            assert(cur.0.take(k).skip(base) =~= pb.push(y));
            lemma_little_push(pb, y);
            assert(pb.len() == k - 1 - base);
            assert(cur.0.take(base) =~= prev.0.take(base));
            if base >= 1 {
                assert(cur.0[base - 1] == prev.0[base - 1]);
            }
            assert forall|i: int| 0 <= i < cur.0.skip(base).len() implies is_digit(
                #[trigger] cur.0.skip(base)[i],
            ) by {
                if base + i < prev.0.len() {
                    assert(cur.0.skip(base)[i] == prev.0.skip(base)[i]);
                } else if base + i == k - 1 {
                    assert(cur.0[k - 1] == y);
                    if prev.1 {
                        lemma_carry_digit(x);
                    }
                } else {
                    assert(cur.0[k] == '1');
                }
            }
            if !prev.1 {
                assert(l + digit_value(x) * pk == digit_value(x) * pk + digits_value(sub1) + c0);
            } else {
                let m = spec_match_to_round(true, x);
                let c2 = if m.0 {
                    1int
                } else {
                    0int
                };
                assert((if cur.1 {
                    p10((k - base) as nat)
                } else {
                    0int
                }) == c2 * (10 * pk)) by (nonlinear_arith)
                    requires
                        p10((k - base) as nat) == 10 * pk,
                        c2 == (if cur.1 {
                            1int
                        } else {
                            0int
                        }),
                ;
                assert(l + digit_value(m.1) * pk + c2 * (10 * pk) == digit_value(x) * pk
                    + digits_value(sub1) + c0) by (nonlinear_arith)
                    requires
                        l + pk == digits_value(sub1) + c0,
                        digit_value(m.1) + 10 * c2 == digit_value(x) + 1,
                ;
            }
        }
    } else {
        let rp = round_pass(new, figs, true, round, 0);
        assert(rp.0 =~= Seq::<char>::empty());
    }
}

proof fn lemma_reverse_concat(a: Seq<char>, b: Seq<char>)
    ensures
        (a + b).reverse() == b.reverse() + a.reverse(),
        a.reverse().len() == a.len(),
        forall|i: int| 0 <= i < a.len() ==> #[trigger] a.reverse()[i] == a[a.len() - 1 - i],
{
    lemma_reverse_value(a);
    lemma_reverse_value(b);
    lemma_reverse_value(a + b);
    if a.len() > 0 {
        assert forall|i: int| 0 <= i < a.len() implies #[trigger] a.reverse()[i] == a[a.len() - 1
            - i] by {}
    }
    let s = a + b;
    if s.len() == 0 {
        assert(a =~= Seq::<char>::empty() && b =~= Seq::<char>::empty());
        assert(s.reverse() =~= Seq::<char>::empty());
    } else {
        assert(s.reverse() =~= b.reverse() + a.reverse()) by {
            assert forall|i: int| 0 <= i < s.len() implies #[trigger] s.reverse()[i] == (b.reverse()
                + a.reverse())[i] by {
                assert(s.reverse()[i] == s[s.len() - 1 - i]);
                if i < b.len() {
                    assert(b.reverse()[i] == b[b.len() - 1 - i]);
                } else {
                    assert(a.reverse()[i - b.len()] == a[a.len() - 1 - (i - b.len())]);
                }
            }
        }
    }
}

/// The label that the second pass makes of kept characters with a point
/// after the whole part `new.take(n1)` (with its trailing point dropped)
/// has a whole part of digits that spells that of `new` or one more.
#[verifier::spinoff_prover]
#[verifier::rlimit(40)]
proof fn lemma_dot_label(new: Seq<char>, figs: int, round: bool, n1: int)
    requires
        1 <= n1 <= new.len(),
        forall|i: int| 0 <= i < n1 ==> is_digit(#[trigger] new[i]),
        n1 < new.len() ==> new[n1] == '.',
    ensures
        ({
            let res = round_pass(new, figs, true, round, new.len() as int).0.reverse();
            let lab = if res.len() > 0 && res.last() == '.' {
                res.drop_last()
            } else {
                res
            };
            &&& all_digits(before_point(lab))
            &&& before_point(lab).len() == n1 || before_point(lab).len() == n1 + 1
            &&& digits_value(before_point(lab)) == digits_value(new.take(n1))
                || digits_value(before_point(lab)) == digits_value(new.take(n1)) + 1
        }),
{
    let len2 = new.len() as int;
    let base = len2 - n1;
    lemma_dot_pass(new, figs, round, n1, len2);
    let rp = round_pass(new, figs, true, round, len2);
    let c0 = if round_pass(new, figs, true, round, base).1 {
        1int
    } else {
        0int
    };
    let res = rp.0.reverse();
    let lab = if res.len() > 0 && res.last() == '.' {
        res.drop_last()
    } else {
        res
    };
    let head = rp.0.take(base);
    let d = rp.0.skip(base);
    assert(rp.0 =~= head + d);
    lemma_reverse_concat(d, head);
    lemma_reverse_value(d);
    assert(new.subrange(0, n1) =~= new.take(n1));
    let t = rp.0.take(len2).skip(base);
    assert(len2 - base == n1);
    assert(little_value(t) + (if rp.1 {
        p10(n1 as nat)
    } else {
        0int
    }) == digits_value(new.subrange(0, n1)) + c0);
    if rp.0.len() > len2 {
        assert(rp.1);
        assert(rp.0[len2] == '1');
        assert(d =~= t.push('1'));
        lemma_little_push(t, '1');
        assert(t.len() == n1);
        assert(digit_value('1') == 1);
        assert(1 * p10(n1 as nat) == p10(n1 as nat));
        assert(little_value(d) == little_value(t) + p10(n1 as nat));
    } else {
        assert(!rp.1);
        assert(d =~= t);
    }
    assert(little_value(d) == digits_value(new.take(n1)) + c0);
    let rd = d.reverse();
    assert(all_digits(rd)) by {
        assert forall|i: int| 0 <= i < rd.len() implies is_digit(#[trigger] rd[i]) by {
            assert(rd[i] == d[d.len() - 1 - i]);
        }
    }
    lemma_reverse_concat(head, d);
    assert(res == rd + head.reverse());
    if base == 0 {
        assert(head =~= Seq::<char>::empty());
        lemma_reverse_value(head);
        assert(head.reverse() =~= Seq::<char>::empty());
        assert(res =~= rd);
        if res.len() > 0 {
            assert(is_digit(res[res.len() - 1]));
        }
        assert(lab == rd);
        lemma_before_point(rd, Seq::<char>::empty());
    } else {
        let hw = head.take(base - 1);
        assert(head =~= hw + seq!['.']);
        lemma_reverse_concat(hw, seq!['.']);
        lemma_reverse_value(seq!['.']);
        assert(seq!['.'].reverse() =~= seq!['.']) by {
            assert(seq!['.'].reverse()[0] == '.');
        }
        let wr = hw.reverse();
        assert(res =~= rd + seq!['.'] + wr);
        if res.last() == '.' {
            if wr.len() > 0 {
                assert(res.drop_last() =~= rd + seq!['.'] + wr.drop_last());
                lemma_before_point(rd, wr.drop_last());
            } else {
                assert(res.drop_last() =~= rd);
                lemma_before_point(rd, wr);
            }
        } else {
            lemma_before_point(rd, wr);
        }
    }
}

/// A label keeps the size of its number: for a number of one or more,
/// written as the digits `ip` before a point and `fp` after it, with the
/// point no further than `figs + 1` digits in, the label's whole part is
/// digits spelling the number's whole part or one more (a carry from the
/// rounding), with as many digits or one more.
#[verifier::spinoff_prover]
#[verifier::rlimit(40)]
pub proof fn lemma_ff_keeps_magnitude(figs: int, ip: Seq<char>, fp: Seq<char>)
    requires
        1 <= figs,
        1 <= ip.len() <= figs + 1,
        all_digits(ip),
        ip[0] != '0',
        all_digits(fp),
    ensures
        all_digits(before_point(spec_ff(figs, ip + seq!['.'] + fp, false, false))),
        before_point(spec_ff(figs, ip + seq!['.'] + fp, false, false)).len() == ip.len()
            || before_point(spec_ff(figs, ip + seq!['.'] + fp, false, false)).len() == ip.len()
            + 1,
        digits_value(before_point(spec_ff(figs, ip + seq!['.'] + fp, false, false)))
            == digits_value(ip) || digits_value(
            before_point(spec_ff(figs, ip + seq!['.'] + fp, false, false)),
        ) == digits_value(ip) + 1,
{
    let repr = ip + seq!['.'] + fp;
    let n1 = ip.len() as int;
    assert forall|i: int| 0 <= i < repr.len() && i != n1 implies is_digit(#[trigger] repr[i]) by {
        if i < n1 {
            assert(repr[i] == ip[i]);
        } else {
            assert(repr[i] == fp[i - n1 - 1]);
        }
    }
    assert(repr[n1] == '.');
    assert(repr[0] == ip[0]);
    lemma_scan_point(repr, n1, figs, repr.len() as int);
    assert(repr.take(repr.len() as int) =~= repr);
    let sc = scan(repr, figs, false);
    let new = sc.0;
    let tl = if repr.len() <= figs + 2 {
        repr.len() as int
    } else {
        figs + 2
    };
    assert(new == repr.take(tl));
    let w = fp.take(tl - n1 - 1);
    assert(new =~= ip + seq!['.'] + w);
    assert(sc.3);
    if sc.1 <= 4 {
        assert(spec_ff(figs, repr, false, false) == Seq::<char>::empty() + new);
        assert(Seq::<char>::empty() + new =~= new);
        lemma_before_point(ip, w);
    } else {
        let round = rounds_up(new.last());
        let new2 = new.drop_last();
        assert forall|i: int| 0 <= i < n1 implies is_digit(#[trigger] new2[i]) by {
            assert(new2[i] == ip[i]);
        }
        if new2.len() > n1 {
            assert(new2[n1] == '.');
        }
        assert(new2.take(n1) =~= ip);
        lemma_dot_label(new2, figs, round, n1);
        let out = round_pass(new2, figs, true, round, new2.len() as int).0 + Seq::<char>::empty();
        assert(out =~= round_pass(new2, figs, true, round, new2.len() as int).0);
    }
}

fn rounds_up_char(c: char) -> (r: bool)
    ensures
        r == rounds_up(c),
{
    c == '5' || c == '6' || c == '7' || c == '8' || c == '9'
}

} // verus!
