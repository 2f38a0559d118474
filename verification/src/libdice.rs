//! Opposed roll tables: the range of bonuses a table covers, the simulated
//! rolls and the count of successes at each bonus.

use rand::Rng;
use vstd::prelude::*;

use crate::parser::{
    all_allowed, allowed_char, inner_dice, lemma_implicit_count, lemma_self_opposed,
    lemma_split_no_versus, lemma_split_versus_after, lemma_trailing_versus, no_versus,
    outer_sides, parse_args, spec_inner, spec_outer, spec_plain_dice, spec_plain_reps, spec_term,
    spec_terms,
    versus,
};
use crate::text::{
    digit_value, digits_value, drop_white_space, first_word, lemma_drop_white_space_concat,
    lemma_parse_decimal_i32, lemma_split_after, lemma_split_free, spec_is_white_space,
    spec_parse_i32, spec_parse_int, split_on, take_word, trim_start,
};
use crate::text::{
    all_digits, chars_of, contains_char, int_decimal, is_digit, lemma_nat_digits, nat_digits,
    push_chars, push_i64_decimal, push_lit, starts_at, string_of,
};

verus! {

pub open spec fn in_i32(x: int) -> bool {
    i32::MIN <= x <= i32::MAX
}

/// The number of dice of a side: the sum of the counts.
pub open spec fn count_sum(d: Seq<(i32, i32)>) -> int
    decreases d.len(),
{
    if d.len() == 0 {
        0
    } else {
        count_sum(d.drop_last()) + d.last().0
    }
}

/// The highest total of a side: the sum of count times faces.
pub open spec fn face_sum(d: Seq<(i32, i32)>) -> int
    decreases d.len(),
{
    if d.len() == 0 {
        0
    } else {
        face_sum(d.drop_last()) + d.last().0 * d.last().1
    }
}

/// Every running sum of counts and of count times faces, and every product,
/// fits in an `i32`.
pub open spec fn sums_fit(d: Seq<(i32, i32)>) -> bool {
    &&& forall|k: int| 0 <= k <= d.len() ==> in_i32(#[trigger] count_sum(d.take(k)))
    &&& forall|k: int| 0 <= k <= d.len() ==> in_i32(#[trigger] face_sum(d.take(k)))
    &&& forall|i: int| 0 <= i < d.len() ==> in_i32(#[trigger] d[i].0 * d[i].1)
}

/// The bonus up to which a table runs: the larger of what side 1 can beat
/// side 0 by and what side 0 can beat side 1 by, counting each die as at
/// least one.
pub open spec fn spec_minmax(d0: Seq<(i32, i32)>, d1: Seq<(i32, i32)>) -> int {
    let a = face_sum(d1) - count_sum(d0);
    let b = face_sum(d0) - count_sum(d1);
    if a > b {
        a
    } else {
        b
    }
}

/// The sums that `calculate_minmax` forms fit in an `i32`.
pub open spec fn minmax_fits(d0: Seq<(i32, i32)>, d1: Seq<(i32, i32)>) -> bool {
    &&& sums_fit(d0)
    &&& sums_fit(d1)
    &&& in_i32(face_sum(d1) - count_sum(d0))
    &&& in_i32(face_sum(d0) - count_sum(d1))
}

fn side_sums(d: &Vec<(i32, i32)>) -> (r: (i32, i32))
    requires
        sums_fit(d@),
    ensures
        r.0 == count_sum(d@),
        r.1 == face_sum(d@),
{
    let mut counts: i32 = 0;
    let mut faces: i32 = 0;
    let mut i: usize = 0;
    assert(d@.take(0) =~= Seq::<(i32, i32)>::empty());
    while i < d.len()
        invariant
            i <= d.len(),
            sums_fit(d@),
            counts == count_sum(d@.take(i as int)),
            faces == face_sum(d@.take(i as int)),
        decreases d.len() - i,
    {
        let x = d[i];
        assert(d@.take(i + 1).drop_last() =~= d@.take(i as int));
        assert(d@.take(i + 1).last() == x);
        assert(in_i32(count_sum(d@.take(i + 1))));
        assert(in_i32(face_sum(d@.take(i + 1))));
        assert(in_i32(d@[i as int].0 * d@[i as int].1));
        counts = counts + x.0;
        faces = faces + x.0 * x.1;
        i = i + 1;
    }
    assert(d@.take(i as int) =~= d@);
    (counts, faces)
}

/// The bonus up to which the table of `dice[0]` against `dice[1]` runs.
pub fn calculate_minmax(dice: &[Vec<(i32, i32)>; 2]) -> (r: i32)
    requires
        minmax_fits(dice@[0]@, dice@[1]@),
    ensures
        r == spec_minmax(dice@[0]@, dice@[1]@),
{
    let (min_0, max_0) = side_sums(&dice[0]);
    let (min_1, max_1) = side_sums(&dice[1]);
    let a = max_1 - min_0;
    let b = max_0 - min_1;
    if a > b {
        a
    } else {
        b
    }
}

/// The table runs as far in one direction as in the other: swapping the
/// sides leaves the bonus range unchanged.
pub proof fn lemma_minmax_symmetric(d0: Seq<(i32, i32)>, d1: Seq<(i32, i32)>)
    ensures
        spec_minmax(d0, d1) == spec_minmax(d1, d0),
{
}


/// Calls `rand::Rng::gen_range` on the thread's generator (rand 0.5), which
/// gives a value in `[low, high)` and panics where `low >= high`. Which value
/// comes out is left to chance; only the range is stated.
#[verifier::external_body]
fn gen_range(low: i32, high: i32) -> (r: i32)
    requires
        low < high,
    ensures
        low <= r < high,
{
    rand::thread_rng().gen_range(low, high)
}

/// The lowest face of a die with `s` faces: 0 for a zero-faced die, else 1.
pub open spec fn low_face(s: i32) -> int {
    if s == 0 {
        0
    } else {
        1
    }
}

/// The range that a die with `sides` faces is drawn from: from its lowest
/// face up to one past `sides`.
pub fn die_range(sides: i32) -> (r: (i32, i32))
    requires
        0 <= sides < i32::MAX,
    ensures
        r.0 == low_face(sides),
        r.1 == sides + 1,
{
    let low = if sides == 0 {
        0
    } else {
        1
    };
    (low, sides + 1)
}

/// Rolls a die with `sides` faces: draws from exactly `die_range(sides)`,
/// so a value from 1 to `sides`, or 0 for a zero-faced die.
pub fn roll_die(sides: i32) -> (r: i32)
    requires
        0 <= sides < i32::MAX,
    ensures
        low_face(sides) <= r <= sides,
{
    let (low, high) = die_range(sides);
    gen_range(low, high)
}

/// The number of dice a term of `count` dice rolls: its count, or none
/// where the count is not positive.
pub fn term_rolls(count: i32) -> (n: u32)
    ensures
        n == rolled(count),
{
    if count > 0 {
        count as u32
    } else {
        0
    }
}

/// The number of dice of a term that are rolled: its count, or none where the
/// count is not positive.
pub open spec fn rolled(c: i32) -> int {
    if c > 0 {
        c as int
    } else {
        0
    }
}

/// The lowest total of a side when rolled.
pub open spec fn low_sum(d: Seq<(i32, i32)>) -> int
    decreases d.len(),
{
    if d.len() == 0 {
        0
    } else {
        low_sum(d.drop_last()) + rolled(d.last().0) * low_face(d.last().1)
    }
}

/// The highest total of a side when rolled.
pub open spec fn high_sum(d: Seq<(i32, i32)>) -> int
    decreases d.len(),
{
    if d.len() == 0 {
        0
    } else {
        high_sum(d.drop_last()) + rolled(d.last().0) * d.last().1
    }
}

/// A side whose dice can be rolled: every term with a positive count has
/// from 0 to below `i32::MAX` faces, and the highest total fits in an `i32`.
pub open spec fn dice_fit(d: Seq<(i32, i32)>) -> bool {
    &&& forall|i: int|
        0 <= i < d.len() && (#[trigger] d[i]).0 > 0 ==> 0 <= d[i].1 < i32::MAX
    &&& high_sum(d) <= i32::MAX
}

proof fn lemma_roll_sums_prefix(d: Seq<(i32, i32)>, k: int)
    requires
        forall|i: int| 0 <= i < d.len() && (#[trigger] d[i]).0 > 0 ==> 0 <= d[i].1,
        0 <= k <= d.len(),
    ensures
        0 <= low_sum(d.take(k)) <= high_sum(d.take(k)) <= high_sum(d),
        low_sum(d.take(k)) <= low_sum(d),
        0 <= low_sum(d) <= high_sum(d),
    decreases d.len(),
{
    if d.len() > 0 {
        let l = d.last();
        assert(l == d[d.len() - 1]);
        assert(0 <= rolled(l.0) * low_face(l.1) <= rolled(l.0) * l.1) by (nonlinear_arith)
            requires
                0 <= rolled(l.0),
                rolled(l.0) > 0 ==> 0 <= l.1,
                low_face(l.1) == (if l.1 == 0 {
                    0int
                } else {
                    1int
                }),
        ;
        if k < d.len() {
            lemma_roll_sums_prefix(d.drop_last(), k);
            assert(d.drop_last().take(k) =~= d.take(k));
        } else {
            lemma_roll_sums_prefix(d.drop_last(), k - 1);
            assert(d.take(k) =~= d);
            assert(d.drop_last().take(k - 1) =~= d.drop_last());
        }
    } else {
        assert(d.take(k) =~= d);
    }
}

/// The sum of the values of `s`.
pub open spec fn seq_sum(s: Seq<int>) -> int
    decreases s.len(),
{
    if s.len() == 0 {
        0
    } else {
        seq_sum(s.drop_last()) + s.last()
    }
}

proof fn lemma_sum_prefix(s: Seq<int>, k: int)
    requires
        forall|i: int| 0 <= i < s.len() ==> 0 <= #[trigger] s[i],
        0 <= k <= s.len(),
    ensures
        0 <= seq_sum(s.take(k)) <= seq_sum(s),
    decreases s.len(),
{
    if s.len() > 0 {
        assert(s.last() == s[s.len() - 1]);
        if k < s.len() {
            lemma_sum_prefix(s.drop_last(), k);
            assert(s.drop_last().take(k) =~= s.take(k));
        } else {
            lemma_sum_prefix(s.drop_last(), k - 1);
            assert(s.take(k) =~= s);
            assert(s.drop_last().take(k - 1) =~= s.drop_last());
        }
    } else {
        assert(s.take(k) =~= s);
    }
}

/// Adds the drawn faces `faces` to `start`: the total of a roll.
pub fn sum_faces(start: i32, faces: &Vec<i32>) -> (t: i32)
    requires
        forall|i: int| 0 <= i < faces.len() ==> 0 <= #[trigger] faces@[i],
        start + seq_sum(ints(faces@)) <= i32::MAX,
    ensures
        t == start + seq_sum(ints(faces@)),
{
    let ghost s = ints(faces@);
    assert forall|i: int| 0 <= i < s.len() implies 0 <= #[trigger] s[i] by {
        assert(s[i] == faces@[i] as int);
    }
    let mut t = start;
    let mut i: usize = 0;
    assert(s.take(0) =~= Seq::<int>::empty());
    while i < faces.len()
        invariant
            i <= faces.len(),
            s == ints(faces@),
            forall|k: int| 0 <= k < s.len() ==> 0 <= #[trigger] s[k],
            start + seq_sum(s) <= i32::MAX,
            t == start + seq_sum(s.take(i as int)),
        decreases faces.len() - i,
    {
        proof {
            assert(s.take(i + 1).drop_last() =~= s.take(i as int));
            assert(s.take(i + 1).last() == faces@[i as int] as int);
            lemma_sum_prefix(s, i + 1);
        }
        t = t + faces[i];
        i = i + 1;
    }
    assert(s.take(i as int) =~= s);
    t
}

/// Rolls every die of the side `d` and adds the faces to `start`: each term
/// rolls `term_rolls` of its dice (none where its count is not positive),
/// each drawn by `roll_die`, and `sum_faces` adds the faces drawn.
pub fn roll_total(d: &Vec<(i32, i32)>, start: i32) -> (t: i32)
    requires
        dice_fit(d@),
        start + high_sum(d@) <= i32::MAX,
    ensures
        start + low_sum(d@) <= t <= start + high_sum(d@),
{
    let mut faces: Vec<i32> = Vec::new();
    let mut i: usize = 0;
    assert(d@.take(0) =~= Seq::<(i32, i32)>::empty());
    assert(ints(faces@) =~= Seq::<int>::empty());
    while i < d.len()
        invariant
            i <= d.len(),
            dice_fit(d@),
            start + high_sum(d@) <= i32::MAX,
            forall|k: int| 0 <= k < faces.len() ==> 0 <= #[trigger] faces@[k],
            low_sum(d@.take(i as int)) <= seq_sum(ints(faces@)) <= high_sum(d@.take(i as int)),
        decreases d.len() - i,
    {
        let x = d[i];
        proof {
            assert(d@.take(i + 1).drop_last() =~= d@.take(i as int));
            assert(d@.take(i + 1).last() == x);
            assert(d@[i as int] == x);
            lemma_roll_sums_prefix(d@, i + 1);
        }
        let ghost base = seq_sum(ints(faces@));
        let n = term_rolls(x.0);
        assert(n > 0 ==> 0 <= x.1 < i32::MAX);
        let mut j: u32 = 0;
        while j < n
            invariant
                j <= n,
                n == rolled(x.0),
                n > 0 ==> 0 <= x.1 < i32::MAX,
                forall|k: int| 0 <= k < faces.len() ==> 0 <= #[trigger] faces@[k],
                base + j * low_face(x.1) <= seq_sum(ints(faces@)) <= base + j * x.1,
            decreases n - j,
        {
            assert((j + 1) * x.1 == j * x.1 + x.1) by (nonlinear_arith);
            assert((j + 1) * low_face(x.1) == j * low_face(x.1) + low_face(x.1)) by (nonlinear_arith);
            let r = roll_die(x.1);
            let ghost before = faces@;
            faces.push(r);
            proof {
                assert(ints(faces@).drop_last() =~= ints(before));
                assert(ints(faces@).last() == r as int);
            }
            j = j + 1;
        }
        i = i + 1;
    }
    assert(d@.take(i as int) =~= d@);
    sum_faces(start, &faces)
}

/// The number of trials, the first side's totals in `atts` and the second's
/// in `defs`, that the first side with the bonus `adv` meets or beats.
pub open spec fn spec_wins(adv: int, atts: Seq<int>, defs: Seq<int>) -> int
    decreases atts.len(),
{
    if atts.len() == 0 {
        0
    } else {
        spec_wins(adv, atts.drop_last(), defs.drop_last()) + if adv + atts.last() >= defs.last() {
            1int
        } else {
            0int
        }
    }
}

/// The values of `s` as integers.
pub open spec fn ints(s: Seq<i32>) -> Seq<int> {
    s.map_values(|a: i32| a as int)
}

/// Every value of `s` lies from `lo` to `hi`.
pub open spec fn all_within(s: Seq<int>, lo: int, hi: int) -> bool {
    forall|i: int| 0 <= i < s.len() ==> lo <= #[trigger] s[i] <= hi
}

/// The count of `reps` trials of totals from `lo0` to `hi0` with the bonus
/// `adv` against totals from `lo1` to `hi1`: the count of wins over some
/// totals within those ranges.
pub open spec fn trial_outcome(
    adv: int,
    reps: nat,
    lo0: int,
    hi0: int,
    lo1: int,
    hi1: int,
    count: int,
) -> bool {
    exists|atts: Seq<int>, defs: Seq<int>|
        {
            &&& atts.len() == reps
            &&& defs.len() == reps
            &&& all_within(atts, lo0, hi0)
            &&& all_within(defs, lo1, hi1)
            &&& count == #[trigger] spec_wins(adv, atts, defs)
        }
}

proof fn lemma_wins_bounds(adv: int, atts: Seq<int>, defs: Seq<int>, lo0: int, hi0: int, lo1: int, hi1: int)
    requires
        atts.len() == defs.len(),
        all_within(atts, lo0, hi0),
        all_within(defs, lo1, hi1),
    ensures
        0 <= spec_wins(adv, atts, defs) <= atts.len(),
        adv + lo0 >= hi1 ==> spec_wins(adv, atts, defs) == atts.len(),
        adv + hi0 < lo1 ==> spec_wins(adv, atts, defs) == 0,
    decreases atts.len(),
{
    if atts.len() > 0 {
        let n = atts.len() - 1;
        assert(lo0 <= atts[n] <= hi0);
        assert(lo1 <= defs[n] <= hi1);
        assert(all_within(atts.drop_last(), lo0, hi0)) by {
            assert forall|i: int| 0 <= i < atts.drop_last().len() implies lo0 <= #[trigger] atts.drop_last()[i] <= hi0 by {
                assert(atts.drop_last()[i] == atts[i]);
            }
        }
        assert(all_within(defs.drop_last(), lo1, hi1)) by {
            assert forall|i: int| 0 <= i < defs.drop_last().len() implies lo1 <= #[trigger] defs.drop_last()[i] <= hi1 by {
                assert(defs.drop_last()[i] == defs[i]);
            }
        }
        lemma_wins_bounds(adv, atts.drop_last(), defs.drop_last(), lo0, hi0, lo1, hi1);
    }
}

/// A larger bonus never wins fewer of the same trials.
pub proof fn lemma_wins_monotone(adv1: int, adv2: int, atts: Seq<int>, defs: Seq<int>)
    requires
        adv1 <= adv2,
        atts.len() == defs.len(),
    ensures
        spec_wins(adv1, atts, defs) <= spec_wins(adv2, atts, defs),
    decreases atts.len(),
{
    if atts.len() > 0 {
        lemma_wins_monotone(adv1, adv2, atts.drop_last(), defs.drop_last());
    }
}

/// The trials, by index and in order, in which the first side's total with
/// the bonus `adv` meets or beats the second's.
pub open spec fn winning_rolls(adv: int, atts: Seq<int>, defs: Seq<int>) -> Seq<int> {
    Seq::new(atts.len(), |i: int| i).filter(|i: int| adv + atts[i] >= defs[i])
}

proof fn lemma_filter_agree(m: nat, p: spec_fn(int) -> bool, q: spec_fn(int) -> bool)
    requires
        forall|i: int| 0 <= i < m ==> #[trigger] p(i) == q(i),
    ensures
        Seq::new(m, |i: int| i).filter(p) == Seq::new(m, |i: int| i).filter(q),
    decreases m,
{
    reveal(Seq::filter);
    let s = Seq::new(m, |i: int| i);
    if m > 0 {
        lemma_filter_agree((m - 1) as nat, p, q);
        assert(s.drop_last() =~= Seq::new((m - 1) as nat, |i: int| i));
        assert(s.last() == m - 1);
        assert(p(m - 1) == q(m - 1));
    }
}

/// The count of wins is the number of winning trials: each trial counts
/// exactly when the first total plus the bonus, sign kept, meets or beats
/// the second.
pub proof fn lemma_wins_are_winning_rolls(adv: int, atts: Seq<int>, defs: Seq<int>)
    requires
        atts.len() == defs.len(),
    ensures
        spec_wins(adv, atts, defs) == winning_rolls(adv, atts, defs).len(),
    decreases atts.len(),
{
    reveal(Seq::filter);
    let n = atts.len();
    let pred = |i: int| adv + atts[i] >= defs[i];
    let s = Seq::new(n, |i: int| i);
    assert(winning_rolls(adv, atts, defs) == s.filter(pred));
    if n > 0 {
        let a = atts.drop_last();
        let d = defs.drop_last();
        lemma_wins_are_winning_rolls(adv, a, d);
        let pred2 = |i: int| adv + a[i] >= d[i];
        assert(winning_rolls(adv, a, d) == Seq::new(a.len(), |i: int| i).filter(pred2));
        lemma_filter_agree((n - 1) as nat, pred, pred2);
        assert(s.drop_last() =~= Seq::new((n - 1) as nat, |i: int| i));
        assert(s.last() == n - 1);
        assert(atts.last() == atts[n - 1] && defs.last() == defs[n - 1]);
    } else {
        assert(s.filter(pred) == s);
    }
}

/// Counts the trials, the first side's totals in `atts` and the second's in
/// `defs`, that the first side with the bonus `adv` meets or beats.
pub fn count_wins(adv: i32, atts: &Vec<i32>, defs: &Vec<i32>) -> (r: usize)
    requires
        atts.len() == defs.len(),
    ensures
        r == spec_wins(adv as int, ints(atts@), ints(defs@)),
        r == winning_rolls(adv as int, ints(atts@), ints(defs@)).len(),
{
    let mut vics: usize = 0;
    let mut i: usize = 0;
    assert(ints(atts@.take(0)) =~= Seq::<int>::empty());
    assert(ints(defs@.take(0)) =~= Seq::<int>::empty());
    while i < atts.len()
        invariant
            i <= atts.len(),
            atts.len() == defs.len(),
            vics <= i,
            vics == spec_wins(adv as int, ints(atts@.take(i as int)), ints(defs@.take(i as int))),
        decreases atts.len() - i,
    {
        proof {
            assert(ints(atts@.take(i + 1)).drop_last() =~= ints(atts@.take(i as int)));
            assert(ints(defs@.take(i + 1)).drop_last() =~= ints(defs@.take(i as int)));
            assert(ints(atts@.take(i + 1)).last() == atts@[i as int] as int);
            assert(ints(defs@.take(i + 1)).last() == defs@[i as int] as int);
        }
        if (adv as i64) + (atts[i] as i64) >= defs[i] as i64 {
            vics = vics + 1;
        }
        i = i + 1;
    }
    assert(atts@.take(i as int) =~= atts@);
    assert(defs@.take(i as int) =~= defs@);
    proof {
        lemma_wins_are_winning_rolls(adv as int, ints(atts@), ints(defs@));
    }
    vics
}

/// Rolls a 1d`dice` `reps` times.
pub fn draw_plain_rolls(reps: usize, dice: i32) -> (r: Vec<i32>)
    requires
        reps > 0 ==> 0 <= dice < i32::MAX,
    ensures
        r.len() == reps,
        all_within(ints(r@), low_face(dice), dice as int),
{
    let mut r: Vec<i32> = Vec::new();
    let mut k: usize = 0;
    while k < reps
        invariant
            k <= reps,
            r.len() == k,
            reps > 0 ==> 0 <= dice < i32::MAX,
            all_within(ints(r@), low_face(dice), dice as int),
        decreases reps - k,
    {
        let a = roll_die(dice);
        let ghost before = r@;
        r.push(a);
        proof {
            assert forall|i: int| 0 <= i < ints(r@).len() implies low_face(dice) <= #[trigger] ints(
                r@,
            )[i] <= dice by {
                if i < k {
                    assert(ints(r@)[i] == ints(before)[i]);
                }
            }
        }
        k = k + 1;
    }
    r
}

/// Rolls the side `d` `reps` times and gives the totals.
pub fn draw_side_totals(reps: usize, d: &Vec<(i32, i32)>) -> (r: Vec<i32>)
    requires
        reps > 0 ==> dice_fit(d@),
    ensures
        r.len() == reps,
        all_within(ints(r@), low_sum(d@), high_sum(d@)),
{
    let mut r: Vec<i32> = Vec::new();
    let mut k: usize = 0;
    while k < reps
        invariant
            k <= reps,
            r.len() == k,
            reps > 0 ==> dice_fit(d@),
            all_within(ints(r@), low_sum(d@), high_sum(d@)),
        decreases reps - k,
    {
        let a = roll_total(d, 0);
        let ghost before = r@;
        r.push(a);
        proof {
            assert forall|i: int| 0 <= i < ints(r@).len() implies low_sum(d@) <= #[trigger] ints(
                r@,
            )[i] <= high_sum(d@) by {
                if i < k {
                    assert(ints(r@)[i] == ints(before)[i]);
                }
            }
        }
        k = k + 1;
    }
    r
}

/// Rolls a 1d`dice` against a 1d`dice` `reps` times, the first with the bonus
/// `advantage`, and counts the rolls that the first side meets or beats: the
/// rolls are drawn and `count_wins` counts them. The count is thus that of
/// `reps` pairs of rolls from the lowest face to `dice`; where even the lowest
/// roll with the bonus wins, every roll is counted, and where even the
/// highest loses, none is.
pub fn generate_probability(advantage: i32, reps: usize, dice: i32) -> (r: (i32, usize))
    requires
        reps > 0 ==> 0 <= dice < i32::MAX,
        reps > 0 ==> in_i32(advantage + dice),
        reps > 0 ==> in_i32(advantage + low_face(dice)),
    ensures
        r.0 == advantage,
        trial_outcome(
            advantage as int,
            reps as nat,
            low_face(dice),
            dice as int,
            low_face(dice),
            dice as int,
            r.1 as int,
        ),
        r.1 <= reps,
        advantage + low_face(dice) >= dice ==> r.1 == reps,
        advantage + dice < low_face(dice) ==> r.1 == 0,
{
    let atts = draw_plain_rolls(reps, dice);
    let defs = draw_plain_rolls(reps, dice);
    let vics = count_wins(advantage, &atts, &defs);
    proof {
        lemma_wins_bounds(
            advantage as int,
            ints(atts@),
            ints(defs@),
            low_face(dice),
            dice as int,
            low_face(dice),
            dice as int,
        );
    }
    (advantage, vics)
}

/// Rolls the side `dice[0]` with the bonus `advantage` against the side
/// `dice[1]` `reps` times and counts the rolls that the first side meets or
/// beats: the totals are drawn and `count_wins` counts them. The count is
/// thus that of `reps` pairs of totals, each within its side's lowest and
/// highest total; where even the first side's lowest total wins, every roll
/// is counted, and where even its highest loses, none is.
pub fn generate_complex_probability(advantage: i32, reps: usize, dice: &[Vec<(i32, i32)>; 2]) -> (r: (
    i32,
    usize,
))
    requires
        reps > 0 ==> dice_fit(dice@[0]@),
        reps > 0 ==> dice_fit(dice@[1]@),
        reps > 0 ==> advantage + high_sum(dice@[0]@) <= i32::MAX,
    ensures
        r.0 == advantage,
        trial_outcome(
            advantage as int,
            reps as nat,
            low_sum(dice@[0]@),
            high_sum(dice@[0]@),
            low_sum(dice@[1]@),
            high_sum(dice@[1]@),
            r.1 as int,
        ),
        r.1 <= reps,
        advantage + low_sum(dice@[0]@) >= high_sum(dice@[1]@) ==> r.1 == reps,
        advantage + high_sum(dice@[0]@) < low_sum(dice@[1]@) ==> r.1 == 0,
{
    let atts = draw_side_totals(reps, &dice[0]);
    let defs = draw_side_totals(reps, &dice[1]);
    let vics = count_wins(advantage, &atts, &defs);
    proof {
        lemma_wins_bounds(
            advantage as int,
            ints(atts@),
            ints(defs@),
            low_sum(dice@[0]@),
            high_sum(dice@[0]@),
            low_sum(dice@[1]@),
            high_sum(dice@[1]@),
        );
    }
    (advantage, vics)
}

/// Whether `s` holds the characters `vs` side by side.
pub open spec fn has_versus(s: Seq<char>) -> bool {
    exists|i: int| 0 <= i && i + 1 < s.len() && #[trigger] s[i] == 'v' && s[i + 1] == 's'
}

/// Whether `s` is read as dice (`4d6 vs 2d10`) rather than as a plain number
/// of faces (`20`): it holds `vs` or `d`.
pub open spec fn is_advanced(s: Seq<char>) -> bool {
    has_versus(s) || s.contains('d')
}

/// The two sides of a roll description and their dice, or `None` where the
/// description does not parse.
pub open spec fn spec_sides(input: Seq<char>) -> Option<
    (Seq<char>, Seq<char>, Seq<(i32, i32)>, Seq<(i32, i32)>),
> {
    match spec_outer(input) {
        Some(sides) => match (spec_inner(sides[0]), spec_inner(sides[1])) {
            (Some(a), Some(b)) => Some((sides[0], sides[1], a, b)),
            _ => None,
        },
        None => None,
    }
}

/// The inputs on which building the table neither overflows nor panics: a
/// plain roll needs a number of faces from 0 below `i32::MAX` (twice it
/// fitting in an `i32` where there are rolls to make); a roll of dice needs
/// its sums to fit, a bonus range from 0 whose last bonus fits in an `i32` and,
/// where there are rolls to make, rollable dice whose highest total plus the
/// largest bonus fits.
pub open spec fn input_fits(input: Seq<char>, reps: usize) -> bool {
    if !is_advanced(input) {
        let d = spec_plain_dice(input, 100);
        &&& 0 <= d < i32::MAX
        &&& spec_plain_reps(input, reps) > 0 ==> 2 * d <= i32::MAX
    } else {
        match spec_sides(input) {
            None => true,
            Some((_, _, d0, d1)) => {
                let m = spec_minmax(d0, d1);
                &&& minmax_fits(d0, d1)
                &&& 0 <= m
                &&& m + 1 <= i32::MAX
                &&& reps > 0 ==> {
                    &&& dice_fit(d0)
                    &&& dice_fit(d1)
                    &&& m + 1 + high_sum(d0) <= i32::MAX
                }
            },
        }
    }
}

/// A table of opposed rolls: the name of the file it is saved under, the
/// description of the roll, the number of rolls made at each bonus, and for
/// each bonus the number of those rolls that the first side met or beat.
pub struct RollTable {
    pub title: String,
    pub description: String,
    pub plain: bool,
    pub span: i32,
    pub rolls: usize,
    pub rows: Vec<(i32, usize)>,
}

/// Every how many bonuses a progress line is shown for a table whose
/// bonuses reach `span`: every tenth of it past 20, else every bonus.
pub open spec fn progress_interval(span: int) -> int {
    if span > 20 {
        span / 10
    } else {
        1
    }
}

/// Whether the progress line of the bonus `advantage` is shown: its size is
/// a multiple of the interval.
pub open spec fn spec_progress_shown(advantage: int, span: int) -> bool {
    (if advantage < 0 {
        -advantage
    } else {
        advantage
    }) % progress_interval(span) == 0
}

/// Whether the progress line of the bonus `advantage` is shown while a table
/// whose bonuses reach `span` is built.
pub fn progress_shown(advantage: i32, span: i32) -> (r: bool)
    ensures
        r == spec_progress_shown(advantage as int, span as int),
{
    let interval: i64 = if span > 20 {
        (span / 10) as i64
    } else {
        1
    };
    let size: i64 = if advantage < 0 {
        -(advantage as i64)
    } else {
        advantage as i64
    };
    size % interval == 0
}

/// A row of a plain table: the count of some `reps` pairs of rolls of a
/// 1d`d`; so where even the lowest roll with the bonus wins, all rolls are
/// counted, and where even the highest loses, none.
pub open spec fn plain_row_ok(row: (i32, usize), d: i32, reps: usize) -> bool {
    &&& trial_outcome(row.0 as int, reps as nat, low_face(d), d as int, low_face(d), d as int, row.1 as int)
    &&& row.1 <= reps
    &&& row.0 + low_face(d) >= d ==> row.1 == reps
    &&& row.0 + d < low_face(d) ==> row.1 == 0
}

/// A row of a table of dice, as `plain_row_ok` for the totals of whole
/// sides.
pub open spec fn dice_row_ok(
    row: (i32, usize),
    d0: Seq<(i32, i32)>,
    d1: Seq<(i32, i32)>,
    reps: usize,
) -> bool {
    &&& trial_outcome(
        row.0 as int,
        reps as nat,
        low_sum(d0),
        high_sum(d0),
        low_sum(d1),
        high_sum(d1),
        row.1 as int,
    )
    &&& row.1 <= reps
    &&& row.0 + low_sum(d0) >= high_sum(d1) ==> row.1 == reps
    &&& row.0 + high_sum(d0) < low_sum(d1) ==> row.1 == 0
}

/// Every face count of the side is at least one.
pub open spec fn faces_positive(d: Seq<(i32, i32)>) -> bool {
    forall|i: int| 0 <= i < d.len() ==> 1 <= (#[trigger] d[i]).1
}

/// A side as the table names it: as written, with the count `1` put in
/// front of each term that leaves it out (`d100+2d6` reads `1d100+2d6`).
pub open spec fn fill_counts(s: Seq<char>) -> Seq<char>
    decreases s.len(),
{
    if s.len() == 0 {
        Seq::empty()
    } else {
        let prev = fill_counts(s.drop_last());
        let starts = s.len() == 1 || s[s.len() - 2] == '+';
        if s.last() == 'd' && starts {
            prev + seq!['1', 'd']
        } else {
            prev.push(s.last())
        }
    }
}

/// The description of a plain roll of `d` faces: `1d<d> vs 1d<d>`.
pub open spec fn plain_description(d: i32) -> Seq<char> {
    "1d"@ + int_decimal(d as int) + " vs 1d"@ + int_decimal(d as int)
}

/// The file name of the table of a plain roll of `d` faces:
/// `Dice output d<d>.csv`.
pub open spec fn plain_title(d: i32) -> Seq<char> {
    "Dice output d"@ + int_decimal(d as int) + ".csv"@
}

/// The description of a roll of dice from its two sides as written (white
/// space already dropped): `<side 0> vs <side 1>`, each with its implicit
/// counts filled in.
pub open spec fn dice_description(a: Seq<char>, b: Seq<char>) -> Seq<char> {
    fill_counts(a) + " vs "@ + fill_counts(b)
}

/// The file name of the table of a roll of dice: `Dice output <description>.csv`.
pub open spec fn table_title(description: Seq<char>) -> Seq<char> {
    "Dice output "@ + description + ".csv"@
}

/// What `parse_input` gives for `input` with `reps` rolls per bonus. A plain
/// number of faces `d` (with an optional second word for the rolls per
/// bonus) gives the table of 1d`d` against 1d`d` at every bonus from `-d`
/// to `d`. A description of dice gives `None` where it does not parse, and
/// else the table of its first side against its second at every bonus from
/// minus one more than `spec_minmax` to one more than it. Both are named
/// after the description.
pub open spec fn table_ok(input: Seq<char>, reps: usize, r: Option<RollTable>) -> bool {
    &&& (r is None <==> (is_advanced(input) && spec_sides(input) is None))
    &&& match r {
        None => true,
        Some(t) => if !is_advanced(input) {
            let d = spec_plain_dice(input, 100);
            let n = spec_plain_reps(input, reps);
            &&& t.description@ == plain_description(d)
            &&& t.title@ == plain_title(d)
            &&& t.plain
            &&& t.span == d
            &&& t.rolls == n
            &&& t.rows@.len() == 2 * d + 1
            &&& forall|i: int|
                0 <= i < t.rows@.len() ==> (#[trigger] t.rows@[i]).0 == -d + i && plain_row_ok(
                    t.rows@[i],
                    d,
                    n,
                )
            &&& d >= 1 ==> t.rows@[0].1 == 0 && t.rows@.last().1 == n
        } else {
            let (a, b, d0, d1) = spec_sides(input)->0;
            let m = spec_minmax(d0, d1);
            &&& t.description@ == dice_description(a, b)
            &&& t.title@ == table_title(dice_description(a, b))
            &&& !t.plain
            &&& t.span == m
            &&& t.rolls == reps
            &&& t.rows@.len() == 2 * m + 3
            &&& forall|i: int|
                0 <= i < t.rows@.len() ==> (#[trigger] t.rows@[i]).0 == -(m + 1) + i
                    && dice_row_ok(t.rows@[i], d0, d1, reps)
            &&& faces_positive(d0) && faces_positive(d1) ==> t.rows@[0].1 == 0
                && t.rows@.last().1 == reps
        },
    }
}

/// Digits carry no implicit count: filling the counts of a text followed
/// by digits fills those of the text alone.
proof fn lemma_fill_digits(p: Seq<char>, q: Seq<char>)
    requires
        forall|i: int| 0 <= i < q.len() ==> is_digit(#[trigger] q[i]),
    ensures
        fill_counts(p + q) == fill_counts(p) + q,
    decreases q.len(),
{
    if q.len() > 0 {
        let s = p + q;
        assert(s.drop_last() =~= p + q.drop_last());
        assert(s.last() == q.last());
        assert(is_digit(q[q.len() - 1]));
        lemma_fill_digits(p, q.drop_last());
        assert(fill_counts(p) + q.drop_last() + seq![q.last()] =~= fill_counts(p) + q);
    } else {
        assert(p + q =~= p);
        assert(fill_counts(p) + q =~= fill_counts(p));
    }
}

/// A plain number of faces `d` and the dice `1d<d>` or `d<d>` against
/// themselves name the same table: the same description, and bonuses that
/// run over the same range, from `-d` to `d`.
pub proof fn lemma_plain_as_dice(d: i32)
    requires
        0 <= d,
    ensures
        dice_description(seq!['d'] + int_decimal(d as int), seq!['d'] + int_decimal(d as int))
            == plain_description(d),
        dice_description("1d"@ + int_decimal(d as int), "1d"@ + int_decimal(d as int))
            == plain_description(d),
        spec_minmax(seq![(1i32, d)], seq![(1i32, d)]) + 1 == d,
{
    reveal_strlit("1d");
    reveal_strlit(" vs 1d");
    reveal_strlit(" vs ");
    let digits = int_decimal(d as int);
    lemma_nat_digits(d as nat);
    assert(digits == nat_digits(d as nat));
    assert(all_digits(digits));
    let d1 = seq!['d'];
    let one_d = seq!['1', 'd'];
    assert(d1.drop_last() =~= Seq::<char>::empty());
    assert(fill_counts(d1.drop_last()) =~= Seq::<char>::empty());
    assert(d1.last() == 'd');
    assert(fill_counts(d1) =~= one_d);
    assert(one_d.drop_last() =~= seq!['1']);
    assert(seq!['1'].drop_last() =~= Seq::<char>::empty());
    assert(fill_counts(seq!['1'].drop_last()) =~= Seq::<char>::empty());
    assert(seq!['1'].last() == '1');
    assert(fill_counts(seq!['1']) =~= seq!['1']);
    assert(one_d.last() == 'd' && one_d[0] == '1');
    assert(fill_counts(one_d) =~= one_d);
    assert("1d"@ =~= one_d);
    lemma_fill_digits(d1, digits);
    lemma_fill_digits(one_d, digits);
    assert(dice_description(d1 + digits, d1 + digits) =~= plain_description(d));
    assert(dice_description(one_d + digits, one_d + digits) =~= plain_description(d));
    let one = seq![(1i32, d)];
    assert(one.drop_last() =~= Seq::<(i32, i32)>::empty());
    assert(one.last() == (1i32, d));
    assert(count_sum(one.drop_last()) == 0);
    assert(face_sum(one.drop_last()) == 0);
    assert(count_sum(one) == 1);
    assert(face_sum(one) == d);
}

/// Two tables that `parse_input` gives for inputs naming the same sides
/// agree in all but their chance counts.
pub open spec fn same_table(r1: Option<RollTable>, r2: Option<RollTable>) -> bool {
    match (r1, r2) {
        (None, None) => true,
        (Some(a), Some(b)) => {
            &&& a.description@ == b.description@
            &&& a.title@ == b.title@
            &&& a.rows@.len() == b.rows@.len()
            &&& forall|i: int| 0 <= i < a.rows@.len() ==> (#[trigger] a.rows@[i]).0 == b.rows@[i].0
        },
        _ => false,
    }
}

/// A character kept by the dropping of white space stands in the text.
proof fn lemma_drop_white_space_from(t: Seq<char>, c: char)
    requires
        drop_white_space(t).contains(c),
    ensures
        t.contains(c),
    decreases t.len(),
{
    let d = t.drop_last();
    if t.len() > 0 {
        if drop_white_space(d).contains(c) {
            lemma_drop_white_space_from(d, c);
            let j = choose|j: int| 0 <= j < d.len() && d[j] == c;
            assert(t[j] == c);
        } else {
            assert(!spec_is_white_space(t.last()));
            let w = drop_white_space(t);
            let j = choose|j: int| 0 <= j < w.len() && w[j] == c;
            assert(w == drop_white_space(d).push(t.last()));
            if j < w.len() - 1 {
                assert(drop_white_space(d)[j] == c);
            }
            assert(t[t.len() - 1] == c);
        }
    }
}

/// A character that is not white space survives the dropping of white
/// space.
proof fn lemma_drop_white_space_keeps(t: Seq<char>, c: char)
    requires
        t.contains(c),
        !spec_is_white_space(c),
    ensures
        drop_white_space(t).contains(c),
    decreases t.len(),
{
    let d = t.drop_last();
    let j = choose|j: int| 0 <= j < t.len() && t[j] == c;
    if j == t.len() - 1 {
        let w = drop_white_space(t);
        assert(w == drop_white_space(d).push(c));
        assert(w[w.len() - 1] == c);
    } else {
        assert(d[j] == c);
        lemma_drop_white_space_keeps(d, c);
        let k = choose|k: int| 0 <= k < drop_white_space(d).len() && drop_white_space(d)[k] == c;
        if !spec_is_white_space(t.last()) {
            assert(drop_white_space(t)[k] == c);
        }
    }
}

/// A roll of dice written alone, with a bare `vs` after it, or against
/// itself gives the same table, however white space stands around the
/// `vs`: `3d6`, `3d6 vs` and `3d6 vs 3d6` (or `3d6+1d20` and
/// `3d6+1d20 vs 3d6+1d20`) agree in description, file name and bonuses.
pub proof fn lemma_symmetric_forms_agree(
    s: Seq<char>,
    t2: Seq<char>,
    t3: Seq<char>,
    reps: usize,
    r1: Option<RollTable>,
    r2: Option<RollTable>,
    r3: Option<RollTable>,
)
    requires
        no_versus(drop_white_space(s)),
        s.contains('d'),
        drop_white_space(t2) == drop_white_space(s) + versus(),
        drop_white_space(t3) == drop_white_space(s) + versus() + drop_white_space(s),
        table_ok(s, reps, r1),
        table_ok(t2, reps, r2),
        table_ok(t3, reps, r3),
    ensures
        same_table(r1, r2),
        same_table(r1, r3),
{
    lemma_trailing_versus(s);
    lemma_self_opposed(s);
    let e = Seq::<char>::empty();
    assert(drop_white_space(versus()) =~= versus()) by {
        assert(versus().drop_last() =~= seq!['v']);
        assert(seq!['v'].drop_last() =~= e);
        assert(drop_white_space(e) == e);
        assert(drop_white_space(seq!['v']) == drop_white_space(e).push('v'));
        assert(e.push('v') =~= seq!['v']);
        assert(drop_white_space(versus()) == drop_white_space(seq!['v']).push('s'));
    }
    lemma_drop_white_space_concat(s, versus());
    lemma_drop_white_space_concat(s + versus(), s);
    assert(drop_white_space(t2) == drop_white_space(s + versus()));
    assert(drop_white_space(t3) == drop_white_space(s + versus() + s));
    assert(spec_outer(t2) == spec_outer(s + versus()));
    assert(spec_outer(t3) == spec_outer(s + versus() + s));
    lemma_drop_white_space_keeps(s, 'd');
    let x = drop_white_space(s);
    let j = choose|j: int| 0 <= j < x.len() && x[j] == 'd';
    assert(drop_white_space(t2)[j] == 'd');
    assert(drop_white_space(t3)[j] == 'd');
    lemma_drop_white_space_from(t2, 'd');
    lemma_drop_white_space_from(t3, 'd');
    assert(is_advanced(s));
    assert(is_advanced(t2));
    assert(is_advanced(t3));
}

/// A word of digits is its own first word.
proof fn lemma_digit_word(w: Seq<char>)
    requires
        all_digits(w),
    ensures
        take_word(w) == w,
        trim_start(w) == w,
    decreases w.len(),
{
    if w.len() > 0 {
        assert(is_digit(w[0]));
        assert(all_digits(w.skip(1))) by {
            assert forall|i: int| 0 <= i < w.skip(1).len() implies is_digit(#[trigger] w.skip(1)[i]) by {
                assert(w.skip(1)[i] == w[i + 1]);
            }
        }
        lemma_digit_word(w.skip(1));
        assert(seq![w[0]] + w.skip(1) =~= w);
    }
}

/// A text of digits, `1` and `d` holds neither `vs` nor `+`, and every
/// character of it may stand in a side.
proof fn lemma_plain_chars(x: Seq<char>)
    requires
        forall|i: int| 0 <= i < x.len() ==> is_digit(#[trigger] x[i]) || x[i] == 'd',
    ensures
        no_versus(x),
        all_allowed(x),
        !x.contains('+'),
{
    assert forall|i: int| 0 <= i && i + 1 < x.len() implies !(#[trigger] x[i] == 'v' && x[i + 1]
        == 's') by {
        assert(is_digit(x[i]) || x[i] == 'd');
    }
    assert forall|i: int| 0 <= i < x.len() implies allowed_char(#[trigger] x[i]) by {
        assert(is_digit(x[i]) || x[i] == 'd');
    }
    if x.contains('+') {
        let j = choose|j: int| 0 <= j < x.len() && x[j] == '+';
        assert(is_digit(x[j]) || x[j] == 'd');
    }
}

/// The dice `1d<d>` read as one term of one die of `d` faces, and so does
/// `d<d>`.
proof fn lemma_one_die(d: i32)
    requires
        0 <= d,
    ensures
        spec_inner(seq!['1', 'd'] + int_decimal(d as int)) == Some(seq![(1i32, d)]),
        spec_inner(seq!['d'] + int_decimal(d as int)) == Some(seq![(1i32, d)]),
{
    let digits = int_decimal(d as int);
    lemma_nat_digits(d as nat);
    assert(digits == nat_digits(d as nat));
    lemma_parse_decimal_i32(d);
    let one = seq!['1'];
    let x = one + seq!['d'] + digits;
    let y = seq!['d'] + digits;
    assert(x =~= seq!['1', 'd'] + digits);
    assert(!digits.contains('d')) by {
        if digits.contains('d') {
            let j = choose|j: int| 0 <= j < digits.len() && digits[j] == 'd';
            assert(is_digit(digits[j]));
        }
    }
    assert(!one.contains('d')) by {
        if one.contains('d') {
            let j = choose|j: int| 0 <= j < one.len() && one[j] == 'd';
            assert(one[0] == '1');
        }
    }
    lemma_split_after(one, 'd', digits);
    lemma_split_free(digits, 'd');
    assert(split_on(x, seq!['d']) =~= seq![one, digits]);
    assert(spec_parse_i32(one) == Some(1i32)) by {
        assert(one.skip(0) =~= one);
        assert(one.drop_last() =~= Seq::<char>::empty());
        assert(is_digit(one[0]));
        assert(all_digits(one));
        assert(digit_value('1') == 1);
        assert(digits_value(one) == digits_value(one.drop_last()) * 10 + digit_value(one.last()));
        assert(spec_parse_int(one, true) == Some(1int));
    }
    assert(spec_term(x) == Some((1i32, d)));
    lemma_implicit_count(digits);
    assert(spec_term(y) == Some((1i32, d)));
    assert forall|i: int| 0 <= i < x.len() implies is_digit(#[trigger] x[i]) || x[i] == 'd' by {
        if i >= 2 {
            assert(x[i] == digits[i - 2]);
        }
    }
    assert forall|i: int| 0 <= i < y.len() implies is_digit(#[trigger] y[i]) || y[i] == 'd' by {
        if i >= 1 {
            assert(y[i] == digits[i - 1]);
        }
    }
    lemma_plain_chars(x);
    lemma_plain_chars(y);
    lemma_split_free(x, '+');
    lemma_split_free(y, '+');
    assert(seq![x].drop_last() =~= Seq::<Seq<char>>::empty());
    assert(seq![y].drop_last() =~= Seq::<Seq<char>>::empty());
    assert(seq![(1i32, d)] =~= Seq::<(i32, i32)>::empty().push((1i32, d)));
    assert(spec_terms(seq![x].drop_last()) == Some(Seq::<(i32, i32)>::empty()));
    assert(spec_terms(seq![y].drop_last()) == Some(Seq::<(i32, i32)>::empty()));
    assert(seq![x].last() == x);
    assert(seq![y].last() == y);
    assert(spec_terms(seq![x]) == Some(seq![(1i32, d)]));
    assert(spec_terms(seq![y]) == Some(seq![(1i32, d)]));
}

/// The four ways of writing a 1d`d` against a 1d`d`: the plain number `d`,
/// `d<d>`, `1d<d>` and `1d<d> vs 1d<d>` (white space anywhere), give one
/// table: the same description and the same bonuses, from `-d` to `d`.
pub proof fn lemma_plain_forms_agree(
    d: i32,
    t: Seq<char>,
    reps: usize,
    r1: Option<RollTable>,
    r2: Option<RollTable>,
)
    requires
        0 <= d,
        drop_white_space(t) == seq!['d'] + int_decimal(d as int) || drop_white_space(t) == seq![
            '1',
            'd',
        ] + int_decimal(d as int) || drop_white_space(t) == seq!['1', 'd'] + int_decimal(d as int)
            + versus() + seq!['1', 'd'] + int_decimal(d as int),
        table_ok(int_decimal(d as int), reps, r1),
        table_ok(t, reps, r2),
    ensures
        r1 is Some,
        r2 is Some,
        r1->0.description@ == r2->0.description@,
        r1->0.rows@.len() == 2 * d + 1,
        r2->0.rows@.len() == 2 * d + 1,
        forall|i: int|
            0 <= i < 2 * d + 1 ==> (#[trigger] r1->0.rows@[i]).0 == -d + i && r2->0.rows@[i].0 == -d
                + i,
{
    reveal_strlit("1d");
    let digits = int_decimal(d as int);
    lemma_nat_digits(d as nat);
    assert(digits == nat_digits(d as nat));
    lemma_parse_decimal_i32(d);
    lemma_digit_word(digits);
    assert(first_word(digits) == digits);
    assert(spec_plain_dice(digits, 100) == d);
    assert(!digits.contains('d')) by {
        if digits.contains('d') {
            let j = choose|j: int| 0 <= j < digits.len() && digits[j] == 'd';
            assert(is_digit(digits[j]));
        }
    }
    assert(!has_versus(digits)) by {
        if has_versus(digits) {
            let j = choose|j: int| 0 <= j && j + 1 < digits.len() && #[trigger] digits[j] == 'v'
                && digits[j + 1] == 's';
            assert(is_digit(digits[j]));
        }
    }
    assert(!is_advanced(digits));
    lemma_one_die(d);
    lemma_plain_as_dice(d);
    let one = seq!['1', 'd'] + digits;
    let bare = seq!['d'] + digits;
    assert(one =~= "1d"@ + digits);
    let x = drop_white_space(t);
    assert forall|i: int| 0 <= i < one.len() implies is_digit(#[trigger] one[i]) || one[i] == 'd' by {
        if i >= 2 {
            assert(one[i] == digits[i - 2]);
        }
    }
    assert forall|i: int| 0 <= i < bare.len() implies is_digit(#[trigger] bare[i]) || bare[i] == 'd' by {
        if i >= 1 {
            assert(bare[i] == digits[i - 1]);
        }
    }
    lemma_plain_chars(one);
    lemma_plain_chars(bare);
    let side = if x == bare {
        bare
    } else {
        one
    };
    if x == bare || x == one {
        lemma_split_no_versus(x);
        assert(split_on(drop_white_space(t), versus()) == seq![x]);
        assert(spec_outer(t) == Some(seq![side, side]));
    } else {
        lemma_split_versus_after(one, one);
        lemma_split_no_versus(one);
        assert(x =~= one + versus() + one);
        assert(split_on(x, versus()) =~= seq![one, one]);
        assert(spec_outer(t) == Some(seq![one, one]));
    }
    assert(spec_sides(t) == Some((side, side, seq![(1i32, d)], seq![(1i32, d)])));
    assert(x[1] == 'd' || x[0] == 'd');
    if x[0] == 'd' {
        assert(x.contains('d'));
    } else {
        assert(x[1] == 'd');
        assert(x.contains('d'));
    }
    lemma_drop_white_space_from(t, 'd');
    assert(is_advanced(t));
}

fn contains_versus(v: &Vec<char>) -> (r: bool)
    ensures
        r == has_versus(v@),
{
    let mut vs: Vec<char> = Vec::new();
    vs.push('v');
    vs.push('s');
    let mut i: usize = 0;
    while i < v.len()
        invariant
            i <= v.len(),
            vs@ == seq!['v', 's'],
            forall|j: int| 0 <= j < i && j + 1 < v@.len() ==> !(#[trigger] v@[j] == 'v' && v@[j + 1] == 's'),
        decreases v.len() - i,
    {
        if starts_at(v, i, &vs) {
            assert(v@.skip(i as int).take(2)[0] == v@[i as int]);
            assert(v@.skip(i as int).take(2)[1] == v@[i + 1]);
            return true;
        }
        proof {
            if i + 1 < v@.len() && v@[i as int] == 'v' && v@[i + 1] == 's' {
                assert(v@.skip(i as int).take(2) =~= vs@);
            }
        }
        i = i + 1;
    }
    false
}

/// Writes the side `s` out after `out`, with its implicit counts filled in:
/// see `fill_counts`.
fn push_filled(out: &mut Vec<char>, s: &Vec<char>)
    ensures
        final(out)@ == old(out)@ + fill_counts(s@),
{
    let ghost start = out@;
    let mut i: usize = 0;
    assert(s@.take(0) =~= Seq::<char>::empty());
    assert(start + fill_counts(s@.take(0)) =~= start);
    while i < s.len()
        invariant
            i <= s.len(),
            out@ == start + fill_counts(s@.take(i as int)),
        decreases s.len() - i,
    {
        let c = s[i];
        let ghost t = s@.take(i + 1);
        let ghost before = out@;
        assert(t.drop_last() =~= s@.take(i as int));
        assert(t.last() == c);
        let starts = i == 0 || s[i - 1] == '+';
        proof {
            if i > 0 {
                assert(t[t.len() - 2] == s@[i - 1]);
            }
        }
        if c == 'd' && starts {
            out.push('1');
            out.push('d');
            assert(out@ =~= before + seq!['1', 'd']);
        } else {
            out.push(c);
        }
        assert(out@ =~= start + fill_counts(t));
        i = i + 1;
    }
    assert(s@.take(i as int) =~= s@);
}

fn table_title_chars(description: &Vec<char>) -> (r: Vec<char>)
    ensures
        r@ == table_title(description@),
{
    let mut title: Vec<char> = Vec::new();
    push_lit(&mut title, "Dice output ");
    push_chars(&mut title, description);
    push_lit(&mut title, ".csv");
    title
}

/// Builds the table of a roll description: for `20`, a 1d20 against a 1d20
/// at every bonus from -20 to 20; for `20 10000` the same with 10000 rolls
/// per bonus; for a description of dice such as `3d6+1d20 vs 2d10`, the first
/// side against the second at every bonus from minus one more than
/// `calculate_minmax` to one more than it. Each bonus is rolled `reps` times
/// unless a plain roll names its own count. `None` where a description of
/// dice does not parse.
pub fn parse_input(input: &str, reps: usize) -> (r: Option<RollTable>)
    requires
        input_fits(input@, reps),
    ensures
        table_ok(input@, reps, r),
{
    let v = chars_of(input);
    let advanced = contains_versus(&v) || contains_char(&v, 'd');
    if !advanced {
        let mut dice: i32 = 100;
        let mut rounds = reps;
        parse_args(input, &mut rounds, &mut dice, 100);
        let mut description: Vec<char> = Vec::new();
        push_lit(&mut description, "1d");
        push_i64_decimal(&mut description, dice as i64);
        push_lit(&mut description, " vs 1d");
        push_i64_decimal(&mut description, dice as i64);
        let mut title: Vec<char> = Vec::new();
        push_lit(&mut title, "Dice output d");
        push_i64_decimal(&mut title, dice as i64);
        push_lit(&mut title, ".csv");
        let mut rows: Vec<(i32, usize)> = Vec::new();
        let mut advantage: i32 = -dice;
        while advantage <= dice
            invariant
                0 <= dice < i32::MAX,
                rounds > 0 ==> 2 * dice <= i32::MAX,
                -dice <= advantage <= dice + 1,
                rows@.len() == advantage + dice,
                forall|i: int|
                    0 <= i < rows@.len() ==> (#[trigger] rows@[i]).0 == -dice + i && plain_row_ok(
                        rows@[i],
                        dice,
                        rounds,
                    ),
            decreases dice + 1 - advantage,
        {
            let out = generate_probability(advantage, rounds, dice);
            rows.push(out);
            advantage = advantage + 1;
        }
        proof {
            if dice >= 1 {
                assert(rows@[0].0 == -dice);
                assert(rows@.last() == rows@[rows@.len() - 1]);
                assert(rows@[rows@.len() - 1].0 == dice);
            }
        }
        Some(
            RollTable {
                title: string_of(&title),
                description: string_of(&description),
                plain: true,
                span: dice,
                rolls: rounds,
                rows,
            },
        )
    } else {
        let sides = match outer_sides(&v) {
            Some(s) => s,
            None => {
                return None;
            },
        };
        let d0 = match inner_dice(&sides[0]) {
            Some(x) => x,
            None => {
                return None;
            },
        };
        let d1 = match inner_dice(&sides[1]) {
            Some(x) => x,
            None => {
                return None;
            },
        };
        let ghost g0 = d0@;
        let ghost g1 = d1@;
        let dice = [d0, d1];
        assert(dice@[0]@ == g0 && dice@[1]@ == g1);
        let minmax = calculate_minmax(&dice);
        let mut description: Vec<char> = Vec::new();
        push_filled(&mut description, &sides[0]);
        push_lit(&mut description, " vs ");
        push_filled(&mut description, &sides[1]);
        let title = table_title_chars(&description);
        let mut rows: Vec<(i32, usize)> = Vec::new();
        let top: i32 = minmax + 1;
        let mut advantage: i32 = -top;
        let mut done = false;
        while !done
            invariant
                dice@[0]@ == g0,
                dice@[1]@ == g1,
                minmax == spec_minmax(g0, g1),
                0 <= minmax,
                top == minmax + 1,
                top <= i32::MAX,
                reps > 0 ==> dice_fit(g0) && dice_fit(g1) && top + high_sum(g0) <= i32::MAX,
                -top <= advantage <= top,
                !done ==> rows@.len() == advantage + top,
                done ==> rows@.len() == 2 * top + 1,
                forall|i: int|
                    0 <= i < rows@.len() ==> (#[trigger] rows@[i]).0 == -top + i && dice_row_ok(
                        rows@[i],
                        g0,
                        g1,
                        reps,
                    ),
            decreases top - advantage + (if done {
                0int
            } else {
                1int
            }),
        {
            let out = generate_complex_probability(advantage, reps, &dice);
            rows.push(out);
            if advantage == top {
                done = true;
            } else {
                advantage = advantage + 1;
            }
        }
        proof {
            assert(rows@[0].0 == -(minmax + 1));
            assert(rows@.last() == rows@[rows@.len() - 1]);
            assert(rows@[rows@.len() - 1].0 == minmax + 1);
            if faces_positive(g0) && faces_positive(g1) {
                lemma_sums_match(g0);
                lemma_sums_match(g1);
            }
        }
        Some(
            RollTable {
                title: string_of(&title),
                description: string_of(&description),
                plain: false,
                span: minmax,
                rolls: reps,
                rows,
            },
        )
    }
}

/// Where no count of a side is negative, its highest total is the sum of
/// count times faces, and where moreover every die has a face, its lowest
/// total is the number of dice.
proof fn lemma_sums_match(d: Seq<(i32, i32)>)
    requires
        forall|i: int| 0 <= i < d.len() ==> 0 <= (#[trigger] d[i]).0,
    ensures
        high_sum(d) == face_sum(d),
        faces_positive(d) ==> low_sum(d) == count_sum(d),
    decreases d.len(),
{
    if d.len() > 0 {
        let l = d.last();
        assert(l == d[d.len() - 1]);
        assert(forall|i: int| 0 <= i < d.drop_last().len() ==> d.drop_last()[i] == d[i]);
        lemma_sums_match(d.drop_last());
        assert(rolled(l.0) * l.1 == l.0 * l.1) by (nonlinear_arith)
            requires
                0 <= l.0,
                rolled(l.0) == (if l.0 > 0 {
                    l.0 as int
                } else {
                    0int
                }),
        ;
        if faces_positive(d) {
            assert(1 <= d[d.len() - 1].1);
            assert(faces_positive(d.drop_last()));
        }
    }
}

/// Whether the running sums of the side `d` fit in an `i32`.
fn sums_fit_check(d: &Vec<(i32, i32)>) -> (r: bool)
    ensures
        r == sums_fit(d@),
{
    let mut counts: i64 = 0;
    let mut faces: i64 = 0;
    let mut i: usize = 0;
    assert(d@.take(0) =~= Seq::<(i32, i32)>::empty());
    while i < d.len()
        invariant
            i <= d.len(),
            counts == count_sum(d@.take(i as int)),
            faces == face_sum(d@.take(i as int)),
            forall|k: int| 0 <= k <= i ==> in_i32(#[trigger] count_sum(d@.take(k))),
            forall|k: int| 0 <= k <= i ==> in_i32(#[trigger] face_sum(d@.take(k))),
            forall|j: int| 0 <= j < i ==> in_i32(#[trigger] d@[j].0 * d@[j].1),
        decreases d.len() - i,
    {
        let x = d[i];
        assert(d@.take(i + 1).drop_last() =~= d@.take(i as int));
        assert(d@.take(i + 1).last() == x);
        assert(-4611686018427387904 <= x.0 * x.1 <= 4611686018427387904) by (nonlinear_arith)
            requires
                i32::MIN <= x.0 <= i32::MAX,
                i32::MIN <= x.1 <= i32::MAX,
        ;
        let p = (x.0 as i64) * (x.1 as i64);
        if p < -2147483648 || p > 2147483647 {
            assert(!in_i32(d@[i as int].0 * d@[i as int].1));
            return false;
        }
        counts = counts + x.0 as i64;
        faces = faces + p;
        if counts < -2147483648 || counts > 2147483647 {
            assert(!in_i32(count_sum(d@.take(i + 1))));
            return false;
        }
        if faces < -2147483648 || faces > 2147483647 {
            assert(!in_i32(face_sum(d@.take(i + 1))));
            return false;
        }
        i = i + 1;
    }
    true
}

/// The highest total of the side `d` where it can be rolled (see
/// `dice_fit`), and `None` where it cannot.
fn roll_high(d: &Vec<(i32, i32)>) -> (r: Option<i32>)
    ensures
        r is Some <==> dice_fit(d@),
        r matches Some(h) ==> h == high_sum(d@),
{
    let mut i: usize = 0;
    while i < d.len()
        invariant
            i <= d.len(),
            forall|j: int| 0 <= j < i && (#[trigger] d@[j]).0 > 0 ==> 0 <= d@[j].1 < i32::MAX,
        decreases d.len() - i,
    {
        let x = d[i];
        if x.0 > 0 && (x.1 < 0 || x.1 == i32::MAX) {
            assert(d@[i as int].0 > 0);
            return None;
        }
        i = i + 1;
    }
    let mut total: i64 = 0;
    let mut k: usize = 0;
    assert(d@.take(0) =~= Seq::<(i32, i32)>::empty());
    while k < d.len()
        invariant
            k <= d.len(),
            forall|j: int| 0 <= j < d.len() && (#[trigger] d@[j]).0 > 0 ==> 0 <= d@[j].1 < i32::MAX,
            total == high_sum(d@.take(k as int)),
            0 <= total <= i32::MAX,
        decreases d.len() - k,
    {
        let x = d[k];
        assert(d@.take(k + 1).drop_last() =~= d@.take(k as int));
        assert(d@.take(k + 1).last() == x);
        assert(d@[k as int] == x);
        let term: i64 = if x.0 > 0 {
            assert(0 <= x.0 * x.1 <= 2147483647 * 2147483647) by (nonlinear_arith)
                requires
                    0 < x.0 <= 2147483647,
                    0 <= x.1 <= 2147483647,
            ;
            (x.0 as i64) * (x.1 as i64)
        } else {
            0
        };
        assert(term == rolled(x.0) * x.1);
        total = total + term;
        if total > 2147483647 {
            proof {
                lemma_roll_sums_prefix(d@, k + 1);
            }
            return None;
        }
        k = k + 1;
    }
    assert(d@.take(k as int) =~= d@);
    Some(total as i32)
}

/// Whether `parse_input` may be called on `input` and `reps`: see
/// `input_fits`.
pub fn input_within_limits(input: &str, reps: usize) -> (r: bool)
    ensures
        r == input_fits(input@, reps),
{
    let v = chars_of(input);
    let advanced = contains_versus(&v) || contains_char(&v, 'd');
    if !advanced {
        let mut dice: i32 = 100;
        let mut rounds = reps;
        parse_args(input, &mut rounds, &mut dice, 100);
        0 <= dice && dice < i32::MAX && (rounds == 0 || 2 * (dice as i64) <= 2147483647)
    } else {
        let sides = match outer_sides(&v) {
            Some(s) => s,
            None => {
                return true;
            },
        };
        let d0 = match inner_dice(&sides[0]) {
            Some(x) => x,
            None => {
                return true;
            },
        };
        let d1 = match inner_dice(&sides[1]) {
            Some(x) => x,
            None => {
                return true;
            },
        };
        if !sums_fit_check(&d0) || !sums_fit_check(&d1) {
            return false;
        }
        let (min_0, max_0) = side_sums(&d0);
        let (min_1, max_1) = side_sums(&d1);
        let a = max_1 as i64 - min_0 as i64;
        let b = max_0 as i64 - min_1 as i64;
        if a < -2147483648 || a > 2147483647 || b < -2147483648 || b > 2147483647 {
            return false;
        }
        let m = if a > b {
            a
        } else {
            b
        };
        if m < 0 || m > 2147483646 {
            return false;
        }
        if reps == 0 {
            return true;
        }
        match (roll_high(&d0), roll_high(&d1)) {
            (Some(h0), Some(_)) => m + 1 + h0 as i64 <= 2147483647,
            _ => false,
        }
    }
}

/// Builds the table of a roll description as `parse_input` does, where the
/// input is within the limits of `input_fits`, and gives `None` where it is
/// not.
pub fn parse_input_checked(input: &str, reps: usize) -> (r: Option<Option<RollTable>>)
    ensures
        r is None <==> !input_fits(input@, reps),
        r matches Some(t) ==> table_ok(input@, reps, t),
{
    if input_within_limits(input, reps) {
        Some(parse_input(input, reps))
    } else {
        None
    }
}

} // verus!
