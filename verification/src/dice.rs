//! The logic of the command-line table builder, whose dice bags come from
//! outside: the title of a table, the reading of a roll as one bag or two
//! opposed bags, the range of bonuses between two bags and the count of
//! successes over given totals.

use vstd::prelude::*;

use crate::parser::versus;
use crate::text::{
    chars_of, lemma_split_on_len, nat_digits, push_lit, push_nat_digits, split_chars, split_on,
    string_of, views,
};

verus! {

/// The title of a table: `<input> (<reps> rolls of the dice-bag)`.
pub open spec fn spec_table_title(input: Seq<char>, reps: usize) -> Seq<char> {
    input + " ("@ + nat_digits(reps as nat) + " rolls of the dice-bag)"@
}

/// The title of the table of `input` rolled `reps` times.
pub fn table_title(input: &str, reps: usize) -> (r: String)
    ensures
        r@ == spec_table_title(input@, reps),
{
    let mut out: Vec<char> = Vec::new();
    push_lit(&mut out, input);
    push_lit(&mut out, " (");
    push_nat_digits(&mut out, reps as u64);
    push_lit(&mut out, " rolls of the dice-bag)");
    string_of(&out)
}

/// A roll as the command line reads it: one bag, whose distribution is
/// tabled, or two bags rolled against each other.
pub enum RollRequest {
    Single(String),
    Opposed(String, String),
}

/// A roll without `vs` is one bag; with one `vs`, the two bags on either
/// side of it; with more, nothing.
pub open spec fn spec_classify(input: Seq<char>) -> Option<(Seq<char>, Option<Seq<char>>)> {
    let parts = split_on(input, versus());
    if parts.len() == 1 {
        Some((input, None))
    } else if parts.len() == 2 {
        Some((parts[0], Some(parts[1])))
    } else {
        None
    }
}

/// Reads a roll as one bag or two opposed bags; `None` where `vs` comes more
/// than once.
pub fn classify_roll(input: &str) -> (r: Option<RollRequest>)
    ensures
        match r {
            None => spec_classify(input@) is None,
            Some(RollRequest::Single(s)) => spec_classify(input@) == Some(
                (s@, None::<Seq<char>>),
            ),
            Some(RollRequest::Opposed(a, b)) => spec_classify(input@) == Some((a@, Some(b@))),
        },
{
    let v = chars_of(input);
    let mut vs: Vec<char> = Vec::new();
    vs.push('v');
    vs.push('s');
    assert(vs@ =~= versus());
    let parts = split_chars(&v, &vs);
    proof {
        lemma_split_on_len(v@, versus());
    }
    if parts.len() == 1 {
        Some(RollRequest::Single(string_of(&v)))
    } else if parts.len() == 2 {
        assert(views(parts@)[0] == parts@[0]@);
        assert(views(parts@)[1] == parts@[1]@);
        Some(RollRequest::Opposed(string_of(&parts[0]), string_of(&parts[1])))
    } else {
        None
    }
}

/// The bonuses at which the first bag is rolled against the second: from the
/// second's lowest minus the first's highest to the second's highest minus
/// the first's lowest.
pub fn advantage_bounds(range1: [i64; 2], range2: [i64; 2]) -> (r: (i64, i64))
    requires
        i64::MIN <= range2@[0] - range1@[1] <= i64::MAX,
        i64::MIN <= range2@[1] - range1@[0] <= i64::MAX,
    ensures
        r.0 == range2@[0] - range1@[1],
        r.1 == range2@[1] - range1@[0],
{
    (range2[0] - range1[1], range2[1] - range1[0])
}

/// The number of the first `k` trials that the first bag, with the bonus
/// `adv`, meets or beats.
pub open spec fn spec_victories(adv: int, att: Seq<i64>, def: Seq<i64>, k: int) -> int
    decreases k,
{
    if k <= 0 {
        0
    } else {
        spec_victories(adv, att, def, k - 1) + if adv + att[k - 1] >= def[k - 1] {
            1int
        } else {
            0int
        }
    }
}

/// The trials among the first `k`, by index and in order, in which the
/// first bag's total with the bonus `adv` meets or beats the second's.
pub open spec fn winning_trials(adv: int, att: Seq<i64>, def: Seq<i64>, k: int) -> Seq<int> {
    Seq::new(k as nat, |i: int| i).filter(|i: int| adv + att[i] >= def[i])
}

/// The count of successes is the number of winning trials: each trial
/// counts exactly when the first total plus the bonus, sign kept, meets or
/// beats the second.
pub proof fn lemma_victories_are_winning_trials(adv: int, att: Seq<i64>, def: Seq<i64>, k: int)
    requires
        0 <= k,
    ensures
        spec_victories(adv, att, def, k) == winning_trials(adv, att, def, k).len(),
    decreases k,
{
    reveal(Seq::filter);
    let pred = |i: int| adv + att[i] >= def[i];
    let s = Seq::new(k as nat, |i: int| i);
    assert(winning_trials(adv, att, def, k) == s.filter(pred));
    if k > 0 {
        lemma_victories_are_winning_trials(adv, att, def, k - 1);
        assert(s.drop_last() =~= Seq::new((k - 1) as nat, |i: int| i));
        assert(s.last() == k - 1);
        assert(winning_trials(adv, att, def, k - 1) == s.drop_last().filter(pred));
        assert(s.filter(pred) == if pred(s.last()) {
            s.drop_last().filter(pred).push(s.last())
        } else {
            s.drop_last().filter(pred)
        });
    } else {
        assert(s.filter(pred) == s);
    }
}

/// A larger bonus never wins fewer of the same trials.
pub proof fn lemma_victories_monotone(adv1: int, adv2: int, att: Seq<i64>, def: Seq<i64>, k: int)
    requires
        adv1 <= adv2,
    ensures
        spec_victories(adv1, att, def, k) <= spec_victories(adv2, att, def, k),
    decreases k,
{
    if k > 0 {
        lemma_victories_monotone(adv1, adv2, att, def, k - 1);
    }
}

/// Where every trial is lost the count is 0, where every trial is won it is
/// the number of trials, and it never leaves that range.
pub proof fn lemma_victories_extremes(adv: int, att: Seq<i64>, def: Seq<i64>, k: int)
    requires
        0 <= k,
    ensures
        0 <= spec_victories(adv, att, def, k) <= k,
        (forall|i: int| 0 <= i < k ==> adv + att[i] < def[i]) ==> spec_victories(adv, att, def, k)
            == 0,
        (forall|i: int| 0 <= i < k ==> adv + att[i] >= def[i]) ==> spec_victories(adv, att, def, k)
            == k,
    decreases k,
{
    if k > 0 {
        lemma_victories_extremes(adv, att, def, k - 1);
    }
}

/// Counts the trials, the totals of the first bag in `att` and of the second
/// in `def`, that the first bag with the bonus `adv` meets or beats.
pub fn count_victories(adv: i64, att: &Vec<i64>, def: &Vec<i64>) -> (r: usize)
    requires
        att.len() == def.len(),
        forall|i: int| 0 <= i < att.len() ==> i64::MIN <= adv + #[trigger] att@[i] <= i64::MAX,
    ensures
        r == spec_victories(adv as int, att@, def@, att.len() as int),
        r == winning_trials(adv as int, att@, def@, att.len() as int).len(),
        r <= att.len(),
{
    let mut vics: usize = 0;
    let mut i: usize = 0;
    while i < att.len()
        invariant
            i <= att.len(),
            att.len() == def.len(),
            forall|j: int| 0 <= j < att.len() ==> i64::MIN <= adv + #[trigger] att@[j] <= i64::MAX,
            vics == spec_victories(adv as int, att@, def@, i as int),
            vics <= i,
        decreases att.len() - i,
    {
        if adv + att[i] >= def[i] {
            vics = vics + 1;
        }
        i = i + 1;
    }
    proof {
        lemma_victories_are_winning_trials(adv as int, att@, def@, att.len() as int);
    }
    vics
}

} // verus!
