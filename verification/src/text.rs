//! Characters and strings: conversions, white space, integer parsing and
//! decimal formatting, and splitting on separators.

use vstd::prelude::*;

verus! {

/// The characters of `s`, in order.
pub fn chars_of(s: &str) -> (v: Vec<char>)
    ensures
        v@ == s@,
{
    broadcast use vstd::string::group_string_axioms;

    let mut v: Vec<char> = Vec::new();
    for c in it: s.chars()
        invariant
            v@ == it.seq().take(it.index() as int),
            it.seq() == s@,
    {
        v.push(c);
    }
    v
}

/// Calls `String::push`, which appends `c` to `s`.
#[verifier::external_body]
fn push_char(s: &mut String, c: char)
    ensures
        final(s)@ == old(s)@.push(c),
{
    s.push(c);
}

/// The string made of the characters of `v`, in order.
pub fn string_of(v: &Vec<char>) -> (s: String)
    ensures
        s@ == v@,
{
    let mut s = String::new();
    let mut i: usize = 0;
    while i < v.len()
        invariant
            i <= v.len(),
            s@ == v@.take(i as int),
        decreases v.len() - i,
    {
        push_char(&mut s, v[i]);
        i = i + 1;
        assert(s@ =~= v@.take(i as int));
    }
    assert(v@.take(i as int) =~= v@);
    s
}

/// The Unicode `White_Space` property, which `char::is_whitespace` tests.
pub open spec fn spec_is_white_space(c: char) -> bool {
    ||| '\u{9}' <= c <= '\u{d}'
    ||| c == ' '
    ||| c == '\u{85}'
    ||| c == '\u{a0}'
    ||| c == '\u{1680}'
    ||| '\u{2000}' <= c <= '\u{200a}'
    ||| c == '\u{2028}'
    ||| c == '\u{2029}'
    ||| c == '\u{202f}'
    ||| c == '\u{205f}'
    ||| c == '\u{3000}'
}

/// Whether `c` is white space (the `White_Space` property).
pub fn is_white_space(c: char) -> (r: bool)
    ensures
        r == spec_is_white_space(c),
{
    ('\u{9}' <= c && c <= '\u{d}') || c == ' ' || c == '\u{85}' || c == '\u{a0}' || c == '\u{1680}'
        || ('\u{2000}' <= c && c <= '\u{200a}') || c == '\u{2028}' || c == '\u{2029}' || c
        == '\u{202f}' || c == '\u{205f}' || c == '\u{3000}'
}

/// Whether `s` holds the character `b`.
pub fn lshas(a: &str, b: char) -> (r: bool)
    ensures
        r == a@.contains(b),
{
    let v = chars_of(a);
    contains_char(&v, b)
}

/// Whether `v` holds the character `b`.
pub fn contains_char(v: &Vec<char>, b: char) -> (r: bool)
    ensures
        r == v@.contains(b),
{
    let mut i: usize = 0;
    while i < v.len()
        invariant
            i <= v.len(),
            forall|j: int| 0 <= j < i ==> v@[j] != b,
        decreases v.len() - i,
    {
        if v[i] == b {
            return true;
        }
        i = i + 1;
    }
    false
}


pub open spec fn is_digit(c: char) -> bool {
    '0' <= c <= '9'
}

pub open spec fn digit_value(c: char) -> int {
    (c as int) - ('0' as int)
}

pub open spec fn all_digits(s: Seq<char>) -> bool {
    forall|i: int| 0 <= i < s.len() ==> is_digit(#[trigger] s[i])
}

/// The number that the decimal digits `s` spell.
pub open spec fn digits_value(s: Seq<char>) -> int
    decreases s.len(),
{
    if s.len() == 0 {
        0
    } else {
        digits_value(s.drop_last()) * 10 + digit_value(s.last())
    }
}

/// What `str::parse` gives for an integer type: an optional sign (`-` only
/// where `signed`), then one or more ASCII digits; `None` otherwise. The
/// range of the target type is checked by the callers.
pub open spec fn spec_parse_int(s: Seq<char>, signed: bool) -> Option<int> {
    let neg = signed && s.len() > 0 && s[0] == '-';
    let body = if s.len() > 0 && (s[0] == '+' || neg) {
        s.skip(1)
    } else {
        s
    };
    if body.len() > 0 && all_digits(body) {
        Some(
            if neg {
                -digits_value(body)
            } else {
                digits_value(body)
            },
        )
    } else {
        None
    }
}

/// What `s.parse::<i32>()` gives, `None` standing for its error.
pub open spec fn spec_parse_i32(s: Seq<char>) -> Option<i32> {
    match spec_parse_int(s, true) {
        Some(v) => if i32::MIN <= v <= i32::MAX {
            Some(v as i32)
        } else {
            None
        },
        None => None,
    }
}

/// What `s.parse::<usize>()` gives, `None` standing for its error.
pub open spec fn spec_parse_usize(s: Seq<char>) -> Option<usize> {
    match spec_parse_int(s, false) {
        Some(v) => if 0 <= v <= usize::MAX {
            Some(v as usize)
        } else {
            None
        },
        None => None,
    }
}

pub proof fn lemma_digits_value_nonneg(s: Seq<char>)
    requires
        all_digits(s),
    ensures
        digits_value(s) >= 0,
    decreases s.len(),
{
    if s.len() > 0 {
        assert(is_digit(s[s.len() - 1]));
        lemma_digits_value_nonneg(s.drop_last());
    }
}

/// The value of a prefix of digits is no larger than that of the whole.
proof fn lemma_digits_value_prefix(s: Seq<char>, k: int)
    requires
        all_digits(s),
        0 <= k <= s.len(),
    ensures
        digits_value(s.take(k)) <= digits_value(s),
    decreases s.len(),
{
    if k < s.len() {
        assert(is_digit(s[s.len() - 1]));
        lemma_digits_value_prefix(s.drop_last(), k);
        assert(s.drop_last().take(k) =~= s.take(k));
        lemma_digits_value_nonneg(s.drop_last());
    } else {
        assert(s.take(k) =~= s);
    }
}

/// Reads the digits `v[start..]` as a number, or `None` where one of them is
/// not a digit or the number exceeds `bound`.
fn read_digits(v: &Vec<char>, start: usize, bound: u64) -> (r: Option<u64>)
    requires
        start <= v.len(),
    ensures
        ({
            let body = v@.skip(start as int);
            match r {
                Some(n) => all_digits(body) && n == digits_value(body) && n <= bound,
                None => !all_digits(body) || digits_value(body) > bound,
            }
        }),
{
    let ghost body = v@.skip(start as int);
    let mut acc: u128 = 0;
    let mut i: usize = start;
    assert(body.take(0) =~= Seq::<char>::empty());
    while i < v.len()
        invariant
            start <= i <= v.len(),
            body == v@.skip(start as int),
            all_digits(body.take(i - start)),
            acc == digits_value(body.take(i - start)),
            acc <= bound,
        decreases v.len() - i,
    {
        let c = v[i];
        assert(body[i - start] == c);
        if !('0' <= c && c <= '9') {
            assert(!is_digit(body[i - start]));
            return None;
        }
        let d = (c as u32 - '0' as u32) as u128;
        assert(body.take(i + 1 - start).drop_last() =~= body.take(i - start));
        assert(body.take(i + 1 - start).last() == c);
        acc = acc * 10 + d;
        i = i + 1;
        assert(all_digits(body.take(i - start))) by {
            assert forall|j: int| 0 <= j < body.take(i - start).len() implies is_digit(
                #[trigger] body.take(i - start)[j],
            ) by {
                if j < i - 1 - start {
                    assert(body.take(i - start)[j] == body.take(i - 1 - start)[j]);
                }
            }
        }
        if acc > bound as u128 {
            proof {
                if all_digits(body) {
                    lemma_digits_value_prefix(body, i - start);
                }
            }
            return None;
        }
    }
    assert(body.take(i - start) =~= body);
    Some(acc as u64)
}

/// Parses `v` as `str::parse::<i32>` does.
pub fn parse_i32_chars(v: &Vec<char>) -> (r: Option<i32>)
    ensures
        r == spec_parse_i32(v@),
{
    if v.len() == 0 {
        return None;
    }
    let neg = v[0] == '-';
    let start: usize = if v[0] == '+' || neg {
        1
    } else {
        0
    };
    assert(v@.skip(start as int) =~= (if v@[0] == '+' || neg {
        v@.skip(1)
    } else {
        v@
    }));
    if start == v.len() {
        return None;
    }
    match read_digits(v, start, 2147483648) {
        Some(n) => {
            if neg {
                Some((0 - (n as i64)) as i32)
            } else if n <= 2147483647 {
                Some(n as i32)
            } else {
                None
            }
        },
        None => None,
    }
}

/// Parses `v` as `str::parse::<usize>` does.
pub fn parse_usize_chars(v: &Vec<char>) -> (r: Option<usize>)
    ensures
        r == spec_parse_usize(v@),
{
    if v.len() == 0 {
        return None;
    }
    let start: usize = if v[0] == '+' {
        1
    } else {
        0
    };
    assert(v@.skip(start as int) =~= (if v@[0] == '+' {
        v@.skip(1)
    } else {
        v@
    }));
    if start == v.len() {
        return None;
    }
    match read_digits(v, start, usize::MAX as u64) {
        Some(n) => Some(n as usize),
        None => None,
    }
}


pub open spec fn digit_char(d: int) -> char {
    (('0' as int) + d) as char
}

/// The decimal digits of `n`, most significant first, without leading zeros.
pub open spec fn nat_digits(n: nat) -> Seq<char>
    decreases n,
{
    if n < 10 {
        seq![digit_char(n as int)]
    } else {
        nat_digits(n / 10).push(digit_char((n % 10) as int))
    }
}

/// The decimal form of `n`, as `Display` writes an integer.
pub open spec fn int_decimal(n: int) -> Seq<char> {
    if n < 0 {
        seq!['-'] + nat_digits((-n) as nat)
    } else {
        nat_digits(n as nat)
    }
}

/// Appends the decimal digits of `n` to `out`.
pub fn push_nat_digits(out: &mut Vec<char>, n: u64)
    ensures
        final(out)@ == old(out)@ + nat_digits(n as nat),
    decreases n,
{
    if n >= 10 {
        push_nat_digits(out, n / 10);
    }
    let d = (n % 10) as u32;
    let c = ('0' as u32 + d) as u8 as char;
    assert(c == digit_char((n % 10) as int)) by {
        assert((('0' as u32 + d) as u8) as int == ('0' as int) + (n % 10));
    }
    out.push(c);
}

/// Appends the decimal form of `n` to `out`.
pub fn push_i64_decimal(out: &mut Vec<char>, n: i64)
    ensures
        final(out)@ == old(out)@ + int_decimal(n as int),
{
    if n < 0 {
        out.push('-');
        let m: u64 = if n == i64::MIN {
            9223372036854775808
        } else {
            (0 - n) as u64
        };
        push_nat_digits(out, m);
        assert(old(out)@.push('-') + nat_digits(m as nat) =~= old(out)@ + (seq!['-'] + nat_digits(
            (-n) as nat,
        )));
    } else {
        push_nat_digits(out, n as u64);
    }
}

pub proof fn lemma_nat_digits(n: nat)
    ensures
        all_digits(nat_digits(n)),
        digits_value(nat_digits(n)) == n,
        nat_digits(n).len() >= 1,
    decreases n,
{
    let d = (n % 10) as int;
    assert(digit_value(digit_char(d)) == d);
    if n < 10 {
        let s = nat_digits(n);
        assert(s.drop_last() =~= Seq::<char>::empty());
        assert(digits_value(s) == digits_value(s.drop_last()) * 10 + digit_value(s.last()));
        assert(digits_value(s) == n);
    } else {
        lemma_nat_digits(n / 10);
        let s = nat_digits(n);
        assert(s.last() == digit_char(d));
        assert(s.drop_last() =~= nat_digits(n / 10));
        assert(digits_value(s) == digits_value(s.drop_last()) * 10 + digit_value(s.last()));
        assert(digits_value(s) == (n / 10) * 10 + d);
        assert(s.drop_last() =~= nat_digits(n / 10));
        assert forall|i: int| 0 <= i < s.len() implies is_digit(#[trigger] s[i]) by {
            if i < s.len() - 1 {
                assert(s[i] == nat_digits(n / 10)[i]);
            }
        }
    }
}

/// Parsing the decimal form of an `i32` gives it back.
pub proof fn lemma_parse_decimal_i32(x: i32)
    ensures
        spec_parse_i32(int_decimal(x as int)) == Some(x),
{
    if x < 0 {
        lemma_nat_digits((-x) as nat);
        let s = int_decimal(x as int);
        assert(s.skip(1) =~= nat_digits((-x) as nat));
    } else {
        lemma_nat_digits(x as nat);
        let s = nat_digits(x as nat);
        assert(is_digit(s[0]));
    }
}


/// `r` with `c` put in front of its first piece.
pub open spec fn prepend_first(c: Seq<char>, r: Seq<Seq<char>>) -> Seq<Seq<char>> {
    r.update(0, c + r[0])
}

/// The pieces that `str::split` gives for the pattern `p`: the separators are
/// found left to right without overlapping, and there is always one piece
/// more than separators.
pub open spec fn split_on(s: Seq<char>, p: Seq<char>) -> Seq<Seq<char>>
    decreases s.len(),
{
    if s.len() == 0 {
        seq![Seq::<char>::empty()]
    } else if 0 < p.len() <= s.len() && s.take(p.len() as int) == p {
        seq![Seq::<char>::empty()] + split_on(s.skip(p.len() as int), p)
    } else {
        prepend_first(seq![s[0]], split_on(s.skip(1), p))
    }
}

pub proof fn lemma_split_on_len(s: Seq<char>, p: Seq<char>)
    ensures
        split_on(s, p).len() >= 1,
    decreases s.len(),
{
    if s.len() == 0 {
    } else if 0 < p.len() <= s.len() && s.take(p.len() as int) == p {
        lemma_split_on_len(s.skip(p.len() as int), p);
    } else {
        lemma_split_on_len(s.skip(1), p);
    }
}

/// Whether the pattern `p` begins at position `i` of `v`.
pub fn starts_at(v: &Vec<char>, i: usize, p: &Vec<char>) -> (r: bool)
    requires
        i <= v.len(),
    ensures
        r == (p@.len() <= v@.skip(i as int).len() && v@.skip(i as int).take(p@.len() as int)
            == p@),
{
    if p.len() > v.len() - i {
        return false;
    }
    let mut k: usize = 0;
    while k < p.len()
        invariant
            i <= v.len(),
            p.len() <= v.len() - i,
            k <= p.len(),
            forall|j: int| 0 <= j < k ==> v@[i + j] == p@[j],
        decreases p.len() - k,
    {
        if v[i + k] != p[k] {
            assert(v@.skip(i as int).take(p@.len() as int)[k as int] != p@[k as int]);
            return false;
        }
        k = k + 1;
    }
    assert(v@.skip(i as int).take(p@.len() as int) =~= p@);
    true
}

/// The character sequences that the vectors of `r` hold.
pub open spec fn views(r: Seq<Vec<char>>) -> Seq<Seq<char>> {
    r.map_values(|v: Vec<char>| v@)
}

/// Splits `v` on the pattern `p`, as `str::split` does.
pub fn split_chars(v: &Vec<char>, p: &Vec<char>) -> (r: Vec<Vec<char>>)
    requires
        p.len() > 0,
    ensures
        views(r@) == split_on(v@, p@),
{
    let mut done: Vec<Vec<char>> = Vec::new();
    let mut cur: Vec<char> = Vec::new();
    let mut i: usize = 0;
    proof {
        lemma_split_on_len(v@, p@);
        assert(v@.skip(0) =~= v@);
        assert(prepend_first(cur@, split_on(v@, p@)) =~= split_on(v@, p@));
        assert(views(done@) + split_on(v@, p@) =~= split_on(v@, p@));
    }
    while i < v.len()
        invariant
            i <= v.len(),
            p.len() > 0,
            split_on(v@, p@) == views(done@) + prepend_first(cur@, split_on(v@.skip(i as int), p@)),
        decreases v.len() - i,
    {
        let ghost rest = v@.skip(i as int);
        let ghost old_done = views(done@);
        let ghost old_cur = cur@;
        if starts_at(v, i, p) {
            let ghost tail = split_on(rest.skip(p@.len() as int), p@);
            proof {
                lemma_split_on_len(rest.skip(p@.len() as int), p@);
                assert(split_on(rest, p@) == seq![Seq::<char>::empty()] + tail);
                assert(rest.skip(p@.len() as int) =~= v@.skip(i + p@.len()));
            }
            done.push(cur);
            cur = Vec::new();
            i = i + p.len();
            proof {
                assert(views(done@) =~= old_done.push(old_cur));
                assert(prepend_first(old_cur, seq![Seq::<char>::empty()] + tail) =~= seq![old_cur]
                    + tail);
                assert(prepend_first(cur@, tail) =~= tail);
                assert(old_done + (seq![old_cur] + tail) =~= old_done.push(old_cur) + tail);
            }
        } else {
            let c = v[i];
            let ghost tail = split_on(rest.skip(1), p@);
            proof {
                lemma_split_on_len(rest.skip(1), p@);
                assert(split_on(rest, p@) == prepend_first(seq![c], tail));
                assert(rest.skip(1) =~= v@.skip(i + 1));
            }
            cur.push(c);
            i = i + 1;
            proof {
                assert(old_cur + (seq![c] + tail[0]) =~= cur@ + tail[0]);
                assert(prepend_first(old_cur, prepend_first(seq![c], tail)) =~= prepend_first(
                    cur@,
                    tail,
                ));
            }
        }
    }
    let ghost last_done = views(done@);
    let ghost last_cur = cur@;
    proof {
        assert(v@.skip(i as int) =~= Seq::<char>::empty());
        assert(prepend_first(last_cur, seq![Seq::<char>::empty()]) =~= seq![last_cur]);
    }
    done.push(cur);
    proof {
        assert(views(done@) =~= last_done.push(last_cur));
        assert(last_done + seq![last_cur] =~= last_done.push(last_cur));
    }
    done
}


/// `s` without its white space characters.
pub open spec fn drop_white_space(s: Seq<char>) -> Seq<char>
    decreases s.len(),
{
    if s.len() == 0 {
        s
    } else if spec_is_white_space(s.last()) {
        drop_white_space(s.drop_last())
    } else {
        drop_white_space(s.drop_last()).push(s.last())
    }
}

/// Dropping white space from a concatenation drops it from each part.
pub proof fn lemma_drop_white_space_concat(a: Seq<char>, b: Seq<char>)
    ensures
        drop_white_space(a + b) == drop_white_space(a) + drop_white_space(b),
    decreases b.len(),
{
    if b.len() == 0 {
        assert(a + b =~= a);
        assert(drop_white_space(a) + drop_white_space(b) =~= drop_white_space(a));
    } else {
        lemma_drop_white_space_concat(a, b.drop_last());
        assert((a + b).drop_last() =~= a + b.drop_last());
        assert((a + b).last() == b.last());
        if !spec_is_white_space(b.last()) {
            assert(drop_white_space(a) + drop_white_space(b.drop_last()).push(b.last()) =~= (
            drop_white_space(a) + drop_white_space(b.drop_last())).push(b.last()));
        }
    }
}

/// `v` without its white space characters.
pub fn remove_white_space(v: &Vec<char>) -> (r: Vec<char>)
    ensures
        r@ == drop_white_space(v@),
{
    let mut r: Vec<char> = Vec::new();
    let mut i: usize = 0;
    assert(v@.take(0) =~= Seq::<char>::empty());
    while i < v.len()
        invariant
            i <= v.len(),
            r@ == drop_white_space(v@.take(i as int)),
        decreases v.len() - i,
    {
        let c = v[i];
        assert(v@.take(i + 1).drop_last() =~= v@.take(i as int));
        assert(v@.take(i + 1).last() == c);
        if !is_white_space(c) {
            r.push(c);
        }
        i = i + 1;
    }
    assert(v@.take(i as int) =~= v@);
    r
}

/// `s` without its leading white space.
pub open spec fn trim_start(s: Seq<char>) -> Seq<char>
    decreases s.len(),
{
    if s.len() > 0 && spec_is_white_space(s[0]) {
        trim_start(s.skip(1))
    } else {
        s
    }
}

/// `s` without its trailing white space.
pub open spec fn trim_end(s: Seq<char>) -> Seq<char>
    decreases s.len(),
{
    if s.len() > 0 && spec_is_white_space(s.last()) {
        trim_end(s.drop_last())
    } else {
        s
    }
}

/// What `str::trim` gives: `s` without leading and trailing white space.
pub open spec fn trim(s: Seq<char>) -> Seq<char> {
    trim_end(trim_start(s))
}

/// `v` without leading and trailing white space, as `str::trim` gives it.
pub fn trim_chars(v: &Vec<char>) -> (r: Vec<char>)
    ensures
        r@ == trim(v@),
{
    let n = v.len();
    let mut i: usize = 0;
    assert(v@.skip(0) =~= v@);
    while i < n && is_white_space(v[i])
        invariant
            i <= n,
            n == v.len(),
            trim_start(v@) == trim_start(v@.skip(i as int)),
        decreases n - i,
    {
        assert(v@.skip(i as int).skip(1) =~= v@.skip(i + 1));
        i = i + 1;
    }
    let ghost front = v@.skip(i as int);
    assert(trim_start(front) == front);
    let mut j: usize = n;
    assert(front.take(front.len() as int) =~= front);
    while j > i && is_white_space(v[j - 1])
        invariant
            i <= j <= n,
            n == v.len(),
            front == v@.skip(i as int),
            trim_end(front) == trim_end(front.take(j - i)),
        decreases j,
    {
        assert(front.take(j - i).drop_last() =~= front.take(j - 1 - i));
        assert(front.take(j - i).last() == v@[j - 1]);
        j = j - 1;
    }
    let ghost kept = front.take(j - i);
    assert(kept.len() > 0 ==> kept.last() == v@[j - 1]);
    assert(trim_end(kept) == kept);
    let mut r: Vec<char> = Vec::new();
    let mut k: usize = i;
    while k < j
        invariant
            i <= k <= j <= n,
            n == v.len(),
            r@ == v@.subrange(i as int, k as int),
        decreases j - k,
    {
        r.push(v[k]);
        k = k + 1;
        assert(r@ =~= v@.subrange(i as int, k as int));
    }
    assert(r@ =~= kept);
    r
}


/// Whether `c` is numeric, as `char::is_numeric` answers (the Unicode general
/// categories `Nd`, `Nl` and `No`).
pub uninterp spec fn char_is_numeric(c: char) -> bool;

/// Calls `char::is_numeric`. The contract names its answer and states the
/// part of it that holds for ASCII: the ten digits are numeric and no other
/// ASCII character is; beyond ASCII nothing is stated.
#[verifier::external_body]
pub(crate) fn is_numeric(c: char) -> (r: bool)
    ensures
        r == char_is_numeric(c),
        is_digit(c) ==> r,
        (c as u32) < 128 && !is_digit(c) ==> !r,
{
    c.is_numeric()
}

/// The strings of `r`, as character sequences.
pub open spec fn string_views(r: Seq<String>) -> Seq<Seq<char>> {
    r.map_values(|s: String| s@)
}

/// The strings made of the vectors of `v`.
pub fn strings_of(v: &Vec<Vec<char>>) -> (r: Vec<String>)
    ensures
        string_views(r@) == views(v@),
{
    let mut r: Vec<String> = Vec::new();
    let mut i: usize = 0;
    while i < v.len()
        invariant
            i <= v.len(),
            string_views(r@) == views(v@.take(i as int)),
        decreases v.len() - i,
    {
        let ghost old_r = r@;
        let s = string_of(&v[i]);
        let ghost sv = s@;
        r.push(s);
        proof {
            assert(string_views(r@) =~= string_views(old_r).push(sv));
            assert(v@.take(i + 1) =~= v@.take(i as int).push(v@[i as int]));
            assert(views(v@.take(i + 1)) =~= views(v@.take(i as int)).push(v@[i as int]@));
        }
        i = i + 1;
    }
    assert(v@.take(i as int) =~= v@);
    r
}


/// Splitting on a character that `x` does not hold gives `x` whole.
pub proof fn lemma_split_free(x: Seq<char>, c: char)
    requires
        !x.contains(c),
    ensures
        split_on(x, seq![c]) == seq![x],
    decreases x.len(),
{
    if x.len() > 0 {
        assert(x.take(1) != seq![c]) by {
            if x.take(1) == seq![c] {
                assert(x[0] == x.take(1)[0]);
            }
        }
        assert(!x.skip(1).contains(c)) by {
            if x.skip(1).contains(c) {
                let j = choose|j: int| 0 <= j < x.skip(1).len() && x.skip(1)[j] == c;
                assert(x[j + 1] == c);
            }
        }
        lemma_split_free(x.skip(1), c);
        assert(seq![x[0]] + x.skip(1) =~= x);
        assert(prepend_first(seq![x[0]], seq![x.skip(1)]) =~= seq![x]);
    } else {
        assert(x =~= Seq::<char>::empty());
    }
}

/// The first separator `c` ends the first piece.
pub proof fn lemma_split_after(x: Seq<char>, c: char, y: Seq<char>)
    requires
        !x.contains(c),
    ensures
        split_on(x + seq![c] + y, seq![c]) == seq![x] + split_on(y, seq![c]),
    decreases x.len(),
{
    let s = x + seq![c] + y;
    if x.len() == 0 {
        assert(x =~= Seq::<char>::empty());
        assert(s.take(1) =~= seq![c]);
        assert(s.skip(1) =~= y);
        assert(seq![Seq::<char>::empty()] + split_on(y, seq![c]) =~= seq![x] + split_on(
            y,
            seq![c],
        ));
    } else {
        assert(s.take(1) != seq![c]) by {
            if s.take(1) == seq![c] {
                assert(s[0] == s.take(1)[0]);
                assert(s[0] == x[0]);
            }
        }
        assert(!x.skip(1).contains(c)) by {
            if x.skip(1).contains(c) {
                let j = choose|j: int| 0 <= j < x.skip(1).len() && x.skip(1)[j] == c;
                assert(x[j + 1] == c);
            }
        }
        lemma_split_after(x.skip(1), c, y);
        assert(s.skip(1) =~= x.skip(1) + seq![c] + y);
        lemma_split_on_len(y, seq![c]);
        assert(seq![x[0]] + x.skip(1) =~= x);
        assert(prepend_first(seq![x[0]], seq![x.skip(1)] + split_on(y, seq![c])) =~= seq![x]
            + split_on(y, seq![c]));
    }
}

/// The decimal form of an integer is digits after an optional minus sign.
pub proof fn lemma_int_decimal_chars(n: int)
    ensures
        int_decimal(n).len() >= 1,
        forall|i: int|
            0 <= i < int_decimal(n).len() ==> is_digit(#[trigger] int_decimal(n)[i]) || (i == 0
                && int_decimal(n)[i] == '-'),
{
    if n < 0 {
        lemma_nat_digits((-n) as nat);
        let d = nat_digits((-n) as nat);
        assert forall|i: int| 0 <= i < int_decimal(n).len() implies is_digit(
            #[trigger] int_decimal(n)[i],
        ) || (i == 0 && int_decimal(n)[i] == '-') by {
            if i > 0 {
                assert(int_decimal(n)[i] == d[i - 1]);
            }
        }
    } else {
        lemma_nat_digits(n as nat);
    }
}

/// A text that neither starts nor ends with white space is its own trim.
pub proof fn lemma_trim_plain(x: Seq<char>)
    requires
        x.len() > 0 ==> !spec_is_white_space(x[0]) && !spec_is_white_space(x.last()),
    ensures
        trim(x) == x,
{
}

/// Trimming a text that neither starts nor ends with white space, followed
/// by a line feed, gives the text.
pub proof fn lemma_trim_line_feed(x: Seq<char>)
    requires
        x.len() > 0 ==> !spec_is_white_space(x[0]) && !spec_is_white_space(x.last()),
    ensures
        trim(x + seq!['\n']) == x,
{
    let y = x + seq!['\n'];
    assert(y.drop_last() =~= x);
    assert(y.last() == '\n');
    assert(spec_is_white_space(y.last()));
    if x.len() > 0 {
        assert(y[0] == x[0]);
        assert(trim_start(y) == y);
        assert(trim_end(y) == trim_end(x));
        assert(trim_end(x) == x);
    } else {
        assert(y.skip(1) =~= Seq::<char>::empty());
        assert(trim_start(y) == trim_start(y.skip(1)));
        assert(trim_start(Seq::<char>::empty()) =~= Seq::<char>::empty());
        assert(trim_end(Seq::<char>::empty()) =~= Seq::<char>::empty());
        assert(x =~= Seq::<char>::empty());
    }
}


/// Appends the characters of `v` to `out`.
pub fn push_chars(out: &mut Vec<char>, v: &Vec<char>)
    ensures
        final(out)@ == old(out)@ + v@,
{
    let mut i: usize = 0;
    while i < v.len()
        invariant
            i <= v.len(),
            out@ == old(out)@ + v@.take(i as int),
        decreases v.len() - i,
    {
        out.push(v[i]);
        i = i + 1;
        assert(out@ =~= old(out)@ + v@.take(i as int));
    }
    assert(v@.take(i as int) =~= v@);
}

/// Appends the characters of `s` to `out`.
pub fn push_lit(out: &mut Vec<char>, s: &str)
    ensures
        final(out)@ == old(out)@ + s@,
{
    push_chars(out, &chars_of(s));
}


/// Every character of a piece of a split is a character of the whole.
pub proof fn lemma_split_piece_chars(s: Seq<char>, p: Seq<char>, k: int, j: int)
    requires
        0 <= k < split_on(s, p).len(),
        0 <= j < split_on(s, p)[k].len(),
    ensures
        s.contains(split_on(s, p)[k][j]),
    decreases s.len(),
{
    if s.len() == 0 {
    } else if 0 < p.len() <= s.len() && s.take(p.len() as int) == p {
        let rest = s.skip(p.len() as int);
        assert(k >= 1);
        assert(split_on(s, p)[k] == split_on(rest, p)[k - 1]);
        lemma_split_piece_chars(rest, p, k - 1, j);
        let i = choose|i: int| 0 <= i < rest.len() && rest[i] == split_on(s, p)[k][j];
        assert(s[i + p.len()] == rest[i]);
    } else {
        let rest = s.skip(1);
        lemma_split_on_len(rest, p);
        let r = split_on(rest, p);
        if k == 0 && j == 0 {
            assert(split_on(s, p)[0] == seq![s[0]] + r[0]);
            assert(s[0] == split_on(s, p)[0][0]);
        } else {
            let jj = if k == 0 {
                j - 1
            } else {
                j
            };
            if k == 0 {
                assert(split_on(s, p)[0] == seq![s[0]] + r[0]);
                assert(split_on(s, p)[0][j] == r[0][j - 1]);
            } else {
                assert(split_on(s, p)[k] == r[k]);
            }
            lemma_split_piece_chars(rest, p, k, jj);
            let i = choose|i: int| 0 <= i < rest.len() && rest[i] == r[k][jj];
            assert(s[i + 1] == rest[i]);
        }
    }
}

/// An integer read from a text without a minus sign is not negative.
pub proof fn lemma_parse_no_minus(x: Seq<char>)
    requires
        !x.contains('-'),
        spec_parse_i32(x) is Some,
    ensures
        spec_parse_i32(x)->0 >= 0,
{
    if x.len() > 0 {
        assert(x[0] != '-');
    }
    let body = if x.len() > 0 && x[0] == '+' {
        x.skip(1)
    } else {
        x
    };
    lemma_digits_value_nonneg(body);
}


/// The characters of `s` up to its first white space.
pub open spec fn take_word(s: Seq<char>) -> Seq<char>
    decreases s.len(),
{
    if s.len() == 0 || spec_is_white_space(s[0]) {
        Seq::<char>::empty()
    } else {
        seq![s[0]] + take_word(s.skip(1))
    }
}

/// `s` from its first white space on.
pub open spec fn skip_word(s: Seq<char>) -> Seq<char>
    decreases s.len(),
{
    if s.len() == 0 || spec_is_white_space(s[0]) {
        s
    } else {
        skip_word(s.skip(1))
    }
}

/// The first word of `s`: what `str::split_whitespace` gives first, or
/// nothing.
pub open spec fn first_word(s: Seq<char>) -> Seq<char> {
    take_word(trim_start(s))
}

/// The second word of `s`, or nothing.
pub open spec fn second_word(s: Seq<char>) -> Seq<char> {
    take_word(trim_start(skip_word(trim_start(s))))
}

/// The position of the first character of `v` at or after `start` that is not
/// white space.
fn skip_space(v: &Vec<char>, start: usize) -> (end: usize)
    requires
        start <= v.len(),
    ensures
        start <= end <= v.len(),
        trim_start(v@.skip(start as int)) == v@.skip(end as int),
{
    let mut i = start;
    while i < v.len() && is_white_space(v[i])
        invariant
            start <= i <= v.len(),
            trim_start(v@.skip(start as int)) == trim_start(v@.skip(i as int)),
        decreases v.len() - i,
    {
        assert(v@.skip(i as int).skip(1) =~= v@.skip(i + 1));
        i = i + 1;
    }
    i
}

/// The position of the first white space of `v` at or after `start`.
fn skip_non_space(v: &Vec<char>, start: usize) -> (end: usize)
    requires
        start <= v.len(),
    ensures
        start <= end <= v.len(),
        take_word(v@.skip(start as int)) == v@.subrange(start as int, end as int),
        skip_word(v@.skip(start as int)) == v@.skip(end as int),
{
    let mut i = start;
    while i < v.len() && !is_white_space(v[i])
        invariant
            start <= i <= v.len(),
            take_word(v@.skip(start as int)) == v@.subrange(start as int, i as int) + take_word(
                v@.skip(i as int),
            ),
            skip_word(v@.skip(start as int)) == skip_word(v@.skip(i as int)),
        decreases v.len() - i,
    {
        assert(v@.skip(i as int).skip(1) =~= v@.skip(i + 1));
        assert(v@.subrange(start as int, i as int) + (seq![v@[i as int]] + take_word(
            v@.skip(i + 1),
        )) =~= v@.subrange(start as int, i + 1) + take_word(v@.skip(i + 1)));
        i = i + 1;
    }
    assert(take_word(v@.skip(i as int)) =~= Seq::<char>::empty());
    assert(v@.subrange(start as int, i as int) + Seq::<char>::empty() =~= v@.subrange(
        start as int,
        i as int,
    ));
    i
}

fn copy_range(v: &Vec<char>, from: usize, to: usize) -> (r: Vec<char>)
    requires
        from <= to <= v.len(),
    ensures
        r@ == v@.subrange(from as int, to as int),
{
    let mut r: Vec<char> = Vec::new();
    let mut k = from;
    while k < to
        invariant
            from <= k <= to <= v.len(),
            r@ == v@.subrange(from as int, k as int),
        decreases to - k,
    {
        r.push(v[k]);
        k = k + 1;
        assert(r@ =~= v@.subrange(from as int, k as int));
    }
    r
}

/// The first two words of `v`.
pub fn first_two_words(v: &Vec<char>) -> (r: (Vec<char>, Vec<char>))
    ensures
        r.0@ == first_word(v@),
        r.1@ == second_word(v@),
{
    assert(v@.skip(0) =~= v@);
    let a = skip_space(v, 0);
    let b = skip_non_space(v, a);
    let c = skip_space(v, b);
    let d = skip_non_space(v, c);
    (copy_range(v, a, b), copy_range(v, c, d))
}

} // verus!
