//! The CSV form of a table: one header line, then one line per bonus with the
//! bonus and the percentage of successes, separated by a comma.

use vstd::prelude::*;

use crate::text::{
    is_digit, lemma_int_decimal_chars, lemma_split_after, lemma_split_free, lemma_trim_line_feed,
    lemma_trim_plain,
    chars_of, int_decimal, lemma_parse_decimal_i32, lemma_split_on_len, parse_i32_chars,
    push_i64_decimal, push_lit, spec_is_white_space, spec_parse_i32, split_chars, split_on, string_of,
    string_views, trim, trim_chars, trim_end, trim_start,
};

verus! {

/// The header line of a table file.
pub open spec fn header_line() -> Seq<char> {
    "Skillpoint Advantage,Success(%)\n"@
}

/// The header line of a table file.
pub fn csv_header() -> (r: String)
    ensures
        r@ == header_line(),
{
    let v = chars_of("Skillpoint Advantage,Success(%)\n");
    string_of(&v)
}

/// The line of a table file for the bonus `adv` and the success text
/// `success`: `<adv>,<success>` and a line feed.
pub open spec fn row_line(adv: i32, success: Seq<char>) -> Seq<char> {
    int_decimal(adv as int) + seq![','] + success + seq!['\n']
}

/// The line of a table file for the bonus `adv` and the success text
/// `success`.
pub fn csv_row(adv: i32, success: &str) -> (r: String)
    ensures
        r@ == row_line(adv, success@),
{
    let mut out: Vec<char> = Vec::new();
    push_i64_decimal(&mut out, adv as i64);
    out.push(',');
    push_lit(&mut out, success);
    out.push('\n');
    assert(out@ =~= row_line(adv, success@));
    string_of(&out)
}

/// What a line of a table file gives: `None` for a line that does not hold
/// two cells or whose first cell, trimmed, is not an integer; `Some(None)`
/// for an empty line, which is passed over; otherwise the bonus and the
/// trimmed second cell.
pub open spec fn line_outcome(line: Seq<char>) -> Option<Option<(i32, Seq<char>)>> {
    let cells = split_on(line, seq![',']);
    if cells.len() == 2 {
        match spec_parse_i32(trim(cells[0])) {
            Some(a) => Some(Some((a, trim(cells[1])))),
            None => None,
        }
    } else if line.len() == 0 {
        Some(None)
    } else {
        None
    }
}

/// The rows of the lines `lines`, or `None` where one of them is malformed.
pub open spec fn spec_rows(lines: Seq<Seq<char>>) -> Option<Seq<(i32, Seq<char>)>>
    decreases lines.len(),
{
    if lines.len() == 0 {
        Some(Seq::empty())
    } else {
        match (spec_rows(lines.drop_last()), line_outcome(lines.last())) {
            (Some(a), Some(None)) => Some(a),
            (Some(a), Some(Some(r))) => Some(a.push(r)),
            _ => None,
        }
    }
}

/// The rows of a table file read as the lines `lines` (each with its line
/// feed): the first line is the header and is passed over.
pub open spec fn spec_parse_csv(lines: Seq<Seq<char>>) -> Option<Seq<(i32, Seq<char>)>> {
    if lines.len() == 0 {
        Some(Seq::empty())
    } else {
        spec_rows(lines.skip(1))
    }
}

/// The rows `r`, their success texts as character sequences.
pub open spec fn row_views(r: Seq<(i32, String)>) -> Seq<(i32, Seq<char>)> {
    r.map_values(|x: (i32, String)| (x.0, x.1@))
}

proof fn lemma_rows_none_extends(lines: Seq<Seq<char>>, k: int)
    requires
        0 <= k <= lines.len(),
        spec_rows(lines.take(k)) is None,
    ensures
        spec_rows(lines) is None,
    decreases lines.len() - k,
{
    if k < lines.len() {
        assert(lines.take(k + 1).drop_last() =~= lines.take(k));
        lemma_rows_none_extends(lines, k + 1);
    } else {
        assert(lines.take(k) =~= lines);
    }
}

fn parse_line(line: &String) -> (r: Option<Option<(i32, String)>>)
    ensures
        match r {
            None => line_outcome(line@) is None,
            Some(None) => line_outcome(line@) == Some(None::<(i32, Seq<char>)>),
            Some(Some(x)) => line_outcome(line@) == Some(Some((x.0, x.1@))),
        },
{
    let v = chars_of(line.as_str());
    let mut comma: Vec<char> = Vec::new();
    comma.push(',');
    assert(comma@ =~= seq![',']);
    let cells = split_chars(&v, &comma);
    if cells.len() == 2 {
        let first = trim_chars(&cells[0]);
        match parse_i32_chars(&first) {
            Some(adv) => {
                let second = trim_chars(&cells[1]);
                Some(Some((adv, string_of(&second))))
            },
            None => None,
        }
    } else if v.len() == 0 {
        Some(None)
    } else {
        None
    }
}

/// Reads the rows of a table file given as its lines, each with its line
/// feed: the first line is the header; each other line is either empty or
/// holds the bonus and the success text, trimmed. `None` where a line is
/// malformed.
pub fn parse_azdice_csv_lines(lines: &Vec<String>) -> (r: Option<Vec<(i32, String)>>)
    ensures
        match r {
            Some(rows) => spec_parse_csv(string_views(lines@)) == Some(row_views(rows@)),
            None => spec_parse_csv(string_views(lines@)) is None,
        },
{
    let ghost all = string_views(lines@);
    let mut out: Vec<(i32, String)> = Vec::new();
    if lines.len() == 0 {
        assert(row_views(out@) =~= Seq::<(i32, Seq<char>)>::empty());
        return Some(out);
    }
    let ghost body = all.skip(1);
    let mut i: usize = 1;
    assert(body.take(0) =~= Seq::<Seq<char>>::empty());
    assert(row_views(out@) =~= Seq::<(i32, Seq<char>)>::empty());
    while i < lines.len()
        invariant
            1 <= i <= lines.len(),
            all == string_views(lines@),
            body == all.skip(1),
            spec_rows(body.take(i - 1)) == Some(row_views(out@)),
        decreases lines.len() - i,
    {
        let ghost before = row_views(out@);
        assert(body.take(i as int).drop_last() =~= body.take(i - 1));
        assert(body.take(i as int).last() == lines@[i as int]@);
        match parse_line(&lines[i]) {
            None => {
                proof {
                    lemma_rows_none_extends(body, i as int);
                }
                return None;
            },
            Some(None) => {},
            Some(Some(x)) => {
                let ghost xv = (x.0, x.1@);
                out.push(x);
                assert(row_views(out@) =~= before.push(xv));
            },
        }
        i = i + 1;
    }
    assert(body.take(i - 1) =~= body);
    Some(out)
}


/// A success text that can stand in a line: no comma, and no white space at
/// either end.
pub open spec fn success_ok(s: Seq<char>) -> bool {
    &&& !s.contains(',')
    &&& s.len() > 0 ==> !spec_is_white_space(s[0]) && !spec_is_white_space(s.last())
}

proof fn lemma_row_line_outcome(adv: i32, s: Seq<char>)
    requires
        success_ok(s),
    ensures
        line_outcome(row_line(adv, s)) == Some(Some((adv, s))),
{
    let d = int_decimal(adv as int);
    lemma_int_decimal_chars(adv as int);
    assert(!d.contains(',')) by {
        if d.contains(',') {
            let j = choose|j: int| 0 <= j < d.len() && d[j] == ',';
            assert(is_digit(d[j]) || d[j] == '-');
        }
    }
    let rest = s + seq!['\n'];
    assert(!rest.contains(',')) by {
        if rest.contains(',') {
            let j = choose|j: int| 0 <= j < rest.len() && rest[j] == ',';
            if j < s.len() {
                assert(s[j] == ',');
            }
        }
    }
    assert(row_line(adv, s) =~= d + seq![','] + rest);
    lemma_split_after(d, ',', rest);
    lemma_split_free(rest, ',');
    assert(split_on(row_line(adv, s), seq![',']) =~= seq![d, rest]);
    assert(is_digit(d[d.len() - 1]) || d[d.len() - 1] == '-');
    assert(is_digit(d[0]) || d[0] == '-');
    lemma_trim_plain(d);
    lemma_parse_decimal_i32(adv);
    lemma_trim_line_feed(s);
}

/// The lines written for `rows`.
pub open spec fn row_lines(rows: Seq<(i32, Seq<char>)>) -> Seq<Seq<char>> {
    rows.map_values(|r: (i32, Seq<char>)| row_line(r.0, r.1))
}

proof fn lemma_rows_of_lines(rows: Seq<(i32, Seq<char>)>)
    requires
        forall|i: int| 0 <= i < rows.len() ==> success_ok(#[trigger] rows[i].1),
    ensures
        spec_rows(row_lines(rows)) == Some(rows),
    decreases rows.len(),
{
    if rows.len() > 0 {
        let last = rows.last();
        assert(success_ok(rows[rows.len() - 1].1));
        lemma_rows_of_lines(rows.drop_last());
        assert(row_lines(rows).drop_last() =~= row_lines(rows.drop_last()));
        assert(row_lines(rows).last() == row_line(last.0, last.1));
        lemma_row_line_outcome(last.0, last.1);
        assert(rows.drop_last().push(last) =~= rows);
    } else {
        assert(rows =~= Seq::<(i32, Seq<char>)>::empty());
    }
}

/// Reading back a table file gives the rows that were written: a header line
/// followed by one `row_line` per row reads as those rows, where no success
/// text holds a comma or white space at either end.
pub proof fn lemma_csv_roundtrip(header: Seq<char>, rows: Seq<(i32, Seq<char>)>)
    requires
        forall|i: int| 0 <= i < rows.len() ==> success_ok(#[trigger] rows[i].1),
    ensures
        spec_parse_csv(seq![header] + row_lines(rows)) == Some(rows),
{
    lemma_rows_of_lines(rows);
    assert((seq![header] + row_lines(rows)).skip(1) =~= row_lines(rows));
}

} // verus!
