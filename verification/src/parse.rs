//! The shorthand grammar for configuration files, and normalization of the
//! parsed rows.
//!
//! A file holds one configuration per line, its shorthand expressions
//! separated by spaces.  Within an expression each character is a label of its
//! own, except that a parenthesized run of characters is one multi-character
//! label; an expression of several labels stands for every row obtained by
//! picking one of them.  Whitespace here means the ASCII whitespace
//! characters.
//!
//! Normalization brings every row's labels into canonical (sorted) order,
//! sorts the rows, and drops duplicates.

use vstd::prelude::*;
use vstd::string::StrSliceExecFns;

use crate::compat::{append_cfgs, cfg_eq, sort_all, sort_all_exec, subst_slot, subst_slot_exec};
use crate::order::{
    clone_cfg, label_eq, label_le, lex_leq, push_cfg, push_label, Label,
};

verus! {

/// What the parser rejects.
#[derive(Clone, Copy, Debug, PartialEq, Eq, Structural)]
pub enum ParseError {
    /// A row's length differs from the first row's.
    MismatchedRowLengths { expected: usize, found: usize },
    /// The input holds no nonempty row.
    NoRows,
    /// `(` inside a parenthesized label.
    UnexpectedOpenParen,
    /// `)` without a matching `(`.
    UnexpectedCloseParen,
    /// The expression ended inside a parenthesized label.
    MissingCloseParen,
    /// Whitespace inside a shorthand expression.
    UnexpectedWhitespace(char),
    /// A parenthesized label `()` with no characters.
    EmptyLabel,
    /// An expansion index outside the row.
    IndexOutOfRange,
}

/// The ASCII whitespace characters.
pub open spec fn is_ws_char(c: char) -> bool {
    c == ' ' || c == '\t' || c == '\n' || c == '\r' || c == '\u{b}' || c == '\u{c}'
}

fn is_ws(c: char) -> (r: bool)
    ensures
        r == is_ws_char(c),
{
    c == ' ' || c == '\t' || c == '\n' || c == '\r' || c == '\u{b}' || c == '\u{c}'
}

/// Scans the inside of a parenthesized label from position `j`, the label
/// read so far being `label`; on the closing parenthesis the unraveling
/// continues behind it.
pub open spec fn spec_scan_paren(
    s: Seq<char>,
    j: int,
    label: Seq<char>,
    acc: Seq<Seq<char>>,
) -> Result<Seq<Seq<char>>, ParseError>
    decreases s.len() - j, 0int,
{
    if j < 0 || j >= s.len() {
        Err(ParseError::MissingCloseParen)
    } else if s[j] == ')' {
        if label.len() == 0 {
            Err(ParseError::EmptyLabel)
        } else {
            spec_unravel_from(s, j + 1, acc.push(label))
        }
    } else if s[j] == '(' {
        Err(ParseError::UnexpectedOpenParen)
    } else if is_ws_char(s[j]) {
        Err(ParseError::UnexpectedWhitespace(s[j]))
    } else {
        spec_scan_paren(s, j + 1, label.push(s[j]), acc)
    }
}

/// Unravels a shorthand expression from position `i` on, the labels read so
/// far being `acc`.
pub open spec fn spec_unravel_from(
    s: Seq<char>,
    i: int,
    acc: Seq<Seq<char>>,
) -> Result<Seq<Seq<char>>, ParseError>
    decreases s.len() - i, 1int,
{
    if i < 0 || i >= s.len() {
        Ok(acc)
    } else if s[i] == '(' {
        spec_scan_paren(s, i + 1, Seq::empty(), acc)
    } else if s[i] == ')' {
        Err(ParseError::UnexpectedCloseParen)
    } else if is_ws_char(s[i]) {
        Err(ParseError::UnexpectedWhitespace(s[i]))
    } else {
        spec_unravel_from(s, i + 1, acc.push(seq![s[i]]))
    }
}

/// The labels denoted by one shorthand expression.
pub open spec fn spec_unravel(s: Seq<char>) -> Result<Seq<Seq<char>>, ParseError> {
    spec_unravel_from(s, 0, Seq::empty())
}

/// Reads the parenthesized label that starts at `start`; `Ok` carries the
/// label and the position behind the closing parenthesis.
fn scan_paren(s: &str, start: usize, Ghost(acc): Ghost<Seq<Seq<char>>>) -> (r: Result<
    (Label, usize),
    ParseError,
>)
    requires
        start <= s@.len(),
    ensures
        match r {
            Ok(p) => start < p.1 <= s@.len() && p.0@.len() > 0 && spec_scan_paren(
                s@,
                start as int,
                Seq::empty(),
                acc,
            ) == spec_unravel_from(s@, p.1 as int, acc.push(p.0@)),
            Err(e) => spec_scan_paren(s@, start as int, Seq::empty(), acc) == Err::<
                Seq<Seq<char>>,
                ParseError,
            >(e),
        },
{
    let n = s.unicode_len();
    let mut j = start;
    proof {
        assert(s@.subrange(start as int, start as int) =~= Seq::<char>::empty());
    }
    while j < n
        invariant
            start <= j <= n,
            n == s@.len(),
            spec_scan_paren(s@, start as int, Seq::empty(), acc) == spec_scan_paren(
                s@,
                j as int,
                s@.subrange(start as int, j as int),
                acc,
            ),
        decreases n - j,
    {
        let c = s.get_char(j);
        if c == ')' {
            if j == start {
                return Err(ParseError::EmptyLabel);
            }
            let label = s.substring_char(start, j).to_owned();
            return Ok((label, j + 1));
        } else if c == '(' {
            return Err(ParseError::UnexpectedOpenParen);
        } else if is_ws(c) {
            return Err(ParseError::UnexpectedWhitespace(c));
        }
        j = j + 1;
        proof {
            assert(s@.subrange(start as int, j as int) =~= s@.subrange(start as int, j - 1).push(
                s@[j - 1],
            ));
        }
    }
    Err(ParseError::MissingCloseParen)
}

/// Unravels one shorthand expression into the labels it denotes: each
/// character a label of its own, a parenthesized run one label.
pub fn unravel_shorthand(s: &str) -> (r: Result<Vec<Label>, ParseError>)
    ensures
        match r {
            Ok(v) => spec_unravel(s@) == Ok::<Seq<Seq<char>>, ParseError>(v.deep_view()),
            Err(e) => spec_unravel(s@) == Err::<Seq<Seq<char>>, ParseError>(e),
        },
{
    let n = s.unicode_len();
    let mut acc: Vec<Label> = Vec::new();
    let mut i: usize = 0;
    proof {
        assert(acc.deep_view() =~= Seq::<Seq<char>>::empty());
    }
    while i < n
        invariant
            0 <= i <= n,
            n == s@.len(),
            spec_unravel(s@) == spec_unravel_from(s@, i as int, acc.deep_view()),
        decreases n - i,
    {
        let c = s.get_char(i);
        if c == '(' {
            match scan_paren(s, i + 1, Ghost(acc.deep_view())) {
                Ok(p) => {
                    let (label, next) = p;
                    push_label(&mut acc, label);
                    i = next;
                },
                Err(e) => {
                    return Err(e);
                },
            }
        } else if c == ')' {
            return Err(ParseError::UnexpectedCloseParen);
        } else if is_ws(c) {
            return Err(ParseError::UnexpectedWhitespace(c));
        } else {
            let label = s.substring_char(i, i + 1).to_owned();
            proof {
                assert(label@ =~= seq![s@[i as int]]);
            }
            push_label(&mut acc, label);
            i = i + 1;
        }
    }
    Ok(acc)
}

/// The first position at or after `i` that holds a non-whitespace character,
/// or `s.len()`.
pub open spec fn first_non_ws(s: Seq<char>, i: int) -> int
    decreases s.len() - i,
{
    if i < 0 || i >= s.len() {
        s.len() as int
    } else if !is_ws_char(s[i]) {
        i
    } else {
        first_non_ws(s, i + 1)
    }
}

/// The last position at or before `i` that holds a non-whitespace character,
/// or `-1`.
pub open spec fn last_non_ws(s: Seq<char>, i: int) -> int
    decreases i + 1,
{
    if i < 0 || i >= s.len() {
        -1
    } else if !is_ws_char(s[i]) {
        i
    } else {
        last_non_ws(s, i - 1)
    }
}

/// Collects the space-separated tokens of `s` between `i` and `hi`, the token
/// read so far being `cur`.
pub open spec fn spec_tokens_from(
    s: Seq<char>,
    i: int,
    hi: int,
    cur: Seq<char>,
    acc: Seq<Seq<char>>,
) -> Seq<Seq<char>>
    decreases hi - i,
{
    if i < 0 || i >= hi || hi > s.len() {
        if cur.len() == 0 {
            acc
        } else {
            acc.push(cur)
        }
    } else if s[i] == ' ' {
        if cur.len() == 0 {
            spec_tokens_from(s, i + 1, hi, Seq::empty(), acc)
        } else {
            spec_tokens_from(s, i + 1, hi, Seq::empty(), acc.push(cur))
        }
    } else {
        spec_tokens_from(s, i + 1, hi, cur.push(s[i]), acc)
    }
}

/// The row denoted by one line: its space-separated tokens, with whitespace
/// trimmed at both ends.
pub open spec fn spec_line_row(line: Seq<char>) -> Seq<Seq<char>> {
    let lo = first_non_ws(line, 0);
    let hi = last_non_ws(line, line.len() - 1);
    if lo > hi {
        Seq::empty()
    } else {
        spec_tokens_from(line, lo, hi + 1, Seq::empty(), Seq::empty())
    }
}

/// `first_non_ws` stays within bounds and lands on a non-whitespace character.
proof fn lemma_first_non_ws(s: Seq<char>, i: int)
    requires
        0 <= i <= s.len(),
    ensures
        i <= first_non_ws(s, i) <= s.len(),
        first_non_ws(s, i) < s.len() ==> !is_ws_char(s[first_non_ws(s, i)]),
    decreases s.len() - i,
{
    if i < s.len() && is_ws_char(s[i]) {
        lemma_first_non_ws(s, i + 1);
    }
}

/// `last_non_ws` stays within bounds and lands on a non-whitespace character.
proof fn lemma_last_non_ws(s: Seq<char>, i: int)
    requires
        -1 <= i < s.len(),
    ensures
        -1 <= last_non_ws(s, i) <= i,
        last_non_ws(s, i) >= 0 ==> !is_ws_char(s[last_non_ws(s, i)]),
    decreases i + 1,
{
    if 0 <= i && is_ws_char(s[i]) {
        lemma_last_non_ws(s, i - 1);
    }
}

/// The first non-whitespace position of `line`, or its length.
fn find_first_non_ws(line: &str) -> (lo: usize)
    ensures
        lo as int == first_non_ws(line@, 0),
        lo <= line@.len(),
{
    let n = line.unicode_len();
    let mut lo: usize = 0;
    while lo < n
        invariant
            0 <= lo <= n,
            n == line@.len(),
            first_non_ws(line@, 0) == first_non_ws(line@, lo as int),
        decreases n - lo,
    {
        if !is_ws(line.get_char(lo)) {
            return lo;
        }
        lo = lo + 1;
    }
    lo
}

/// One past the last non-whitespace position of `line`, or `0`.
fn find_end_non_ws(line: &str) -> (he: usize)
    ensures
        he as int == last_non_ws(line@, line@.len() - 1) + 1,
        he <= line@.len(),
{
    let n = line.unicode_len();
    let mut hi: usize = n;
    while hi > 0
        invariant
            0 <= hi <= n,
            n == line@.len(),
            last_non_ws(line@, n - 1) == last_non_ws(line@, hi - 1),
        decreases hi,
    {
        if !is_ws(line.get_char(hi - 1)) {
            return hi;
        }
        hi = hi - 1;
    }
    hi
}

/// The tokens of one line, whitespace trimmed at the ends.
fn line_row(line: &str) -> (r: Vec<Label>)
    ensures
        r.deep_view() == spec_line_row(line@),
{
    let n = line.unicode_len();
    let lo = find_first_non_ws(line);
    let he = find_end_non_ws(line);
    if lo >= he {
        proof {
            assert(lo as int > last_non_ws(line@, line@.len() - 1));
            assert(Seq::<Seq<char>>::empty() =~= spec_line_row(line@));
        }
        let r: Vec<Label> = Vec::new();
        proof {
            assert(r.deep_view() =~= Seq::<Seq<char>>::empty());
        }
        return r;
    }
    let hi: usize = he - 1;
    proof {
        assert(hi as int == last_non_ws(line@, line@.len() - 1));
        lemma_first_non_ws(line@, 0);
        lemma_last_non_ws(line@, line@.len() - 1);
    }
    let mut acc: Vec<Label> = Vec::new();
    let mut ts = lo;
    let mut j = lo;
    proof {
        assert(acc.deep_view() =~= Seq::<Seq<char>>::empty());
        assert(line@.subrange(lo as int, lo as int) =~= Seq::<char>::empty());
    }
    while j <= hi
        invariant
            lo <= ts <= j <= hi + 1,
            hi < n,
            n == line@.len(),
            spec_line_row(line@) == spec_tokens_from(
                line@,
                j as int,
                hi + 1,
                line@.subrange(ts as int, j as int),
                acc.deep_view(),
            ),
        decreases hi + 1 - j,
    {
        let c = line.get_char(j);
        if c == ' ' {
            if ts < j {
                let tok = line.substring_char(ts, j).to_owned();
                push_label(&mut acc, tok);
            } else {
                proof {
                    assert(line@.subrange(ts as int, j as int) =~= Seq::<char>::empty());
                }
            }
            ts = j + 1;
            proof {
                assert(line@.subrange(ts as int, ts as int) =~= Seq::<char>::empty());
            }
        } else {
            proof {
                assert(line@.subrange(ts as int, j + 1) =~= line@.subrange(ts as int, j as int).push(
                    line@[j as int],
                ));
            }
        }
        j = j + 1;
    }
    if ts <= hi {
        let tok = line.substring_char(ts, hi + 1).to_owned();
        push_label(&mut acc, tok);
    } else {
        proof {
            assert(line@.subrange(ts as int, ts as int) =~= Seq::<char>::empty());
        }
    }
    acc
}

/// Splits the input into rows, one line at a time; a line without tokens
/// contributes no row.
pub open spec fn spec_rows_from(
    s: Seq<char>,
    i: int,
    ls: int,
    acc: Seq<Seq<Seq<char>>>,
) -> Seq<Seq<Seq<char>>>
    decreases s.len() - i,
{
    if i < 0 || i >= s.len() {
        let row = spec_line_row(s.subrange(ls, s.len() as int));
        if row.len() == 0 {
            acc
        } else {
            acc.push(row)
        }
    } else if s[i] == '\n' {
        let row = spec_line_row(s.subrange(ls, i));
        spec_rows_from(
            s,
            i + 1,
            i + 1,
            if row.len() == 0 {
                acc
            } else {
                acc.push(row)
            },
        )
    } else {
        spec_rows_from(s, i + 1, ls, acc)
    }
}

/// The rows of the whole input.
pub open spec fn spec_rows(s: Seq<char>) -> Seq<Seq<Seq<char>>> {
    spec_rows_from(s, 0, 0, Seq::empty())
}

/// The common row length, or the error naming the first row that differs from
/// the first row.
pub open spec fn spec_len_check_from(rows: Seq<Seq<Seq<char>>>, i: int) -> Result<int, ParseError>
    decreases rows.len() - i,
{
    if i < 1 || i >= rows.len() {
        Ok(rows[0].len() as int)
    } else if rows[i].len() != rows[0].len() {
        Err(
            ParseError::MismatchedRowLengths {
                expected: rows[0].len() as usize,
                found: rows[i].len() as usize,
            },
        )
    } else {
        spec_len_check_from(rows, i + 1)
    }
}

/// Validates that every row has the first row's length.
pub open spec fn spec_len_check(rows: Seq<Seq<Seq<char>>>) -> Result<int, ParseError> {
    if rows.len() == 0 {
        Err(ParseError::NoRows)
    } else {
        spec_len_check_from(rows, 1)
    }
}

/// One row expanded at slot `i`: one copy of the row for each label that the
/// shorthand expression in that slot denotes.
pub open spec fn spec_expand_row_at(row: Seq<Seq<char>>, i: int) -> Result<
    Seq<Seq<Seq<char>>>,
    ParseError,
> {
    if !(0 <= i < row.len()) {
        Err(ParseError::IndexOutOfRange)
    } else {
        match spec_unravel(row[i]) {
            Ok(labels) => Ok(subst_slot(row, i, labels)),
            Err(e) => Err(e),
        }
    }
}

/// Every row expanded at slot `i`, keeping row order; the first failing row
/// decides the error.
pub open spec fn spec_expand_step(rows: Seq<Seq<Seq<char>>>, i: int) -> Result<
    Seq<Seq<Seq<char>>>,
    ParseError,
>
    decreases rows.len(),
{
    if rows.len() == 0 {
        Ok(Seq::empty())
    } else {
        match spec_expand_step(rows.drop_last(), i) {
            Err(e) => Err(e),
            Ok(pre) => match spec_expand_row_at(rows.last(), i) {
                Err(e) => Err(e),
                Ok(ex) => Ok(pre + ex),
            },
        }
    }
}

/// The rows expanded at every slot from `i` up to `len`.
pub open spec fn spec_expand_all(rows: Seq<Seq<Seq<char>>>, i: int, len: int) -> Result<
    Seq<Seq<Seq<char>>>,
    ParseError,
>
    decreases len - i,
{
    if i >= len {
        Ok(rows)
    } else {
        match spec_expand_step(rows, i) {
            Err(e) => Err(e),
            Ok(next) => spec_expand_all(next, i + 1, len),
        }
    }
}

/// The parse of a whole configuration file: its rows, the uniform-length
/// validation, and the exhaustive expansion of every shorthand slot.
pub open spec fn spec_parse(s: Seq<char>) -> Result<Seq<Seq<Seq<char>>>, ParseError> {
    let rows = spec_rows(s);
    match spec_len_check(rows) {
        Err(e) => Err(e),
        Ok(len) => spec_expand_all(rows, 0, len),
    }
}

/// Expands the shorthand expression in slot `index` of `row` into one row per
/// denoted label.
pub fn expand_at_index(row: &Vec<Label>, index: usize) -> (r: Result<Vec<Vec<Label>>, ParseError>)
    ensures
        match r {
            Ok(v) => spec_expand_row_at(row.deep_view(), index as int) == Ok::<
                Seq<Seq<Seq<char>>>,
                ParseError,
            >(v.deep_view()),
            Err(e) => spec_expand_row_at(row.deep_view(), index as int) == Err::<
                Seq<Seq<Seq<char>>>,
                ParseError,
            >(e),
        },
{
    if index >= row.len() {
        return Err(ParseError::IndexOutOfRange);
    }
    let expression = &row[index];
    proof {
        assert(expression@ == row.deep_view()[index as int]);
    }
    match unravel_shorthand(expression.as_str()) {
        Err(e) => Err(e),
        Ok(labels) => Ok(subst_slot_exec(row, index, &labels)),
    }
}

/// An error at row `q`, with every earlier row expanding cleanly, decides the
/// whole step.
proof fn lemma_expand_step_err(rows: Seq<Seq<Seq<char>>>, i: int, q: int, e: ParseError)
    requires
        0 <= q < rows.len(),
        spec_expand_step(rows.take(q), i) is Ok,
        spec_expand_row_at(rows[q], i) == Err::<Seq<Seq<Seq<char>>>, ParseError>(e),
    ensures
        spec_expand_step(rows, i) == Err::<Seq<Seq<Seq<char>>>, ParseError>(e),
    decreases rows.len(),
{
    if q == rows.len() - 1 {
        assert(rows.take(q) =~= rows.drop_last());
    } else {
        assert(rows.drop_last().take(q) =~= rows.take(q));
        assert(rows.drop_last()[q] == rows[q]);
        lemma_expand_step_err(rows.drop_last(), i, q, e);
    }
}

/// Parses a whole configuration file written in the shorthand grammar.
pub fn parse_input(input: &str) -> (r: Result<Vec<Vec<Label>>, ParseError>)
    ensures
        match r {
            Ok(v) => spec_parse(input@) == Ok::<Seq<Seq<Seq<char>>>, ParseError>(v.deep_view()),
            Err(e) => spec_parse(input@) == Err::<Seq<Seq<Seq<char>>>, ParseError>(e),
        },
{
    let n = input.unicode_len();
    let mut rows: Vec<Vec<Label>> = Vec::new();
    let mut ls: usize = 0;
    let mut i: usize = 0;
    proof {
        assert(rows.deep_view() =~= Seq::<Seq<Seq<char>>>::empty());
    }
    while i < n
        invariant
            0 <= ls <= i <= n,
            n == input@.len(),
            spec_rows(input@) == spec_rows_from(input@, i as int, ls as int, rows.deep_view()),
        decreases n - i,
    {
        let c = input.get_char(i);
        if c == '\n' {
            let line = input.substring_char(ls, i);
            let row = line_row(line);
            if row.len() > 0 {
                push_cfg(&mut rows, row);
            }
            ls = i + 1;
        }
        i = i + 1;
    }
    let line = input.substring_char(ls, n);
    let row = line_row(line);
    if row.len() > 0 {
        push_cfg(&mut rows, row);
    }
    let ghost rows0 = rows.deep_view();
    proof {
        assert(spec_rows(input@) == rows0);
    }

    if rows.len() == 0 {
        return Err(ParseError::NoRows);
    }
    let expected = rows[0].len();
    proof {
        assert(rows.deep_view()[0].len() == rows@[0].deep_view().len());
    }
    let mut q: usize = 1;
    while q < rows.len()
        invariant
            1 <= q <= rows@.len(),
            rows@.len() > 0,
            rows0 == rows.deep_view(),
            spec_rows(input@) == rows0,
            expected == rows0[0].len(),
            expected == rows@[0]@.len(),
            spec_len_check_from(rows0, 1) == spec_len_check_from(rows0, q as int),
        decreases rows@.len() - q,
    {
        if rows[q].len() != expected {
            let found = rows[q].len();
            proof {
                assert(rows0[q as int].len() == rows@[q as int].deep_view().len());
                assert(rows0[q as int].len() != rows0[0].len());
                assert(spec_len_check_from(rows0, q as int) == Err::<int, ParseError>(
                    ParseError::MismatchedRowLengths { expected, found },
                ));
                assert(spec_len_check(rows0) == Err::<int, ParseError>(
                    ParseError::MismatchedRowLengths { expected, found },
                ));
            }
            return Err(ParseError::MismatchedRowLengths { expected, found });
        }
        proof {
            assert(rows0[q as int].len() == rows@[q as int].deep_view().len());
        }
        q = q + 1;
    }
    proof {
        assert(spec_len_check(rows0) == Ok::<int, ParseError>(expected as int));
    }

    let mut cur = rows;
    let mut idx: usize = 0;
    while idx < expected
        invariant
            0 <= idx <= expected,
            spec_rows(input@) == rows0,
            spec_len_check(rows0) == Ok::<int, ParseError>(expected as int),
            spec_expand_all(rows0, 0, expected as int) == spec_expand_all(
                cur.deep_view(),
                idx as int,
                expected as int,
            ),
        decreases expected - idx,
    {
        let ghost curd = cur.deep_view();
        let mut next: Vec<Vec<Label>> = Vec::new();
        proof {
            assert(next.deep_view() =~= Seq::<Seq<Seq<char>>>::empty());
            assert(curd.take(0) =~= Seq::<Seq<Seq<char>>>::empty());
        }
        let mut w: usize = 0;
        while w < cur.len()
            invariant
                0 <= w <= cur@.len(),
                idx < expected,
                curd == cur.deep_view(),
                spec_rows(input@) == rows0,
                spec_len_check(rows0) == Ok::<int, ParseError>(expected as int),
                spec_expand_all(rows0, 0, expected as int) == spec_expand_all(
                    curd,
                    idx as int,
                    expected as int,
                ),
                spec_expand_step(curd.take(w as int), idx as int) == Ok::<
                    Seq<Seq<Seq<char>>>,
                    ParseError,
                >(next.deep_view()),
            decreases cur@.len() - w,
        {
            proof {
                assert(cur@[w as int].deep_view() == curd[w as int]);
            }
            match expand_at_index(&cur[w], idx) {
                Err(e) => {
                    proof {
                        lemma_expand_step_err(curd, idx as int, w as int, e);
                    }
                    return Err(e);
                },
                Ok(ex) => {
                    append_cfgs(&mut next, ex);
                    proof {
                        assert(curd.take(w + 1).drop_last() =~= curd.take(w as int));
                        assert(curd.take(w + 1).last() == curd[w as int]);
                    }
                },
            }
            w = w + 1;
        }
        proof {
            assert(curd.take(curd.len() as int) =~= curd);
        }
        cur = next;
        idx = idx + 1;
    }
    Ok(cur)
}

/// Lexicographic comparison of configurations from position `i` on: the first
/// differing label decides, a shorter configuration precedes its extensions.
pub open spec fn cfg_leq_from(a: Seq<Seq<char>>, b: Seq<Seq<char>>, i: int) -> bool
    decreases a.len() - i,
{
    if i >= a.len() {
        true
    } else if i >= b.len() {
        false
    } else if a[i] != b[i] {
        lex_leq(a[i], b[i])
    } else {
        cfg_leq_from(a, b, i + 1)
    }
}

/// `a` comes before `b` (or equals it) in lexicographic configuration order.
pub open spec fn cfg_leq(a: Seq<Seq<char>>, b: Seq<Seq<char>>) -> bool {
    cfg_leq_from(a, b, 0)
}

/// Comparing two configurations decides `cfg_leq` on their deep views.
fn cfg_le(a: &Vec<Label>, b: &Vec<Label>) -> (r: bool)
    ensures
        r == cfg_leq(a.deep_view(), b.deep_view()),
{
    let mut i: usize = 0;
    loop
        invariant
            0 <= i <= a@.len(),
            cfg_leq(a.deep_view(), b.deep_view()) == cfg_leq_from(
                a.deep_view(),
                b.deep_view(),
                i as int,
            ),
        decreases a@.len() - i,
    {
        if i >= a.len() {
            return true;
        }
        if i >= b.len() {
            proof {
                assert(b.deep_view().len() == b@.len());
            }
            return false;
        }
        proof {
            assert(a.deep_view()[i as int] == a@[i as int]@);
            assert(b.deep_view()[i as int] == b@[i as int]@);
        }
        if !label_eq(&a[i], &b[i]) {
            return label_le(&a[i], &b[i]);
        }
        i = i + 1;
    }
}

/// A configuration inserted into the sorted list `s`, before the first entry
/// that does not precede it.
pub open spec fn insert_cfg_sorted(s: Seq<Seq<Seq<char>>>, x: Seq<Seq<char>>) -> Seq<Seq<Seq<char>>>
    decreases s.len(),
{
    if s.len() == 0 {
        seq![x]
    } else if cfg_leq(x, s[0]) {
        seq![x] + s
    } else {
        seq![s[0]] + insert_cfg_sorted(s.drop_first(), x)
    }
}

/// Sorting the rows, defined by insertion from the left.
pub open spec fn sort_cfgs_spec(rows: Seq<Seq<Seq<char>>>) -> Seq<Seq<Seq<char>>>
    decreases rows.len(),
{
    if rows.len() == 0 {
        Seq::empty()
    } else {
        insert_cfg_sorted(sort_cfgs_spec(rows.drop_last()), rows.last())
    }
}

/// Inserting at the first position whose entry does not precede `x` realizes
/// `insert_cfg_sorted`.
proof fn lemma_insert_cfg_at(s: Seq<Seq<Seq<char>>>, x: Seq<Seq<char>>, k: int)
    requires
        0 <= k <= s.len(),
        forall|j: int| 0 <= j < k ==> !cfg_leq(x, s[j]),
        k < s.len() ==> cfg_leq(x, s[k]),
    ensures
        insert_cfg_sorted(s, x) == s.insert(k, x),
    decreases s.len(),
{
    if s.len() == 0 {
        assert(insert_cfg_sorted(s, x) =~= s.insert(0, x));
    } else if k == 0 {
        assert(insert_cfg_sorted(s, x) =~= s.insert(0, x));
    } else {
        lemma_insert_cfg_at(s.drop_first(), x, k - 1);
        assert(seq![s[0]] + s.drop_first().insert(k - 1, x) =~= s.insert(k, x));
    }
}

/// The first position in `v` whose row does not precede `x`.
fn find_insert_pos_cfg(v: &Vec<Vec<Label>>, x: &Vec<Label>) -> (k: usize)
    ensures
        0 <= k <= v.len(),
        forall|j: int| 0 <= j < k ==> !cfg_leq(x.deep_view(), v.deep_view()[j]),
        k < v.len() ==> cfg_leq(x.deep_view(), v.deep_view()[k as int]),
{
    let mut k: usize = 0;
    while k < v.len()
        invariant
            0 <= k <= v.len(),
            forall|j: int| 0 <= j < k ==> !cfg_leq(x.deep_view(), v.deep_view()[j]),
        decreases v.len() - k,
    {
        proof {
            assert(v.deep_view()[k as int] == v@[k as int].deep_view());
        }
        if cfg_le(x, &v[k]) {
            return k;
        }
        k = k + 1;
    }
    k
}

/// Inserts `x` into the sorted row list `v`, keeping it sorted.
fn insert_cfg(v: &mut Vec<Vec<Label>>, x: Vec<Label>)
    ensures
        final(v).deep_view() == insert_cfg_sorted(old(v).deep_view(), x.deep_view()),
{
    let k = find_insert_pos_cfg(v, &x);
    proof {
        lemma_insert_cfg_at(v.deep_view(), x.deep_view(), k as int);
    }
    let ghost dv = v.deep_view();
    let ghost xv = x.deep_view();
    let ghost pre = v@;
    v.insert(k, x);
    proof {
        assert forall|q: int| 0 <= q < v@.len() implies (#[trigger] v@[q]).deep_view() == dv.insert(
            k as int,
            xv,
        )[q] by {
            if q < k {
                assert(v@[q] == pre[q]);
            } else if q > k {
                assert(v@[q] == pre[q - 1]);
            }
        }
        assert(v.deep_view() =~= dv.insert(k as int, xv));
    }
}

/// Sorts the rows into lexicographic order.
fn sort_cfgs(rows: &Vec<Vec<Label>>) -> (r: Vec<Vec<Label>>)
    ensures
        r.deep_view() == sort_cfgs_spec(rows.deep_view()),
{
    let mut r: Vec<Vec<Label>> = Vec::new();
    let mut i: usize = 0;
    proof {
        assert(r.deep_view() =~= Seq::<Seq<Seq<char>>>::empty());
    }
    while i < rows.len()
        invariant
            0 <= i <= rows.len(),
            r.deep_view() == sort_cfgs_spec(rows.deep_view().take(i as int)),
        decreases rows.len() - i,
    {
        insert_cfg(&mut r, clone_cfg(&rows[i]));
        proof {
            let dv = rows.deep_view();
            assert(dv.take(i + 1).drop_last() =~= dv.take(i as int));
            assert(dv.take(i + 1).last() == dv[i as int]);
            assert(dv[i as int] == rows@[i as int].deep_view());
        }
        i = i + 1;
    }
    proof {
        assert(rows.deep_view().take(rows.deep_view().len() as int) =~= rows.deep_view());
    }
    r
}

/// Adjacent duplicates dropped: each row is kept only when it differs from
/// the last row kept.
pub open spec fn dedup_spec(rows: Seq<Seq<Seq<char>>>) -> Seq<Seq<Seq<char>>>
    decreases rows.len(),
{
    if rows.len() == 0 {
        Seq::empty()
    } else {
        let pre = dedup_spec(rows.drop_last());
        if pre.len() > 0 && pre.last() == rows.last() {
            pre
        } else {
            pre.push(rows.last())
        }
    }
}

/// Drops adjacent duplicate rows.
fn dedup_cfgs(rows: &Vec<Vec<Label>>) -> (r: Vec<Vec<Label>>)
    ensures
        r.deep_view() == dedup_spec(rows.deep_view()),
{
    let mut r: Vec<Vec<Label>> = Vec::new();
    let mut i: usize = 0;
    proof {
        assert(r.deep_view() =~= Seq::<Seq<Seq<char>>>::empty());
    }
    while i < rows.len()
        invariant
            0 <= i <= rows.len(),
            r.deep_view() == dedup_spec(rows.deep_view().take(i as int)),
        decreases rows.len() - i,
    {
        let ghost dv = rows.deep_view();
        proof {
            assert(dv.take(i + 1).drop_last() =~= dv.take(i as int));
            assert(dv.take(i + 1).last() == dv[i as int]);
            assert(dv[i as int] == rows@[i as int].deep_view());
        }
        let rlen = r.len();
        if rlen > 0 && cfg_eq(&r[rlen - 1], &rows[i]) {
            proof {
                assert(r.deep_view().last() == r@[rlen - 1].deep_view());
            }
        } else {
            proof {
                if rlen > 0 {
                    assert(r.deep_view().last() == r@[rlen - 1].deep_view());
                }
            }
            push_cfg(&mut r, clone_cfg(&rows[i]));
        }
        i = i + 1;
    }
    proof {
        assert(rows.deep_view().take(rows.deep_view().len() as int) =~= rows.deep_view());
    }
    r
}

/// The normal form of a parsed collection: each row's labels sorted, the rows
/// sorted, duplicates dropped.
pub open spec fn spec_simplify(rows: Seq<Seq<Seq<char>>>) -> Seq<Seq<Seq<char>>> {
    dedup_spec(sort_cfgs_spec(sort_all(rows)))
}

/// Normalizes parsed rows: sorts each row's labels, sorts the rows, and drops
/// duplicate rows.
pub fn simplify_parsed_input(parsed_input: Vec<Vec<Label>>) -> (r: Vec<Vec<Label>>)
    ensures
        r.deep_view() == spec_simplify(parsed_input.deep_view()),
{
    let canonical = sort_all_exec(&parsed_input);
    let sorted = sort_cfgs(&canonical);
    dedup_cfgs(&sorted)
}

} // verus!
