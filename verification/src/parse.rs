//! The stored text format: one line per day, a date followed by block
//! tokens, a `Total:` marker and an optional free-text comment. Parsing is
//! total: malformed input comes back as an error, never a crash.

use vstd::prelude::*;

use crate::PunchError;
use crate::block::Block;
use crate::date::Date;
use crate::day::Day;
use crate::month::DayView;
use crate::month::Month;
use crate::month::day_views;
use crate::month::dedup_by_date;

verus! {

pub open spec fn is_space(c: char) -> bool {
    c == ' ' || c == '\t' || c == '\r' || c == '\n'
}

pub open spec fn is_digit(c: char) -> bool {
    '0' <= c && c <= '9'
}

pub open spec fn digit_val(c: char) -> int {
    c as int - '0' as int
}

/// The number a digit string denotes.
pub open spec fn digits_val(s: Seq<char>) -> int
    decreases s.len(),
{
    if s.len() == 0 {
        0
    } else {
        digits_val(s.drop_last()) * 10 + digit_val(s.last())
    }
}

pub open spec fn all_digits(s: Seq<char>) -> bool {
    s.len() > 0 && forall|i: int| 0 <= i < s.len() ==> is_digit(#[trigger] s[i])
}

/// Whitespace tokenization, folded from the left: finished tokens and the
/// run still open.
pub open spec fn tok_state(s: Seq<char>) -> (Seq<Seq<char>>, Seq<char>)
    decreases s.len(),
{
    if s.len() == 0 {
        (Seq::empty(), Seq::empty())
    } else {
        let p = tok_state(s.drop_last());
        let c = s.last();
        if is_space(c) {
            if p.1.len() == 0 {
                p
            } else {
                (p.0.push(p.1), Seq::empty())
            }
        } else {
            (p.0, p.1.push(c))
        }
    }
}

/// The whitespace-separated tokens of a string.
pub open spec fn tokens_of(s: Seq<char>) -> Seq<Seq<char>> {
    let p = tok_state(s);
    if p.1.len() == 0 {
        p.0
    } else {
        p.0.push(p.1)
    }
}

/// Separator split, folded from the left; empty parts are kept.
pub open spec fn split_state(s: Seq<char>, sep: char) -> (Seq<Seq<char>>, Seq<char>)
    decreases s.len(),
{
    if s.len() == 0 {
        (Seq::empty(), Seq::empty())
    } else {
        let p = split_state(s.drop_last(), sep);
        let c = s.last();
        if c == sep {
            (p.0.push(p.1), Seq::empty())
        } else {
            (p.0, p.1.push(c))
        }
    }
}

/// The parts of a string around a separator, as the separator split keeps
/// them: one more part than separators, empty parts included.
pub open spec fn split_of(s: Seq<char>, sep: char) -> Seq<Seq<char>> {
    let p = split_state(s, sep);
    p.0.push(p.1)
}

pub open spec fn trim_front(s: Seq<char>) -> Seq<char>
    decreases s.len(),
{
    if s.len() > 0 && is_space(s[0]) {
        trim_front(s.drop_first())
    } else {
        s
    }
}

pub open spec fn trim_back(s: Seq<char>) -> Seq<char>
    decreases s.len(),
{
    if s.len() > 0 && is_space(s.last()) {
        trim_back(s.drop_last())
    } else {
        s
    }
}

pub open spec fn trimmed(s: Seq<char>) -> Seq<char> {
    trim_back(trim_front(s))
}

/// A number token: digits only, small enough for the machine word.
pub open spec fn spec_parse_u32(s: Seq<char>) -> Result<u32, PunchError> {
    if all_digits(s) && digits_val(s) <= u32::MAX {
        Ok(digits_val(s) as u32)
    } else {
        Err(PunchError::UnparseableToken)
    }
}

/// An `H:M` token: the numbers before the first and second colon. Text
/// after a second colon is ignored, as lenient clock readers do.
pub open spec fn spec_parse_hm(s: Seq<char>) -> Result<(u32, u32), PunchError> {
    let parts = split_of(s, ':');
    if parts.len() < 2 {
        Err(PunchError::UnparseableToken)
    } else {
        match spec_parse_u32(parts[0]) {
            Err(e) => Err(e),
            Ok(h) => match spec_parse_u32(parts[1]) {
                Err(e) => Err(e),
                Ok(m) => Ok((h, m)),
            },
        }
    }
}

/// A block token `H:M-H:M`: both times must exist, lie on the clock, and
/// not end before they start.
pub open spec fn spec_parse_block(s: Seq<char>) -> Result<Block, PunchError> {
    let parts = split_of(s, '-');
    if parts.len() < 2 {
        Err(PunchError::UnparseableToken)
    } else {
        match spec_parse_hm(parts[0]) {
            Err(e) => Err(e),
            Ok((h1, m1)) => match spec_parse_hm(parts[1]) {
                Err(e) => Err(e),
                Ok((h2, m2)) => if h1 > 23 || m1 > 59 || h2 > 23 || m2 > 59 {
                    Err(PunchError::InvalidCalendarValue)
                } else if h1 * 60 + m1 <= h2 * 60 + m2 {
                    Ok(Block { from: (h1 * 60 + m1) as u32, to: (h2 * 60 + m2) as u32 })
                } else {
                    Err(PunchError::InvalidRange)
                },
            },
        }
    }
}

/// A date token `D.M.YY`: three short digit groups; two-digit years up to
/// 68 fall in the 2000s, later ones in the 1900s.
pub open spec fn spec_parse_date(s: Seq<char>) -> Result<Date, PunchError> {
    let parts = split_of(s, '.');
    if !(parts.len() == 3 && all_digits(parts[0]) && parts[0].len() <= 2 && all_digits(parts[1])
        && parts[1].len() <= 2 && all_digits(parts[2]) && parts[2].len() <= 2) {
        Err(PunchError::UnparseableToken)
    } else {
        let yy = digits_val(parts[2]);
        let date = Date {
            year: (if yy <= 68 {
                2000 + yy
            } else {
                1900 + yy
            }) as i32,
            month: digits_val(parts[1]) as u32,
            day: digits_val(parts[0]) as u32,
        };
        if date.wf() {
            Ok(date)
        } else {
            Err(PunchError::InvalidCalendarValue)
        }
    }
}

/// Where the total marker first occurs at or after `i`, or -1.
pub open spec fn find_marker(s: Seq<char>, i: int) -> int
    decreases s.len() - i,
{
    if i < 0 || i + 6 > s.len() {
        -1
    } else if s.subrange(i, i + 6) == "Total:"@ {
        i
    } else {
        find_marker(s, i + 1)
    }
}

pub open spec fn starts_with_total(t: Seq<char>) -> bool {
    t.len() >= 6 && t.subrange(0, 6) == "Total:"@
}

/// The comment tokens joined by single spaces.
pub open spec fn join_spaced(ts: Seq<Seq<char>>) -> Seq<char>
    decreases ts.len(),
{
    if ts.len() == 0 {
        Seq::empty()
    } else if ts.len() == 1 {
        ts[0]
    } else {
        join_spaced(ts.drop_last()) + seq![' '] + ts.last()
    }
}

/// The comment of a line: the tokens between the first total marker and
/// the next one (or the end), minus the leading total figure. A line
/// without the marker has no comment to read.
pub open spec fn spec_parse_comment(line: Seq<char>) -> Result<Option<Seq<char>>, PunchError> {
    let i = find_marker(line, 0);
    if i < 0 {
        Err(PunchError::UnparseableToken)
    } else {
        let j = find_marker(line, i + 6);
        let seg = if j < 0 {
            line.skip(i + 6)
        } else {
            line.subrange(i + 6, j)
        };
        let toks = tokens_of(seg);
        if toks.len() <= 1 {
            Ok(None)
        } else {
            Ok(Some(join_spaced(toks.skip(1))))
        }
    }
}

/// Where the block tokens of a day line end: at the first token carrying
/// the total marker, or at the end of the line.
pub open spec fn blocks_end(toks: Seq<Seq<char>>, i: int) -> int
    decreases toks.len() - i,
{
    if i >= toks.len() || starts_with_total(toks[i]) {
        i
    } else {
        blocks_end(toks, i + 1)
    }
}

/// The day line's block tokens, parsed in order up to the total marker.
pub open spec fn spec_parse_blocks(toks: Seq<Seq<char>>, i: int) -> Result<Seq<Block>, PunchError>
    decreases toks.len() - i,
{
    if i >= toks.len() || starts_with_total(toks[i]) {
        Ok(Seq::empty())
    } else {
        match spec_parse_block(toks[i]) {
            Err(e) => Err(e),
            Ok(b) => match spec_parse_blocks(toks, i + 1) {
                Err(e) => Err(e),
                Ok(rest) => Ok(seq![b] + rest),
            },
        }
    }
}

/// One stored day line: the date, then blocks until the total marker, then
/// the comment after the marker if the marker is there.
pub open spec fn spec_parse_day(line: Seq<char>) -> Result<DayView, PunchError> {
    let toks = tokens_of(line);
    if toks.len() == 0 {
        Err(PunchError::UnparseableToken)
    } else {
        match spec_parse_date(toks[0]) {
            Err(e) => Err(e),
            Ok(date) => match spec_parse_blocks(toks, 1) {
                Err(e) => Err(e),
                Ok(bs) => if blocks_end(toks, 1) < toks.len() {
                    match spec_parse_comment(line) {
                        Err(e) => Err(e),
                        Ok(c) => Ok(DayView { date, blocks: bs, comment: c }),
                    }
                } else {
                    Ok(DayView { date, blocks: bs, comment: None })
                },
            },
        }
    }
}

/// The day lines of a stored month: every line after the heading that is
/// neither blank nor the month's own total line.
pub open spec fn spec_parse_lines(lines: Seq<Seq<char>>, i: int) -> Result<
    Seq<DayView>,
    PunchError,
>
    decreases lines.len() - i,
{
    if i >= lines.len() {
        Ok(Seq::empty())
    } else {
        let lt = trimmed(lines[i]);
        if lt.len() == 0 || starts_with_total(lt) {
            spec_parse_lines(lines, i + 1)
        } else {
            match spec_parse_day(lt) {
                Err(e) => Err(e),
                Ok(v) => match spec_parse_lines(lines, i + 1) {
                    Err(e) => Err(e),
                    Ok(rest) => Ok(seq![v] + rest),
                },
            }
        }
    }
}

/// A stored month file: a heading line, then day lines.
pub open spec fn spec_parse_month(contents: Seq<char>) -> Result<Seq<DayView>, PunchError> {
    spec_parse_lines(split_of(trimmed(contents), '\n'), 1)
}

/// The strings' views.
pub open spec fn str_views(v: Seq<String>) -> Seq<Seq<char>> {
    Seq::new(v.len(), |i: int| v[i]@)
}

fn is_space_char(c: char) -> (r: bool)
    ensures
        r == is_space(c),
{
    c == ' ' || c == '\t' || c == '\r' || c == '\n'
}

/// The whitespace-separated tokens of a string, each as its own string.
pub fn split_whitespace_tokens(s: &str) -> (r: Vec<String>)
    ensures
        str_views(r@) == tokens_of(s@),
{
    let n = s.unicode_len();
    let mut r: Vec<String> = Vec::new();
    let mut start: usize = 0;
    let mut in_tok = false;
    let mut i: usize = 0;
    while i < n
        invariant
            n == s@.len(),
            i <= n,
            in_tok ==> start < i,
            tok_state(s@.take(i as int)).0 == str_views(r@),
            tok_state(s@.take(i as int)).1 == (if in_tok {
                s@.subrange(start as int, i as int)
            } else {
                Seq::<char>::empty()
            }),
        decreases n - i,
    {
        proof {
            assert(s@.take(i + 1).drop_last() =~= s@.take(i as int));
            assert(s@.take(i + 1).last() == s@[i as int]);
        }
        let c = s.get_char(i);
        if is_space_char(c) {
            if in_tok {
                let t = s.substring_char(start, i);
                r.push(t.to_owned());
                in_tok = false;
                proof {
                    assert(str_views(r@) =~= tok_state(s@.take(i + 1)).0);
                }
            }
        } else {
            if !in_tok {
                start = i;
                in_tok = true;
            }
            proof {
                assert(s@.subrange(start as int, i + 1) =~= tok_state(s@.take(i + 1)).1);
            }
        }
        i += 1;
    }
    proof {
        assert(s@.take(n as int) =~= s@);
    }
    if in_tok {
        let t = s.substring_char(start, n);
        r.push(t.to_owned());
        proof {
            assert(str_views(r@) =~= tokens_of(s@));
        }
    } else {
        proof {
            assert(str_views(r@) =~= tokens_of(s@));
        }
    }
    r
}

/// The parts of a string around a separator character.
pub fn split_on_char(s: &str, sep: char) -> (r: Vec<String>)
    ensures
        str_views(r@) == split_of(s@, sep),
{
    let n = s.unicode_len();
    let mut r: Vec<String> = Vec::new();
    let mut start: usize = 0;
    let mut i: usize = 0;
    while i < n
        invariant
            n == s@.len(),
            i <= n,
            start <= i,
            split_state(s@.take(i as int), sep).0 == str_views(r@),
            split_state(s@.take(i as int), sep).1 == s@.subrange(start as int, i as int),
        decreases n - i,
    {
        proof {
            assert(s@.take(i + 1).drop_last() =~= s@.take(i as int));
            assert(s@.take(i + 1).last() == s@[i as int]);
        }
        let c = s.get_char(i);
        if c == sep {
            let t = s.substring_char(start, i);
            r.push(t.to_owned());
            start = i + 1;
            proof {
                assert(str_views(r@) =~= split_state(s@.take(i + 1), sep).0);
                assert(s@.subrange(start as int, i + 1) =~= split_state(s@.take(i + 1), sep).1);
            }
        } else {
            proof {
                assert(s@.subrange(start as int, i + 1) =~= split_state(s@.take(i + 1), sep).1);
            }
        }
        i += 1;
    }
    proof {
        assert(s@.take(n as int) =~= s@);
    }
    let t = s.substring_char(start, n);
    r.push(t.to_owned());
    proof {
        assert(str_views(r@) =~= split_of(s@, sep));
    }
    r
}

/// Nothing below a digit string's full value is lost by reading on: each
/// digit only grows the number.
proof fn lemma_digits_val_mono(s: Seq<char>, i: int)
    requires
        forall|k: int| 0 <= k < s.len() ==> is_digit(#[trigger] s[k]),
        0 <= i <= s.len(),
    ensures
        0 <= digits_val(s.take(i)) <= digits_val(s),
        digits_val(s.take(s.len() as int)) == digits_val(s),
    decreases s.len() - i,
{
    if i == s.len() {
        assert(s.take(s.len() as int) =~= s);
        lemma_digits_val_nonneg(s);
    } else {
        lemma_digits_val_mono(s, i + 1);
        assert(s.take(i + 1).drop_last() =~= s.take(i));
        lemma_digits_val_nonneg(s.take(i));
        assert(digits_val(s.take(i + 1)) == digits_val(s.take(i)) * 10 + digit_val(s[i]));
        assert(is_digit(s[i]));
    }
}

proof fn lemma_digits_val_nonneg(s: Seq<char>)
    requires
        forall|k: int| 0 <= k < s.len() ==> is_digit(#[trigger] s[k]),
    ensures
        0 <= digits_val(s),
    decreases s.len(),
{
    if s.len() > 0 {
        assert(forall|k: int| 0 <= k < s.len() - 1 ==> s.drop_last()[k] == s[k]);
        lemma_digits_val_nonneg(s.drop_last());
    }
}

/// A digit string as a number; fails on any other text and on numbers too
/// large for the machine word.
pub fn parse_u32(s: &str) -> (r: Result<u32, PunchError>)
    ensures
        r == spec_parse_u32(s@),
{
    let n = s.unicode_len();
    if n == 0 {
        return Err(PunchError::UnparseableToken);
    }
    let mut acc: u64 = 0;
    let mut i: usize = 0;
    while i < n
        invariant
            n == s@.len(),
            0 < n,
            i <= n,
            forall|k: int| 0 <= k < i ==> is_digit(#[trigger] s@[k]),
            acc == digits_val(s@.take(i as int)),
            acc <= u32::MAX,
        decreases n - i,
    {
        let c = s.get_char(i);
        if !('0' <= c && c <= '9') {
            return Err(PunchError::UnparseableToken);
        }
        let d = (c as u32) - ('0' as u32);
        proof {
            assert(s@.take(i + 1).drop_last() =~= s@.take(i as int));
            assert(s@.take(i + 1).last() == s@[i as int]);
        }
        let next: u64 = acc * 10 + (d as u64);
        if next > u32::MAX as u64 {
            proof {
                assert(digits_val(s@.take(i + 1)) == next);
                if all_digits(s@) {
                    lemma_digits_val_mono(s@, i + 1);
                }
            }
            return Err(PunchError::UnparseableToken);
        }
        acc = next;
        i += 1;
    }
    proof {
        assert(s@.take(n as int) =~= s@);
        assert(all_digits(s@));
    }
    Ok(acc as u32)
}

proof fn lemma_trim_front_at(s: Seq<char>, a: int)
    requires
        0 <= a <= s.len(),
        forall|k: int| 0 <= k < a ==> is_space(#[trigger] s[k]),
        a == s.len() || !is_space(s[a]),
    ensures
        trim_front(s) == s.skip(a),
    decreases a,
{
    if a == 0 {
        assert(trim_front(s) =~= s.skip(0));
    } else {
        assert(forall|k: int| 0 <= k < s.len() - 1 ==> s.drop_first()[k] == s[k + 1]);
        lemma_trim_front_at(s.drop_first(), a - 1);
        assert(s.drop_first().skip(a - 1) =~= s.skip(a));
    }
}

proof fn lemma_trim_back_at(s: Seq<char>, b: int)
    requires
        0 <= b <= s.len(),
        forall|k: int| b <= k < s.len() ==> is_space(#[trigger] s[k]),
        b == 0 || !is_space(s[b - 1]),
    ensures
        trim_back(s) == s.take(b),
    decreases s.len() - b,
{
    if b == s.len() {
        assert(trim_back(s) =~= s.take(b));
    } else {
        assert(forall|k: int| 0 <= k < s.len() - 1 ==> s.drop_last()[k] == s[k]);
        lemma_trim_back_at(s.drop_last(), b);
        assert(s.drop_last().take(b) =~= s.take(b));
    }
}

/// The string without leading or trailing whitespace.
pub fn trim_str<'a>(s: &'a str) -> (r: &'a str)
    ensures
        r@ == trimmed(s@),
{
    let n = s.unicode_len();
    let mut a: usize = 0;
    while a < n && is_space_char(s.get_char(a))
        invariant
            n == s@.len(),
            a <= n,
            forall|k: int| 0 <= k < a ==> is_space(#[trigger] s@[k]),
        decreases n - a,
    {
        a += 1;
    }
    let mut b: usize = n;
    while b > a && is_space_char(s.get_char(b - 1))
        invariant
            n == s@.len(),
            a <= b <= n,
            forall|k: int| b <= k < n ==> is_space(#[trigger] s@[k]),
        decreases b,
    {
        b -= 1;
    }
    proof {
        lemma_trim_front_at(s@, a as int);
        let t = s@.skip(a as int);
        assert forall|k: int| (b - a) <= k < t.len() implies is_space(#[trigger] t[k]) by {
            assert(t[k] == s@[k + a]);
        }
        if b > a {
            assert(t[b - a - 1] == s@[b - 1]);
        }
        lemma_trim_back_at(t, b - a);
        assert(t.take(b - a) =~= s@.subrange(a as int, b as int));
    }
    s.substring_char(a, b)
}

/// Whether the total marker stands at position `i` of the text.
fn marker_at(s: &str, i: usize) -> (r: bool)
    requires
        i + 6 <= s@.len(),
        s@.len() <= usize::MAX,
    ensures
        r == (s@.subrange(i as int, i + 6) == "Total:"@),
{
    proof {
        reveal_strlit("Total:");
    }
    let m = s.get_char(i) == 'T' && s.get_char(i + 1) == 'o' && s.get_char(i + 2) == 't'
        && s.get_char(i + 3) == 'a' && s.get_char(i + 4) == 'l' && s.get_char(i + 5) == ':';
    proof {
        assert("Total:"@ =~= seq!['T', 'o', 't', 'a', 'l', ':']);
        let sub = s@.subrange(i as int, i + 6);
        assert(sub[0] == s@[i as int] && sub[1] == s@[i + 1] && sub[2] == s@[i + 2] && sub[3]
            == s@[i + 3] && sub[4] == s@[i + 4] && sub[5] == s@[i + 5]);
        if m {
            assert(sub =~= "Total:"@);
        } else {
            if sub == "Total:"@ {
                assert(sub[0] == 'T' && sub[1] == 'o' && sub[2] == 't' && sub[3] == 'a' && sub[4]
                    == 'l' && sub[5] == ':');
                assert(false);
            }
        }
    }
    m
}

/// The first position of the total marker at or after `from`, if any.
fn find_total_marker(s: &str, from: usize) -> (r: Option<usize>)
    requires
        from <= s@.len(),
    ensures
        match r {
            Some(k) => from <= k && k + 6 <= s@.len() && k as int == find_marker(
                s@,
                from as int,
            ),
            None => find_marker(s@, from as int) == -1,
        },
{
    let n = s.unicode_len();
    if n < 6 {
        return None;
    }
    let mut i: usize = from;
    while i <= n - 6
        invariant
            n == s@.len(),
            6 <= n,
            from <= i,
            i <= n,
            find_marker(s@, from as int) == find_marker(s@, i as int),
        decreases n - i,
    {
        if marker_at(s, i) {
            return Some(i);
        }
        i += 1;
    }
    None
}

/// The token text `H:M` as hours and minutes.
pub fn parse_hm(half_block: &str) -> (r: Result<(u32, u32), PunchError>)
    ensures
        r == spec_parse_hm(half_block@),
{
    let parts = split_on_char(half_block, ':');
    if parts.len() < 2 {
        return Err(PunchError::UnparseableToken);
    }
    proof {
        assert(str_views(parts@)[0] == parts@[0]@ && str_views(parts@)[1] == parts@[1]@);
    }
    let h = match parse_u32(parts[0].as_str()) {
        Ok(h) => h,
        Err(e) => {
            return Err(e);
        },
    };
    let m = match parse_u32(parts[1].as_str()) {
        Ok(m) => m,
        Err(e) => {
            return Err(e);
        },
    };
    Ok((h, m))
}

/// A block token `H:M-H:M`, placed on the given date's clock. Succeeds
/// exactly on tokens with two in-range times in order; a backwards range is
/// rejected rather than carried into the algebra.
#[allow(unused_variables)]
pub fn parse_block(date: &Date, block_str: &str) -> (r: Result<Block, PunchError>)
    ensures
        r == spec_parse_block(block_str@),
        (r is Ok) ==> r->Ok_0.wf(),
{
    let parts = split_on_char(block_str, '-');
    if parts.len() < 2 {
        return Err(PunchError::UnparseableToken);
    }
    proof {
        assert(str_views(parts@)[0] == parts@[0]@ && str_views(parts@)[1] == parts@[1]@);
    }
    let (h1, m1) = match parse_hm(parts[0].as_str()) {
        Ok(p) => p,
        Err(e) => {
            return Err(e);
        },
    };
    let (h2, m2) = match parse_hm(parts[1].as_str()) {
        Ok(p) => p,
        Err(e) => {
            return Err(e);
        },
    };
    if h1 > 23 || m1 > 59 || h2 > 23 || m2 > 59 {
        return Err(PunchError::InvalidCalendarValue);
    }
    let from = h1 * 60 + m1;
    let to = h2 * 60 + m2;
    if from <= to {
        Ok(Block { from, to })
    } else {
        Err(PunchError::InvalidRange)
    }
}

proof fn lemma_small_digits(s: Seq<char>)
    requires
        all_digits(s),
        s.len() <= 2,
    ensures
        0 <= digits_val(s) <= 99,
{
    if s.len() == 1 {
        assert(digits_val(s) == digits_val(s.drop_last()) * 10 + digit_val(s.last()));
        assert(digits_val(s.drop_last()) == 0);
        assert(is_digit(s.last()));
    } else {
        let d = s.drop_last();
        assert(is_digit(s.last()) && is_digit(d.last()));
        assert(digits_val(d) == digits_val(d.drop_last()) * 10 + digit_val(d.last()));
        assert(digits_val(d.drop_last()) == 0);
    }
}

/// A date token `D.M.YY`.
pub fn parse_date(date: &str) -> (r: Result<Date, PunchError>)
    ensures
        r == spec_parse_date(date@),
{
    let parts = split_on_char(date, '.');
    if parts.len() != 3 {
        return Err(PunchError::UnparseableToken);
    }
    proof {
        assert(str_views(parts@)[0] == parts@[0]@ && str_views(parts@)[1] == parts@[1]@
            && str_views(parts@)[2] == parts@[2]@);
    }
    if parts[0].as_str().unicode_len() > 2 || parts[1].as_str().unicode_len() > 2
        || parts[2].as_str().unicode_len() > 2 {
        return Err(PunchError::UnparseableToken);
    }
    proof {
        if all_digits(parts@[0]@) {
            lemma_small_digits(parts@[0]@);
        }
        if all_digits(parts@[1]@) {
            lemma_small_digits(parts@[1]@);
        }
        if all_digits(parts@[2]@) {
            lemma_small_digits(parts@[2]@);
        }
    }
    let d = match parse_u32(parts[0].as_str()) {
        Ok(v) => v,
        Err(e) => {
            return Err(e);
        },
    };
    let m = match parse_u32(parts[1].as_str()) {
        Ok(v) => v,
        Err(e) => {
            return Err(e);
        },
    };
    let yy = match parse_u32(parts[2].as_str()) {
        Ok(v) => v,
        Err(e) => {
            return Err(e);
        },
    };
    let y: i32 = if yy <= 68 {
        2000 + yy as i32
    } else {
        1900 + yy as i32
    };
    Date::from_ymd(y, m, d)
}

/// The comment after a line's total marker, if the line has both.
pub fn parse_comment(line: &str) -> (r: Result<Option<String>, PunchError>)
    ensures
        (r is Ok) <==> (spec_parse_comment(line@) is Ok),
        (r is Err) ==> r->Err_0 == spec_parse_comment(line@)->Err_0,
        (r is Ok) ==> (match (r->Ok_0, spec_parse_comment(line@)->Ok_0) {
            (Some(c), Some(v)) => c@ == v,
            (None, None) => true,
            _ => false,
        }),
{
    let n = line.unicode_len();
    let i = match find_total_marker(line, 0) {
        None => {
            return Err(PunchError::UnparseableToken);
        },
        Some(i) => i,
    };
    let seg = match find_total_marker(line, i + 6) {
        Some(j) => line.substring_char(i + 6, j),
        None => line.substring_char(i + 6, n),
    };
    proof {
        assert(line@.subrange(i + 6, n as int) =~= line@.skip(i + 6));
    }
    let toks = split_whitespace_tokens(seg);
    let ghost ts = str_views(toks@).skip(1);
    if toks.len() <= 1 {
        return Ok(None);
    }
    let mut out = String::new();
    let nt = toks.len();
    let mut k: usize = 1;
    while k < nt
        invariant
            nt == toks@.len(),
            nt >= 2,
            1 <= k <= nt,
            ts == str_views(toks@).skip(1),
            k >= 2 ==> out@ == join_spaced(ts.take(k - 1)),
            k == 1 ==> out@ == Seq::<char>::empty(),
        decreases nt - k,
    {
        proof {
            reveal_strlit(" ");
            assert(ts.take(k as int).drop_last() =~= ts.take(k - 1));
            assert(ts.take(k as int).last() == ts[k - 1]);
            assert(ts[k - 1] == toks@[k as int]@);
        }
        if k > 1 {
            out.append(" ");
        }
        out.append(toks[k].as_str());
        proof {
            if k == 1 {
                assert(ts.take(1).len() == 1 && ts.take(1)[0] == ts[0]);
                assert(out@ =~= join_spaced(ts.take(1)));
            } else {
                assert(out@ =~= join_spaced(ts.take(k as int)));
            }
        }
        k += 1;
    }
    proof {
        assert(ts.take(nt - 1) =~= ts);
    }
    Ok(Some(out))
}

/// One stored day line as a day record. The blocks come back exactly as
/// written: the file is trusted to hold a normalized set, and a caller that
/// mutates the day must check [`Day::is_normalized`] first.
#[verifier::rlimit(80)]
pub fn parse_day(line: &str) -> (r: Result<Day, PunchError>)
    ensures
        (r is Ok) <==> (spec_parse_day(line@) is Ok),
        (r is Ok) ==> r->Ok_0@ == spec_parse_day(line@)->Ok_0,
        (r is Err) ==> r->Err_0 == spec_parse_day(line@)->Err_0,
{
    let toks = split_whitespace_tokens(line);
    let ghost tv = str_views(toks@);
    if toks.len() == 0 {
        return Err(PunchError::UnparseableToken);
    }
    proof {
        assert(tv[0] == toks@[0]@);
    }
    let date = match parse_date(toks[0].as_str()) {
        Ok(d) => d,
        Err(e) => {
            return Err(e);
        },
    };
    let mut blocks: Vec<Block> = Vec::new();
    let n = toks.len();
    let mut i: usize = 1;
    let mut found_total = false;
    while i < n && !found_total
        invariant
            tv == str_views(toks@),
            tv == tokens_of(line@),
            n == toks@.len(),
            n > 0,
            spec_parse_date(tv[0]) == Ok::<Date, PunchError>(date),
            1 <= i <= n,
            !found_total ==> blocks_end(tv, 1) == blocks_end(tv, i as int),
            !found_total ==> spec_parse_blocks(tv, 1) == (match spec_parse_blocks(tv, i as int) {
                Ok(rest) => Ok::<Seq<Block>, PunchError>(blocks@ + rest),
                Err(e) => Err(e),
            }),
            found_total ==> i < n && starts_with_total(tv[i as int]) && blocks_end(tv, 1)
                == i as int && spec_parse_blocks(tv, 1) == Ok::<Seq<Block>, PunchError>(blocks@),
        decreases n - i, 1int - (if found_total { 1int } else { 0int }),
    {
        proof {
            assert(tv[i as int] == toks@[i as int]@);
        }
        if starts_with_total_str(toks[i].as_str()) {
            found_total = true;
            proof {
                assert(spec_parse_blocks(tv, i as int) == Ok::<Seq<Block>, PunchError>(
                    Seq::empty(),
                ));
                assert(blocks@ + Seq::<Block>::empty() =~= blocks@);
            }
        } else {
            match parse_block(&date, toks[i].as_str()) {
                Ok(b) => {
                    let ghost bpre = blocks@;
                    blocks.push(b);
                    proof {
                        if spec_parse_blocks(tv, i + 1) is Ok {
                            let rest = spec_parse_blocks(tv, i + 1)->Ok_0;
                            assert(bpre + (seq![b] + rest) =~= blocks@ + rest);
                        }
                    }
                },
                Err(e) => {
                    proof {
                        assert(spec_parse_blocks(tv, i as int) == Err::<Seq<Block>, PunchError>(
                            e,
                        ));
                        assert(spec_parse_blocks(tv, 1) == Err::<Seq<Block>, PunchError>(e));
                        assert(spec_parse_day(line@) == Err::<DayView, PunchError>(e));
                    }
                    return Err(e);
                },
            }
            i += 1;
        }
    }
    let comment: Option<String> = if found_total {
        match parse_comment(line) {
            Ok(c) => c,
            Err(e) => {
                return Err(e);
            },
        }
    } else {
        proof {
            assert(spec_parse_blocks(tv, n as int) == Ok::<Seq<Block>, PunchError>(Seq::empty()));
            assert(blocks@ + Seq::<Block>::empty() =~= blocks@);
        }
        None
    };
    let day = Day { date, blocks, comment };
    proof {
        assert(day@ == spec_parse_day(line@)->Ok_0);
    }
    Ok(day)
}

/// Whether a token carries the total marker at its head.
pub fn starts_with_total_str(t: &str) -> (r: bool)
    ensures
        r == starts_with_total(t@),
{
    if t.unicode_len() < 6 {
        return false;
    }
    marker_at(t, 0)
}

/// A stored month file as a month record: the heading line is skipped,
/// blank lines and the closing total line are ignored, and the day lines
/// are keyed by date, later lines overriding earlier ones.
#[verifier::rlimit(80)]
pub fn parse_month(contents: &str, year: u16, month: u8) -> (r: Result<Month, PunchError>)
    ensures
        (r is Ok) <==> (spec_parse_month(contents@) is Ok),
        (r is Err) ==> r->Err_0 == spec_parse_month(contents@)->Err_0,
        (r is Ok) ==> r->Ok_0.month == month && r->Ok_0.year == year && r->Ok_0.wf()
            && day_views(r->Ok_0.days@) == dedup_by_date(spec_parse_month(contents@)->Ok_0),
{
    let t = trim_str(contents);
    let lines = split_on_char(t, '\n');
    let ghost lv = str_views(lines@);
    let mut ds: Vec<Day> = Vec::new();
    let n = lines.len();
    let mut i: usize = 1;
    while i < n
        invariant
            lv == str_views(lines@),
            lv == split_of(trimmed(contents@), '\n'),
            n == lines@.len(),
            1 <= i <= n,
            spec_parse_lines(lv, 1) == (match spec_parse_lines(lv, i as int) {
                Ok(rest) => Ok::<Seq<DayView>, PunchError>(day_views(ds@) + rest),
                Err(e) => Err(e),
            }),
        decreases n - i,
    {
        proof {
            assert(lv[i as int] == lines@[i as int]@);
        }
        let lt = trim_str(lines[i].as_str());
        if lt.unicode_len() == 0 || starts_with_total_str(lt) {
        } else {
            match parse_day(lt) {
                Ok(d) => {
                    let ghost dpre = day_views(ds@);
                    let ghost dv = d@;
                    ds.push(d);
                    proof {
                        assert(day_views(ds@) =~= dpre.push(dv));
                        if spec_parse_lines(lv, i + 1) is Ok {
                            let rest = spec_parse_lines(lv, i + 1)->Ok_0;
                            assert(dpre + (seq![dv] + rest) =~= day_views(ds@) + rest);
                        }
                    }
                },
                Err(e) => {
                    proof {
                        assert(spec_parse_day(lt@) == Err::<DayView, PunchError>(e));
                        assert(spec_parse_lines(lv, i as int) == Err::<Seq<DayView>, PunchError>(
                            e,
                        ));
                        assert(spec_parse_lines(lv, 1) == Err::<Seq<DayView>, PunchError>(e));
                    }
                    return Err(e);
                },
            }
        }
        i += 1;
    }
    proof {
        assert(spec_parse_lines(lv, n as int) == Ok::<Seq<DayView>, PunchError>(Seq::empty()));
        assert(day_views(ds@) + Seq::<DayView>::empty() =~= day_views(ds@));
    }
    Ok(Month::new(month, year, ds))
}

} // verus!
