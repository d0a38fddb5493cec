//! Shorthand expansion: bare times grow into `HH:MM`, a bare time closes
//! the day's open block or opens a new one, and partial dates and months
//! complete themselves from today's. This module also resolves which date
//! and month a command invocation targets.

use vstd::prelude::*;

use chrono::Timelike;

use crate::PunchError;
use crate::block::Block;
use crate::date::Date;
use crate::day::Day;
use crate::fmt::pad2;
use crate::fmt::push_pad2;
use crate::fmt::spec_format_block_date;
use crate::parse::spec_parse_block;
use crate::parse::spec_parse_u32;
use crate::parse::parse_block;
use crate::parse::parse_u32;
use crate::parse::split_of;
use crate::parse::split_on_char;
use crate::parse::str_views;

verus! {

/// A month and year pair, as a command invocation selects it.
pub type MonthYear = (u32, i32);

/// The month before, rolling over a year boundary.
pub fn prev_month(my: MonthYear) -> (r: MonthYear)
    requires
        my.1 > i32::MIN,
        my.0 >= 1,
    ensures
        r == (if my.0 == 1 {
            (12u32, (my.1 - 1) as i32)
        } else {
            ((my.0 - 1) as u32, my.1)
        }),
{
    match my {
        (1, y) => (12, y - 1),
        (m, y) => (m - 1, y),
    }
}

/// The month after, rolling over a year boundary.
pub fn next_month(my: MonthYear) -> (r: MonthYear)
    requires
        my.1 < i32::MAX,
        my.0 < u32::MAX,
    ensures
        r == (if my.0 == 12 {
            (1u32, (my.1 + 1) as i32)
        } else {
            ((my.0 + 1) as u32, my.1)
        }),
{
    match my {
        (12, y) => (1, y + 1),
        (m, y) => (m + 1, y),
    }
}

/// A month selector `M` or `M.Y`: a bare month keeps the current year, and
/// a two-digit year lands in the 2000s.
pub open spec fn spec_infer_month(s: Seq<char>, my: MonthYear) -> Result<MonthYear, PunchError> {
    let parts = split_of(s, '.');
    match spec_parse_u32(parts[0]) {
        Err(e) => Err(e),
        Ok(m) => if parts.len() == 1 {
            Ok((m, my.1))
        } else {
            match spec_parse_u32(parts[1]) {
                Err(e) => Err(e),
                Ok(y) => if y > i32::MAX as u32 {
                    Err(PunchError::UnparseableToken)
                } else if y < 100 {
                    Ok((m, (y + 2000) as i32))
                } else {
                    Ok((m, y as i32))
                },
            }
        },
    }
}

pub fn infer_month(input: &str, my: MonthYear) -> (r: Result<MonthYear, PunchError>)
    ensures
        r == spec_infer_month(input@, my),
{
    let parts = split_on_char(input, '.');
    proof {
        assert(str_views(parts@)[0] == parts@[0]@);
        if parts@.len() > 1 {
            assert(str_views(parts@)[1] == parts@[1]@);
        }
    }
    let m = match parse_u32(parts[0].as_str()) {
        Ok(m) => m,
        Err(e) => {
            return Err(e);
        },
    };
    if parts.len() == 1 {
        return Ok((m, my.1));
    }
    let y = match parse_u32(parts[1].as_str()) {
        Ok(y) => y,
        Err(e) => {
            return Err(e);
        },
    };
    if y > i32::MAX as u32 {
        Err(PunchError::UnparseableToken)
    } else if y < 100 {
        Ok((m, y as i32 + 2000))
    } else {
        Ok((m, y as i32))
    }
}

/// A date selector `D`, `D.M` or `D.M.Y`: missing parts come from the
/// given date.
pub open spec fn spec_infer_date(s: Seq<char>, base: Date) -> Result<Date, PunchError> {
    let parts = split_of(s, '.');
    match spec_parse_u32(parts[0]) {
        Err(e) => Err(e),
        Ok(d) => if parts.len() == 1 {
            spec_checked_date(base.year as int, base.month as int, d as int)
        } else {
            match spec_parse_u32(parts[1]) {
                Err(e) => Err(e),
                Ok(m) => if parts.len() == 2 {
                    spec_checked_date(base.year as int, m as int, d as int)
                } else {
                    match spec_parse_u32(parts[2]) {
                        Err(e) => Err(e),
                        Ok(y) => if y > i32::MAX as u32 {
                            Err(PunchError::UnparseableToken)
                        } else {
                            spec_checked_date(y as int, m as int, d as int)
                        },
                    }
                },
            }
        },
    }
}

/// A date from numbers, accepted exactly when it is a valid date.
pub open spec fn spec_checked_date(y: int, m: int, d: int) -> Result<Date, PunchError> {
    if y <= i32::MAX && m <= u32::MAX && d <= u32::MAX && (Date {
        year: y as i32,
        month: m as u32,
        day: d as u32,
    }).wf() {
        Ok(Date { year: y as i32, month: m as u32, day: d as u32 })
    } else {
        Err(PunchError::InvalidCalendarValue)
    }
}

pub fn infer_date(input: &str, date: &Date) -> (r: Result<Date, PunchError>)
    ensures
        r == spec_infer_date(input@, *date),
{
    let parts = split_on_char(input, '.');
    proof {
        assert(str_views(parts@)[0] == parts@[0]@);
        if parts@.len() > 1 {
            assert(str_views(parts@)[1] == parts@[1]@);
        }
        if parts@.len() > 2 {
            assert(str_views(parts@)[2] == parts@[2]@);
        }
    }
    let d = match parse_u32(parts[0].as_str()) {
        Ok(v) => v,
        Err(e) => {
            return Err(e);
        },
    };
    if parts.len() == 1 {
        return Date::from_ymd(date.year, date.month, d);
    }
    let m = match parse_u32(parts[1].as_str()) {
        Ok(v) => v,
        Err(e) => {
            return Err(e);
        },
    };
    if parts.len() == 2 {
        return Date::from_ymd(date.year, m, d);
    }
    let y = match parse_u32(parts[2].as_str()) {
        Ok(v) => v,
        Err(e) => {
            return Err(e);
        },
    };
    if y > i32::MAX as u32 {
        return Err(PunchError::UnparseableToken);
    }
    Date::from_ymd(y as i32, m, d)
}

/// Whether the text holds the character anywhere.
pub open spec fn has_char(s: Seq<char>, c: char) -> bool {
    exists|i: int| 0 <= i < s.len() && s[i] == c
}

fn contains_char(s: &str, c: char) -> (r: bool)
    ensures
        r == has_char(s@, c),
{
    let n = s.unicode_len();
    let mut i: usize = 0;
    while i < n
        invariant
            n == s@.len(),
            i <= n,
            forall|k: int| 0 <= k < i ==> s@[k] != c,
        decreases n - i,
    {
        if s.get_char(i) == c {
            return true;
        }
        i += 1;
    }
    false
}

/// What a half-block shorthand without a colon grows into: `HHMM`, `HMM`
/// and bare hours gain their colon; anything else is left for the block
/// parser to reject.
pub open spec fn spec_normalize_half(s: Seq<char>) -> Seq<char> {
    if has_char(s, ':') {
        s
    } else if s.len() == 5 {
        s
    } else if s.len() == 4 {
        s.take(2) + seq![':'] + s.skip(2)
    } else if s.len() == 3 {
        seq!['0', s[0], ':'] + s.skip(1)
    } else {
        s + seq![':'] + seq!['0', '0']
    }
}

/// Relies on chrono's Local::now and Timelike::hour/minute: the current
/// local wall-clock time, an hour below 24 and a minute below 60.
#[verifier::external_body]
fn local_now_hm() -> (r: (u32, u32))
    ensures
        r.0 < 24 && r.1 < 60,
{
    let t = chrono::Local::now().time();
    (t.hour(), t.minute())
}

/// A half-block shorthand written out as a time-like token. The word `now`
/// becomes the current wall-clock time; everything else is rewritten by
/// shape alone.
pub fn normalize_half_block(s: &str) -> (r: String)
    ensures
        s@ != "now"@ ==> r@ == spec_normalize_half(s@),
        s@ == "now"@ ==> exists|h: int, m: int|
            0 <= h < 24 && 0 <= m < 60 && r@ == pad2(h) + seq![':'] + pad2(m),
{
    if contains_char(s, ':') {
        proof {
            reveal_strlit("now");
            if s@ == "now"@ {
                let i = choose|i: int| 0 <= i < s@.len() && s@[i] == ':';
                assert(s@[0] == 'n' && s@[1] == 'o' && s@[2] == 'w');
                assert(false);
            }
        }
        return s.to_owned();
    }
    let n = s.unicode_len();
    let mut is_now = n == 3;
    if is_now {
        proof {
            reveal_strlit("now");
        }
        is_now = s.get_char(0) == 'n' && s.get_char(1) == 'o' && s.get_char(2) == 'w';
        proof {
            if is_now {
                assert(s@ =~= "now"@);
            } else {
                if s@ == "now"@ {
                    assert(s@[0] == 'n' && s@[1] == 'o' && s@[2] == 'w');
                    assert(false);
                }
            }
        }
    } else {
        proof {
            reveal_strlit("now");
            if s@ == "now"@ {
                assert(s@.len() == 3);
                assert(false);
            }
        }
    }
    if is_now {
        let (h, m) = local_now_hm();
        let mut out = String::new();
        push_pad2(&mut out, h as u64);
        proof {
            reveal_strlit(":");
        }
        out.append(":");
        push_pad2(&mut out, m as u64);
        proof {
            assert(out@ =~= pad2(h as int) + seq![':'] + pad2(m as int));
        }
        return out;
    }
    proof {
        reveal_strlit(":");
        reveal_strlit(":00");
    }
    if n == 5 {
        s.to_owned()
    } else if n == 4 {
        let mut out = s.substring_char(0, 2).to_owned();
        out.append(":");
        out.append(s.substring_char(2, 4));
        proof {
            assert(out@ =~= spec_normalize_half(s@));
        }
        out
    } else if n == 3 {
        proof {
            reveal_strlit("0");
        }
        let mut out = "0".to_owned();
        out.append(s.substring_char(0, 1));
        out.append(":");
        out.append(s.substring_char(1, 3));
        proof {
            assert(out@ =~= spec_normalize_half(s@));
        }
        out
    } else {
        let mut out = s.to_owned();
        out.append(":00");
        proof {
            assert(":00"@ =~= seq![':'] + seq!['0', '0']);
            assert(out@ =~= spec_normalize_half(s@));
        }
        out
    }
}

/// The halves joined back with the block separator.
pub open spec fn join_dash(ts: Seq<Seq<char>>) -> Seq<char>
    decreases ts.len(),
{
    if ts.len() == 0 {
        Seq::empty()
    } else if ts.len() == 1 {
        ts[0]
    } else {
        join_dash(ts.drop_last()) + seq!['-'] + ts.last()
    }
}

/// A block shorthand with each half written out.
pub open spec fn spec_normalize_block(s: Seq<char>) -> Seq<char> {
    let parts = split_of(s, '-');
    join_dash(Seq::new(parts.len(), |i: int| spec_normalize_half(parts[i])))
}

/// Whether some separator part is the word `now`.
pub open spec fn mentions_now(s: Seq<char>, sep: char) -> bool {
    exists|i: int| 0 <= i < split_of(s, sep).len() && split_of(s, sep)[i] == "now"@
}

/// A block shorthand with both halves written out.
pub fn normalize_block(s: &str) -> (r: String)
    ensures
        !mentions_now(s@, '-') ==> r@ == spec_normalize_block(s@),
{
    let parts = split_on_char(s, '-');
    let ghost pv = str_views(parts@);
    let ghost target = Seq::new(pv.len(), |i: int| spec_normalize_half(pv[i]));
    let mut out = String::new();
    let n = parts.len();
    let mut i: usize = 0;
    while i < n
        invariant
            pv == str_views(parts@),
            target == Seq::new(pv.len(), |i: int| spec_normalize_half(pv[i])),
            n == parts@.len(),
            i <= n,
            !mentions_now(s@, '-') ==> pv == split_of(s@, '-'),
            (forall|k: int| 0 <= k < n ==> pv[k] != "now"@) ==> (i == 0 && out@
                == Seq::<char>::empty()) || (i >= 1 && out@ == join_dash(target.take(i as int))),
        decreases n - i,
    {
        proof {
            reveal_strlit("-");
            assert(pv[i as int] == parts@[i as int]@);
            assert(target.take(i + 1).drop_last() =~= target.take(i as int));
            assert(target.take(i + 1).last() == target[i as int]);
        }
        if i > 0 {
            out.append("-");
        }
        let h = normalize_half_block(parts[i].as_str());
        out.append(h.as_str());
        proof {
            if forall|k: int| 0 <= k < n ==> pv[k] != "now"@ {
                if i == 0 {
                    assert(target.take(1).len() == 1 && target.take(1)[0] == target[0]);
                    assert(out@ =~= join_dash(target.take(1)));
                } else {
                    assert(out@ =~= join_dash(target.take(i + 1)));
                }
            }
        }
        i += 1;
    }
    proof {
        if !mentions_now(s@, '-') {
            assert(forall|k: int| 0 <= k < n ==> pv[k] != "now"@);
            assert(target.take(n as int) =~= target);
            if n == 0 {
                assert(split_of(s@, '-').len() > 0);
                assert(false);
            }
        }
    }
    out
}

/// The first ongoing block of a sequence.
pub open spec fn first_ongoing(bs: Seq<Block>) -> Option<Block>
    decreases bs.len(),
{
    if bs.len() == 0 {
        None
    } else if bs[0].spec_is_ongoing() {
        Some(bs[0])
    } else {
        first_ongoing(bs.drop_first())
    }
}

proof fn lemma_first_ongoing_at(bs: Seq<Block>, i: int)
    requires
        0 <= i < bs.len(),
        bs[i].spec_is_ongoing(),
        forall|k: int| 0 <= k < i ==> !(#[trigger] bs[k]).spec_is_ongoing(),
    ensures
        first_ongoing(bs) == Some(bs[i]),
    decreases i,
{
    assert(forall|k: int| 0 <= k < bs.len() - 1 ==> bs.drop_first()[k] == bs[k + 1]);
    if i > 0 {
        lemma_first_ongoing_at(bs.drop_first(), i - 1);
    }
}

proof fn lemma_first_ongoing_none(bs: Seq<Block>)
    requires
        forall|k: int| 0 <= k < bs.len() ==> !(#[trigger] bs[k]).spec_is_ongoing(),
    ensures
        first_ongoing(bs) is None,
    decreases bs.len(),
{
    assert(forall|k: int| 0 <= k < bs.len() - 1 ==> bs.drop_first()[k] == bs[k + 1]);
    if bs.len() > 0 {
        lemma_first_ongoing_none(bs.drop_first());
    }
}

/// What a block shorthand denotes against a day's blocks: a full range
/// parses as written; a single time closes the day's open block if it has
/// one, and otherwise opens a new ongoing block at that time.
pub open spec fn spec_infer_block(s: Seq<char>, bs: Seq<Block>) -> Result<Block, PunchError> {
    let nb = spec_normalize_block(s);
    if has_char(nb, '-') {
        spec_parse_block(nb)
    } else {
        match first_ongoing(bs) {
            Some(b) => spec_parse_block(
                spec_format_block_date(b.from as int) + seq!['-'] + nb,
            ),
            None => spec_parse_block(nb + seq!['-'] + nb),
        }
    }
}

/// A block shorthand resolved against the day it belongs to.
pub fn infer_block(block: &str, day: &Day) -> (r: Result<Block, PunchError>)
    ensures
        !mentions_now(block@, '-') ==> r == spec_infer_block(block@, day.blocks@),
        (r is Ok) ==> r->Ok_0.wf(),
{
    let normalized = normalize_block(block);
    if contains_char(normalized.as_str(), '-') {
        return parse_block(&day.date, normalized.as_str());
    }
    match day.find_ongoing_block() {
        Some(b) => {
            let ghost witness = *b;
            let from = b.from;
            let mut full = crate::fmt::format_block_date(from);
            proof {
                reveal_strlit("-");
                let i = choose|i: int|
                    0 <= i < day.blocks@.len() && #[trigger] day.blocks@[i] == witness
                        && witness.spec_is_ongoing() && (forall|k: int|
                        0 <= k < i ==> !(#[trigger] day.blocks@[k]).spec_is_ongoing());
                lemma_first_ongoing_at(day.blocks@, i);
            }
            full.append("-");
            full.append(normalized.as_str());
            proof {
                assert(full@ =~= spec_format_block_date(witness.from as int) + seq!['-']
                    + normalized@);
            }
            parse_block(&day.date, full.as_str())
        },
        None => {
            proof {
                reveal_strlit("-");
                lemma_first_ongoing_none(day.blocks@);
            }
            let mut full = normalized.clone();
            full.append("-");
            full.append(normalized.as_str());
            proof {
                assert(full@ =~= normalized@ + seq!['-'] + normalized@);
            }
            parse_block(&day.date, full.as_str())
        },
    }
}

/// The target a command invocation selects, resolved from today's date:
/// first yesterday or an explicit day, then the previous or next month,
/// then an explicit month.
pub open spec fn spec_resolve_target(
    today: Date,
    yesterday: bool,
    day_tok: Option<Seq<char>>,
    previous: bool,
    next: bool,
    month_tok: Option<Seq<char>>,
) -> Result<(Date, MonthYear), PunchError> {
    let d0 = if yesterday {
        today.spec_pred()
    } else {
        today
    };
    if yesterday && today.year == 0 && today.month == 1 && today.day == 1 {
        Err(PunchError::InvalidCalendarValue)
    } else {
        let d1r = match day_tok {
            Some(t) => spec_infer_date(t, d0),
            None => Ok(d0),
        };
        match d1r {
            Err(e) => Err(e),
            Ok(d1) => {
                let my0 = (today.month, today.year);
                let my1 = if previous {
                    if my0.0 == 1 {
                        (12u32, (my0.1 - 1) as i32)
                    } else {
                        ((my0.0 - 1) as u32, my0.1)
                    }
                } else if next {
                    if my0.0 == 12 {
                        (1u32, (my0.1 + 1) as i32)
                    } else {
                        ((my0.0 + 1) as u32, my0.1)
                    }
                } else {
                    my0
                };
                match month_tok {
                    Some(t) => match spec_infer_month(t, my1) {
                        Err(e) => Err(e),
                        Ok(my2) => Ok((d1, my2)),
                    },
                    None => Ok((d1, my1)),
                }
            },
        }
    }
}

/// The target a command invocation selects, resolved from today's date.
pub fn resolve_target(
    today: &Date,
    yesterday: bool,
    day_arg: &Option<String>,
    previous: bool,
    next: bool,
    month_arg: &Option<String>,
) -> (r: Result<(Date, MonthYear), PunchError>)
    requires
        today.wf(),
    ensures
        r == spec_resolve_target(
            *today,
            yesterday,
            match day_arg {
                Some(s) => Some(s@),
                None => None::<Seq<char>>,
            },
            previous,
            next,
            match month_arg {
                Some(s) => Some(s@),
                None => None::<Seq<char>>,
            },
        ),
{
    let mut date = *today;
    if yesterday {
        date = match today.pred() {
            Ok(d) => d,
            Err(e) => {
                return Err(e);
            },
        };
    }
    let d1 = match day_arg {
        Some(s) => match infer_date(s.as_str(), &date) {
            Ok(d) => d,
            Err(e) => {
                return Err(e);
            },
        },
        None => date,
    };
    let mut my: MonthYear = (today.month, today.year);
    if previous {
        my = prev_month(my);
    } else if next {
        my = next_month(my);
    }
    match month_arg {
        Some(s) => match infer_month(s.as_str(), my) {
            Ok(m) => Ok((d1, m)),
            Err(e) => Err(e),
        },
        None => Ok((d1, my)),
    }
}

} // verus!
