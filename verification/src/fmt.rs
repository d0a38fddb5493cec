//! Rendering of durations, blocks, days and months as text, in the file
//! form (the stored format) and the terminal form (weekday headings and a
//! blank end for ongoing blocks). Colouring is left to the caller.

use vstd::prelude::*;

use chrono::Datelike;

use crate::block::Block;
use crate::date::Date;
use crate::day::Day;
use crate::day::blocks_duration;
use crate::month::DayView;
use crate::month::Month;
use crate::month::chrono_sorted;
use crate::month::day_views;
use crate::month::days_duration;
use crate::month::full_cover;
use crate::month::max_blocks;
use crate::month::spec_month_name;
use crate::month::view_perm;
use crate::month::view_in;

verus! {

/// How output is rendered: for the stored file, or for the terminal.
#[derive(Clone, Copy, PartialEq, Eq, Structural, Debug)]
pub enum OutputMode {
    Term,
    File,
}

pub open spec fn digit_char(d: int) -> char {
    if d == 0 {
        '0'
    } else if d == 1 {
        '1'
    } else if d == 2 {
        '2'
    } else if d == 3 {
        '3'
    } else if d == 4 {
        '4'
    } else if d == 5 {
        '5'
    } else if d == 6 {
        '6'
    } else if d == 7 {
        '7'
    } else if d == 8 {
        '8'
    } else {
        '9'
    }
}

/// Decimal digits of a number, most significant first.
pub open spec fn dec_seq(n: int) -> Seq<char>
    decreases n,
{
    if n < 10 {
        seq![digit_char(n)]
    } else {
        dec_seq(n / 10).push(digit_char(n % 10))
    }
}

/// A number padded with zeroes to at least two digits.
pub open spec fn pad2(n: int) -> Seq<char> {
    if n < 10 {
        seq!['0', digit_char(n)]
    } else {
        dec_seq(n)
    }
}

/// A duration in seconds written as zero-padded hours and minutes.
pub open spec fn spec_format_duration(secs: int) -> Seq<char> {
    let minutes = secs / 60;
    pad2(minutes / 60) + seq![':'] + pad2(minutes % 60)
}

/// A minute of the day written as `HH:MM`.
pub open spec fn spec_format_block_date(t: int) -> Seq<char> {
    pad2(t / 60) + seq![':'] + pad2(t % 60)
}

/// A block written as start and end; in terminal form an ongoing block's
/// end stays blank.
pub open spec fn spec_format_block(b: Block, mode: OutputMode) -> Seq<char> {
    spec_format_block_date(b.from as int) + seq!['-'] + (if b.spec_is_ongoing() && mode
        is Term {
        "     "@
    } else {
        spec_format_block_date(b.to as int)
    })
}

/// What chrono reports as the weekday of a calendar date, counted with
/// Monday as zero.
pub uninterp spec fn weekday_of(year: int, month: int, day: int) -> int;

/// Relies on chrono's NaiveDate::weekday and Weekday::num_days_from_monday:
/// the weekday of a valid calendar date, a number from 0 (Monday) to 6.
#[verifier::external_body]
fn weekday_index(year: i32, month: u32, day: u32) -> (r: u32)
    requires
        (Date { year, month, day }).wf(),
    ensures
        r == weekday_of(year as int, month as int, day as int),
        r < 7,
{
    match chrono::NaiveDate::from_ymd_opt(year, month, day) {
        Some(d) => d.weekday().num_days_from_monday(),
        None => 0,
    }
}

pub open spec fn weekday_short(w: int) -> Seq<char> {
    if w == 0 {
        "Mon"@
    } else if w == 1 {
        "Tue"@
    } else if w == 2 {
        "Wed"@
    } else if w == 3 {
        "Thu"@
    } else if w == 4 {
        "Fri"@
    } else if w == 5 {
        "Sat"@
    } else {
        "Sun"@
    }
}

/// A date line: `DD.MM.YY` for the file; for the terminal the weekday is
/// prefixed, and a week break is marked by an empty line before a Monday
/// that does not open the listing.
pub open spec fn spec_format_date(d: Date, mode: OutputMode, index: int) -> Seq<char> {
    let ddmmyy = pad2(d.day as int) + seq!['.'] + pad2(d.month as int) + seq!['.'] + pad2(
        d.year as int % 100,
    );
    if mode is File {
        ddmmyy
    } else {
        let w = weekday_of(d.year as int, d.month as int, d.day as int);
        (if w == 0 && index != 0 {
            seq!['\n']
        } else {
            Seq::empty()
        }) + weekday_short(w) + "   "@ + ddmmyy
    }
}

/// The day's blocks, each preceded by the column spacer.
pub open spec fn spec_blocks_text(bs: Seq<Block>, mode: OutputMode) -> Seq<char>
    decreases bs.len(),
{
    if bs.len() == 0 {
        Seq::empty()
    } else {
        spec_blocks_text(bs.drop_last(), mode) + "   "@ + spec_format_block(bs.last(), mode)
    }
}

/// Blank columns that align a short day with the month's widest day.
pub open spec fn spec_pad_text(k: int) -> Seq<char>
    decreases k,
{
    if k <= 0 {
        Seq::empty()
    } else {
        spec_pad_text(k - 1) + "   "@ + "           "@
    }
}

/// One day's full line: date, blocks, alignment padding, total and comment.
pub open spec fn spec_format_day(v: DayView, index: int, pad: int, mode: OutputMode) -> Seq<
    char,
> {
    spec_format_date(v.date, mode, index) + spec_blocks_text(v.blocks, mode) + spec_pad_text(
        pad - v.blocks.len(),
    ) + "   "@ + "Total: "@ + spec_format_duration(blocks_duration(v.blocks)) + (match v.comment {
        Some(c) => "   "@ + c,
        None => Seq::<char>::empty(),
    })
}

/// The day lines of a month, one per day in the given order, separated by
/// line breaks.
pub open spec fn spec_day_lines(ds: Seq<DayView>, pad: int, mode: OutputMode) -> Seq<char>
    decreases ds.len(),
{
    if ds.len() == 0 {
        Seq::empty()
    } else if ds.len() == 1 {
        spec_format_day(ds[0], 0, pad, mode)
    } else {
        spec_day_lines(ds.drop_last(), pad, mode) + seq!['\n'] + spec_format_day(
            ds.last(),
            ds.len() - 1,
            pad,
            mode,
        )
    }
}

/// The whole month page: title, day lines, and the month's total.
pub open spec fn spec_month_text(m: Month, ds: Seq<DayView>, mode: OutputMode) -> Seq<char> {
    spec_month_name(m.month as int) + seq![' '] + dec_seq(m.year as int) + "\n\n"@
        + spec_day_lines(ds, max_blocks(m.days@), mode) + "\n\n"@ + "Total: "@
        + spec_format_duration(days_duration(m.days@))
}

fn digit_str(d: u32) -> (s: &'static str)
    requires
        d < 10,
    ensures
        s@ == seq![digit_char(d as int)],
{
    proof {
        reveal_strlit("0");
        reveal_strlit("1");
        reveal_strlit("2");
        reveal_strlit("3");
        reveal_strlit("4");
        reveal_strlit("5");
        reveal_strlit("6");
        reveal_strlit("7");
        reveal_strlit("8");
        reveal_strlit("9");
    }
    match d {
        0 => "0",
        1 => "1",
        2 => "2",
        3 => "3",
        4 => "4",
        5 => "5",
        6 => "6",
        7 => "7",
        8 => "8",
        _ => "9",
    }
}

/// Append a number's decimal digits.
pub fn push_dec(out: &mut String, n: u64)
    ensures
        final(out)@ == old(out)@ + dec_seq(n as int),
    decreases n,
{
    if n >= 10 {
        push_dec(out, n / 10);
        out.append(digit_str((n % 10) as u32));
    } else {
        out.append(digit_str(n as u32));
        proof {
            assert(old(out)@.push(digit_char(n as int)) =~= old(out)@ + dec_seq(n as int));
        }
    }
}

/// Append a number padded to at least two digits.
pub fn push_pad2(out: &mut String, n: u64)
    ensures
        final(out)@ == old(out)@ + pad2(n as int),
{
    if n < 10 {
        proof {
            reveal_strlit("0");
        }
        out.append("0");
        out.append(digit_str(n as u32));
        proof {
            assert(old(out)@ + seq!['0'] + seq![digit_char(n as int)] =~= old(out)@ + pad2(
                n as int,
            ));
        }
    } else {
        push_dec(out, n);
    }
}

/// A duration in seconds as zero-padded `HH:MM` (hours may take more than
/// two digits for month totals).
pub fn format_duration(duration: u64) -> (r: String)
    ensures
        r@ == spec_format_duration(duration as int),
{
    let minutes = duration / 60;
    let hours = minutes / 60;
    let rem = minutes % 60;
    let mut out = String::new();
    push_pad2(&mut out, hours);
    proof {
        reveal_strlit(":");
    }
    out.append(":");
    push_pad2(&mut out, rem);
    proof {
        assert(out@ =~= spec_format_duration(duration as int));
    }
    out
}

/// A minute of the day as `HH:MM`.
pub fn format_block_date(t: u32) -> (r: String)
    ensures
        r@ == spec_format_block_date(t as int),
{
    let mut out = String::new();
    push_pad2(&mut out, (t / 60) as u64);
    proof {
        reveal_strlit(":");
    }
    out.append(":");
    push_pad2(&mut out, (t % 60) as u64);
    proof {
        assert(out@ =~= spec_format_block_date(t as int));
    }
    out
}

/// One block as `HH:MM-HH:MM`; in terminal form an ongoing block's end is
/// left blank.
pub fn format_block(block: &Block, mode: OutputMode) -> (r: String)
    ensures
        r@ == spec_format_block(*block, mode),
{
    let mut out = format_block_date(block.from);
    proof {
        reveal_strlit("-");
    }
    out.append("-");
    if block.is_ongoing() && matches!(mode, OutputMode::Term) {
        out.append("     ");
    } else {
        let to = format_block_date(block.to);
        out.append(to.as_str());
    }
    proof {
        assert(out@ =~= spec_format_block(*block, mode));
    }
    out
}

/// A day's date column, with the terminal form's weekday and week break.
pub fn format_date(date: &Date, mode: OutputMode, index: usize) -> (r: String)
    requires
        date.wf(),
    ensures
        r@ == spec_format_date(*date, mode, index as int),
{
    let mut out = String::new();
    match mode {
        OutputMode::File => {},
        OutputMode::Term => {
            let w = weekday_index(date.year, date.month, date.day);
            if w == 0 && index != 0 {
                proof {
                    reveal_strlit("\n");
                }
                out.append("\n");
            }
            match w {
                0 => out.append("Mon"),
                1 => out.append("Tue"),
                2 => out.append("Wed"),
                3 => out.append("Thu"),
                4 => out.append("Fri"),
                5 => out.append("Sat"),
                _ => out.append("Sun"),
            }
            out.append("   ");
        },
    }
    push_pad2(&mut out, date.day as u64);
    proof {
        reveal_strlit(".");
    }
    out.append(".");
    push_pad2(&mut out, date.month as u64);
    out.append(".");
    push_pad2(&mut out, (date.year % 100) as u64);
    proof {
        assert(out@ =~= spec_format_date(*date, mode, index as int));
    }
    out
}

/// One day's full line: date, blocks, alignment padding, total and comment.
pub fn format_day(day: &Day, index: usize, pad_blocks: usize, mode: OutputMode) -> (r: String)
    requires
        day.wf(),
    ensures
        r@ == spec_format_day(day@, index as int, pad_blocks as int, mode),
{
    let mut out = format_date(&day.date, mode, index);
    let ghost date_part = out@;
    let n = day.blocks.len();
    let mut i: usize = 0;
    while i < n
        invariant
            day.wf(),
            n == day.blocks@.len(),
            i <= n,
            out@ == date_part + spec_blocks_text(day.blocks@.take(i as int), mode),
        decreases n - i,
    {
        proof {
            assert(day.blocks@.take(i + 1).drop_last() =~= day.blocks@.take(i as int));
            assert(day.blocks@.take(i + 1).last() == day.blocks@[i as int]);
        }
        out.append("   ");
        let b = format_block(&day.blocks[i], mode);
        out.append(b.as_str());
        i += 1;
    }
    proof {
        assert(day.blocks@.take(n as int) =~= day.blocks@);
    }
    let ghost blocks_part = out@;
    let mut k: usize = 0;
    let pad_needed: usize = if n < pad_blocks {
        pad_blocks - n
    } else {
        0
    };
    while k < pad_needed
        invariant
            k <= pad_needed,
            out@ == blocks_part + spec_pad_text(k as int),
        decreases pad_needed - k,
    {
        out.append("   ");
        out.append("           ");
        k += 1;
    }
    proof {
        assert(spec_pad_text(pad_needed as int) == spec_pad_text(
            pad_blocks - day.blocks@.len(),
        )) by {
            if pad_blocks <= n {
                assert(spec_pad_text(pad_needed as int) == Seq::<char>::empty());
            }
        }
    }
    out.append("   ");
    out.append("Total: ");
    let dur = format_duration(day.duration());
    out.append(dur.as_str());
    match &day.comment {
        Some(c) => {
            out.append("   ");
            out.append(c.as_str());
        },
        None => {},
    }
    proof {
        assert(out@ =~= spec_format_day(day@, index as int, pad_blocks as int, mode));
    }
    out
}

/// The whole month page: its title, one line per day in chronological order
/// (for the terminal every calendar day, worked or not), and the total.
pub fn format_month(month: &Month, mode: OutputMode) -> (r: String)
    requires
        month.wf(),
        month.days_wf(),
        1 <= month.month <= 12,
        month.year <= 9999,
    ensures
        exists|ds: Seq<DayView>|
            {
                &&& chrono_sorted(ds)
                &&& (mode is File ==> view_perm(ds, month.days@))
                &&& (mode is Term ==> full_cover(
                    ds,
                    month.days@,
                    month.year as int,
                    month.month as int,
                ))
                &&& r@ == spec_month_text(*month, ds, mode)
            },
{
    let pad_blocks = month.max_num_blocks_in_day();
    let days = match mode {
        OutputMode::Term => month.full_sorted_days(),
        OutputMode::File => month.sorted_days(),
    };
    let ghost ds = day_views(days@);
    proof {
        assert forall|i: int| 0 <= i < days@.len() implies (#[trigger] days@[i]).wf() by {
            if mode is File {
                let j = choose|j: int| 0 <= j < month.days@.len() && days@[i]@ == month.days@[j]@;
                assert(month.days@[j].wf());
            }
        }
        assert forall|a: int, b: int| 0 <= a < b < ds.len() implies (
        #[trigger] ds[a]).date.spec_lt((#[trigger] ds[b]).date) by {
            assert(days@[a].date.spec_lt(days@[b].date));
        }
        if mode is File {
            assert forall|i: int| 0 <= i < ds.len() implies view_in(#[trigger] ds[i], month.days@)
                by {
                assert(ds[i] == days@[i]@);
            }
            assert forall|j: int| 0 <= j < month.days@.len() implies ds.contains(
                (#[trigger] month.days@[j])@,
            ) by {
                let i = choose|i: int| 0 <= i < days@.len() && month.days@[j]@ == days@[i]@;
                assert(ds[i] == month.days@[j]@);
            }
        }
    }
    let mut out = match month.title() {
        Ok(t) => t,
        Err(_) => {
            proof {
                assert(false);
            }
            String::new()
        },
    };
    proof {
        reveal_strlit("\n\n");
        reveal_strlit("\n");
    }
    out.append("\n\n");
    let ghost head = out@;
    let n = days.len();
    let mut i: usize = 0;
    while i < n
        invariant
            n == days@.len(),
            i <= n,
            ds == day_views(days@),
            forall|k: int| 0 <= k < days@.len() ==> (#[trigger] days@[k]).wf(),
            pad_blocks as int == max_blocks(month.days@),
            out@ == head + spec_day_lines(ds.take(i as int), pad_blocks as int, mode),
        decreases n - i,
    {
        proof {
            reveal_strlit("\n");
            assert(ds.take(i + 1).drop_last() =~= ds.take(i as int));
            assert(ds.take(i + 1).last() == ds[i as int]);
            assert(ds[i as int] == days@[i as int]@);
        }
        if i > 0 {
            out.append("\n");
        }
        let line = format_day(&days[i], i, pad_blocks, mode);
        out.append(line.as_str());
        proof {
            if i == 0 {
                assert(ds.take(1).len() == 1);
                assert(out@ =~= head + spec_day_lines(ds.take(1), pad_blocks as int, mode));
            } else {
                assert(ds.take(i + 1).len() >= 2);
                assert(out@ =~= head + spec_day_lines(ds.take(i as int), pad_blocks as int, mode)
                    + seq!['\n'] + spec_format_day(ds[i as int], i as int, pad_blocks as int, mode));
                assert(out@ =~= head + spec_day_lines(ds.take(i + 1), pad_blocks as int, mode));
            }
        }
        i += 1;
    }
    proof {
        assert(ds.take(n as int) =~= ds);
    }
    out.append("\n\n");
    out.append("Total: ");
    let dur = format_duration(month.duration());
    out.append(dur.as_str());
    proof {
        assert(out@ =~= spec_month_text(*month, ds, mode));
        assert(exists|w: Seq<DayView>|
            {
                &&& chrono_sorted(w)
                &&& (mode is File ==> view_perm(w, month.days@))
                &&& (mode is Term ==> full_cover(
                    w,
                    month.days@,
                    month.year as int,
                    month.month as int,
                ))
                &&& out@ == spec_month_text(*month, w, mode)
            }) by {
            assert(chrono_sorted(ds) && (mode is File ==> view_perm(ds, month.days@)) && (mode
                is Term ==> full_cover(ds, month.days@, month.year as int, month.month as int))
                && out@ == spec_month_text(*month, ds, mode));
        }
    }
    out
}

} // verus!
