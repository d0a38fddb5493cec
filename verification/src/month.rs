//! One calendar month's records: a date-keyed collection of days.
//!
//! Days are held unordered with unique dates, like entries of a date-keyed
//! map; ordering is materialized on demand for display and serialization.

use vstd::prelude::*;

use crate::PunchError;
use crate::date::Date;
use crate::date::days_in_month;
use crate::date::spec_days_in_month;
use crate::day::Day;
use crate::day::blocks_duration;

verus! {

/// The ghost value of a day: its date, block sequence and comment text.
pub ghost struct DayView {
    pub date: Date,
    pub blocks: Seq<crate::block::Block>,
    pub comment: Option<Seq<char>>,
}

impl View for Day {
    type V = DayView;

    open spec fn view(&self) -> DayView {
        DayView {
            date: self.date,
            blocks: self.blocks@,
            comment: match self.comment {
                Some(c) => Some(c@),
                None => None,
            },
        }
    }
}

/// The days of a sequence, as ghost values.
pub open spec fn day_views(s: Seq<Day>) -> Seq<DayView> {
    Seq::new(s.len(), |i: int| s[i]@)
}

/// Putting one day into a date-keyed collection: it replaces the day with
/// the same date, or comes last when its date is new.
pub open spec fn upsert_day(s: Seq<DayView>, d: DayView) -> Seq<DayView> {
    if exists|i: int| 0 <= i < s.len() && (#[trigger] s[i]).date == d.date {
        s.update(choose|i: int| 0 <= i < s.len() && (#[trigger] s[i]).date == d.date, d)
    } else {
        s.push(d)
    }
}

/// Keying a day list by date: for every date the last entry wins, placed
/// where the date first appeared.
pub open spec fn dedup_by_date(s: Seq<DayView>) -> Seq<DayView>
    decreases s.len(),
{
    if s.len() == 0 {
        Seq::empty()
    } else {
        upsert_day(dedup_by_date(s.drop_last()), s.last())
    }
}

/// No two entries carry the same date.
pub open spec fn unique_dates(s: Seq<DayView>) -> bool {
    forall|i: int, j: int|
        0 <= i < j < s.len() ==> (#[trigger] s[i]).date != (#[trigger] s[j]).date
}

/// One calendar month's records.
#[derive(Debug)]
pub struct Month {
    pub month: u8,
    pub year: u16,
    pub days: Vec<Day>,
}

impl Month {
    /// The collection's invariant: at most one day per date.
    pub open spec fn wf(self) -> bool {
        unique_dates(day_views(self.days@))
    }

    /// Whether every held day satisfies its own invariant.
    pub open spec fn days_wf(self) -> bool {
        forall|i: int| 0 <= i < self.days@.len() ==> (#[trigger] self.days@[i]).wf()
    }

    /// Build a month from a day list; days sharing a date collapse to the
    /// last one given, as in a date-keyed map.
    pub fn new(month: u8, year: u16, days_vector: Vec<Day>) -> (r: Month)
        ensures
            r.month == month,
            r.year == year,
            day_views(r.days@) == dedup_by_date(day_views(days_vector@)),
            r.wf(),
            (forall|i: int| 0 <= i < days_vector@.len() ==> (#[trigger] days_vector@[i]).wf())
                ==> r.days_wf(),
    {
        let mut days: Vec<Day> = Vec::new();
        let n = days_vector.len();
        let mut i: usize = 0;
        while i < n
            invariant
                n == days_vector@.len(),
                i <= n,
                day_views(days@) == dedup_by_date(day_views(days_vector@.take(i as int))),
                unique_dates(day_views(days@)),
                forall|k: int|
                    0 <= k < days@.len() ==> exists|l: int|
                        0 <= l < i && (#[trigger] days@[k])@ == days_vector@[l]@,
            decreases n - i,
        {
            let d = days_vector[i].clone();
            proof {
                assert(d@ == days_vector@[i as int]@);
                assert(day_views(days_vector@.take(i + 1)).drop_last() =~= day_views(
                    days_vector@.take(i as int),
                ));
                assert(day_views(days_vector@.take(i + 1)).last() == days_vector@[i as int]@);
            }
            match find_day_index(&days, &d.date) {
                Some(j) => {
                    proof {
                        let prev = dedup_by_date(day_views(days_vector@.take(i as int)));
                        assert(prev[j as int].date == days_vector@[i as int]@.date);
                        let jj = choose|jj: int|
                            0 <= jj < prev.len() && (#[trigger] prev[jj]).date
                                == days_vector@[i as int]@.date;
                        assert(jj == j);
                    }
                    days.set(j, d);
                    proof {
                        let prev = dedup_by_date(day_views(days_vector@.take(i as int)));
                        let jj = choose|jj: int|
                            0 <= jj < prev.len() && (#[trigger] prev[jj]).date
                                == days_vector@[i as int]@.date;
                        assert(day_views(days@) =~= prev.update(jj, days_vector@[i as int]@));
                    }
                },
                None => {
                    days.push(d);
                    proof {
                        let prev = dedup_by_date(day_views(days_vector@.take(i as int)));
                        assert(day_views(days@) =~= prev.push(days_vector@[i as int]@));
                    }
                },
            }
            i += 1;
        }
        proof {
            assert(days_vector@.take(n as int) =~= days_vector@);
        }
        Month { month, year, days }
    }

    /// A stored month file as a month record.
    pub fn from_brf(contents: &str, year: u16, month: u8) -> (r: Result<Month, PunchError>)
        ensures
            (r is Ok) <==> (crate::parse::spec_parse_month(contents@) is Ok),
            (r is Err) ==> r->Err_0 == crate::parse::spec_parse_month(contents@)->Err_0,
            (r is Ok) ==> r->Ok_0.month == month && r->Ok_0.year == year && r->Ok_0.wf()
                && day_views(r->Ok_0.days@) == dedup_by_date(
                crate::parse::spec_parse_month(contents@)->Ok_0,
            ),
    {
        crate::parse::parse_month(contents, year, month)
    }

    /// Ensure the month has a (possibly fresh, empty) day for the date.
    pub fn add_day(&mut self, date: &Date)
        ensures
            final(self).month == old(self).month,
            final(self).year == old(self).year,
            old(self).wf() ==> final(self).wf(),
            (exists|i: int|
                0 <= i < old(self).days@.len() && (#[trigger] old(self).days@[i]).date
                    == *date) ==> final(self).days@ == old(self).days@,
            (forall|i: int|
                0 <= i < old(self).days@.len() && (#[trigger] old(self).days@[i]).date != *date)
                ==> day_views(final(self).days@) == day_views(old(self).days@).push(
                DayView { date: *date, blocks: Seq::empty(), comment: None },
            ),
    {
        match find_day_index(&self.days, date) {
            Some(_) => {},
            None => {
                let d = Day::from_date(date);
                self.days.push(d);
                proof {
                    assert(day_views(self.days@) =~= day_views(old(self).days@).push(
                        DayView { date: *date, blocks: Seq::empty(), comment: None },
                    ));
                }
            },
        }
    }

    /// Drop every day that holds no blocks and no comment.
    pub fn cleanup(&mut self)
        ensures
            final(self).month == old(self).month,
            final(self).year == old(self).year,
            final(self).days@ == old(self).days@.filter(keep_pred()),
            old(self).wf() ==> final(self).wf(),
            old(self).days_wf() ==> final(self).days_wf(),
    {
        let ghost s0 = self.days@;
        let n = self.days.len();
        let mut j: usize = 0;
        let mut p: usize = 0;
        while j < n
            invariant
                n == s0.len(),
                old(self).days@ == s0,
                self.month == old(self).month,
                self.year == old(self).year,
                j <= n,
                p == s0.take(j as int).filter(keep_pred()).len(),
                self.days@ == s0.take(j as int).filter(keep_pred()) + s0.skip(j as int),
                p <= self.days@.len(),
            decreases n - j,
        {
            proof {
                assert(s0.take(j + 1) =~= s0.take(j as int).push(s0[j as int]));
                crate::algebra::lemma_filter_push(
                    s0.take(j as int),
                    keep_pred(),
                    s0[j as int],
                );
                assert(self.days@[p as int] == s0[j as int]);
            }
            if self.days[p].is_empty() {
                self.days.remove(p);
                proof {
                    assert(self.days@ =~= s0.take(j + 1).filter(keep_pred()) + s0.skip(
                        j + 1,
                    ));
                }
            } else {
                p += 1;
                proof {
                    assert(self.days@ =~= s0.take(j + 1).filter(keep_pred()) + s0.skip(
                        j + 1,
                    ));
                }
            }
            j += 1;
        }
        proof {
            assert(s0.take(n as int) =~= s0);
            assert(s0.skip(n as int) =~= Seq::<Day>::empty());
            assert(self.days@ =~= s0.filter(keep_pred()));
            crate::algebra::lemma_filter_pairs(s0, keep_pred());
            let f = self.days@;
            if old(self).wf() {
                assert forall|a: int, b: int| 0 <= a < b < f.len() implies (
                #[trigger] day_views(f)[a]).date != (#[trigger] day_views(f)[b]).date by {
                    let (k, l): (int, int) = choose|k: int, l: int|
                        0 <= k < l < s0.len() && s0[k] == f[a] && s0[l] == f[b];
                    assert(day_views(s0)[k].date != day_views(s0)[l].date);
                }
            }
            if old(self).days_wf() {
                assert forall|a: int| 0 <= a < f.len() implies (#[trigger] f[a]).wf() by {
                    let k = choose|k: int| 0 <= k < s0.len() && s0[k] == f[a];
                    assert(s0[k].wf());
                }
            }
        }
    }
}

/// The predicate cleanup filters with: a day is kept unless it is empty.
pub open spec fn keep_pred() -> spec_fn(Day) -> bool {
    |d: Day| !d.spec_is_empty()
}

/// Sum of the days' durations, in seconds.
pub open spec fn days_duration(s: Seq<Day>) -> int
    decreases s.len(),
{
    if s.len() == 0 {
        0
    } else {
        days_duration(s.drop_last()) + blocks_duration(s.last().blocks@)
    }
}

/// Maximum number of blocks held by any single day.
pub open spec fn max_blocks(s: Seq<Day>) -> int
    decreases s.len(),
{
    if s.len() == 0 {
        0
    } else {
        let rest = max_blocks(s.drop_last());
        if s.last().blocks@.len() >= rest {
            s.last().blocks@.len() as int
        } else {
            rest
        }
    }
}

/// The English name of a month number.
pub open spec fn spec_month_name(m: int) -> Seq<char> {
    if m == 1 {
        "January"@
    } else if m == 2 {
        "February"@
    } else if m == 3 {
        "March"@
    } else if m == 4 {
        "April"@
    } else if m == 5 {
        "May"@
    } else if m == 6 {
        "June"@
    } else if m == 7 {
        "July"@
    } else if m == 8 {
        "August"@
    } else if m == 9 {
        "September"@
    } else if m == 10 {
        "October"@
    } else if m == 11 {
        "November"@
    } else {
        "December"@
    }
}

/// A date within the year range maps injectively below this bound.
pub open spec fn date_code(d: Date) -> int {
    d.year * 416 + d.month * 32 + d.day
}

/// A month holding at most one day per valid date cannot hold more days
/// than there are encodable dates.
pub proof fn lemma_month_days_len(s: Seq<Day>)
    requires
        unique_dates(day_views(s)),
        forall|i: int| 0 <= i < s.len() ==> (#[trigger] s[i]).wf(),
    ensures
        s.len() <= 4160000,
{
    let codes = Seq::new(s.len(), |i: int| date_code(s[i].date));
    assert forall|i: int, j: int| 0 <= i < j < codes.len() implies codes[i] != codes[j] by {
        assert(day_views(s)[i].date != day_views(s)[j].date);
        let (a, b) = (s[i].date, s[j].date);
        assert(33 <= a.month * 32 + a.day <= 415 && 33 <= b.month * 32 + b.day <= 415);
        if date_code(a) == date_code(b) {
            assert(a.year == b.year);
            assert(a.month == b.month);
            assert(a == b);
        }
    }
    assert(codes.no_duplicates());
    codes.unique_seq_to_set();
    assert(codes.to_set().subset_of(vstd::set_lib::set_int_range(0, 4160000))) by {
        assert forall|c: int| codes.to_set().contains(c) implies 0 <= c < 4160000 by {
            let i = choose|i: int| 0 <= i < codes.len() && codes[i] == c;
            assert(s[i].wf());
        }
    }
    vstd::set_lib::lemma_int_range(0, 4160000);
    vstd::set_lib::lemma_len_subset(codes.to_set(), vstd::set_lib::set_int_range(0, 4160000));
}

impl Month {
    /// Total worked time over all days of the month, in seconds.
    pub fn duration(&self) -> (d: u64)
        requires
            self.wf(),
            self.days_wf(),
        ensures
            d == days_duration(self.days@),
    {
        proof {
            lemma_month_days_len(self.days@);
        }
        let n = self.days.len();
        let mut total: u64 = 0;
        let mut i: usize = 0;
        while i < n
            invariant
                self.wf(),
                self.days_wf(),
                n == self.days@.len(),
                n <= 4160000,
                i <= n,
                total == days_duration(self.days@.take(i as int)),
                total <= 86340 * (i as int),
            decreases n - i,
        {
            proof {
                assert(self.days@.take(i + 1).drop_last() =~= self.days@.take(i as int));
                assert(self.days@.take(i + 1).last() == self.days@[i as int]);
                assert(self.days@[i as int].wf());
            }
            total = total + self.days[i].duration();
            i += 1;
        }
        proof {
            assert(self.days@.take(n as int) =~= self.days@);
        }
        total
    }

    /// The widest day: how many blocks the fullest day holds.
    pub fn max_num_blocks_in_day(&self) -> (r: usize)
        ensures
            r == max_blocks(self.days@),
    {
        let n = self.days.len();
        let mut best: usize = 0;
        let mut i: usize = 0;
        while i < n
            invariant
                n == self.days@.len(),
                i <= n,
                best == max_blocks(self.days@.take(i as int)),
            decreases n - i,
        {
            proof {
                assert(self.days@.take(i + 1).drop_last() =~= self.days@.take(i as int));
                assert(self.days@.take(i + 1).last() == self.days@[i as int]);
            }
            let len = self.days[i].blocks.len();
            if len >= best {
                best = len;
            }
            i += 1;
        }
        proof {
            assert(self.days@.take(n as int) =~= self.days@);
        }
        best
    }

    /// The month's English name; only the twelve real month numbers have
    /// one.
    pub fn name(&self) -> (r: Result<&'static str, PunchError>)
        ensures
            (r is Ok) <==> (1 <= self.month <= 12),
            (r is Ok) ==> r->Ok_0@ == spec_month_name(self.month as int),
            (r is Err) ==> r->Err_0 == PunchError::InvalidCalendarValue,
    {
        match self.month {
            1 => Ok("January"),
            2 => Ok("February"),
            3 => Ok("March"),
            4 => Ok("April"),
            5 => Ok("May"),
            6 => Ok("June"),
            7 => Ok("July"),
            8 => Ok("August"),
            9 => Ok("September"),
            10 => Ok("October"),
            11 => Ok("November"),
            12 => Ok("December"),
            _ => Err(PunchError::InvalidCalendarValue),
        }
    }

    /// The index of this month's day for the date, if there is one.
    pub fn find_day_by_date(&self, date: &Date) -> (r: Option<usize>)
        ensures
            match r {
                Some(j) => 0 <= j < self.days@.len() && self.days@[j as int].date == *date,
                None => forall|k: int|
                    0 <= k < self.days@.len() ==> (#[trigger] self.days@[k]).date != *date,
            },
    {
        find_day_index(&self.days, date)
    }

    /// The month's days in chronological order.
    pub fn sorted_days(&self) -> (r: Vec<Day>)
        requires
            self.wf(),
        ensures
            r@.len() == self.days@.len(),
            forall|a: int, b: int|
                0 <= a < b < r@.len() ==> (#[trigger] r@[a]).date.spec_lt((#[trigger] r@[b]).date),
            forall|i: int| 0 <= i < r@.len() ==> view_in((#[trigger] r@[i])@, self.days@),
            forall|j: int| 0 <= j < self.days@.len() ==> view_in((#[trigger] self.days@[j])@, r@),
    {
        let mut work: Vec<Day> = Vec::new();
        let n = self.days.len();
        let mut i: usize = 0;
        while i < n
            invariant
                n == self.days@.len(),
                i <= n,
                work@.len() == i,
                forall|k: int| 0 <= k < i ==> (#[trigger] work@[k])@ == self.days@[k]@,
            decreases n - i,
        {
            let d = self.days[i].clone();
            work.push(d);
            i += 1;
        }
        proof {
            assert forall|a: int, b: int| 0 <= a < b < work@.len() implies (
            #[trigger] work@[a])@.date != (#[trigger] work@[b])@.date by {
                assert(day_views(self.days@)[a].date != day_views(self.days@)[b].date);
            }
        }
        let ghost w = work@;
        let r = sort_days(work);
        proof {
            assert forall|i: int| 0 <= i < r@.len() implies view_in(
                (#[trigger] r@[i])@,
                self.days@,
            ) by {
                assert(w.contains(r@[i]));
                let j = choose|j: int| 0 <= j < w.len() && w[j] == r@[i];
                assert(self.days@[j]@ == r@[i]@);
            }
            assert forall|j: int| 0 <= j < self.days@.len() implies view_in(
                (#[trigger] self.days@[j])@,
                r@,
            ) by {
                assert(w[j] == self.days@[j] || w[j]@ == self.days@[j]@);
                assert(r@.contains(w[j]));
                let i = choose|i: int| 0 <= i < r@.len() && r@[i] == w[j];
                assert(r@[i]@ == self.days@[j]@);
            }
        }
        r
    }
}

/// Whether some day of `s` has exactly this ghost value.
pub open spec fn view_in(v: DayView, s: Seq<Day>) -> bool {
    exists|j: int| #![trigger s[j]] 0 <= j < s.len() && s[j]@ == v
}

/// Every element of `sub` is an element of `s0`.
pub open spec fn all_from(sub: Seq<Day>, s0: Seq<Day>) -> bool {
    forall|i: int| #![trigger sub[i]] 0 <= i < sub.len() ==> s0.contains(sub[i])
}

/// Every element of `s0` appears in `a` or in `b`.
pub open spec fn split_between(s0: Seq<Day>, a: Seq<Day>, b: Seq<Day>) -> bool {
    forall|j: int| #![trigger s0[j]] 0 <= j < s0.len() ==> (a.contains(s0[j]) || b.contains(s0[j]))
}

/// Sort a day list with pairwise distinct dates into chronological order.
#[verifier::rlimit(60)]
pub fn sort_days(days: Vec<Day>) -> (r: Vec<Day>)
    requires
        forall|a: int, b: int|
            0 <= a < b < days@.len() ==> (#[trigger] days@[a])@.date != (
            #[trigger] days@[b])@.date,
    ensures
        r@.len() == days@.len(),
        forall|a: int, b: int|
            0 <= a < b < r@.len() ==> (#[trigger] r@[a]).date.spec_lt((#[trigger] r@[b]).date),
        all_from(r@, days@),
        all_from(days@, r@),
{
    let ghost s0 = days@;
    let mut work = days;
    let mut r: Vec<Day> = Vec::new();
    proof {
        assert(work@ == s0);
        assert(all_from(work@, s0)) by {
            assert forall|i: int| #![trigger work@[i]] 0 <= i < work@.len() implies s0.contains(
                work@[i],
            ) by {
                assert(work@[i] == s0[i]);
            }
        }
        assert(split_between(s0, r@, work@)) by {
            assert forall|j: int| #![trigger s0[j]] 0 <= j < s0.len() implies (r@.contains(s0[j])
                || work@.contains(s0[j])) by {
                assert(s0[j] == work@[j]);
            }
        }
    }
    while work.len() > 0
        invariant
            r@.len() + work@.len() == s0.len(),
            forall|a: int, b: int|
                0 <= a < b < r@.len() ==> (#[trigger] r@[a]).date.spec_lt(
                    (#[trigger] r@[b]).date,
                ),
            forall|a: int, b: int|
                0 <= a < r@.len() && 0 <= b < work@.len() ==> (#[trigger] r@[a]).date.spec_lt(
                    (#[trigger] work@[b]).date,
                ),
            forall|a: int, b: int|
                0 <= a < b < work@.len() ==> (#[trigger] work@[a])@.date != (
                #[trigger] work@[b])@.date,
            all_from(r@, s0),
            all_from(work@, s0),
            split_between(s0, r@, work@),
        decreases work@.len(),
    {
        let m = work.len();
        let mut mi: usize = 0;
        let mut k: usize = 1;
        while k < m
            invariant
                m == work@.len(),
                0 < m,
                mi < k <= m,
                forall|a: int, b: int|
                    0 <= a < b < work@.len() ==> (#[trigger] work@[a])@.date != (
                    #[trigger] work@[b])@.date,
                forall|l: int|
                    0 <= l < k && l != mi ==> (#[trigger] work@[mi as int]).date.spec_lt(
                        work@[l].date,
                    ),
            decreases m - k,
        {
            if work[k].date.is_before(&work[mi].date) {
                mi = k;
            } else {
                proof {
                    if k != mi {
                        let (a, b) = (work@[mi as int].date, work@[k as int].date);
                        assert(work@[mi as int]@.date != work@[k as int]@.date);
                        assert(a.spec_lt(b) || b.spec_lt(a));
                    }
                }
            }
            k += 1;
        }
        let ghost wpre = work@;
        let ghost rpre = r@;
        let d = work.remove(mi);
        r.push(d);
        proof {
            assert(work@ =~= wpre.take(mi as int) + wpre.skip(mi as int + 1));
            assert(r@ == rpre.push(d));
            assert(all_from(r@, s0)) by {
                assert forall|i: int| #![trigger r@[i]] 0 <= i < r@.len() implies s0.contains(
                    r@[i],
                ) by {
                    if i < r@.len() - 1 {
                        assert(r@[i] == rpre[i]);
                    } else {
                        assert(r@[i] == wpre[mi as int]);
                        assert(s0.contains(wpre[mi as int]));
                    }
                }
            }
            assert(all_from(work@, s0)) by {
                assert forall|i: int| #![trigger work@[i]] 0 <= i < work@.len() implies s0
                    .contains(work@[i]) by {
                    if i < mi {
                        assert(work@[i] == wpre[i]);
                        assert(s0.contains(wpre[i]));
                    } else {
                        assert(work@[i] == wpre[i + 1]);
                        assert(s0.contains(wpre[i + 1]));
                    }
                }
            }
            assert(split_between(s0, r@, work@)) by {
                assert forall|j: int| #![trigger s0[j]] 0 <= j < s0.len() implies (r@.contains(
                    s0[j],
                ) || work@.contains(s0[j])) by {
                    if rpre.contains(s0[j]) {
                        let i = choose|i: int| 0 <= i < rpre.len() && rpre[i] == s0[j];
                        assert(r@[i] == s0[j]);
                        assert(r@.contains(r@[i]));
                    } else {
                        assert(wpre.contains(s0[j]));
                        let i = choose|i: int| 0 <= i < wpre.len() && wpre[i] == s0[j];
                        if i == mi {
                            assert(r@[r@.len() - 1] == s0[j]);
                            assert(r@.contains(r@[r@.len() - 1]));
                        } else if i < mi {
                            assert(work@[i] == s0[j]);
                            assert(work@.contains(work@[i]));
                        } else {
                            assert(work@[i - 1] == s0[j]);
                            assert(work@.contains(work@[i - 1]));
                        }
                    }
                }
            }
            assert forall|a: int, b: int|
                0 <= a < r@.len() && 0 <= b < work@.len() implies (
            #[trigger] r@[a]).date.spec_lt((#[trigger] work@[b]).date) by {
                let bb: int = if b < mi { b } else { b + 1 };
                assert(work@[b] == wpre[bb]);
                if a < r@.len() - 1 {
                    assert(r@[a] == rpre[a]);
                    assert(rpre[a].date.spec_lt(wpre[bb].date));
                } else {
                    assert(r@[a] == wpre[mi as int]);
                    assert(wpre[mi as int].date.spec_lt(wpre[bb].date));
                }
            }
            assert forall|a: int, b: int| 0 <= a < b < work@.len() implies (
            #[trigger] work@[a])@.date != (#[trigger] work@[b])@.date by {
                let aa: int = if a < mi { a } else { a + 1 };
                let bb: int = if b < mi { b } else { b + 1 };
                assert(work@[a] == wpre[aa] && work@[b] == wpre[bb]);
            }
        }
    }
    r
}

/// The date of one day of the given calendar month.
pub open spec fn month_date(year: int, month: int, d: int) -> Date {
    Date { year: year as i32, month: month as u32, day: d as u32 }
}

/// Strictly ascending by date.
pub open spec fn chrono_sorted(ds: Seq<DayView>) -> bool {
    forall|i: int, j: int|
        0 <= i < j < ds.len() ==> (#[trigger] ds[i]).date.spec_lt((#[trigger] ds[j]).date)
}

/// The ghost values `ds` are exactly the days' values, in some order.
pub open spec fn view_perm(ds: Seq<DayView>, days: Seq<Day>) -> bool {
    &&& ds.len() == days.len()
    &&& forall|i: int| 0 <= i < ds.len() ==> view_in(#[trigger] ds[i], days)
    &&& forall|j: int| 0 <= j < days.len() ==> ds.contains((#[trigger] days[j])@)
}

/// The ghost values `ds` are the days' values completed with a fresh, empty
/// day for every date of the month that has none, each date once.
pub open spec fn full_cover(ds: Seq<DayView>, days: Seq<Day>, year: int, month: int) -> bool {
    &&& forall|i: int|
        0 <= i < ds.len() ==> view_in(#[trigger] ds[i], days) || ((#[trigger] ds[i]).blocks.len()
            == 0 && ds[i].comment is None && ds[i].date.year == year && ds[i].date.month == month
            && 1 <= ds[i].date.day <= spec_days_in_month(year, month))
    &&& forall|j: int| 0 <= j < days.len() ==> ds.contains((#[trigger] days[j])@)
    &&& forall|d: int|
        #![trigger month_date(year, month, d)]
        1 <= d <= spec_days_in_month(year, month) ==> exists|i: int|
            0 <= i < ds.len() && (#[trigger] ds[i]).date == month_date(year, month, d)
    &&& unique_dates(ds)
}

impl Month {
    /// How many days this calendar month has.
    fn total_num_days(&self) -> (r: u32)
        requires
            1 <= self.month <= 12,
    ensures
            r == spec_days_in_month(self.year as int, self.month as int),
    {
        days_in_month(self.year as i32, self.month as u32)
    }

    /// The month's title line: its name and year.
    pub fn title(&self) -> (r: Result<String, PunchError>)
        ensures
            (r is Ok) <==> (1 <= self.month <= 12),
            (r is Ok) ==> r->Ok_0@ == spec_month_name(self.month as int) + seq![' ']
                + crate::fmt::dec_seq(self.year as int),
            (r is Err) ==> r->Err_0 == PunchError::InvalidCalendarValue,
    {
        match self.name() {
            Ok(n) => {
                let mut out = String::new();
                out.append(n);
                proof {
                    reveal_strlit(" ");
                }
                out.append(" ");
                crate::fmt::push_dec(&mut out, self.year as u64);
                proof {
                    assert(out@ =~= spec_month_name(self.month as int) + seq![' ']
                        + crate::fmt::dec_seq(self.year as int));
                }
                Ok(out)
            },
            Err(e) => Err(e),
        }
    }

    /// Every day of the calendar month in chronological order, the missing
    /// dates filled with fresh, empty days.
    pub fn full_sorted_days(&self) -> (r: Vec<Day>)
        requires
            self.wf(),
            1 <= self.month <= 12,
            self.year <= 9999,
        ensures
            forall|a: int, b: int|
                0 <= a < b < r@.len() ==> (#[trigger] r@[a]).date.spec_lt(
                    (#[trigger] r@[b]).date,
                ),
            full_cover(day_views(r@), self.days@, self.year as int, self.month as int),
            self.days_wf() ==> (forall|i: int| 0 <= i < r@.len() ==> (#[trigger] r@[i]).wf()),
    {
        let ghost dv = self.days@;
        let mut work: Vec<Day> = Vec::new();
        let n = self.days.len();
        let mut i: usize = 0;
        while i < n
            invariant
                n == self.days@.len(),
                i <= n,
                work@.len() == i,
                forall|k: int| 0 <= k < i ==> (#[trigger] work@[k])@ == self.days@[k]@,
            decreases n - i,
        {
            let d = self.days[i].clone();
            work.push(d);
            i += 1;
        }
        proof {
            assert forall|k: int| 0 <= k < work@.len() implies view_in(
                (#[trigger] work@[k])@,
                self.days@,
            ) by {
                assert(self.days@[k]@ == work@[k]@);
            }
            assert forall|j: int| 0 <= j < self.days@.len() implies day_views(work@).contains(
                (#[trigger] self.days@[j])@,
            ) by {
                assert(day_views(work@)[j] == self.days@[j]@);
            }
            assert forall|a: int, b: int| 0 <= a < b < work@.len() implies (
            #[trigger] day_views(work@)[a]).date != (#[trigger] day_views(work@)[b]).date by {
                assert(day_views(self.days@)[a].date != day_views(self.days@)[b].date);
            }
            assert forall|a: int, b: int| 0 <= a < b < work@.len() implies (
            #[trigger] work@[a])@.date != (#[trigger] work@[b])@.date by {
                assert(day_views(work@)[a].date != day_views(work@)[b].date);
            }
            if self.days_wf() {
                assert forall|k: int| 0 <= k < work@.len() implies (#[trigger] work@[k]).wf() by {
                    assert(self.days@[k].wf() && self.days@[k]@ == work@[k]@);
                }
            }
        }
        let ndays = self.total_num_days();
        let mut day: u32 = 1;
        while day <= ndays
            invariant
                self.wf(),
                1 <= self.month <= 12,
                self.year <= 9999,
                ndays == spec_days_in_month(self.year as int, self.month as int),
                1 <= day <= ndays + 1,
                forall|k: int|
                    0 <= k < work@.len() ==> view_in((#[trigger] work@[k])@, self.days@) || ((
                    work@[k])@.blocks.len() == 0 && (work@[k])@.comment is None
                        && (work@[k])@.date.year == self.year as int && (work@[k])@.date.month
                        == self.month as int && 1 <= (work@[k])@.date.day < day),
                forall|j: int| 0 <= j < self.days@.len() ==> day_views(work@).contains(
                    (#[trigger] self.days@[j])@,
                ),
                forall|d: int|
                    #![trigger month_date(self.year as int, self.month as int, d)]
                    1 <= d < day ==> exists|k: int|
                        0 <= k < work@.len() && (#[trigger] work@[k]).date == month_date(
                            self.year as int,
                            self.month as int,
                            d,
                        ),
                unique_dates(day_views(work@)),
                forall|a: int, b: int|
                    0 <= a < b < work@.len() ==> (#[trigger] work@[a])@.date != (
                    #[trigger] work@[b])@.date,
                self.days_wf() ==> (forall|k: int|
                    0 <= k < work@.len() ==> (#[trigger] work@[k]).wf()),
            decreases ndays + 1 - day,
        {
            let date = Date { year: self.year as i32, month: self.month as u32, day };
            match find_day_index(&work, &date) {
                Some(_) => {},
                None => {
                    let ghost wpre = work@;
                    let fresh = Day::from_date(&date);
                    work.push(fresh);
                    proof {
                        let nl = wpre.len() as int;
                        assert(forall|k: int| 0 <= k < nl ==> work@[k] == wpre[k]);
                        assert(work@[nl]@.date == date && work@[nl]@.blocks.len() == 0
                            && work@[nl]@.comment is None);
                        assert forall|j: int| 0 <= j < self.days@.len() implies day_views(
                            work@,
                        ).contains((#[trigger] self.days@[j])@) by {
                            let k = choose|k: int|
                                0 <= k < wpre.len() && day_views(wpre)[k] == self.days@[j]@;
                            assert(day_views(work@)[k] == self.days@[j]@);
                        }
                        assert forall|d: int|
                            #![trigger month_date(self.year as int, self.month as int, d)]
                            1 <= d < day + 1 implies exists|k: int|
                            0 <= k < work@.len() && (#[trigger] work@[k]).date == month_date(
                                self.year as int,
                                self.month as int,
                                d,
                            ) by {
                            if d < day {
                                let k = choose|k: int|
                                    0 <= k < wpre.len() && (#[trigger] wpre[k]).date
                                        == month_date(self.year as int, self.month as int, d);
                                assert(work@[k].date == wpre[k].date);
                            } else {
                                assert(work@[nl].date == date);
                                assert(date == month_date(self.year as int, self.month as int, day as int));
                            }
                        }
                        assert forall|a: int, b: int| 0 <= a < b < work@.len() implies (
                        #[trigger] day_views(work@)[a]).date != (
                        #[trigger] day_views(work@)[b]).date by {
                            if b < nl {
                                assert(day_views(wpre)[a].date != day_views(wpre)[b].date);
                            } else {
                                assert(work@[a] == wpre[a]);
                                assert(work@[a].date != date);
                            }
                        }
                        assert forall|a: int, b: int| 0 <= a < b < work@.len() implies (
                        #[trigger] work@[a])@.date != (#[trigger] work@[b])@.date by {
                            assert(day_views(work@)[a].date != day_views(work@)[b].date);
                        }
                    }
                },
            }
            day += 1;
        }
        let ghost w = work@;
        let r = sort_days(work);
        proof {
            assert forall|i: int| 0 <= i < r@.len() implies (view_in((#[trigger] r@[i])@, self.days@)
                || ((r@[i])@.blocks.len() == 0 && (r@[i])@.comment is None && (r@[i])@.date.year
                == self.year as int && (r@[i])@.date.month == self.month as int && 1
                <= (r@[i])@.date.day <= spec_days_in_month(
                self.year as int,
                self.month as int,
            ))) by {
                assert(w.contains(r@[i]));
                let k = choose|k: int| 0 <= k < w.len() && w[k] == r@[i];
                assert(view_in(w[k]@, self.days@) || ((w[k])@.blocks.len() == 0
                    && (w[k])@.comment is None && (w[k])@.date.year == self.year as int
                    && (w[k])@.date.month == self.month as int && 1 <= (w[k])@.date.day
                    <= spec_days_in_month(self.year as int, self.month as int)));
            }
            assert forall|i: int| 0 <= i < day_views(r@).len() implies (view_in(
                #[trigger] day_views(r@)[i],
                self.days@,
            ) || (day_views(r@)[i].blocks.len() == 0 && day_views(r@)[i].comment is None
                && day_views(r@)[i].date.year == self.year as int && day_views(r@)[i].date.month
                == self.month as int && 1 <= day_views(r@)[i].date.day <= spec_days_in_month(
                self.year as int,
                self.month as int,
            ))) by {
                assert(day_views(r@)[i] == r@[i]@);
            }
            assert forall|j: int| 0 <= j < self.days@.len() implies day_views(r@).contains(
                (#[trigger] self.days@[j])@,
            ) by {
                let k = choose|k: int| 0 <= k < w.len() && day_views(w)[k] == self.days@[j]@;
                assert(w[k]@ == self.days@[j]@);
                assert(r@.contains(w[k]));
                let i = choose|i: int| 0 <= i < r@.len() && r@[i] == w[k];
                assert(day_views(r@)[i] == self.days@[j]@);
            }
            assert forall|d: int|
                #![trigger month_date(self.year as int, self.month as int, d)]
                1 <= d <= spec_days_in_month(self.year as int, self.month as int) implies exists|
                i: int,
            |
                0 <= i < day_views(r@).len() && (#[trigger] day_views(r@)[i]).date == month_date(
                    self.year as int,
                    self.month as int,
                    d,
                ) by {
                let k = choose|k: int|
                    0 <= k < w.len() && (#[trigger] w[k]).date == month_date(
                        self.year as int,
                        self.month as int,
                        d,
                    );
                assert(r@.contains(w[k]));
                let i = choose|i: int| 0 <= i < r@.len() && r@[i] == w[k];
                assert(day_views(r@)[i].date == w[k].date);
            }
            assert forall|a: int, b: int| 0 <= a < b < day_views(r@).len() implies (
            #[trigger] day_views(r@)[a]).date != (#[trigger] day_views(r@)[b]).date by {
                assert(r@[a].date.spec_lt(r@[b].date));
            }
            if self.days_wf() {
                assert forall|i: int| 0 <= i < r@.len() implies (#[trigger] r@[i]).wf() by {
                    assert(w.contains(r@[i]));
                    let k = choose|k: int| 0 <= k < w.len() && w[k] == r@[i];
                    assert(w[k].wf());
                }
            }
        }
        r
    }
}

/// The index of the day with the given date, if the month has one.
pub fn find_day_index(days: &Vec<Day>, date: &Date) -> (r: Option<usize>)
    ensures
        match r {
            Some(j) => 0 <= j < days@.len() && days@[j as int].date == *date,
            None => forall|k: int| 0 <= k < days@.len() ==> (#[trigger] days@[k]).date != *date,
        },
{
    let n = days.len();
    let mut i: usize = 0;
    while i < n
        invariant
            n == days@.len(),
            i <= n,
            forall|k: int| 0 <= k < i ==> (#[trigger] days@[k]).date != *date,
        decreases n - i,
    {
        if days[i].date.year == date.year && days[i].date.month == date.month
            && days[i].date.day == date.day {
            return Some(i);
        }
        i += 1;
    }
    None
}

} // verus!
