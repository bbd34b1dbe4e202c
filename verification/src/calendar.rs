//! A day calendar: working bounds, a list of appointments, and a scanner
//! that yields every free slot long enough for a requested duration.

use vstd::prelude::*;
use crate::strutil::{char_is_whitespace, find_from, idx_of, is_whitespace_char, is_digit_char,
    digit_value, str_chars, string_from_chars};

verus! {

/// A time of day, as an hour and a minute.
#[derive(Clone, Copy, Debug, PartialEq, Eq, Structural)]
pub struct Hour {
    pub hour: u8,
    pub minute: u8,
}

/// Why a calendar could not be read.
#[derive(Clone, Copy, Debug, PartialEq, Eq, Structural)]
pub enum InvalidCalendar {
    /// A line does not hold exactly one `:`.
    Line,
    /// An hour or minute field is not a small decimal number.
    Hour,
    /// The calendar file could not be read. Only callers that do the file
    /// reading report this; parsing never does.
    File,
}

/// The minutes since midnight of `h`.
pub open spec fn hour_minutes(h: Hour) -> int {
    h.hour * 60 + h.minute
}

/// The distance in minutes between two times of day.
pub open spec fn spec_mindiff(a: Hour, b: Hour) -> int {
    if hour_minutes(a) > hour_minutes(b) {
        hour_minutes(a) - hour_minutes(b)
    } else {
        hour_minutes(b) - hour_minutes(a)
    }
}

impl Hour {
    /// The time `hour`:`minute`.
    pub fn new(hour: u8, minute: u8) -> (r: Hour)
        ensures
            r == (Hour { hour, minute }),
    {
        Hour { hour, minute }
    }

    /// The distance in minutes between `self` and `other`.
    fn mindiff(&self, other: &Hour) -> (r: usize)
        ensures
            r == spec_mindiff(*self, *other),
    {
        let self_minutes = self.hour as usize * 60 + self.minute as usize;
        let other_minutes = other.hour as usize * 60 + other.minute as usize;
        if self_minutes > other_minutes {
            self_minutes - other_minutes
        } else {
            other_minutes - self_minutes
        }
    }

    /// Parse `H:M`, where each side is a decimal number fitting in eight
    /// bits, surrounded by optional whitespace. A line without exactly one
    /// `:` is rejected as `Line`; a side that is not such a number as
    /// `Hour`.
    pub fn from_string(s: String) -> (r: Result<Hour, InvalidCalendar>)
        ensures
            r == parse_hour_line(s@),
    {
        let chars = str_chars(s.as_str());
        parse_hour_chars(&chars)
    }
}

/// `s` without leading whitespace.
pub open spec fn trim_front(s: Seq<char>) -> Seq<char>
    decreases s.len(),
{
    if s.len() == 0 {
        s
    } else if char_is_whitespace(s[0]) {
        trim_front(s.drop_first())
    } else {
        s
    }
}

/// `s` without trailing whitespace.
pub open spec fn trim_back(s: Seq<char>) -> Seq<char>
    decreases s.len(),
{
    if s.len() == 0 {
        s
    } else if char_is_whitespace(s.last()) {
        trim_back(s.drop_last())
    } else {
        s
    }
}

/// `s` without leading and trailing whitespace.
pub open spec fn spec_trim(s: Seq<char>) -> Seq<char> {
    trim_back(trim_front(s))
}

/// The value of the decimal digit string `s`.
pub open spec fn digits_value(s: Seq<char>) -> int
    decreases s.len(),
{
    if s.len() == 0 {
        0
    } else {
        digits_value(s.drop_last()) * 10 + digit_value(s.last())
    }
}

/// The number a non-empty string of decimal digits denotes, when it fits in
/// eight bits; `None` otherwise.
pub open spec fn parse_u8_spec(s: Seq<char>) -> Option<u8> {
    if s.len() == 0 {
        None
    } else if !(forall|i: int| 0 <= i < s.len() ==> is_digit_char(#[trigger] s[i])) {
        None
    } else if digits_value(s) > 255 {
        None
    } else {
        Some(digits_value(s) as u8)
    }
}

/// What parsing one calendar line yields: the time of day it denotes, or
/// why it is rejected.
pub open spec fn parse_hour_line(s: Seq<char>) -> Result<Hour, InvalidCalendar> {
    let i = idx_of(s, ':', 0);
    if i >= s.len() {
        Err(InvalidCalendar::Line)
    } else if idx_of(s, ':', i + 1) < s.len() {
        Err(InvalidCalendar::Line)
    } else {
        match (parse_u8_spec(spec_trim(s.subrange(0, i))), parse_u8_spec(
            spec_trim(s.subrange(i + 1, s.len() as int)),
        )) {
            (Some(h), Some(m)) => Ok(Hour { hour: h, minute: m }),
            _ => Err(InvalidCalendar::Hour),
        }
    }
}

/// The bounds of `s[from..to]` with surrounding whitespace dropped.
fn trim_range(s: &Vec<char>, from: usize, to: usize) -> (r: (usize, usize))
    requires
        from <= to <= s@.len(),
    ensures
        from <= r.0 <= r.1 <= to,
        s@.subrange(r.0 as int, r.1 as int) == spec_trim(s@.subrange(from as int, to as int)),
{
    let mut lo = from;
    let mut hi = to;
    while lo < hi && is_whitespace_char(s[lo])
        invariant
            from <= lo <= hi <= to <= s@.len(),
            hi == to,
            trim_front(s@.subrange(lo as int, hi as int)) == trim_front(
                s@.subrange(from as int, to as int),
            ),
        decreases hi - lo,
    {
        proof {
            assert(s@.subrange(lo as int, hi as int).drop_first() =~= s@.subrange(
                lo as int + 1,
                hi as int,
            ));
        }
        lo = lo + 1;
    }
    proof {
        if lo < hi {
            assert(!char_is_whitespace(s@.subrange(lo as int, hi as int)[0]));
        }
        assert(trim_front(s@.subrange(lo as int, hi as int)) == s@.subrange(lo as int, hi as int));
    }
    while hi > lo && is_whitespace_char(s[hi - 1])
        invariant
            from <= lo <= hi <= to <= s@.len(),
            trim_back(s@.subrange(lo as int, hi as int)) == trim_back(
                trim_front(s@.subrange(from as int, to as int)),
            ),
        decreases hi - lo,
    {
        proof {
            assert(s@.subrange(lo as int, hi as int).drop_last() =~= s@.subrange(
                lo as int,
                hi as int - 1,
            ));
        }
        hi = hi - 1;
    }
    proof {
        if lo < hi {
            assert(!char_is_whitespace(s@.subrange(lo as int, hi as int).last()));
        }
        assert(trim_back(s@.subrange(lo as int, hi as int)) == s@.subrange(lo as int, hi as int));
    }
    (lo, hi)
}

/// Parse the decimal number in `s[from..to]`, if there is one that fits in
/// eight bits.
fn parse_u8_range(s: &Vec<char>, from: usize, to: usize) -> (r: Option<u8>)
    requires
        from <= to <= s@.len(),
    ensures
        r == parse_u8_spec(s@.subrange(from as int, to as int)),
{
    let ghost part = s@.subrange(from as int, to as int);
    if from == to {
        return None;
    }
    let mut acc: u32 = 0;
    let mut over = false;
    let mut i = from;
    while i < to
        invariant
            from <= i <= to <= s@.len(),
            part == s@.subrange(from as int, to as int),
            forall|x: int| from <= x < i ==> is_digit_char(#[trigger] s@[x]),
            over == (digits_value(part.subrange(0, i - from)) > 255),
            !over ==> acc == digits_value(part.subrange(0, i - from)),
            acc <= 255,
        decreases to - i,
    {
        let c = s[i];
        let u = c as u32;
        if !(48 <= u && u <= 57) {
            proof {
                assert(!is_digit_char(part[i - from]));
            }
            return None;
        }
        let d = u - 48;
        proof {
            assert(part.subrange(0, i - from + 1).drop_last() =~= part.subrange(0, i - from));
            assert(part.subrange(0, i - from + 1).last() == s@[i as int]);
            lemma_digits_nonneg(part.subrange(0, i - from));
        }
        if over {
            acc = 255;
        } else {
            let next = acc * 10 + d;
            if next > 255 {
                over = true;
            } else {
                acc = next;
            }
        }
        i = i + 1;
    }
    proof {
        assert(part.subrange(0, to - from) =~= part);
        assert forall|x: int| 0 <= x < part.len() implies is_digit_char(#[trigger] part[x]) by {
            assert(part[x] == s@[from + x]);
        }
    }
    if over {
        None
    } else {
        Some(acc as u8)
    }
}

/// A decimal digit string has a non-negative value.
proof fn lemma_digits_nonneg(s: Seq<char>)
    requires
        forall|i: int| 0 <= i < s.len() ==> is_digit_char(#[trigger] s[i]),
    ensures
        digits_value(s) >= 0,
    decreases s.len(),
{
    if s.len() > 0 {
        lemma_digits_nonneg(s.drop_last());
    }
}

/// Parse one calendar line held as characters.
fn parse_hour_chars(chars: &Vec<char>) -> (r: Result<Hour, InvalidCalendar>)
    ensures
        r == parse_hour_line(chars@),
{
    let n = chars.len();
    let i = find_from(chars, ':', 0);
    if i == n {
        return Err(InvalidCalendar::Line);
    }
    let second = find_from(chars, ':', i + 1);
    if second < n {
        return Err(InvalidCalendar::Line);
    }
    let (hl, hh) = trim_range(chars, 0, i);
    let h = parse_u8_range(chars, hl, hh);
    proof {
        lemma_parse_subrange(chars@, hl as int, hh as int, 0, i as int);
    }
    let (ml, mh) = trim_range(chars, i + 1, n);
    let m = parse_u8_range(chars, ml, mh);
    proof {
        lemma_parse_subrange(chars@, ml as int, mh as int, i as int + 1, n as int);
    }
    match (h, m) {
        (Some(hour), Some(minute)) => Ok(Hour { hour, minute }),
        _ => Err(InvalidCalendar::Hour),
    }
}

/// Parsing a trimmed subrange equals parsing the trim of the whole range.
proof fn lemma_parse_subrange(s: Seq<char>, rl: int, rh: int, from: int, to: int)
    requires
        0 <= from <= rl <= rh <= to <= s.len(),
        s.subrange(rl, rh) == spec_trim(s.subrange(from, to)),
    ensures
        parse_u8_spec(s.subrange(rl, rh)) == parse_u8_spec(spec_trim(s.subrange(from, to))),
{
}

/// The index where the separator scan stops lies between its start and the
/// end of the sequence.
proof fn lemma_idx_of_bounds(s: Seq<char>, sep: char, j: int)
    requires
        0 <= j <= s.len(),
    ensures
        j <= idx_of(s, sep, j) <= s.len(),
    decreases s.len() - j,
{
    if j < s.len() && s[j] != sep {
        lemma_idx_of_bounds(s, sep, j + 1);
    }
}

/// The lines of `s`, split on newline characters, starting at `from`.
pub open spec fn lines_from(s: Seq<char>, from: int) -> Seq<Seq<char>>
    decreases s.len() - from,
    via lines_from_decreases
{
    if from < 0 || from > s.len() {
        Seq::empty()
    } else {
        let i = idx_of(s, '\n', from);
        if i >= s.len() {
            seq![s.subrange(from, s.len() as int)]
        } else {
            seq![s.subrange(from, i)] + lines_from(s, i + 1)
        }
    }
}

#[via_fn]
proof fn lines_from_decreases(s: Seq<char>, from: int) {
    if 0 <= from <= s.len() {
        lemma_idx_of_bounds(s, '\n', from);
    }
}

/// Line `k` of the split text, or an empty line past the end: a reader at
/// the end of its input hands back empty lines.
pub open spec fn line_at(lines: Seq<Seq<char>>, k: int) -> Seq<char> {
    if 0 <= k < lines.len() {
        lines[k]
    } else {
        Seq::empty()
    }
}

/// The appointments parsed from the lines at `k`, `k + 1`, and onwards, in
/// pairs, stopping at the first pair with a blank member: each pair is a
/// start time and an end time.
pub open spec fn sched_from(lines: Seq<Seq<char>>, k: int) -> Result<
    Seq<(Hour, Hour)>,
    InvalidCalendar,
>
    decreases lines.len() + 2 - k,
{
    if k < 0 || k >= lines.len() {
        Ok(Seq::empty())
    } else if spec_trim(line_at(lines, k)).len() == 0 || spec_trim(line_at(lines, k + 1)).len()
        == 0 {
        Ok(Seq::empty())
    } else {
        match (parse_hour_line(line_at(lines, k)), parse_hour_line(line_at(lines, k + 1))) {
            (Ok(start), Ok(end)) => match sched_from(lines, k + 2) {
                Ok(rest) => Ok(seq![(start, end)] + rest),
                Err(e) => Err(e),
            },
            (Err(e), _) => Err(e),
            (_, Err(e)) => Err(e),
        }
    }
}

/// A calendar: the working bounds of the day, and the appointments.
#[derive(Debug)]
pub struct Calendar {
    pub schedule: Vec<(Hour, Hour)>,
    pub bounds: (Hour, Hour),
}

/// The command-line options of the calendar program.
pub struct Args {
    pub cal1: String,
    pub cal2: String,
    pub duration: usize,
}

/// What parsing a calendar text yields: the first two lines are the bounds
/// of the day, and the following lines hold one appointment per pair.
pub open spec fn parse_calendar_ok(s: Seq<char>, c: Calendar) -> bool {
    let lines = lines_from(s, 0);
    &&& parse_hour_line(line_at(lines, 0)) == Ok::<Hour, InvalidCalendar>(c.bounds.0)
    &&& parse_hour_line(line_at(lines, 1)) == Ok::<Hour, InvalidCalendar>(c.bounds.1)
    &&& sched_from(lines, 2) == Ok::<Seq<(Hour, Hour)>, InvalidCalendar>(c.schedule@)
}

/// Which error parsing a calendar text reports, if any.
pub open spec fn parse_calendar_err(s: Seq<char>) -> Option<InvalidCalendar> {
    let lines = lines_from(s, 0);
    match parse_hour_line(line_at(lines, 0)) {
        Err(e) => Some(e),
        Ok(_) => match parse_hour_line(line_at(lines, 1)) {
            Err(e) => Some(e),
            Ok(_) => match sched_from(lines, 2) {
                Err(e) => Some(e),
                Ok(_) => None,
            },
        },
    }
}

/// The free slots of at least `duration` minutes, scanning the appointments
/// in order from `bound` to `end`: a gap before an appointment yields one
/// slot, and the time after the last appointment up to `end` yields the
/// final one.
pub open spec fn free_slots(bound: Hour, sched: Seq<(Hour, Hour)>, end: Hour, duration: int) -> Seq<
    (Hour, Hour),
>
    decreases sched.len(),
{
    if sched.len() == 0 {
        if spec_mindiff(bound, end) >= duration {
            seq![(bound, end)]
        } else {
            Seq::empty()
        }
    } else {
        let (s0, e0) = sched[0];
        if spec_mindiff(bound, s0) >= duration {
            seq![(bound, s0)] + free_slots(e0, sched.drop_first(), end, duration)
        } else {
            free_slots(e0, sched.drop_first(), end, duration)
        }
    }
}

/// A scanner over the free slots of one calendar for one duration.
pub struct CalendarIterator {
    pub schedule: Vec<(Hour, Hour)>,
    pub idx: usize,
    pub current_bound: Hour,
    pub end_bound: Hour,
    pub duration: usize,
    pub done: bool,
}

impl CalendarIterator {
    /// The scanner has not run past its appointment list.
    pub open spec fn wf(self) -> bool {
        self.idx <= self.schedule@.len()
    }

    /// The slots the scanner will still yield: none once the closing slot
    /// has been delivered.
    pub open spec fn remaining(self) -> Seq<(Hour, Hour)> {
        if self.done {
            Seq::empty()
        } else {
            free_slots(
                self.current_bound,
                self.schedule@.skip(self.idx as int),
                self.end_bound,
                self.duration as int,
            )
        }
    }

    /// The next free slot, or `None` when the day holds no further one.
    pub fn next(&mut self) -> (r: Option<(Hour, Hour)>)
        requires
            old(self).wf(),
        ensures
            final(self).wf(),
            old(self).remaining().len() == 0 ==> r is None && final(self).remaining()
                == old(self).remaining(),
            old(self).remaining().len() > 0 ==> r == Some(old(self).remaining()[0])
                && final(self).remaining() == old(self).remaining().drop_first(),
    {
        if self.done {
            return None;
        }
        let n = self.schedule.len();
        while self.idx < n
            invariant
                self.wf(),
                !self.done,
                n == self.schedule@.len(),
                self.schedule == old(self).schedule,
                self.end_bound == old(self).end_bound,
                self.duration == old(self).duration,
                self.remaining() == old(self).remaining(),
            decreases n - self.idx,
        {
            let (start, end) = self.schedule[self.idx];
            proof {
                assert(self.schedule@.skip(self.idx as int)[0] == (start, end));
                assert(self.schedule@.skip(self.idx as int).drop_first() =~= self.schedule@.skip(
                    self.idx as int + 1,
                ));
            }
            if self.current_bound.mindiff(&start) >= self.duration {
                let bs = self.current_bound;
                self.current_bound = end;
                self.idx = self.idx + 1;
                return Some((bs, start));
            } else {
                self.current_bound = end;
                self.idx = self.idx + 1;
            }
        }
        proof {
            assert(self.schedule@.skip(self.idx as int) =~= Seq::<(Hour, Hour)>::empty());
        }
        if self.current_bound.mindiff(&self.end_bound) >= self.duration {
            let bs = self.current_bound;
            self.current_bound = self.end_bound;
            self.done = true;
            return Some((bs, self.end_bound));
        }
        None
    }
}

impl Calendar {
    /// Parse a calendar from text: the first two lines give the working
    /// bounds of the day, and each following pair of lines one appointment,
    /// up to the first blank line. Reports the first offending line's error.
    pub fn from_string(calstr: &str) -> (r: Result<Calendar, InvalidCalendar>)
        ensures
            match r {
                Ok(c) => parse_calendar_ok(calstr@, c) && parse_calendar_err(calstr@) is None,
                Err(e) => parse_calendar_err(calstr@) == Some(e),
            },
    {
        let chars = str_chars(calstr);
        let lines = split_lines(&chars);
        proof {
            assert(lines_of(lines@) =~= lines_from(calstr@, 0));
        }
        let b0 = match parse_line_at(&lines, 0) {
            Ok(h) => h,
            Err(e) => {
                return Err(e);
            },
        };
        let b1 = match parse_line_at(&lines, 1) {
            Ok(h) => h,
            Err(e) => {
                return Err(e);
            },
        };
        let mut schedule: Vec<(Hour, Hour)> = Vec::new();
        let r = fill_schedule(&lines, 2, &mut schedule);
        match r {
            Ok(()) => Ok(Calendar { schedule, bounds: (b0, b1) }),
            Err(e) => Err(e),
        }
    }

    /// Scan the free slots of at least `duration` minutes between the
    /// calendar's bounds, around its appointments, in order.
    pub fn find_slots(&self, duration: usize) -> (r: CalendarIterator)
        ensures
            r.wf(),
            r.remaining() == free_slots(
                self.bounds.0,
                self.schedule@,
                self.bounds.1,
                duration as int,
            ),
    {
        let mut sched: Vec<(Hour, Hour)> = Vec::new();
        let n = self.schedule.len();
        let mut i: usize = 0;
        while i < n
            invariant
                i <= n,
                n == self.schedule@.len(),
                sched@ == self.schedule@.subrange(0, i as int),
            decreases n - i,
        {
            sched.push(self.schedule[i]);
            proof {
                assert(sched@ =~= self.schedule@.subrange(0, i as int + 1));
            }
            i = i + 1;
        }
        proof {
            assert(sched@ =~= self.schedule@);
        }
        let it = CalendarIterator {
            schedule: sched,
            idx: 0,
            current_bound: self.bounds.0,
            end_bound: self.bounds.1,
            duration,
            done: false,
        };
        proof {
            assert(it.schedule@.skip(0) =~= self.schedule@);
        }
        it
    }
}

/// Split `chars` into its newline-separated lines.
fn split_lines(chars: &Vec<char>) -> (r: Vec<Vec<char>>)
    ensures
        r@.len() == lines_from(chars@, 0).len(),
        forall|k: int| 0 <= k < r@.len() ==> (#[trigger] r@[k])@ == lines_from(chars@, 0)[k],
{
    split_lines_from(chars, 0)
}

/// Split `chars[from..]` into its newline-separated lines.
fn split_lines_from(chars: &Vec<char>, from: usize) -> (r: Vec<Vec<char>>)
    requires
        from <= chars@.len(),
    ensures
        r@.len() == lines_from(chars@, from as int).len(),
        forall|k: int| 0 <= k < r@.len() ==> (#[trigger] r@[k])@ == lines_from(chars@, from as int)[k],
    decreases chars@.len() - from,
{
    let n = chars.len();
    let i = find_from(chars, '\n', from);
    let mut fragment: Vec<char> = Vec::new();
    let mut x = from;
    while x < i
        invariant
            from <= x <= i <= n,
            n == chars@.len(),
            fragment@ == chars@.subrange(from as int, x as int),
        decreases i - x,
    {
        fragment.push(chars[x]);
        proof {
            assert(fragment@ =~= chars@.subrange(from as int, x as int + 1));
        }
        x = x + 1;
    }
    if i == n {
        let mut r: Vec<Vec<char>> = Vec::new();
        r.push(fragment);
        return r;
    }
    let mut rest = split_lines_from(chars, i + 1);
    rest.insert(0, fragment);
    rest
}

/// Parse line `k` of the split text; a missing line is empty and is
/// rejected as `Line`.
fn parse_line_at(lines: &Vec<Vec<char>>, k: usize) -> (r: Result<Hour, InvalidCalendar>)
    ensures
        r == parse_hour_line(line_at(lines_of(lines@), k as int)),
{
    if k < lines.len() {
        parse_hour_chars(&lines[k])
    } else {
        let empty: Vec<char> = Vec::new();
        proof {
            assert(empty@ =~= Seq::<char>::empty());
        }
        parse_hour_chars(&empty)
    }
}

/// The character sequences of a vector of lines.
pub open spec fn lines_of(lines: Seq<Vec<char>>) -> Seq<Seq<char>> {
    Seq::new(lines.len(), |k: int| lines[k]@)
}

/// Read appointments from the lines at `k` onwards, in pairs, into
/// `schedule`, stopping at the first pair with a blank member.
fn fill_schedule(lines: &Vec<Vec<char>>, k: usize, schedule: &mut Vec<(Hour, Hour)>) -> (r: Result<
    (),
    InvalidCalendar,
>)
    ensures
        match r {
            Ok(()) => match sched_from(lines_of(lines@), k as int) {
                Ok(rest) => final(schedule)@ == old(schedule)@ + rest,
                Err(_) => false,
            },
            Err(e) => sched_from(lines_of(lines@), k as int) == Err::<
                Seq<(Hour, Hour)>,
                InvalidCalendar,
            >(e),
        },
    decreases lines@.len() + 2 - k,
{
    let ghost ls = lines_of(lines@);
    if k >= lines.len() {
        proof {
            assert(schedule@ =~= old(schedule)@ + Seq::<(Hour, Hour)>::empty());
        }
        return Ok(());
    }
    let blank0 = line_is_blank(lines, k);
    let blank1 = line_is_blank_at(lines, k + 1);
    if blank0 || blank1 {
        proof {
            assert(schedule@ =~= old(schedule)@ + Seq::<(Hour, Hour)>::empty());
        }
        return Ok(());
    }
    let start = match parse_line_at(lines, k) {
        Ok(h) => h,
        Err(e) => {
            return Err(e);
        },
    };
    let end = match parse_line_at(lines, k + 1) {
        Ok(h) => h,
        Err(e) => {
            return Err(e);
        },
    };
    schedule.push((start, end));
    let ghost mid = schedule@;
    let r = fill_schedule(lines, k + 2, schedule);
    proof {
        if r is Ok {
            let rest = sched_from(ls, k as int + 2)->Ok_0;
            assert(schedule@ == mid + rest);
            assert(old(schedule)@.push((start, end)) + rest =~= old(schedule)@ + (seq![
                (start, end),
            ] + rest));
        }
    }
    r
}

/// Whether line `k` is blank after trimming; `k` is within the lines.
fn line_is_blank(lines: &Vec<Vec<char>>, k: usize) -> (r: bool)
    requires
        k < lines@.len(),
    ensures
        r == (spec_trim(line_at(lines_of(lines@), k as int)).len() == 0),
{
    let line = &lines[k];
    let (lo, hi) = trim_range(line, 0, line.len());
    proof {
        assert(line@.subrange(0, line@.len() as int) =~= line@);
    }
    lo == hi
}

/// Whether line `k` is blank after trimming, where a line past the end is
/// blank.
fn line_is_blank_at(lines: &Vec<Vec<char>>, k: usize) -> (r: bool)
    ensures
        r == (spec_trim(line_at(lines_of(lines@), k as int)).len() == 0),
{
    if k < lines.len() {
        line_is_blank(lines, k)
    } else {
        true
    }
}

} // verus!
