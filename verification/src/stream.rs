//! The record stream of a GDS-II file.
//!
//! A file is a list of records, each with a size, a type and a data type in
//! its first four bytes. Two kinds of record stop the parser: a text without
//! a character, and a date that does not exist. Dates carry nothing that a
//! layout needs, so one that may not exist is replaced; a stream with an empty
//! text is turned down.

use vstd::prelude::*;

verus! {

/// The size of the record at `at`, with its header.
pub open spec fn size_at(b: Seq<u8>, at: int) -> int {
    b[at] * 256 + b[at + 1]
}

/// A whole record stands at `at`.
pub open spec fn has_record(b: Seq<u8>, at: int) -> bool {
    &&& 0 <= at
    &&& at + 4 <= b.len()
    &&& size_at(b, at) >= 4
    &&& size_at(b, at) % 2 == 0
    &&& at + size_at(b, at) <= b.len()
}

/// The record at `at` ends the library.
pub open spec fn ends_library(b: Seq<u8>, at: int) -> bool {
    b[at + 2] == 4
}

/// The record at `at` begins a library or a structure, and holds two dates.
pub open spec fn holds_dates(b: Seq<u8>, at: int) -> bool {
    (b[at + 2] == 1 || b[at + 2] == 5) && b[at + 3] == 2 && size_at(b, at) == 28
}

/// The record at `at` is a text without a character.
pub open spec fn is_empty_text(b: Seq<u8>, at: int) -> bool {
    b[at + 3] == 6 && size_at(b, at) == 4
}

/// The year of the date at `at`: a signed number of two bytes.
pub open spec fn year_at(b: Seq<u8>, at: int) -> int {
    let n = b[at] * 256 + b[at + 1];
    if n < 0x8000 {
        n
    } else {
        n - 0x1_0000
    }
}

/// A leap year of the Gregorian calendar.
pub open spec fn is_leap(year: int) -> bool {
    year % 4 == 0 && (year % 100 != 0 || year % 400 == 0)
}

/// The number of days of a month.
pub open spec fn month_days(year: int, month: int) -> int {
    if month == 2 {
        if is_leap(year) {
            29
        } else {
            28
        }
    } else if month == 4 || month == 6 || month == 9 || month == 11 {
        30
    } else {
        31
    }
}

/// The date at `at` exists: year, month, day, hour, minute and second, two
/// bytes each.
pub open spec fn is_date(b: Seq<u8>, at: int) -> bool {
    &&& b[at + 2] == 0 && 1 <= b[at + 3] <= 12
    &&& b[at + 4] == 0 && 1 <= b[at + 5] <= month_days(year_at(b, at), b[at + 3] as int)
    &&& b[at + 6] == 0 && b[at + 7] < 24
    &&& b[at + 8] == 0 && b[at + 9] < 60
    &&& b[at + 10] == 0 && b[at + 11] < 60
}

/// From the record at `at` on, up to the end of the library, every date
/// exists.
pub open spec fn dates_exist(b: Seq<u8>, at: int) -> bool
    decreases b.len() - at,
{
    if has_record(b, at) {
        &&& holds_dates(b, at) ==> is_date(b, at + 4) && is_date(b, at + 16)
        &&& ends_library(b, at) || dates_exist(b, at + size_at(b, at))
    } else {
        true
    }
}

/// From the record at `at` on, up to the end of the library, no text is
/// empty.
pub open spec fn texts_exist(b: Seq<u8>, at: int) -> bool
    decreases b.len() - at,
{
    if has_record(b, at) {
        &&& !is_empty_text(b, at)
        &&& ends_library(b, at) || texts_exist(b, at + size_at(b, at))
    } else {
        true
    }
}

/// Byte `k` of the first of January 1970.
pub open spec fn date_byte(k: int) -> u8 {
    if k == 0 {
        0x07
    } else if k == 1 {
        0xb2
    } else if k == 3 || k == 5 {
        1
    } else {
        0
    }
}

/// The stream with the date at `at` replaced, unless it exists.
pub open spec fn with_date(b: Seq<u8>, at: int) -> Seq<u8> {
    Seq::new(
        b.len(),
        |i: int|
            if at <= i < at + 12 && !is_date(b, at) {
                date_byte(i - at)
            } else {
                b[i]
            },
    )
}

/// The stream with every date replaced that does not exist, from the record
/// at `at` on, up to the end of the library.
pub open spec fn repaired(b: Seq<u8>, at: int) -> Seq<u8>
    decreases b.len() - at,
{
    if has_record(b, at) {
        let c = if holds_dates(b, at) {
            with_date(with_date(b, at + 4), at + 16)
        } else {
            b
        };
        if ends_library(b, at) {
            c
        } else {
            repaired(c, at + size_at(b, at))
        }
    } else {
        b
    }
}

/// The size of the record at `at`, if a whole one stands there.
fn record_size(b: &[u8], at: usize) -> (size: Option<usize>)
    requires
        at <= b@.len(),
    ensures
        size is Some <==> has_record(b@, at as int),
        size is Some ==> size->0 == size_at(b@, at as int),
{
    if b.len() - at < 4 {
        return None;
    }
    let size: usize = b[at] as usize * 256 + b[at + 1] as usize;
    if size >= 4 && size % 2 == 0 && size <= b.len() - at {
        Some(size)
    } else {
        None
    }
}

/// The calendar repeats every 400 years.
proof fn lemma_leap_repeats(year: int)
    ensures
        is_leap(year + 65600) == is_leap(year),
{
    assert((year + 65600) % 4 == year % 4);
    assert((year + 65600) % 100 == year % 100);
    assert((year + 65600) % 400 == year % 400);
}

/// Whether the year of the date at `at` is a leap year.
fn leap_at(b: &[u8], at: usize) -> (leap: bool)
    requires
        at + 12 <= b@.len(),
    ensures
        leap == is_leap(year_at(b@, at as int)),
{
    let n: u32 = b[at] as u32 * 256 + b[at + 1] as u32;
    // A year before the year 0 is moved on by a multiple of 400 years.
    let year: u32 = if n < 0x8000 {
        n
    } else {
        n + 64
    };
    proof {
        lemma_leap_repeats(year_at(b@, at as int));
    }
    year % 4 == 0 && (year % 100 != 0 || year % 400 == 0)
}

/// Whether the date at `at` exists.
fn date_exists(b: &[u8], at: usize) -> (found: bool)
    requires
        at + 12 <= b@.len(),
    ensures
        found == is_date(b@, at as int),
{
    let count: usize = b.len();
    assert(at + 12 <= count);
    let month: u8 = b[at + 3];
    let days: u8 = if month == 2 {
        if leap_at(b, at) {
            29
        } else {
            28
        }
    } else if month == 4 || month == 6 || month == 9 || month == 11 {
        30
    } else {
        31
    };
    b[at + 2] == 0 && 1 <= month && month <= 12 && b[at + 4] == 0 && 1 <= b[at + 5] && b[at + 5]
        <= days && b[at + 6] == 0 && b[at + 7] < 24 && b[at + 8] == 0 && b[at + 9] < 60 && b[at + 10]
        == 0 && b[at + 11] < 60
}

/// Replaces the date at `at`, unless it exists.
fn repair_date(b: &mut Vec<u8>, at: usize)
    requires
        at + 12 <= old(b)@.len(),
    ensures
        final(b)@ == with_date(old(b)@, at as int),
{
    let ghost before = b@;
    let count: usize = b.len();
    if date_exists(b, at) {
        assert(b@ =~= with_date(before, at as int));
        return ;
    }
    let mut k: usize = 0;
    while k < 12
        invariant
            k <= 12,
            at + 12 <= b@.len() == before.len() == count,
            forall|i: int|
                0 <= i < b@.len() ==> #[trigger] b@[i] == if at <= i < at + k {
                    date_byte(i - at)
                } else {
                    before[i]
                },
        decreases 12 - k,
    {
        let byte: u8 = if k == 0 {
            0x07
        } else if k == 1 {
            0xb2
        } else if k == 3 || k == 5 {
            1
        } else {
            0
        };
        b.set(at + k, byte);
        k = k + 1;
    }
    assert(b@ =~= with_date(before, at as int));
}

/// Replaces every date of a stream that does not exist.
pub fn repair_dates(bytes: Vec<u8>) -> (r: Vec<u8>)
    ensures
        r@ == repaired(bytes@, 0),
{
    let mut b = bytes;
    let mut at: usize = 0;
    let mut ended = false;
    while !ended
        invariant
            at <= b@.len(),
            if ended {
                b@ == repaired(bytes@, 0)
            } else {
                repaired(b@, at as int) == repaired(bytes@, 0)
            },
        decreases b@.len() - at, (if ended { 0int } else { 1int }),
    {
        let count: usize = b.len();
        match record_size(&b, at) {
            Some(size) => {
                assert(at + size <= count);
                let kind: u8 = b[at + 2];
                if (kind == 1 || kind == 5) && b[at + 3] == 2 && size == 28 {
                    repair_date(&mut b, at + 4);
                    repair_date(&mut b, at + 16);
                }
                if kind == 4 {
                    ended = true;
                } else {
                    at = at + size;
                }
            },
            None => {
                ended = true;
            },
        }
    }
    b
}

/// Whether no text of a stream is empty.
pub fn has_texts(b: &[u8]) -> (ok: bool)
    ensures
        ok == texts_exist(b@, 0),
{
    let mut at: usize = 0;
    while at < b.len()
        invariant
            at <= b@.len(),
            texts_exist(b@, at as int) == texts_exist(b@, 0),
        decreases b@.len() - at,
    {
        let count: usize = b.len();
        match record_size(b, at) {
            Some(size) => {
                assert(at + size <= count);
                if b[at + 3] == 6 && size == 4 {
                    return false;
                }
                if b[at + 2] == 4 {
                    return true;
                }
                at = at + size;
            },
            None => {
                return true;
            },
        }
    }
    true
}

// ---- laws ----

/// Repairs keep the length, and everything before the first record that they
/// look at.
proof fn lemma_repairs_keep_prefix(b: Seq<u8>, at: int)
    ensures
        repaired(b, at).len() == b.len(),
        forall|i: int|
            0 <= i < b.len() && i < at + 4 ==> #[trigger] repaired(b, at)[i] == b[i],
    decreases b.len() - at,
{
    if has_record(b, at) {
        let c = if holds_dates(b, at) {
            with_date(with_date(b, at + 4), at + 16)
        } else {
            b
        };
        if !ends_library(b, at) {
            lemma_repairs_keep_prefix(c, at + size_at(b, at));
        }
    }
}

/// In a repaired stream every date exists.
pub proof fn law_repaired_dates_exist(b: Seq<u8>, at: int)
    ensures
        dates_exist(repaired(b, at), at),
    decreases b.len() - at,
{
    let r = repaired(b, at);
    lemma_repairs_keep_prefix(b, at);
    if has_record(b, at) {
        let next = at + size_at(b, at);
        let c = if holds_dates(b, at) {
            with_date(with_date(b, at + 4), at + 16)
        } else {
            b
        };
        assert(size_at(r, at) == size_at(b, at));
        if !ends_library(b, at) {
            law_repaired_dates_exist(c, next);
            lemma_repairs_keep_prefix(c, next);
        }
        if holds_dates(b, at) {
            let d = with_date(b, at + 4);
            assert(is_date(d, at + 4));
            assert forall|i: int| at + 4 <= i < at + 16 implies #[trigger] c[i] == d[i] by {}
            assert(is_date(c, at + 4));
            assert(is_date(c, at + 16));
            assert forall|i: int| at + 4 <= i < at + 28 implies #[trigger] r[i] == c[i] by {}
            assert(is_date(r, at + 4));
            assert(is_date(r, at + 16));
        }
    }
}

/// A stream whose dates exist is left as it is.
pub proof fn law_repair_changes_nothing_else(b: Seq<u8>, at: int)
    requires
        dates_exist(b, at),
    ensures
        repaired(b, at) == b,
    decreases b.len() - at,
{
    if has_record(b, at) {
        if holds_dates(b, at) {
            assert(with_date(b, at + 4) =~= b);
            assert(with_date(b, at + 16) =~= b);
        }
        if !ends_library(b, at) {
            law_repair_changes_nothing_else(b, at + size_at(b, at));
        }
    }
}

/// The number in the two bytes at `at`, the higher byte first.
pub open spec fn number_at(b: Seq<u8>, at: int) -> int {
    b[at] * 0x100 + b[at + 1]
}

/// The number in the two bytes at `at`, as a signed one.
pub open spec fn signed_at(b: Seq<u8>, at: int) -> int {
    if number_at(b, at) < 0x8000 {
        number_at(b, at)
    } else {
        number_at(b, at) - 0x1_0000
    }
}

/// A date exists exactly if its six numbers say a month of the year, a day
/// that the month has in that year, and a time of day.
pub proof fn law_dates_are_days_of_the_calendar(b: Seq<u8>, at: int)
    ensures
        ({
            let year = signed_at(b, at);
            let (month, day) = (number_at(b, at + 2), number_at(b, at + 4));
            let leap = (year % 4 == 0 && year % 100 != 0) || year % 400 == 0;
            let is_long = month == 1 || month == 3 || month == 5 || month == 7 || month == 8 || month
                == 10 || month == 12;
            let is_short = month == 4 || month == 6 || month == 9 || month == 11;
            is_date(b, at) <==> {
                &&& is_long || is_short || month == 2
                &&& 1 <= day
                &&& is_long ==> day <= 31
                &&& is_short ==> day <= 30
                &&& month == 2 && leap ==> day <= 29
                &&& month == 2 && !leap ==> day <= 28
                &&& number_at(b, at + 6) < 24
                &&& number_at(b, at + 8) < 60
                &&& number_at(b, at + 10) < 60
            }
        }),
{
    let year = year_at(b, at);
    assert(year == signed_at(b, at));
    if year % 400 == 0 {
        assert(year % 4 == 0);
    }
}

/// A record of a stream starts at `at`, seen from the one at `from`: records
/// follow each other up to the end of the library.
pub open spec fn starts_record(b: Seq<u8>, from: int, at: int) -> bool
    decreases b.len() - from,
{
    &&& 0 <= from && from + 4 <= b.len()
    &&& number_at(b, from) >= 4 && number_at(b, from) % 2 == 0
    &&& from + number_at(b, from) <= b.len()
    &&& at == from || (b[from + 2] != 4 && from + 4 <= at && starts_record(
        b,
        from + number_at(b, from),
        at,
    ))
}

/// The record at `at` is the begin of a library or of a structure, with its
/// two dates.
pub open spec fn begins_with_dates(b: Seq<u8>, at: int) -> bool {
    number_at(b, at) == 28 && (b[at + 2] == 1 || b[at + 2] == 5) && b[at + 3] == 2
}

/// Byte `i` is in one of the two dates of a record of the stream, and the date
/// does not exist; it begins at `date`.
pub open spec fn is_in_bad_date(b: Seq<u8>, from: int, at: int, date: int, i: int) -> bool {
    &&& starts_record(b, from, at)
    &&& begins_with_dates(b, at)
    &&& date == at + 4 || date == at + 16
    &&& date <= i < date + 12
    &&& !is_date(b, date)
}

/// A repair changes only dates that do not exist: these become the first of
/// January 1970, and every other byte stays as it is.
pub proof fn law_repair_changes_only_bad_dates(b: Seq<u8>, i: int)
    requires
        0 <= i < b.len(),
    ensures
        repaired(b, 0).len() == b.len(),
        !(exists|at: int, date: int| #[trigger] is_in_bad_date(b, 0, at, date, i)) ==> repaired(
            b,
            0,
        )[i] == b[i],
        forall|at: int, date: int| #[trigger]
            is_in_bad_date(b, 0, at, date, i) ==> repaired(b, 0)[i] == if i == date {
                0x07u8
            } else if i == date + 1 {
                0xb2
            } else if i == date + 3 || i == date + 5 {
                1
            } else {
                0
            },
{
    lemma_repairs_keep_prefix(b, 0);
    lemma_repair_from(b, b, 0, i);
}

/// What a repair from the record at `from` on does to byte `i`, where `c` is
/// the stream `b` with the records before repaired.
proof fn lemma_repair_from(b: Seq<u8>, c: Seq<u8>, from: int, i: int)
    requires
        0 <= from,
        c.len() == b.len(),
        0 <= i < b.len(),
        forall|k: int| from <= k < b.len() ==> c[k] == b[k],
    ensures
        !(exists|at: int, date: int| #[trigger] is_in_bad_date(b, from, at, date, i)) ==> repaired(
            c,
            from,
        )[i] == c[i],
        forall|at: int, date: int| #[trigger]
            is_in_bad_date(b, from, at, date, i) ==> repaired(c, from)[i] == date_byte(i - date),
    decreases b.len() - from,
{
    if has_record(c, from) {
        let size = size_at(c, from);
        let next = from + size;
        let d = if holds_dates(c, from) {
            with_date(with_date(c, from + 4), from + 16)
        } else {
            c
        };
        assert(starts_record(b, from, from));
        assert(begins_with_dates(b, from) == holds_dates(c, from));
        if holds_dates(c, from) {
            let e = with_date(c, from + 4);
            assert(is_date(c, from + 4) == is_date(b, from + 4));
            assert(is_date(e, from + 16) == is_date(b, from + 16));
            assert forall|k: int| 0 <= k < c.len() implies #[trigger] d[k] == if from + 4 <= k < from
                + 16 && !is_date(b, from + 4) {
                date_byte(k - from - 4)
            } else if from + 16 <= k < from + 28 && !is_date(b, from + 16) {
                date_byte(k - from - 16)
            } else {
                c[k]
            } by {}
        }
        assert(forall|k: int| next <= k < b.len() ==> d[k] == b[k]);
        if i < next {
            assert forall|at: int, date: int| #[trigger]
                is_in_bad_date(b, from, at, date, i) implies at == from by {
                if at != from {
                    lemma_records_follow(b, next, at);
                }
            }
            if is_in_bad_date(b, from, from, from + 4, i) || is_in_bad_date(
                b,
                from,
                from,
                from + 16,
                i,
            ) {
            } else if holds_dates(c, from) {
                assert(d[i] == c[i]);
            }
            if !ends_library(c, from) {
                lemma_repairs_keep_prefix(d, next);
            }
        } else {
            assert(d[i] == c[i]);
            if !ends_library(c, from) {
                lemma_repair_from(b, d, next, i);
                assert forall|at: int, date: int| #[trigger]
                    is_in_bad_date(b, from, at, date, i) implies is_in_bad_date(
                    b,
                    next,
                    at,
                    date,
                    i,
                ) by {}
                assert forall|at: int, date: int| #[trigger]
                    is_in_bad_date(b, next, at, date, i) implies is_in_bad_date(
                    b,
                    from,
                    at,
                    date,
                    i,
                ) by {
                    lemma_records_follow(b, next, at);
                }
            } else {
                assert forall|at: int, date: int| !(#[trigger]
                is_in_bad_date(b, from, at, date, i)) by {}
            }
        }
    } else {
        assert forall|at: int, date: int| !(#[trigger] is_in_bad_date(b, from, at, date, i)) by {}
    }
}

/// A record does not start before the one from which it is seen.
proof fn lemma_records_follow(b: Seq<u8>, from: int, at: int)
    requires
        starts_record(b, from, at),
    ensures
        at >= from,
{
}

/// A stream has no empty text exactly if none of its records is a text record
/// of a header alone.
pub proof fn law_texts_exist_in_every_record(b: Seq<u8>)
    ensures
        texts_exist(b, 0) <==> forall|at: int| #[trigger]
            starts_record(b, 0, at) ==> !(number_at(b, at) == 4 && b[at + 3] == 6),
{
    lemma_texts_from(b, 0);
}

proof fn lemma_texts_from(b: Seq<u8>, from: int)
    requires
        0 <= from,
    ensures
        texts_exist(b, from) <==> forall|at: int| #[trigger]
            starts_record(b, from, at) ==> !(number_at(b, at) == 4 && b[at + 3] == 6),
    decreases b.len() - from,
{
    if has_record(b, from) {
        let next = from + size_at(b, from);
        assert(starts_record(b, from, from));
        if !ends_library(b, from) {
            lemma_texts_from(b, next);
            assert forall|at: int| #[trigger] starts_record(b, next, at) implies starts_record(
                b,
                from,
                at,
            ) by {
                lemma_records_follow(b, next, at);
            }
            assert forall|at: int| #[trigger] starts_record(b, from, at) && at
                != from implies starts_record(b, next, at) by {}
        }
    } else {
        assert forall|at: int| !(#[trigger] starts_record(b, from, at)) by {}
    }
}

} // verus!
