//! Reads the encoder's progress reports.

use vstd::prelude::*;

verus! {

/// A full percentage, in thousandths of a percent.
pub const FULL_PERCENTAGE: i128 = 100_000;

/// The bytes `out_time_us=`, with which a report of the time written so far
/// begins.
pub open spec fn progress_key() -> Seq<u8> {
    seq![0x6fu8, 0x75u8, 0x74u8, 0x5fu8, 0x74u8, 0x69u8, 0x6du8, 0x65u8, 0x5fu8, 0x75u8, 0x73u8, 0x3du8]
}

/// The byte is a blank, a tab, a line feed, a vertical tab, a form feed or a
/// carriage return.
pub open spec fn is_space(byte: u8) -> bool {
    byte == 0x20 || 0x09 <= byte <= 0x0d
}

/// The byte is a decimal digit.
pub open spec fn is_digit(byte: u8) -> bool {
    0x30 <= byte <= 0x39
}

/// Every byte is a decimal digit.
pub open spec fn all_digits(text: Seq<u8>) -> bool {
    forall|i: int| 0 <= i < text.len() ==> is_digit(#[trigger] text[i])
}

/// The text without the white space at its start.
pub open spec fn trim_start(text: Seq<u8>) -> Seq<u8>
    decreases text.len(),
{
    if text.len() > 0 && is_space(text[0]) {
        trim_start(text.skip(1))
    } else {
        text
    }
}

/// The text without the white space at its end.
pub open spec fn trim_end(text: Seq<u8>) -> Seq<u8>
    decreases text.len(),
{
    if text.len() > 0 && is_space(text.last()) {
        trim_end(text.drop_last())
    } else {
        text
    }
}

/// The number that the decimal digits stand for.
pub open spec fn digits_value(digits: Seq<u8>) -> int
    decreases digits.len(),
{
    if digits.len() == 0 {
        0
    } else {
        digits_value(digits.drop_last()) * 10 + (digits.last() - 0x30)
    }
}

/// The number written in the text: decimal digits, at least one, with or
/// without a sign in front, as far as the number fits in 64 bits.
pub open spec fn integer_of(text: Seq<u8>) -> Option<i64> {
    let signed = text.len() > 0 && (text[0] == 0x2d || text[0] == 0x2b);
    let digits = if signed {
        text.skip(1)
    } else {
        text
    };
    let value = if text.len() > 0 && text[0] == 0x2d {
        -digits_value(digits)
    } else {
        digits_value(digits)
    };
    if digits.len() > 0 && all_digits(digits) && i64::MIN <= value <= i64::MAX {
        Some(value as i64)
    } else {
        None
    }
}

/// The time in microseconds that a line of the encoder's progress output
/// reports: the number behind `out_time_us=`, white space around it aside.
/// Other lines report none.
pub open spec fn progress_time(line: Seq<u8>) -> Option<i64> {
    if line.len() >= 12 && line.subrange(0, 12) == progress_key() {
        integer_of(trim_end(trim_start(line.skip(12))))
    } else {
        None
    }
}

/// The share of `total_duration` that `current_time` is, in thousandths of a
/// percent, rounded towards zero and at most a full hundred percent.
pub open spec fn percentage_of(current_time: i64, total_duration: u64) -> int {
    let share = if current_time >= 0 {
        current_time * 100_000 / (total_duration as int)
    } else {
        -((-current_time) * 100_000 / (total_duration as int))
    };
    if share > 100_000 {
        100_000
    } else {
        share
    }
}

/// Digits that go on stand for no smaller a number.
proof fn lemma_digits_value_grows(digits: Seq<u8>, count: int)
    requires
        all_digits(digits),
        0 <= count <= digits.len(),
    ensures
        0 <= digits_value(digits.subrange(0, count)) <= digits_value(digits),
    decreases digits.len(),
{
    if digits.len() == 0 {
        assert(digits.subrange(0, count) == digits);
    } else if count == digits.len() {
        assert(digits.subrange(0, count) == digits);
        let head = digits.drop_last();
        assert forall|i: int| 0 <= i < head.len() implies is_digit(#[trigger] head[i]) by {
            assert(head[i] == digits[i]);
        }
        lemma_digits_value_grows(head, head.len() as int);
        assert(is_digit(digits[digits.len() - 1]));
    } else {
        let head = digits.drop_last();
        assert forall|i: int| 0 <= i < head.len() implies is_digit(#[trigger] head[i]) by {
            assert(head[i] == digits[i]);
        }
        lemma_digits_value_grows(head, count);
        assert(head.subrange(0, count) == digits.subrange(0, count));
        assert(is_digit(digits[digits.len() - 1]));
    }
}

/// Whether the byte is white space.
fn byte_is_space(byte: u8) -> (space: bool)
    ensures
        space == is_space(byte),
{
    byte == 0x20 || (0x09 <= byte && byte <= 0x0d)
}

/// The number written in the bytes from `from` up to `to`.
#[verifier::loop_isolation(false)]
fn parse_integer(text: &[u8], from: usize, to: usize) -> (value: Option<i64>)
    requires
        from <= to <= text@.len(),
    ensures
        value == integer_of(text@.subrange(from as int, to as int)),
{
    let ghost whole = text@.subrange(from as int, to as int);
    if from == to {
        return None;
    }
    let first = text[from];
    assert(whole[0] == first);
    let negative = first == 0x2d;
    let start: usize = if first == 0x2d || first == 0x2b {
        from + 1
    } else {
        from
    };
    let ghost digits = text@.subrange(start as int, to as int);
    assert(digits == if start > from {
        whole.skip(1)
    } else {
        whole
    });
    if start == to {
        return None;
    }
    let limit: u64 = if negative {
        0x8000_0000_0000_0000
    } else {
        0x7fff_ffff_ffff_ffff
    };
    let mut magnitude: u64 = 0;
    let mut i: usize = start;
    while i < to
        invariant
            start <= i <= to <= text@.len(),
            digits == text@.subrange(start as int, to as int),
            all_digits(digits.subrange(0, i - start)),
            magnitude == digits_value(digits.subrange(0, i - start)),
            magnitude <= limit,
            limit <= 0x8000_0000_0000_0000,
        decreases to - i,
    {
        let byte = text[i];
        proof {
            let next = digits.subrange(0, i - start + 1);
            assert(next.drop_last() == digits.subrange(0, i - start));
            assert(next.last() == byte);
            assert(digits[i - start] == byte);
        }
        if byte < 0x30 || byte > 0x39 {
            return None;
        }
        let digit: u64 = (byte - 0x30) as u64;
        if magnitude > (limit - digit) / 10 {
            proof {
                let next = digits.subrange(0, i - start + 1);
                assert(digits_value(next) > limit);
                if all_digits(digits) {
                    lemma_digits_value_grows(digits, i - start + 1);
                }
            }
            return None;
        }
        magnitude = magnitude * 10 + digit;
        proof {
            let next = digits.subrange(0, i - start + 1);
            assert forall|k: int| 0 <= k < next.len() implies is_digit(#[trigger] next[k]) by {
                if k < i - start {
                    assert(next[k] == digits.subrange(0, i - start)[k]);
                }
            }
        }
        i += 1;
    }
    proof {
        assert(digits.subrange(0, to - start) == digits);
    }
    if negative {
        if magnitude == 0x8000_0000_0000_0000 {
            Some(i64::MIN)
        } else {
            Some(-(magnitude as i64))
        }
    } else {
        Some(magnitude as i64)
    }
}

/// Reads one line of the encoder's progress output. A line that begins with
/// `out_time_us=` and goes on with a number reports the time written so far,
/// in microseconds; any other line reports nothing.
pub fn parse_progress_line(line: &[u8]) -> (time: Option<i64>)
    ensures
        time == progress_time(line@),
{
    if line.len() < 12 {
        return None;
    }
    if !(line[0] == 0x6f && line[1] == 0x75 && line[2] == 0x74 && line[3] == 0x5f && line[4] == 0x74
        && line[5] == 0x69 && line[6] == 0x6d && line[7] == 0x65 && line[8] == 0x5f && line[9]
        == 0x75 && line[10] == 0x73 && line[11] == 0x3d) {
        proof {
            let head = line@.subrange(0, 12);
            assert(head[0] == line@[0] && head[1] == line@[1] && head[2] == line@[2] && head[3]
                == line@[3] && head[4] == line@[4] && head[5] == line@[5] && head[6] == line@[6]
                && head[7] == line@[7] && head[8] == line@[8] && head[9] == line@[9] && head[10]
                == line@[10] && head[11] == line@[11]);
        }
        return None;
    }
    assert(line@.subrange(0, 12) =~= progress_key());
    let ghost rest = line@.skip(12);
    let mut start: usize = 12;
    while start < line.len() && byte_is_space(line[start])
        invariant
            12 <= start <= line@.len(),
            trim_start(rest) == trim_start(line@.skip(start as int)),
        decreases line@.len() - start,
    {
        proof {
            assert(line@.skip(start as int).skip(1) == line@.skip(start + 1));
            assert(line@.skip(start as int)[0] == line@[start as int]);
        }
        start += 1;
    }
    proof {
        if start < line@.len() {
            assert(line@.skip(start as int)[0] == line@[start as int]);
        }
        assert(line@.skip(start as int) == line@.subrange(start as int, line@.len() as int));
    }
    let mut end: usize = line.len();
    while end > start && byte_is_space(line[end - 1])
        invariant
            start <= end <= line@.len(),
            trim_end(trim_start(rest)) == trim_end(line@.subrange(start as int, end as int)),
        decreases end,
    {
        proof {
            let part = line@.subrange(start as int, end as int);
            assert(part.drop_last() == line@.subrange(start as int, end - 1));
            assert(part.last() == line@[end - 1]);
        }
        end -= 1;
    }
    proof {
        let part = line@.subrange(start as int, end as int);
        if end > start {
            assert(part.last() == line@[end - 1]);
        }
    }
    parse_integer(line, start, end)
}

/// The share of the export that is done when the encoder has written
/// `current_time` of `total_duration`, in thousandths of a percent.
pub fn progress_percentage(current_time: i64, total_duration: u64) -> (percentage: i128)
    requires
        total_duration > 0,
    ensures
        percentage == percentage_of(current_time, total_duration),
        percentage <= FULL_PERCENTAGE,
{
    let share: i128 = if current_time >= 0 {
        (current_time as u128 * 100_000 / total_duration as u128) as i128
    } else {
        let behind: u128 = (-(current_time as i128)) as u128;
        let below: u128 = behind * 100_000 / total_duration as u128;
        assert(below <= behind * 100_000) by (nonlinear_arith)
            requires
                below == (behind * 100_000) / (total_duration as int),
                total_duration >= 1,
        ;
        -(below as i128)
    };
    if share > FULL_PERCENTAGE {
        FULL_PERCENTAGE
    } else {
        share
    }
}

} // verus!
