//! Region coordinates from a file name of the shape `prefix.x.z.ext`.

use crate::error::RegionError;
use crate::region::Region;
use vstd::prelude::*;
use vstd::string::StringSliceAdditionalSpecFns;

verus! {

/// Whether `b` is an ASCII decimal digit.
pub open spec fn is_digit(b: u8) -> bool {
    48 <= b <= 57
}

/// Whether `s` holds decimal digits only.
pub open spec fn all_digits(s: Seq<u8>) -> bool {
    forall|i: int| 0 <= i < s.len() ==> is_digit(#[trigger] s[i])
}

/// The number that a string of decimal digits writes.
pub open spec fn digits_value(s: Seq<u8>) -> int
    decreases s.len(),
{
    if s.len() == 0 {
        0
    } else {
        digits_value(s.drop_last()) * 10 + (s.last() - 48)
    }
}

/// The `i32` that `s` writes in decimal: an optional `+` or `-`, then one digit or more,
/// with a value that fits. Anything else writes no number.
pub open spec fn decimal_i32(s: Seq<u8>) -> Option<i32> {
    let signed = s.len() > 0 && (s[0] == 43 || s[0] == 45);
    let digits = if signed {
        s.subrange(1, s.len() as int)
    } else {
        s
    };
    let magnitude = digits_value(digits);
    let value = if signed && s[0] == 45 {
        -magnitude
    } else {
        magnitude
    };
    if digits.len() > 0 && all_digits(digits) && i32::MIN <= value <= i32::MAX {
        Some(value as i32)
    } else {
        None
    }
}

/// Index of the first `.` of `s` at or after `from`, or `s.len()` where there is none.
pub open spec fn next_dot(s: Seq<u8>, from: int) -> int
    decreases s.len() - from,
{
    if from >= s.len() {
        s.len() as int
    } else if s[from] == 46 {
        from
    } else {
        next_dot(s, from + 1)
    }
}

/// The coordinates that a file name gives: the name is cut at its dots, there are three
/// parts or more, and the second and third part each write an `i32` in decimal.
pub open spec fn filename_coords(name: Seq<u8>) -> Option<(i32, i32)> {
    let first = next_dot(name, 0);
    let second = next_dot(name, first + 1);
    let third = next_dot(name, second + 1);
    if first >= name.len() || second >= name.len() {
        None
    } else {
        match (
            decimal_i32(name.subrange(first + 1, second)),
            decimal_i32(name.subrange(second + 1, third)),
        ) {
            (Some(x), Some(z)) => Some((x, z)),
            _ => None,
        }
    }
}

/// The value of a digit string does not shrink when digits are appended.
proof fn lemma_digits_value_grows(s: Seq<u8>, n: int)
    requires
        0 <= n <= s.len(),
        all_digits(s),
    ensures
        0 <= digits_value(s.subrange(0, n)) <= digits_value(s),
    decreases s.len() - n,
{
    if n == s.len() {
        assert(s.subrange(0, n) =~= s);
        lemma_digits_value_nonnegative(s);
    } else {
        lemma_digits_value_grows(s, n + 1);
        let longer = s.subrange(0, n + 1);
        assert(longer.drop_last() =~= s.subrange(0, n));
        assert(is_digit(s[n]));
        lemma_digits_value_nonnegative(s.subrange(0, n));
    }
}

/// The value of a digit string is not negative.
proof fn lemma_digits_value_nonnegative(s: Seq<u8>)
    requires
        all_digits(s),
    ensures
        0 <= digits_value(s),
    decreases s.len(),
{
    if s.len() > 0 {
        assert(is_digit(s[s.len() - 1]));
        lemma_digits_value_nonnegative(s.drop_last());
    }
}

/// Index of the first `.` of `data` at or after `from`, or its length where there is none.
fn find_dot(data: &[u8], from: usize) -> (at: usize)
    requires
        from <= data@.len(),
    ensures
        at == next_dot(data@, from as int),
        from <= at <= data@.len(),
{
    let mut i: usize = from;
    while i < data.len() && data[i] != 46
        invariant
            from <= i <= data@.len(),
            next_dot(data@, from as int) == next_dot(data@, i as int),
        decreases data@.len() - i,
    {
        i += 1;
    }
    i
}

/// Reads `data[from..to]` as a decimal `i32`.
#[verifier::loop_isolation(false)]
fn parse_decimal(data: &[u8], from: usize, to: usize) -> (value: Option<i32>)
    requires
        from <= to <= data@.len(),
    ensures
        value == decimal_i32(data@.subrange(from as int, to as int)),
{
    let ghost s = data@.subrange(from as int, to as int);
    if from == to {
        return None;
    }
    let negative: bool = data[from] == 45;
    let signed: bool = negative || data[from] == 43;
    let start: usize = if signed {
        from + 1
    } else {
        from
    };
    let ghost digits = data@.subrange(start as int, to as int);
    assert(digits =~= if signed {
        s.subrange(1, s.len() as int)
    } else {
        s
    });
    if start == to {
        return None;
    }
    let mut magnitude: i64 = 0;
    let mut i: usize = start;
    while i < to
        invariant
            start <= i <= to <= data@.len(),
            digits == data@.subrange(start as int, to as int),
            all_digits(digits.subrange(0, i - start)),
            magnitude == digits_value(digits.subrange(0, i - start)),
            0 <= magnitude <= 0x8000_0000,
        decreases to - i,
    {
        let b: u8 = data[i];
        let ghost before = digits.subrange(0, i - start);
        let ghost after = digits.subrange(0, i - start + 1);
        assert(after.drop_last() =~= before);
        assert(after.last() == b);
        if b < 48 || b > 57 {
            assert(!is_digit(digits[i - start]));
            return None;
        }
        assert(all_digits(after)) by {
            assert forall|k: int| 0 <= k < after.len() implies is_digit(#[trigger] after[k]) by {
                if k < before.len() {
                    assert(before[k] == after[k]);
                }
            }
        }
        magnitude = magnitude * 10 + (b - 48) as i64;
        i += 1;
        if magnitude > 0x8000_0000 {
            let mut j: usize = i;
            while j < to
                invariant
                    i <= j <= to <= data@.len(),
                    start <= i,
                    digits == data@.subrange(start as int, to as int),
                    all_digits(digits.subrange(0, j - start)),
                decreases to - j,
            {
                let c: u8 = data[j];
                if c < 48 || c > 57 {
                    assert(!is_digit(digits[j - start]));
                    return None;
                }
                let ghost seen = digits.subrange(0, j - start);
                let ghost more = digits.subrange(0, j - start + 1);
                assert(all_digits(more)) by {
                    assert forall|k: int| 0 <= k < more.len() implies is_digit(
                        #[trigger] more[k],
                    ) by {
                        if k < seen.len() {
                            assert(seen[k] == more[k]);
                        }
                    }
                }
                j += 1;
            }
            proof {
                assert(digits.subrange(0, to - start) =~= digits);
                lemma_digits_value_grows(digits, i - start);
            }
            return None;
        }
    }
    assert(digits.subrange(0, to - start) =~= digits);
    if negative {
        Some((-magnitude) as i32)
    } else if magnitude > 0x7fff_ffff {
        None
    } else {
        Some(magnitude as i32)
    }
}

impl Region {
    /// Reads the region coordinates out of a file name such as `r.-1.4.mca`. The name is
    /// cut at its dots; it needs three parts or more, of which the second and the third are
    /// the coordinates in decimal. The extension is not looked at.
    pub fn parse_filename(filename: &str) -> (coords: Result<(i32, i32), RegionError>)
        ensures
            match coords {
                Ok(pair) => filename_coords(filename.spec_bytes()) == Some(pair),
                Err(e) => filename_coords(filename.spec_bytes()).is_none() && e.failure()
                    == crate::error::Failure::InvalidFormat,
            },
    {
        let data: &[u8] = filename.as_bytes();
        let first: usize = find_dot(data, 0);
        if first >= data.len() {
            return Err(RegionError::InvalidFormat);
        }
        let second: usize = find_dot(data, first + 1);
        if second >= data.len() {
            return Err(RegionError::InvalidFormat);
        }
        let third: usize = find_dot(data, second + 1);
        let x: Option<i32> = parse_decimal(data, first + 1, second);
        let z: Option<i32> = parse_decimal(data, second + 1, third);
        match (x, z) {
            (Some(x), Some(z)) => Ok((x, z)),
            _ => Err(RegionError::InvalidFormat),
        }
    }
}

} // verus!
