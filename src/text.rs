//! Byte-level field splitting and number parsing for record text.
use vstd::prelude::*;

verus! {

/// Largest intensity, in thousandths of a unit; larger readings saturate here.
pub const MAX_MILLI: u64 = 1_000_000_000_000;

/// Integer part at which an intensity reading saturates.
pub const INT_PART_CAP: u64 = 1_000_000_000;

pub open spec fn is_digit(c: u8) -> bool {
    48 <= c <= 57
}

pub open spec fn all_digits(s: Seq<u8>) -> bool {
    forall|i: int| 0 <= i < s.len() ==> is_digit(#[trigger] s[i])
}

/// Value of a run of decimal digits, most significant first.
pub open spec fn digits_value(s: Seq<u8>) -> nat
    decreases s.len(),
{
    if s.len() == 0 {
        0
    } else {
        (digits_value(s.drop_last()) * 10 + (s.last() - 48)) as nat
    }
}

/// The pieces of `s` between occurrences of the delimiter `d`; text with no
/// delimiter is one piece.
pub open spec fn split_seq(s: Seq<u8>, d: u8) -> Seq<Seq<u8>>
    decreases s.len(),
{
    if s.len() == 0 {
        seq![Seq::<u8>::empty()]
    } else {
        let p = split_seq(s.drop_last(), d);
        if s.last() == d {
            p.push(Seq::<u8>::empty())
        } else {
            p.update(p.len() - 1, p.last().push(s.last()))
        }
    }
}

/// `r` cuts `s[lo..hi]` at every occurrence of the delimiter `d`: the pieces
/// are `s[r[k].0 .. r[k].1]`, in order, none of them holding `d`.
pub open spec fn is_split(s: Seq<u8>, lo: int, hi: int, d: u8, r: Seq<(usize, usize)>) -> bool {
    &&& r.len() >= 1
    &&& r[0].0 == lo
    &&& r.last().1 == hi
    &&& forall|k: int|
        0 <= k < r.len() ==> lo <= (#[trigger] r[k]).0 <= r[k].1 <= hi && forall|j: int|
            r[k].0 <= j < r[k].1 ==> s[j] != d
    &&& forall|k: int|
        0 <= k < r.len() - 1 ==> s[(#[trigger] r[k]).1 as int] == d && r[k + 1].0 == r[k].1
            + 1
}

/// The text of an integer field: an optional sign and at least one digit.
pub open spec fn int_text(s: Seq<u8>) -> Option<int> {
    if s.len() >= 2 && s[0] == 45 && all_digits(s.skip(1)) {
        Some(-digits_value(s.skip(1)))
    } else if s.len() >= 2 && s[0] == 43 && all_digits(s.skip(1)) {
        Some(digits_value(s.skip(1)) as int)
    } else if s.len() >= 1 && all_digits(s) {
        Some(digits_value(s) as int)
    } else {
        None
    }
}

/// An integer field as a 32-bit value: `None` when it is not an integer or
/// does not fit.
pub open spec fn i32_text(s: Seq<u8>) -> Option<i32> {
    match int_text(s) {
        Some(v) => if i32::MIN <= v <= i32::MAX {
            Some(v as i32)
        } else {
            None
        },
        None => None,
    }
}

/// Index of the first `.` at or after `i`, or the length when there is none.
pub open spec fn first_dot_from(s: Seq<u8>, i: int) -> int
    decreases s.len() - i,
{
    if i >= s.len() {
        s.len() as int
    } else if s[i] == 46 {
        i
    } else {
        first_dot_from(s, i + 1)
    }
}

/// Thousandths carried by the digits after a decimal point; further digits
/// are truncated.
pub open spec fn frac_milli(f: Seq<u8>) -> nat {
    if f.len() >= 3 {
        digits_value(f.take(3))
    } else if f.len() == 2 {
        digits_value(f) * 10
    } else if f.len() == 1 {
        digits_value(f) * 100
    } else {
        0
    }
}

/// An unsigned decimal (`12`, `12.5`, `.5`, `12.`) in thousandths, before
/// saturation.
pub open spec fn unsigned_decimal(b: Seq<u8>) -> Option<nat> {
    let p = first_dot_from(b, 0);
    let a = b.take(p);
    let f = if p < b.len() {
        b.skip(p + 1)
    } else {
        Seq::<u8>::empty()
    };
    if all_digits(a) && all_digits(f) && a.len() + f.len() >= 1 {
        Some(digits_value(a) * 1000 + frac_milli(f))
    } else {
        None
    }
}

pub open spec fn saturate(v: nat) -> nat {
    if v > MAX_MILLI {
        MAX_MILLI as nat
    } else {
        v
    }
}

/// An intensity reading in thousandths of a unit. Text that is not a decimal
/// number reads as zero; negative readings count as zero; readings above
/// `MAX_MILLI` saturate.
pub open spec fn intensity_text(s: Seq<u8>) -> nat {
    if s.len() >= 1 && s[0] == 45 {
        0
    } else {
        let b = if s.len() >= 1 && s[0] == 43 {
            s.skip(1)
        } else {
            s
        };
        match unsigned_decimal(b) {
            Some(v) => saturate(v),
            None => 0,
        }
    }
}

proof fn lemma_digits_step(s: Seq<u8>, k: int)
    requires
        0 <= k < s.len(),
        is_digit(s[k]),
    ensures
        digits_value(s.take(k + 1)) == digits_value(s.take(k)) * 10 + (s[k] - 48),
{
    assert(s.take(k + 1).drop_last() =~= s.take(k));
    assert(s.take(k + 1).last() == s[k]);
}

proof fn lemma_digits_mono(s: Seq<u8>, k: int)
    requires
        0 <= k <= s.len(),
        all_digits(s),
    ensures
        digits_value(s.take(k)) <= digits_value(s),
    decreases s.len() - k,
{
    if k < s.len() {
        assert(is_digit(s[k]));
        lemma_digits_step(s, k);
        lemma_digits_mono(s, k + 1);
    } else {
        assert(s.take(k) =~= s);
    }
}

pub open spec fn frac_len(f: Seq<u8>) -> int {
    if f.len() >= 3 {
        3
    } else {
        f.len() as int
    }
}

pub open spec fn frac_scale(k: int) -> nat {
    if k == 3 {
        1
    } else if k == 2 {
        10
    } else if k == 1 {
        100
    } else {
        0
    }
}

proof fn lemma_frac(f: Seq<u8>)
    requires
        all_digits(f),
    ensures
        digits_value(f.take(frac_len(f))) < 1000,
        frac_milli(f) as int == digits_value(f.take(frac_len(f))) as int * frac_scale(frac_len(f)) as int,
{
    assert(f.take(0) =~= Seq::<u8>::empty());
    assert(digits_value(f.take(0)) == 0);
    if f.len() >= 1 {
        assert(is_digit(f[0]));
        lemma_digits_step(f, 0);
        assert(digits_value(f.take(1)) <= 9);
    }
    if f.len() >= 2 {
        assert(is_digit(f[1]));
        lemma_digits_step(f, 1);
        assert(digits_value(f.take(2)) <= 99);
    }
    if f.len() >= 3 {
        assert(is_digit(f[2]));
        lemma_digits_step(f, 2);
        assert(digits_value(f.take(3)) <= 999);
    }
    if f.len() == 2 {
        assert(f.take(2) =~= f);
    }
    if f.len() == 1 {
        assert(f.take(1) =~= f);
    }
}

/// Splits `s[lo..hi]` at every byte equal to `d`.
pub fn split_at_byte(s: &Vec<u8>, lo: usize, hi: usize, d: u8) -> (r: Vec<(usize, usize)>)
    requires
        lo <= hi <= s.len(),
    ensures
        is_split(s@, lo as int, hi as int, d, r@),
        r@.len() <= hi - lo + 1,
        r@.len() == split_seq(s@.subrange(lo as int, hi as int), d).len(),
        forall|k: int|
            0 <= k < r@.len() ==> s@.subrange((#[trigger] r@[k]).0 as int, r@[k].1 as int)
                == split_seq(s@.subrange(lo as int, hi as int), d)[k],
{
    let mut r: Vec<(usize, usize)> = Vec::new();
    let mut start: usize = lo;
    let mut i: usize = lo;
    while i < hi
        invariant
            lo <= start <= i <= hi <= s.len(),
            r@.len() <= start - lo,
            forall|j: int| start <= j < i ==> s@[j] != d,
            r@.len() == 0 ==> start == lo,
            r@.len() > 0 ==> r@[0].0 == lo && s@[r@.last().1 as int] == d && start == r@.last().1
                + 1,
            forall|k: int|
                0 <= k < r@.len() ==> lo <= (#[trigger] r@[k]).0 <= r@[k].1 < start && forall|
                    j: int,
                | r@[k].0 <= j < r@[k].1 ==> s@[j] != d,
            forall|k: int|
                0 <= k < r@.len() - 1 ==> s@[(#[trigger] r@[k]).1 as int] == d && r@[k + 1].0
                    == r@[k].1 + 1,
            split_seq(s@.subrange(lo as int, i as int), d).len() == r@.len() + 1,
            split_seq(s@.subrange(lo as int, i as int), d).last() == s@.subrange(
                start as int,
                i as int,
            ),
            forall|k: int|
                0 <= k < r@.len() ==> s@.subrange((#[trigger] r@[k]).0 as int, r@[k].1 as int)
                    == split_seq(s@.subrange(lo as int, i as int), d)[k],
        decreases hi - i,
    {
        let ghost prev = split_seq(s@.subrange(lo as int, i as int), d);
        assert(s@.subrange(lo as int, i + 1).drop_last() =~= s@.subrange(lo as int, i as int));
        assert(s@.subrange(lo as int, i + 1).last() == s@[i as int]);
        if s[i] == d {
            r.push((start, i));
            start = i + 1;
            assert(s@.subrange(start as int, i + 1) =~= Seq::<u8>::empty());
        } else {
            assert(s@.subrange(start as int, i + 1) =~= s@.subrange(start as int, i as int).push(
                s@[i as int],
            ));
        }
        i = i + 1;
    }
    r.push((start, hi));
    r
}

/// Value of the digits `s[lo..hi]`, capped at `cap`.
fn capped_digits(s: &Vec<u8>, lo: usize, hi: usize, cap: u64) -> (r: u64)
    requires
        lo <= hi <= s.len(),
        all_digits(s@.subrange(lo as int, hi as int)),
        0 < cap <= u64::MAX / 20,
    ensures
        r as int == if digits_value(s@.subrange(lo as int, hi as int)) > cap {
            cap as int
        } else {
            digits_value(s@.subrange(lo as int, hi as int)) as int
        },
{
    let ghost t = s@.subrange(lo as int, hi as int);
    let mut acc: u64 = 0;
    let mut i: usize = lo;
    while i < hi
        invariant
            lo <= i <= hi <= s.len(),
            t == s@.subrange(lo as int, hi as int),
            all_digits(t),
            0 < cap <= u64::MAX / 20,
            acc as int == if digits_value(t.take(i - lo)) > cap {
                cap as int
            } else {
                digits_value(t.take(i - lo)) as int
            },
        decreases hi - i,
    {
        proof {
            assert(is_digit(t[i - lo]));
            lemma_digits_step(t, i - lo);
            assert(t[i - lo] == s@[i as int]);
        }
        let dg = (s[i] - 48) as u64;
        let next = acc * 10 + dg;
        acc = if next > cap {
            cap
        } else {
            next
        };
        i = i + 1;
    }
    assert(t.take(hi - lo) =~= t);
    acc
}

/// Checks that `s[lo..hi]` holds digits only.
fn digits_only(s: &Vec<u8>, lo: usize, hi: usize) -> (r: bool)
    requires
        lo <= hi <= s.len(),
    ensures
        r == all_digits(s@.subrange(lo as int, hi as int)),
{
    let mut i: usize = lo;
    while i < hi
        invariant
            lo <= i <= hi <= s.len(),
            all_digits(s@.subrange(lo as int, i as int)),
        decreases hi - i,
    {
        if s[i] < 48 || s[i] > 57 {
            assert(s@.subrange(lo as int, hi as int)[i - lo] == s@[i as int]);
            return false;
        }
        assert forall|j: int| 0 <= j < i + 1 - lo implies is_digit(
            #[trigger] s@.subrange(lo as int, i + 1)[j],
        ) by {
            if j < i - lo {
                assert(s@.subrange(lo as int, i + 1)[j] == s@.subrange(lo as int, i as int)[j]);
            }
        }
        i = i + 1;
    }
    true
}

/// Parses `s[lo..hi]` as a 32-bit integer field.
pub fn parse_i32(s: &Vec<u8>, lo: usize, hi: usize) -> (r: Option<i32>)
    requires
        lo <= hi <= s.len(),
    ensures
        r == i32_text(s@.subrange(lo as int, hi as int)),
{
    let ghost t = s@.subrange(lo as int, hi as int);
    if lo == hi {
        return None;
    }
    let neg = s[lo] == 45;
    let signed = neg || s[lo] == 43;
    let start: usize = if signed && hi - lo >= 2 {
        lo + 1
    } else {
        lo
    };
    assert(t.skip(1) =~= s@.subrange(lo + 1, hi as int));
    if !digits_only(s, start, hi) {
        return None;
    }
    let cap: u64 = 1u64 << 32;
    assert(cap == 4294967296u64) by (bit_vector)
        requires
            cap == 1u64 << 32,
    ;
    let v = capped_digits(s, start, hi, cap);
    if v >= cap {
        return None;
    }
    if neg {
        if v > 2147483648 {
            None
        } else {
            Some((0 - (v as i64)) as i32)
        }
    } else if v > 2147483647 {
        None
    } else {
        Some(v as i32)
    }
}

/// Index of the first `.` in `s[lo..hi]`, or `hi`.
fn find_dot(s: &Vec<u8>, lo: usize, hi: usize) -> (r: usize)
    requires
        lo <= hi <= s.len(),
    ensures
        r - lo == first_dot_from(s@.subrange(lo as int, hi as int), 0),
        lo <= r <= hi,
{
    let ghost t = s@.subrange(lo as int, hi as int);
    let mut i: usize = lo;
    while i < hi
        invariant
            lo <= i <= hi <= s.len(),
            t == s@.subrange(lo as int, hi as int),
            first_dot_from(t, 0) == first_dot_from(t, i - lo),
        decreases hi - i,
    {
        assert(t[i - lo] == s@[i as int]);
        if s[i] == 46 {
            return i;
        }
        i = i + 1;
    }
    hi
}

/// Parses `s[lo..hi]` as an intensity reading in thousandths of a unit.
#[verifier::rlimit(40)]
pub fn parse_intensity(s: &Vec<u8>, lo: usize, hi: usize) -> (r: u64)
    requires
        lo <= hi <= s.len(),
    ensures
        r as nat == intensity_text(s@.subrange(lo as int, hi as int)),
        r <= MAX_MILLI,
{
    let ghost t = s@.subrange(lo as int, hi as int);
    if lo < hi && s[lo] == 45 {
        return 0;
    }
    let start: usize = if lo < hi && s[lo] == 43 {
        lo + 1
    } else {
        lo
    };
    let ghost b = s@.subrange(start as int, hi as int);
    assert(b =~= if t.len() >= 1 && t[0] == 43 {
        t.skip(1)
    } else {
        t
    });
    let p = find_dot(s, start, hi);
    let fstart: usize = if p < hi {
        p + 1
    } else {
        hi
    };
    assert(b.take(p - start) =~= s@.subrange(start as int, p as int));
    assert(p < hi ==> b.skip(p - start + 1) =~= s@.subrange(fstart as int, hi as int));
    assert(p == hi ==> s@.subrange(fstart as int, hi as int) =~= Seq::<u8>::empty());
    if !digits_only(s, start, p) || !digits_only(s, fstart, hi) || (p - start) + (hi - fstart)
        == 0 {
        return 0;
    }
    let a = capped_digits(s, start, p, INT_PART_CAP);
    let ghost f = s@.subrange(fstart as int, hi as int);
    let flen = hi - fstart;
    let take: usize = if flen >= 3 {
        3
    } else {
        flen
    };
    assert(f.take(take as int) =~= s@.subrange(fstart as int, fstart + take));
    let fv0 = capped_digits(s, fstart, fstart + take, 1000);
    proof {
        lemma_frac(f);
    }
    let fv: u64 = if flen >= 3 {
        fv0
    } else if flen == 2 {
        fv0 * 10
    } else if flen == 1 {
        fv0 * 100
    } else {
        0
    };
    let v = a * 1000 + fv;
    if v > MAX_MILLI {
        MAX_MILLI
    } else {
        v
    }
}

} // verus!
