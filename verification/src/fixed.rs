//! Fixed-point reading of decimal number fields.
//!
//! Coordinates are held in fixed-point form: an `i64` counting thousandths of
//! a pixel, so a field `12.5` becomes `12500`. A field is numeric when, after
//! trimming ASCII whitespace and an optional leading sign, it consists of
//! decimal digits with at most one decimal point and at least one digit.
//! Fractional digits beyond the third are ignored (the value is truncated
//! toward zero). A magnitude above [`MAX_COORD`] is rejected.
//!
//! This is deliberately plain decimal notation only: a field in exponent
//! notation (`1e3`), or one of the words `inf` and `nan`, is not a
//! coordinate this store accepts and is reported as malformed. The reason
//! is the store's exactness promise: every accepted field's value is stated
//! and proved to the unit, and pixel coordinates are naturally written as
//! plain decimals. Exponent forms mostly denote magnitudes far outside
//! [`MAX_COORD`] or below the fixed-point unit, so admitting them would
//! widen the grammar without widening the values the pipeline can use.

use vstd::prelude::*;

verus! {

/// Number of fixed-point units in one pixel.
pub const SCALE: i64 = 1000;

/// Largest coordinate magnitude, in fixed-point units (one million pixels).
pub const MAX_COORD: i64 = 1_000_000_000;

/// Largest value the digits left of the decimal point may denote.
pub const MAX_INT_PART: i64 = 1_000_000;

pub open spec fn is_digit(b: u8) -> bool {
    48 <= b && b <= 57
}

pub open spec fn is_digit_seq(s: Seq<u8>) -> bool {
    forall|i: int| 0 <= i < s.len() ==> is_digit(#[trigger] s[i])
}

/// ASCII whitespace: space, tab, line feed, vertical tab, form feed, carriage return.
pub open spec fn is_space(b: u8) -> bool {
    b == 32 || b == 9 || b == 10 || b == 11 || b == 12 || b == 13
}

/// The numeric value of a digit string, most significant digit first.
pub open spec fn digits_val(s: Seq<u8>) -> int
    decreases s.len(),
{
    if s.len() == 0 {
        0
    } else {
        digits_val(s.drop_last()) * 10 + (s.last() - 48)
    }
}

pub proof fn lemma_digits_val_nonneg(s: Seq<u8>)
    requires
        is_digit_seq(s),
    ensures
        digits_val(s) >= 0,
    decreases s.len(),
{
    if s.len() > 0 {
        assert(is_digit_seq(s.drop_last()));
        lemma_digits_val_nonneg(s.drop_last());
    }
}

/// `k` is the position of the first decimal point in `s`.
pub open spec fn dot_at(s: Seq<u8>, k: int) -> bool {
    &&& 0 <= k < s.len()
    &&& s[k] == 46
    &&& forall|i: int| 0 <= i < k ==> #[trigger] s[i] != 46
}

/// Position of the first decimal point, or the length when there is none.
pub open spec fn split_point(s: Seq<u8>) -> int {
    if exists|k: int| dot_at(s, k) {
        choose|k: int| dot_at(s, k)
    } else {
        s.len() as int
    }
}

pub proof fn lemma_split_at(s: Seq<u8>, k: int)
    requires
        dot_at(s, k),
    ensures
        split_point(s) == k,
{
    assert(exists|j: int| dot_at(s, j));
    let j = choose|j: int| dot_at(s, j);
    if j < k {
        assert(s[j] != 46);
        assert(false);
    } else if j > k {
        assert(s[k] != 46);
        assert(false);
    }
}

pub proof fn lemma_split_none(s: Seq<u8>)
    requires
        forall|i: int| 0 <= i < s.len() ==> #[trigger] s[i] != 46,
    ensures
        split_point(s) == s.len(),
{
    if exists|k: int| dot_at(s, k) {
        let k = choose|k: int| dot_at(s, k);
        assert(s[k] != 46);
        assert(false);
    }
}

/// Digits left of the decimal point.
pub open spec fn int_part(s: Seq<u8>) -> Seq<u8> {
    s.take(split_point(s))
}

/// Digits right of the decimal point (empty when there is none).
pub open spec fn frac_part(s: Seq<u8>) -> Seq<u8> {
    if split_point(s) == s.len() {
        Seq::empty()
    } else {
        s.skip(split_point(s) + 1)
    }
}

/// A signless number body: digits, at most one point, at least one digit.
pub open spec fn body_valid(s: Seq<u8>) -> bool {
    &&& is_digit_seq(int_part(s))
    &&& is_digit_seq(frac_part(s))
    &&& int_part(s).len() + frac_part(s).len() >= 1
}

/// The first three fractional digits as a count of thousandths.
pub open spec fn frac3_val(f: Seq<u8>) -> int {
    if f.len() >= 3 {
        digits_val(f.take(3))
    } else if f.len() == 2 {
        digits_val(f) * 10
    } else if f.len() == 1 {
        digits_val(f) * 100
    } else {
        0
    }
}

/// Magnitude of a number body in fixed-point units, truncated toward zero.
pub open spec fn body_val(s: Seq<u8>) -> int {
    digits_val(int_part(s)) * 1000 + frac3_val(frac_part(s))
}

pub open spec fn trim_front(s: Seq<u8>) -> Seq<u8>
    decreases s.len(),
{
    if s.len() > 0 && is_space(s[0]) {
        trim_front(s.skip(1))
    } else {
        s
    }
}

pub open spec fn trim_back(s: Seq<u8>) -> Seq<u8>
    decreases s.len(),
{
    if s.len() > 0 && is_space(s.last()) {
        trim_back(s.drop_last())
    } else {
        s
    }
}

/// The field with leading and trailing ASCII whitespace removed.
pub open spec fn trim_of(s: Seq<u8>) -> Seq<u8> {
    trim_back(trim_front(s))
}

pub proof fn lemma_trim_front_skip(s: Seq<u8>, i: int)
    requires
        0 <= i <= s.len(),
        forall|j: int| 0 <= j < i ==> is_space(#[trigger] s[j]),
    ensures
        trim_front(s) == trim_front(s.skip(i)),
    decreases i,
{
    if i > 0 {
        assert(trim_front(s) == trim_front(s.skip(1)));
        lemma_trim_front_skip(s.skip(1), i - 1);
        assert(s.skip(1).skip(i - 1) =~= s.skip(i));
    } else {
        assert(s.skip(0) =~= s);
    }
}

pub proof fn lemma_trim_back_take(s: Seq<u8>, i: int)
    requires
        0 <= i <= s.len(),
        forall|j: int| i <= j < s.len() ==> is_space(#[trigger] s[j]),
    ensures
        trim_back(s) == trim_back(s.take(i)),
    decreases s.len() - i,
{
    if i < s.len() {
        assert(is_space(s.last()));
        assert(trim_back(s) == trim_back(s.drop_last()));
        lemma_trim_back_take(s.drop_last(), i);
        assert(s.drop_last().take(i) =~= s.take(i));
    } else {
        assert(s.take(i) =~= s);
    }
}

/// Whether the whole field denotes a number: optional sign before a valid body.
pub open spec fn field_valid(raw: Seq<u8>) -> bool {
    let t = trim_of(raw);
    if t.len() > 0 && (t[0] == 45 || t[0] == 43) {
        body_valid(t.skip(1))
    } else {
        body_valid(t)
    }
}

/// The field's value in fixed-point units (meaningful when `field_valid`).
pub open spec fn field_val(raw: Seq<u8>) -> int {
    let t = trim_of(raw);
    if t.len() > 0 && t[0] == 45 {
        -body_val(t.skip(1))
    } else if t.len() > 0 && t[0] == 43 {
        body_val(t.skip(1))
    } else {
        body_val(t)
    }
}

/// A field this pipeline accepts: numeric and within coordinate range.
pub open spec fn field_ok(raw: Seq<u8>) -> bool {
    &&& field_valid(raw)
    &&& -MAX_COORD <= field_val(raw) <= MAX_COORD
}

fn is_digit_x(b: u8) -> (r: bool)
    ensures
        r == is_digit(b),
{
    48 <= b && b <= 57
}

fn is_space_x(b: u8) -> (r: bool)
    ensures
        r == is_space(b),
{
    b == 32 || b == 9 || b == 10 || b == 11 || b == 12 || b == 13
}

/// Parses one field into fixed-point thousandths.
///
/// Returns the value exactly when the field is numeric and its magnitude is
/// at most [`MAX_COORD`]; any other field yields `None`.
#[verifier::rlimit(60)]
pub fn parse_fixed(field: &Vec<u8>) -> (r: Option<i64>)
    ensures
        r is Some <==> field_ok(field@),
        r is Some ==> r.unwrap() as int == field_val(field@),
{
    let ghost s = field@;
    let n: usize = field.len();

    let mut start: usize = 0;
    while start < n && is_space_x(field[start])
        invariant
            s == field@,
            0 <= start <= n,
            n == s.len(),
            forall|j: int| 0 <= j < start ==> is_space(#[trigger] s[j]),
        decreases n - start,
    {
        start += 1;
    }
    proof {
        lemma_trim_front_skip(s, start as int);
    }

    let mut end: usize = n;
    while end > start && is_space_x(field[end - 1])
        invariant
            s == field@,
            0 <= start <= end <= n,
            n == s.len(),
            start == n || !is_space(s[start as int]),
            forall|j: int| end <= j < n ==> is_space(#[trigger] s[j]),
        decreases end,
    {
        end -= 1;
    }

    let ghost t = s.subrange(start as int, end as int);
    proof {
        let sk = s.skip(start as int);
        assert(trim_front(sk) == sk);
        assert(trim_front(s) == sk);
        lemma_trim_back_take(sk, end - start);
        assert(sk.take(end - start) =~= t);
        if end > start {
            assert(t.last() == s[end - 1]);
            assert(!is_space(t.last()));
        }
        assert(trim_back(t) == t);
        assert(trim_of(s) == t);
    }

    // Optional sign.
    let mut p: usize = start;
    let mut neg: bool = false;
    if p < end && (field[p] == 45 || field[p] == 43) {
        neg = field[p] == 45;
        p += 1;
    }
    let ghost body = s.subrange(p as int, end as int);
    proof {
        if p > start {
            assert(t.skip(1) =~= body);
        } else {
            assert(t.skip(0) =~= body);
            assert(t =~= body);
        }
        assert(field_valid(s) == body_valid(body));
        assert(field_val(s) == if neg { -body_val(body) } else { body_val(body) });
    }

    // Digits left of the decimal point.
    let mut j: usize = p;
    let mut iv: i64 = 0;
    let mut big: bool = false;
    while j < end && is_digit_x(field[j])
        invariant
            s == field@,
            p <= j <= end <= n,
            n == s.len(),
            body == s.subrange(p as int, end as int),
            forall|m: int| 0 <= m < j - p ==> is_digit(#[trigger] body[m]),
            !big ==> 0 <= iv <= MAX_INT_PART && iv as int == digits_val(body.take(j - p)),
            big ==> digits_val(body.take(j - p)) > MAX_INT_PART,
        decreases end - j,
    {
        let d: u8 = field[j];
        proof {
            assert(body.take(j - p + 1).drop_last() =~= body.take(j - p));
            assert(body.take(j - p + 1).last() == body[j - p]);
            assert(body[j - p] == s[j as int]);
        }
        if !big {
            let nv: i64 = iv * 10 + (d - 48) as i64;
            if nv > MAX_INT_PART {
                big = true;
                proof {
                    assert(digits_val(body.take(j - p + 1)) == iv * 10 + (d - 48));
                }
            } else {
                iv = nv;
            }
        } else {
            proof {
                let prev = digits_val(body.take(j - p));
                assert(digits_val(body.take(j - p + 1)) == prev * 10 + (d - 48));
            }
        }
        j += 1;
    }
    let int_len: usize = j - p;

    // Digits right of the decimal point, if a point follows.
    let mut fv: i64 = 0;
    let mut fc: usize = 0;
    let ghost mut fseq = Seq::<u8>::empty();
    let mut frac_len: usize = 0;

    if j < end {
        if field[j] != 46 {
            // A character that is neither digit nor point: not numeric.
            proof {
                assert(!is_digit(body[j - p]));
                assert(body[j - p] != 46);
                if exists|k: int| dot_at(body, k) {
                    let k = choose|k: int| dot_at(body, k);
                    assert(dot_at(body, k));
                    if k <= j - p {
                        assert(is_digit(body[k]) || body[k] != 46);
                        assert(false);
                    }
                    assert(split_point(body) == k);
                } else {
                    assert(split_point(body) == body.len());
                }
                assert(split_point(body) > j - p);
                assert(int_part(body)[j - p] == body[j - p]);
                assert(!is_digit_seq(int_part(body)));
            }
            return None;
        }
        // field[j] is the decimal point.
        proof {
            assert(dot_at(body, j - p));
            lemma_split_at(body, j - p);
        }
        proof {
            fseq = body.skip(j - p + 1);
            assert(frac_part(body) == fseq);
            assert(int_part(body) =~= body.take(int_len as int));
        }
        let mut fj: usize = j + 1;
        while fj < end && is_digit_x(field[fj])
            invariant
                s == field@,
                j + 1 <= fj <= end <= n,
                n == s.len(),
                p <= j,
                body == s.subrange(p as int, end as int),
                fseq == body.skip(j - p + 1),
                forall|m: int| 0 <= m < fj - (j + 1) ==> is_digit(#[trigger] fseq[m]),
                fj - (j + 1) >= 3 ==> fc == 3,
                fj - (j + 1) < 3 ==> fc == fj - (j + 1),
                fv as int == digits_val(fseq.take(fc as int)),
                fc == 0 ==> fv == 0,
                fc == 1 ==> 0 <= fv <= 9,
                fc == 2 ==> 0 <= fv <= 99,
                fc == 3 ==> 0 <= fv <= 999,
            decreases end - fj,
        {
            let d: u8 = field[fj];
            proof {
                assert(fseq[fj - (j + 1)] == body[fj - p]);
                assert(body[fj - p] == s[fj as int]);
            }
            if fc < 3 {
                proof {
                    assert(fseq.take(fc + 1).drop_last() =~= fseq.take(fc as int));
                    assert(fseq.take(fc + 1).last() == fseq[fc as int]);
                }
                fv = fv * 10 + (d - 48) as i64;
                fc += 1;
            }
            fj += 1;
        }
        if fj < end {
            // A non-digit after the decimal point: not numeric.
            proof {
                assert(fseq[fj - (j + 1)] == body[fj - p]);
                assert(!is_digit(frac_part(body)[fj - (j + 1)]));
                assert(!is_digit_seq(frac_part(body)));
            }
            return None;
        }
        frac_len = end - (j + 1);
    } else {
        // No decimal point at all.
        proof {
            assert(forall|i: int| 0 <= i < body.len() ==> is_digit(#[trigger] body[i]));
            assert(forall|i: int| 0 <= i < body.len() ==> #[trigger] body[i] != 46);
            lemma_split_none(body);
            assert(int_part(body) =~= body);
            assert(int_len == body.len());
            assert(int_part(body) =~= body.take(int_len as int));
            assert(frac_part(body) == Seq::<u8>::empty());
            fseq = Seq::<u8>::empty();
        }
    }

    // At least one digit is required.
    if int_len == 0 && frac_len == 0 {
        proof {
            assert(int_part(body).len() + frac_part(body).len() == 0);
        }
        return None;
    }

    proof {
        assert(is_digit_seq(int_part(body)));
        assert(is_digit_seq(frac_part(body)));
        assert(body_valid(body));
        assert(fseq == frac_part(body));
        assert(fseq.len() == frac_len);
    }

    // The three-digit fraction value.
    let f3: i64 = if fc == 3 {
        fv
    } else if fc == 2 {
        fv * 10
    } else if fc == 1 {
        fv * 100
    } else {
        0
    };
    proof {
        if fseq.len() >= 3 {
            assert(fc == 3);
            assert(f3 as int == digits_val(fseq.take(3)));
        } else {
            assert(fc == fseq.len());
            assert(fseq.take(fseq.len() as int) =~= fseq);
        }
        assert(f3 as int == frac3_val(fseq));
        assert(0 <= f3 <= 999);
    }

    if big {
        // The integer part alone exceeds the coordinate range.
        proof {
            assert(digits_val(int_part(body)) > MAX_INT_PART);
            assert(body_val(body) > MAX_COORD);
        }
        return None;
    }

    let mag: i64 = iv * 1000 + f3;
    proof {
        assert(int_part(body) =~= body.take(int_len as int));
        assert(iv as int == digits_val(int_part(body)));
        assert(mag as int == body_val(body));
        assert(0 <= mag);
    }
    if mag > MAX_COORD {
        return None;
    }

    if neg {
        Some(-mag)
    } else {
        Some(mag)
    }
}

} // verus!
