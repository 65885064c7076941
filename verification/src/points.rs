//! Correspondence point store and interpolation engine.
//!
//! A point file is a sequence of records of exactly four numeric fields
//! `hx, hy, ox, oy`: a coordinate on the first endpoint image and the
//! matching coordinate on the second. An optional first record holding
//! exactly the field names `hx,hy,ox,oy` is skipped; any other malformed
//! record is rejected with the offending value.

use vstd::arithmetic::div_mod::{
    lemma_div_is_ordered, lemma_div_multiples_vanish_fancy, lemma_fundamental_div_mod,
    lemma_mod_bound,
};
use vstd::prelude::*;

use crate::fixed::{field_ok, field_val, parse_fixed, MAX_COORD};
use crate::MorphError;


verus! {

/// A 2D coordinate in fixed-point units (thousandths of a pixel).
#[derive(Clone, Copy, PartialEq, Eq, Structural, Debug)]
pub struct Coord {
    pub x: i64,
    pub y: i64,
}

pub open spec fn coord_ok(c: Coord) -> bool {
    &&& -MAX_COORD <= c.x <= MAX_COORD
    &&& -MAX_COORD <= c.y <= MAX_COORD
}

/// The two endpoint images' matched point lists, index-aligned.
#[derive(Debug)]
pub struct Points {
    pub human: Vec<Coord>,
    pub otter: Vec<Coord>,
}

impl Points {
    /// Both lists have the same length and every coordinate is in range.
    pub open spec fn wf(&self) -> bool {
        &&& self.human@.len() == self.otter@.len()
        &&& forall|i: int|
            0 <= i < self.human@.len() ==> coord_ok(#[trigger] self.human@[i]) && coord_ok(
                #[trigger] self.otter@[i],
            )
    }
}

/// The record of field names that may open the file: `hx,hy,ox,oy`.
pub open spec fn header_record() -> Seq<Seq<u8>> {
    seq![seq![104u8, 120u8], seq![104u8, 121u8], seq![111u8, 120u8], seq![111u8, 121u8]]
}

/// The records that carry points: all of them, or all but a leading header.
pub open spec fn data_records(rs: Seq<Seq<Seq<u8>>>) -> Seq<Seq<Seq<u8>>> {
    if rs.len() > 0 && rs[0] == header_record() {
        rs.skip(1)
    } else {
        rs
    }
}

/// A record is usable when it has exactly four in-range numeric fields.
pub open spec fn record_ok(r: Seq<Seq<u8>>) -> bool {
    &&& r.len() == 4
    &&& forall|j: int| 0 <= j < 4 ==> field_ok(#[trigger] r[j])
}

pub open spec fn records_ok(rs: Seq<Seq<Seq<u8>>>) -> bool {
    forall|i: int| 0 <= i < rs.len() ==> record_ok(#[trigger] rs[i])
}

/// Index of the first unusable record.
pub open spec fn first_bad(rs: Seq<Seq<Seq<u8>>>) -> int
    decreases rs.len(),
{
    if rs.len() == 0 {
        0
    } else if !record_ok(rs[0]) {
        0
    } else {
        1 + first_bad(rs.skip(1))
    }
}

pub proof fn lemma_first_bad_at(rs: Seq<Seq<Seq<u8>>>, k: int)
    requires
        0 <= k < rs.len(),
        !record_ok(rs[k]),
        forall|i: int| 0 <= i < k ==> record_ok(#[trigger] rs[i]),
    ensures
        first_bad(rs) == k,
    decreases k,
{
    if k > 0 {
        assert(record_ok(rs[0]));
        assert forall|i: int| 0 <= i < k - 1 implies record_ok(#[trigger] rs.skip(1)[i]) by {
            assert(rs.skip(1)[i] == rs[i + 1]);
        }
        assert(rs.skip(1)[k - 1] == rs[k]);
        lemma_first_bad_at(rs.skip(1), k - 1);
    }
}

/// Index of the first unusable field of a four-field record.
pub open spec fn first_bad_field(r: Seq<Seq<u8>>) -> int {
    if !field_ok(r[0]) {
        0
    } else if !field_ok(r[1]) {
        1
    } else if !field_ok(r[2]) {
        2
    } else {
        3
    }
}

/// A record's fields joined with commas, for error reporting.
pub open spec fn join_comma(r: Seq<Seq<u8>>) -> Seq<u8>
    decreases r.len(),
{
    if r.len() == 0 {
        Seq::empty()
    } else if r.len() == 1 {
        r[0]
    } else {
        join_comma(r.drop_last()) + seq![44u8] + r.last()
    }
}

/// The value reported for the first unusable record: the whole record when
/// the field count is wrong, otherwise its first non-numeric field.
pub open spec fn offending_of(rs: Seq<Seq<Seq<u8>>>) -> Seq<u8> {
    let r = rs[first_bad(rs)];
    if r.len() != 4 {
        join_comma(r)
    } else {
        r[first_bad_field(r)]
    }
}

fn bytes_is(v: &Vec<u8>, a: u8, b: u8) -> (r: bool)
    ensures
        r == (v@ == seq![a, b]),
{
    let r = v.len() == 2 && v[0] == a && v[1] == b;
    proof {
        if r {
            assert(v@ =~= seq![a, b]);
        }
    }
    r
}

fn is_header(rec: &Vec<Vec<u8>>) -> (r: bool)
    ensures
        r == (rec.deep_view() == header_record()),
{
    let r = rec.len() == 4 && bytes_is(&rec[0], 104, 120) && bytes_is(&rec[1], 104, 121)
        && bytes_is(&rec[2], 111, 120) && bytes_is(&rec[3], 111, 121);
    proof {
        assert(rec.deep_view().len() == rec@.len());
        assert(forall|i: int|
            0 <= i < rec@.len() ==> #[trigger] rec.deep_view()[i] == rec@[i].deep_view());
        assert(forall|i: int|
            0 <= i < rec@.len() ==> #[trigger] rec@[i].deep_view() == rec@[i]@);
        if r {
            assert(rec.deep_view() =~= header_record());
        } else {
            if rec.deep_view() == header_record() {
                assert(rec.deep_view()[0] == seq![104u8, 120u8]);
                assert(rec.deep_view()[1] == seq![104u8, 121u8]);
                assert(rec.deep_view()[2] == seq![111u8, 120u8]);
                assert(rec.deep_view()[3] == seq![111u8, 121u8]);
                assert(false);
            }
        }
    }
    r
}

fn join_fields(rec: &Vec<Vec<u8>>) -> (v: Vec<u8>)
    ensures
        v@ == join_comma(rec.deep_view()),
{
    let ghost rdv = rec.deep_view();
    proof {
        assert(forall|i: int|
            0 <= i < rec@.len() ==> #[trigger] rdv[i] == rec@[i].deep_view());
    }
    let mut v: Vec<u8> = Vec::new();
    let mut k: usize = 0;
    while k < rec.len()
        invariant
            rdv == rec.deep_view(),
            rdv.len() == rec@.len(),
            forall|i: int| 0 <= i < rec@.len() ==> #[trigger] rdv[i] == rec@[i]@,
            0 <= k <= rec@.len(),
            v@ == join_comma(rdv.take(k as int)),
        decreases rec@.len() - k,
    {
        proof {
            assert(rdv.take(k + 1).drop_last() =~= rdv.take(k as int));
            assert(rdv.take(k + 1).last() == rdv[k as int]);
        }
        if k > 0 {
            v.push(44);
        }
        let field: &Vec<u8> = &rec[k];
        let mut m: usize = 0;
        while m < field.len()
            invariant
                0 <= m <= field@.len(),
                field@ == rdv[k as int],
                k < rdv.len(),
                v@ == (if k > 0 {
                    join_comma(rdv.take(k as int)) + seq![44u8]
                } else {
                    join_comma(rdv.take(k as int))
                }) + field@.take(m as int),
            decreases field@.len() - m,
        {
            v.push(field[m]);
            proof {
                assert(field@.take(m + 1) =~= field@.take(m as int) + seq![field@[m as int]]);
            }
            m += 1;
        }
        proof {
            assert(field@.take(field@.len() as int) =~= field@);
            if k == 0 {
                assert(join_comma(rdv.take(0)) =~= Seq::<u8>::empty());
                assert(rdv.take(1).len() == 1);
                assert(join_comma(rdv.take(1)) == rdv.take(1)[0]);
                assert(v@ =~= join_comma(rdv.take(1)));
            } else {
                assert(rdv.take(k + 1).len() >= 2);
                assert(v@ =~= join_comma(rdv.take(k + 1)));
            }
        }
        k += 1;
    }
    proof {
        assert(rdv.take(rdv.len() as int) =~= rdv);
    }
    v
}

impl Points {
    /// Builds the two point lists from parsed records, skipping one leading
    /// header record; rejects the first record that is not four in-range
    /// numeric fields, reporting the offending field (or, for a wrong field
    /// count, the whole record joined with commas).
    #[verifier::rlimit(60)]
    pub fn from_records(records: &Vec<Vec<Vec<u8>>>) -> (r: Result<Points, MorphError>)
        ensures
            r is Ok <==> records_ok(data_records(records.deep_view())),
            r is Ok ==> ({
                let p = r.unwrap();
                let drs = data_records(records.deep_view());
                &&& p.wf()
                &&& p.human@.len() == drs.len()
                &&& forall|i: int|
                    0 <= i < drs.len() ==> {
                        &&& #[trigger] p.human@[i].x == field_val(drs[i][0])
                        &&& p.human@[i].y == field_val(drs[i][1])
                        &&& p.otter@[i].x == field_val(drs[i][2])
                        &&& p.otter@[i].y == field_val(drs[i][3])
                    }
            }),
            r is Err ==> (r.unwrap_err() matches MorphError::MalformedInput(v) && v@
                == offending_of(data_records(records.deep_view()))),
    {
        let ghost rs = records.deep_view();
        proof {
            assert(rs.len() == records@.len());
            assert(forall|i: int|
                0 <= i < records@.len() ==> #[trigger] rs[i] == records@[i].deep_view());
        }
        let mut off: usize = 0;
        if records.len() > 0 && is_header(&records[0]) {
            off = 1;
        }
        let ghost drs = data_records(rs);
        proof {
            assert(drs =~= rs.skip(off as int));
        }

        let mut human: Vec<Coord> = Vec::new();
        let mut otter: Vec<Coord> = Vec::new();
        let mut i: usize = off;
        while i < records.len()
            invariant
                rs == records.deep_view(),
                rs.len() == records@.len(),
                forall|m: int| 0 <= m < rs.len() ==> #[trigger] rs[m] == records@[m].deep_view(),
                drs == data_records(rs),
                drs =~= rs.skip(off as int),
                off <= i <= records@.len(),
                human@.len() == i - off,
                otter@.len() == i - off,
                forall|m: int| 0 <= m < i - off ==> record_ok(#[trigger] drs[m]),
                forall|m: int|
                    0 <= m < i - off ==> {
                        &&& #[trigger] human@[m].x == field_val(drs[m][0])
                        &&& human@[m].y == field_val(drs[m][1])
                        &&& otter@[m].x == field_val(drs[m][2])
                        &&& otter@[m].y == field_val(drs[m][3])
                        &&& coord_ok(human@[m])
                        &&& coord_ok(otter@[m])
                    },
            decreases records@.len() - i,
        {
            let rec: &Vec<Vec<u8>> = &records[i];
            let ghost dr = drs[i - off];
            proof {
                assert(drs[i - off] == rs[i as int]);
                assert(rec.deep_view() == rs[i as int]);
                assert(forall|j: int|
                    0 <= j < rec@.len() ==> #[trigger] dr[j] == rec@[j].deep_view());
                assert(forall|j: int|
                    0 <= j < rec@.len() ==> #[trigger] rec@[j].deep_view() == rec@[j]@);
                assert(dr.len() == rec@.len());
            }
            if rec.len() != 4 {
                let v = join_fields(rec);
                proof {
                    assert(!record_ok(dr));
                    lemma_first_bad_at(drs, i - off);
                }
                return Err(MorphError::MalformedInput(v));
            }
            let hx = match parse_fixed(&rec[0]) {
                Some(n) => n,
                None => {
                    proof {
                        assert(dr[0] == rec@[0]@);
                        assert(!field_ok(dr[0]));
                        assert(!record_ok(dr));
                        lemma_first_bad_at(drs, i - off);
                        assert(first_bad_field(dr) == 0);
                    }
                    return Err(MorphError::MalformedInput(rec[0].clone()));
                },
            };
            let hy = match parse_fixed(&rec[1]) {
                Some(n) => n,
                None => {
                    proof {
                        assert(dr[0] == rec@[0]@);
                        assert(dr[1] == rec@[1]@);
                        assert(field_ok(dr[0]));
                        assert(!field_ok(dr[1]));
                        assert(!record_ok(dr));
                        lemma_first_bad_at(drs, i - off);
                        assert(first_bad_field(dr) == 1);
                    }
                    return Err(MorphError::MalformedInput(rec[1].clone()));
                },
            };
            let ox = match parse_fixed(&rec[2]) {
                Some(n) => n,
                None => {
                    proof {
                        assert(dr[0] == rec@[0]@);
                        assert(dr[1] == rec@[1]@);
                        assert(dr[2] == rec@[2]@);
                        assert(field_ok(dr[0]));
                        assert(field_ok(dr[1]));
                        assert(!field_ok(dr[2]));
                        assert(!record_ok(dr));
                        lemma_first_bad_at(drs, i - off);
                        assert(first_bad_field(dr) == 2);
                    }
                    return Err(MorphError::MalformedInput(rec[2].clone()));
                },
            };
            let oy = match parse_fixed(&rec[3]) {
                Some(n) => n,
                None => {
                    proof {
                        assert(dr[0] == rec@[0]@);
                        assert(dr[1] == rec@[1]@);
                        assert(dr[2] == rec@[2]@);
                        assert(dr[3] == rec@[3]@);
                        assert(field_ok(dr[0]));
                        assert(field_ok(dr[1]));
                        assert(field_ok(dr[2]));
                        assert(!field_ok(dr[3]));
                        assert(!record_ok(dr));
                        lemma_first_bad_at(drs, i - off);
                        assert(first_bad_field(dr) == 3);
                    }
                    return Err(MorphError::MalformedInput(rec[3].clone()));
                },
            };
            proof {
                assert(dr[0] == rec@[0]@);
                assert(dr[1] == rec@[1]@);
                assert(dr[2] == rec@[2]@);
                assert(dr[3] == rec@[3]@);
            }
            human.push(Coord { x: hx, y: hy });
            otter.push(Coord { x: ox, y: oy });
            proof {
                assert(human@[i - off] == (Coord { x: hx, y: hy }));
                assert(otter@[i - off] == (Coord { x: ox, y: oy }));
                assert(human@[i - off].x == field_val(drs[i - off][0]));
                assert(human@[i - off].y == field_val(drs[i - off][1]));
                assert(otter@[i - off].x == field_val(drs[i - off][2]));
                assert(otter@[i - off].y == field_val(drs[i - off][3]));
                assert(coord_ok(human@[i - off]));
                assert(coord_ok(otter@[i - off]));
                assert(record_ok(drs[i - off]));
            }
            i += 1;
        }
        proof {
            assert(records_ok(drs));
        }
        Ok(Points { human, otter })
    }
}

/// What the delimited-record parser yields on the given bytes: records of
/// fields, in file order.
pub uninterp spec fn csv_records_of(data: Seq<u8>) -> Seq<Seq<Seq<u8>>>;

/// Relies on csv::ReaderBuilder / csv::Reader (`into_byte_records`), reading
/// from an in-memory byte slice with no header handling and flexible record
/// lengths: the records are a function of the bytes alone, and the read
/// cannot fail — byte records involve no text decoding, flexible lengths
/// disable the equal-length check, and a slice never gives an I/O error.
#[verifier::external_body]
fn csv_records(data: &[u8]) -> (r: Vec<Vec<Vec<u8>>>)
    ensures
        r.deep_view() == csv_records_of(data@),
{
    let rdr = csv::ReaderBuilder::new().has_headers(false).flexible(true).from_reader(data);
    let mut out: Vec<Vec<Vec<u8>>> = Vec::new();
    for rec in rdr.into_byte_records() {
        let rec = rec.expect("byte records from an in-memory slice cannot fail");
        out.push(rec.iter().map(|f| f.to_vec()).collect());
    }
    out
}

impl Points {
    /// Reads the point file: parses the bytes into records and builds the
    /// two point lists as [`Points::from_records`] does. Succeeds exactly
    /// when every data record is four in-range numeric fields.
    pub fn read(data: &[u8]) -> (r: Result<Points, MorphError>)
        ensures
            r is Ok <==> records_ok(data_records(csv_records_of(data@))),
            r is Ok ==> ({
                let p = r.unwrap();
                let drs = data_records(csv_records_of(data@));
                &&& p.wf()
                &&& p.human@.len() == drs.len()
                &&& forall|i: int|
                    0 <= i < drs.len() ==> {
                        &&& #[trigger] p.human@[i].x == field_val(drs[i][0])
                        &&& p.human@[i].y == field_val(drs[i][1])
                        &&& p.otter@[i].x == field_val(drs[i][2])
                        &&& p.otter@[i].y == field_val(drs[i][3])
                    }
            }),
            r is Err ==> (r.unwrap_err() matches MorphError::MalformedInput(v) && v@
                == offending_of(data_records(csv_records_of(data@)))),
    {
        let records = csv_records(data);
        Points::from_records(&records)
    }
}

/// A blend ratio `num / den` in `[0, 1]`.
#[derive(Clone, Copy, PartialEq, Eq, Structural, Debug)]
pub struct Ratio {
    pub num: u32,
    pub den: u32,
}

impl Ratio {
    pub open spec fn wf(&self) -> bool {
        1 <= self.den && self.num <= self.den
    }
}

/// Largest supported number of interpolation steps: the ratio denominator
/// `steps - 1` must fit the ratio's 32-bit field.
pub const MAX_STEPS: usize = 0xffff_ffff;

/// The fixed-point coordinate interpolated between `a` and `b` at ratio
/// `k / den`, rounded to the nearest unit (half-units round up).
pub open spec fn lerp_fixed(a: int, b: int, k: int, den: int) -> int {
    (a * (den - k) + b * k + den / 2) / den
}

/// Law: interpolating at ratio `k/den` is the convex combination
/// `a*(1 - k/den) + b*(k/den)`: the two textbook forms of the numerator
/// agree exactly, the fixed-point result is within half a unit of the exact
/// rational value, and the endpoint ratios reproduce `a` and `b` exactly.
pub proof fn lemma_lerp_convex(a: int, b: int, k: int, den: int)
    requires
        1 <= den,
        0 <= k <= den,
    ensures
        a * (den - k) + b * k == a * den + (b - a) * k,
        2 * (den * lerp_fixed(a, b, k, den) - (a * (den - k) + b * k)) <= den,
        -2 * (den * lerp_fixed(a, b, k, den) - (a * (den - k) + b * k)) <= den,
        k == 0 ==> lerp_fixed(a, b, k, den) == a,
        k == den ==> lerp_fixed(a, b, k, den) == b,
{
    assert(a * (den - k) + b * k == a * den + (b - a) * k) by (nonlinear_arith);
    let n = a * (den - k) + b * k + den / 2;
    lemma_fundamental_div_mod(n, den);
    lemma_mod_bound(n, den);
    let q = n / den;
    let r = n % den;
    assert(den * q - (n - den / 2) == den / 2 - r);
    assert(2 * (den / 2) <= den);
    assert(2 * (den / 2) >= den - 1);
    if k == 0 {
        assert(a * (den - 0) + b * 0 == den * a) by (nonlinear_arith);
        lemma_div_multiples_vanish_fancy(a, den / 2, den);
    }
    if k == den {
        assert(a * (den - den) + b * den == den * b) by (nonlinear_arith);
        lemma_div_multiples_vanish_fancy(b, den / 2, den);
    }
}

/// Law: the ratio sequence that `interpolate` returns runs from exactly zero
/// to exactly one and is strictly increasing.
pub proof fn lemma_ratios_strictly_increasing(rs: Seq<Ratio>, steps: int)
    requires
        2 <= steps,
        rs.len() == steps,
        forall|k: int|
            0 <= k < steps ==> #[trigger] rs[k] == (Ratio { num: k as u32, den: (steps - 1) as u32 }),
        steps - 1 <= u32::MAX,
    ensures
        rs[0].num == 0,
        rs[steps - 1].num == rs[steps - 1].den,
        forall|i: int, j: int|
            0 <= i < j < steps ==> #[trigger] (rs[i].num * rs[j].den) < #[trigger] (rs[j].num
                * rs[i].den),
{
    assert forall|i: int, j: int| 0 <= i < j < steps implies #[trigger] (rs[i].num * rs[j].den)
        < #[trigger] (rs[j].num * rs[i].den) by {
        assert(rs[i].num == i && rs[j].num == j && rs[i].den == steps - 1 && rs[j].den == steps
            - 1);
        assert(i * (steps - 1) < j * (steps - 1)) by (nonlinear_arith)
            requires
                0 <= i < j,
                steps >= 2,
        ;
    }
}

/// One interpolated coordinate, computed in shifted unsigned arithmetic.
fn lerp_coord(a: i64, b: i64, k: u32, den: u32) -> (r: i64)
    requires
        1 <= den,
        k <= den,
        -MAX_COORD <= a <= MAX_COORD,
        -MAX_COORD <= b <= MAX_COORD,
    ensures
        r as int == lerp_fixed(a as int, b as int, k as int, den as int),
        -MAX_COORD <= r <= MAX_COORD,
{
    let au: u64 = (a + MAX_COORD) as u64;
    let bu: u64 = (b + MAX_COORD) as u64;
    let denu: u64 = den as u64;
    let ku: u64 = k as u64;
    let h: u64 = denu / 2;
    proof {
        assert(au * (denu - ku) <= 2_000_000_000 * 0xffff_ffff) by (nonlinear_arith)
            requires
                au <= 2_000_000_000,
                0 <= denu - ku <= 0xffff_ffffu64,
        ;
        assert(bu * ku <= 2_000_000_000 * 0xffff_ffff) by (nonlinear_arith)
            requires
                bu <= 2_000_000_000,
                0 <= ku <= 0xffff_ffffu64,
        ;
    }
    let num: u64 = au * (denu - ku) + bu * ku + h;
    let q: u64 = num / denu;
    proof {
        let ai = a as int;
        let bi = b as int;
        let ki = k as int;
        let di = den as int;
        let m = MAX_COORD as int;
        let n = ai * (di - ki) + bi * ki + di / 2;
        assert(num as int == n + m * di) by (nonlinear_arith)
            requires
                num as int == (ai + m) * (di - ki) + (bi + m) * ki + di / 2,
                n == ai * (di - ki) + bi * ki + di / 2,
                0 <= ki <= di,
        ;
        lemma_fundamental_div_mod(n, di);
        lemma_mod_bound(n, di);
        let qn = n / di;
        let rn = n % di;
        assert(di * (qn + m) == di * qn + di * m) by (nonlinear_arith);
        assert(num as int == di * (qn + m) + rn);
        lemma_div_multiples_vanish_fancy(qn + m, rn, di);
        assert(q as int == qn + m);
        // Range: the numerator is at most (2m)*di + di/2.
        assert(num as int <= 2_000_000_000 * di + di / 2) by (nonlinear_arith)
            requires
                num as int == (ai + m) * (di - ki) + (bi + m) * ki + di / 2,
                0 <= ai + m <= 2_000_000_000,
                0 <= bi + m <= 2_000_000_000,
                0 <= ki <= di,
                m == 1_000_000_000,
        ;
        lemma_div_is_ordered(num as int, 2_000_000_000 * di + di / 2, di);
        lemma_div_multiples_vanish_fancy(2_000_000_000, di / 2, di);
        assert((di * 2_000_000_000 + di / 2) / di == 2_000_000_000);
        assert(q as int <= 2_000_000_000);
    }
    (q as i64) - MAX_COORD
}

impl Points {
    /// Produces one blend ratio per step, evenly spaced from 0 to 1, and for
    /// each ratio the point configuration interpolated between the two
    /// endpoint point lists. Fewer than two steps (or more than
    /// [`MAX_STEPS`]) is an unusable configuration.
    pub fn interpolate(&self, steps: usize) -> (r: Result<(Vec<Ratio>, Vec<Vec<Coord>>), MorphError>)
        requires
            self.wf(),
        ensures
            r is Ok <==> 2 <= steps <= MAX_STEPS,
            !(2 <= steps <= MAX_STEPS) ==> r == Err::<(Vec<Ratio>, Vec<Vec<Coord>>), MorphError>(
                MorphError::InvalidConfiguration,
            ),
            r is Ok ==> ({
                let (ratios, configs) = r.unwrap();
                let den = (steps - 1) as int;
                &&& ratios@.len() == steps
                &&& forall|k: int|
                    0 <= k < steps ==> #[trigger] ratios@[k] == (Ratio {
                        num: k as u32,
                        den: (steps - 1) as u32,
                    })
                &&& configs@.len() == steps
                &&& forall|k: int| 0 <= k < steps ==> (#[trigger] configs@[k])@.len()
                    == self.human@.len()
                &&& forall|k: int, i: int|
                    0 <= k < steps && 0 <= i < self.human@.len() ==> {
                        &&& (#[trigger] configs@[k]@[i]).x == lerp_fixed(
                            self.human@[i].x as int,
                            self.otter@[i].x as int,
                            k,
                            den,
                        )
                        &&& configs@[k]@[i].y == lerp_fixed(
                            self.human@[i].y as int,
                            self.otter@[i].y as int,
                            k,
                            den,
                        )
                        &&& coord_ok(configs@[k]@[i])
                    }
            }),
    {
        if steps < 2 || steps > MAX_STEPS {
            return Err(MorphError::InvalidConfiguration);
        }
        let den: u32 = (steps - 1) as u32;
        let npts: usize = self.human.len();
        let mut ratios: Vec<Ratio> = Vec::new();
        let mut configs: Vec<Vec<Coord>> = Vec::new();
        let mut k: usize = 0;
        while k < steps
            invariant
                self.wf(),
                2 <= steps <= MAX_STEPS,
                den == (steps - 1) as u32,
                npts == self.human@.len(),
                0 <= k <= steps,
                ratios@.len() == k,
                configs@.len() == k,
                forall|m: int|
                    0 <= m < k ==> #[trigger] ratios@[m] == (Ratio {
                        num: m as u32,
                        den: (steps - 1) as u32,
                    }),
                forall|m: int| 0 <= m < k ==> (#[trigger] configs@[m])@.len() == npts,
                forall|m: int, i: int|
                    0 <= m < k && 0 <= i < npts ==> {
                        &&& (#[trigger] configs@[m]@[i]).x == lerp_fixed(
                            self.human@[i].x as int,
                            self.otter@[i].x as int,
                            m,
                            (steps - 1) as int,
                        )
                        &&& configs@[m]@[i].y == lerp_fixed(
                            self.human@[i].y as int,
                            self.otter@[i].y as int,
                            m,
                            (steps - 1) as int,
                        )
                        &&& coord_ok(configs@[m]@[i])
                    },
            decreases steps - k,
        {
            let mut cfg: Vec<Coord> = Vec::new();
            let mut i: usize = 0;
            while i < npts
                invariant
                    self.wf(),
                    2 <= steps <= MAX_STEPS,
                    den == (steps - 1) as u32,
                    npts == self.human@.len(),
                    0 <= k < steps,
                    0 <= i <= npts,
                    cfg@.len() == i,
                    forall|m: int|
                        0 <= m < i ==> {
                            &&& (#[trigger] cfg@[m]).x == lerp_fixed(
                                self.human@[m].x as int,
                                self.otter@[m].x as int,
                                k as int,
                                (steps - 1) as int,
                            )
                            &&& cfg@[m].y == lerp_fixed(
                                self.human@[m].y as int,
                                self.otter@[m].y as int,
                                k as int,
                                (steps - 1) as int,
                            )
                            &&& coord_ok(cfg@[m])
                        },
                decreases npts - i,
            {
                let a = self.human[i];
                let b = self.otter[i];
                let x = lerp_coord(a.x, b.x, k as u32, den);
                let y = lerp_coord(a.y, b.y, k as u32, den);
                cfg.push(Coord { x, y });
                i += 1;
            }
            ratios.push(Ratio { num: k as u32, den });
            configs.push(cfg);
            k += 1;
        }
        Ok((ratios, configs))
    }
}

} // verus!
