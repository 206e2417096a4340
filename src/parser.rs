use vstd::prelude::*;
use vstd::string::StrSliceExecFns;
use vstd::string::StringExecFns;

use crate::entry::{Entry, EntryModel, text_view};
use crate::errors::{Error, ErrorModel};
use crate::text::{
    NUMBER_CAP, all_digits, capped, chars_of, lemma_pow10_positive, lemma_scaled_fraction,
    number_value, opt_digits, pieces, pow10, ranges_within, read_number, read_scaled_fraction,
    scaled_fraction, split_ranges, split_seq, strip_plus, strip_sign, tokens, token_ranges, trim,
    trim_range,
};

verus! {

/// A frame rate of `num / den` frames per second (`30000 / 1001` for NTSC).
#[derive(Debug, Clone, Copy)]
pub struct FrameRate {
    pub num: u32,
    pub den: u32,
}

impl FrameRate {
    /// A usable rate is positive.
    pub open spec fn valid(self) -> bool {
        self.num > 0 && self.den > 0
    }

    /// A rate of `fps` whole frames per second.
    pub fn whole(fps: u32) -> (r: FrameRate)
        requires
            fps > 0,
        ensures
            r.num == fps,
            r.den == 1,
            r.valid(),
    {
        FrameRate { num: fps, den: 1 }
    }
}

/// Microseconds of `n / 10^k` frames at `rate`, rounded down:
/// `n / 10^k * 1_000_000 / (num / den)`.
pub open spec fn frames_micros(n: nat, k: nat, rate: FrameRate) -> nat {
    (n * scale_of(rate)) / (pow10(k) * (rate.num as nat))
}

/// Microseconds per frame, times the frame rate's numerator.
pub open spec fn scale_of(rate: FrameRate) -> nat {
    1_000_000 * (rate.den as nat)
}

/// The components of a timecode, left to right.
pub open spec fn timecode_parts(tc: Seq<char>) -> Seq<Seq<char>> {
    split_seq(tc, seq![':'])
}

/// A component starts with a minus sign.
pub open spec fn negative(c: Seq<char>) -> bool {
    c.len() > 0 && c[0] == '-'
}

/// The whole part and the fraction of a component, without its sign.
pub open spec fn number_pieces(c: Seq<char>) -> Seq<Seq<char>> {
    split_seq(strip_sign(c), seq!['.'])
}

/// A component is a number: an optional sign, then digits, or, where
/// `allow_point`, digits around a point with a digit on at least one side.
pub open spec fn number_well_formed(c: Seq<char>, allow_point: bool) -> bool {
    let p = number_pieces(c);
    (p.len() == 1 && all_digits(p[0])) || (allow_point && p.len() == 2 && opt_digits(p[0])
        && opt_digits(p[1]) && p[0].len() + p[1].len() > 0)
}

/// The whole part of a component, without its sign.
pub open spec fn number_whole(c: Seq<char>) -> nat {
    number_value(number_pieces(c)[0])
}

/// The digits after the point of a component; none where it has no point.
pub open spec fn fraction_digits(c: Seq<char>) -> Seq<char> {
    if number_pieces(c).len() == 2 {
        number_pieces(c)[1]
    } else {
        seq![]
    }
}

/// A component's value without its sign, times `10^k` for its `k` digits
/// after the point.
pub open spec fn number_scaled(c: Seq<char>) -> nat {
    number_whole(c) * pow10(fraction_digits(c).len()) + number_value(fraction_digits(c))
}

/// `m` with the sign that `neg` gives.
pub open spec fn signed(neg: bool, m: nat) -> int {
    if neg {
        -m
    } else {
        m as int
    }
}

/// Microseconds in one unit of the `k`-th component from the right.
pub open spec fn unit_micros(k: int) -> nat {
    if k == 1 {
        1_000_000
    } else if k == 2 {
        60_000_000
    } else {
        3_600_000_000
    }
}

/// The magnitude of the `k`-th component from the right (1: seconds,
/// 2: minutes, 3: hours), truncated to whole units, in microseconds; zero
/// where the timecode has fewer.
pub open spec fn part_magnitude(tc: Seq<char>, k: int) -> nat {
    let p = timecode_parts(tc);
    if k < p.len() {
        number_whole(p[p.len() - 1 - k]) * unit_micros(k)
    } else {
        0
    }
}

/// The `k`-th component from the right is negative.
pub open spec fn part_negative(tc: Seq<char>, k: int) -> bool {
    let p = timecode_parts(tc);
    k < p.len() && negative(p[p.len() - 1 - k])
}

/// The frame component of a timecode: its last component.
pub open spec fn frame_part(tc: Seq<char>) -> Seq<char> {
    timecode_parts(tc).last()
}

/// The magnitude of the frame count in microseconds, rounded toward zero.
pub open spec fn frame_magnitude(tc: Seq<char>, rate: FrameRate) -> nat {
    frames_micros(
        number_scaled(frame_part(tc)),
        fraction_digits(frame_part(tc)).len(),
        rate,
    )
}

/// A timecode is one to four colon-separated numbers; the frame count may
/// have a fraction only where `fractional`.
pub open spec fn timecode_well_formed(tc: Seq<char>, fractional: bool) -> bool {
    let p = timecode_parts(tc);
    &&& p.len() <= 4
    &&& number_well_formed(p.last(), fractional)
    &&& forall|i: int| 0 <= i < p.len() - 1 ==> number_well_formed(#[trigger] p[i], true)
}

/// Elapsed microseconds that a well-formed timecode denotes: the signed sum
/// of its frames and its whole seconds, minutes and hours.
pub open spec fn timecode_micros(tc: Seq<char>, rate: FrameRate) -> int {
    signed(negative(frame_part(tc)), frame_magnitude(tc, rate)) + signed(
        part_negative(tc, 1),
        part_magnitude(tc, 1),
    ) + signed(part_negative(tc, 2), part_magnitude(tc, 2)) + signed(
        part_negative(tc, 3),
        part_magnitude(tc, 3),
    )
}

/// Each term of the timecode, and their sum, fit an `i64`.
pub open spec fn timecode_in_range(tc: Seq<char>, rate: FrameRate) -> bool {
    &&& frame_magnitude(tc, rate) <= i64::MAX
    &&& part_magnitude(tc, 1) <= i64::MAX
    &&& part_magnitude(tc, 2) <= i64::MAX
    &&& part_magnitude(tc, 3) <= i64::MAX
    &&& i64::MIN <= timecode_micros(tc, rate) <= i64::MAX
}

/// What reading a timecode gives: its microseconds, or `InvalidTimestamp`
/// with `empty` for an empty timecode, else with the timecode, where it is
/// malformed or beyond what an `i64` holds.
pub open spec fn timecode_result(tc: Seq<char>, rate: FrameRate, fractional: bool) -> Result<
    int,
    ErrorModel,
> {
    if tc.len() == 0 {
        Err(ErrorModel::InvalidTimestamp("empty"@))
    } else if timecode_well_formed(tc, fractional) && timecode_in_range(tc, rate) {
        Ok(timecode_micros(tc, rate))
    } else {
        Err(ErrorModel::InvalidTimestamp(tc))
    }
}

pub open spec fn micros_view(r: Result<i64, Error>) -> Result<int, ErrorModel> {
    match r {
        Ok(v) => Ok(v as int),
        Err(e) => Err(e@),
    }
}

/// Reads `s[lo..hi]` as a possibly empty run of digits, capped at `NUMBER_CAP`.
fn read_opt_number(s: &Vec<char>, lo: usize, hi: usize) -> (r: Option<u128>)
    requires
        lo <= hi <= s.len(),
    ensures
        r is Some <==> opt_digits(s@.subrange(lo as int, hi as int)),
        r matches Some(v) ==> v as nat == capped(number_value(s@.subrange(lo as int, hi as int))),
{
    if lo == hi {
        assert(s@.subrange(lo as int, hi as int).len() == 0);
        Some(0)
    } else {
        read_number(s, lo, hi)
    }
}

/// Reads the component `s[lo..hi]`: whether it is negative, its whole part
/// capped at `NUMBER_CAP`, and its fraction times `m`, rounded down.
fn read_component(s: &Vec<char>, lo: usize, hi: usize, allow_point: bool, m: u128) -> (r: Option<
    (bool, u128, u128),
>)
    requires
        lo <= hi <= s.len(),
        m <= u64::MAX,
    ensures
        r is Some <==> number_well_formed(s@.subrange(lo as int, hi as int), allow_point),
        r matches Some(v) ==> v.0 == negative(s@.subrange(lo as int, hi as int)) && v.1 as nat
            == capped(number_whole(s@.subrange(lo as int, hi as int))) && v.2 as nat
            == scaled_fraction(fraction_digits(s@.subrange(lo as int, hi as int)), m as nat) && v.2
            <= m,
{
    let ghost c = s@.subrange(lo as int, hi as int);
    let neg = lo < hi && s[lo] == '-';
    let start = if lo < hi && (s[lo] == '+' || s[lo] == '-') {
        lo + 1
    } else {
        lo
    };
    proof {
        assert(strip_sign(c) =~= s@.subrange(start as int, hi as int));
    }
    let dot = vec!['.'];
    let ps = split_ranges(s, start, hi, &dot);
    proof {
        assert(dot@ =~= seq!['.']);
        assert(pieces(s@, ps@) == number_pieces(c));
        assert(scaled_fraction(Seq::<char>::empty(), m as nat) == 0);
    }
    if ps.len() == 1 {
        let (a0, a1) = ps[0];
        return match read_number(s, a0, a1) {
            Some(w) => Some((neg, w, 0)),
            None => None,
        };
    }
    if ps.len() != 2 || !allow_point {
        return None;
    }
    let (a0, a1) = ps[0];
    let (b0, b1) = ps[1];
    proof {
        assert(number_pieces(c)[0] == s@.subrange(a0 as int, a1 as int));
        assert(number_pieces(c)[1] == s@.subrange(b0 as int, b1 as int));
    }
    if a0 == a1 && b0 == b1 {
        return None;
    }
    match read_opt_number(s, a0, a1) {
        Some(w) => match read_opt_number(s, b0, b1) {
            Some(_) => Some((neg, w, read_scaled_fraction(s, b0, b1, m))),
            None => None,
        },
        None => None,
    }
}

/// Reads the `k`-th component from the right of the timecode whose
/// components are `parts`: whether it is negative, and its whole part, capped.
fn read_part(s: &Vec<char>, parts: &Vec<(usize, usize)>, k: usize) -> (r: Option<(bool, u128)>)
    requires
        1 <= k < 4,
        ranges_within(parts@, 0, s.len() as int),
    ensures
        k < parts.len() ==> (r is Some <==> number_well_formed(
            pieces(s@, parts@)[parts.len() - 1 - k],
            true,
        )),
        k >= parts.len() ==> r == Some((false, 0u128)),
        r matches Some(v) ==> k < parts.len() ==> v.0 == negative(
            pieces(s@, parts@)[parts.len() - 1 - k],
        ) && v.1 as nat == capped(number_whole(pieces(s@, parts@)[parts.len() - 1 - k])),
{
    if k < parts.len() {
        let (a, b) = parts[parts.len() - 1 - k];
        match read_component(s, a, b, true, 0) {
            Some((neg, w, _)) => Some((neg, w)),
            None => None,
        }
    } else {
        Some((false, 0))
    }
}

/// The exact frame term equals the one computed from the capped whole part,
/// unless both exceed what an `i64` holds.
proof fn lemma_frame_term(w: nat, wc: nat, f: nat, k: nat, z: nat, rate: FrameRate)
    requires
        rate.valid(),
        wc == capped(w),
        z == (f * scale_of(rate)) / pow10(k),
    ensures
        ((wc * scale_of(rate) + z) / (rate.num as nat) <= i64::MAX || frames_micros(
            w * pow10(k) + f,
            k,
            rate,
        ) <= i64::MAX) ==> (wc * scale_of(rate) + z) / (rate.num as nat) == frames_micros(
            w * pow10(k) + f,
            k,
            rate,
        ),
{
    let m: nat = scale_of(rate);
    let p: nat = pow10(k);
    let n: nat = rate.num as nat;
    lemma_pow10_positive(k);
    let x: nat = (w * p + f) * m;
    assert(x == f * m + (w * m) * p) by (nonlinear_arith)
        requires
            x == (w * p + f) * m,
    ;
    vstd::arithmetic::div_mod::lemma_hoist_over_denominator((f * m) as int, (w * m) as int, p);
    vstd::arithmetic::div_mod::lemma_div_denominator(x as int, p as int, n as int);
    assert(x / p == w * m + z);
    assert(p * n == pow10(k) * (rate.num as nat));
    if w >= NUMBER_CAP {
        assert(wc * m + z >= NUMBER_CAP * 1_000_000) by (nonlinear_arith)
            requires
                wc == NUMBER_CAP,
                m >= 1_000_000,
        ;
        assert(w * m + z >= wc * m + z) by (nonlinear_arith)
            requires
                w >= wc,
        ;
        let big: int = (i64::MAX as int + 1) * n;
        assert(big <= NUMBER_CAP * 1_000_000) by (nonlinear_arith)
            requires
                big == (i64::MAX as int + 1) * n,
                n <= u32::MAX,
        ;
        vstd::arithmetic::div_mod::lemma_div_is_ordered(big, (wc * m + z) as int, n as int);
        vstd::arithmetic::div_mod::lemma_div_is_ordered((wc * m + z) as int, (w * m + z) as int, n as int);
        vstd::arithmetic::div_mod::lemma_div_by_multiple(i64::MAX as int + 1, n as int);
    }
}

/// A whole part that reached the cap gives more than an `i64` holds in any unit.
proof fn lemma_part_term(w: nat, wc: nat, unit: nat)
    requires
        wc == capped(w),
        unit >= 1_000_000,
    ensures
        (wc * unit <= i64::MAX || w * unit <= i64::MAX) ==> wc * unit == w * unit,
{
    if w >= NUMBER_CAP {
        assert(wc * unit >= NUMBER_CAP * 1_000_000 && w * unit >= NUMBER_CAP * 1_000_000) by (nonlinear_arith)
            requires
                wc == NUMBER_CAP,
                w >= NUMBER_CAP,
                unit >= 1_000_000,
        ;
    }
}

fn invalid_timestamp(data: &str, lo: usize, hi: usize) -> (r: Error)
    requires
        lo <= hi <= data@.len(),
    ensures
        r@ == (if lo == hi {
            ErrorModel::InvalidTimestamp("empty"@)
        } else {
            ErrorModel::InvalidTimestamp(data@.subrange(lo as int, hi as int))
        }),
{
    if lo == hi {
        Error::InvalidTimestamp(String::from_str("empty"))
    } else {
        Error::InvalidTimestamp(String::from_str(data.substring_char(lo, hi)))
    }
}

/// The timecode `s[lo..hi]`, where `s` holds the characters of `data`, in
/// microseconds at `rate`; its frame count may have a fraction where
/// `fractional`.
#[verifier::rlimit(50)]
fn timecode_in(data: &str, s: &Vec<char>, lo: usize, hi: usize, rate: FrameRate, fractional: bool) -> (r:
    Result<i64, Error>)
    requires
        s@ == data@,
        lo <= hi <= s.len(),
        rate.valid(),
    ensures
        micros_view(r) == timecode_result(s@.subrange(lo as int, hi as int), rate, fractional),
{
    let ghost tc = s@.subrange(lo as int, hi as int);
    if lo == hi {
        return Err(invalid_timestamp(data, lo, hi));
    }
    let colon = vec![':'];
    let parts = split_ranges(s, lo, hi, &colon);
    proof {
        assert(colon@ =~= seq![':']);
        assert(pieces(s@, parts@) == timecode_parts(tc));
        crate::text::lemma_split_nonempty(tc, seq![':']);
    }
    if parts.len() > 4 {
        return Err(invalid_timestamp(data, lo, hi));
    }
    let (fa, fb) = parts[parts.len() - 1];
    let ghost p = timecode_parts(tc);
    proof {
        assert(p.last() == s@.subrange(fa as int, fb as int));
    }
    let m: u128 = 1_000_000 * (rate.den as u128);
    let f = read_component(s, fa, fb, fractional, m);
    let sec = read_part(s, &parts, 1);
    let min = read_part(s, &parts, 2);
    let hr = read_part(s, &parts, 3);
    let ((fneg, fw, fz), (sneg, sw), (mneg, mw), (hneg, hw)) = match (f, sec, min, hr) {
        (Some(f), Some(sec), Some(min), Some(hr)) => (f, sec, min, hr),
        _ => {
            proof {
                if sec is None {
                    assert(!number_well_formed(p[p.len() - 2], true));
                } else if min is None {
                    assert(!number_well_formed(p[p.len() - 3], true));
                } else if hr is None {
                    assert(!number_well_formed(p[p.len() - 4], true));
                }
            }
            return Err(invalid_timestamp(data, lo, hi));
        },
    };
    proof {
        assert forall|i: int| 0 <= i < p.len() - 1 implies number_well_formed(#[trigger] p[i], true) by {
            let k = p.len() - 1 - i;
            assert(p[p.len() - 1 - k] == p[i]);
        }
    }
    let ghost fp = frame_part(tc);
    proof {
        lemma_scaled_fraction(fraction_digits(fp), m as nat);
        assert(fw * m <= NUMBER_CAP * (1_000_000 * (u32::MAX as u128))) by (nonlinear_arith)
            requires
                fw <= NUMBER_CAP,
                m <= 1_000_000 * (u32::MAX as u128),
        ;
        lemma_frame_term(
            number_whole(fp),
            fw as nat,
            number_value(fraction_digits(fp)),
            fraction_digits(fp).len(),
            fz as nat,
            rate,
        );
    }
    let fmag = (fw * m + fz) / (rate.num as u128);
    proof {
        assert(m as nat == scale_of(rate));
    }
    let smag = sw * 1_000_000;
    let mmag = mw * 60_000_000;
    let hmag = hw * 3_600_000_000;
    proof {
        if 1 < p.len() {
            lemma_part_term(number_whole(p[p.len() - 2]), sw as nat, 1_000_000);
        }
        if 2 < p.len() {
            lemma_part_term(number_whole(p[p.len() - 3]), mw as nat, 60_000_000);
        }
        if 3 < p.len() {
            lemma_part_term(number_whole(p[p.len() - 4]), hw as nat, 3_600_000_000);
        }
        assert(m as nat == scale_of(rate));
        assert(fmag as nat == (fw as nat * scale_of(rate) + fz as nat) / (rate.num as nat));
    }
    let max = i64::MAX as u128;
    if fmag > max || smag > max || mmag > max || hmag > max {
        return Err(invalid_timestamp(data, lo, hi));
    }
    let total: i128 = (if fneg { -(fmag as i128) } else { fmag as i128 }) + (if sneg {
        -(smag as i128)
    } else {
        smag as i128
    }) + (if mneg {
        -(mmag as i128)
    } else {
        mmag as i128
    }) + (if hneg {
        -(hmag as i128)
    } else {
        hmag as i128
    });
    if total < i64::MIN as i128 || total > i64::MAX as i128 {
        return Err(invalid_timestamp(data, lo, hi));
    }
    Ok(total as i64)
}

/// Which fields of a record give its timecodes.
#[derive(Debug, Clone, Copy)]
pub enum Layout {
    /// At least six fields: the fifth is where the record starts, the sixth
    /// where it ends.
    SourceInOut,
    /// At least five fields: the fifth is where the record starts; a `D:` tag
    /// of the metadata line, if any, gives its duration.
    ExplicitDuration,
}

/// Whether the start and end timecodes of `layout` may give a fraction of a
/// frame.
pub open spec fn fractional_frames(layout: Layout) -> bool {
    match layout {
        Layout::SourceInOut => true,
        Layout::ExplicitDuration => false,
    }
}

/// The least number of fields that a fields line has in `layout`.
pub open spec fn min_fields(layout: Layout) -> nat {
    match layout {
        Layout::SourceInOut => 6,
        Layout::ExplicitDuration => 5,
    }
}

/// The text after the first field of `fields` that starts with the two
/// characters `tag`, trimmed; `None` where no field starts with it.
pub open spec fn tag_value(fields: Seq<Seq<char>>, tag: Seq<char>) -> Option<Seq<char>>
    decreases fields.len(),
{
    if fields.len() == 0 {
        None
    } else if fields[0].len() >= 2 && fields[0].take(2) == tag {
        Some(trim(fields[0].skip(2)))
    } else {
        tag_value(fields.drop_first(), tag)
    }
}

pub open spec fn non_empty(s: Seq<char>) -> Option<Seq<char>> {
    if s.len() == 0 {
        None
    } else {
        Some(s)
    }
}

/// A record's index field is digits, after an optional `+`, denoting a
/// number that fits a `usize`.
pub open spec fn index_valid(t: Seq<char>) -> bool {
    all_digits(strip_plus(t)) && number_value(strip_plus(t)) <= usize::MAX
}

/// The two lines of a record.
pub open spec fn record_lines(rec: Seq<char>) -> Seq<Seq<char>> {
    split_seq(rec, seq!['\r', '\n'])
}

/// The fields of a metadata line.
pub open spec fn meta_fields(line: Seq<char>) -> Seq<Seq<char>> {
    split_seq(line, seq!['|'])
}

/// The duration of a record whose start is `start`, from its tokens and
/// metadata fields.
pub open spec fn duration_result(
    t: Seq<Seq<char>>,
    meta: Seq<Seq<char>>,
    start: int,
    rate: FrameRate,
    layout: Layout,
) -> Result<int, ErrorModel> {
    match layout {
        Layout::SourceInOut => match timecode_result(t[5], rate, true) {
            Ok(end) => if i64::MIN <= end - start <= i64::MAX {
                Ok(end - start)
            } else {
                Err(ErrorModel::InvalidTimestamp(t[5]))
            },
            Err(e) => Err(e),
        },
        Layout::ExplicitDuration => match tag_value(meta.drop_first(), seq!['D', ':']) {
            None => Ok(0),
            Some(d) => timecode_result(d, rate, false),
        },
    }
}

/// What reading one record gives.
#[verifier::opaque]
pub open spec fn entry_result(rec: Seq<char>, rate: FrameRate, layout: Layout) -> Result<EntryModel, ErrorModel> {
    let lines = record_lines(rec);
    if lines.len() != 2 {
        Err(ErrorModel::InvalidEntryFormat)
    } else {
        let t = tokens(lines[0]);
        let meta = meta_fields(lines[1]);
        if t.len() < min_fields(layout) {
            Err(ErrorModel::InvalidEntryFormat)
        } else if !index_valid(t[0]) {
            Err(ErrorModel::InvalidIndexFormat)
        } else {
            match timecode_result(t[4], rate, fractional_frames(layout)) {
                Err(e) => Err(e),
                Ok(start) => match duration_result(t, meta, start, rate, layout) {
                    Err(e) => Err(e),
                    Ok(d) => Ok(
                        EntryModel {
                            index: number_value(strip_plus(t[0])),
                            timestamp: start,
                            duration: d,
                            color: tag_value(meta.drop_first(), seq!['C', ':']),
                            name: tag_value(meta.drop_first(), seq!['M', ':']),
                            description: non_empty(trim(meta[0])),
                        },
                    ),
                },
            }
        }
    }
}

pub open spec fn entry_view(r: Result<Entry, Error>) -> Result<EntryModel, ErrorModel> {
    match r {
        Ok(e) => Ok(e@),
        Err(e) => Err(e@),
    }
}

/// The range of the value of the first field after the first of `fields` that
/// starts with `t0` `t1`.
fn find_tag(s: &Vec<char>, fields: &Vec<(usize, usize)>, t0: char, t1: char) -> (r: Option<
    (usize, usize),
>)
    requires
        fields.len() >= 1,
        ranges_within(fields@, 0, s.len() as int),
    ensures
        r is Some <==> tag_value(pieces(s@, fields@).drop_first(), seq![t0, t1]) is Some,
        r matches Some(p) ==> p.0 <= p.1 <= s.len() && Some(s@.subrange(p.0 as int, p.1 as int))
            == tag_value(pieces(s@, fields@).drop_first(), seq![t0, t1]),
{
    let ghost all = pieces(s@, fields@);
    let ghost tag = seq![t0, t1];
    let mut i: usize = 1;
    proof {
        assert(all.drop_first() =~= all.skip(1));
    }
    while i < fields.len()
        invariant
            1 <= i <= fields.len(),
            all == pieces(s@, fields@),
            tag == seq![t0, t1],
            ranges_within(fields@, 0, s.len() as int),
            tag_value(all.drop_first(), tag) == tag_value(all.skip(i as int), tag),
        decreases fields.len() - i,
    {
        let (a, b) = fields[i];
        let ghost f = all[i as int];
        proof {
            assert(all.skip(i as int).drop_first() =~= all.skip(i + 1));
            assert(all.skip(i as int)[0] == f);
            assert(f == s@.subrange(a as int, b as int));
        }
        if b - a >= 2 && s[a] == t0 && s[a + 1] == t1 {
            proof {
                assert(f.len() == b - a);
                assert(f[0] == s@[a as int] && f[1] == s@[a + 1]);
                assert(f.take(2) =~= tag);
                assert(tag_value(all.skip(i as int), tag) == Some(trim(f.skip(2))));
                assert(f.skip(2) =~= s@.subrange(a + 2, b as int));
            }
            return Some(trim_range(s, a + 2, b));
        }
        proof {
            if f.len() >= 2 && f.take(2) == tag {
                assert(f[0] == s@[a as int] && f[1] == s@[a + 1]);
                assert(f.take(2)[0] == t0 && f.take(2)[1] == t1);
            }
        }
        i = i + 1;
    }
    proof {
        assert(all.skip(i as int) =~= Seq::<Seq<char>>::empty());
    }
    None
}

/// Reads the record `s[lo..hi]`, where `s` holds the characters of `data`.
fn scan_entry(data: &str, s: &Vec<char>, lo: usize, hi: usize, frame_rate: FrameRate, layout: Layout) -> (r:
    Result<Entry, Error>)
    requires
        s@ == data@,
        lo <= hi <= s.len(),
        frame_rate.valid(),
    ensures
        entry_view(r) == entry_result(s@.subrange(lo as int, hi as int), frame_rate, layout),
{
    reveal(entry_result);
    let ghost rec = s@.subrange(lo as int, hi as int);
    let crlf = vec!['\r', '\n'];
    let lines = split_ranges(s, lo, hi, &crlf);
    proof {
        assert(crlf@ =~= seq!['\r', '\n']);
    }
    if lines.len() != 2 {
        return Err(Error::InvalidEntryFormat);
    }
    let ghost ls = record_lines(rec);
    let (fa, fb) = lines[0];
    let (ma, mb) = lines[1];
    let toks = token_ranges(s, fa, fb);
    let ghost t = pieces(s@, toks@);
    let needed: usize = match layout {
        Layout::SourceInOut => 6,
        Layout::ExplicitDuration => 5,
    };
    if toks.len() < needed {
        return Err(Error::InvalidEntryFormat);
    }
    let (ia0, ib) = toks[0];
    proof {
        assert(t[0] == s@.subrange(ia0 as int, ib as int));
    }
    let ia = if ia0 < ib && s[ia0] == '+' {
        ia0 + 1
    } else {
        ia0
    };
    proof {
        assert(strip_plus(t[0]) =~= s@.subrange(ia as int, ib as int));
    }
    let index = match read_number(s, ia, ib) {
        Some(v) => {
            if v > usize::MAX as u128 {
                return Err(Error::InvalidIndexFormat);
            }
            v as usize
        },
        None => {
            return Err(Error::InvalidIndexFormat);
        },
    };
    proof {
        if number_value(strip_plus(t[0])) >= NUMBER_CAP {
            assert(capped(number_value(strip_plus(t[0]))) == NUMBER_CAP);
        }
    }
    let bar = vec!['|'];
    let meta = split_ranges(s, ma, mb, &bar);
    proof {
        assert(bar@ =~= seq!['|']);
        crate::text::lemma_split_nonempty(s@.subrange(ma as int, mb as int), seq!['|']);
    }
    let ghost m = pieces(s@, meta@);
    let (sa, sb) = toks[4];
    proof {
        assert(t[4] == s@.subrange(sa as int, sb as int));
    }
    let fractional = match layout {
        Layout::SourceInOut => true,
        Layout::ExplicitDuration => false,
    };
    let timestamp = match timecode_in(data, s, sa, sb, frame_rate, fractional) {
        Ok(v) => v,
        Err(e) => {
            return Err(e);
        },
    };
    let duration = match layout {
        Layout::SourceInOut => {
            let (ea, eb) = toks[5];
            proof {
                assert(t[5] == s@.subrange(ea as int, eb as int));
            }
            match timecode_in(data, s, ea, eb, frame_rate, true) {
                Ok(v) => {
                    let d = v as i128 - timestamp as i128;
                    if d < i64::MIN as i128 || d > i64::MAX as i128 {
                        return Err(invalid_timestamp(data, ea, eb));
                    }
                    d as i64
                },
                Err(e) => {
                    return Err(e);
                },
            }
        },
        Layout::ExplicitDuration => match find_tag(s, &meta, 'D', ':') {
            None => 0,
            Some((da, db)) => match timecode_in(data, s, da, db, frame_rate, false) {
                Ok(v) => v,
                Err(e) => {
                    return Err(e);
                },
            },
        },
    };
    let color = match find_tag(s, &meta, 'C', ':') {
        Some((a, b)) => Some(String::from_str(data.substring_char(a, b))),
        None => None,
    };
    let name = match find_tag(s, &meta, 'M', ':') {
        Some((a, b)) => Some(String::from_str(data.substring_char(a, b))),
        None => None,
    };
    let (da, db) = meta[0];
    let (ta, tb) = trim_range(s, da, db);
    let description = if ta == tb {
        None
    } else {
        Some(String::from_str(data.substring_char(ta, tb)))
    };
    proof {
        assert(m[0] == s@.subrange(da as int, db as int));
    }
    Ok(Entry { index, timestamp, duration, color, name, description })
}

/// The record separator: an empty line.
pub open spec fn record_separator() -> Seq<char> {
    seq!['\r', '\n', '\r', '\n']
}

/// The records of a file, in order: the pieces between empty lines after the
/// header, without an empty last piece.
pub open spec fn records_of(data: Seq<char>) -> Seq<Seq<char>> {
    let chunks = split_seq(data, record_separator());
    if chunks.len() < 2 {
        seq![]
    } else if chunks.last().len() == 0 {
        chunks.subrange(1, chunks.len() - 1)
    } else {
        chunks.subrange(1, chunks.len() as int)
    }
}

/// `es` in front of the entries of `r`, or the error of `r`.
pub open spec fn prepend(es: Seq<EntryModel>, r: Result<Seq<EntryModel>, ErrorModel>) -> Result<
    Seq<EntryModel>,
    ErrorModel,
> {
    match r {
        Ok(rest) => Ok(es + rest),
        Err(e) => Err(e),
    }
}

/// What reading the records `recs` gives: all their entries, or the error of
/// the first record that fails.
pub open spec fn entries_result(recs: Seq<Seq<char>>, rate: FrameRate, layout: Layout) -> Result<
    Seq<EntryModel>,
    ErrorModel,
>
    decreases recs.len(),
{
    if recs.len() == 0 {
        Ok(seq![])
    } else {
        match entry_result(recs[0], rate, layout) {
            Err(e) => Err(e),
            Ok(e) => prepend(seq![e], entries_result(recs.drop_first(), rate, layout)),
        }
    }
}

/// What reading a whole file gives.
pub open spec fn parse_result(data: Seq<char>, rate: FrameRate, layout: Layout) -> Result<
    Seq<EntryModel>,
    ErrorModel,
> {
    let recs = records_of(data);
    if recs.len() == 0 {
        Err(ErrorModel::NoEntries)
    } else {
        entries_result(recs, rate, layout)
    }
}

pub open spec fn entries_view(r: Result<Vec<Entry>, Error>) -> Result<Seq<EntryModel>, ErrorModel> {
    match r {
        Ok(v) => Ok(v@.map_values(|e: Entry| e@)),
        Err(e) => Err(e@),
    }
}

/// Reads every record of `data`, laid out as `layout`, at `frame_rate`.
pub fn parse_with_layout(data: &str, frame_rate: FrameRate, layout: Layout) -> (r: Result<Vec<Entry>, Error>)
    requires
        frame_rate.valid(),
    ensures
        entries_view(r) == parse_result(data@, frame_rate, layout),
{
    let s = chars_of(data);
    let sep = vec!['\r', '\n', '\r', '\n'];
    proof {
        assert(sep@ =~= record_separator());
        assert(s@.subrange(0, s@.len() as int) =~= s@);
    }
    let chunks = split_ranges(&s, 0, s.len(), &sep);
    let ghost all = pieces(s@, chunks@);
    if chunks.len() < 2 {
        return Err(Error::NoEntries);
    }
    let (la, lb) = chunks[chunks.len() - 1];
    let end = if la == lb {
        chunks.len() - 1
    } else {
        chunks.len()
    };
    let ghost recs = records_of(data@);
    proof {
        assert(all.last() == s@.subrange(la as int, lb as int));
        assert(recs =~= all.subrange(1, end as int));
    }
    if end < 2 {
        return Err(Error::NoEntries);
    }
    let mut out: Vec<Entry> = Vec::new();
    let mut i: usize = 1;
    proof {
        assert(recs.skip(0) =~= recs);
        assert(out@.map_values(|e: Entry| e@) =~= Seq::<EntryModel>::empty());
        match entries_result(recs, frame_rate, layout) {
            Ok(es) => assert(Seq::<EntryModel>::empty() + es =~= es),
            Err(_) => {},
        }
    }
    while i < end
        invariant
            1 <= i <= end <= chunks.len(),
            s@ == data@,
            frame_rate.valid(),
            all == pieces(s@, chunks@),
            recs == all.subrange(1, end as int),
            recs == records_of(data@),
            end >= 2,
            ranges_within(chunks@, 0, s.len() as int),
            entries_result(recs, frame_rate, layout) == prepend(
                out@.map_values(|e: Entry| e@),
                entries_result(recs.skip(i - 1), frame_rate, layout),
            ),
        decreases end - i,
    {
        let (a, b) = chunks[i];
        let ghost rest = recs.skip(i - 1);
        proof {
            assert(rest[0] == s@.subrange(a as int, b as int));
            assert(rest.drop_first() =~= recs.skip(i as int));
        }
        match scan_entry(data, &s, a, b, frame_rate, layout) {
            Ok(e) => {
                let ghost before = out@.map_values(|e: Entry| e@);
                let ghost ev = e@;
                out.push(e);
                proof {
                    assert(out@.map_values(|e: Entry| e@) =~= before + seq![ev]);
                    match entries_result(recs.skip(i as int), frame_rate, layout) {
                        Ok(es) => assert(before + (seq![ev] + es) =~= before + seq![ev] + es),
                        Err(_) => {},
                    }
                }
            },
            Err(e) => {
                proof {
                    assert(rest.len() > 0);
                    assert(entries_result(rest, frame_rate, layout) == Err::<
                        Seq<EntryModel>,
                        ErrorModel,
                    >(e@));
                }
                return Err(e);
            },
        }
        i = i + 1;
    }
    proof {
        assert(recs.skip(i - 1) =~= Seq::<Seq<char>>::empty());
        assert(out@.map_values(|e: Entry| e@) + Seq::<EntryModel>::empty() =~= out@.map_values(
            |e: Entry| e@,
        ));
    }
    Ok(out)
}

/// Reads every record of `data` at `frame_rate`, each
/// record giving its start and end timecodes.
pub fn parse(data: &str, frame_rate: FrameRate) -> (r: Result<Vec<Entry>, Error>)
    requires
        frame_rate.valid(),
    ensures
        entries_view(r) == parse_result(data@, frame_rate, Layout::SourceInOut),
{
    parse_with_layout(data, frame_rate, Layout::SourceInOut)
}

/// Reads the timecode `v` at `frame_rate`, in microseconds;
/// its frame count may have a fraction.
pub fn parse_duration(v: &str, frame_rate: FrameRate) -> (r: Result<i64, Error>)
    requires
        frame_rate.valid(),
    ensures
        micros_view(r) == timecode_result(v@, frame_rate, true),
{
    let s = chars_of(v);
    proof {
        assert(s@.subrange(0, s@.len() as int) =~= s@);
    }
    timecode_in(v, &s, 0, s.len(), frame_rate, true)
}

} // verus!
