use vstd::arithmetic::div_mod::{
    lemma_div_by_multiple, lemma_fundamental_div_mod, lemma_fundamental_div_mod_converse,
    lemma_hoist_over_denominator,
};
use vstd::prelude::*;

use crate::chapters::{clock_text, lemma_selected_allowed, pad2, selected};
use crate::entry::EntryModel;
use crate::errors::ErrorModel;
use crate::parser::{
    FrameRate, Layout, entries_result, entry_result, meta_fields, number_pieces, fraction_digits,
    frame_magnitude, frames_micros, scale_of, negative, number_scaled, part_magnitude, timecode_result,
    frame_part, number_whole, tag_value, timecode_micros, timecode_parts, timecode_well_formed, min_fields, parse_result, record_lines,
    record_separator, records_of,
};
use crate::text::{
    all_digits, digit_value, is_digit, lemma_number_value_front, lemma_pow10_positive, number_value, pow10, split_seq,
    strip_sign, tokens,
};
use crate::chapters::{decimal, digit_char};

verus! {

/// A frame count equal to the frame rate, `n / 10^k` frames with
/// `n / 10^k == num / den`, is exactly one second, at every rate.
pub proof fn lemma_rate_frames_make_one_second(n: nat, k: nat, rate: FrameRate)
    requires
        rate.valid(),
        n * rate.den == rate.num * pow10(k),
    ensures
        frames_micros(n, k, rate) == 1_000_000,
{
    lemma_pow10_positive(k);
    let d: nat = pow10(k) * (rate.num as nat);
    assert(n * scale_of(rate) == 1_000_000 * d) by (nonlinear_arith)
        requires
            n * rate.den == rate.num * pow10(k),
            d == pow10(k) * (rate.num as nat),
    ;
    assert(d > 0) by (nonlinear_arith)
        requires
            pow10(k) > 0,
            rate.num > 0,
            d == pow10(k) * (rate.num as nat),
    ;
    lemma_div_by_multiple(1_000_000, d as int);
}

/// A timecode whose only component is a non-negative frame count equal to
/// the frame rate reads as exactly one second, at every rate.
pub proof fn lemma_timecode_of_rate_is_one_second(tc: Seq<char>, rate: FrameRate)
    requires
        rate.valid(),
        timecode_well_formed(tc, true),
        tc.len() > 0,
        !negative(frame_part(tc)),
        part_magnitude(tc, 1) == 0,
        part_magnitude(tc, 2) == 0,
        part_magnitude(tc, 3) == 0,
        number_scaled(frame_part(tc)) * rate.den == rate.num * pow10(
            fraction_digits(frame_part(tc)).len(),
        ),
    ensures
        timecode_result(tc, rate, true) == Ok::<int, ErrorModel>(1_000_000),
{
    lemma_rate_frames_make_one_second(
        number_scaled(frame_part(tc)),
        fraction_digits(frame_part(tc)).len(),
        rate,
    );
}

/// Frames beyond the frame rate are not carried into the seconds, yet a
/// frame rate's worth more frames (`e / 10^k == num / den`) adds exactly one
/// second.
pub proof fn lemma_excess_frames_not_carried(n: nat, e: nat, k: nat, rate: FrameRate)
    requires
        rate.valid(),
        e * rate.den == rate.num * pow10(k),
    ensures
        frames_micros(n + e, k, rate) == frames_micros(n, k, rate) + 1_000_000,
{
    lemma_pow10_positive(k);
    let d: nat = pow10(k) * (rate.num as nat);
    assert(d > 0) by (nonlinear_arith)
        requires
            pow10(k) > 0,
            rate.num > 0,
            d == pow10(k) * (rate.num as nat),
    ;
    assert((n + e) * scale_of(rate) == n * scale_of(rate) + 1_000_000 * d) by (nonlinear_arith)
        requires
            e * rate.den == rate.num * pow10(k),
            d == pow10(k) * (rate.num as nat),
    ;
    lemma_hoist_over_denominator((n * scale_of(rate)) as int, 1_000_000, d as nat);
}

/// A time of less than a second of frames (`fm` microseconds) and whole
/// seconds and minutes under sixty reads back on the clock as the same
/// hours, minutes and seconds.
pub proof fn lemma_clock_round_trip(fm: nat, s: nat, m: nat, h: nat, with_hours: bool)
    requires
        fm < 1_000_000,
        s < 60,
        m < 60,
    ensures
        clock_text(fm + s * 1_000_000 + m * 60_000_000 + h * 3_600_000_000, with_hours) == (if h
            > 0 || with_hours {
            pad2(h) + seq![':']
        } else {
            seq![]
        }) + pad2(m) + seq![':'] + pad2(s),
{
    let st = s + 60 * m + 3600 * h;
    let total = fm + s * 1_000_000 + m * 60_000_000 + h * 3_600_000_000;
    assert(total == st * 1_000_000 + fm);
    lemma_fundamental_div_mod_converse(total as int, 1_000_000, st as int, fm as int);
    lemma_fundamental_div_mod_converse(st as int, 3600, h as int, (s + 60 * m) as int);
    lemma_fundamental_div_mod_converse((s + 60 * m) as int, 60, m as int, s as int);
    lemma_fundamental_div_mod_converse(st as int, 60, (m + 60 * h) as int, s as int);
}

/// Reading a list of records succeeds exactly when each record reads, and
/// then gives each record's entry in order.
pub proof fn lemma_entries_each(recs: Seq<Seq<char>>, rate: FrameRate, layout: Layout)
    ensures
        entries_result(recs, rate, layout) is Ok <==> forall|i: int|
            0 <= i < recs.len() ==> #[trigger] entry_result(recs[i], rate, layout) is Ok,
        entries_result(recs, rate, layout) matches Ok(es) ==> es.len() == recs.len() && forall|
            i: int,
        |
            0 <= i < recs.len() ==> #[trigger] entry_result(recs[i], rate, layout) == Ok::<
                EntryModel,
                ErrorModel,
            >(es[i]),
    decreases recs.len(),
{

    if recs.len() > 0 {
        let rest = recs.drop_first();
        lemma_entries_each(rest, rate, layout);
        assert forall|i: int| 1 <= i < recs.len() implies entry_result(recs[i], rate, layout)
            == #[trigger] entry_result(rest[i - 1], rate, layout) by {}
        if entries_result(recs, rate, layout) is Ok {
            assert forall|i: int| 0 <= i < recs.len() implies #[trigger] entry_result(
                recs[i],
                rate,
                layout,
            ) is Ok by {
                if i > 0 {
                    assert(entry_result(rest[i - 1], rate, layout) is Ok);
                }
            }
        }
        if let Ok(es) = entries_result(recs, rate, layout) {
            let e0 = entry_result(recs[0], rate, layout)->Ok_0;
            let es2 = entries_result(rest, rate, layout)->Ok_0;
            assert(es == seq![e0] + es2);
            assert forall|i: int| 0 <= i < recs.len() implies #[trigger] entry_result(
                recs[i],
                rate,
                layout,
            ) == Ok::<EntryModel, ErrorModel>(es[i]) by {
                if i > 0 {
                    assert(entry_result(rest[i - 1], rate, layout) == Ok::<EntryModel, ErrorModel>(
                        es2[i - 1],
                    ));
                }
            }
        }
        if forall|i: int|
            0 <= i < recs.len() ==> #[trigger] entry_result(recs[i], rate, layout) is Ok {
            assert(entry_result(recs[0], rate, layout) is Ok);
            assert forall|i: int| 0 <= i < rest.len() implies #[trigger] entry_result(
                rest[i],
                rate,
                layout,
            ) is Ok by {
                assert(entry_result(recs[i + 1], rate, layout) is Ok);
            }
        }
    }
}

/// Some position of `p` holds `j`.
pub open spec fn hit(p: Seq<int>, j: int) -> bool {
    exists|i: int| 0 <= i < p.len() && #[trigger] p[i] == j
}

/// Shuffling the records of a file changes neither whether it reads nor what
/// entries it gives: they come in the shuffled order.
pub proof fn lemma_shuffled_records(
    d1: Seq<char>,
    d2: Seq<char>,
    p: Seq<int>,
    rate: FrameRate,
    layout: Layout,
)
    requires
        rate.valid(),
        records_of(d1).len() == records_of(d2).len() == p.len(),
        forall|i: int|
            0 <= i < p.len() ==> 0 <= #[trigger] p[i] < p.len() && records_of(d2)[i] == records_of(
                d1,
            )[p[i]],
        forall|j: int| 0 <= j < p.len() ==> #[trigger] hit(p, j),
    ensures
        parse_result(d1, rate, layout) is Ok <==> parse_result(d2, rate, layout) is Ok,
        parse_result(d1, rate, layout) matches Ok(e1) ==> parse_result(d2, rate, layout) matches Ok(
            e2,
        ) && e2.len() == e1.len() && forall|i: int| 0 <= i < p.len() ==> e2[i] == e1[p[i]],
{
    let r1 = records_of(d1);
    let r2 = records_of(d2);
    lemma_entries_each(r1, rate, layout);
    lemma_entries_each(r2, rate, layout);
    if entries_result(r1, rate, layout) is Ok {
        assert forall|i: int| 0 <= i < r2.len() implies #[trigger] entry_result(r2[i], rate, layout) is Ok by {
            assert(entry_result(r1[p[i]], rate, layout) is Ok);
        }
    }
    if entries_result(r2, rate, layout) is Ok {
        assert forall|j: int| 0 <= j < r1.len() implies #[trigger] entry_result(r1[j], rate, layout) is Ok by {
            assert(hit(p, j));
            let i = choose|i: int| 0 <= i < p.len() && #[trigger] p[i] == j;
            assert(entry_result(r2[i], rate, layout) is Ok);
        }
    }
    if let Ok(e1) = entries_result(r1, rate, layout) {
        if let Ok(e2) = entries_result(r2, rate, layout) {
            assert forall|i: int| 0 <= i < p.len() implies e2[i] == e1[p[i]] by {
                assert(entry_result(r2[i], rate, layout) == Ok::<EntryModel, ErrorModel>(e2[i]));
                assert(entry_result(r1[p[i]], rate, layout) == Ok::<EntryModel, ErrorModel>(e1[p[i]]));
            }
        }
    }
}

/// A record whose fields line has fewer fields than the layout needs is
/// rejected as malformed.
pub proof fn lemma_too_few_fields(rec: Seq<char>, rate: FrameRate, layout: Layout)
    requires
        record_lines(rec).len() == 2,
        tokens(record_lines(rec)[0]).len() < min_fields(layout),
    ensures
        entry_result(rec, rate, layout) == Err::<EntryModel, ErrorModel>(
            ErrorModel::InvalidEntryFormat,
        ),
{
    reveal(entry_result);
}

/// `sep` occurs somewhere in `s`.
pub open spec fn occurs_in(s: Seq<char>, sep: Seq<char>) -> bool {
    exists|i: int| 0 <= i && i + sep.len() <= s.len() && #[trigger] s.subrange(i, i + sep.len()) == sep
}

proof fn lemma_split_without_separator(s: Seq<char>, sep: Seq<char>)
    requires
        sep.len() > 0,
        !occurs_in(s, sep),
    ensures
        split_seq(s, sep) == seq![s],
    decreases s.len(),
{
    if s.len() >= sep.len() {
        assert(s.take(sep.len() as int) == s.subrange(0, (0 as int) + sep.len()));
        assert(s.subrange(0, (0 as int) + sep.len()) != sep);
        let t = s.drop_first();
        assert forall|i: int| 0 <= i && i + sep.len() <= t.len() implies #[trigger] t.subrange(
            i,
            i + sep.len(),
        ) != sep by {
            assert(t.subrange(i, i + sep.len()) =~= s.subrange(i + 1, i + 1 + sep.len()));
        }
        lemma_split_without_separator(t, sep);
        assert(seq![s[0]] + t =~= s);
        assert(seq![t].update(0, seq![s[0]] + t) =~= seq![s]);
    }
}

/// A file without an empty line, the empty file among them, is only a
/// header and has no entries.
pub proof fn lemma_header_only(data: Seq<char>, rate: FrameRate, layout: Layout)
    requires
        !occurs_in(data, record_separator()),
    ensures
        parse_result(data, rate, layout) == Err::<Seq<EntryModel>, ErrorModel>(ErrorModel::NoEntries),
{
    lemma_split_without_separator(data, record_separator());
    assert(records_of(data).len() == 0);
}

/// Under any color filter, an entry without a color is left out: every entry
/// kept has a color.
pub proof fn lemma_uncolored_excluded(s: Seq<EntryModel>, cs: Seq<Seq<char>>)
    ensures
        forall|k: int|
            0 <= k < selected(s, Some(cs)).len() ==> (#[trigger] selected(s, Some(cs))[k]).color is Some,
{
    lemma_selected_allowed(s, Some(cs));
}

/// A record whose metadata line has no `C:` field after the first gives an
/// entry without a color, which any color filter then leaves out.
pub proof fn lemma_untagged_record_has_no_color(
    data: Seq<char>,
    rate: FrameRate,
    layout: Layout,
    k: int,
)
    requires
        0 <= k < records_of(data).len(),
        parse_result(data, rate, layout) is Ok,
        tag_value(meta_fields(record_lines(records_of(data)[k])[1]).drop_first(), seq!['C', ':'])
            is None,
    ensures
        (parse_result(data, rate, layout)->Ok_0)[k].color is None,
{
    let recs = records_of(data);
    lemma_entries_each(recs, rate, layout);
    assert(entry_result(recs[k], rate, layout) is Ok);
    reveal(entry_result);
}

/// Two decimal digits read back as themselves.
proof fn lemma_pad2_two_digits(d: Seq<char>)
    requires
        d.len() == 2,
        all_digits(d),
    ensures
        pad2(number_value(d)) == d,
{
    assert(is_digit(d[0]) && is_digit(d[1]));
    assert(d.drop_last().drop_last() =~= Seq::<char>::empty());
    let a = digit_value(d[0]);
    let b = digit_value(d[1]);
    let d1 = d.drop_last();
    assert(d1.last() == d[0]);
    assert(d1.drop_last() =~= Seq::<char>::empty());
    assert(number_value(d1) == number_value(d1.drop_last()) * 10 + a);
    assert(number_value(d1) == a);
    assert(number_value(d) == a * 10 + b);
    assert(a < 10 && b < 10);
    assert(digit_char(a) == d[0]);
    assert(digit_char(b) == d[1]);
    if a * 10 + b >= 10 {
        lemma_fundamental_div_mod_converse((a * 10 + b) as int, 10, a as int, b as int);
        assert(decimal(a) == seq![digit_char(a)]);
        assert(decimal(a * 10 + b) =~= d);
    } else {
        assert(seq!['0', digit_char(a * 10 + b)] =~= d);
    }
}

/// Digits without a leading zero read back as themselves.
proof fn lemma_decimal_of_digits(t: Seq<char>)
    requires
        all_digits(t),
        t[0] != '0',
    ensures
        decimal(number_value(t)) == t,
        number_value(t) >= pow10((t.len() - 1) as nat),
    decreases t.len(),
{
    assert(is_digit(t[0]));
    lemma_number_value_front(t);
    lemma_pow10_positive((t.len() - 1) as nat);
    let a = digit_value(t[0]);
    assert(a >= 1);
    assert(a * pow10((t.len() - 1) as nat) >= pow10((t.len() - 1) as nat)) by (nonlinear_arith)
        requires
            a >= 1,
    ;
    let n = number_value(t);
    let b = digit_value(t.last());
    assert(is_digit(t[t.len() - 1]));
    assert(b < 10);
    assert(digit_char(b) == t.last());
    if t.len() == 1 {
        assert(t.drop_last() =~= Seq::<char>::empty());
        assert(number_value(t.drop_last()) == 0);
        assert(n == number_value(t.drop_last()) * 10 + b);
        assert(n == b);
        assert(decimal(n) =~= t);
    } else {
        let u = t.drop_last();
        assert(u[0] == t[0]);
        assert(all_digits(u)) by {
            assert forall|i: int| 0 <= i < u.len() implies is_digit(#[trigger] u[i]) by {
                assert(u[i] == t[i]);
            }
        }
        lemma_decimal_of_digits(u);
        lemma_pow10_positive((u.len() - 1) as nat);
        let q = number_value(u);
        assert(n == q * 10 + b);
        assert(n >= 10);
        lemma_fundamental_div_mod_converse(n as int, 10, q as int, b as int);
        assert(decimal(n) == decimal(q).push(digit_char(b)));
        assert(u.push(t.last()) =~= t);
    }
}

/// Hours as a two-digit timecode component, or a longer one without a
/// leading zero, read back as themselves.
proof fn lemma_pad2_hours(h: Seq<char>)
    requires
        all_digits(h),
        h.len() == 2 || (h.len() > 2 && h[0] != '0'),
    ensures
        pad2(number_value(h)) == h,
{
    if h.len() == 2 {
        lemma_pad2_two_digits(h);
    } else {
        lemma_decimal_of_digits(h);
        assert(pow10((h.len() - 1) as nat) >= 10) by {
            assert(pow10((h.len() - 1) as nat) == 10 * pow10((h.len() - 2) as nat));
            lemma_pow10_positive((h.len() - 2) as nat);
        }
    }
}

/// A component of digits is the number they denote.
proof fn lemma_digit_component(d: Seq<char>)
    requires
        all_digits(d),
    ensures
        number_whole(d) == number_value(d),
        !negative(d),
{
    assert(is_digit(d[0]));
    assert(strip_sign(d) == d);
    assert forall|i: int| 0 <= i && i + 1 <= d.len() implies #[trigger] d.subrange(i, i + 1)
        != seq!['.'] by {
        assert(is_digit(d[i]));
        assert(d.subrange(i, i + 1)[0] == d[i]);
    }
    lemma_split_without_separator(d, seq!['.']);
    assert(number_pieces(d) == seq![d]);
}

/// A timecode `HH:MM:SS:FF`, as `{:02}` writes each count, with minutes and
/// seconds under sixty and less than a second of frames, reads back on the
/// clock as its own `HH:MM:SS`.
pub proof fn lemma_timecode_clock_round_trip(tc: Seq<char>, rate: FrameRate)
    requires
        rate.valid(),
        timecode_well_formed(tc, true),
        timecode_parts(tc).len() == 4,
        all_digits(timecode_parts(tc)[0]),
        timecode_parts(tc)[0].len() == 2 || (timecode_parts(tc)[0].len() > 2
            && timecode_parts(tc)[0][0] != '0'),
        timecode_parts(tc)[1].len() == 2 && all_digits(timecode_parts(tc)[1]),
        timecode_parts(tc)[2].len() == 2 && all_digits(timecode_parts(tc)[2]),
        number_value(timecode_parts(tc)[1]) < 60,
        number_value(timecode_parts(tc)[2]) < 60,
        !negative(frame_part(tc)),
        frame_magnitude(tc, rate) < 1_000_000,
    ensures
        clock_text(timecode_micros(tc, rate) as nat, true) == timecode_parts(tc)[0] + seq![':']
            + timecode_parts(tc)[1] + seq![':'] + timecode_parts(tc)[2],
{
    let p = timecode_parts(tc);
    lemma_digit_component(p[0]);
    lemma_digit_component(p[1]);
    lemma_digit_component(p[2]);
    lemma_pad2_hours(p[0]);
    lemma_pad2_two_digits(p[1]);
    lemma_pad2_two_digits(p[2]);
    lemma_clock_round_trip(
        frame_magnitude(tc, rate),
        number_value(p[2]),
        number_value(p[1]),
        number_value(p[0]),
        true,
    );
}

/// The clock shows whole seconds: less than a second more changes nothing.
pub proof fn lemma_clock_drops_sub_second(secs: nat, u: nat, with_hours: bool)
    requires
        u < 1_000_000,
    ensures
        clock_text(secs * 1_000_000 + u, with_hours) == clock_text(secs * 1_000_000, with_hours),
{
    lemma_fundamental_div_mod_converse((secs * 1_000_000 + u) as int, 1_000_000, secs as int, u as int);
    lemma_fundamental_div_mod_converse((secs * 1_000_000) as int, 1_000_000, secs as int, 0);
}

} // verus!
