use vstd::prelude::*;

verus! {

/// The characters of `s`, in order, as a vector.
pub fn chars_of(s: &str) -> (r: Vec<char>)
    ensures
        r@ == s@,
{
    let mut out: Vec<char> = Vec::new();
    for c in it: s.chars()
        invariant
            out@ == it.seq().take(it.index() as int),
    {
        out.push(c);
    }
    proof {
        broadcast use vstd::string::group_string_axioms;
    }
    out
}

/// Splits `s` at every occurrence of `sep`, scanning from the left, the way
/// `str::split` does with a string pattern. The result is never empty.
pub open spec fn split_seq(s: Seq<char>, sep: Seq<char>) -> Seq<Seq<char>>
    decreases s.len(),
{
    if sep.len() == 0 || s.len() < sep.len() {
        seq![s]
    } else if s.take(sep.len() as int) == sep {
        seq![Seq::<char>::empty()] + split_seq(s.skip(sep.len() as int), sep)
    } else {
        let r = split_seq(s.drop_first(), sep);
        r.update(0, seq![s[0]] + r[0])
    }
}

pub proof fn lemma_split_nonempty(s: Seq<char>, sep: Seq<char>)
    ensures
        split_seq(s, sep).len() >= 1,
    decreases s.len(),
{
    if sep.len() == 0 || s.len() < sep.len() {
    } else if s.take(sep.len() as int) == sep {
        lemma_split_nonempty(s.skip(sep.len() as int), sep);
    } else {
        lemma_split_nonempty(s.drop_first(), sep);
    }
}

/// The pieces of `s` that a list of index ranges picks out.
pub open spec fn pieces(s: Seq<char>, r: Seq<(usize, usize)>) -> Seq<Seq<char>> {
    r.map_values(|p: (usize, usize)| s.subrange(p.0 as int, p.1 as int))
}

/// Each range of `r` lies within `lo..hi`.
pub open spec fn ranges_within(r: Seq<(usize, usize)>, lo: int, hi: int) -> bool {
    forall|i: int| 0 <= i < r.len() ==> lo <= #[trigger] r[i].0 <= r[i].1 <= hi
}

/// Whether `sep` occurs in `s` at position `i`.
fn occurs_at(s: &Vec<char>, i: usize, hi: usize, sep: &Vec<char>) -> (r: bool)
    requires
        i <= hi <= s.len(),
        i + sep.len() <= hi,
    ensures
        r == (s@.subrange(i as int, i + sep.len()) == sep@),
{
    let mut j: usize = 0;
    while j < sep.len()
        invariant
            j <= sep.len(),
            i + sep.len() <= hi <= s.len(),
            forall|k: int| 0 <= k < j ==> s@[i + k] == sep@[k],
        decreases sep.len() - j,
    {
        if s[i + j] != sep[j] {
            assert(s@.subrange(i as int, i + sep.len())[j as int] != sep@[j as int]);
            return false;
        }
        j = j + 1;
    }
    assert(s@.subrange(i as int, i + sep.len()) =~= sep@);
    true
}

/// The ranges of the pieces of `s[lo..hi]` split at `sep`.
pub fn split_ranges(s: &Vec<char>, lo: usize, hi: usize, sep: &Vec<char>) -> (r: Vec<(usize, usize)>)
    requires
        lo <= hi <= s.len(),
        sep.len() > 0,
    ensures
        pieces(s@, r@) == split_seq(s@.subrange(lo as int, hi as int), sep@),
        ranges_within(r@, lo as int, hi as int),
{
    let ghost whole = split_seq(s@.subrange(lo as int, hi as int), sep@);
    let k = sep.len();
    let mut out: Vec<(usize, usize)> = Vec::new();
    let mut start = lo;
    let mut i = lo;
    proof {
        assert(s@.subrange(lo as int, lo as int) =~= Seq::<char>::empty());
        lemma_split_nonempty(s@.subrange(lo as int, hi as int), sep@);
        let t = split_seq(s@.subrange(lo as int, hi as int), sep@);
        assert(seq![Seq::<char>::empty() + t[0]] + t.drop_first() =~= t);
        assert(pieces(s@, out@) =~= Seq::<Seq<char>>::empty());
    }
    while k <= hi - i
        invariant
            lo <= start <= i <= hi <= s.len(),
            k == sep.len() > 0,
            ranges_within(out@, lo as int, hi as int),
            split_seq(s@.subrange(i as int, hi as int), sep@).len() >= 1,
            whole == pieces(s@, out@) + seq![
                s@.subrange(start as int, i as int) + split_seq(s@.subrange(i as int, hi as int), sep@)[0]
            ] + split_seq(s@.subrange(i as int, hi as int), sep@).drop_first(),
        decreases hi - i,
    {
        let ghost t = s@.subrange(i as int, hi as int);
        let ghost cur = s@.subrange(start as int, i as int);
        proof {
            assert(t.take(k as int) =~= s@.subrange(i as int, i + k));
            assert(t.skip(k as int) =~= s@.subrange(i + k, hi as int));
            assert(t.drop_first() =~= s@.subrange(i + 1, hi as int));
        }
        if occurs_at(s, i, hi, sep) {
            let ghost rest = split_seq(s@.subrange(i + k, hi as int), sep@);
            proof {
                lemma_split_nonempty(s@.subrange(i + k, hi as int), sep@);
                assert(split_seq(t, sep@) == seq![Seq::<char>::empty()] + rest);
                assert(cur + Seq::<char>::empty() =~= cur);
                assert(s@.subrange(i + k, i + k) =~= Seq::<char>::empty());
                assert(seq![Seq::<char>::empty() + rest[0]] + rest.drop_first() =~= rest);
            }
            let ghost old_out = out@;
            out.push((start, i));
            proof {
                assert(pieces(s@, out@) =~= pieces(s@, old_out) + seq![cur]);
                assert(whole =~= pieces(s@, out@) + seq![
                    s@.subrange(i + k, i + k) + rest[0]
                ] + rest.drop_first());
            }
            i = i + k;
            start = i;
        } else {
            let ghost rest = split_seq(s@.subrange(i + 1, hi as int), sep@);
            proof {
                lemma_split_nonempty(s@.subrange(i + 1, hi as int), sep@);
                assert(split_seq(t, sep@) == rest.update(0, seq![t[0]] + rest[0]));
                assert(cur + (seq![t[0]] + rest[0]) =~= s@.subrange(start as int, i + 1) + rest[0]);
                assert(rest.update(0, seq![t[0]] + rest[0]).drop_first() =~= rest.drop_first());
            }
            i = i + 1;
        }
    }
    proof {
        let t = s@.subrange(i as int, hi as int);
        assert(split_seq(t, sep@) == seq![t]);
        assert(s@.subrange(start as int, i as int) + t =~= s@.subrange(start as int, hi as int));
    }
    let ghost old_out = out@;
    out.push((start, hi));
    proof {
        assert(pieces(s@, out@) =~= pieces(s@, old_out) + seq![s@.subrange(start as int, hi as int)]);
        assert(whole =~= pieces(s@, out@));
    }
    out
}

/// The white-space characters that separate fields: Unicode's White_Space
/// property, which `char::is_whitespace` tests.
pub open spec fn is_space(c: char) -> bool {
    ('\u{9}' <= c <= '\u{d}') || c == ' ' || c == '\u{85}' || c == '\u{a0}' || c == '\u{1680}'
        || ('\u{2000}' <= c <= '\u{200a}') || c == '\u{2028}' || c == '\u{2029}' || c
        == '\u{202f}' || c == '\u{205f}' || c == '\u{3000}'
}

fn is_space_char(c: char) -> (r: bool)
    ensures
        r == is_space(c),
{
    ('\u{9}' <= c && c <= '\u{d}') || c == ' ' || c == '\u{85}' || c == '\u{a0}' || c
        == '\u{1680}' || ('\u{2000}' <= c && c <= '\u{200a}') || c == '\u{2028}' || c
        == '\u{2029}' || c == '\u{202f}' || c == '\u{205f}' || c == '\u{3000}'
}

/// The maximal runs of non-space characters of `s`, in order, as
/// `str::split_whitespace` yields them.
pub open spec fn tokens(s: Seq<char>) -> Seq<Seq<char>>
    decreases s.len(),
{
    if s.len() == 0 {
        seq![]
    } else if is_space(s.last()) {
        tokens(s.drop_last())
    } else if s.len() >= 2 && !is_space(s[s.len() - 2]) {
        let r = tokens(s.drop_last());
        r.update(r.len() - 1, r.last().push(s.last()))
    } else {
        tokens(s.drop_last()).push(seq![s.last()])
    }
}

/// The ranges of the white-space separated tokens of `s[lo..hi]`.
pub fn token_ranges(s: &Vec<char>, lo: usize, hi: usize) -> (r: Vec<(usize, usize)>)
    requires
        lo <= hi <= s.len(),
    ensures
        pieces(s@, r@) == tokens(s@.subrange(lo as int, hi as int)),
        ranges_within(r@, lo as int, hi as int),
{
    let mut out: Vec<(usize, usize)> = Vec::new();
    let mut i = lo;
    proof {
        assert(s@.subrange(lo as int, lo as int) =~= Seq::<char>::empty());
        assert(pieces(s@, out@) =~= Seq::<Seq<char>>::empty());
    }
    while i < hi
        invariant
            lo <= i <= hi <= s.len(),
            ranges_within(out@, lo as int, i as int),
            pieces(s@, out@) == tokens(s@.subrange(lo as int, i as int)),
            i > lo && !is_space(s@[i - 1]) ==> out.len() > 0 && out@.last().1 == i,
        decreases hi - i,
    {
        let ghost pre = s@.subrange(lo as int, i as int);
        let ghost cur = s@.subrange(lo as int, i + 1);
        proof {
            assert(cur.drop_last() =~= pre);
            assert(cur.last() == s@[i as int]);
            if i > lo {
                assert(cur[cur.len() - 2] == s@[i - 1]);
            }
        }
        let c = s[i];
        if is_space_char(c) {
        } else if i > lo && !is_space_char(s[i - 1]) {
            let last = out.len() - 1;
            let (a, _b) = out[last];
            let ghost old_out = out@;
            out.set(last, (a, i + 1));
            proof {
                assert(ranges_within(out@, lo as int, i + 1));
                assert(s@.subrange(a as int, i + 1) =~= s@.subrange(a as int, i as int).push(c));
                assert(pieces(s@, out@) =~= pieces(s@, old_out).update(
                    last as int,
                    s@.subrange(a as int, i as int).push(c),
                ));
            }
        } else {
            let ghost old_out = out@;
            out.push((i, i + 1));
            proof {
                assert(ranges_within(out@, lo as int, i + 1));
                assert(s@.subrange(i as int, i + 1) =~= seq![c]);
                assert(pieces(s@, out@) =~= pieces(s@, old_out).push(seq![c]));
            }
        }
        i = i + 1;
    }
    out
}

/// `s` without its leading white space.
pub open spec fn trim_start(s: Seq<char>) -> Seq<char>
    decreases s.len(),
{
    if s.len() > 0 && is_space(s[0]) {
        trim_start(s.drop_first())
    } else {
        s
    }
}

/// `s` without its trailing white space.
pub open spec fn trim_end(s: Seq<char>) -> Seq<char>
    decreases s.len(),
{
    if s.len() > 0 && is_space(s.last()) {
        trim_end(s.drop_last())
    } else {
        s
    }
}

/// `s` without its leading and trailing white space.
pub open spec fn trim(s: Seq<char>) -> Seq<char> {
    trim_end(trim_start(s))
}

/// The range of `s[lo..hi]` with its leading and trailing white space left out.
pub fn trim_range(s: &Vec<char>, lo: usize, hi: usize) -> (r: (usize, usize))
    requires
        lo <= hi <= s.len(),
    ensures
        lo <= r.0 <= r.1 <= hi,
        s@.subrange(r.0 as int, r.1 as int) == trim(s@.subrange(lo as int, hi as int)),
{
    let mut a = lo;
    while a < hi && is_space_char(s[a])
        invariant
            lo <= a <= hi <= s.len(),
            trim_start(s@.subrange(lo as int, hi as int)) == trim_start(s@.subrange(a as int, hi as int)),
        decreases hi - a,
    {
        assert(s@.subrange(a as int, hi as int).drop_first() =~= s@.subrange(a + 1, hi as int));
        a = a + 1;
    }
    let mut b = hi;
    while b > a && is_space_char(s[b - 1])
        invariant
            lo <= a <= b <= hi <= s.len(),
            trim_end(s@.subrange(a as int, hi as int)) == trim_end(s@.subrange(a as int, b as int)),
        decreases b - a,
    {
        assert(s@.subrange(a as int, b as int).drop_last() =~= s@.subrange(a as int, b - 1));
        b = b - 1;
    }
    (a, b)
}

/// Whether `c` is an ASCII decimal digit.
pub open spec fn is_digit(c: char) -> bool {
    '0' <= c <= '9'
}

/// `s` is a possibly empty string of decimal digits.
pub open spec fn opt_digits(s: Seq<char>) -> bool {
    s.len() == 0 || all_digits(s)
}

/// `s` without one leading `+`.
pub open spec fn strip_plus(s: Seq<char>) -> Seq<char> {
    if s.len() > 0 && s[0] == '+' {
        s.drop_first()
    } else {
        s
    }
}

/// `s` without one leading `+` or `-`.
pub open spec fn strip_sign(s: Seq<char>) -> Seq<char> {
    if s.len() > 0 && (s[0] == '+' || s[0] == '-') {
        s.drop_first()
    } else {
        s
    }
}

/// `s` is a non-empty string of decimal digits.
pub open spec fn all_digits(s: Seq<char>) -> bool {
    s.len() > 0 && forall|i: int| 0 <= i < s.len() ==> is_digit(#[trigger] s[i])
}

pub open spec fn digit_value(c: char) -> nat {
    (c as u32 - '0' as u32) as nat
}

/// The number that the decimal digits `s` denote.
pub open spec fn number_value(s: Seq<char>) -> nat
    decreases s.len(),
{
    if s.len() == 0 {
        0
    } else {
        number_value(s.drop_last()) * 10 + digit_value(s.last())
    }
}

/// A bound beyond which a number is too large for any field of a record.
pub const NUMBER_CAP: u128 = 50_000_000_000_000_000_000_000;

/// `n`, or `NUMBER_CAP` where `n` is larger.
pub open spec fn capped(n: nat) -> nat {
    if n < NUMBER_CAP { n } else { NUMBER_CAP as nat }
}

/// Reads `s[lo..hi]` as a decimal number: `None` unless it is a non-empty run of
/// digits, else its value, capped at `NUMBER_CAP`.
pub fn read_number(s: &Vec<char>, lo: usize, hi: usize) -> (r: Option<u128>)
    requires
        lo <= hi <= s.len(),
    ensures
        r is Some <==> all_digits(s@.subrange(lo as int, hi as int)),
        r matches Some(v) ==> v as nat == capped(number_value(s@.subrange(lo as int, hi as int))),
{
    if lo == hi {
        return None;
    }
    let mut acc: u128 = 0;
    let mut i = lo;
    proof {
        assert(s@.subrange(lo as int, lo as int) =~= Seq::<char>::empty());
    }
    while i < hi
        invariant
            lo <= i <= hi <= s.len(),
            forall|j: int| lo <= j < i ==> is_digit(#[trigger] s@[j]),
            acc as nat == capped(number_value(s@.subrange(lo as int, i as int))),
        decreases hi - i,
    {
        let c = s[i];
        if !('0' <= c && c <= '9') {
            assert(!is_digit(s@.subrange(lo as int, hi as int)[i - lo]));
            return None;
        }
        let d = (c as u32 - '0' as u32) as u128;
        let ghost pre = s@.subrange(lo as int, i as int);
        proof {
            assert(s@.subrange(lo as int, i + 1).drop_last() =~= pre);
        }
        if acc < NUMBER_CAP {
            let next = acc * 10 + d;
            acc = if next < NUMBER_CAP { next } else { NUMBER_CAP };
        }
        i = i + 1;
    }
    assert(forall|j: int| 0 <= j < hi - lo ==> #[trigger] s@.subrange(lo as int, hi as int)[j] == s@[lo + j]);
    Some(acc)
}

/// `10` to the power `n`.
pub open spec fn pow10(n: nat) -> nat
    decreases n,
{
    if n == 0 {
        1
    } else {
        10 * pow10((n - 1) as nat)
    }
}

/// The number that the decimal digits `s` denote, read from the left.
pub proof fn lemma_number_value_front(s: Seq<char>)
    requires
        s.len() >= 1,
    ensures
        number_value(s) == digit_value(s[0]) * pow10((s.len() - 1) as nat) + number_value(
            s.drop_first(),
        ),
    decreases s.len(),
{
    if s.len() == 1 {
        assert(s.drop_last() =~= Seq::<char>::empty());
        assert(s.drop_first() =~= Seq::<char>::empty());
        assert(s.last() == s[0]);
        assert(pow10(0) == 1);
        assert(number_value(s) == number_value(s.drop_last()) * 10 + digit_value(s.last()));
    } else {
        let t = s.drop_last();
        lemma_number_value_front(t);
        assert(t[0] == s[0]);
        assert(number_value(s) == number_value(t) * 10 + digit_value(s.last()));
        assert(number_value(s.drop_first()) == number_value(s.drop_first().drop_last()) * 10
            + digit_value(s.drop_first().last()));
        assert(t.drop_first() =~= s.drop_first().drop_last());
        assert(s.drop_first().last() == s.last());
        let a = digit_value(s[0]);
        let p = pow10((s.len() - 2) as nat);
        assert(pow10((s.len() - 1) as nat) == 10 * p);
        let r = number_value(t.drop_first());
        assert((a * p + r) * 10 + digit_value(s.last()) == a * (10 * p) + (r * 10 + digit_value(
            s.last(),
        ))) by (nonlinear_arith);
    }
}

/// `0.s` times `m`, rounded down, computed from the last digit of `s` to the
/// first so that no value exceeds `m` by much.
pub open spec fn scaled_fraction(s: Seq<char>, m: nat) -> nat
    decreases s.len(),
{
    if s.len() == 0 {
        0
    } else {
        (digit_value(s[0]) * m + scaled_fraction(s.drop_first(), m)) / 10
    }
}

/// The scaled fraction is `number_value(s) * m / 10^|s|`, rounded down.
pub proof fn lemma_scaled_fraction(s: Seq<char>, m: nat)
    ensures
        scaled_fraction(s, m) == (number_value(s) * m) / pow10(s.len()),
    decreases s.len(),
{
    if s.len() > 0 {
        let rest = s.drop_first();
        lemma_scaled_fraction(rest, m);
        lemma_number_value_front(s);
        let d = digit_value(s[0]);
        let p = pow10(rest.len());
        assert(p > 0) by {
            lemma_pow10_positive(rest.len());
        }
        let r = number_value(rest);
        assert(scaled_fraction(s, m) == (d * m + scaled_fraction(rest, m)) / 10);
        assert(number_value(s) == d * p + r);
        vstd::arithmetic::div_mod::lemma_hoist_over_denominator((r * m) as int, (d * m) as int, p);
        vstd::arithmetic::div_mod::lemma_div_denominator((r * m + (d * m) * p) as int, p as int, 10);
        assert(r * m + (d * m) * p == (d * p + r) * m) by (nonlinear_arith);
        assert(pow10(s.len()) == 10 * pow10(rest.len()));
        assert(p * 10 == 10 * p);
        let y = (r * m + (d * m) * p) as int;
        assert((r * m) / p + d * m == y / (p as int));
        assert((d * m + (r * m) / p) / 10 == (y / (p as int)) / 10);
        assert((y / (p as int)) / 10 == y / ((p as int) * 10));
        assert(y == (number_value(s) * m) as int);
        assert(scaled_fraction(rest, m) == (r * m) / p);
        assert((pow10(s.len()) as int) == (p as int) * 10);
        assert(scaled_fraction(s, m) as int == y / ((p as int) * 10));
        assert(((number_value(s) * m) / pow10(s.len())) as int == y / ((p as int) * 10));
    } else {
        assert(number_value(s) == 0);
        assert(pow10(0) == 1);
        assert(0 * m == 0);
    }
}

pub proof fn lemma_pow10_positive(n: nat)
    ensures
        pow10(n) > 0,
    decreases n,
{
    if n > 0 {
        lemma_pow10_positive((n - 1) as nat);
    }
}

/// `0.d` times `m`, rounded down, where `s[lo..hi]` are the digits `d`.
pub fn read_scaled_fraction(s: &Vec<char>, lo: usize, hi: usize, m: u128) -> (r: u128)
    requires
        lo <= hi <= s.len(),
        opt_digits(s@.subrange(lo as int, hi as int)),
        m <= u64::MAX,
    ensures
        r == scaled_fraction(s@.subrange(lo as int, hi as int), m as nat),
        r <= m,
{
    let ghost sub = s@.subrange(lo as int, hi as int);
    let mut z: u128 = 0;
    let mut j = hi;
    proof {
        assert(s@.subrange(hi as int, hi as int) =~= Seq::<char>::empty());
    }
    while j > lo
        invariant
            lo <= j <= hi <= s.len(),
            sub == s@.subrange(lo as int, hi as int),
            opt_digits(sub),
            m <= u64::MAX,
            z == scaled_fraction(s@.subrange(j as int, hi as int), m as nat),
            z <= m,
        decreases j - lo,
    {
        let c = s[j - 1];
        assert(is_digit(sub[j - 1 - lo]));
        assert(sub[j - 1 - lo] == c);
        let ghost t = s@.subrange(j - 1, hi as int);
        assert(t.drop_first() =~= s@.subrange(j as int, hi as int));
        assert(t[0] == c);
        let d = (c as u32 - '0' as u32) as u128;
        assert(d <= 9);
        assert(d * m <= 9 * m) by (nonlinear_arith)
            requires
                d <= 9,
        ;
        z = (d * m + z) / 10;
        j = j - 1;
    }
    z
}

} // verus!
