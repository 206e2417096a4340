use vstd::prelude::*;
use vstd::string::StringExecFns;

use crate::entry::{Entry, EntryModel, text_view, views};

verus! {

/// The decimal digit that stands for `d`.
pub open spec fn digit_char(d: nat) -> char {
    if d == 0 {
        '0'
    } else if d == 1 {
        '1'
    } else if d == 2 {
        '2'
    } else if d == 3 {
        '3'
    } else if d == 4 {
        '4'
    } else if d == 5 {
        '5'
    } else if d == 6 {
        '6'
    } else if d == 7 {
        '7'
    } else if d == 8 {
        '8'
    } else {
        '9'
    }
}

/// `n` in decimal, without leading zeros.
pub open spec fn decimal(n: nat) -> Seq<char>
    decreases n,
{
    if n < 10 {
        seq![digit_char(n)]
    } else {
        decimal(n / 10).push(digit_char(n % 10))
    }
}

/// `n` in decimal, with a leading zero where it has a single digit.
pub open spec fn pad2(n: nat) -> Seq<char> {
    if n < 10 {
        seq!['0', digit_char(n)]
    } else {
        decimal(n)
    }
}

/// The clock reading `HH:MM:SS` of `micros` microseconds, whole seconds only;
/// the hours and their colon are left out when there are none and
/// `with_hours` does not ask for them.
pub open spec fn clock_text(micros: nat, with_hours: bool) -> Seq<char> {
    let st = micros / 1_000_000;
    let hours = st / 3600;
    let head = if hours > 0 || with_hours {
        pad2(hours) + seq![':']
    } else {
        seq![]
    };
    head + pad2((st % 3600) / 60) + seq![':'] + pad2(st % 60)
}

fn digit_str(d: u64) -> (r: &'static str)
    requires
        d < 10,
    ensures
        r@ == seq![digit_char(d as nat)],
{
    proof {
        reveal_strlit("0");
        reveal_strlit("1");
        reveal_strlit("2");
        reveal_strlit("3");
        reveal_strlit("4");
        reveal_strlit("5");
        reveal_strlit("6");
        reveal_strlit("7");
        reveal_strlit("8");
        reveal_strlit("9");
    }
    if d == 0 {
        "0"
    } else if d == 1 {
        "1"
    } else if d == 2 {
        "2"
    } else if d == 3 {
        "3"
    } else if d == 4 {
        "4"
    } else if d == 5 {
        "5"
    } else if d == 6 {
        "6"
    } else if d == 7 {
        "7"
    } else if d == 8 {
        "8"
    } else {
        "9"
    }
}

fn push_decimal(out: &mut String, n: u64)
    ensures
        final(out)@ == old(out)@ + decimal(n as nat),
    decreases n,
{
    if n >= 10 {
        push_decimal(out, n / 10);
    }
    out.append(digit_str(n % 10));
    assert(final(out)@ =~= old(out)@ + decimal(n as nat));
}

fn push_pad2(out: &mut String, n: u64)
    ensures
        final(out)@ == old(out)@ + pad2(n as nat),
{
    if n < 10 {
        proof {
            reveal_strlit("0");
        }
        out.append("0");
    }
    push_decimal(out, n);
    assert(final(out)@ =~= old(out)@ + pad2(n as nat));
}

/// The clock reading of a non-negative time of `d` microseconds, whole seconds
/// only, as `HH:MM:SS`, or `MM:SS` when there are no hours and `with_hours` is
/// false.
pub fn to_timestamp(d: i64, with_hours: bool) -> (r: String)
    requires
        d >= 0,
    ensures
        r@ == clock_text(d as nat, with_hours),
{
    let st = (d / 1_000_000) as u64;
    let secs = st % 60;
    let mins = (st % 3600) / 60;
    let hours = st / 3600;
    let mut res = String::new();
    proof {
        reveal_strlit(":");
    }
    if hours > 0 || with_hours {
        push_pad2(&mut res, hours);
        res.append(":");
    }
    push_pad2(&mut res, mins);
    res.append(":");
    push_pad2(&mut res, secs);
    assert(res@ =~= clock_text(d as nat, with_hours));
    res
}

pub open spec fn colors_view(colors: Option<Vec<String>>) -> Option<Seq<Seq<char>>> {
    match colors {
        Some(v) => Some(v@.map_values(|c: String| c@)),
        None => None,
    }
}

/// An entry of color `color` passes the filter `colors`: there is no filter,
/// or the entry has a color and the filter lists it.
pub open spec fn color_allowed(color: Option<Seq<char>>, colors: Option<Seq<Seq<char>>>) -> bool {
    match colors {
        None => true,
        Some(cs) => match color {
            Some(c) => cs.contains(c),
            None => false,
        },
    }
}

/// Where an entry with index `key` goes in `s`: before the first entry with
/// a larger index.
pub open spec fn insert_pos(s: Seq<EntryModel>, key: nat) -> nat
    decreases s.len(),
{
    if s.len() == 0 {
        0
    } else if s[0].index > key {
        0
    } else {
        1 + insert_pos(s.drop_first(), key)
    }
}

/// The entries of `s` that pass the filter `colors`, in ascending order of
/// index; entries with equal indices keep their order.
pub open spec fn selected(s: Seq<EntryModel>, colors: Option<Seq<Seq<char>>>) -> Seq<EntryModel>
    decreases s.len(),
{
    if s.len() == 0 {
        seq![]
    } else {
        let r = selected(s.drop_last(), colors);
        if color_allowed(s.last().color, colors) {
            r.insert(insert_pos(r, s.last().index) as int, s.last())
        } else {
            r
        }
    }
}

pub open spec fn sorted_by_index(s: Seq<EntryModel>) -> bool {
    forall|i: int, j: int| 0 <= i < j < s.len() ==> s[i].index <= s[j].index
}

pub proof fn lemma_insert_pos_bound(s: Seq<EntryModel>, key: nat)
    ensures
        insert_pos(s, key) <= s.len(),
    decreases s.len(),
{
    if s.len() > 0 {
        lemma_insert_pos_bound(s.drop_first(), key);
    }
}

/// Every entry that a selection keeps passes its filter.
pub proof fn lemma_selected_allowed(s: Seq<EntryModel>, colors: Option<Seq<Seq<char>>>)
    ensures
        forall|k: int|
            0 <= k < selected(s, colors).len() ==> color_allowed(
                #[trigger] selected(s, colors)[k].color,
                colors,
            ),
    decreases s.len(),
{
    if s.len() > 0 {
        let r = selected(s.drop_last(), colors);
        lemma_selected_allowed(s.drop_last(), colors);
        if color_allowed(s.last().color, colors) {
            let p = insert_pos(r, s.last().index) as int;
            lemma_insert_pos_bound(r, s.last().index);
            r.insert_ensures(p, s.last());
            assert forall|k: int| 0 <= k < r.len() + 1 implies color_allowed(
                #[trigger] r.insert(p, s.last())[k].color,
                colors,
            ) by {
                if k > p {
                    assert(color_allowed(r[k - 1].color, colors));
                } else if k < p {
                    assert(color_allowed(r[k].color, colors));
                }
            }
        }
    }
}

/// Whether an entry of color `color` passes the filter `colors`.
fn color_passes(color: &Option<String>, colors: &Option<Vec<String>>) -> (r: bool)
    ensures
        r == color_allowed(text_view(*color), colors_view(*colors)),
{
    match colors {
        None => true,
        Some(cs) => match color {
            None => false,
            Some(c) => {
                let ghost view = cs@.map_values(|x: String| x@);
                let mut k: usize = 0;
                while k < cs.len()
                    invariant
                        k <= cs.len(),
                        view == cs@.map_values(|x: String| x@),
                        colors_view(*colors) == Some(view),
                        text_view(*color) == Some(c@),
                        forall|m: int| 0 <= m < k ==> view[m] != c@,
                    decreases cs.len() - k,
                {
                    if cs[k] == *c {
                        assert(view[k as int] == c@);
                        assert(view.contains(c@));
                        return true;
                    }
                    k = k + 1;
                }
                false
            },
        },
    }
}

/// The entries that pass the filter `colors`, in ascending order of index;
/// entries with equal indices keep their order.
pub fn select_entries(entries: Vec<Entry>, colors: &Option<Vec<String>>) -> (r: Vec<Entry>)
    ensures
        r@.map_values(|e: Entry| e@) == selected(
            entries@.map_values(|e: Entry| e@),
            colors_view(*colors),
        ),
        sorted_by_index(r@.map_values(|e: Entry| e@)),
{
    let ghost input = entries@.map_values(|e: Entry| e@);
    let ghost cv = colors_view(*colors);
    let mut rest = entries;
    let mut out: Vec<Entry> = Vec::new();
    let ghost mut i: int = 0;
    proof {
        assert(input.skip(0) =~= input);
        assert(input.take(0) =~= Seq::<EntryModel>::empty());
        assert(out@.map_values(|e: Entry| e@) =~= Seq::<EntryModel>::empty());
    }
    while rest.len() > 0
        invariant
            0 <= i <= input.len(),
            cv == colors_view(*colors),
            rest@.map_values(|e: Entry| e@) == input.skip(i),
            out@.map_values(|e: Entry| e@) == selected(input.take(i), cv),
            sorted_by_index(out@.map_values(|e: Entry| e@)),
        decreases rest.len(),
    {
        let ghost before = rest@;
        assert(input.skip(i).len() == rest.len());
        let e = rest.remove(0);
        let ghost ov = out@.map_values(|e: Entry| e@);
        proof {
            assert(before.map_values(|e: Entry| e@)[0] == e@);
            assert(input.take(i + 1).drop_last() =~= input.take(i));
            assert(input.take(i + 1).last() == e@);
            assert(rest@ =~= before.subrange(1, before.len() as int));
            assert forall|k: int| 0 <= k < rest.len() implies #[trigger] views(rest@)[k]
                == input.skip(i + 1)[k] by {
                assert(before.map_values(|e: Entry| e@)[k + 1] == input.skip(i)[k + 1]);
            }
            assert(views(rest@) =~= input.skip(i + 1));
        }
        if color_passes(&e.color, colors) {
            let key = e.index;
            let mut j: usize = 0;
            proof {
                assert(ov.skip(0) =~= ov);
            }
            while j < out.len() && out[j].index <= key
                invariant
                    j <= out.len(),
                    ov == out@.map_values(|e: Entry| e@),
                    forall|k: int| 0 <= k < j ==> ov[k].index <= key,
                    insert_pos(ov, key as nat) == j + insert_pos(ov.skip(j as int), key as nat),
                decreases out.len() - j,
            {
                proof {
                    assert(ov.skip(j as int).drop_first() =~= ov.skip(j + 1));
                }
                j = j + 1;
            }
            let ghost ev = e@;
            proof {
                if j == out.len() {
                    assert(ov.skip(j as int) =~= Seq::<EntryModel>::empty());
                }
                ov.insert_ensures(j as int, ev);
            }
            out.insert(j, e);
            proof {
                assert(out@.map_values(|e: Entry| e@) =~= ov.insert(j as int, ev));
                let nv = ov.insert(j as int, ev);
                assert forall|a: int, b: int| 0 <= a < b < nv.len() implies nv[a].index
                    <= nv[b].index by {
                    if a < j && b > j {
                        assert(ov[a].index <= ov[b - 1].index);
                    }
                    if a == j as int && b > j {
                        assert(ov[j as int].index <= ov[b - 1].index);
                    }
                }
            }
        }
        proof {
            i = i + 1;
        }
    }
    proof {
        assert(input.take(i) =~= input);
    }
    out
}

/// Some entry of `s` starts an hour or more into the timeline.
pub open spec fn reaches_an_hour(s: Seq<EntryModel>) -> bool {
    exists|i: int| 0 <= i < s.len() && #[trigger] s[i].timestamp >= 3_600_000_000
}

/// The name of a chapter line: the entry's name, or `-` where it has none.
pub open spec fn shown_name(name: Option<Seq<char>>) -> Seq<char> {
    match name {
        Some(n) => n,
        None => seq!['-'],
    }
}

/// The chapter line of one entry.
pub open spec fn chapter_line(e: EntryModel, with_hours: bool) -> Seq<char> {
    clock_text(e.timestamp as nat, with_hours) + seq![' '] + shown_name(e.name)
}

/// One line per entry: where it starts, as a clock reading, and its name.
/// Hours are shown on every line when some entry reaches an hour.
pub fn chapter_lines(entries: &Vec<Entry>) -> (r: Vec<String>)
    requires
        forall|i: int| 0 <= i < entries.len() ==> #[trigger] entries@[i].timestamp >= 0,
    ensures
        r.len() == entries.len(),
        forall|i: int|
            0 <= i < r.len() ==> #[trigger] r@[i]@ == chapter_line(
                entries@[i]@,
                reaches_an_hour(entries@.map_values(|e: Entry| e@)),
            ),
{
    let ghost ev = entries@.map_values(|e: Entry| e@);
    let mut with_hours = false;
    let mut i: usize = 0;
    while i < entries.len()
        invariant
            i <= entries.len(),
            ev == entries@.map_values(|e: Entry| e@),
            with_hours <==> exists|k: int| 0 <= k < i && #[trigger] ev[k].timestamp >= 3_600_000_000,
        decreases entries.len() - i,
    {
        if entries[i].timestamp >= 3_600_000_000 {
            assert(ev[i as int].timestamp >= 3_600_000_000);
            with_hours = true;
        }
        i = i + 1;
    }
    let mut out: Vec<String> = Vec::new();
    let mut i: usize = 0;
    while i < entries.len()
        invariant
            i <= entries.len(),
            out.len() == i,
            ev == entries@.map_values(|e: Entry| e@),
            with_hours == reaches_an_hour(ev),
            forall|k: int| 0 <= k < entries.len() ==> #[trigger] entries@[k].timestamp >= 0,
            forall|k: int| 0 <= k < i ==> #[trigger] out@[k]@ == chapter_line(entries@[k]@, with_hours),
        decreases entries.len() - i,
    {
        proof {
            reveal_strlit(" ");
            reveal_strlit("-");
        }
        let e = &entries[i];
        let mut line = to_timestamp(e.timestamp, with_hours);
        line.append(" ");
        match &e.name {
            Some(n) => line.append(n.as_str()),
            None => line.append("-"),
        }
        assert(line@ =~= chapter_line(entries@[i as int]@, with_hours));
        out.push(line);
        i = i + 1;
    }
    out
}

} // verus!
