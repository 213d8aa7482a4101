//! Text for the report's readers: memory sizes, command names, process
//! groups, CSV fields and filter descriptions.

use crate::filter::saturate;
use crate::text::{append, append_char, append_decimal, chars_of, decimal, digit, digit_char, is_space, space, string_of};
use crate::types::{FilterConfig, ProcessStats};
use vstd::prelude::*;

verus! {

/// `kib / unit` in tenths, rounded to the nearest tenth, ties to even.
pub open spec fn tenths(kib: nat, unit: nat) -> nat
    recommends
        unit > 0,
{
    let q = (kib * 10) / unit;
    let rem = (kib * 10) % unit;
    if 2 * rem > unit || (2 * rem == unit && q % 2 == 1) {
        q + 1
    } else {
        q
    }
}

/// A count of tenths written with one decimal place.
pub open spec fn one_decimal(t: nat) -> Seq<char> {
    decimal(t / 10) + seq!['.', digit_char(t % 10)]
}

/// A size in KiB as text: whole KiB below one MiB, else MiB or GiB to one
/// decimal place.
pub open spec fn memory_text(kib: nat) -> Seq<char> {
    if kib >= 1048576 {
        one_decimal(tenths(kib, 1048576)) + seq![' ', 'G', 'i', 'B']
    } else if kib >= 1024 {
        one_decimal(tenths(kib, 1024)) + seq![' ', 'M', 'i', 'B']
    } else {
        decimal(kib) + seq![' ', 'K', 'i', 'B']
    }
}

fn append_tenths(s: &mut String, kib: u64, unit: u64)
    requires
        unit >= 1024,
    ensures
        final(s)@ == old(s)@ + one_decimal(tenths(kib as nat, unit as nat)),
{
    let p: u128 = kib as u128 * 10;
    let q: u128 = p / (unit as u128);
    let rem: u128 = p % (unit as u128);
    assert(q <= p) by (nonlinear_arith)
        requires
            q == p / (unit as u128),
            unit >= 1024,
    ;
    let t: u128 = if 2 * rem > unit as u128 || (2 * rem == unit as u128 && q % 2 == 1) {
        q + 1
    } else {
        q
    };
    assert(t / 10 <= kib);
    append_decimal(s, (t / 10) as u64);
    append_char(s, '.');
    append_char(s, digit((t % 10) as u64));
    proof {
        assert(s@ == old(s)@ + one_decimal(t as nat));
    }
}

/// Formats a size in KiB for reading: `512 KiB`, `1.5 MiB`, `2.0 GiB`.
pub fn format_memory(kib: u64) -> (r: String)
    ensures
        r@ == memory_text(kib as nat),
{
    let mut s = String::new();
    if kib >= 1048576 {
        append_tenths(&mut s, kib, 1048576);
        append(&mut s, " GiB");
        proof {
            reveal_strlit(" GiB");
        }
    } else if kib >= 1024 {
        append_tenths(&mut s, kib, 1024);
        append(&mut s, " MiB");
        proof {
            reveal_strlit(" MiB");
        }
    } else {
        append_decimal(&mut s, kib);
        append(&mut s, " KiB");
        proof {
            reveal_strlit(" KiB");
        }
    }
    proof {
        assert(s@ =~= memory_text(kib as nat));
    }
    s
}

/// `s` without its leading whitespace.
pub open spec fn trim_start(s: Seq<char>) -> Seq<char>
    decreases s.len(),
{
    if s.len() > 0 && is_space(s[0]) {
        trim_start(s.drop_first())
    } else {
        s
    }
}

/// The longest prefix of `s` without whitespace.
pub open spec fn leading_word(s: Seq<char>) -> Seq<char>
    decreases s.len(),
{
    if s.len() == 0 || is_space(s[0]) {
        Seq::empty()
    } else {
        seq![s[0]] + leading_word(s.drop_first())
    }
}

/// The part of `w` after its last `/`; all of `w` when it has none.
pub open spec fn base_name(w: Seq<char>) -> Seq<char>
    decreases w.len(),
{
    if w.len() == 0 {
        w
    } else if w.last() == '/' {
        Seq::empty()
    } else {
        base_name(w.drop_last()).push(w.last())
    }
}

/// The program name of a command line: the base name of its first word, or
/// of the whole line when it has no word.
pub open spec fn command_name(command: Seq<char>) -> Seq<char> {
    if trim_start(command).len() == 0 {
        base_name(command)
    } else {
        base_name(leading_word(trim_start(command)))
    }
}

proof fn lemma_trim_start_skip(s: Seq<char>, i: int)
    requires
        0 <= i <= s.len(),
        forall|j: int| 0 <= j < i ==> is_space(#[trigger] s[j]),
    ensures
        trim_start(s) == trim_start(s.skip(i)),
    decreases i,
{
    if i > 0 {
        assert(s.skip(1) == s.drop_first());
        lemma_trim_start_skip(s.drop_first(), i - 1);
        assert(s.drop_first().skip(i - 1) == s.skip(i));
    } else {
        assert(s.skip(0) == s);
    }
}

proof fn lemma_leading_word_span(s: Seq<char>, i: int)
    requires
        0 <= i <= s.len(),
        forall|j: int| 0 <= j < i ==> !is_space(#[trigger] s[j]),
        i == s.len() || is_space(s[i]),
    ensures
        leading_word(s) == s.take(i),
    decreases i,
{
    if i > 0 {
        lemma_leading_word_span(s.drop_first(), i - 1);
        assert(s.take(i) == seq![s[0]] + s.drop_first().take(i - 1));
    }
}

/// The start of the suffix of `v[from..to]` after its last `/`.
fn after_last_slash(v: &Vec<char>, from: usize, to: usize) -> (k: usize)
    requires
        from <= to <= v@.len(),
    ensures
        from <= k <= to,
        v@.subrange(k as int, to as int) == base_name(v@.subrange(from as int, to as int)),
{
    let mut k: usize = to;
    while k > from && v[k - 1] != '/'
        invariant
            from <= k <= to <= v@.len(),
            base_name(v@.subrange(from as int, to as int)) == base_name(v@.subrange(from as int, k as int))
                + v@.subrange(k as int, to as int),
        decreases k,
    {
        proof {
            let w = v@.subrange(from as int, k as int);
            assert(w.drop_last() == v@.subrange(from as int, k - 1));
            assert(v@.subrange(k - 1, to as int) == seq![w.last()] + v@.subrange(k as int, to as int));
        }
        k = k - 1;
    }
    proof {
        let w = v@.subrange(from as int, k as int);
        if k > from {
            assert(w.last() == '/');
        }
        assert(base_name(w) == Seq::<char>::empty());
    }
    k
}

/// The program name of a command line: the base name of its first
/// whitespace-separated word (`/usr/bin/python3 x.py` gives `python3`), or of
/// the whole line when it has no word.
pub fn extract_command_name(command: &str) -> (r: String)
    ensures
        r@ == command_name(command@),
{
    let v = chars_of(command);
    let n = v.len();
    let mut a: usize = 0;
    while a < n && space(v[a])
        invariant
            a <= n == v@.len(),
            forall|j: int| 0 <= j < a ==> is_space(#[trigger] v@[j]),
        decreases n - a,
    {
        a = a + 1;
    }
    proof {
        lemma_trim_start_skip(v@, a as int);
        if a < n {
            assert(trim_start(v@.skip(a as int)) == v@.skip(a as int));
        } else {
            assert(v@.skip(a as int).len() == 0);
        }
    }
    if a == n {
        let k = after_last_slash(&v, 0, n);
        proof {
            assert(v@.subrange(0, n as int) == v@);
        }
        return string_of(&v, k, n);
    }
    let mut b: usize = a;
    while b < n && !space(v[b])
        invariant
            a <= b <= n == v@.len(),
            forall|j: int| a <= j < b ==> !is_space(#[trigger] v@[j]),
        decreases n - b,
    {
        b = b + 1;
    }
    proof {
        let rest = v@.skip(a as int);
        assert forall|j: int| 0 <= j < b - a implies !is_space(#[trigger] rest[j]) by {
            assert(rest[j] == v@[a + j]);
        }
        lemma_leading_word_span(rest, b - a);
        assert(rest.take(b - a) == v@.subrange(a as int, b as int));
    }
    let k = after_last_slash(&v, a, b);
    string_of(&v, k, b)
}

/// `s` with each double quote doubled, for a quoted CSV field.
pub open spec fn csv_escaped(s: Seq<char>) -> Seq<char>
    decreases s.len(),
{
    if s.len() == 0 {
        s
    } else if s.last() == '"' {
        csv_escaped(s.drop_last()) + seq!['"', '"']
    } else {
        csv_escaped(s.drop_last()).push(s.last())
    }
}

/// Doubles each double quote of `s`, for use inside a quoted CSV field.
pub fn escape_csv(s: &str) -> (r: String)
    ensures
        r@ == csv_escaped(s@),
{
    let v = chars_of(s);
    let mut r = String::new();
    let mut i: usize = 0;
    while i < v.len()
        invariant
            i <= v@.len(),
            v@ == s@,
            r@ == csv_escaped(v@.take(i as int)),
        decreases v@.len() - i,
    {
        let c = v[i];
        if c == '"' {
            append_char(&mut r, '"');
            append_char(&mut r, '"');
        } else {
            append_char(&mut r, c);
        }
        proof {
            assert(v@.take(i + 1).drop_last() == v@.take(i as int));
        }
        i = i + 1;
    }
    proof {
        assert(v@.take(i as int) == v@);
    }
    r
}

/// Processes that share a program name, with their count and summed peaks.
#[derive(Debug, Clone)]
pub struct ProcessGroup {
    pub name: String,
    pub count: usize,
    pub total_rss_kib: u64,
}

/// For each program name among the first `n` entries of `procs` with a
/// non-zero peak, the number of such entries and the sum of their peaks.
pub open spec fn group_totals(procs: Seq<ProcessStats>, n: nat) -> Map<Seq<char>, (nat, nat)>
    decreases n,
{
    if n == 0 {
        Map::empty()
    } else {
        let m = group_totals(procs, (n - 1) as nat);
        let p = procs[n - 1];
        let name = command_name(p.command@);
        if p.max_rss_kib == 0 {
            m
        } else if m.contains_key(name) {
            m.insert(name, (m[name].0 + 1, m[name].1 + p.max_rss_kib as nat))
        } else {
            m.insert(name, (1, p.max_rss_kib as nat))
        }
    }
}

/// `groups` holds one entry per name of `totals`, with its count and its
/// summed peaks (saturating).
pub open spec fn groups_match(groups: Seq<ProcessGroup>, totals: Map<Seq<char>, (nat, nat)>) -> bool {
    &&& forall|i: int, j: int|
        0 <= i < groups.len() && 0 <= j < groups.len() && i != j ==> #[trigger] groups[i].name@
            != #[trigger] groups[j].name@
    &&& forall|i: int|
        0 <= i < groups.len() ==> #[trigger] totals.contains_key(groups[i].name@) && groups[i].count
            == totals[groups[i].name@].0 && groups[i].total_rss_kib == saturate(totals[groups[i].name@].1)
    &&& forall|name: Seq<char>| #[trigger]
        totals.contains_key(name) ==> exists|i: int| 0 <= i < groups.len() && groups[i].name@ == name
}

/// Groups the processes with a non-zero peak by program name, in order of
/// each name's first appearance, counting them and summing their peaks.
pub fn compute_process_groups(processes: &Vec<ProcessStats>) -> (groups: Vec<ProcessGroup>)
    ensures
        groups_match(groups@, group_totals(processes@, processes@.len())),
{
    let mut groups: Vec<ProcessGroup> = Vec::new();
    let mut i: usize = 0;
    while i < processes.len()
        invariant
            i <= processes@.len(),
            groups_match(groups@, group_totals(processes@, i as nat)),
            forall|g: int| 0 <= g < groups@.len() ==> #[trigger] groups@[g].count <= i,
        decreases processes@.len() - i,
    {
        let peak = processes[i].max_rss_kib;
        if peak > 0 {
            let name = extract_command_name(processes[i].command.as_str());
            let ghost totals = group_totals(processes@, i as nat);
            let ghost next = group_totals(processes@, (i + 1) as nat);
            let mut g: usize = 0;
            while g < groups.len() && groups[g].name != name
                invariant
                    g <= groups@.len(),
                    forall|h: int| 0 <= h < g ==> #[trigger] groups@[h].name@ != name@,
                decreases groups@.len() - g,
            {
                g = g + 1;
            }
            if g < groups.len() {
                let ghost before = groups@;
                let count = groups[g].count + 1;
                let total = groups[g].total_rss_kib.saturating_add(peak);
                groups[g].count = count;
                groups[g].total_rss_kib = total;
                proof {
                    assert(next == totals.insert(name@, (totals[name@].0 + 1, totals[name@].1 + peak as nat)));
                    assert forall|h: int| 0 <= h < groups@.len() implies #[trigger] next.contains_key(groups@[h].name@)
                        && groups@[h].count == next[groups@[h].name@].0 && groups@[h].total_rss_kib
                        == saturate(next[groups@[h].name@].1) by {
                        assert(totals.contains_key(before[h].name@));
                        if h != g {
                            assert(before[h].name@ != before[g as int].name@);
                            assert(groups@[h] == before[h]);
                        } else {
                            assert(before[g as int].name@ == name@);
                            assert(groups@[h].name == before[h].name);
                        }
                    }
                    assert forall|nm: Seq<char>| #[trigger] next.contains_key(nm) implies exists|h: int|
                        0 <= h < groups@.len() && groups@[h].name@ == nm by {
                        if nm != name@ {
                            let h = choose|h: int| 0 <= h < before.len() && before[h].name@ == nm;
                            assert(groups@[h].name@ == nm);
                        } else {
                            assert(groups@[g as int].name@ == nm);
                        }
                    }
                    assert forall|a: int, b: int|
                        0 <= a < groups@.len() && 0 <= b < groups@.len() && a != b implies #[trigger] groups@[a].name@
                        != #[trigger] groups@[b].name@ by {
                        assert(before[a].name@ != before[b].name@);
                    }
                }
            } else {
                proof {
                    if totals.contains_key(name@) {
                        let h = choose|h: int| 0 <= h < groups@.len() && groups@[h].name@ == name@;
                        assert(groups@[h].name@ != name@);
                    }
                    assert(next == totals.insert(name@, (1, peak as nat)));
                }
                let ghost before = groups@;
                groups.push(ProcessGroup { name, count: 1, total_rss_kib: peak });
                proof {
                    assert forall|nm: Seq<char>| #[trigger] next.contains_key(nm) implies exists|h: int|
                        0 <= h < groups@.len() && groups@[h].name@ == nm by {
                        if nm != groups@[g as int].name@ {
                            let h = choose|h: int| 0 <= h < before.len() && before[h].name@ == nm;
                            assert(groups@[h].name@ == nm);
                        }
                    }
                    assert forall|h: int| 0 <= h < groups@.len() implies #[trigger] next.contains_key(groups@[h].name@)
                        && groups@[h].count == next[groups@[h].name@].0 && groups@[h].total_rss_kib
                        == saturate(next[groups@[h].name@].1) by {
                        if h < before.len() {
                            assert(before[h].name@ != name@);
                            assert(groups@[h] == before[h]);
                            assert(totals.contains_key(before[h].name@));
                        } else {
                            assert(groups@[h].name@ == name@);
                            assert(saturate(peak as nat) == peak);
                        }
                    }
                }
            }
        }
        i = i + 1;
    }
    groups
}

/// `n` in decimal, padded with a leading zero to at least two digits.
pub open spec fn two_digits(n: nat) -> Seq<char> {
    if n < 10 {
        seq!['0', digit_char(n)]
    } else {
        decimal(n)
    }
}

/// A duration in whole seconds as `HH:MM:SS`; the hours grow past two
/// digits when they must.
pub open spec fn duration_text(secs: nat) -> Seq<char> {
    two_digits(secs / 3600) + seq![':'] + two_digits((secs % 3600) / 60) + seq![':'] + two_digits(secs % 60)
}

fn append_two_digits(s: &mut String, n: u64)
    ensures
        final(s)@ == old(s)@ + two_digits(n as nat),
{
    if n < 10 {
        append_char(s, '0');
        append_char(s, digit(n));
    } else {
        append_decimal(s, n);
    }
}

/// Formats a duration of `total_secs` seconds as `HH:MM:SS`.
pub fn format_duration(total_secs: u64) -> (r: String)
    ensures
        r@ == duration_text(total_secs as nat),
{
    let mut s = String::new();
    append_two_digits(&mut s, total_secs / 3600);
    append_char(&mut s, ':');
    append_two_digits(&mut s, (total_secs % 3600) / 60);
    append_char(&mut s, ':');
    append_two_digits(&mut s, total_secs % 60);
    proof {
        assert(s@ =~= duration_text(total_secs as nat));
    }
    s
}

} // verus!
