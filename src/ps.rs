//! Parsing of the process table as printed by `ps -axo pid,ppid,rss,command`:
//! a header line, then one line per process with the pid, the parent pid, the
//! resident size in KiB and the command line, separated by whitespace.

use crate::text::{append_char, chars_of, is_space, space};
use crate::types::ProcessSample;
use vstd::prelude::*;

verus! {

/// The pieces of `s` between newlines; there is always at least one.
pub open spec fn pieces(s: Seq<char>) -> Seq<Seq<char>>
    decreases s.len(),
{
    if s.len() == 0 {
        seq![Seq::empty()]
    } else {
        let p = pieces(s.drop_last());
        if s.last() == '\n' {
            p.push(Seq::empty())
        } else {
            p.update(p.len() - 1, p.last().push(s.last()))
        }
    }
}

/// The lines of `s`: its pieces between newlines, without an empty last one.
pub open spec fn lines_of(s: Seq<char>) -> Seq<Seq<char>> {
    let p = pieces(s);
    if p.last().len() == 0 {
        p.drop_last()
    } else {
        p
    }
}

/// The whitespace-separated words of `s`.
pub open spec fn words(s: Seq<char>) -> Seq<Seq<char>>
    decreases s.len(),
{
    if s.len() == 0 {
        Seq::empty()
    } else {
        let w = words(s.drop_last());
        let c = s.last();
        if is_space(c) {
            w
        } else if s.len() > 1 && !is_space(s[s.len() - 2]) {
            w.update(w.len() - 1, w.last().push(c))
        } else {
            w.push(seq![c])
        }
    }
}

/// The words of `ws` joined by single spaces.
pub open spec fn join_words(ws: Seq<Seq<char>>) -> Seq<char>
    decreases ws.len(),
{
    if ws.len() == 0 {
        Seq::empty()
    } else if ws.len() == 1 {
        ws[0]
    } else {
        join_words(ws.drop_last()) + seq![' '] + ws.last()
    }
}

pub open spec fn is_digit(c: char) -> bool {
    '0' <= c && c <= '9'
}

/// The value of a run of decimal digits.
pub open spec fn digits_value(d: Seq<char>) -> nat
    decreases d.len(),
{
    if d.len() == 0 {
        0
    } else {
        digits_value(d.drop_last()) * 10 + (d.last() as nat - '0' as nat) as nat
    }
}

/// `t` is one or more decimal digits.
pub open spec fn all_digits(t: Seq<char>) -> bool {
    t.len() > 0 && forall|i: int| 0 <= i < t.len() ==> is_digit(#[trigger] t[i])
}

/// The value of `t` read as a decimal integer with an optional sign, as
/// Rust's `str::parse` reads it; `None` when `t` is not one.
pub open spec fn signed_value(t: Seq<char>) -> Option<int> {
    if t.len() > 0 && t[0] == '-' {
        if all_digits(t.drop_first()) { Some(-(digits_value(t.drop_first()) as int)) } else { None }
    } else if t.len() > 0 && t[0] == '+' {
        if all_digits(t.drop_first()) { Some(digits_value(t.drop_first()) as int) } else { None }
    } else {
        if all_digits(t) { Some(digits_value(t) as int) } else { None }
    }
}

/// `t` read as an `i32`.
pub open spec fn parse_i32(t: Seq<char>) -> Option<i32> {
    match signed_value(t) {
        Some(v) => if i32::MIN <= v <= i32::MAX { Some(v as i32) } else { None },
        None => None,
    }
}

/// `t` read as a `u64`: no minus sign.
pub open spec fn parse_u64(t: Seq<char>) -> Option<u64> {
    if t.len() > 0 && t[0] == '-' {
        None
    } else {
        match signed_value(t) {
            Some(v) => if 0 <= v <= u64::MAX { Some(v as u64) } else { None },
            None => None,
        }
    }
}

/// A parsed record: pid, parent pid, resident KiB and command line.
pub type PsRecord = (i32, i32, u64, Seq<char>);

/// What one line after the header gives: a record, or nothing for a blank
/// or short line, a line without a command, or a malformed record (a pid,
/// parent pid or size that is not a number of its type), which is skipped.
pub open spec fn line_outcome(line: Seq<char>) -> Option<PsRecord> {
    let w = words(line);
    if w.len() < 4 || parse_i32(w[0]) is None || parse_i32(w[1]) is None || parse_u64(w[2]) is None {
        None
    } else {
        Some((parse_i32(w[0])->Some_0, parse_i32(w[1])->Some_0, parse_u64(w[2])->Some_0, join_words(w.skip(3))))
    }
}

/// The records of `lines`, the first line being the header.
pub open spec fn parse_lines(lines: Seq<Seq<char>>) -> Seq<PsRecord>
    decreases lines.len(),
{
    if lines.len() <= 1 {
        Seq::empty()
    } else {
        let recs = parse_lines(lines.drop_last());
        match line_outcome(lines.last()) {
            None => recs,
            Some(r) => recs.push(r),
        }
    }
}

/// The record a sample stands for.
pub open spec fn record_of(p: ProcessSample) -> PsRecord {
    (p.pid, p.ppid, p.rss_kib, p.command@)
}

pub(crate) proof fn lemma_pieces_nonempty(s: Seq<char>)
    ensures
        pieces(s).len() >= 1,
    decreases s.len(),
{
    if s.len() > 0 {
        lemma_pieces_nonempty(s.drop_last());
    }
}

pub(crate) proof fn lemma_pieces_stay(s: Seq<char>, i: int, j: int)
    requires
        0 <= i <= j <= s.len(),
    ensures
        pieces(s.take(j)).len() >= pieces(s.take(i)).len(),
        pieces(s.take(j)).take(pieces(s.take(i)).len() - 1) == pieces(s.take(i)).drop_last(),
    decreases j - i,
{
    if j > i {
        lemma_pieces_stay(s, i, j - 1);
        assert(s.take(j).drop_last() == s.take(j - 1));
        let p = pieces(s.take(j - 1));
        let n = pieces(s.take(i)).len() - 1;
        let t = s.take(j);
        assert(t.len() > 0);
        lemma_pieces_nonempty(s.take(i));
        lemma_pieces_nonempty(s.take(j - 1));
        if t.last() == '\n' {
            assert(pieces(t) == p.push(Seq::empty()));
            assert(pieces(t).take(n) =~= p.take(n));
        } else {
            assert(pieces(t) == p.update(p.len() - 1, p.last().push(t.last())));
            assert(pieces(t).take(n) =~= p.take(n));
        }
    }
}

/// The views of a sequence of character vectors.
pub open spec fn views(v: Seq<Vec<char>>) -> Seq<Seq<char>> {
    v.map_values(|w: Vec<char>| w@)
}

/// The whitespace-separated words of `line`.
pub(crate) fn words_of(line: &Vec<char>) -> (ws: Vec<Vec<char>>)
    ensures
        views(ws@) == words(line@),
{
    let mut done: Vec<Vec<char>> = Vec::new();
    let mut cur: Vec<char> = Vec::new();
    let mut in_word = false;
    let mut i: usize = 0;
    while i < line.len()
        invariant
            i <= line@.len(),
            in_word == (i > 0 && !is_space(line@[i - 1])),
            in_word ==> words(line@.take(i as int)) == views(done@).push(cur@),
            !in_word ==> words(line@.take(i as int)) == views(done@),
            !in_word ==> cur@.len() == 0,
        decreases line@.len() - i,
    {
        let c = line[i];
        let ghost t = line@.take(i + 1);
        proof {
            assert(t.drop_last() == line@.take(i as int));
            assert(t.last() == c);
            if i > 0 {
                assert(t[t.len() - 2] == line@[i - 1]);
            }
        }
        if space(c) {
            if in_word {
                done.push(cur);
                cur = Vec::new();
                proof {
                    assert(views(done@) == views(done@.drop_last()).push(done@.last()@));
                }
            }
            in_word = false;
        } else {
            if in_word {
                cur.push(c);
            } else {
                cur = Vec::new();
                cur.push(c);
                proof {
                    assert(cur@ == seq![c]);
                }
            }
            in_word = true;
        }
        i = i + 1;
    }
    if in_word {
        done.push(cur);
        proof {
            assert(views(done@) == views(done@.drop_last()).push(done@.last()@));
        }
    }
    proof {
        assert(line@.take(i as int) == line@);
    }
    done
}

/// The value of the digits `t[from..]`, capped at 2^64; `None` unless they
/// are one or more decimal digits.
fn digits_capped(t: &Vec<char>, from: usize) -> (r: Option<u128>)
    requires
        from <= t@.len(),
    ensures
        r is Some <==> all_digits(t@.skip(from as int)),
        r is Some ==> r->Some_0 == if digits_value(t@.skip(from as int)) > 0x1_0000_0000_0000_0000 {
            0x1_0000_0000_0000_0000
        } else {
            digits_value(t@.skip(from as int))
        },
{
    if from == t.len() {
        return None;
    }
    let cap: u128 = 0x1_0000_0000_0000_0000;
    let mut acc: u128 = 0;
    let mut i: usize = from;
    while i < t.len()
        invariant
            from <= i <= t@.len(),
            forall|j: int| from <= j < i ==> is_digit(#[trigger] t@[j]),
            acc == if digits_value(t@.subrange(from as int, i as int)) > cap {
                cap as nat
            } else {
                digits_value(t@.subrange(from as int, i as int))
            },
            cap == 0x1_0000_0000_0000_0000,
        decreases t@.len() - i,
    {
        let c = t[i];
        if !('0' <= c && c <= '9') {
            proof {
                assert(t@.skip(from as int)[i - from] == c);
            }
            return None;
        }
        let d: u128 = (c as u32 - '0' as u32) as u128;
        proof {
            let sub = t@.subrange(from as int, i + 1);
            assert(sub.drop_last() == t@.subrange(from as int, i as int));
            assert(sub.last() == c);
        }
        let ghost v = digits_value(t@.subrange(from as int, i as int));
        if acc >= cap {
            proof {
                assert(v * 10 + d >= v) by (nonlinear_arith);
            }
        } else {
            let next = acc * 10 + d;
            acc = if next > cap { cap } else { next };
        }
        i = i + 1;
    }
    proof {
        assert(t@.subrange(from as int, i as int) == t@.skip(from as int));
        let sk = t@.skip(from as int);
        assert forall|j: int| 0 <= j < sk.len() implies is_digit(#[trigger] sk[j]) by {
            assert(sk[j] == t@[from + j]);
        }
    }
    Some(acc)
}

/// `t` read as an `i32` with an optional sign.
pub(crate) fn read_i32(t: &Vec<char>) -> (r: Option<i32>)
    ensures
        r == parse_i32(t@),
{
    let neg = t.len() > 0 && t[0] == '-';
    let from: usize = if t.len() > 0 && (t[0] == '-' || t[0] == '+') { 1 } else { 0 };
    proof {
        assert(t@.skip(0) == t@);
        if from == 1 {
            assert(t@.skip(1) == t@.drop_first());
        }
    }
    match digits_capped(t, from) {
        None => None,
        Some(v) => {
            if neg {
                if v <= 0x8000_0000 {
                    Some((0 - v as i128) as i32)
                } else {
                    None
                }
            } else {
                if v <= 0x7fff_ffff {
                    Some(v as i32)
                } else {
                    None
                }
            }
        },
    }
}

/// `t` read as a `u64` with an optional plus sign.
pub(crate) fn read_u64(t: &Vec<char>) -> (r: Option<u64>)
    ensures
        r == parse_u64(t@),
{
    if t.len() > 0 && t[0] == '-' {
        return None;
    }
    let from: usize = if t.len() > 0 && t[0] == '+' { 1 } else { 0 };
    proof {
        assert(t@.skip(0) == t@);
        if from == 1 {
            assert(t@.skip(1) == t@.drop_first());
        }
    }
    match digits_capped(t, from) {
        None => None,
        Some(v) => {
            if v <= 0xffff_ffff_ffff_ffff {
                Some(v as u64)
            } else {
                None
            }
        },
    }
}

/// The words of `ws` from the `from`th on, joined by single spaces.
fn join_from(ws: &Vec<Vec<char>>, from: usize) -> (s: String)
    requires
        from <= ws@.len(),
    ensures
        s@ == join_words(views(ws@).skip(from as int)),
{
    let ghost rest = views(ws@).skip(from as int);
    let mut s = String::new();
    let mut k: usize = from;
    while k < ws.len()
        invariant
            from <= k <= ws@.len(),
            rest == views(ws@).skip(from as int),
            s@ == join_words(rest.take(k - from)),
        decreases ws@.len() - k,
    {
        if k > from {
            append_char(&mut s, ' ');
        }
        let w = &ws[k];
        let mut i: usize = 0;
        let ghost before = s@;
        while i < w.len()
            invariant
                i <= w@.len(),
                s@ == before + w@.take(i as int),
            decreases w@.len() - i,
        {
            append_char(&mut s, w[i]);
            i = i + 1;
            proof {
                assert(s@ == before + w@.take(i as int));
            }
        }
        proof {
            assert(w@.take(i as int) == w@);
            let t = rest.take(k + 1 - from);
            assert(t.drop_last() == rest.take(k - from));
            assert(t.last() == w@);
            if k == from {
                assert(join_words(rest.take(0)) == Seq::<char>::empty());
                assert(t.len() == 1);
                assert(s@ == w@);
            }
        }
        k = k + 1;
    }
    proof {
        assert(rest.take(k - from) == rest);
    }
    s
}

/// What one line after the header gives.
fn parse_line(line: &Vec<char>) -> (r: Option<ProcessSample>)
    ensures
        match line_outcome(line@) {
            None => r is None,
            Some(rec) => r is Some && record_of(r->Some_0) == rec,
        },
{
    let ws = words_of(line);
    proof {
        assert forall|j: int| 0 <= j < ws@.len() implies #[trigger] views(ws@)[j] == ws@[j]@ by {}
    }
    if ws.len() < 4 {
        return None;
    }
    let pid = match read_i32(&ws[0]) {
        Some(v) => v,
        None => {
            return None;
        },
    };
    let ppid = match read_i32(&ws[1]) {
        Some(v) => v,
        None => {
            return None;
        },
    };
    let rss_kib = match read_u64(&ws[2]) {
        Some(v) => v,
        None => {
            return None;
        },
    };
    let command = join_from(&ws, 3);
    Some(ProcessSample { pid, ppid, rss_kib, command })
}

/// Parses the output of `ps -axo pid,ppid,rss,command`: the first line is a
/// header; blank lines, lines with fewer than four words and malformed
/// records (a pid, parent pid or size that is not a number of its type) are
/// skipped; the command is the words from the fourth on joined by single
/// spaces.
pub fn parse_ps_output(output: &str) -> (r: Vec<ProcessSample>)
    ensures
        r@.map_values(|p: ProcessSample| record_of(p)) == parse_lines(lines_of(output@)),
{
    let s = chars_of(output);
    let mut recs: Vec<ProcessSample> = Vec::new();
    let mut line: Vec<char> = Vec::new();
    let mut done: usize = 0;
    let ghost mut done_lines: Seq<Seq<char>> = Seq::empty();
    let mut i: usize = 0;
    proof {
        assert(recs@.map_values(|p: ProcessSample| record_of(p)) =~= Seq::<PsRecord>::empty());
        assert(s@.take(0) =~= Seq::<char>::empty());
    }
    while i < s.len()
        invariant
            i <= s@.len(),
            done <= i,
            s@ == output@,
            pieces(s@.take(i as int)) == done_lines.push(line@),
            done == done_lines.len(),
            parse_lines(done_lines) == recs@.map_values(|p: ProcessSample| record_of(p)),
        decreases s@.len() - i,
    {
        let c = s[i];
        proof {
            assert(s@.take(i + 1).drop_last() == s@.take(i as int));
        }
        if c == '\n' {
            let ghost next_lines = done_lines.push(line@);
            proof {
                assert(next_lines.drop_last() == done_lines);
            }
            if done > 0 {
                match parse_line(&line) {
                    None => {},
                    Some(p) => {
                        let ghost old_recs = recs@;
                        recs.push(p);
                        proof {
                            assert(recs@.map_values(|p: ProcessSample| record_of(p)) == old_recs.map_values(
                                |p: ProcessSample| record_of(p),
                            ).push(record_of(p)));
                        }
                    },
                }
            }
            proof {
                done_lines = next_lines;
            }
            done = done + 1;
            line = Vec::new();
        } else {
            line.push(c);
        }
        i = i + 1;
    }
    proof {
        assert(s@.take(i as int) == output@);
        if line@.len() == 0 {
            assert(lines_of(output@) == done_lines);
        } else {
            assert(lines_of(output@) == done_lines.push(line@));
            assert(done_lines.push(line@).drop_last() == done_lines);
        }
    }
    if line.len() > 0 && done > 0 {
        match parse_line(&line) {
            None => {},
            Some(p) => {
                let ghost old_recs = recs@;
                recs.push(p);
                proof {
                    assert(recs@.map_values(|p: ProcessSample| record_of(p)) == old_recs.map_values(
                        |p: ProcessSample| record_of(p),
                    ).push(record_of(p)));
                }
            },
        }
    }
    recs
}

} // verus!
