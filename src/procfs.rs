//! The records of a Linux process-information filesystem: a process's `stat`
//! line, its `status` text and its NUL-separated `cmdline`, turned into a
//! process sample.

use crate::ps::{lemma_pieces_stay, lines_of, parse_i32, parse_u64, pieces, read_i32, read_u64, words, words_of, join_words, views};
use crate::text::{append, append_char, chars_of, string_of};
use crate::types::ProcessSample;
use vstd::prelude::*;

verus! {

/// The index of the first `c` in `s`.
pub open spec fn first_index(s: Seq<char>, c: char) -> Option<int>
    decreases s.len(),
{
    if s.len() == 0 {
        None
    } else {
        match first_index(s.drop_last(), c) {
            Some(i) => Some(i),
            None => if s.last() == c { Some(s.len() - 1) } else { None },
        }
    }
}

/// The index of the last `c` in `s`.
pub open spec fn last_index(s: Seq<char>, c: char) -> Option<int>
    decreases s.len(),
{
    if s.len() == 0 {
        None
    } else if s.last() == c {
        Some(s.len() - 1)
    } else {
        last_index(s.drop_last(), c)
    }
}

/// The parent pid and the short name in a `stat` line `pid (name) state ppid
/// ...`: the name lies between the first `(` and the last `)`, which allows
/// names with spaces and parentheses, and the parent pid is the second word
/// after it.
pub open spec fn stat_fields(s: Seq<char>) -> Option<(i32, Seq<char>)> {
    match (first_index(s, '('), last_index(s, ')')) {
        (Some(a), Some(b)) => {
            let w = words(s.skip(b + 1));
            if a < b && w.len() >= 2 && parse_i32(w[1]) is Some {
                Some((parse_i32(w[1])->Some_0, s.subrange(a + 1, b)))
            } else {
                None
            }
        },
        _ => None,
    }
}

proof fn lemma_first_index(s: Seq<char>, c: char, a: int)
    requires
        0 <= a <= s.len(),
        forall|j: int| 0 <= j < a ==> #[trigger] s[j] != c,
        a == s.len() || s[a] == c,
    ensures
        first_index(s, c) == if a == s.len() { None } else { Some(a) },
    decreases s.len(),
{
    if s.len() > 0 {
        if a == s.len() {
            lemma_first_index(s.drop_last(), c, a - 1);
        } else if a == s.len() - 1 {
            lemma_first_index(s.drop_last(), c, a);
        } else {
            lemma_first_index(s.drop_last(), c, a);
        }
    }
}

proof fn lemma_last_index(s: Seq<char>, c: char, b: int)
    requires
        0 <= b <= s.len(),
        forall|j: int| b <= j < s.len() ==> #[trigger] s[j] != c,
        b == 0 || s[b - 1] == c,
    ensures
        last_index(s, c) == if b == 0 { None } else { Some(b - 1) },
    decreases s.len(),
{
    if s.len() > 0 && b < s.len() {
        lemma_last_index(s.drop_last(), c, b);
    }
}

/// The parent pid and the short name of a process, from its `stat` line;
/// `None` for a malformed line.
pub fn parse_proc_stat(content: &str) -> (r: Option<(i32, String)>)
    ensures
        match stat_fields(content@) {
            Some((ppid, name)) => r is Some && r->Some_0.0 == ppid && r->Some_0.1@ == name,
            None => r is None,
        },
{
    let s = chars_of(content);
    let n = s.len();
    let mut a: usize = 0;
    while a < n && s[a] != '('
        invariant
            a <= n == s@.len(),
            forall|j: int| 0 <= j < a ==> #[trigger] s@[j] != '(',
        decreases n - a,
    {
        a = a + 1;
    }
    let mut b: usize = n;
    while b > 0 && s[b - 1] != ')'
        invariant
            b <= n == s@.len(),
            forall|j: int| b <= j < n ==> #[trigger] s@[j] != ')',
        decreases b,
    {
        b = b - 1;
    }
    proof {
        lemma_first_index(s@, '(', a as int);
        lemma_last_index(s@, ')', b as int);
    }
    if a == n || b == 0 {
        return None;
    }
    let close = b - 1;
    if close <= a {
        return None;
    }
    let mut rest: Vec<char> = Vec::new();
    let mut i: usize = close + 1;
    while i < n
        invariant
            close + 1 <= i <= n == s@.len(),
            rest@ == s@.subrange(close + 1, i as int),
        decreases n - i,
    {
        rest.push(s[i]);
        i = i + 1;
    }
    proof {
        assert(rest@ == s@.skip(close + 1));
    }
    let ws = words_of(&rest);
    if ws.len() < 2 {
        return None;
    }
    proof {
        assert(views(ws@)[1] == ws@[1]@);
    }
    match read_i32(&ws[1]) {
        None => None,
        Some(ppid) => Some((ppid, string_of(&s, a + 1, close))),
    }
}

/// What a line of `status` says of the resident size: nothing unless it is
/// the `VmRSS:` line with a value, else the value read as a `u64`, if it is
/// one.
pub open spec fn rss_line(line: Seq<char>) -> Option<Option<u64>> {
    if line.len() >= 6 && line.take(6) == seq!['V', 'm', 'R', 'S', 'S', ':'] && words(line).len() >= 2 {
        Some(parse_u64(words(line)[1]))
    } else {
        None
    }
}

/// What the first line of `lines` that speaks of the resident size says.
pub open spec fn scan_rss(lines: Seq<Seq<char>>) -> Option<Option<u64>>
    decreases lines.len(),
{
    if lines.len() == 0 {
        None
    } else {
        match scan_rss(lines.drop_last()) {
            Some(v) => Some(v),
            None => rss_line(lines.last()),
        }
    }
}

/// The resident size in a `status` text: 0 when it has no `VmRSS:` line,
/// as for kernel threads.
pub open spec fn status_rss(s: Seq<char>) -> Option<u64> {
    match scan_rss(lines_of(s)) {
        Some(v) => v,
        None => Some(0),
    }
}

proof fn lemma_decided_stays(lines: Seq<Seq<char>>, k: int)
    requires
        0 <= k <= lines.len(),
        scan_rss(lines.take(k)) is Some,
    ensures
        scan_rss(lines) == scan_rss(lines.take(k)),
    decreases lines.len() - k,
{
    if k < lines.len() {
        assert(lines.drop_last().take(k) == lines.take(k));
        lemma_decided_stays(lines.drop_last(), k);
    } else {
        assert(lines.take(k) == lines);
    }
}

/// What one line says of the resident size.
fn read_rss_line(line: &Vec<char>) -> (r: Option<Option<u64>>)
    ensures
        r == rss_line(line@),
{
    if line.len() < 6 {
        return None;
    }
    let tag = line[0] == 'V' && line[1] == 'm' && line[2] == 'R' && line[3] == 'S' && line[4] == 'S' && line[5] == ':';
    proof {
        if tag {
            assert(line@.take(6) =~= seq!['V', 'm', 'R', 'S', 'S', ':']);
        } else {
            assert(line@.take(6) != seq!['V', 'm', 'R', 'S', 'S', ':'] ) by {
                let t = line@.take(6);
                if t == seq!['V', 'm', 'R', 'S', 'S', ':'] {
                    assert(t[0] == 'V' && t[1] == 'm' && t[2] == 'R' && t[3] == 'S' && t[4] == 'S' && t[5] == ':');
                }
            }
        }
    }
    if !tag {
        return None;
    }
    let ws = words_of(line);
    if ws.len() < 2 {
        return None;
    }
    proof {
        assert(views(ws@)[1] == ws@[1]@);
    }
    Some(read_u64(&ws[1]))
}

/// The resident size in KiB from a process's `status` text: the value of its
/// first `VmRSS:` line that has one, 0 when there is none, `None` when that
/// value is not a number.
pub fn parse_status_rss(content: &str) -> (r: Option<u64>)
    ensures
        r == status_rss(content@),
{
    let s = chars_of(content);
    let mut line: Vec<char> = Vec::new();
    let ghost mut done_lines: Seq<Seq<char>> = Seq::empty();
    let mut i: usize = 0;
    proof {
        assert(s@.take(0) =~= Seq::<char>::empty());
    }
    while i < s.len()
        invariant
            i <= s@.len(),
            s@ == content@,
            pieces(s@.take(i as int)) == done_lines.push(line@),
            scan_rss(done_lines) is None,
        decreases s@.len() - i,
    {
        let c = s[i];
        proof {
            assert(s@.take(i + 1).drop_last() == s@.take(i as int));
        }
        if c == '\n' {
            let ghost next_lines = done_lines.push(line@);
            proof {
                assert(next_lines.drop_last() == done_lines);
            }
            match read_rss_line(&line) {
                Some(v) => {
                    proof {
                        lemma_pieces_stay(s@, i + 1, s@.len() as int);
                        assert(s@.take(s@.len() as int) == content@);
                        let full = lines_of(content@);
                        let k = next_lines.len() as int;
                        assert(pieces(s@.take(i + 1)) == next_lines.push(Seq::empty()));
                        assert(full.take(k) == next_lines);
                        lemma_decided_stays(full, k);
                    }
                    return v;
                },
                None => {},
            }
            proof {
                done_lines = next_lines;
            }
            line = Vec::new();
        } else {
            line.push(c);
        }
        i = i + 1;
    }
    proof {
        assert(s@.take(i as int) == content@);
        if line@.len() == 0 {
            assert(lines_of(content@) == done_lines);
        } else {
            assert(lines_of(content@) == done_lines.push(line@));
            assert(done_lines.push(line@).drop_last() == done_lines);
        }
    }
    if line.len() > 0 {
        match read_rss_line(&line) {
            Some(v) => v,
            None => Some(0),
        }
    } else {
        Some(0)
    }
}

/// What decoding `bytes` as UTF-8 gives, each invalid sequence replaced by
/// U+FFFD.
pub uninterp spec fn utf8_lossy(bytes: Seq<u8>) -> Seq<char>;

/// Relies on String::from_utf8_lossy: the decoding depends on the bytes
/// alone.
#[verifier::external_body]
fn decode_lossy(bytes: &[u8]) -> (r: String)
    ensures
        r@ == utf8_lossy(bytes@),
{
    String::from_utf8_lossy(bytes).into_owned()
}

/// The pieces of `b` between NUL bytes; there is always at least one.
pub open spec fn nul_pieces(b: Seq<u8>) -> Seq<Seq<u8>>
    decreases b.len(),
{
    if b.len() == 0 {
        seq![Seq::empty()]
    } else {
        let p = nul_pieces(b.drop_last());
        if b.last() == 0 {
            p.push(Seq::empty())
        } else {
            p.update(p.len() - 1, p.last().push(b.last()))
        }
    }
}

/// The decoded non-empty pieces of `ps`, in order.
pub open spec fn decoded_args(ps: Seq<Seq<u8>>) -> Seq<Seq<char>>
    decreases ps.len(),
{
    if ps.len() == 0 {
        Seq::empty()
    } else if ps.last().len() == 0 {
        decoded_args(ps.drop_last())
    } else {
        decoded_args(ps.drop_last()).push(utf8_lossy(ps.last()))
    }
}

/// A command line from the NUL-separated arguments of `cmdline`: the
/// non-empty ones, decoded, joined by single spaces.
pub open spec fn cmdline_text(raw: Seq<u8>) -> Seq<char> {
    join_words(decoded_args(nul_pieces(raw)))
}

/// Joins `parts` with single spaces.
pub fn join_args(parts: &Vec<String>) -> (r: String)
    ensures
        r@ == join_words(parts@.map_values(|p: String| p@)),
{
    let ghost all = parts@.map_values(|p: String| p@);
    let mut r = String::new();
    let mut k: usize = 0;
    while k < parts.len()
        invariant
            k <= parts@.len(),
            all == parts@.map_values(|p: String| p@),
            r@ == join_words(all.take(k as int)),
        decreases parts@.len() - k,
    {
        if k > 0 {
            append_char(&mut r, ' ');
        }
        append(&mut r, parts[k].as_str());
        proof {
            let t = all.take(k + 1);
            assert(t.drop_last() == all.take(k as int));
            assert(t.last() == parts@[k as int]@);
            if k == 0 {
                assert(t.len() == 1);
            }
        }
        k = k + 1;
    }
    proof {
        assert(all.take(k as int) == all);
    }
    r
}

/// The command line from the raw contents of a `cmdline` file.
pub fn parse_cmdline(raw: &Vec<u8>) -> (r: String)
    ensures
        r@ == cmdline_text(raw@),
{
    let mut parts: Vec<String> = Vec::new();
    let mut start: usize = 0;
    let mut i: usize = 0;
    let ghost mut done: Seq<Seq<u8>> = Seq::empty();
    proof {
        assert(raw@.take(0) =~= Seq::<u8>::empty());
    }
    while i < raw.len()
        invariant
            start <= i <= raw@.len(),
            nul_pieces(raw@.take(i as int)) == done.push(raw@.subrange(start as int, i as int)),
            parts@.map_values(|p: String| p@) == decoded_args(done),
        decreases raw@.len() - i,
    {
        proof {
            assert(raw@.take(i + 1).drop_last() == raw@.take(i as int));
        }
        if raw[i] == 0 {
            let ghost piece = raw@.subrange(start as int, i as int);
            let ghost next = done.push(piece);
            proof {
                assert(next.drop_last() == done);
            }
            if i > start {
                let arg = decode_lossy(slice_of(raw, start, i).as_slice());
                let ghost before = parts@;
                parts.push(arg);
                proof {
                    assert(parts@.map_values(|p: String| p@) == before.map_values(|p: String| p@).push(utf8_lossy(piece)));
                }
            }
            proof {
                done = next;
                assert(raw@.take(i + 1).last() == 0);
                assert(raw@.subrange(i + 1, i + 1) == Seq::<u8>::empty());
            }
            start = i + 1;
        } else {
            proof {
                let cur = raw@.subrange(start as int, i as int);
                let t = raw@.take(i + 1);
                assert(t.last() == raw@[i as int]);
                assert(raw@.subrange(start as int, i + 1) == cur.push(raw@[i as int]));
                assert(done.push(cur).update(done.len() as int, cur.push(raw@[i as int])) == done.push(
                    cur.push(raw@[i as int]),
                ));
            }
        }
        i = i + 1;
    }
    proof {
        assert(raw@.take(i as int) == raw@);
    }
    let ghost piece = raw@.subrange(start as int, i as int);
    if i > start {
        let arg = decode_lossy(slice_of(raw, start, i).as_slice());
        let ghost before = parts@;
        parts.push(arg);
        proof {
            assert(parts@.map_values(|p: String| p@) == before.map_values(|p: String| p@).push(utf8_lossy(piece)));
            assert(done.push(piece).drop_last() == done);
        }
    } else {
        proof {
            assert(done.push(piece).drop_last() == done);
        }
    }
    join_args(&parts)
}

/// The bytes `v[from..to]`.
fn slice_of(v: &Vec<u8>, from: usize, to: usize) -> (r: Vec<u8>)
    requires
        from <= to <= v@.len(),
    ensures
        r@ == v@.subrange(from as int, to as int),
{
    let mut r: Vec<u8> = Vec::new();
    let mut i: usize = from;
    while i < to
        invariant
            from <= i <= to <= v@.len(),
            r@ == v@.subrange(from as int, i as int),
        decreases to - i,
    {
        r.push(v[i]);
        i = i + 1;
    }
    r
}

/// The sample of process `pid` from its three records; `None` when the
/// `stat` line or the resident size is malformed. The command is the
/// command line, or the short name when the command line is empty (as for
/// kernel threads, or when it could not be read).
pub fn process_sample(pid: i32, stat: &str, status: &str, cmdline: &Vec<u8>) -> (r: Option<ProcessSample>)
    ensures
        match (stat_fields(stat@), status_rss(status@)) {
            (Some((ppid, name)), Some(rss)) => r is Some && r->Some_0.pid == pid && r->Some_0.ppid == ppid
                && r->Some_0.rss_kib == rss && r->Some_0.command@ == if cmdline_text(cmdline@).len() == 0 {
                name
            } else {
                cmdline_text(cmdline@)
            },
            _ => r is None,
        },
{
    let (ppid, name) = match parse_proc_stat(stat) {
        Some(f) => f,
        None => {
            return None;
        },
    };
    let rss_kib = match parse_status_rss(status) {
        Some(v) => v,
        None => {
            return None;
        },
    };
    let line = parse_cmdline(cmdline);
    let command = if line.as_str().unicode_len() == 0 { name } else { line };
    Some(ProcessSample { pid, ppid, rss_kib, command })
}

} // verus!
