//! Include/unwanted filtering of per-process statistics by regular expressions
//! matched against each process's command.

use crate::types::ProcessStats;
use regex::Regex;
use vstd::prelude::*;

verus! {

#[verifier::external_type_specification]
#[verifier::external_body]
pub struct ExRegex(regex::Regex);

#[verifier::external_type_specification]
#[verifier::external_body]
pub struct ExRegexError(regex::Error);

/// Whether `pattern` compiles as a regular expression under the default limits.
pub uninterp spec fn regex_compiles(pattern: Seq<char>) -> bool;

/// Whether the regular expression `pattern` matches somewhere in `haystack`.
pub uninterp spec fn regex_finds(pattern: Seq<char>, haystack: Seq<char>) -> bool;

/// Relies on regex::Regex::new: it returns `Ok` exactly when the pattern is a
/// valid expression within the default size limit, which depends on the
/// pattern alone.
#[verifier::external_body]
fn compile_regex(pattern: &str) -> (r: Result<Regex, regex::Error>)
    ensures
        r is Ok <==> regex_compiles(pattern@),
{
    Regex::new(pattern)
}

/// A compiled regular expression together with the text it was compiled from.
pub struct Pattern {
    source: String,
    re: Regex,
}

/// Relies on regex::Regex::is_match: true exactly when the expression that
/// `p` was compiled from matches somewhere in `haystack`.
#[verifier::external_body]
fn regex_is_match(p: &Pattern, haystack: &str) -> (r: bool)
    ensures
        r == regex_finds(p.source@, haystack@),
{
    p.re.is_match(haystack)
}

impl Pattern {
    /// The text the expression was compiled from.
    pub closed spec fn source(&self) -> Seq<char> {
        self.source@
    }

    /// Compiles `pattern`; `None` exactly when it is not a valid expression.
    pub fn compile(pattern: &str) -> (r: Option<Pattern>)
        ensures
            r is Some <==> regex_compiles(pattern@),
            r is Some ==> r->Some_0.source() == pattern@,
    {
        match compile_regex(pattern) {
            Ok(re) => Some(Pattern { source: pattern.to_owned(), re }),
            Err(_) => None,
        }
    }

    /// Whether the expression matches somewhere in `haystack`.
    pub fn is_match(&self, haystack: &str) -> (r: bool)
        ensures
            r == regex_finds(self.source(), haystack@),
    {
        regex_is_match(self, haystack)
    }
}

/// A pattern that failed to compile, and on which side of the filter it stood.
#[derive(Debug, Clone)]
pub enum FilterError {
    InvalidExclude(String),
    InvalidInclude(String),
}

/// The outcome of filtering: the processes kept, and how many were left out
/// with the sum of their peaks.
#[derive(Debug)]
pub struct FilterOutcome {
    pub kept: Vec<ProcessStats>,
    pub excluded_count: usize,
    pub excluded_total_kib: u64,
}

/// Whether a process stays, given whether the include pattern matched its
/// command (`None` when there is no include pattern) and whether the exclude
/// pattern did (`None` when there is no exclude pattern).
pub open spec fn keep_spec(include_hit: Option<bool>, exclude_hit: Option<bool>) -> bool {
    (include_hit is None || include_hit->Some_0) && !(exclude_hit is Some && exclude_hit->Some_0)
}

/// Whether a process with command `command` passes the optional include and
/// exclude expressions.
pub open spec fn passes(wanted: Option<Seq<char>>, unwanted: Option<Seq<char>>, command: Seq<char>) -> bool {
    &&& wanted is Some ==> regex_finds(wanted->Some_0, command)
    &&& !(unwanted is Some && regex_finds(unwanted->Some_0, command))
}

/// The entries of `s` whose flag in `keep` is set, in order.
pub open spec fn kept_by(s: Seq<ProcessStats>, keep: Seq<bool>) -> Seq<ProcessStats>
    decreases s.len(),
{
    if s.len() == 0 {
        s
    } else {
        let prev = kept_by(s.drop_last(), keep);
        if keep[s.len() - 1] {
            prev.push(s.last())
        } else {
            prev
        }
    }
}

/// The entries of `s` whose flag in `keep` is clear, in order.
pub open spec fn excluded_by(s: Seq<ProcessStats>, keep: Seq<bool>) -> Seq<ProcessStats>
    decreases s.len(),
{
    if s.len() == 0 {
        s
    } else {
        let prev = excluded_by(s.drop_last(), keep);
        if keep[s.len() - 1] {
            prev
        } else {
            prev.push(s.last())
        }
    }
}

/// The sum of the peaks of `s`.
pub open spec fn peak_sum(s: Seq<ProcessStats>) -> nat
    decreases s.len(),
{
    if s.len() == 0 {
        0
    } else {
        peak_sum(s.drop_last()) + s.last().max_rss_kib as nat
    }
}

/// `n`, or the largest `u64` where `n` exceeds it.
pub open spec fn saturate(n: nat) -> u64 {
    if n > u64::MAX {
        u64::MAX
    } else {
        n as u64
    }
}

/// The flags of `s` under the optional include and exclude expressions.
pub open spec fn pass_flags(s: Seq<ProcessStats>, wanted: Option<Seq<char>>, unwanted: Option<Seq<char>>) -> Seq<bool> {
    Seq::new(s.len(), |i: int| passes(wanted, unwanted, s[i].command@))
}

/// Decides whether a process stays: the include pattern, when there is one,
/// must match, and the exclude pattern, when there is one, vetoes.
pub fn keep_process(include_hit: Option<bool>, exclude_hit: Option<bool>) -> (r: bool)
    ensures
        r == keep_spec(include_hit, exclude_hit),
{
    let included = match include_hit {
        Some(hit) => hit,
        None => true,
    };
    let vetoed = match exclude_hit {
        Some(hit) => hit,
        None => false,
    };
    included && !vetoed
}

proof fn lemma_kept_prefix(s: Seq<ProcessStats>, keep: Seq<bool>, i: int)
    requires
        0 <= i < s.len(),
    ensures
        kept_by(s.take(i + 1), keep) == if keep[i] {
            kept_by(s.take(i), keep).push(s[i])
        } else {
            kept_by(s.take(i), keep)
        },
        excluded_by(s.take(i + 1), keep) == if keep[i] {
            excluded_by(s.take(i), keep)
        } else {
            excluded_by(s.take(i), keep).push(s[i])
        },
{
    assert(s.take(i + 1).drop_last() == s.take(i));
}

/// Splits `processes` by the flags of `keep`: the flagged ones are kept in
/// order, the others are counted and their peaks summed (saturating).
pub fn partition_processes(processes: Vec<ProcessStats>, keep: &Vec<bool>) -> (r: FilterOutcome)
    requires
        keep@.len() == processes@.len(),
    ensures
        r.kept@ == kept_by(processes@, keep@),
        r.excluded_count == excluded_by(processes@, keep@).len(),
        r.excluded_total_kib == saturate(peak_sum(excluded_by(processes@, keep@))),
{
    let ghost all = processes@;
    let mut rest = processes;
    let mut kept: Vec<ProcessStats> = Vec::new();
    let mut excluded_count: usize = 0;
    let mut excluded_total_kib: u64 = 0;
    let mut i: usize = 0;
    while i < keep.len()
        invariant
            keep@.len() == all.len(),
            i <= all.len(),
            rest@ == all.skip(i as int),
            kept@ == kept_by(all.take(i as int), keep@),
            excluded_count == excluded_by(all.take(i as int), keep@).len(),
            excluded_count <= i,
            excluded_total_kib == saturate(peak_sum(excluded_by(all.take(i as int), keep@))),
        decreases rest@.len(),
    {
        let p = rest.remove(0);
        proof {
            assert(p == all[i as int]);
            lemma_kept_prefix(all, keep@, i as int);
        }
        if keep[i] {
            kept.push(p);
        } else {
            excluded_total_kib = excluded_total_kib.saturating_add(p.max_rss_kib);
            excluded_count = excluded_count + 1;
            proof {
                let e = excluded_by(all.take(i + 1), keep@);
                assert(e.drop_last() == excluded_by(all.take(i as int), keep@));
            }
        }
        i = i + 1;
        proof {
            assert(rest@ == all.skip(i as int));
        }
    }
    proof {
        assert(all.take(i as int) == all);
    }
    FilterOutcome { kept, excluded_count, excluded_total_kib }
}

/// Filters `processes` by the optional patterns. Fails when a pattern that is
/// given does not compile, the exclude pattern being checked first; otherwise
/// keeps, in order, the processes whose command matches the include pattern
/// (when there is one) and does not match the exclude pattern (when there is
/// one), and counts the others with the sum of their peaks.
pub fn apply_filter(processes: Vec<ProcessStats>, exclude_pattern: Option<&str>, include_pattern: Option<&str>) -> (r: Result<FilterOutcome, FilterError>)
    ensures
        r is Err <==> (exclude_pattern is Some && !regex_compiles(exclude_pattern->Some_0@))
            || (include_pattern is Some && !regex_compiles(include_pattern->Some_0@)),
        r matches Err(FilterError::InvalidExclude(p)) <==> exclude_pattern is Some && !regex_compiles(
            exclude_pattern->Some_0@,
        ),
        r matches Err(FilterError::InvalidExclude(p)) ==> p@ == exclude_pattern->Some_0@,
        r matches Err(FilterError::InvalidInclude(p)) ==> p@ == include_pattern->Some_0@,
        r is Ok ==> ({
            let flags = pass_flags(
                processes@,
                match include_pattern { Some(p) => Some(p@), None => None },
                match exclude_pattern { Some(p) => Some(p@), None => None },
            );
            &&& r->Ok_0.kept@ == kept_by(processes@, flags)
            &&& r->Ok_0.excluded_count == excluded_by(processes@, flags).len()
            &&& r->Ok_0.excluded_total_kib == saturate(peak_sum(excluded_by(processes@, flags)))
        }),
{
    let unwanted = match exclude_pattern {
        Some(p) => match Pattern::compile(p) {
            Some(c) => Some(c),
            None => {
                return Err(FilterError::InvalidExclude(p.to_owned()));
            },
        },
        None => None,
    };
    let wanted = match include_pattern {
        Some(p) => match Pattern::compile(p) {
            Some(c) => Some(c),
            None => {
                return Err(FilterError::InvalidInclude(p.to_owned()));
            },
        },
        None => None,
    };
    let ghost inc = match include_pattern { Some(p) => Some(p@), None => None };
    let ghost exc = match exclude_pattern { Some(p) => Some(p@), None => None };
    let mut keep: Vec<bool> = Vec::new();
    let mut i: usize = 0;
    while i < processes.len()
        invariant
            i <= processes@.len(),
            keep@.len() == i,
            wanted is Some <==> inc is Some,
            wanted is Some ==> wanted->Some_0.source() == inc->Some_0,
            unwanted is Some <==> exc is Some,
            unwanted is Some ==> unwanted->Some_0.source() == exc->Some_0,
            forall|j: int| 0 <= j < i ==> keep@[j] == passes(inc, exc, #[trigger] processes@[j].command@),
        decreases processes@.len() - i,
    {
        let command = processes[i].command.as_str();
        let include_hit = match &wanted {
            Some(re) => Some(re.is_match(command)),
            None => None,
        };
        let exclude_hit = match &unwanted {
            Some(re) => Some(re.is_match(command)),
            None => None,
        };
        keep.push(keep_process(include_hit, exclude_hit));
        i = i + 1;
    }
    proof {
        assert(keep@ == pass_flags(processes@, inc, exc));
    }
    Ok(partition_processes(processes, &keep))
}

/// Filtering partitions its input: every entry is either kept or excluded,
/// so the kept and excluded entries together are the input, and their counts
/// add up to its length.
pub proof fn lemma_filter_partitions(s: Seq<ProcessStats>, keep: Seq<bool>)
    requires
        keep.len() >= s.len(),
    ensures
        kept_by(s, keep).len() + excluded_by(s, keep).len() == s.len(),
        kept_by(s, keep).to_multiset().add(excluded_by(s, keep).to_multiset()) == s.to_multiset(),
    decreases s.len(),
{
    broadcast use vstd::seq_lib::group_to_multiset_ensures;
    if s.len() > 0 {
        lemma_filter_partitions(s.drop_last(), keep);
        assert(s == s.drop_last().push(s.last()));
        assert(kept_by(s, keep).to_multiset().add(excluded_by(s, keep).to_multiset()) =~= s.to_multiset());
    }
}

} // verus!
