//! Descriptions of the active filter and of filter errors.

use crate::filter::FilterError;
use crate::text::append;
use crate::types::FilterConfig;
use vstd::prelude::*;

verus! {

/// The lines that describe the patterns of `f`: the exclude pattern's first.
pub open spec fn pattern_lines(f: FilterConfig) -> Seq<Seq<char>> {
    let ex = match f.exclude_pattern {
        Some(p) => seq!["Exclude pattern: '"@ + p@ + "'"@],
        None => Seq::empty(),
    };
    let inc = match f.include_pattern {
        Some(p) => seq!["Include pattern: '"@ + p@ + "'"@],
        None => Seq::empty(),
    };
    ex + inc
}

/// The one-line description of the patterns of `f` for a CSV comment.
pub open spec fn csv_comment(f: FilterConfig) -> Seq<char> {
    match (f.exclude_pattern, f.include_pattern) {
        (Some(e), Some(i)) => "exclude='"@ + e@ + "'"@ + " include='"@ + i@ + "'"@,
        (Some(e), None) => "exclude='"@ + e@ + "'"@,
        (None, Some(i)) => "include='"@ + i@ + "'"@,
        (None, None) => Seq::empty(),
    }
}

/// `prefix`, then `body`, then `suffix`.
fn framed(prefix: &str, body: &str, suffix: &str) -> (r: String)
    ensures
        r@ == prefix@ + body@ + suffix@,
{
    let mut s = prefix.to_owned();
    append(&mut s, body);
    append(&mut s, suffix);
    s
}

impl FilterConfig {
    /// One line per pattern for display, the exclude pattern's first.
    pub fn display_patterns(&self) -> (lines: Vec<String>)
        ensures
            lines@.map_values(|l: String| l@) == pattern_lines(*self),
    {
        let mut lines: Vec<String> = Vec::new();
        if let Some(exclude) = &self.exclude_pattern {
            lines.push(framed("Exclude pattern: '", exclude.as_str(), "'"));
        }
        if let Some(inc) = &self.include_pattern {
            lines.push(framed("Include pattern: '", inc.as_str(), "'"));
        }
        proof {
            assert(lines@.map_values(|l: String| l@) =~= pattern_lines(*self));
        }
        lines
    }

    /// The patterns as `exclude='..' include='..'`, for a CSV comment.
    pub fn to_csv_comment(&self) -> (r: String)
        ensures
            r@ == csv_comment(*self),
    {
        let mut s = String::new();
        match &self.exclude_pattern {
            Some(e) => {
                append(&mut s, "exclude='");
                append(&mut s, e.as_str());
                append(&mut s, "'");
            },
            None => {},
        }
        match &self.include_pattern {
            Some(i) => {
                if self.exclude_pattern.is_some() {
                    append(&mut s, " include='");
                } else {
                    append(&mut s, "include='");
                }
                append(&mut s, i.as_str());
                append(&mut s, "'");
            },
            None => {},
        }
        proof {
            assert(s@ =~= csv_comment(*self));
        }
        s
    }
}

impl FilterError {
    /// The message for the error.
    pub fn message(&self) -> (r: String)
        ensures
            r@ == match self {
                FilterError::InvalidExclude(p) => "Invalid exclude pattern '"@ + p@ + "': must be valid regex"@,
                FilterError::InvalidInclude(p) => "Invalid include pattern '"@ + p@ + "': must be valid regex"@,
            },
    {
        match self {
            FilterError::InvalidExclude(p) => framed("Invalid exclude pattern '", p.as_str(), "': must be valid regex"),
            FilterError::InvalidInclude(p) => framed("Invalid include pattern '", p.as_str(), "': must be valid regex"),
        }
    }
}

} // verus!
