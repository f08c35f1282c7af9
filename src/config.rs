//! Settings of the formatter.

use vstd::prelude::*;

use crate::paths::{file_name_of, lossy_text_of, path_file_name, path_text};
use crate::text::chars_of;

verus! {

/// The ignore patterns as character sequences.
pub open spec fn patterns(ignore: Seq<String>) -> Seq<Seq<char>> {
    ignore.map_values(|p: String| p@)
}

pub open spec fn ends_with(s: Seq<char>, p: Seq<char>) -> bool {
    p.len() <= s.len() && s.skip(s.len() - p.len()) == p
}

/// The pattern names the path: the whole of it, a suffix of it, or its file
/// name.
pub open spec fn pattern_matches(p: Seq<char>, path: Seq<char>, name: Option<Seq<char>>) -> bool {
    path == p || ends_with(path, p) || name == Some(p)
}

/// Some pattern names the path.
pub open spec fn ignored_by(pats: Seq<Seq<char>>, path: Seq<char>, name: Option<Seq<char>>) -> bool {
    exists|i: int| 0 <= i < pats.len() && #[trigger] pattern_matches(pats[i], path, name)
}

pub open spec fn opt_view(o: Option<&str>) -> Option<Seq<char>> {
    match o {
        Some(s) => Some(s@),
        None => None,
    }
}

/// Whether `s` ends with `p`.
fn ends_with_chars(s: &Vec<char>, p: &Vec<char>) -> (r: bool)
    ensures
        r == ends_with(s@, p@),
{
    if p.len() > s.len() {
        return false;
    }
    let off = s.len() - p.len();
    let mut k: usize = 0;
    while k < p.len()
        invariant
            k <= p.len() <= s.len(),
            off == s.len() - p.len(),
            forall|j: int| 0 <= j < k ==> s@[off + j] == p@[j],
        decreases p.len() - k,
    {
        if s[off + k] != p[k] {
            assert(s@.skip(off as int)[k as int] != p@[k as int]);
            return false;
        }
        k = k + 1;
    }
    assert(s@.skip(off as int) =~= p@);
    true
}

/// Whether `s` and `p` hold the same characters.
fn same_chars(s: &Vec<char>, p: &Vec<char>) -> (r: bool)
    ensures
        r == (s@ == p@),
{
    if s.len() != p.len() {
        return false;
    }
    let mut k: usize = 0;
    while k < p.len()
        invariant
            k <= p.len() == s.len(),
            forall|j: int| 0 <= j < k ==> s@[j] == p@[j],
        decreases p.len() - k,
    {
        if s[k] != p[k] {
            return false;
        }
        k = k + 1;
    }
    assert(s@ =~= p@);
    true
}

/// Configuration for the formatter.
#[derive(Debug, Clone)]
pub struct FormatterConfig {
    /// Number of spaces for one level of indentation.
    pub indent_size: usize,
    /// Whether to put a blank line between steps.
    pub separate_steps: bool,
    /// Whether to put a blank line between jobs.
    pub separate_jobs: bool,
    /// Files to leave alone: full paths such as `.github/workflows/ci.yml`,
    /// path suffixes, or bare file names such as `ci.yml`.
    pub ignore: Vec<String>,
}

impl Default for FormatterConfig {
    fn default() -> (r: Self)
        ensures
            r.indent_size == 2,
            r.separate_steps,
            r.separate_jobs,
            r.ignore@.len() == 0,
    {
        FormatterConfig {
            indent_size: 2,
            separate_steps: true,
            separate_jobs: true,
            ignore: Vec::new(),
        }
    }
}

impl FormatterConfig {
    /// Whether a file should be left alone: some ignore pattern is its whole
    /// path, a suffix of its path, or its file name.
    pub fn should_ignore(&self, path: &std::path::Path) -> (r: bool)
        ensures
            r == ignored_by(patterns(self.ignore@), lossy_text_of(path), file_name_of(path)),
    {
        let text = path_text(path);
        let name = path_file_name(path);
        self.matches_ignore(text.as_str(), name)
    }

    /// Whether the path with the text `path` and the file name `file_name`
    /// is named by an ignore pattern.
    pub fn matches_ignore(&self, path: &str, file_name: Option<&str>) -> (r: bool)
        ensures
            r == ignored_by(patterns(self.ignore@), path@, opt_view(file_name)),
    {
        let ghost pats = patterns(self.ignore@);
        let path_chars = chars_of(path);
        let name_chars: Option<Vec<char>> = match file_name {
            Some(n) => Some(chars_of(n)),
            None => None,
        };
        let mut i: usize = 0;
        while i < self.ignore.len()
            invariant
                i <= self.ignore.len(),
                pats == patterns(self.ignore@),
                path_chars@ == path@,
                match name_chars {
                    Some(v) => opt_view(file_name) == Some(v@),
                    None => opt_view(file_name) is None,
                },
                forall|j: int| 0 <= j < i ==> !#[trigger] pattern_matches(pats[j], path@, opt_view(file_name)),
            decreases self.ignore.len() - i,
        {
            let pattern = chars_of(self.ignore[i].as_str());
            assert(pattern@ == pats[i as int]);
            let by_name = match &name_chars {
                Some(n) => same_chars(n, &pattern),
                None => false,
            };
            if same_chars(&path_chars, &pattern) || ends_with_chars(&path_chars, &pattern) || by_name {
                assert(pattern_matches(pats[i as int], path@, opt_view(file_name)));
                return true;
            }
            i = i + 1;
        }
        false
    }
}

} // verus!
