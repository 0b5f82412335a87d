//! The decisions of the command-line surface: which verb an argument names,
//! and whether a configured path looks like a JSON file. The surrounding
//! program parses `argv` and touches the file system; the rules live here.

use vstd::prelude::*;

verus! {

/// The three verbs of the command line.
#[derive(Debug, PartialEq, Eq, Structural, Clone, Copy)]
pub enum Verb {
    /// Print usage.
    Help,
    /// Store or open the configured catalog path.
    Config,
    /// Run the group named by the argument.
    Run,
}

/// A character folded for ASCII-case-insensitive comparison: an ASCII capital
/// letter counts as its small form, anything else as itself.
pub open spec fn fold_ascii(c: char) -> int {
    if 65 <= c as u32 && c as u32 <= 90 {
        c as u32 + 32
    } else {
        c as u32 as int
    }
}

/// Equality of strings up to ASCII letter case.
pub open spec fn eq_ignore_ascii(a: Seq<char>, b: Seq<char>) -> bool {
    a.len() == b.len() && forall|i: int|
        0 <= i < a.len() ==> fold_ascii(a[i]) == fold_ascii(b[i])
}

/// Which verb an argument names: `help`, `-h` and `--help` (in any letter
/// case) ask for usage, `config` (in any letter case) addresses the
/// configuration, and every other word names a group to run.
pub open spec fn spec_classify(arg: Seq<char>) -> Verb {
    if eq_ignore_ascii(arg, "help"@) || eq_ignore_ascii(arg, "-h"@) || eq_ignore_ascii(
        arg,
        "--help"@,
    ) {
        Verb::Help
    } else if eq_ignore_ascii(arg, "config"@) {
        Verb::Config
    } else {
        Verb::Run
    }
}

/// Decides `eq_ignore_ascii`.
pub fn str_eq_ignore_ascii(a: &str, b: &str) -> (r: bool)
    ensures
        r == eq_ignore_ascii(a@, b@),
{
    let a_len = a.unicode_len();
    let b_len = b.unicode_len();
    if a_len != b_len {
        return false;
    }
    let mut i: usize = 0;
    while i < a_len
        invariant
            i <= a_len,
            a_len == a@.len(),
            a_len == b@.len(),
            forall|j: int| 0 <= j < i ==> fold_ascii(a@[j]) == fold_ascii(b@[j]),
        decreases a_len - i,
    {
        let ca = a.get_char(i);
        let cb = b.get_char(i);
        let ua = ca as u32;
        let ub = cb as u32;
        let fa: u32 = if 65 <= ua && ua <= 90 {
            ua + 32
        } else {
            ua
        };
        let fb: u32 = if 65 <= ub && ub <= 90 {
            ub + 32
        } else {
            ub
        };
        if fa != fb {
            return false;
        }
        i = i + 1;
    }
    true
}

/// Classifies one command-line argument.
pub fn classify(arg: &str) -> (v: Verb)
    ensures
        v == spec_classify(arg@),
{
    if str_eq_ignore_ascii(arg, "help") || str_eq_ignore_ascii(arg, "-h") || str_eq_ignore_ascii(
        arg,
        "--help",
    ) {
        Verb::Help
    } else if str_eq_ignore_ascii(arg, "config") {
        Verb::Config
    } else {
        Verb::Run
    }
}

/// The last position of `c` in `s`, or `-1` when `c` does not occur.
pub open spec fn last_pos(s: Seq<char>, c: char) -> int
    decreases s.len(),
{
    if s.len() == 0 {
        -1
    } else if s[s.len() - 1] == c {
        s.len() - 1
    } else {
        last_pos(s.take(s.len() - 1), c)
    }
}

proof fn lemma_last_pos_found(s: Seq<char>, c: char, k: int)
    requires
        0 <= k < s.len(),
        s[k] == c,
        forall|j: int| k < j < s.len() ==> s[j] != c,
    ensures
        last_pos(s, c) == k,
    decreases s.len(),
{
    if k < s.len() - 1 {
        let t = s.take(s.len() - 1);
        assert(t[k] == c);
        lemma_last_pos_found(t, c, k);
    }
}

proof fn lemma_last_pos_none(s: Seq<char>, c: char)
    requires
        forall|j: int| 0 <= j < s.len() ==> s[j] != c,
    ensures
        last_pos(s, c) == -1,
    decreases s.len(),
{
    if s.len() > 0 {
        lemma_last_pos_none(s.take(s.len() - 1), c);
    }
}

/// The file-name part of a path: what follows the last `/` (the path model
/// is Unix-like; `/` is the separator).
pub open spec fn spec_file_name(p: Seq<char>) -> Seq<char> {
    p.skip(last_pos(p, '/') + 1)
}

/// Whether a path names a JSON file: its file name has a `.` after its first
/// character, and what follows the last `.` is `json` up to ASCII letter
/// case. A name that starts with its only `.` (a hidden file) has no
/// extension.
pub open spec fn spec_is_json_file(p: Seq<char>) -> bool {
    let name = spec_file_name(p);
    let d = last_pos(name, '.');
    d > 0 && eq_ignore_ascii(name.skip(d + 1), "json"@)
}

/// Finds the last position of `c` in `s`, as an index plus one (`0` for "not
/// found"), so that the result is a `usize`.
fn find_last(s: &str, c: char) -> (r: usize)
    ensures
        r == last_pos(s@, c) + 1,
        r <= s@.len(),
{
    let len = s.unicode_len();
    let mut i: usize = len;
    while i > 0
        invariant
            i <= len,
            len == s@.len(),
            forall|j: int| i <= j < len ==> s@[j] != c,
        decreases i,
    {
        if s.get_char(i - 1) == c {
            proof {
                lemma_last_pos_found(s@, c, i - 1);
            }
            return i;
        }
        i = i - 1;
    }
    proof {
        lemma_last_pos_none(s@, c);
    }
    0
}

/// Decides `spec_is_json_file`.
pub fn is_json_file(path: &str) -> (r: bool)
    ensures
        r == spec_is_json_file(path@),
{
    let len = path.unicode_len();
    let start = find_last(path, '/');
    let name = path.substring_char(start, len);
    proof {
        assert(name@ =~= spec_file_name(path@));
    }
    let d = find_last(name, '.');
    if d <= 1 {
        return false;
    }
    let ext = name.substring_char(d, name.unicode_len());
    proof {
        assert(ext@ =~= spec_file_name(path@).skip(last_pos(spec_file_name(path@), '.') + 1));
    }
    str_eq_ignore_ascii(ext, "json")
}

} // verus!
