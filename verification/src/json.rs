//! The catalog file format. A catalog document is a JSON object of group
//! objects, each group object mapping step names to step objects of exactly
//! two fields: `command` (a string) and `args` (an array of strings), in
//! either order. Nothing else — other field names, other value kinds, or a
//! duplicate key anywhere — is accepted; a missing field is a format error,
//! never a default. In string literals the usual JSON escapes are understood;
//! a `\u` escape must name a Unicode scalar value (surrogate pairs are not
//! accepted).
//!
//! The grammar is stated by the `parse_*` spec functions below, the loader
//! `parse_catalog` is verified to decide them exactly, and `to_json` is
//! verified to produce their canonical form, which `lemma_round_trip` proves
//! parses back to the very catalog it came from.

use vstd::prelude::*;

use crate::catalog::Catalog;
use crate::catalog::Group;
use crate::catalog::Step;
use crate::catalog::StepView;
use crate::catalog::entries_sorted;
use crate::catalog::sorted_insert;
use crate::order::lemma_lex_lt_asymmetric;

verus! {

/// A group's contents as a mathematical value.
pub type GroupEntries = Seq<(Seq<char>, StepView)>;

/// A catalog's contents as a mathematical value.
pub type CatalogEntries = Seq<(Seq<char>, GroupEntries)>;

/// JSON insignificant whitespace.
pub open spec fn is_ws_char(c: char) -> bool {
    c == ' ' || c == '\t' || c == '\n' || c == '\r'
}

/// The first position at or after `i` that does not hold whitespace.
pub open spec fn skip_ws(s: Seq<char>, i: int) -> int
    decreases s.len() - i,
        when 0 <= i <= s.len()
{
    if i < s.len() && is_ws_char(s[i]) {
        skip_ws(s, i + 1)
    } else {
        i
    }
}

pub proof fn lemma_skip_ws_bounds(s: Seq<char>, i: int)
    requires
        0 <= i <= s.len(),
    ensures
        i <= skip_ws(s, i) <= s.len(),
    decreases s.len() - i,
{
    if i < s.len() && is_ws_char(s[i]) {
        lemma_skip_ws_bounds(s, i + 1);
    }
}

/// The value of a hexadecimal digit, `-1` for any other character.
pub open spec fn hex_val(c: char) -> int {
    if 48 <= c as u32 && c as u32 <= 57 {
        c as u32 - 48
    } else if 97 <= c as u32 && c as u32 <= 102 {
        c as u32 - 87
    } else if 65 <= c as u32 && c as u32 <= 70 {
        c as u32 - 55
    } else {
        -1
    }
}

/// What a one-character escape stands for.
pub open spec fn short_unescape(c: char) -> Option<char> {
    if c == '"' {
        Some('"')
    } else if c == '\\' {
        Some('\\')
    } else if c == '/' {
        Some('/')
    } else if c == 'b' {
        Some('\u{8}')
    } else if c == 'f' {
        Some('\u{c}')
    } else if c == 'n' {
        Some('\n')
    } else if c == 'r' {
        Some('\r')
    } else if c == 't' {
        Some('\t')
    } else {
        None
    }
}

/// A code that is a Unicode scalar value, so the value of some `char`.
pub open spec fn is_scalar_code(n: int) -> bool {
    (0 <= n && n < 0xD800) || (0xE000 <= n && n < 0x110000)
}

/// The body of a string literal, from just after the opening quote up to and
/// including the closing quote: the string's characters and the position
/// after the quote.
pub open spec fn parse_str_body(s: Seq<char>, i: int) -> Option<(Seq<char>, int)>
    decreases s.len() - i,
        when 0 <= i <= s.len()
{
    if i >= s.len() {
        None
    } else if s[i] == '"' {
        Some((Seq::empty(), i + 1))
    } else if s[i] == '\\' {
        if i + 2 > s.len() {
            None
        } else if s[i + 1] == 'u' {
            if i + 6 > s.len() {
                None
            } else if hex_val(s[i + 2]) < 0 || hex_val(s[i + 3]) < 0 || hex_val(s[i + 4]) < 0
                || hex_val(s[i + 5]) < 0 {
                None
            } else {
                let code = hex_val(s[i + 2]) * 4096 + hex_val(s[i + 3]) * 256 + hex_val(s[i + 4])
                    * 16 + hex_val(s[i + 5]);
                if !is_scalar_code(code) {
                    None
                } else {
                    match parse_str_body(s, i + 6) {
                        Some(t) => Some((seq![(code as u32) as char] + t.0, t.1)),
                        None => None,
                    }
                }
            }
        } else {
            match short_unescape(s[i + 1]) {
                Some(c) => match parse_str_body(s, i + 2) {
                    Some(t) => Some((seq![c] + t.0, t.1)),
                    None => None,
                },
                None => None,
            }
        }
    } else if (s[i] as u32) < 32 {
        None
    } else {
        match parse_str_body(s, i + 1) {
            Some(t) => Some((seq![s[i]] + t.0, t.1)),
            None => None,
        }
    }
}

pub proof fn lemma_str_body_advances(s: Seq<char>, i: int)
    requires
        0 <= i <= s.len(),
    ensures
        match parse_str_body(s, i) {
            Some(t) => i < t.1 <= s.len(),
            None => true,
        },
    decreases s.len() - i,
{
    if i < s.len() && s[i] != '"' {
        if s[i] == '\\' {
            if i + 2 <= s.len() && s[i + 1] == 'u' {
                if i + 6 <= s.len() {
                    lemma_str_body_advances(s, i + 6);
                }
            } else if i + 2 <= s.len() {
                lemma_str_body_advances(s, i + 2);
            }
        } else {
            lemma_str_body_advances(s, i + 1);
        }
    }
}

/// A string literal at `i`: its characters and the position after it.
pub open spec fn parse_string(s: Seq<char>, i: int) -> Option<(Seq<char>, int)> {
    if 0 <= i && i < s.len() && s[i] == '"' {
        parse_str_body(s, i + 1)
    } else {
        None
    }
}

pub proof fn lemma_string_advances(s: Seq<char>, i: int)
    requires
        0 <= i <= s.len(),
    ensures
        match parse_string(s, i) {
            Some(t) => i + 2 <= t.1 <= s.len(),
            None => true,
        },
{
    if 0 <= i && i < s.len() && s[i] == '"' {
        lemma_str_body_advances(s, i + 1);
    }
}

/// The elements of an argument array after the first one: each preceded by a
/// comma, until the closing bracket.
pub open spec fn parse_elems_more(s: Seq<char>, i: int) -> Option<(Seq<Seq<char>>, int)>
    decreases s.len() - i,
        when 0 <= i <= s.len()
        via parse_elems_more_dec
{
    let j = skip_ws(s, i);
    if j < s.len() && s[j] == ']' {
        Some((Seq::empty(), j + 1))
    } else if j < s.len() && s[j] == ',' {
        let k = skip_ws(s, j + 1);
        match parse_string(s, k) {
            Some(t) => match parse_elems_more(s, t.1) {
                Some(u) => Some((seq![t.0] + u.0, u.1)),
                None => None,
            },
            None => None,
        }
    } else {
        None
    }
}

#[via_fn]
proof fn parse_elems_more_dec(s: Seq<char>, i: int) {
    lemma_skip_ws_bounds(s, i);
    let j = skip_ws(s, i);
    if j < s.len() && s[j] == ',' {
        lemma_skip_ws_bounds(s, j + 1);
        lemma_string_advances(s, skip_ws(s, j + 1));
    }
}

pub proof fn lemma_elems_more_advances(s: Seq<char>, i: int)
    requires
        0 <= i <= s.len(),
    ensures
        match parse_elems_more(s, i) {
            Some(u) => i < u.1 <= s.len(),
            None => true,
        },
    decreases s.len() - i,
{
    lemma_skip_ws_bounds(s, i);
    let j = skip_ws(s, i);
    if j < s.len() && s[j] == ',' {
        lemma_skip_ws_bounds(s, j + 1);
        let k = skip_ws(s, j + 1);
        lemma_string_advances(s, k);
        match parse_string(s, k) {
            Some(t) => {
                lemma_elems_more_advances(s, t.1);
            },
            None => {},
        }
    }
}

/// An argument array at `i`: its element strings and the position after it.
pub open spec fn parse_args_array(s: Seq<char>, i: int) -> Option<(Seq<Seq<char>>, int)> {
    if 0 <= i && i < s.len() && s[i] == '[' {
        let j = skip_ws(s, i + 1);
        if j < s.len() && s[j] == ']' {
            Some((Seq::empty(), j + 1))
        } else {
            match parse_string(s, j) {
                Some(t) => match parse_elems_more(s, t.1) {
                    Some(u) => Some((seq![t.0] + u.0, u.1)),
                    None => None,
                },
                None => None,
            }
        }
    } else {
        None
    }
}

pub proof fn lemma_args_array_advances(s: Seq<char>, i: int)
    requires
        0 <= i <= s.len(),
    ensures
        match parse_args_array(s, i) {
            Some(u) => i < u.1 <= s.len(),
            None => true,
        },
{
    if 0 <= i && i < s.len() && s[i] == '[' {
        lemma_skip_ws_bounds(s, i + 1);
        let j = skip_ws(s, i + 1);
        lemma_string_advances(s, j);
        match parse_string(s, j) {
            Some(t) => {
                lemma_elems_more_advances(s, t.1);
            },
            None => {},
        }
    }
}

/// An object member's key and its colon: a string, whitespace, `:`. The
/// position returned is just after the colon.
pub open spec fn parse_member_key(s: Seq<char>, i: int) -> Option<(Seq<char>, int)> {
    match parse_string(s, i) {
        Some(t) => {
            let j = skip_ws(s, t.1);
            if j < s.len() && s[j] == ':' {
                Some((t.0, j + 1))
            } else {
                None
            }
        },
        None => None,
    }
}

pub proof fn lemma_member_key_advances(s: Seq<char>, i: int)
    requires
        0 <= i <= s.len(),
    ensures
        match parse_member_key(s, i) {
            Some(t) => i < t.1 <= s.len(),
            None => true,
        },
{
    lemma_string_advances(s, i);
    match parse_string(s, i) {
        Some(t) => {
            lemma_skip_ws_bounds(s, t.1);
        },
        None => {},
    }
}

/// The tail of a step object whose `command` field came first: from just
/// after the colon of `command`.
pub open spec fn parse_step_command_first(s: Seq<char>, i: int) -> Option<(StepView, int)> {
    let v1 = skip_ws(s, i);
    match parse_string(s, v1) {
        Some(cmd) => {
            let c = skip_ws(s, cmd.1);
            if c < s.len() && s[c] == ',' {
                let j2 = skip_ws(s, c + 1);
                match parse_member_key(s, j2) {
                    Some(k2) => {
                        if k2.0 == "args"@ {
                            let v2 = skip_ws(s, k2.1);
                            match parse_args_array(s, v2) {
                                Some(args) => {
                                    let e = skip_ws(s, args.1);
                                    if e < s.len() && s[e] == '}' {
                                        Some((StepView { command: cmd.0, args: args.0 }, e + 1))
                                    } else {
                                        None
                                    }
                                },
                                None => None,
                            }
                        } else {
                            None
                        }
                    },
                    None => None,
                }
            } else {
                None
            }
        },
        None => None,
    }
}

/// The tail of a step object whose `args` field came first: from just after
/// the colon of `args`.
pub open spec fn parse_step_args_first(s: Seq<char>, i: int) -> Option<(StepView, int)> {
    let v1 = skip_ws(s, i);
    match parse_args_array(s, v1) {
        Some(args) => {
            let c = skip_ws(s, args.1);
            if c < s.len() && s[c] == ',' {
                let j2 = skip_ws(s, c + 1);
                match parse_member_key(s, j2) {
                    Some(k2) => {
                        if k2.0 == "command"@ {
                            let v2 = skip_ws(s, k2.1);
                            match parse_string(s, v2) {
                                Some(cmd) => {
                                    let e = skip_ws(s, cmd.1);
                                    if e < s.len() && s[e] == '}' {
                                        Some((StepView { command: cmd.0, args: args.0 }, e + 1))
                                    } else {
                                        None
                                    }
                                },
                                None => None,
                            }
                        } else {
                            None
                        }
                    },
                    None => None,
                }
            } else {
                None
            }
        },
        None => None,
    }
}

/// A step object at `i`: exactly a `command` field and an `args` field, in
/// either order.
pub open spec fn parse_step(s: Seq<char>, i: int) -> Option<(StepView, int)> {
    if 0 <= i && i < s.len() && s[i] == '{' {
        let j = skip_ws(s, i + 1);
        match parse_member_key(s, j) {
            Some(k1) => {
                if k1.0 == "command"@ {
                    parse_step_command_first(s, k1.1)
                } else if k1.0 == "args"@ {
                    parse_step_args_first(s, k1.1)
                } else {
                    None
                }
            },
            None => None,
        }
    } else {
        None
    }
}

pub proof fn lemma_step_command_first_advances(s: Seq<char>, i: int)
    requires
        0 <= i <= s.len(),
    ensures
        match parse_step_command_first(s, i) {
            Some(t) => i < t.1 <= s.len(),
            None => true,
        },
{
    lemma_skip_ws_bounds(s, i);
    let v1 = skip_ws(s, i);
    lemma_string_advances(s, v1);
    match parse_string(s, v1) {
        Some(cmd) => {
            lemma_skip_ws_bounds(s, cmd.1);
            let c = skip_ws(s, cmd.1);
            if c < s.len() && s[c] == ',' {
                lemma_skip_ws_bounds(s, c + 1);
                let j2 = skip_ws(s, c + 1);
                lemma_member_key_advances(s, j2);
                match parse_member_key(s, j2) {
                    Some(k2) => {
                        lemma_skip_ws_bounds(s, k2.1);
                        let v2 = skip_ws(s, k2.1);
                        lemma_args_array_advances(s, v2);
                        match parse_args_array(s, v2) {
                            Some(args) => {
                                lemma_skip_ws_bounds(s, args.1);
                            },
                            None => {},
                        }
                    },
                    None => {},
                }
            }
        },
        None => {},
    }
}

pub proof fn lemma_step_args_first_advances(s: Seq<char>, i: int)
    requires
        0 <= i <= s.len(),
    ensures
        match parse_step_args_first(s, i) {
            Some(t) => i < t.1 <= s.len(),
            None => true,
        },
{
    lemma_skip_ws_bounds(s, i);
    let v1 = skip_ws(s, i);
    lemma_args_array_advances(s, v1);
    match parse_args_array(s, v1) {
        Some(args) => {
            lemma_skip_ws_bounds(s, args.1);
            let c = skip_ws(s, args.1);
            if c < s.len() && s[c] == ',' {
                lemma_skip_ws_bounds(s, c + 1);
                let j2 = skip_ws(s, c + 1);
                lemma_member_key_advances(s, j2);
                match parse_member_key(s, j2) {
                    Some(k2) => {
                        lemma_skip_ws_bounds(s, k2.1);
                        let v2 = skip_ws(s, k2.1);
                        lemma_string_advances(s, v2);
                        match parse_string(s, v2) {
                            Some(cmd) => {
                                lemma_skip_ws_bounds(s, cmd.1);
                            },
                            None => {},
                        }
                    },
                    None => {},
                }
            }
        },
        None => {},
    }
}

pub proof fn lemma_step_advances(s: Seq<char>, i: int)
    requires
        0 <= i <= s.len(),
    ensures
        match parse_step(s, i) {
            Some(t) => i < t.1 <= s.len(),
            None => true,
        },
{
    if 0 <= i && i < s.len() && s[i] == '{' {
        lemma_skip_ws_bounds(s, i + 1);
        let j = skip_ws(s, i + 1);
        lemma_member_key_advances(s, j);
        match parse_member_key(s, j) {
            Some(k1) => {
                lemma_step_command_first_advances(s, k1.1);
                lemma_step_args_first_advances(s, k1.1);
            },
            None => {},
        }
    }
}

/// The members of a group object after the first one: each preceded by a
/// comma, until the closing brace. The entries come back sorted by name;
/// a duplicate name is a format error.
pub open spec fn parse_group_more(s: Seq<char>, i: int) -> Option<(GroupEntries, int)>
    decreases s.len() - i,
        when 0 <= i <= s.len()
        via parse_group_more_dec
{
    let j = skip_ws(s, i);
    if j < s.len() && s[j] == '}' {
        Some((Seq::empty(), j + 1))
    } else if j < s.len() && s[j] == ',' {
        let k = skip_ws(s, j + 1);
        match parse_member_key(s, k) {
            Some(key) => {
                let v = skip_ws(s, key.1);
                match parse_step(s, v) {
                    Some(st) => match parse_group_more(s, st.1) {
                        Some(rest) => match sorted_insert(rest.0, key.0, st.0) {
                            Some(g) => Some((g, rest.1)),
                            None => None,
                        },
                        None => None,
                    },
                    None => None,
                }
            },
            None => None,
        }
    } else {
        None
    }
}

#[via_fn]
proof fn parse_group_more_dec(s: Seq<char>, i: int) {
    lemma_skip_ws_bounds(s, i);
    let j = skip_ws(s, i);
    if j < s.len() && s[j] == ',' {
        lemma_skip_ws_bounds(s, j + 1);
        let k = skip_ws(s, j + 1);
        lemma_member_key_advances(s, k);
        match parse_member_key(s, k) {
            Some(key) => {
                lemma_skip_ws_bounds(s, key.1);
                lemma_step_advances(s, skip_ws(s, key.1));
            },
            None => {},
        }
    }
}

pub proof fn lemma_group_more_advances(s: Seq<char>, i: int)
    requires
        0 <= i <= s.len(),
    ensures
        match parse_group_more(s, i) {
            Some(u) => i < u.1 <= s.len(),
            None => true,
        },
    decreases s.len() - i,
{
    lemma_skip_ws_bounds(s, i);
    let j = skip_ws(s, i);
    if j < s.len() && s[j] == ',' {
        lemma_skip_ws_bounds(s, j + 1);
        let k = skip_ws(s, j + 1);
        lemma_member_key_advances(s, k);
        match parse_member_key(s, k) {
            Some(key) => {
                lemma_skip_ws_bounds(s, key.1);
                let v = skip_ws(s, key.1);
                lemma_step_advances(s, v);
                match parse_step(s, v) {
                    Some(st) => {
                        lemma_group_more_advances(s, st.1);
                    },
                    None => {},
                }
            },
            None => {},
        }
    }
}

/// A group object at `i`: step names mapped to step objects. The entries
/// come back sorted by name; a duplicate name is a format error.
pub open spec fn parse_group(s: Seq<char>, i: int) -> Option<(GroupEntries, int)> {
    if 0 <= i && i < s.len() && s[i] == '{' {
        let j = skip_ws(s, i + 1);
        if j < s.len() && s[j] == '}' {
            Some((Seq::empty(), j + 1))
        } else {
            match parse_member_key(s, j) {
                Some(key) => {
                    let v = skip_ws(s, key.1);
                    match parse_step(s, v) {
                        Some(st) => match parse_group_more(s, st.1) {
                            Some(rest) => match sorted_insert(rest.0, key.0, st.0) {
                                Some(g) => Some((g, rest.1)),
                                None => None,
                            },
                            None => None,
                        },
                        None => None,
                    }
                },
                None => None,
            }
        }
    } else {
        None
    }
}

pub proof fn lemma_group_advances(s: Seq<char>, i: int)
    requires
        0 <= i <= s.len(),
    ensures
        match parse_group(s, i) {
            Some(u) => i < u.1 <= s.len(),
            None => true,
        },
{
    if 0 <= i && i < s.len() && s[i] == '{' {
        lemma_skip_ws_bounds(s, i + 1);
        let j = skip_ws(s, i + 1);
        lemma_member_key_advances(s, j);
        match parse_member_key(s, j) {
            Some(key) => {
                lemma_skip_ws_bounds(s, key.1);
                let v = skip_ws(s, key.1);
                lemma_step_advances(s, v);
                match parse_step(s, v) {
                    Some(st) => {
                        lemma_group_more_advances(s, st.1);
                    },
                    None => {},
                }
            },
            None => {},
        }
    }
}

/// The members of the catalog object after the first one.
pub open spec fn parse_catalog_more(s: Seq<char>, i: int) -> Option<(CatalogEntries, int)>
    decreases s.len() - i,
        when 0 <= i <= s.len()
        via parse_catalog_more_dec
{
    let j = skip_ws(s, i);
    if j < s.len() && s[j] == '}' {
        Some((Seq::empty(), j + 1))
    } else if j < s.len() && s[j] == ',' {
        let k = skip_ws(s, j + 1);
        match parse_member_key(s, k) {
            Some(key) => {
                let v = skip_ws(s, key.1);
                match parse_group(s, v) {
                    Some(g) => match parse_catalog_more(s, g.1) {
                        Some(rest) => match sorted_insert(rest.0, key.0, g.0) {
                            Some(c) => Some((c, rest.1)),
                            None => None,
                        },
                        None => None,
                    },
                    None => None,
                }
            },
            None => None,
        }
    } else {
        None
    }
}

#[via_fn]
proof fn parse_catalog_more_dec(s: Seq<char>, i: int) {
    lemma_skip_ws_bounds(s, i);
    let j = skip_ws(s, i);
    if j < s.len() && s[j] == ',' {
        lemma_skip_ws_bounds(s, j + 1);
        let k = skip_ws(s, j + 1);
        lemma_member_key_advances(s, k);
        match parse_member_key(s, k) {
            Some(key) => {
                lemma_skip_ws_bounds(s, key.1);
                lemma_group_advances(s, skip_ws(s, key.1));
            },
            None => {},
        }
    }
}

pub proof fn lemma_catalog_more_advances(s: Seq<char>, i: int)
    requires
        0 <= i <= s.len(),
    ensures
        match parse_catalog_more(s, i) {
            Some(u) => i < u.1 <= s.len(),
            None => true,
        },
    decreases s.len() - i,
{
    lemma_skip_ws_bounds(s, i);
    let j = skip_ws(s, i);
    if j < s.len() && s[j] == ',' {
        lemma_skip_ws_bounds(s, j + 1);
        let k = skip_ws(s, j + 1);
        lemma_member_key_advances(s, k);
        match parse_member_key(s, k) {
            Some(key) => {
                lemma_skip_ws_bounds(s, key.1);
                let v = skip_ws(s, key.1);
                lemma_group_advances(s, v);
                match parse_group(s, v) {
                    Some(g) => {
                        lemma_catalog_more_advances(s, g.1);
                    },
                    None => {},
                }
            },
            None => {},
        }
    }
}

/// The catalog object at `i`: group names mapped to group objects.
pub open spec fn parse_catalog_obj(s: Seq<char>, i: int) -> Option<(CatalogEntries, int)> {
    if 0 <= i && i < s.len() && s[i] == '{' {
        let j = skip_ws(s, i + 1);
        if j < s.len() && s[j] == '}' {
            Some((Seq::empty(), j + 1))
        } else {
            match parse_member_key(s, j) {
                Some(key) => {
                    let v = skip_ws(s, key.1);
                    match parse_group(s, v) {
                        Some(g) => match parse_catalog_more(s, g.1) {
                            Some(rest) => match sorted_insert(rest.0, key.0, g.0) {
                                Some(c) => Some((c, rest.1)),
                                None => None,
                            },
                            None => None,
                        },
                        None => None,
                    }
                },
                None => None,
            }
        }
    } else {
        None
    }
}

/// A whole catalog document: the catalog object with nothing but whitespace
/// around it.
pub open spec fn spec_parse_catalog(s: Seq<char>) -> Option<CatalogEntries> {
    let i = skip_ws(s, 0);
    match parse_catalog_obj(s, i) {
        Some(c) => if skip_ws(s, c.1) == s.len() {
            Some(c.0)
        } else {
            None
        },
        None => None,
    }
}

/// Loading a catalog can fail only one way: the document does not match the
/// format above.
#[derive(Debug, PartialEq, Eq, Structural, Clone, Copy)]
pub enum ParseError {
    InvalidFormat,
}

/// Relies on char::from_u32: `Some` exactly for Unicode scalar values, and
/// the returned character has the given value.
#[verifier::external_body]
fn char_from_u32(n: u32) -> (r: Option<char>)
    ensures
        match r {
            Some(c) => c as u32 == n && is_scalar_code(n as int),
            None => !is_scalar_code(n as int),
        },
{
    char::from_u32(n)
}

/// Relies on String's FromIterator over characters: collecting yields exactly
/// the given characters.
#[verifier::external_body]
fn string_from_chars(v: &Vec<char>) -> (r: String)
    ensures
        r@ == v@,
{
    v.iter().collect()
}

/// The characters of a string slice.
fn chars_of(s: &str) -> (v: Vec<char>)
    ensures
        v@ == s@,
{
    let len = s.unicode_len();
    let mut v: Vec<char> = Vec::new();
    let mut i: usize = 0;
    while i < len
        invariant
            i <= len,
            len == s@.len(),
            v@ =~= s@.take(i as int),
        decreases len - i,
    {
        v.push(s.get_char(i));
        i = i + 1;
    }
    proof {
        assert(v@ =~= s@);
    }
    v
}

fn skip_ws_x(v: &Vec<char>, start: usize) -> (j: usize)
    requires
        start <= v@.len(),
    ensures
        j as int == skip_ws(v@, start as int),
        start <= j <= v@.len(),
{
    let mut i: usize = start;
    loop
        invariant
            start <= i <= v@.len(),
            skip_ws(v@, start as int) == skip_ws(v@, i as int),
        decreases v@.len() - i,
    {
        if i >= v.len() {
            return i;
        }
        let c = v[i];
        if !(c == ' ' || c == '\t' || c == '\n' || c == '\r') {
            return i;
        }
        i = i + 1;
    }
}

fn hex_of(c: char) -> (h: i32)
    ensures
        h as int == hex_val(c),
{
    let u = c as u32;
    if 48 <= u && u <= 57 {
        (u - 48) as i32
    } else if 97 <= u && u <= 102 {
        (u - 87) as i32
    } else if 65 <= u && u <= 70 {
        (u - 55) as i32
    } else {
        -1
    }
}

fn short_unesc(c: char) -> (r: Option<char>)
    ensures
        r == short_unescape(c),
{
    if c == '"' {
        Some('"')
    } else if c == '\\' {
        Some('\\')
    } else if c == '/' {
        Some('/')
    } else if c == 'b' {
        Some('\u{8}')
    } else if c == 'f' {
        Some('\u{c}')
    } else if c == 'n' {
        Some('\n')
    } else if c == 'r' {
        Some('\r')
    } else if c == 't' {
        Some('\t')
    } else {
        None
    }
}

/// The characters already read, put back in front of what the rest of the
/// string literal parses to.
pub open spec fn prepend_chars(a: Seq<char>, r: Option<(Seq<char>, int)>) -> Option<
    (Seq<char>, int),
> {
    match r {
        Some(t) => Some((a + t.0, t.1)),
        None => None,
    }
}

proof fn lemma_prepend_shift(a: Seq<char>, c: char, r: Option<(Seq<char>, int)>)
    ensures
        prepend_chars(a, prepend_chars(seq![c], r)) == prepend_chars(a.push(c), r),
{
    match r {
        Some(t) => {
            assert(a + (seq![c] + t.0) =~= a.push(c) + t.0);
        },
        None => {},
    }
}

fn p_str_body(v: &Vec<char>, start: usize) -> (r: Option<(String, usize)>)
    requires
        start <= v@.len(),
    ensures
        match r {
            Some(t) => parse_str_body(v@, start as int) == Some((t.0@, t.1 as int)) && t.1
                <= v@.len(),
            None => parse_str_body(v@, start as int) is None,
        },
{
    let mut acc: Vec<char> = Vec::new();
    let mut i: usize = start;
    proof {
        assert(acc@ + Seq::<char>::empty() =~= acc@);
    }
    loop
        invariant
            start <= i <= v@.len(),
            parse_str_body(v@, start as int) == prepend_chars(
                acc@,
                parse_str_body(v@, i as int),
            ),
        decreases v@.len() - i,
    {
        if i >= v.len() {
            return None;
        }
        let c = v[i];
        if c == '"' {
            let s = string_from_chars(&acc);
            proof {
                assert(acc@ + Seq::<char>::empty() =~= acc@);
            }
            return Some((s, i + 1));
        }
        if c == '\\' {
            if v.len() - i < 2 {
                return None;
            }
            let e = v[i + 1];
            if e == 'u' {
                if v.len() - i < 6 {
                    return None;
                }
                let h2 = hex_of(v[i + 2]);
                let h3 = hex_of(v[i + 3]);
                let h4 = hex_of(v[i + 4]);
                let h5 = hex_of(v[i + 5]);
                if h2 < 0 || h3 < 0 || h4 < 0 || h5 < 0 {
                    return None;
                }
                let code: i32 = h2 * 4096 + h3 * 256 + h4 * 16 + h5;
                if !(code < 0xD800 || (0xE000 <= code && code < 0x110000)) {
                    return None;
                }
                match char_from_u32(code as u32) {
                    Some(c2) => {
                        proof {
                            vstd::utf8::char_u32_cast(c2, code as u32);
                            assert(parse_str_body(v@, i as int) == prepend_chars(
                                seq![c2],
                                parse_str_body(v@, i + 6),
                            ));
                            lemma_prepend_shift(acc@, c2, parse_str_body(v@, i + 6));
                        }
                        acc.push(c2);
                        i = i + 6;
                    },
                    None => {
                        proof {
                            assert(false);
                        }
                        return None;
                    },
                }
            } else {
                match short_unesc(e) {
                    Some(c2) => {
                        proof {
                            assert(parse_str_body(v@, i as int) == prepend_chars(
                                seq![c2],
                                parse_str_body(v@, i + 2),
                            ));
                            lemma_prepend_shift(acc@, c2, parse_str_body(v@, i + 2));
                        }
                        acc.push(c2);
                        i = i + 2;
                    },
                    None => {
                        return None;
                    },
                }
            }
        } else if (c as u32) < 32 {
            return None;
        } else {
            proof {
                assert(parse_str_body(v@, i as int) == prepend_chars(
                    seq![c],
                    parse_str_body(v@, i + 1),
                ));
                lemma_prepend_shift(acc@, c, parse_str_body(v@, i + 1));
            }
            acc.push(c);
            i = i + 1;
        }
    }
}

fn p_string(v: &Vec<char>, i: usize) -> (r: Option<(String, usize)>)
    requires
        i <= v@.len(),
    ensures
        match r {
            Some(t) => parse_string(v@, i as int) == Some((t.0@, t.1 as int)) && t.1 <= v@.len(),
            None => parse_string(v@, i as int) is None,
        },
{
    if i < v.len() && v[i] == '"' {
        p_str_body(v, i + 1)
    } else {
        None
    }
}

fn p_elems_more(v: &Vec<char>, i: usize) -> (r: Option<(Vec<String>, usize)>)
    requires
        i <= v@.len(),
    ensures
        match r {
            Some(t) => parse_elems_more(v@, i as int) == Some((t.0.deep_view(), t.1 as int))
                && t.1 <= v@.len(),
            None => parse_elems_more(v@, i as int) is None,
        },
    decreases v@.len() - i,
{
    let j = skip_ws_x(v, i);
    if j < v.len() && v[j] == ']' {
        let out: Vec<String> = Vec::new();
        proof {
            assert(out.deep_view() =~= Seq::<Seq<char>>::empty());
        }
        return Some((out, j + 1));
    }
    if j < v.len() && v[j] == ',' {
        let k = skip_ws_x(v, j + 1);
        match p_string(v, k) {
            Some(t) => {
                proof {
                    lemma_string_advances(v@, k as int);
                }
                match p_elems_more(v, t.1) {
                    Some(u) => {
                        let mut out = u.0;
                        let ghost rest = out.deep_view();
                        out.insert(0, t.0);
                        proof {
                            assert forall|x: int| 0 <= x < out.deep_view().len() implies
                                out.deep_view()[x] == (seq![t.0@] + rest)[x] by {
                                assert(out.deep_view()[x] == out@[x]@);
                            }
                            assert(out.deep_view() =~= seq![t.0@] + rest);
                        }
                        Some((out, u.1))
                    },
                    None => None,
                }
            },
            None => None,
        }
    } else {
        None
    }
}

fn p_args_array(v: &Vec<char>, i: usize) -> (r: Option<(Vec<String>, usize)>)
    requires
        i <= v@.len(),
    ensures
        match r {
            Some(t) => parse_args_array(v@, i as int) == Some((t.0.deep_view(), t.1 as int))
                && t.1 <= v@.len(),
            None => parse_args_array(v@, i as int) is None,
        },
{
    if i < v.len() && v[i] == '[' {
        let j = skip_ws_x(v, i + 1);
        if j < v.len() && v[j] == ']' {
            let out: Vec<String> = Vec::new();
            proof {
                assert(out.deep_view() =~= Seq::<Seq<char>>::empty());
            }
            return Some((out, j + 1));
        }
        match p_string(v, j) {
            Some(t) => {
                proof {
                    lemma_string_advances(v@, j as int);
                }
                match p_elems_more(v, t.1) {
                    Some(u) => {
                        let mut out = u.0;
                        let ghost rest = out.deep_view();
                        out.insert(0, t.0);
                        proof {
                            assert forall|x: int| 0 <= x < out.deep_view().len() implies
                                out.deep_view()[x] == (seq![t.0@] + rest)[x] by {
                                assert(out.deep_view()[x] == out@[x]@);
                            }
                            assert(out.deep_view() =~= seq![t.0@] + rest);
                        }
                        Some((out, u.1))
                    },
                    None => None,
                }
            },
            None => None,
        }
    } else {
        None
    }
}

fn p_member_key(v: &Vec<char>, i: usize) -> (r: Option<(String, usize)>)
    requires
        i <= v@.len(),
    ensures
        match r {
            Some(t) => parse_member_key(v@, i as int) == Some((t.0@, t.1 as int)) && t.1
                <= v@.len(),
            None => parse_member_key(v@, i as int) is None,
        },
{
    match p_string(v, i) {
        Some(t) => {
            let j = skip_ws_x(v, t.1);
            if j < v.len() && v[j] == ':' {
                Some((t.0, j + 1))
            } else {
                None
            }
        },
        None => None,
    }
}

fn p_step_command_first(v: &Vec<char>, i: usize) -> (r: Option<(Step, usize)>)
    requires
        i <= v@.len(),
    ensures
        match r {
            Some(t) => parse_step_command_first(v@, i as int) == Some((t.0@, t.1 as int)) && t.1
                <= v@.len(),
            None => parse_step_command_first(v@, i as int) is None,
        },
{
    let v1 = skip_ws_x(v, i);
    match p_string(v, v1) {
        Some(cmd) => {
            let c = skip_ws_x(v, cmd.1);
            if c < v.len() && v[c] == ',' {
                let j2 = skip_ws_x(v, c + 1);
                match p_member_key(v, j2) {
                    Some(k2) => {
                        if crate::order::str_eq(k2.0.as_str(), "args") {
                            let v2 = skip_ws_x(v, k2.1);
                            match p_args_array(v, v2) {
                                Some(args) => {
                                    let e = skip_ws_x(v, args.1);
                                    if e < v.len() && v[e] == '}' {
                                        Some((Step { command: cmd.0, args: args.0 }, e + 1))
                                    } else {
                                        None
                                    }
                                },
                                None => None,
                            }
                        } else {
                            None
                        }
                    },
                    None => None,
                }
            } else {
                None
            }
        },
        None => None,
    }
}

fn p_step_args_first(v: &Vec<char>, i: usize) -> (r: Option<(Step, usize)>)
    requires
        i <= v@.len(),
    ensures
        match r {
            Some(t) => parse_step_args_first(v@, i as int) == Some((t.0@, t.1 as int)) && t.1
                <= v@.len(),
            None => parse_step_args_first(v@, i as int) is None,
        },
{
    let v1 = skip_ws_x(v, i);
    match p_args_array(v, v1) {
        Some(args) => {
            let c = skip_ws_x(v, args.1);
            if c < v.len() && v[c] == ',' {
                let j2 = skip_ws_x(v, c + 1);
                match p_member_key(v, j2) {
                    Some(k2) => {
                        if crate::order::str_eq(k2.0.as_str(), "command") {
                            let v2 = skip_ws_x(v, k2.1);
                            match p_string(v, v2) {
                                Some(cmd) => {
                                    let e = skip_ws_x(v, cmd.1);
                                    if e < v.len() && v[e] == '}' {
                                        Some((Step { command: cmd.0, args: args.0 }, e + 1))
                                    } else {
                                        None
                                    }
                                },
                                None => None,
                            }
                        } else {
                            None
                        }
                    },
                    None => None,
                }
            } else {
                None
            }
        },
        None => None,
    }
}

fn p_step(v: &Vec<char>, i: usize) -> (r: Option<(Step, usize)>)
    requires
        i <= v@.len(),
    ensures
        match r {
            Some(t) => parse_step(v@, i as int) == Some((t.0@, t.1 as int)) && t.1 <= v@.len(),
            None => parse_step(v@, i as int) is None,
        },
{
    if i < v.len() && v[i] == '{' {
        let j = skip_ws_x(v, i + 1);
        match p_member_key(v, j) {
            Some(k1) => {
                proof {
                    lemma_member_key_advances(v@, j as int);
                }
                if crate::order::str_eq(k1.0.as_str(), "command") {
                    p_step_command_first(v, k1.1)
                } else if crate::order::str_eq(k1.0.as_str(), "args") {
                    p_step_args_first(v, k1.1)
                } else {
                    None
                }
            },
            None => None,
        }
    } else {
        None
    }
}

fn p_group_more(v: &Vec<char>, i: usize) -> (r: Option<(Group, usize)>)
    requires
        i <= v@.len(),
    ensures
        match r {
            Some(t) => parse_group_more(v@, i as int) == Some((t.0@, t.1 as int)) && t.0.wf()
                && t.1 <= v@.len(),
            None => parse_group_more(v@, i as int) is None,
        },
    decreases v@.len() - i,
{
    let j = skip_ws_x(v, i);
    if j < v.len() && v[j] == '}' {
        let g = Group::new();
        return Some((g, j + 1));
    }
    if j < v.len() && v[j] == ',' {
        let k = skip_ws_x(v, j + 1);
        match p_member_key(v, k) {
            Some(key) => {
                proof {
                    lemma_member_key_advances(v@, k as int);
                }
                let p = skip_ws_x(v, key.1);
                match p_step(v, p) {
                    Some(st) => {
                        proof {
                            lemma_step_advances(v@, p as int);
                        }
                        match p_group_more(v, st.1) {
                            Some(rest) => {
                                let mut g = rest.0;
                                let ok = g.insert(key.0, st.0);
                                if ok {
                                    Some((g, rest.1))
                                } else {
                                    None
                                }
                            },
                            None => None,
                        }
                    },
                    None => None,
                }
            },
            None => None,
        }
    } else {
        None
    }
}

fn p_group(v: &Vec<char>, i: usize) -> (r: Option<(Group, usize)>)
    requires
        i <= v@.len(),
    ensures
        match r {
            Some(t) => parse_group(v@, i as int) == Some((t.0@, t.1 as int)) && t.0.wf() && t.1
                <= v@.len(),
            None => parse_group(v@, i as int) is None,
        },
{
    if i < v.len() && v[i] == '{' {
        let j = skip_ws_x(v, i + 1);
        if j < v.len() && v[j] == '}' {
            let g = Group::new();
            return Some((g, j + 1));
        }
        match p_member_key(v, j) {
            Some(key) => {
                proof {
                    lemma_member_key_advances(v@, j as int);
                }
                let p = skip_ws_x(v, key.1);
                match p_step(v, p) {
                    Some(st) => {
                        proof {
                            lemma_step_advances(v@, p as int);
                        }
                        match p_group_more(v, st.1) {
                            Some(rest) => {
                                let mut g = rest.0;
                                let ok = g.insert(key.0, st.0);
                                if ok {
                                    Some((g, rest.1))
                                } else {
                                    None
                                }
                            },
                            None => None,
                        }
                    },
                    None => None,
                }
            },
            None => None,
        }
    } else {
        None
    }
}

fn p_catalog_more(v: &Vec<char>, i: usize) -> (r: Option<(Catalog, usize)>)
    requires
        i <= v@.len(),
    ensures
        match r {
            Some(t) => parse_catalog_more(v@, i as int) == Some((t.0@, t.1 as int)) && t.0.wf()
                && t.1 <= v@.len(),
            None => parse_catalog_more(v@, i as int) is None,
        },
    decreases v@.len() - i,
{
    let j = skip_ws_x(v, i);
    if j < v.len() && v[j] == '}' {
        let c = Catalog::new();
        return Some((c, j + 1));
    }
    if j < v.len() && v[j] == ',' {
        let k = skip_ws_x(v, j + 1);
        match p_member_key(v, k) {
            Some(key) => {
                proof {
                    lemma_member_key_advances(v@, k as int);
                }
                let p = skip_ws_x(v, key.1);
                match p_group(v, p) {
                    Some(g) => {
                        proof {
                            lemma_group_advances(v@, p as int);
                        }
                        match p_catalog_more(v, g.1) {
                            Some(rest) => {
                                let mut c = rest.0;
                                let ok = c.insert(key.0, g.0);
                                if ok {
                                    Some((c, rest.1))
                                } else {
                                    None
                                }
                            },
                            None => None,
                        }
                    },
                    None => None,
                }
            },
            None => None,
        }
    } else {
        None
    }
}

fn p_catalog_obj(v: &Vec<char>, i: usize) -> (r: Option<(Catalog, usize)>)
    requires
        i <= v@.len(),
    ensures
        match r {
            Some(t) => parse_catalog_obj(v@, i as int) == Some((t.0@, t.1 as int)) && t.0.wf()
                && t.1 <= v@.len(),
            None => parse_catalog_obj(v@, i as int) is None,
        },
{
    if i < v.len() && v[i] == '{' {
        let j = skip_ws_x(v, i + 1);
        if j < v.len() && v[j] == '}' {
            let c = Catalog::new();
            return Some((c, j + 1));
        }
        match p_member_key(v, j) {
            Some(key) => {
                proof {
                    lemma_member_key_advances(v@, j as int);
                }
                let p = skip_ws_x(v, key.1);
                match p_group(v, p) {
                    Some(g) => {
                        proof {
                            lemma_group_advances(v@, p as int);
                        }
                        match p_catalog_more(v, g.1) {
                            Some(rest) => {
                                let mut c = rest.0;
                                let ok = c.insert(key.0, g.0);
                                if ok {
                                    Some((c, rest.1))
                                } else {
                                    None
                                }
                            },
                            None => None,
                        }
                    },
                    None => None,
                }
            },
            None => None,
        }
    } else {
        None
    }
}

/// Loads a catalog from the text of a catalog document. Returns the catalog
/// exactly when the text matches the format this module states; any other
/// text — including valid JSON of another shape, a step object with a missing
/// or wrong-typed field, or a duplicate key — is a format error.
pub fn parse_catalog(text: &str) -> (r: Result<Catalog, ParseError>)
    ensures
        match r {
            Ok(c) => c.wf() && spec_parse_catalog(text@) == Some(c@),
            Err(e) => spec_parse_catalog(text@) is None && e == ParseError::InvalidFormat,
        },
{
    let v = chars_of(text);
    let i = skip_ws_x(&v, 0);
    match p_catalog_obj(&v, i) {
        Some(t) => {
            let e = skip_ws_x(&v, t.1);
            if e == v.len() {
                Ok(t.0)
            } else {
                Err(ParseError::InvalidFormat)
            }
        },
        None => Err(ParseError::InvalidFormat),
    }
}

/// The hexadecimal digit (small letters) for a value below 16.
pub open spec fn hex_digit(d: int) -> char {
    if d == 0 { '0' } else if d == 1 { '1' } else if d == 2 { '2' } else if d == 3 { '3' }
    else if d == 4 { '4' } else if d == 5 { '5' } else if d == 6 { '6' } else if d == 7 { '7' }
    else if d == 8 { '8' } else if d == 9 { '9' } else if d == 10 { 'a' } else if d == 11 { 'b' }
    else if d == 12 { 'c' } else if d == 13 { 'd' } else if d == 14 { 'e' } else { 'f' }
}

/// How one character is written inside a string literal: the named escapes
/// for the quote, the backslash and the common whitespace controls, a `\u`
/// escape for any other control character, the character itself otherwise.
pub open spec fn esc_char(c: char) -> Seq<char> {
    if c == '"' {
        seq!['\\', '"']
    } else if c == '\\' {
        seq!['\\', '\\']
    } else if c == '\n' {
        seq!['\\', 'n']
    } else if c == '\r' {
        seq!['\\', 'r']
    } else if c == '\t' {
        seq!['\\', 't']
    } else if (c as u32) < 32 {
        seq!['\\', 'u', '0', '0', hex_digit(c as u32 as int / 16), hex_digit(c as u32 as int % 16)]
    } else {
        seq![c]
    }
}

/// The characters of `v` from `k` on, written for a string literal.
pub open spec fn esc_from(v: Seq<char>, k: int) -> Seq<char>
    decreases v.len() - k,
        when 0 <= k <= v.len()
{
    if k >= v.len() {
        Seq::empty()
    } else {
        esc_char(v[k]) + esc_from(v, k + 1)
    }
}

/// A string written as a JSON string literal.
pub open spec fn ser_string(v: Seq<char>) -> Seq<char> {
    seq!['"'] + esc_from(v, 0) + seq!['"']
}

pub open spec fn ser_args_from(args: Seq<Seq<char>>, k: int) -> Seq<char>
    decreases args.len() - k,
        when 0 <= k <= args.len()
{
    if k >= args.len() {
        Seq::empty()
    } else if k == 0 {
        ser_string(args[0]) + ser_args_from(args, 1)
    } else {
        seq![','] + ser_string(args[k]) + ser_args_from(args, k + 1)
    }
}

/// An argument list written as a JSON array of string literals.
pub open spec fn ser_args(args: Seq<Seq<char>>) -> Seq<char> {
    seq!['['] + ser_args_from(args, 0) + seq![']']
}

/// A step written as a step object, `command` first.
pub open spec fn ser_step(st: StepView) -> Seq<char> {
    seq!['{'] + ser_string("command"@) + seq![':'] + ser_string(st.command) + seq![',']
        + ser_string("args"@) + seq![':'] + ser_args(st.args) + seq!['}']
}

pub open spec fn ser_group_from(es: GroupEntries, k: int) -> Seq<char>
    decreases es.len() - k,
        when 0 <= k <= es.len()
{
    if k >= es.len() {
        Seq::empty()
    } else if k == 0 {
        ser_string(es[0].0) + seq![':'] + ser_step(es[0].1) + ser_group_from(es, 1)
    } else {
        seq![','] + ser_string(es[k].0) + seq![':'] + ser_step(es[k].1) + ser_group_from(es, k + 1)
    }
}

/// A group written as an object of step objects, in the group's own (sorted)
/// order.
pub open spec fn ser_group(es: GroupEntries) -> Seq<char> {
    seq!['{'] + ser_group_from(es, 0) + seq!['}']
}

pub open spec fn ser_catalog_from(cs: CatalogEntries, k: int) -> Seq<char>
    decreases cs.len() - k,
        when 0 <= k <= cs.len()
{
    if k >= cs.len() {
        Seq::empty()
    } else if k == 0 {
        ser_string(cs[0].0) + seq![':'] + ser_group(cs[0].1) + ser_catalog_from(cs, 1)
    } else {
        seq![','] + ser_string(cs[k].0) + seq![':'] + ser_group(cs[k].1) + ser_catalog_from(
            cs,
            k + 1,
        )
    }
}

/// A catalog written as a catalog document: no whitespace, keys in sorted
/// order, every step's `command` field first.
pub open spec fn spec_ser_catalog(cs: CatalogEntries) -> Seq<char> {
    seq!['{'] + ser_catalog_from(cs, 0) + seq!['}']
}

fn hex_digit_char(d: u32) -> (c: char)
    requires
        d < 16,
    ensures
        c == hex_digit(d as int),
{
    if d == 0 { '0' } else if d == 1 { '1' } else if d == 2 { '2' } else if d == 3 { '3' }
    else if d == 4 { '4' } else if d == 5 { '5' } else if d == 6 { '6' } else if d == 7 { '7' }
    else if d == 8 { '8' } else if d == 9 { '9' } else if d == 10 { 'a' } else if d == 11 { 'b' }
    else if d == 12 { 'c' } else if d == 13 { 'd' } else if d == 14 { 'e' } else { 'f' }
}

fn push_esc_string(out: &mut Vec<char>, s: &str)
    ensures
        final(out)@ == old(out)@ + ser_string(s@),
{
    let ghost base = out@;
    out.push('"');
    let len = s.unicode_len();
    let mut k: usize = 0;
    while k < len
        invariant
            k <= len,
            len == s@.len(),
            out@ + esc_from(s@, k as int) =~= base + seq!['"'] + esc_from(s@, 0),
        decreases len - k,
    {
        let c = s.get_char(k);
        let ghost before = out@;
        if c == '"' {
            out.push('\\');
            out.push('"');
        } else if c == '\\' {
            out.push('\\');
            out.push('\\');
        } else if c == '\n' {
            out.push('\\');
            out.push('n');
        } else if c == '\r' {
            out.push('\\');
            out.push('r');
        } else if c == '\t' {
            out.push('\\');
            out.push('t');
        } else if (c as u32) < 32 {
            out.push('\\');
            out.push('u');
            out.push('0');
            out.push('0');
            out.push(hex_digit_char((c as u32) / 16));
            out.push(hex_digit_char((c as u32) % 16));
        } else {
            out.push(c);
        }
        proof {
            assert(out@ =~= before + esc_char(s@[k as int]));
            assert(before + (esc_char(s@[k as int]) + esc_from(s@, k as int + 1)) =~= (before
                + esc_char(s@[k as int])) + esc_from(s@, k as int + 1));
        }
        k = k + 1;
    }
    out.push('"');
    proof {
        assert(out@ =~= base + ser_string(s@));
    }
}

fn push_args(out: &mut Vec<char>, args: &Vec<String>)
    ensures
        final(out)@ == old(out)@ + ser_args(args.deep_view()),
{
    let ghost base = out@;
    let ghost av = args.deep_view();
    out.push('[');
    let mut k: usize = 0;
    while k < args.len()
        invariant
            k <= args@.len(),
            av == args.deep_view(),
            av.len() == args@.len(),
            out@ + ser_args_from(av, k as int) =~= base + seq!['['] + ser_args_from(av, 0),
        decreases args@.len() - k,
    {
        let ghost at_entry = out@;
        if k > 0 {
            out.push(',');
        }
        push_esc_string(out, args[k].as_str());
        proof {
            assert(av[k as int] == args@[k as int]@);
            if k == 0 {
                assert(out@ =~= at_entry + ser_string(av[0]));
            } else {
                assert(out@ =~= at_entry + seq![','] + ser_string(av[k as int]));
            }
            assert(out@ + ser_args_from(av, k as int + 1) =~= at_entry + ser_args_from(
                av,
                k as int,
            ));
        }
        k = k + 1;
    }
    out.push(']');
    proof {
        assert(out@ =~= base + ser_args(av));
    }
}

fn push_step(out: &mut Vec<char>, step: &Step)
    ensures
        final(out)@ == old(out)@ + ser_step(step@),
{
    let ghost base = out@;
    out.push('{');
    push_esc_string(out, "command");
    out.push(':');
    push_esc_string(out, step.command.as_str());
    out.push(',');
    push_esc_string(out, "args");
    out.push(':');
    push_args(out, &step.args);
    out.push('}');
    proof {
        assert(out@ =~= base + ser_step(step@));
    }
}

fn push_group(out: &mut Vec<char>, g: &Group)
    ensures
        final(out)@ == old(out)@ + ser_group(g@),
{
    let ghost base = out@;
    let ghost es = g@;
    out.push('{');
    let mut k: usize = 0;
    while k < g.steps.len()
        invariant
            k <= g.steps@.len(),
            es == g@,
            es.len() == g.steps@.len(),
            out@ + ser_group_from(es, k as int) =~= base + seq!['{'] + ser_group_from(es, 0),
        decreases g.steps@.len() - k,
    {
        let ghost at_entry = out@;
        if k > 0 {
            out.push(',');
        }
        proof {
            assert(es[k as int] == (g.steps@[k as int].0@, g.steps@[k as int].1@));
        }
        push_esc_string(out, g.steps[k].0.as_str());
        out.push(':');
        push_step(out, &g.steps[k].1);
        proof {
            if k == 0 {
                assert(out@ =~= at_entry + ser_string(es[0].0) + seq![':'] + ser_step(es[0].1));
            } else {
                assert(out@ =~= at_entry + seq![','] + ser_string(es[k as int].0) + seq![':']
                    + ser_step(es[k as int].1));
            }
            assert(out@ + ser_group_from(es, k as int + 1) =~= at_entry + ser_group_from(
                es,
                k as int,
            ));
        }
        k = k + 1;
    }
    out.push('}');
    proof {
        assert(out@ =~= base + ser_group(es));
    }
}

/// Writes a catalog as a catalog document: no whitespace, keys in the
/// catalog's own (sorted) order, every step's `command` field first.
pub fn to_json(c: &Catalog) -> (r: String)
    ensures
        r@ == spec_ser_catalog(c@),
{
    let ghost cs = c@;
    let mut out: Vec<char> = Vec::new();
    out.push('{');
    let mut k: usize = 0;
    while k < c.groups.len()
        invariant
            k <= c.groups@.len(),
            cs == c@,
            cs.len() == c.groups@.len(),
            out@ + ser_catalog_from(cs, k as int) =~= seq!['{'] + ser_catalog_from(cs, 0),
        decreases c.groups@.len() - k,
    {
        let ghost at_entry = out@;
        if k > 0 {
            out.push(',');
        }
        proof {
            assert(cs[k as int] == (c.groups@[k as int].0@, c.groups@[k as int].1@));
        }
        push_esc_string(&mut out, c.groups[k].0.as_str());
        out.push(':');
        push_group(&mut out, &c.groups[k].1);
        proof {
            if k == 0 {
                assert(out@ =~= at_entry + ser_string(cs[0].0) + seq![':'] + ser_group(cs[0].1));
            } else {
                assert(out@ =~= at_entry + seq![','] + ser_string(cs[k as int].0) + seq![':']
                    + ser_group(cs[k as int].1));
            }
            assert(out@ + ser_catalog_from(cs, k as int + 1) =~= at_entry + ser_catalog_from(
                cs,
                k as int,
            ));
        }
        k = k + 1;
    }
    out.push('}');
    proof {
        assert(out@ =~= spec_ser_catalog(cs));
    }
    string_from_chars(&out)
}

/// `w` stands in `s` at position `i`.
pub open spec fn appears_at(s: Seq<char>, i: int, w: Seq<char>) -> bool {
    0 <= i && i + w.len() <= s.len() && s.subrange(i, i + w.len()) == w
}

proof fn lemma_appears_index(s: Seq<char>, i: int, w: Seq<char>, x: int)
    requires
        appears_at(s, i, w),
        0 <= x < w.len(),
    ensures
        s[i + x] == w[x],
{
    assert(s.subrange(i, i + w.len())[x] == s[i + x]);
}

proof fn lemma_appears_split(s: Seq<char>, i: int, w1: Seq<char>, w2: Seq<char>)
    requires
        appears_at(s, i, w1 + w2),
    ensures
        appears_at(s, i, w1),
        appears_at(s, i + w1.len(), w2),
{
    let w = w1 + w2;
    assert forall|x: int| 0 <= x < w1.len() implies s.subrange(i, i + w1.len())[x] == w1[x] by {
        lemma_appears_index(s, i, w, x);
    }
    assert(s.subrange(i, i + w1.len()) =~= w1);
    assert forall|x: int| 0 <= x < w2.len() implies s.subrange(
        i + w1.len(),
        i + w1.len() + w2.len(),
    )[x] == w2[x] by {
        lemma_appears_index(s, i, w, w1.len() + x);
    }
    assert(s.subrange(i + w1.len(), i + w1.len() + w2.len()) =~= w2);
}

proof fn lemma_parse_esc_from(s: Seq<char>, i: int, v: Seq<char>, k: int)
    requires
        0 <= k <= v.len(),
        appears_at(s, i, esc_from(v, k).push('"')),
    ensures
        parse_str_body(s, i) == Some((v.skip(k), i + esc_from(v, k).len() + 1)),
    decreases v.len() - k,
{
    if k == v.len() {
        lemma_appears_index(s, i, esc_from(v, k).push('"'), 0);
        assert(s[i] == '"');
        assert(v.skip(k) =~= Seq::<char>::empty());
    } else {
        let c = v[k];
        let e = esc_char(c);
        let tail = esc_from(v, k + 1).push('"');
        assert(esc_from(v, k).push('"') =~= e + tail);
        lemma_appears_split(s, i, e, tail);
        lemma_appears_index(s, i, e, 0);
        if e.len() >= 2 {
            lemma_appears_index(s, i, e, 1);
        }
        if e.len() == 6 {
            lemma_appears_index(s, i, e, 2);
            lemma_appears_index(s, i, e, 3);
            lemma_appears_index(s, i, e, 4);
            lemma_appears_index(s, i, e, 5);
        }
        lemma_parse_esc_from(s, i + e.len(), v, k + 1);
        assert(seq![c] + v.skip(k + 1) =~= v.skip(k));
        if c == '"' {
            assert(s[i] == '\\' && s[i + 1] == '"');
        } else if c == '\\' {
            assert(s[i] == '\\' && s[i + 1] == '\\');
        } else if c == '\n' {
            assert(s[i] == '\\' && s[i + 1] == 'n');
        } else if c == '\r' {
            assert(s[i] == '\\' && s[i + 1] == 'r');
        } else if c == '\t' {
            assert(s[i] == '\\' && s[i + 1] == 't');
        } else if (c as u32) < 32 {
            assert(s[i] == '\\' && s[i + 1] == 'u' && s[i + 2] == '0' && s[i + 3] == '0');
            assert(s[i + 4] == hex_digit(c as u32 as int / 16));
            assert(s[i + 5] == hex_digit(c as u32 as int % 16));
            assert(hex_val(s[i + 2]) == 0);
            assert(hex_val(s[i + 3]) == 0);
            assert(hex_val(s[i + 4]) == c as u32 as int / 16);
            assert(hex_val(s[i + 5]) == c as u32 as int % 16);
            let code = hex_val(s[i + 2]) * 4096 + hex_val(s[i + 3]) * 256 + hex_val(s[i + 4]) * 16
                + hex_val(s[i + 5]);
            assert(code == c as u32);
            assert(is_scalar_code(code));
            vstd::utf8::char_u32_cast(c, c as u32);
            assert((code as u32) as char == c);
        } else {
            assert(s[i] == c);
        }
    }
}

proof fn lemma_parse_string_of_ser(s: Seq<char>, i: int, v: Seq<char>)
    requires
        appears_at(s, i, ser_string(v)),
    ensures
        parse_string(s, i) == Some((v, i + ser_string(v).len())),
{
    assert(ser_string(v) =~= seq!['"'] + esc_from(v, 0).push('"'));
    lemma_appears_split(s, i, seq!['"'], esc_from(v, 0).push('"'));
    lemma_appears_index(s, i, seq!['"'], 0);
    lemma_parse_esc_from(s, i + 1, v, 0);
    assert(v.skip(0) =~= v);
}

proof fn lemma_parse_elems_more_of_ser(s: Seq<char>, i: int, args: Seq<Seq<char>>, k: int)
    requires
        1 <= k <= args.len(),
        appears_at(s, i, ser_args_from(args, k).push(']')),
    ensures
        parse_elems_more(s, i) == Some((args.skip(k), i + ser_args_from(args, k).len() + 1)),
    decreases args.len() - k,
{
    if k == args.len() {
        lemma_appears_index(s, i, ser_args_from(args, k).push(']'), 0);
        assert(s[i] == ']');
        assert(args.skip(k) =~= Seq::<Seq<char>>::empty());
    } else {
        let w2 = ser_string(args[k]);
        let tail = ser_args_from(args, k + 1).push(']');
        assert(ser_args_from(args, k).push(']') =~= seq![','] + (w2 + tail));
        lemma_appears_split(s, i, seq![','], w2 + tail);
        lemma_appears_split(s, i + 1, w2, tail);
        lemma_appears_index(s, i, seq![','], 0);
        lemma_appears_index(s, i + 1, w2, 0);
        assert(w2[0] == '"');
        lemma_parse_string_of_ser(s, i + 1, args[k]);
        lemma_parse_elems_more_of_ser(s, i + 1 + w2.len(), args, k + 1);
        assert(seq![args[k]] + args.skip(k + 1) =~= args.skip(k));
    }
}

proof fn lemma_parse_args_of_ser(s: Seq<char>, i: int, args: Seq<Seq<char>>)
    requires
        appears_at(s, i, ser_args(args)),
    ensures
        parse_args_array(s, i) == Some((args, i + ser_args(args).len())),
{
    if args.len() == 0 {
        assert(ser_args(args) =~= seq!['[', ']']);
        lemma_appears_index(s, i, ser_args(args), 0);
        lemma_appears_index(s, i, ser_args(args), 1);
        assert(args =~= Seq::<Seq<char>>::empty());
    } else {
        let w2 = ser_string(args[0]);
        let tail = ser_args_from(args, 1).push(']');
        assert(ser_args(args) =~= seq!['['] + (w2 + tail));
        lemma_appears_split(s, i, seq!['['], w2 + tail);
        lemma_appears_split(s, i + 1, w2, tail);
        lemma_appears_index(s, i, seq!['['], 0);
        lemma_appears_index(s, i + 1, w2, 0);
        assert(w2[0] == '"');
        lemma_parse_string_of_ser(s, i + 1, args[0]);
        lemma_parse_elems_more_of_ser(s, i + 1 + w2.len(), args, 1);
        assert(seq![args[0]] + args.skip(1) =~= args);
    }
}

#[verifier::rlimit(100)]
#[verifier::spinoff_prover]
proof fn lemma_parse_step_of_ser(s: Seq<char>, i: int, st: StepView)
    requires
        appears_at(s, i, ser_step(st)),
    ensures
        parse_step(s, i) == Some((st, i + ser_step(st).len())),
{
    let b = ser_string("command"@);
    let d = ser_string(st.command);
    let f = ser_string("args"@);
    let h = ser_args(st.args);
    let w1 = b + (seq![':'] + (d + (seq![','] + (f + (seq![':'] + (h + seq!['}']))))));
    assert(ser_step(st) =~= seq!['{'] + w1);
    lemma_appears_split(s, i, seq!['{'], w1);
    lemma_appears_index(s, i, seq!['{'], 0);
    let p0 = i + 1;
    lemma_appears_split(s, p0, b, seq![':'] + (d + (seq![','] + (f + (seq![':'] + (h
        + seq!['}']))))));
    let p1 = p0 + b.len();
    lemma_appears_split(s, p1, seq![':'], d + (seq![','] + (f + (seq![':'] + (h + seq!['}'])))));
    lemma_appears_index(s, p1, seq![':'], 0);
    let p2 = p1 + 1;
    lemma_appears_split(s, p2, d, seq![','] + (f + (seq![':'] + (h + seq!['}']))));
    let p3 = p2 + d.len();
    lemma_appears_split(s, p3, seq![','], f + (seq![':'] + (h + seq!['}'])));
    lemma_appears_index(s, p3, seq![','], 0);
    let p4 = p3 + 1;
    lemma_appears_split(s, p4, f, seq![':'] + (h + seq!['}']));
    let p5 = p4 + f.len();
    lemma_appears_split(s, p5, seq![':'], h + seq!['}']);
    lemma_appears_index(s, p5, seq![':'], 0);
    let p6 = p5 + 1;
    lemma_appears_split(s, p6, h, seq!['}']);
    let p7 = p6 + h.len();
    lemma_appears_index(s, p7, seq!['}'], 0);
    lemma_appears_index(s, p0, b, 0);
    lemma_appears_index(s, p2, d, 0);
    lemma_appears_index(s, p4, f, 0);
    lemma_appears_index(s, p6, h, 0);
    assert(b[0] == '"');
    assert(d[0] == '"');
    assert(f[0] == '"');
    assert(h[0] == '[');
    lemma_parse_string_of_ser(s, p0, "command"@);
    lemma_parse_string_of_ser(s, p2, st.command);
    lemma_parse_string_of_ser(s, p4, "args"@);
    lemma_parse_args_of_ser(s, p6, st.args);
    assert(parse_member_key(s, p0) == Some(("command"@, p2)));
    assert(parse_member_key(s, p4) == Some(("args"@, p6)));
    assert(parse_step_command_first(s, p2) == Some((
        StepView { command: st.command, args: st.args },
        p7 + 1,
    )));
    assert(StepView { command: st.command, args: st.args } =~= st);
}

/// On a sorted sequence, adding the entry at `k` back in front of the entries
/// after it restores the sequence from `k` on.
proof fn lemma_sorted_insert_front<T>(full: Seq<(Seq<char>, T)>, k: int)
    requires
        entries_sorted(full),
        0 <= k < full.len(),
    ensures
        sorted_insert(full.skip(k + 1), full[k].0, full[k].1) == Some(full.skip(k)),
{
    let rest = full.skip(k + 1);
    let n = full[k].0;
    assert forall|w: int| 0 <= w < rest.len() implies (#[trigger] rest[w]).0 != n by {
        assert(rest[w] == full[k + 1 + w]);
        lemma_lex_lt_asymmetric(n, rest[w].0);
    }
    if rest.len() > 0 {
        assert(rest[0] == full[k + 1]);
        lemma_lex_lt_asymmetric(n, rest[0].0);
        assert(!crate::order::lex_lt(rest[0].0, n));
    }
    assert(rest.insert(0, (n, full[k].1)) =~= full.skip(k));
}

#[verifier::rlimit(100)]
#[verifier::spinoff_prover]
proof fn lemma_parse_group_more_of_ser(s: Seq<char>, i: int, es: GroupEntries, k: int)
    requires
        1 <= k <= es.len(),
        entries_sorted(es),
        appears_at(s, i, ser_group_from(es, k).push('}')),
    ensures
        parse_group_more(s, i) == Some((es.skip(k), i + ser_group_from(es, k).len() + 1)),
    decreases es.len() - k,
{
    if k == es.len() {
        lemma_appears_index(s, i, ser_group_from(es, k).push('}'), 0);
        assert(s[i] == '}');
        assert(es.skip(k) =~= Seq::<(Seq<char>, StepView)>::empty());
    } else {
        let key = ser_string(es[k].0);
        let st = ser_step(es[k].1);
        let tail = ser_group_from(es, k + 1).push('}');
        assert(ser_group_from(es, k).push('}') =~= seq![','] + (key + (seq![':'] + (st + tail))));
        lemma_appears_split(s, i, seq![','], key + (seq![':'] + (st + tail)));
        lemma_appears_index(s, i, seq![','], 0);
        let q0 = i + 1;
        lemma_appears_split(s, q0, key, seq![':'] + (st + tail));
        let q1 = q0 + key.len();
        lemma_appears_split(s, q1, seq![':'], st + tail);
        lemma_appears_index(s, q1, seq![':'], 0);
        let q2 = q1 + 1;
        lemma_appears_split(s, q2, st, tail);
        let q3 = q2 + st.len();
        lemma_appears_index(s, q0, key, 0);
        lemma_appears_index(s, q2, st, 0);
        assert(key[0] == '"');
        assert(st[0] == '{');
        lemma_parse_string_of_ser(s, q0, es[k].0);
        lemma_parse_step_of_ser(s, q2, es[k].1);
        assert(parse_member_key(s, q0) == Some((es[k].0, q2)));
        lemma_parse_group_more_of_ser(s, q3, es, k + 1);
        lemma_sorted_insert_front(es, k);
    }
}

#[verifier::rlimit(100)]
#[verifier::spinoff_prover]
proof fn lemma_parse_group_of_ser(s: Seq<char>, i: int, es: GroupEntries)
    requires
        entries_sorted(es),
        appears_at(s, i, ser_group(es)),
    ensures
        parse_group(s, i) == Some((es, i + ser_group(es).len())),
{
    if es.len() == 0 {
        assert(ser_group(es) =~= seq!['{', '}']);
        lemma_appears_index(s, i, ser_group(es), 0);
        lemma_appears_index(s, i, ser_group(es), 1);
        assert(es =~= Seq::<(Seq<char>, StepView)>::empty());
    } else {
        let key = ser_string(es[0].0);
        let st = ser_step(es[0].1);
        let tail = ser_group_from(es, 1).push('}');
        assert(ser_group(es) =~= seq!['{'] + (key + (seq![':'] + (st + tail))));
        lemma_appears_split(s, i, seq!['{'], key + (seq![':'] + (st + tail)));
        lemma_appears_index(s, i, seq!['{'], 0);
        let q0 = i + 1;
        lemma_appears_split(s, q0, key, seq![':'] + (st + tail));
        let q1 = q0 + key.len();
        lemma_appears_split(s, q1, seq![':'], st + tail);
        lemma_appears_index(s, q1, seq![':'], 0);
        let q2 = q1 + 1;
        lemma_appears_split(s, q2, st, tail);
        let q3 = q2 + st.len();
        lemma_appears_index(s, q0, key, 0);
        lemma_appears_index(s, q2, st, 0);
        assert(key[0] == '"');
        assert(st[0] == '{');
        lemma_parse_string_of_ser(s, q0, es[0].0);
        lemma_parse_step_of_ser(s, q2, es[0].1);
        assert(parse_member_key(s, q0) == Some((es[0].0, q2)));
        lemma_parse_group_more_of_ser(s, q3, es, 1);
        lemma_sorted_insert_front(es, 0);
        assert(es.skip(0) =~= es);
    }
}

#[verifier::rlimit(100)]
#[verifier::spinoff_prover]
proof fn lemma_parse_catalog_more_of_ser(s: Seq<char>, i: int, cs: CatalogEntries, k: int)
    requires
        1 <= k <= cs.len(),
        entries_sorted(cs),
        forall|w: int| 0 <= w < cs.len() ==> entries_sorted((#[trigger] cs[w]).1),
        appears_at(s, i, ser_catalog_from(cs, k).push('}')),
    ensures
        parse_catalog_more(s, i) == Some((cs.skip(k), i + ser_catalog_from(cs, k).len() + 1)),
    decreases cs.len() - k,
{
    if k == cs.len() {
        lemma_appears_index(s, i, ser_catalog_from(cs, k).push('}'), 0);
        assert(s[i] == '}');
        assert(cs.skip(k) =~= Seq::<(Seq<char>, GroupEntries)>::empty());
    } else {
        let key = ser_string(cs[k].0);
        let g = ser_group(cs[k].1);
        let tail = ser_catalog_from(cs, k + 1).push('}');
        assert(ser_catalog_from(cs, k).push('}') =~= seq![','] + (key + (seq![':'] + (g + tail))));
        lemma_appears_split(s, i, seq![','], key + (seq![':'] + (g + tail)));
        lemma_appears_index(s, i, seq![','], 0);
        let q0 = i + 1;
        lemma_appears_split(s, q0, key, seq![':'] + (g + tail));
        let q1 = q0 + key.len();
        lemma_appears_split(s, q1, seq![':'], g + tail);
        lemma_appears_index(s, q1, seq![':'], 0);
        let q2 = q1 + 1;
        lemma_appears_split(s, q2, g, tail);
        let q3 = q2 + g.len();
        lemma_appears_index(s, q0, key, 0);
        lemma_appears_index(s, q2, g, 0);
        assert(key[0] == '"');
        assert(g[0] == '{');
        lemma_parse_string_of_ser(s, q0, cs[k].0);
        lemma_parse_group_of_ser(s, q2, cs[k].1);
        assert(parse_member_key(s, q0) == Some((cs[k].0, q2)));
        lemma_parse_catalog_more_of_ser(s, q3, cs, k + 1);
        lemma_sorted_insert_front(cs, k);
    }
}

#[verifier::rlimit(100)]
#[verifier::spinoff_prover]
proof fn lemma_parse_catalog_obj_of_ser(s: Seq<char>, i: int, cs: CatalogEntries)
    requires
        entries_sorted(cs),
        forall|w: int| 0 <= w < cs.len() ==> entries_sorted((#[trigger] cs[w]).1),
        appears_at(s, i, spec_ser_catalog(cs)),
    ensures
        parse_catalog_obj(s, i) == Some((cs, i + spec_ser_catalog(cs).len())),
{
    if cs.len() == 0 {
        assert(spec_ser_catalog(cs) =~= seq!['{', '}']);
        lemma_appears_index(s, i, spec_ser_catalog(cs), 0);
        lemma_appears_index(s, i, spec_ser_catalog(cs), 1);
        assert(cs =~= Seq::<(Seq<char>, GroupEntries)>::empty());
    } else {
        let key = ser_string(cs[0].0);
        let g = ser_group(cs[0].1);
        let tail = ser_catalog_from(cs, 1).push('}');
        assert(spec_ser_catalog(cs) =~= seq!['{'] + (key + (seq![':'] + (g + tail))));
        lemma_appears_split(s, i, seq!['{'], key + (seq![':'] + (g + tail)));
        lemma_appears_index(s, i, seq!['{'], 0);
        let q0 = i + 1;
        lemma_appears_split(s, q0, key, seq![':'] + (g + tail));
        let q1 = q0 + key.len();
        lemma_appears_split(s, q1, seq![':'], g + tail);
        lemma_appears_index(s, q1, seq![':'], 0);
        let q2 = q1 + 1;
        lemma_appears_split(s, q2, g, tail);
        let q3 = q2 + g.len();
        lemma_appears_index(s, q0, key, 0);
        lemma_appears_index(s, q2, g, 0);
        assert(key[0] == '"');
        assert(g[0] == '{');
        lemma_parse_string_of_ser(s, q0, cs[0].0);
        lemma_parse_group_of_ser(s, q2, cs[0].1);
        assert(parse_member_key(s, q0) == Some((cs[0].0, q2)));
        lemma_parse_catalog_more_of_ser(s, q3, cs, 1);
        lemma_sorted_insert_front(cs, 0);
        assert(cs.skip(0) =~= cs);
    }
}

/// Law: round trip. A catalog written out by the serializer and loaded again
/// parses, and parses to the very same mapping of group name to step name to
/// step — for every well-formed catalog value.
pub proof fn lemma_round_trip(cs: CatalogEntries)
    requires
        entries_sorted(cs),
        forall|w: int| 0 <= w < cs.len() ==> entries_sorted((#[trigger] cs[w]).1),
    ensures
        spec_parse_catalog(spec_ser_catalog(cs)) == Some(cs),
{
    let s = spec_ser_catalog(cs);
    assert(s.subrange(0, s.len() as int) =~= s);
    assert(appears_at(s, 0, s));
    lemma_parse_catalog_obj_of_ser(s, 0, cs);
    assert(s[0] == '{') by {
        lemma_appears_index(s, 0, s, 0);
    }
}

/// Law: round trip, stated of the data type. Writing a catalog with
/// `to_json` and loading the result with `parse_catalog` gives back a catalog
/// with the same contents, for every well-formed catalog.
pub proof fn lemma_round_trip_catalog(c: Catalog)
    requires
        c.wf(),
    ensures
        spec_parse_catalog(spec_ser_catalog(c@)) == Some(c@),
{
    lemma_round_trip(c@);
}

} // verus!

