//! Settings from the environment and from `.env` files.
use vstd::prelude::*;

use crate::text::{ascii_lower, ascii_lowercase, first_index, lemma_first_index, split_first,
    starts_with, str_eq, strip_prefix, text_option, texts, trim, trimmed};

verus! {

/// Whether a text is enclosed in a pair of quotes.
pub open spec fn quoted(v: Seq<char>, quote: char) -> bool {
    v.len() >= 2 && v[0] == quote && v.last() == quote
}

/// A value without its quotes.
pub open spec fn unquoted(v: Seq<char>) -> Seq<char> {
    if quoted(v, '"') || quoted(v, '\'') {
        v.subrange(1, v.len() - 1)
    } else {
        v
    }
}

/// A line without white space around it and without `export` in front.
pub open spec fn assignment(line: Seq<char>) -> Seq<char> {
    let l = trimmed(line);
    if starts_with(l, "export "@) {
        trimmed(l.skip("export "@.len() as int))
    } else {
        l
    }
}

/// The value that a line gives to a name, if it gives it one that is not empty.
pub open spec fn line_value(line: Seq<char>, key: Seq<char>) -> Option<Seq<char>> {
    let l = trimmed(line);
    if l.len() == 0 || l[0] == '#' {
        None
    } else {
        let a = assignment(line);
        let i = first_index(a, '=');
        if i == a.len() || trimmed(a.take(i)) != key {
            None
        } else {
            let v = unquoted(trimmed(a.skip(i + 1)));
            if v.len() == 0 {
                None
            } else {
                Some(v)
            }
        }
    }
}

/// The value of a name: that of the first line that gives it one.
pub open spec fn dotenv_value(contents: Seq<char>, key: Seq<char>) -> Option<Seq<char>>
    decreases contents.len(),
{
    let i = first_index(contents, '\n');
    if i < 0 || i >= contents.len() {
        line_value(contents, key)
    } else {
        match line_value(contents.take(i), key) {
            Some(v) => Some(v),
            None => dotenv_value(contents.skip(i + 1), key),
        }
    }
}

fn value_of_line(raw: &str, key: &str) -> (r: Option<String>)
    ensures
        match (r, line_value(raw@, key@)) {
            (Some(v), Some(t)) => v@ == t,
            (None, None) => true,
            _ => false,
        },
{
    let line = trim(raw);
    if line.unicode_len() == 0 || line.get_char(0) == '#' {
        return None;
    }
    let line = match strip_prefix(line, "export ") {
        Some(rest) => trim(rest),
        None => line,
    };
    let (name, value) = match split_first(line, '=') {
        Some(x) => x,
        None => {
            return None;
        },
    };
    if !str_eq(trim(name), key) {
        return None;
    }
    let value = trim(value);
    let n: usize = value.unicode_len();
    let value = if n >= 2 && ((value.get_char(0) == '"' && value.get_char(n - 1) == '"') || (
    value.get_char(0) == '\'' && value.get_char(n - 1) == '\'')) {
        value.substring_char(1, n - 1)
    } else {
        value
    };
    if value.unicode_len() == 0 {
        None
    } else {
        Some(value.to_owned())
    }
}

/// The value of a name in the contents of a `.env` file.
pub fn parse_dotenv_value(contents: &str, key: &str) -> (r: Option<String>)
    ensures
        match (r, dotenv_value(contents@, key@)) {
            (Some(v), Some(t)) => v@ == t,
            (None, None) => true,
            _ => false,
        },
{
    let mut rest: &str = contents;
    loop
        invariant
            dotenv_value(contents@, key@) == dotenv_value(rest@, key@),
        decreases rest@.len(),
    {
        proof {
            lemma_first_index(rest@, '\n');
        }
        match split_first(rest, '\n') {
            None => {
                return value_of_line(rest, key);
            },
            Some((line, more)) => {
                if let Some(v) = value_of_line(line, key) {
                    return Some(v);
                }
                rest = more;
            },
        }
    }
}

/// The value of a name: that of the environment, unless it is blank, else that of the first file
/// that gives one.
pub open spec fn setting(env: Option<Seq<char>>, files: Seq<Seq<char>>, key: Seq<char>) -> Option<
    Seq<char>,
> {
    match env {
        Some(v) => if trimmed(v).len() > 0 {
            Some(trimmed(v))
        } else {
            first_in(files, key, 0)
        },
        None => first_in(files, key, 0),
    }
}

/// The value of a name in the first of the files from position `from` on that gives one.
pub open spec fn first_in(files: Seq<Seq<char>>, key: Seq<char>, from: int) -> Option<Seq<char>>
    decreases files.len() - from,
{
    if from < 0 || from >= files.len() {
        None
    } else {
        match dotenv_value(files[from], key) {
            Some(v) => Some(v),
            None => first_in(files, key, from + 1),
        }
    }
}

/// The value of a name, given what the environment has for it and the contents of the files.
pub fn env_or_dotenv_var(env: &Option<String>, files: &Vec<String>, key: &str) -> (r: Option<String>)
    ensures
        match (
            r,
            setting(
                text_option(*env),
                texts(files@),
                key@,
            ),
        ) {
            (Some(v), Some(t)) => v@ == t,
            (None, None) => true,
            _ => false,
        },
{
    if let Some(v) = env {
        let t = trim(v.as_str());
        if t.unicode_len() > 0 {
            return Some(t.to_owned());
        }
    }
    let ghost all = texts(files@);
    let ghost e = text_option(*env);
    let mut i: usize = 0;
    while i < files.len()
        invariant
            i <= files@.len(),
            all == texts(files@),
            e == (text_option(*env)),
            setting(e, all, key@) == first_in(all, key@, i as int),
        decreases files@.len() - i,
    {
        assert(all[i as int] == files@[i as int]@);
        if let Some(v) = parse_dotenv_value(files[i].as_str(), key) {
            return Some(v);
        }
        i += 1;
    }
    None
}

/// Whether a setting says that the checks are to be run.
pub open spec fn says_yes(value: Option<Seq<char>>) -> bool {
    match value {
        None => false,
        Some(v) => {
            let n = trimmed(v).map_values(|c: char| ascii_lower(c));
            n == "1"@ || n == "true"@ || n == "yes"@
        },
    }
}

/// Whether the live checks are to be run, given the setting.
pub fn live_tests_enabled(value: &Option<String>) -> (r: bool)
    ensures
        r == says_yes(
            text_option(*value),
        ),
{
    match value {
        None => false,
        Some(v) => {
            let n = ascii_lowercase(trim(v.as_str()));
            str_eq(n.as_str(), "1") || str_eq(n.as_str(), "true") || str_eq(n.as_str(), "yes")
        },
    }
}

} // verus!
