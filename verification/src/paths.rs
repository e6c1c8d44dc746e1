//! Paths as text, their parts set apart by slashes.

use vstd::prelude::*;
use crate::text::{chars, chars_of, push_text, text_of};

verus! {

/// The relative path `below` under the directory `dir`.
pub open spec fn joined(dir: Seq<char>, below: Seq<char>) -> Seq<char> {
    if dir.len() == 0 || dir.last() == '/' {
        dir + below
    } else {
        dir.push('/') + below
    }
}

/// The relative path `below` under the directory `dir`.
pub fn join(dir: &str, below: &str) -> (r: String)
    ensures
        r@ == joined(dir@, below@),
{
    let cs = chars_of(dir);
    let mut out = dir.to_owned();
    if cs.len() > 0 && cs[cs.len() - 1] != '/' {
        out.push('/');
    }
    push_text(&mut out, below);
    out
}

/// The program's configuration directory: in `$XDG_CONFIG_HOME` unless that is unset or
/// empty, else in `.config` in `$HOME`; none where neither is set.
pub open spec fn config_dir(xdg: Option<Seq<char>>, home: Option<Seq<char>>) -> Option<Seq<char>> {
    match xdg {
        Some(dir) if dir.len() > 0 => Some(joined(dir, "umber"@)),
        _ => match home {
            Some(dir) => Some(joined(joined(dir, ".config"@), "umber"@)),
            None => None,
        },
    }
}

/// A path in the program's configuration directory.
pub open spec fn config_path(xdg: Option<Seq<char>>, home: Option<Seq<char>>, name: Seq<char>) -> Option<
    Seq<char>,
> {
    match config_dir(xdg, home) {
        Some(dir) => Some(joined(dir, name)),
        None => None,
    }
}

/// The program's configuration directory, given `$XDG_CONFIG_HOME` and `$HOME`.
pub fn config_root(xdg: Option<&str>, home: Option<&str>) -> (r: Option<String>)
    ensures
        text_of(r) == config_dir(chars(xdg), chars(home)),
{
    if let Some(dir) = xdg {
        if !dir.is_empty() {
            return Some(join(dir, "umber"));
        }
    }
    match home {
        Some(dir) => Some(join(&join(dir, ".config"), "umber")),
        None => None,
    }
}

/// A path in the program's configuration directory.
pub fn config_file(xdg: Option<&str>, home: Option<&str>, name: &str) -> (r: Option<String>)
    ensures
        text_of(r) == config_path(chars(xdg), chars(home), name@),
{
    match config_root(xdg, home) {
        Some(dir) => Some(join(&dir, name)),
        None => None,
    }
}

/// A path under a directory is the directory, one slash, and the path, whether or not the directory is
/// written with a slash behind it.
pub proof fn paths_are_joined_by_one_slash(dir: Seq<char>, path: Seq<char>)
    requires
        dir.len() > 0,
        dir.last() != '/',
    ensures
        joined(dir, path) == dir + seq!['/'] + path,
        joined(dir.push('/'), path) == joined(dir, path),
        joined(Seq::empty(), path) == path,
{
    assert(joined(dir, path) =~= dir + seq!['/'] + path);
    assert(joined(dir.push('/'), path) =~= joined(dir, path));
    assert(joined(Seq::empty(), path) =~= path);
}

/// The configuration is kept where the environment says, and otherwise under the home directory, as if
/// that place had been said; where neither is known it is kept nowhere.
pub proof fn the_configuration_has_one_place(xdg: Seq<char>, home: Seq<char>, other: Option<Seq<char>>, name: Seq<char>)
    requires
        xdg.len() > 0,
    ensures
        config_path(Some(xdg), other, name) == Some(joined(joined(xdg, "umber"@), name)),
        config_path(None, Some(home), name) == config_path(Some(joined(home, ".config"@)), other, name),
        config_path(Some(Seq::empty()), other, name) == config_path(None, other, name),
        config_path(None, None, name) is None,
{
    reveal_strlit(".config");
    assert(joined(home, ".config"@).len() > 0);
}

} // verus!
