//! Finding modules on disk, and remembering which of them are enabled.

use vstd::prelude::*;
use crate::manifest::{Manifest, ManifestError};
use crate::paths::{config_file, config_path};
use crate::table::Table;
use crate::text::{chars, chars_of, free_of, is_line, is_white, join_lines, lemma_free_of, lemma_text_lt_total, lemma_text_lt_trans, lines, lines_read_back, split_lines, string_of, text_less, text_lt, text_of, texts, trim, trimmed, unlines, views};

verus! {

/// The directory that modules are looked for in, given `$XDG_CONFIG_HOME` and `$HOME`.
pub fn modules_dir(xdg: Option<&str>, home: Option<&str>) -> (r: Option<String>)
    ensures
        text_of(r) == config_path(chars(xdg), chars(home), "modules"@),
{
    config_file(xdg, home, "modules")
}

/// The file that names the enabled modules, given `$XDG_CONFIG_HOME` and `$HOME`.
pub fn enabled_path(xdg: Option<&str>, home: Option<&str>) -> (r: Option<String>)
    ensures
        text_of(r) == config_path(chars(xdg), chars(home), "modules-enabled"@),
{
    config_file(xdg, home, "modules-enabled")
}

/// A directory with a manifest in it, whether or not the manifest was accepted.
pub struct Discovered {
    /// The name of the directory.
    pub dir_name: String,
    pub base_dir: String,
    pub manifest: Result<Manifest, ManifestError>,
}

impl Discovered {
    /// The name to show: the manifest's where it was accepted, else the directory's.
    pub open spec fn shown(self) -> Seq<char> {
        match self.manifest {
            Ok(m) => m.name@,
            Err(_) => self.dir_name@,
        }
    }

    /// The name to show: the manifest's where it was accepted, else the directory's.
    pub fn name(&self) -> (r: &str)
        ensures
            r@ == self.shown(),
    {
        match &self.manifest {
            Ok(m) => m.name.as_str(),
            Err(_) => self.dir_name.as_str(),
        }
    }
}

/// No directory comes before one whose name is smaller.
pub open spec fn by_directory(v: Seq<Discovered>) -> bool {
    forall|i: int, j: int|
        0 <= i < j < v.len() ==> !text_lt((#[trigger] v[j]).dir_name@, (#[trigger] v[i]).dir_name@)
}

/// Puts what was found in the order of the directory names.
pub fn discover(found: Vec<Discovered>) -> (r: Vec<Discovered>)
    ensures
        r@.to_multiset() == found@.to_multiset(),
        by_directory(r@),
{
    let mut left = found;
    let mut out: Vec<Discovered> = Vec::new();
    broadcast use vstd::multiset::group_multiset_axioms;
    broadcast use vstd::seq_lib::group_to_multiset_ensures;

    assert(left@.to_multiset().add(out@.to_multiset()) =~= found@.to_multiset());
    while left.len() > 0
        invariant
            by_directory(out@),
            left@.to_multiset().add(out@.to_multiset()) == found@.to_multiset(),
        decreases left@.len(),
    {
        broadcast use vstd::multiset::group_multiset_axioms;
        broadcast use vstd::seq_lib::group_to_multiset_ensures;

        let ghost before_left = left@;
        let ghost before_out = out@;
        let d = match left.pop() {
            Some(d) => d,
            None => return out,
        };
        let ghost item = d;
        assert(before_left =~= left@.push(item));
        let mut p: usize = 0;
        while p < out.len() && text_less(&out[p].dir_name, &d.dir_name)
            invariant
                p <= out@.len(),
                forall|i: int| 0 <= i < p ==> text_lt((#[trigger] out@[i]).dir_name@, d.dir_name@),
            decreases out@.len() - p,
        {
            p += 1;
        }
        assert forall|i: int| p <= i < out@.len() implies !text_lt(
            (#[trigger] out@[i]).dir_name@,
            d.dir_name@,
        ) by {
            let x = out@[p as int].dir_name@;
            let y = out@[i].dir_name@;
            if i > p && text_lt(y, d.dir_name@) {
                assert(!text_lt(y, x));
                lemma_text_lt_total(x, y);
                if x != y {
                    lemma_text_lt_trans(x, y, d.dir_name@);
                }
            }
        }
        out.insert(p, d);
        assert(by_directory(out@)) by {
            assert forall|i: int, j: int| 0 <= i < j < out@.len() implies !text_lt(
                (#[trigger] out@[j]).dir_name@,
                (#[trigger] out@[i]).dir_name@,
            ) by {
                let a = if i < p {
                    i
                } else {
                    i - 1
                };
                let b = if j < p {
                    j
                } else {
                    j - 1
                };
                lemma_text_lt_total(out@[i].dir_name@, out@[j].dir_name@);
                if i != p && j != p {
                    assert(!text_lt(before_out[b].dir_name@, before_out[a].dir_name@));
                } else if i == p {
                    assert(out@[j] == before_out[b]);
                } else {
                    assert(out@[i] == before_out[a]);
                    assert(text_lt(before_out[a].dir_name@, item.dir_name@));
                }
            }
        }
        assert(out@ =~= before_out.insert(p as int, item));
        assert(out@.to_multiset() =~= before_out.to_multiset().insert(item)) by {
            assert(out@.remove(p as int) =~= before_out);
            vstd::seq_lib::to_multiset_remove(out@, p as int);
            assert(out@.contains(item)) by {
                assert(out@[p as int] == item);
            }
            out@.to_multiset_ensures();
        }
        assert(left@.to_multiset().add(out@.to_multiset()) =~= found@.to_multiset());
    }
    assert(left@ =~= Seq::<Discovered>::empty());
    assert(left@.to_multiset().add(out@.to_multiset()) =~= out@.to_multiset());
    out
}

/// The names that the first `n` lines enable: blank lines and comments name none.
pub open spec fn enabled_to(ls: Seq<Seq<char>>, n: nat) -> Set<Seq<char>>
    decreases n,
{
    if n == 0 {
        Set::empty()
    } else {
        let before = enabled_to(ls, (n - 1) as nat);
        let l = trimmed(ls[n - 1]);
        if l.len() == 0 || l[0] == '#' {
            before
        } else {
            before.insert(l)
        }
    }
}

/// The names in a file of enabled modules.
pub open spec fn enabled_in(text: Seq<char>) -> Set<Seq<char>> {
    enabled_to(lines(text), lines(text).len())
}

/// The enabled modules, given the file that names them, if it could be read.
pub fn load_enabled(file: Option<&str>) -> (r: Table<()>)
    ensures
        r.wf(),
        r@.dom() == match file {
            Some(text) => enabled_in(text@),
            None => Set::empty(),
        },
{
    let mut out: Table<()> = Table::new();
    assert(out@.dom() =~= Set::<Seq<char>>::empty());
    let text = match file {
        Some(t) => t,
        None => return out,
    };
    let ls = split_lines(&chars_of(text));
    let ghost all = lines(text@);
    for i in 0..ls.len()
        invariant
            views(ls@) == all,
            out.wf(),
            out@.dom() == enabled_to(all, i as nat),
    {
        assert(all[i as int] == ls@[i as int]@);
        let l = trim(&ls[i]);
        let ghost before = out@;
        if l.len() > 0 && l[0] != '#' {
            let name = string_of(l);
            out.insert(name, ());
            assert(out@.dom() =~= before.dom().insert(l@));
        }
    }
    out
}

/// The first line of a file of enabled modules.
pub open spec fn enabled_header() -> Seq<char> {
    "# Umber enabled modules (one per line). Managed by the modules page."@
}

/// The file that names the enabled modules: one a line, in order, behind a comment.
pub fn save_enabled(enabled: &Table<()>) -> (r: String)
    requires
        enabled.wf(),
    ensures
        r@ == unlines(seq![enabled_header()] + enabled.keys()),
{
    let mut ls: Vec<String> = Vec::new();
    ls.push("# Umber enabled modules (one per line). Managed by the modules page.".to_owned());
    let mut names = enabled.names();
    let ghost ns = texts(names@);
    ls.append(&mut names);
    assert(texts(ls@) =~= seq![enabled_header()] + ns);
    join_lines(&ls)
}

/// A name that a line can hold as it is: not blank, no comment, no line ends in it, no
/// white space around it.
pub open spec fn is_name(s: Seq<char>) -> bool {
    &&& s.len() > 0
    &&& s[0] != '#'
    &&& !is_white(s[0])
    &&& !is_white(s.last())
    &&& forall|i: int| 0 <= i < s.len() ==> s[i] != '\n'
}

proof fn lemma_enabled_to(ls: Seq<Seq<char>>, n: nat)
    requires
        1 <= n <= ls.len(),
        ls[0] == enabled_header(),
        forall|i: int| 1 <= i < ls.len() ==> is_name(#[trigger] ls[i]),
    ensures
        enabled_to(ls, n) == ls.subrange(1, n as int).to_set(),
    decreases n,
{
    reveal_strlit("# Umber enabled modules (one per line). Managed by the modules page.");
    if n == 1 {
        let h = enabled_header();
        assert(trimmed(h) == h);
        assert(enabled_to(ls, 0) =~= Set::<Seq<char>>::empty());
        assert(ls.subrange(1, 1).to_set() =~= Set::<Seq<char>>::empty());
    } else {
        lemma_enabled_to(ls, (n - 1) as nat);
        let l = ls[n - 1];
        assert(is_name(l));
        assert(trimmed(l) == l);
        let a = ls.subrange(1, n - 1);
        let b = ls.subrange(1, n as int);
        assert(b =~= a.push(l));
        assert(b.to_set() =~= a.to_set().insert(l)) by {
            assert forall|k: Seq<char>| #[trigger] b.contains(k) <==> (a.contains(k) || k == l) by {
                if a.contains(k) {
                    let i = choose|i: int| 0 <= i < a.len() && a[i] == k;
                    assert(b[i] == k);
                }
                assert(b[b.len() - 1] == l);
            }
        }
    }
}

/// The enabled modules that are saved are those that are loaded again, their names being
/// such that a line can hold them.
pub proof fn enabled_reads_back(names: Seq<Seq<char>>)
    requires
        forall|i: int| 0 <= i < names.len() ==> is_name(#[trigger] names[i]),
    ensures
        enabled_in(unlines(seq![enabled_header()] + names)) == names.to_set(),
{
    let ls = seq![enabled_header()] + names;
    reveal_strlit("# Umber enabled modules (one per line). Managed by the modules page.");
    let h = enabled_header();
    assert(is_line(h)) by {
        reveal_with_fuel(free_of, 75);
        assert(free_of(h, '\n', h.len()));
        lemma_free_of(h, '\n', h.len());
    }
    assert forall|i: int| 0 <= i < ls.len() implies is_line(#[trigger] ls[i]) by {
        if i > 0 {
            assert(ls[i] == names[i - 1]);
            assert(is_name(names[i - 1]));
            assert(is_white('\r'));
        }
    }
    lines_read_back(ls);
    assert forall|i: int| 1 <= i < ls.len() implies is_name(#[trigger] ls[i]) by {
        assert(ls[i] == names[i - 1]);
    }
    lemma_enabled_to(ls, ls.len());
    assert(ls.subrange(1, ls.len() as int) =~= names);
}

/// A module is enabled where some line is its name, white space around it aside; a line that is blank
/// or a comment enables none.
pub proof fn enabled_names_are_lines(ls: Seq<Seq<char>>, n: nat, name: Seq<char>)
    requires
        n <= ls.len(),
    ensures
        enabled_to(ls, n).contains(name) <==> name.len() > 0 && name[0] != '#' && exists|i: int|
            0 <= i < n && trimmed(#[trigger] ls[i]) == name,
    decreases n,
{
    if n > 0 {
        enabled_names_are_lines(ls, (n - 1) as nat, name);
        if name.len() > 0 && name[0] != '#' && exists|i: int| 0 <= i < n && trimmed(#[trigger] ls[i]) == name {
            let i = choose|i: int| 0 <= i < n && trimmed(#[trigger] ls[i]) == name;
            if i < n - 1 {
                assert(enabled_to(ls, (n - 1) as nat).contains(name));
            }
        }
        if enabled_to(ls, (n - 1) as nat).contains(name) {
            let i = choose|i: int| 0 <= i < n - 1 && trimmed(#[trigger] ls[i]) == name;
            assert(trimmed(ls[i]) == name);
        }
        assert(trimmed(ls[n - 1]) == trimmed(ls[n - 1]));
    }
}

} // verus!
