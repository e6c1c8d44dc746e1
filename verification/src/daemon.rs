//! The workspace daemon: what it does about a request, and the paths it serves.
//!
//! Every path is taken relative to a root and refused where it leads out of it. The paths are
//! judged by their text alone, so that a file that does not exist yet can be judged too.

use vstd::prelude::*;
use vstd::utf8::{decode_utf8, encode_utf8, encode_utf8_decode_utf8, encode_utf8_valid_utf8, valid_utf8};
use crate::bytes::{byte_len, decode, len_of};
use crate::number::{decimal, decimal_text};
use crate::paths::{join, joined};
use crate::proto::{DirEntry, ErrorKind, Request, Response, StatInfo, PROTOCOL_VERSION};
use crate::text::{chars_of, first_at, is_text, lemma_first_at, lemma_first_at_is, lemma_text_lt_total, lemma_text_lt_trans, pieces, pieces_make_up_the_text, push_text, same, separated, split_char, string_of, text_less, text_lt, views};

verus! {

/// A part of a path.
#[derive(Debug)]
pub enum Component {
    /// The slash that an absolute path begins with.
    Root,
    /// A dot that a relative path begins with.
    Cur,
    /// Two dots.
    Parent,
    Name(String),
}

/// What a [`Component`] stands for.
pub enum Part {
    Root,
    Cur,
    Parent,
    Name(Seq<char>),
}

impl View for Component {
    type V = Part;

    open spec fn view(&self) -> Part {
        match *self {
            Component::Root => Part::Root,
            Component::Cur => Part::Cur,
            Component::Parent => Part::Parent,
            Component::Name(s) => Part::Name(s@),
        }
    }
}

/// The parts of a list of components.
pub open spec fn parts(v: Seq<Component>) -> Seq<Part> {
    Seq::new(v.len(), |i: int| v[i]@)
}

/// Whether a path is absolute.
pub open spec fn rooted(path: Seq<char>) -> bool {
    path.len() > 0 && path[0] == '/'
}

/// The part that the piece at `i` between slashes is; dots count only where a relative path
/// begins with them.
pub open spec fn part_of(p: Seq<char>, i: int, absolute: bool) -> Option<Part> {
    if p.len() == 0 {
        None
    } else if p == "."@ {
        if i == 0 && !absolute {
            Some(Part::Cur)
        } else {
            None
        }
    } else if p == ".."@ {
        Some(Part::Parent)
    } else {
        Some(Part::Name(p))
    }
}

/// The parts that the first `n` pieces are.
pub open spec fn parts_to(ps: Seq<Seq<char>>, absolute: bool, n: nat) -> Seq<Part>
    decreases n,
{
    if n == 0 {
        if absolute {
            seq![Part::Root]
        } else {
            Seq::empty()
        }
    } else {
        let before = parts_to(ps, absolute, (n - 1) as nat);
        match part_of(ps[n - 1], n - 1, absolute) {
            Some(p) => before.push(p),
            None => before,
        }
    }
}

/// The parts of a path.
pub open spec fn parts_in(path: Seq<char>) -> Seq<Part> {
    parts_to(pieces(path, '/'), rooted(path), pieces(path, '/').len())
}

/// The parts with each `..` taken together with the name before it; `None` where one has no
/// name before it.
pub open spec fn resolved(ps: Seq<Part>, n: nat) -> Option<Seq<Part>>
    decreases n,
{
    if n == 0 {
        Some(Seq::empty())
    } else {
        match resolved(ps, (n - 1) as nat) {
            None => None,
            Some(before) => match ps[n - 1] {
                Part::Root => Some(seq![Part::Root]),
                Part::Cur => Some(before),
                Part::Parent => if before.len() == 0 || before.last() is Root {
                    None
                } else {
                    Some(before.drop_last())
                },
                Part::Name(s) => Some(before.push(Part::Name(s))),
            },
        }
    }
}

/// The path that parts write.
pub open spec fn written(ps: Seq<Part>) -> Seq<char>
    decreases ps.len(),
{
    if ps.len() == 0 {
        Seq::empty()
    } else {
        match ps.last() {
            Part::Name(s) => joined(written(ps.drop_last()), s),
            _ => "/"@,
        }
    }
}

/// The path that a request's path means, from the root on.
pub open spec fn from_root(root: Seq<char>, path: Seq<char>) -> Seq<char> {
    if rooted(path) {
        path
    } else {
        joined(root, path)
    }
}

/// The parts of the path that a request may touch; `None` where it leads out of the root.
pub open spec fn confined(root: Seq<char>, path: Seq<char>) -> Option<Seq<Part>> {
    let ps = parts_in(from_root(root, path));
    match resolved(ps, ps.len()) {
        Some(r) => if parts_in(root).is_prefix_of(r) {
            Some(r)
        } else {
            None
        },
        None => None,
    }
}

/// The parts of `path`.
pub fn components(path: &str) -> (r: Vec<Component>)
    ensures
        parts(r@) == parts_in(path@),
{
    let cs = chars_of(path);
    let absolute = cs.len() > 0 && cs[0] == '/';
    let ps = split_char(&cs, '/');
    let ghost all = pieces(path@, '/');
    let mut out: Vec<Component> = Vec::new();
    if absolute {
        out.push(Component::Root);
    }
    assert(parts(out@) =~= parts_to(all, absolute, 0));
    for i in 0..ps.len()
        invariant
            views(ps@) == all,
            parts(out@) == parts_to(all, absolute, i as nat),
    {
        assert(all[i as int] == ps@[i as int]@);
        let p = &ps[i];
        let ghost before = parts(out@);
        if p.len() == 0 {
        } else if is_text(p, ".") {
            if i == 0 && !absolute {
                out.push(Component::Cur);
                assert(parts(out@) =~= before.push(Part::Cur));
            }
        } else if is_text(p, "..") {
            out.push(Component::Parent);
            assert(parts(out@) =~= before.push(Part::Parent));
        } else {
            out.push(Component::Name(string_of(p)));
            assert(parts(out@) =~= before.push(Part::Name(p@)));
        }
    }
    out
}

proof fn lemma_resolved_none(ps: Seq<Part>, k: nat, n: nat)
    requires
        k <= n,
        resolved(ps, k) is None,
    ensures
        resolved(ps, n) is None,
    decreases n,
{
    if k < n {
        lemma_resolved_none(ps, k, (n - 1) as nat);
    }
}

fn resolve(ps: Vec<Component>) -> (r: Option<Vec<Component>>)
    ensures
        match r {
            Some(v) => resolved(parts(ps@), ps@.len()) == Some(parts(v@)),
            None => resolved(parts(ps@), ps@.len()) is None,
        },
{
    let ghost all = parts(ps@);
    let mut out: Vec<Component> = Vec::new();
    assert(parts(out@) =~= Seq::<Part>::empty());
    for i in 0..ps.len()
        invariant
            all == parts(ps@),
            resolved(all, i as nat) == Some(parts(out@)),
    {
        let ghost before = parts(out@);
        match &ps[i] {
            Component::Root => {
                out.clear();
                out.push(Component::Root);
                assert(parts(out@) =~= seq![Part::Root]);
            },
            Component::Cur => {},
            Component::Parent => {
                let blocked = if out.len() == 0 {
                    true
                } else {
                    match out[out.len() - 1] {
                        Component::Root => true,
                        _ => false,
                    }
                };
                if blocked {
                    proof {
                        lemma_resolved_none(all, (i + 1) as nat, all.len());
                    }
                    return None;
                }
                let _ = out.pop();
                assert(parts(out@) =~= before.drop_last());
            },
            Component::Name(s) => {
                out.push(Component::Name(s.clone()));
                assert(parts(out@) =~= before.push(Part::Name(s@)));
            },
        }
    }
    Some(out)
}

fn same_component(a: &Component, b: &Component) -> (r: bool)
    ensures
        r == (a@ == b@),
{
    match (a, b) {
        (Component::Root, Component::Root) => true,
        (Component::Cur, Component::Cur) => true,
        (Component::Parent, Component::Parent) => true,
        (Component::Name(s), Component::Name(t)) => same(s, t),
        _ => false,
    }
}

fn begins_with(v: &Vec<Component>, p: &Vec<Component>) -> (r: bool)
    ensures
        r == parts(p@).is_prefix_of(parts(v@)),
{
    if p.len() > v.len() {
        return false;
    }
    for i in 0..p.len()
        invariant
            p@.len() <= v@.len(),
            forall|k: int| 0 <= k < i ==> parts(p@)[k] == parts(v@)[k],
    {
        if !same_component(&p[i], &v[i]) {
            assert(parts(v@).subrange(0, p@.len() as int)[i as int] != parts(p@)[i as int]);
            return false;
        }
    }
    assert(parts(v@).subrange(0, p@.len() as int) =~= parts(p@));
    true
}

// --- paths below a directory ---

/// Whether a piece between slashes is no part of a path behind its start: it is empty, or a dot.
pub open spec fn is_blank(p: Seq<char>) -> bool {
    p.len() == 0 || p == "."@
}

/// How many pieces, `n` or more of them, hold the first `want` parts.
pub open spec fn pieces_for(ps: Seq<Seq<char>>, absolute: bool, want: nat, n: nat) -> nat
    decreases ps.len() - n,
{
    if n >= ps.len() || parts_to(ps, absolute, n).len() >= want {
        n
    } else {
        pieces_for(ps, absolute, want, n + 1)
    }
}

/// The place of the first piece from `n` on that is not blank; the end where there is none.
pub open spec fn past_blanks(ps: Seq<Seq<char>>, n: int) -> int
    decreases ps.len() - n,
{
    if n < ps.len() && is_blank(ps[n]) {
        past_blanks(ps, n + 1)
    } else {
        n
    }
}

/// The end of the first `n` pieces without the blank ones at their end, but not before `low`.
pub open spec fn before_blanks(ps: Seq<Seq<char>>, low: int, n: int) -> int
    decreases n,
{
    if n > low && n > 0 && is_blank(ps[n - 1]) {
        before_blanks(ps, low, n - 1)
    } else {
        n
    }
}

/// Pieces set apart by slashes.
pub open spec fn slashed(ps: Seq<Seq<char>>) -> Seq<char>
    decreases ps.len(),
{
    if ps.len() == 0 {
        Seq::empty()
    } else if ps.len() == 1 {
        ps[0]
    } else {
        slashed(ps.drop_last()).push('/') + ps.last()
    }
}

/// A path without the slashes and dots at its end.
pub open spec fn tidied(path: Seq<char>) -> Seq<char> {
    let ps = pieces(path, '/');
    let low: int = if rooted(path) || ps[0] == "."@ {
        1
    } else {
        0
    };
    let to = before_blanks(ps, low, ps.len() as int);
    if rooted(path) && to == 1 {
        "/"@
    } else {
        slashed(ps.take(to))
    }
}

/// A path below a directory: what is left behind the parts of the directory, without slashes and
/// dots around it. A path whose parts do not begin with those of the directory is left whole.
pub open spec fn below(path: Seq<char>, dir: Seq<char>) -> Seq<char> {
    let ps = pieces(path, '/');
    let want = parts_in(dir).len();
    if !parts_in(dir).is_prefix_of(parts_in(path)) {
        path
    } else if want == 0 {
        tidied(path)
    } else {
        let from = past_blanks(ps, pieces_for(ps, rooted(path), want, 0) as int);
        slashed(ps.subrange(from, before_blanks(ps, from, ps.len() as int)))
    }
}

fn write_slashed(ps: &Vec<Vec<char>>, from: usize, to: usize) -> (r: String)
    requires
        from <= to <= ps@.len(),
    ensures
        r@ == slashed(views(ps@).subrange(from as int, to as int)),
{
    let ghost all = views(ps@);
    let mut out = String::new();
    let mut i: usize = from;
    assert(out@ =~= slashed(all.subrange(from as int, from as int)));
    while i < to
        invariant
            from <= i <= to <= ps@.len(),
            all == views(ps@),
            out@ == slashed(all.subrange(from as int, i as int)),
        decreases to - i,
    {
        if i > from {
            out.push('/');
        }
        push_text(&mut out, &string_of(&ps[i]));
        let ghost part = all.subrange(from as int, i + 1);
        assert(part.last() == ps@[i as int]@);
        assert(part.drop_last() =~= all.subrange(from as int, i as int));
        if i == from {
            assert(out@ =~= part[0]);
        }
        i += 1;
    }
    out
}

proof fn lemma_pieces_len(s: Seq<char>)
    ensures
        pieces(s, '/').len() >= 1,
{
    let k = first_at(s, '/');
    if k < s.len() {
        assert(pieces(s, '/')[0] == s.take(k));
    }
}

fn blank(p: &[char]) -> (r: bool)
    ensures
        r == is_blank(p@),
{
    p.len() == 0 || is_text(p, ".")
}

/// The path `path` below the directory `dir`.
pub fn path_below(path: &str, dir: &str) -> (r: String)
    ensures
        r@ == below(path@, dir@),
{
    let within = components(dir);
    let own = components(path);
    if !begins_with(&own, &within) {
        return path.to_owned();
    }
    let cs = chars_of(path);
    let ps = split_char(&cs, '/');
    let ghost all = pieces(path@, '/');
    let absolute = cs.len() > 0 && cs[0] == '/';
    let want = within.len();
    assert(want == parts_in(dir@).len());
    proof {
        lemma_pieces_len(path@);
    }
    assert(all[0] == ps@[0]@);
    let mut from: usize = 0;
    let mut low: usize = 0;
    if want == 0 {
        if absolute || is_text(&ps[0], ".") {
            low = 1;
        }
    } else {
        let mut count: usize = if absolute {
            1
        } else {
            0
        };
        while from < ps.len() && count < want
            invariant
                views(ps@) == all,
                from <= ps@.len(),
                count <= want,
                want == parts_in(dir@).len(),
                count == parts_to(all, absolute, from as nat).len(),
                pieces_for(all, absolute, want as nat, from as nat) == pieces_for(all, absolute, want as nat, 0),
            decreases ps@.len() - from,
        {
            assert(all[from as int] == ps@[from as int]@);
            let dot = is_text(&ps[from], ".");
            if ps[from].len() > 0 && (!dot || (from == 0 && !absolute)) {
                count += 1;
            }
            from += 1;
        }
        assert(from == pieces_for(all, absolute, want as nat, 0));
        let ghost start = from as int;
        while from < ps.len() && blank(&ps[from])
            invariant
                views(ps@) == all,
                from <= ps@.len(),
                past_blanks(all, from as int) == past_blanks(all, start),
            decreases ps@.len() - from,
        {
            assert(all[from as int] == ps@[from as int]@);
            from += 1;
        }
        if from < ps.len() {
            assert(all[from as int] == ps@[from as int]@);
        }
        low = from;
    }
    let mut to: usize = ps.len();
    while to > low && blank(&ps[to - 1])
        invariant
            views(ps@) == all,
            from <= low <= to <= ps@.len(),
            before_blanks(all, low as int, to as int) == before_blanks(all, low as int, all.len() as int),
        decreases to,
    {
        assert(all[to - 1] == ps@[to - 1]@);
        to -= 1;
    }
    if to > low {
        assert(all[to - 1] == ps@[to - 1]@);
    }
    if want == 0 {
        if absolute && to == 1 {
            return "/".to_owned();
        }
        assert(all.subrange(0, to as int) =~= all.take(to as int));
    }
    write_slashed(&ps, from, to)
}

fn write_path(v: &Vec<Component>) -> (r: String)
    ensures
        r@ == written(parts(v@)),
{
    let ghost all = parts(v@);
    let mut out = String::new();
    for i in 0..v.len()
        invariant
            all == parts(v@),
            out@ == written(all.take(i as int)),
    {
        assert(all.take(i + 1).drop_last() =~= all.take(i as int));
        match &v[i] {
            Component::Name(s) => {
                out = join(&out, s);
            },
            _ => {
                out = "/".to_owned();
            },
        }
    }
    assert(all.take(all.len() as int) =~= all);
    out
}

/// The answer to a request for a path outside the root.
pub open spec fn is_escape(r: Response, path: Seq<char>) -> bool {
    r matches Response::Error { kind, message } && kind == ErrorKind::PermissionDenied && message@
        == "path escapes the workspace root: "@ + path
}

/// The answer to a request for a path outside the root.
pub fn escape_error(path: &str) -> (r: Response)
    ensures
        is_escape(r, path@),
{
    let mut message = "path escapes the workspace root: ".to_owned();
    push_text(&mut message, path);
    Response::Error { kind: ErrorKind::PermissionDenied, message }
}

/// The path under `root` that `path` means, or the answer that refuses it.
pub fn confine(root: &str, path: &str) -> (r: Result<String, Response>)
    ensures
        match r {
            Ok(p) => confined(root@, path@) matches Some(ps) && p@ == written(ps),
            Err(e) => confined(root@, path@) is None && is_escape(e, path@),
        },
{
    let cs = chars_of(path);
    let whole = if cs.len() > 0 && cs[0] == '/' {
        path.to_owned()
    } else {
        join(root, path)
    };
    let ps = components(&whole);
    match resolve(ps) {
        Some(v) => {
            let base = components(root);
            if begins_with(&v, &base) {
                Ok(write_path(&v))
            } else {
                Err(escape_error(path))
            }
        },
        None => Err(escape_error(path)),
    }
}

/// A name that can stand between slashes.
pub open spec fn is_name(s: Seq<char>) -> bool {
    &&& s.len() > 0
    &&& s != "."@
    &&& s != ".."@
    &&& forall|i: int| 0 <= i < s.len() ==> s[i] != '/'
}

/// Parts that a resolved path can have: names, behind a slash where it is absolute.
pub open spec fn is_plain(ps: Seq<Part>) -> bool {
    forall|i: int|
        0 <= i < ps.len() ==> (match #[trigger] ps[i] {
            Part::Name(s) => is_name(s),
            Part::Root => i == 0,
            _ => false,
        })
}

proof fn lemma_piece_free(s: Seq<char>, c: char)
    ensures
        forall|i: int, k: int|
            0 <= i < pieces(s, c).len() && 0 <= k < pieces(s, c)[i].len() ==> #[trigger] pieces(s, c)[i][k] != c,
    decreases s.len(),
{
    let k = first_at(s, c);
    lemma_first_at(s, c);
    if k < s.len() {
        lemma_piece_free(s.skip(k + 1), c);
        let head = s.take(k);
        let rest = pieces(s.skip(k + 1), c);
        assert(pieces(s, c) == seq![head] + rest);
        assert forall|i: int, j: int|
            0 <= i < pieces(s, c).len() && 0 <= j < pieces(s, c)[i].len() implies #[trigger] pieces(s, c)[i][j] != c by {
            if i > 0 {
                assert(pieces(s, c)[i] == rest[i - 1]);
            }
        }
    }
}

proof fn lemma_parts_named(ps: Seq<Seq<char>>, absolute: bool, n: nat)
    requires
        n <= ps.len(),
        forall|i: int, k: int| 0 <= i < ps.len() && 0 <= k < ps[i].len() ==> #[trigger] ps[i][k] != '/',
    ensures
        forall|i: int|
            0 <= i < parts_to(ps, absolute, n).len() ==> (match #[trigger] parts_to(ps, absolute, n)[i] {
                Part::Name(s) => is_name(s),
                Part::Root => i == 0,
                _ => true,
            }),
    decreases n,
{
    if n > 0 {
        lemma_parts_named(ps, absolute, (n - 1) as nat);
    }
}

proof fn lemma_resolved_plain(ps: Seq<Part>, n: nat)
    requires
        n <= ps.len(),
        forall|i: int|
            0 <= i < ps.len() ==> (match #[trigger] ps[i] {
                Part::Name(s) => is_name(s),
                Part::Root => i == 0,
                _ => true,
            }),
    ensures
        resolved(ps, n) matches Some(r) ==> is_plain(r),
    decreases n,
{
    if n > 0 {
        lemma_resolved_plain(ps, (n - 1) as nat);
        if let Some(before) = resolved(ps, (n - 1) as nat) {
            let p = ps[n - 1];
            if let Some(r) = resolved(ps, n) {
                assert forall|i: int| 0 <= i < r.len() implies (match #[trigger] r[i] {
                    Part::Name(s) => is_name(s),
                    Part::Root => i == 0,
                    _ => false,
                }) by {
                    if i < before.len() && !(p is Root) {
                        assert(r[i] == before[i]);
                    }
                }
            }
        }
    }
}

proof fn lemma_pieces_push(a: Seq<char>, s: Seq<char>)
    requires
        forall|i: int| 0 <= i < s.len() ==> s[i] != '/',
    ensures
        pieces(a.push('/') + s, '/') == pieces(a, '/').push(s),
    decreases a.len(),
{
    let t = a.push('/') + s;
    let k = first_at(a, '/');
    lemma_first_at(a, '/');
    assert(pieces(s, '/') =~= seq![s]) by {
        lemma_first_at_is(s, '/', s.len() as int);
    }
    if k >= a.len() {
        assert forall|i: int| 0 <= i < a.len() implies t[i] != '/' by {
            assert(t[i] == a[i]);
        }
        lemma_first_at_is(t, '/', a.len() as int);
        assert(t.take(a.len() as int) =~= a);
        assert(t.skip(a.len() as int + 1) =~= s);
        assert(pieces(t, '/') =~= seq![a] + seq![s]);
        assert(pieces(a, '/').push(s) =~= seq![a] + seq![s]);
    } else {
        assert forall|i: int| 0 <= i < k implies t[i] != '/' by {
            assert(t[i] == a[i]);
        }
        lemma_first_at_is(t, '/', k);
        let rest = a.skip(k + 1);
        lemma_pieces_push(rest, s);
        assert(t.take(k) =~= a.take(k));
        assert(t.skip(k + 1) =~= rest.push('/') + s);
        assert(pieces(t, '/') =~= seq![a.take(k)] + pieces(rest, '/').push(s));
        assert(pieces(a, '/').push(s) =~= seq![a.take(k)] + pieces(rest, '/').push(s));
    }
}

proof fn lemma_written(ps: Seq<Part>)
    requires
        is_plain(ps),
    ensures
        parts_in(written(ps)) == ps,
        rooted(written(ps)) == (ps.len() > 0 && ps[0] is Root),
        written(ps).len() == 0 <==> ps.len() == 0,
        ps.len() > 0 && ps.last() is Name ==> written(ps).last() != '/',
        ps.len() > 0 && ps.last() is Root ==> written(ps) == "/"@,
    decreases ps.len(),
{
    reveal_strlit("/");
    if ps.len() == 0 {
        let e = Seq::<char>::empty();
        assert(written(ps) =~= e);
        lemma_first_at_is(e, '/', 0);
        assert(pieces(e, '/') =~= seq![e]);
        assert(parts_to(seq![e], false, 0) =~= Seq::<Part>::empty());
        assert(parts_to(seq![e], false, 1) =~= Seq::<Part>::empty());
        assert(parts_in(written(ps)) =~= ps);
    } else {
        let front = ps.drop_last();
        assert(is_plain(front)) by {
            assert forall|i: int| 0 <= i < front.len() implies (match #[trigger] front[i] {
                Part::Name(s) => is_name(s),
                Part::Root => i == 0,
                _ => false,
            }) by {
                assert(front[i] == ps[i]);
            }
        }
        lemma_written(front);
        assert(ps.last() == ps[ps.len() - 1]);
        match ps.last() {
            Part::Root => {
                let w = written(ps);
                let e = Seq::<char>::empty();
                assert(w =~= seq!['/']);
                lemma_first_at_is(w, '/', 0);
                assert(w.take(0) =~= e);
                assert(w.skip(1) =~= e);
                lemma_first_at_is(e, '/', 0);
                assert(pieces(e, '/') =~= seq![e]);
                let pp = pieces(w, '/');
                assert(pp =~= seq![e, e]);
                assert(parts_to(pp, true, 0) =~= seq![Part::Root]);
                assert(parts_to(pp, true, 1) =~= seq![Part::Root]);
                assert(parts_to(pp, true, 2) =~= seq![Part::Root]);
                assert(ps =~= seq![Part::Root]);
            },
            Part::Name(s) => {
                assert(is_name(s));
                let f = written(front);
                let w = written(ps);
                assert(w == joined(f, s));
                if f.len() == 0 {
                    assert(front.len() == 0);
                    assert(w =~= s);
                    lemma_first_at_is(s, '/', s.len() as int);
                    assert(pieces(s, '/') =~= seq![s]);
                    let pp = pieces(s, '/');
                    assert(parts_to(pp, false, 0) =~= Seq::<Part>::empty());
                    assert(parts_to(pp, false, 1) =~= seq![Part::Name(s)]);
                    assert(parts_in(w) =~= ps);
                } else if f.last() == '/' {
                    assert(front.last() is Root) by {
                        assert(front.last() == front[front.len() - 1]);
                    }
                    assert(front[front.len() - 1] is Root);
                    assert(front.len() == 1);
                    assert(f =~= seq!['/']);
                    assert(w =~= seq!['/'] + s);
                    lemma_pieces_push(Seq::<char>::empty(), s);
                    assert(Seq::<char>::empty().push('/') + s =~= w);
                    let e = Seq::<char>::empty();
                    lemma_first_at_is(e, '/', 0);
                    assert(pieces(e, '/') =~= seq![e]);
                    let pp = pieces(w, '/');
                    assert(pp =~= seq![e, s]);
                    assert(parts_to(pp, true, 0) =~= seq![Part::Root]);
                    assert(parts_to(pp, true, 1) =~= seq![Part::Root]);
                    assert(parts_to(pp, true, 2) =~= seq![Part::Root, Part::Name(s)]);
                    assert(ps =~= seq![Part::Root, Part::Name(s)]);
                } else {
                    lemma_pieces_push(f, s);
                    let pf = pieces(f, '/');
                    let pw = pieces(w, '/');
                    assert(pw == pf.push(s));
                    assert(rooted(w) == rooted(f));
                    lemma_parts_prefix(pf, s, rooted(f), pf.len());
                    assert(pf.len() > 0);
                    assert(parts_to(pw, rooted(f), pw.len()) == parts_to(pw, rooted(f), pf.len()).push(
                        Part::Name(s),
                    ));
                    assert(parts_in(w) =~= front.push(Part::Name(s)));
                    assert(ps =~= front.push(Part::Name(s)));
                }
            },
            _ => {},
        }
    }
}

proof fn lemma_parts_prefix(pf: Seq<Seq<char>>, s: Seq<char>, absolute: bool, n: nat)
    requires
        n <= pf.len(),
    ensures
        parts_to(pf.push(s), absolute, n) == parts_to(pf, absolute, n),
    decreases n,
{
    if n > 0 {
        lemma_parts_prefix(pf, s, absolute, (n - 1) as nat);
        assert(pf.push(s)[n - 1] == pf[n - 1]);
    }
}

/// The path that a request may touch lies below the root: its parts are the root's and then
/// names, with no dots among them, whatever the request asked for.
pub proof fn confined_paths_stay_inside(root: Seq<char>, path: Seq<char>)
    requires
        confined(root, path) is Some,
    ensures
        parts_in(written(confined(root, path)->0)) == confined(root, path)->0,
        parts_in(root).is_prefix_of(confined(root, path)->0),
        is_plain(confined(root, path)->0),
{
    let whole = from_root(root, path);
    let pp = pieces(whole, '/');
    lemma_piece_free(whole, '/');
    lemma_parts_named(pp, rooted(whole), pp.len());
    let ps = parts_in(whole);
    lemma_resolved_plain(ps, ps.len());
    lemma_written(confined(root, path)->0);
}

// --- requests ---

/// What to do about a request.
#[derive(Debug)]
pub enum Task {
    /// Answer it.
    Reply(Response),
    /// List a directory.
    ListDir(String),
    /// Read a file.
    ReadFile(String),
    /// Write a file.
    WriteFile(String, String),
    /// Look at a path.
    Stat(String),
    /// Stop.
    Stop,
}

/// Whether a task is what a request asks for: a path is touched only where it may be.
pub open spec fn handled(root: Seq<char>, req: Request, t: Task) -> bool {
    match req {
        Request::Hello { version } => if version == PROTOCOL_VERSION {
            t matches Task::Reply(Response::Hello { version: v, cwd }) && v == PROTOCOL_VERSION && cwd@ == root
        } else {
            t matches Task::Reply(Response::Error { kind, message }) && kind == ErrorKind::VersionMismatch
                && message@ == "client protocol v"@ + decimal(version as nat) + ", daemon v1"@
        },
        Request::Ping => t == Task::Reply(Response::Pong),
        Request::Shutdown => t is Stop,
        Request::ListDir { path } => match confined(root, path@) {
            Some(ps) => t matches Task::ListDir(p) && p@ == written(ps),
            None => t matches Task::Reply(r) && is_escape(r, path@),
        },
        Request::ReadFile { path } => match confined(root, path@) {
            Some(ps) => t matches Task::ReadFile(p) && p@ == written(ps),
            None => t matches Task::Reply(r) && is_escape(r, path@),
        },
        Request::WriteFile { path, contents } => match confined(root, path@) {
            Some(ps) => t matches Task::WriteFile(p, c) && p@ == written(ps) && c == contents,
            None => t matches Task::Reply(r) && is_escape(r, path@),
        },
        Request::Stat { path } => match confined(root, path@) {
            Some(ps) => t matches Task::Stat(p) && p@ == written(ps),
            None => t matches Task::Reply(r) && is_escape(r, path@),
        },
    }
}

/// Nothing outside the root is touched, whatever is asked for; a file is written only where that is asked
/// for, and then with what was sent; and only a request to stop stops the daemon.
pub proof fn tasks_stay_inside(root: Seq<char>, req: Request, t: Task)
    requires
        handled(root, req, t),
    ensures
        t matches Task::ListDir(p) ==> req is ListDir && parts_in(root).is_prefix_of(parts_in(p@)),
        t matches Task::ReadFile(p) ==> req is ReadFile && parts_in(root).is_prefix_of(parts_in(p@)),
        t matches Task::Stat(p) ==> req is Stat && parts_in(root).is_prefix_of(parts_in(p@)),
        t matches Task::WriteFile(p, c) ==> parts_in(root).is_prefix_of(parts_in(p@)) && (req matches
        Request::WriteFile { path: _, contents } && c == contents),
        t is Stop <==> req is Shutdown,
        req is Ping ==> t == Task::Reply(Response::Pong),
        req matches Request::Hello { version } ==> (t matches Task::Reply(Response::Hello { version: _, cwd: _ })
            <==> version == PROTOCOL_VERSION),
{
    match req {
        Request::ListDir { path } => {
            if confined(root, path@) is Some {
                confined_paths_stay_inside(root, path@);
            }
        },
        Request::ReadFile { path } => {
            if confined(root, path@) is Some {
                confined_paths_stay_inside(root, path@);
            }
        },
        Request::WriteFile { path, contents } => {
            if confined(root, path@) is Some {
                confined_paths_stay_inside(root, path@);
            }
        },
        Request::Stat { path } => {
            if confined(root, path@) is Some {
                confined_paths_stay_inside(root, path@);
            }
        },
        _ => {},
    }
}

/// Decides what to do about a request to the workspace at `root`.
pub fn handle(root: &str, req: Request) -> (t: Task)
    ensures
        handled(root@, req, t),
{
    match req {
        Request::Hello { version } => if version != PROTOCOL_VERSION {
            let mut message = "client protocol v".to_owned();
            push_text(&mut message, &decimal_text(version as u64));
            push_text(&mut message, ", daemon v1");
            Task::Reply(Response::Error { kind: ErrorKind::VersionMismatch, message })
        } else {
            Task::Reply(Response::Hello { version: PROTOCOL_VERSION, cwd: root.to_owned() })
        },
        Request::Ping => Task::Reply(Response::Pong),
        Request::Shutdown => Task::Stop,
        Request::ListDir { path } => match confine(root, &path) {
            Ok(p) => Task::ListDir(p),
            Err(e) => Task::Reply(e),
        },
        Request::ReadFile { path } => match confine(root, &path) {
            Ok(p) => Task::ReadFile(p),
            Err(e) => Task::Reply(e),
        },
        Request::WriteFile { path, contents } => match confine(root, &path) {
            Ok(p) => Task::WriteFile(p, contents),
            Err(e) => Task::Reply(e),
        },
        Request::Stat { path } => match confine(root, &path) {
            Ok(p) => Task::Stat(p),
            Err(e) => Task::Reply(e),
        },
    }
}

// --- answers ---

/// How an operation on the disk failed.
#[derive(Clone, Copy, Debug, PartialEq, Eq, Structural)]
pub enum Failure {
    NotFound,
    PermissionDenied,
    Other,
}

/// The kind that a failure is reported as.
pub open spec fn failure_kind(f: Failure) -> ErrorKind {
    match f {
        Failure::NotFound => ErrorKind::NotFound,
        Failure::PermissionDenied => ErrorKind::PermissionDenied,
        Failure::Other => ErrorKind::Io,
    }
}

/// The answer to a request that the disk refused.
pub fn io_error(failure: Failure, message: String) -> (r: Response)
    ensures
        r == (Response::Error { kind: failure_kind(failure), message }),
{
    let kind = match failure {
        Failure::NotFound => ErrorKind::NotFound,
        Failure::PermissionDenied => ErrorKind::PermissionDenied,
        Failure::Other => ErrorKind::Io,
    };
    Response::Error { kind, message }
}

/// Whether an entry comes before another: directories first, and then by name.
pub open spec fn entry_lt(a: DirEntry, b: DirEntry) -> bool {
    (a.is_dir && !b.is_dir) || (a.is_dir == b.is_dir && text_lt(a.name@, b.name@))
}

/// No entry comes before one that it should come behind.
pub open spec fn entries_sorted(v: Seq<DirEntry>) -> bool {
    forall|i: int, j: int| 0 <= i < j < v.len() ==> !entry_lt(#[trigger] v[j], #[trigger] v[i])
}

fn entry_less(a: &DirEntry, b: &DirEntry) -> (r: bool)
    ensures
        r == entry_lt(*a, *b),
{
    (a.is_dir && !b.is_dir) || (a.is_dir == b.is_dir && text_less(&a.name, &b.name))
}

proof fn lemma_entry_lt(a: DirEntry, b: DirEntry, c: DirEntry)
    ensures
        !(entry_lt(a, b) && entry_lt(b, a)),
        entry_lt(a, b) && !entry_lt(c, b) ==> entry_lt(a, c),
{
    lemma_text_lt_total(a.name@, b.name@);
    lemma_text_lt_total(b.name@, a.name@);
    lemma_text_lt_total(b.name@, c.name@);
    if text_lt(a.name@, b.name@) && text_lt(b.name@, c.name@) {
        lemma_text_lt_trans(a.name@, b.name@, c.name@);
    }
}

/// The answer that lists a directory: the same entries, directories first, by name.
pub fn list_dir(entries: Vec<DirEntry>) -> (r: Response)
    ensures
        r matches Response::Dir { entries: sorted } && sorted@.to_multiset() == entries@.to_multiset()
            && entries_sorted(sorted@),
{
    let mut left = entries;
    let mut out: Vec<DirEntry> = Vec::new();
    broadcast use vstd::multiset::group_multiset_axioms;
    broadcast use vstd::seq_lib::group_to_multiset_ensures;

    assert(left@.to_multiset().add(out@.to_multiset()) =~= entries@.to_multiset());
    while left.len() > 0
        invariant
            entries_sorted(out@),
            left@.to_multiset().add(out@.to_multiset()) == entries@.to_multiset(),
        decreases left@.len(),
    {
        broadcast use vstd::multiset::group_multiset_axioms;
        broadcast use vstd::seq_lib::group_to_multiset_ensures;

        let ghost before_left = left@;
        let ghost before = out@;
        let d = match left.pop() {
            Some(d) => d,
            None => return Response::Dir { entries: out },
        };
        let ghost item = d;
        assert(before_left =~= left@.push(item));
        let mut p: usize = 0;
        while p < out.len() && entry_less(&out[p], &d)
            invariant
                p <= out@.len(),
                forall|i: int| 0 <= i < p ==> entry_lt(#[trigger] out@[i], d),
            decreases out@.len() - p,
        {
            p += 1;
        }
        assert forall|i: int| p <= i < out@.len() implies !entry_lt(#[trigger] out@[i], d) by {
            if i > p {
                assert(!entry_lt(out@[i], out@[p as int]));
                lemma_entry_lt(out@[i], d, out@[p as int]);
                lemma_entry_lt(out@[p as int], d, d);
            }
        }
        out.insert(p, d);
        assert(entries_sorted(out@)) by {
            assert forall|i: int, j: int| 0 <= i < j < out@.len() implies !entry_lt(
                #[trigger] out@[j],
                #[trigger] out@[i],
            ) by {
                let a = if i < p {
                    i
                } else {
                    i - 1
                };
                let b = if j < p {
                    j
                } else {
                    j - 1
                };
                lemma_entry_lt(out@[i], out@[j], out@[j]);
                if i != p && j != p {
                    assert(!entry_lt(before[b], before[a]));
                } else if i == p {
                    assert(out@[j] == before[b]);
                } else {
                    assert(out@[i] == before[a]);
                    assert(entry_lt(before[a], item));
                }
            }
        }
        assert(out@.to_multiset() =~= before.to_multiset().insert(item)) by {
            assert(out@.remove(p as int) =~= before);
            vstd::seq_lib::to_multiset_remove(out@, p as int);
            assert(out@.contains(item)) by {
                assert(out@[p as int] == item);
            }
            out@.to_multiset_ensures();
        }
        assert(left@.to_multiset().add(out@.to_multiset()) =~= entries@.to_multiset());
    }
    assert(left@ =~= Seq::<DirEntry>::empty());
    assert(left@.to_multiset().add(out@.to_multiset()) =~= out@.to_multiset());
    Response::Dir { entries: out }
}

/// Whether an answer holds the file of these bytes, or says that they are no text.
pub open spec fn holds_file(r: Response, bytes: Seq<u8>) -> bool {
    if valid_utf8(bytes) {
        r matches Response::File { contents } && contents@ == decode_utf8(bytes)
    } else {
        r matches Response::Error { kind, message } && kind == ErrorKind::NotUtf8 && message@
            == "file is not valid UTF-8"@
    }
}

/// The answer that holds a file, given its bytes.
pub fn read_file(bytes: Vec<u8>) -> (r: Response)
    ensures
        holds_file(r, bytes@),
{
    match decode(bytes) {
        Some(contents) => Response::File { contents },
        None => Response::Error {
            kind: ErrorKind::NotUtf8,
            message: "file is not valid UTF-8".to_owned(),
        },
    }
}

/// The answer to a write that succeeded.
pub fn write_file(contents: &str) -> (r: Response)
    ensures
        r matches Response::Written { bytes } && bytes == byte_len(contents@),
{
    Response::Written { bytes: len_of(contents) }
}

/// What was found at a path.
#[derive(Debug)]
pub enum Found {
    /// A directory or a file of some size.
    There { is_dir: bool, size: u64 },
    /// It could not be looked at.
    Failed(Failure, String),
}

/// The answer that says what a path is. One that does not exist is no failure.
pub fn stat(found: Found) -> (r: Response)
    ensures
        match found {
            Found::There { is_dir, size } => r == Response::Stat(
                (StatInfo { is_dir, size, exists: true }),
            ),
            Found::Failed(Failure::NotFound, _) => r == Response::Stat(
                (StatInfo { is_dir: false, size: 0, exists: false }),
            ),
            Found::Failed(f, message) => r == (Response::Error { kind: failure_kind(f), message }),
        },
{
    match found {
        Found::There { is_dir, size } => Response::Stat(StatInfo { is_dir, size, exists: true }),
        Found::Failed(f, message) => match f {
            Failure::NotFound => Response::Stat(StatInfo { is_dir: false, size: 0, exists: false }),
            _ => io_error(f, message),
        },
    }
}

/// The answer to what is no request.
pub fn malformed(reason: &str) -> (r: Response)
    ensures
        r matches Response::Error { kind, message } && kind == ErrorKind::Protocol && message@
            == "malformed request: "@ + reason@,
{
    let mut message = "malformed request: ".to_owned();
    push_text(&mut message, reason);
    Response::Error { kind: ErrorKind::Protocol, message }
}

/// A file reads back as what was written to it.
pub proof fn written_files_read_back(contents: Seq<char>, r: Response)
    requires
        holds_file(r, encode_utf8(contents)),
    ensures
        r matches Response::File { contents: c } && c@ == contents,
{
    encode_utf8_valid_utf8(contents);
    encode_utf8_decode_utf8(contents);
}

// --- which paths are let through ---

proof fn lemma_pieces_join(a: Seq<char>, b: Seq<char>)
    ensures
        pieces(a.push('/') + b, '/') == pieces(a, '/') + pieces(b, '/'),
    decreases a.len(),
{
    let t = a.push('/') + b;
    let k = first_at(a, '/');
    lemma_first_at(a, '/');
    assert forall|i: int| 0 <= i < k implies t[i] != '/' by {
        assert(t[i] == a[i]);
    }
    assert(t[k] == '/') by {
        if k < a.len() {
            assert(t[k] == a[k]);
        }
    }
    lemma_first_at_is(t, '/', k);
    assert(pieces(t, '/') == seq![t.take(k)] + pieces(t.skip(k + 1), '/'));
    if k < a.len() {
        let rest = a.skip(k + 1);
        lemma_pieces_join(rest, b);
        assert(t.take(k) =~= a.take(k));
        assert(t.skip(k + 1) =~= rest.push('/') + b);
        assert(pieces(a, '/') == seq![a.take(k)] + pieces(rest, '/'));
        assert(pieces(t, '/') =~= pieces(a, '/') + pieces(b, '/'));
    } else {
        assert(t.take(k) =~= a);
        assert(t.skip(k + 1) =~= b);
        assert(pieces(a, '/') == seq![a]);
    }
}

proof fn lemma_parts_join(pa: Seq<Seq<char>>, pb: Seq<Seq<char>>, absolute: bool, n: nat)
    requires
        pa.len() > 0,
        n <= pb.len(),
        pb.len() > 0 ==> pb[0] != "."@,
    ensures
        parts_to(pa + pb, absolute, pa.len() + n) == parts_to(pa, absolute, pa.len()) + parts_to(pb, false, n),
    decreases n,
{
    let all = pa + pb;
    if n > 0 {
        lemma_parts_join(pa, pb, absolute, (n - 1) as nat);
        assert(all[pa.len() + n - 1] == pb[n - 1]);
        assert(part_of(pb[n - 1], pa.len() + n - 1, absolute) == part_of(pb[n - 1], n - 1, false));
        assert(parts_to(all, absolute, pa.len() + n) =~= parts_to(pa, absolute, pa.len()) + parts_to(
            pb,
            false,
            n,
        ));
    } else {
        lemma_parts_same(pa, all, absolute, pa.len());
        assert(parts_to(pb, false, 0) =~= Seq::empty());
        assert(parts_to(pa, absolute, pa.len()) + Seq::<Part>::empty() =~= parts_to(pa, absolute, pa.len()));
    }
}

proof fn lemma_parts_same(a: Seq<Seq<char>>, b: Seq<Seq<char>>, absolute: bool, n: nat)
    requires
        n <= a.len(),
        n <= b.len(),
        forall|i: int| 0 <= i < n ==> a[i] == b[i],
    ensures
        parts_to(a, absolute, n) == parts_to(b, absolute, n),
    decreases n,
{
    if n > 0 {
        lemma_parts_same(a, b, absolute, (n - 1) as nat);
    }
}

/// The parts of a path behind a directory are those of the directory and then its own.
pub proof fn joined_paths_have_the_parts_of_both(dir: Seq<char>, path: Seq<char>)
    requires
        dir.len() > 0,
        dir.last() != '/',
        pieces(path, '/')[0] != "."@,
        !rooted(path),
    ensures
        parts_in(joined(dir, path)) == parts_in(dir) + parts_in(path),
{
    let all = joined(dir, path);
    assert(all =~= dir.push('/') + path);
    lemma_pieces_join(dir, path);
    lemma_pieces_len(dir);
    lemma_pieces_len(path);
    assert(all[0] == dir[0]);
    lemma_parts_join(pieces(dir, '/'), pieces(path, '/'), rooted(dir), pieces(path, '/').len());
}

proof fn lemma_resolved_same(ps: Seq<Part>, n: nat)
    requires
        n <= ps.len(),
        is_plain(ps),
    ensures
        resolved(ps, n) == Some(ps.take(n as int)),
    decreases n,
{
    if n > 0 {
        lemma_resolved_same(ps, (n - 1) as nat);
        assert(match ps[n - 1] {
            Part::Name(s) => is_name(s),
            Part::Root => n - 1 == 0,
            _ => false,
        });
        assert(ps.take(n as int) =~= ps.take(n - 1).push(ps[n - 1]));
        if n == 1 {
            assert(ps.take(1) =~= seq![ps[0]]);
        }
    } else {
        assert(ps.take(0) =~= Seq::empty());
    }
}

proof fn lemma_resolved_prefix(ps: Seq<Part>, more: Seq<Part>, n: nat)
    requires
        n <= ps.len(),
    ensures
        resolved(ps + more, n) == resolved(ps, n),
    decreases n,
{
    if n > 0 {
        lemma_resolved_prefix(ps, more, (n - 1) as nat);
        assert((ps + more)[n - 1] == ps[n - 1]);
    }
}

/// A step up undoes a step down, and nothing lies above the root.
pub proof fn steps_up_undo_steps_down(ps: Seq<Part>, s: Seq<char>)
    ensures
        resolved(ps.push(Part::Name(s)).push(Part::Parent), ps.len() + 2) == resolved(ps, ps.len()),
        resolved(ps, ps.len()) matches Some(r) ==> resolved(ps.push(Part::Name(s)), ps.len() + 1) == Some(
            r.push(Part::Name(s)),
        ),
        resolved(ps.push(Part::Cur), ps.len() + 1) == resolved(ps, ps.len()),
        resolved(seq![Part::Root, Part::Parent], 2) is None,
        resolved(seq![Part::Parent], 1) is None,
{
    let a = ps.push(Part::Name(s));
    let b = a.push(Part::Parent);
    lemma_resolved_prefix(ps, seq![Part::Name(s)], ps.len());
    assert(ps + seq![Part::Name(s)] =~= a);
    lemma_resolved_prefix(a, seq![Part::Parent], a.len());
    assert(a + seq![Part::Parent] =~= b);
    lemma_resolved_prefix(ps, seq![Part::Cur], ps.len());
    assert(ps + seq![Part::Cur] =~= ps.push(Part::Cur));
    if let Some(r) = resolved(ps, ps.len()) {
        assert(r.push(Part::Name(s)).drop_last() =~= r);
    }
    reveal_with_fuel(resolved, 3);
}

/// A path of names below the root is let through as it is written, and one that leads out of the root
/// is not, however it gets there.
pub proof fn paths_inside_are_let_through(root: Seq<char>, path: Seq<char>)
    requires
        root.len() > 0,
        root.last() != '/',
        is_plain(parts_in(root)),
        !rooted(path),
        is_plain(parts_in(path)),
    ensures
        confined(root, path) == Some(parts_in(root) + parts_in(path)),
        confined(root, ".."@) is None,
{
    let r = parts_in(root);
    let p = parts_in(path);
    lemma_no_dot(path);
    joined_paths_have_the_parts_of_both(root, path);
    let all = r + p;
    assert(is_plain(all)) by {
        lemma_no_root(path);
        assert forall|i: int| 0 <= i < all.len() implies (match #[trigger] all[i] {
            Part::Name(s) => is_name(s),
            Part::Root => i == 0,
            _ => false,
        }) by {
            if i < r.len() {
                assert(all[i] == r[i]);
            } else {
                assert(all[i] == p[i - r.len()]);
                assert(!(p[i - r.len()] is Root));
            }
        }
    }
    lemma_resolved_same(all, all.len());
    assert(all.take(all.len() as int) =~= all);
    assert(r.is_prefix_of(all)) by {
        assert(all.subrange(0, r.len() as int) =~= r);
    }
    lemma_up_and_out(root);
}

proof fn lemma_up_and_out(root: Seq<char>)
    requires
        root.len() > 0,
        root.last() != '/',
        is_plain(parts_in(root)),
    ensures
        confined(root, ".."@) is None,
{
    let r = parts_in(root);
    let up = ".."@;
    reveal_strlit("..");
    reveal_strlit(".");
    assert(up[0] == '.' && up[1] == '.' && up.len() == 2);
    lemma_first_at_is(up, '/', 2);
    assert(pieces(up, '/') == seq![up]);
    assert("."@.len() == 1);
    joined_paths_have_the_parts_of_both(root, up);
    assert(parts_to(seq![up], false, 0) =~= Seq::empty());
    assert(parts_in(up) =~= seq![Part::Parent]);
    let all = r + seq![Part::Parent];
    lemma_resolved_same(r, r.len());
    assert(r.take(r.len() as int) =~= r);
    lemma_resolved_prefix(r, seq![Part::Parent], r.len());
    assert(all[r.len() as int] is Parent);
    if let Some(out) = resolved(all, all.len()) {
        assert(out.len() < r.len());
    }
}

proof fn lemma_no_dot(path: Seq<char>)
    requires
        !rooted(path),
        is_plain(parts_in(path)),
    ensures
        pieces(path, '/')[0] != "."@,
{
    let ps = pieces(path, '/');
    lemma_pieces_len(path);
    if ps[0] == "."@ {
        reveal_strlit(".");
        lemma_parts_grow(ps, false, 1, ps.len());
        assert(parts_to(ps, false, 0) =~= Seq::empty());
        assert(parts_to(ps, false, 1) =~= seq![Part::Cur]);
        assert(parts_in(path)[0] == seq![Part::Cur][0]);
    }
}

proof fn lemma_parts_grow(ps: Seq<Seq<char>>, absolute: bool, k: nat, n: nat)
    requires
        k <= n <= ps.len(),
    ensures
        parts_to(ps, absolute, k).len() <= parts_to(ps, absolute, n).len(),
        forall|i: int|
            0 <= i < parts_to(ps, absolute, k).len() ==> parts_to(ps, absolute, n)[i] == parts_to(
                ps,
                absolute,
                k,
            )[i],
    decreases n,
{
    if k < n {
        lemma_parts_grow(ps, absolute, k, (n - 1) as nat);
    }
}

proof fn lemma_no_root(path: Seq<char>)
    requires
        !rooted(path),
    ensures
        forall|i: int| 0 <= i < parts_in(path).len() ==> !(#[trigger] parts_in(path)[i] is Root),
{
    lemma_rootless(pieces(path, '/'), pieces(path, '/').len());
}

proof fn lemma_rootless(ps: Seq<Seq<char>>, n: nat)
    ensures
        forall|i: int|
            0 <= i < parts_to(ps, false, n).len() ==> !(#[trigger] parts_to(ps, false, n)[i] is Root),
    decreases n,
{
    if n > 0 {
        lemma_rootless(ps, (n - 1) as nat);
    }
}

/// In a listing the directories come first, and each kind goes by name.
pub proof fn directories_come_first(v: Seq<DirEntry>, i: int, j: int)
    requires
        entries_sorted(v),
        0 <= i < j < v.len(),
    ensures
        v[j].is_dir ==> v[i].is_dir,
        v[i].is_dir == v[j].is_dir ==> v[i].name@ == v[j].name@ || text_lt(v[i].name@, v[j].name@),
{
    lemma_text_lt_total(v[i].name@, v[j].name@);
    assert(!entry_lt(v[j], v[i]));
}

/// A failure is told as what it was.
pub proof fn failures_keep_their_kind(f: Failure)
    ensures
        failure_kind(f) == ErrorKind::NotFound <==> f is NotFound,
        failure_kind(f) == ErrorKind::PermissionDenied <==> f is PermissionDenied,
        failure_kind(f) == ErrorKind::Io <==> f is Other,
{
}

// --- paths below a directory ---

proof fn lemma_slashed(ps: Seq<Seq<char>>)
    ensures
        slashed(ps) == separated(ps, seq!['/']),
    decreases ps.len(),
{
    if ps.len() > 1 {
        lemma_slashed(ps.drop_last());
        assert(slashed(ps) =~= separated(ps, seq!['/']));
    }
}

proof fn lemma_all_named(ps: Seq<Seq<char>>, absolute: bool, n: nat)
    requires
        n <= ps.len(),
        forall|i: int| 0 <= i < ps.len() && (i > 0 || !absolute) ==> is_name(#[trigger] ps[i]),
        absolute ==> ps.len() > 0 && ps[0].len() == 0,
    ensures
        parts_to(ps, absolute, n).len() == (if absolute && n == 0 {
            1
        } else {
            n
        }),
    decreases n,
{
    if n > 0 {
        lemma_all_named(ps, absolute, (n - 1) as nat);
        if n > 1 || !absolute {
            assert(is_name(ps[n - 1]));
        }
    }
}

proof fn lemma_pieces_for(ps: Seq<Seq<char>>, absolute: bool, want: nat, n: nat)
    requires
        n <= want <= ps.len(),
        1 < want || !absolute,
        forall|k: nat|
            k <= ps.len() ==> #[trigger] parts_to(ps, absolute, k).len() == (if absolute && k == 0 {
                1
            } else {
                k
            }),
    ensures
        pieces_for(ps, absolute, want, n) == want,
    decreases want - n,
{
    if n < want {
        assert(parts_to(ps, absolute, n).len() < want);
        lemma_pieces_for(ps, absolute, want, n + 1);
    } else {
        assert(parts_to(ps, absolute, n).len() >= want);
    }
}

/// Whether a path is written plainly: names with single slashes between them, from the root or not.
pub open spec fn is_tidy(path: Seq<char>) -> bool {
    let ps = pieces(path, '/');
    &&& forall|i: int| 0 <= i < ps.len() && (i > 0 || !rooted(path)) ==> is_name(#[trigger] ps[i])
    &&& rooted(path) ==> ps.len() > 1
}

/// A path under a directory is shown without the directory, as it was put under it; a path that is not
/// under it is shown whole.
pub proof fn paths_are_shown_below_their_directory(dir: Seq<char>, path: Seq<char>, other: Seq<char>)
    requires
        is_tidy(dir),
        dir.len() > 0,
        dir.last() != '/',
        is_tidy(path),
        !rooted(path),
    ensures
        below(joined(dir, path), dir) == path,
        !parts_in(dir).is_prefix_of(parts_in(other)) ==> below(other, dir) == other,
{
    let all = joined(dir, path);
    assert(all =~= dir.push('/') + path);
    lemma_pieces_join(dir, path);
    lemma_pieces_len(dir);
    lemma_pieces_len(path);
    let pd = pieces(dir, '/');
    let pp = pieces(path, '/');
    let ps = pieces(all, '/');
    let absolute = rooted(dir);
    assert(all[0] == dir[0]);
    assert(rooted(all) == absolute);
    assert(ps =~= pd + pp);
    if absolute {
        lemma_first_at_is(dir, '/', 0);
        assert(pd[0] =~= dir.take(0));
    }
    assert forall|i: int| 0 <= i < ps.len() && (i > 0 || !absolute) implies is_name(#[trigger] ps[i]) by {
        if i < pd.len() {
            assert(ps[i] == pd[i]);
        } else {
            assert(ps[i] == pp[i - pd.len()]);
        }
    }
    assert(is_name(pp[0]));
    assert(pp[0] != "."@);
    joined_paths_have_the_parts_of_both(dir, path);
    lemma_all_named(pd, absolute, pd.len());
    assert forall|k: nat| k <= ps.len() implies #[trigger] parts_to(ps, absolute, k).len() == (if absolute && k
        == 0 {
        1
    } else {
        k
    }) by {
        lemma_all_named(ps, absolute, k);
    }
    let want = parts_in(dir).len();
    assert(want == pd.len());
    lemma_pieces_for(ps, absolute, want, 0);
    assert(parts_in(dir).is_prefix_of(parts_in(all))) by {
        assert(parts_in(all).subrange(0, want as int) =~= parts_in(dir));
    }
    let from = want as int;
    assert(ps[from] == pp[0]);
    assert(!is_blank(ps[from]));
    assert(past_blanks(ps, from) == from);
    assert(ps[ps.len() - 1] == pp[pp.len() - 1]);
    assert(is_name(pp[pp.len() - 1]));
    assert(before_blanks(ps, from, ps.len() as int) == ps.len());
    assert(ps.subrange(from, ps.len() as int) =~= pp);
    lemma_slashed(pp);
    pieces_make_up_the_text(path, '/');
}

} // verus!
