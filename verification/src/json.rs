//! JSON values: the tree the library reads and builds, and its way in and out of text.

use vstd::prelude::*;
use vstd::utf8::encode_utf8;
use crate::text::same;

verus! {

/// A JSON value. A number is kept as the integer it is; one that is no 64-bit
/// integer is kept as the text that writes it.
#[derive(Debug)]
pub enum Json {
    Null,
    Bool(bool),
    UInt(u64),
    Int(i64),
    Real(String),
    Str(String),
    Array(Vec<Json>),
    Object(Vec<(String, Json)>),
}

/// What a [`Json`] stands for.
pub enum Tree {
    Null,
    Bool(bool),
    UInt(u64),
    Int(i64),
    Real(Seq<char>),
    Str(Seq<char>),
    Array(Seq<Tree>),
    Object(Seq<(Seq<char>, Tree)>),
}

/// The tree that `j` writes down.
pub open spec fn tree(j: Json) -> Tree
    decreases j,
{
    match j {
        Json::Null => Tree::Null,
        Json::Bool(b) => Tree::Bool(b),
        Json::UInt(n) => Tree::UInt(n),
        Json::Int(n) => Tree::Int(n),
        Json::Real(s) => Tree::Real(s@),
        Json::Str(s) => Tree::Str(s@),
        Json::Array(v) => Tree::Array(items_view(v)),
        Json::Object(v) => Tree::Object(pairs_view(v)),
    }
}

/// The items of an array.
pub open spec fn items_view(v: Vec<Json>) -> Seq<Tree>
    decreases v,
{
    Seq::new(
        v@.len(),
        |i: int|
            if 0 <= i < v@.len() {
                tree(v[i])
            } else {
                Tree::Null
            },
    )
}

/// The members of an object.
pub open spec fn pairs_view(v: Vec<(String, Json)>) -> Seq<(Seq<char>, Tree)>
    decreases v,
{
    Seq::new(
        v@.len(),
        |i: int|
            if 0 <= i < v@.len() {
                (v[i].0@, tree(v[i].1))
            } else {
                (Seq::empty(), Tree::Null)
            },
    )
}

impl View for Json {
    type V = Tree;

    open spec fn view(&self) -> Tree {
        tree(*self)
    }
}

/// The member of an object's pairs under `key`: the first of that name.
pub open spec fn member(pairs: Seq<(Seq<char>, Tree)>, key: Seq<char>) -> Option<Tree>
    decreases pairs.len(),
{
    if pairs.len() == 0 {
        None
    } else if pairs[0].0 == key {
        Some(pairs[0].1)
    } else {
        member(pairs.skip(1), key)
    }
}

/// The member of an object's pairs under `key`, where one has that name and no other.
pub open spec fn only_member(pairs: Seq<(Seq<char>, Tree)>, key: Seq<char>) -> Option<Tree>
    decreases pairs.len(),
{
    if pairs.len() == 0 {
        None
    } else if pairs[0].0 == key {
        if member(pairs.skip(1), key) is None {
            Some(pairs[0].1)
        } else {
            None
        }
    } else {
        only_member(pairs.skip(1), key)
    }
}

impl Tree {
    /// The member under `key`, where this is an object that has one such member and no more.
    pub open spec fn only(self, key: Seq<char>) -> Option<Tree> {
        match self {
            Tree::Object(pairs) => only_member(pairs, key),
            _ => None,
        }
    }

    /// The member under `key`, where this is an object that has one.
    pub open spec fn get(self, key: Seq<char>) -> Option<Tree> {
        match self {
            Tree::Object(pairs) => member(pairs, key),
            _ => None,
        }
    }

    /// The text, where this is a string.
    pub open spec fn text(self) -> Option<Seq<char>> {
        match self {
            Tree::Str(s) => Some(s),
            _ => None,
        }
    }

    /// The string under `key`, where this is an object that has one there.
    pub open spec fn get_text(self, key: Seq<char>) -> Option<Seq<char>> {
        match self.get(key) {
            Some(t) => t.text(),
            None => None,
        }
    }

    /// The unsigned number under `key`, where this is an object that has one there.
    pub open spec fn get_uint(self, key: Seq<char>) -> Option<u64> {
        match self.get(key) {
            Some(Tree::UInt(n)) => Some(n),
            _ => None,
        }
    }

    /// The member two levels down.
    pub open spec fn get_in(self, outer: Seq<char>, inner: Seq<char>) -> Option<Tree> {
        match self.get(outer) {
            Some(t) => t.get(inner),
            None => None,
        }
    }

    /// The number of items under `key`, 0 where no array stands there.
    pub open spec fn count_in(self, key: Seq<char>) -> nat {
        match self.get(key) {
            Some(Tree::Array(a)) => a.len(),
            _ => 0,
        }
    }
}

/// How deep arrays and objects nest in a value.
pub open spec fn depth(t: Tree) -> nat
    decreases t, 0nat,
{
    match t {
        Tree::Array(a) => 1 + depth_of_items(a, a.len()),
        Tree::Object(p) => 1 + depth_of_members(p, p.len()),
        _ => 0,
    }
}

/// The depth of the deepest of the first `n` items.
pub open spec fn depth_of_items(a: Seq<Tree>, n: nat) -> nat
    decreases a, n,
{
    if n == 0 || n > a.len() {
        0
    } else {
        let here = depth(a[n - 1]);
        let before = depth_of_items(a, (n - 1) as nat);
        if here > before {
            here
        } else {
            before
        }
    }
}

/// The depth of the deepest of the first `n` members.
pub open spec fn depth_of_members(p: Seq<(Seq<char>, Tree)>, n: nat) -> nat
    decreases p, n,
{
    if n == 0 || n > p.len() {
        0
    } else {
        let here = depth(p[n - 1].1);
        let before = depth_of_members(p, (n - 1) as nat);
        if here > before {
            here
        } else {
            before
        }
    }
}

proof fn lemma_depth_of_members(p: Seq<(Seq<char>, Tree)>, n: nat, d: nat)
    requires
        n <= p.len(),
        forall|i: int| 0 <= i < p.len() ==> depth((#[trigger] p[i]).1) <= d,
    ensures
        depth_of_members(p, n) <= d,
    decreases n,
{
    if n > 0 {
        lemma_depth_of_members(p, (n - 1) as nat, d);
    }
}

/// An object nests one deeper than its deepest member.
pub proof fn lemma_object_depth(p: Seq<(Seq<char>, Tree)>, d: nat)
    requires
        forall|i: int| 0 <= i < p.len() ==> depth((#[trigger] p[i]).1) <= d,
    ensures
        depth(Tree::Object(p)) <= d + 1,
{
    lemma_depth_of_members(p, p.len(), d);
}

proof fn lemma_depth_of_items(a: Seq<Tree>, n: nat, d: nat)
    requires
        n <= a.len(),
        forall|i: int| 0 <= i < a.len() ==> depth(#[trigger] a[i]) <= d,
    ensures
        depth_of_items(a, n) <= d,
    decreases n,
{
    if n > 0 {
        lemma_depth_of_items(a, (n - 1) as nat, d);
    }
}

/// An array nests one deeper than its deepest item.
pub proof fn lemma_array_depth(a: Seq<Tree>, d: nat)
    requires
        forall|i: int| 0 <= i < a.len() ==> depth(#[trigger] a[i]) <= d,
    ensures
        depth(Tree::Array(a)) <= d + 1,
{
    lemma_depth_of_items(a, a.len(), d);
}

/// The values with one way to write them: integers only, a number negative where
/// it is signed, and each name once in each object.
pub open spec fn canonical(t: Tree) -> bool
    decreases t,
{
    match t {
        Tree::Int(n) => n < 0,
        Tree::Real(_) => false,
        Tree::Array(a) => forall|i: int| 0 <= i < a.len() ==> canonical(#[trigger] a[i]),
        Tree::Object(p) => {
            &&& forall|i: int| 0 <= i < p.len() ==> canonical((#[trigger] p[i]).1)
            &&& forall|i: int, j: int| 0 <= i < j < p.len() ==> #[trigger] p[i].0 != #[trigger] p[j].0
        },
        _ => true,
    }
}

/// Each member of an object stands in the view.
pub proof fn lemma_pairs(p: Vec<(String, Json)>)
    ensures
        pairs_view(p).len() == p@.len(),
        forall|i: int| 0 <= i < p@.len() ==> #[trigger] pairs_view(p)[i] == (p[i].0@, p[i].1@),
{
    reveal_with_fuel(tree, 2);
    reveal_with_fuel(pairs_view, 2);
}

/// Each item of an array stands in the view.
pub proof fn lemma_items(a: Vec<Json>)
    ensures
        items_view(a).len() == a@.len(),
        forall|i: int| 0 <= i < a@.len() ==> #[trigger] items_view(a)[i] == a[i]@,
{
    reveal_with_fuel(tree, 2);
    reveal_with_fuel(items_view, 2);
}

impl Json {
    /// The member under `key`, if this is an object that has one.
    pub fn get(&self, key: &str) -> (r: Option<&Json>)
        ensures
            match r {
                Some(j) => self@.get(key@) == Some(j@),
                None => self@.get(key@) is None,
            },
    {
        match self {
            Json::Object(v) => {
                let mut i: usize = 0;
                let ghost pairs = pairs_view(*v);
                assert(pairs.skip(0) =~= pairs);
                while i < v.len()
                    invariant
                        i <= v.len(),
                        pairs == pairs_view(*v),
                        self@ == Tree::Object(pairs),
                        member(pairs.skip(i as int), key@) == member(pairs, key@),
                    decreases v.len() - i,
                {
                    assert(pairs.skip(i as int)[0] == pairs[i as int]);
                    if same(&v[i].0, key) {
                        return Some(&v[i].1);
                    }
                    assert(pairs.skip(i as int).skip(1) =~= pairs.skip(i + 1));
                    i += 1;
                }
                None
            },
            _ => None,
        }
    }

    /// The member under `key`, if this is an object that has one such member and no more.
    pub fn only(&self, key: &str) -> (r: Option<&Json>)
        ensures
            match r {
                Some(j) => self@.only(key@) == Some(j@),
                None => self@.only(key@) is None,
            },
    {
        match self {
            Json::Object(v) => {
                let ghost pairs = pairs_view(*v);
                let mut i: usize = 0;
                assert(pairs.skip(0) =~= pairs);
                while i < v.len() && !same(&v[i].0, key)
                    invariant
                        i <= v.len(),
                        pairs == pairs_view(*v),
                        only_member(pairs.skip(i as int), key@) == only_member(pairs, key@),
                    decreases v.len() - i,
                {
                    assert(pairs.skip(i as int)[0] == pairs[i as int]);
                    assert(pairs.skip(i as int).skip(1) =~= pairs.skip(i + 1));
                    i += 1;
                }
                if i == v.len() {
                    return None;
                }
                assert(pairs.skip(i as int)[0] == pairs[i as int]);
                assert(pairs.skip(i as int).skip(1) =~= pairs.skip(i + 1));
                let mut k: usize = i + 1;
                while k < v.len()
                    invariant
                        i < k <= v.len(),
                        pairs == pairs_view(*v),
                        member(pairs.skip(k as int), key@) == member(pairs.skip(i + 1), key@),
                        only_member(pairs, key@) == (if member(pairs.skip(i + 1), key@) is None {
                            Some(pairs[i as int].1)
                        } else {
                            None
                        }),
                        self@ == Tree::Object(pairs),
                    decreases v.len() - k,
                {
                    assert(pairs.skip(k as int)[0] == pairs[k as int]);
                    if same(&v[k].0, key) {
                        return None;
                    }
                    assert(pairs.skip(k as int).skip(1) =~= pairs.skip(k + 1));
                    k += 1;
                }
                Some(&v[i].1)
            },
            _ => None,
        }
    }

    /// The text, if this is a string.
    pub fn as_str(&self) -> (r: Option<&str>)
        ensures
            match r {
                Some(s) => self@.text() == Some(s@),
                None => self@.text() is None,
            },
    {
        match self {
            Json::Str(s) => Some(s.as_str()),
            _ => None,
        }
    }

    /// The number, if this is one that is not negative and fits.
    pub fn as_u64(&self) -> (r: Option<u64>)
        ensures
            match r {
                Some(n) => self@ == Tree::UInt(n),
                None => !(self@ is UInt),
            },
    {
        match self {
            Json::UInt(n) => Some(*n),
            _ => None,
        }
    }

    /// The truth value, if this is one.
    pub fn as_bool(&self) -> (r: Option<bool>)
        ensures
            match r {
                Some(b) => self@ == Tree::Bool(b),
                None => !(self@ is Bool),
            },
    {
        match self {
            Json::Bool(b) => Some(*b),
            _ => None,
        }
    }

    /// The items, if this is an array.
    pub fn as_array(&self) -> (r: Option<&Vec<Json>>)
        ensures
            match r {
                Some(a) => self@ == Tree::Array(items_view(*a)),
                None => !(self@ is Array),
            },
    {
        match self {
            Json::Array(a) => Some(a),
            _ => None,
        }
    }

    /// The string under `key`, if this is an object that has one there.
    pub fn get_str(&self, key: &str) -> (r: Option<&str>)
        ensures
            match r {
                Some(s) => self@.get_text(key@) == Some(s@),
                None => self@.get_text(key@) is None,
            },
    {
        match self.get(key) {
            Some(j) => j.as_str(),
            None => None,
        }
    }

    /// The unsigned number under `key`, if this is an object that has one there.
    pub fn get_u64(&self, key: &str) -> (r: Option<u64>)
        ensures
            r == self@.get_uint(key@),
    {
        match self.get(key) {
            Some(j) => j.as_u64(),
            None => None,
        }
    }

    /// How many items the array under `key` has, 0 where there is none.
    pub fn count(&self, key: &str) -> (r: usize)
        ensures
            r == self@.count_in(key@),
    {
        match self.get(key) {
            Some(j) => match j.as_array() {
                Some(a) => a.len(),
                None => 0,
            },
            None => 0,
        }
    }
}

/// The outside JSON value, which only passes through on its way to or from text.
#[verifier::external_type_specification]
#[verifier::external_body]
pub struct ExValue(serde_json::Value);

/// The value that `serde_json` reads in a text, or what it says of one that is not JSON.
pub uninterp spec fn text_read(text: Seq<char>) -> Result<Tree, Seq<char>>;

/// The value that `serde_json` reads in bytes, or what it says of those that are not JSON.
pub uninterp spec fn bytes_read(bytes: Seq<u8>) -> Result<Tree, Seq<char>>;

/// The value in a text; `None` where the text is not JSON.
pub open spec fn json_in_text(text: Seq<char>) -> Option<Tree> {
    match text_read(text) {
        Ok(v) => Some(v),
        Err(_) => None,
    }
}

/// The value in bytes; `None` where they are not JSON.
pub open spec fn json_in_bytes(bytes: Seq<u8>) -> Option<Tree> {
    match bytes_read(bytes) {
        Ok(v) => Some(v),
        Err(_) => None,
    }
}

/// The compact text that `serde_json` writes for a value.
pub uninterp spec fn json_text(t: Tree) -> Seq<char>;

/// Carries a `serde_json::Value` over, one variant for one: `Number` by
/// `Number::as_u64`, then `Number::as_i64`, else by its text. Nothing is claimed
/// of it here; [`parse_text`] and [`parse_bytes`] name what comes out.
#[verifier::external_body]
fn from_value(v: serde_json::Value) -> Json {
    match v {
        serde_json::Value::Null => Json::Null,
        serde_json::Value::Bool(b) => Json::Bool(b),
        serde_json::Value::Number(n) => match (n.as_u64(), n.as_i64()) {
            (Some(u), _) => Json::UInt(u),
            (None, Some(i)) => Json::Int(i),
            (None, None) => Json::Real(n.to_string()),
        },
        serde_json::Value::String(s) => Json::Str(s),
        serde_json::Value::Array(a) => Json::Array(a.into_iter().map(from_value).collect()),
        serde_json::Value::Object(m) => Json::Object(m.into_iter().map(|(k, v)| (k, from_value(v))).collect()),
    }
}

/// Carries a [`Json`] over to a `serde_json::Value`, one variant for one; a
/// `Real` by `Number::from_str`. Nothing is claimed of it here; [`write_text`]
/// names what is written.
#[verifier::external_body]
fn to_value(j: &Json) -> serde_json::Value {
    match j {
        Json::Null => serde_json::Value::Null,
        Json::Bool(b) => serde_json::Value::Bool(*b),
        Json::UInt(n) => serde_json::Value::from(*n),
        Json::Int(n) => serde_json::Value::from(*n),
        Json::Real(s) => s.parse().map_or(serde_json::Value::Null, serde_json::Value::Number),
        Json::Str(s) => serde_json::Value::String(s.clone()),
        Json::Array(a) => serde_json::Value::Array(a.iter().map(to_value).collect()),
        Json::Object(p) => serde_json::Value::Object(p.iter().map(|(k, v)| (k.clone(), to_value(v))).collect()),
    }
}

/// `serde_json::from_str`: the value that the text writes, or its error in words, under
/// the name [`text_read`].
#[verifier::external_body]
pub(crate) fn parse_text(text: &str) -> (r: Result<Json, String>)
    ensures
        match r {
            Ok(j) => text_read(text@) == Ok::<Tree, Seq<char>>(j@),
            Err(e) => text_read(text@) == Err::<Tree, Seq<char>>(e@),
        },
{
    serde_json::from_str::<serde_json::Value>(text).map(from_value).map_err(|e| e.to_string())
}

/// `serde_json::from_slice`: the value that the bytes write, or its error in words, under
/// the name [`bytes_read`].
#[verifier::external_body]
pub(crate) fn parse_bytes(bytes: &[u8]) -> (r: Result<Json, String>)
    ensures
        match r {
            Ok(j) => bytes_read(bytes@) == Ok::<Tree, Seq<char>>(j@),
            Err(e) => bytes_read(bytes@) == Err::<Tree, Seq<char>>(e@),
        },
{
    serde_json::from_slice::<serde_json::Value>(bytes).map(from_value).map_err(|e| e.to_string())
}

/// `to_string` of a `serde_json::Value`: the compact text of the value, under the
/// name [`json_text`]. It escapes every control character of a string and adds no
/// white space, so that no byte of it is a line feed. Its maps keep the order of
/// their members (`preserve_order`). What it writes for a [`canonical`] value that
/// nests at most 127 deep (the reader refuses the next level) reads back as that
/// value, as text and as UTF-8 bytes.
#[verifier::external_body]
pub(crate) fn write_text(j: &Json) -> (r: String)
    ensures
        r@ == json_text(j@),
        forall|i: int| 0 <= i < encode_utf8(r@).len() ==> #[trigger] encode_utf8(r@)[i] != 10,
        canonical(j@) && depth(j@) <= 127 ==> json_in_text(r@) == Some(j@),
        canonical(j@) && depth(j@) <= 127 ==> json_in_bytes(encode_utf8(r@)) == Some(j@),
{
    to_value(j).to_string()
}

/// A member is found under its name, the first where there are several; where no name fits there is
/// none.
pub proof fn members_are_found_by_name(pairs: Seq<(Seq<char>, Tree)>, key: Seq<char>, k: int)
    requires
        0 <= k <= pairs.len(),
        k < pairs.len() ==> pairs[k].0 == key,
        forall|i: int| 0 <= i < k ==> (#[trigger] pairs[i]).0 != key,
    ensures
        member(pairs, key) == if k < pairs.len() {
            Some(pairs[k].1)
        } else {
            None
        },
    decreases pairs.len(),
{
    if pairs.len() > 0 && k > 0 {
        assert(pairs[0].0 != key);
        let rest = pairs.skip(1);
        assert forall|i: int| 0 <= i < k - 1 implies (#[trigger] rest[i]).0 != key by {
            assert(rest[i] == pairs[i + 1]);
        }
        members_are_found_by_name(rest, key, k - 1);
    }
}

} // verus!
