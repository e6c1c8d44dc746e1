//! The self-updater's decisions: whether a release is newer, what to fetch of it, and
//! whether what was fetched may be run.
//!
//! A binary is only swapped in when its signature holds for the embedded key; whatever else
//! happens, the program stays as it is.

use vstd::prelude::*;
use vstd::utf8::encode_utf8;
use crate::json::{items_view, lemma_items, parse_text, text_read, Json, Tree};
use crate::manifest::without_first;
use crate::number::{decimal, decimal_reads_back, lemma_decimal_digits, parse_number, parsed_to};
use crate::text::{chars_of, is_white, push_text, same, trim, trimmed, trimming_takes_white_space_off};

verus! {

pub const RELEASE_OWNER: &'static str = "Myers-Technologies-Public";

pub const RELEASE_REPO: &'static str = "umber";

/// The public key that releases are signed for, in hexadecimal. While it is empty no
/// signature holds.
pub const RELEASE_PUBKEY_HEX: &'static str = "";

/// What came of looking for an update.
#[derive(Debug, PartialEq)]
pub enum Outcome {
    /// There is nothing newer.
    UpToDate,
    /// A newer build was swapped in.
    Updated { version: String },
}

/// Why there is no update.
#[derive(Debug, PartialEq)]
pub enum UpdateError {
    KeyLength,
    KeyDigits,
    /// The key is refused, with these words.
    BadKey(String),
    SignatureLength,
    /// The signature does not hold, with these words.
    BadSignature(String),
    /// The release is not JSON, with these words.
    NotJson(String),
    NoTag,
    NoAssets,
    NoBinary,
    NoSignature,
}

/// What an [`UpdateError`] says.
pub enum Refused {
    KeyLength,
    KeyDigits,
    BadKey(Seq<char>),
    SignatureLength,
    BadSignature(Seq<char>),
    NotJson(Seq<char>),
    NoTag,
    NoAssets,
    NoBinary,
    NoSignature,
}

impl View for UpdateError {
    type V = Refused;

    open spec fn view(&self) -> Refused {
        match *self {
            UpdateError::KeyLength => Refused::KeyLength,
            UpdateError::KeyDigits => Refused::KeyDigits,
            UpdateError::BadKey(e) => Refused::BadKey(e@),
            UpdateError::SignatureLength => Refused::SignatureLength,
            UpdateError::BadSignature(e) => Refused::BadSignature(e@),
            UpdateError::NotJson(e) => Refused::NotJson(e@),
            UpdateError::NoTag => Refused::NoTag,
            UpdateError::NoAssets => Refused::NoAssets,
            UpdateError::NoBinary => Refused::NoBinary,
            UpdateError::NoSignature => Refused::NoSignature,
        }
    }
}

impl Refused {
    /// The error in words.
    pub open spec fn words(self) -> Seq<char> {
        match self {
            Refused::KeyLength => "release public key must be 64 hex chars"@,
            Refused::KeyDigits => "invalid digit found in string"@,
            Refused::BadKey(e) => e,
            Refused::SignatureLength => "signature must be 64 bytes"@,
            Refused::BadSignature(e) => e,
            Refused::NotJson(e) => e,
            Refused::NoTag => "release has no tag_name"@,
            Refused::NoAssets => "release has no assets"@,
            Refused::NoBinary => "no binary asset for this platform"@,
            Refused::NoSignature => "no signature asset for this platform"@,
        }
    }
}

impl UpdateError {
    /// The error in words.
    pub fn message(&self) -> (r: String)
        ensures
            r@ == self@.words(),
    {
        match self {
            UpdateError::KeyLength => "release public key must be 64 hex chars".to_owned(),
            UpdateError::KeyDigits => "invalid digit found in string".to_owned(),
            UpdateError::BadKey(e) => e.clone(),
            UpdateError::SignatureLength => "signature must be 64 bytes".to_owned(),
            UpdateError::BadSignature(e) => e.clone(),
            UpdateError::NotJson(e) => e.clone(),
            UpdateError::NoTag => "release has no tag_name".to_owned(),
            UpdateError::NoAssets => "release has no assets".to_owned(),
            UpdateError::NoBinary => "no binary asset for this platform".to_owned(),
            UpdateError::NoSignature => "no signature asset for this platform".to_owned(),
        }
    }
}

// --- versions ---

/// Whether a character sets the parts of a version apart.
pub open spec fn is_mark(c: char) -> bool {
    c == '.' || c == '-' || c == '+'
}

/// How many characters stand before the first mark.
pub open spec fn part_len(s: Seq<char>) -> int
    decreases s.len(),
{
    if s.len() == 0 || is_mark(s[0]) {
        0
    } else {
        1 + part_len(s.skip(1))
    }
}

/// What stands behind the first mark, if there is one.
pub open spec fn next_part(s: Seq<char>) -> Option<Seq<char>> {
    if part_len(s) < s.len() {
        Some(s.skip(part_len(s) + 1))
    } else {
        None
    }
}

/// The number that begins a version's rest; 0 where none does.
pub open spec fn part_value(s: Option<Seq<char>>) -> u64 {
    match s {
        Some(t) => match parsed_to(t.take(part_len(t)), u64::MAX as nat) {
            Some(n) => n as u64,
            None => 0,
        },
        None => 0,
    }
}

/// [`next_part`] of a rest that may be there.
pub open spec fn then_part(s: Option<Seq<char>>) -> Option<Seq<char>> {
    match s {
        Some(t) => next_part(t),
        None => None,
    }
}

/// The three numbers of a version such as `v1.2.3`.
pub open spec fn version_of(v: Seq<char>) -> (u64, u64, u64) {
    let a = Some(without_first(trimmed(v), 'v'));
    let b = then_part(a);
    (part_value(a), part_value(b), part_value(then_part(b)))
}

/// Whether the version `a` comes after `b`.
pub open spec fn later(a: (u64, u64, u64), b: (u64, u64, u64)) -> bool {
    a.0 > b.0 || (a.0 == b.0 && (a.1 > b.1 || (a.1 == b.1 && a.2 > b.2)))
}

proof fn lemma_part_len_is(s: Seq<char>, k: int)
    requires
        0 <= k <= s.len(),
        k < s.len() ==> is_mark(s[k]),
        forall|i: int| 0 <= i < k ==> !is_mark(s[i]),
    ensures
        part_len(s) == k,
    decreases s.len(),
{
    if s.len() > 0 && k > 0 {
        assert forall|i: int| 0 <= i < k - 1 implies !is_mark(s.skip(1)[i]) by {
            assert(s.skip(1)[i] == s[i + 1]);
        }
        lemma_part_len_is(s.skip(1), k - 1);
    }
}

/// The number at `from`, and where the next part begins.
fn read_part(s: &[char], from: Option<usize>) -> (r: (u64, Option<usize>))
    requires
        from matches Some(f) ==> f <= s@.len(),
    ensures
        ({
            let rest = match from {
                Some(f) => Some(s@.skip(f as int)),
                None => None,
            };
            &&& r.0 == part_value(rest)
            &&& match r.1 {
                Some(n) => n <= s@.len() && then_part(rest) == Some(s@.skip(n as int)),
                None => then_part(rest) is None,
            }
        }),
{
    let f: usize = match from {
        Some(f) => f,
        None => return (0, None),
    };
    let ghost rest = s@.skip(f as int);
    let mut k: usize = 0;
    while k < s.len() - f && !(s[f + k] == '.' || s[f + k] == '-' || s[f + k] == '+')
        invariant
            f <= s.len(),
            k <= s.len() - f,
            rest == s@.skip(f as int),
            forall|i: int| 0 <= i < k ==> !is_mark(rest[i]),
        decreases s.len() - f - k,
    {
        k += 1;
    }
    proof {
        lemma_part_len_is(rest, k as int);
    }
    assert(rest.take(k as int) =~= s@.subrange(f as int, f + k));
    let n: u64 = match parse_number(&s[f..f + k], u64::MAX) {
        Some(n) => n,
        None => 0,
    };
    if k < s.len() - f {
        assert(rest.skip(k + 1) =~= s@.skip(f + k + 1));
        (n, Some(f + k + 1))
    } else {
        (n, None)
    }
}

/// The three numbers of a version; a part that is no number is 0.
pub fn parse(v: &str) -> (r: (u64, u64, u64))
    ensures
        r == version_of(v@),
{
    let cs = chars_of(v);
    let t = trim(&cs);
    let mut i: usize = 0;
    assert(t@.skip(0) =~= t@);
    while i < t.len() && t[i] == 'v'
        invariant
            i <= t.len(),
            without_first(t@.skip(i as int), 'v') == without_first(t@, 'v'),
        decreases t.len() - i,
    {
        assert(t@.skip(i as int).skip(1) =~= t@.skip(i + 1));
        i += 1;
    }
    let a = read_part(t, Some(i));
    let b = read_part(t, a.1);
    let c = read_part(t, b.1);
    (a.0, b.0, c.0)
}

/// Whether the version `latest` is newer than `current`.
pub fn is_newer(latest: &str, current: &str) -> (r: bool)
    ensures
        r == later(version_of(latest@), version_of(current@)),
{
    let a = parse(latest);
    let b = parse(current);
    a.0 > b.0 || (a.0 == b.0 && (a.1 > b.1 || (a.1 == b.1 && a.2 > b.2)))
}

/// Being newer is a strict order: no version is newer than itself, of two with different
/// numbers one is newer than the other, and what is newer than a newer one is newer.
pub proof fn newer_is_a_strict_order(a: Seq<char>, b: Seq<char>, c: Seq<char>)
    ensures
        !later(version_of(a), version_of(a)),
        version_of(a) != version_of(b) ==> (later(version_of(a), version_of(b)) <==> !later(
            version_of(b),
            version_of(a),
        )),
        later(version_of(a), version_of(b)) && later(version_of(b), version_of(c)) ==> later(
            version_of(a),
            version_of(c),
        ),
{
}

// --- what to fetch ---

/// A platform that releases are built for.
#[derive(Clone, Copy, Debug, PartialEq, Eq, Structural)]
pub enum Platform {
    Windows,
    Linux,
    MacOs,
}

impl Platform {
    /// The names of the platform's binary and of its signature.
    pub open spec fn assets(self) -> (Seq<char>, Seq<char>) {
        match self {
            Platform::Windows => ("umber-x86_64-windows.exe"@, "umber-x86_64-windows.exe.sig"@),
            Platform::Linux => ("umber-x86_64-linux"@, "umber-x86_64-linux.sig"@),
            Platform::MacOs => ("umber-x86_64-macos"@, "umber-x86_64-macos.sig"@),
        }
    }
}

/// The names of a platform's binary and of its signature.
pub fn asset_names(platform: Platform) -> (r: (&'static str, &'static str))
    ensures
        (r.0@, r.1@) == platform.assets(),
{
    match platform {
        Platform::Windows => ("umber-x86_64-windows.exe", "umber-x86_64-windows.exe.sig"),
        Platform::Linux => ("umber-x86_64-linux", "umber-x86_64-linux.sig"),
        Platform::MacOs => ("umber-x86_64-macos", "umber-x86_64-macos.sig"),
    }
}

/// Where the latest release is described.
pub fn release_url() -> (r: String)
    ensures
        r@ == "https://api.github.com/repos/"@ + RELEASE_OWNER@ + "/"@ + RELEASE_REPO@
            + "/releases/latest"@,
{
    let mut out = "https://api.github.com/repos/".to_owned();
    push_text(&mut out, RELEASE_OWNER);
    push_text(&mut out, "/");
    push_text(&mut out, RELEASE_REPO);
    push_text(&mut out, "/releases/latest");
    out
}

/// Where the first asset of a name that says where it is can be fetched.
pub open spec fn asset_url(assets: Seq<Tree>, name: Seq<char>) -> Option<Seq<char>>
    decreases assets.len(),
{
    if assets.len() == 0 {
        None
    } else if assets[0].get_text("name"@) == Some(name) && assets[0].get_text("browser_download_url"@) is Some {
        assets[0].get_text("browser_download_url"@)
    } else {
        asset_url(assets.skip(1), name)
    }
}

/// What to do about a release.
#[derive(Debug, PartialEq)]
pub enum Plan {
    /// Nothing: it is not newer.
    UpToDate,
    /// Fetch the binary and its signature.
    Fetch { version: String, bin_url: String, sig_url: String },
}

/// What a [`Plan`] says.
pub enum Planned {
    UpToDate,
    Fetch { version: Seq<char>, bin_url: Seq<char>, sig_url: Seq<char> },
}

impl View for Plan {
    type V = Planned;

    open spec fn view(&self) -> Planned {
        match *self {
            Plan::UpToDate => Planned::UpToDate,
            Plan::Fetch { version, bin_url, sig_url } => Planned::Fetch {
                version: version@,
                bin_url: bin_url@,
                sig_url: sig_url@,
            },
        }
    }
}

/// What to do about the release that a value describes.
pub open spec fn plan_for(release: Tree, current: Seq<char>, platform: Platform) -> Result<
    Planned,
    Refused,
> {
    match release.get_text("tag_name"@) {
        None => Err(Refused::NoTag),
        Some(tag) => if !later(version_of(tag), version_of(current)) {
            Ok(Planned::UpToDate)
        } else {
            match release.get("assets"@) {
                Some(Tree::Array(assets)) => match (
                    asset_url(assets, platform.assets().0),
                    asset_url(assets, platform.assets().1),
                ) {
                    (None, _) => Err(Refused::NoBinary),
                    (Some(_), None) => Err(Refused::NoSignature),
                    (Some(bin_url), Some(sig_url)) => Ok(
                        Planned::Fetch { version: tag, bin_url, sig_url },
                    ),
                },
                _ => Err(Refused::NoAssets),
            }
        },
    }
}

fn find_asset(assets: &Vec<Json>, name: &str) -> (r: Option<String>)
    ensures
        match r {
            Some(u) => asset_url(items_view(*assets), name@) == Some(u@),
            None => asset_url(items_view(*assets), name@) is None,
        },
{
    let ghost all = items_view(*assets);
    proof {
        lemma_items(*assets);
        assert(all.skip(0) =~= all);
    }
    for i in 0..assets.len()
        invariant
            all == items_view(*assets),
            all.len() == assets@.len(),
            forall|k: int| 0 <= k < assets@.len() ==> #[trigger] all[k] == assets[k]@,
            asset_url(all.skip(i as int), name@) == asset_url(all, name@),
    {
        assert(all.skip(i as int)[0] == all[i as int]);
        assert(all.skip(i as int).skip(1) =~= all.skip(i + 1));
        let a = &assets[i];
        let named = match a.get_str("name") {
            Some(n) => same(n, name),
            None => false,
        };
        if named {
            if let Some(u) = a.get_str("browser_download_url") {
                return Some(u.to_owned());
            }
        }
    }
    None
}

/// Decides what to do about the release that `release` describes.
pub fn plan_update(release: &Json, current: &str, platform: Platform) -> (r: Result<Plan, UpdateError>)
    ensures
        match r {
            Ok(p) => plan_for(release@, current@, platform) == Ok::<Planned, Refused>(p@),
            Err(e) => plan_for(release@, current@, platform) == Err::<Planned, Refused>(e@),
        },
{
    let tag = match release.get_str("tag_name") {
        Some(t) => t,
        None => return Err(UpdateError::NoTag),
    };
    if !is_newer(tag, current) {
        return Ok(Plan::UpToDate);
    }
    let assets = match release.get("assets") {
        Some(a) => match a.as_array() {
            Some(v) => v,
            None => return Err(UpdateError::NoAssets),
        },
        None => return Err(UpdateError::NoAssets),
    };
    let (bin_name, sig_name) = asset_names(platform);
    let bin_url = match find_asset(assets, bin_name) {
        Some(u) => u,
        None => return Err(UpdateError::NoBinary),
    };
    let sig_url = match find_asset(assets, sig_name) {
        Some(u) => u,
        None => return Err(UpdateError::NoSignature),
    };
    Ok(Plan::Fetch { version: tag.to_owned(), bin_url, sig_url })
}

/// Decides what to do about the release that the text `release` describes.
pub fn plan_from_text(release: &str, current: &str, platform: Platform) -> (r: Result<Plan, UpdateError>)
    ensures
        match text_read(release@) {
            Err(words) => r matches Err(e) && e@ == Refused::NotJson(words),
            Ok(v) => match r {
                Ok(p) => plan_for(v, current@, platform) == Ok::<Planned, Refused>(p@),
                Err(e) => plan_for(v, current@, platform) == Err::<Planned, Refused>(e@),
            },
        },
{
    match parse_text(release) {
        Ok(v) => plan_update(&v, current, platform),
        Err(e) => Err(UpdateError::NotJson(e)),
    }
}

// --- signatures ---

/// The value of a hexadecimal digit.
pub open spec fn hex_digit(b: u8) -> Option<int> {
    if 48 <= b <= 57 {
        Some(b - 48)
    } else if 97 <= b <= 102 {
        Some(b - 87)
    } else if 65 <= b <= 70 {
        Some(b - 55)
    } else {
        None
    }
}

/// The byte that two characters write in hexadecimal.
pub open spec fn hex_pair(a: u8, b: u8) -> Option<u8> {
    match (hex_digit(a), hex_digit(b)) {
        (Some(x), Some(y)) => Some((16 * x + y) as u8),
        _ => None,
    }
}

/// The first `n` bytes that `b` writes in hexadecimal, if each can be read.
pub open spec fn hex_bytes(b: Seq<u8>, n: nat) -> Option<Seq<u8>>
    decreases n,
{
    if n == 0 {
        Some(Seq::empty())
    } else {
        match (hex_bytes(b, (n - 1) as nat), hex_pair(b[2 * n - 2], b[2 * n - 1])) {
            (Some(before), Some(x)) => Some(before.push(x)),
            _ => None,
        }
    }
}

/// The key that a text writes in hexadecimal.
pub open spec fn key_in(hex: Seq<char>) -> Result<Seq<u8>, Refused> {
    let b = encode_utf8(hex);
    if b.len() != 64 {
        Err(Refused::KeyLength)
    } else {
        match hex_bytes(b, 32) {
            Some(k) => Ok(k),
            None => Err(Refused::KeyDigits),
        }
    }
}

fn read_hex_digit(b: u8) -> (r: Option<u8>)
    ensures
        match r {
            Some(x) => hex_digit(b) == Some(x as int),
            None => hex_digit(b) is None,
        },
        r matches Some(x) ==> x < 16,
{
    if 48 <= b && b <= 57 {
        Some((b - 48) as u8)
    } else if 97 <= b && b <= 102 {
        Some((b - 87) as u8)
    } else if 65 <= b && b <= 70 {
        Some((b - 55) as u8)
    } else {
        None
    }
}

fn read_hex_pair(a: u8, b: u8) -> (r: Option<u8>)
    ensures
        r == hex_pair(a, b),
{
    match (read_hex_digit(a), read_hex_digit(b)) {
        (Some(x), Some(y)) => Some((16 * x + y) as u8),
        _ => None,
    }
}

proof fn lemma_hex_none(b: Seq<u8>, k: nat, n: nat)
    requires
        k <= n,
        hex_bytes(b, k) is None,
    ensures
        hex_bytes(b, n) is None,
    decreases n,
{
    if k < n {
        lemma_hex_none(b, k, (n - 1) as nat);
    }
}

/// Reads a key of 32 bytes in hexadecimal.
pub fn hex32(h: &str) -> (r: Result<Vec<u8>, UpdateError>)
    ensures
        match r {
            Ok(k) => k@.len() == 32 && key_in(h@) == Ok::<Seq<u8>, Refused>(k@),
            Err(e) => key_in(h@) == Err::<Seq<u8>, Refused>(e@),
        },
{
    let b = h.as_bytes();
    if b.len() != 64 {
        return Err(UpdateError::KeyLength);
    }
    let mut out: Vec<u8> = Vec::new();
    for i in 0..32usize
        invariant
            b@ == encode_utf8(h@),
            b@.len() == 64,
            out@.len() == i,
            hex_bytes(b@, i as nat) == Some(out@),
    {
        match read_hex_pair(b[2 * i], b[2 * i + 1]) {
            Some(x) => {
                out.push(x);
            },
            None => {
                proof {
                    lemma_hex_none(b@, (i + 1) as nat, 32);
                }
                return Err(UpdateError::KeyDigits);
            },
        }
    }
    Ok(out)
}

/// Whether 32 bytes are an ed25519 public key, or what is said of those that are none.
pub uninterp spec fn ed25519_key(key: Seq<u8>) -> Result<(), Seq<char>>;

/// Whether a signature of 64 bytes on a message holds under an ed25519 public key, or what is said
/// of one that does not.
pub uninterp spec fn ed25519_verdict(key: Seq<u8>, message: Seq<u8>, signature: Seq<u8>) -> Result<
    (),
    Seq<char>,
>;

/// The words of an error.
pub open spec fn worded(r: Result<(), String>) -> Result<(), Seq<char>> {
    match r {
        Ok(()) => Ok(()),
        Err(e) => Err(e@),
    }
}

/// `ed25519_dalek::VerifyingKey`'s `TryFrom<&[u8]>`: whether the bytes are accepted as a key, or
/// the error in words, under the name [`ed25519_key`].
#[verifier::external_body]
fn accept_key(key: &[u8]) -> (r: Result<(), String>)
    requires
        key@.len() == 32,
    ensures
        worded(r) == ed25519_key(key@),
{
    ed25519_dalek::VerifyingKey::try_from(key).map(|_| ()).map_err(|e| e.to_string())
}

/// `ed25519_dalek::Verifier::verify` of a `VerifyingKey`: whether the signature holds, or the error
/// in words, under the name [`ed25519_verdict`].
#[verifier::external_body]
fn check_signature(key: &[u8], message: &[u8], signature: &[u8]) -> (r: Result<(), String>)
    requires
        key@.len() == 32,
        signature@.len() == 64,
        ed25519_key(key@) is Ok,
    ensures
        worded(r) == ed25519_verdict(key@, message@, signature@),
{
    let k = ed25519_dalek::VerifyingKey::try_from(key).map_err(|e| e.to_string())?;
    let s = ed25519_dalek::Signature::from_slice(signature).map_err(|e| e.to_string())?;
    ed25519_dalek::Verifier::verify(&k, message, &s).map_err(|e| e.to_string())
}

/// What is said of a signature, given what is said of the key and of the signature on the message.
pub open spec fn judged(key: Result<(), Seq<char>>, sig_len: nat, verdict: Result<(), Seq<char>>) -> Result<
    (),
    Refused,
> {
    match key {
        Err(e) => Err(Refused::BadKey(e)),
        Ok(()) => if sig_len != 64 {
            Err(Refused::SignatureLength)
        } else {
            match verdict {
                Err(e) => Err(Refused::BadSignature(e)),
                Ok(()) => Ok(()),
            }
        },
    }
}

/// What is said of a signature on a binary for the key that a text writes.
pub open spec fn verified(hex: Seq<char>, bin: Seq<u8>, sig: Seq<u8>) -> Result<(), Refused> {
    match key_in(hex) {
        Err(e) => Err(e),
        Ok(key) => judged(ed25519_key(key), sig.len(), ed25519_verdict(key, bin, sig)),
    }
}

/// What a verification says.
pub open spec fn outcome(r: Result<(), UpdateError>) -> Result<(), Refused> {
    match r {
        Ok(()) => Ok(()),
        Err(e) => Err(e@),
    }
}

/// Judges a signature of `sig_len` bytes, given what is said of the key and of the signature on the
/// message.
pub fn judge(key: Result<(), String>, sig_len: usize, verdict: Result<(), String>) -> (r: Result<
    (),
    UpdateError,
>)
    ensures
        outcome(r) == judged(worded(key), sig_len as nat, worded(verdict)),
{
    match key {
        Err(e) => Err(UpdateError::BadKey(e)),
        Ok(()) => if sig_len != 64 {
            Err(UpdateError::SignatureLength)
        } else {
            match verdict {
                Err(e) => Err(UpdateError::BadSignature(e)),
                Ok(()) => Ok(()),
            }
        },
    }
}

/// Verifies the signature `sig` on `bin` for the key that `hex` writes.
pub fn verify_for(hex: &str, bin: &[u8], sig: &[u8]) -> (r: Result<(), UpdateError>)
    ensures
        outcome(r) == verified(hex@, bin@, sig@),
{
    let key = match hex32(hex) {
        Ok(k) => k,
        Err(e) => return Err(e),
    };
    let accepted = accept_key(&key);
    let verdict = if accepted.is_ok() && sig.len() == 64 {
        check_signature(&key, bin, sig)
    } else {
        Ok(())
    };
    judge(accepted, sig.len(), verdict)
}

/// Verifies the signature `sig` on `bin` for the embedded key. While that is empty, nothing
/// passes.
pub fn verify(bin: &[u8], sig: &[u8]) -> (r: Result<(), UpdateError>)
    ensures
        outcome(r) == verified(RELEASE_PUBKEY_HEX@, bin@, sig@),
        outcome(r) == Err::<(), Refused>(Refused::KeyLength),
{
    proof {
        reveal_strlit("");
        assert(RELEASE_PUBKEY_HEX@ =~= Seq::<char>::empty());
        assert(encode_utf8(Seq::<char>::empty()).len() == 0);
    }
    verify_for(RELEASE_PUBKEY_HEX, bin, sig)
}

/// A build that may be swapped in for a key: its version and its bytes come back exactly where its
/// signature holds for that key, and else the error.
pub fn checked_for(hex: &str, version: String, bin: Vec<u8>, sig: &[u8]) -> (r: Result<
    (String, Vec<u8>),
    UpdateError,
>)
    ensures
        match r {
            Ok((v, b)) => verified(hex@, bin@, sig@) == Ok::<(), Refused>(()) && v == version && b == bin,
            Err(e) => verified(hex@, bin@, sig@) == Err::<(), Refused>(e@),
        },
{
    match verify_for(hex, &bin, sig) {
        Ok(()) => Ok((version, bin)),
        Err(e) => Err(e),
    }
}

/// A build that may be swapped in: its version and its bytes come back exactly where its signature
/// holds for the embedded key, and else the error.
pub fn checked(version: String, bin: Vec<u8>, sig: &[u8]) -> (r: Result<(String, Vec<u8>), UpdateError>)
    ensures
        match r {
            Ok((v, b)) => verified(RELEASE_PUBKEY_HEX@, bin@, sig@) == Ok::<(), Refused>(()) && v == version
                && b == bin,
            Err(e) => verified(RELEASE_PUBKEY_HEX@, bin@, sig@) == Err::<(), Refused>(e@),
        },
{
    checked_for(RELEASE_PUBKEY_HEX, version, bin, sig)
}

/// Nothing is swapped in but what was signed: a verification succeeds only with a key, a
/// signature of the right length, and the signature holding for exactly those bytes.
pub proof fn verification_fails_closed(hex: Seq<char>, bin: Seq<u8>, sig: Seq<u8>)
    ensures
        verified(hex, bin, sig) is Ok <==> (key_in(hex) matches Ok(key) && ed25519_key(key) is Ok && sig.len()
            == 64 && ed25519_verdict(key, bin, sig) is Ok),
{
}

proof fn lemma_part(a: Seq<char>, rest: Seq<char>)
    requires
        forall|i: int| 0 <= i < a.len() ==> !is_mark(#[trigger] a[i]),
        rest.len() > 0 ==> is_mark(rest[0]),
    ensures
        part_len(a + rest) == a.len(),
        (a + rest).take(a.len() as int) == a,
        next_part(a + rest) == if rest.len() > 0 {
            Some(rest.skip(1))
        } else {
            None
        },
    decreases a.len(),
{
    let s = a + rest;
    if a.len() > 0 {
        assert(s[0] == a[0]);
        assert(!is_mark(a[0]));
        let b = a.skip(1);
        assert(s.skip(1) =~= b + rest);
        assert forall|i: int| 0 <= i < b.len() implies !is_mark(#[trigger] b[i]) by {
            assert(b[i] == a[i + 1]);
        }
        lemma_part(b, rest);
    } else {
        assert(s =~= rest);
    }
    assert(s.take(a.len() as int) =~= a);
    if rest.len() > 0 {
        assert(s.skip((a.len() + 1) as int) =~= rest.skip(1));
    }
}

proof fn lemma_number_part(n: u64)
    ensures
        decimal(n as nat).len() > 0,
        forall|i: int| 0 <= i < decimal(n as nat).len() ==> '0' <= #[trigger] decimal(n as nat)[i] <= '9',
        parsed_to(decimal(n as nat), u64::MAX as nat) == Some(n as nat),
{
    lemma_decimal_digits(n as nat);
    decimal_reads_back(n as nat);
}

proof fn lemma_three_parts(a: u64, b: u64, c: u64, more: Seq<char>)
    requires
        more.len() > 0 ==> (more[0] == '-' || more[0] == '+'),
    ensures
        ({
            let zz = decimal(c as nat) + more;
            let yz = decimal(b as nat) + (seq!['.'] + zz);
            let xyz = decimal(a as nat) + (seq!['.'] + yz);
            &&& part_value(Some(xyz)) == a
            &&& next_part(xyz) == Some(yz)
            &&& part_value(Some(yz)) == b
            &&& next_part(yz) == Some(zz)
            &&& part_value(Some(zz)) == c
        }),
{
    let dot = seq!['.'];
    let zz = decimal(c as nat) + more;
    let yz = decimal(b as nat) + (dot + zz);
    lemma_number_part(a);
    lemma_number_part(b);
    lemma_number_part(c);
    lemma_part(decimal(a as nat), dot + yz);
    lemma_part(decimal(b as nat), dot + zz);
    lemma_part(decimal(c as nat), more);
    assert((dot + yz).skip(1) =~= yz);
    assert((dot + zz).skip(1) =~= zz);
}

proof fn lemma_few_parts(a: u64, b: u64)
    ensures
        ({
            let pair = decimal(a as nat) + (seq!['.'] + decimal(b as nat));
            &&& part_value(Some(pair)) == a
            &&& next_part(pair) == Some(decimal(b as nat))
            &&& part_value(Some(decimal(b as nat))) == b
            &&& next_part(decimal(b as nat)) is None
        }),
{
    let dot = seq!['.'];
    let y = decimal(b as nat);
    lemma_number_part(a);
    lemma_number_part(b);
    lemma_part(decimal(a as nat), dot + y);
    lemma_part(y, Seq::empty());
    assert(y + Seq::<char>::empty() =~= y);
    assert((dot + y).skip(1) =~= y);
}

proof fn lemma_full_version(a: u64, b: u64, c: u64, more: Seq<char>)
    requires
        more.len() > 0 ==> (more[0] == '-' || more[0] == '+') && !is_white(more.last()),
    ensures
        ({
            let full = decimal(a as nat) + seq!['.'] + decimal(b as nat) + seq!['.'] + decimal(c as nat) + more;
            &&& version_of(full) == (a, b, c)
            &&& version_of(seq!['v'] + full) == (a, b, c)
        }),
{
    let (x, y, z) = (decimal(a as nat), decimal(b as nat), decimal(c as nat));
    let dot = seq!['.'];
    let full = x + dot + y + dot + z + more;
    lemma_number_part(a);
    lemma_number_part(c);
    assert(full =~= x + (dot + (y + (dot + (z + more)))));
    assert(full[0] == x[0]);
    assert(!is_white(full.last())) by {
        if more.len() == 0 {
            assert(full.last() == z[z.len() - 1]);
            assert('0' <= z[z.len() - 1] <= '9');
        } else {
            assert(full.last() == more.last());
        }
    }
    lemma_bare(full);
    lemma_three_parts(a, b, c, more);
}

proof fn lemma_short_version(a: u64, b: u64)
    ensures
        version_of(decimal(a as nat) + seq!['.'] + decimal(b as nat)) == (a, b, 0u64),
        version_of(decimal(a as nat)) == (a, 0u64, 0u64),
{
    let (x, y) = (decimal(a as nat), decimal(b as nat));
    let pair = x + seq!['.'] + y;
    lemma_number_part(a);
    lemma_number_part(b);
    assert(pair =~= x + (seq!['.'] + y));
    assert(pair[0] == x[0] && pair.last() == y[y.len() - 1]);
    assert('0' <= y[y.len() - 1] <= '9' && '0' <= x[x.len() - 1] <= '9');
    lemma_bare(pair);
    lemma_bare(x);
    lemma_few_parts(a, b);
    lemma_few_parts(b, a);
}

/// A version is read as its three numbers, with a `v` before them or not, and whatever stands behind
/// them after a hyphen; a number that is left out counts as nought.
pub proof fn versions_read_back(a: u64, b: u64, c: u64, more: Seq<char>)
    requires
        more.len() > 0 ==> (more[0] == '-' || more[0] == '+') && !is_white(more.last()),
    ensures
        ({
            let full = decimal(a as nat) + seq!['.'] + decimal(b as nat) + seq!['.'] + decimal(c as nat) + more;
            let pair = decimal(a as nat) + seq!['.'] + decimal(b as nat);
            &&& version_of(full) == (a, b, c)
            &&& version_of(seq!['v'] + full) == (a, b, c)
            &&& version_of(pair) == (a, b, 0u64)
            &&& version_of(decimal(a as nat)) == (a, 0u64, 0u64)
        }),
{
    lemma_full_version(a, b, c, more);
    lemma_short_version(a, b);
}

proof fn lemma_bare(s: Seq<char>)
    requires
        s.len() > 0,
        '0' <= s[0] <= '9',
        !is_white(s.last()),
    ensures
        without_first(trimmed(s), 'v') == s,
        without_first(trimmed(seq!['v'] + s), 'v') == s,
{
    let none = Seq::<char>::empty();
    let t = seq!['v'] + s;
    trimming_takes_white_space_off(none, s, none);
    assert(none + s + none =~= s);
    assert(t[0] == 'v' && t.last() == s.last());
    trimming_takes_white_space_off(none, t, none);
    assert(none + t + none =~= t);
    assert(t.skip(1) =~= s);
    assert(without_first(s, 'v') == s);
    assert(without_first(t, 'v') == without_first(t.skip(1), 'v'));
}

/// One version as one number: the first part weighs more than the second, and that more than the third.
pub open spec fn weight(v: (u64, u64, u64)) -> int {
    v.0 * 0x1_0000_0000_0000_0000_0000_0000_0000_0000 + v.1 * 0x1_0000_0000_0000_0000 + v.2
}

/// A version is later where its parts, the first ones weighing most, are greater.
pub proof fn later_versions_weigh_more(a: (u64, u64, u64), b: (u64, u64, u64))
    ensures
        later(a, b) <==> weight(a) > weight(b),
{
}

/// What is fetched for a platform is its own, and the signature is named after the binary.
pub proof fn signatures_are_named_after_binaries(p: Platform, q: Platform)
    ensures
        p.assets().1 == p.assets().0 + ".sig"@,
        p.assets().0 == q.assets().0 ==> p == q,
{
    reveal_strlit(".sig");
    reveal_strlit("umber-x86_64-windows.exe");
    reveal_strlit("umber-x86_64-windows.exe.sig");
    reveal_strlit("umber-x86_64-linux");
    reveal_strlit("umber-x86_64-linux.sig");
    reveal_strlit("umber-x86_64-macos");
    reveal_strlit("umber-x86_64-macos.sig");
    assert("umber-x86_64-windows.exe"@[13] == 'w' && "umber-x86_64-linux"@[13] == 'l'
        && "umber-x86_64-macos"@[13] == 'm');
    assert(Platform::Windows.assets().1 =~= Platform::Windows.assets().0 + ".sig"@);
    assert(Platform::Linux.assets().1 =~= Platform::Linux.assets().0 + ".sig"@);
    assert(Platform::MacOs.assets().1 =~= Platform::MacOs.assets().0 + ".sig"@);
}

/// The address of an asset is that of the first with its name that has one; there is none where no
/// asset of that name has one.
pub proof fn assets_are_found_by_name(assets: Seq<Tree>, name: Seq<char>)
    ensures
        asset_url(assets, name) matches Some(url) ==> exists|i: int|
            {
                &&& 0 <= i < assets.len()
                &&& (#[trigger] assets[i]).get_text("name"@) == Some(name)
                &&& assets[i].get_text("browser_download_url"@) == Some(url)
            },
        asset_url(assets, name) is None ==> forall|i: int|
            0 <= i < assets.len() && (#[trigger] assets[i]).get_text("name"@) == Some(name)
                ==> assets[i].get_text("browser_download_url"@) is None,
    decreases assets.len(),
{
    if assets.len() > 0 {
        let rest = assets.skip(1);
        assets_are_found_by_name(rest, name);
        assert(forall|i: int| 0 <= i < rest.len() ==> rest[i] == assets[i + 1]);
        if asset_url(assets, name) is None {
            assert forall|i: int| 0 <= i < assets.len() && (#[trigger] assets[i]).get_text("name"@) == Some(
                name,
            ) implies assets[i].get_text("browser_download_url"@) is None by {
                if i > 0 {
                    assert(rest[i - 1].get_text("name"@) == Some(name));
                }
            }
        } else if !(assets[0].get_text("name"@) == Some(name) && assets[0].get_text("browser_download_url"@)
            is Some) {
            let i = choose|i: int|
                {
                    &&& 0 <= i < rest.len()
                    &&& (#[trigger] rest[i]).get_text("name"@) == Some(name)
                    &&& rest[i].get_text("browser_download_url"@) == asset_url(rest, name)
                };
            assert(assets[i + 1].get_text("name"@) == Some(name));
        }
    }
}

/// Only a later release is fetched, and then the binary and the signature of the platform.
pub proof fn only_later_releases_are_fetched(release: Tree, current: Seq<char>, p: Platform)
    ensures
        release.get_text("tag_name"@) matches Some(tag) ==> {
            &&& plan_for(release, current, p) == Ok::<Planned, Refused>(Planned::UpToDate) <==> weight(
                version_of(tag),
            ) <= weight(version_of(current))
            &&& plan_for(release, current, p) matches Ok(Planned::Fetch { version, bin_url, sig_url }) ==> {
                &&& version == tag
                &&& release.get("assets"@) matches Some(Tree::Array(assets)) && asset_url(
                    assets,
                    p.assets().0,
                ) == Some(bin_url) && asset_url(assets, p.assets().0 + ".sig"@) == Some(sig_url)
            }
        },
        release.get_text("tag_name"@) is None ==> plan_for(release, current, p) == Err::<Planned, Refused>(
            Refused::NoTag,
        ),
{
    signatures_are_named_after_binaries(p, p);
    if let Some(tag) = release.get_text("tag_name"@) {
        later_versions_weigh_more(version_of(tag), version_of(current));
    }
}

/// The digit for a number below sixteen, in hexadecimal.
pub open spec fn hex_of(d: int, upper: bool) -> u8 {
    if d < 10 {
        ('0' as int + d) as u8
    } else if upper {
        ('A' as int + d - 10) as u8
    } else {
        ('a' as int + d - 10) as u8
    }
}

/// Bytes that are written in hexadecimal, in small or in capital letters, are read back.
pub proof fn hex_reads_back(k: Seq<u8>, text: Seq<u8>, upper: bool, n: nat)
    requires
        n <= k.len(),
        text.len() == 2 * k.len(),
        forall|i: int|
            0 <= i < k.len() ==> text[2 * i] == hex_of(#[trigger] k[i] as int / 16, upper) && text[2 * i + 1]
                == hex_of(k[i] as int % 16, upper),
    ensures
        hex_bytes(text, n) == Some(k.take(n as int)),
    decreases n,
{
    if n > 0 {
        hex_reads_back(k, text, upper, (n - 1) as nat);
        let b = k[n - 1] as int;
        assert(text[2 * (n - 1)] == hex_of(b / 16, upper));
        assert(16 * (b / 16) + b % 16 == b);
        assert(k.take(n as int) =~= k.take(n - 1).push(k[n - 1]));
    } else {
        assert(k.take(0) =~= Seq::empty());
    }
}

/// A key of thirty-two bytes that is written in hexadecimal digits, small or capital ones, is read
/// back, and one of any other length is refused for its length.
pub proof fn keys_read_back(k: Seq<u8>, hex: Seq<char>, upper: bool)
    requires
        encode_utf8(hex).len() == 2 * k.len(),
        forall|i: int|
            0 <= i < k.len() ==> encode_utf8(hex)[2 * i] == hex_of(#[trigger] k[i] as int / 16, upper)
                && encode_utf8(hex)[2 * i + 1] == hex_of(k[i] as int % 16, upper),
    ensures
        k.len() == 32 ==> key_in(hex) == Ok::<Seq<u8>, Refused>(k),
        k.len() != 32 ==> key_in(hex) == Err::<Seq<u8>, Refused>(Refused::KeyLength),
{
    if k.len() == 32 {
        hex_reads_back(k, encode_utf8(hex), upper, 32);
        assert(k.take(32) =~= k);
    }
}

} // verus!
