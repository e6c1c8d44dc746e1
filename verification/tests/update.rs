use ed25519_dalek::{Signature, Signer, SigningKey, Verifier, VerifyingKey};
use umber::update::{
    asset_names, checked, checked_for, hex32, is_newer, judge, parse, plan_from_text, release_url, verify, verify_for, Plan,
    Platform, UpdateError,
};

#[test]
fn version_ordering() {
    assert!(is_newer("v0.2.0", "v0.1.9"));
    assert!(is_newer("0.1.10", "0.1.9"));
    assert!(is_newer("v1.0.0", "0.9.9"));
    assert!(!is_newer("v0.1.0", "v0.1.0"));
    assert!(!is_newer("v0.1.0", "v0.2.0"));
}

#[test]
fn verify_fails_closed_without_key() {
    assert!(verify(b"payload", &[0u8; 64]).is_err());
    assert_eq!(verify(b"payload", &[0u8; 64]), Err(UpdateError::KeyLength));
}

fn hex(bytes: &[u8]) -> String {
    bytes.iter().map(|b| format!("{b:02x}")).collect()
}

#[test]
fn a_signature_holds_for_its_key_and_payload_only() {
    let key = SigningKey::from_bytes(&[7u8; 32]);
    let public = hex(key.verifying_key().as_bytes());
    let sig = key.sign(b"payload").to_bytes();
    assert_eq!(verify_for(&public, b"payload", &sig), Ok(()));
    let words = key.verifying_key().verify(b"payloae", &key.sign(b"payload")).unwrap_err().to_string();
    let refused = Err(UpdateError::BadSignature(words.clone()));
    assert_eq!(verify_for(&public, b"payloae", &sig), refused);
    assert_eq!(UpdateError::BadSignature(words.clone()).message(), words);
    assert_eq!(verify_for(&public, b"payload", &sig[..63]), Err(UpdateError::SignatureLength));
    let other = SigningKey::from_bytes(&[8u8; 32]);
    let wrong = hex(other.verifying_key().as_bytes());
    assert_eq!(verify_for(&wrong, b"payload", &sig), refused);
    // A scalar that is out of range is refused in other words.
    let odd = verify_for(&public, b"payload", &[255u8; 64]);
    let said = key.verifying_key().verify(b"payload", &Signature::from_bytes(&[255u8; 64]));
    assert_eq!(odd, Err(UpdateError::BadSignature(said.unwrap_err().to_string())));
}

#[test]
fn only_a_signed_build_comes_back() {
    let key = SigningKey::from_bytes(&[7u8; 32]);
    let public = hex(key.verifying_key().as_bytes());
    let sig = key.sign(b"build").to_bytes();
    let build = b"build".to_vec();
    assert_eq!(
        checked_for(&public, "v2".to_string(), build.clone(), &sig),
        Ok(("v2".to_string(), build.clone()))
    );
    assert!(checked_for(&public, "v2".to_string(), b"other".to_vec(), &sig).is_err());
    assert_eq!(checked("v2".to_string(), build, &sig), Err(UpdateError::KeyLength));
}

#[test]
fn keys_are_read_from_hexadecimal() {
    assert_eq!(hex32(&"0f".repeat(32)), Ok(vec![15u8; 32]));
    assert_eq!(hex32("0f"), Err(UpdateError::KeyLength));
    assert_eq!(hex32(&"zz".repeat(32)), Err(UpdateError::KeyDigits));
    assert_eq!(hex32(&"+f".repeat(32)), Err(UpdateError::KeyDigits));
    assert_eq!(hex32(&"0\u{e9}f".repeat(16)), Err(UpdateError::KeyDigits));
}

#[test]
fn a_text_that_is_no_key_is_refused() {
    let mut bad = None;
    for b in 0u8..=255 {
        let text = format!("{}{}", hex(&[b]), "ff".repeat(31));
        let mut bytes = [255u8; 32];
        bytes[0] = b;
        if let Err(e) = VerifyingKey::from_bytes(&bytes) {
            let refused = Err(UpdateError::BadKey(e.to_string()));
            assert_eq!(verify_for(&text, b"x", &[0u8; 64]), refused);
            bad = Some(b);
        }
    }
    assert!(bad.is_some());
}

#[test]
fn judgements_go_by_what_was_found() {
    let no = || Err("no".to_string());
    assert_eq!(judge(no(), 64, Ok(())), Err(UpdateError::BadKey("no".to_string())));
    assert_eq!(judge(Ok(()), 63, Ok(())), Err(UpdateError::SignatureLength));
    assert_eq!(judge(Ok(()), 64, no()), Err(UpdateError::BadSignature("no".to_string())));
    assert_eq!(judge(Ok(()), 64, Ok(())), Ok(()));
}

#[test]
fn versions_are_three_numbers() {
    assert_eq!(parse("v1.2.3"), (1, 2, 3));
    assert_eq!(parse("1.2"), (1, 2, 0));
    assert_eq!(parse("nonsense"), (0, 0, 0));
}

const RELEASE: &str = r#"{"tag_name":"v9.0.0","assets":[
    {"name":"umber-x86_64-linux","browser_download_url":"https://x/bin"},
    {"name":"umber-x86_64-linux.sig","browser_download_url":"https://x/sig"}]}"#;

#[test]
fn a_newer_release_is_fetched() {
    assert_eq!(
        plan_from_text(RELEASE, "0.1.0", Platform::Linux),
        Ok(Plan::Fetch {
            version: "v9.0.0".to_string(),
            bin_url: "https://x/bin".to_string(),
            sig_url: "https://x/sig".to_string(),
        })
    );
    assert_eq!(plan_from_text(RELEASE, "9.0.0", Platform::Linux), Ok(Plan::UpToDate));
}

#[test]
fn incomplete_releases_are_refused() {
    assert_eq!(
        plan_from_text(RELEASE, "0.1.0", Platform::Windows),
        Err(UpdateError::NoBinary)
    );
    assert_eq!(plan_from_text("{}", "0.1.0", Platform::Linux), Err(UpdateError::NoTag));
    assert_eq!(
        plan_from_text("nope", "0.1.0", Platform::Linux),
        Err(UpdateError::NotJson("expected ident at line 1 column 2".to_string()))
    );
    assert_eq!(
        plan_from_text(r#"{"tag_name":"v9.0.0"}"#, "0.1.0", Platform::Linux),
        Err(UpdateError::NoAssets)
    );
    let half = r#"{"tag_name":"v9.0.0","assets":[{"name":"umber-x86_64-linux","browser_download_url":"b"}]}"#;
    assert_eq!(plan_from_text(half, "0.1.0", Platform::Linux), Err(UpdateError::NoSignature));
}

#[test]
fn names_and_places() {
    assert_eq!(asset_names(Platform::MacOs), ("umber-x86_64-macos", "umber-x86_64-macos.sig"));
    assert_eq!(
        release_url(),
        "https://api.github.com/repos/Myers-Technologies-Public/umber/releases/latest"
    );
    assert_eq!(UpdateError::NoTag.message(), "release has no tag_name");
}
