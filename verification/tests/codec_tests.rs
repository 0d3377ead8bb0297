use sget::codec::{canonical_policy, canonical_signed, load, PolicyParseError};
use sget::policy::{Key, Policy, RoleKeys, RoleType, Signature, Signed, SigstoreOidcKey};

fn oidc_key(identity: &str, issuer: &str) -> Key {
    Key::SigstoreOidc {
        keyval: SigstoreOidcKey {
            identity: identity.to_string(),
            issuer: issuer.to_string(),
        },
        scheme: "https://fulcio.sigstore.dev".to_string(),
    }
}

fn sample_signed(expires: u64, version: u64, threshold: u64) -> Signed {
    Signed {
        consistent_snapshot: false,
        expires,
        keys: vec![
            ("k1".to_string(), oidc_key("dev@example.com", "Example Root")),
            ("k2".to_string(), oidc_key("ops@example.com", "Example Root")),
        ],
        namespace: "example".to_string(),
        roles: vec![(
            "root".to_string(),
            RoleKeys {
                keyids: vec!["k1".to_string(), "k2".to_string()],
                threshold,
            },
        )],
        spec_version: "1.0".to_string(),
        version,
    }
}

fn sample_policy() -> Policy {
    Policy {
        signatures: vec![Signature {
            keyid: "k1".to_string(),
            sig: "c2ln".to_string(),
            cert: "Y2VydA==".to_string(),
        }],
        signed: sample_signed(4102444800, 1, 1),
    }
}

#[test]
fn deserialize() {
    let doc = canonical_policy(&sample_policy());
    let loaded = load(doc.as_str()).expect("canonical text must load");
    assert_eq!(loaded.signed.namespace, "example");
}

#[test]
fn parse_script_success() {
    let doc = canonical_policy(&sample_policy());
    let policy = load(doc.as_str()).expect("canonical text must load");
    assert_eq!(policy.signed.version, 1);
}

#[test]
fn validate_expiry_success() {
    let policy = sample_policy();
    let now: u64 = 1700000000;
    assert_eq!(policy.validate_expires(now), Some(4102444800 - now));
}

#[test]
fn validate_expiry_failure() {
    let mut policy = sample_policy();
    policy.signed.expires = 1000;
    let now: u64 = 1700000000;
    assert!(policy.validate_expires(now).is_none());
}

#[test]
fn canonical_text_is_exact() {
    let doc = canonical_policy(&sample_policy());
    let mut expected = String::new();
    expected.push_str("{\"signatures\":[");
    expected.push_str("{\"cert\":\"Y2VydA==\",\"keyid\":\"k1\",\"sig\":\"c2ln\"}");
    expected.push_str("],\"signed\":{");
    expected.push_str("\"consistent_snapshot\":false,");
    expected.push_str("\"expires\":4102444800,");
    expected.push_str("\"keys\":{");
    expected.push_str("\"k1\":{\"keytype\":\"sigstore-oidc\",\"keyval\":{\"identity\":\"dev@example.com\"");
    expected.push_str(",\"issuer\":\"Example Root\"},\"scheme\":\"https://fulcio.sigstore.dev\"},");
    expected.push_str("\"k2\":{\"keytype\":\"sigstore-oidc\",\"keyval\":{\"identity\":\"ops@example.com\"");
    expected.push_str(",\"issuer\":\"Example Root\"},\"scheme\":\"https://fulcio.sigstore.dev\"}");
    expected.push_str("},");
    expected.push_str("\"namespace\":\"example\",");
    expected.push_str("\"roles\":{\"root\":{\"keyids\":[\"k1\",\"k2\"],\"threshold\":1}},");
    expected.push_str("\"spec_version\":\"1.0\",");
    expected.push_str("\"version\":1}}");
    assert_eq!(doc, expected);
}

#[test]
fn round_trip_is_identity() {
    let policy = sample_policy();
    let doc = canonical_policy(&policy);
    let reloaded = load(doc.as_str()).expect("canonical text must load");
    let doc2 = canonical_policy(&reloaded);
    assert_eq!(doc, doc2);
    let reloaded2 = load(doc2.as_str()).expect("round-tripped text must load");
    assert_eq!(canonical_policy(&reloaded2), doc);
}

#[test]
fn signed_round_trip_keeps_message() {
    let policy = sample_policy();
    let doc = canonical_policy(&policy);
    let reloaded = load(doc.as_str()).expect("canonical text must load");
    assert_eq!(
        canonical_signed(&policy.signed),
        canonical_signed(&reloaded.signed)
    );
}

#[test]
fn load_rejects_version_zero() {
    let mut policy = sample_policy();
    policy.signed.version = 0;
    let doc = canonical_policy(&policy);
    assert!(matches!(load(doc.as_str()), Err(PolicyParseError::InvalidVersion)));
}

#[test]
fn load_rejects_unsupported_spec_version() {
    let mut policy = sample_policy();
    policy.signed.spec_version = "2.0".to_string();
    let doc = canonical_policy(&policy);
    assert!(matches!(load(doc.as_str()), Err(PolicyParseError::UnsupportedSpecVersion)));
}

#[test]
fn load_accepts_bare_major_one() {
    let mut policy = sample_policy();
    policy.signed.spec_version = "1".to_string();
    let doc = canonical_policy(&policy);
    assert!(load(doc.as_str()).is_ok());
}

#[test]
fn load_rejects_zero_threshold() {
    let mut policy = sample_policy();
    policy.signed.roles[0].1.threshold = 0;
    let doc = canonical_policy(&policy);
    assert!(matches!(load(doc.as_str()), Err(PolicyParseError::InvalidThreshold)));
}

#[test]
fn load_rejects_unsorted_keys() {
    let mut policy = sample_policy();
    policy.signed.keys.swap(0, 1);
    let doc = canonical_policy(&policy);
    assert!(matches!(load(doc.as_str()), Err(PolicyParseError::Malformed)));
}

#[test]
fn load_rejects_duplicate_key_names() {
    let mut policy = sample_policy();
    let dup = policy.signed.keys[0].0.clone();
    policy.signed.keys[1].0 = dup;
    let doc = canonical_policy(&policy);
    assert!(matches!(load(doc.as_str()), Err(PolicyParseError::Malformed)));
}

#[test]
fn load_rejects_broken_structure() {
    assert!(matches!(load(""), Err(PolicyParseError::Malformed)));
    assert!(matches!(load("{}"), Err(PolicyParseError::Malformed)));
    assert!(matches!(load("{\"signatures\":[],\"signed\":{}}"), Err(PolicyParseError::Malformed)));
    let doc = canonical_policy(&sample_policy());
    let mut padded = doc.clone();
    padded.push(' ');
    assert!(matches!(load(padded.as_str()), Err(PolicyParseError::Malformed)));
}

#[test]
fn load_rejects_unknown_key_kind() {
    let doc = canonical_policy(&sample_policy());
    let tampered = doc.replace("sigstore-oidc", "sigstore-rsa!!");
    assert!(matches!(load(tampered.as_str()), Err(PolicyParseError::Malformed)));
}

#[test]
fn load_handles_empty_tables() {
    let policy = Policy {
        signatures: vec![],
        signed: Signed {
            consistent_snapshot: true,
            expires: 0,
            keys: vec![],
            namespace: String::new(),
            roles: vec![],
            spec_version: "1".to_string(),
            version: 18446744073709551615,
        },
    };
    let doc = canonical_policy(&policy);
    let reloaded = load(doc.as_str()).expect("canonical text must load");
    assert_eq!(reloaded.signed.version, 18446744073709551615);
    assert_eq!(canonical_policy(&reloaded), doc);
}

#[test]
fn role_type_names() {
    assert!(matches!(RoleType::try_from("Root"), Some(RoleType::Root)));
    assert!(RoleType::try_from("root").is_none());
    assert!(RoleType::try_from("").is_none());
}
