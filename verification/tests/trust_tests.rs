use openssl::asn1::Asn1Time;
use openssl::base64;
use openssl::ec::{EcGroup, EcKey};
use openssl::hash::MessageDigest;
use openssl::nid::Nid;
use openssl::pkey::{PKey, Private};
use openssl::sign::Signer;
use openssl::x509::extension::SubjectAlternativeName;
use openssl::x509::{X509NameBuilder, X509};

use sget::codec::canonical_signed;
use sget::policy::{Key, Policy, RoleKeys, Signature, Signed, SigstoreOidcKey};
use sget::verify::{verify, RejectReason, Verdict};

const NOW: u64 = 1700000000;
const LATER: u64 = 1800000000;

fn make_identity(email: &str, issuer_cn: &str) -> (PKey<Private>, X509) {
    let group = EcGroup::from_curve_name(Nid::X9_62_PRIME256V1).unwrap();
    let ec = EcKey::generate(&group).unwrap();
    let pkey = PKey::from_ec_key(ec).unwrap();
    let mut name = X509NameBuilder::new().unwrap();
    name.append_entry_by_nid(Nid::COMMONNAME, issuer_cn).unwrap();
    let name = name.build();
    let mut builder = X509::builder().unwrap();
    builder.set_version(2).unwrap();
    builder.set_subject_name(&name).unwrap();
    builder.set_issuer_name(&name).unwrap();
    builder.set_pubkey(&pkey).unwrap();
    builder
        .set_not_before(&Asn1Time::days_from_now(0).unwrap())
        .unwrap();
    builder
        .set_not_after(&Asn1Time::days_from_now(30).unwrap())
        .unwrap();
    let san = SubjectAlternativeName::new()
        .email(email)
        .build(&builder.x509v3_context(None, None))
        .unwrap();
    builder.append_extension(san).unwrap();
    builder.sign(&pkey, MessageDigest::sha256()).unwrap();
    (pkey, builder.build())
}

fn oidc_key(identity: &str, issuer: &str) -> Key {
    Key::SigstoreOidc {
        keyval: SigstoreOidcKey {
            identity: identity.to_string(),
            issuer: issuer.to_string(),
        },
        scheme: "https://fulcio.sigstore.dev".to_string(),
    }
}

fn signed_with(keys: Vec<(String, Key)>, keyids: Vec<String>, threshold: u64, expires: u64) -> Signed {
    Signed {
        consistent_snapshot: false,
        expires,
        keys,
        namespace: "example".to_string(),
        roles: vec![("root".to_string(), RoleKeys { keyids, threshold })],
        spec_version: "1.0".to_string(),
        version: 1,
    }
}

fn sign_entry(keyid: &str, pkey: &PKey<Private>, cert: &X509, signed: &Signed) -> Signature {
    let message = canonical_signed(signed);
    let mut signer = Signer::new(MessageDigest::sha256(), pkey).unwrap();
    let sig_der = signer.sign_oneshot_to_vec(message.as_bytes()).unwrap();
    Signature {
        keyid: keyid.to_string(),
        sig: base64::encode_block(&sig_der),
        cert: base64::encode_block(&cert.to_der().unwrap()),
    }
}

#[test]
fn one_valid_signature_meets_threshold_one() {
    let (pkey, cert) = make_identity("dev@example.com", "Example Root");
    let signed = signed_with(
        vec![("k1".to_string(), oidc_key("dev@example.com", "Example Root"))],
        vec!["k1".to_string()],
        1,
        LATER,
    );
    let entry = sign_entry("k1", &pkey, &cert, &signed);
    let policy = Policy { signatures: vec![entry], signed };
    assert_eq!(verify(&policy, "root", NOW), Verdict::VerifiedOk);
}

#[test]
fn one_valid_signature_misses_threshold_two() {
    let (pkey, cert) = make_identity("dev@example.com", "Example Root");
    let signed = signed_with(
        vec![
            ("k1".to_string(), oidc_key("dev@example.com", "Example Root")),
            ("k2".to_string(), oidc_key("ops@example.com", "Example Root")),
        ],
        vec!["k1".to_string(), "k2".to_string()],
        2,
        LATER,
    );
    let entry = sign_entry("k1", &pkey, &cert, &signed);
    let policy = Policy { signatures: vec![entry], signed };
    assert_eq!(
        verify(&policy, "root", NOW),
        Verdict::Rejected(RejectReason::InsufficientSignatures { have: 1, need: 2 })
    );
}

fn clone_sig(s: &Signature) -> Signature {
    Signature {
        keyid: s.keyid.clone(),
        sig: s.sig.clone(),
        cert: s.cert.clone(),
    }
}

#[test]
fn expiry_trumps_a_satisfied_threshold() {
    let (pkey, cert) = make_identity("dev@example.com", "Example Root");
    let signed = signed_with(
        vec![("k1".to_string(), oidc_key("dev@example.com", "Example Root"))],
        vec!["k1".to_string()],
        1,
        NOW - 1,
    );
    let entry = sign_entry("k1", &pkey, &cert, &signed);
    // The signature genuinely satisfies the threshold one second earlier;
    // at `NOW`, one second past expiry, rejection is `Expired` regardless.
    let probe = Policy {
        signatures: vec![clone_sig(&entry)],
        signed: signed_with(
            vec![("k1".to_string(), oidc_key("dev@example.com", "Example Root"))],
            vec!["k1".to_string()],
            1,
            NOW - 1,
        ),
    };
    assert_eq!(verify(&probe, "root", NOW - 2), Verdict::VerifiedOk);
    let policy = Policy { signatures: vec![entry], signed };
    assert_eq!(
        verify(&policy, "root", NOW),
        Verdict::Rejected(RejectReason::Expired)
    );
}

#[test]
fn two_valid_signatures_meet_threshold_two() {
    let (pk1, c1) = make_identity("dev@example.com", "Example Root");
    let (pk2, c2) = make_identity("ops@example.com", "Example Root");
    let signed = signed_with(
        vec![
            ("k1".to_string(), oidc_key("dev@example.com", "Example Root")),
            ("k2".to_string(), oidc_key("ops@example.com", "Example Root")),
        ],
        vec!["k1".to_string(), "k2".to_string()],
        2,
        LATER,
    );
    let e1 = sign_entry("k1", &pk1, &c1, &signed);
    let e2 = sign_entry("k2", &pk2, &c2, &signed);
    let policy = Policy { signatures: vec![e1, e2], signed };
    assert_eq!(verify(&policy, "root", NOW), Verdict::VerifiedOk);
}

#[test]
fn duplicate_entries_for_one_keyid_count_once() {
    let (pkey, cert) = make_identity("dev@example.com", "Example Root");
    let signed = signed_with(
        vec![
            ("k1".to_string(), oidc_key("dev@example.com", "Example Root")),
            ("k2".to_string(), oidc_key("ops@example.com", "Example Root")),
        ],
        vec!["k1".to_string(), "k2".to_string()],
        2,
        LATER,
    );
    let entry = sign_entry("k1", &pkey, &cert, &signed);
    let dup = clone_sig(&entry);
    let policy = Policy { signatures: vec![entry, dup], signed };
    assert_eq!(
        verify(&policy, "root", NOW),
        Verdict::Rejected(RejectReason::InsufficientSignatures { have: 1, need: 2 })
    );
}

#[test]
fn unknown_keyid_is_never_counted() {
    let (pkey, cert) = make_identity("dev@example.com", "Example Root");
    let signed = signed_with(
        vec![("k1".to_string(), oidc_key("dev@example.com", "Example Root"))],
        vec!["k1".to_string()],
        1,
        LATER,
    );
    // A perfectly good signature filed under a key id the table does not
    // declare is skipped, not fatal, and not counted.
    let mut entry = sign_entry("k1", &pkey, &cert, &signed);
    entry.keyid = "zz".to_string();
    let policy = Policy { signatures: vec![entry], signed };
    assert_eq!(
        verify(&policy, "root", NOW),
        Verdict::Rejected(RejectReason::InsufficientSignatures { have: 0, need: 1 })
    );
}

#[test]
fn wrong_identity_in_certificate_does_not_count() {
    // The certificate attests a different identity than the trust anchor
    // demands: the cryptographic check may pass, the identity match fails.
    let (pkey, cert) = make_identity("intruder@example.com", "Example Root");
    let signed = signed_with(
        vec![("k1".to_string(), oidc_key("dev@example.com", "Example Root"))],
        vec!["k1".to_string()],
        1,
        LATER,
    );
    let entry = sign_entry("k1", &pkey, &cert, &signed);
    let policy = Policy { signatures: vec![entry], signed };
    assert_eq!(
        verify(&policy, "root", NOW),
        Verdict::Rejected(RejectReason::InsufficientSignatures { have: 0, need: 1 })
    );
}

#[test]
fn wrong_issuer_in_certificate_does_not_count() {
    let (pkey, cert) = make_identity("dev@example.com", "Some Other Authority");
    let signed = signed_with(
        vec![("k1".to_string(), oidc_key("dev@example.com", "Example Root"))],
        vec!["k1".to_string()],
        1,
        LATER,
    );
    let entry = sign_entry("k1", &pkey, &cert, &signed);
    let policy = Policy { signatures: vec![entry], signed };
    assert_eq!(
        verify(&policy, "root", NOW),
        Verdict::Rejected(RejectReason::InsufficientSignatures { have: 0, need: 1 })
    );
}

#[test]
fn tampered_message_fails_the_cryptographic_check() {
    let (pkey, cert) = make_identity("dev@example.com", "Example Root");
    let signed = signed_with(
        vec![("k1".to_string(), oidc_key("dev@example.com", "Example Root"))],
        vec!["k1".to_string()],
        1,
        LATER,
    );
    let entry = sign_entry("k1", &pkey, &cert, &signed);
    // Change the signed portion after signing: the old signature must not
    // verify over the new canonical text.
    let mut tampered = signed_with(
        vec![("k1".to_string(), oidc_key("dev@example.com", "Example Root"))],
        vec!["k1".to_string()],
        1,
        LATER,
    );
    tampered.namespace = "elsewhere".to_string();
    let policy = Policy { signatures: vec![entry], signed: tampered };
    assert_eq!(
        verify(&policy, "root", NOW),
        Verdict::Rejected(RejectReason::InsufficientSignatures { have: 0, need: 1 })
    );
}

#[test]
fn unknown_role_is_rejected() {
    let signed = signed_with(
        vec![("k1".to_string(), oidc_key("dev@example.com", "Example Root"))],
        vec!["k1".to_string()],
        1,
        LATER,
    );
    let policy = Policy { signatures: vec![], signed };
    assert_eq!(
        verify(&policy, "snapshot", NOW),
        Verdict::Rejected(RejectReason::UnknownRole)
    );
}

#[test]
fn unsatisfiable_threshold_rejects_without_fault() {
    let (pkey, cert) = make_identity("dev@example.com", "Example Root");
    let signed = signed_with(
        vec![("k1".to_string(), oidc_key("dev@example.com", "Example Root"))],
        vec!["k1".to_string()],
        5,
        LATER,
    );
    let entry = sign_entry("k1", &pkey, &cert, &signed);
    let policy = Policy { signatures: vec![entry], signed };
    assert_eq!(
        verify(&policy, "root", NOW),
        Verdict::Rejected(RejectReason::InsufficientSignatures { have: 1, need: 5 })
    );
}
