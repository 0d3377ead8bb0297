//! The trust verifier: decides whether a policy's signed portion carries
//! enough distinct valid signatures for a role, against an injected clock.
//!
//! A signature is valid for a keyless identity anchor when the certificate
//! transported with it attests exactly the anchor's identity and issuer
//! pair, and the signature checks cryptographically over the canonical text
//! of the signed portion under the key embedded in that certificate. The
//! cryptographic judgments are named, uninterpreted functions of their
//! inputs, discharged at run time by openssl behind trusted wrappers.
use vstd::prelude::*;

use crate::codec::{canonical_signed, name_views, ser_signed};
use crate::policy::{spec_key_for, spec_role_for, text_eq, Key, KeyView, Policy, PolicyView,
    RoleKeys, Signature, SignatureView};

verus! {

/// The identity and issuer pair that the transported certificate attests,
/// if it decodes and parses at all: a function of the certificate text
/// alone.
pub uninterp spec fn cert_pair_of(cert: Seq<char>) -> Option<(Seq<char>, Seq<char>)>;

/// Whether the signature checks cryptographically over the message under
/// the key embedded in the transported certificate: a function of the
/// three texts alone.
pub uninterp spec fn cert_sig_ok(cert: Seq<char>, message: Seq<char>, sig: Seq<char>) -> bool;

/// Relies on openssl 0.10: `base64::decode_block` on the transported
/// certificate and `x509::X509::from_der` to parse it. The identity is the
/// e-mail of the certificate's first subject alternative name — nothing,
/// if that entry is not an e-mail — and the issuer is the first common
/// name of the certificate's issuer name, read with
/// `Asn1StringRef::to_string`. The result depends on the certificate text
/// alone. `decode_block` refuses
/// lengths beyond the C integer limit by panicking, so such text is
/// treated as undecodable here.
#[verifier::external_body]
fn cert_identity_issuer(cert: &str) -> (r: Option<(String, String)>)
    ensures
        match r {
            Some(p) => cert_pair_of(cert@) == Some((p.0@, p.1@)),
            None => cert_pair_of(cert@) is None,
        },
{
    if cert.len() > 0x7fff_ffff {
        return None;
    }
    let der = match openssl::base64::decode_block(cert) {
        Ok(d) => d,
        Err(_) => return None,
    };
    let x = match openssl::x509::X509::from_der(&der) {
        Ok(x) => x,
        Err(_) => return None,
    };
    let identity = x.subject_alt_names()?.into_iter().next()?.email()?.to_string();
    let entry = x.issuer_name().entries_by_nid(openssl::nid::Nid::COMMONNAME).next()?;
    let issuer = entry.data().to_string().ok()?;
    Some((identity, issuer))
}

/// Relies on openssl 0.10: `base64::decode_block` on certificate and
/// signature, `x509::X509::from_der`, `X509::public_key`, and
/// `sign::Verifier` with SHA-256 `verify_oneshot`. Deterministic in its
/// three arguments. `decode_block` refuses lengths beyond the C integer
/// limit by panicking, so such text is treated as undecodable here.
#[verifier::external_body]
fn cert_signature_valid(cert: &str, message: &str, sig: &str) -> (r: bool)
    ensures
        r == cert_sig_ok(cert@, message@, sig@),
{
    if cert.len() > 0x7fff_ffff || sig.len() > 0x7fff_ffff {
        return false;
    }
    let checked = openssl::base64::decode_block(cert).ok().and_then(
        |der| {
            let sig_der = openssl::base64::decode_block(sig).ok()?;
            let x = openssl::x509::X509::from_der(&der).ok()?;
            let key = x.public_key().ok()?;
            let digest = openssl::hash::MessageDigest::sha256();
            let mut v = openssl::sign::Verifier::new(digest, &key).ok()?;
            v.verify_oneshot(&sig_der, message.as_bytes()).ok()
        },
    );
    checked.unwrap_or(false)
}

/// Why the verifier rejected a policy.
#[derive(Clone, Copy, Debug, PartialEq, Eq, Structural)]
pub enum RejectReason {
    /// The reference clock stands at or past the policy's expiry.
    Expired,
    /// The requested role is not declared by the policy.
    UnknownRole,
    /// Fewer distinct authorized key ids carry a valid signature than the
    /// role's threshold demands.
    InsufficientSignatures { have: u64, need: u64 },
}

/// The verifier's verdict.
#[derive(Clone, Copy, Debug, PartialEq, Eq, Structural)]
pub enum Verdict {
    /// Enough distinct authorized key ids carry a valid signature.
    VerifiedOk,
    /// The policy was rejected; the reason says why.
    Rejected(RejectReason),
}

/// A signature is valid for a key over a message when the certificate
/// attests exactly the key's identity and issuer and the signature checks
/// cryptographically over the message.
pub open spec fn sig_valid_for_key(sig: SignatureView, k: KeyView, message: Seq<char>) -> bool {
    match k {
        KeyView::SigstoreOidc { keyval, scheme } => {
            &&& cert_pair_of(sig.cert) == Some((keyval.identity, keyval.issuer))
            &&& cert_sig_ok(sig.cert, message, sig.sig)
        },
    }
}

/// A key id counts for the policy when it is registered and some signature
/// entry under that id is valid for the registered key over the canonical
/// text of the signed portion. A key id absent from the key table never
/// counts, and several entries under one id count as one.
pub open spec fn keyid_valid(p: PolicyView, kid: Seq<char>) -> bool {
    match spec_key_for(p.signed.keys, kid) {
        Option::None => false,
        Option::Some(k) => exists|n: int|
            0 <= n < p.signatures.len() && (#[trigger] p.signatures[n]).keyid == kid
                && sig_valid_for_key(p.signatures[n], k, ser_signed(p.signed)),
    }
}

/// How many of the given key ids count for the policy. The key ids of a
/// well-formed role are strictly ascending, so each id is counted once.
pub open spec fn valid_count(p: PolicyView, keyids: Seq<Seq<char>>) -> nat
    decreases keyids.len(),
{
    if keyids.len() == 0 {
        0
    } else {
        (if keyid_valid(p, keyids[0]) {
            1nat
        } else {
            0nat
        }) + valid_count(p, keyids.skip(1))
    }
}

/// The verifier's decision: expiry first, then the role lookup, then the
/// threshold over the count of valid authorized key ids.
pub open spec fn spec_verify(p: PolicyView, role: Seq<char>, now: u64) -> Verdict {
    if now >= p.signed.expires {
        Verdict::Rejected(RejectReason::Expired)
    } else {
        match spec_role_for(p.signed.roles, role) {
            Option::None => Verdict::Rejected(RejectReason::UnknownRole),
            Option::Some(rk) => if valid_count(p, rk.keyids) >= rk.threshold {
                Verdict::VerifiedOk
            } else {
                Verdict::Rejected(
                    RejectReason::InsufficientSignatures {
                        have: valid_count(p, rk.keyids) as u64,
                        need: rk.threshold,
                    },
                )
            },
        }
    }
}

/// Whether this signature entry is valid for the key over the message.
fn signature_matches_key(sig: &Signature, key: &Key, message: &str) -> (r: bool)
    ensures
        r == sig_valid_for_key(sig@, key@, message@),
{
    match key {
        Key::SigstoreOidc { keyval, scheme: _ } => {
            match cert_identity_issuer(sig.cert.as_str()) {
                None => false,
                Some(pair) => {
                    let (identity, issuer) = pair;
                    if text_eq(identity.as_str(), keyval.identity.as_str()) && text_eq(
                        issuer.as_str(),
                        keyval.issuer.as_str(),
                    ) {
                        cert_signature_valid(sig.cert.as_str(), message, sig.sig.as_str())
                    } else {
                        false
                    }
                },
            }
        },
    }
}

/// Whether the key id counts for the policy.
fn keyid_is_valid(p: &Policy, kid: &str, message: &str) -> (r: bool)
    requires
        message@ == ser_signed(p@.signed),
    ensures
        r == keyid_valid(p@, kid@),
{
    let key = match p.signed.key_for(kid) {
        None => {
            return false;
        },
        Some(k) => k,
    };
    let n = p.signatures.len();
    let mut m: usize = 0;
    while m < n
        invariant
            0 <= m <= n,
            n == p.signatures.len(),
            spec_key_for(p@.signed.keys, kid@) == Some(key@),
            forall|t: int|
                0 <= t < m ==> !((#[trigger] p@.signatures[t]).keyid == kid@ && sig_valid_for_key(
                    p@.signatures[t],
                    key@,
                    message@,
                )),
        decreases n - m,
    {
        proof {
            assert(p@.signatures[m as int] == p.signatures@[m as int]@);
        }
        let sig = &p.signatures[m];
        if text_eq(sig.keyid.as_str(), kid) {
            if signature_matches_key(sig, key, message) {
                return true;
            }
        }
        m += 1;
    }
    false
}

/// How many of the key ids count for the policy.
fn count_valid(p: &Policy, keyids: &Vec<String>, message: &str) -> (r: usize)
    requires
        message@ == ser_signed(p@.signed),
    ensures
        r == valid_count(p@, name_views(keyids@)),
{
    let n = keyids.len();
    let mut m: usize = 0;
    let mut count: usize = 0;
    proof {
        assert(name_views(keyids@).skip(0) =~= name_views(keyids@));
    }
    while m < n
        invariant
            0 <= m <= n,
            n == keyids.len(),
            count <= m,
            count + valid_count(p@, name_views(keyids@).skip(m as int)) == valid_count(
                p@,
                name_views(keyids@),
            ),
        decreases n - m,
    {
        proof {
            assert(name_views(keyids@).skip(m as int)[0] == name_views(keyids@)[m as int]);
            assert(name_views(keyids@)[m as int] == keyids@[m as int]@);
            assert(name_views(keyids@).skip(m as int).skip(1) =~= name_views(keyids@).skip(m + 1));
        }
        if keyid_is_valid(p, keyids[m].as_str(), message) {
            count += 1;
        }
        m += 1;
    }
    count
}

/// Verifies the policy for a role at the instant `now`: rejects an expired
/// policy first, then an undeclared role, and otherwise compares the count
/// of distinct authorized key ids carrying a valid signature against the
/// role's threshold. A role whose threshold exceeds its key ids is
/// unsatisfiable and is rejected the same way, never a fault.
pub fn verify(policy: &Policy, role: &str, now: u64) -> (r: Verdict)
    ensures
        r == spec_verify(policy@, role@, now),
{
    if now >= policy.signed.expires {
        return Verdict::Rejected(RejectReason::Expired);
    }
    let rk = match policy.signed.role_for(role) {
        None => {
            return Verdict::Rejected(RejectReason::UnknownRole);
        },
        Some(rk) => rk,
    };
    let message = canonical_signed(&policy.signed);
    let have = count_valid(policy, &rk.keyids, message.as_str());
    if (have as u64) >= rk.threshold {
        Verdict::VerifiedOk
    } else {
        Verdict::Rejected(
            RejectReason::InsufficientSignatures { have: have as u64, need: rk.threshold },
        )
    }
}

/// The policy extended by one more signature entry.
pub open spec fn with_signature(p: PolicyView, s: SignatureView) -> PolicyView {
    PolicyView { signatures: p.signatures.push(s), signed: p.signed }
}

/// Verification succeeds exactly when, before expiry and for a declared
/// role, at least the role's threshold of its key ids carry a valid
/// signature.
pub proof fn lemma_threshold_rule(p: PolicyView, role: Seq<char>, now: u64)
    requires
        now < p.signed.expires,
    ensures
        spec_role_for(p.signed.roles, role) matches Some(rk) ==> ((spec_verify(p, role, now)
            == Verdict::VerifiedOk) <==> valid_count(p, rk.keyids) >= rk.threshold),
{
}

/// At or past expiry, verification rejects with `Expired` whatever the
/// signatures say.
pub proof fn lemma_expired_rejects(p: PolicyView, role: Seq<char>, now: u64)
    requires
        now >= p.signed.expires,
    ensures
        spec_verify(p, role, now) == Verdict::Rejected(RejectReason::Expired),
{
}

/// Equal validity of every key id gives equal verdicts, as long as the
/// signed portions agree.
proof fn lemma_count_congruent(p1: PolicyView, p2: PolicyView, keyids: Seq<Seq<char>>)
    requires
        forall|kid: Seq<char>| keyid_valid(p1, kid) == keyid_valid(p2, kid),
    ensures
        valid_count(p1, keyids) == valid_count(p2, keyids),
    decreases keyids.len(),
{
    if keyids.len() > 0 {
        lemma_count_congruent(p1, p2, keyids.skip(1));
    }
}

/// A signature whose key id is absent from the key table is never counted:
/// appending such an entry leaves every verdict unchanged.
pub proof fn lemma_unknown_keyid_ignored(
    p: PolicyView,
    s: SignatureView,
    role: Seq<char>,
    now: u64,
)
    requires
        spec_key_for(p.signed.keys, s.keyid) is None,
    ensures
        spec_verify(with_signature(p, s), role, now) == spec_verify(p, role, now),
{
    let q = with_signature(p, s);
    assert forall|kid: Seq<char>| keyid_valid(q, kid) == keyid_valid(p, kid) by {
        match spec_key_for(p.signed.keys, kid) {
            Option::None => {},
            Option::Some(k) => {
            if keyid_valid(q, kid) {
                let n = choose|n: int|
                    0 <= n < q.signatures.len() && (#[trigger] q.signatures[n]).keyid == kid
                        && sig_valid_for_key(q.signatures[n], k, ser_signed(q.signed));
                // The appended entry's key id is unregistered, so the
                // witness lies in the original list.
                assert(n < p.signatures.len());
                assert(p.signatures[n].keyid == kid && sig_valid_for_key(
                    p.signatures[n],
                    k,
                    ser_signed(p.signed),
                ));
            }
            if keyid_valid(p, kid) {
                let n = choose|n: int|
                    0 <= n < p.signatures.len() && (#[trigger] p.signatures[n]).keyid == kid
                        && sig_valid_for_key(p.signatures[n], k, ser_signed(p.signed));
                assert(q.signatures[n].keyid == kid && sig_valid_for_key(
                    q.signatures[n],
                    k,
                    ser_signed(q.signed),
                ));
            }
            },
        }
    }
    if now < p.signed.expires {
        match spec_role_for(p.signed.roles, role) {
            Option::Some(rk) => {
                lemma_count_congruent(q, p, rk.keyids);
            },
            Option::None => {},
        }
    }
}

/// A key id is counted once however many signature entries repeat it:
/// appending a duplicate of a present entry leaves every verdict unchanged.
pub proof fn lemma_duplicate_counts_once(p: PolicyView, n: int, role: Seq<char>, now: u64)
    requires
        0 <= n < p.signatures.len(),
    ensures
        spec_verify(with_signature(p, p.signatures[n]), role, now) == spec_verify(p, role, now),
{
    let q = with_signature(p, p.signatures[n]);
    assert forall|kid: Seq<char>| keyid_valid(q, kid) == keyid_valid(p, kid) by {
        match spec_key_for(p.signed.keys, kid) {
            Option::None => {},
            Option::Some(k) => {
            if keyid_valid(q, kid) {
                let w = choose|w: int|
                    0 <= w < q.signatures.len() && (#[trigger] q.signatures[w]).keyid == kid
                        && sig_valid_for_key(q.signatures[w], k, ser_signed(q.signed));
                if w < p.signatures.len() {
                    assert(p.signatures[w].keyid == kid && sig_valid_for_key(
                        p.signatures[w],
                        k,
                        ser_signed(p.signed),
                    ));
                } else {
                    // The witness is the duplicate; the original entry
                    // serves as well.
                    assert(q.signatures[w] == p.signatures[n]);
                    assert(p.signatures[n].keyid == kid && sig_valid_for_key(
                        p.signatures[n],
                        k,
                        ser_signed(p.signed),
                    ));
                }
            }
            if keyid_valid(p, kid) {
                let w = choose|w: int|
                    0 <= w < p.signatures.len() && (#[trigger] p.signatures[w]).keyid == kid
                        && sig_valid_for_key(p.signatures[w], k, ser_signed(p.signed));
                assert(q.signatures[w].keyid == kid && sig_valid_for_key(
                    q.signatures[w],
                    k,
                    ser_signed(q.signed),
                ));
            }
            },
        }
    }
    if now < p.signed.expires {
        match spec_role_for(p.signed.roles, role) {
            Option::Some(rk) => {
                lemma_count_congruent(q, p, rk.keyids);
            },
            Option::None => {},
        }
    }
}

} // verus!
