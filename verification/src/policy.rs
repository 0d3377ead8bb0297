//! The policy model: pure data types for a signed root policy — signatures,
//! trust-anchor keys, roles and thresholds — together with the mathematical
//! view of each type and the structural well-formedness that the store
//! establishes and the verifier relies on.
use vstd::prelude::*;

verus! {

/// A character that may appear in a policy text field: printable, and never
/// a quote or a backslash, so that every field embeds verbatim in the
/// canonical document.
pub open spec fn plain_char(c: char) -> bool {
    c != '"' && c != '\\' && (c as u32) >= 0x20
}

/// Text made of plain characters only.
pub open spec fn plain_text(s: Seq<char>) -> bool {
    forall|i: int| 0 <= i < s.len() ==> plain_char(s[i])
}

/// Strict lexicographic order on text, by code point.
pub open spec fn text_lt(a: Seq<char>, b: Seq<char>) -> bool
    decreases a.len(),
{
    if b.len() == 0 {
        false
    } else if a.len() == 0 {
        true
    } else if (a[0] as u32) < (b[0] as u32) {
        true
    } else if a[0] == b[0] {
        text_lt(a.skip(1), b.skip(1))
    } else {
        false
    }
}

/// A signature over the canonical serialization of the signed portion,
/// together with the key id that made it and the certificate that binds the
/// signing key to an identity.
pub struct Signature {
    /// The key id that made this signature.
    pub keyid: String,
    /// The base64 encoded signature of the canonical serialization of the
    /// signed portion of the policy.
    pub sig: String,
    /// The base64 encoded certificate under which the signature was made.
    pub cert: String,
}

/// The mathematical value of a `Signature`.
#[verifier::ext_equal]
pub struct SignatureView {
    pub keyid: Seq<char>,
    pub sig: Seq<char>,
    pub cert: Seq<char>,
}

impl View for Signature {
    type V = SignatureView;

    open spec fn view(&self) -> SignatureView {
        SignatureView { keyid: self.keyid@, sig: self.sig@, cert: self.cert@ }
    }
}

/// A keyless trust anchor: an identity and the authority that issued it.
pub struct SigstoreOidcKey {
    /// The identity (subject) the anchor trusts.
    pub identity: String,
    /// The issuer that must have attested the identity.
    pub issuer: String,
}

/// The mathematical value of a `SigstoreOidcKey`.
#[verifier::ext_equal]
pub struct OidcKeyView {
    pub identity: Seq<char>,
    pub issuer: Seq<char>,
}

impl View for SigstoreOidcKey {
    type V = OidcKeyView;

    open spec fn view(&self) -> OidcKeyView {
        OidcKeyView { identity: self.identity@, issuer: self.issuer@ }
    }
}

/// A trusted key, polymorphic over key kinds. The one kind carried here is
/// the keyless identity anchor; kinds holding static key material can be
/// added without touching the verifier's call sites.
pub enum Key {
    /// A keyless identity anchor.
    SigstoreOidc { keyval: SigstoreOidcKey, scheme: String },
}

/// The mathematical value of a `Key`.
#[verifier::ext_equal]
pub enum KeyView {
    SigstoreOidc { keyval: OidcKeyView, scheme: Seq<char> },
}

impl View for Key {
    type V = KeyView;

    open spec fn view(&self) -> KeyView {
        match self {
            Key::SigstoreOidc { keyval, scheme } => KeyView::SigstoreOidc {
                keyval: keyval@,
                scheme: scheme@,
            },
        }
    }
}

/// The key ids authorized for a role, and how many of them must have signed.
pub struct RoleKeys {
    /// The key ids used for the role, strictly ascending.
    pub keyids: Vec<String>,
    /// The minimum number of distinct valid signatures required.
    pub threshold: u64,
}

/// The mathematical value of a `RoleKeys`.
#[verifier::ext_equal]
pub struct RoleKeysView {
    pub keyids: Seq<Seq<char>>,
    pub threshold: u64,
}

impl View for RoleKeys {
    type V = RoleKeysView;

    open spec fn view(&self) -> RoleKeysView {
        RoleKeysView {
            keyids: self.keyids@.map_values(|s: String| s@),
            threshold: self.threshold,
        }
    }
}

/// The kind of metadata role.
pub enum RoleType {
    /// The root role delegates trust to specific keys trusted for all other
    /// top-level roles used in the system.
    Root,
}

/// The signed portion of the policy: the trust anchors, the roles over them,
/// and the window in which they are valid.
pub struct Signed {
    /// Whether snapshots are consistent; informational here.
    pub consistent_snapshot: bool,
    /// The instant, in seconds, at and after which the policy is invalid.
    pub expires: u64,
    /// The trusted keys by key id, strictly ascending by id.
    pub keys: Vec<(String, Key)>,
    /// The logical scope the policy governs.
    pub namespace: String,
    /// The roles by name, strictly ascending by name.
    pub roles: Vec<(String, RoleKeys)>,
    /// The format version of the document.
    pub spec_version: String,
    /// The monotonically increasing document version, at least one. A
    /// deployment that remembers the last version it trusted must reject
    /// any lower one; a single verification run holds no such state, so
    /// that comparison belongs to the caller that persists it.
    pub version: u64,
}

/// The mathematical value of a `Signed`.
#[verifier::ext_equal]
pub struct SignedView {
    pub consistent_snapshot: bool,
    pub expires: u64,
    pub keys: Seq<(Seq<char>, KeyView)>,
    pub namespace: Seq<char>,
    pub roles: Seq<(Seq<char>, RoleKeysView)>,
    pub spec_version: Seq<char>,
    pub version: u64,
}

impl View for Signed {
    type V = SignedView;

    open spec fn view(&self) -> SignedView {
        SignedView {
            consistent_snapshot: self.consistent_snapshot,
            expires: self.expires,
            keys: self.keys@.map_values(|e: (String, Key)| (e.0@, e.1@)),
            namespace: self.namespace@,
            roles: self.roles@.map_values(|e: (String, RoleKeys)| (e.0@, e.1@)),
            spec_version: self.spec_version@,
            version: self.version,
        }
    }
}

/// A signed root policy document.
pub struct Policy {
    /// The signatures over the signed portion.
    pub signatures: Vec<Signature>,
    /// The root policy that is signed.
    pub signed: Signed,
}

/// The mathematical value of a `Policy`.
#[verifier::ext_equal]
pub struct PolicyView {
    pub signatures: Seq<SignatureView>,
    pub signed: SignedView,
}

impl View for Policy {
    type V = PolicyView;

    open spec fn view(&self) -> PolicyView {
        PolicyView {
            signatures: self.signatures@.map_values(|s: Signature| s@),
            signed: self.signed@,
        }
    }
}

impl SignatureView {
    /// Every field is plain text.
    pub open spec fn wf(self) -> bool {
        plain_text(self.keyid) && plain_text(self.sig) && plain_text(self.cert)
    }
}

impl OidcKeyView {
    /// Every field is plain text.
    pub open spec fn wf(self) -> bool {
        plain_text(self.identity) && plain_text(self.issuer)
    }
}

impl KeyView {
    /// Every field is plain text.
    pub open spec fn wf(self) -> bool {
        match self {
            KeyView::SigstoreOidc { keyval, scheme } => keyval.wf() && plain_text(scheme),
        }
    }
}

/// Names that are plain text and strictly ascending, so that each occurs once.
pub open spec fn ascending_names(v: Seq<Seq<char>>) -> bool {
    &&& (forall|i: int| 0 <= i < v.len() ==> plain_text(#[trigger] v[i]))
    &&& (forall|i: int| 0 <= i < v.len() - 1 ==> text_lt(#[trigger] v[i], v[i + 1]))
}

impl RoleKeysView {
    /// The threshold is positive and the key ids form a strictly ascending
    /// set of plain names. A threshold above the number of key ids is well
    /// formed but unsatisfiable: the verifier rejects it without faulting.
    pub open spec fn wf(self) -> bool {
        &&& self.threshold >= 1
        &&& ascending_names(self.keyids)
    }
}

/// The format major version this library understands: a `spec_version` of
/// exactly "1", or one beginning "1.".
pub open spec fn spec_version_supported(s: Seq<char>) -> bool {
    ||| s == "1"@
    ||| (s.len() >= 2 && s[0] == '1' && s[1] == '.')
}

impl SignedView {
    /// Key and role tables are strictly ascending by name, every entry is
    /// well formed, text fields are plain, the format version is supported,
    /// and the document version is positive.
    pub open spec fn wf(self) -> bool {
        &&& ascending_names(self.keys.map_values(|e: (Seq<char>, KeyView)| e.0))
        &&& (forall|i: int| 0 <= i < self.keys.len() ==> (#[trigger] self.keys[i]).1.wf())
        &&& ascending_names(self.roles.map_values(|e: (Seq<char>, RoleKeysView)| e.0))
        &&& (forall|i: int| 0 <= i < self.roles.len() ==> (#[trigger] self.roles[i]).1.wf())
        &&& plain_text(self.namespace)
        &&& plain_text(self.spec_version)
        &&& spec_version_supported(self.spec_version)
        &&& self.version >= 1
    }
}

impl PolicyView {
    /// The signed portion is well formed and every signature entry is.
    pub open spec fn wf(self) -> bool {
        &&& (forall|i: int| 0 <= i < self.signatures.len() ==> (
            #[trigger] self.signatures[i]).wf())
        &&& self.signed.wf()
    }
}

/// The key registered under `kid`, if any.
pub open spec fn spec_key_for(keys: Seq<(Seq<char>, KeyView)>, kid: Seq<char>) -> Option<KeyView>
    decreases keys.len(),
{
    if keys.len() == 0 {
        None
    } else if keys[0].0 == kid {
        Some(keys[0].1)
    } else {
        spec_key_for(keys.skip(1), kid)
    }
}

/// The role registered under `name`, if any.
pub open spec fn spec_role_for(
    roles: Seq<(Seq<char>, RoleKeysView)>,
    name: Seq<char>,
) -> Option<RoleKeysView>
    decreases roles.len(),
{
    if roles.len() == 0 {
        None
    } else if roles[0].0 == name {
        Some(roles[0].1)
    } else {
        spec_role_for(roles.skip(1), name)
    }
}

impl Policy {
    /// How long the policy remains valid at `now`: the seconds remaining
    /// before `expires`, or nothing if the policy has already expired.
    pub fn validate_expires(&self, now: u64) -> (r: Option<u64>)
        ensures
            r == if now < self.signed.expires {
                Some((self.signed.expires - now) as u64)
            } else {
                None::<u64>
            },
    {
        if now < self.signed.expires {
            Some(self.signed.expires - now)
        } else {
            None
        }
    }
}

/// Whether two pieces of text are equal, decided character by character.
pub fn text_eq(a: &str, b: &str) -> (r: bool)
    ensures
        r == (a@ == b@),
{
    let alen = a.unicode_len();
    let blen = b.unicode_len();
    if alen != blen {
        assert(a@.len() != b@.len());
        return false;
    }
    let mut i: usize = 0;
    while i < alen
        invariant
            0 <= i <= alen,
            forall|j: int| 0 <= j < i ==> a@[j] == b@[j],
        decreases alen - i,
    {
        if a.get_char(i) != b.get_char(i) {
            return false;
        }
        i += 1;
    }
    assert(a@ =~= b@);
    true
}

impl RoleType {
    /// The role kind named `s`, if `s` names one.
    pub fn try_from(s: &str) -> (r: Option<RoleType>)
        ensures
            r == if s@ == "Root"@ {
                Some(RoleType::Root)
            } else {
                None::<RoleType>
            },
    {
        if text_eq(s, "Root") {
            Some(RoleType::Root)
        } else {
            None
        }
    }
}

impl Signed {
    /// The key registered under `kid`, if any.
    pub fn key_for(&self, kid: &str) -> (r: Option<&Key>)
        ensures
            match r {
                Some(k) => spec_key_for(self@.keys, kid@) == Some(k@),
                None => spec_key_for(self@.keys, kid@) is None,
            },
    {
        let n = self.keys.len();
        let mut i: usize = 0;
        proof {
            assert(self@.keys.skip(0) =~= self@.keys);
        }
        while i < n
            invariant
                0 <= i <= n,
                n == self.keys.len(),
                spec_key_for(self@.keys, kid@) == spec_key_for(self@.keys.skip(i as int), kid@),
            decreases n - i,
        {
            proof {
                assert(self@.keys.skip(i as int)[0] == self@.keys[i as int]);
            }
            if text_eq(self.keys[i].0.as_str(), kid) {
                return Some(&self.keys[i].1);
            }
            proof {
                assert(self@.keys.skip(i as int).skip(1) =~= self@.keys.skip(i + 1));
            }
            i += 1;
        }
        None
    }

    /// The role registered under `name`, if any.
    pub fn role_for(&self, name: &str) -> (r: Option<&RoleKeys>)
        ensures
            match r {
                Some(rk) => spec_role_for(self@.roles, name@) == Some(rk@),
                None => spec_role_for(self@.roles, name@) is None,
            },
    {
        let n = self.roles.len();
        let mut i: usize = 0;
        proof {
            assert(self@.roles.skip(0) =~= self@.roles);
        }
        while i < n
            invariant
                0 <= i <= n,
                n == self.roles.len(),
                spec_role_for(self@.roles, name@) == spec_role_for(
                    self@.roles.skip(i as int),
                    name@,
                ),
            decreases n - i,
        {
            proof {
                assert(self@.roles.skip(i as int)[0] == self@.roles[i as int]);
            }
            if text_eq(self.roles[i].0.as_str(), name) {
                return Some(&self.roles[i].1);
            }
            proof {
                assert(self@.roles.skip(i as int).skip(1) =~= self@.roles.skip(i + 1));
            }
            i += 1;
        }
        None
    }
}

} // verus!
