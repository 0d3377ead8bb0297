//! The policy store: canonical serialization of a policy document and the
//! parser that inverts it.
//!
//! The canonical form is a single line of structured text with a fixed field
//! order (lexicographic), map entries strictly ascending by name, no
//! insignificant whitespace, and text fields embedded verbatim. The store
//! accepts exactly this form: two logically equal documents therefore have
//! byte-identical encodings, and re-serializing a loaded document returns
//! the very text that was loaded, which makes signatures over the canonical
//! text stable across round trips.
use vstd::prelude::*;

use crate::policy::{plain_char, plain_text, spec_version_supported, text_lt, Key, KeyView, Policy, PolicyView, RoleKeys,
    RoleKeysView, Signature, SignatureView, Signed, SignedView, SigstoreOidcKey};

verus! {

/// The decimal digit `d`.
pub open spec fn digit_char(d: nat) -> char {
    if d == 0 {
        '0'
    } else if d == 1 {
        '1'
    } else if d == 2 {
        '2'
    } else if d == 3 {
        '3'
    } else if d == 4 {
        '4'
    } else if d == 5 {
        '5'
    } else if d == 6 {
        '6'
    } else if d == 7 {
        '7'
    } else if d == 8 {
        '8'
    } else {
        '9'
    }
}

/// The canonical decimal rendering of `n`: no sign, no leading zero.
pub open spec fn ser_nat(n: nat) -> Seq<char>
    decreases n,
{
    if n < 10 {
        seq![digit_char(n)]
    } else {
        ser_nat(n / 10) + seq![digit_char(n % 10)]
    }
}

/// The canonical rendering of a text field: the text between two quotes.
pub open spec fn ser_text(s: Seq<char>) -> Seq<char> {
    seq!['"'] + s + seq!['"']
}

/// The canonical rendering of a truth value.
pub open spec fn ser_bool(b: bool) -> Seq<char> {
    if b {
        "true"@
    } else {
        "false"@
    }
}

/// The canonical rendering of one signature entry.
pub open spec fn ser_signature(s: SignatureView) -> Seq<char> {
    "{\"cert\":"@ + ser_text(s.cert) + ",\"keyid\":"@ + ser_text(s.keyid) + ",\"sig\":"@
        + ser_text(s.sig) + "}"@
}

/// The canonical rendering of the signature entries after the first one:
/// a comma before each.
pub open spec fn ser_sigs_tail(l: Seq<SignatureView>) -> Seq<char>
    decreases l.len(),
{
    if l.len() == 0 {
        Seq::empty()
    } else {
        ","@ + ser_signature(l[0]) + ser_sigs_tail(l.skip(1))
    }
}

/// The canonical rendering of the signature list, entries comma-separated.
pub open spec fn ser_signatures(l: Seq<SignatureView>) -> Seq<char> {
    if l.len() == 0 {
        Seq::empty()
    } else {
        ser_signature(l[0]) + ser_sigs_tail(l.skip(1))
    }
}

/// The canonical rendering of the names after the first one.
pub open spec fn ser_names_tail(l: Seq<Seq<char>>) -> Seq<char>
    decreases l.len(),
{
    if l.len() == 0 {
        Seq::empty()
    } else {
        ","@ + ser_text(l[0]) + ser_names_tail(l.skip(1))
    }
}

/// The canonical rendering of a name list, entries comma-separated.
pub open spec fn ser_names(l: Seq<Seq<char>>) -> Seq<char> {
    if l.len() == 0 {
        Seq::empty()
    } else {
        ser_text(l[0]) + ser_names_tail(l.skip(1))
    }
}

/// The canonical rendering of one trusted key.
pub open spec fn ser_key(k: KeyView) -> Seq<char> {
    match k {
        KeyView::SigstoreOidc { keyval, scheme } => "{\"keytype\":\"sigstore-oidc\",\"keyval\":{\"identity\":"@
            + ser_text(keyval.identity) + ",\"issuer\":"@ + ser_text(keyval.issuer)
            + "},\"scheme\":"@ + ser_text(scheme) + "}"@,
    }
}

/// The canonical rendering of one key-table entry.
pub open spec fn ser_key_entry(e: (Seq<char>, KeyView)) -> Seq<char> {
    ser_text(e.0) + ":"@ + ser_key(e.1)
}

/// The canonical rendering of the key-table entries after the first one.
pub open spec fn ser_keys_tail(l: Seq<(Seq<char>, KeyView)>) -> Seq<char>
    decreases l.len(),
{
    if l.len() == 0 {
        Seq::empty()
    } else {
        ","@ + ser_key_entry(l[0]) + ser_keys_tail(l.skip(1))
    }
}

/// The canonical rendering of the key table, entries comma-separated.
pub open spec fn ser_keys(l: Seq<(Seq<char>, KeyView)>) -> Seq<char> {
    if l.len() == 0 {
        Seq::empty()
    } else {
        ser_key_entry(l[0]) + ser_keys_tail(l.skip(1))
    }
}

/// The canonical rendering of the keys of one role.
pub open spec fn ser_rolekeys(r: RoleKeysView) -> Seq<char> {
    "{\"keyids\":["@ + ser_names(r.keyids) + "]"@ + ",\"threshold\":"@ + ser_nat(
        r.threshold as nat,
    ) + "}"@
}

/// The canonical rendering of one role-table entry.
pub open spec fn ser_role_entry(e: (Seq<char>, RoleKeysView)) -> Seq<char> {
    ser_text(e.0) + ":"@ + ser_rolekeys(e.1)
}

/// The canonical rendering of the role-table entries after the first one.
pub open spec fn ser_roles_tail(l: Seq<(Seq<char>, RoleKeysView)>) -> Seq<char>
    decreases l.len(),
{
    if l.len() == 0 {
        Seq::empty()
    } else {
        ","@ + ser_role_entry(l[0]) + ser_roles_tail(l.skip(1))
    }
}

/// The canonical rendering of the role table, entries comma-separated.
pub open spec fn ser_roles(l: Seq<(Seq<char>, RoleKeysView)>) -> Seq<char> {
    if l.len() == 0 {
        Seq::empty()
    } else {
        ser_role_entry(l[0]) + ser_roles_tail(l.skip(1))
    }
}

/// The canonical rendering of the signed portion. Signatures are made over
/// exactly this text.
pub open spec fn ser_signed(sd: SignedView) -> Seq<char> {
    "{\"consistent_snapshot\":"@ + ser_bool(sd.consistent_snapshot) + ",\"expires\":"@ + ser_nat(
        sd.expires as nat,
    ) + ",\"keys\":{"@ + ser_keys(sd.keys) + "}"@ + ",\"namespace\":"@ + ser_text(sd.namespace)
        + ",\"roles\":{"@ + ser_roles(sd.roles) + "}"@ + ",\"spec_version\":"@ + ser_text(
        sd.spec_version,
    ) + ",\"version\":"@ + ser_nat(sd.version as nat) + "}"@
}

/// The canonical rendering of a whole policy document.
pub open spec fn ser_policy(p: PolicyView) -> Seq<char> {
    "{\"signatures\":["@ + ser_signatures(p.signatures) + "]"@ + ",\"signed\":"@ + ser_signed(
        p.signed,
    ) + "}"@
}

/// The decimal digit `d` as text.
fn digit_str(d: u64) -> (r: &'static str)
    requires
        d < 10,
    ensures
        r@ == seq![digit_char(d as nat)],
{
    proof {
        reveal_strlit("0");
        reveal_strlit("1");
        reveal_strlit("2");
        reveal_strlit("3");
        reveal_strlit("4");
        reveal_strlit("5");
        reveal_strlit("6");
        reveal_strlit("7");
        reveal_strlit("8");
        reveal_strlit("9");
    }
    let r = if d == 0 {
        "0"
    } else if d == 1 {
        "1"
    } else if d == 2 {
        "2"
    } else if d == 3 {
        "3"
    } else if d == 4 {
        "4"
    } else if d == 5 {
        "5"
    } else if d == 6 {
        "6"
    } else if d == 7 {
        "7"
    } else if d == 8 {
        "8"
    } else {
        "9"
    };
    proof {
        assert(r@ =~= seq![digit_char(d as nat)]);
    }
    r
}

/// Appends the canonical decimal rendering of `n`.
fn write_u64(out: &mut String, n: u64)
    ensures
        final(out)@ == old(out)@ + ser_nat(n as nat),
    decreases n,
{
    if n >= 10 {
        write_u64(out, n / 10);
    }
    out.append(digit_str(n % 10));
    proof {
        if n < 10 {
            assert(final(out)@ =~= old(out)@ + ser_nat(n as nat));
        } else {
            assert(final(out)@ =~= old(out)@ + ser_nat(n as nat));
        }
    }
}

/// Appends the canonical rendering of a text field.
fn write_text(out: &mut String, s: &str)
    ensures
        final(out)@ == old(out)@ + ser_text(s@),
{
    out.append("\"");
    out.append(s);
    out.append("\"");
    proof {
        reveal_strlit("\"");
        assert(final(out)@ =~= old(out)@ + ser_text(s@));
    }
}

/// Appends the canonical rendering of a truth value.
fn write_bool(out: &mut String, b: bool)
    ensures
        final(out)@ == old(out)@ + ser_bool(b),
{
    if b {
        out.append("true");
    } else {
        out.append("false");
    }
}

/// Appends the canonical rendering of one signature entry.
fn write_signature(out: &mut String, s: &Signature)
    ensures
        final(out)@ == old(out)@ + ser_signature(s@),
{
    out.append("{\"cert\":");
    write_text(out, s.cert.as_str());
    out.append(",\"keyid\":");
    write_text(out, s.keyid.as_str());
    out.append(",\"sig\":");
    write_text(out, s.sig.as_str());
    out.append("}");
    proof {
        assert(final(out)@ =~= old(out)@ + ser_signature(s@));
    }
}

/// Appends the signature list after its first `k` entries.
fn write_sigs_rest(out: &mut String, l: &Vec<Signature>, k: usize)
    requires
        1 <= k <= l.len(),
    ensures
        final(out)@ == old(out)@ + ser_sigs_tail(l@.map_values(|s: Signature| s@).skip(k as int)),
    decreases l.len() - k,
{
    if k >= l.len() {
        proof {
            assert(l@.map_values(|s: Signature| s@).skip(k as int)
                =~= Seq::<SignatureView>::empty());
            assert(final(out)@ =~= old(out)@ + ser_sigs_tail(
                l@.map_values(|s: Signature| s@).skip(k as int),
            ));
        }
        return ;
    }
    out.append(",");
    write_signature(out, &l[k]);
    write_sigs_rest(out, l, k + 1);
    proof {
        let m = l@.map_values(|s: Signature| s@);
        assert(m.skip(k as int)[0] == m[k as int]);
        assert(m.skip(k as int).skip(1) =~= m.skip(k + 1));
        assert(final(out)@ =~= old(out)@ + ser_sigs_tail(m.skip(k as int)));
    }
}

/// Appends the whole signature list.
fn write_signatures(out: &mut String, l: &Vec<Signature>)
    ensures
        final(out)@ == old(out)@ + ser_signatures(l@.map_values(|s: Signature| s@)),
{
    if l.len() == 0 {
        proof {
            assert(final(out)@ =~= old(out)@ + ser_signatures(l@.map_values(|s: Signature| s@)));
        }
        return ;
    }
    write_signature(out, &l[0]);
    write_sigs_rest(out, l, 1);
    proof {
        assert(final(out)@ =~= old(out)@ + ser_signatures(l@.map_values(|s: Signature| s@)));
    }
}

/// Appends the name list after its first `k` entries.
fn write_names_rest(out: &mut String, l: &Vec<String>, k: usize)
    requires
        1 <= k <= l.len(),
    ensures
        final(out)@ == old(out)@ + ser_names_tail(l@.map_values(|s: String| s@).skip(k as int)),
    decreases l.len() - k,
{
    if k >= l.len() {
        proof {
            assert(l@.map_values(|s: String| s@).skip(k as int) =~= Seq::<Seq<char>>::empty());
            assert(final(out)@ =~= old(out)@ + ser_names_tail(
                l@.map_values(|s: String| s@).skip(k as int),
            ));
        }
        return ;
    }
    out.append(",");
    write_text(out, l[k].as_str());
    write_names_rest(out, l, k + 1);
    proof {
        let m = l@.map_values(|s: String| s@);
        assert(m.skip(k as int)[0] == m[k as int]);
        assert(m.skip(k as int).skip(1) =~= m.skip(k + 1));
        assert(final(out)@ =~= old(out)@ + ser_names_tail(m.skip(k as int)));
    }
}

/// Appends the whole name list.
fn write_names(out: &mut String, l: &Vec<String>)
    ensures
        final(out)@ == old(out)@ + ser_names(l@.map_values(|s: String| s@)),
{
    if l.len() == 0 {
        proof {
            assert(final(out)@ =~= old(out)@ + ser_names(l@.map_values(|s: String| s@)));
        }
        return ;
    }
    write_text(out, l[0].as_str());
    write_names_rest(out, l, 1);
    proof {
        assert(final(out)@ =~= old(out)@ + ser_names(l@.map_values(|s: String| s@)));
    }
}

/// Appends the canonical rendering of one trusted key.
fn write_key(out: &mut String, k: &Key)
    ensures
        final(out)@ == old(out)@ + ser_key(k@),
{
    match k {
        Key::SigstoreOidc { keyval, scheme } => {
            out.append("{\"keytype\":\"sigstore-oidc\",\"keyval\":{\"identity\":");
            write_text(out, keyval.identity.as_str());
            out.append(",\"issuer\":");
            write_text(out, keyval.issuer.as_str());
            out.append("},\"scheme\":");
            write_text(out, scheme.as_str());
            out.append("}");
            proof {
                assert(final(out)@ =~= old(out)@ + ser_key(k@));
            }
        },
    }
}

/// Appends the key table after its first `k` entries.
fn write_keys_rest(out: &mut String, l: &Vec<(String, Key)>, k: usize)
    requires
        1 <= k <= l.len(),
    ensures
        final(out)@ == old(out)@ + ser_keys_tail(l@.map_values(|e: (String, Key)| (e.0@, e.1@)).skip(k as int)),
    decreases l.len() - k,
{
    if k >= l.len() {
        proof {
            assert(l@.map_values(|e: (String, Key)| (e.0@, e.1@)).skip(k as int)
                =~= Seq::<(Seq<char>, KeyView)>::empty());
            assert(final(out)@ =~= old(out)@ + ser_keys_tail(
                l@.map_values(|e: (String, Key)| (e.0@, e.1@)).skip(k as int),
            ));
        }
        return ;
    }
    out.append(",");
    write_text(out, l[k].0.as_str());
    out.append(":");
    write_key(out, &l[k].1);
    write_keys_rest(out, l, k + 1);
    proof {
        let m = l@.map_values(|e: (String, Key)| (e.0@, e.1@));
        assert(m.skip(k as int)[0] == m[k as int]);
        assert(m.skip(k as int).skip(1) =~= m.skip(k + 1));
        assert(final(out)@ =~= old(out)@ + ser_keys_tail(m.skip(k as int)));
    }
}

/// Appends the whole key table.
fn write_keys(out: &mut String, l: &Vec<(String, Key)>)
    ensures
        final(out)@ == old(out)@ + ser_keys(l@.map_values(|e: (String, Key)| (e.0@, e.1@))),
{
    if l.len() == 0 {
        proof {
            assert(final(out)@ =~= old(out)@ + ser_keys(
                l@.map_values(|e: (String, Key)| (e.0@, e.1@)),
            ));
        }
        return ;
    }
    write_text(out, l[0].0.as_str());
    out.append(":");
    write_key(out, &l[0].1);
    write_keys_rest(out, l, 1);
    proof {
        assert(final(out)@ =~= old(out)@ + ser_keys(
            l@.map_values(|e: (String, Key)| (e.0@, e.1@)),
        ));
    }
}

/// Appends the canonical rendering of the keys of one role.
fn write_rolekeys(out: &mut String, r: &RoleKeys)
    ensures
        final(out)@ == old(out)@ + ser_rolekeys(r@),
{
    out.append("{\"keyids\":[");
    write_names(out, &r.keyids);
    out.append("]");
    out.append(",\"threshold\":");
    write_u64(out, r.threshold);
    out.append("}");
    proof {
        assert(final(out)@ =~= old(out)@ + ser_rolekeys(r@));
    }
}

/// Appends the role table after its first `k` entries.
fn write_roles_rest(out: &mut String, l: &Vec<(String, RoleKeys)>, k: usize)
    requires
        1 <= k <= l.len(),
    ensures
        final(out)@ == old(out)@ + ser_roles_tail(l@.map_values(|e: (String, RoleKeys)| (e.0@, e.1@)).skip(k as int)),
    decreases l.len() - k,
{
    if k >= l.len() {
        proof {
            assert(l@.map_values(|e: (String, RoleKeys)| (e.0@, e.1@)).skip(k as int)
                =~= Seq::<(Seq<char>, RoleKeysView)>::empty());
            assert(final(out)@ =~= old(out)@ + ser_roles_tail(
                l@.map_values(|e: (String, RoleKeys)| (e.0@, e.1@)).skip(k as int),
            ));
        }
        return ;
    }
    out.append(",");
    write_text(out, l[k].0.as_str());
    out.append(":");
    write_rolekeys(out, &l[k].1);
    write_roles_rest(out, l, k + 1);
    proof {
        let m = l@.map_values(|e: (String, RoleKeys)| (e.0@, e.1@));
        assert(m.skip(k as int)[0] == m[k as int]);
        assert(m.skip(k as int).skip(1) =~= m.skip(k + 1));
        assert(final(out)@ =~= old(out)@ + ser_roles_tail(m.skip(k as int)));
    }
}

/// Appends the whole role table.
fn write_roles(out: &mut String, l: &Vec<(String, RoleKeys)>)
    ensures
        final(out)@ == old(out)@ + ser_roles(l@.map_values(|e: (String, RoleKeys)| (e.0@, e.1@))),
{
    if l.len() == 0 {
        proof {
            assert(final(out)@ =~= old(out)@ + ser_roles(
                l@.map_values(|e: (String, RoleKeys)| (e.0@, e.1@)),
            ));
        }
        return ;
    }
    write_text(out, l[0].0.as_str());
    out.append(":");
    write_rolekeys(out, &l[0].1);
    write_roles_rest(out, l, 1);
    proof {
        assert(final(out)@ =~= old(out)@ + ser_roles(
            l@.map_values(|e: (String, RoleKeys)| (e.0@, e.1@)),
        ));
    }
}

// ---------------------------------------------------------------------------
// Parsing. Each parser is proved sound — whatever it accepts is the canonical
// rendering of what it returns — and complete — on input that continues with
// a canonical rendering it returns exactly the rendered value.
// ---------------------------------------------------------------------------
/// The fragment `frag` stands in `s` at position `i`.
pub open spec fn text_at(s: Seq<char>, i: int, frag: Seq<char>) -> bool {
    &&& 0 <= i
    &&& i + frag.len() <= s.len()
    &&& s.subrange(i, i + frag.len()) == frag
}

/// A fragment standing at `i` is read off `s` character by character.
pub proof fn lemma_text_at_index(s: Seq<char>, i: int, frag: Seq<char>, m: int)
    requires
        text_at(s, i, frag),
        0 <= m < frag.len(),
    ensures
        s[i + m] == frag[m],
{
    assert(s.subrange(i, i + frag.len())[m] == s[i + m]);
}

/// A concatenation standing at `i` splits into its two halves.
pub proof fn lemma_text_at_split(s: Seq<char>, i: int, a: Seq<char>, b: Seq<char>)
    requires
        text_at(s, i, a + b),
    ensures
        text_at(s, i, a),
        text_at(s, i + a.len(), b),
{
    assert(s.subrange(i, i + a.len()) =~= a) by {
        assert forall|m: int| 0 <= m < a.len() implies s.subrange(i, i + a.len())[m] == a[m] by {
            lemma_text_at_index(s, i, a + b, m);
            assert((a + b)[m] == a[m]);
        }
    }
    assert(s.subrange(i + a.len(), i + a.len() + b.len()) =~= b) by {
        assert forall|m: int| 0 <= m < b.len() implies s.subrange(
            i + a.len(),
            i + a.len() + b.len(),
        )[m] == b[m] by {
            lemma_text_at_index(s, i, a + b, a.len() + m);
            assert((a + b)[a.len() + m] == b[m]);
        }
    }
}

/// Adjacent fragments join into one.
pub proof fn lemma_join(s: Seq<char>, i: int, j: int, k: int)
    requires
        0 <= i <= j <= k <= s.len(),
    ensures
        s.subrange(i, k) == s.subrange(i, j) + s.subrange(j, k),
{
    assert(s.subrange(i, k) =~= s.subrange(i, j) + s.subrange(j, k));
}

/// The value of the decimal digit `c`, or ten for any other character.
pub open spec fn digit_val(c: char) -> nat {
    if c == '0' {
        0
    } else if c == '1' {
        1
    } else if c == '2' {
        2
    } else if c == '3' {
        3
    } else if c == '4' {
        4
    } else if c == '5' {
        5
    } else if c == '6' {
        6
    } else if c == '7' {
        7
    } else if c == '8' {
        8
    } else if c == '9' {
        9
    } else {
        10
    }
}

/// Whether `c` is a decimal digit.
pub open spec fn is_digit_char(c: char) -> bool {
    digit_val(c) < 10
}

/// Text made of decimal digits only.
pub open spec fn all_digits(s: Seq<char>) -> bool {
    forall|i: int| 0 <= i < s.len() ==> is_digit_char(#[trigger] s[i])
}

/// The number that a digit string denotes.
pub open spec fn text_nat(s: Seq<char>) -> nat
    decreases s.len(),
{
    if s.len() == 0 {
        0
    } else {
        text_nat(s.drop_last()) * 10 + digit_val(s.last())
    }
}

/// Position `e` does not continue a decimal number.
pub open spec fn num_boundary(s: Seq<char>, e: int) -> bool {
    e == s.len() || !is_digit_char(s[e])
}

/// The canonical rendering of a number is a nonempty digit string whose
/// first digit is zero exactly for zero, and it denotes the number itself.
pub proof fn lemma_ser_nat_shape(n: nat)
    ensures
        ser_nat(n).len() >= 1,
        all_digits(ser_nat(n)),
        (ser_nat(n)[0] == '0') <==> n == 0,
        text_nat(ser_nat(n)) == n,
    decreases n,
{
    if n < 10 {
        assert(ser_nat(n) =~= seq![digit_char(n)]);
        assert(ser_nat(n).drop_last() =~= Seq::<char>::empty());
        assert(text_nat(Seq::<char>::empty()) == 0);
        assert(ser_nat(n).last() == digit_char(n));
        assert(text_nat(ser_nat(n)) == text_nat(ser_nat(n).drop_last()) * 10 + digit_val(
            ser_nat(n).last(),
        ));
        assert(digit_val(digit_char(n)) == n);
    } else {
        lemma_ser_nat_shape(n / 10);
        assert(ser_nat(n).drop_last() =~= ser_nat(n / 10));
        assert(ser_nat(n).last() == digit_char(n % 10));
        assert(ser_nat(n)[0] == ser_nat(n / 10)[0]);
    }
}

/// A nonempty digit string without a leading zero (unless it is the single
/// digit zero) is the canonical rendering of the number it denotes.
pub proof fn lemma_canonical_digits(s: Seq<char>)
    requires
        s.len() >= 1,
        all_digits(s),
        s.len() == 1 || s[0] != '0',
    ensures
        ser_nat(text_nat(s)) == s,
        s.len() > 1 ==> text_nat(s) >= 10,
    decreases s.len(),
{
    if s.len() == 1 {
        assert(s.drop_last() =~= Seq::<char>::empty());
        assert(text_nat(Seq::<char>::empty()) == 0);
        assert(s.last() == s[0]);
        assert(text_nat(s) == text_nat(s.drop_last()) * 10 + digit_val(s.last()));
        assert(text_nat(s) == digit_val(s[0]));
        assert(ser_nat(text_nat(s)) =~= s);
    } else {
        let s0 = s.drop_last();
        assert(s0[0] == s[0]);
        lemma_canonical_digits(s0);
        let m = text_nat(s);
        assert(text_nat(s0) >= 1) by {
            if s0.len() == 1 {
                assert(digit_val(s0[0]) >= 1);
            }
        }
        assert(m == text_nat(s0) * 10 + digit_val(s.last()));
        assert(m >= 10);
        assert(m / 10 == text_nat(s0) && m % 10 == digit_val(s.last())) by {
            assert(digit_val(s.last()) < 10);
        }
        assert(digit_char(m % 10) == s.last());
        assert(ser_nat(m) =~= s0 + seq![s.last()]);
        assert(s0 + seq![s.last()] =~= s);
    }
}

/// Shortening a digit string never increases the number it denotes.
pub proof fn lemma_text_nat_take_le(s: Seq<char>, k: int)
    requires
        0 <= k <= s.len(),
    ensures
        text_nat(s.take(k)) <= text_nat(s),
    decreases s.len(),
{
    if k < s.len() {
        assert(s.take(k) =~= s.drop_last().take(k));
        lemma_text_nat_take_le(s.drop_last(), k);
    } else {
        assert(s.take(k) =~= s);
    }
}

/// The value of the decimal digit `c`, or ten for any other character.
fn digit_of(c: char) -> (r: u64)
    ensures
        r == digit_val(c),
{
    if c == '0' {
        0
    } else if c == '1' {
        1
    } else if c == '2' {
        2
    } else if c == '3' {
        3
    } else if c == '4' {
        4
    } else if c == '5' {
        5
    } else if c == '6' {
        6
    } else if c == '7' {
        7
    } else if c == '8' {
        8
    } else if c == '9' {
        9
    } else {
        10
    }
}

/// Consumes the exact literal `lit` at position `i`, or reports that it
/// does not stand there.
fn expect_lit(s: &str, i: usize, lit: &str) -> (r: Option<usize>)
    requires
        i <= s@.len(),
    ensures
        match r {
            Some(j) => j == i + lit@.len() && text_at(s@, i as int, lit@),
            None => !text_at(s@, i as int, lit@),
        },
{
    let sl = s.unicode_len();
    let ll = lit.unicode_len();
    if ll > sl - i {
        return None;
    }
    let mut k: usize = 0;
    while k < ll
        invariant
            0 <= k <= ll,
            i + ll <= sl,
            forall|t: int| 0 <= t < k ==> s@[i + t] == lit@[t],
        decreases ll - k,
    {
        if s.get_char(i + k) != lit.get_char(k) {
            proof {
                if text_at(s@, i as int, lit@) {
                    lemma_text_at_index(s@, i as int, lit@, k as int);
                }
            }
            return None;
        }
        k += 1;
    }
    proof {
        assert(s@.subrange(i as int, i + ll) =~= lit@);
    }
    Some(i + ll)
}

/// Parses a quoted text field at position `i`: sound — what is accepted is
/// the canonical rendering of the returned text, which is plain — and
/// complete — a canonical rendering standing at `i` is returned exactly.
fn parse_text(s: &str, i: usize) -> (r: Option<(String, usize)>)
    requires
        i <= s@.len(),
    ensures
        r matches Some(p) ==> {
            &&& i < p.1 <= s@.len()
            &&& plain_text(p.0@)
            &&& p.1 == i + ser_text(p.0@).len()
            &&& s@.subrange(i as int, p.1 as int) == ser_text(p.0@)
        },
        forall|t: Seq<char>|
            plain_text(t) && text_at(s@, i as int, ser_text(t)) ==> (r matches Some(p) && p.0@ == t
                && p.1 == i + ser_text(t).len()),
{
    let n = s.unicode_len();
    if i >= n {
        assert forall|t: Seq<char>|
            plain_text(t) && text_at(s@, i as int, ser_text(t)) implies false by {
            assert(ser_text(t).len() >= 2);
        }
        return None;
    }
    if s.get_char(i) != '"' {
        assert forall|t: Seq<char>|
            plain_text(t) && text_at(s@, i as int, ser_text(t)) implies false by {
            lemma_text_at_index(s@, i as int, ser_text(t), 0);
            assert(ser_text(t)[0] == '"');
        }
        return None;
    }
    let mut j: usize = i + 1;
    loop
        invariant
            i + 1 <= j <= n,
            n == s@.len(),
            i < n,
            s@[i as int] == '"',
            forall|k: int| i + 1 <= k < j ==> plain_char(#[trigger] s@[k]),
        decreases n - j,
    {
        if j >= n {
            assert forall|t: Seq<char>|
                plain_text(t) && text_at(s@, i as int, ser_text(t)) implies false by {
                // The closing quote would stand inside the scanned plain run.
                assert(ser_text(t)[t.len() as int + 1] == '"');
                lemma_text_at_index(s@, i as int, ser_text(t), t.len() as int + 1);
                assert(s@[i + t.len() + 1] == '"');
                assert(!plain_char('"'));
                assert(i + t.len() + 1 < j);
            }
            return None;
        }
        let c = s.get_char(j);
        if c == '"' {
            let sub = s.substring_char(i + 1, j);
            let content = sub.to_owned();
            proof {
                assert(content@ =~= s@.subrange(i + 1, j as int));
                assert(s@.subrange(i as int, j + 1 as int) =~= ser_text(content@));
            }
            assert forall|t: Seq<char>|
                plain_text(t) && text_at(s@, i as int, ser_text(t)) implies (content@ == t && j + 1
                == i + ser_text(t).len()) by {
                // The scan stopped at the first quote after `i`, which the
                // rendering of `t` puts exactly after `t`.
                if j > i + 1 + t.len() {
                    lemma_text_at_index(s@, i as int, ser_text(t), t.len() as int + 1);
                    assert(s@[i + t.len() + 1] == '"');
                    assert(plain_char(s@[i + t.len() + 1]));
                } else if j < i + 1 + t.len() {
                    lemma_text_at_index(s@, i as int, ser_text(t), j - i);
                    assert(ser_text(t)[j - i] == t[j - i - 1]);
                    assert(s@[j as int] == t[j - i - 1]);
                    assert(plain_char(t[j - i - 1]));
                }
                assert(j == i + 1 + t.len());
                assert(content@ =~= t) by {
                    assert forall|m: int| 0 <= m < t.len() implies s@.subrange(i + 1, j as int)[m]
                        == t[m] by {
                        lemma_text_at_index(s@, i as int, ser_text(t), m + 1);
                        assert(ser_text(t)[m + 1] == t[m]);
                    }
                }
            }
            return Some((content, j + 1));
        }
        if c == '\\' || (c as u32) < 0x20 {
            assert forall|t: Seq<char>|
                plain_text(t) && text_at(s@, i as int, ser_text(t)) implies false by {
                if j > i + 1 + t.len() {
                    lemma_text_at_index(s@, i as int, ser_text(t), t.len() as int + 1);
                    assert(plain_char(s@[i + t.len() + 1]));
                } else if j < i + 1 + t.len() {
                    lemma_text_at_index(s@, i as int, ser_text(t), j - i);
                    assert(s@[j as int] == t[j - i - 1]);
                    assert(plain_char(t[j - i - 1]));
                } else {
                    lemma_text_at_index(s@, i as int, ser_text(t), t.len() as int + 1);
                    assert(s@[j as int] == '"');
                }
            }
            return None;
        }
        j += 1;
    }
}

/// Parses a canonical decimal number at position `i`.
fn parse_u64(s: &str, i: usize) -> (r: Option<(u64, usize)>)
    requires
        i <= s@.len(),
    ensures
        r matches Some(p) ==> {
            &&& i < p.1 <= s@.len()
            &&& p.1 == i + ser_nat(p.0 as nat).len()
            &&& s@.subrange(i as int, p.1 as int) == ser_nat(p.0 as nat)
        },
        forall|v: u64|
            text_at(s@, i as int, ser_nat(v as nat)) && num_boundary(
                s@,
                i + ser_nat(v as nat).len(),
            ) ==> (r matches Some(p) && p.0 == v && p.1 == i + ser_nat(v as nat).len()),
{
    let n = s.unicode_len();
    if i >= n {
        assert forall|v: u64|
            text_at(s@, i as int, ser_nat(v as nat)) && num_boundary(
                s@,
                i + ser_nat(v as nat).len(),
            ) implies false by {
            lemma_ser_nat_shape(v as nat);
        }
        return None;
    }
    let c0 = s.get_char(i);
    let d0 = digit_of(c0);
    if d0 >= 10 {
        assert forall|v: u64|
            text_at(s@, i as int, ser_nat(v as nat)) && num_boundary(
                s@,
                i + ser_nat(v as nat).len(),
            ) implies false by {
            lemma_ser_nat_shape(v as nat);
            lemma_text_at_index(s@, i as int, ser_nat(v as nat), 0);
        }
        return None;
    }
    if c0 == '0' {
        proof {
            assert(s@.subrange(i as int, i + 1 as int) =~= ser_nat(0));
        }
        assert forall|v: u64|
            text_at(s@, i as int, ser_nat(v as nat)) && num_boundary(
                s@,
                i + ser_nat(v as nat).len(),
            ) implies v == 0 by {
            lemma_ser_nat_shape(v as nat);
            lemma_text_at_index(s@, i as int, ser_nat(v as nat), 0);
        }
        return Some((0, i + 1));
    }
    let mut acc: u64 = d0;
    let mut j: usize = i + 1;
    proof {
        assert(s@.subrange(i as int, j as int) =~= seq![c0]);
        assert(seq![c0].drop_last() =~= Seq::<char>::empty());
        assert(text_nat(Seq::<char>::empty()) == 0);
        assert(seq![c0].last() == c0);
        assert(text_nat(seq![c0]) == text_nat(seq![c0].drop_last()) * 10 + digit_val(
            seq![c0].last(),
        ));
    }
    while j < n
        invariant
            i < j <= n,
            n == s@.len(),
            all_digits(s@.subrange(i as int, j as int)),
            s@[i as int] != '0',
            is_digit_char(s@[i as int]),
            acc == text_nat(s@.subrange(i as int, j as int)),
        decreases n - j,
    {
        let c = s.get_char(j);
        let d = digit_of(c);
        if d >= 10 {
            proof {
                lemma_u64_done(s@, i as int, j as int, acc);
            }
            return Some((acc, j));
        }
        let m10 = match acc.checked_mul(10) {
            Some(m) => m,
            None => {
                proof {
                    lemma_u64_overflow(s@, i as int, j as int, acc);
                }
                return None;
            },
        };
        let m2 = match m10.checked_add(d) {
            Some(m) => m,
            None => {
                proof {
                    lemma_u64_overflow(s@, i as int, j as int, acc);
                }
                return None;
            },
        };
        proof {
            assert(s@.subrange(i as int, j + 1 as int).drop_last() =~= s@.subrange(
                i as int,
                j as int,
            ));
            assert(s@.subrange(i as int, j + 1 as int).last() == s@[j as int]);
        }
        acc = m2;
        j += 1;
    }
    proof {
        lemma_u64_done(s@, i as int, j as int, acc);
    }
    Some((acc, j))
}

/// A finished digit scan is sound and pins down every number whose
/// canonical rendering stands at `i` with a boundary after it.
proof fn lemma_u64_done(s: Seq<char>, i: int, j: int, acc: u64)
    requires
        0 <= i < j <= s.len(),
        all_digits(s.subrange(i, j)),
        s[i] != '0',
        acc == text_nat(s.subrange(i, j)),
        j == s.len() || !is_digit_char(s[j]),
    ensures
        s.subrange(i, j) == ser_nat(acc as nat),
        j == i + ser_nat(acc as nat).len(),
        forall|v: u64|
            text_at(s, i, ser_nat(v as nat)) && num_boundary(s, i + ser_nat(v as nat).len())
                ==> v == acc,
{
    let d = s.subrange(i, j);
    assert(d[0] == s[i]);
    lemma_canonical_digits(d);
    assert forall|v: u64|
        text_at(s, i, ser_nat(v as nat)) && num_boundary(s, i + ser_nat(v as nat).len())
        implies v == acc by {
        lemma_ser_nat_shape(v as nat);
        let ll = ser_nat(v as nat).len() as int;
        if i + ll > j {
            // Then `j` lies inside the rendering of `v`, yet the scan
            // stopped there on a non-digit.
            lemma_text_at_index(s, i, ser_nat(v as nat), j - i);
            assert(is_digit_char(s[j]));
        }
        if i + ll < j {
            // Then the boundary after `v` falls inside the scanned digits.
            assert(is_digit_char(s.subrange(i, j)[ll]));
            assert(s[i + ll] == s.subrange(i, j)[ll]);
        }
        assert(i + ll == j);
        assert(ser_nat(v as nat) =~= d) by {
            assert forall|m: int| 0 <= m < ll implies ser_nat(v as nat)[m] == d[m] by {
                lemma_text_at_index(s, i, ser_nat(v as nat), m);
                assert(d[m] == s[i + m]);
            }
        }
        assert(text_nat(ser_nat(v as nat)) == v as nat);
    }
}

/// When the accumulator would overflow, no number's canonical rendering can
/// stand at `i` with a boundary after it.
proof fn lemma_u64_overflow(s: Seq<char>, i: int, j: int, acc: u64)
    requires
        0 <= i < j < s.len(),
        all_digits(s.subrange(i, j)),
        s[i] != '0',
        acc == text_nat(s.subrange(i, j)),
        is_digit_char(s[j]),
        acc * 10 + digit_val(s[j]) > u64::MAX,
    ensures
        forall|v: u64|
            !(text_at(s, i, ser_nat(v as nat)) && num_boundary(s, i + ser_nat(v as nat).len())),
{
    assert forall|v: u64|
        !(text_at(s, i, ser_nat(v as nat)) && num_boundary(s, i + ser_nat(v as nat).len())) by {
        if text_at(s, i, ser_nat(v as nat)) && num_boundary(s, i + ser_nat(v as nat).len()) {
            lemma_ser_nat_shape(v as nat);
            let ll = ser_nat(v as nat).len() as int;
            // The scanned digits together with the digit at `j` are a
            // prefix of the rendering of `v`, so their value is at most `v`.
            if i + ll <= j {
                assert(is_digit_char(s.subrange(i, j)[ll - 1]) || ll == j - i);
                if i + ll < j {
                    assert(s[i + ll] == s.subrange(i, j)[ll]);
                    assert(is_digit_char(s[i + ll]));
                } else {
                    assert(is_digit_char(s[j]));
                }
            }
            assert(i + ll > j + 1 || i + ll == j + 1) by {
                if i + ll <= j {
                }
            }
            assert(i + ll >= j + 1);
            let pre = ser_nat(v as nat).take(j + 1 - i);
            assert(pre =~= s.subrange(i, j + 1)) by {
                assert forall|m: int| 0 <= m < j + 1 - i implies pre[m] == s.subrange(i, j + 1)[m]
                    by {
                    lemma_text_at_index(s, i, ser_nat(v as nat), m);
                }
            }
            lemma_text_nat_take_le(ser_nat(v as nat), j + 1 - i);
            assert(s.subrange(i, j + 1).drop_last() =~= s.subrange(i, j));
            assert(s.subrange(i, j + 1).last() == s[j]);
            assert(text_nat(s.subrange(i, j + 1)) == acc * 10 + digit_val(s[j]));
            assert(text_nat(ser_nat(v as nat)) == v as nat);
        }
    }
}

/// Parses a canonical truth value at position `i`.
fn parse_bool(s: &str, i: usize) -> (r: Option<(bool, usize)>)
    requires
        i <= s@.len(),
    ensures
        r matches Some(p) ==> {
            &&& i < p.1 <= s@.len()
            &&& p.1 == i + ser_bool(p.0).len()
            &&& s@.subrange(i as int, p.1 as int) == ser_bool(p.0)
        },
        forall|b: bool|
            text_at(s@, i as int, ser_bool(b)) ==> (r matches Some(p) && p.0 == b && p.1 == i
                + ser_bool(b).len()),
{
    proof {
        reveal_strlit("true");
        reveal_strlit("false");
    }
    if let Some(j) = expect_lit(s, i, "true") {
        assert forall|b: bool| text_at(s@, i as int, ser_bool(b)) implies b == true by {
            if !b {
                lemma_text_at_index(s@, i as int, "true"@, 0);
                lemma_text_at_index(s@, i as int, "false"@, 0);
            }
        }
        return Some((true, j));
    }
    if let Some(j) = expect_lit(s, i, "false") {
        assert forall|b: bool| text_at(s@, i as int, ser_bool(b)) implies b == false by {}
        return Some((false, j));
    }
    None
}

/// Whether `a` comes strictly before `b` from position `k` on.
fn text_less_from(a: &str, b: &str, k: usize) -> (r: bool)
    requires
        k <= a@.len(),
        k <= b@.len(),
    ensures
        r == text_lt(a@.skip(k as int), b@.skip(k as int)),
    decreases a@.len() - k,
{
    if k == b.unicode_len() {
        assert(b@.skip(k as int).len() == 0);
        false
    } else if k == a.unicode_len() {
        assert(a@.skip(k as int).len() == 0);
        assert(b@.skip(k as int).len() > 0);
        true
    } else {
        let ca = a.get_char(k);
        let cb = b.get_char(k);
        proof {
            assert(a@.skip(k as int)[0] == a@[k as int]);
            assert(b@.skip(k as int)[0] == b@[k as int]);
        }
        if (ca as u32) < (cb as u32) {
            true
        } else if ca == cb {
            let r = text_less_from(a, b, k + 1);
            proof {
                assert(a@.skip(k as int).skip(1) =~= a@.skip(k + 1));
                assert(b@.skip(k as int).skip(1) =~= b@.skip(k + 1));
            }
            r
        } else {
            false
        }
    }
}

/// Whether `a` comes strictly before `b` in the canonical order on names.
pub fn text_less(a: &str, b: &str) -> (r: bool)
    ensures
        r == text_lt(a@, b@),
{
    let r = text_less_from(a, b, 0);
    proof {
        assert(a@.skip(0) =~= a@);
        assert(b@.skip(0) =~= b@);
    }
    r
}

/// The canonical pieces of a signature rendering, each at its offset.
proof fn lemma_sig_pieces(s: Seq<char>, i: int, v: SignatureView)
    requires
        text_at(s, i, ser_signature(v)),
    ensures
        ({
            let o1 = i + "{\"cert\":"@.len();
            let o2 = o1 + ser_text(v.cert).len();
            let o3 = o2 + ",\"keyid\":"@.len();
            let o4 = o3 + ser_text(v.keyid).len();
            let o5 = o4 + ",\"sig\":"@.len();
            let o6 = o5 + ser_text(v.sig).len();
            &&& text_at(s, i, "{\"cert\":"@)
            &&& text_at(s, o1, ser_text(v.cert))
            &&& text_at(s, o2, ",\"keyid\":"@)
            &&& text_at(s, o3, ser_text(v.keyid))
            &&& text_at(s, o4, ",\"sig\":"@)
            &&& text_at(s, o5, ser_text(v.sig))
            &&& text_at(s, o6, "}"@)
        }),
{
    let l1 = "{\"cert\":"@;
    let t1 = ser_text(v.cert);
    let l2 = ",\"keyid\":"@;
    let t2 = ser_text(v.keyid);
    let l3 = ",\"sig\":"@;
    let t3 = ser_text(v.sig);
    let l4 = "}"@;
    lemma_text_at_split(s, i, l1 + t1 + l2 + t2 + l3 + t3, l4);
    lemma_text_at_split(s, i, l1 + t1 + l2 + t2 + l3, t3);
    lemma_text_at_split(s, i, l1 + t1 + l2 + t2, l3);
    lemma_text_at_split(s, i, l1 + t1 + l2, t2);
    lemma_text_at_split(s, i, l1 + t1, l2);
    lemma_text_at_split(s, i, l1, t1);
}

/// Parses one canonical signature entry at position `i`.
fn parse_signature(s: &str, i: usize) -> (r: Option<(Signature, usize)>)
    requires
        i <= s@.len(),
    ensures
        r matches Some(p) ==> {
            &&& i < p.1 <= s@.len()
            &&& p.0@.wf()
            &&& p.1 == i + ser_signature(p.0@).len()
            &&& s@.subrange(i as int, p.1 as int) == ser_signature(p.0@)
        },
        forall|v: SignatureView|
            v.wf() && text_at(s@, i as int, ser_signature(v)) ==> (r matches Some(p) && p.0@ == v
                && p.1 == i + ser_signature(v).len()),
{
    let j1 = match expect_lit(s, i, "{\"cert\":") {
        Some(j) => j,
        None => {
            assert forall|v: SignatureView|
                v.wf() && text_at(s@, i as int, ser_signature(v)) implies false by {
                lemma_sig_pieces(s@, i as int, v);
            }
            return None;
        },
    };
    let (cert, j2) = match parse_text(s, j1) {
        Some(p) => p,
        None => {
            assert forall|v: SignatureView|
                v.wf() && text_at(s@, i as int, ser_signature(v)) implies false by {
                lemma_sig_pieces(s@, i as int, v);
                assert(text_at(s@, j1 as int, ser_text(v.cert)));
            }
            return None;
        },
    };
    let j3 = match expect_lit(s, j2, ",\"keyid\":") {
        Some(j) => j,
        None => {
            assert forall|v: SignatureView|
                v.wf() && text_at(s@, i as int, ser_signature(v)) implies false by {
                lemma_sig_pieces(s@, i as int, v);
                assert(text_at(s@, j1 as int, ser_text(v.cert)));
                assert(j2 == j1 + ser_text(v.cert).len());
            }
            return None;
        },
    };
    let (keyid, j4) = match parse_text(s, j3) {
        Some(p) => p,
        None => {
            assert forall|v: SignatureView|
                v.wf() && text_at(s@, i as int, ser_signature(v)) implies false by {
                lemma_sig_pieces(s@, i as int, v);
                assert(text_at(s@, j1 as int, ser_text(v.cert)));
                assert(j2 == j1 + ser_text(v.cert).len());
                assert(text_at(s@, j3 as int, ser_text(v.keyid)));
            }
            return None;
        },
    };
    let j5 = match expect_lit(s, j4, ",\"sig\":") {
        Some(j) => j,
        None => {
            assert forall|v: SignatureView|
                v.wf() && text_at(s@, i as int, ser_signature(v)) implies false by {
                lemma_sig_pieces(s@, i as int, v);
                assert(text_at(s@, j1 as int, ser_text(v.cert)));
                assert(j2 == j1 + ser_text(v.cert).len());
                assert(text_at(s@, j3 as int, ser_text(v.keyid)));
                assert(j4 == j3 + ser_text(v.keyid).len());
            }
            return None;
        },
    };
    let (sigval, j6) = match parse_text(s, j5) {
        Some(p) => p,
        None => {
            assert forall|v: SignatureView|
                v.wf() && text_at(s@, i as int, ser_signature(v)) implies false by {
                lemma_sig_pieces(s@, i as int, v);
                assert(text_at(s@, j1 as int, ser_text(v.cert)));
                assert(j2 == j1 + ser_text(v.cert).len());
                assert(text_at(s@, j3 as int, ser_text(v.keyid)));
                assert(j4 == j3 + ser_text(v.keyid).len());
                assert(text_at(s@, j5 as int, ser_text(v.sig)));
            }
            return None;
        },
    };
    let j7 = match expect_lit(s, j6, "}") {
        Some(j) => j,
        None => {
            assert forall|v: SignatureView|
                v.wf() && text_at(s@, i as int, ser_signature(v)) implies false by {
                lemma_sig_pieces(s@, i as int, v);
                assert(text_at(s@, j1 as int, ser_text(v.cert)));
                assert(j2 == j1 + ser_text(v.cert).len());
                assert(text_at(s@, j3 as int, ser_text(v.keyid)));
                assert(j4 == j3 + ser_text(v.keyid).len());
                assert(text_at(s@, j5 as int, ser_text(v.sig)));
                assert(j6 == j5 + ser_text(v.sig).len());
            }
            return None;
        },
    };
    let result = Signature { keyid, sig: sigval, cert };
    proof {
        lemma_join(s@, i as int, j1 as int, j2 as int);
        lemma_join(s@, i as int, j2 as int, j3 as int);
        lemma_join(s@, i as int, j3 as int, j4 as int);
        lemma_join(s@, i as int, j4 as int, j5 as int);
        lemma_join(s@, i as int, j5 as int, j6 as int);
        lemma_join(s@, i as int, j6 as int, j7 as int);
        assert(s@.subrange(i as int, j7 as int) == ser_signature(result@));
    }
    assert forall|v: SignatureView|
        v.wf() && text_at(s@, i as int, ser_signature(v)) implies (result@ == v && j7 == i
        + ser_signature(v).len()) by {
        lemma_sig_pieces(s@, i as int, v);
        assert(text_at(s@, j1 as int, ser_text(v.cert)));
        assert(j2 == j1 + ser_text(v.cert).len());
        assert(text_at(s@, j3 as int, ser_text(v.keyid)));
        assert(j4 == j3 + ser_text(v.keyid).len());
        assert(text_at(s@, j5 as int, ser_text(v.sig)));
        assert(j6 == j5 + ser_text(v.sig).len());
        assert(result@ =~= v);
    }
    Some((result, j7))
}

/// The views of a list of signature entries.
pub open spec fn sig_views(l: Seq<Signature>) -> Seq<SignatureView> {
    l.map_values(|x: Signature| x@)
}

/// The views of a list of names.
pub open spec fn name_views(l: Seq<String>) -> Seq<Seq<char>> {
    l.map_values(|x: String| x@)
}

/// Every signature entry is plain.
pub open spec fn sigs_plain(l: Seq<SignatureView>) -> bool {
    forall|k: int| 0 <= k < l.len() ==> (#[trigger] l[k]).wf()
}

/// Every name is plain.
pub open spec fn names_plain(l: Seq<Seq<char>>) -> bool {
    forall|k: int| 0 <= k < l.len() ==> plain_text(#[trigger] l[k])
}

/// Parses the signature entries after the first one, up to and including
/// the closing bracket.
#[verifier::rlimit(100)]
fn parse_sigs_tail(s: &str, i: usize) -> (r: Option<(Vec<Signature>, usize)>)
    requires
        i <= s@.len(),
    ensures
        r matches Some(p) ==> {
            &&& i < p.1 <= s@.len()
            &&& sigs_plain(sig_views(p.0@))
            &&& p.1 == i + ser_sigs_tail(sig_views(p.0@)).len() + 1
            &&& s@.subrange(i as int, p.1 as int) == ser_sigs_tail(sig_views(p.0@)) + "]"@
        },
        forall|lv: Seq<SignatureView>|
            sigs_plain(lv) && text_at(s@, i as int, ser_sigs_tail(lv) + "]"@) ==> (r matches Some(
                p,
            ) && sig_views(p.0@) == lv && p.1 == i + ser_sigs_tail(lv).len() + 1),
    decreases s@.len() - i,
{
    proof {
        reveal_strlit(",");
        reveal_strlit("]");
    }
    if let Some(j) = expect_lit(s, i, "]") {
        let out: Vec<Signature> = Vec::new();
        proof {
            assert(sig_views(out@) =~= Seq::<SignatureView>::empty());
            assert(ser_sigs_tail(sig_views(out@)) + "]"@ =~= "]"@);
        }
        assert forall|lv: Seq<SignatureView>|
            sigs_plain(lv) && text_at(s@, i as int, ser_sigs_tail(lv) + "]"@) implies (sig_views(
            out@,
        ) == lv && j == i + ser_sigs_tail(lv).len() + 1) by {
            if lv.len() != 0 {
                lemma_text_at_index(s@, i as int, ser_sigs_tail(lv) + "]"@, 0);
                assert((ser_sigs_tail(lv) + "]"@)[0] == ',');
                lemma_text_at_index(s@, i as int, "]"@, 0);
            }
            assert(lv =~= sig_views(out@));
        }
        return Some((out, j));
    }
    let j1 = match expect_lit(s, i, ",") {
        Some(j) => j,
        None => {
            assert forall|lv: Seq<SignatureView>|
                sigs_plain(lv) && text_at(s@, i as int, ser_sigs_tail(lv) + "]"@) implies false by {
                if lv.len() == 0 {
                    assert(ser_sigs_tail(lv) + "]"@ =~= "]"@);
                } else {
                    assert(ser_sigs_tail(lv) + "]"@ =~= ","@ + (ser_signature(lv[0]) + (
                    ser_sigs_tail(lv.skip(1)) + "]"@)));
                    lemma_text_at_split(
                        s@,
                        i as int,
                        ","@,
                        ser_signature(lv[0]) + (ser_sigs_tail(lv.skip(1)) + "]"@),
                    );
                }
            }
            return None;
        },
    };
    let (sig0, j2) = match parse_signature(s, j1) {
        Some(p) => p,
        None => {
            assert forall|lv: Seq<SignatureView>|
                sigs_plain(lv) && text_at(s@, i as int, ser_sigs_tail(lv) + "]"@) implies false by {
                if lv.len() == 0 {
                    assert(ser_sigs_tail(lv) + "]"@ =~= "]"@);
                    lemma_text_at_index(s@, i as int, "]"@, 0);
                    lemma_text_at_index(s@, i as int, ","@, 0);
                } else {
                    assert(ser_sigs_tail(lv) + "]"@ =~= ","@ + (ser_signature(lv[0]) + (
                    ser_sigs_tail(lv.skip(1)) + "]"@)));
                    lemma_text_at_split(
                        s@,
                        i as int,
                        ","@,
                        ser_signature(lv[0]) + (ser_sigs_tail(lv.skip(1)) + "]"@),
                    );
                    lemma_text_at_split(
                        s@,
                        i + ","@.len(),
                        ser_signature(lv[0]),
                        ser_sigs_tail(lv.skip(1)) + "]"@,
                    );
                    assert(text_at(s@, j1 as int, ser_signature(lv[0])));
                    assert(lv[0].wf());
                }
            }
            return None;
        },
    };
    let tail = match parse_sigs_tail(s, j2) {
        Some(p) => p,
        None => {
            assert forall|lv: Seq<SignatureView>|
                sigs_plain(lv) && text_at(s@, i as int, ser_sigs_tail(lv) + "]"@) implies false by {
                if lv.len() == 0 {
                    assert(ser_sigs_tail(lv) + "]"@ =~= "]"@);
                    lemma_text_at_index(s@, i as int, "]"@, 0);
                    lemma_text_at_index(s@, i as int, ","@, 0);
                } else {
                    assert(ser_sigs_tail(lv) + "]"@ =~= ","@ + (ser_signature(lv[0]) + (
                    ser_sigs_tail(lv.skip(1)) + "]"@)));
                    lemma_text_at_split(
                        s@,
                        i as int,
                        ","@,
                        ser_signature(lv[0]) + (ser_sigs_tail(lv.skip(1)) + "]"@),
                    );
                    lemma_text_at_split(
                        s@,
                        i + ","@.len(),
                        ser_signature(lv[0]),
                        ser_sigs_tail(lv.skip(1)) + "]"@,
                    );
                    assert(text_at(s@, j1 as int, ser_signature(lv[0])));
                    assert(lv[0].wf());
                    assert(j2 == j1 + ser_signature(lv[0]).len());
                    assert(sigs_plain(lv.skip(1))) by {
                        assert(forall|k: int|
                            0 <= k < lv.skip(1).len() ==> #[trigger] lv.skip(1)[k] == lv[k + 1]);
                    }
                    assert(text_at(s@, j2 as int, ser_sigs_tail(lv.skip(1)) + "]"@));
                }
            }
            return None;
        },
    };
    let (mut rest, j3) = tail;
    let ghost pre = rest@;
    rest.insert(0, sig0);
    proof {
        assert(rest@ =~= seq![sig0] + pre);
        assert(sig_views(rest@)[0] == sig0@);
        assert(sig_views(rest@).skip(1) =~= sig_views(pre));
        assert(ser_sigs_tail(sig_views(rest@)) == ","@ + ser_signature(sig0@) + ser_sigs_tail(
            sig_views(pre),
        ));
        lemma_join(s@, i as int, j1 as int, j2 as int);
        lemma_join(s@, i as int, j2 as int, j3 as int);
        assert(s@.subrange(i as int, j3 as int) =~= ser_sigs_tail(sig_views(rest@)) + "]"@);
        assert forall|k: int|
            0 <= k < sig_views(rest@).len() implies (#[trigger] sig_views(rest@)[k]).wf() by {
            if k > 0 {
                assert(sig_views(rest@)[k] == sig_views(rest@).skip(1)[k - 1]);
            }
        }
        assert(sigs_plain(sig_views(rest@)));
    }
    assert forall|lv: Seq<SignatureView>|
        sigs_plain(lv) && text_at(s@, i as int, ser_sigs_tail(lv) + "]"@) implies (sig_views(rest@)
        == lv && j3 == i + ser_sigs_tail(lv).len() + 1) by {
        if lv.len() == 0 {
            assert(ser_sigs_tail(lv) + "]"@ =~= "]"@);
            lemma_text_at_index(s@, i as int, "]"@, 0);
            lemma_text_at_index(s@, i as int, ","@, 0);
        } else {
            assert(ser_sigs_tail(lv) + "]"@ =~= ","@ + (ser_signature(lv[0]) + (ser_sigs_tail(
                lv.skip(1),
            ) + "]"@)));
            lemma_text_at_split(
                s@,
                i as int,
                ","@,
                ser_signature(lv[0]) + (ser_sigs_tail(lv.skip(1)) + "]"@),
            );
            lemma_text_at_split(
                s@,
                i + ","@.len(),
                ser_signature(lv[0]),
                ser_sigs_tail(lv.skip(1)) + "]"@,
            );
            assert(text_at(s@, j1 as int, ser_signature(lv[0])));
            assert(lv[0].wf());
            assert(sig0@ == lv[0]);
            assert(j2 == j1 + ser_signature(lv[0]).len());
            assert(sigs_plain(lv.skip(1))) by {
                assert(forall|k: int|
                    0 <= k < lv.skip(1).len() ==> #[trigger] lv.skip(1)[k] == lv[k + 1]);
            }
            assert(text_at(s@, j2 as int, ser_sigs_tail(lv.skip(1)) + "]"@));
            assert(sig_views(pre) == lv.skip(1));
            assert(sig_views(rest@).len() == lv.len());
            assert forall|k: int| 0 <= k < lv.len() implies sig_views(rest@)[k] == lv[k] by {
                if k > 0 {
                    assert(sig_views(rest@)[k] == sig_views(rest@).skip(1)[k - 1]);
                    assert(lv[k] == lv.skip(1)[k - 1]);
                }
            }
            assert(sig_views(rest@) =~= lv);
        }
    }
    Some((rest, j3))
}

/// Parses a whole signature list at position `i`, up to and including the
/// closing bracket.
#[verifier::rlimit(100)]
fn parse_signatures_arr(s: &str, i: usize) -> (r: Option<(Vec<Signature>, usize)>)
    requires
        i <= s@.len(),
    ensures
        r matches Some(p) ==> {
            &&& i < p.1 <= s@.len()
            &&& sigs_plain(sig_views(p.0@))
            &&& p.1 == i + ser_signatures(sig_views(p.0@)).len() + 1
            &&& s@.subrange(i as int, p.1 as int) == ser_signatures(sig_views(p.0@)) + "]"@
        },
        forall|lv: Seq<SignatureView>|
            sigs_plain(lv) && text_at(s@, i as int, ser_signatures(lv) + "]"@) ==> (r matches Some(
                p,
            ) && sig_views(p.0@) == lv && p.1 == i + ser_signatures(lv).len() + 1),
{
    proof {
        reveal_strlit("]");
        reveal_strlit("{\"cert\":");
    }
    if let Some(j) = expect_lit(s, i, "]") {
        let out: Vec<Signature> = Vec::new();
        proof {
            assert(sig_views(out@) =~= Seq::<SignatureView>::empty());
            assert(ser_signatures(sig_views(out@)) + "]"@ =~= "]"@);
        }
        assert forall|lv: Seq<SignatureView>|
            sigs_plain(lv) && text_at(s@, i as int, ser_signatures(lv) + "]"@) implies (sig_views(
            out@,
        ) == lv && j == i + ser_signatures(lv).len() + 1) by {
            if lv.len() != 0 {
                lemma_text_at_index(s@, i as int, ser_signatures(lv) + "]"@, 0);
                assert((ser_signatures(lv) + "]"@)[0] == '{');
                lemma_text_at_index(s@, i as int, "]"@, 0);
            }
            assert(lv =~= sig_views(out@));
        }
        return Some((out, j));
    }
    let (sig0, j1) = match parse_signature(s, i) {
        Some(p) => p,
        None => {
            assert forall|lv: Seq<SignatureView>|
                sigs_plain(lv) && text_at(s@, i as int, ser_signatures(lv) + "]"@) implies false by {
                if lv.len() == 0 {
                    assert(ser_signatures(lv) + "]"@ =~= "]"@);
                } else {
                    assert(ser_signatures(lv) + "]"@ =~= ser_signature(lv[0]) + (ser_sigs_tail(
                        lv.skip(1),
                    ) + "]"@));
                    lemma_text_at_split(
                        s@,
                        i as int,
                        ser_signature(lv[0]),
                        ser_sigs_tail(lv.skip(1)) + "]"@,
                    );
                    assert(lv[0].wf());
                }
            }
            return None;
        },
    };
    let tail = match parse_sigs_tail(s, j1) {
        Some(p) => p,
        None => {
            assert forall|lv: Seq<SignatureView>|
                sigs_plain(lv) && text_at(s@, i as int, ser_signatures(lv) + "]"@) implies false by {
                if lv.len() == 0 {
                    assert(ser_signatures(lv) + "]"@ =~= "]"@);
                    lemma_text_at_index(s@, i as int, "]"@, 0);
                    assert(s@.subrange(i as int, j1 as int) == ser_signature(sig0@));
                    lemma_text_at_index(s@, i as int, ser_signature(sig0@), 0);
                    assert(ser_signature(sig0@)[0] == '{');
                } else {
                    assert(ser_signatures(lv) + "]"@ =~= ser_signature(lv[0]) + (ser_sigs_tail(
                        lv.skip(1),
                    ) + "]"@));
                    lemma_text_at_split(
                        s@,
                        i as int,
                        ser_signature(lv[0]),
                        ser_sigs_tail(lv.skip(1)) + "]"@,
                    );
                    assert(lv[0].wf());
                    assert(j1 == i + ser_signature(lv[0]).len());
                    assert(sigs_plain(lv.skip(1))) by {
                        assert(forall|k: int|
                            0 <= k < lv.skip(1).len() ==> #[trigger] lv.skip(1)[k] == lv[k + 1]);
                    }
                    assert(text_at(s@, j1 as int, ser_sigs_tail(lv.skip(1)) + "]"@));
                }
            }
            return None;
        },
    };
    let (mut rest, j2) = tail;
    let ghost pre = rest@;
    rest.insert(0, sig0);
    proof {
        assert(rest@ =~= seq![sig0] + pre);
        assert(sig_views(rest@)[0] == sig0@);
        assert(sig_views(rest@).skip(1) =~= sig_views(pre));
        assert(ser_signatures(sig_views(rest@)) == ser_signature(sig0@) + ser_sigs_tail(
            sig_views(pre),
        ));
        lemma_join(s@, i as int, j1 as int, j2 as int);
        assert(s@.subrange(i as int, j2 as int) =~= ser_signatures(sig_views(rest@)) + "]"@);
        assert forall|k: int|
            0 <= k < sig_views(rest@).len() implies (#[trigger] sig_views(rest@)[k]).wf() by {
            if k > 0 {
                assert(sig_views(rest@)[k] == sig_views(rest@).skip(1)[k - 1]);
            }
        }
        assert(sigs_plain(sig_views(rest@)));
    }
    assert forall|lv: Seq<SignatureView>|
        sigs_plain(lv) && text_at(s@, i as int, ser_signatures(lv) + "]"@) implies (sig_views(rest@)
        == lv && j2 == i + ser_signatures(lv).len() + 1) by {
        if lv.len() == 0 {
            assert(ser_signatures(lv) + "]"@ =~= "]"@);
            lemma_text_at_index(s@, i as int, "]"@, 0);
            assert(s@.subrange(i as int, j1 as int) == ser_signature(sig0@));
            lemma_text_at_index(s@, i as int, ser_signature(sig0@), 0);
            assert(ser_signature(sig0@)[0] == '{');
        } else {
            assert(ser_signatures(lv) + "]"@ =~= ser_signature(lv[0]) + (ser_sigs_tail(lv.skip(1))
                + "]"@));
            lemma_text_at_split(
                s@,
                i as int,
                ser_signature(lv[0]),
                ser_sigs_tail(lv.skip(1)) + "]"@,
            );
            assert(lv[0].wf());
            assert(sig0@ == lv[0]);
            assert(j1 == i + ser_signature(lv[0]).len());
            assert(sigs_plain(lv.skip(1))) by {
                assert(forall|k: int|
                    0 <= k < lv.skip(1).len() ==> #[trigger] lv.skip(1)[k] == lv[k + 1]);
            }
            assert(text_at(s@, j1 as int, ser_sigs_tail(lv.skip(1)) + "]"@));
            assert(sig_views(pre) == lv.skip(1));
            assert(sig_views(rest@).len() == lv.len());
            assert forall|k: int| 0 <= k < lv.len() implies sig_views(rest@)[k] == lv[k] by {
                if k > 0 {
                    assert(sig_views(rest@)[k] == sig_views(rest@).skip(1)[k - 1]);
                    assert(lv[k] == lv.skip(1)[k - 1]);
                }
            }
            assert(sig_views(rest@) =~= lv);
        }
    }
    Some((rest, j2))
}

/// Parses the names after the first one, up to and including
/// the closing bracket.
#[verifier::rlimit(100)]
fn parse_names_tail(s: &str, i: usize) -> (r: Option<(Vec<String>, usize)>)
    requires
        i <= s@.len(),
    ensures
        r matches Some(p) ==> {
            &&& i < p.1 <= s@.len()
            &&& names_plain(name_views(p.0@))
            &&& p.1 == i + ser_names_tail(name_views(p.0@)).len() + 1
            &&& s@.subrange(i as int, p.1 as int) == ser_names_tail(name_views(p.0@)) + "]"@
        },
        forall|lv: Seq<Seq<char>>|
            names_plain(lv) && text_at(s@, i as int, ser_names_tail(lv) + "]"@) ==> (r matches Some(
                p,
            ) && name_views(p.0@) == lv && p.1 == i + ser_names_tail(lv).len() + 1),
    decreases s@.len() - i,
{
    proof {
        reveal_strlit(",");
        reveal_strlit("]");
    }
    if let Some(j) = expect_lit(s, i, "]") {
        let out: Vec<String> = Vec::new();
        proof {
            assert(name_views(out@) =~= Seq::<Seq<char>>::empty());
            assert(ser_names_tail(name_views(out@)) + "]"@ =~= "]"@);
        }
        assert forall|lv: Seq<Seq<char>>|
            names_plain(lv) && text_at(s@, i as int, ser_names_tail(lv) + "]"@) implies (name_views(
            out@,
        ) == lv && j == i + ser_names_tail(lv).len() + 1) by {
            if lv.len() != 0 {
                lemma_text_at_index(s@, i as int, ser_names_tail(lv) + "]"@, 0);
                assert((ser_names_tail(lv) + "]"@)[0] == ',');
                lemma_text_at_index(s@, i as int, "]"@, 0);
            }
            assert(lv =~= name_views(out@));
        }
        return Some((out, j));
    }
    let j1 = match expect_lit(s, i, ",") {
        Some(j) => j,
        None => {
            assert forall|lv: Seq<Seq<char>>|
                names_plain(lv) && text_at(s@, i as int, ser_names_tail(lv) + "]"@) implies false by {
                if lv.len() == 0 {
                    assert(ser_names_tail(lv) + "]"@ =~= "]"@);
                } else {
                    assert(ser_names_tail(lv) + "]"@ =~= ","@ + (ser_text(lv[0]) + (
                    ser_names_tail(lv.skip(1)) + "]"@)));
                    lemma_text_at_split(
                        s@,
                        i as int,
                        ","@,
                        ser_text(lv[0]) + (ser_names_tail(lv.skip(1)) + "]"@),
                    );
                }
            }
            return None;
        },
    };
    let (elem0, j2) = match parse_text(s, j1) {
        Some(p) => p,
        None => {
            assert forall|lv: Seq<Seq<char>>|
                names_plain(lv) && text_at(s@, i as int, ser_names_tail(lv) + "]"@) implies false by {
                if lv.len() == 0 {
                    assert(ser_names_tail(lv) + "]"@ =~= "]"@);
                    lemma_text_at_index(s@, i as int, "]"@, 0);
                    lemma_text_at_index(s@, i as int, ","@, 0);
                } else {
                    assert(ser_names_tail(lv) + "]"@ =~= ","@ + (ser_text(lv[0]) + (
                    ser_names_tail(lv.skip(1)) + "]"@)));
                    lemma_text_at_split(
                        s@,
                        i as int,
                        ","@,
                        ser_text(lv[0]) + (ser_names_tail(lv.skip(1)) + "]"@),
                    );
                    lemma_text_at_split(
                        s@,
                        i + ","@.len(),
                        ser_text(lv[0]),
                        ser_names_tail(lv.skip(1)) + "]"@,
                    );
                    assert(text_at(s@, j1 as int, ser_text(lv[0])));
                    assert(plain_text(lv[0]));
                }
            }
            return None;
        },
    };
    let tail = match parse_names_tail(s, j2) {
        Some(p) => p,
        None => {
            assert forall|lv: Seq<Seq<char>>|
                names_plain(lv) && text_at(s@, i as int, ser_names_tail(lv) + "]"@) implies false by {
                if lv.len() == 0 {
                    assert(ser_names_tail(lv) + "]"@ =~= "]"@);
                    lemma_text_at_index(s@, i as int, "]"@, 0);
                    lemma_text_at_index(s@, i as int, ","@, 0);
                } else {
                    assert(ser_names_tail(lv) + "]"@ =~= ","@ + (ser_text(lv[0]) + (
                    ser_names_tail(lv.skip(1)) + "]"@)));
                    lemma_text_at_split(
                        s@,
                        i as int,
                        ","@,
                        ser_text(lv[0]) + (ser_names_tail(lv.skip(1)) + "]"@),
                    );
                    lemma_text_at_split(
                        s@,
                        i + ","@.len(),
                        ser_text(lv[0]),
                        ser_names_tail(lv.skip(1)) + "]"@,
                    );
                    assert(text_at(s@, j1 as int, ser_text(lv[0])));
                    assert(plain_text(lv[0]));
                    assert(j2 == j1 + ser_text(lv[0]).len());
                    assert(names_plain(lv.skip(1))) by {
                        assert(forall|k: int|
                            0 <= k < lv.skip(1).len() ==> #[trigger] lv.skip(1)[k] == lv[k + 1]);
                    }
                    assert(text_at(s@, j2 as int, ser_names_tail(lv.skip(1)) + "]"@));
                }
            }
            return None;
        },
    };
    let (mut rest, j3) = tail;
    let ghost pre = rest@;
    rest.insert(0, elem0);
    proof {
        assert(rest@ =~= seq![elem0] + pre);
        assert(name_views(rest@)[0] == elem0@);
        assert(name_views(rest@).skip(1) =~= name_views(pre));
        assert(ser_names_tail(name_views(rest@)) == ","@ + ser_text(elem0@) + ser_names_tail(
            name_views(pre),
        ));
        lemma_join(s@, i as int, j1 as int, j2 as int);
        lemma_join(s@, i as int, j2 as int, j3 as int);
        assert(s@.subrange(i as int, j3 as int) =~= ser_names_tail(name_views(rest@)) + "]"@);
        assert forall|k: int|
            0 <= k < name_views(rest@).len() implies plain_text(#[trigger] name_views(rest@)[k]) by {
            if k > 0 {
                assert(name_views(rest@)[k] == name_views(rest@).skip(1)[k - 1]);
            }
        }
        assert(names_plain(name_views(rest@)));
    }
    assert forall|lv: Seq<Seq<char>>|
        names_plain(lv) && text_at(s@, i as int, ser_names_tail(lv) + "]"@) implies (name_views(rest@)
        == lv && j3 == i + ser_names_tail(lv).len() + 1) by {
        if lv.len() == 0 {
            assert(ser_names_tail(lv) + "]"@ =~= "]"@);
            lemma_text_at_index(s@, i as int, "]"@, 0);
            lemma_text_at_index(s@, i as int, ","@, 0);
        } else {
            assert(ser_names_tail(lv) + "]"@ =~= ","@ + (ser_text(lv[0]) + (ser_names_tail(
                lv.skip(1),
            ) + "]"@)));
            lemma_text_at_split(
                s@,
                i as int,
                ","@,
                ser_text(lv[0]) + (ser_names_tail(lv.skip(1)) + "]"@),
            );
            lemma_text_at_split(
                s@,
                i + ","@.len(),
                ser_text(lv[0]),
                ser_names_tail(lv.skip(1)) + "]"@,
            );
            assert(text_at(s@, j1 as int, ser_text(lv[0])));
            assert(plain_text(lv[0]));
            assert(elem0@ == lv[0]);
            assert(j2 == j1 + ser_text(lv[0]).len());
            assert(names_plain(lv.skip(1))) by {
                assert(forall|k: int|
                    0 <= k < lv.skip(1).len() ==> #[trigger] lv.skip(1)[k] == lv[k + 1]);
            }
            assert(text_at(s@, j2 as int, ser_names_tail(lv.skip(1)) + "]"@));
            assert(name_views(pre) == lv.skip(1));
            assert(name_views(rest@).len() == lv.len());
            assert forall|k: int| 0 <= k < lv.len() implies name_views(rest@)[k] == lv[k] by {
                if k > 0 {
                    assert(name_views(rest@)[k] == name_views(rest@).skip(1)[k - 1]);
                    assert(lv[k] == lv.skip(1)[k - 1]);
                }
            }
            assert(name_views(rest@) =~= lv);
        }
    }
    Some((rest, j3))
}

/// Parses a whole name list at position `i`, up to and including the
/// closing bracket.
#[verifier::rlimit(100)]
fn parse_names_arr(s: &str, i: usize) -> (r: Option<(Vec<String>, usize)>)
    requires
        i <= s@.len(),
    ensures
        r matches Some(p) ==> {
            &&& i < p.1 <= s@.len()
            &&& names_plain(name_views(p.0@))
            &&& p.1 == i + ser_names(name_views(p.0@)).len() + 1
            &&& s@.subrange(i as int, p.1 as int) == ser_names(name_views(p.0@)) + "]"@
        },
        forall|lv: Seq<Seq<char>>|
            names_plain(lv) && text_at(s@, i as int, ser_names(lv) + "]"@) ==> (r matches Some(
                p,
            ) && name_views(p.0@) == lv && p.1 == i + ser_names(lv).len() + 1),
{
    proof {
        reveal_strlit("]");
    }
    if let Some(j) = expect_lit(s, i, "]") {
        let out: Vec<String> = Vec::new();
        proof {
            assert(name_views(out@) =~= Seq::<Seq<char>>::empty());
            assert(ser_names(name_views(out@)) + "]"@ =~= "]"@);
        }
        assert forall|lv: Seq<Seq<char>>|
            names_plain(lv) && text_at(s@, i as int, ser_names(lv) + "]"@) implies (name_views(
            out@,
        ) == lv && j == i + ser_names(lv).len() + 1) by {
            if lv.len() != 0 {
                lemma_text_at_index(s@, i as int, ser_names(lv) + "]"@, 0);
                assert((ser_names(lv) + "]"@)[0] == '"');
                lemma_text_at_index(s@, i as int, "]"@, 0);
            }
            assert(lv =~= name_views(out@));
        }
        return Some((out, j));
    }
    let (elem0, j1) = match parse_text(s, i) {
        Some(p) => p,
        None => {
            assert forall|lv: Seq<Seq<char>>|
                names_plain(lv) && text_at(s@, i as int, ser_names(lv) + "]"@) implies false by {
                if lv.len() == 0 {
                    assert(ser_names(lv) + "]"@ =~= "]"@);
                } else {
                    assert(ser_names(lv) + "]"@ =~= ser_text(lv[0]) + (ser_names_tail(
                        lv.skip(1),
                    ) + "]"@));
                    lemma_text_at_split(
                        s@,
                        i as int,
                        ser_text(lv[0]),
                        ser_names_tail(lv.skip(1)) + "]"@,
                    );
                    assert(plain_text(lv[0]));
                }
            }
            return None;
        },
    };
    let tail = match parse_names_tail(s, j1) {
        Some(p) => p,
        None => {
            assert forall|lv: Seq<Seq<char>>|
                names_plain(lv) && text_at(s@, i as int, ser_names(lv) + "]"@) implies false by {
                if lv.len() == 0 {
                    assert(ser_names(lv) + "]"@ =~= "]"@);
                    lemma_text_at_index(s@, i as int, "]"@, 0);
                    assert(s@.subrange(i as int, j1 as int) == ser_text(elem0@));
                    lemma_text_at_index(s@, i as int, ser_text(elem0@), 0);
                    assert(ser_text(elem0@)[0] == '"');
                } else {
                    assert(ser_names(lv) + "]"@ =~= ser_text(lv[0]) + (ser_names_tail(
                        lv.skip(1),
                    ) + "]"@));
                    lemma_text_at_split(
                        s@,
                        i as int,
                        ser_text(lv[0]),
                        ser_names_tail(lv.skip(1)) + "]"@,
                    );
                    assert(plain_text(lv[0]));
                    assert(j1 == i + ser_text(lv[0]).len());
                    assert(names_plain(lv.skip(1))) by {
                        assert(forall|k: int|
                            0 <= k < lv.skip(1).len() ==> #[trigger] lv.skip(1)[k] == lv[k + 1]);
                    }
                    assert(text_at(s@, j1 as int, ser_names_tail(lv.skip(1)) + "]"@));
                }
            }
            return None;
        },
    };
    let (mut rest, j2) = tail;
    let ghost pre = rest@;
    rest.insert(0, elem0);
    proof {
        assert(rest@ =~= seq![elem0] + pre);
        assert(name_views(rest@)[0] == elem0@);
        assert(name_views(rest@).skip(1) =~= name_views(pre));
        assert(ser_names(name_views(rest@)) == ser_text(elem0@) + ser_names_tail(
            name_views(pre),
        ));
        lemma_join(s@, i as int, j1 as int, j2 as int);
        assert(s@.subrange(i as int, j2 as int) =~= ser_names(name_views(rest@)) + "]"@);
        assert forall|k: int|
            0 <= k < name_views(rest@).len() implies plain_text(#[trigger] name_views(rest@)[k]) by {
            if k > 0 {
                assert(name_views(rest@)[k] == name_views(rest@).skip(1)[k - 1]);
            }
        }
        assert(names_plain(name_views(rest@)));
    }
    assert forall|lv: Seq<Seq<char>>|
        names_plain(lv) && text_at(s@, i as int, ser_names(lv) + "]"@) implies (name_views(rest@)
        == lv && j2 == i + ser_names(lv).len() + 1) by {
        if lv.len() == 0 {
            assert(ser_names(lv) + "]"@ =~= "]"@);
            lemma_text_at_index(s@, i as int, "]"@, 0);
            assert(s@.subrange(i as int, j1 as int) == ser_text(elem0@));
            lemma_text_at_index(s@, i as int, ser_text(elem0@), 0);
            assert(ser_text(elem0@)[0] == '"');
        } else {
            assert(ser_names(lv) + "]"@ =~= ser_text(lv[0]) + (ser_names_tail(lv.skip(1))
                + "]"@));
            lemma_text_at_split(
                s@,
                i as int,
                ser_text(lv[0]),
                ser_names_tail(lv.skip(1)) + "]"@,
            );
            assert(plain_text(lv[0]));
            assert(elem0@ == lv[0]);
            assert(j1 == i + ser_text(lv[0]).len());
            assert(names_plain(lv.skip(1))) by {
                assert(forall|k: int|
                    0 <= k < lv.skip(1).len() ==> #[trigger] lv.skip(1)[k] == lv[k + 1]);
            }
            assert(text_at(s@, j1 as int, ser_names_tail(lv.skip(1)) + "]"@));
            assert(name_views(pre) == lv.skip(1));
            assert(name_views(rest@).len() == lv.len());
            assert forall|k: int| 0 <= k < lv.len() implies name_views(rest@)[k] == lv[k] by {
                if k > 0 {
                    assert(name_views(rest@)[k] == name_views(rest@).skip(1)[k - 1]);
                    assert(lv[k] == lv.skip(1)[k - 1]);
                }
            }
            assert(name_views(rest@) =~= lv);
        }
    }
    Some((rest, j2))
}

/// The canonical pieces of a key rendering, each at its offset.
proof fn lemma_key_pieces(s: Seq<char>, i: int, v: KeyView)
    requires
        text_at(s, i, ser_key(v)),
    ensures
        ({
            let kv = v->SigstoreOidc_keyval;
            let sch = v->SigstoreOidc_scheme;
            let o1 = i + "{\"keytype\":\"sigstore-oidc\",\"keyval\":{\"identity\":"@.len();
            let o2 = o1 + ser_text(kv.identity).len();
            let o3 = o2 + ",\"issuer\":"@.len();
            let o4 = o3 + ser_text(kv.issuer).len();
            let o5 = o4 + "},\"scheme\":"@.len();
            let o6 = o5 + ser_text(sch).len();
            &&& text_at(s, i, "{\"keytype\":\"sigstore-oidc\",\"keyval\":{\"identity\":"@)
            &&& text_at(s, o1, ser_text(kv.identity))
            &&& text_at(s, o2, ",\"issuer\":"@)
            &&& text_at(s, o3, ser_text(kv.issuer))
            &&& text_at(s, o4, "},\"scheme\":"@)
            &&& text_at(s, o5, ser_text(sch))
            &&& text_at(s, o6, "}"@)
        }),
{
    let kv = v->SigstoreOidc_keyval;
    let sch = v->SigstoreOidc_scheme;
    let l1 = "{\"keytype\":\"sigstore-oidc\",\"keyval\":{\"identity\":"@;
    let t1 = ser_text(kv.identity);
    let l2 = ",\"issuer\":"@;
    let t2 = ser_text(kv.issuer);
    let l3 = "},\"scheme\":"@;
    let t3 = ser_text(sch);
    let l4 = "}"@;
    assert(ser_key(v) == l1 + t1 + l2 + t2 + l3 + t3 + l4);
    lemma_text_at_split(s, i, l1 + t1 + l2 + t2 + l3 + t3, l4);
    lemma_text_at_split(s, i, l1 + t1 + l2 + t2 + l3, t3);
    lemma_text_at_split(s, i, l1 + t1 + l2 + t2, l3);
    lemma_text_at_split(s, i, l1 + t1 + l2, t2);
    lemma_text_at_split(s, i, l1 + t1, l2);
    lemma_text_at_split(s, i, l1, t1);
}

/// Parses one canonical trusted key at position `i`. A key whose kind tag
/// is not a known kind fails the fixed tag literal and is rejected.
fn parse_key(s: &str, i: usize) -> (r: Option<(Key, usize)>)
    requires
        i <= s@.len(),
    ensures
        r matches Some(p) ==> {
            &&& i < p.1 <= s@.len()
            &&& p.0@.wf()
            &&& p.1 == i + ser_key(p.0@).len()
            &&& s@.subrange(i as int, p.1 as int) == ser_key(p.0@)
        },
        forall|v: KeyView|
            v.wf() && text_at(s@, i as int, ser_key(v)) ==> (r matches Some(p) && p.0@ == v && p.1
                == i + ser_key(v).len()),
{
    let j1 = match expect_lit(s, i, "{\"keytype\":\"sigstore-oidc\",\"keyval\":{\"identity\":") {
        Some(j) => j,
        None => {
            assert forall|v: KeyView| v.wf() && text_at(s@, i as int, ser_key(v)) implies false by {
                lemma_key_pieces(s@, i as int, v);
            }
            return None;
        },
    };
    let (identity, j2) = match parse_text(s, j1) {
        Some(p) => p,
        None => {
            assert forall|v: KeyView| v.wf() && text_at(s@, i as int, ser_key(v)) implies false by {
                lemma_key_pieces(s@, i as int, v);
                assert(text_at(s@, j1 as int, ser_text(v->SigstoreOidc_keyval.identity)));
            }
            return None;
        },
    };
    let j3 = match expect_lit(s, j2, ",\"issuer\":") {
        Some(j) => j,
        None => {
            assert forall|v: KeyView| v.wf() && text_at(s@, i as int, ser_key(v)) implies false by {
                lemma_key_pieces(s@, i as int, v);
                assert(text_at(s@, j1 as int, ser_text(v->SigstoreOidc_keyval.identity)));
                assert(j2 == j1 + ser_text(v->SigstoreOidc_keyval.identity).len());
            }
            return None;
        },
    };
    let (issuer, j4) = match parse_text(s, j3) {
        Some(p) => p,
        None => {
            assert forall|v: KeyView| v.wf() && text_at(s@, i as int, ser_key(v)) implies false by {
                lemma_key_pieces(s@, i as int, v);
                assert(text_at(s@, j1 as int, ser_text(v->SigstoreOidc_keyval.identity)));
                assert(j2 == j1 + ser_text(v->SigstoreOidc_keyval.identity).len());
                assert(text_at(s@, j3 as int, ser_text(v->SigstoreOidc_keyval.issuer)));
            }
            return None;
        },
    };
    let j5 = match expect_lit(s, j4, "},\"scheme\":") {
        Some(j) => j,
        None => {
            assert forall|v: KeyView| v.wf() && text_at(s@, i as int, ser_key(v)) implies false by {
                lemma_key_pieces(s@, i as int, v);
                assert(text_at(s@, j1 as int, ser_text(v->SigstoreOidc_keyval.identity)));
                assert(j2 == j1 + ser_text(v->SigstoreOidc_keyval.identity).len());
                assert(text_at(s@, j3 as int, ser_text(v->SigstoreOidc_keyval.issuer)));
                assert(j4 == j3 + ser_text(v->SigstoreOidc_keyval.issuer).len());
            }
            return None;
        },
    };
    let (scheme, j6) = match parse_text(s, j5) {
        Some(p) => p,
        None => {
            assert forall|v: KeyView| v.wf() && text_at(s@, i as int, ser_key(v)) implies false by {
                lemma_key_pieces(s@, i as int, v);
                assert(text_at(s@, j1 as int, ser_text(v->SigstoreOidc_keyval.identity)));
                assert(j2 == j1 + ser_text(v->SigstoreOidc_keyval.identity).len());
                assert(text_at(s@, j3 as int, ser_text(v->SigstoreOidc_keyval.issuer)));
                assert(j4 == j3 + ser_text(v->SigstoreOidc_keyval.issuer).len());
                assert(text_at(s@, j5 as int, ser_text(v->SigstoreOidc_scheme)));
            }
            return None;
        },
    };
    let j7 = match expect_lit(s, j6, "}") {
        Some(j) => j,
        None => {
            assert forall|v: KeyView| v.wf() && text_at(s@, i as int, ser_key(v)) implies false by {
                lemma_key_pieces(s@, i as int, v);
                assert(text_at(s@, j1 as int, ser_text(v->SigstoreOidc_keyval.identity)));
                assert(j2 == j1 + ser_text(v->SigstoreOidc_keyval.identity).len());
                assert(text_at(s@, j3 as int, ser_text(v->SigstoreOidc_keyval.issuer)));
                assert(j4 == j3 + ser_text(v->SigstoreOidc_keyval.issuer).len());
                assert(text_at(s@, j5 as int, ser_text(v->SigstoreOidc_scheme)));
                assert(j6 == j5 + ser_text(v->SigstoreOidc_scheme).len());
            }
            return None;
        },
    };
    let result = Key::SigstoreOidc { keyval: SigstoreOidcKey { identity, issuer }, scheme };
    proof {
        lemma_join(s@, i as int, j1 as int, j2 as int);
        lemma_join(s@, i as int, j2 as int, j3 as int);
        lemma_join(s@, i as int, j3 as int, j4 as int);
        lemma_join(s@, i as int, j4 as int, j5 as int);
        lemma_join(s@, i as int, j5 as int, j6 as int);
        lemma_join(s@, i as int, j6 as int, j7 as int);
        assert(s@.subrange(i as int, j7 as int) == ser_key(result@));
    }
    assert forall|v: KeyView|
        v.wf() && text_at(s@, i as int, ser_key(v)) implies (result@ == v && j7 == i + ser_key(
        v,
    ).len()) by {
        lemma_key_pieces(s@, i as int, v);
        assert(text_at(s@, j1 as int, ser_text(v->SigstoreOidc_keyval.identity)));
        assert(j2 == j1 + ser_text(v->SigstoreOidc_keyval.identity).len());
        assert(text_at(s@, j3 as int, ser_text(v->SigstoreOidc_keyval.issuer)));
        assert(j4 == j3 + ser_text(v->SigstoreOidc_keyval.issuer).len());
        assert(text_at(s@, j5 as int, ser_text(v->SigstoreOidc_scheme)));
        assert(j6 == j5 + ser_text(v->SigstoreOidc_scheme).len());
        assert(result@->SigstoreOidc_keyval =~= v->SigstoreOidc_keyval);
        assert(result@ =~= v);
    }
    Some((result, j7))
}

/// Parses one canonical key-table entry — a name, a colon, a key — at
/// position `i`.
fn parse_key_entry(s: &str, i: usize) -> (r: Option<((String, Key), usize)>)
    requires
        i <= s@.len(),
    ensures
        r matches Some(p) ==> {
            &&& i < p.1 <= s@.len()
            &&& plain_text(p.0.0@)
            &&& p.0.1@.wf()
            &&& p.1 == i + ser_key_entry((p.0.0@, p.0.1@)).len()
            &&& s@.subrange(i as int, p.1 as int) == ser_key_entry((p.0.0@, p.0.1@))
        },
        forall|e: (Seq<char>, KeyView)|
            plain_text(e.0) && e.1.wf() && text_at(s@, i as int, ser_key_entry(e)) ==> (r matches
                Some(p) && p.0.0@ == e.0 && p.0.1@ == e.1 && p.1 == i + ser_key_entry(e).len()),
{
    let (name, j1) = match parse_text(s, i) {
        Some(p) => p,
        None => {
            assert forall|e: (Seq<char>, KeyView)|
                plain_text(e.0) && e.1.wf() && text_at(s@, i as int, ser_key_entry(e))
                implies false by {
                assert(ser_key_entry(e) == ser_text(e.0) + (":"@ + ser_key(e.1)));
                lemma_text_at_split(s@, i as int, ser_text(e.0), ":"@ + ser_key(e.1));
            }
            return None;
        },
    };
    let j2 = match expect_lit(s, j1, ":") {
        Some(j) => j,
        None => {
            assert forall|e: (Seq<char>, KeyView)|
                plain_text(e.0) && e.1.wf() && text_at(s@, i as int, ser_key_entry(e))
                implies false by {
                assert(ser_key_entry(e) == ser_text(e.0) + (":"@ + ser_key(e.1)));
                lemma_text_at_split(s@, i as int, ser_text(e.0), ":"@ + ser_key(e.1));
                assert(j1 == i + ser_text(e.0).len());
                lemma_text_at_split(s@, j1 as int, ":"@, ser_key(e.1));
            }
            return None;
        },
    };
    let (key, j3) = match parse_key(s, j2) {
        Some(p) => p,
        None => {
            assert forall|e: (Seq<char>, KeyView)|
                plain_text(e.0) && e.1.wf() && text_at(s@, i as int, ser_key_entry(e))
                implies false by {
                assert(ser_key_entry(e) == ser_text(e.0) + (":"@ + ser_key(e.1)));
                lemma_text_at_split(s@, i as int, ser_text(e.0), ":"@ + ser_key(e.1));
                assert(j1 == i + ser_text(e.0).len());
                lemma_text_at_split(s@, j1 as int, ":"@, ser_key(e.1));
                assert(text_at(s@, j2 as int, ser_key(e.1)));
            }
            return None;
        },
    };
    proof {
        lemma_join(s@, i as int, j1 as int, j2 as int);
        lemma_join(s@, i as int, j2 as int, j3 as int);
        assert(s@.subrange(i as int, j3 as int) == ser_key_entry((name@, key@)));
    }
    assert forall|e: (Seq<char>, KeyView)|
        plain_text(e.0) && e.1.wf() && text_at(s@, i as int, ser_key_entry(e)) implies (name@ == e.0
        && key@ == e.1 && j3 == i + ser_key_entry(e).len()) by {
        assert(ser_key_entry(e) == ser_text(e.0) + (":"@ + ser_key(e.1)));
        lemma_text_at_split(s@, i as int, ser_text(e.0), ":"@ + ser_key(e.1));
        assert(j1 == i + ser_text(e.0).len());
        lemma_text_at_split(s@, j1 as int, ":"@, ser_key(e.1));
        assert(text_at(s@, j2 as int, ser_key(e.1)));
    }
    Some(((name, key), j3))
}

/// The views of a list of key-table entries.
pub open spec fn key_entry_views(l: Seq<(String, Key)>) -> Seq<(Seq<char>, KeyView)> {
    l.map_values(|e: (String, Key)| (e.0@, e.1@))
}

/// Every key-table entry has a plain name and a well-formed key.
pub open spec fn keys_plain(l: Seq<(Seq<char>, KeyView)>) -> bool {
    forall|k: int|
        0 <= k < l.len() ==> plain_text((#[trigger] l[k]).0) && l[k].1.wf()
}

/// Parses the key-table entries after the first one, up to and including
/// the closing brace.
#[verifier::rlimit(100)]
fn parse_keys_tail(s: &str, i: usize) -> (r: Option<(Vec<(String, Key)>, usize)>)
    requires
        i <= s@.len(),
    ensures
        r matches Some(p) ==> {
            &&& i < p.1 <= s@.len()
            &&& keys_plain(key_entry_views(p.0@))
            &&& p.1 == i + ser_keys_tail(key_entry_views(p.0@)).len() + 1
            &&& s@.subrange(i as int, p.1 as int) == ser_keys_tail(key_entry_views(p.0@)) + "}"@
        },
        forall|lv: Seq<(Seq<char>, KeyView)>|
            keys_plain(lv) && text_at(s@, i as int, ser_keys_tail(lv) + "}"@) ==> (r matches Some(
                p,
            ) && key_entry_views(p.0@) == lv && p.1 == i + ser_keys_tail(lv).len() + 1),
    decreases s@.len() - i,
{
    proof {
        reveal_strlit(",");
        reveal_strlit("}");
    }
    if let Some(j) = expect_lit(s, i, "}") {
        let out: Vec<(String, Key)> = Vec::new();
        proof {
            assert(key_entry_views(out@) =~= Seq::<(Seq<char>, KeyView)>::empty());
            assert(ser_keys_tail(key_entry_views(out@)) + "}"@ =~= "}"@);
        }
        assert forall|lv: Seq<(Seq<char>, KeyView)>|
            keys_plain(lv) && text_at(s@, i as int, ser_keys_tail(lv) + "}"@) implies (
        key_entry_views(out@) == lv && j == i + ser_keys_tail(lv).len() + 1) by {
            if lv.len() != 0 {
                lemma_text_at_index(s@, i as int, ser_keys_tail(lv) + "}"@, 0);
                assert((ser_keys_tail(lv) + "}"@)[0] == ',');
                lemma_text_at_index(s@, i as int, "}"@, 0);
            }
            assert(lv =~= key_entry_views(out@));
        }
        return Some((out, j));
    }
    let j1 = match expect_lit(s, i, ",") {
        Some(j) => j,
        None => {
            assert forall|lv: Seq<(Seq<char>, KeyView)>|
                keys_plain(lv) && text_at(s@, i as int, ser_keys_tail(lv) + "}"@) implies false by {
                if lv.len() == 0 {
                    assert(ser_keys_tail(lv) + "}"@ =~= "}"@);
                } else {
                    assert(ser_keys_tail(lv) + "}"@ =~= ","@ + (ser_key_entry(lv[0]) + (
                    ser_keys_tail(lv.skip(1)) + "}"@)));
                    lemma_text_at_split(
                        s@,
                        i as int,
                        ","@,
                        ser_key_entry(lv[0]) + (ser_keys_tail(lv.skip(1)) + "}"@),
                    );
                }
            }
            return None;
        },
    };
    let (elem0, j2) = match parse_key_entry(s, j1) {
        Some(p) => p,
        None => {
            assert forall|lv: Seq<(Seq<char>, KeyView)>|
                keys_plain(lv) && text_at(s@, i as int, ser_keys_tail(lv) + "}"@) implies false by {
                if lv.len() == 0 {
                    assert(ser_keys_tail(lv) + "}"@ =~= "}"@);
                    lemma_text_at_index(s@, i as int, "}"@, 0);
                    lemma_text_at_index(s@, i as int, ","@, 0);
                } else {
                    assert(ser_keys_tail(lv) + "}"@ =~= ","@ + (ser_key_entry(lv[0]) + (
                    ser_keys_tail(lv.skip(1)) + "}"@)));
                    lemma_text_at_split(
                        s@,
                        i as int,
                        ","@,
                        ser_key_entry(lv[0]) + (ser_keys_tail(lv.skip(1)) + "}"@),
                    );
                    lemma_text_at_split(
                        s@,
                        i + ","@.len(),
                        ser_key_entry(lv[0]),
                        ser_keys_tail(lv.skip(1)) + "}"@,
                    );
                    assert(text_at(s@, j1 as int, ser_key_entry(lv[0])));
                    assert(plain_text(lv[0].0) && lv[0].1.wf());
                }
            }
            return None;
        },
    };
    let tail = match parse_keys_tail(s, j2) {
        Some(p) => p,
        None => {
            assert forall|lv: Seq<(Seq<char>, KeyView)>|
                keys_plain(lv) && text_at(s@, i as int, ser_keys_tail(lv) + "}"@) implies false by {
                if lv.len() == 0 {
                    assert(ser_keys_tail(lv) + "}"@ =~= "}"@);
                    lemma_text_at_index(s@, i as int, "}"@, 0);
                    lemma_text_at_index(s@, i as int, ","@, 0);
                } else {
                    assert(ser_keys_tail(lv) + "}"@ =~= ","@ + (ser_key_entry(lv[0]) + (
                    ser_keys_tail(lv.skip(1)) + "}"@)));
                    lemma_text_at_split(
                        s@,
                        i as int,
                        ","@,
                        ser_key_entry(lv[0]) + (ser_keys_tail(lv.skip(1)) + "}"@),
                    );
                    lemma_text_at_split(
                        s@,
                        i + ","@.len(),
                        ser_key_entry(lv[0]),
                        ser_keys_tail(lv.skip(1)) + "}"@,
                    );
                    assert(text_at(s@, j1 as int, ser_key_entry(lv[0])));
                    assert(plain_text(lv[0].0) && lv[0].1.wf());
                    assert(elem0.0@ == lv[0].0 && elem0.1@ == lv[0].1);
                    assert(j2 == j1 + ser_key_entry(lv[0]).len());
                    assert(keys_plain(lv.skip(1))) by {
                        assert(forall|k: int|
                            0 <= k < lv.skip(1).len() ==> #[trigger] lv.skip(1)[k] == lv[k + 1]);
                    }
                    assert(text_at(s@, j2 as int, ser_keys_tail(lv.skip(1)) + "}"@));
                }
            }
            return None;
        },
    };
    let (mut rest, j3) = tail;
    let ghost pre = rest@;
    rest.insert(0, elem0);
    proof {
        assert(rest@ =~= seq![elem0] + pre);
        assert(key_entry_views(rest@)[0] == (elem0.0@, elem0.1@));
        assert(key_entry_views(rest@).skip(1) =~= key_entry_views(pre));
        assert(ser_key_entry(key_entry_views(rest@)[0]) == ser_key_entry((elem0.0@, elem0.1@)));
        assert(ser_keys_tail(key_entry_views(rest@)) == ","@ + ser_key_entry((elem0.0@, elem0.1@))
            + ser_keys_tail(key_entry_views(pre)));
        lemma_join(s@, i as int, j1 as int, j2 as int);
        lemma_join(s@, i as int, j2 as int, j3 as int);
        assert(s@.subrange(i as int, j3 as int) =~= ser_keys_tail(key_entry_views(rest@)) + "}"@);
        assert forall|k: int|
            0 <= k < key_entry_views(rest@).len() implies plain_text(
            (#[trigger] key_entry_views(rest@)[k]).0,
        ) && key_entry_views(rest@)[k].1.wf() by {
            if k > 0 {
                assert(key_entry_views(rest@)[k] == key_entry_views(rest@).skip(1)[k - 1]);
            }
        }
        assert(keys_plain(key_entry_views(rest@)));
    }
    assert forall|lv: Seq<(Seq<char>, KeyView)>|
        keys_plain(lv) && text_at(s@, i as int, ser_keys_tail(lv) + "}"@) implies (key_entry_views(
        rest@,
    ) == lv && j3 == i + ser_keys_tail(lv).len() + 1) by {
        if lv.len() == 0 {
            assert(ser_keys_tail(lv) + "}"@ =~= "}"@);
            lemma_text_at_index(s@, i as int, "}"@, 0);
            lemma_text_at_index(s@, i as int, ","@, 0);
        } else {
            assert(ser_keys_tail(lv) + "}"@ =~= ","@ + (ser_key_entry(lv[0]) + (ser_keys_tail(
                lv.skip(1),
            ) + "}"@)));
            lemma_text_at_split(
                s@,
                i as int,
                ","@,
                ser_key_entry(lv[0]) + (ser_keys_tail(lv.skip(1)) + "}"@),
            );
            lemma_text_at_split(
                s@,
                i + ","@.len(),
                ser_key_entry(lv[0]),
                ser_keys_tail(lv.skip(1)) + "}"@,
            );
            assert(text_at(s@, j1 as int, ser_key_entry(lv[0])));
            assert(plain_text(lv[0].0) && lv[0].1.wf());
            assert(elem0.0@ == lv[0].0 && elem0.1@ == lv[0].1);
            assert(j2 == j1 + ser_key_entry(lv[0]).len());
            assert(keys_plain(lv.skip(1))) by {
                assert(forall|k: int|
                    0 <= k < lv.skip(1).len() ==> #[trigger] lv.skip(1)[k] == lv[k + 1]);
            }
            assert(text_at(s@, j2 as int, ser_keys_tail(lv.skip(1)) + "}"@));
            assert(key_entry_views(pre) == lv.skip(1));
            assert(key_entry_views(rest@).len() == lv.len());
            assert forall|k: int| 0 <= k < lv.len() implies key_entry_views(rest@)[k] == lv[k] by {
                if k == 0 {
                    assert(key_entry_views(rest@)[0] == (elem0.0@, elem0.1@));
                    assert(lv[0] == (lv[0].0, lv[0].1));
                } else {
                    assert(key_entry_views(rest@)[k] == key_entry_views(rest@).skip(1)[k - 1]);
                    assert(lv[k] == lv.skip(1)[k - 1]);
                }
            }
            assert(key_entry_views(rest@) =~= lv);
        }
    }
    Some((rest, j3))
}

/// Parses a whole key table at position `i`, up to and including the
/// closing brace.
#[verifier::rlimit(100)]
fn parse_keys_table(s: &str, i: usize) -> (r: Option<(Vec<(String, Key)>, usize)>)
    requires
        i <= s@.len(),
    ensures
        r matches Some(p) ==> {
            &&& i < p.1 <= s@.len()
            &&& keys_plain(key_entry_views(p.0@))
            &&& p.1 == i + ser_keys(key_entry_views(p.0@)).len() + 1
            &&& s@.subrange(i as int, p.1 as int) == ser_keys(key_entry_views(p.0@)) + "}"@
        },
        forall|lv: Seq<(Seq<char>, KeyView)>|
            keys_plain(lv) && text_at(s@, i as int, ser_keys(lv) + "}"@) ==> (r matches Some(p)
                && key_entry_views(p.0@) == lv && p.1 == i + ser_keys(lv).len() + 1),
{
    proof {
        reveal_strlit("}");
    }
    if let Some(j) = expect_lit(s, i, "}") {
        let out: Vec<(String, Key)> = Vec::new();
        proof {
            assert(key_entry_views(out@) =~= Seq::<(Seq<char>, KeyView)>::empty());
            assert(ser_keys(key_entry_views(out@)) + "}"@ =~= "}"@);
        }
        assert forall|lv: Seq<(Seq<char>, KeyView)>|
            keys_plain(lv) && text_at(s@, i as int, ser_keys(lv) + "}"@) implies (key_entry_views(
            out@,
        ) == lv && j == i + ser_keys(lv).len() + 1) by {
            if lv.len() != 0 {
                lemma_text_at_index(s@, i as int, ser_keys(lv) + "}"@, 0);
                assert(ser_key_entry(lv[0])[0] == '"');
                assert((ser_keys(lv) + "}"@)[0] == '"');
                lemma_text_at_index(s@, i as int, "}"@, 0);
            }
            assert(lv =~= key_entry_views(out@));
        }
        return Some((out, j));
    }
    let (elem0, j1) = match parse_key_entry(s, i) {
        Some(p) => p,
        None => {
            assert forall|lv: Seq<(Seq<char>, KeyView)>|
                keys_plain(lv) && text_at(s@, i as int, ser_keys(lv) + "}"@) implies false by {
                if lv.len() == 0 {
                    assert(ser_keys(lv) + "}"@ =~= "}"@);
                } else {
                    assert(ser_keys(lv) + "}"@ =~= ser_key_entry(lv[0]) + (ser_keys_tail(
                        lv.skip(1),
                    ) + "}"@));
                    lemma_text_at_split(
                        s@,
                        i as int,
                        ser_key_entry(lv[0]),
                        ser_keys_tail(lv.skip(1)) + "}"@,
                    );
                    assert(plain_text(lv[0].0) && lv[0].1.wf());
                }
            }
            return None;
        },
    };
    let tail = match parse_keys_tail(s, j1) {
        Some(p) => p,
        None => {
            assert forall|lv: Seq<(Seq<char>, KeyView)>|
                keys_plain(lv) && text_at(s@, i as int, ser_keys(lv) + "}"@) implies false by {
                if lv.len() == 0 {
                    assert(ser_keys(lv) + "}"@ =~= "}"@);
                    lemma_text_at_index(s@, i as int, "}"@, 0);
                    assert(s@.subrange(i as int, j1 as int) == ser_key_entry(
                        (elem0.0@, elem0.1@),
                    ));
                    lemma_text_at_index(s@, i as int, ser_key_entry((elem0.0@, elem0.1@)), 0);
                    assert(ser_key_entry((elem0.0@, elem0.1@))[0] == '"');
                } else {
                    assert(ser_keys(lv) + "}"@ =~= ser_key_entry(lv[0]) + (ser_keys_tail(
                        lv.skip(1),
                    ) + "}"@));
                    lemma_text_at_split(
                        s@,
                        i as int,
                        ser_key_entry(lv[0]),
                        ser_keys_tail(lv.skip(1)) + "}"@,
                    );
                    assert(plain_text(lv[0].0) && lv[0].1.wf());
                    assert(j1 == i + ser_key_entry(lv[0]).len());
                    assert(keys_plain(lv.skip(1))) by {
                        assert(forall|k: int|
                            0 <= k < lv.skip(1).len() ==> #[trigger] lv.skip(1)[k] == lv[k + 1]);
                    }
                    assert(text_at(s@, j1 as int, ser_keys_tail(lv.skip(1)) + "}"@));
                }
            }
            return None;
        },
    };
    let (mut rest, j2) = tail;
    let ghost pre = rest@;
    rest.insert(0, elem0);
    proof {
        assert(rest@ =~= seq![elem0] + pre);
        assert(key_entry_views(rest@)[0] == (elem0.0@, elem0.1@));
        assert(key_entry_views(rest@).skip(1) =~= key_entry_views(pre));
        assert(ser_keys(key_entry_views(rest@)) == ser_key_entry((elem0.0@, elem0.1@))
            + ser_keys_tail(key_entry_views(pre)));
        lemma_join(s@, i as int, j1 as int, j2 as int);
        assert(s@.subrange(i as int, j2 as int) =~= ser_keys(key_entry_views(rest@)) + "}"@);
        assert forall|k: int|
            0 <= k < key_entry_views(rest@).len() implies plain_text(
            (#[trigger] key_entry_views(rest@)[k]).0,
        ) && key_entry_views(rest@)[k].1.wf() by {
            if k > 0 {
                assert(key_entry_views(rest@)[k] == key_entry_views(rest@).skip(1)[k - 1]);
            }
        }
        assert(keys_plain(key_entry_views(rest@)));
    }
    assert forall|lv: Seq<(Seq<char>, KeyView)>|
        keys_plain(lv) && text_at(s@, i as int, ser_keys(lv) + "}"@) implies (key_entry_views(rest@)
        == lv && j2 == i + ser_keys(lv).len() + 1) by {
        if lv.len() == 0 {
            assert(ser_keys(lv) + "}"@ =~= "}"@);
            lemma_text_at_index(s@, i as int, "}"@, 0);
            assert(s@.subrange(i as int, j1 as int) == ser_key_entry((elem0.0@, elem0.1@)));
            lemma_text_at_index(s@, i as int, ser_key_entry((elem0.0@, elem0.1@)), 0);
            assert(ser_key_entry((elem0.0@, elem0.1@))[0] == '"');
        } else {
            assert(ser_keys(lv) + "}"@ =~= ser_key_entry(lv[0]) + (ser_keys_tail(lv.skip(1))
                + "}"@));
            lemma_text_at_split(
                s@,
                i as int,
                ser_key_entry(lv[0]),
                ser_keys_tail(lv.skip(1)) + "}"@,
            );
            assert(plain_text(lv[0].0) && lv[0].1.wf());
            assert(elem0.0@ == lv[0].0 && elem0.1@ == lv[0].1);
            assert(j1 == i + ser_key_entry(lv[0]).len());
            assert(keys_plain(lv.skip(1))) by {
                assert(forall|k: int|
                    0 <= k < lv.skip(1).len() ==> #[trigger] lv.skip(1)[k] == lv[k + 1]);
            }
            assert(text_at(s@, j1 as int, ser_keys_tail(lv.skip(1)) + "}"@));
            assert(key_entry_views(pre) == lv.skip(1));
            assert(key_entry_views(rest@).len() == lv.len());
            assert forall|k: int| 0 <= k < lv.len() implies key_entry_views(rest@)[k] == lv[k] by {
                if k == 0 {
                    assert(key_entry_views(rest@)[0] == (elem0.0@, elem0.1@));
                    assert(lv[0] == (lv[0].0, lv[0].1));
                } else {
                    assert(key_entry_views(rest@)[k] == key_entry_views(rest@).skip(1)[k - 1]);
                    assert(lv[k] == lv.skip(1)[k - 1]);
                }
            }
            assert(key_entry_views(rest@) =~= lv);
        }
    }
    Some((rest, j2))
}

/// The key ids of a role are plain names.
pub open spec fn rolekeys_plain(r: RoleKeysView) -> bool {
    names_plain(r.keyids)
}

/// The canonical pieces of a role-keys rendering, each at its offset.
proof fn lemma_rolekeys_pieces(s: Seq<char>, i: int, v: RoleKeysView)
    requires
        text_at(s, i, ser_rolekeys(v)),
    ensures
        ({
            let o1 = i + "{\"keyids\":["@.len();
            let o2 = o1 + ser_names(v.keyids).len() + 1;
            let o3 = o2 + ",\"threshold\":"@.len();
            let o4 = o3 + ser_nat(v.threshold as nat).len();
            &&& text_at(s, i, "{\"keyids\":["@)
            &&& text_at(s, o1, ser_names(v.keyids) + "]"@)
            &&& text_at(s, o2, ",\"threshold\":"@)
            &&& text_at(s, o3, ser_nat(v.threshold as nat))
            &&& text_at(s, o4, "}"@)
        }),
{
    reveal_strlit("]");
    let l1 = "{\"keyids\":["@;
    let b = ser_names(v.keyids) + "]"@;
    let l2 = ",\"threshold\":"@;
    let n = ser_nat(v.threshold as nat);
    let l3 = "}"@;
    assert(ser_rolekeys(v) =~= l1 + b + l2 + n + l3);
    assert(text_at(s, i, l1 + b + l2 + n + l3));
    lemma_text_at_split(s, i, l1 + b + l2 + n, l3);
    lemma_text_at_split(s, i, l1 + b + l2, n);
    lemma_text_at_split(s, i, l1 + b, l2);
    lemma_text_at_split(s, i, l1, b);
}

/// Parses the keys of one role at position `i`.
fn parse_rolekeys(s: &str, i: usize) -> (r: Option<(RoleKeys, usize)>)
    requires
        i <= s@.len(),
    ensures
        r matches Some(p) ==> {
            &&& i < p.1 <= s@.len()
            &&& rolekeys_plain(p.0@)
            &&& p.1 == i + ser_rolekeys(p.0@).len()
            &&& s@.subrange(i as int, p.1 as int) == ser_rolekeys(p.0@)
        },
        forall|v: RoleKeysView|
            rolekeys_plain(v) && text_at(s@, i as int, ser_rolekeys(v)) ==> (r matches Some(p)
                && p.0@ == v && p.1 == i + ser_rolekeys(v).len()),
{
    proof {
        reveal_strlit("}");
    }
    let j1 = match expect_lit(s, i, "{\"keyids\":[") {
        Some(j) => j,
        None => {
            assert forall|v: RoleKeysView|
                rolekeys_plain(v) && text_at(s@, i as int, ser_rolekeys(v)) implies false by {
                lemma_rolekeys_pieces(s@, i as int, v);
            }
            return None;
        },
    };
    let names = match parse_names_arr(s, j1) {
        Some(p) => p,
        None => {
            assert forall|v: RoleKeysView|
                rolekeys_plain(v) && text_at(s@, i as int, ser_rolekeys(v)) implies false by {
                lemma_rolekeys_pieces(s@, i as int, v);
                assert(text_at(s@, j1 as int, ser_names(v.keyids) + "]"@));
            }
            return None;
        },
    };
    let (keyids, j2) = names;
    let j3 = match expect_lit(s, j2, ",\"threshold\":") {
        Some(j) => j,
        None => {
            assert forall|v: RoleKeysView|
                rolekeys_plain(v) && text_at(s@, i as int, ser_rolekeys(v)) implies false by {
                lemma_rolekeys_pieces(s@, i as int, v);
                assert(text_at(s@, j1 as int, ser_names(v.keyids) + "]"@));
                assert(j2 == j1 + ser_names(v.keyids).len() + 1);
            }
            return None;
        },
    };
    let num = match parse_u64(s, j3) {
        Some(p) => p,
        None => {
            assert forall|v: RoleKeysView|
                rolekeys_plain(v) && text_at(s@, i as int, ser_rolekeys(v)) implies false by {
                lemma_rolekeys_pieces(s@, i as int, v);
                assert(text_at(s@, j1 as int, ser_names(v.keyids) + "]"@));
                assert(j2 == j1 + ser_names(v.keyids).len() + 1);
                assert(text_at(s@, j3 as int, ser_nat(v.threshold as nat)));
                let o4 = j3 + ser_nat(v.threshold as nat).len();
                lemma_text_at_index(s@, o4 as int, "}"@, 0);
                assert(!is_digit_char('}'));
                assert(num_boundary(s@, o4 as int));
            }
            return None;
        },
    };
    let (threshold, j4) = num;
    let j5 = match expect_lit(s, j4, "}") {
        Some(j) => j,
        None => {
            assert forall|v: RoleKeysView|
                rolekeys_plain(v) && text_at(s@, i as int, ser_rolekeys(v)) implies false by {
                lemma_rolekeys_pieces(s@, i as int, v);
                assert(text_at(s@, j1 as int, ser_names(v.keyids) + "]"@));
                assert(j2 == j1 + ser_names(v.keyids).len() + 1);
                assert(text_at(s@, j3 as int, ser_nat(v.threshold as nat)));
                let o4 = j3 + ser_nat(v.threshold as nat).len();
                lemma_text_at_index(s@, o4 as int, "}"@, 0);
                assert(!is_digit_char('}'));
                assert(num_boundary(s@, o4 as int));
                assert(j4 == o4);
            }
            return None;
        },
    };
    let result = RoleKeys { keyids, threshold };
    proof {
        lemma_join(s@, i as int, j1 as int, j2 as int);
        lemma_join(s@, i as int, j2 as int, j3 as int);
        lemma_join(s@, i as int, j3 as int, j4 as int);
        lemma_join(s@, i as int, j4 as int, j5 as int);
        assert(result@.keyids == name_views(keyids@));
        assert(s@.subrange(i as int, j5 as int) =~= ser_rolekeys(result@));
    }
    assert forall|v: RoleKeysView|
        rolekeys_plain(v) && text_at(s@, i as int, ser_rolekeys(v)) implies (result@ == v && j5 == i
        + ser_rolekeys(v).len()) by {
        lemma_rolekeys_pieces(s@, i as int, v);
        assert(text_at(s@, j1 as int, ser_names(v.keyids) + "]"@));
        assert(name_views(keyids@) == v.keyids);
        assert(j2 == j1 + ser_names(v.keyids).len() + 1);
        assert(text_at(s@, j3 as int, ser_nat(v.threshold as nat)));
        let o4 = j3 + ser_nat(v.threshold as nat).len();
        lemma_text_at_index(s@, o4 as int, "}"@, 0);
        assert(!is_digit_char('}'));
        assert(num_boundary(s@, o4 as int));
        assert(threshold == v.threshold);
        assert(result@ =~= v);
    }
    Some((result, j5))
}

/// Parses one canonical role-table entry — a name, a colon, the role's
/// keys — at position `i`.
fn parse_role_entry(s: &str, i: usize) -> (r: Option<((String, RoleKeys), usize)>)
    requires
        i <= s@.len(),
    ensures
        r matches Some(p) ==> {
            &&& i < p.1 <= s@.len()
            &&& plain_text(p.0.0@)
            &&& rolekeys_plain(p.0.1@)
            &&& p.1 == i + ser_role_entry((p.0.0@, p.0.1@)).len()
            &&& s@.subrange(i as int, p.1 as int) == ser_role_entry((p.0.0@, p.0.1@))
        },
        forall|e: (Seq<char>, RoleKeysView)|
            plain_text(e.0) && rolekeys_plain(e.1) && text_at(s@, i as int, ser_role_entry(e))
                ==> (r matches Some(p) && p.0.0@ == e.0 && p.0.1@ == e.1 && p.1 == i
                + ser_role_entry(e).len()),
{
    let (name, j1) = match parse_text(s, i) {
        Some(p) => p,
        None => {
            assert forall|e: (Seq<char>, RoleKeysView)|
                plain_text(e.0) && rolekeys_plain(e.1) && text_at(s@, i as int, ser_role_entry(e))
                implies false by {
                assert(ser_role_entry(e) == ser_text(e.0) + (":"@ + ser_rolekeys(e.1)));
                lemma_text_at_split(s@, i as int, ser_text(e.0), ":"@ + ser_rolekeys(e.1));
            }
            return None;
        },
    };
    let j2 = match expect_lit(s, j1, ":") {
        Some(j) => j,
        None => {
            assert forall|e: (Seq<char>, RoleKeysView)|
                plain_text(e.0) && rolekeys_plain(e.1) && text_at(s@, i as int, ser_role_entry(e))
                implies false by {
                assert(ser_role_entry(e) == ser_text(e.0) + (":"@ + ser_rolekeys(e.1)));
                lemma_text_at_split(s@, i as int, ser_text(e.0), ":"@ + ser_rolekeys(e.1));
                assert(j1 == i + ser_text(e.0).len());
                lemma_text_at_split(s@, j1 as int, ":"@, ser_rolekeys(e.1));
            }
            return None;
        },
    };
    let (rk, j3) = match parse_rolekeys(s, j2) {
        Some(p) => p,
        None => {
            assert forall|e: (Seq<char>, RoleKeysView)|
                plain_text(e.0) && rolekeys_plain(e.1) && text_at(s@, i as int, ser_role_entry(e))
                implies false by {
                assert(ser_role_entry(e) == ser_text(e.0) + (":"@ + ser_rolekeys(e.1)));
                lemma_text_at_split(s@, i as int, ser_text(e.0), ":"@ + ser_rolekeys(e.1));
                assert(j1 == i + ser_text(e.0).len());
                lemma_text_at_split(s@, j1 as int, ":"@, ser_rolekeys(e.1));
                assert(text_at(s@, j2 as int, ser_rolekeys(e.1)));
            }
            return None;
        },
    };
    proof {
        lemma_join(s@, i as int, j1 as int, j2 as int);
        lemma_join(s@, i as int, j2 as int, j3 as int);
        assert(s@.subrange(i as int, j3 as int) == ser_role_entry((name@, rk@)));
    }
    assert forall|e: (Seq<char>, RoleKeysView)|
        plain_text(e.0) && rolekeys_plain(e.1) && text_at(s@, i as int, ser_role_entry(e)) implies (
    name@ == e.0 && rk@ == e.1 && j3 == i + ser_role_entry(e).len()) by {
        assert(ser_role_entry(e) == ser_text(e.0) + (":"@ + ser_rolekeys(e.1)));
        lemma_text_at_split(s@, i as int, ser_text(e.0), ":"@ + ser_rolekeys(e.1));
        assert(j1 == i + ser_text(e.0).len());
        lemma_text_at_split(s@, j1 as int, ":"@, ser_rolekeys(e.1));
        assert(text_at(s@, j2 as int, ser_rolekeys(e.1)));
    }
    Some(((name, rk), j3))
}

/// The views of a list of role-table entries.
pub open spec fn role_entry_views(l: Seq<(String, RoleKeys)>) -> Seq<(Seq<char>, RoleKeysView)> {
    l.map_values(|e: (String, RoleKeys)| (e.0@, e.1@))
}

/// Every role-table entry has a plain name and plain key ids.
pub open spec fn roles_plain(l: Seq<(Seq<char>, RoleKeysView)>) -> bool {
    forall|k: int|
        0 <= k < l.len() ==> plain_text((#[trigger] l[k]).0) && rolekeys_plain(l[k].1)
}

/// Parses the role-table entries after the first one, up to and including
/// the closing brace.
#[verifier::rlimit(100)]
fn parse_roles_tail(s: &str, i: usize) -> (r: Option<(Vec<(String, RoleKeys)>, usize)>)
    requires
        i <= s@.len(),
    ensures
        r matches Some(p) ==> {
            &&& i < p.1 <= s@.len()
            &&& roles_plain(role_entry_views(p.0@))
            &&& p.1 == i + ser_roles_tail(role_entry_views(p.0@)).len() + 1
            &&& s@.subrange(i as int, p.1 as int) == ser_roles_tail(role_entry_views(p.0@)) + "}"@
        },
        forall|lv: Seq<(Seq<char>, RoleKeysView)>|
            roles_plain(lv) && text_at(s@, i as int, ser_roles_tail(lv) + "}"@) ==> (r matches Some(
                p,
            ) && role_entry_views(p.0@) == lv && p.1 == i + ser_roles_tail(lv).len() + 1),
    decreases s@.len() - i,
{
    proof {
        reveal_strlit(",");
        reveal_strlit("}");
    }
    if let Some(j) = expect_lit(s, i, "}") {
        let out: Vec<(String, RoleKeys)> = Vec::new();
        proof {
            assert(role_entry_views(out@) =~= Seq::<(Seq<char>, RoleKeysView)>::empty());
            assert(ser_roles_tail(role_entry_views(out@)) + "}"@ =~= "}"@);
        }
        assert forall|lv: Seq<(Seq<char>, RoleKeysView)>|
            roles_plain(lv) && text_at(s@, i as int, ser_roles_tail(lv) + "}"@) implies (
        role_entry_views(out@) == lv && j == i + ser_roles_tail(lv).len() + 1) by {
            if lv.len() != 0 {
                lemma_text_at_index(s@, i as int, ser_roles_tail(lv) + "}"@, 0);
                assert((ser_roles_tail(lv) + "}"@)[0] == ',');
                lemma_text_at_index(s@, i as int, "}"@, 0);
            }
            assert(lv =~= role_entry_views(out@));
        }
        return Some((out, j));
    }
    let j1 = match expect_lit(s, i, ",") {
        Some(j) => j,
        None => {
            assert forall|lv: Seq<(Seq<char>, RoleKeysView)>|
                roles_plain(lv) && text_at(s@, i as int, ser_roles_tail(lv) + "}"@) implies false by {
                if lv.len() == 0 {
                    assert(ser_roles_tail(lv) + "}"@ =~= "}"@);
                } else {
                    assert(ser_roles_tail(lv) + "}"@ =~= ","@ + (ser_role_entry(lv[0]) + (
                    ser_roles_tail(lv.skip(1)) + "}"@)));
                    lemma_text_at_split(
                        s@,
                        i as int,
                        ","@,
                        ser_role_entry(lv[0]) + (ser_roles_tail(lv.skip(1)) + "}"@),
                    );
                }
            }
            return None;
        },
    };
    let (elem0, j2) = match parse_role_entry(s, j1) {
        Some(p) => p,
        None => {
            assert forall|lv: Seq<(Seq<char>, RoleKeysView)>|
                roles_plain(lv) && text_at(s@, i as int, ser_roles_tail(lv) + "}"@) implies false by {
                if lv.len() == 0 {
                    assert(ser_roles_tail(lv) + "}"@ =~= "}"@);
                    lemma_text_at_index(s@, i as int, "}"@, 0);
                    lemma_text_at_index(s@, i as int, ","@, 0);
                } else {
                    assert(ser_roles_tail(lv) + "}"@ =~= ","@ + (ser_role_entry(lv[0]) + (
                    ser_roles_tail(lv.skip(1)) + "}"@)));
                    lemma_text_at_split(
                        s@,
                        i as int,
                        ","@,
                        ser_role_entry(lv[0]) + (ser_roles_tail(lv.skip(1)) + "}"@),
                    );
                    lemma_text_at_split(
                        s@,
                        i + ","@.len(),
                        ser_role_entry(lv[0]),
                        ser_roles_tail(lv.skip(1)) + "}"@,
                    );
                    assert(text_at(s@, j1 as int, ser_role_entry(lv[0])));
                    assert(plain_text(lv[0].0) && rolekeys_plain(lv[0].1));
                }
            }
            return None;
        },
    };
    let tail = match parse_roles_tail(s, j2) {
        Some(p) => p,
        None => {
            assert forall|lv: Seq<(Seq<char>, RoleKeysView)>|
                roles_plain(lv) && text_at(s@, i as int, ser_roles_tail(lv) + "}"@) implies false by {
                if lv.len() == 0 {
                    assert(ser_roles_tail(lv) + "}"@ =~= "}"@);
                    lemma_text_at_index(s@, i as int, "}"@, 0);
                    lemma_text_at_index(s@, i as int, ","@, 0);
                } else {
                    assert(ser_roles_tail(lv) + "}"@ =~= ","@ + (ser_role_entry(lv[0]) + (
                    ser_roles_tail(lv.skip(1)) + "}"@)));
                    lemma_text_at_split(
                        s@,
                        i as int,
                        ","@,
                        ser_role_entry(lv[0]) + (ser_roles_tail(lv.skip(1)) + "}"@),
                    );
                    lemma_text_at_split(
                        s@,
                        i + ","@.len(),
                        ser_role_entry(lv[0]),
                        ser_roles_tail(lv.skip(1)) + "}"@,
                    );
                    assert(text_at(s@, j1 as int, ser_role_entry(lv[0])));
                    assert(plain_text(lv[0].0) && rolekeys_plain(lv[0].1));
                    assert(elem0.0@ == lv[0].0 && elem0.1@ == lv[0].1);
                    assert(j2 == j1 + ser_role_entry(lv[0]).len());
                    assert(roles_plain(lv.skip(1))) by {
                        assert(forall|k: int|
                            0 <= k < lv.skip(1).len() ==> #[trigger] lv.skip(1)[k] == lv[k + 1]);
                    }
                    assert(text_at(s@, j2 as int, ser_roles_tail(lv.skip(1)) + "}"@));
                }
            }
            return None;
        },
    };
    let (mut rest, j3) = tail;
    let ghost pre = rest@;
    rest.insert(0, elem0);
    proof {
        assert(rest@ =~= seq![elem0] + pre);
        assert(role_entry_views(rest@)[0] == (elem0.0@, elem0.1@));
        assert(role_entry_views(rest@).skip(1) =~= role_entry_views(pre));
        assert(ser_role_entry(role_entry_views(rest@)[0]) == ser_role_entry((elem0.0@, elem0.1@)));
        assert(ser_roles_tail(role_entry_views(rest@)) == ","@ + ser_role_entry((elem0.0@, elem0.1@))
            + ser_roles_tail(role_entry_views(pre)));
        lemma_join(s@, i as int, j1 as int, j2 as int);
        lemma_join(s@, i as int, j2 as int, j3 as int);
        assert(s@.subrange(i as int, j3 as int) =~= ser_roles_tail(role_entry_views(rest@)) + "}"@);
        assert forall|k: int|
            0 <= k < role_entry_views(rest@).len() implies plain_text(
            (#[trigger] role_entry_views(rest@)[k]).0,
        ) && rolekeys_plain(role_entry_views(rest@)[k].1) by {
            if k > 0 {
                assert(role_entry_views(rest@)[k] == role_entry_views(rest@).skip(1)[k - 1]);
            }
        }
        assert(roles_plain(role_entry_views(rest@)));
    }
    assert forall|lv: Seq<(Seq<char>, RoleKeysView)>|
        roles_plain(lv) && text_at(s@, i as int, ser_roles_tail(lv) + "}"@) implies (role_entry_views(
        rest@,
    ) == lv && j3 == i + ser_roles_tail(lv).len() + 1) by {
        if lv.len() == 0 {
            assert(ser_roles_tail(lv) + "}"@ =~= "}"@);
            lemma_text_at_index(s@, i as int, "}"@, 0);
            lemma_text_at_index(s@, i as int, ","@, 0);
        } else {
            assert(ser_roles_tail(lv) + "}"@ =~= ","@ + (ser_role_entry(lv[0]) + (ser_roles_tail(
                lv.skip(1),
            ) + "}"@)));
            lemma_text_at_split(
                s@,
                i as int,
                ","@,
                ser_role_entry(lv[0]) + (ser_roles_tail(lv.skip(1)) + "}"@),
            );
            lemma_text_at_split(
                s@,
                i + ","@.len(),
                ser_role_entry(lv[0]),
                ser_roles_tail(lv.skip(1)) + "}"@,
            );
            assert(text_at(s@, j1 as int, ser_role_entry(lv[0])));
            assert(plain_text(lv[0].0) && rolekeys_plain(lv[0].1));
            assert(elem0.0@ == lv[0].0 && elem0.1@ == lv[0].1);
            assert(j2 == j1 + ser_role_entry(lv[0]).len());
            assert(roles_plain(lv.skip(1))) by {
                assert(forall|k: int|
                    0 <= k < lv.skip(1).len() ==> #[trigger] lv.skip(1)[k] == lv[k + 1]);
            }
            assert(text_at(s@, j2 as int, ser_roles_tail(lv.skip(1)) + "}"@));
            assert(role_entry_views(pre) == lv.skip(1));
            assert(role_entry_views(rest@).len() == lv.len());
            assert forall|k: int| 0 <= k < lv.len() implies role_entry_views(rest@)[k] == lv[k] by {
                if k == 0 {
                    assert(role_entry_views(rest@)[0] == (elem0.0@, elem0.1@));
                    assert(lv[0] == (lv[0].0, lv[0].1));
                } else {
                    assert(role_entry_views(rest@)[k] == role_entry_views(rest@).skip(1)[k - 1]);
                    assert(lv[k] == lv.skip(1)[k - 1]);
                }
            }
            assert(role_entry_views(rest@) =~= lv);
        }
    }
    Some((rest, j3))
}

/// Parses a whole role table at position `i`, up to and including the
/// closing brace.
#[verifier::rlimit(100)]
fn parse_roles_table(s: &str, i: usize) -> (r: Option<(Vec<(String, RoleKeys)>, usize)>)
    requires
        i <= s@.len(),
    ensures
        r matches Some(p) ==> {
            &&& i < p.1 <= s@.len()
            &&& roles_plain(role_entry_views(p.0@))
            &&& p.1 == i + ser_roles(role_entry_views(p.0@)).len() + 1
            &&& s@.subrange(i as int, p.1 as int) == ser_roles(role_entry_views(p.0@)) + "}"@
        },
        forall|lv: Seq<(Seq<char>, RoleKeysView)>|
            roles_plain(lv) && text_at(s@, i as int, ser_roles(lv) + "}"@) ==> (r matches Some(p)
                && role_entry_views(p.0@) == lv && p.1 == i + ser_roles(lv).len() + 1),
{
    proof {
        reveal_strlit("}");
    }
    if let Some(j) = expect_lit(s, i, "}") {
        let out: Vec<(String, RoleKeys)> = Vec::new();
        proof {
            assert(role_entry_views(out@) =~= Seq::<(Seq<char>, RoleKeysView)>::empty());
            assert(ser_roles(role_entry_views(out@)) + "}"@ =~= "}"@);
        }
        assert forall|lv: Seq<(Seq<char>, RoleKeysView)>|
            roles_plain(lv) && text_at(s@, i as int, ser_roles(lv) + "}"@) implies (role_entry_views(
            out@,
        ) == lv && j == i + ser_roles(lv).len() + 1) by {
            if lv.len() != 0 {
                lemma_text_at_index(s@, i as int, ser_roles(lv) + "}"@, 0);
                assert(ser_role_entry(lv[0])[0] == '"');
                assert((ser_roles(lv) + "}"@)[0] == '"');
                lemma_text_at_index(s@, i as int, "}"@, 0);
            }
            assert(lv =~= role_entry_views(out@));
        }
        return Some((out, j));
    }
    let (elem0, j1) = match parse_role_entry(s, i) {
        Some(p) => p,
        None => {
            assert forall|lv: Seq<(Seq<char>, RoleKeysView)>|
                roles_plain(lv) && text_at(s@, i as int, ser_roles(lv) + "}"@) implies false by {
                if lv.len() == 0 {
                    assert(ser_roles(lv) + "}"@ =~= "}"@);
                } else {
                    assert(ser_roles(lv) + "}"@ =~= ser_role_entry(lv[0]) + (ser_roles_tail(
                        lv.skip(1),
                    ) + "}"@));
                    lemma_text_at_split(
                        s@,
                        i as int,
                        ser_role_entry(lv[0]),
                        ser_roles_tail(lv.skip(1)) + "}"@,
                    );
                    assert(plain_text(lv[0].0) && rolekeys_plain(lv[0].1));
                }
            }
            return None;
        },
    };
    let tail = match parse_roles_tail(s, j1) {
        Some(p) => p,
        None => {
            assert forall|lv: Seq<(Seq<char>, RoleKeysView)>|
                roles_plain(lv) && text_at(s@, i as int, ser_roles(lv) + "}"@) implies false by {
                if lv.len() == 0 {
                    assert(ser_roles(lv) + "}"@ =~= "}"@);
                    lemma_text_at_index(s@, i as int, "}"@, 0);
                    assert(s@.subrange(i as int, j1 as int) == ser_role_entry(
                        (elem0.0@, elem0.1@),
                    ));
                    lemma_text_at_index(s@, i as int, ser_role_entry((elem0.0@, elem0.1@)), 0);
                    assert(ser_role_entry((elem0.0@, elem0.1@))[0] == '"');
                } else {
                    assert(ser_roles(lv) + "}"@ =~= ser_role_entry(lv[0]) + (ser_roles_tail(
                        lv.skip(1),
                    ) + "}"@));
                    lemma_text_at_split(
                        s@,
                        i as int,
                        ser_role_entry(lv[0]),
                        ser_roles_tail(lv.skip(1)) + "}"@,
                    );
                    assert(plain_text(lv[0].0) && rolekeys_plain(lv[0].1));
                    assert(j1 == i + ser_role_entry(lv[0]).len());
                    assert(roles_plain(lv.skip(1))) by {
                        assert(forall|k: int|
                            0 <= k < lv.skip(1).len() ==> #[trigger] lv.skip(1)[k] == lv[k + 1]);
                    }
                    assert(text_at(s@, j1 as int, ser_roles_tail(lv.skip(1)) + "}"@));
                }
            }
            return None;
        },
    };
    let (mut rest, j2) = tail;
    let ghost pre = rest@;
    rest.insert(0, elem0);
    proof {
        assert(rest@ =~= seq![elem0] + pre);
        assert(role_entry_views(rest@)[0] == (elem0.0@, elem0.1@));
        assert(role_entry_views(rest@).skip(1) =~= role_entry_views(pre));
        assert(ser_roles(role_entry_views(rest@)) == ser_role_entry((elem0.0@, elem0.1@))
            + ser_roles_tail(role_entry_views(pre)));
        lemma_join(s@, i as int, j1 as int, j2 as int);
        assert(s@.subrange(i as int, j2 as int) =~= ser_roles(role_entry_views(rest@)) + "}"@);
        assert forall|k: int|
            0 <= k < role_entry_views(rest@).len() implies plain_text(
            (#[trigger] role_entry_views(rest@)[k]).0,
        ) && rolekeys_plain(role_entry_views(rest@)[k].1) by {
            if k > 0 {
                assert(role_entry_views(rest@)[k] == role_entry_views(rest@).skip(1)[k - 1]);
            }
        }
        assert(roles_plain(role_entry_views(rest@)));
    }
    assert forall|lv: Seq<(Seq<char>, RoleKeysView)>|
        roles_plain(lv) && text_at(s@, i as int, ser_roles(lv) + "}"@) implies (role_entry_views(rest@)
        == lv && j2 == i + ser_roles(lv).len() + 1) by {
        if lv.len() == 0 {
            assert(ser_roles(lv) + "}"@ =~= "}"@);
            lemma_text_at_index(s@, i as int, "}"@, 0);
            assert(s@.subrange(i as int, j1 as int) == ser_role_entry((elem0.0@, elem0.1@)));
            lemma_text_at_index(s@, i as int, ser_role_entry((elem0.0@, elem0.1@)), 0);
            assert(ser_role_entry((elem0.0@, elem0.1@))[0] == '"');
        } else {
            assert(ser_roles(lv) + "}"@ =~= ser_role_entry(lv[0]) + (ser_roles_tail(lv.skip(1))
                + "}"@));
            lemma_text_at_split(
                s@,
                i as int,
                ser_role_entry(lv[0]),
                ser_roles_tail(lv.skip(1)) + "}"@,
            );
            assert(plain_text(lv[0].0) && rolekeys_plain(lv[0].1));
            assert(elem0.0@ == lv[0].0 && elem0.1@ == lv[0].1);
            assert(j1 == i + ser_role_entry(lv[0]).len());
            assert(roles_plain(lv.skip(1))) by {
                assert(forall|k: int|
                    0 <= k < lv.skip(1).len() ==> #[trigger] lv.skip(1)[k] == lv[k + 1]);
            }
            assert(text_at(s@, j1 as int, ser_roles_tail(lv.skip(1)) + "}"@));
            assert(role_entry_views(pre) == lv.skip(1));
            assert(role_entry_views(rest@).len() == lv.len());
            assert forall|k: int| 0 <= k < lv.len() implies role_entry_views(rest@)[k] == lv[k] by {
                if k == 0 {
                    assert(role_entry_views(rest@)[0] == (elem0.0@, elem0.1@));
                    assert(lv[0] == (lv[0].0, lv[0].1));
                } else {
                    assert(role_entry_views(rest@)[k] == role_entry_views(rest@).skip(1)[k - 1]);
                    assert(lv[k] == lv.skip(1)[k - 1]);
                }
            }
            assert(role_entry_views(rest@) =~= lv);
        }
    }
    Some((rest, j2))
}

/// The signed portion is plain throughout.
pub open spec fn signed_plain(sd: SignedView) -> bool {
    &&& keys_plain(sd.keys)
    &&& plain_text(sd.namespace)
    &&& roles_plain(sd.roles)
    &&& plain_text(sd.spec_version)
}

/// The leading fragment of the signed rendering: snapshot flag and expiry.
pub open spec fn ser_sig_head(cs: bool, ex: u64) -> Seq<char> {
    "{\"consistent_snapshot\":"@ + ser_bool(cs) + ",\"expires\":"@ + ser_nat(ex as nat) + ",\"keys\":{"@
}

/// The middle fragment of the signed rendering: key table and namespace.
pub open spec fn ser_sig_mid(keys: Seq<(Seq<char>, KeyView)>, ns: Seq<char>) -> Seq<char> {
    (ser_keys(keys) + "}"@) + ",\"namespace\":"@ + ser_text(ns) + ",\"roles\":{"@
}

/// The trailing fragment of the signed rendering: role table, format and
/// document versions.
pub open spec fn ser_sig_last(roles: Seq<(Seq<char>, RoleKeysView)>, sv: Seq<char>, ver: u64) -> Seq<char> {
    (ser_roles(roles) + "}"@) + ",\"spec_version\":"@ + ser_text(sv) + ",\"version\":"@ + ser_nat(ver as nat) + "}"@
}

/// The signed rendering is its three fragments in order.
proof fn lemma_signed_frags(v: SignedView)
    ensures
        ser_signed(v) == ser_sig_head(v.consistent_snapshot, v.expires) + ser_sig_mid(
            v.keys,
            v.namespace,
        ) + ser_sig_last(v.roles, v.spec_version, v.version),
{
    assert(ser_signed(v) =~= ser_sig_head(v.consistent_snapshot, v.expires) + ser_sig_mid(
        v.keys,
        v.namespace,
    ) + ser_sig_last(v.roles, v.spec_version, v.version));
}

/// The canonical pieces of the head fragment, each at its offset.
proof fn lemma_sig_head_pieces(s: Seq<char>, i: int, cs: bool, ex: u64)
    requires
        text_at(s, i, ser_sig_head(cs, ex)),
    ensures
        text_at(s, i, "{\"consistent_snapshot\":"@),
        text_at(s, i + "{\"consistent_snapshot\":"@.len(), ser_bool(cs)),
        text_at(s, i + "{\"consistent_snapshot\":"@.len() + ser_bool(cs).len(), ",\"expires\":"@),
        text_at(s, i + "{\"consistent_snapshot\":"@.len() + ser_bool(cs).len() + ",\"expires\":"@.len(), ser_nat(ex as nat)),
        text_at(s, i + "{\"consistent_snapshot\":"@.len() + ser_bool(cs).len() + ",\"expires\":"@.len() + ser_nat(ex as nat).len(), ",\"keys\":{"@),
{
    assert(ser_sig_head(cs, ex) =~= "{\"consistent_snapshot\":"@ + ser_bool(cs) + ",\"expires\":"@ + ser_nat(ex as nat) + ",\"keys\":{"@);
    assert(text_at(s, i, "{\"consistent_snapshot\":"@ + ser_bool(cs) + ",\"expires\":"@ + ser_nat(ex as nat) + ",\"keys\":{"@));
    lemma_text_at_split(s, i, "{\"consistent_snapshot\":"@ + ser_bool(cs) + ",\"expires\":"@ + ser_nat(ex as nat), ",\"keys\":{"@);
    lemma_text_at_split(s, i, "{\"consistent_snapshot\":"@ + ser_bool(cs) + ",\"expires\":"@, ser_nat(ex as nat));
    lemma_text_at_split(s, i, "{\"consistent_snapshot\":"@ + ser_bool(cs), ",\"expires\":"@);
    lemma_text_at_split(s, i, "{\"consistent_snapshot\":"@, ser_bool(cs));
}

/// Parses the head fragment of the signed portion at position `i`.
fn parse_sig_head(s: &str, i: usize) -> (r: Option<(bool, u64, usize)>)
    requires
        i <= s@.len(),
    ensures
        r matches Some(p) ==> {
            &&& i < p.2 <= s@.len()
            &&& p.2 == i + ser_sig_head(p.0, p.1).len()
            &&& s@.subrange(i as int, p.2 as int) == ser_sig_head(p.0, p.1)
        },
        forall|csv: bool, exv: u64|
            text_at(s@, i as int, ser_sig_head(csv, exv)) ==> (r matches Some(p) && p.0 == csv && p.1 == exv && p.2 == i + ser_sig_head(csv, exv).len()),
{
    let j1 = match expect_lit(s, i, "{\"consistent_snapshot\":") {
        Some(j) => j,
        None => {
            assert forall|csv: bool, exv: u64|
                text_at(s@, i as int, ser_sig_head(csv, exv)) implies false by {
                lemma_sig_head_pieces(s@, i as int, csv, exv);
            }
            return None;
        },
    };
    let (cs, j2) = match parse_bool(s, j1) {
        Some(p) => p,
        None => {
            assert forall|csv: bool, exv: u64|
                text_at(s@, i as int, ser_sig_head(csv, exv)) implies false by {
                lemma_sig_head_pieces(s@, i as int, csv, exv);
                assert(text_at(s@, j1 as int, ser_bool(csv)));
            }
            return None;
        },
    };
    let j3 = match expect_lit(s, j2, ",\"expires\":") {
        Some(j) => j,
        None => {
            assert forall|csv: bool, exv: u64|
                text_at(s@, i as int, ser_sig_head(csv, exv)) implies false by {
                lemma_sig_head_pieces(s@, i as int, csv, exv);
                assert(text_at(s@, j1 as int, ser_bool(csv)));
                assert(j2 == j1 + ser_bool(csv).len());
            }
            return None;
        },
    };
    let (ex, j4) = match parse_u64(s, j3) {
        Some(p) => p,
        None => {
            assert forall|csv: bool, exv: u64|
                text_at(s@, i as int, ser_sig_head(csv, exv)) implies false by {
                lemma_sig_head_pieces(s@, i as int, csv, exv);
                assert(text_at(s@, j1 as int, ser_bool(csv)));
                assert(j2 == j1 + ser_bool(csv).len());
                reveal_strlit(",\"keys\":{");
                assert(text_at(s@, j3 as int, ser_nat(exv as nat)));
                lemma_text_at_index(s@, j3 + ser_nat(exv as nat).len(), ",\"keys\":{"@, 0);
                assert(!is_digit_char(','));
                assert(num_boundary(s@, j3 + ser_nat(exv as nat).len()));
            }
            return None;
        },
    };
    let j5 = match expect_lit(s, j4, ",\"keys\":{") {
        Some(j) => j,
        None => {
            assert forall|csv: bool, exv: u64|
                text_at(s@, i as int, ser_sig_head(csv, exv)) implies false by {
                lemma_sig_head_pieces(s@, i as int, csv, exv);
                assert(text_at(s@, j1 as int, ser_bool(csv)));
                assert(j2 == j1 + ser_bool(csv).len());
                reveal_strlit(",\"keys\":{");
                assert(text_at(s@, j3 as int, ser_nat(exv as nat)));
                lemma_text_at_index(s@, j3 + ser_nat(exv as nat).len(), ",\"keys\":{"@, 0);
                assert(!is_digit_char(','));
                assert(num_boundary(s@, j3 + ser_nat(exv as nat).len()));
                assert(ex == exv && j4 == j3 + ser_nat(exv as nat).len());
            }
            return None;
        },
    };
    proof {
        lemma_join(s@, i as int, j1 as int, j2 as int);
        lemma_join(s@, i as int, j2 as int, j3 as int);
        lemma_join(s@, i as int, j3 as int, j4 as int);
        lemma_join(s@, i as int, j4 as int, j5 as int);
        assert(s@.subrange(i as int, j5 as int) =~= ser_sig_head(cs, ex));
    }
    assert forall|csv: bool, exv: u64|
        text_at(s@, i as int, ser_sig_head(csv, exv)) implies (cs == csv && ex == exv && j5 == i + ser_sig_head(csv, exv).len()) by {
        lemma_sig_head_pieces(s@, i as int, csv, exv);
        assert(text_at(s@, j1 as int, ser_bool(csv)));
        assert(j2 == j1 + ser_bool(csv).len());
        reveal_strlit(",\"keys\":{");
        assert(text_at(s@, j3 as int, ser_nat(exv as nat)));
        lemma_text_at_index(s@, j3 + ser_nat(exv as nat).len(), ",\"keys\":{"@, 0);
        assert(!is_digit_char(','));
        assert(num_boundary(s@, j3 + ser_nat(exv as nat).len()));
        assert(ex == exv && j4 == j3 + ser_nat(exv as nat).len());
    }
    Some((cs, ex, j5))
}

/// The canonical pieces of the middle fragment, each at its offset.
proof fn lemma_sig_mid_pieces(s: Seq<char>, i: int, keys: Seq<(Seq<char>, KeyView)>, ns: Seq<char>)
    requires
        text_at(s, i, ser_sig_mid(keys, ns)),
    ensures
        text_at(s, i, (ser_keys(keys) + "}"@)),
        text_at(s, i + (ser_keys(keys) + "}"@).len(), ",\"namespace\":"@),
        text_at(s, i + (ser_keys(keys) + "}"@).len() + ",\"namespace\":"@.len(), ser_text(ns)),
        text_at(s, i + (ser_keys(keys) + "}"@).len() + ",\"namespace\":"@.len() + ser_text(ns).len(), ",\"roles\":{"@),
{
    assert(ser_sig_mid(keys, ns) =~= (ser_keys(keys) + "}"@) + ",\"namespace\":"@ + ser_text(ns) + ",\"roles\":{"@);
    assert(text_at(s, i, (ser_keys(keys) + "}"@) + ",\"namespace\":"@ + ser_text(ns) + ",\"roles\":{"@));
    lemma_text_at_split(s, i, (ser_keys(keys) + "}"@) + ",\"namespace\":"@ + ser_text(ns), ",\"roles\":{"@);
    lemma_text_at_split(s, i, (ser_keys(keys) + "}"@) + ",\"namespace\":"@, ser_text(ns));
    lemma_text_at_split(s, i, (ser_keys(keys) + "}"@), ",\"namespace\":"@);
}

/// Parses the middle fragment of the signed portion at position `i`.
fn parse_sig_mid(s: &str, i: usize) -> (r: Option<(Vec<(String, Key)>, String, usize)>)
    requires
        i <= s@.len(),
    ensures
        r matches Some(p) ==> {
            &&& i < p.2 <= s@.len()
            &&& keys_plain(key_entry_views(p.0@))
            &&& plain_text(p.1@)
            &&& p.2 == i + ser_sig_mid(key_entry_views(p.0@), p.1@).len()
            &&& s@.subrange(i as int, p.2 as int) == ser_sig_mid(key_entry_views(p.0@), p.1@)
        },
        forall|keysv: Seq<(Seq<char>, KeyView)>, nsv: Seq<char>|
            keys_plain(keysv) && plain_text(nsv) && text_at(s@, i as int, ser_sig_mid(keysv, nsv)) ==> (r matches Some(p) && key_entry_views(p.0@) == keysv && p.1@ == nsv && p.2 == i + ser_sig_mid(keysv, nsv).len()),
{
    let (keys, j1) = match parse_keys_table(s, i) {
        Some(p) => p,
        None => {
            assert forall|keysv: Seq<(Seq<char>, KeyView)>, nsv: Seq<char>|
                keys_plain(keysv) && plain_text(nsv) && text_at(s@, i as int, ser_sig_mid(keysv, nsv)) implies false by {
                lemma_sig_mid_pieces(s@, i as int, keysv, nsv);
                assert(keys_plain(keysv));
                assert(text_at(s@, i as int, ser_keys(keysv) + "}"@));
            }
            return None;
        },
    };
    let j2 = match expect_lit(s, j1, ",\"namespace\":") {
        Some(j) => j,
        None => {
            assert forall|keysv: Seq<(Seq<char>, KeyView)>, nsv: Seq<char>|
                keys_plain(keysv) && plain_text(nsv) && text_at(s@, i as int, ser_sig_mid(keysv, nsv)) implies false by {
                lemma_sig_mid_pieces(s@, i as int, keysv, nsv);
                assert(keys_plain(keysv));
                assert(text_at(s@, i as int, ser_keys(keysv) + "}"@));
                assert(key_entry_views(keys@) == keysv && j1 == i + ser_keys(keysv).len() + 1);
            }
            return None;
        },
    };
    let (ns, j3) = match parse_text(s, j2) {
        Some(p) => p,
        None => {
            assert forall|keysv: Seq<(Seq<char>, KeyView)>, nsv: Seq<char>|
                keys_plain(keysv) && plain_text(nsv) && text_at(s@, i as int, ser_sig_mid(keysv, nsv)) implies false by {
                lemma_sig_mid_pieces(s@, i as int, keysv, nsv);
                assert(keys_plain(keysv));
                assert(text_at(s@, i as int, ser_keys(keysv) + "}"@));
                assert(key_entry_views(keys@) == keysv && j1 == i + ser_keys(keysv).len() + 1);
                assert(plain_text(nsv));
                assert(text_at(s@, j2 as int, ser_text(nsv)));
            }
            return None;
        },
    };
    let j4 = match expect_lit(s, j3, ",\"roles\":{") {
        Some(j) => j,
        None => {
            assert forall|keysv: Seq<(Seq<char>, KeyView)>, nsv: Seq<char>|
                keys_plain(keysv) && plain_text(nsv) && text_at(s@, i as int, ser_sig_mid(keysv, nsv)) implies false by {
                lemma_sig_mid_pieces(s@, i as int, keysv, nsv);
                assert(keys_plain(keysv));
                assert(text_at(s@, i as int, ser_keys(keysv) + "}"@));
                assert(key_entry_views(keys@) == keysv && j1 == i + ser_keys(keysv).len() + 1);
                assert(plain_text(nsv));
                assert(text_at(s@, j2 as int, ser_text(nsv)));
                assert(ns@ == nsv && j3 == j2 + ser_text(nsv).len());
            }
            return None;
        },
    };
    proof {
        lemma_join(s@, i as int, j1 as int, j2 as int);
        lemma_join(s@, i as int, j2 as int, j3 as int);
        lemma_join(s@, i as int, j3 as int, j4 as int);
        assert(s@.subrange(i as int, j4 as int) =~= ser_sig_mid(key_entry_views(keys@), ns@));
    }
    assert forall|keysv: Seq<(Seq<char>, KeyView)>, nsv: Seq<char>|
        keys_plain(keysv) && plain_text(nsv) && text_at(s@, i as int, ser_sig_mid(keysv, nsv)) implies (key_entry_views(keys@) == keysv && ns@ == nsv && j4 == i + ser_sig_mid(keysv, nsv).len()) by {
        lemma_sig_mid_pieces(s@, i as int, keysv, nsv);
        assert(keys_plain(keysv));
        assert(text_at(s@, i as int, ser_keys(keysv) + "}"@));
        assert(key_entry_views(keys@) == keysv && j1 == i + ser_keys(keysv).len() + 1);
        assert(plain_text(nsv));
        assert(text_at(s@, j2 as int, ser_text(nsv)));
        assert(ns@ == nsv && j3 == j2 + ser_text(nsv).len());
    }
    Some((keys, ns, j4))
}

/// The canonical pieces of the trailing fragment, each at its offset.
proof fn lemma_sig_last_pieces(s: Seq<char>, i: int, roles: Seq<(Seq<char>, RoleKeysView)>, sv: Seq<char>, ver: u64)
    requires
        text_at(s, i, ser_sig_last(roles, sv, ver)),
    ensures
        text_at(s, i, (ser_roles(roles) + "}"@)),
        text_at(s, i + (ser_roles(roles) + "}"@).len(), ",\"spec_version\":"@),
        text_at(s, i + (ser_roles(roles) + "}"@).len() + ",\"spec_version\":"@.len(), ser_text(sv)),
        text_at(s, i + (ser_roles(roles) + "}"@).len() + ",\"spec_version\":"@.len() + ser_text(sv).len(), ",\"version\":"@),
        text_at(s, i + (ser_roles(roles) + "}"@).len() + ",\"spec_version\":"@.len() + ser_text(sv).len() + ",\"version\":"@.len(), ser_nat(ver as nat)),
        text_at(s, i + (ser_roles(roles) + "}"@).len() + ",\"spec_version\":"@.len() + ser_text(sv).len() + ",\"version\":"@.len() + ser_nat(ver as nat).len(), "}"@),
{
    assert(ser_sig_last(roles, sv, ver) =~= (ser_roles(roles) + "}"@) + ",\"spec_version\":"@ + ser_text(sv) + ",\"version\":"@ + ser_nat(ver as nat) + "}"@);
    assert(text_at(s, i, (ser_roles(roles) + "}"@) + ",\"spec_version\":"@ + ser_text(sv) + ",\"version\":"@ + ser_nat(ver as nat) + "}"@));
    lemma_text_at_split(s, i, (ser_roles(roles) + "}"@) + ",\"spec_version\":"@ + ser_text(sv) + ",\"version\":"@ + ser_nat(ver as nat), "}"@);
    lemma_text_at_split(s, i, (ser_roles(roles) + "}"@) + ",\"spec_version\":"@ + ser_text(sv) + ",\"version\":"@, ser_nat(ver as nat));
    lemma_text_at_split(s, i, (ser_roles(roles) + "}"@) + ",\"spec_version\":"@ + ser_text(sv), ",\"version\":"@);
    lemma_text_at_split(s, i, (ser_roles(roles) + "}"@) + ",\"spec_version\":"@, ser_text(sv));
    lemma_text_at_split(s, i, (ser_roles(roles) + "}"@), ",\"spec_version\":"@);
}

/// Parses the trailing fragment of the signed portion at position `i`.
#[verifier::rlimit(100)]
fn parse_sig_last(s: &str, i: usize) -> (r: Option<(Vec<(String, RoleKeys)>, String, u64, usize)>)
    requires
        i <= s@.len(),
    ensures
        r matches Some(p) ==> {
            &&& i < p.3 <= s@.len()
            &&& roles_plain(role_entry_views(p.0@))
            &&& plain_text(p.1@)
            &&& p.3 == i + ser_sig_last(role_entry_views(p.0@), p.1@, p.2).len()
            &&& s@.subrange(i as int, p.3 as int) == ser_sig_last(role_entry_views(p.0@), p.1@, p.2)
        },
        forall|rolesv: Seq<(Seq<char>, RoleKeysView)>, svv: Seq<char>, verv: u64|
            roles_plain(rolesv) && plain_text(svv) && text_at(s@, i as int, ser_sig_last(rolesv, svv, verv)) ==> (r matches Some(p) && role_entry_views(p.0@) == rolesv && p.1@ == svv && p.2 == verv && p.3 == i + ser_sig_last(rolesv, svv, verv).len()),
{
    let (roles, j1) = match parse_roles_table(s, i) {
        Some(p) => p,
        None => {
            assert forall|rolesv: Seq<(Seq<char>, RoleKeysView)>, svv: Seq<char>, verv: u64|
                roles_plain(rolesv) && plain_text(svv) && text_at(s@, i as int, ser_sig_last(rolesv, svv, verv)) implies false by {
                lemma_sig_last_pieces(s@, i as int, rolesv, svv, verv);
                assert(roles_plain(rolesv));
                assert(text_at(s@, i as int, ser_roles(rolesv) + "}"@));
            }
            return None;
        },
    };
    let j2 = match expect_lit(s, j1, ",\"spec_version\":") {
        Some(j) => j,
        None => {
            assert forall|rolesv: Seq<(Seq<char>, RoleKeysView)>, svv: Seq<char>, verv: u64|
                roles_plain(rolesv) && plain_text(svv) && text_at(s@, i as int, ser_sig_last(rolesv, svv, verv)) implies false by {
                lemma_sig_last_pieces(s@, i as int, rolesv, svv, verv);
                assert(roles_plain(rolesv));
                assert(text_at(s@, i as int, ser_roles(rolesv) + "}"@));
                assert(role_entry_views(roles@) == rolesv && j1 == i + ser_roles(rolesv).len() + 1);
            }
            return None;
        },
    };
    let (sv, j3) = match parse_text(s, j2) {
        Some(p) => p,
        None => {
            assert forall|rolesv: Seq<(Seq<char>, RoleKeysView)>, svv: Seq<char>, verv: u64|
                roles_plain(rolesv) && plain_text(svv) && text_at(s@, i as int, ser_sig_last(rolesv, svv, verv)) implies false by {
                lemma_sig_last_pieces(s@, i as int, rolesv, svv, verv);
                assert(roles_plain(rolesv));
                assert(text_at(s@, i as int, ser_roles(rolesv) + "}"@));
                assert(role_entry_views(roles@) == rolesv && j1 == i + ser_roles(rolesv).len() + 1);
                assert(plain_text(svv));
                assert(text_at(s@, j2 as int, ser_text(svv)));
            }
            return None;
        },
    };
    let j4 = match expect_lit(s, j3, ",\"version\":") {
        Some(j) => j,
        None => {
            assert forall|rolesv: Seq<(Seq<char>, RoleKeysView)>, svv: Seq<char>, verv: u64|
                roles_plain(rolesv) && plain_text(svv) && text_at(s@, i as int, ser_sig_last(rolesv, svv, verv)) implies false by {
                lemma_sig_last_pieces(s@, i as int, rolesv, svv, verv);
                assert(roles_plain(rolesv));
                assert(text_at(s@, i as int, ser_roles(rolesv) + "}"@));
                assert(role_entry_views(roles@) == rolesv && j1 == i + ser_roles(rolesv).len() + 1);
                assert(plain_text(svv));
                assert(text_at(s@, j2 as int, ser_text(svv)));
                assert(sv@ == svv && j3 == j2 + ser_text(svv).len());
            }
            return None;
        },
    };
    let (ver, j5) = match parse_u64(s, j4) {
        Some(p) => p,
        None => {
            assert forall|rolesv: Seq<(Seq<char>, RoleKeysView)>, svv: Seq<char>, verv: u64|
                roles_plain(rolesv) && plain_text(svv) && text_at(s@, i as int, ser_sig_last(rolesv, svv, verv)) implies false by {
                lemma_sig_last_pieces(s@, i as int, rolesv, svv, verv);
                assert(roles_plain(rolesv));
                assert(text_at(s@, i as int, ser_roles(rolesv) + "}"@));
                assert(role_entry_views(roles@) == rolesv && j1 == i + ser_roles(rolesv).len() + 1);
                assert(plain_text(svv));
                assert(text_at(s@, j2 as int, ser_text(svv)));
                assert(sv@ == svv && j3 == j2 + ser_text(svv).len());
                reveal_strlit("}");
                assert(text_at(s@, j4 as int, ser_nat(verv as nat)));
                lemma_text_at_index(s@, j4 + ser_nat(verv as nat).len(), "}"@, 0);
                assert(!is_digit_char('}'));
                assert(num_boundary(s@, j4 + ser_nat(verv as nat).len()));
            }
            return None;
        },
    };
    let j6 = match expect_lit(s, j5, "}") {
        Some(j) => j,
        None => {
            assert forall|rolesv: Seq<(Seq<char>, RoleKeysView)>, svv: Seq<char>, verv: u64|
                roles_plain(rolesv) && plain_text(svv) && text_at(s@, i as int, ser_sig_last(rolesv, svv, verv)) implies false by {
                lemma_sig_last_pieces(s@, i as int, rolesv, svv, verv);
                assert(roles_plain(rolesv));
                assert(text_at(s@, i as int, ser_roles(rolesv) + "}"@));
                assert(role_entry_views(roles@) == rolesv && j1 == i + ser_roles(rolesv).len() + 1);
                assert(plain_text(svv));
                assert(text_at(s@, j2 as int, ser_text(svv)));
                assert(sv@ == svv && j3 == j2 + ser_text(svv).len());
                reveal_strlit("}");
                assert(text_at(s@, j4 as int, ser_nat(verv as nat)));
                lemma_text_at_index(s@, j4 + ser_nat(verv as nat).len(), "}"@, 0);
                assert(!is_digit_char('}'));
                assert(num_boundary(s@, j4 + ser_nat(verv as nat).len()));
                assert(ver == verv && j5 == j4 + ser_nat(verv as nat).len());
            }
            return None;
        },
    };
    proof {
        lemma_join(s@, i as int, j1 as int, j2 as int);
        lemma_join(s@, i as int, j2 as int, j3 as int);
        lemma_join(s@, i as int, j3 as int, j4 as int);
        lemma_join(s@, i as int, j4 as int, j5 as int);
        lemma_join(s@, i as int, j5 as int, j6 as int);
        assert(s@.subrange(i as int, j6 as int) =~= ser_sig_last(role_entry_views(roles@), sv@, ver));
    }
    assert forall|rolesv: Seq<(Seq<char>, RoleKeysView)>, svv: Seq<char>, verv: u64|
        roles_plain(rolesv) && plain_text(svv) && text_at(s@, i as int, ser_sig_last(rolesv, svv, verv)) implies (role_entry_views(roles@) == rolesv && sv@ == svv && ver == verv && j6 == i + ser_sig_last(rolesv, svv, verv).len()) by {
        lemma_sig_last_pieces(s@, i as int, rolesv, svv, verv);
        assert(roles_plain(rolesv));
        assert(text_at(s@, i as int, ser_roles(rolesv) + "}"@));
        assert(role_entry_views(roles@) == rolesv && j1 == i + ser_roles(rolesv).len() + 1);
        assert(plain_text(svv));
        assert(text_at(s@, j2 as int, ser_text(svv)));
        assert(sv@ == svv && j3 == j2 + ser_text(svv).len());
        reveal_strlit("}");
        assert(text_at(s@, j4 as int, ser_nat(verv as nat)));
        lemma_text_at_index(s@, j4 + ser_nat(verv as nat).len(), "}"@, 0);
        assert(!is_digit_char('}'));
        assert(num_boundary(s@, j4 + ser_nat(verv as nat).len()));
        assert(ver == verv && j5 == j4 + ser_nat(verv as nat).len());
    }
    Some((roles, sv, ver, j6))
}

/// Parses the canonical signed portion at position `i`.
#[verifier::rlimit(100)]
#[verifier::spinoff_prover]
fn parse_signed(s: &str, i: usize) -> (r: Option<(Signed, usize)>)
    requires
        i <= s@.len(),
    ensures
        r matches Some(p) ==> {
            &&& i < p.1 <= s@.len()
            &&& signed_plain(p.0@)
            &&& p.1 == i + ser_signed(p.0@).len()
            &&& s@.subrange(i as int, p.1 as int) == ser_signed(p.0@)
        },
        forall|v: SignedView|
            signed_plain(v) && text_at(s@, i as int, ser_signed(v)) ==> (r matches Some(p) && p.0@
                == v && p.1 == i + ser_signed(v).len()),
{
    let head = match parse_sig_head(s, i) {
        Some(p) => p,
        None => {
            assert forall|v: SignedView|
                signed_plain(v) && text_at(s@, i as int, ser_signed(v)) implies false by {
                lemma_signed_frags(v);
                let a = ser_sig_head(v.consistent_snapshot, v.expires);
                let b = ser_sig_mid(v.keys, v.namespace);
                let c = ser_sig_last(v.roles, v.spec_version, v.version);
                assert(ser_signed(v) =~= a + (b + c));
                lemma_text_at_split(s@, i as int, a, b + c);
            }
            return None;
        },
    };
    let (cs, ex, j1) = head;
    let mid = match parse_sig_mid(s, j1) {
        Some(p) => p,
        None => {
            assert forall|v: SignedView|
                signed_plain(v) && text_at(s@, i as int, ser_signed(v)) implies false by {
                lemma_signed_frags(v);
                let a = ser_sig_head(v.consistent_snapshot, v.expires);
                let b = ser_sig_mid(v.keys, v.namespace);
                let c = ser_sig_last(v.roles, v.spec_version, v.version);
                assert(ser_signed(v) =~= a + (b + c));
                lemma_text_at_split(s@, i as int, a, b + c);
                assert(cs == v.consistent_snapshot && ex == v.expires && j1 == i + a.len());
                lemma_text_at_split(s@, i + a.len(), b, c);
                assert(text_at(s@, j1 as int, b));
            }
            return None;
        },
    };
    let (keys, ns, j2) = mid;
    let lastp = match parse_sig_last(s, j2) {
        Some(p) => p,
        None => {
            assert forall|v: SignedView|
                signed_plain(v) && text_at(s@, i as int, ser_signed(v)) implies false by {
                lemma_signed_frags(v);
                let a = ser_sig_head(v.consistent_snapshot, v.expires);
                let b = ser_sig_mid(v.keys, v.namespace);
                let c = ser_sig_last(v.roles, v.spec_version, v.version);
                assert(ser_signed(v) =~= a + (b + c));
                lemma_text_at_split(s@, i as int, a, b + c);
                assert(cs == v.consistent_snapshot && ex == v.expires && j1 == i + a.len());
                lemma_text_at_split(s@, i + a.len(), b, c);
                assert(text_at(s@, j1 as int, b));
                assert(key_entry_views(keys@) == v.keys && ns@ == v.namespace && j2 == j1
                    + b.len());
                assert(text_at(s@, j2 as int, c));
            }
            return None;
        },
    };
    let (roles, sv, ver, j3) = lastp;
    let result = Signed {
        consistent_snapshot: cs,
        expires: ex,
        keys,
        namespace: ns,
        roles,
        spec_version: sv,
        version: ver,
    };
    proof {
        lemma_join(s@, i as int, j1 as int, j2 as int);
        lemma_join(s@, i as int, j2 as int, j3 as int);
        lemma_signed_frags(result@);
        assert(s@.subrange(i as int, j3 as int) =~= ser_signed(result@));
    }
    assert forall|v: SignedView|
        signed_plain(v) && text_at(s@, i as int, ser_signed(v)) implies (result@ == v && j3 == i
        + ser_signed(v).len()) by {
        lemma_signed_frags(v);
        let a = ser_sig_head(v.consistent_snapshot, v.expires);
        let b = ser_sig_mid(v.keys, v.namespace);
        let c = ser_sig_last(v.roles, v.spec_version, v.version);
        assert(ser_signed(v) =~= a + (b + c));
        lemma_text_at_split(s@, i as int, a, b + c);
        assert(cs == v.consistent_snapshot && ex == v.expires && j1 == i + a.len());
        lemma_text_at_split(s@, i + a.len(), b, c);
        assert(text_at(s@, j1 as int, b));
        assert(key_entry_views(keys@) == v.keys && ns@ == v.namespace && j2 == j1 + b.len());
        assert(text_at(s@, j2 as int, c));
        assert(role_entry_views(roles@) == v.roles && sv@ == v.spec_version && ver == v.version
            && j3 == j2 + c.len());
        assert(result@ =~= v);
    }
    Some((result, j3))
}

/// The whole policy document is plain throughout.
pub open spec fn policy_plain(p: PolicyView) -> bool {
    &&& sigs_plain(p.signatures)
    &&& signed_plain(p.signed)
}

/// The canonical pieces of a policy rendering, each at its offset.
proof fn lemma_policy_pieces(s: Seq<char>, i: int, v: PolicyView)
    requires
        text_at(s, i, ser_policy(v)),
    ensures
        ({
            let o1 = i + "{\"signatures\":["@.len();
            let o2 = o1 + ser_signatures(v.signatures).len() + 1;
            let o3 = o2 + ",\"signed\":"@.len();
            let o4 = o3 + ser_signed(v.signed).len();
            &&& text_at(s, i, "{\"signatures\":["@)
            &&& text_at(s, o1, ser_signatures(v.signatures) + "]"@)
            &&& text_at(s, o2, ",\"signed\":"@)
            &&& text_at(s, o3, ser_signed(v.signed))
            &&& text_at(s, o4, "}"@)
        }),
{
    reveal_strlit("]");
    let l1 = "{\"signatures\":["@;
    let b = ser_signatures(v.signatures) + "]"@;
    let l2 = ",\"signed\":"@;
    let d = ser_signed(v.signed);
    let l3 = "}"@;
    assert(ser_policy(v) =~= l1 + b + l2 + d + l3);
    assert(text_at(s, i, l1 + b + l2 + d + l3));
    lemma_text_at_split(s, i, l1 + b + l2 + d, l3);
    lemma_text_at_split(s, i, l1 + b + l2, d);
    lemma_text_at_split(s, i, l1 + b, l2);
    lemma_text_at_split(s, i, l1, b);
}

/// Parses a whole canonical policy document at position `i`.
fn parse_policy_doc(s: &str, i: usize) -> (r: Option<(Policy, usize)>)
    requires
        i <= s@.len(),
    ensures
        r matches Some(p) ==> {
            &&& i < p.1 <= s@.len()
            &&& policy_plain(p.0@)
            &&& p.1 == i + ser_policy(p.0@).len()
            &&& s@.subrange(i as int, p.1 as int) == ser_policy(p.0@)
        },
        forall|v: PolicyView|
            policy_plain(v) && text_at(s@, i as int, ser_policy(v)) ==> (r matches Some(p) && p.0@
                == v && p.1 == i + ser_policy(v).len()),
{
    let j1 = match expect_lit(s, i, "{\"signatures\":[") {
        Some(j) => j,
        None => {
            assert forall|v: PolicyView|
                policy_plain(v) && text_at(s@, i as int, ser_policy(v)) implies false by {
                lemma_policy_pieces(s@, i as int, v);
            }
            return None;
        },
    };
    let sigsp = match parse_signatures_arr(s, j1) {
        Some(p) => p,
        None => {
            assert forall|v: PolicyView|
                policy_plain(v) && text_at(s@, i as int, ser_policy(v)) implies false by {
                lemma_policy_pieces(s@, i as int, v);
                assert(text_at(s@, j1 as int, ser_signatures(v.signatures) + "]"@));
            }
            return None;
        },
    };
    let (sigs, j2) = sigsp;
    let j3 = match expect_lit(s, j2, ",\"signed\":") {
        Some(j) => j,
        None => {
            assert forall|v: PolicyView|
                policy_plain(v) && text_at(s@, i as int, ser_policy(v)) implies false by {
                lemma_policy_pieces(s@, i as int, v);
                assert(text_at(s@, j1 as int, ser_signatures(v.signatures) + "]"@));
                assert(j2 == j1 + ser_signatures(v.signatures).len() + 1);
            }
            return None;
        },
    };
    let signedp = match parse_signed(s, j3) {
        Some(p) => p,
        None => {
            assert forall|v: PolicyView|
                policy_plain(v) && text_at(s@, i as int, ser_policy(v)) implies false by {
                lemma_policy_pieces(s@, i as int, v);
                assert(text_at(s@, j1 as int, ser_signatures(v.signatures) + "]"@));
                assert(j2 == j1 + ser_signatures(v.signatures).len() + 1);
                assert(text_at(s@, j3 as int, ser_signed(v.signed)));
            }
            return None;
        },
    };
    let (signed, j4) = signedp;
    let j5 = match expect_lit(s, j4, "}") {
        Some(j) => j,
        None => {
            assert forall|v: PolicyView|
                policy_plain(v) && text_at(s@, i as int, ser_policy(v)) implies false by {
                lemma_policy_pieces(s@, i as int, v);
                assert(text_at(s@, j1 as int, ser_signatures(v.signatures) + "]"@));
                assert(j2 == j1 + ser_signatures(v.signatures).len() + 1);
                assert(text_at(s@, j3 as int, ser_signed(v.signed)));
                assert(signed@ == v.signed && j4 == j3 + ser_signed(v.signed).len());
            }
            return None;
        },
    };
    let result = Policy { signatures: sigs, signed };
    proof {
        lemma_join(s@, i as int, j1 as int, j2 as int);
        lemma_join(s@, i as int, j2 as int, j3 as int);
        lemma_join(s@, i as int, j3 as int, j4 as int);
        lemma_join(s@, i as int, j4 as int, j5 as int);
        assert(result@.signatures == sig_views(sigs@));
        assert(s@.subrange(i as int, j5 as int) =~= ser_policy(result@));
    }
    assert forall|v: PolicyView|
        policy_plain(v) && text_at(s@, i as int, ser_policy(v)) implies (result@ == v && j5 == i
        + ser_policy(v).len()) by {
        lemma_policy_pieces(s@, i as int, v);
        assert(text_at(s@, j1 as int, ser_signatures(v.signatures) + "]"@));
        assert(sig_views(sigs@) == v.signatures);
        assert(j2 == j1 + ser_signatures(v.signatures).len() + 1);
        assert(text_at(s@, j3 as int, ser_signed(v.signed)));
        assert(signed@ == v.signed && j4 == j3 + ser_signed(v.signed).len());
        assert(result@ =~= v);
    }
    Some((result, j5))
}

/// Why a policy document was refused by the store.
#[derive(Clone, Copy, Debug, PartialEq, Eq, Structural)]
pub enum PolicyParseError {
    /// The text is not the canonical rendering of any policy: broken
    /// structure, a missing or out-of-order field, or a key kind tag that
    /// matches no known kind.
    Malformed,
    /// The format major version is not one this library understands.
    UnsupportedSpecVersion,
    /// The document version is below one.
    InvalidVersion,
    /// Some role demands fewer than one signature.
    InvalidThreshold,
}

/// Names in strictly ascending canonical order.
pub open spec fn names_sorted(l: Seq<Seq<char>>) -> bool {
    forall|k: int| 0 <= k < l.len() - 1 ==> text_lt(#[trigger] l[k], l[k + 1])
}

/// The names of the key table.
pub open spec fn key_names(l: Seq<(Seq<char>, KeyView)>) -> Seq<Seq<char>> {
    l.map_values(|e: (Seq<char>, KeyView)| e.0)
}

/// The names of the role table.
pub open spec fn role_names(l: Seq<(Seq<char>, RoleKeysView)>) -> Seq<Seq<char>> {
    l.map_values(|e: (Seq<char>, RoleKeysView)| e.0)
}

/// The semantic verdict on a structurally canonical document: the first
/// failed check, or nothing for a well-formed policy.
pub open spec fn spec_check(p: PolicyView) -> Option<PolicyParseError> {
    if p.signed.version < 1 {
        Some(PolicyParseError::InvalidVersion)
    } else if !spec_version_supported(p.signed.spec_version) {
        Some(PolicyParseError::UnsupportedSpecVersion)
    } else if !(forall|k: int|
        0 <= k < p.signed.roles.len() ==> (#[trigger] p.signed.roles[k]).1.threshold >= 1) {
        Some(PolicyParseError::InvalidThreshold)
    } else if !(names_sorted(key_names(p.signed.keys)) && names_sorted(role_names(p.signed.roles))
        && (forall|k: int|
        0 <= k < p.signed.roles.len() ==> names_sorted(
            (#[trigger] p.signed.roles[k]).1.keyids,
        ))) {
        Some(PolicyParseError::Malformed)
    } else {
        None
    }
}

/// A plain document that passes every semantic check is well formed.
pub proof fn lemma_wf_of_checked(p: PolicyView)
    requires
        policy_plain(p),
        spec_check(p) is None,
    ensures
        p.wf(),
{
    let kn = p.signed.keys.map_values(|e: (Seq<char>, KeyView)| e.0);
    let rn = p.signed.roles.map_values(|e: (Seq<char>, RoleKeysView)| e.0);
    assert(kn =~= key_names(p.signed.keys));
    assert(rn =~= role_names(p.signed.roles));
    assert(forall|k: int| 0 <= k < kn.len() ==> #[trigger] kn[k] == p.signed.keys[k].0);
    assert(forall|k: int| 0 <= k < rn.len() ==> #[trigger] rn[k] == p.signed.roles[k].0);
}

/// A well-formed policy is plain and passes every semantic check.
pub proof fn lemma_checked_of_wf(p: PolicyView)
    requires
        p.wf(),
    ensures
        policy_plain(p),
        spec_check(p) is None,
{
    let kn = p.signed.keys.map_values(|e: (Seq<char>, KeyView)| e.0);
    let rn = p.signed.roles.map_values(|e: (Seq<char>, RoleKeysView)| e.0);
    assert(kn =~= key_names(p.signed.keys));
    assert(rn =~= role_names(p.signed.roles));
    assert forall|k: int|
        0 <= k < p.signed.keys.len() implies plain_text((#[trigger] p.signed.keys[k]).0)
        && p.signed.keys[k].1.wf() by {
        assert(kn[k] == p.signed.keys[k].0);
        assert(plain_text(kn[k]));
    }
    assert forall|k: int|
        0 <= k < p.signed.roles.len() implies plain_text((#[trigger] p.signed.roles[k]).0)
        && rolekeys_plain(p.signed.roles[k].1) by {
        assert(rn[k] == p.signed.roles[k].0);
        assert(plain_text(rn[k]));
        assert(p.signed.roles[k].1.wf());
    }
    assert(keys_plain(p.signed.keys));
    assert(roles_plain(p.signed.roles));
    assert forall|k: int|
        0 <= k < p.signed.roles.len() implies (#[trigger] p.signed.roles[k]).1.threshold >= 1
        && names_sorted(p.signed.roles[k].1.keyids) by {
        assert(p.signed.roles[k].1.wf());
    }
}

/// Whether the names stand in strictly ascending canonical order.
fn check_names_sorted(l: &Vec<String>) -> (r: bool)
    ensures
        r == names_sorted(name_views(l@)),
{
    let n = l.len();
    let mut m: usize = 1;
    while m < n
        invariant
            1 <= m,
            n == l.len(),
            forall|k: int|
                0 <= k < m - 1 ==> text_lt(#[trigger] name_views(l@)[k], name_views(l@)[k + 1]),
        decreases n - m,
    {
        if !text_less(l[m - 1].as_str(), l[m].as_str()) {
            assert(!names_sorted(name_views(l@))) by {
                assert(name_views(l@)[m - 1] == l@[m - 1]@);
                assert(name_views(l@)[m as int] == l@[m as int]@);
            }
            return false;
        }
        proof {
            assert(name_views(l@)[m - 1] == l@[m - 1]@);
            assert(name_views(l@)[m as int] == l@[m as int]@);
        }
        m += 1;
    }
    true
}

/// Whether the key-table names stand in strictly ascending order.
fn check_keys_sorted(l: &Vec<(String, Key)>) -> (r: bool)
    ensures
        r == names_sorted(key_names(key_entry_views(l@))),
{
    let n = l.len();
    let mut m: usize = 1;
    while m < n
        invariant
            1 <= m,
            n == l.len(),
            forall|k: int|
                0 <= k < m - 1 ==> text_lt(
                    #[trigger] key_names(key_entry_views(l@))[k],
                    key_names(key_entry_views(l@))[k + 1],
                ),
        decreases n - m,
    {
        if !text_less(l[m - 1].0.as_str(), l[m].0.as_str()) {
            assert(!names_sorted(key_names(key_entry_views(l@)))) by {
                assert(key_names(key_entry_views(l@))[m - 1] == l@[m - 1].0@);
                assert(key_names(key_entry_views(l@))[m as int] == l@[m as int].0@);
            }
            return false;
        }
        proof {
            assert(key_names(key_entry_views(l@))[m - 1] == l@[m - 1].0@);
            assert(key_names(key_entry_views(l@))[m as int] == l@[m as int].0@);
        }
        m += 1;
    }
    true
}

/// Whether the role-table names stand in strictly ascending order.
fn check_roles_sorted(l: &Vec<(String, RoleKeys)>) -> (r: bool)
    ensures
        r == names_sorted(role_names(role_entry_views(l@))),
{
    let n = l.len();
    let mut m: usize = 1;
    while m < n
        invariant
            1 <= m,
            n == l.len(),
            forall|k: int|
                0 <= k < m - 1 ==> text_lt(
                    #[trigger] role_names(role_entry_views(l@))[k],
                    role_names(role_entry_views(l@))[k + 1],
                ),
        decreases n - m,
    {
        if !text_less(l[m - 1].0.as_str(), l[m].0.as_str()) {
            assert(!names_sorted(role_names(role_entry_views(l@)))) by {
                assert(role_names(role_entry_views(l@))[m - 1] == l@[m - 1].0@);
                assert(role_names(role_entry_views(l@))[m as int] == l@[m as int].0@);
            }
            return false;
        }
        proof {
            assert(role_names(role_entry_views(l@))[m - 1] == l@[m - 1].0@);
            assert(role_names(role_entry_views(l@))[m as int] == l@[m as int].0@);
        }
        m += 1;
    }
    true
}

/// Whether every role demands at least one signature.
fn check_thresholds(l: &Vec<(String, RoleKeys)>) -> (r: bool)
    ensures
        r == (forall|k: int|
            0 <= k < role_entry_views(l@).len() ==> (#[trigger] role_entry_views(
                l@,
            )[k]).1.threshold >= 1),
{
    let n = l.len();
    let mut m: usize = 0;
    while m < n
        invariant
            0 <= m <= n,
            n == l.len(),
            forall|k: int|
                0 <= k < m ==> (#[trigger] role_entry_views(l@)[k]).1.threshold >= 1,
        decreases n - m,
    {
        if l[m].1.threshold < 1 {
            assert(role_entry_views(l@)[m as int].1.threshold == l@[m as int].1.threshold);
            return false;
        }
        proof {
            assert(role_entry_views(l@)[m as int].1.threshold == l@[m as int].1.threshold);
        }
        m += 1;
    }
    true
}

/// Whether every role's key ids stand in strictly ascending order.
fn check_role_keyids(l: &Vec<(String, RoleKeys)>) -> (r: bool)
    ensures
        r == (forall|k: int|
            0 <= k < role_entry_views(l@).len() ==> names_sorted(
                (#[trigger] role_entry_views(l@)[k]).1.keyids,
            )),
{
    let n = l.len();
    let mut m: usize = 0;
    while m < n
        invariant
            0 <= m <= n,
            n == l.len(),
            forall|k: int|
                0 <= k < m ==> names_sorted((#[trigger] role_entry_views(l@)[k]).1.keyids),
        decreases n - m,
    {
        let ok = check_names_sorted(&l[m].1.keyids);
        proof {
            assert(role_entry_views(l@)[m as int].1 == l@[m as int].1@);
            assert(l@[m as int].1@.keyids == name_views(l@[m as int].1.keyids@));
        }
        if !ok {
            return false;
        }
        m += 1;
    }
    true
}

/// Whether the format version names a major version this library reads.
fn spec_version_ok(s: &str) -> (r: bool)
    ensures
        r == spec_version_supported(s@),
{
    if crate::policy::text_eq(s, "1") {
        return true;
    }
    let n = s.unicode_len();
    if n >= 2 {
        let c0 = s.get_char(0);
        let c1 = s.get_char(1);
        c0 == '1' && c1 == '.'
    } else {
        false
    }
}

/// Loads a policy from its canonical text.
///
/// Exactly the canonical rendering of a well-formed policy is accepted;
/// anything else is refused with the first failed check. Accepting only the
/// canonical form makes the round trip exact: re-serializing a loaded
/// document returns the loaded text itself, so a signature over the signed
/// portion stays valid across any number of load/store cycles.
#[verifier::rlimit(100)]
#[verifier::spinoff_prover]
pub fn load(doc: &str) -> (r: Result<Policy, PolicyParseError>)
    ensures
        r matches Ok(p) ==> p@.wf() && doc@ == ser_policy(p@),
        forall|pv: PolicyView|
            policy_plain(pv) && doc@ == ser_policy(pv) ==> (match spec_check(pv) {
                Some(e) => r == Err::<Policy, PolicyParseError>(e),
                None => r matches Ok(p) && p@ == pv,
            }),
{
    let n = doc.unicode_len();
    let parsed = match parse_policy_doc(doc, 0) {
        Some(p) => p,
        None => {
            assert forall|pv: PolicyView|
                policy_plain(pv) && doc@ == ser_policy(pv) implies false by {
                assert(doc@.subrange(0, ser_policy(pv).len() as int) =~= ser_policy(pv));
                assert(text_at(doc@, 0, ser_policy(pv)));
            }
            return Err(PolicyParseError::Malformed);
        },
    };
    let (p, j) = parsed;
    if j != n {
        assert forall|pv: PolicyView|
            policy_plain(pv) && doc@ == ser_policy(pv) implies false by {
            assert(doc@.subrange(0, ser_policy(pv).len() as int) =~= ser_policy(pv));
            assert(text_at(doc@, 0, ser_policy(pv)));
        }
        return Err(PolicyParseError::Malformed);
    }
    proof {
        assert(doc@ =~= ser_policy(p@));
    }
    assert forall|pv: PolicyView|
        policy_plain(pv) && doc@ == ser_policy(pv) implies p@ == pv by {
        assert(doc@.subrange(0, ser_policy(pv).len() as int) =~= ser_policy(pv));
        assert(text_at(doc@, 0, ser_policy(pv)));
    }
    if p.signed.version < 1 {
        return Err(PolicyParseError::InvalidVersion);
    }
    if !spec_version_ok(p.signed.spec_version.as_str()) {
        return Err(PolicyParseError::UnsupportedSpecVersion);
    }
    if !check_thresholds(&p.signed.roles) {
        return Err(PolicyParseError::InvalidThreshold);
    }
    let sorted = check_keys_sorted(&p.signed.keys) && check_roles_sorted(&p.signed.roles)
        && check_role_keyids(&p.signed.roles);
    if !sorted {
        return Err(PolicyParseError::Malformed);
    }
    proof {
        assert(p@.signed.keys == key_entry_views(p.signed.keys@));
        assert(p@.signed.roles == role_entry_views(p.signed.roles@));
        assert(spec_check(p@) is None);
        lemma_wf_of_checked(p@);
    }
    Ok(p)
}

/// The canonical text of the signed portion: the exact message that
/// signatures are made over and checked against.
pub fn canonical_signed(sd: &Signed) -> (r: String)
    ensures
        r@ == ser_signed(sd@),
{
    let mut out = String::new();
    out.append("{\"consistent_snapshot\":");
    write_bool(&mut out, sd.consistent_snapshot);
    out.append(",\"expires\":");
    write_u64(&mut out, sd.expires);
    out.append(",\"keys\":{");
    write_keys(&mut out, &sd.keys);
    out.append("}");
    out.append(",\"namespace\":");
    write_text(&mut out, sd.namespace.as_str());
    out.append(",\"roles\":{");
    write_roles(&mut out, &sd.roles);
    out.append("}");
    out.append(",\"spec_version\":");
    write_text(&mut out, sd.spec_version.as_str());
    out.append(",\"version\":");
    write_u64(&mut out, sd.version);
    out.append("}");
    proof {
        assert(out@ =~= ser_signed(sd@));
    }
    out
}

/// The canonical text of a whole policy document.
pub fn canonical_policy(p: &Policy) -> (r: String)
    ensures
        r@ == ser_policy(p@),
{
    let mut out = String::new();
    out.append("{\"signatures\":[");
    write_signatures(&mut out, &p.signatures);
    out.append("]");
    out.append(",\"signed\":");
    let signed_text = canonical_signed(&p.signed);
    out.append(signed_text.as_str());
    out.append("}");
    proof {
        assert(out@ =~= ser_policy(p@));
    }
    out
}

} // verus!
