//! Key material as PEM-like text: a BEGIN line, the base64 of the bytes in
//! lines of 64 characters, an END line.
use crate::bignum::{be_bytes, be_value, from_bytes_be, to_bytes_be, BigNat};
use crate::hybrid::append_bytes;
use crate::rsa::{PrivateKey, PublicKey, PUBLIC_EXPONENT};
use base64::Engine;
use vstd::prelude::*;
use vstd::slice::slice_subrange;

verus! {

/// Standard base64 (with padding) of `data`, as ASCII bytes.
pub uninterp spec fn base64_of(data: Seq<u8>) -> Seq<u8>;

/// The bytes that standard base64 text stands for; `None` where it is not
/// valid base64.
pub uninterp spec fn base64_decoded(text: Seq<u8>) -> Option<Seq<u8>>;

/// Relies on `base64::engine::general_purpose::STANDARD.encode`: standard
/// alphabet with padding.
#[verifier::external_body]
fn base64_encode(data: &[u8]) -> (r: Vec<u8>)
    ensures
        r@ == base64_of(data@),
{
    base64::engine::general_purpose::STANDARD.encode(data).into_bytes()
}

/// Relies on `base64::engine::general_purpose::STANDARD.decode`, which fails
/// on text that is not canonical padded base64.
#[verifier::external_body]
fn base64_decode(text: &[u8]) -> (r: Option<Vec<u8>>)
    ensures
        r matches Some(b) ==> base64_decoded(text@) == Some(b@),
        r is None ==> base64_decoded(text@) is None,
{
    base64::engine::general_purpose::STANDARD.decode(text).ok()
}

pub open spec fn dashes() -> Seq<u8> {
    seq![45u8, 45, 45, 45, 45]
}

/// `RSA PUBLIC KEY`
pub open spec fn public_label() -> Seq<u8> {
    seq![82u8, 83, 65, 32, 80, 85, 66, 76, 73, 67, 32, 75, 69, 89]
}

/// `RSA PRIVATE KEY`
pub open spec fn private_label() -> Seq<u8> {
    seq![82u8, 83, 65, 32, 80, 82, 73, 86, 65, 84, 69, 32, 75, 69, 89]
}

/// `b` cut into lines of 64 bytes, each ended by a newline.
pub open spec fn wrap_lines(b: Seq<u8>) -> Seq<u8>
    decreases b.len(),
{
    if b.len() == 0 {
        Seq::empty()
    } else if b.len() <= 64 {
        b + seq![10u8]
    } else {
        b.subrange(0, 64) + seq![10u8] + wrap_lines(b.subrange(64, b.len() as int))
    }
}

/// `-----BEGIN label-----`, the wrapped base64, `-----END label-----`, each
/// line ended by a newline.
pub open spec fn pem_text(label: Seq<u8>, b64: Seq<u8>) -> Seq<u8> {
    dashes() + seq![66u8, 69, 71, 73, 78, 32] + label + dashes() + seq![10u8] + wrap_lines(b64)
        + dashes() + seq![69u8, 78, 68, 32] + label + dashes() + seq![10u8]
}

/// Index of the first newline at or after `i`, or the length of `t`.
pub open spec fn line_end(t: Seq<u8>, i: int) -> int
    decreases t.len() - i,
{
    if i >= t.len() {
        t.len() as int
    } else if t[i] == 10 {
        i
    } else {
        line_end(t, i + 1)
    }
}

/// The line that starts at `i`: up to the next newline, without a carriage
/// return that stands just before that newline.
pub open spec fn line_at(t: Seq<u8>, i: int) -> Seq<u8> {
    let e = line_end(t, i);
    let raw = t.subrange(i, e);
    if e < t.len() && raw.len() > 0 && raw.last() == 13 {
        raw.drop_last()
    } else {
        raw
    }
}

/// A line that starts with five dashes (a BEGIN or END line).
pub open spec fn is_marker_line(l: Seq<u8>) -> bool {
    l.len() >= 5 && l.subrange(0, 5) == dashes()
}

/// The lines from `i` on that are not marker lines, joined.
pub open spec fn payload_from(t: Seq<u8>, i: int) -> Seq<u8>
    decreases t.len() - i,
{
    if i < 0 || i >= t.len() {
        Seq::empty()
    } else {
        let l = line_at(t, i);
        let kept = if is_marker_line(l) {
            Seq::empty()
        } else {
            l
        };
        if line_end(t, i) < i || line_end(t, i) >= t.len() {
            kept
        } else {
            kept + payload_from(t, line_end(t, i) + 1)
        }
    }
}

proof fn lemma_line_end_bounds(t: Seq<u8>, i: int)
    requires
        0 <= i <= t.len(),
    ensures
        i <= line_end(t, i) <= t.len(),
        line_end(t, i) < t.len() ==> t[line_end(t, i)] == 10,
    decreases t.len() - i,
{
    if i < t.len() && t[i] != 10 {
        lemma_line_end_bounds(t, i + 1);
    }
}

/// Lays out base64 text as PEM-like text under `label`.
pub fn pem_wrap(label: &[u8], b64: &[u8]) -> (r: Vec<u8>)
    ensures
        r@ == pem_text(label@, b64@),
{
    let mut out: Vec<u8> = vec![45u8, 45, 45, 45, 45, 66, 69, 71, 73, 78, 32];
    append_bytes(&mut out, label);
    append_bytes(&mut out, &[45u8, 45, 45, 45, 45, 10]);
    let ghost head = out@;
    assert(head =~= dashes() + seq![66u8, 69, 71, 73, 78, 32] + label@ + dashes() + seq![10u8]);
    let mut i: usize = 0;
    assert(b64@.subrange(0, b64@.len() as int) =~= b64@);
    while i < b64.len()
        invariant
            b64@.len() == b64.len(),
            i <= b64@.len(),
            out@ + wrap_lines(b64@.subrange(i as int, b64@.len() as int)) == head + wrap_lines(b64@),
        decreases b64@.len() - i,
    {
        let end: usize = if b64.len() - i <= 64 { b64.len() } else { i + 64 };
        let ghost rest = b64@.subrange(i as int, b64@.len() as int);
        proof {
            if rest.len() > 64 {
                assert(rest.subrange(0, 64) =~= b64@.subrange(i as int, end as int));
                assert(rest.subrange(64, rest.len() as int) =~= b64@.subrange(end as int, b64@.len() as int));
            } else {
                assert(rest =~= b64@.subrange(i as int, end as int));
                assert(b64@.subrange(end as int, b64@.len() as int) =~= Seq::<u8>::empty());
            }
        }
        append_bytes(&mut out, slice_subrange(b64, i, end));
        out.push(10u8);
        proof {
            assert(out@ + wrap_lines(b64@.subrange(end as int, b64@.len() as int)) =~= head + wrap_lines(b64@));
        }
        i = end;
    }
    proof {
        assert(b64@.subrange(i as int, b64@.len() as int) =~= Seq::<u8>::empty());
        assert(out@ + Seq::<u8>::empty() =~= out@);
    }
    let ghost body = out@;
    append_bytes(&mut out, &[45u8, 45, 45, 45, 45, 69, 78, 68, 32]);
    append_bytes(&mut out, label);
    append_bytes(&mut out, &[45u8, 45, 45, 45, 45, 10]);
    assert(out@ =~= pem_text(label@, b64@));
    out
}

/// Writes `data` as PEM-like text under `label`.
pub fn to_pem(label: &[u8], data: &[u8]) -> (r: Vec<u8>)
    ensures
        r@ == pem_text(label@, base64_of(data@)),
{
    let b64 = base64_encode(data);
    pem_wrap(label, b64.as_slice())
}

/// The base64 text of PEM-like text: the lines that do not start with five
/// dashes, joined.
pub fn pem_payload(text: &[u8]) -> (r: Vec<u8>)
    ensures
        r@ == payload_from(text@, 0),
{
    let ghost t = text@;
    let mut out: Vec<u8> = Vec::new();
    let mut i: usize = 0;
    while i < text.len()
        invariant
            t == text@,
            i <= t.len(),
            out@ + payload_from(t, i as int) == payload_from(t, 0),
        decreases t.len() - i,
    {
        let mut e: usize = i;
        while e < text.len() && text[e] != 10u8
            invariant
                t == text@,
                i <= e <= t.len(),
                i < t.len(),
                line_end(t, i as int) == line_end(t, e as int),
            decreases t.len() - e,
        {
            e = e + 1;
        }
        proof {
            lemma_line_end_bounds(t, i as int);
        }
        let mut line_stop: usize = e;
        if e < text.len() && e > i && text[e - 1] == 13u8 {
            line_stop = e - 1;
        }
        let line = slice_subrange(text, i, line_stop);
        proof {
            let raw = t.subrange(i as int, e as int);
            if e < t.len() && raw.len() > 0 && raw.last() == 13 {
                assert(line@ =~= raw.drop_last());
            } else {
                assert(line@ =~= raw);
            }
            assert(line@ == line_at(t, i as int));
        }
        let marker = line.len() >= 5 && line[0] == 45u8 && line[1] == 45u8 && line[2] == 45u8
            && line[3] == 45u8 && line[4] == 45u8;
        proof {
            if line@.len() >= 5 {
                if marker {
                    assert(line@.subrange(0, 5) =~= dashes());
                } else {
                    assert(line@.subrange(0, 5) != dashes()) by {
                        if line@.subrange(0, 5) == dashes() {
                            assert(line@.subrange(0, 5)[0] == line@[0]);
                            assert(line@.subrange(0, 5)[1] == line@[1]);
                            assert(line@.subrange(0, 5)[2] == line@[2]);
                            assert(line@.subrange(0, 5)[3] == line@[3]);
                            assert(line@.subrange(0, 5)[4] == line@[4]);
                        }
                    }
                }
            }
            assert(marker == is_marker_line(line@));
        }
        let ghost before = out@;
        if !marker {
            append_bytes(&mut out, line);
        }
        proof {
            let kept = if is_marker_line(line@) { Seq::<u8>::empty() } else { line@ };
            assert(out@ =~= before + kept);
            if e < t.len() {
                assert(payload_from(t, i as int) == kept + payload_from(t, e as int + 1));
            } else {
                assert(payload_from(t, i as int) == kept);
                assert(kept + Seq::<u8>::empty() =~= kept);
            }
            assert(out@ + payload_from(t, e as int + 1) =~= before + payload_from(t, i as int));
        }
        i = if e < text.len() { e + 1 } else { e };
        proof {
            if e == t.len() {
                assert(payload_from(t, e as int + 1) == Seq::<u8>::empty());
            }
        }
    }
    proof {
        assert(out@ + Seq::<u8>::empty() =~= out@);
    }
    out
}

/// Reads the bytes back out of PEM-like text: its payload, base64-decoded;
/// `None` where that is not valid base64.
pub fn from_pem(text: &[u8]) -> (r: Option<Vec<u8>>)
    ensures
        r matches Some(b) ==> base64_decoded(payload_from(text@, 0)) == Some(b@),
        r is None ==> base64_decoded(payload_from(text@, 0)) is None,
{
    let payload = pem_payload(text);
    base64_decode(payload.as_slice())
}

/// The public key as text: the modulus's big-endian bytes under
/// `RSA PUBLIC KEY`. The exponent is the fixed one and is not written.
pub fn public_key_pem(pk: &PublicKey) -> (r: Vec<u8>)
    ensures
        r@ == pem_text(public_label(), base64_of(be_bytes(pk.n@))),
{
    let label: Vec<u8> = vec![82u8, 83, 65, 32, 80, 85, 66, 76, 73, 67, 32, 75, 69, 89];
    assert(label@ =~= public_label());
    to_pem(label.as_slice(), to_bytes_be(&pk.n).as_slice())
}

/// The private key as text: the private exponent's big-endian bytes under
/// `RSA PRIVATE KEY`. The modulus is not written; it is read from the public
/// key's text.
pub fn private_key_pem(sk: &PrivateKey) -> (r: Vec<u8>)
    ensures
        r@ == pem_text(private_label(), base64_of(be_bytes(sk.d@))),
{
    let label: Vec<u8> = vec![82u8, 83, 65, 32, 80, 82, 73, 86, 65, 84, 69, 32, 75, 69, 89];
    assert(label@ =~= private_label());
    to_pem(label.as_slice(), to_bytes_be(&sk.d).as_slice())
}

/// Reads a public key: the modulus from the text, and the fixed exponent.
pub fn public_key_from_pem(text: &[u8]) -> (r: Option<PublicKey>)
    ensures
        match base64_decoded(payload_from(text@, 0)) {
            None => r is None,
            Some(b) => r matches Some(pk) && pk.n@ == be_value(b) && pk.e@ == PUBLIC_EXPONENT,
        },
{
    match from_pem(text) {
        None => None,
        Some(b) => Some(PublicKey { e: BigNat::from_u64(PUBLIC_EXPONENT), n: from_bytes_be(b.as_slice()) }),
    }
}

/// Reads a private key: the exponent from its own text and the modulus from
/// the matching public key's text.
pub fn private_key_from_pem(private_text: &[u8], public_text: &[u8]) -> (r: Option<PrivateKey>)
    ensures
        match (base64_decoded(payload_from(private_text@, 0)), base64_decoded(payload_from(public_text@, 0))) {
            (Some(d), Some(n)) => r matches Some(sk) && sk.d@ == be_value(d) && sk.n@ == be_value(n),
            _ => r is None,
        },
{
    let d = match from_pem(private_text) {
        None => {
            return None;
        },
        Some(d) => d,
    };
    match from_pem(public_text) {
        None => None,
        Some(n) => Some(PrivateKey { d: from_bytes_be(d.as_slice()), n: from_bytes_be(n.as_slice()) }),
    }
}

} // verus!
