//! Hashes of commands and of output lines, in hexadecimal.
use crate::number::is_digit;
use crate::outside::{hex_digit, json_char, json_chars, json_text, json_to_string, md5_digest, md5_of};
use crate::text::{chars_of, opt_text};
use vstd::prelude::*;
use vstd::utf8::encode_utf8;

verus! {

/// Bytes in hexadecimal, two digits each.
pub open spec fn hex_text(bytes: Seq<u8>) -> Seq<char>
    decreases bytes.len(),
{
    if bytes.len() == 0 {
        Seq::empty()
    } else {
        hex_text(bytes.drop_last()) + seq![
            hex_digit(bytes.last() as int / 16),
            hex_digit(bytes.last() as int % 16),
        ]
    }
}

/// Whether a character is a hexadecimal digit in lower case.
pub open spec fn is_hex(c: char) -> bool {
    is_digit(c) || ('a' <= c && c <= 'f')
}

/// Hexadecimal text has two digits for each byte.
pub proof fn lemma_hex_text(bytes: Seq<u8>)
    ensures
        hex_text(bytes).len() == 2 * bytes.len(),
        forall|i: int| 0 <= i < hex_text(bytes).len() ==> is_hex(#[trigger] hex_text(bytes)[i]),
    decreases bytes.len(),
{
    if bytes.len() > 0 {
        lemma_hex_text(bytes.drop_last());
        let h = hex_text(bytes);
        let b = hex_text(bytes.drop_last());
        assert forall|i: int| 0 <= i < h.len() implies is_hex(#[trigger] h[i]) by {
            if i < b.len() {
                assert(h[i] == b[i]);
            }
        }
    }
}

/// A hexadecimal digit.
fn hex_char(n: u8) -> (c: char)
    requires
        n < 16,
    ensures
        c == hex_digit(n as int),
{
    if n < 10 {
        (48u8 + n) as char
    } else {
        (87u8 + n) as char
    }
}

/// Bytes in hexadecimal, two digits each.
pub fn hex_of(bytes: &[u8]) -> (r: String)
    ensures
        r@ == hex_text(bytes@),
{
    let mut out: String = String::new();
    let mut i: usize = 0;
    assert(bytes@.take(0) == Seq::<u8>::empty());
    while i < bytes.len()
        invariant
            i <= bytes@.len(),
            out@ == hex_text(bytes@.take(i as int)),
        decreases bytes@.len() - i,
    {
        let ghost before = out@;
        let b: u8 = bytes[i];
        out.push(hex_char(b / 16));
        out.push(hex_char(b % 16));
        proof {
            assert(bytes@.take(i + 1).drop_last() == bytes@.take(i as int));
            assert(bytes@.take(i + 1).last() == b);
            assert(out@ == before + seq![hex_digit(b as int / 16), hex_digit(b as int % 16)]);
        }
        i = i + 1;
    }
    assert(bytes@.take(i as int) == bytes@);
    out
}

/// The MD5 hash of a text, in hexadecimal.
pub open spec fn text_hash(s: Seq<char>) -> Seq<char> {
    hex_text(md5_digest(encode_utf8(s)))
}

/// The MD5 hash of a text, in hexadecimal.
pub fn hash_text(s: &str) -> (r: String)
    ensures
        r@ == text_hash(s@),
        r@.len() == 32,
        forall|i: int| 0 <= i < r@.len() ==> is_hex(#[trigger] r@[i]),
{
    let digest: [u8; 16] = md5_of(s.as_bytes());
    proof {
        lemma_hex_text(digest@);
    }
    hex_of(digest.as_slice())
}

/// A text without its decimal digits.
pub open spec fn without_digits(s: Seq<char>) -> Seq<char> {
    s.filter(|c: char| !is_digit(c))
}

/// A text without its decimal digits.
pub fn drop_digits(s: &str) -> (r: String)
    ensures
        r@ == without_digits(s@),
{
    let v: Vec<char> = chars_of(s);
    let ghost keep = |c: char| !is_digit(c);
    let mut out: String = String::new();
    let mut i: usize = 0;
    proof {
        reveal(Seq::filter);
        assert(v@.take(0).filter(keep) == Seq::<char>::empty());
    }
    while i < v.len()
        invariant
            i <= v@.len(),
            v@ == s@,
            keep == (|c: char| !is_digit(c)),
            out@ == v@.take(i as int).filter(keep),
        decreases v@.len() - i,
    {
        proof {
            reveal(Seq::filter);
            assert(v@.take(i + 1).drop_last() == v@.take(i as int));
            assert(v@.take(i + 1).last() == v@[i as int]);
        }
        let c: char = v[i];
        if !('0' <= c && c <= '9') {
            out.push(c);
        }
        i = i + 1;
    }
    assert(v@.take(i as int) == v@);
    out
}

/// The hash of a payload: lines that differ in their numbers alone have the same.
pub open spec fn hash_of_payload(payload: Seq<char>) -> Seq<char> {
    text_hash(without_digits(payload))
}

/// The hash of a payload.
pub fn payload_hash(payload: &str) -> (r: String)
    ensures
        r@ == hash_of_payload(payload@),
        r@.len() == 32,
        forall|i: int| 0 <= i < r@.len() ==> is_hex(#[trigger] r@[i]),
{
    let kept: String = drop_digits(payload);
    hash_text(kept.as_str())
}

/// The hash of a line of output, by which its history is kept: that of the line as a JSON
/// string.
pub fn line_hash_for_stats(line: &str) -> (r: Option<String>)
    ensures
        opt_text(r) == Some(hash_of_payload(json_text(line@))),
{
    match json_to_string(line) {
        Ok(payload) => Some(payload_hash(payload.as_str())),
        Err(_) => None,
    }
}

/// Digits of a line do not count in its JSON string either.
proof fn lemma_json_without_digits(s: Seq<char>)
    ensures
        without_digits(json_chars(s)) == without_digits(json_chars(without_digits(s))),
    decreases s.len(),
{
    let keep = |c: char| !is_digit(c);
    reveal(Seq::filter);
    if s.len() > 0 {
        let t = s.drop_last();
        let c = s.last();
        lemma_json_without_digits(t);
        Seq::filter_distributes_over_add(json_chars(t), json_char(c), keep);
        if is_digit(c) {
            assert(json_char(c) == seq![c]);
            assert(seq![c].drop_last() == Seq::<char>::empty());
            assert(Seq::<char>::empty().filter(keep) == Seq::<char>::empty());
            assert(seq![c].filter(keep) == Seq::<char>::empty());
            assert(without_digits(s) == without_digits(t));
            assert(without_digits(json_chars(s)) == without_digits(json_chars(t)));
        } else {
            let w = without_digits(t);
            assert(without_digits(s) == w.push(c));
            assert(w.push(c).drop_last() == w);
            Seq::filter_distributes_over_add(json_chars(w), json_char(c), keep);
        }
    } else {
        assert(without_digits(s) == s);
    }
}

/// Lines that are equal but for their digits have the same hash.
pub proof fn law_digits_do_not_count(a: Seq<char>, b: Seq<char>)
    requires
        without_digits(a) == without_digits(b),
    ensures
        hash_of_payload(json_text(a)) == hash_of_payload(json_text(b)),
{
    let keep = |c: char| !is_digit(c);
    lemma_json_without_digits(a);
    lemma_json_without_digits(b);
    let q = seq!['"'];
    Seq::filter_distributes_over_add(q, json_chars(a), keep);
    Seq::filter_distributes_over_add(q + json_chars(a), q, keep);
    Seq::filter_distributes_over_add(q, json_chars(b), keep);
    Seq::filter_distributes_over_add(q + json_chars(b), q, keep);
}

} // verus!
