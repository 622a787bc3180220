//! Helpers of the MCP client that talks to the daemon over HTTP.

use vstd::prelude::*;
use crate::text::{chars_of, push_char};

verus! {

/// ASCII letters and digits and `-`, `_`, `.`, `~` stay as they are.
pub open spec fn is_unreserved(b: u8) -> bool {
    (48 <= b <= 57) || (65 <= b <= 90) || (97 <= b <= 122) || b == 45 || b == 95 || b == 46 || b == 126
}

/// Upper-case hex digit of a nibble.
pub open spec fn hex_upper(n: u8) -> char {
    if n < 10 { (48 + n) as char } else { (55 + n) as char }
}

/// A byte as it appears in a percent-encoded string.
pub open spec fn encode_byte(b: u8) -> Seq<char> {
    if is_unreserved(b) {
        seq![b as char]
    } else {
        seq!['%', hex_upper(b / 16), hex_upper(b % 16)]
    }
}

/// Percent-encoding of a byte string.
pub open spec fn percent_encoded(bytes: Seq<u8>) -> Seq<char>
    decreases bytes.len(),
{
    if bytes.len() == 0 {
        Seq::empty()
    } else {
        percent_encoded(bytes.drop_last()) + encode_byte(bytes.last())
    }
}

fn hex_digit(n: u8) -> (c: char)
    requires
        n < 16,
    ensures
        c == hex_upper(n),
{
    if n < 10 {
        (48u8 + n) as char
    } else {
        (55u8 + n) as char
    }
}

/// Minimal percent-encoding for query/path segments: every UTF-8 byte of
/// `s` other than ASCII letters, digits and `-_.~` becomes `%XX`.
pub fn encode(s: &str) -> (r: String)
    ensures
        r@ == percent_encoded(vstd::utf8::encode_utf8(s@)),
{
    let bytes = s.as_bytes();
    let mut out = String::new();
    let mut i: usize = 0;
    while i < bytes.len()
        invariant
            i <= bytes@.len(),
            out@ == percent_encoded(bytes@.take(i as int)),
        decreases bytes@.len() - i,
    {
        let b = bytes[i];
        assert(bytes@.take(i + 1).drop_last() =~= bytes@.take(i as int));
        assert(bytes@.take(i + 1).last() == b);
        let keep = (48 <= b && b <= 57) || (65 <= b && b <= 90) || (97 <= b && b <= 122) || b == 45 || b == 95 || b == 46
            || b == 126;
        let ghost before = out@;
        if keep {
            push_char(&mut out, b as char);
        } else {
            push_char(&mut out, '%');
            push_char(&mut out, hex_digit(b / 16));
            push_char(&mut out, hex_digit(b % 16));
        }
        assert(out@ =~= before + encode_byte(b));
        i += 1;
    }
    assert(bytes@.take(bytes@.len() as int) =~= bytes@);
    out
}

/// A character that can appear in a percent-encoded string.
pub open spec fn encoded_char(c: char) -> bool {
    ('0' <= c && c <= '9') || ('A' <= c && c <= 'Z') || ('a' <= c && c <= 'z') || c == '-' || c == '_' || c == '.'
        || c == '~' || c == '%'
}

/// Percent-encoding leaves text made only of unreserved bytes as it is,
/// and its output only ever holds unreserved characters, `%` and
/// upper-case hex digits.
pub proof fn law_encode_safe(bytes: Seq<u8>)
    ensures
        (forall|i: int| 0 <= i < bytes.len() ==> is_unreserved(#[trigger] bytes[i])) ==> percent_encoded(bytes)
            == bytes.map_values(|b: u8| b as char),
        forall|i: int| 0 <= i < percent_encoded(bytes).len() ==> encoded_char(#[trigger] percent_encoded(bytes)[i]),
    decreases bytes.len(),
{
    if bytes.len() > 0 {
        let b0 = bytes.drop_last();
        law_encode_safe(b0);
        let last = bytes.last();
        assert(bytes[bytes.len() - 1] == last);
        if forall|i: int| 0 <= i < bytes.len() ==> is_unreserved(#[trigger] bytes[i]) {
            assert forall|i: int| 0 <= i < b0.len() implies is_unreserved(#[trigger] b0[i]) by {
                assert(b0[i] == bytes[i]);
            }
            assert(bytes.map_values(|b: u8| b as char) =~= b0.map_values(|b: u8| b as char).push(last as char));
        }
        let e = encode_byte(last);
        assert forall|k: int| 0 <= k < e.len() implies encoded_char(#[trigger] e[k]) by {
            if !is_unreserved(last) && k > 0 {
                let n: u8 = if k == 1 { last / 16 } else { last % 16 };
                assert(n < 16);
            }
        }
        let p = percent_encoded(bytes);
        assert forall|i: int| 0 <= i < p.len() implies encoded_char(#[trigger] p[i]) by {
            let q = percent_encoded(b0);
            if i < q.len() {
                assert(p[i] == q[i]);
            } else {
                assert(p[i] == e[i - q.len()]);
            }
        }
    }
}

/// The value of a hex digit (either case).
pub open spec fn hex_value(c: char) -> int {
    if '0' <= c && c <= '9' {
        c as int - 48
    } else if 'A' <= c && c <= 'F' {
        c as int - 55
    } else if 'a' <= c && c <= 'f' {
        c as int - 87
    } else {
        0
    }
}

/// Percent-decoding: `%XY` becomes the byte `0xXY`, any other character
/// the byte of its code.
pub open spec fn pct_decode(t: Seq<char>) -> Seq<u8>
    decreases t.len(),
{
    if t.len() == 0 {
        Seq::empty()
    } else if t[0] == '%' && t.len() >= 3 {
        seq![(hex_value(t[1]) * 16 + hex_value(t[2])) as u8] + pct_decode(t.skip(3))
    } else {
        seq![t[0] as u8] + pct_decode(t.skip(1))
    }
}

/// An upper-case hex digit.
pub open spec fn is_hex_upper(c: char) -> bool {
    ('0' <= c && c <= '9') || ('A' <= c && c <= 'F')
}

proof fn lemma_encoded_front(b: u8, a: Seq<u8>)
    ensures
        percent_encoded(seq![b] + a) == encode_byte(b) + percent_encoded(a),
    decreases a.len(),
{
    if a.len() == 0 {
        assert(seq![b] + a =~= seq![b]);
        assert(seq![b].drop_last() =~= Seq::<u8>::empty());
        assert(percent_encoded(a) == Seq::<char>::empty());
        assert(percent_encoded(seq![b]) == percent_encoded(Seq::<u8>::empty()) + encode_byte(b));
        assert(encode_byte(b) + Seq::<char>::empty() =~= encode_byte(b));
        assert(Seq::<char>::empty() + encode_byte(b) =~= encode_byte(b));
    } else {
        lemma_encoded_front(b, a.drop_last());
        assert((seq![b] + a).drop_last() =~= seq![b] + a.drop_last());
        assert((seq![b] + a).last() == a.last());
        assert(encode_byte(b) + percent_encoded(a.drop_last()) + encode_byte(a.last()) =~= encode_byte(b) + (percent_encoded(
            a.drop_last(),
        ) + encode_byte(a.last())));
    }
}

proof fn lemma_hex_roundtrip(n: u8)
    requires
        n < 16,
    ensures
        hex_value(hex_upper(n)) == n,
        is_hex_upper(hex_upper(n)),
{
}

proof fn lemma_decode_front(b: u8, t: Seq<char>)
    ensures
        pct_decode(encode_byte(b) + t) == seq![b] + pct_decode(t),
{
    let e = encode_byte(b) + t;
    if is_unreserved(b) {
        assert(e[0] == b as char);
        assert(b != 37);
        assert(e.skip(1) =~= t);
        assert((b as char) as u8 == b);
    } else {
        lemma_hex_roundtrip(b / 16);
        lemma_hex_roundtrip(b % 16);
        assert(e[0] == '%');
        assert(e.skip(3) =~= t);
        assert((b / 16) * 16 + b % 16 == b) by (nonlinear_arith);
    }
}

/// Percent-decoding undoes percent-encoding, every `%` the encoding writes
/// is followed by two upper-case hex digits, and any byte that is not
/// unreserved makes the encoding longer than the bytes.
pub proof fn law_encode_decodes(bytes: Seq<u8>)
    ensures
        pct_decode(percent_encoded(bytes)) == bytes,
        forall|i: int| 0 <= i < percent_encoded(bytes).len() && #[trigger] percent_encoded(bytes)[i] == '%' ==> i + 2
            < percent_encoded(bytes).len() && is_hex_upper(percent_encoded(bytes)[i + 1]) && is_hex_upper(
            percent_encoded(bytes)[i + 2],
        ),
        (exists|i: int| 0 <= i < bytes.len() && !is_unreserved(#[trigger] bytes[i])) ==> percent_encoded(bytes).len()
            > bytes.len(),
        percent_encoded(bytes).len() >= bytes.len(),
    decreases bytes.len(),
{
    if bytes.len() > 0 {
        let b = bytes[0];
        let rest = bytes.skip(1);
        assert(bytes =~= seq![b] + rest);
        law_encode_decodes(rest);
        lemma_encoded_front(b, rest);
        lemma_decode_front(b, percent_encoded(rest));
        let e = encode_byte(b);
        let p = percent_encoded(bytes);
        let q = percent_encoded(rest);
        assert(p == e + q);
        if !is_unreserved(b) {
            lemma_hex_roundtrip(b / 16);
            lemma_hex_roundtrip(b % 16);
        }
        assert forall|i: int| 0 <= i < p.len() && #[trigger] p[i] == '%' implies i + 2 < p.len() && is_hex_upper(p[i + 1])
            && is_hex_upper(p[i + 2]) by {
            if i >= e.len() {
                assert(p[i] == q[i - e.len()]);
                assert(q[i - e.len()] == '%');
                assert(p[i + 1] == q[i - e.len() + 1]);
                assert(p[i + 2] == q[i - e.len() + 2]);
            } else if is_unreserved(b) {
                assert(p[i] == b as char);
                assert(b != 37);
            } else if i > 0 {
                assert(p[i] == e[i]);
            }
        }
        if exists|i: int| 0 <= i < bytes.len() && !is_unreserved(#[trigger] bytes[i]) {
            let i = choose|i: int| 0 <= i < bytes.len() && !is_unreserved(#[trigger] bytes[i]);
            if i > 0 {
                assert(rest[i - 1] == bytes[i]);
            }
        }
    }
}

/// `s` without its trailing slashes (`str::trim_end_matches('/')`).
pub open spec fn without_trailing_slashes(s: Seq<char>) -> Seq<char>
    decreases s.len(),
{
    if s.len() > 0 && s.last() == '/' {
        without_trailing_slashes(s.drop_last())
    } else {
        s
    }
}

/// The daemon's base URL as the client keeps it: without trailing slashes.
pub fn trim_base_url(url: &str) -> (r: String)
    ensures
        r@ == without_trailing_slashes(url@),
{
    let cs = chars_of(url);
    let mut n = cs.len();
    assert(cs@.take(n as int) =~= cs@);
    while n > 0 && cs[n - 1] == '/'
        invariant
            n <= cs@.len(),
            cs@ == url@,
            without_trailing_slashes(url@) == without_trailing_slashes(cs@.take(n as int)),
        decreases n,
    {
        assert(cs@.take(n as int).drop_last() =~= cs@.take(n - 1));
        assert(cs@.take(n as int).last() == cs@[n - 1]);
        n -= 1;
    }
    let mut out = String::new();
    let mut i: usize = 0;
    while i < n
        invariant
            i <= n <= cs@.len(),
            out@ == cs@.take(i as int),
        decreases n - i,
    {
        push_char(&mut out, cs[i]);
        assert(cs@.take(i + 1) =~= cs@.take(i as int).push(cs@[i as int]));
        i += 1;
    }
    proof {
        let t = cs@.take(n as int);
        assert(!(t.len() > 0 && t.last() == '/')) by {
            if t.len() > 0 {
                assert(t.last() == cs@[n - 1]);
            }
        }
    }
    out
}

} // verus!
