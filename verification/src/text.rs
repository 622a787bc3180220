//! String helpers shared by the rest of the library.

use vstd::prelude::*;
use crate::metrics::{all_digits, digits_value, is_digit, lemma_digits_value_grows};

verus! {

broadcast use vstd::string::group_string_axioms;

/// Appends one character to a `String` (`String::push`).
#[verifier::external_body]
pub fn push_char(s: &mut String, c: char)
    ensures
        final(s)@ == old(s)@.push(c),
{
    s.push(c);
}

/// Copies a string slice into a fresh `String`.
pub fn owned(s: &str) -> (r: String)
    ensures
        r@ == s@,
{
    s.to_string()
}

/// Character-wise equality of two string slices, decided on their UTF-8 bytes.
pub fn str_eq(a: &str, b: &str) -> (r: bool)
    ensures
        r == (a@ == b@),
{
    let x = a.as_bytes();
    let y = b.as_bytes();
    proof {
        vstd::utf8::encode_utf8_decode_utf8(a@);
        vstd::utf8::encode_utf8_decode_utf8(b@);
    }
    if x.len() != y.len() {
        return false;
    }
    let mut i: usize = 0;
    while i < x.len()
        invariant
            x@ == vstd::utf8::encode_utf8(a@),
            y@ == vstd::utf8::encode_utf8(b@),
            x@.len() == y@.len(),
            i <= x@.len(),
            forall|j: int| 0 <= j < i ==> x@[j] == y@[j],
        decreases x@.len() - i,
    {
        if x[i] != y[i] {
            assert(x@ != y@);
            return false;
        }
        i += 1;
    }
    assert(x@ =~= y@);
    true
}

/// The decimal digit `d` (0 to 9) as a character.
pub open spec fn digit(d: nat) -> char {
    (48 + d) as char
}

/// Decimal notation of a natural number, without leading zeros.
pub open spec fn decimal(n: nat) -> Seq<char>
    decreases n,
{
    if n < 10 {
        seq![digit(n)]
    } else {
        decimal(n / 10).push(digit(n % 10))
    }
}

/// Appends the decimal notation of `n` to `s`.
pub fn push_decimal(s: &mut String, n: u64)
    ensures
        final(s)@ == old(s)@ + decimal(n as nat),
    decreases n,
{
    if n >= 10 {
        push_decimal(s, n / 10);
    }
    let d = (n % 10) as u8;
    let c = (48u8 + d) as char;
    assert(c == digit((n % 10) as nat));
    push_char(s, c);
}

/// Decimal notation of `n` (`n.to_string()`).
pub fn decimal_string(n: u64) -> (r: String)
    ensures
        r@ == decimal(n as nat),
{
    let mut s = String::new();
    push_decimal(&mut s, n);
    assert(s@ =~= decimal(n as nat));
    s
}

/// Appends a string slice to `s`.
pub fn push_str(s: &mut String, t: &str)
    ensures
        final(s)@ == old(s)@ + t@,
{
    s.append(t);
}

/// The characters of a string slice.
pub fn chars_of(s: &str) -> (r: Vec<char>)
    ensures
        r@ == s@,
{
    let mut out: Vec<char> = Vec::new();
    for c in it: s.chars()
        invariant
            out@ == it.seq().take(it.index() as int),
    {
        out.push(c);
    }
    out
}

/// A string holding the given characters.
pub fn string_of(cs: &Vec<char>) -> (r: String)
    ensures
        r@ == cs@,
{
    let mut out = String::new();
    let mut i: usize = 0;
    while i < cs.len()
        invariant
            i <= cs@.len(),
            out@ == cs@.take(i as int),
        decreases cs@.len() - i,
    {
        push_char(&mut out, cs[i]);
        assert(cs@.take(i + 1) =~= cs@.take(i as int).push(cs@[i as int]));
        i += 1;
    }
    assert(cs@.take(cs@.len() as int) =~= cs@);
    out
}

/// `s` splits on `sep` as `str::split` does: the pieces between separators,
/// empty ones included (`""` gives one empty piece).
pub open spec fn split_on(s: Seq<char>, sep: char) -> Seq<Seq<char>>
    decreases s.len(),
{
    if s.len() == 0 {
        seq![Seq::<char>::empty()]
    } else {
        let rest = split_on(s.drop_last(), sep);
        if s.last() == sep {
            rest.push(Seq::<char>::empty())
        } else {
            rest.update(rest.len() - 1, rest.last().push(s.last()))
        }
    }
}

pub proof fn lemma_split_nonempty(s: Seq<char>, sep: char)
    ensures
        split_on(s, sep).len() >= 1,
    decreases s.len(),
{
    if s.len() > 0 {
        lemma_split_nonempty(s.drop_last(), sep);
    }
}

/// Whether `s` begins with `p`.
pub open spec fn has_prefix(s: Seq<char>, p: Seq<char>) -> bool {
    p.len() <= s.len() && s.take(p.len() as int) == p
}

/// `str::starts_with` on characters.
pub fn starts_with(s: &Vec<char>, p: &str) -> (r: bool)
    ensures
        r == has_prefix(s@, p@),
{
    let pc = chars_of(p);
    if pc.len() > s.len() {
        return false;
    }
    let mut i: usize = 0;
    while i < pc.len()
        invariant
            pc@ == p@,
            pc@.len() <= s@.len(),
            i <= pc@.len(),
            forall|j: int| 0 <= j < i ==> s@[j] == pc@[j],
        decreases pc@.len() - i,
    {
        if s[i] != pc[i] {
            assert(s@.take(pc@.len() as int)[i as int] != p@[i as int]);
            return false;
        }
        i += 1;
    }
    assert(s@.take(pc@.len() as int) =~= p@);
    true
}

/// Lexicographic order of character sequences by code point, the order of
/// `str`'s `Ord` (UTF-8 keeps code point order).
pub open spec fn lex_lt(a: Seq<char>, b: Seq<char>) -> bool
    decreases a.len(),
{
    if a.len() == 0 {
        b.len() > 0
    } else if b.len() == 0 {
        false
    } else if a[0] != b[0] {
        (a[0] as int) < (b[0] as int)
    } else {
        lex_lt(a.drop_first(), b.drop_first())
    }
}

pub proof fn lemma_lex_irreflexive(a: Seq<char>)
    ensures
        !lex_lt(a, a),
    decreases a.len(),
{
    if a.len() > 0 {
        lemma_lex_irreflexive(a.drop_first());
    }
}

pub proof fn lemma_lex_asymmetric(a: Seq<char>, b: Seq<char>)
    ensures
        lex_lt(a, b) ==> !lex_lt(b, a),
    decreases a.len(),
{
    if a.len() > 0 && b.len() > 0 && a[0] == b[0] {
        lemma_lex_asymmetric(a.drop_first(), b.drop_first());
    }
}

pub proof fn lemma_lex_transitive(a: Seq<char>, b: Seq<char>, c: Seq<char>)
    requires
        lex_lt(a, b),
        lex_lt(b, c),
    ensures
        lex_lt(a, c),
    decreases a.len(),
{
    if a.len() > 0 && b.len() > 0 && c.len() > 0 && a[0] == b[0] && b[0] == c[0] {
        lemma_lex_transitive(a.drop_first(), b.drop_first(), c.drop_first());
    }
}

pub proof fn lemma_lex_total(a: Seq<char>, b: Seq<char>)
    requires
        a != b,
    ensures
        lex_lt(a, b) || lex_lt(b, a),
    decreases a.len(),
{
    if a.len() == 0 {
        assert(b.len() > 0) by {
            if b.len() == 0 {
                assert(a =~= b);
            }
        }
    } else if b.len() > 0 && a[0] == b[0] {
        if a.drop_first() == b.drop_first() {
            assert(a =~= seq![a[0]] + a.drop_first());
            assert(b =~= seq![b[0]] + b.drop_first());
        }
        lemma_lex_total(a.drop_first(), b.drop_first());
    } else if b.len() > 0 {
        assert((a[0] as int) != (b[0] as int));
    }
}

proof fn lemma_lex_skip(a: Seq<char>, b: Seq<char>, i: int)
    requires
        0 <= i <= a.len(),
        i <= b.len(),
        a.take(i) == b.take(i),
    ensures
        lex_lt(a, b) == lex_lt(a.skip(i), b.skip(i)),
    decreases i,
{
    if i > 0 {
        assert(a.take(i - 1) =~= a.take(i).take(i - 1));
        assert(b.take(i - 1) =~= b.take(i).take(i - 1));
        lemma_lex_skip(a, b, i - 1);
        assert(a[i - 1] == a.take(i)[i - 1]);
        assert(b[i - 1] == b.take(i)[i - 1]);
        assert(a.skip(i - 1).drop_first() =~= a.skip(i));
        assert(b.skip(i - 1).drop_first() =~= b.skip(i));
    } else {
        assert(a.skip(0) =~= a);
        assert(b.skip(0) =~= b);
    }
}

/// Whether `a` sorts before `b` (`a < b` on `str`).
pub fn str_lt(a: &str, b: &str) -> (r: bool)
    ensures
        r == lex_lt(a@, b@),
{
    let x = chars_of(a);
    let y = chars_of(b);
    let mut i: usize = 0;
    while i < x.len() && i < y.len() && x[i] == y[i]
        invariant
            x@ == a@,
            y@ == b@,
            i <= x@.len(),
            i <= y@.len(),
            x@.take(i as int) == y@.take(i as int),
        decreases x@.len() - i,
    {
        assert(x@.take(i as int + 1) =~= x@.take(i as int).push(x@[i as int]));
        assert(y@.take(i as int + 1) =~= y@.take(i as int).push(y@[i as int]));
        i += 1;
    }
    proof {
        lemma_lex_skip(x@, y@, i as int);
    }
    if i < x.len() && i < y.len() {
        assert(x@.skip(i as int)[0] == x@[i as int]);
        assert(y@.skip(i as int)[0] == y@[i as int]);
        x[i] < y[i]
    } else {
        i == x.len() && i < y.len()
    }
}

/// Unicode `White_Space`, the characters `char::is_whitespace` accepts.
pub open spec fn is_ws(c: char) -> bool {
    ('\u{9}' <= c && c <= '\u{d}') || c == ' ' || c == '\u{85}' || c == '\u{a0}' || c == '\u{1680}' || ('\u{2000}' <= c
        && c <= '\u{200a}') || c == '\u{2028}' || c == '\u{2029}' || c == '\u{202f}' || c == '\u{205f}' || c == '\u{3000}'
}

/// `char::is_whitespace`.
pub fn is_whitespace(c: char) -> (r: bool)
    ensures
        r == is_ws(c),
{
    ('\u{9}' <= c && c <= '\u{d}') || c == ' ' || c == '\u{85}' || c == '\u{a0}' || c == '\u{1680}' || ('\u{2000}' <= c
        && c <= '\u{200a}') || c == '\u{2028}' || c == '\u{2029}' || c == '\u{202f}' || c == '\u{205f}' || c == '\u{3000}'
}

/// `s` without its leading whitespace.
pub open spec fn strip_front(s: Seq<char>) -> Seq<char>
    decreases s.len(),
{
    if s.len() > 0 && is_ws(s[0]) {
        strip_front(s.drop_first())
    } else {
        s
    }
}

/// `s` without its trailing whitespace.
pub open spec fn strip_back(s: Seq<char>) -> Seq<char>
    decreases s.len(),
{
    if s.len() > 0 && is_ws(s.last()) {
        strip_back(s.drop_last())
    } else {
        s
    }
}

/// `str::trim`: without leading and trailing whitespace.
pub open spec fn trimmed(s: Seq<char>) -> Seq<char> {
    strip_back(strip_front(s))
}

/// The characters of `s` without leading and trailing whitespace.
pub fn trim_chars(cs: &Vec<char>) -> (r: Vec<char>)
    ensures
        r@ == trimmed(cs@),
{
    let n = cs.len();
    let mut i: usize = 0;
    assert(cs@.skip(0) =~= cs@);
    while i < n && is_whitespace(cs[i])
        invariant
            n == cs@.len(),
            i <= n,
            strip_front(cs@) == strip_front(cs@.skip(i as int)),
        decreases n - i,
    {
        assert(cs@.skip(i as int).drop_first() =~= cs@.skip(i as int + 1));
        i += 1;
    }
    assert(strip_front(cs@) == cs@.skip(i as int));
    let mut j: usize = n;
    while j > i && is_whitespace(cs[j - 1])
        invariant
            n == cs@.len(),
            i <= j <= n,
            strip_back(cs@.skip(i as int)) == strip_back(cs@.subrange(i as int, j as int)),
        decreases j,
    {
        assert(cs@.subrange(i as int, j as int).drop_last() =~= cs@.subrange(i as int, j - 1));
        j -= 1;
    }
    assert(cs@.skip(i as int) =~= cs@.subrange(i as int, n as int));
    let mut out: Vec<char> = Vec::new();
    let mut k: usize = i;
    while k < j
        invariant
            i <= k <= j <= n,
            n == cs@.len(),
            out@ == cs@.subrange(i as int, k as int),
        decreases j - k,
    {
        out.push(cs[k]);
        assert(cs@.subrange(i as int, k + 1) =~= cs@.subrange(i as int, k as int).push(cs@[k as int]));
        k += 1;
    }
    out
}

/// A line without the `\r` of a `\r\n` ending.
pub open spec fn strip_cr(l: Seq<char>) -> Seq<char> {
    if l.len() > 0 && l.last() == '\r' {
        l.drop_last()
    } else {
        l
    }
}

/// `str::lines`: the pieces between `\n`s, each ended one losing a `\r`
/// before its `\n`, and no empty piece after a final `\n`.
pub open spec fn lines_of(s: Seq<char>) -> Seq<Seq<char>> {
    let parts = split_on(s, '\n');
    parts.drop_last().map_values(|l: Seq<char>| strip_cr(l)) + if parts.last().len() > 0 {
        seq![parts.last()]
    } else {
        Seq::empty()
    }
}

/// The lines of `s`, as `str::lines` yields them.
pub fn lines(s: &str) -> (r: Vec<Vec<char>>)
    ensures
        r@.map_values(|l: Vec<char>| l@) == lines_of(s@),
{
    let cs = chars_of(s);
    let mut out: Vec<Vec<char>> = Vec::new();
    let mut cur: Vec<char> = Vec::new();
    let mut i: usize = 0;
    proof {
        assert(cs@.take(0) =~= Seq::<char>::empty());
    }
    while i < cs.len()
        invariant
            cs@ == s@,
            i <= cs@.len(),
            split_on(cs@.take(i as int), '\n').len() >= 1,
            cur@ == split_on(cs@.take(i as int), '\n').last(),
            out@.map_values(|l: Vec<char>| l@) == split_on(cs@.take(i as int), '\n').drop_last().map_values(
                |l: Seq<char>| strip_cr(l),
            ),
        decreases cs@.len() - i,
    {
        let c = cs[i];
        let ghost before = split_on(cs@.take(i as int), '\n');
        let ghost t = cs@.take(i as int + 1);
        proof {
            assert(t.drop_last() =~= cs@.take(i as int));
            assert(t.last() == c);
            lemma_split_nonempty(t, '\n');
        }
        if c == '\n' {
            let mut line = cur;
            if line.len() > 0 && line[line.len() - 1] == '\r' {
                line.pop();
            }
            proof {
                assert(line@ == strip_cr(before.last())) by {
                    if before.last().len() > 0 && before.last().last() == '\r' {
                        assert(line@ =~= before.last().drop_last());
                    }
                }
                assert(split_on(t, '\n') == before.push(Seq::<char>::empty()));
                assert(split_on(t, '\n').drop_last() =~= before);
                assert(before =~= before.drop_last().push(before.last()));
                assert(out@.push(line).map_values(|l: Vec<char>| l@) =~= out@.map_values(|l: Vec<char>| l@).push(line@));
                assert(before.map_values(|l: Seq<char>| strip_cr(l)) =~= before.drop_last().map_values(
                    |l: Seq<char>| strip_cr(l),
                ).push(strip_cr(before.last())));
                assert(out@.push(line).map_values(|l: Vec<char>| l@) =~= before.map_values(|l: Seq<char>| strip_cr(l)));
            }
            out.push(line);
            cur = Vec::new();
        } else {
            cur.push(c);
            proof {
                let after = split_on(t, '\n');
                assert(after == before.update(before.len() - 1, before.last().push(c)));
                assert(after.drop_last() =~= before.drop_last());
            }
        }
        i += 1;
    }
    proof {
        assert(cs@.take(cs@.len() as int) =~= cs@);
    }
    if cur.len() > 0 {
        proof {
            assert(out@.push(cur).map_values(|l: Vec<char>| l@) =~= lines_of(s@));
        }
        out.push(cur);
    } else {
        assert(out@.map_values(|l: Vec<char>| l@) =~= lines_of(s@));
    }
    out
}

/// The result of `str::to_lowercase`.
pub uninterp spec fn lowercase_of(s: Seq<char>) -> Seq<char>;

/// `str::to_lowercase`.
#[verifier::external_body]
pub fn lowercase(s: &str) -> (r: String)
    ensures
        r@ == lowercase_of(s@),
{
    s.to_lowercase()
}

/// The text before the first `c` of `l` (all of it when there is none).
pub open spec fn first_piece(l: Seq<char>, c: char) -> Seq<char> {
    split_on(l, c)[0]
}

/// `l.split(c).next()`.
pub fn piece_before(l: &Vec<char>, c: char) -> (r: Vec<char>)
    ensures
        r@ == first_piece(l@, c),
        r@.len() <= l@.len(),
{
    let mut first: Vec<char> = Vec::new();
    let mut found = false;
    let mut i: usize = 0;
    proof {
        assert(l@.take(0) =~= Seq::<char>::empty());
    }
    while i < l.len()
        invariant
            i <= l@.len(),
            split_on(l@.take(i as int), c).len() >= 1,
            found == (split_on(l@.take(i as int), c).len() > 1),
            first@ == split_on(l@.take(i as int), c)[0],
            first@.len() <= i,
        decreases l@.len() - i,
    {
        let ghost before = split_on(l@.take(i as int), c);
        let ghost t = l@.take(i as int + 1);
        proof {
            assert(t.drop_last() =~= l@.take(i as int));
            assert(t.last() == l@[i as int]);
        }
        if l[i] == c {
            found = true;
        } else if !found {
            first.push(l[i]);
        }
        i += 1;
    }
    assert(l@.take(l@.len() as int) =~= l@);
    first
}

/// The first `n` characters of `cs`.
pub fn take_chars(cs: &Vec<char>, n: usize) -> (r: Vec<char>)
    requires
        n <= cs@.len(),
    ensures
        r@ == cs@.take(n as int),
{
    let mut out: Vec<char> = Vec::new();
    let mut i: usize = 0;
    while i < n
        invariant
            i <= n <= cs@.len(),
            out@ == cs@.take(i as int),
        decreases n - i,
    {
        out.push(cs[i]);
        assert(cs@.take(i + 1) =~= cs@.take(i as int).push(cs@[i as int]));
        i += 1;
    }
    out
}

pub fn skip_chars(cs: &Vec<char>, from: usize) -> (r: Vec<char>)
    requires
        from <= cs@.len(),
    ensures
        r@ == cs@.skip(from as int),
{
    let mut out: Vec<char> = Vec::new();
    let mut i: usize = from;
    while i < cs.len()
        invariant
            from <= i <= cs@.len(),
            out@ == cs@.subrange(from as int, i as int),
        decreases cs@.len() - i,
    {
        out.push(cs[i]);
        assert(cs@.subrange(from as int, i + 1) =~= cs@.subrange(from as int, i as int).push(cs@[i as int]));
        i += 1;
    }
    assert(cs@.subrange(from as int, cs@.len() as int) =~= cs@.skip(from as int));
    out
}

/// `l.splitn(3, sep)` when it yields three fields: the text before the
/// first `sep`, the text up to the next one, and the rest.
pub open spec fn three_fields(l: Seq<char>, sep: char) -> Option<(Seq<char>, Seq<char>, Seq<char>)> {
    let a = first_piece(l, sep);
    if a.len() < l.len() {
        let rest = l.skip(a.len() as int + 1);
        let b = first_piece(rest, sep);
        if b.len() < rest.len() {
            Some((a, b, rest.skip(b.len() as int + 1)))
        } else {
            None
        }
    } else {
        None
    }
}

/// `l.splitn(3, sep)`, when it yields three fields.
pub fn split3(l: &Vec<char>, sep: char) -> (r: Option<(Vec<char>, Vec<char>, Vec<char>)>)
    ensures
        match r {
            Some((a, b, c)) => three_fields(l@, sep) == Some((a@, b@, c@)),
            None => three_fields(l@, sep) is None,
        },
{
    let a = piece_before(l, sep);
    if a.len() >= l.len() {
        return None;
    }
    let rest = skip_chars(l, a.len() + 1);
    let b = piece_before(&rest, sep);
    if b.len() >= rest.len() {
        return None;
    }
    let c = skip_chars(&rest, b.len() + 1);
    Some((a, b, c))
}

/// A digit of `decimal` is one of `0` to `9` and stands for its value.
pub proof fn lemma_digit_value(d: nat)
    requires
        d < 10,
    ensures
        '0' <= digit(d) <= '9',
        digit(d) as nat == 48 + d,
{
}

/// Decimal notation holds digits only.
pub proof fn lemma_decimal_digits(n: nat)
    ensures
        forall|i: int| 0 <= i < decimal(n).len() ==> '0' <= #[trigger] decimal(n)[i] <= '9',
    decreases n,
{
    lemma_digit_value(n % 10);
    if n >= 10 {
        lemma_decimal_digits(n / 10);
        assert forall|i: int| 0 <= i < decimal(n).len() implies '0' <= #[trigger] decimal(n)[i] <= '9' by {
            if i < decimal(n / 10).len() {
                assert(decimal(n)[i] == decimal(n / 10)[i]);
            }
        }
    }
}

/// Decimal notation has at least one digit, and two or more from ten on.
pub proof fn lemma_decimal_len(n: nat)
    ensures
        decimal(n).len() >= 1,
        n >= 10 ==> decimal(n).len() >= 2,
    decreases n,
{
    if n >= 10 {
        lemma_decimal_len(n / 10);
    }
}

/// Different numbers have different decimal notations.
pub proof fn lemma_decimal_injective(a: nat, b: nat)
    requires
        decimal(a) == decimal(b),
    ensures
        a == b,
    decreases a,
{
    lemma_decimal_len(a);
    lemma_decimal_len(b);
    lemma_digit_value(a % 10);
    lemma_digit_value(b % 10);
    if a >= 10 && b >= 10 {
        assert(decimal(a).last() == digit(a % 10));
        assert(decimal(b).last() == digit(b % 10));
        assert(decimal(a).drop_last() =~= decimal(a / 10));
        assert(decimal(b).drop_last() =~= decimal(b / 10));
        lemma_decimal_injective(a / 10, b / 10);
    } else if a < 10 && b < 10 {
        assert(decimal(a)[0] == digit(a));
        assert(decimal(b)[0] == digit(b));
    }
}


/// Reading decimal notation gives the number back.
pub proof fn lemma_decimal_value(m: nat)
    ensures
        digits_value(decimal(m)) == m,
    decreases m,
{
    lemma_digit_value(m % 10);
    if m < 10 {
        assert(decimal(m).drop_last() =~= Seq::<char>::empty());
        assert(decimal(m).last() == digit(m));
        assert(digits_value(decimal(m)) == digits_value(decimal(m).drop_last()) * 10 + ((decimal(m).last() as nat) - 48) as nat);
        assert(digits_value(Seq::<char>::empty()) == 0);
    } else {
        assert(decimal(m).last() == digit(m % 10));
        lemma_decimal_value(m / 10);
        assert(decimal(m).drop_last() =~= decimal(m / 10));
        assert((m / 10) * 10 + m % 10 == m) by (nonlinear_arith);
        assert(digits_value(decimal(m)) == digits_value(decimal(m).drop_last()) * 10 + ((decimal(m).last() as nat) - 48) as nat);
    }
}

/// The number whose decimal notation (no sign, no leading zeros) is
/// `cs[from..]`, if there is one that fits in a `u64`.
pub fn decimal_value(cs: &Vec<char>, from: usize) -> (r: Option<u64>)
    requires
        from <= cs@.len(),
    ensures
        r matches Some(v) ==> cs@.skip(from as int) == decimal(v as nat),
        r is None ==> forall|m: nat| m <= u64::MAX ==> cs@.skip(from as int) != #[trigger] decimal(m),
{
    let ghost d = cs@.skip(from as int);
    proof {
        assert forall|m: nat| m <= u64::MAX && d == #[trigger] decimal(m) implies all_digits(d) && d.len() > 0
            && digits_value(d) == m by {
            lemma_decimal_digits(m);
            lemma_decimal_len(m);
            lemma_decimal_value(m);
        }
    }
    if from >= cs.len() {
        return None;
    }
    let mut value: u64 = 0;
    let mut i: usize = from;
    while i < cs.len()
        invariant
            from <= i <= cs@.len(),
            d == cs@.skip(from as int),
            forall|j: int| 0 <= j < i - from ==> is_digit(#[trigger] d[j]),
            value == digits_value(d.take(i - from)),
            forall|m: nat| m <= u64::MAX && d == #[trigger] decimal(m) ==> all_digits(d) && d.len() > 0
                && digits_value(d) == m,
        decreases cs@.len() - i,
    {
        let c = cs[i];
        assert(d[i - from] == c);
        if !('0' <= c && c <= '9') {
            assert(!all_digits(d)) by {
                assert(!is_digit(d[i - from]));
            }
            return None;
        }
        let digit = (c as u32 - 48) as u64;
        assert(d.take(i - from + 1).drop_last() =~= d.take(i - from));
        assert(d.take(i - from + 1).last() == c);
        assert(digits_value(d.take(i - from + 1)) == value * 10 + digit);
        if value > 1844674407370955161 || (value == 1844674407370955161 && digit > 5) {
            proof {
                assert(value * 10 + digit > u64::MAX) by (nonlinear_arith)
                    requires value > 1844674407370955161 || (value == 1844674407370955161 && digit > 5);
                lemma_digits_value_grows(d, i - from + 1);
            }
            return None;
        }
        value = value * 10 + digit;
        i += 1;
    }
    assert(d.take(i - from) =~= d);
    let rest = string_of(&skip_chars(cs, from));
    let back = decimal_string(value);
    if str_eq(rest.as_str(), back.as_str()) {
        Some(value)
    } else {
        None
    }
}

} // verus!
