//! Metric labels: request paths with their ID segments collapsed, and HTTP
//! status classes.

use vstd::prelude::*;
use crate::text::{chars_of, split_on, lemma_split_nonempty, has_prefix, push_char, push_str, owned};

verus! {

pub open spec fn is_digit(c: char) -> bool {
    '0' <= c && c <= '9'
}

pub open spec fn is_hex_digit(c: char) -> bool {
    is_digit(c) || ('a' <= c && c <= 'f') || ('A' <= c && c <= 'F')
}

/// The value of a string of decimal digits.
pub open spec fn digits_value(s: Seq<char>) -> nat
    decreases s.len(),
{
    if s.len() == 0 {
        0
    } else {
        digits_value(s.drop_last()) * 10 + ((s.last() as nat) - 48) as nat
    }
}

/// Whether `u64::from_str` accepts `s`: an optional `+`, then one or more
/// decimal digits whose value fits in a `u64`.
pub open spec fn parses_as_u64(s: Seq<char>) -> bool {
    &&& unsigned_digits(s).len() > 0
    &&& all_digits(unsigned_digits(s))
    &&& digits_value(unsigned_digits(s)) <= u64::MAX
}

/// `s` without a leading `+`.
pub open spec fn unsigned_digits(s: Seq<char>) -> Seq<char> {
    if s.len() > 0 && s[0] == '+' { s.drop_first() } else { s }
}

pub open spec fn all_digits(d: Seq<char>) -> bool {
    forall|i: int| 0 <= i < d.len() ==> is_digit(#[trigger] d[i])
}

/// Eight, four, four, four and twelve hex digits joined by dashes (only hex
/// digits and dashes, dashes at those four places).
pub open spec fn uuid_shaped(s: Seq<char>) -> bool {
    &&& s.len() == 36
    &&& s[8] == '-' && s[13] == '-' && s[18] == '-' && s[23] == '-'
    &&& forall|i: int| 0 <= i < s.len() ==> is_hex_digit(#[trigger] s[i]) || s[i] == '-'
}

/// Groups of digits separated by single dots: `1`, `1118`, `1.2`.
pub open spec fn dotted_digits(r: Seq<char>) -> bool {
    &&& r.len() > 0
    &&& is_digit(r[0])
    &&& is_digit(r.last())
    &&& forall|i: int| 0 <= i < r.len() ==> is_digit(#[trigger] r[i]) || r[i] == '.'
    &&& forall|i: int| 0 <= i < r.len() - 1 ==> !(#[trigger] r[i] == '.' && r[i + 1] == '.')
}

/// An agent ID: `id` followed by digits, in dot-separated groups for
/// sub-agents (`id1`, `id1118`, `id1.2`).
pub open spec fn agent_id_shaped(seg: Seq<char>) -> bool {
    has_prefix(seg, "id"@) && dotted_digits(seg.skip(2))
}

/// A path segment that looks like an ID: a `u64`, an agent ID, or a UUID.
pub open spec fn is_id(seg: Seq<char>) -> bool {
    parses_as_u64(seg) || agent_id_shaped(seg) || uuid_shaped(seg)
}

/// The label of a non-empty segment.
pub open spec fn seg_label(seg: Seq<char>) -> Seq<char> {
    if is_id(seg) { ":id"@ } else { seg }
}

/// Labels of the non-empty segments, in order.
pub open spec fn kept_labels(segs: Seq<Seq<char>>) -> Seq<Seq<char>>
    decreases segs.len(),
{
    if segs.len() == 0 {
        Seq::empty()
    } else {
        let k = kept_labels(segs.drop_last());
        if segs.last().len() > 0 { k.push(seg_label(segs.last())) } else { k }
    }
}

/// Each label preceded by a slash.
pub open spec fn slash_prefixed(labels: Seq<Seq<char>>) -> Seq<char>
    decreases labels.len(),
{
    if labels.len() == 0 {
        Seq::empty()
    } else {
        slash_prefixed(labels.drop_last()) + seq!['/'] + labels.last()
    }
}

/// The metric label of a request path.
pub open spec fn normalized(path: Seq<char>) -> Seq<char> {
    let labels = kept_labels(split_on(path, '/'));
    if labels.len() == 0 { "/"@ } else { slash_prefixed(labels) }
}

pub proof fn lemma_digits_value_grows(s: Seq<char>, j: int)
    requires
        0 <= j <= s.len(),
    ensures
        digits_value(s.take(j)) <= digits_value(s),
    decreases s.len() - j,
{
    if j < s.len() {
        lemma_digits_value_grows(s, j + 1);
        assert(s.take(j + 1).drop_last() =~= s.take(j));
    } else {
        assert(s.take(j) =~= s);
    }
}

/// `u64::from_str(seg).is_ok()`.
fn parses_u64(cs: &Vec<char>) -> (r: bool)
    ensures
        r == parses_as_u64(cs@),
{
    let start: usize = if cs.len() > 0 && cs[0] == '+' { 1 } else { 0 };
    let ghost d = unsigned_digits(cs@);
    assert(d =~= cs@.skip(start as int));
    if start >= cs.len() {
        return false;
    }
    let mut value: u64 = 0;
    let mut i: usize = start;
    while i < cs.len()
        invariant
            start <= i <= cs@.len(),
            d == cs@.skip(start as int),
            d == unsigned_digits(cs@),
            d.len() > 0,
            forall|j: int| 0 <= j < i - start ==> is_digit(#[trigger] d[j]),
            value == digits_value(d.take(i - start)),
        decreases cs@.len() - i,
    {
        let c = cs[i];
        assert(d[i - start] == c);
        if !('0' <= c && c <= '9') {
            assert(!is_digit(d[i - start]));
            assert(0 <= i - start < d.len());
            assert(!(forall|j: int| 0 <= j < d.len() ==> is_digit(#[trigger] d[j])));
            assert(!parses_as_u64(cs@));
            return false;
        }
        let digit = (c as u32 - 48) as u64;
        assert(d.take(i - start + 1).drop_last() =~= d.take(i - start));
        assert(d.take(i - start + 1).last() == c);
        assert(digits_value(d.take(i - start + 1)) == value * 10 + digit);
        if value > 1844674407370955161 || (value == 1844674407370955161 && digit > 5) {
            proof {
                assert(value * 10 + digit > u64::MAX) by (nonlinear_arith)
                    requires value > 1844674407370955161 || (value == 1844674407370955161 && digit > 5);
                lemma_digits_value_grows(d, i - start + 1);
            }
            return false;
        }
        value = value * 10 + digit;
        i += 1;
    }
    assert(d.take(i - start) =~= d);
    true
}

/// Whether `cs` from position 2 on holds digit groups separated by single
/// dots.
fn dotted_digits_from_two(cs: &Vec<char>) -> (r: bool)
    requires
        cs@.len() >= 2,
    ensures
        r == dotted_digits(cs@.skip(2)),
{
    let ghost t = cs@.skip(2);
    let n = cs.len();
    if n == 2 {
        return false;
    }
    if !('0' <= cs[2] && cs[2] <= '9') || !('0' <= cs[n - 1] && cs[n - 1] <= '9') {
        assert(t[0] == cs@[2] && t.last() == cs@[n - 1]);
        return false;
    }
    let mut i: usize = 2;
    while i < n
        invariant
            2 <= i <= n,
            n == cs@.len(),
            t == cs@.skip(2),
            forall|j: int| 0 <= j < i - 2 ==> is_digit(#[trigger] t[j]) || t[j] == '.',
            forall|j: int| 0 <= j < i - 3 ==> !(#[trigger] t[j] == '.' && t[j + 1] == '.'),
        decreases n - i,
    {
        let c = cs[i];
        assert(t[i - 2] == c);
        if !(('0' <= c && c <= '9') || c == '.') {
            return false;
        }
        if i > 2 && c == '.' && cs[i - 1] == '.' {
            assert(t[i - 3] == '.' && t[i - 2] == '.');
            return false;
        }
        i += 1;
    }
    assert(t[0] == cs@[2] && t.last() == cs@[n - 1]);
    true
}

/// Whether a path segment looks like an ID: a `u64`, an agent ID (`id`
/// then dot-separated digit groups), or a UUID.
pub fn is_id_segment(seg: &str) -> (r: bool)
    ensures
        r == is_id(seg@),
{
    let cs = chars_of(seg);
    proof {
        reveal_strlit("id");
    }
    if parses_u64(&cs) {
        return true;
    }
    if crate::text::starts_with(&cs, "id") && dotted_digits_from_two(&cs) {
        return true;
    }
    if cs.len() == 36 {
        let has_dashes = cs[8] == '-' && cs[13] == '-' && cs[18] == '-' && cs[23] == '-';
        if has_dashes {
            let mut i: usize = 0;
            while i < cs.len()
                invariant
                    i <= cs@.len(),
                    cs@ == seg@,
                    !parses_as_u64(seg@),
                    !agent_id_shaped(seg@),
                    cs@.len() == 36,
                    cs@[8] == '-' && cs@[13] == '-' && cs@[18] == '-' && cs@[23] == '-',
                    forall|j: int| 0 <= j < i ==> is_hex_digit(#[trigger] cs@[j]) || cs@[j] == '-',
                decreases cs@.len() - i,
            {
                let c = cs[i];
                let ok = ('0' <= c && c <= '9') || ('a' <= c && c <= 'f') || ('A' <= c && c <= 'F') || c == '-';
                if !ok {
                    assert(!(is_hex_digit(cs@[i as int]) || cs@[i as int] == '-'));
                    return false;
                }
                i += 1;
            }
            return true;
        }
    }
    false
}

/// Appends the label of a finished segment, if it is non-empty.
fn emit(out: &mut String, seg: &Vec<char>, Ghost(labels): Ghost<Seq<Seq<char>>>)
    requires
        old(out)@ == slash_prefixed(labels),
    ensures
        final(out)@ == slash_prefixed(if seg@.len() > 0 { labels.push(seg_label(seg@)) } else { labels }),
{
    if seg.len() > 0 {
        let text = crate::text::string_of(seg);
        let ghost ls = labels.push(seg_label(seg@));
        push_char(out, '/');
        if is_id_segment(text.as_str()) {
            push_str(out, ":id");
            proof {
                reveal_strlit(":id");
            }
        } else {
            push_str(out, text.as_str());
        }
        assert(ls.drop_last() =~= labels);
        assert(final(out)@ =~= slash_prefixed(ls));
    }
}

/// Normalize a path into a stable label for metrics.
///
/// Collapses path segments that look like IDs (numeric, `id…` or UUID)
/// into a single `:id` placeholder to avoid cardinality explosion.
pub fn normalize_path(path: &str) -> (r: String)
    ensures
        r@ == normalized(path@),
{
    let cs = chars_of(path);
    let mut out = String::new();
    let mut cur: Vec<char> = Vec::new();
    let mut i: usize = 0;
    proof {
        assert(cs@.take(0) =~= Seq::<char>::empty());
        assert(kept_labels(Seq::<Seq<char>>::empty()) =~= Seq::<Seq<char>>::empty());
    }
    while i < cs.len()
        invariant
            i <= cs@.len(),
            cs@ == path@,
            split_on(cs@.take(i as int), '/').len() >= 1,
            cur@ == split_on(cs@.take(i as int), '/').last(),
            out@ == slash_prefixed(kept_labels(split_on(cs@.take(i as int), '/').drop_last())),
        decreases cs@.len() - i,
    {
        let c = cs[i];
        let ghost before = split_on(cs@.take(i as int), '/');
        let ghost t = cs@.take(i + 1);
        assert(t.drop_last() =~= cs@.take(i as int));
        assert(t.last() == c);
        if c == '/' {
            emit(&mut out, &cur, Ghost(kept_labels(before.drop_last())));
            proof {
                assert(split_on(t, '/') == before.push(Seq::<char>::empty()));
                assert(split_on(t, '/').drop_last() =~= before);
                assert(before.drop_last().push(before.last()) =~= before);
                assert(kept_labels(before) == if before.last().len() > 0 {
                    kept_labels(before.drop_last()).push(seg_label(before.last()))
                } else {
                    kept_labels(before.drop_last())
                });
            }
            cur = Vec::new();
        } else {
            cur.push(c);
            proof {
                let after = split_on(t, '/');
                assert(after == before.update(before.len() - 1, before.last().push(c)));
                assert(after.drop_last() =~= before.drop_last());
            }
        }
        i += 1;
    }
    let ghost all = split_on(cs@.take(i as int), '/');
    emit(&mut out, &cur, Ghost(kept_labels(all.drop_last())));
    proof {
        assert(cs@.take(i as int) =~= path@);
        assert(all.drop_last().push(all.last()) =~= all);
        assert(kept_labels(all) == if all.last().len() > 0 {
            kept_labels(all.drop_last()).push(seg_label(all.last()))
        } else {
            kept_labels(all.drop_last())
        });
    }
    if out.as_str().is_empty() {
        proof {
            reveal_strlit("/");
            let ls = kept_labels(all);
            if ls.len() > 0 {
                assert(slash_prefixed(ls).len() > 0);
            }
        }
        return owned("/");
    }
    proof {
        let ls = kept_labels(all);
        if ls.len() == 0 {
            assert(slash_prefixed(ls) == Seq::<char>::empty());
        }
    }
    out
}

/// The class of an HTTP status code in request counters.
pub open spec fn status_class_of(status: u16) -> Seq<char> {
    if 200 <= status <= 299 {
        "2xx"@
    } else if 300 <= status <= 399 {
        "3xx"@
    } else if 400 <= status <= 499 {
        "4xx"@
    } else if 500 <= status <= 599 {
        "5xx"@
    } else {
        "other"@
    }
}

pub fn status_class(status: u16) -> (r: &'static str)
    ensures
        r@ == status_class_of(status),
{
    proof {
        reveal_strlit("2xx");
        reveal_strlit("3xx");
        reveal_strlit("4xx");
        reveal_strlit("5xx");
        reveal_strlit("other");
    }
    if 200 <= status && status <= 299 {
        "2xx"
    } else if 300 <= status && status <= 399 {
        "3xx"
    } else if 400 <= status && status <= 499 {
        "4xx"
    } else if 500 <= status && status <= 599 {
        "5xx"
    } else {
        "other"
    }
}

/// No piece of a split holds the separator.
proof fn lemma_split_pieces_clean(s: Seq<char>, sep: char)
    ensures
        forall|i: int| 0 <= i < split_on(s, sep).len() ==> !(#[trigger] split_on(s, sep)[i]).contains(sep),
    decreases s.len(),
{
    lemma_split_nonempty(s, sep);
    if s.len() > 0 {
        lemma_split_pieces_clean(s.drop_last(), sep);
        lemma_split_nonempty(s.drop_last(), sep);
        let rest = split_on(s.drop_last(), sep);
        if s.last() != sep {
            let l = rest.last();
            assert forall|i: int| 0 <= i < split_on(s, sep).len() implies !(#[trigger] split_on(s, sep)[i]).contains(sep) by {
                if i == rest.len() - 1 {
                    assert(!l.contains(sep));
                    if l.push(s.last()).contains(sep) {
                        let k = choose|k: int| 0 <= k < l.push(s.last()).len() && l.push(s.last())[k] == sep;
                        assert(k < l.len());
                        assert(l[k] == sep);
                    }
                }
            }
        } else {
            assert forall|i: int| 0 <= i < split_on(s, sep).len() implies !(#[trigger] split_on(s, sep)[i]).contains(sep) by {
                if i < rest.len() {
                    assert(split_on(s, sep)[i] == rest[i]);
                }
            }
        }
    }
}

/// Appending a text without separators extends the last piece.
proof fn lemma_split_extend(y: Seq<char>, w: Seq<char>, sep: char)
    requires
        !w.contains(sep),
    ensures
        split_on(y + w, sep) == split_on(y, sep).update(split_on(y, sep).len() - 1, split_on(y, sep).last() + w),
    decreases w.len(),
{
    lemma_split_nonempty(y, sep);
    if w.len() == 0 {
        assert(y + w =~= y);
        assert(split_on(y, sep).last() + w =~= split_on(y, sep).last());
        assert(split_on(y, sep).update(split_on(y, sep).len() - 1, split_on(y, sep).last()) =~= split_on(y, sep));
    } else {
        let w0 = w.drop_last();
        assert(!w0.contains(sep)) by {
            if w0.contains(sep) {
                let k = choose|k: int| 0 <= k < w0.len() && w0[k] == sep;
                assert(w[k] == sep);
            }
        }
        assert(w.last() != sep) by {
            assert(w[w.len() - 1] == w.last());
        }
        lemma_split_extend(y, w0, sep);
        assert((y + w).drop_last() =~= y + w0);
        assert((y + w).last() == w.last());
        lemma_split_nonempty(y + w0, sep);
        let a = split_on(y, sep);
        assert(split_on(y + w, sep) =~= a.update(a.len() - 1, a.last() + w)) by {
            assert(a.last() + w0 + seq![w.last()] =~= a.last() + w);
            let b = split_on(y + w0, sep);
            assert(b.last() == a.last() + w0);
            assert(b.last().push(w.last()) =~= a.last() + w);
        }
    }
}

/// Each label preceded by a slash splits back into an empty piece and the
/// labels.
proof fn lemma_split_slash_prefixed(labels: Seq<Seq<char>>)
    requires
        forall|i: int| 0 <= i < labels.len() ==> !(#[trigger] labels[i]).contains('/'),
    ensures
        split_on(slash_prefixed(labels), '/') == seq![Seq::<char>::empty()] + labels,
    decreases labels.len(),
{
    if labels.len() == 0 {
        assert(split_on(Seq::<char>::empty(), '/') =~= seq![Seq::<char>::empty()]);
        assert(seq![Seq::<char>::empty()] + labels =~= seq![Seq::<char>::empty()]);
    } else {
        let l = labels.drop_last();
        assert forall|i: int| 0 <= i < l.len() implies !(#[trigger] l[i]).contains('/') by {
            assert(l[i] == labels[i]);
        }
        lemma_split_slash_prefixed(l);
        let x = slash_prefixed(l) + seq!['/'];
        assert(x.drop_last() =~= slash_prefixed(l));
        assert(x.last() == '/');
        let sx = split_on(x, '/');
        assert(sx == split_on(slash_prefixed(l), '/').push(Seq::<char>::empty()));
        assert(!labels.last().contains('/')) by {
            assert(labels[labels.len() - 1] == labels.last());
        }
        lemma_split_extend(x, labels.last(), '/');
        assert(slash_prefixed(labels) == x + labels.last());
        assert(Seq::<char>::empty() + labels.last() =~= labels.last());
        assert(split_on(slash_prefixed(labels), '/') =~= seq![Seq::<char>::empty()] + labels);
    }
}

/// The labels kept from an empty piece followed by non-empty ones are
/// the labels of those.
proof fn lemma_kept_after_empty(labels: Seq<Seq<char>>)
    requires
        forall|i: int| 0 <= i < labels.len() ==> (#[trigger] labels[i]).len() > 0,
    ensures
        kept_labels(seq![Seq::<char>::empty()] + labels) == labels.map_values(|l: Seq<char>| seg_label(l)),
    decreases labels.len(),
{
    let e = seq![Seq::<char>::empty()];
    assert(e.drop_last() =~= Seq::<Seq<char>>::empty());
    assert(e.last() == Seq::<char>::empty());
    assert(kept_labels(e) == kept_labels(Seq::<Seq<char>>::empty()));
    if labels.len() == 0 {
        assert(e + labels =~= e);
        assert(labels.map_values(|l: Seq<char>| seg_label(l)) =~= Seq::<Seq<char>>::empty());
    } else {
        let l = labels.drop_last();
        assert forall|i: int| 0 <= i < l.len() implies (#[trigger] l[i]).len() > 0 by {
            assert(l[i] == labels[i]);
        }
        lemma_kept_after_empty(l);
        assert((e + labels).drop_last() =~= e + l);
        assert((e + labels).last() == labels.last());
        assert(labels[labels.len() - 1] == labels.last());
        assert(labels.last().len() > 0);
        assert(kept_labels(e + labels) == kept_labels(e + l).push(seg_label(labels.last())));
        assert(labels.map_values(|x: Seq<char>| seg_label(x)) =~= l.map_values(|x: Seq<char>| seg_label(x)).push(
            seg_label(labels.last()),
        ));
    }
}

/// The kept labels are non-empty and without slashes, and each is its own
/// label.
proof fn lemma_kept_labels_fixed(segs: Seq<Seq<char>>)
    requires
        forall|i: int| 0 <= i < segs.len() ==> !(#[trigger] segs[i]).contains('/'),
    ensures
        forall|i: int| 0 <= i < kept_labels(segs).len() ==> (#[trigger] kept_labels(segs)[i]).len() > 0 && !kept_labels(
            segs,
        )[i].contains('/') && seg_label(kept_labels(segs)[i]) == kept_labels(segs)[i],
    decreases segs.len(),
{
    if segs.len() > 0 {
        let s0 = segs.drop_last();
        assert forall|i: int| 0 <= i < s0.len() implies !(#[trigger] s0[i]).contains('/') by {
            assert(s0[i] == segs[i]);
        }
        lemma_kept_labels_fixed(s0);
        let last = segs.last();
        assert(segs[segs.len() - 1] == last);
        let k0 = kept_labels(s0);
        assert(kept_labels(segs) == if last.len() > 0 {
            k0.push(seg_label(last))
        } else {
            k0
        });
        if last.len() > 0 {
            reveal_strlit(":id");
            reveal_strlit("id");
            let lab = seg_label(last);
            assert(lab.len() > 0 && !lab.contains('/') && seg_label(lab) == lab) by {
                if is_id(last) {
                    assert(lab == seq![':', 'i', 'd']);
                    assert(!is_digit(lab[0]));
                    assert(!all_digits(unsigned_digits(lab)));
                    assert(!has_prefix(lab, "id"@)) by {
                        assert(lab.take(2)[0] == ':');
                    }
                    assert(!uuid_shaped(lab));
                    if lab.contains('/') {
                        let k = choose|k: int| 0 <= k < lab.len() && lab[k] == '/';
                    }
                }
            }
            assert forall|i: int| 0 <= i < kept_labels(segs).len() implies (#[trigger] kept_labels(segs)[i]).len() > 0
                && !kept_labels(segs)[i].contains('/') && seg_label(kept_labels(segs)[i]) == kept_labels(segs)[i] by {
                if i < k0.len() {
                    assert(kept_labels(segs)[i] == k0[i]);
                }
            }
        }
    }
}

/// Non-empty labels without slashes, each preceded by a slash, give a text
/// that starts with a slash, ends with something else, and holds no two
/// slashes in a row.
proof fn lemma_slash_prefixed_shape(labels: Seq<Seq<char>>)
    requires
        labels.len() > 0,
        forall|i: int| 0 <= i < labels.len() ==> (#[trigger] labels[i]).len() > 0 && !labels[i].contains('/'),
    ensures
        slash_prefixed(labels).len() > 0,
        slash_prefixed(labels)[0] == '/',
        slash_prefixed(labels).last() != '/',
        forall|i: int| 0 <= i < slash_prefixed(labels).len() - 1 ==> !(#[trigger] slash_prefixed(labels)[i] == '/'
            && slash_prefixed(labels)[i + 1] == '/'),
    decreases labels.len(),
{
    let l = labels.drop_last();
    let x = labels.last();
    assert(labels[labels.len() - 1] == x);
    assert(x.len() > 0 && !x.contains('/'));
    assert(x[0] != '/') by {
        if x[0] == '/' {
            assert(x.contains('/'));
        }
    }
    assert(x.last() != '/') by {
        if x.last() == '/' {
            assert(x[x.len() - 1] == '/');
        }
    }
    let t = slash_prefixed(labels);
    let h = slash_prefixed(l);
    assert(t == h + seq!['/'] + x);
    if l.len() == 0 {
        assert(h =~= Seq::<char>::empty());
        assert(t =~= seq!['/'] + x);
        assert forall|i: int| 0 <= i < t.len() - 1 implies !(#[trigger] t[i] == '/' && t[i + 1] == '/') by {
            if i >= 1 {
                assert(t[i] == x[i - 1]);
                assert(!(x[i - 1] == '/')) by {
                    if x[i - 1] == '/' {
                        assert(x.contains('/'));
                    }
                }
            }
        }
    } else {
        assert forall|i: int| 0 <= i < l.len() implies (#[trigger] l[i]).len() > 0 && !l[i].contains('/') by {
            assert(l[i] == labels[i]);
        }
        lemma_slash_prefixed_shape(l);
        assert(t[0] == h[0]);
        assert forall|i: int| 0 <= i < t.len() - 1 implies !(#[trigger] t[i] == '/' && t[i + 1] == '/') by {
            if i < h.len() - 1 {
                assert(t[i] == h[i] && t[i + 1] == h[i + 1]);
            } else if i == h.len() - 1 {
                assert(t[i] == h.last());
            } else if i == h.len() {
                assert(t[i + 1] == x[0]);
            } else {
                assert(t[i] == x[i - h.len() - 1]);
                if x[i - h.len() - 1] == '/' {
                    assert(x.contains('/'));
                }
            }
        }
    }
    assert(t.last() == x.last());
}

/// The shape of a metric label: it starts with a slash, holds no two
/// slashes in a row and, unless it is `/`, does not end with one; after the
/// leading slash its segments are the labels of the path's non-empty
/// segments, in order (`/` when there are none).
pub proof fn law_normalize_shape(path: Seq<char>)
    ensures
        normalized(path).len() > 0,
        normalized(path)[0] == '/',
        forall|i: int| 0 <= i < normalized(path).len() - 1 ==> !(#[trigger] normalized(path)[i] == '/'
            && normalized(path)[i + 1] == '/'),
        normalized(path) == "/"@ || normalized(path).last() != '/',
        kept_labels(split_on(path, '/')).len() == 0 ==> normalized(path) == "/"@,
        kept_labels(split_on(path, '/')).len() > 0 ==> split_on(normalized(path), '/') == seq![Seq::<char>::empty()]
            + kept_labels(split_on(path, '/')),
{
    let segs = split_on(path, '/');
    lemma_split_pieces_clean(path, '/');
    lemma_kept_labels_fixed(segs);
    let labels = kept_labels(segs);
    if labels.len() == 0 {
        reveal_strlit("/");
        assert("/"@ == seq!['/']);
    } else {
        lemma_slash_prefixed_shape(labels);
        lemma_split_slash_prefixed(labels);
    }
}

/// Normalising is idempotent: a normalised path normalises to itself, so
/// a label is stable however often it is applied.
pub proof fn law_normalize_idempotent(path: Seq<char>)
    ensures
        normalized(normalized(path)) == normalized(path),
{
    let segs = split_on(path, '/');
    lemma_split_pieces_clean(path, '/');
    lemma_kept_labels_fixed(segs);
    let labels = kept_labels(segs);
    if labels.len() == 0 {
        reveal_strlit("/");
        let one = "/"@;
        assert(one == seq!['/']);
        assert(one.drop_last() =~= Seq::<char>::empty());
        assert(one.last() == '/');
        assert(split_on(Seq::<char>::empty(), '/') == seq![Seq::<char>::empty()]);
        assert(split_on(one, '/') == seq![Seq::<char>::empty()].push(Seq::<char>::empty()));
        let two = split_on(one, '/');
        assert(two.drop_last() =~= seq![Seq::<char>::empty()]);
        assert(two.last() == Seq::<char>::empty());
        let e = seq![Seq::<char>::empty()];
        assert(e.drop_last() =~= Seq::<Seq<char>>::empty());
        assert(e.last() == Seq::<char>::empty());
        assert(kept_labels(e) == kept_labels(Seq::<Seq<char>>::empty()));
        assert(kept_labels(two) == kept_labels(e));
        assert(kept_labels(two) =~= Seq::<Seq<char>>::empty());
    } else {
        lemma_split_slash_prefixed(labels);
        lemma_kept_after_empty(labels);
        assert(labels.map_values(|l: Seq<char>| seg_label(l)) =~= labels);
        assert(kept_labels(split_on(slash_prefixed(labels), '/')) == labels);
    }
}

} // verus!
