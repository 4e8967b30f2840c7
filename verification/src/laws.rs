//! General properties of the scan, stated and proved against the model.

use crate::model::escaped_at;
use crate::model::marker_at;
use crate::model::marker_char;
use crate::model::scan_from;
use crate::model::scan_spec;
use crate::model::tag_kind;
use crate::model::tag_width;
use crate::model::SpanKind;
use crate::model::SpanModel;
use crate::model::Tag;
use vstd::prelude::*;

verus! {

/// The characters of a marker, in input order.
pub open spec fn delim(t: Tag) -> Seq<char> {
    if tag_width(t) == 1 {
        seq![marker_char(t)]
    } else {
        seq![marker_char(t), marker_char(t)]
    }
}

/// No character of `x` is a marker character or a backslash.
pub open spec fn plain(x: Seq<char>) -> bool {
    forall|k: int| 0 <= k < x.len() ==> x[k] != '*' && x[k] != '_' && x[k] != '\\'
}

/// No character of `x` is a backslash.
pub open spec fn no_escape(x: Seq<char>) -> bool {
    forall|k: int| 0 <= k < x.len() ==> x[k] != '\\'
}

/// `x` contains no occurrence of the marker `t`: none of its character at
/// all when `t` is one character wide, no two of them adjacent when two.
pub open spec fn free_of(x: Seq<char>, t: Tag) -> bool {
    if tag_width(t) == 1 {
        forall|k: int| 0 <= k < x.len() ==> x[k] != marker_char(t)
    } else {
        forall|k: int|
            0 <= k < x.len() - 1 ==> !(#[trigger] x[k] == marker_char(t) && x[k + 1]
                == marker_char(t))
    }
}

/// A step of the scan at position `k` that changes nothing but the cursor:
/// the position is not escaped, and any marker there neither matches the
/// literal-pending one nor closes or opens a span.
spec fn inert_at(s: Seq<char>, k: int, open_tag: Option<Tag>, pend: Option<Tag>) -> bool {
    &&& !escaped_at(s, k)
    &&& match marker_at(s, k) {
        None => true,
        Some(f) => pend != Some(f) && match open_tag {
            Some(t) => f != t,
            None => false,
        },
    }
}

/// Over a run of inert positions the scan only moves its cursor.
proof fn lemma_scan_inert_range(
    s: Seq<char>,
    i: int,
    j: int,
    from: int,
    open_tag: Option<Tag>,
    pend: Option<Tag>,
)
    requires
        0 <= i <= j <= s.len(),
        forall|k: int| i <= k < j ==> inert_at(s, k, open_tag, pend),
    ensures
        scan_from(s, i, from, open_tag, pend) == scan_from(s, j, from, open_tag, pend),
    decreases j - i,
{
    if i < j {
        assert(inert_at(s, i, open_tag, pend));
        lemma_scan_inert_range(s, i + 1, j, from, open_tag, pend);
    }
}

/// Scanning is deterministic: it is a pure function of the character
/// sequence, so identical inputs yield identical output sequences.
pub proof fn lemma_scan_deterministic(s1: Seq<char>, s2: Seq<char>)
    requires
        s1 == s2,
    ensures
        scan_spec(s1) == scan_spec(s2),
{
}

/// No-marker identity: an input without marker characters, and without a
/// backslash before its last character, scans to exactly one `Normal` span
/// holding the whole input.  (A backslash earlier in the input would itself
/// be consumed as an escape and split the span.)
pub proof fn lemma_no_marker_identity(s: Seq<char>)
    requires
        forall|k: int| 0 <= k < s.len() ==> s[k] != '*' && s[k] != '_',
        forall|k: int| 0 <= k < s.len() - 1 ==> s[k] != '\\',
    ensures
        scan_spec(s).len() == 1,
        scan_spec(s)[0].kind == SpanKind::Normal,
        scan_spec(s)[0].text == s,
{
    assert forall|k: int| 0 <= k < s.len() implies inert_at(
        s,
        k,
        Option::<Tag>::None,
        Option::<Tag>::None,
    ) by {
        assert(marker_at(s, k) is None);
    }
    lemma_scan_inert_range(s, 0, s.len() as int, 0, None, None);
    assert(s.subrange(0, s.len() as int) =~= s);
}

/// Unclosed-tag elision: after plain text `a`, a marker `t` that is never
/// closed disappears from the output.  The scan yields `Normal(a)` and then
/// a final `Normal` span holding everything after the marker, without the
/// marker's characters.
pub proof fn lemma_unclosed_marker_elided(t: Tag, a: Seq<char>, b: Seq<char>)
    requires
        plain(a),
        no_escape(b),
        free_of(b, t),
    ensures
        scan_spec(a + delim(t) + b).len() == 2,
        scan_spec(a + delim(t) + b)[0].kind == SpanKind::Normal,
        scan_spec(a + delim(t) + b)[0].text == a,
        scan_spec(a + delim(t) + b)[1].kind == SpanKind::Normal,
        scan_spec(a + delim(t) + b)[1].text == b,
{
    let s = a + delim(t) + b;
    let m = a.len() as int;
    let w = tag_width(t);
    let p = m + w;
    let n = s.len() as int;
    assert(n == m + w + b.len());
    assert(s[m] == marker_char(t));
    if w == 2 {
        assert(s[m + 1] == marker_char(t));
    }
    assert forall|k: int| 0 <= k < m implies inert_at(
        s,
        k,
        Option::<Tag>::None,
        Option::<Tag>::None,
    ) by {
        assert(s[k] == a[k]);
        if k > 0 {
            assert(s[k - 1] == a[k - 1]);
        }
        assert(marker_at(s, k) is None);
    }
    lemma_scan_inert_range(s, 0, m, 0, None, None);
    // The marker at `m` opens a span.
    assert(!escaped_at(s, m));
    if w == 1 {
        if m + 1 < n {
            assert(s[m + 1] == b[0]);
        }
        assert(marker_at(s, m) == Some(t));
    } else {
        assert(marker_at(s, m) == Some(t));
    }
    assert(scan_from(s, m, 0, None, None) =~= seq![
        SpanModel { kind: SpanKind::Normal, text: s.subrange(0, m) },
    ] + scan_from(s, p, p, Some(t), None));
    // Nothing in `b` closes it.
    assert forall|k: int| p <= k < n implies inert_at(
        s,
        k,
        Some(t),
        Option::<Tag>::None,
    ) by {
        assert(s[k] == b[k - p]);
        if k - 1 >= p {
            assert(s[k - 1] == b[k - 1 - p]);
        }
        assert(!escaped_at(s, k));
        match marker_at(s, k) {
            Some(f) => {
                if w == 1 {
                    assert(s[k] != marker_char(t));
                    assert(f != t);
                } else {
                    if f == t {
                        assert(s[k] == marker_char(t) && k + 1 < n && s[k + 1] == marker_char(t));
                        assert(s[k + 1] == b[k + 1 - p]);
                        assert(false);
                    }
                }
            },
            None => {},
        }
    }
    lemma_scan_inert_range(s, p, n, p, Some(t), None);
    assert(s.subrange(0, m) =~= a);
    assert(s.subrange(p, n) =~= b);
}

/// `g.text` is a contiguous run of whole characters of `s`.
pub open spec fn is_piece_of(g: SpanModel, s: Seq<char>) -> bool {
    exists|lo: int, hi: int| 0 <= lo <= hi <= s.len() && g.text == #[trigger] s.subrange(lo, hi)
}

proof fn lemma_pieces_from(s: Seq<char>, i: int, from: int, open_tag: Option<Tag>, pend: Option<Tag>)
    requires
        0 <= from <= i,
        from <= s.len(),
        from == i ==> (i == 0 || s[i - 1] != '\\'),
    ensures
        forall|k: int|
            0 <= k < scan_from(s, i, from, open_tag, pend).len() ==> is_piece_of(
                #[trigger] scan_from(s, i, from, open_tag, pend)[k],
                s,
            ),
    decreases s.len() - i,
{
    let r = scan_from(s, i, from, open_tag, pend);
    if i >= s.len() {
        assert(r[0].text == s.subrange(from, s.len() as int));
        assert(is_piece_of(r[0], s));
    } else if escaped_at(s, i) {
        let raw = marker_at(s, i);
        let step: int = match raw {
            Some(t) => tag_width(t),
            None => 1,
        };
        let pend2 = match raw {
            Some(t) => Some(t),
            None => pend,
        };
        lemma_pieces_from(s, i + step, i, open_tag, pend2);
        let tail = scan_from(s, i + step, i, open_tag, pend2);
        assert(r[0].text == s.subrange(from, i - 1));
        assert(is_piece_of(r[0], s));
        assert forall|k: int| 1 <= k < r.len() implies is_piece_of(r[k], s) by {
            assert(r[k] == tail[k - 1]);
        }
    } else {
        match marker_at(s, i) {
            None => {
                lemma_pieces_from(s, i + 1, from, open_tag, pend);
                let tail = scan_from(s, i + 1, from, open_tag, pend);
                assert forall|k: int| 0 <= k < r.len() implies is_piece_of(r[k], s) by {
                    assert(r[k] == tail[k]);
                }
            },
            Some(f) => {
                let w = tag_width(f);
                assert(s[i + w - 1] == marker_char(f));
                if pend == Some(f) {
                    lemma_pieces_from(s, i + w, from, open_tag, None);
                    let tail = scan_from(s, i + w, from, open_tag, None);
                    assert forall|k: int| 0 <= k < r.len() implies is_piece_of(r[k], s) by {
                        assert(r[k] == tail[k]);
                    }
                } else if open_tag == Some(f) || open_tag is None {
                    lemma_pieces_from(s, i + w, i + w, None, pend);
                    lemma_pieces_from(s, i + w, i + w, Some(f), pend);
                    let tail_close = scan_from(s, i + w, i + w, None, pend);
                    let tail_open = scan_from(s, i + w, i + w, Some(f), pend);
                    assert(r[0].text == s.subrange(from, i));
                    assert(is_piece_of(r[0], s));
                    assert forall|k: int| 1 <= k < r.len() implies is_piece_of(r[k], s) by {
                        if open_tag == Some(f) {
                            assert(r[k] == tail_close[k - 1]);
                        } else {
                            assert(r[k] == tail_open[k - 1]);
                        }
                    }
                } else {
                    lemma_pieces_from(s, i + 1, from, open_tag, pend);
                    let tail = scan_from(s, i + 1, from, open_tag, pend);
                    assert forall|k: int| 0 <= k < r.len() implies is_piece_of(r[k], s) by {
                        assert(r[k] == tail[k]);
                    }
                }
            },
        }
    }
}

/// Codepoint-boundary safety: every span the scan produces covers a
/// contiguous run of whole characters of the input, so both of its
/// boundaries fall between characters, never inside one.
pub proof fn lemma_spans_are_pieces(s: Seq<char>)
    ensures
        forall|k: int|
            0 <= k < scan_spec(s).len() ==> is_piece_of(#[trigger] scan_spec(s)[k], s),
{
    lemma_pieces_from(s, 0, 0, None, None);
}

/// Plain text `a`, then an escaped marker `t`, then `b`, then the marker
/// again, then `c`.
pub open spec fn escaped_form(t: Tag, a: Seq<char>, b: Seq<char>, c: Seq<char>) -> Seq<char> {
    a + seq!['\\'] + delim(t) + b + delim(t) + c
}

/// Escape suppression: a backslash before a marker prevents span
/// formation.  The backslash is dropped, and both the escaped marker and
/// its would-be closer stay as literal text inside one `Normal` span.
pub proof fn lemma_escape_suppression(t: Tag, a: Seq<char>, b: Seq<char>, c: Seq<char>)
    requires
        plain(a),
        plain(b),
        plain(c),
        tag_width(t) == 1 ==> b.len() > 0,
    ensures
        scan_spec(escaped_form(t, a, b, c)).len() == 2,
        scan_spec(escaped_form(t, a, b, c))[0].kind == SpanKind::Normal,
        scan_spec(escaped_form(t, a, b, c))[0].text == a,
        scan_spec(escaped_form(t, a, b, c))[1].kind == SpanKind::Normal,
        scan_spec(escaped_form(t, a, b, c))[1].text == delim(t) + b + delim(t) + c,
{
    let s = escaped_form(t, a, b, c);
    let m = a.len() as int;
    let e = m + 1;
    let w = tag_width(t);
    let q = e + w + b.len();
    let n = s.len() as int;
    assert(n == e + w + b.len() + w + c.len());
    assert(s[m] == '\\');
    assert(s[e] == marker_char(t));
    assert(s[e + w - 1] == marker_char(t));
    assert(s[q] == marker_char(t));
    assert(s[q + w - 1] == marker_char(t));
    assert forall|k: int| 0 <= k < e implies inert_at(
        s,
        k,
        Option::<Tag>::None,
        Option::<Tag>::None,
    ) by {
        if k < m {
            assert(s[k] == a[k]);
        }
        if 0 < k && k - 1 < m {
            assert(s[k - 1] == a[k - 1]);
        }
        assert(marker_at(s, k) is None);
    }
    lemma_scan_inert_range(s, 0, e, 0, None, None);
    // The escape at `e` flushes `a`, keeps the marker literal, and
    // remembers its kind.
    assert(escaped_at(s, e));
    if w == 1 {
        assert(s[e + 1] == b[0]);
    }
    assert(marker_at(s, e) == Some(t));
    assert(scan_from(s, e, 0, None, None) =~= seq![
        SpanModel { kind: SpanKind::Normal, text: s.subrange(0, m) },
    ] + scan_from(s, e + w, e, None, Some(t)));
    // Nothing in `b` is a marker or an escape.
    assert forall|k: int| e + w <= k < q implies inert_at(
        s,
        k,
        Option::<Tag>::None,
        Some(t),
    ) by {
        assert(s[k] == b[k - e - w]);
        if k - 1 >= e + w {
            assert(s[k - 1] == b[k - 1 - e - w]);
        }
        assert(!escaped_at(s, k));
        assert(marker_at(s, k) is None);
    }
    lemma_scan_inert_range(s, e + w, q, e, None, Some(t));
    // The marker at `q` matches the pending literal kind and is consumed
    // as text.
    assert(!escaped_at(s, q));
    if w == 1 {
        if q + 1 < n {
            assert(s[q + 1] == c[0]);
        }
    }
    assert(marker_at(s, q) == Some(t));
    assert(scan_from(s, q, e, None, Some(t)) == scan_from(s, q + w, e, None, None));
    // `c` is plain text.
    assert forall|k: int| q + w <= k < n implies inert_at(
        s,
        k,
        Option::<Tag>::None,
        Option::<Tag>::None,
    ) by {
        assert(s[k] == c[k - q - w]);
        if k - 1 >= q + w {
            assert(s[k - 1] == c[k - 1 - q - w]);
        }
        assert(!escaped_at(s, k));
        assert(marker_at(s, k) is None);
    }
    lemma_scan_inert_range(s, q + w, n, e, None, None);
    assert(s.subrange(0, m) =~= a);
    assert(s.subrange(e, n) =~= delim(t) + b + delim(t) + c);
}

/// Plain text `a`, a marker `t`, the span text `b`, the marker again, then
/// plain text `c`.
pub open spec fn delimited_form(t: Tag, a: Seq<char>, b: Seq<char>, c: Seq<char>) -> Seq<char> {
    a + delim(t) + b + delim(t) + c
}

/// Well-formed single span: a matched marker pair around `b`, with plain
/// text before and after, scans to exactly `Normal(a)`, the styled span
/// `b`, and `Normal(c)`, the style chosen by the marker's width and family.
pub proof fn lemma_single_span(t: Tag, a: Seq<char>, b: Seq<char>, c: Seq<char>)
    requires
        plain(a),
        plain(c),
        no_escape(b),
        free_of(b, t),
        tag_width(t) == 1 ==> b.len() > 0,
        tag_width(t) == 2 && b.len() > 0 ==> b[b.len() - 1] != marker_char(t),
    ensures
        scan_spec(delimited_form(t, a, b, c)).len() == 3,
        scan_spec(delimited_form(t, a, b, c))[0].kind == SpanKind::Normal,
        scan_spec(delimited_form(t, a, b, c))[0].text == a,
        scan_spec(delimited_form(t, a, b, c))[1].kind == tag_kind(t),
        scan_spec(delimited_form(t, a, b, c))[1].text == b,
        scan_spec(delimited_form(t, a, b, c))[2].kind == SpanKind::Normal,
        scan_spec(delimited_form(t, a, b, c))[2].text == c,
{
    let s = delimited_form(t, a, b, c);
    let m = a.len() as int;
    let w = tag_width(t);
    let p = m + w;
    let q = p + b.len();
    let n = s.len() as int;
    assert(n == m + w + b.len() + w + c.len());
    assert(s[m] == marker_char(t));
    assert(s[m + w - 1] == marker_char(t));
    assert(s[q] == marker_char(t));
    assert(s[q + w - 1] == marker_char(t));
    assert forall|k: int| 0 <= k < m implies inert_at(
        s,
        k,
        Option::<Tag>::None,
        Option::<Tag>::None,
    ) by {
        assert(s[k] == a[k]);
        if k > 0 {
            assert(s[k - 1] == a[k - 1]);
        }
        assert(marker_at(s, k) is None);
    }
    lemma_scan_inert_range(s, 0, m, 0, None, None);
    // The marker at `m` opens the span.
    assert(!escaped_at(s, m));
    if w == 1 {
        assert(s[m + 1] == b[0]);
    }
    assert(marker_at(s, m) == Some(t));
    assert(scan_from(s, m, 0, None, None) =~= seq![
        SpanModel { kind: SpanKind::Normal, text: s.subrange(0, m) },
    ] + scan_from(s, p, p, Some(t), None));
    // Nothing in `b` closes it early.
    assert forall|k: int| p <= k < q implies inert_at(
        s,
        k,
        Some(t),
        Option::<Tag>::None,
    ) by {
        assert(s[k] == b[k - p]);
        if k - 1 >= p {
            assert(s[k - 1] == b[k - 1 - p]);
        }
        assert(!escaped_at(s, k));
        match marker_at(s, k) {
            Some(f) => {
                if w == 1 {
                    assert(s[k] != marker_char(t));
                    assert(f != t);
                } else {
                    if f == t {
                        assert(s[k] == marker_char(t) && k + 1 < n && s[k + 1] == marker_char(t));
                        if k + 1 < q {
                            assert(s[k + 1] == b[k + 1 - p]);
                            assert(false);
                        } else {
                            assert(k == q - 1);
                            assert(b[b.len() - 1] == marker_char(t));
                            assert(false);
                        }
                    }
                }
            },
            None => {},
        }
    }
    lemma_scan_inert_range(s, p, q, p, Some(t), None);
    // The marker at `q` closes the span.
    assert(!escaped_at(s, q));
    if w == 1 {
        if q + 1 < n {
            assert(s[q + 1] == c[0]);
        }
    }
    assert(marker_at(s, q) == Some(t));
    assert(scan_from(s, q, p, Some(t), None) =~= seq![
        SpanModel { kind: tag_kind(t), text: s.subrange(p, q) },
    ] + scan_from(s, q + w, q + w, None, None));
    // `c` is plain text.
    assert forall|k: int| q + w <= k < n implies inert_at(
        s,
        k,
        Option::<Tag>::None,
        Option::<Tag>::None,
    ) by {
        assert(s[k] == c[k - q - w]);
        if k - 1 >= q + w {
            assert(s[k - 1] == c[k - 1 - q - w]);
        }
        assert(!escaped_at(s, k));
        assert(marker_at(s, k) is None);
    }
    lemma_scan_inert_range(s, q + w, n, q + w, None, None);
    assert(s.subrange(0, m) =~= a);
    assert(s.subrange(p, q) =~= b);
    assert(s.subrange(q + w, n) =~= c);
}

} // verus!
