//! The scanner itself: [`parse`] and the span type it produces.

use crate::model::marker_at;
use crate::model::scan_from;
use crate::model::scan_spec;
use crate::model::tag_kind;
use crate::model::tag_width;
use crate::model::SpanKind;
use crate::model::SpanModel;
use crate::model::Tag;
use vstd::prelude::*;
use vstd::string::StrSliceExecFns;

verus! {

/// One span of the output: a typed view of a contiguous piece of the input
/// buffer.  The scanner emits only the first four variants; the others are
/// reserved for link and code syntax, so that a consumer matching over all
/// of them need not change when the scanner grows.
#[derive(Debug, PartialEq, Eq)]
pub enum Markdown<'a> {
    Bold(&'a str),
    Italic(&'a str),
    Underline(&'a str),
    Normal(&'a str),
    Link { text: &'a str, url: &'a str },
    InlineCode(&'a str),
    BlockCode { lang: &'a str, body: &'a str },
}

/// Whether an output span agrees with a model span: same kind, same
/// characters.  The reserved variants agree with no model span.
pub open spec fn span_matches<'a>(m: Markdown<'a>, g: SpanModel) -> bool {
    match m {
        Markdown::Normal(t) => g.kind == SpanKind::Normal && t@ == g.text,
        Markdown::Italic(t) => g.kind == SpanKind::Italic && t@ == g.text,
        Markdown::Bold(t) => g.kind == SpanKind::Bold && t@ == g.text,
        Markdown::Underline(t) => g.kind == SpanKind::Underline && t@ == g.text,
        _ => false,
    }
}

/// Whether a whole output sequence agrees with a model sequence, span for
/// span.
pub open spec fn spans_match<'a>(ms: Seq<Markdown<'a>>, gs: Seq<SpanModel>) -> bool {
    &&& ms.len() == gs.len()
    &&& forall|k: int| 0 <= k < ms.len() ==> #[trigger] span_matches(ms[k], gs[k])
}

/// How many characters a marker occupies in the input.
fn width_of(t: Tag) -> (w: usize)
    ensures
        w == tag_width(t),
{
    match t {
        Tag::Star | Tag::Underscore => 1,
        Tag::Star2 | Tag::Underscore2 => 2,
    }
}

/// Scan a text buffer into an ordered sequence of spans.
///
/// The result is exactly what the model scan of the input's characters
/// produces: plain text between markers becomes `Normal` spans, matched
/// marker pairs become `Italic`, `Bold` or `Underline` spans, escaped
/// markers stay literal, and an unclosed marker is elided.  Every span
/// borrows a contiguous piece of `text`; nothing is copied.
pub fn parse<'a>(text: &'a str) -> (spans: Vec<Markdown<'a>>)
    ensures
        spans_match(spans@, scan_spec(text@)),
{
    let n = text.unicode_len();
    let mut spans: Vec<Markdown<'a>> = Vec::new();
    let mut i: usize = 0;
    let mut start: usize = 0;
    let mut open_tag: Option<Tag> = None;
    let mut pend: Option<Tag> = None;
    let ghost mut emitted: Seq<SpanModel> = Seq::empty();
    while i < n
        invariant
            n == text@.len(),
            start <= i <= n,
            start == i ==> (i == 0 || text@[i - 1] != '\\'),
            scan_spec(text@) == emitted + scan_from(
                text@,
                i as int,
                start as int,
                open_tag,
                pend,
            ),
            spans_match(spans@, emitted),
        decreases n - i,
    {
        let ghost prev_emitted = emitted;
        let ghost rest = scan_from(text@, i as int, start as int, open_tag, pend);
        let c = text.get_char(i);
        let marker: Option<Tag> = if c == '*' {
            if i + 1 < n && text.get_char(i + 1) == '*' {
                Some(Tag::Star2)
            } else {
                Some(Tag::Star)
            }
        } else if c == '_' {
            if i + 1 < n && text.get_char(i + 1) == '_' {
                Some(Tag::Underscore2)
            } else {
                Some(Tag::Underscore)
            }
        } else {
            None
        };
        assert(marker == marker_at(text@, i as int));
        let escaped = i > 0 && text.get_char(i - 1) == '\\';
        if escaped {
            let piece = text.substring_char(start, i - 1);
            spans.push(Markdown::Normal(piece));
            proof {
                emitted = emitted + seq![
                    SpanModel { kind: SpanKind::Normal, text: text@.subrange(start as int, i - 1) },
                ];
            }
            start = i;
            match marker {
                Some(t) => {
                    pend = Some(t);
                    i = i + width_of(t);
                },
                None => {
                    i = i + 1;
                },
            }
        } else {
            let literal = match (marker, pend) {
                (Some(m), Some(p)) => m == p,
                _ => false,
            };
            if literal {
                pend = None;
                match marker {
                    Some(m) => {
                        i = i + width_of(m);
                    },
                    None => {
                        i = i + 1;
                    },
                }
            } else {
                match (open_tag, marker) {
                    (Some(t), Some(f)) => {
                        if f == t {
                            let w = width_of(t);
                            let piece = text.substring_char(start, i);
                            let styled = match t {
                                Tag::Star | Tag::Underscore => Markdown::Italic(piece),
                                Tag::Star2 => Markdown::Bold(piece),
                                Tag::Underscore2 => Markdown::Underline(piece),
                            };
                            spans.push(styled);
                            proof {
                                emitted = emitted + seq![
                                    SpanModel {
                                        kind: tag_kind(t),
                                        text: text@.subrange(start as int, i as int),
                                    },
                                ];
                            }
                            open_tag = None;
                            start = i + w;
                            i = i + w;
                        } else {
                            i = i + 1;
                        }
                    },
                    (None, Some(f)) => {
                        let w = width_of(f);
                        let piece = text.substring_char(start, i);
                        spans.push(Markdown::Normal(piece));
                        proof {
                            emitted = emitted + seq![
                                SpanModel {
                                    kind: SpanKind::Normal,
                                    text: text@.subrange(start as int, i as int),
                                },
                            ];
                        }
                        open_tag = Some(f);
                        start = i + w;
                        i = i + w;
                    },
                    _ => {
                        i = i + 1;
                    },
                }
            }
        }
        proof {
            let tail = scan_from(text@, i as int, start as int, open_tag, pend);
            assert(rest =~= emitted.subrange(prev_emitted.len() as int, emitted.len() as int) + tail);
            assert(prev_emitted + rest =~= emitted + tail);
        }
    }
    let piece = text.substring_char(start, n);
    spans.push(Markdown::Normal(piece));
    proof {
        assert(scan_from(text@, i as int, start as int, open_tag, pend) =~= seq![
            SpanModel { kind: SpanKind::Normal, text: text@.subrange(start as int, n as int) },
        ]);
        emitted = emitted + seq![
            SpanModel { kind: SpanKind::Normal, text: text@.subrange(start as int, n as int) },
        ];
        assert(scan_spec(text@) =~= emitted);
    }
    spans
}

} // verus!
