//! Mathematical model of the inline-markdown scan.
//!
//! The scanner walks the input one character at a time, keeping a cursor,
//! the start of the span being accumulated, the marker kind that is
//! currently open (if any), and the marker kind whose next occurrence an
//! escape has made literal (if any).  `scan_from` describes one whole run
//! of that state machine as a sequence of model spans; `scan_spec` is the
//! run from the initial state.

use vstd::prelude::*;

verus! {

/// A delimiter marker: one of `*`, `**`, `_`, `__`.
///
/// The family (star or underscore) and the width (one or two characters)
/// must both match for a closing marker to close an open span.
#[derive(Clone, Copy, PartialEq, Eq, Structural)]
pub enum Tag {
    Star,
    Star2,
    Underscore,
    Underscore2,
}

/// The classification of a model span.
pub enum SpanKind {
    Normal,
    Italic,
    Bold,
    Underline,
}

/// A span of the model output: a kind together with the characters of the
/// piece of input it covers.
pub struct SpanModel {
    pub kind: SpanKind,
    pub text: Seq<char>,
}

/// The character a marker is made of.
pub open spec fn marker_char(t: Tag) -> char {
    match t {
        Tag::Star | Tag::Star2 => '*',
        Tag::Underscore | Tag::Underscore2 => '_',
    }
}

/// How many characters a marker occupies in the input.
pub open spec fn tag_width(t: Tag) -> int {
    match t {
        Tag::Star | Tag::Underscore => 1,
        Tag::Star2 | Tag::Underscore2 => 2,
    }
}

/// The kind of span a marker pair delimits.
pub open spec fn tag_kind(t: Tag) -> SpanKind {
    match t {
        Tag::Star | Tag::Underscore => SpanKind::Italic,
        Tag::Star2 => SpanKind::Bold,
        Tag::Underscore2 => SpanKind::Underline,
    }
}

/// The marker beginning at position `i`, if any.  Two-character markers are
/// recognized greedily: `**` is never read as two `*` markers.
pub open spec fn marker_at(s: Seq<char>, i: int) -> Option<Tag> {
    if s[i] == '*' {
        if i + 1 < s.len() && s[i + 1] == '*' {
            Some(Tag::Star2)
        } else {
            Some(Tag::Star)
        }
    } else if s[i] == '_' {
        if i + 1 < s.len() && s[i + 1] == '_' {
            Some(Tag::Underscore2)
        } else {
            Some(Tag::Underscore)
        }
    } else {
        None
    }
}

/// Whether the character at position `i` is preceded by a backslash.
pub open spec fn escaped_at(s: Seq<char>, i: int) -> bool {
    i > 0 && s[i - 1] == '\\'
}

/// One whole run of the scanner from an intermediate state.
///
/// `i` is the cursor, `from` the start of the span being accumulated,
/// `open_tag` the marker kind currently open, and `pend` the marker kind an
/// escape has made literal, so that its next occurrence is kept as text.
///
/// Each step looks at the character under the cursor:
/// - at the end of the input the text still accumulated becomes one final
///   `Normal` span, even if it is empty and even if a marker is still open
///   (the open marker's characters are elided);
/// - an escaped position flushes the text before the backslash as a
///   `Normal` span, drops the backslash, and keeps the marker characters
///   (if any) as literal text, remembering their kind in `pend`;
/// - a marker equal to `pend` is literal text: it is consumed without
///   opening or closing anything;
/// - a marker equal to the open one closes the span it opened;
/// - a marker found while no span is open opens one, flushing the text
///   before it as a `Normal` span;
/// - anything else is ordinary text.
pub open spec fn scan_from(
    s: Seq<char>,
    i: int,
    from: int,
    open_tag: Option<Tag>,
    pend: Option<Tag>,
) -> Seq<SpanModel>
    decreases s.len() - i,
{
    if i >= s.len() {
        seq![SpanModel { kind: SpanKind::Normal, text: s.subrange(from, s.len() as int) }]
    } else if escaped_at(s, i) {
        let raw = marker_at(s, i);
        let step: int = match raw {
            Some(t) => tag_width(t),
            None => 1,
        };
        let pend2 = match raw {
            Some(t) => Some(t),
            None => pend,
        };
        seq![SpanModel { kind: SpanKind::Normal, text: s.subrange(from, i - 1) }]
            + scan_from(s, i + step, i, open_tag, pend2)
    } else {
        match marker_at(s, i) {
            None => scan_from(s, i + 1, from, open_tag, pend),
            Some(f) => {
                if pend == Some(f) {
                    scan_from(s, i + tag_width(f), from, open_tag, None)
                } else if open_tag == Some(f) {
                    seq![SpanModel { kind: tag_kind(f), text: s.subrange(from, i) }]
                        + scan_from(s, i + tag_width(f), i + tag_width(f), None, pend)
                } else if open_tag is None {
                    seq![SpanModel { kind: SpanKind::Normal, text: s.subrange(from, i) }]
                        + scan_from(s, i + tag_width(f), i + tag_width(f), Some(f), pend)
                } else {
                    scan_from(s, i + 1, from, open_tag, pend)
                }
            },
        }
    }
}

/// The whole scan of an input, from the initial state.
pub open spec fn scan_spec(s: Seq<char>) -> Seq<SpanModel> {
    scan_from(s, 0, 0, None, None)
}

} // verus!
