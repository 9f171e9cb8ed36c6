//! Escaping math spans so the Markdown renderer passes them through.
//!
//! A Markdown engine would read `_` and `*` inside a formula as emphasis
//! markers and mangle the math. Escaping prefixes `_`, `*` and `\` with a
//! backslash, so the formula survives Markdown rendering and the math
//! engine that runs later sees the original content: removing the inserted
//! backslashes recovers it exactly (see [`lemma_escape_round_trip`]).
use crate::scan::BACKSLASH;
use crate::scan::Delimiter;
use vstd::prelude::*;

verus! {

/// The underscore byte `_`.
pub const UNDERSCORE: u8 = 0x5f;

/// The asterisk byte `*`.
pub const ASTERISK: u8 = 0x2a;

/// A render job for chapter processing.
#[derive(Clone, Debug, PartialEq, Eq)]
pub enum Render {
    /// No need to render.
    Text(Vec<u8>),
    /// A render task for an inline math span.
    InlineTask(Vec<u8>),
    /// A render task for a display math span.
    DisplayTask(Vec<u8>),
}

/// The mathematical value of a render task: a tagged byte string.
pub enum RenderView {
    /// A plain text span, passed through unchanged.
    Text(Seq<u8>),
    /// The content of an inline math span, delimiters excluded.
    InlineTask(Seq<u8>),
    /// The content of a display math span, delimiters excluded.
    DisplayTask(Seq<u8>),
}

impl View for Render {
    type V = RenderView;

    open spec fn view(&self) -> RenderView {
        match self {
            Render::Text(s) => RenderView::Text(s@),
            Render::InlineTask(s) => RenderView::InlineTask(s@),
            Render::DisplayTask(s) => RenderView::DisplayTask(s@),
        }
    }
}

/// The escaped form of one byte: `_`, `*` and `\` get a backslash prefix,
/// every other byte stands unchanged.
pub open spec fn esc_byte(b: u8) -> Seq<u8> {
    if b == UNDERSCORE || b == ASTERISK || b == BACKSLASH {
        seq![BACKSLASH, b]
    } else {
        seq![b]
    }
}

/// The escaped form of a byte string: each byte escaped in place.
pub open spec fn escape_seq(s: Seq<u8>) -> Seq<u8>
    decreases s.len(),
{
    if s.len() == 0 {
        Seq::empty()
    } else {
        esc_byte(s[0]) + escape_seq(s.drop_first())
    }
}

/// Escaping a string one byte longer appends that byte's escaped form.
pub proof fn lemma_escape_seq_push(s: Seq<u8>, b: u8)
    ensures
        escape_seq(s.push(b)) == escape_seq(s) + esc_byte(b),
    decreases s.len(),
{
    if s.len() == 0 {
        assert(s.push(b).drop_first() =~= Seq::<u8>::empty());
        assert(escape_seq(Seq::<u8>::empty()) == Seq::<u8>::empty());
        assert(escape_seq(s.push(b)) =~= escape_seq(s) + esc_byte(b));
    } else {
        lemma_escape_seq_push(s.drop_first(), b);
        assert(s.push(b).drop_first() =~= s.drop_first().push(b));
        assert(escape_seq(s.push(b)) =~= escape_seq(s) + esc_byte(b));
    }
}

/// The inverse reading of an escaped string: a byte after a backslash is
/// kept literally, the backslash itself is dropped.
pub open spec fn unescape_seq(s: Seq<u8>) -> Seq<u8>
    decreases s.len(),
{
    if s.len() == 0 {
        Seq::empty()
    } else if s[0] == BACKSLASH && s.len() >= 2 {
        seq![s[1]] + unescape_seq(s.skip(2))
    } else {
        seq![s[0]] + unescape_seq(s.drop_first())
    }
}

/// Escaping is one-directional, but it round-trips: removing the inserted
/// backslashes recovers the original content exactly.
pub proof fn lemma_escape_round_trip(s: Seq<u8>)
    ensures
        unescape_seq(escape_seq(s)) == s,
    decreases s.len(),
{
    if s.len() == 0 {
        assert(unescape_seq(escape_seq(s)) =~= s);
    } else {
        lemma_escape_round_trip(s.drop_first());
        let e = escape_seq(s);
        if s[0] == UNDERSCORE || s[0] == ASTERISK || s[0] == BACKSLASH {
            assert(e[0] == BACKSLASH && e[1] == s[0]);
            assert(e.skip(2) =~= escape_seq(s.drop_first()));
            assert(unescape_seq(e) =~= s);
        } else {
            assert(e[0] == s[0] && e[0] != BACKSLASH);
            assert(e.drop_first() =~= escape_seq(s.drop_first()));
            assert(unescape_seq(e) =~= s);
        }
    }
}

/// Escape a math span `item` into `result`.
///
/// Mdbook's Markdown engine would parse a part of a math formula as HTML,
/// e.g. `$[x^n](f + g)$`. Escaping the formula in advance lets it pass
/// through the Markdown engine as the original formula, so the math engine
/// that a later stage or a client-side script runs renders it correctly.
pub fn escape_math(item: &[u8], result: &mut Vec<u8>)
    ensures
        final(result)@ == old(result)@ + escape_seq(item@),
{
    let ghost r0 = result@;
    let item_len = item.len();
    let mut k: usize = 0;
    while k < item_len
        invariant
            item_len == item@.len(),
            0 <= k <= item_len,
            result@ == r0 + escape_seq(item@.take(k as int)),
        decreases item_len - k,
    {
        let b = item[k];
        if b == UNDERSCORE || b == ASTERISK || b == BACKSLASH {
            result.push(BACKSLASH);
            result.push(b);
        } else {
            result.push(b);
        }
        proof {
            assert(item@.take(k + 1) =~= item@.take(k as int).push(item@[k as int]));
            lemma_escape_seq_push(item@.take(k as int), item@[k as int]);
            assert(result@ =~= r0 + escape_seq(item@.take(k + 1)));
        }
        k = k + 1;
    }
    proof {
        assert(item@.take(item_len as int) =~= item@);
    }
}

/// Escape a math span `item` into a delimited string: the delimiters are
/// escaped too, e.g. `\(`,`\)` and `\[`,`\]`.
pub fn escape_math_with_delimiter(item: &[u8], delimiter: &Delimiter) -> (r: Vec<u8>)
    ensures
        r@ == escape_seq(delimiter.left@) + escape_seq(item@) + escape_seq(delimiter.right@),
{
    let mut result: Vec<u8> = Vec::new();
    escape_math(delimiter.left.as_slice(), &mut result);
    escape_math(item, &mut result);
    escape_math(delimiter.right.as_slice(), &mut result);
    proof {
        assert(result@ =~= escape_seq(delimiter.left@) + escape_seq(item@) + escape_seq(
            delimiter.right@,
        ));
    }
    result
}

} // verus!
