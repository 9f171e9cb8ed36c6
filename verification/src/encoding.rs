//! UTF-8 safety of the pipeline.
//!
//! Offsets in the scanner's events arise only from matches of complete
//! delimiter byte strings, and delimiters are themselves valid UTF-8, so no
//! event offset ever splits a code point. From that, every render task's
//! bytes are valid UTF-8 and so is the whole escape-mode output: the
//! pipeline never slices mid-codepoint.
use crate::escape::esc_byte;
use crate::escape::escape_seq;
use crate::escape::RenderView;
use crate::escape::ASTERISK;
use crate::escape::UNDERSCORE;
use crate::preprocess::escaped_output;
use crate::preprocess::spec_chapter_escape;
use crate::preprocess::spec_render_tasks;
use crate::preprocess::spec_tasks;
use crate::scan::delimit_events;
use crate::scan::delimit_next;
use crate::scan::events_wf;
use crate::scan::fence_skip;
use crate::scan::find_close;
use crate::scan::lemma_delimit_next_some;
use crate::scan::lemma_fence_skip_some;
use crate::scan::lemma_find_close_some;
use crate::scan::lemma_scan_events_wf;
use crate::scan::matches_at;
use crate::scan::spec_scan;
use crate::scan::Event;
use crate::scan::BACKSLASH;
use crate::scan::BACKTICK;
use vstd::prelude::*;
use vstd::utf8::*;

verus! {

/// Every all-ASCII byte string is valid UTF-8.
pub proof fn lemma_ascii_valid(s: Seq<u8>)
    requires
        forall|k: int| 0 <= k < s.len() ==> s[k] < 0x80,
    ensures
        valid_utf8(s),
    decreases s.len(),
{
    if s.len() > 0 {
        let b = s[0];
        assert((b & 0x7f) == b && (b & 0x7f) < 0xd800) by (bit_vector)
            requires b < 0x80;
        assert(valid_first_scalar(s));
        assert(length_of_first_scalar(s) == 1);
        assert(pop_first_scalar(s) =~= s.drop_first());
        lemma_ascii_valid(s.drop_first());
    }
}

/// A valid prefix of a valid byte string ends on a character boundary.
proof fn lemma_valid_prefix_is_boundary(s: Seq<u8>, k: int)
    requires
        valid_utf8(s),
        0 <= k <= s.len(),
        valid_utf8(s.subrange(0, k)),
    ensures
        is_char_boundary(s, k),
    decreases k,
{
    if k > 0 {
        let p = s.subrange(0, k);
        assert(p[0] == s[0]);
        let lp = length_of_first_scalar(p);
        let ls = length_of_first_scalar(s);
        assert(lp == ls);
        assert(1 <= lp <= k);
        assert(pop_first_scalar(s).subrange(0, k - ls) =~= pop_first_scalar(p));
        lemma_valid_prefix_is_boundary(pop_first_scalar(s), k - ls);
    }
}

/// A boundary of the suffix of `t` that starts at boundary `i` is a
/// boundary of `t`.
proof fn lemma_boundary_shift(t: Seq<u8>, i: int, j: int)
    requires
        valid_utf8(t),
        is_char_boundary(t, i),
        0 <= i,
        0 <= j,
        is_char_boundary(t.subrange(i, t.len() as int), j),
    ensures
        is_char_boundary(t, i + j),
    decreases i,
{
    if i == 0 {
        assert(t.subrange(0, t.len() as int) =~= t);
    } else {
        let ls = length_of_first_scalar(t);
        assert(is_char_boundary(pop_first_scalar(t), i - ls));
        assert(i - ls >= 0);
        assert(t.subrange(i, t.len() as int) =~= pop_first_scalar(t).subrange(
            i - ls,
            pop_first_scalar(t).len() as int,
        ));
        lemma_boundary_shift(pop_first_scalar(t), i - ls, j);
    }
}

/// A boundary of `t` at or after boundary `i` is a boundary of the suffix
/// of `t` that starts at `i`.
proof fn lemma_boundary_unshift(t: Seq<u8>, i: int, k: int)
    requires
        valid_utf8(t),
        is_char_boundary(t, i),
        is_char_boundary(t, k),
        0 <= i <= k,
    ensures
        is_char_boundary(t.subrange(i, t.len() as int), k - i),
    decreases i,
{
    if i == 0 {
        assert(t.subrange(0, t.len() as int) =~= t);
    } else {
        let ls = length_of_first_scalar(t);
        assert(is_char_boundary(pop_first_scalar(t), i - ls));
        assert(is_char_boundary(pop_first_scalar(t), k - ls));
        assert(i - ls >= 0);
        assert(t.subrange(i, t.len() as int) =~= pop_first_scalar(t).subrange(
            i - ls,
            pop_first_scalar(t).len() as int,
        ));
        lemma_boundary_unshift(pop_first_scalar(t), i - ls, k - ls);
    }
}

/// The bytes between two character boundaries of a valid byte string are
/// valid UTF-8.
proof fn lemma_subrange_valid(t: Seq<u8>, i: int, k: int)
    requires
        valid_utf8(t),
        is_char_boundary(t, i),
        is_char_boundary(t, k),
        0 <= i <= k <= t.len(),
    ensures
        valid_utf8(t.subrange(i, k)),
{
    valid_utf8_split(t, i);
    let s = t.subrange(i, t.len() as int);
    lemma_boundary_unshift(t, i, k);
    valid_utf8_split(s, k - i);
    assert(s.subrange(0, k - i) =~= t.subrange(i, k));
}

/// Both ends of a match of a non-empty valid UTF-8 pattern inside valid
/// UTF-8 text are character boundaries of the text.
proof fn lemma_match_boundaries(t: Seq<u8>, pat: Seq<u8>, i: int)
    requires
        valid_utf8(t),
        valid_utf8(pat),
        pat.len() > 0,
        matches_at(t, pat, i),
    ensures
        is_char_boundary(t, i),
        is_char_boundary(t, i + pat.len()),
{
    assert(t[i] == pat[0]);
    assert(valid_first_scalar(pat));
    assert(!is_continuation_byte(pat[0]));
    is_char_boundary_iff_not_is_continuation_byte(t, i);
    valid_utf8_split(t, i);
    let s = t.subrange(i, t.len() as int);
    assert(s.subrange(0, pat.len() as int) =~= pat);
    lemma_valid_prefix_is_boundary(s, pat.len() as int);
    lemma_boundary_shift(t, i, pat.len() as int);
}

/// Escaping distributes over concatenation.
pub proof fn lemma_escape_seq_concat(a: Seq<u8>, b: Seq<u8>)
    ensures
        escape_seq(a + b) == escape_seq(a) + escape_seq(b),
    decreases a.len(),
{
    if a.len() == 0 {
        assert(a + b =~= b);
        assert(escape_seq(a) =~= Seq::<u8>::empty());
        assert(escape_seq(a + b) =~= escape_seq(a) + escape_seq(b));
    } else {
        assert((a + b).drop_first() =~= a.drop_first() + b);
        lemma_escape_seq_concat(a.drop_first(), b);
        assert(escape_seq(a + b) =~= escape_seq(a) + escape_seq(b));
    }
}

/// Escaping leaves a string without `_`, `*` and `\` unchanged.
proof fn lemma_escape_seq_nonspecial(s: Seq<u8>)
    requires
        forall|k: int|
            0 <= k < s.len() ==> s[k] != UNDERSCORE && s[k] != ASTERISK && s[k] != BACKSLASH,
    ensures
        escape_seq(s) == s,
    decreases s.len(),
{
    if s.len() > 0 {
        lemma_escape_seq_nonspecial(s.drop_first());
        assert(escape_seq(s) =~= s);
    }
}

/// The shape of the first code point of a valid byte string: it fits, its
/// bytes form a valid string of their own, a one-byte code point is ASCII,
/// and a longer one holds no ASCII byte at all.
pub proof fn lemma_first_scalar_shape(s: Seq<u8>)
    requires
        valid_utf8(s),
        s.len() > 0,
    ensures
        ({
            let head = take_first_scalar(s);
            &&& 1 <= length_of_first_scalar(s) <= s.len()
            &&& head + pop_first_scalar(s) == s
            &&& valid_utf8(head)
            &&& (length_of_first_scalar(s) == 1 ==> s[0] < 0x80)
            &&& (length_of_first_scalar(s) >= 2 ==> forall|k: int|
                0 <= k < head.len() ==> head[k] >= 0x80)
        }),
{
    let ls = length_of_first_scalar(s);
    let head = take_first_scalar(s);
    assert(1 <= ls <= s.len());
    assert(head + pop_first_scalar(s) =~= s);
    if ls >= 2 {
        assert(valid_leading_and_continuation_bytes_first_codepoint(s));
        assert forall|k: int| 0 <= k < head.len() implies head[k] >= 0x80 by {
            assert(head[k] == s[k]);
            if k == 0 {
                assert(!is_leading_byte_width_1(s[0]));
                assert(s[0] > 0x7f);
            } else {
                assert(is_continuation_byte(s[k]));
            }
        }
    }
    assert(valid_utf8(head)) by {
        assert(head.len() == ls);
        assert(head[0] == s[0]);
        if ls >= 2 {
            assert(head[1] == s[1]);
        }
        if ls >= 3 {
            assert(head[2] == s[2]);
        }
        if ls >= 4 {
            assert(head[3] == s[3]);
        }
        assert(decode_first_codepoint(head) == decode_first_codepoint(s));
        assert(valid_first_scalar(head));
        assert(pop_first_scalar(head) =~= Seq::<u8>::empty());
        assert(valid_utf8(Seq::<u8>::empty()));
    }
}

/// Escaping preserves UTF-8 validity: the escaped bytes are all ASCII and
/// the bytes of multi-byte code points pass through untouched.
pub proof fn lemma_escape_seq_valid(s: Seq<u8>)
    requires
        valid_utf8(s),
    ensures
        valid_utf8(escape_seq(s)),
    decreases s.len(),
{
    if s.len() > 0 {
        lemma_first_scalar_shape(s);
        let ls = length_of_first_scalar(s);
        let head = take_first_scalar(s);
        let rest = pop_first_scalar(s);
        lemma_escape_seq_concat(head, rest);
        lemma_escape_seq_valid(rest);
        assert(valid_utf8(escape_seq(head))) by {
            if ls == 1 {
                assert(head =~= seq![s[0]]);
                assert(head.drop_first() =~= Seq::<u8>::empty());
                assert(escape_seq(Seq::<u8>::empty()) =~= Seq::<u8>::empty());
                assert(escape_seq(head) =~= esc_byte(s[0]));
                lemma_ascii_valid(esc_byte(s[0]));
            } else {
                lemma_escape_seq_nonspecial(head);
            }
        }
        valid_utf8_concat(escape_seq(head), escape_seq(rest));
        assert(valid_utf8(escape_seq(s)));
    }
}

/// The offset an event carries.
pub open spec fn event_offset(ev: Event) -> int {
    match ev {
        Event::Begin(b) => b as int,
        Event::TextEnd(e) => e as int,
        Event::InlineEnd(e) => e as int,
        Event::BlockEnd(e) => e as int,
    }
}

/// Every offset of an event stream lies on a character boundary of `t`.
pub open spec fn events_on_boundaries(t: Seq<u8>, evs: Seq<Event>) -> bool {
    forall|k: int| 0 <= k < evs.len() ==> is_char_boundary(t, event_offset(#[trigger] evs[k]))
}

proof fn lemma_events_on_boundaries_concat(t: Seq<u8>, a: Seq<Event>, b: Seq<Event>)
    requires
        events_on_boundaries(t, a),
        events_on_boundaries(t, b),
    ensures
        events_on_boundaries(t, a + b),
{
    assert forall|k: int|
        0 <= k < (a + b).len() implies is_char_boundary(t, event_offset((a + b)[k])) by {
        if k < a.len() {
            assert((a + b)[k] == a[k]);
        } else {
            assert((a + b)[k] == b[k - a.len()]);
        }
    }
}

proof fn lemma_delimit_events_boundaries(
    t: Seq<u8>,
    l: Seq<u8>,
    r: Seq<u8>,
    inline: bool,
    i: int,
)
    requires
        t.len() <= usize::MAX,
        valid_utf8(t),
        valid_utf8(l),
        valid_utf8(r),
        l.len() > 0,
        matches_at(t, l, i),
    ensures
        events_on_boundaries(t, delimit_events(t, l, r, inline, i)),
{
    lemma_match_boundaries(t, l, i);
    let cs = i + l.len();
    let evs = delimit_events(t, l, r, inline, i);
    match find_close(t, r, cs) {
        None => {
            if i > 0 {
                assert(evs =~= seq![Event::TextEnd(i as usize), Event::Begin(cs as usize)]);
            } else {
                assert(evs =~= seq![Event::Begin(cs as usize)]);
            }
        },
        Some(c) => {
            lemma_find_close_some(t, r, cs);
            lemma_match_boundaries(t, r, c);
            let nx = c + r.len();
            let e2 = if inline {
                Event::InlineEnd(c as usize)
            } else {
                Event::BlockEnd(c as usize)
            };
            if i > 0 {
                assert(evs =~= seq![
                    Event::TextEnd(i as usize),
                    Event::Begin(cs as usize),
                    e2,
                    Event::Begin(nx as usize),
                ]);
            } else {
                assert(evs =~= seq![Event::Begin(cs as usize), e2, Event::Begin(nx as usize)]);
            }
        },
    }
}

/// Every event offset of a scan lies on a character boundary of the text:
/// offsets arise only where a complete delimiter byte string matches, and a
/// valid delimiter can neither start nor end inside a code point of valid
/// text.
pub proof fn lemma_scan_events_boundaries(
    t: Seq<u8>,
    bl: Seq<u8>,
    br: Seq<u8>,
    il: Seq<u8>,
    ir: Seq<u8>,
    i: int,
)
    requires
        t.len() <= usize::MAX,
        valid_utf8(t),
        valid_utf8(bl),
        valid_utf8(br),
        valid_utf8(il),
        valid_utf8(ir),
    ensures
        events_on_boundaries(t, spec_scan(t, bl, br, il, ir, i)),
    decreases t.len() - i,
{
    if i < 0 || i >= t.len() {
    } else if bl.len() > 0 && matches_at(t, bl, i) {
        lemma_delimit_events_boundaries(t, bl, br, false, i);
        match delimit_next(t, bl, br, i) {
            None => {
                assert(spec_scan(t, bl, br, il, ir, i) =~= delimit_events(t, bl, br, false, i));
            },
            Some(nx) => {
                lemma_delimit_next_some(t, bl, br, i);
                lemma_scan_events_boundaries(t, bl, br, il, ir, nx);
                lemma_events_on_boundaries_concat(
                    t,
                    delimit_events(t, bl, br, false, i),
                    spec_scan(t, bl, br, il, ir, nx),
                );
            },
        }
    } else if il.len() > 0 && matches_at(t, il, i) {
        lemma_delimit_events_boundaries(t, il, ir, true, i);
        match delimit_next(t, il, ir, i) {
            None => {
                assert(spec_scan(t, bl, br, il, ir, i) =~= delimit_events(t, il, ir, true, i));
            },
            Some(nx) => {
                lemma_delimit_next_some(t, il, ir, i);
                lemma_scan_events_boundaries(t, bl, br, il, ir, nx);
                lemma_events_on_boundaries_concat(
                    t,
                    delimit_events(t, il, ir, true, i),
                    spec_scan(t, bl, br, il, ir, nx),
                );
            },
        }
    } else if t[i] == BACKSLASH {
        lemma_scan_events_boundaries(
            t,
            bl,
            br,
            il,
            ir,
            if i + 2 <= t.len() { i + 2 } else { t.len() as int },
        );
    } else if t[i] == BACKTICK {
        match fence_skip(t, i) {
            None => {},
            Some(e) => {
                lemma_fence_skip_some(t, i);
                lemma_scan_events_boundaries(t, bl, br, il, ir, e);
            },
        }
    } else {
        lemma_scan_events_boundaries(t, bl, br, il, ir, i + 1);
    }
}

/// The bytes a render task refers to.
pub open spec fn task_bytes(v: RenderView) -> Seq<u8> {
    match v {
        RenderView::Text(s) => s,
        RenderView::InlineTask(m) => m,
        RenderView::DisplayTask(m) => m,
    }
}

/// The tasks projected from a well-formed, boundary-respecting event stream
/// all hold valid UTF-8 bytes.
proof fn lemma_tasks_valid(t: Seq<u8>, evs: Seq<Event>, cp: int)
    requires
        valid_utf8(t),
        events_wf(t.len() as int, evs, cp),
        events_on_boundaries(t, evs),
        is_char_boundary(t, cp),
        0 <= cp <= t.len(),
    ensures
        forall|k: int|
            0 <= k < spec_tasks(t, evs, cp).len() ==> valid_utf8(
                task_bytes(#[trigger] spec_tasks(t, evs, cp)[k]),
            ),
    decreases evs.len(),
{
    let tasks = spec_tasks(t, evs, cp);
    if evs.len() == 0 {
        if t.len() > cp {
            is_char_boundary_start_end_of_seq(t);
            lemma_subrange_valid(t, cp, t.len() as int);
            assert(tasks =~= seq![RenderView::Text(t.subrange(cp, t.len() as int))]);
        }
    } else {
        let ev = evs[0];
        assert(is_char_boundary(t, event_offset(ev)));
        assert(events_on_boundaries(t, evs.drop_first())) by {
            assert forall|k: int|
                0 <= k < evs.drop_first().len() implies is_char_boundary(
                t,
                event_offset(evs.drop_first()[k]),
            ) by {
                assert(evs.drop_first()[k] == evs[k + 1]);
            }
        }
        match ev {
            Event::Begin(b) => {
                lemma_tasks_valid(t, evs.drop_first(), b as int);
            },
            Event::TextEnd(e) => {
                lemma_subrange_valid(t, cp, e as int);
                lemma_tasks_valid(t, evs.drop_first(), cp);
                let rest = spec_tasks(t, evs.drop_first(), cp);
                assert forall|k: int|
                    0 <= k < tasks.len() implies valid_utf8(task_bytes(tasks[k])) by {
                    if k > 0 {
                        assert(tasks[k] == rest[k - 1]);
                    }
                }
            },
            Event::InlineEnd(e) => {
                lemma_subrange_valid(t, cp, e as int);
                lemma_tasks_valid(t, evs.drop_first(), e as int);
                let rest = spec_tasks(t, evs.drop_first(), e as int);
                assert forall|k: int|
                    0 <= k < tasks.len() implies valid_utf8(task_bytes(tasks[k])) by {
                    if k > 0 {
                        assert(tasks[k] == rest[k - 1]);
                    }
                }
            },
            Event::BlockEnd(e) => {
                lemma_subrange_valid(t, cp, e as int);
                lemma_tasks_valid(t, evs.drop_first(), e as int);
                let rest = spec_tasks(t, evs.drop_first(), e as int);
                assert forall|k: int|
                    0 <= k < tasks.len() implies valid_utf8(task_bytes(tasks[k])) by {
                    if k > 0 {
                        assert(tasks[k] == rest[k - 1]);
                    }
                }
            },
        }
    }
}

/// The concatenated escape-mode fragments of valid tasks are valid UTF-8.
proof fn lemma_escaped_output_valid(
    tasks: Seq<RenderView>,
    bl: Seq<u8>,
    br: Seq<u8>,
    il: Seq<u8>,
    ir: Seq<u8>,
)
    requires
        forall|k: int| 0 <= k < tasks.len() ==> valid_utf8(task_bytes(#[trigger] tasks[k])),
        valid_utf8(bl),
        valid_utf8(br),
        valid_utf8(il),
        valid_utf8(ir),
    ensures
        valid_utf8(escaped_output(tasks, bl, br, il, ir)),
    decreases tasks.len(),
{
    if tasks.len() == 0 {
        assert(valid_utf8(Seq::<u8>::empty()));
    } else {
        assert(valid_utf8(task_bytes(tasks[0])));
        let frag = crate::preprocess::escaped_fragment(tasks[0], bl, br, il, ir);
        assert(valid_utf8(frag)) by {
            match tasks[0] {
                RenderView::Text(s) => {},
                RenderView::InlineTask(m) => {
                    lemma_escape_seq_valid(il);
                    lemma_escape_seq_valid(m);
                    lemma_escape_seq_valid(ir);
                    valid_utf8_concat(escape_seq(il), escape_seq(m));
                    valid_utf8_concat(escape_seq(il) + escape_seq(m), escape_seq(ir));
                },
                RenderView::DisplayTask(m) => {
                    lemma_escape_seq_valid(bl);
                    lemma_escape_seq_valid(m);
                    lemma_escape_seq_valid(br);
                    valid_utf8_concat(escape_seq(bl), escape_seq(m));
                    valid_utf8_concat(escape_seq(bl) + escape_seq(m), escape_seq(br));
                },
            }
        }
        assert forall|k: int|
            0 <= k < tasks.drop_first().len() implies valid_utf8(
            task_bytes(tasks.drop_first()[k]),
        ) by {
            assert(tasks.drop_first()[k] == tasks[k + 1]);
        }
        lemma_escaped_output_valid(tasks.drop_first(), bl, br, il, ir);
        valid_utf8_concat(frag, escaped_output(tasks.drop_first(), bl, br, il, ir));
    }
}

/// Every render task of a chapter holds valid UTF-8 bytes whenever the
/// chapter, the header and the delimiter strings do: the scan slices the
/// text only at matches of complete delimiter strings.
pub proof fn lemma_render_tasks_valid(
    t: Seq<u8>,
    header: Seq<u8>,
    bl: Seq<u8>,
    br: Seq<u8>,
    il: Seq<u8>,
    ir: Seq<u8>,
)
    requires
        t.len() <= usize::MAX,
        valid_utf8(t),
        valid_utf8(header),
        valid_utf8(bl),
        valid_utf8(br),
        valid_utf8(il),
        valid_utf8(ir),
    ensures
        forall|k: int|
            0 <= k < spec_render_tasks(t, header, bl, br, il, ir).len() ==> valid_utf8(
                task_bytes(#[trigger] spec_render_tasks(t, header, bl, br, il, ir)[k]),
            ),
{
    let evs = spec_scan(t, bl, br, il, ir, 0);
    lemma_scan_events_wf(t, bl, br, il, ir, 0, 0);
    lemma_scan_events_boundaries(t, bl, br, il, ir, 0);
    assert(is_char_boundary(t, 0));
    lemma_tasks_valid(t, evs, 0);
    let tasks = spec_render_tasks(t, header, bl, br, il, ir);
    assert forall|k: int| 0 <= k < tasks.len() implies valid_utf8(task_bytes(tasks[k])) by {
        if k > 0 {
            assert(tasks[k] == spec_tasks(t, evs, 0)[k - 1]);
        }
    }
}

/// The escape-mode output of a chapter is valid UTF-8 whenever the chapter,
/// the header and the delimiter strings are: the pipeline never slices a
/// code point apart.
pub proof fn lemma_chapter_escape_valid_utf8(
    t: Seq<u8>,
    header: Seq<u8>,
    bl: Seq<u8>,
    br: Seq<u8>,
    il: Seq<u8>,
    ir: Seq<u8>,
)
    requires
        t.len() <= usize::MAX,
        valid_utf8(t),
        valid_utf8(header),
        valid_utf8(bl),
        valid_utf8(br),
        valid_utf8(il),
        valid_utf8(ir),
    ensures
        valid_utf8(spec_chapter_escape(t, header, bl, br, il, ir)),
{
    lemma_render_tasks_valid(t, header, bl, br, il, ir);
    lemma_escaped_output_valid(spec_render_tasks(t, header, bl, br, il, ir), bl, br, il, ir);
}

} // verus!
