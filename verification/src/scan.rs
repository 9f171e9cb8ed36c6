//! Scan Markdown text and identify math span events.
//!
//! The scanner walks the bytes of a document once. It recognises the left
//! string of either configured delimiter (the display delimiter is tried
//! first), skips backslash-escaped bytes, and skips inline and fenced code
//! between backtick runs of equal length. The events it emits are specified
//! exactly by the recursive automaton [`spec_scan`].
use vstd::prelude::*;

verus! {

/// The escape byte `\`.
pub const BACKSLASH: u8 = 0x5c;

/// The code-span byte `` ` ``.
pub const BACKTICK: u8 = 0x60;

/// A pair of byte strings that bound a math span.
#[derive(Clone, Debug)]
pub struct Delimiter {
    /// Left delimiter.
    pub left: Vec<u8>,
    /// Right delimiter.
    pub right: Vec<u8>,
}

/// An event for parsing a Markdown document.
///
/// Every offset is a byte offset into the scanned text. A `Begin` marks
/// where the next span (text or math content) starts; each end event closes
/// the span opened by the last `Begin` before it.
#[derive(Clone, Copy, Debug, PartialEq, Eq, Structural)]
pub enum Event {
    /// A beginning of a text or math span.
    Begin(usize),
    /// An end of a text span.
    TextEnd(usize),
    /// An end of an inline math span.
    InlineEnd(usize),
    /// An end of a display math span.
    BlockEnd(usize),
}

/// Whether `pat` occurs in `t` starting exactly at position `i`.
pub open spec fn matches_at(t: Seq<u8>, pat: Seq<u8>, i: int) -> bool {
    &&& 0 <= i
    &&& i + pat.len() <= t.len()
    &&& forall|k: int| 0 <= k < pat.len() ==> t[i + k] == pat[k]
}

/// The first position at or after `from` where `pat` occurs in `t`.
pub open spec fn find_at(t: Seq<u8>, pat: Seq<u8>, from: int) -> Option<int>
    decreases t.len() - from,
{
    if from < 0 || from + pat.len() > t.len() {
        None
    } else if matches_at(t, pat, from) {
        Some(from)
    } else {
        find_at(t, pat, from + 1)
    }
}

/// The length of the maximal run of backslashes that ends just before
/// position `p` of `t`.
pub open spec fn backslash_run(t: Seq<u8>, p: int) -> int
    decreases p,
{
    if p <= 0 || p > t.len() {
        0
    } else if t[p - 1] == BACKSLASH {
        backslash_run(t, p - 1) + 1
    } else {
        0
    }
}

/// A delimiter occurrence at `p` is escaped when an odd number of
/// backslashes immediately precedes it: the last backslash escapes the
/// occurrence's first byte. In an even run (including zero) the backslashes
/// escape one another and the occurrence stands.
pub open spec fn is_escaped(t: Seq<u8>, p: int) -> bool {
    backslash_run(t, p) % 2 == 1
}

/// An occurrence found by `find_at` lies at or after `from`, fits in the
/// text, and is a real match.
pub proof fn lemma_find_at_some(t: Seq<u8>, pat: Seq<u8>, from: int)
    requires
        find_at(t, pat, from) is Some,
    ensures
        from <= find_at(t, pat, from)->0,
        find_at(t, pat, from)->0 + pat.len() <= t.len(),
        matches_at(t, pat, find_at(t, pat, from)->0),
    decreases t.len() - from,
{
    if !(from < 0 || from + pat.len() > t.len()) && !matches_at(t, pat, from) {
        lemma_find_at_some(t, pat, from + 1);
    }
}

/// `find_at` finds the leftmost occurrence: nothing matches before it.
pub proof fn lemma_find_at_first(t: Seq<u8>, pat: Seq<u8>, from: int, q: int)
    requires
        find_at(t, pat, from) is Some,
        from <= q < find_at(t, pat, from)->0,
    ensures
        !matches_at(t, pat, q),
    decreases t.len() - from,
{
    if !(from < 0 || from + pat.len() > t.len()) && !matches_at(t, pat, from) {
        if q > from {
            lemma_find_at_first(t, pat, from + 1, q);
        }
    }
}

/// The position of the closing delimiter: the first unescaped occurrence of
/// `right` at or after `from`, where escaped occurrences are skipped whole
/// (the search resumes after the skipped occurrence, not one byte later).
pub open spec fn find_close(t: Seq<u8>, right: Seq<u8>, from: int) -> Option<int>
    decreases t.len() - from via find_close_decreases
{
    if right.len() == 0 || from < 0 {
        None
    } else {
        match find_at(t, right, from) {
            None => None,
            Some(p) => if is_escaped(t, p) {
                find_close(t, right, p + right.len())
            } else {
                Some(p)
            },
        }
    }
}

#[via_fn]
proof fn find_close_decreases(t: Seq<u8>, right: Seq<u8>, from: int) {
    if right.len() != 0 && from >= 0 && find_at(t, right, from) is Some {
        lemma_find_at_some(t, right, from);
    }
}

/// A closing delimiter reported by `find_close` is a real occurrence of the
/// right delimiter, lies at or after the start of the search, and is never
/// backslash-escaped.
pub proof fn lemma_find_close_some(t: Seq<u8>, right: Seq<u8>, from: int)
    requires
        find_close(t, right, from) is Some,
    ensures
        from <= find_close(t, right, from)->0,
        find_close(t, right, from)->0 + right.len() <= t.len(),
        right.len() > 0,
        matches_at(t, right, find_close(t, right, from)->0),
        !is_escaped(t, find_close(t, right, from)->0),
    decreases t.len() - from,
{
    let p = find_at(t, right, from)->0;
    lemma_find_at_some(t, right, from);
    if is_escaped(t, p) {
        lemma_find_close_some(t, right, p + right.len());
    }
}

/// A run of `n` backticks.
pub open spec fn ticks(n: int) -> Seq<u8> {
    Seq::new(n as nat, |i: int| BACKTICK)
}

/// The first position at or after `from` that does not hold a backtick.
pub open spec fn backtick_run_end(t: Seq<u8>, from: int) -> int
    decreases t.len() - from,
{
    if 0 <= from < t.len() && t[from] == BACKTICK {
        backtick_run_end(t, from + 1)
    } else {
        from
    }
}

pub proof fn lemma_backtick_run_end(t: Seq<u8>, from: int)
    requires
        0 <= from <= t.len(),
    ensures
        from <= backtick_run_end(t, from) <= t.len(),
        forall|k: int| from <= k < backtick_run_end(t, from) ==> t[k] == BACKTICK,
        backtick_run_end(t, from) == t.len() || t[backtick_run_end(t, from)] != BACKTICK,
    decreases t.len() - from,
{
    if 0 <= from < t.len() && t[from] == BACKTICK {
        lemma_backtick_run_end(t, from + 1);
    }
}

/// The position just after the run of backticks that closes a code span
/// opened by a run of `n` backticks. A found run that is followed by more
/// backticks is longer than `n` and does not close the span: the whole run
/// is skipped and the search resumes after it.
pub open spec fn find_fence_close(t: Seq<u8>, n: int, from: int) -> Option<int>
    decreases t.len() - from via find_fence_close_decreases
{
    if n <= 0 || from < 0 {
        None
    } else {
        match find_at(t, ticks(n), from) {
            None => None,
            Some(p) => if p + n < t.len() && t[p + n] == BACKTICK {
                find_fence_close(t, n, backtick_run_end(t, p + n + 1))
            } else {
                Some(p + n)
            },
        }
    }
}

#[via_fn]
proof fn find_fence_close_decreases(t: Seq<u8>, n: int, from: int) {
    if n > 0 && from >= 0 && find_at(t, ticks(n), from) is Some {
        let p = find_at(t, ticks(n), from)->0;
        lemma_find_at_some(t, ticks(n), from);
        if p + n < t.len() && t[p + n] == BACKTICK {
            lemma_backtick_run_end(t, p + n + 1);
        }
    }
}

pub proof fn lemma_find_fence_close_some(t: Seq<u8>, n: int, from: int)
    requires
        find_fence_close(t, n, from) is Some,
    ensures
        from + n <= find_fence_close(t, n, from)->0 <= t.len(),
        n > 0,
    decreases t.len() - from,
{
    let p = find_at(t, ticks(n), from)->0;
    lemma_find_at_some(t, ticks(n), from);
    if p + n < t.len() && t[p + n] == BACKTICK {
        lemma_backtick_run_end(t, p + n + 1);
        lemma_find_fence_close_some(t, n, backtick_run_end(t, p + n + 1));
    }
}

/// The events a recognised delimiter emits before its closing search: the
/// end of the preceding text span (absent when the delimiter starts the
/// text) and the beginning of the math content just after the left string.
pub open spec fn delimit_head(i: int, content_start: int) -> Seq<Event> {
    if i > 0 {
        seq![Event::TextEnd(i as usize), Event::Begin(content_start as usize)]
    } else {
        seq![Event::Begin(content_start as usize)]
    }
}

/// The events that recognising the delimiter `(l, r)` at position `i`
/// emits. When the closing delimiter exists, the math span is closed with
/// an `InlineEnd` or `BlockEnd` at its position and a `Begin` just after
/// the right string; otherwise only the head events stand and the scan
/// ends.
pub open spec fn delimit_events(t: Seq<u8>, l: Seq<u8>, r: Seq<u8>, inline: bool, i: int) -> Seq<
    Event,
> {
    let cs = i + l.len();
    match find_close(t, r, cs) {
        None => delimit_head(i, cs),
        Some(c) => delimit_head(i, cs) + (if inline {
            seq![Event::InlineEnd(c as usize), Event::Begin((c + r.len()) as usize)]
        } else {
            seq![Event::BlockEnd(c as usize), Event::Begin((c + r.len()) as usize)]
        }),
    }
}

/// Where scanning resumes after recognising the delimiter `(l, r)` at
/// position `i`: just after the closing delimiter, or nowhere when the math
/// span never closes.
pub open spec fn delimit_next(t: Seq<u8>, l: Seq<u8>, r: Seq<u8>, i: int) -> Option<int> {
    match find_close(t, r, i + l.len()) {
        None => None,
        Some(c) => Some(c + r.len()),
    }
}

pub proof fn lemma_delimit_next_some(t: Seq<u8>, l: Seq<u8>, r: Seq<u8>, i: int)
    requires
        delimit_next(t, l, r, i) is Some,
        0 <= i,
    ensures
        i < delimit_next(t, l, r, i)->0 <= t.len(),
{
    lemma_find_close_some(t, r, i + l.len());
}

/// Where scanning resumes after a backtick at position `i` opens a code
/// span: just after the closing backtick run, or nowhere when the span
/// never closes (the scan then ends and the span runs to the end of the
/// text).
pub open spec fn fence_skip(t: Seq<u8>, i: int) -> Option<int> {
    let re = backtick_run_end(t, i + 1);
    if re >= t.len() {
        None
    } else {
        find_fence_close(t, re - i, re)
    }
}

pub proof fn lemma_fence_skip_some(t: Seq<u8>, i: int)
    requires
        fence_skip(t, i) is Some,
        0 <= i < t.len(),
    ensures
        i < fence_skip(t, i)->0 <= t.len(),
{
    lemma_backtick_run_end(t, i + 1);
    let re = backtick_run_end(t, i + 1);
    lemma_find_fence_close_some(t, re - i, re);
}

/// The event sequence the scanner emits from position `i` to the end of the
/// text, for display delimiter `bl`/`br` and inline delimiter `il`/`ir`.
///
/// At each position, in order of priority: a match of the display left
/// delimiter, a match of the inline left delimiter, a backslash (which
/// hides the following byte), a backtick (which opens a code span that ends
/// only at an unextended backtick run of equal length), any other byte. A
/// math span whose closing delimiter is missing, and a code span whose
/// closing run is missing, both end the scan: the events emitted so far
/// stand and the rest of the text is left to the caller as trailing text.
pub open spec fn spec_scan(
    t: Seq<u8>,
    bl: Seq<u8>,
    br: Seq<u8>,
    il: Seq<u8>,
    ir: Seq<u8>,
    i: int,
) -> Seq<Event>
    decreases t.len() - i via spec_scan_decreases
{
    if i < 0 || i >= t.len() {
        Seq::empty()
    } else if bl.len() > 0 && matches_at(t, bl, i) {
        delimit_events(t, bl, br, false, i) + (match delimit_next(t, bl, br, i) {
            None => Seq::empty(),
            Some(nx) => spec_scan(t, bl, br, il, ir, nx),
        })
    } else if il.len() > 0 && matches_at(t, il, i) {
        delimit_events(t, il, ir, true, i) + (match delimit_next(t, il, ir, i) {
            None => Seq::empty(),
            Some(nx) => spec_scan(t, bl, br, il, ir, nx),
        })
    } else if t[i] == BACKSLASH {
        spec_scan(t, bl, br, il, ir, if i + 2 <= t.len() { i + 2 } else { t.len() as int })
    } else if t[i] == BACKTICK {
        match fence_skip(t, i) {
            None => Seq::empty(),
            Some(e) => spec_scan(t, bl, br, il, ir, e),
        }
    } else {
        spec_scan(t, bl, br, il, ir, i + 1)
    }
}

#[via_fn]
proof fn spec_scan_decreases(t: Seq<u8>, bl: Seq<u8>, br: Seq<u8>, il: Seq<u8>, ir: Seq<u8>, i: int) {
    if 0 <= i < t.len() {
        if bl.len() > 0 && matches_at(t, bl, i) {
            if delimit_next(t, bl, br, i) is Some {
                lemma_delimit_next_some(t, bl, br, i);
            }
        } else if il.len() > 0 && matches_at(t, il, i) {
            if delimit_next(t, il, ir, i) is Some {
                lemma_delimit_next_some(t, il, ir, i);
            }
        } else if t[i] == BACKTICK {
            if fence_skip(t, i) is Some {
                lemma_fence_skip_some(t, i);
            }
        }
    }
}

/// The checkpoint that a walker of an event stream holds after one event:
/// a `Begin` moves it to the span start, a math end moves it to the span
/// end, a text end leaves it in place (the `Begin` that follows moves it).
pub open spec fn step_cp(ev: Event, cp: int) -> int {
    match ev {
        Event::Begin(b) => b as int,
        Event::TextEnd(e) => cp,
        Event::InlineEnd(e) => e as int,
        Event::BlockEnd(e) => e as int,
    }
}

/// Well-formedness of an event stream against a text of length `t_len`,
/// walked from checkpoint `cp`: every offset lies inside the text and every
/// end event closes a span that starts at or before it. This is the
/// invariant that lets a consumer slice the text at the event offsets.
pub open spec fn events_wf(t_len: int, evs: Seq<Event>, cp: int) -> bool
    decreases evs.len(),
{
    if evs.len() == 0 {
        true
    } else {
        let ok = match evs[0] {
            Event::Begin(b) => 0 <= cp <= b <= t_len,
            Event::TextEnd(e) => 0 <= cp <= e <= t_len,
            Event::InlineEnd(e) => 0 <= cp <= e <= t_len,
            Event::BlockEnd(e) => 0 <= cp <= e <= t_len,
        };
        ok && events_wf(t_len, evs.drop_first(), step_cp(evs[0], cp))
    }
}

/// The checkpoint after walking a whole event stream from checkpoint `cp`.
pub open spec fn final_cp(evs: Seq<Event>, cp: int) -> int
    decreases evs.len(),
{
    if evs.len() == 0 {
        cp
    } else {
        final_cp(evs.drop_first(), step_cp(evs[0], cp))
    }
}

proof fn lemma_events_wf_concat(t_len: int, a: Seq<Event>, b: Seq<Event>, cp: int)
    requires
        events_wf(t_len, a, cp),
        events_wf(t_len, b, final_cp(a, cp)),
    ensures
        events_wf(t_len, a + b, cp),
    decreases a.len(),
{
    if a.len() == 0 {
        assert(a + b =~= b);
    } else {
        assert((a + b).drop_first() =~= a.drop_first() + b);
        lemma_events_wf_concat(t_len, a.drop_first(), b, step_cp(a[0], cp));
    }
}

proof fn lemma_events_wf_one(t_len: int, ev: Event, cp: int)
    requires
        match ev {
            Event::Begin(b) => 0 <= cp <= b <= t_len,
            Event::TextEnd(e) => 0 <= cp <= e <= t_len,
            Event::InlineEnd(e) => 0 <= cp <= e <= t_len,
            Event::BlockEnd(e) => 0 <= cp <= e <= t_len,
        },
    ensures
        events_wf(t_len, seq![ev], cp),
        final_cp(seq![ev], cp) == step_cp(ev, cp),
{
    assert(seq![ev].drop_first() =~= Seq::<Event>::empty());
    assert(events_wf(t_len, Seq::<Event>::empty(), step_cp(ev, cp)));
    assert(final_cp(Seq::<Event>::empty(), step_cp(ev, cp)) == step_cp(ev, cp));
}

proof fn lemma_events_wf_two(t_len: int, ev1: Event, ev2: Event, cp: int)
    requires
        match ev1 {
            Event::Begin(b) => 0 <= cp <= b <= t_len,
            Event::TextEnd(e) => 0 <= cp <= e <= t_len,
            Event::InlineEnd(e) => 0 <= cp <= e <= t_len,
            Event::BlockEnd(e) => 0 <= cp <= e <= t_len,
        },
        match ev2 {
            Event::Begin(b) => step_cp(ev1, cp) <= b <= t_len,
            Event::TextEnd(e) => step_cp(ev1, cp) <= e <= t_len,
            Event::InlineEnd(e) => step_cp(ev1, cp) <= e <= t_len,
            Event::BlockEnd(e) => step_cp(ev1, cp) <= e <= t_len,
        },
    ensures
        events_wf(t_len, seq![ev1, ev2], cp),
        final_cp(seq![ev1, ev2], cp) == step_cp(ev2, step_cp(ev1, cp)),
{
    lemma_events_wf_one(t_len, ev1, cp);
    lemma_events_wf_one(t_len, ev2, step_cp(ev1, cp));
    assert(seq![ev1, ev2] =~= seq![ev1] + seq![ev2]);
    lemma_events_wf_concat(t_len, seq![ev1], seq![ev2], cp);
    lemma_final_cp_concat(seq![ev1], seq![ev2], cp);
}

/// The events of a recognised delimiter are well-formed and leave the
/// walker either just after the closing delimiter or, when the span never
/// closes, at the start of the math content.
proof fn lemma_delimit_events_wf(t: Seq<u8>, l: Seq<u8>, r: Seq<u8>, inline: bool, i: int, cp: int)
    requires
        t.len() <= usize::MAX,
        0 <= cp <= i,
        matches_at(t, l, i),
    ensures
        events_wf(t.len() as int, delimit_events(t, l, r, inline, i), cp),
        final_cp(delimit_events(t, l, r, inline, i), cp) == match delimit_next(t, l, r, i) {
            Some(nx) => nx,
            None => i + l.len(),
        },
{
    let t_len = t.len() as int;
    let cs = i + l.len();
    let head = delimit_head(i, cs);
    if i > 0 {
        lemma_events_wf_two(t_len, Event::TextEnd(i as usize), Event::Begin(cs as usize), cp);
    } else {
        lemma_events_wf_one(t_len, Event::Begin(cs as usize), cp);
    }
    assert(events_wf(t_len, head, cp));
    assert(final_cp(head, cp) == cs);
    match find_close(t, r, cs) {
        None => {},
        Some(c) => {
            lemma_find_close_some(t, r, cs);
            let nx = c + r.len();
            let tail = if inline {
                seq![Event::InlineEnd(c as usize), Event::Begin(nx as usize)]
            } else {
                seq![Event::BlockEnd(c as usize), Event::Begin(nx as usize)]
            };
            if inline {
                lemma_events_wf_two(t_len, Event::InlineEnd(c as usize), Event::Begin(nx as usize), cs);
            } else {
                lemma_events_wf_two(t_len, Event::BlockEnd(c as usize), Event::Begin(nx as usize), cs);
            }
            lemma_events_wf_concat(t_len, head, tail, cp);
            lemma_final_cp_concat(head, tail, cp);
        },
    }
}

proof fn lemma_final_cp_concat(a: Seq<Event>, b: Seq<Event>, cp: int)
    ensures
        final_cp(a + b, cp) == final_cp(b, final_cp(a, cp)),
    decreases a.len(),
{
    if a.len() == 0 {
        assert(a + b =~= b);
    } else {
        assert((a + b).drop_first() =~= a.drop_first() + b);
        lemma_final_cp_concat(a.drop_first(), b, step_cp(a[0], cp));
    }
}

/// The event stream that a scan emits is well-formed: every offset lies
/// within the text, and every end event closes a span that starts at or
/// before it, so a consumer that walks the events can slice the text at
/// them.
pub proof fn lemma_scan_events_wf(
    t: Seq<u8>,
    bl: Seq<u8>,
    br: Seq<u8>,
    il: Seq<u8>,
    ir: Seq<u8>,
    i: int,
    cp: int,
)
    requires
        t.len() <= usize::MAX,
        0 <= cp <= i,
    ensures
        events_wf(t.len() as int, spec_scan(t, bl, br, il, ir, i), cp),
    decreases t.len() - i,
{
    if i < 0 || i >= t.len() {
    } else if bl.len() > 0 && matches_at(t, bl, i) {
        lemma_delimit_events_wf(t, bl, br, false, i, cp);
        match delimit_next(t, bl, br, i) {
            None => {
                assert(spec_scan(t, bl, br, il, ir, i) =~= delimit_events(t, bl, br, false, i));
            },
            Some(nx) => {
                lemma_delimit_next_some(t, bl, br, i);
                lemma_scan_events_wf(t, bl, br, il, ir, nx, nx);
                lemma_events_wf_concat(
                    t.len() as int,
                    delimit_events(t, bl, br, false, i),
                    spec_scan(t, bl, br, il, ir, nx),
                    cp,
                );
            },
        }
    } else if il.len() > 0 && matches_at(t, il, i) {
        lemma_delimit_events_wf(t, il, ir, true, i, cp);
        match delimit_next(t, il, ir, i) {
            None => {
                assert(spec_scan(t, bl, br, il, ir, i) =~= delimit_events(t, il, ir, true, i));
            },
            Some(nx) => {
                lemma_delimit_next_some(t, il, ir, i);
                lemma_scan_events_wf(t, bl, br, il, ir, nx, nx);
                lemma_events_wf_concat(
                    t.len() as int,
                    delimit_events(t, il, ir, true, i),
                    spec_scan(t, bl, br, il, ir, nx),
                    cp,
                );
            },
        }
    } else if t[i] == BACKSLASH {
        lemma_scan_events_wf(
            t,
            bl,
            br,
            il,
            ir,
            if i + 2 <= t.len() { i + 2 } else { t.len() as int },
            cp,
        );
    } else if t[i] == BACKTICK {
        match fence_skip(t, i) {
            None => {},
            Some(e) => {
                lemma_fence_skip_some(t, i);
                lemma_scan_events_wf(t, bl, br, il, ir, e, cp);
            },
        }
    } else {
        lemma_scan_events_wf(t, bl, br, il, ir, i + 1, cp);
    }
}

/// Delimiter-like text inside a code span is opaque: after the opening
/// backtick run, scanning resumes only at the closing run of equal length,
/// so no event — and hence no math span — arises from anything between
/// them; when no closing run exists the scan ends and the whole rest of
/// the text stays in the surrounding text span.
pub proof fn lemma_code_span_opaque(
    t: Seq<u8>,
    bl: Seq<u8>,
    br: Seq<u8>,
    il: Seq<u8>,
    ir: Seq<u8>,
    i: int,
)
    requires
        0 <= i < t.len(),
        t[i] == BACKTICK,
        !(bl.len() > 0 && matches_at(t, bl, i)),
        !(il.len() > 0 && matches_at(t, il, i)),
    ensures
        fence_skip(t, i) is Some ==> spec_scan(t, bl, br, il, ir, i) == spec_scan(
            t,
            bl,
            br,
            il,
            ir,
            fence_skip(t, i)->0,
        ),
        fence_skip(t, i) is None ==> spec_scan(t, bl, br, il, ir, i) == Seq::<Event>::empty(),
{
}

/// A fence opened by a run of `n` backticks closes only at an unescaped
/// run of exactly `n` backticks: the closing run is neither preceded nor
/// followed by a further backtick, so a longer run never closes a shorter
/// fence.
pub proof fn lemma_fence_close_exact(t: Seq<u8>, n: int, from: int)
    requires
        find_fence_close(t, n, from) is Some,
        0 <= from <= t.len(),
        from == t.len() || t[from] != BACKTICK,
    ensures
        ({
            let e = find_fence_close(t, n, from)->0;
            &&& n >= 1
            &&& from + n <= e <= t.len()
            &&& forall|k: int| e - n <= k < e ==> t[k] == BACKTICK
            &&& t[e - n - 1] != BACKTICK
            &&& e == t.len() || t[e] != BACKTICK
        }),
    decreases t.len() - from,
{
    let p = find_at(t, ticks(n), from)->0;
    lemma_find_at_some(t, ticks(n), from);
    assert(forall|k: int| 0 <= k < n ==> ticks(n)[k] == BACKTICK);
    if p + n < t.len() && t[p + n] == BACKTICK {
        lemma_backtick_run_end(t, p + n + 1);
        lemma_fence_close_exact(t, n, backtick_run_end(t, p + n + 1));
    } else {
        let e = p + n;
        assert(t[p] == ticks(n)[0]);
        assert(p != from);
        assert forall|k: int| e - n <= k < e implies t[k] == BACKTICK by {
            assert(t[p + (k - p)] == ticks(n)[k - p]);
        }
        if t[p - 1] == BACKTICK {
            assert(matches_at(t, ticks(n), p - 1)) by {
                assert forall|k: int| 0 <= k < n implies t[p - 1 + k] == ticks(n)[k] by {
                    if k > 0 {
                        assert(t[p + (k - 1)] == ticks(n)[k - 1]);
                        assert(ticks(n)[k - 1] == BACKTICK && ticks(n)[k] == BACKTICK);
                    }
                }
            }
            lemma_find_at_first(t, ticks(n), from, p - 1);
            assert(false);
        }
    }
}

/// With no occurrence of either left delimiter anywhere in the text, a
/// scan emits no events at all.
pub proof fn lemma_scan_no_delimiters(
    t: Seq<u8>,
    bl: Seq<u8>,
    br: Seq<u8>,
    il: Seq<u8>,
    ir: Seq<u8>,
    i: int,
)
    requires
        forall|p: int| !matches_at(t, bl, p),
        forall|p: int| !matches_at(t, il, p),
    ensures
        spec_scan(t, bl, br, il, ir, i) == Seq::<Event>::empty(),
    decreases t.len() - i,
{
    if i < 0 || i >= t.len() {
    } else if t[i] == BACKSLASH {
        lemma_scan_no_delimiters(
            t,
            bl,
            br,
            il,
            ir,
            if i + 2 <= t.len() { i + 2 } else { t.len() as int },
        );
    } else if t[i] == BACKTICK {
        match fence_skip(t, i) {
            None => {},
            Some(e) => {
                lemma_fence_skip_some(t, i);
                lemma_scan_no_delimiters(t, bl, br, il, ir, e);
            },
        }
    } else {
        lemma_scan_no_delimiters(t, bl, br, il, ir, i + 1);
    }
}

/// Only the configured delimiter strings trigger math recognition: a scan
/// that emits any event contains an occurrence of a configured left
/// delimiter.
pub proof fn lemma_events_only_from_delimiters(
    t: Seq<u8>,
    bl: Seq<u8>,
    br: Seq<u8>,
    il: Seq<u8>,
    ir: Seq<u8>,
    i: int,
)
    requires
        spec_scan(t, bl, br, il, ir, i).len() > 0,
    ensures
        exists|p: int| matches_at(t, bl, p) || matches_at(t, il, p),
{
    if (forall|p: int| !matches_at(t, bl, p)) && (forall|p: int| !matches_at(t, il, p)) {
        lemma_scan_no_delimiters(t, bl, br, il, ir, i);
    }
}

/// A math span whose closing delimiter is missing does not fail the scan:
/// exactly the open events are emitted — the end of the preceding text and
/// the begin of the math content — and nothing closes the span.
pub proof fn lemma_unterminated_math_scan(
    t: Seq<u8>,
    bl: Seq<u8>,
    br: Seq<u8>,
    il: Seq<u8>,
    ir: Seq<u8>,
    i: int,
    inline: bool,
)
    requires
        0 <= i < t.len(),
        !inline ==> bl.len() > 0 && matches_at(t, bl, i) && find_close(t, br, i + bl.len())
            is None,
        inline ==> il.len() > 0 && matches_at(t, il, i) && !(bl.len() > 0 && matches_at(t, bl, i))
            && find_close(t, ir, i + il.len()) is None,
    ensures
        spec_scan(t, bl, br, il, ir, i) == delimit_head(
            i,
            i + (if inline { il.len() } else { bl.len() }),
        ),
{
    if inline {
        assert(spec_scan(t, bl, br, il, ir, i) =~= delimit_head(i, i + il.len()));
    } else {
        assert(spec_scan(t, bl, br, il, ir, i) =~= delimit_head(i, i + bl.len()));
    }
}

impl Delimiter {
    /// Both sides of a delimiter must be non-empty byte strings.
    pub open spec fn wf(&self) -> bool {
        self.left@.len() > 0 && self.right@.len() > 0
    }

    /// Same left and right `delimiter`.
    pub fn same(delimiter: Vec<u8>) -> (r: Self)
        ensures
            r.left@ == delimiter@,
            r.right@ == delimiter@,
    {
        let left = vstd::slice::slice_to_vec(delimiter.as_slice());
        Self { left, right: delimiter }
    }

    /// The first byte of the left delimiter.
    pub fn first(&self) -> (r: u8)
        requires
            self.left@.len() > 0,
        ensures
            r == self.left@[0],
    {
        self.left[0]
    }

    /// Whether `to_match` begins with the left delimiter.
    pub fn match_left(&self, to_match: &[u8]) -> (r: bool)
        ensures
            r == matches_at(to_match@, self.left@, 0),
    {
        match_at(to_match, self.left.as_slice(), 0)
    }
}

/// Scanner for text, identifying display and inline math [`Event`]s.
///
/// One scan owns one cursor; a fresh scan starts at offset zero. The event
/// buffer is filled by [`Scan::run`] and holds exactly the events of
/// [`spec_scan`] over the scanned bytes.
#[derive(Debug)]
pub struct Scan {
    /// The text being scanned.
    pub bytes: Vec<u8>,
    /// The scan cursor: a byte offset, monotonically non-decreasing.
    pub index: usize,
    /// Buffer for display and inline math `Event`s.
    pub events: Vec<Event>,
    /// Delimiter for display math, tried first.
    pub block_delimiter: Delimiter,
    /// Delimiter for inline math.
    pub inline_delimiter: Delimiter,
}

impl Scan {
    /// The events that a whole scan of this scanner's text emits.
    pub open spec fn spec_events(&self) -> Seq<Event> {
        spec_scan(
            self.bytes@,
            self.block_delimiter.left@,
            self.block_delimiter.right@,
            self.inline_delimiter.left@,
            self.inline_delimiter.right@,
            0,
        )
    }

    /// Set up a `Scan` for `string` with the given delimiters.
    pub fn new(string: &[u8], block_delimiter: &Delimiter, inline_delimiter: &Delimiter) -> (r:
        Self)
        ensures
            r.bytes@ == string@,
            r.index == 0,
            r.events@ == Seq::<Event>::empty(),
            r.block_delimiter.left@ == block_delimiter.left@,
            r.block_delimiter.right@ == block_delimiter.right@,
            r.inline_delimiter.left@ == inline_delimiter.left@,
            r.inline_delimiter.right@ == inline_delimiter.right@,
    {
        Self {
            bytes: vstd::slice::slice_to_vec(string),
            index: 0,
            events: Vec::new(),
            block_delimiter: Delimiter {
                left: vstd::slice::slice_to_vec(block_delimiter.left.as_slice()),
                right: vstd::slice::slice_to_vec(block_delimiter.right.as_slice()),
            },
            inline_delimiter: Delimiter {
                left: vstd::slice::slice_to_vec(inline_delimiter.left.as_slice()),
                right: vstd::slice::slice_to_vec(inline_delimiter.right.as_slice()),
            },
        }
    }

    /// Skip a full math span whose left delimiter was recognised at the
    /// cursor. Events mark the end of the preceding text span, the start of
    /// the math content, and, when the span closes, its end and the start
    /// of the following span. Returns `Err(())` when the closing delimiter
    /// is missing: the scan then ends.
    fn process_delimit(&mut self, inline: bool) -> (r: Result<(), ()>)
        requires
            old(self).block_delimiter.wf(),
            old(self).inline_delimiter.wf(),
            old(self).index < old(self).bytes@.len(),
            inline ==> matches_at(
                old(self).bytes@,
                old(self).inline_delimiter.left@,
                old(self).index as int,
            ),
            !inline ==> matches_at(
                old(self).bytes@,
                old(self).block_delimiter.left@,
                old(self).index as int,
            ),
        ensures
            final(self).bytes@ == old(self).bytes@,
            final(self).block_delimiter.left@ == old(self).block_delimiter.left@,
            final(self).block_delimiter.right@ == old(self).block_delimiter.right@,
            final(self).inline_delimiter.left@ == old(self).inline_delimiter.left@,
            final(self).inline_delimiter.right@ == old(self).inline_delimiter.right@,
            final(self).events@ == old(self).events@ + delimit_events(
                old(self).bytes@,
                if inline { old(self).inline_delimiter.left@ } else { old(self).block_delimiter.left@ },
                if inline { old(self).inline_delimiter.right@ } else { old(self).block_delimiter.right@ },
                inline,
                old(self).index as int,
            ),
            r is Ok <==> delimit_next(
                old(self).bytes@,
                if inline { old(self).inline_delimiter.left@ } else { old(self).block_delimiter.left@ },
                if inline { old(self).inline_delimiter.right@ } else { old(self).block_delimiter.right@ },
                old(self).index as int,
            ) is Some,
            r is Ok ==> final(self).index as int == delimit_next(
                old(self).bytes@,
                if inline { old(self).inline_delimiter.left@ } else { old(self).block_delimiter.left@ },
                if inline { old(self).inline_delimiter.right@ } else { old(self).block_delimiter.right@ },
                old(self).index as int,
            )->0,
            r is Ok ==> old(self).index < final(self).index <= old(self).bytes@.len(),
    {
        let ghost t = self.bytes@;
        let ghost l = if inline { self.inline_delimiter.left@ } else { self.block_delimiter.left@ };
        let ghost rr = if inline { self.inline_delimiter.right@ } else {
            self.block_delimiter.right@
        };
        let ghost evs0 = self.events@;
        let t_len = self.bytes.len();
        let i = self.index;
        let left_len = if inline {
            self.inline_delimiter.left.len()
        } else {
            self.block_delimiter.left.len()
        };
        let cs = i + left_len;
        if i > 0 {
            self.events.push(Event::TextEnd(i));
        }
        self.events.push(Event::Begin(cs));
        proof {
            assert(self.events@ =~= evs0 + delimit_head(i as int, cs as int));
        }
        let close = if inline {
            find_close_at(self.bytes.as_slice(), self.inline_delimiter.right.as_slice(), cs)
        } else {
            find_close_at(self.bytes.as_slice(), self.block_delimiter.right.as_slice(), cs)
        };
        match close {
            None => {
                proof {
                    assert(self.events@ =~= evs0 + delimit_events(t, l, rr, inline, i as int));
                }
                Err(())
            },
            Some(c) => {
                proof {
                    lemma_find_close_some(t, rr, cs as int);
                }
                if inline {
                    self.events.push(Event::InlineEnd(c));
                } else {
                    self.events.push(Event::BlockEnd(c));
                }
                let right_len = if inline {
                    self.inline_delimiter.right.len()
                } else {
                    self.block_delimiter.right.len()
                };
                let nxt = c + right_len;
                self.events.push(Event::Begin(nxt));
                self.index = nxt;
                proof {
                    assert(self.events@ =~= evs0 + delimit_events(t, l, rr, inline, i as int));
                }
                Ok(())
            },
        }
    }

    /// Skip a backtick-delimited code span whose opening backtick stands at
    /// the cursor. The closing run must have exactly the width of the
    /// opening run. Returns `Err(())` when no closing run exists: the scan
    /// then ends and the span runs to the end of the text.
    fn process_backtick(&mut self) -> (r: Result<(), ()>)
        requires
            old(self).index < old(self).bytes@.len(),
            old(self).bytes@[old(self).index as int] == BACKTICK,
        ensures
            final(self).bytes@ == old(self).bytes@,
            final(self).events@ == old(self).events@,
            final(self).block_delimiter.left@ == old(self).block_delimiter.left@,
            final(self).block_delimiter.right@ == old(self).block_delimiter.right@,
            final(self).inline_delimiter.left@ == old(self).inline_delimiter.left@,
            final(self).inline_delimiter.right@ == old(self).inline_delimiter.right@,
            r is Ok <==> fence_skip(old(self).bytes@, old(self).index as int) is Some,
            r is Ok ==> final(self).index as int == fence_skip(
                old(self).bytes@,
                old(self).index as int,
            )->0,
            r is Ok ==> old(self).index < final(self).index <= old(self).bytes@.len(),
    {
        let ghost t = self.bytes@;
        let t_len = self.bytes.len();
        let i = self.index;
        let re = backtick_end(self.bytes.as_slice(), i + 1);
        if re >= t_len {
            return Err(());
        }
        let n = re - i;
        match find_fence_close_at(self.bytes.as_slice(), n, re) {
            None => Err(()),
            Some(e) => {
                proof {
                    lemma_fence_skip_some(t, i as int);
                }
                self.index = e;
                Ok(())
            },
        }
    }

    /// Scan, identify and store all `Event`s in `self.events`.
    pub fn run(&mut self)
        requires
            old(self).index == 0,
            old(self).events@.len() == 0,
            old(self).block_delimiter.wf(),
            old(self).inline_delimiter.wf(),
        ensures
            final(self).events@ == old(self).spec_events(),
            final(self).bytes@ == old(self).bytes@,
            final(self).block_delimiter.left@ == old(self).block_delimiter.left@,
            final(self).block_delimiter.right@ == old(self).block_delimiter.right@,
            final(self).inline_delimiter.left@ == old(self).inline_delimiter.left@,
            final(self).inline_delimiter.right@ == old(self).inline_delimiter.right@,
    {
        let ghost t = self.bytes@;
        let ghost bl = self.block_delimiter.left@;
        let ghost br = self.block_delimiter.right@;
        let ghost il = self.inline_delimiter.left@;
        let ghost ir = self.inline_delimiter.right@;
        let t_len = self.bytes.len();
        loop
            invariant
                t == old(self).bytes@,
                bl == old(self).block_delimiter.left@,
                br == old(self).block_delimiter.right@,
                il == old(self).inline_delimiter.left@,
                ir == old(self).inline_delimiter.right@,
                self.bytes@ == t,
                self.block_delimiter.left@ == bl,
                self.block_delimiter.right@ == br,
                self.inline_delimiter.left@ == il,
                self.inline_delimiter.right@ == ir,
                bl.len() > 0,
                br.len() > 0,
                il.len() > 0,
                ir.len() > 0,
                t_len == t.len(),
                0 <= self.index <= t_len,
                spec_scan(t, bl, br, il, ir, 0) == self.events@ + spec_scan(
                    t,
                    bl,
                    br,
                    il,
                    ir,
                    self.index as int,
                ),
            decreases t.len() - self.index,
        {
            let ghost evs0 = self.events@;
            if self.index >= t_len {
                proof {
                    assert(self.events@ =~= evs0 + Seq::<Event>::empty());
                }
                return;
            }
            let ghost i = self.index as int;
            if match_at(self.bytes.as_slice(), self.block_delimiter.left.as_slice(), self.index) {
                proof {
                    assert(spec_scan(t, bl, br, il, ir, i) == delimit_events(t, bl, br, false, i)
                        + (match delimit_next(t, bl, br, i) {
                        None => Seq::<Event>::empty(),
                        Some(nx) => spec_scan(t, bl, br, il, ir, nx),
                    }));
                }
                match self.process_delimit(false) {
                    Ok(()) => {
                        proof {
                            assert(spec_scan(t, bl, br, il, ir, 0) =~= self.events@ + spec_scan(
                                t,
                                bl,
                                br,
                                il,
                                ir,
                                self.index as int,
                            ));
                        }
                    },
                    Err(()) => {
                        proof {
                            assert(spec_scan(t, bl, br, il, ir, i) =~= delimit_events(
                                t,
                                bl,
                                br,
                                false,
                                i,
                            ));
                            assert(self.events@ =~= spec_scan(t, bl, br, il, ir, 0));
                        }
                        return;
                    },
                }
            } else if match_at(
                self.bytes.as_slice(),
                self.inline_delimiter.left.as_slice(),
                self.index,
            ) {
                proof {
                    assert(spec_scan(t, bl, br, il, ir, i) == delimit_events(t, il, ir, true, i)
                        + (match delimit_next(t, il, ir, i) {
                        None => Seq::<Event>::empty(),
                        Some(nx) => spec_scan(t, bl, br, il, ir, nx),
                    }));
                }
                match self.process_delimit(true) {
                    Ok(()) => {
                        proof {
                            assert(spec_scan(t, bl, br, il, ir, 0) =~= self.events@ + spec_scan(
                                t,
                                bl,
                                br,
                                il,
                                ir,
                                self.index as int,
                            ));
                        }
                    },
                    Err(()) => {
                        proof {
                            assert(spec_scan(t, bl, br, il, ir, i) =~= delimit_events(
                                t,
                                il,
                                ir,
                                true,
                                i,
                            ));
                            assert(self.events@ =~= spec_scan(t, bl, br, il, ir, 0));
                        }
                        return;
                    },
                }
            } else {
                let b = self.bytes[self.index];
                if b == BACKSLASH {
                    if t_len - self.index >= 2 {
                        self.index = self.index + 2;
                    } else {
                        self.index = t_len;
                    }
                    proof {
                        assert(self.events@ =~= evs0 + Seq::<Event>::empty());
                    }
                } else if b == BACKTICK {
                    match self.process_backtick() {
                        Ok(()) => {
                            proof {
                                assert(self.events@ =~= evs0 + Seq::<Event>::empty());
                            }
                        },
                        Err(()) => {
                            proof {
                                assert(spec_scan(t, bl, br, il, ir, i) =~= Seq::<Event>::empty());
                                assert(self.events@ =~= spec_scan(t, bl, br, il, ir, 0));
                            }
                            return;
                        },
                    }
                } else {
                    self.index = self.index + 1;
                }
            }
        }
    }
}

/// Whether `pat` occurs in `t` at position `i`.
fn match_at(t: &[u8], pat: &[u8], i: usize) -> (r: bool)
    ensures
        r == matches_at(t@, pat@, i as int),
{
    if i > t.len() || pat.len() > t.len() - i {
        return false;
    }
    let mut k: usize = 0;
    while k < pat.len()
        invariant
            0 <= k <= pat@.len(),
            i + pat@.len() <= t@.len(),
            t@.len() <= usize::MAX,
            forall|j: int| 0 <= j < k ==> t@[i + j] == pat@[j],
        decreases pat@.len() - k,
    {
        if t[i + k] != pat[k] {
            assert(!matches_at(t@, pat@, i as int));
            return false;
        }
        k += 1;
    }
    true
}

/// The first occurrence of `pat` in `t` at or after `from`.
fn find_sub(t: &[u8], pat: &[u8], from: usize) -> (r: Option<usize>)
    requires
        from <= t@.len(),
    ensures
        r is Some ==> find_at(t@, pat@, from as int) == Some(r->0 as int),
        r is None ==> find_at(t@, pat@, from as int) is None,
{
    let mut p = from;
    loop
        invariant
            from <= p <= t@.len(),
            find_at(t@, pat@, from as int) == find_at(t@, pat@, p as int),
        decreases t@.len() - p,
    {
        if pat.len() > t.len() - p {
            return None;
        }
        if match_at(t, pat, p) {
            return Some(p);
        }
        assert(find_at(t@, pat@, p as int) == find_at(t@, pat@, p + 1));
        p = p + 1;
    }
}

/// Whether the occurrence at position `p` is preceded by an odd run of
/// backslashes.
fn escaped_at(t: &[u8], p: usize) -> (r: bool)
    requires
        p <= t@.len(),
    ensures
        r == is_escaped(t@, p as int),
{
    let mut c = p;
    while c > 0 && t[c - 1] == BACKSLASH
        invariant
            0 <= c <= p <= t@.len(),
            backslash_run(t@, p as int) == backslash_run(t@, c as int) + (p - c),
        decreases c,
    {
        c = c - 1;
    }
    assert(backslash_run(t@, c as int) == 0);
    (p - c) % 2 == 1
}

/// The end of the backtick run that starts at `from`.
fn backtick_end(t: &[u8], from: usize) -> (r: usize)
    requires
        from <= t@.len(),
    ensures
        r as int == backtick_run_end(t@, from as int),
        from <= r <= t@.len(),
{
    let mut c = from;
    while c < t.len() && t[c] == BACKTICK
        invariant
            from <= c <= t@.len(),
            backtick_run_end(t@, from as int) == backtick_run_end(t@, c as int),
        decreases t@.len() - c,
    {
        c = c + 1;
    }
    c
}

/// A vector of `n` backticks.
fn make_ticks(n: usize) -> (r: Vec<u8>)
    ensures
        r@ == ticks(n as int),
{
    let mut v: Vec<u8> = Vec::new();
    let mut k: usize = 0;
    while k < n
        invariant
            v@.len() == k <= n,
            forall|j: int| 0 <= j < k ==> v@[j] == BACKTICK,
        decreases n - k,
    {
        v.push(BACKTICK);
        k = k + 1;
    }
    assert(v@ =~= ticks(n as int));
    v
}

/// The first unescaped occurrence of `right` at or after `from`, skipping
/// escaped occurrences whole.
fn find_close_at(t: &[u8], right: &[u8], from: usize) -> (r: Option<usize>)
    requires
        right@.len() > 0,
        from <= t@.len(),
    ensures
        r is Some ==> find_close(t@, right@, from as int) == Some(r->0 as int),
        r is None ==> find_close(t@, right@, from as int) is None,
{
    let t_len = t.len();
    let mut cur = from;
    loop
        invariant
            t_len == t@.len(),
            right@.len() > 0,
            from <= cur <= t@.len(),
            find_close(t@, right@, from as int) == find_close(t@, right@, cur as int),
        decreases t@.len() - cur,
    {
        match find_sub(t, right, cur) {
            None => {
                return None;
            },
            Some(p) => {
                proof {
                    lemma_find_at_some(t@, right@, cur as int);
                }
                if escaped_at(t, p) {
                    cur = p + right.len();
                } else {
                    return Some(p);
                }
            },
        }
    }
}

/// The position just after the closing run of a code span of width `n`.
fn find_fence_close_at(t: &[u8], n: usize, from: usize) -> (r: Option<usize>)
    requires
        1 <= n,
        from <= t@.len(),
    ensures
        r is Some ==> find_fence_close(t@, n as int, from as int) == Some(r->0 as int),
        r is None ==> find_fence_close(t@, n as int, from as int) is None,
{
    let pat = make_ticks(n);
    let t_len = t.len();
    let mut cur = from;
    loop
        invariant
            t_len == t@.len(),
            1 <= n,
            pat@ == ticks(n as int),
            from <= cur <= t@.len(),
            find_fence_close(t@, n as int, from as int) == find_fence_close(t@, n as int, cur as int),
        decreases t@.len() - cur,
    {
        match find_sub(t, pat.as_slice(), cur) {
            None => {
                return None;
            },
            Some(p) => {
                proof {
                    lemma_find_at_some(t@, ticks(n as int), cur as int);
                }
                let e = p + n;
                if e < t.len() && t[e] == BACKTICK {
                    cur = backtick_end(t, e + 1);
                } else {
                    return Some(e);
                }
            },
        }
    }
}

} // verus!
