//! Preprocessing and escaping of math spans in a chapter.
//!
//! A chapter's text is scanned once; the resulting events are paired into
//! render tasks (plain text, inline math, display math), and each task is
//! mapped to an output fragment independently of all other tasks. The
//! fragments, concatenated in original order behind an optional stylesheet
//! header, form the transformed chapter.
use crate::escape::escape_math_with_delimiter;
use crate::escape::escape_seq;
use crate::escape::RenderView;
pub use crate::escape::Render;
use crate::scan::events_wf;
use crate::scan::lemma_scan_events_wf;
use crate::scan::spec_scan;
use crate::scan::Delimiter;
use crate::scan::Event;
use crate::scan::Scan;
use vstd::prelude::*;

verus! {

/// Header that points to the CDN for the KaTeX stylesheet.
pub const KATEX_HEADER: &'static str = r#"<link rel="stylesheet" href="https://cdn.jsdelivr.net/npm/katex@0.16.4/dist/katex.min.css">

"#;

/// Extra options for the KaTeX preprocessor, shared read-only by every
/// render task of a run.
#[derive(Clone, Debug)]
pub struct ExtraOpts {
    /// Whether to embed the original math source in rendered output.
    pub include_src: bool,
    /// Delimiter for display math.
    pub block_delimiter: Delimiter,
    /// Delimiter for inline math.
    pub inline_delimiter: Delimiter,
}

impl ExtraOpts {
    /// Both delimiters must have non-empty sides.
    pub open spec fn wf(&self) -> bool {
        self.block_delimiter.wf() && self.inline_delimiter.wf()
    }
}

/// KaTeX preprocessor for mdBook.
pub struct KatexProcessor;

impl KatexProcessor {
    /// The preprocessor's name.
    pub fn name(&self) -> (r: &'static str)
        ensures
            r@ == "katex"@,
    {
        "katex"
    }

    /// Whether a renderer is supported. Every renderer receives plain
    /// Markdown with math spans escaped or replaced, so all are supported.
    pub fn supports_renderer(&self, renderer: &str) -> (r: bool)
        ensures
            r,
    {
        let _ = renderer;
        true
    }
}

/// The render tasks that an event stream projects onto the text `t`,
/// walked from `checkpoint`: each end event closes the span that the last
/// `Begin` opened, and a trailing text task covers whatever follows the
/// last event.
pub open spec fn spec_tasks(t: Seq<u8>, evs: Seq<Event>, checkpoint: int) -> Seq<RenderView>
    decreases evs.len(),
{
    if evs.len() == 0 {
        if t.len() > checkpoint {
            seq![RenderView::Text(t.subrange(checkpoint, t.len() as int))]
        } else {
            Seq::empty()
        }
    } else {
        match evs[0] {
            Event::Begin(b) => spec_tasks(t, evs.drop_first(), b as int),
            Event::TextEnd(e) => seq![RenderView::Text(t.subrange(checkpoint, e as int))]
                + spec_tasks(t, evs.drop_first(), checkpoint),
            Event::InlineEnd(e) => seq![RenderView::InlineTask(t.subrange(checkpoint, e as int))]
                + spec_tasks(t, evs.drop_first(), e as int),
            Event::BlockEnd(e) => seq![RenderView::DisplayTask(t.subrange(checkpoint, e as int))]
                + spec_tasks(t, evs.drop_first(), e as int),
        }
    }
}

/// The views of a vector of render tasks.
pub open spec fn views_of(v: Seq<Render>) -> Seq<RenderView> {
    v.map_values(|x: Render| x@)
}

/// The render tasks of a chapter: one leading text task for the stylesheet
/// header, then the tasks that the scan of `raw_content` yields.
pub open spec fn spec_render_tasks(
    t: Seq<u8>,
    header: Seq<u8>,
    bl: Seq<u8>,
    br: Seq<u8>,
    il: Seq<u8>,
    ir: Seq<u8>,
) -> Seq<RenderView> {
    seq![RenderView::Text(header)] + spec_tasks(t, spec_scan(t, bl, br, il, ir, 0), 0)
}

/// A copy of the byte range `[i, j)` of `t`.
fn subvec(t: &[u8], i: usize, j: usize) -> (r: Vec<u8>)
    requires
        i <= j <= t@.len(),
    ensures
        r@ == t@.subrange(i as int, j as int),
{
    vstd::slice::slice_to_vec(vstd::slice::slice_subrange(t, i, j))
}

/// Find all the `Render` tasks in `raw_content`.
///
/// The task list starts with a text task for `stylesheet_header`, then
/// walks the scan's events: each math end yields a math task for the span's
/// content, each text end a text task, and any text after the last event a
/// trailing text task.
pub fn get_render_tasks(raw_content: &[u8], stylesheet_header: &[u8], extra_opts: &ExtraOpts) -> (r:
    Vec<Render>)
    requires
        extra_opts.wf(),
    ensures
        views_of(r@) == spec_render_tasks(
            raw_content@,
            stylesheet_header@,
            extra_opts.block_delimiter.left@,
            extra_opts.block_delimiter.right@,
            extra_opts.inline_delimiter.left@,
            extra_opts.inline_delimiter.right@,
        ),
{
    let ghost t = raw_content@;
    let ghost bl = extra_opts.block_delimiter.left@;
    let ghost br = extra_opts.block_delimiter.right@;
    let ghost il = extra_opts.inline_delimiter.left@;
    let ghost ir = extra_opts.inline_delimiter.right@;
    let t_len = raw_content.len();

    let mut scan = Scan::new(raw_content, &extra_opts.block_delimiter, &extra_opts.inline_delimiter);
    scan.run();
    let events = scan.events;
    let ghost full = events@;
    proof {
        lemma_scan_events_wf(t, bl, br, il, ir, 0, 0);
    }

    let mut rendering: Vec<Render> = Vec::new();
    rendering.push(Render::Text(vstd::slice::slice_to_vec(stylesheet_header)));
    proof {
        assert(views_of(rendering@) =~= seq![RenderView::Text(stylesheet_header@)]);
        assert(full.skip(0) =~= full);
    }
    let mut checkpoint: usize = 0;
    let n_events = events.len();
    let mut k: usize = 0;
    while k < n_events
        invariant
            t_len == t.len(),
            t == raw_content@,
            n_events == full.len(),
            full == spec_scan(t, bl, br, il, ir, 0),
            0 <= k <= n_events,
            events@ == full,
            checkpoint <= t_len,
            events_wf(t.len() as int, full.skip(k as int), checkpoint as int),
            seq![RenderView::Text(stylesheet_header@)] + spec_tasks(t, full, 0) == views_of(
                rendering@,
            ) + spec_tasks(t, full.skip(k as int), checkpoint as int),
        decreases n_events - k,
    {
        let ghost rem = full.skip(k as int);
        let ghost views0 = views_of(rendering@);
        proof {
            assert(rem[0] == full[k as int]);
            assert(rem.drop_first() =~= full.skip(k + 1));
        }
        let ev = events[k];
        match ev {
            Event::Begin(b) => {
                checkpoint = b;
            },
            Event::TextEnd(e) => {
                rendering.push(Render::Text(subvec(raw_content, checkpoint, e)));
                proof {
                    assert(views_of(rendering@) =~= views0.push(
                        RenderView::Text(t.subrange(checkpoint as int, e as int)),
                    ));
                    assert(views0 + spec_tasks(t, rem, checkpoint as int) =~= views_of(rendering@)
                        + spec_tasks(t, full.skip(k + 1), checkpoint as int));
                }
            },
            Event::InlineEnd(e) => {
                rendering.push(Render::InlineTask(subvec(raw_content, checkpoint, e)));
                proof {
                    assert(views_of(rendering@) =~= views0.push(
                        RenderView::InlineTask(t.subrange(checkpoint as int, e as int)),
                    ));
                    assert(views0 + spec_tasks(t, rem, checkpoint as int) =~= views_of(rendering@)
                        + spec_tasks(t, full.skip(k + 1), e as int));
                }
                checkpoint = e;
            },
            Event::BlockEnd(e) => {
                rendering.push(Render::DisplayTask(subvec(raw_content, checkpoint, e)));
                proof {
                    assert(views_of(rendering@) =~= views0.push(
                        RenderView::DisplayTask(t.subrange(checkpoint as int, e as int)),
                    ));
                    assert(views0 + spec_tasks(t, rem, checkpoint as int) =~= views_of(rendering@)
                        + spec_tasks(t, full.skip(k + 1), e as int));
                }
                checkpoint = e;
            },
        }
        k = k + 1;
    }
    proof {
        assert(full.skip(n_events as int) =~= Seq::<Event>::empty());
    }
    if t_len > checkpoint {
        let ghost views0 = views_of(rendering@);
        rendering.push(Render::Text(subvec(raw_content, checkpoint, t_len)));
        proof {
            assert(views_of(rendering@) =~= views0.push(
                RenderView::Text(t.subrange(checkpoint as int, t.len() as int)),
            ));
            assert(views0 + spec_tasks(t, Seq::<Event>::empty(), checkpoint as int) =~= views_of(
                rendering@,
            ));
        }
    }
    proof {
        assert(views_of(rendering@) =~= spec_render_tasks(t, stylesheet_header@, bl, br, il, ir));
    }
    rendering
}

/// The escaped output fragment of one render task: text passes through,
/// math content is escaped and re-wrapped in its escaped delimiters.
pub open spec fn escaped_fragment(
    task: RenderView,
    bl: Seq<u8>,
    br: Seq<u8>,
    il: Seq<u8>,
    ir: Seq<u8>,
) -> Seq<u8> {
    match task {
        RenderView::Text(s) => s,
        RenderView::InlineTask(m) => escape_seq(il) + escape_seq(m) + escape_seq(ir),
        RenderView::DisplayTask(m) => escape_seq(bl) + escape_seq(m) + escape_seq(br),
    }
}

/// The concatenation, in order, of the escaped fragments of a task list.
pub open spec fn escaped_output(
    tasks: Seq<RenderView>,
    bl: Seq<u8>,
    br: Seq<u8>,
    il: Seq<u8>,
    ir: Seq<u8>,
) -> Seq<u8>
    decreases tasks.len(),
{
    if tasks.len() == 0 {
        Seq::empty()
    } else {
        escaped_fragment(tasks[0], bl, br, il, ir) + escaped_output(
            tasks.drop_first(),
            bl,
            br,
            il,
            ir,
        )
    }
}

/// The escape-mode output for a whole chapter: the header, then every task
/// of the scan mapped to its escaped fragment.
pub open spec fn spec_chapter_escape(
    t: Seq<u8>,
    header: Seq<u8>,
    bl: Seq<u8>,
    br: Seq<u8>,
    il: Seq<u8>,
    ir: Seq<u8>,
) -> Seq<u8> {
    escaped_output(spec_render_tasks(t, header, bl, br, il, ir), bl, br, il, ir)
}

/// Escape all math spans of one chapter.
///
/// Every byte outside math spans passes through unchanged; each math span
/// is re-wrapped in its original delimiters with `_`, `*` and `\` escaped,
/// so a downstream Markdown renderer leaves the formula intact.
pub fn process_chapter_escape(raw_content: &[u8], extra_opts: &ExtraOpts, stylesheet_header: &[u8])
    -> (r: Vec<u8>)
    requires
        extra_opts.wf(),
    ensures
        r@ == spec_chapter_escape(
            raw_content@,
            stylesheet_header@,
            extra_opts.block_delimiter.left@,
            extra_opts.block_delimiter.right@,
            extra_opts.inline_delimiter.left@,
            extra_opts.inline_delimiter.right@,
        ),
        raw_content@.len() <= usize::MAX && vstd::utf8::valid_utf8(raw_content@)
            && vstd::utf8::valid_utf8(stylesheet_header@) && vstd::utf8::valid_utf8(
            extra_opts.block_delimiter.left@,
        ) && vstd::utf8::valid_utf8(extra_opts.block_delimiter.right@) && vstd::utf8::valid_utf8(
            extra_opts.inline_delimiter.left@,
        ) && vstd::utf8::valid_utf8(extra_opts.inline_delimiter.right@) ==> vstd::utf8::valid_utf8(
            r@,
        ),
{
    let ghost bl = extra_opts.block_delimiter.left@;
    let ghost br = extra_opts.block_delimiter.right@;
    let ghost il = extra_opts.inline_delimiter.left@;
    let ghost ir = extra_opts.inline_delimiter.right@;
    let tasks = get_render_tasks(raw_content, stylesheet_header, extra_opts);
    let ghost tviews = views_of(tasks@);
    let mut out: Vec<u8> = Vec::new();
    let n_tasks = tasks.len();
    let mut k: usize = 0;
    proof {
        assert(tviews.skip(0) =~= tviews);
    }
    while k < n_tasks
        invariant
            extra_opts.block_delimiter.left@ == bl,
            extra_opts.block_delimiter.right@ == br,
            extra_opts.inline_delimiter.left@ == il,
            extra_opts.inline_delimiter.right@ == ir,
            n_tasks == tasks@.len(),
            tviews == views_of(tasks@),
            0 <= k <= n_tasks,
            escaped_output(tviews, bl, br, il, ir) == out@ + escaped_output(
                tviews.skip(k as int),
                bl,
                br,
                il,
                ir,
            ),
        decreases n_tasks - k,
    {
        let ghost rem = tviews.skip(k as int);
        proof {
            assert(rem[0] == tviews[k as int]);
            assert(tviews[k as int] == tasks@[k as int]@);
            assert(rem.drop_first() =~= tviews.skip(k + 1));
        }
        let task = &tasks[k];
        match task {
            Render::Text(s) => {
                out.extend_from_slice(s.as_slice());
            },
            Render::InlineTask(m) => {
                let frag = escape_math_with_delimiter(m.as_slice(), &extra_opts.inline_delimiter);
                out.extend_from_slice(frag.as_slice());
            },
            Render::DisplayTask(m) => {
                let frag = escape_math_with_delimiter(m.as_slice(), &extra_opts.block_delimiter);
                out.extend_from_slice(frag.as_slice());
            },
        }
        k = k + 1;
    }
    proof {
        assert(tviews.skip(n_tasks as int) =~= Seq::<RenderView>::empty());
        assert(out@ =~= spec_chapter_escape(raw_content@, stylesheet_header@, bl, br, il, ir));
        if raw_content@.len() <= usize::MAX && vstd::utf8::valid_utf8(raw_content@)
            && vstd::utf8::valid_utf8(stylesheet_header@) && vstd::utf8::valid_utf8(bl)
            && vstd::utf8::valid_utf8(br) && vstd::utf8::valid_utf8(il) && vstd::utf8::valid_utf8(
            ir,
        ) {
            crate::encoding::lemma_chapter_escape_valid_utf8(
                raw_content@,
                stylesheet_header@,
                bl,
                br,
                il,
                ir,
            );
        }
    }
    out
}

/// For all text with zero delimiter occurrences, the escape-mode output
/// equals the input, behind the header: scanning emits no events, the whole
/// text is one text task, and a text task passes through unchanged.
pub proof fn lemma_no_math_identity(
    t: Seq<u8>,
    header: Seq<u8>,
    bl: Seq<u8>,
    br: Seq<u8>,
    il: Seq<u8>,
    ir: Seq<u8>,
)
    requires
        forall|p: int| !crate::scan::matches_at(t, bl, p),
        forall|p: int| !crate::scan::matches_at(t, il, p),
    ensures
        spec_chapter_escape(t, header, bl, br, il, ir) == header + t,
{
    crate::scan::lemma_scan_no_delimiters(t, bl, br, il, ir, 0);
    let tasks = spec_render_tasks(t, header, bl, br, il, ir);
    assert(escaped_output(Seq::<RenderView>::empty(), bl, br, il, ir) == Seq::<u8>::empty());
    if t.len() > 0 {
        assert(t.subrange(0, t.len() as int) =~= t);
        assert(tasks =~= seq![RenderView::Text(header), RenderView::Text(t)]);
        assert(tasks.drop_first() =~= seq![RenderView::Text(t)]);
        assert(seq![RenderView::Text(t)].drop_first() =~= Seq::<RenderView>::empty());
        assert(escaped_output(seq![RenderView::Text(t)], bl, br, il, ir) =~= t);
        assert(spec_chapter_escape(t, header, bl, br, il, ir) =~= header + t);
    } else {
        assert(tasks =~= seq![RenderView::Text(header)]);
        assert(tasks.drop_first() =~= Seq::<RenderView>::empty());
        assert(spec_chapter_escape(t, header, bl, br, il, ir) =~= header + t);
    }
}

/// An unterminated math span — an opening delimiter with no unescaped
/// closing delimiter anywhere after it — does not crash the scan, and
/// nothing is rendered or escaped for it: the text before the delimiter
/// and the whole remainder after the opening string come out as plain
/// text, byte for byte.
pub proof fn lemma_unterminated_math_tail(
    t: Seq<u8>,
    bl: Seq<u8>,
    br: Seq<u8>,
    il: Seq<u8>,
    ir: Seq<u8>,
    i: int,
    cp: int,
    inline: bool,
)
    requires
        t.len() <= usize::MAX,
        0 <= cp <= i < t.len(),
        !inline ==> bl.len() > 0 && crate::scan::matches_at(t, bl, i) && crate::scan::find_close(
            t,
            br,
            i + bl.len(),
        ) is None,
        inline ==> il.len() > 0 && crate::scan::matches_at(t, il, i) && !(bl.len() > 0
            && crate::scan::matches_at(t, bl, i)) && crate::scan::find_close(
            t,
            ir,
            i + il.len(),
        ) is None,
    ensures
        ({
            let cs = i + (if inline { il.len() } else { bl.len() });
            let head = if i > 0 {
                seq![RenderView::Text(t.subrange(cp, i))]
            } else {
                Seq::<RenderView>::empty()
            };
            let tail = if t.len() > cs {
                seq![RenderView::Text(t.subrange(cs, t.len() as int))]
            } else {
                Seq::<RenderView>::empty()
            };
            &&& spec_tasks(t, spec_scan(t, bl, br, il, ir, i), cp) == head + tail
            &&& escaped_output(head + tail, bl, br, il, ir) == t.subrange(cp, i) + (
            if t.len() > cs {
                t.subrange(cs, t.len() as int)
            } else {
                Seq::<u8>::empty()
            })
        }),
{
    crate::scan::lemma_unterminated_math_scan(t, bl, br, il, ir, i, inline);
    let cs = i + (if inline { il.len() } else { bl.len() });
    let evs = crate::scan::delimit_head(i, cs);
    let head = if i > 0 {
        seq![RenderView::Text(t.subrange(cp, i))]
    } else {
        Seq::<RenderView>::empty()
    };
    let tail = if t.len() > cs {
        seq![RenderView::Text(t.subrange(cs, t.len() as int))]
    } else {
        Seq::<RenderView>::empty()
    };
    let begin_only = seq![Event::Begin(cs as usize)];
    assert(begin_only.drop_first() =~= Seq::<Event>::empty());
    assert(spec_tasks(t, Seq::<Event>::empty(), cs) =~= tail);
    assert(spec_tasks(t, begin_only, cp) =~= tail);
    if i > 0 {
        assert(evs =~= seq![Event::TextEnd(i as usize), Event::Begin(cs as usize)]);
        assert(evs.drop_first() =~= begin_only);
        assert(spec_tasks(t, evs, cp) =~= head + tail);
    } else {
        assert(evs =~= begin_only);
        assert(t.subrange(cp, i) =~= Seq::<u8>::empty());
        assert(spec_tasks(t, evs, cp) =~= head + tail);
    }
    assert(escaped_output(Seq::<RenderView>::empty(), bl, br, il, ir) == Seq::<u8>::empty());
    if t.len() > cs {
        assert(tail.drop_first() =~= Seq::<RenderView>::empty());
        assert(escaped_output(tail, bl, br, il, ir) =~= t.subrange(cs, t.len() as int));
    } else {
        assert(escaped_output(tail, bl, br, il, ir) =~= Seq::<u8>::empty());
    }
    if i > 0 {
        assert((head + tail).drop_first() =~= tail);
        assert((head + tail)[0] == RenderView::Text(t.subrange(cp, i)));
        assert(escaped_output(head + tail, bl, br, il, ir) =~= t.subrange(cp, i) + escaped_output(
            tail,
            bl,
            br,
            il,
            ir,
        ));
    } else {
        assert(head + tail =~= tail);
        assert(t.subrange(cp, i) =~= Seq::<u8>::empty());
        assert(escaped_output(head + tail, bl, br, il, ir) =~= t.subrange(cp, i) + escaped_output(
            tail,
            bl,
            br,
            il,
            ir,
        ));
    }
}

} // verus!
