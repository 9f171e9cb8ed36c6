//! Render math spans to HTML with the KaTeX typesetting engine.
//!
//! The engine is an external collaborator consumed as a function from math
//! source and options to HTML or an error. Everything around the call is
//! verified: newline normalisation of the returned HTML, the optional
//! wrapper that embeds the original source, and the fallback that keeps the
//! delimited literal source when rendering fails.
use crate::escape::Render;
use crate::escape::RenderView;
use crate::preprocess::get_render_tasks;
use crate::preprocess::spec_render_tasks;
use crate::preprocess::views_of;
use crate::preprocess::ExtraOpts;
use crate::scan::BACKSLASH;
use crate::scan::Delimiter;
use vstd::prelude::*;
use vstd::string::StringSliceAdditionalSpecFns;
use vstd::utf8::valid_utf8;

verus! {

/// The newline byte.
pub const NEWLINE: u8 = 0x0a;

/// The space byte.
pub const SPACE: u8 = 0x20;

/// The double-quote byte.
pub const QUOTE: u8 = 0x22;

#[verifier::external_type_specification]
#[verifier::external_body]
/// The KaTeX engine's rendering options, carried through to the engine
/// opaquely: the library never reads them.
pub struct ExOpts(katex::Opts);

/// Relies on `std::str::from_utf8`: it returns `Ok` exactly on valid UTF-8
/// and the returned string slice holds exactly the given bytes.
#[verifier::external_body]
fn bytes_as_str(b: &[u8]) -> (r: Option<&str>)
    ensures
        match r {
            Some(s) => valid_utf8(b@) && s.spec_bytes() == b@,
            None => !valid_utf8(b@),
        },
{
    core::str::from_utf8(b).ok()
}

/// Relies on `katex::render_with_opts`: it renders a LaTeX string to HTML
/// following `opts` and reports any engine or parse error as `Err`. The
/// returned bytes are a `String`'s bytes, hence valid UTF-8.
#[verifier::external_body]
fn katex_render(item: &str, opts: &katex::Opts) -> (r: Option<Vec<u8>>)
    ensures
        r matches Some(h) ==> valid_utf8(h@),
{
    match katex::render_with_opts(item, opts) {
        Ok(html) => Some(html.into_bytes()),
        Err(_) => None,
    }
}

/// Rendered HTML with every newline replaced by a space: raw newlines in
/// inline HTML can break the host Markdown renderer.
pub open spec fn newline_to_space(s: Seq<u8>) -> Seq<u8> {
    s.map_values(|b: u8| if b == NEWLINE { SPACE } else { b })
}

/// The form of one math-source byte inside an HTML attribute: a quote gets
/// a backslash, a newline becomes its numeric character reference.
pub open spec fn attr_esc_byte(b: u8) -> Seq<u8> {
    if b == QUOTE {
        seq![BACKSLASH, QUOTE]
    } else if b == NEWLINE {
        seq![0x26u8, 0x23u8, 0x31u8, 0x30u8, 0x3bu8]
    } else {
        seq![b]
    }
}

/// Math source escaped for embedding in an HTML attribute.
pub open spec fn attr_escape(s: Seq<u8>) -> Seq<u8>
    decreases s.len(),
{
    if s.len() == 0 {
        Seq::empty()
    } else {
        attr_esc_byte(s[0]) + attr_escape(s.drop_first())
    }
}

proof fn lemma_attr_escape_push(s: Seq<u8>, b: u8)
    ensures
        attr_escape(s.push(b)) == attr_escape(s) + attr_esc_byte(b),
    decreases s.len(),
{
    if s.len() == 0 {
        assert(s.push(b).drop_first() =~= Seq::<u8>::empty());
        assert(attr_escape(Seq::<u8>::empty()) == Seq::<u8>::empty());
        assert(attr_escape(s.push(b)) =~= attr_escape(s) + attr_esc_byte(b));
    } else {
        lemma_attr_escape_push(s.drop_first(), b);
        assert(s.push(b).drop_first() =~= s.drop_first().push(b));
        assert(attr_escape(s.push(b)) =~= attr_escape(s) + attr_esc_byte(b));
    }
}

/// The opening of the metadata container: `<data class="katex-src" value="`.
pub open spec fn data_open() -> Seq<u8> {
    seq![
        0x3cu8, 0x64u8, 0x61u8, 0x74u8, 0x61u8, 0x20u8, 0x63u8, 0x6cu8, 0x61u8, 0x73u8, 0x73u8,
        0x3du8, 0x22u8, 0x6bu8, 0x61u8, 0x74u8, 0x65u8, 0x78u8, 0x2du8, 0x73u8, 0x72u8, 0x63u8,
        0x22u8, 0x20u8, 0x76u8, 0x61u8, 0x6cu8, 0x75u8, 0x65u8, 0x3du8, 0x22u8,
    ]
}

/// The end of the container's opening tag: `">`.
pub open spec fn data_mid() -> Seq<u8> {
    seq![0x22u8, 0x3eu8]
}

/// The container's closing tag: `</data>`.
pub open spec fn data_close() -> Seq<u8> {
    seq![0x3cu8, 0x2fu8, 0x64u8, 0x61u8, 0x74u8, 0x61u8, 0x3eu8]
}

proof fn lemma_attr_escape_concat(a: Seq<u8>, b: Seq<u8>)
    ensures
        attr_escape(a + b) == attr_escape(a) + attr_escape(b),
    decreases a.len(),
{
    if a.len() == 0 {
        assert(a + b =~= b);
        assert(attr_escape(a) =~= Seq::<u8>::empty());
        assert(attr_escape(a + b) =~= attr_escape(a) + attr_escape(b));
    } else {
        assert((a + b).drop_first() =~= a.drop_first() + b);
        lemma_attr_escape_concat(a.drop_first(), b);
        assert(attr_escape(a + b) =~= attr_escape(a) + attr_escape(b));
    }
}

proof fn lemma_attr_escape_nonspecial(s: Seq<u8>)
    requires
        forall|k: int| 0 <= k < s.len() ==> s[k] != QUOTE && s[k] != NEWLINE,
    ensures
        attr_escape(s) == s,
    decreases s.len(),
{
    if s.len() > 0 {
        lemma_attr_escape_nonspecial(s.drop_first());
        assert(attr_escape(s) =~= s);
    }
}

/// Attribute escaping preserves UTF-8 validity: the inserted bytes are all
/// ASCII and the bytes of multi-byte code points pass through untouched.
proof fn lemma_attr_escape_valid(s: Seq<u8>)
    requires
        vstd::utf8::valid_utf8(s),
    ensures
        vstd::utf8::valid_utf8(attr_escape(s)),
    decreases s.len(),
{
    if s.len() > 0 {
        crate::encoding::lemma_first_scalar_shape(s);
        let ls = vstd::utf8::length_of_first_scalar(s);
        let head = vstd::utf8::take_first_scalar(s);
        let rest = vstd::utf8::pop_first_scalar(s);
        lemma_attr_escape_concat(head, rest);
        lemma_attr_escape_valid(rest);
        assert(vstd::utf8::valid_utf8(attr_escape(head))) by {
            if ls == 1 {
                assert(head =~= seq![s[0]]);
                assert(head.drop_first() =~= Seq::<u8>::empty());
                assert(attr_escape(Seq::<u8>::empty()) =~= Seq::<u8>::empty());
                assert(attr_escape(head) =~= attr_esc_byte(s[0]));
                crate::encoding::lemma_ascii_valid(attr_esc_byte(s[0]));
            } else {
                lemma_attr_escape_nonspecial(head);
            }
        }
        vstd::utf8::valid_utf8_concat(attr_escape(head), attr_escape(rest));
        assert(vstd::utf8::valid_utf8(attr_escape(s)));
    }
}

/// Newline normalisation preserves UTF-8 validity: only the ASCII newline
/// byte is replaced, by the ASCII space byte.
proof fn lemma_newline_to_space_valid(s: Seq<u8>)
    requires
        valid_utf8(s),
    ensures
        valid_utf8(newline_to_space(s)),
    decreases s.len(),
{
    if s.len() > 0 {
        crate::encoding::lemma_first_scalar_shape(s);
        let ls = vstd::utf8::length_of_first_scalar(s);
        let head = vstd::utf8::take_first_scalar(s);
        let rest = vstd::utf8::pop_first_scalar(s);
        assert(newline_to_space(s) =~= newline_to_space(head) + newline_to_space(rest));
        lemma_newline_to_space_valid(rest);
        assert(valid_utf8(newline_to_space(head))) by {
            if ls == 1 {
                crate::encoding::lemma_ascii_valid(newline_to_space(head));
            } else {
                assert(newline_to_space(head) =~= head);
            }
        }
        vstd::utf8::valid_utf8_concat(newline_to_space(head), newline_to_space(rest));
    }
}

proof fn lemma_data_tags_valid()
    ensures
        valid_utf8(data_open()),
        valid_utf8(data_mid()),
        valid_utf8(data_close()),
{
    crate::encoding::lemma_ascii_valid(data_open());
    crate::encoding::lemma_ascii_valid(data_mid());
    crate::encoding::lemma_ascii_valid(data_close());
}

/// The fragment for successfully rendered math is valid UTF-8 whenever the
/// math source and the engine's HTML are.
proof fn lemma_render_success_valid(item: Seq<u8>, html: Seq<u8>, include_src: bool)
    requires
        valid_utf8(item),
        valid_utf8(html),
    ensures
        valid_utf8(spec_render_success(item, html, include_src)),
{
    lemma_newline_to_space_valid(html);
    if include_src {
        lemma_data_tags_valid();
        lemma_attr_escape_valid(item);
        let h = newline_to_space(html);
        vstd::utf8::valid_utf8_concat(data_open(), attr_escape(item));
        vstd::utf8::valid_utf8_concat(data_open() + attr_escape(item), data_mid());
        vstd::utf8::valid_utf8_concat(data_open() + attr_escape(item) + data_mid(), h);
        vstd::utf8::valid_utf8_concat(data_open() + attr_escape(item) + data_mid() + h, data_close());
    }
}

/// The output fragment for successfully rendered math: the HTML with
/// newlines normalised, wrapped in a `<data>` container that embeds the
/// escaped math source when `include_src` is set.
pub open spec fn spec_render_success(item: Seq<u8>, html: Seq<u8>, include_src: bool) -> Seq<u8> {
    let h = newline_to_space(html);
    if include_src {
        data_open() + attr_escape(item) + data_mid() + h + data_close()
    } else {
        h
    }
}

fn push_data_open(out: &mut Vec<u8>)
    ensures
        final(out)@ == old(out)@ + data_open(),
{
    let ghost o0 = out@;
    out.push(0x3c);
    out.push(0x64);
    out.push(0x61);
    out.push(0x74);
    out.push(0x61);
    out.push(0x20);
    out.push(0x63);
    out.push(0x6c);
    out.push(0x61);
    out.push(0x73);
    out.push(0x73);
    out.push(0x3d);
    out.push(0x22);
    out.push(0x6b);
    out.push(0x61);
    out.push(0x74);
    out.push(0x65);
    out.push(0x78);
    out.push(0x2d);
    out.push(0x73);
    out.push(0x72);
    out.push(0x63);
    out.push(0x22);
    out.push(0x20);
    out.push(0x76);
    out.push(0x61);
    out.push(0x6c);
    out.push(0x75);
    out.push(0x65);
    out.push(0x3d);
    out.push(0x22);
    proof {
        assert(out@ =~= o0 + data_open());
    }
}

/// Append `item` to `out`, escaped for an HTML attribute.
fn push_attr_escaped(item: &[u8], out: &mut Vec<u8>)
    ensures
        final(out)@ == old(out)@ + attr_escape(item@),
{
    let ghost o0 = out@;
    let item_len = item.len();
    let mut k: usize = 0;
    while k < item_len
        invariant
            item_len == item@.len(),
            0 <= k <= item_len,
            out@ == o0 + attr_escape(item@.take(k as int)),
        decreases item_len - k,
    {
        let b = item[k];
        if b == QUOTE {
            out.push(BACKSLASH);
            out.push(QUOTE);
        } else if b == NEWLINE {
            out.push(0x26);
            out.push(0x23);
            out.push(0x31);
            out.push(0x30);
            out.push(0x3b);
        } else {
            out.push(b);
        }
        proof {
            assert(item@.take(k + 1) =~= item@.take(k as int).push(item@[k as int]));
            lemma_attr_escape_push(item@.take(k as int), item@[k as int]);
            assert(out@ =~= o0 + attr_escape(item@.take(k + 1)));
        }
        k = k + 1;
    }
    proof {
        assert(item@.take(item_len as int) =~= item@);
    }
}

/// Append `html` to `out` with every newline replaced by a space.
fn push_newlines_as_spaces(html: &[u8], out: &mut Vec<u8>)
    ensures
        final(out)@ == old(out)@ + newline_to_space(html@),
{
    let ghost o0 = out@;
    let html_len = html.len();
    let mut k: usize = 0;
    while k < html_len
        invariant
            html_len == html@.len(),
            0 <= k <= html_len,
            out@ == o0 + newline_to_space(html@).take(k as int),
        decreases html_len - k,
    {
        let b = html[k];
        if b == NEWLINE {
            out.push(SPACE);
        } else {
            out.push(b);
        }
        proof {
            assert(newline_to_space(html@).take(k + 1) =~= newline_to_space(html@).take(
                k as int,
            ).push(if html@[k as int] == NEWLINE { SPACE } else { html@[k as int] }));
            assert(out@ =~= o0 + newline_to_space(html@).take(k + 1));
        }
        k = k + 1;
    }
    proof {
        assert(newline_to_space(html@).take(html_len as int) =~= newline_to_space(html@));
    }
}

/// The fragment for math whose rendering succeeded: this function takes the
/// engine's HTML as an argument and is verified for every value of it.
pub fn wrap_rendered(item: &[u8], html: &[u8], include_src: bool) -> (r: Vec<u8>)
    ensures
        r@ == spec_render_success(item@, html@, include_src),
{
    let mut out: Vec<u8> = Vec::new();
    if include_src {
        push_data_open(&mut out);
        push_attr_escaped(item, &mut out);
        out.push(QUOTE);
        out.push(0x3e);
        push_newlines_as_spaces(html, &mut out);
        out.push(0x3c);
        out.push(0x2f);
        out.push(0x64);
        out.push(0x61);
        out.push(0x74);
        out.push(0x61);
        out.push(0x3e);
        proof {
            assert(out@ =~= spec_render_success(item@, html@, include_src));
        }
    } else {
        push_newlines_as_spaces(html, &mut out);
        proof {
            assert(out@ =~= spec_render_success(item@, html@, include_src));
        }
    }
    out
}

/// The fragment for math whose rendering failed: the original source,
/// unchanged, inside its original delimiters.
pub fn render_fallback(item: &[u8], delimiter: &Delimiter) -> (r: Vec<u8>)
    ensures
        r@ == delimiter.left@ + item@ + delimiter.right@,
{
    let mut out: Vec<u8> = Vec::new();
    out.extend_from_slice(delimiter.left.as_slice());
    out.extend_from_slice(item);
    out.extend_from_slice(delimiter.right.as_slice());
    proof {
        assert(out@ =~= delimiter.left@ + item@ + delimiter.right@);
    }
    out
}

/// Render a math span `item` to HTML following `opts`. The result is
/// wrapped in a `<data>` tag when `extra_opts.include_src` is set. When the
/// engine fails, the original delimited source is kept, so one bad formula
/// never corrupts the rest of the document.
pub fn render(item: &[u8], opts: &katex::Opts, extra_opts: &ExtraOpts, display: bool) -> (r: Vec<
    u8,
>)
    ensures
        (exists|h: Seq<u8>| r@ == spec_render_success(item@, h, extra_opts.include_src)) || r@ == (
        if display {
            extra_opts.block_delimiter.left@ + item@ + extra_opts.block_delimiter.right@
        } else {
            extra_opts.inline_delimiter.left@ + item@ + extra_opts.inline_delimiter.right@
        }),
        valid_utf8(item@) && valid_utf8(extra_opts.block_delimiter.left@) && valid_utf8(
            extra_opts.block_delimiter.right@,
        ) && valid_utf8(extra_opts.inline_delimiter.left@) && valid_utf8(
            extra_opts.inline_delimiter.right@,
        ) ==> valid_utf8(r@),
{
    let rendered: Option<Vec<u8>> = match bytes_as_str(item) {
        Some(s) => katex_render(s, opts),
        None => None,
    };
    match rendered {
        Some(html) => {
            let out = wrap_rendered(item, html.as_slice(), extra_opts.include_src);
            proof {
                assert(out@ == spec_render_success(item@, html@, extra_opts.include_src));
                if valid_utf8(item@) {
                    lemma_render_success_valid(item@, html@, extra_opts.include_src);
                }
            }
            out
        },
        None => {
            let out = if display {
                render_fallback(item, &extra_opts.block_delimiter)
            } else {
                render_fallback(item, &extra_opts.inline_delimiter)
            };
            proof {
                let dl = if display {
                    extra_opts.block_delimiter.left@
                } else {
                    extra_opts.inline_delimiter.left@
                };
                let dr = if display {
                    extra_opts.block_delimiter.right@
                } else {
                    extra_opts.inline_delimiter.right@
                };
                if valid_utf8(item@) && valid_utf8(dl) && valid_utf8(dr) {
                    vstd::utf8::valid_utf8_concat(dl, item@);
                    vstd::utf8::valid_utf8_concat(dl + item@, dr);
                }
            }
            out
        },
    }
}

/// Whether `out` is an acceptable fragment for the math content `m`:
/// either a successful rendering of some engine output, or the delimited
/// literal source kept after a failure.
pub open spec fn math_out_ok(
    m: Seq<u8>,
    out: Seq<u8>,
    include_src: bool,
    dl: Seq<u8>,
    dr: Seq<u8>,
) -> bool {
    (exists|h: Seq<u8>| out == spec_render_success(m, h, include_src)) || out == dl + m + dr
}

/// Whether `outs` maps every task to an acceptable fragment: text tasks
/// pass through byte for byte, math tasks satisfy [`math_out_ok`] with
/// their own delimiters.
pub open spec fn prerender_outs_ok(
    tasks: Seq<RenderView>,
    outs: Seq<Seq<u8>>,
    include_src: bool,
    bl: Seq<u8>,
    br: Seq<u8>,
    il: Seq<u8>,
    ir: Seq<u8>,
) -> bool {
    &&& outs.len() == tasks.len()
    &&& forall|k: int|
        0 <= k < tasks.len() ==> match #[trigger] tasks[k] {
            RenderView::Text(s) => outs[k] == s,
            RenderView::InlineTask(m) => math_out_ok(m, outs[k], include_src, il, ir),
            RenderView::DisplayTask(m) => math_out_ok(m, outs[k], include_src, bl, br),
        }
}

/// The concatenation of a list of fragments, in order.
pub open spec fn concat_all(outs: Seq<Seq<u8>>) -> Seq<u8>
    decreases outs.len(),
{
    if outs.len() == 0 {
        Seq::empty()
    } else {
        outs[0] + concat_all(outs.drop_first())
    }
}

proof fn lemma_concat_all_push(outs: Seq<Seq<u8>>, x: Seq<u8>)
    ensures
        concat_all(outs.push(x)) == concat_all(outs) + x,
    decreases outs.len(),
{
    if outs.len() == 0 {
        assert(outs.push(x).drop_first() =~= Seq::<Seq<u8>>::empty());
        assert(concat_all(Seq::<Seq<u8>>::empty()) == Seq::<u8>::empty());
        assert(concat_all(outs.push(x)) =~= concat_all(outs) + x);
    } else {
        lemma_concat_all_push(outs.drop_first(), x);
        assert(outs.push(x).drop_first() =~= outs.drop_first().push(x));
        assert(concat_all(outs.push(x)) =~= concat_all(outs) + x);
    }
}

/// Render all math spans of one chapter to HTML and prepend the stylesheet
/// header.
///
/// Each task's fragment depends only on that task and the shared read-only
/// options, never on sibling tasks, so task evaluation order cannot affect
/// the concatenated output and tasks may be dispatched concurrently by a
/// caller that collects fragments back into original order.
pub fn process_chapter_prerender(
    raw_content: &[u8],
    inline_opts: &katex::Opts,
    display_opts: &katex::Opts,
    stylesheet_header: &[u8],
    extra_opts: &ExtraOpts,
) -> (r: Vec<u8>)
    requires
        extra_opts.wf(),
    ensures
        exists|outs: Seq<Seq<u8>>|
            prerender_outs_ok(
                spec_render_tasks(
                    raw_content@,
                    stylesheet_header@,
                    extra_opts.block_delimiter.left@,
                    extra_opts.block_delimiter.right@,
                    extra_opts.inline_delimiter.left@,
                    extra_opts.inline_delimiter.right@,
                ),
                outs,
                extra_opts.include_src,
                extra_opts.block_delimiter.left@,
                extra_opts.block_delimiter.right@,
                extra_opts.inline_delimiter.left@,
                extra_opts.inline_delimiter.right@,
            ) && r@ == concat_all(outs),
        valid_utf8(raw_content@) && valid_utf8(stylesheet_header@) && valid_utf8(
            extra_opts.block_delimiter.left@,
        ) && valid_utf8(extra_opts.block_delimiter.right@) && valid_utf8(
            extra_opts.inline_delimiter.left@,
        ) && valid_utf8(extra_opts.inline_delimiter.right@) ==> valid_utf8(r@),
{
    let ghost bl = extra_opts.block_delimiter.left@;
    let ghost br = extra_opts.block_delimiter.right@;
    let ghost il = extra_opts.inline_delimiter.left@;
    let ghost ir = extra_opts.inline_delimiter.right@;
    let ghost t = raw_content@;
    let t_len = raw_content.len();
    let ghost vin = valid_utf8(t) && valid_utf8(stylesheet_header@) && valid_utf8(bl)
        && valid_utf8(br) && valid_utf8(il) && valid_utf8(ir);
    let tasks = get_render_tasks(raw_content, stylesheet_header, extra_opts);
    let ghost tviews = views_of(tasks@);
    let ghost inc = extra_opts.include_src;
    proof {
        if vin {
            crate::encoding::lemma_render_tasks_valid(t, stylesheet_header@, bl, br, il, ir);
        }
    }
    let mut out: Vec<u8> = Vec::new();
    let ghost mut outs: Seq<Seq<u8>> = Seq::empty();
    let n_tasks = tasks.len();
    let mut k: usize = 0;
    proof {
        assert(valid_utf8(Seq::<u8>::empty()));
    }
    while k < n_tasks
        invariant
            extra_opts.block_delimiter.left@ == bl,
            extra_opts.block_delimiter.right@ == br,
            extra_opts.inline_delimiter.left@ == il,
            extra_opts.inline_delimiter.right@ == ir,
            extra_opts.include_src == inc,
            n_tasks == tasks@.len(),
            tviews == views_of(tasks@),
            vin == (valid_utf8(t) && valid_utf8(stylesheet_header@) && valid_utf8(bl)
                && valid_utf8(br) && valid_utf8(il) && valid_utf8(ir)),
            vin ==> forall|j: int|
                0 <= j < tviews.len() ==> valid_utf8(
                    crate::encoding::task_bytes(#[trigger] tviews[j]),
                ),
            0 <= k <= n_tasks,
            outs.len() == k,
            prerender_outs_ok(tviews.take(k as int), outs, inc, bl, br, il, ir),
            out@ == concat_all(outs),
            vin ==> valid_utf8(out@),
        decreases n_tasks - k,
    {
        let ghost outs0 = outs;
        proof {
            assert(tviews[k as int] == tasks@[k as int]@);
        }
        let task = &tasks[k];
        match task {
            Render::Text(s) => {
                out.extend_from_slice(s.as_slice());
                proof {
                    outs = outs.push(s@);
                    lemma_concat_all_push(outs0, s@);
                    if vin {
                        assert(crate::encoding::task_bytes(tviews[k as int]) == s@);
                        assert(valid_utf8(s@));
                        assert(valid_utf8(concat_all(outs0)));
                        vstd::utf8::valid_utf8_concat(concat_all(outs0), s@);
                        assert(out@ == concat_all(outs0) + s@);
                    }
                }
            },
            Render::InlineTask(m) => {
                let frag = render(m.as_slice(), inline_opts, extra_opts, false);
                out.extend_from_slice(frag.as_slice());
                proof {
                    outs = outs.push(frag@);
                    lemma_concat_all_push(outs0, frag@);
                    if vin {
                        assert(valid_utf8(frag@));
                        assert(valid_utf8(concat_all(outs0)));
                        vstd::utf8::valid_utf8_concat(concat_all(outs0), frag@);
                        assert(out@ == concat_all(outs0) + frag@);
                    }
                }
            },
            Render::DisplayTask(m) => {
                let frag = render(m.as_slice(), display_opts, extra_opts, true);
                out.extend_from_slice(frag.as_slice());
                proof {
                    outs = outs.push(frag@);
                    lemma_concat_all_push(outs0, frag@);
                    if vin {
                        assert(valid_utf8(frag@));
                        assert(valid_utf8(concat_all(outs0)));
                        vstd::utf8::valid_utf8_concat(concat_all(outs0), frag@);
                        assert(out@ == concat_all(outs0) + frag@);
                    }
                }
            },
        }
        proof {
            assert(tviews.take(k + 1) =~= tviews.take(k as int).push(tviews[k as int]));
            assert(prerender_outs_ok(tviews.take(k + 1), outs, inc, bl, br, il, ir));
        }
        k = k + 1;
    }
    proof {
        assert(tviews.take(n_tasks as int) =~= tviews);
        assert(prerender_outs_ok(tviews, outs, inc, bl, br, il, ir) && out@ == concat_all(outs));
    }
    out
}

/// For all text with zero delimiter occurrences, the render-mode output is
/// also the input unchanged behind the header: the scan yields only text
/// tasks, and every acceptable fragment list maps a text task to itself.
pub proof fn lemma_no_math_identity_prerender(
    t: Seq<u8>,
    header: Seq<u8>,
    bl: Seq<u8>,
    br: Seq<u8>,
    il: Seq<u8>,
    ir: Seq<u8>,
    outs: Seq<Seq<u8>>,
    include_src: bool,
)
    requires
        forall|p: int| !crate::scan::matches_at(t, bl, p),
        forall|p: int| !crate::scan::matches_at(t, il, p),
        prerender_outs_ok(
            spec_render_tasks(t, header, bl, br, il, ir),
            outs,
            include_src,
            bl,
            br,
            il,
            ir,
        ),
    ensures
        concat_all(outs) == header + t,
{
    crate::scan::lemma_scan_no_delimiters(t, bl, br, il, ir, 0);
    let tasks = spec_render_tasks(t, header, bl, br, il, ir);
    assert(concat_all(Seq::<Seq<u8>>::empty()) == Seq::<u8>::empty());
    if t.len() > 0 {
        assert(t.subrange(0, t.len() as int) =~= t);
        assert(tasks =~= seq![RenderView::Text(header), RenderView::Text(t)]);
        assert(outs[0] == header && outs[1] == t);
        assert(outs =~= seq![header, t]);
        assert(seq![header, t].drop_first() =~= seq![t]);
        assert(seq![t].drop_first() =~= Seq::<Seq<u8>>::empty());
        assert(concat_all(seq![t]) =~= t);
        assert(concat_all(seq![header, t]) =~= header + t);
        assert(concat_all(outs) == concat_all(seq![header, t]));
    } else {
        assert(tasks =~= seq![RenderView::Text(header)]);
        assert(outs[0] == header);
        assert(outs =~= seq![header]);
        assert(seq![header].drop_first() =~= Seq::<Seq<u8>>::empty());
        assert(concat_all(outs) =~= header + t);
    }
}

} // verus!
