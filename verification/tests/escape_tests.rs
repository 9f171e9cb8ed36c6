//! Escaping math spans so the Markdown renderer passes them through.

use mdbook_katex::preprocess::{process_chapter_escape, ExtraOpts, KatexProcessor, KATEX_HEADER};
use mdbook_katex::scan::Delimiter;

/// The subset of the book configuration that drives preprocessing.
struct KatexConfig {
    include_src: bool,
    block_delimiter: Delimiter,
    inline_delimiter: Delimiter,
}

impl Default for KatexConfig {
    fn default() -> KatexConfig {
        KatexConfig {
            include_src: false,
            block_delimiter: Delimiter {
                left: b"$$".to_vec(),
                right: b"$$".to_vec(),
            },
            inline_delimiter: Delimiter {
                left: b"$".to_vec(),
                right: b"$".to_vec(),
            },
        }
    }
}

impl KatexConfig {
    fn build_extra_opts(&self) -> ExtraOpts {
        ExtraOpts {
            include_src: self.include_src,
            block_delimiter: self.block_delimiter.clone(),
            inline_delimiter: self.inline_delimiter.clone(),
        }
    }
}

fn test_render(raw_content: &str) -> (String, String) {
    let (stylesheet_header, mut rendered) =
        test_render_with_cfg(&[raw_content], KatexConfig::default());
    (stylesheet_header, rendered.pop().unwrap())
}

fn test_render_with_cfg(raw_contents: &[&str], cfg: KatexConfig) -> (String, Vec<String>) {
    let extra_opts = cfg.build_extra_opts();
    let stylesheet_header = KATEX_HEADER.to_owned();
    let rendered = raw_contents
        .iter()
        .map(|raw_content| {
            String::from_utf8(process_chapter_escape(
                raw_content.as_bytes(),
                &extra_opts,
                stylesheet_header.as_bytes(),
            ))
            .unwrap()
        })
        .collect();
    (stylesheet_header, rendered)
}

#[test]
fn escape_test_test_name() {
    let pre = KatexProcessor;
    assert_eq!(pre.name(), "katex")
}

#[test]
fn escape_test_test_support_html() {
    let preprocessor = KatexProcessor;
    assert!(preprocessor.supports_renderer("html"));
    assert!(preprocessor.supports_renderer("other_renderer"))
}

#[test]
fn test_escape_without_math() {
    let raw_content = r"Some text, and more text.";
    let (stylesheet_header, rendered_content) = test_render(raw_content);
    let expected_output = stylesheet_header + raw_content;
    assert_eq!(expected_output, rendered_content);
}

#[test]
fn test_dollar_escape() {
    let raw_content = r"Some text, \$\$ and more text.";
    let (stylesheet_header, rendered_content) = test_render(raw_content);
    let expected_output = stylesheet_header + raw_content;
    assert_eq!(expected_output, rendered_content);
}

#[test]
fn test_escape_with_math() {
    let raw_content = r"A simple fomula, $\sum_{n=1}^\infty \frac{1}{n^2} = \frac{\pi^2}{6}$.";
    let (stylesheet_header, rendered_content) = test_render(raw_content);
    let expected_output = stylesheet_header
        + r"A simple fomula, $\\sum\_{n=1}^\\infty \\frac{1}{n^2} = \\frac{\\pi^2}{6}$.";
    assert_eq!(expected_output, rendered_content);
}

#[test]
fn test_escape_underscore() {
    let raw_content = r"A simple `f_f_f`, f_f_f, f`f$f_$f_` fomula, $\sum_{n=1}^\infty\\$.";
    let (stylesheet_header, rendered_content) = test_render(raw_content);
    let expected_output = stylesheet_header
        + r"A simple `f_f_f`, f_f_f, f`f$f_$f_` fomula, $\\sum\_{n=1}^\\infty\\\\$.";
    assert_eq!(expected_output, rendered_content);
}

#[test]
fn test_escape_vmatrix() {
    let raw_content = r"$$\begin{vmatrix}a&b\\c&d\end{vmatrix}$$";
    let (stylesheet_header, rendered_content) = test_render(raw_content);
    let expected_output = stylesheet_header + r"$$\\begin{vmatrix}a&b\\\\c&d\\end{vmatrix}$$";
    assert_eq!(expected_output, rendered_content);
}
