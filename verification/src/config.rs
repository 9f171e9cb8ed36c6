//! Parsing of the macro-definitions file and resolution of its path.
//!
//! A macro file holds lines of the form `\name:expansion`. Only lines that
//! begin with a backslash are read; each is split on its first colon. A
//! macro line without a colon is a configuration error, surfaced to the
//! caller before any scanning begins.
use crate::render::NEWLINE;
use crate::scan::find_at;
use crate::scan::lemma_find_at_some;
use crate::scan::matches_at;
use crate::scan::BACKSLASH;
use vstd::prelude::*;

verus! {

/// The colon byte `:`.
pub const COLON: u8 = 0x3a;

/// The path-separator byte `/`.
pub const SLASH: u8 = 0x2f;

/// The macro definitions read from the file content `s`, from byte `start`
/// on, line by line: `None` when some macro line has no colon, otherwise
/// the (name, expansion) pairs in file order.
pub open spec fn spec_parse_macros(s: Seq<u8>, start: int) -> Option<Seq<(Seq<u8>, Seq<u8>)>>
    decreases s.len() - start via spec_parse_macros_decreases
{
    if !(0 <= start <= s.len()) {
        Some(Seq::empty())
    } else {
        let line_end = match find_at(s, seq![NEWLINE], start) {
            None => s.len() as int,
            Some(p) => p,
        };
        let line = s.subrange(start, line_end);
        let rest = if line_end < s.len() {
            spec_parse_macros(s, line_end + 1)
        } else {
            Some(Seq::empty())
        };
        if line.len() == 0 || line[0] != BACKSLASH {
            rest
        } else {
            match find_at(line, seq![COLON], 0) {
                None => None,
                Some(c) => match rest {
                    None => None,
                    Some(r) => Some(seq![(line.take(c), line.skip(c + 1))] + r),
                },
            }
        }
    }
}

#[via_fn]
proof fn spec_parse_macros_decreases(s: Seq<u8>, start: int) {
    if 0 <= start <= s.len() && find_at(s, seq![NEWLINE], start) is Some {
        lemma_find_at_some(s, seq![NEWLINE], start);
    }
}

/// The views of a vector of (name, expansion) pairs.
pub open spec fn pair_views(v: Seq<(Vec<u8>, Vec<u8>)>) -> Seq<(Seq<u8>, Seq<u8>)> {
    v.map_values(|p: (Vec<u8>, Vec<u8>)| (p.0@, p.1@))
}

/// The first position of byte `b` in `t` at or after `from`.
fn find_byte(t: &[u8], b: u8, from: usize) -> (r: Option<usize>)
    requires
        from <= t@.len(),
    ensures
        r is Some ==> find_at(t@, seq![b], from as int) == Some(r->0 as int),
        r is None ==> find_at(t@, seq![b], from as int) is None,
        r is Some ==> from <= r->0 < t@.len() && t@[r->0 as int] == b,
{
    let t_len = t.len();
    let mut p = from;
    loop
        invariant
            t_len == t@.len(),
            from <= p <= t_len,
            find_at(t@, seq![b], from as int) == find_at(t@, seq![b], p as int),
        decreases t_len - p,
    {
        if p >= t_len {
            return None;
        }
        assert(seq![b][0] == b && seq![b].len() == 1);
        if t[p] == b {
            assert(matches_at(t@, seq![b], p as int));
            return Some(p);
        }
        assert(!matches_at(t@, seq![b], p as int));
        assert(find_at(t@, seq![b], p as int) == find_at(t@, seq![b], p + 1));
        p = p + 1;
    }
}

/// Parse macro definitions from the lines of `content` starting at `start`.
fn parse_macros_from(content: &[u8], start: usize) -> (r: Option<Vec<(Vec<u8>, Vec<u8>)>>)
    requires
        start <= content@.len(),
    ensures
        match r {
            Some(v) => spec_parse_macros(content@, start as int) == Some(pair_views(v@)),
            None => spec_parse_macros(content@, start as int) is None,
        },
    decreases content@.len() - start,
{
    let content_len = content.len();
    let line_end = match find_byte(content, NEWLINE, start) {
        None => content_len,
        Some(p) => p,
    };
    let rest: Option<Vec<(Vec<u8>, Vec<u8>)>> = if line_end < content_len {
        parse_macros_from(content, line_end + 1)
    } else {
        Some(Vec::new())
    };
    proof {
        if line_end >= content_len {
            assert(pair_views(Seq::<(Vec<u8>, Vec<u8>)>::empty()) =~= Seq::<(
                Seq<u8>,
                Seq<u8>,
            )>::empty());
        }
    }
    let line = vstd::slice::slice_subrange(content, start, line_end);
    if line.len() == 0 {
        return rest;
    }
    if line[0] != BACKSLASH {
        return rest;
    }
    match find_byte(line, COLON, 0) {
        None => None,
        Some(c) => match rest {
            None => None,
            Some(mut v) => {
                let name = vstd::slice::slice_to_vec(vstd::slice::slice_subrange(line, 0, c));
                let expansion = vstd::slice::slice_to_vec(
                    vstd::slice::slice_subrange(line, c + 1, line.len()),
                );
                let ghost v0 = v@;
                v.insert(0, (name, expansion));
                proof {
                    assert(line@.take(c as int) =~= line@.subrange(0, c as int));
                    assert(line@.skip(c + 1) =~= line@.subrange(c + 1, line@.len() as int));
                    assert(pair_views(v@) =~= seq![(line@.take(c as int), line@.skip(c + 1))]
                        + pair_views(v0));
                }
                Some(v)
            },
        },
    }
}

/// Parse the macro definitions in `content`: `None` when some line that
/// begins with a backslash has no colon, otherwise the (name, expansion)
/// pairs in file order, names with their leading backslash.
pub fn parse_macros(content: &[u8]) -> (r: Option<Vec<(Vec<u8>, Vec<u8>)>>)
    ensures
        match r {
            Some(v) => spec_parse_macros(content@, 0) == Some(pair_views(v@)),
            None => spec_parse_macros(content@, 0) is None,
        },
{
    parse_macros_from(content, 0)
}

/// `path` resolved against `root` the way a path join resolves it: an
/// absolute `path` stands alone; otherwise it is appended to `root` behind
/// a single separator.
pub open spec fn spec_join_path(root: Seq<u8>, path: Seq<u8>) -> Seq<u8> {
    if path.len() > 0 && path[0] == SLASH {
        path
    } else if root.len() == 0 {
        path
    } else if root[root.len() - 1] == SLASH {
        root + path
    } else {
        root + seq![SLASH] + path
    }
}

/// Absolute path of the macro file, or `None` when no macro file is
/// configured.
pub fn get_macro_path(root: &[u8], macros_path: &Option<Vec<u8>>) -> (r: Option<Vec<u8>>)
    ensures
        match macros_path {
            Some(p) => r is Some && r->0@ == spec_join_path(root@, p@),
            None => r is None,
        },
{
    match macros_path {
        None => None,
        Some(p) => {
            if p.len() > 0 && p[0] == SLASH {
                return Some(vstd::slice::slice_to_vec(p.as_slice()));
            }
            if root.len() == 0 {
                return Some(vstd::slice::slice_to_vec(p.as_slice()));
            }
            let mut out: Vec<u8> = Vec::new();
            out.extend_from_slice(root);
            if root[root.len() - 1] != SLASH {
                out.push(SLASH);
            }
            out.extend_from_slice(p.as_slice());
            proof {
                assert(out@ =~= spec_join_path(root@, p@));
            }
            Some(out)
        },
    }
}

} // verus!
