//! What the library knows of the external diagram renderer.
//!
//! The renderer is an out-of-process tool the unverified shell invokes; this
//! module holds the pure halves of that exchange: the command line the tool
//! is invoked with, how the payload is extracted from each output file (the
//! tool wraps it in a container whose preamble is stripped at a marker), and
//! how an output file's name maps to the cache's page key.

use vstd::prelude::*;

use crate::paths::{BookPath, path_str};
use crate::scanner::chars_of;

verus! {

/// The marker the displayable payload begins at inside a renderer output
/// file.
pub open spec fn svg_marker() -> Seq<char> {
    seq!['<', 's', 'v', 'g', ' ']
}

/// The marker stands at position `i` of `s`.
pub open spec fn marker_at(s: Seq<char>, i: int) -> bool {
    0 <= i && i + 5 <= s.len() && s.subrange(i, i + 5) == svg_marker()
}

/// The marker stands at `i` and nowhere earlier.
pub open spec fn first_marker_at(s: Seq<char>, i: int) -> bool {
    marker_at(s, i) && forall|j: int| 0 <= j < i ==> !marker_at(s, j)
}

/// The payload of a renderer output file: everything from the first marker
/// onward, or nothing when the file holds no marker.
pub open spec fn extract_svg_spec(s: Seq<char>) -> Option<Seq<char>> {
    if exists|i: int| first_marker_at(s, i) {
        Some(s.skip(choose|i: int| first_marker_at(s, i)))
    } else {
        None
    }
}

/// Only one position can be the first marker.
proof fn lemma_first_marker_unique(s: Seq<char>, i: int, j: int)
    requires
        first_marker_at(s, i),
        first_marker_at(s, j),
    ensures
        i == j,
{
    if i < j {
        assert(!marker_at(s, i));
    }
    if j < i {
        assert(!marker_at(s, j));
    }
}

/// Extracts the displayable payload from one renderer output file: everything
/// from the first marker onward. `None` when the file holds no marker.
pub fn extract_svg(content: &str) -> (r: Option<String>)
    ensures
        match r {
            Some(t) => extract_svg_spec(content@) == Some(t@),
            None => extract_svg_spec(content@) is None,
        },
{
    let ghost s = content@;
    let cs = chars_of(content);
    let n = cs.len();
    if n < 5 {
        proof {
            if exists|i: int| first_marker_at(s, i) {
                let i = choose|i: int| first_marker_at(s, i);
                assert(false);
            }
        }
        return None;
    }
    let mut i: usize = 0;
    while i <= n - 5
        invariant
            s == content@,
            n == s.len(),
            cs@ == s,
            5 <= n,
            i <= n - 4,
            forall|j: int| 0 <= j < i ==> !marker_at(s, j),
        decreases n - i,
    {
        if cs[i] == '<' && cs[i + 1] == 's' && cs[i + 2] == 'v' && cs[i + 3] == 'g' && cs[i + 4]
            == ' ' {
            proof {
                assert(s.subrange(i as int, i + 5) =~= svg_marker());
                assert(first_marker_at(s, i as int));
            }
            let t = String::from_str(content.substring_char(i, n));
            proof {
                let w = choose|w: int| first_marker_at(s, w);
                lemma_first_marker_unique(s, i as int, w);
                assert(t@ =~= s.skip(i as int));
            }
            return Some(t);
        }
        proof {
            if marker_at(s, i as int) {
                assert(s.subrange(i as int, i + 5)[0] == s[i as int]);
                assert(s.subrange(i as int, i + 5)[1] == s[i + 1]);
                assert(s.subrange(i as int, i + 5)[2] == s[i + 2]);
                assert(s.subrange(i as int, i + 5)[3] == s[i + 3]);
                assert(s.subrange(i as int, i + 5)[4] == s[i + 4]);
                assert(false);
            }
        }
        i += 1;
    }
    proof {
        assert forall|j: int| 0 <= j < s.len() implies !marker_at(s, j) by {
            if j < i {
            } else {
                assert(j + 5 > s.len());
            }
        }
        if exists|w: int| first_marker_at(s, w) {
            let w = choose|w: int| first_marker_at(s, w);
            assert(false);
        }
    }
    None
}

/// How a renderer output file's name maps to the cache's page key: the
/// diagram's file stem and the separating `-` are stripped when they lead
/// the name; any other name is kept whole.
pub open spec fn strip_prefix_spec(stem: Seq<char>, fname: Seq<char>) -> Seq<char> {
    let pre = stem + seq!['-'];
    if fname.len() >= pre.len() && fname.take(pre.len() as int) == pre {
        fname.skip(pre.len() as int)
    } else {
        fname
    }
}

/// The page key of a renderer output file named `fname`, for a diagram whose
/// file stem is `stem`.
pub fn page_key_of_output(stem: &str, fname: &str) -> (r: String)
    ensures
        r@ == strip_prefix_spec(stem@, fname@),
{
    let sn = stem.unicode_len();
    let fn_ = fname.unicode_len();
    let ghost pre = stem@ + seq!['-'];
    if fn_ <= sn {
        proof {
            assert(fname@.len() < pre.len());
        }
        return String::from_str(fname);
    }
    let mut i: usize = 0;
    while i < sn
        invariant
            i <= sn,
            sn == stem@.len(),
            fn_ == fname@.len(),
            fn_ >= sn + 1,
            pre == stem@ + seq!['-'],
            forall|j: int| 0 <= j < i ==> fname@[j] == stem@[j],
        decreases sn - i,
    {
        if fname.get_char(i) != stem.get_char(i) {
            proof {
                if fname@.take(pre.len() as int) == pre {
                    assert(fname@.take(pre.len() as int)[i as int] == fname@[i as int]);
                    assert(pre[i as int] == stem@[i as int]);
                }
            }
            return String::from_str(fname);
        }
        i += 1;
    }
    if fname.get_char(sn) != '-' {
        proof {
            if fname@.take(pre.len() as int) == pre {
                assert(fname@.take(pre.len() as int)[sn as int] == fname@[sn as int]);
                assert(pre[sn as int] == '-');
            }
        }
        return String::from_str(fname);
    }
    let r = String::from_str(fname.substring_char(sn + 1, fn_));
    proof {
        assert(fname@.take(pre.len() as int) =~= pre);
        assert(r@ =~= fname@.skip(pre.len() as int));
    }
    r
}

/// The command the external renderer is invoked as.
pub fn renderer_command() -> (r: String)
    ensures
        r@ == "drawio-exporter.exe"@,
{
    String::from_str("drawio-exporter.exe")
}

/// The arguments the external renderer is invoked with: the diagram source
/// path, the output directory, the output format and the output mode.
pub fn render_args(source: &BookPath, out_dir: &str) -> (r: Vec<String>)
    ensures
        r.deep_view() == seq![
            path_str(source@),
            "--output"@,
            out_dir@,
            "--format"@,
            "svg"@,
            "--output-mode"@,
            "absolute"@,
        ],
{
    let mut r: Vec<String> = Vec::new();
    r.push(source.to_string());
    r.push(String::from_str("--output"));
    r.push(String::from_str(out_dir));
    r.push(String::from_str("--format"));
    r.push(String::from_str("svg"));
    r.push(String::from_str("--output-mode"));
    r.push(String::from_str("absolute"));
    proof {
        assert(r.deep_view() =~= seq![
            path_str(source@),
            "--output"@,
            out_dir@,
            "--format"@,
            "svg"@,
            "--output-mode"@,
            "absolute"@,
        ]);
    }
    r
}

} // verus!
