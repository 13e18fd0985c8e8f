//! Splicing replacements into a scanned text.
//!
//! `spliced` says, once and for all, what a rewritten text is: the gaps
//! between the matched spans are copied byte for byte, and each matched span
//! is replaced by its replacement. `replace_links` is the pure rewrite that
//! re-targets every diagram-embed link at the rendered-content extension and
//! collects the diagram source names.

use vstd::prelude::*;

use crate::scanner::{
    LinkMatch, link_at, match_wf, matches_complete, matches_wf, out_ext, scan_links, src_ext,
};

verus! {

/// Where the gap before match `k` begins: the end of the previous match.
pub open spec fn gap_start(ms: Seq<LinkMatch>, k: int) -> int {
    if k == 0 {
        0
    } else {
        ms[k - 1].end as int
    }
}

/// Where the gap before match `k` ends; for `k == ms.len()` the gap is the
/// text after the last match.
pub open spec fn gap_end(s: Seq<char>, ms: Seq<LinkMatch>, k: int) -> int {
    if k == ms.len() {
        s.len() as int
    } else {
        ms[k].start as int
    }
}

/// The spans are in order, disjoint and inside the text. This is all the
/// splice needs of them.
pub open spec fn spans_wf(s: Seq<char>, ms: Seq<LinkMatch>) -> bool {
    &&& (forall|k: int| 0 <= k < ms.len() ==> (#[trigger] ms[k]).start <= ms[k].end <= s.len())
    &&& (forall|k: int| 0 <= k && k + 1 < ms.len() ==> (#[trigger] ms[k].end) <= ms[k + 1].start)
}

/// Scanned matches have well-formed spans.
pub proof fn lemma_matches_wf_spans(s: Seq<char>, ms: Seq<LinkMatch>)
    requires
        matches_wf(s, ms),
    ensures
        spans_wf(s, ms),
{
    assert forall|k: int| 0 <= k < ms.len() implies (#[trigger] ms[k]).start <= ms[k].end
        <= s.len() by {
        assert(match_wf(s, ms[k]));
    }
}

/// The output accumulated once the matches of `ms` are all processed: for
/// each match, the gap before it copied from `s`, then its replacement.
pub open spec fn splice_upto(s: Seq<char>, ms: Seq<LinkMatch>, reps: Seq<Seq<char>>) -> Seq<char>
    decreases ms.len(),
{
    if ms.len() == 0 {
        Seq::empty()
    } else {
        splice_upto(s, ms.drop_last(), reps.drop_last()) + s.subrange(
            gap_start(ms, ms.len() - 1),
            ms.last().start as int,
        ) + reps.last()
    }
}

/// The whole rewritten text: every gap copied from `s`, every matched span
/// replaced by its replacement.
pub open spec fn spliced(s: Seq<char>, ms: Seq<LinkMatch>, reps: Seq<Seq<char>>) -> Seq<char> {
    splice_upto(s, ms, reps) + s.subrange(gap_start(ms, ms.len() as int), s.len() as int)
}

/// Rewriting a text with zero matches is the identity, whatever the
/// replacements would have been.
pub proof fn lemma_splice_no_matches(s: Seq<char>, ms: Seq<LinkMatch>, reps: Seq<Seq<char>>)
    requires
        ms.len() == 0,
    ensures
        spliced(s, ms, reps) == s,
{
    assert(spliced(s, ms, reps) =~= s);
}

/// What remains to splice from gap `k` on.
spec fn rest_from(s: Seq<char>, ms: Seq<LinkMatch>, reps: Seq<Seq<char>>, k: int) -> Seq<char>
    decreases ms.len() - k,
{
    if k < 0 || k >= ms.len() {
        s.subrange(gap_start(ms, ms.len() as int), s.len() as int)
    } else {
        s.subrange(gap_start(ms, k), ms[k].start as int) + reps[k] + rest_from(s, ms, reps, k + 1)
    }
}

/// The spliced text decomposes, at every match index, into what the first
/// `k` matches produced and what the rest will.
proof fn lemma_spliced_decomp(s: Seq<char>, ms: Seq<LinkMatch>, reps: Seq<Seq<char>>, k: int)
    requires
        spans_wf(s, ms),
        reps.len() == ms.len(),
        0 <= k <= ms.len(),
    ensures
        spliced(s, ms, reps) == splice_upto(s, ms.take(k), reps.take(k)) + rest_from(
            s,
            ms,
            reps,
            k,
        ),
    decreases ms.len() - k,
{
    if k == ms.len() {
        assert(ms.take(k) =~= ms);
        assert(reps.take(k) =~= reps);
        assert(rest_from(s, ms, reps, k) == s.subrange(
            gap_start(ms, ms.len() as int),
            s.len() as int,
        ));
    } else {
        lemma_spliced_decomp(s, ms, reps, k + 1);
        let tk1 = ms.take(k + 1);
        let rk1 = reps.take(k + 1);
        assert(tk1.drop_last() =~= ms.take(k));
        assert(rk1.drop_last() =~= reps.take(k));
        assert(tk1.last() == ms[k]);
        assert(rk1.last() == reps[k]);
        assert(gap_start(tk1, tk1.len() - 1) == gap_start(ms, k));
        assert(splice_upto(s, tk1, rk1) == splice_upto(s, ms.take(k), reps.take(k)) + s.subrange(
            gap_start(ms, k),
            ms[k].start as int,
        ) + reps[k]);
        assert(spliced(s, ms, reps) =~= splice_upto(s, ms.take(k), reps.take(k)) + (s.subrange(
            gap_start(ms, k),
            ms[k].start as int,
        ) + reps[k] + rest_from(s, ms, reps, k + 1)));
    }
}

/// The character offset in the output where gap `k` begins.
pub open spec fn out_gap_offset(s: Seq<char>, ms: Seq<LinkMatch>, reps: Seq<Seq<char>>, k: int) -> int {
    splice_upto(s, ms.take(k), reps.take(k)).len() as int
}

/// Everything outside the matched spans is preserved exactly: for every `k`,
/// the gap between match `k - 1` and match `k` (the text before the first
/// match for `k == 0`, after the last for `k == ms.len()`) reappears in the
/// rewritten text unchanged, at the offset the earlier gaps and replacements
/// determine.
pub proof fn lemma_splice_preserves_gaps(
    s: Seq<char>,
    ms: Seq<LinkMatch>,
    reps: Seq<Seq<char>>,
    k: int,
)
    requires
        spans_wf(s, ms),
        reps.len() == ms.len(),
        0 <= k <= ms.len(),
    ensures
        gap_start(ms, k) <= gap_end(s, ms, k),
        spliced(s, ms, reps).subrange(
            out_gap_offset(s, ms, reps, k),
            out_gap_offset(s, ms, reps, k) + (gap_end(s, ms, k) - gap_start(ms, k)),
        ) == s.subrange(gap_start(ms, k), gap_end(s, ms, k)),
{
    lemma_spliced_decomp(s, ms, reps, k);
    let pre = splice_upto(s, ms.take(k), reps.take(k));
    let rest = rest_from(s, ms, reps, k);
    let g0 = gap_start(ms, k);
    let g1 = gap_end(s, ms, k);
    if k == ms.len() {
        assert(g0 <= g1);
        assert(rest == s.subrange(g0, s.len() as int));
        assert(spliced(s, ms, reps).subrange(pre.len() as int, pre.len() + (g1 - g0)) =~= s.subrange(
            g0,
            g1,
        ));
    } else {
        assert(g0 <= g1);
        assert(rest == s.subrange(g0, ms[k].start as int) + reps[k] + rest_from(s, ms, reps, k + 1));
        assert(spliced(s, ms, reps).subrange(pre.len() as int, pre.len() + (g1 - g0)) =~= s.subrange(
            g0,
            g1,
        ));
    }
}

/// The matched span itself, spliced back unchanged when a match is skipped.
pub open spec fn verbatim_rep(s: Seq<char>, m: LinkMatch) -> Seq<char> {
    s.subrange(m.start as int, m.end as int)
}

/// Processing one more match extends the accumulated output by the gap
/// before it and its replacement.
pub proof fn lemma_upto_snoc(
    s: Seq<char>,
    ms: Seq<LinkMatch>,
    reps: Seq<Seq<char>>,
    k: int,
    rep: Seq<char>,
)
    requires
        0 <= k < ms.len(),
        reps.len() == k,
    ensures
        splice_upto(s, ms.take(k + 1), reps.push(rep)) == splice_upto(s, ms.take(k), reps)
            + s.subrange(gap_start(ms, k), ms[k].start as int) + rep,
{
    let tk1 = ms.take(k + 1);
    let rk1 = reps.push(rep);
    assert(tk1.drop_last() =~= ms.take(k));
    assert(rk1.drop_last() =~= reps);
    assert(tk1.last() == ms[k]);
    assert(rk1.last() == rep);
    assert(gap_start(tk1, tk1.len() - 1) == gap_start(ms, k));
}

/// The replacement `replace_links` splices in for one match: the markup
/// prefix kept, the target re-pointed at the rendered-content extension.
pub open spec fn svg_replacement(s: Seq<char>, m: LinkMatch) -> Seq<char> {
    s.subrange(m.start as int, m.prefix_end as int) + seq!['('] + m.base@ + seq!['-'] + m.page@
        + out_ext() + seq![')']
}

pub open spec fn svg_replacements(s: Seq<char>, ms: Seq<LinkMatch>) -> Seq<Seq<char>> {
    Seq::new(ms.len(), |k: int| svg_replacement(s, ms[k]))
}

/// The diagram source file names the matches refer to, in match order.
pub open spec fn link_names(ms: Seq<LinkMatch>) -> Seq<Seq<char>> {
    Seq::new(ms.len(), |k: int| ms[k].base@ + src_ext())
}

/// One iteration of the link rewrite: the spliced prefix and the collected
/// names grow by exactly the current match's contribution.
proof fn lemma_replace_step(s: Seq<char>, ms: Seq<LinkMatch>, k: int)
    requires
        0 <= k < ms.len(),
    ensures
        splice_upto(s, ms.take(k + 1), svg_replacements(s, ms).take(k + 1)) == splice_upto(
            s,
            ms.take(k),
            svg_replacements(s, ms).take(k),
        ) + s.subrange(gap_start(ms, k), ms[k].start as int) + svg_replacement(s, ms[k]),
        link_names(ms).take(k + 1) == link_names(ms).take(k).push(ms[k].base@ + src_ext()),
{
    let tk1 = ms.take(k + 1);
    let rk1 = svg_replacements(s, ms).take(k + 1);
    assert(tk1.drop_last() =~= ms.take(k));
    assert(rk1.drop_last() =~= svg_replacements(s, ms).take(k));
    assert(tk1.last() == ms[k]);
    assert(rk1.last() == svg_replacement(s, ms[k]));
    assert(gap_start(tk1, tk1.len() - 1) == gap_start(ms, k));
    assert(link_names(ms).take(k + 1) =~= link_names(ms).take(k).push(ms[k].base@ + src_ext()));
}

/// Appends the gap before the match and the re-targeted link to `out`.
#[verifier::spinoff_prover]
#[verifier::rlimit(100)]
fn append_svg_rep(out: &mut String, content: &str, m: &LinkMatch, cursor: usize)
    requires
        match_wf(content@, *m),
        cursor <= m.start,
    ensures
        final(out)@ == old(out)@ + content@.subrange(cursor as int, m.start as int)
            + svg_replacement(content@, *m),
{
    out.append(content.substring_char(cursor, m.start));
    out.append(content.substring_char(m.start, m.prefix_end));
    out.append("(");
    out.append(m.base.as_str());
    out.append("-");
    out.append(m.page.as_str());
    out.append(".svg");
    out.append(")");
    proof {
        reveal_strlit("(");
        reveal_strlit("-");
        reveal_strlit(".svg");
        reveal_strlit(")");
        assert("("@ =~= seq!['(']);
        assert("-"@ =~= seq!['-']);
        assert(".svg"@ =~= out_ext());
        assert(")"@ =~= seq![')']);
        assert(out@ =~= old(out)@ + content@.subrange(cursor as int, m.start as int)
            + svg_replacement(content@, *m));
    }
}

/// Rewrites every diagram-embed link of `content` to point at the
/// rendered-content extension instead of the diagram source extension, and
/// returns, in match order, the diagram source file name each link refers
/// to. Text outside the matched links is returned unchanged, and a text
/// without links is returned whole.
#[verifier::spinoff_prover]
#[verifier::rlimit(100)]
pub fn replace_links(content: &str) -> (r: (Vec<String>, String))
    ensures
        exists|ms: Seq<LinkMatch>|
            {
                &&& #[trigger] matches_wf(content@, ms)
                &&& matches_complete(content@, ms)
                &&& r.0.deep_view() == link_names(ms)
                &&& r.1@ == spliced(content@, ms, svg_replacements(content@, ms))
            },
        (forall|p: int| 0 <= p < content@.len() ==> !(#[trigger] link_at(content@, p))) ==> r.1@
            == content@,
{
    let ghost s = content@;
    let n = content.unicode_len();
    let ms = scan_links(content);
    proof {
        lemma_matches_wf_spans(s, ms@);
    }
    let mut links: Vec<String> = Vec::new();
    let mut out = String::new();
    let mut cursor: usize = 0;
    let mut k: usize = 0;
    proof {
        assert(ms@.take(0) =~= Seq::<LinkMatch>::empty());
        assert(svg_replacements(s, ms@).take(0) =~= Seq::<Seq<char>>::empty());
        assert(link_names(ms@).take(0) =~= Seq::<Seq<char>>::empty());
        assert(links.deep_view() =~= link_names(ms@).take(0));
    }
    while k < ms.len()
        invariant
            s == content@,
            n == s.len(),
            matches_wf(s, ms@),
            spans_wf(s, ms@),
            k <= ms@.len(),
            cursor == gap_start(ms@, k as int),
            cursor <= n,
            out@ == splice_upto(s, ms@.take(k as int), svg_replacements(s, ms@).take(k as int)),
            links.deep_view() == link_names(ms@).take(k as int),
        decreases ms@.len() - k,
    {
        let m = &ms[k];
        proof {
            assert(match_wf(s, ms@[k as int]));
        }
        append_svg_rep(&mut out, content, m, cursor);
        let name = m.base.clone().concat(".drawio");
        proof {
            reveal_strlit(".drawio");
            assert(".drawio"@ =~= src_ext());
            lemma_replace_step(s, ms@, k as int);
        }
        let ghost prelinks = links.deep_view();
        links.push(name);
        proof {
            assert(links.deep_view() =~= prelinks.push(name@));
        }
        cursor = m.end;
        k += 1;
    }
    proof {
        assert(ms@.take(ms@.len() as int) =~= ms@);
        assert(svg_replacements(s, ms@).take(ms@.len() as int) =~= svg_replacements(s, ms@));
        assert(link_names(ms@).take(ms@.len() as int) =~= link_names(ms@));
    }
    out.append(content.substring_char(cursor, n));
    proof {
        assert(out@ =~= spliced(s, ms@, svg_replacements(s, ms@)));
    }
    let r = (links, out);
    proof {
        let reps = svg_replacements(s, ms@);
        assert(matches_wf(s, ms@) && matches_complete(s, ms@) && r.0.deep_view() == link_names(ms@)
            && r.1@ == spliced(s, ms@, reps));
        if forall|p: int| 0 <= p < s.len() ==> !(#[trigger] link_at(s, p)) {
            if ms@.len() > 0 {
                assert(match_wf(s, ms@[0]));
                assert(link_at(s, ms@[0].start as int));
                assert(false);
            }
            lemma_splice_no_matches(s, ms@, reps);
        }
    }
    r
}

} // verus!
