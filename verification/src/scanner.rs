//! Scanning a text body for diagram-embed links.
//!
//! The recognized form is `![alt](base-page.drawio)`: image-style markup
//! whose target names a diagram base name, a page name separated from it by
//! the last `-` before the extension, and the diagram source extension. The
//! alt text runs to the first `]`, the target to the first `)`, and neither
//! crosses a line break. Scanning is non-overlapping and left-to-right and
//! never fails; a body with zero matches yields an empty sequence.

use vstd::prelude::*;

verus! {

/// The diagram source extension, `.drawio`.
pub open spec fn src_ext() -> Seq<char> {
    seq!['.', 'd', 'r', 'a', 'w', 'i', 'o']
}

/// The rendered-content extension, `.svg`.
pub open spec fn out_ext() -> Seq<char> {
    seq!['.', 's', 'v', 'g']
}

/// Characters allowed inside the alt text.
pub open spec fn alt_char(c: char) -> bool {
    c != ']' && c != '\n'
}

/// Characters allowed inside the link target.
pub open spec fn tgt_char(c: char) -> bool {
    c != ')' && c != '\n'
}

/// A diagram-embed link begins at position `p` of `s`, with an alt text of
/// `al` characters, a base name of `bl` and a page name of `pl`. The whole
/// match is `2 + al + 2 + bl + 1 + pl + 7 + 1 == 13 + al + bl + pl`
/// characters long.
pub open spec fn link_shape_at(s: Seq<char>, p: int, al: int, bl: int, pl: int) -> bool {
    &&& 0 <= p && 0 <= al && 0 <= bl && 0 <= pl
    &&& p + 13 + al + bl + pl <= s.len()
    &&& s[p] == '!'
    &&& s[p + 1] == '['
    &&& (forall|i: int| p + 2 <= i < p + 2 + al ==> #[trigger] alt_char(s[i]))
    &&& s[p + 2 + al] == ']'
    &&& s[p + 3 + al] == '('
    &&& (forall|i: int| p + 4 + al <= i < p + 4 + al + bl ==> #[trigger] tgt_char(s[i]))
    &&& s[p + 4 + al + bl] == '-'
    &&& (forall|i: int|
        p + 5 + al + bl <= i < p + 5 + al + bl + pl ==> #[trigger] tgt_char(s[i]) && s[i] != '-')
    &&& s[p + 5 + al + bl + pl] == '.'
    &&& s[p + 6 + al + bl + pl] == 'd'
    &&& s[p + 7 + al + bl + pl] == 'r'
    &&& s[p + 8 + al + bl + pl] == 'a'
    &&& s[p + 9 + al + bl + pl] == 'w'
    &&& s[p + 10 + al + bl + pl] == 'i'
    &&& s[p + 11 + al + bl + pl] == 'o'
    &&& s[p + 12 + al + bl + pl] == ')'
}

/// Some diagram-embed link begins at position `p` of `s`.
pub open spec fn link_at(s: Seq<char>, p: int) -> bool {
    exists|al: int, bl: int, pl: int| link_shape_at(s, p, al, bl, pl)
}

/// One scanned diagram-embed reference: the span it occupies in the original
/// text, where its markup prefix `![alt]` ends, and the base and page names
/// its target splits into.
pub struct LinkMatch {
    /// Character index where the match begins (at `!`).
    pub start: usize,
    /// Character index just past the `]` closing the markup prefix.
    pub prefix_end: usize,
    /// Character index just past the `)` closing the match.
    pub end: usize,
    /// The diagram base name: the target up to its last `-`.
    pub base: String,
    /// The page name: the target between its last `-` and the extension.
    pub page: String,
}

/// The match correctly describes a link of `s`.
pub open spec fn match_wf(s: Seq<char>, m: LinkMatch) -> bool {
    let p = m.start as int;
    let al = m.prefix_end - m.start - 3;
    let bl = m.base@.len() as int;
    let pl = m.page@.len() as int;
    &&& m.start + 3 <= m.prefix_end
    &&& link_shape_at(s, p, al, bl, pl)
    &&& m.end == p + 13 + al + bl + pl
    &&& m.base@ == s.subrange(p + 4 + al, p + 4 + al + bl)
    &&& m.page@ == s.subrange(p + 5 + al + bl, p + 5 + al + bl + pl)
}

/// Every match describes a link and the matches are ordered and disjoint.
pub open spec fn matches_wf(s: Seq<char>, ms: Seq<LinkMatch>) -> bool {
    &&& (forall|k: int| 0 <= k < ms.len() ==> match_wf(s, #[trigger] ms[k]))
    &&& (forall|k: int| 0 <= k && k + 1 < ms.len() ==> (#[trigger] ms[k].end) <= ms[k + 1].start)
}

/// Position `p` lies inside one of the matched spans.
pub open spec fn covered(ms: Seq<LinkMatch>, p: int) -> bool {
    exists|k: int| 0 <= k < ms.len() && (#[trigger] ms[k]).start <= p < ms[k].end
}

/// No link begins anywhere outside the matched spans: the scan missed
/// nothing.
pub open spec fn matches_complete(s: Seq<char>, ms: Seq<LinkMatch>) -> bool {
    forall|p: int| 0 <= p < s.len() && !covered(ms, p) ==> !(#[trigger] link_at(s, p))
}

/// The characters of `s` as a vector, for position-indexed scanning.
pub fn chars_of(s: &str) -> (v: Vec<char>)
    ensures
        v@ == s@,
{
    let n = s.unicode_len();
    let mut v: Vec<char> = Vec::new();
    let mut i: usize = 0;
    while i < n
        invariant
            i <= n,
            n == s@.len(),
            v@ == s@.take(i as int),
        decreases n - i,
    {
        let c = s.get_char(i);
        v.push(c);
        proof {
            assert(v@ =~= s@.take(i + 1));
        }
        i += 1;
    }
    proof {
        assert(s@.take(n as int) =~= s@);
    }
    v
}

/// If a link begins at `p` and a left-to-right scan over alt characters
/// stopped at `q`, the link's alt text ends exactly there.
proof fn lemma_alt_end(s: Seq<char>, p: int, q: int, al: int, bl: int, pl: int)
    requires
        link_shape_at(s, p, al, bl, pl),
        p + 2 <= q <= s.len(),
        forall|i: int| p + 2 <= i < q ==> alt_char(#[trigger] s[i]),
        q == s.len() || !alt_char(s[q]),
    ensures
        q == p + 2 + al,
{
    if q > p + 2 + al {
        assert(alt_char(s[p + 2 + al]));
        assert(s[p + 2 + al] == ']');
        assert(false);
    }
    if q < p + 2 + al {
        assert(q < s.len());
        assert(alt_char(s[q]));
        assert(false);
    }
}

/// If a link begins at `p` with its target starting at `t0` and a scan over
/// target characters stopped at `k`, the closing `)` stands exactly there.
proof fn lemma_target_end(s: Seq<char>, p: int, k: int, al: int, bl: int, pl: int)
    requires
        link_shape_at(s, p, al, bl, pl),
        p + 4 + al <= k <= s.len(),
        forall|i: int| p + 4 + al <= i < k ==> tgt_char(#[trigger] s[i]),
        k == s.len() || !tgt_char(s[k]),
    ensures
        k == p + 12 + al + bl + pl,
{
    let close = p + 12 + al + bl + pl;
    assert forall|i: int| p + 4 + al <= i < close implies tgt_char(#[trigger] s[i]) by {
        if i < p + 4 + al + bl {
        } else if i == p + 4 + al + bl {
            assert(s[i] == '-');
        } else if i < p + 5 + al + bl + pl {
        } else {
            assert(i - (p + 5 + al + bl + pl) < 7);
        }
    }
    if k > close {
        assert(tgt_char(s[close]));
        assert(s[close] == ')');
        assert(false);
    }
    if k < close {
        assert(k < s.len());
        assert(tgt_char(s[k]));
        assert(false);
    }
}

/// Pushing a sound match that begins where the scan stands keeps the scan
/// sound and complete.
proof fn lemma_scan_push(s: Seq<char>, pre: Seq<LinkMatch>, m: LinkMatch, i: int)
    requires
        matches_wf(s, pre),
        pre.len() > 0 ==> pre.last().end <= i,
        forall|p: int| 0 <= p < i && !covered(pre, p) ==> !(#[trigger] link_at(s, p)),
        m.start == i,
        match_wf(s, m),
    ensures
        matches_wf(s, pre.push(m)),
        m.start < m.end,
        m.end <= s.len(),
        forall|p: int| 0 <= p < m.end && !covered(pre.push(m), p) ==> !(#[trigger] link_at(s, p)),
{
    let ms = pre.push(m);
    assert(ms.last() == m);
    assert forall|k: int| 0 <= k < ms.len() implies match_wf(s, #[trigger] ms[k]) by {
        if k < pre.len() {
            assert(ms[k] == pre[k]);
        } else {
            assert(ms[k] == m);
        }
    }
    assert forall|k: int| 0 <= k && k + 1 < ms.len() implies (#[trigger] ms[k].end) <= ms[k + 1].start by {
        if k + 1 < pre.len() {
            assert(ms[k] == pre[k] && ms[k + 1] == pre[k + 1]);
        } else {
            assert(ms[k + 1] == m);
            assert(ms[k] == pre[k]);
            assert(pre[k] == pre.last());
        }
    }
    assert forall|p: int| 0 <= p < m.end && !covered(ms, p) implies !(#[trigger] link_at(s, p)) by {
        if p < i {
            if covered(pre, p) {
                let k = choose|k: int|
                    0 <= k < pre.len() && (#[trigger] pre[k]).start <= p < pre[k].end;
                assert(ms[k] == pre[k]);
                assert(covered(ms, p));
            }
        } else {
            assert(ms[ms.len() - 1] == m);
            assert(m.start <= p < m.end);
            assert(covered(ms, p));
        }
    }
}

/// Tries to read a diagram-embed link beginning exactly at position `p`;
/// `None` means no link begins there.
#[verifier::rlimit(60)]
fn try_link_at(content: &str, cs: &Vec<char>, p: usize) -> (r: Option<LinkMatch>)
    requires
        cs@ == content@,
        p < cs@.len(),
    ensures
        match r {
            Some(m) => m.start == p && match_wf(content@, m),
            None => !link_at(content@, p as int),
        },
{
    let ghost s = content@;
    let n = cs.len();
    if cs[p] != '!' || p + 1 >= n || cs[p + 1] != '[' {
        proof {
            if link_at(s, p as int) {
                let (al, bl, pl): (int, int, int) = choose|al: int, bl: int, pl: int|
                    link_shape_at(s, p as int, al, bl, pl);
                assert(s[p as int] == '!' && s[p + 1] == '[');
                assert(false);
            }
        }
        return None;
    }
    // Scan the alt text: it ends at the first character no alt text may hold.
    let mut q = p + 2;
    while q < n && cs[q] != ']' && cs[q] != '\n'
        invariant
            p + 2 <= q <= n,
            n == s.len(),
            cs@ == s,
            forall|i: int| p + 2 <= i < q ==> alt_char(#[trigger] s[i]),
        decreases n - q,
    {
        q += 1;
    }
    if q >= n || cs[q] != ']' {
        proof {
            if link_at(s, p as int) {
                let (al, bl, pl): (int, int, int) = choose|al: int, bl: int, pl: int|
                    link_shape_at(s, p as int, al, bl, pl);
                lemma_alt_end(s, p as int, q as int, al, bl, pl);
                assert(s[q as int] == ']');
                assert(false);
            }
        }
        return None;
    }
    if q + 1 >= n || cs[q + 1] != '(' {
        proof {
            if link_at(s, p as int) {
                let (al, bl, pl): (int, int, int) = choose|al: int, bl: int, pl: int|
                    link_shape_at(s, p as int, al, bl, pl);
                lemma_alt_end(s, p as int, q as int, al, bl, pl);
                assert(s[p + 3 + al] == '(');
                assert(false);
            }
        }
        return None;
    }
    // Scan the target: it ends at the first character no target may hold.
    let mut k = q + 2;
    while k < n && cs[k] != ')' && cs[k] != '\n'
        invariant
            q + 2 <= k <= n,
            n == s.len(),
            cs@ == s,
            forall|i: int| q + 2 <= i < k ==> tgt_char(#[trigger] s[i]),
        decreases n - k,
    {
        k += 1;
    }
    if k >= n || cs[k] != ')' {
        proof {
            if link_at(s, p as int) {
                let (al, bl, pl): (int, int, int) = choose|al: int, bl: int, pl: int|
                    link_shape_at(s, p as int, al, bl, pl);
                lemma_alt_end(s, p as int, q as int, al, bl, pl);
                lemma_target_end(s, p as int, k as int, al, bl, pl);
                assert(s[k as int] == ')');
                assert(false);
            }
        }
        return None;
    }
    // The target must be long enough for `-` and the extension.
    if k - (q + 2) < 8 {
        proof {
            if link_at(s, p as int) {
                let (al, bl, pl): (int, int, int) = choose|al: int, bl: int, pl: int|
                    link_shape_at(s, p as int, al, bl, pl);
                lemma_alt_end(s, p as int, q as int, al, bl, pl);
                lemma_target_end(s, p as int, k as int, al, bl, pl);
                assert(false);
            }
        }
        return None;
    }
    // The target must end with the diagram source extension.
    if cs[k - 7] != '.' || cs[k - 6] != 'd' || cs[k - 5] != 'r' || cs[k - 4] != 'a' || cs[k - 3]
        != 'w' || cs[k - 2] != 'i' || cs[k - 1] != 'o' {
        proof {
            if link_at(s, p as int) {
                let (al, bl, pl): (int, int, int) = choose|al: int, bl: int, pl: int|
                    link_shape_at(s, p as int, al, bl, pl);
                lemma_alt_end(s, p as int, q as int, al, bl, pl);
                lemma_target_end(s, p as int, k as int, al, bl, pl);
                assert(k - 7 == p + 5 + al + bl + pl);
                assert(false);
            }
        }
        return None;
    }
    // Find the last `-` before the extension.
    let mut j = k - 7;
    let mut h: usize = 0;
    let mut found = false;
    while j > q + 2 && !found
        invariant
            q + 2 <= j <= k - 7,
            k - 7 <= n,
            n == s.len(),
            cs@ == s,
            !found ==> forall|i: int| j <= i < k - 7 ==> s[i] != '-',
            found ==> q + 2 <= h < k - 7 && s[h as int] == '-' && (forall|i: int|
                h < i < k - 7 ==> s[i] != '-'),
        decreases j,
    {
        j -= 1;
        if cs[j] == '-' {
            found = true;
            h = j;
        }
    }
    if !found {
        proof {
            if link_at(s, p as int) {
                let (al, bl, pl): (int, int, int) = choose|al: int, bl: int, pl: int|
                    link_shape_at(s, p as int, al, bl, pl);
                lemma_alt_end(s, p as int, q as int, al, bl, pl);
                lemma_target_end(s, p as int, k as int, al, bl, pl);
                assert(s[p + 4 + al + bl] == '-');
                assert(q + 2 <= p + 4 + al + bl < k - 7);
                assert(false);
            }
        }
        return None;
    }
    let base = String::from_str(content.substring_char(q + 2, h));
    let page = String::from_str(content.substring_char(h + 1, k - 7));
    let m = LinkMatch { start: p, prefix_end: q + 1, end: k + 1, base, page };
    proof {
        let al = q - p - 2;
        let bl = h - q - 2;
        let pl = (k - 7) - (h + 1);
        assert(link_shape_at(s, p as int, al as int, bl as int, pl as int));
        assert(m.base@ == s.subrange(p + 4 + al, p + 4 + al + bl));
        assert(m.page@ == s.subrange(p + 5 + al + bl, p + 5 + al + bl + pl));
        assert(match_wf(s, m));
    }
    Some(m)
}

/// Scans a text body for diagram-embed links, left to right and without
/// overlap; the result lists every match in order, and no link begins
/// outside the returned spans.
pub fn scan_links(content: &str) -> (ms: Vec<LinkMatch>)
    ensures
        matches_wf(content@, ms@),
        matches_complete(content@, ms@),
{
    let ghost s = content@;
    let cs = chars_of(content);
    let n = cs.len();
    let mut ms: Vec<LinkMatch> = Vec::new();
    let mut i: usize = 0;
    while i < n
        invariant
            i <= n,
            s == content@,
            n == s.len(),
            cs@ == s,
            matches_wf(s, ms@),
            ms@.len() > 0 ==> ms@.last().end <= i,
            forall|p: int| 0 <= p < i && !covered(ms@, p) ==> !(#[trigger] link_at(s, p)),
        decreases n - i,
    {
        let r = try_link_at(content, &cs, i);
        match r {
            Some(m) => {
                let ghost pre = ms@;
                proof {
                    lemma_scan_push(s, pre, m, i as int);
                }
                let e = m.end;
                ms.push(m);
                proof {
                    assert(ms@ == pre.push(m));
                }
                i = e;
            },
            None => {
                proof {
                    assert forall|p: int| 0 <= p < i + 1 && !covered(ms@, p) implies !(
                    #[trigger] link_at(s, p)) by {
                        if p == i {
                            assert(!link_at(s, i as int));
                        }
                    }
                }
                i += 1;
            },
        }
    }
    ms
}

} // verus!
