//! The rewrite engine: splicing rendered diagram pages into a text unit.
//!
//! The engine walks the scanned matches of one text unit. For each match it
//! resolves the diagram source path and the cache key, asks the cache for
//! the page, and on a miss asks for one render of the whole diagram, whose
//! batch then populates the cache for every page produced. The filesystem
//! and the external renderer live outside the library, so the engine runs as
//! a state machine: each step returns the next request (`EngineAction`), and
//! the unverified shell answers it by calling the matching `on_` method with
//! what it observed. A match whose diagram is missing, whose render failed
//! or whose page the render did not produce is left in the text verbatim and
//! the engine continues with the next match; everything outside the matched
//! spans is preserved exactly.

use vstd::prelude::*;

use crate::cache::{
    CacheError, DrawIoCache, OpModel, get_model, key_of, put_model,
};
use crate::paths::{BookPath, PathModel, join_spec, parse_spec};
use crate::render::{extract_svg, extract_svg_spec, page_key_of_output, strip_prefix_spec};
use crate::rewrite::{gap_start, lemma_upto_snoc, spliced, splice_upto, verbatim_rep};
use crate::scanner::{LinkMatch, match_wf, matches_complete, matches_wf, out_ext, scan_links, src_ext};

verus! {

/// Where the engine stands: awaiting the answer to a probe, awaiting a
/// render, or done.
#[derive(Debug, Clone, Copy, PartialEq, Eq, Structural)]
pub enum EngineState {
    Probing,
    Rendering,
    Finished,
}

/// What the engine asks the shell to do next.
pub enum EngineAction {
    /// Stat the diagram source at `source` (does it exist, and its
    /// modification time), and read the cache file at `cache_file` if one
    /// exists (its modification time and content); answer with `on_probe`.
    Probe { source: BookPath, cache_file: BookPath },
    /// Run the external renderer on the diagram source at `source`; answer
    /// with `on_render`, handing over every output file's name and raw
    /// content.
    Render { source: BookPath },
    /// The text unit is fully rewritten.
    Done { output: String },
}

/// The file stem of a diagram base name: its last path segment.
pub open spec fn stem_of(base: Seq<char>) -> Seq<char> {
    let p = parse_spec(base);
    if p.segs.len() > 0 {
        p.segs.last()
    } else {
        Seq::empty()
    }
}

/// Whether the cache cannot key this match: its diagram identity is
/// absolute. Such a match can only stay verbatim.
pub open spec fn unkeyable(chapter_dir: PathModel, m: LinkMatch) -> bool {
    join_spec(chapter_dir, parse_spec(m.base@)).absolute
}

/// The cache after a render batch is drained into it: for every output file
/// holding a payload, the payload is stored under the diagram's identity and
/// the file's page key.
pub open spec fn batch_puts(
    m: Map<PathModel, (u64, Seq<char>)>,
    id: PathModel,
    stem: Seq<char>,
    batch: Seq<(String, String)>,
    now: u64,
) -> Map<PathModel, (u64, Seq<char>)>
    decreases batch.len(),
{
    if batch.len() == 0 {
        m
    } else {
        let m1 = batch_puts(m, id, stem, batch.drop_last(), now);
        match extract_svg_spec(batch.last().1@) {
            Option::None => m1,
            Option::Some(payload) => put_model(
                m1,
                key_of(id, strip_prefix_spec(stem, batch.last().0@)),
                now,
                payload,
            ),
        }
    }
}

/// The journal entries draining a render batch writes, in batch order.
pub open spec fn batch_ops(
    root: PathModel,
    id: PathModel,
    stem: Seq<char>,
    batch: Seq<(String, String)>,
    now: u64,
) -> Seq<OpModel>
    decreases batch.len(),
{
    if batch.len() == 0 {
        Seq::empty()
    } else {
        let pre = batch_ops(root, id, stem, batch.drop_last(), now);
        match extract_svg_spec(batch.last().1@) {
            Option::None => pre,
            Option::Some(payload) => pre.push(
                OpModel {
                    write: true,
                    path: join_spec(
                        join_spec(root, id),
                        parse_spec(strip_prefix_spec(stem, batch.last().0@)),
                    ),
                    content: payload,
                },
            ),
        }
    }
}

/// The rewrite engine for one text unit.
pub struct RewriteEngine {
    /// The original text.
    pub content: String,
    /// The directory the text unit's diagram references are relative to.
    pub chapter_dir: BookPath,
    /// The scanned matches, in order.
    pub matches: Vec<LinkMatch>,
    /// The next match to resolve.
    pub idx: usize,
    /// How far the original text has been consumed.
    pub cursor: usize,
    /// The output accumulated so far.
    pub output: String,
    pub state: EngineState,
    /// The diagram source's modification time, held between probe and
    /// render.
    pub pending_mtime: u64,
    /// How many matches were left verbatim because they could not be
    /// resolved.
    pub skipped: usize,
    /// What was spliced in for each processed match.
    pub reps: Ghost<Seq<Seq<char>>>,
}

impl RewriteEngine {
    /// The match the engine currently stands at.
    pub open spec fn cur(&self) -> LinkMatch {
        self.matches@[self.idx as int]
    }

    /// The diagram identity the cache is keyed by: the chapter directory
    /// joined with the base name, without the source extension.
    pub open spec fn diagram_id_model(&self) -> PathModel {
        join_spec(self.chapter_dir@, parse_spec(self.cur().base@))
    }

    /// The on-disk diagram source path: the identity with the source
    /// extension.
    pub open spec fn source_model(&self) -> PathModel {
        join_spec(self.chapter_dir@, parse_spec(self.cur().base@ + src_ext()))
    }

    /// The page key the current match asks for: the page name with the
    /// rendered-content extension.
    pub open spec fn desired_page(&self) -> Seq<char> {
        self.cur().page@ + out_ext()
    }

    /// Everything the engine's steps preserve.
    pub open spec fn wf(&self) -> bool {
        let s = self.content@;
        &&& matches_wf(s, self.matches@)
        &&& self.idx <= self.matches@.len()
        &&& self.reps@.len() == self.idx as int
        &&& self.skipped <= self.idx
        &&& match self.state {
            EngineState::Finished => self.idx == self.matches@.len() && self.output@ == spliced(
                s,
                self.matches@,
                self.reps@,
            ),
            _ => {
                &&& self.idx < self.matches@.len()
                &&& self.cursor == gap_start(self.matches@, self.idx as int)
                &&& self.cursor <= s.len()
                &&& self.output@ == splice_upto(
                    s,
                    self.matches@.take(self.idx as int),
                    self.reps@,
                )
                &&& !self.diagram_id_model().absolute
            },
        }
    }

    /// The engine between steps, before the next request is chosen.
    spec fn wf_mid(&self) -> bool {
        let s = self.content@;
        &&& matches_wf(s, self.matches@)
        &&& self.idx <= self.matches@.len()
        &&& self.reps@.len() == self.idx as int
        &&& self.skipped <= self.idx
        &&& self.cursor == gap_start(self.matches@, self.idx as int)
        &&& self.cursor <= s.len()
        &&& self.output@ == splice_upto(s, self.matches@.take(self.idx as int), self.reps@)
    }

    /// The returned action matches the engine's state: a probe or render
    /// for the current match with the right paths, or the finished output.
    pub open spec fn next_action_ok(&self, root: PathModel, a: EngineAction) -> bool {
        match a {
            EngineAction::Probe { source, cache_file } => {
                &&& self.state == EngineState::Probing
                &&& source@ == self.source_model()
                &&& cache_file@ == join_spec(
                    join_spec(root, self.diagram_id_model()),
                    parse_spec(self.desired_page()),
                )
            },
            EngineAction::Render { source } => self.state == EngineState::Rendering && source@
                == self.source_model(),
            EngineAction::Done { output } => self.state == EngineState::Finished && output@
                == spliced(self.content@, self.matches@, self.reps@),
        }
    }

    /// The current match received `rep` (`resolved` says whether that was
    /// rendered or cached content rather than the span itself), the engine
    /// moved on past it, only matches the cache cannot key were passed over
    /// verbatim, every unresolved match is counted in `skipped`, and the
    /// engine stands at the next match to probe or is finished.
    pub open spec fn advanced(
        pre: RewriteEngine,
        post: RewriteEngine,
        rep: Seq<char>,
        resolved: bool,
    ) -> bool {
        let s = pre.content@;
        &&& post.idx > pre.idx
        &&& post.idx <= pre.matches@.len()
        &&& post.reps@.len() == post.idx as int
        &&& post.reps@.take(pre.idx as int) == pre.reps@
        &&& post.reps@[pre.idx as int] == rep
        &&& forall|j: int|
            pre.idx < j < post.idx ==> (#[trigger] post.reps@[j]) == verbatim_rep(
                s,
                pre.matches@[j],
            ) && unkeyable(pre.chapter_dir@, pre.matches@[j])
        &&& post.skipped as int == pre.skipped as int + (post.idx as int - pre.idx as int) - (
        if resolved {
            1int
        } else {
            0int
        })
        &&& post.state == (if post.idx < pre.matches@.len() {
            EngineState::Probing
        } else {
            EngineState::Finished
        })
    }

    /// Copies the gap before the current match and the match itself into
    /// the output unchanged, and moves past the match.
    fn skip_current(&mut self)
        requires
            old(self).wf_mid(),
            old(self).idx < old(self).matches@.len(),
        ensures
            final(self).wf_mid(),
            final(self).content@ == old(self).content@,
            final(self).matches@ == old(self).matches@,
            final(self).chapter_dir@ == old(self).chapter_dir@,
            final(self).state == old(self).state,
            final(self).idx == old(self).idx + 1,
            final(self).skipped == old(self).skipped + 1,
            final(self).reps@ == old(self).reps@.push(
                verbatim_rep(old(self).content@, old(self).matches@[old(self).idx as int]),
            ),
    {
        let ghost s = self.content@;
        let m_start = self.matches[self.idx].start;
        let m_end = self.matches[self.idx].end;
        proof {
            assert(match_wf(s, self.matches@[self.idx as int]));
        }
        let gap = String::from_str(self.content.as_str().substring_char(self.cursor, m_start));
        let span = String::from_str(self.content.as_str().substring_char(m_start, m_end));
        self.output.append(gap.as_str());
        self.output.append(span.as_str());
        proof {
            lemma_upto_snoc(
                s,
                self.matches@,
                self.reps@,
                self.idx as int,
                verbatim_rep(s, self.matches@[self.idx as int]),
            );
        }
        self.reps = Ghost(self.reps@.push(verbatim_rep(s, self.matches@[self.idx as int])));
        self.cursor = m_end;
        let _match_count = self.matches.len();
        self.idx = self.idx + 1;
        self.skipped = self.skipped + 1;
        proof {
            assert(self.idx <= _match_count);
        }
    }

    /// Copies the gap before the current match, splices `rep` in place of
    /// the match, and moves past it.
    fn splice_current(&mut self, rep: &str)
        requires
            old(self).wf_mid(),
            old(self).idx < old(self).matches@.len(),
        ensures
            final(self).wf_mid(),
            final(self).content@ == old(self).content@,
            final(self).matches@ == old(self).matches@,
            final(self).chapter_dir@ == old(self).chapter_dir@,
            final(self).state == old(self).state,
            final(self).idx == old(self).idx + 1,
            final(self).skipped == old(self).skipped,
            final(self).reps@ == old(self).reps@.push(rep@),
    {
        let ghost s = self.content@;
        let m_start = self.matches[self.idx].start;
        let m_end = self.matches[self.idx].end;
        proof {
            assert(match_wf(s, self.matches@[self.idx as int]));
        }
        let gap = String::from_str(self.content.as_str().substring_char(self.cursor, m_start));
        self.output.append(gap.as_str());
        self.output.append(rep);
        proof {
            lemma_upto_snoc(s, self.matches@, self.reps@, self.idx as int, rep@);
        }
        self.reps = Ghost(self.reps@.push(rep@));
        self.cursor = m_end;
        let _match_count = self.matches.len();
        self.idx = self.idx + 1;
        proof {
            assert(self.idx <= _match_count);
        }
    }

    /// Composing one handled match with the sweep that follows it.
    proof fn lemma_advanced_compose(
        pre: RewriteEngine,
        mid: RewriteEngine,
        post: RewriteEngine,
        rep: Seq<char>,
        resolved: bool,
    )
        requires
            pre.reps@.len() == pre.idx as int,
            mid.idx == pre.idx + 1,
            mid.reps@ == pre.reps@.push(rep),
            mid.content@ == pre.content@,
            mid.matches@ == pre.matches@,
            mid.chapter_dir@ == pre.chapter_dir@,
            mid.skipped as int == pre.skipped as int + (if resolved {
                0int
            } else {
                1int
            }),
            post.idx >= mid.idx,
            post.idx <= mid.matches@.len(),
            post.reps@.len() == post.idx as int,
            post.reps@.take(mid.idx as int) == mid.reps@,
            forall|j: int|
                mid.idx <= j < post.idx ==> (#[trigger] post.reps@[j]) == verbatim_rep(
                    mid.content@,
                    mid.matches@[j],
                ) && unkeyable(mid.chapter_dir@, mid.matches@[j]),
            post.content@ == mid.content@,
            post.matches@ == mid.matches@,
            post.chapter_dir@ == mid.chapter_dir@,
            post.skipped as int == mid.skipped as int + (post.idx as int - mid.idx as int),
            post.state == (if post.idx < mid.matches@.len() {
                EngineState::Probing
            } else {
                EngineState::Finished
            }),
        ensures
            RewriteEngine::advanced(pre, post, rep, resolved),
    {
        assert(post.reps@.take(pre.idx as int) =~= mid.reps@.take(pre.idx as int));
        assert(mid.reps@.take(pre.idx as int) =~= pre.reps@);
        assert(post.reps@[pre.idx as int] == post.reps@.take(mid.idx as int)[pre.idx as int]);
    }

    /// Emits the probe for the current match, which must be keyable.
    #[verifier::spinoff_prover]
    #[verifier::rlimit(100)]
    fn make_probe(&mut self, cache: &DrawIoCache) -> (a: EngineAction)
        requires
            old(self).wf_mid(),
            old(self).idx < old(self).matches@.len(),
            !old(self).diagram_id_model().absolute,
        ensures
            final(self).wf(),
            final(self).state == EngineState::Probing,
            final(self).content@ == old(self).content@,
            final(self).matches@ == old(self).matches@,
            final(self).chapter_dir@ == old(self).chapter_dir@,
            final(self).idx == old(self).idx,
            final(self).cursor == old(self).cursor,
            final(self).output@ == old(self).output@,
            final(self).reps@ == old(self).reps@,
            final(self).skipped == old(self).skipped,
            final(self).next_action_ok(cache.spec_root(), a),
    {
        let base_path = BookPath::parse(self.matches[self.idx].base.as_str());
        let id = self.chapter_dir.join(&base_path);
        let src_name = self.matches[self.idx].base.clone().concat(".drawio");
        let source = self.chapter_dir.join(&BookPath::parse(src_name.as_str()));
        let desired = self.matches[self.idx].page.clone().concat(".svg");
        proof {
            reveal_strlit(".drawio");
            reveal_strlit(".svg");
            assert(".drawio"@ =~= src_ext());
            assert(".svg"@ =~= out_ext());
            assert(id@ == self.diagram_id_model());
            assert(source@ == self.source_model());
            assert(desired@ == self.desired_page());
        }
        let cpath = cache.get_diagram_cache_path(&id, desired.as_str());
        match cpath {
            Ok(cache_file) => {
                self.state = EngineState::Probing;
                EngineAction::Probe { source, cache_file }
            },
            Err(_) => {
                // Unreachable: the identity was checked to be relative.
                proof {
                    assert(false);
                }
                self.state = EngineState::Probing;
                EngineAction::Render { source }
            },
        }
    }

    /// Copies the text after the last match and closes the rewrite.
    #[verifier::spinoff_prover]
    #[verifier::rlimit(100)]
    fn finish(&mut self) -> (a: EngineAction)
        requires
            old(self).wf_mid(),
            old(self).idx == old(self).matches@.len(),
        ensures
            final(self).wf(),
            final(self).state == EngineState::Finished,
            final(self).content@ == old(self).content@,
            final(self).matches@ == old(self).matches@,
            final(self).chapter_dir@ == old(self).chapter_dir@,
            final(self).idx == old(self).idx,
            final(self).reps@ == old(self).reps@,
            final(self).skipped == old(self).skipped,
            match a {
                EngineAction::Done { output } => output@ == spliced(
                    old(self).content@,
                    old(self).matches@,
                    old(self).reps@,
                ),
                _ => false,
            },
    {
        let ghost s = self.content@;
        let n = self.content.as_str().unicode_len();
        let tail = String::from_str(self.content.as_str().substring_char(self.cursor, n));
        self.output.append(tail.as_str());
        self.state = EngineState::Finished;
        proof {
            assert(self.matches@.take(self.matches@.len() as int) =~= self.matches@);
            assert(self.output@ == spliced(s, self.matches@, self.reps@));
        }
        let out = self.output.clone();
        EngineAction::Done { output: out }
    }

    /// Moves to the next match the cache can key (leaving the others
    /// verbatim) and returns the probe for it, or finishes the output.
    #[verifier::spinoff_prover]
    #[verifier::rlimit(100)]
    fn advance(&mut self, cache: &DrawIoCache) -> (a: EngineAction)
        requires
            old(self).wf_mid(),
        ensures
            final(self).wf(),
            final(self).content@ == old(self).content@,
            final(self).matches@ == old(self).matches@,
            final(self).chapter_dir@ == old(self).chapter_dir@,
            final(self).idx >= old(self).idx,
            final(self).idx <= final(self).matches@.len(),
            final(self).reps@.len() == final(self).idx as int,
            final(self).reps@.take(old(self).idx as int) == old(self).reps@,
            forall|j: int|
                old(self).idx <= j < final(self).idx ==> (#[trigger] final(self).reps@[j])
                    == verbatim_rep(old(self).content@, old(self).matches@[j]) && unkeyable(
                    old(self).chapter_dir@,
                    old(self).matches@[j],
                ),
            final(self).skipped as int == old(self).skipped as int + (final(self).idx as int - old(
                self,
            ).idx as int),
            final(self).state == (if final(self).idx < final(self).matches@.len() {
                EngineState::Probing
            } else {
                EngineState::Finished
            }),
            final(self).next_action_ok(cache.spec_root(), a),
    {
        let ghost s = self.content@;
        let ghost idx0 = self.idx;
        let ghost reps0 = self.reps@;
        while self.idx < self.matches.len()
            invariant
                self.wf_mid(),
                s == self.content@,
                self.content@ == old(self).content@,
                self.matches@ == old(self).matches@,
                self.chapter_dir@ == old(self).chapter_dir@,
                idx0 == old(self).idx,
                reps0 == old(self).reps@,
                self.idx >= idx0,
                self.reps@.take(idx0 as int) == reps0,
                self.skipped as int == old(self).skipped as int + (self.idx as int - idx0 as int),
                forall|j: int|
                    idx0 <= j < self.idx ==> (#[trigger] self.reps@[j]) == verbatim_rep(
                        s,
                        self.matches@[j],
                    ) && unkeyable(self.chapter_dir@, self.matches@[j]),
            decreases self.matches@.len() - self.idx,
        {
            let base_path = BookPath::parse(self.matches[self.idx].base.as_str());
            let id = self.chapter_dir.join(&base_path);
            if !id.is_absolute() {
                proof {
                    assert(id@ == self.diagram_id_model());
                }
                let a = self.make_probe(cache);
                return a;
            }
            // The cache cannot key an absolute diagram path: the match
            // stays verbatim.
            proof {
                assert(id@ == join_spec(self.chapter_dir@, parse_spec(self.cur().base@)));
                assert(unkeyable(self.chapter_dir@, self.matches@[self.idx as int]));
            }
            let ghost pre = self.reps@;
            self.skip_current();
            proof {
                assert(self.reps@.take(idx0 as int) =~= pre.take(idx0 as int));
            }
        }
        self.finish()
    }

    /// Scans `content` and starts the rewrite of one text unit whose
    /// diagram references resolve relative to `chapter_dir`; returns the
    /// engine and its first request.
    pub fn new(chapter_dir: BookPath, content: &str, cache: &DrawIoCache) -> (r: (
        RewriteEngine,
        EngineAction,
    ))
        ensures
            r.0.wf(),
            r.0.content@ == content@,
            r.0.chapter_dir@ == chapter_dir@,
            matches_complete(content@, r.0.matches@),
            forall|j: int|
                0 <= j < r.0.idx ==> (#[trigger] r.0.reps@[j]) == verbatim_rep(
                    content@,
                    r.0.matches@[j],
                ) && unkeyable(chapter_dir@, r.0.matches@[j]),
            r.0.skipped == r.0.idx,
            r.0.state == (if r.0.idx < r.0.matches@.len() {
                EngineState::Probing
            } else {
                EngineState::Finished
            }),
            r.0.next_action_ok(cache.spec_root(), r.1),
    {
        let ms = scan_links(content);
        let mut e = RewriteEngine {
            content: String::from_str(content),
            chapter_dir,
            matches: ms,
            idx: 0,
            cursor: 0,
            output: String::new(),
            state: EngineState::Probing,
            pending_mtime: 0,
            skipped: 0,
            reps: Ghost(Seq::empty()),
        };
        proof {
            assert(e.matches@.take(0) =~= Seq::<LinkMatch>::empty());
            assert(e.output@ =~= splice_upto(e.content@, e.matches@.take(0), e.reps@));
            assert(e.wf_mid());
        }
        let a = e.advance(cache);
        proof {
            assert(e.reps@.take(0) =~= Seq::<Seq<char>>::empty());
        }
        (e, a)
    }

    /// Answers a probe: whether the diagram source exists and its
    /// modification time, and whether the cache file exists on disk, with
    /// its modification time and content. A missing source leaves the match
    /// verbatim; a live cache entry is spliced; a miss asks for a render.
    #[verifier::spinoff_prover]
    #[verifier::rlimit(100)]
    pub fn on_probe(
        &mut self,
        cache: &mut DrawIoCache,
        source_exists: bool,
        source_mtime: u64,
        cache_found: bool,
        cache_mtime: u64,
        cache_content: &str,
    ) -> (a: EngineAction)
        requires
            old(self).wf(),
            old(self).state == EngineState::Probing,
            old(cache).wf(),
        ensures
            final(self).wf(),
            final(cache).wf(),
            final(cache).spec_root() == old(cache).spec_root(),
            final(self).content@ == old(self).content@,
            final(self).matches@ == old(self).matches@,
            final(self).chapter_dir@ == old(self).chapter_dir@,
            final(self).next_action_ok(final(cache).spec_root(), a),
            ({
                let s = old(self).content@;
                let m = old(self).matches@[old(self).idx as int];
                let key = key_of(old(self).diagram_id_model(), old(self).desired_page());
                if !source_exists {
                    &&& final(cache)@ == old(cache)@
                    &&& final(cache).spec_journal() == old(cache).spec_journal()
                    &&& RewriteEngine::advanced(
                        *old(self),
                        *final(self),
                        verbatim_rep(s, m),
                        false,
                    )
                } else {
                    let m1 = if cache_found && !old(cache)@.contains_key(key) {
                        put_model(old(cache)@, key, cache_mtime, cache_content@)
                    } else {
                        old(cache)@
                    };
                    let after = get_model(m1, key, source_mtime);
                    &&& final(cache)@ == after.0
                    &&& (if m1.contains_key(key) && source_mtime > m1[key].0 {
                        final(cache).spec_journal() == old(cache).spec_journal().push(
                            OpModel {
                                write: false,
                                path: join_spec(
                                    join_spec(
                                        old(cache).spec_root(),
                                        old(self).diagram_id_model(),
                                    ),
                                    parse_spec(old(self).desired_page()),
                                ),
                                content: Seq::<char>::empty(),
                            },
                        )
                    } else {
                        final(cache).spec_journal() == old(cache).spec_journal()
                    })
                    &&& match after.1 {
                        Option::Some(c) => RewriteEngine::advanced(
                            *old(self),
                            *final(self),
                            c,
                            true,
                        ),
                        Option::None => {
                            &&& final(self).state == EngineState::Rendering
                            &&& final(self).idx == old(self).idx
                            &&& final(self).reps@ == old(self).reps@
                            &&& final(self).pending_mtime == source_mtime
                            &&& final(self).skipped == old(self).skipped
                        },
                    }
                }
            }),
    {
        if !source_exists {
            // The referenced diagram is not on disk: leave the match as it
            // stands and carry on. No render is attempted.
            let ghost rep = verbatim_rep(self.content@, self.matches@[self.idx as int]);
            self.skip_current();
            let ghost mid = *self;
            let a = self.advance(cache);
            proof {
                RewriteEngine::lemma_advanced_compose(*old(self), mid, *self, rep, false);
            }
            return a;
        }
        let base_path = BookPath::parse(self.matches[self.idx].base.as_str());
        let id = self.chapter_dir.join(&base_path);
        let desired = self.matches[self.idx].page.clone().concat(".svg");
        proof {
            reveal_strlit(".svg");
            assert(".svg"@ =~= out_ext());
            assert(id@ == self.diagram_id_model());
            assert(desired@ == self.desired_page());
        }
        if cache_found {
            cache.load_entry(&id, desired.as_str(), cache_mtime, cache_content);
        }
        let got = cache.get_diagram(&id, desired.as_str(), source_mtime);
        match got {
            Ok(c) => {
                self.splice_current(c.as_str());
                let ghost mid = *self;
                let a = self.advance(cache);
                proof {
                    RewriteEngine::lemma_advanced_compose(*old(self), mid, *self, c@, true);
                }
                a
            },
            Err(CacheError::Miss) => {
                self.state = EngineState::Rendering;
                self.pending_mtime = source_mtime;
                let src_name = self.matches[self.idx].base.clone().concat(".drawio");
                let source = self.chapter_dir.join(&BookPath::parse(src_name.as_str()));
                proof {
                    reveal_strlit(".drawio");
                    assert(".drawio"@ =~= src_ext());
                    assert(source@ == self.source_model());
                }
                EngineAction::Render { source }
            },
            Err(CacheError::InvalidPath) => {
                // Unreachable: the key was rejected as absolute, but only
                // relative identities reach a probe.
                proof {
                    assert(false);
                }
                let ghost rep = verbatim_rep(self.content@, self.matches@[self.idx as int]);
                self.skip_current();
                let ghost mid = *self;
                let a = self.advance(cache);
                proof {
                    RewriteEngine::lemma_advanced_compose(*old(self), mid, *self, rep, false);
                }
                a
            },
        }
    }

    /// Drains one render batch into the cache: every output file holding a
    /// payload is stored under the diagram identity and its page key, and
    /// each write is journalled.
    #[verifier::spinoff_prover]
    #[verifier::rlimit(100)]
    fn drain_batch(
        cache: &mut DrawIoCache,
        id: &BookPath,
        stem: &String,
        batch: &Vec<(String, String)>,
        now: u64,
    )
        requires
            old(cache).wf(),
            !id@.absolute,
        ensures
            final(cache).wf(),
            final(cache).spec_root() == old(cache).spec_root(),
            final(cache)@ == batch_puts(old(cache)@, id@, stem@, batch@, now),
            final(cache).spec_journal() == old(cache).spec_journal() + batch_ops(
                old(cache).spec_root(),
                id@,
                stem@,
                batch@,
                now,
            ),
    {
        let ghost root0 = cache.spec_root();
        let ghost j0 = cache.spec_journal();
        let ghost m0 = cache@;
        let ghost idm = id@;
        let ghost stemm = stem@;
        let mut i: usize = 0;
        proof {
            assert(batch@.take(0) =~= Seq::<(String, String)>::empty());
            assert(cache.spec_journal() =~= j0 + batch_ops(root0, idm, stemm, batch@.take(0), now));
        }
        while i < batch.len()
            invariant
                i <= batch@.len(),
                cache.wf(),
                cache.spec_root() == root0,
                !idm.absolute,
                id@ == idm,
                stem@ == stemm,
                cache@ == batch_puts(m0, idm, stemm, batch@.take(i as int), now),
                cache.spec_journal() == j0 + batch_ops(
                    root0,
                    idm,
                    stemm,
                    batch@.take(i as int),
                    now,
                ),
            decreases batch@.len() - i,
        {
            let fname = &batch[i].0;
            let raw = &batch[i].1;
            match extract_svg(raw.as_str()) {
                Some(payload) => {
                    let pkey = page_key_of_output(stem.as_str(), fname.as_str());
                    let res = cache.add_diagram(id, pkey.as_str(), payload.as_str(), now);
                    proof {
                        assert(res is Ok);
                    }
                },
                None => {},
            }
            proof {
                assert(batch@.take(i + 1).drop_last() =~= batch@.take(i as int));
                assert(batch@.take(i + 1).last() == batch@[i as int]);
                assert(cache@ == batch_puts(m0, idm, stemm, batch@.take(i + 1), now));
                assert(cache.spec_journal() =~= j0 + batch_ops(
                    root0,
                    idm,
                    stemm,
                    batch@.take(i + 1),
                    now,
                ));
            }
            i += 1;
        }
        proof {
            assert(batch@.take(batch@.len() as int) =~= batch@);
        }
    }

    /// Answers a render: whether the external tool succeeded, and every
    /// output file's name and raw content. The batch populates the cache
    /// for all pages it holds; the desired page is then spliced, or the
    /// match left verbatim when the render failed or the diagram has no
    /// such page.
    #[verifier::spinoff_prover]
    #[verifier::rlimit(100)]
    pub fn on_render(
        &mut self,
        cache: &mut DrawIoCache,
        ok: bool,
        batch: &Vec<(String, String)>,
        now: u64,
    ) -> (a: EngineAction)
        requires
            old(self).wf(),
            old(self).state == EngineState::Rendering,
            old(cache).wf(),
        ensures
            final(self).wf(),
            final(cache).wf(),
            final(cache).spec_root() == old(cache).spec_root(),
            final(self).content@ == old(self).content@,
            final(self).matches@ == old(self).matches@,
            final(self).chapter_dir@ == old(self).chapter_dir@,
            final(self).next_action_ok(final(cache).spec_root(), a),
            ({
                let s = old(self).content@;
                let m = old(self).matches@[old(self).idx as int];
                let id = old(self).diagram_id_model();
                let key = key_of(id, old(self).desired_page());
                let stem = stem_of(m.base@);
                if !ok {
                    &&& final(cache)@ == old(cache)@
                    &&& final(cache).spec_journal() == old(cache).spec_journal()
                    &&& RewriteEngine::advanced(
                        *old(self),
                        *final(self),
                        verbatim_rep(s, m),
                        false,
                    )
                } else {
                    let m2 = batch_puts(old(cache)@, id, stem, batch@, now);
                    let after = get_model(m2, key, old(self).pending_mtime);
                    &&& final(cache)@ == after.0
                    &&& (if m2.contains_key(key) && old(self).pending_mtime > m2[key].0 {
                        final(cache).spec_journal() == (old(cache).spec_journal() + batch_ops(
                            old(cache).spec_root(),
                            id,
                            stem,
                            batch@,
                            now,
                        )).push(
                            OpModel {
                                write: false,
                                path: join_spec(
                                    join_spec(old(cache).spec_root(), id),
                                    parse_spec(old(self).desired_page()),
                                ),
                                content: Seq::<char>::empty(),
                            },
                        )
                    } else {
                        final(cache).spec_journal() == old(cache).spec_journal() + batch_ops(
                            old(cache).spec_root(),
                            id,
                            stem,
                            batch@,
                            now,
                        )
                    })
                    &&& match after.1 {
                        Option::Some(c) => RewriteEngine::advanced(
                            *old(self),
                            *final(self),
                            c,
                            true,
                        ),
                        Option::None => RewriteEngine::advanced(
                            *old(self),
                            *final(self),
                            verbatim_rep(s, m),
                            false,
                        ),
                    }
                }
            }),
    {
        if !ok {
            // The external renderer failed: the failure is reported through
            // the skip count and the match stays verbatim, so one broken
            // diagram does not abort the text unit.
            let ghost rep = verbatim_rep(self.content@, self.matches@[self.idx as int]);
            self.skip_current();
            let ghost mid = *self;
            let a = self.advance(cache);
            proof {
                RewriteEngine::lemma_advanced_compose(*old(self), mid, *self, rep, false);
            }
            return a;
        }
        let base_path = BookPath::parse(self.matches[self.idx].base.as_str());
        let id = self.chapter_dir.join(&base_path);
        let desired = self.matches[self.idx].page.clone().concat(".svg");
        let stem: String = if base_path.seg_count() > 0 {
            base_path.seg_at(base_path.seg_count() - 1).clone()
        } else {
            String::new()
        };
        proof {
            reveal_strlit(".svg");
            assert(".svg"@ =~= out_ext());
            assert(id@ == self.diagram_id_model());
            assert(desired@ == self.desired_page());
            assert(stem@ == stem_of(self.cur().base@));
        }
        RewriteEngine::drain_batch(cache, &id, &stem, batch, now);
        let got = cache.get_diagram(&id, desired.as_str(), self.pending_mtime);
        match got {
            Ok(c) => {
                self.splice_current(c.as_str());
                let ghost mid = *self;
                let a = self.advance(cache);
                proof {
                    RewriteEngine::lemma_advanced_compose(*old(self), mid, *self, c@, true);
                }
                a
            },
            Err(_) => {
                // The diagram did not produce the requested page: a broken
                // reference. The match stays verbatim and the engine
                // continues.
                let ghost rep = verbatim_rep(self.content@, self.matches@[self.idx as int]);
                self.skip_current();
                let ghost mid = *self;
                let a = self.advance(cache);
                proof {
                    RewriteEngine::lemma_advanced_compose(*old(self), mid, *self, rep, false);
                }
                a
            },
        }
    }

    /// How many matches were left verbatim because their diagram was
    /// missing, could not be keyed, failed to render or lacked the page.
    pub fn skipped_count(&self) -> (r: usize)
        ensures
            r == self.skipped,
    {
        self.skipped
    }
}

} // verus!
