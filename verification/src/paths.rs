//! Pure path arithmetic on a model of slash-separated paths.
//!
//! A `BookPath` holds a path in canonical (cleaned) form: a flag saying
//! whether the path is absolute, and its segments with every empty and `.`
//! segment dropped and every `..` collapsed into the segment before it, so
//! that the same location is always written the same way. All operations
//! are pure: nothing here touches a filesystem.

use vstd::prelude::*;

verus! {

/// The mathematical value of a `BookPath`: an absolute flag and the
/// sequence of segments, each a sequence of characters.
#[verifier::ext_equal]
pub struct PathModel {
    pub absolute: bool,
    pub segs: Seq<Seq<char>>,
}

pub open spec fn dot() -> Seq<char> {
    seq!['.']
}

pub open spec fn dotdot() -> Seq<char> {
    seq!['.', '.']
}

/// Splitting a string at every `/`, keeping empty pieces.
pub open spec fn split_slash(s: Seq<char>) -> Seq<Seq<char>>
    decreases s.len(),
{
    if s.len() == 0 {
        seq![Seq::<char>::empty()]
    } else if s.last() == '/' {
        split_slash(s.drop_last()).push(Seq::<char>::empty())
    } else {
        let r = split_slash(s.drop_last());
        r.update(r.len() - 1, r.last().push(s.last()))
    }
}

/// One step of path cleaning: how one raw segment changes the cleaned
/// segments accumulated so far. Empty and `.` segments vanish; `..` removes
/// the segment before it where one exists, is dropped at the root of an
/// absolute path, and is kept at the head of a relative path.
pub open spec fn clean_push(acc: Seq<Seq<char>>, seg: Seq<char>, absolute: bool) -> Seq<Seq<char>> {
    if seg.len() == 0 || seg == dot() {
        acc
    } else if seg == dotdot() {
        if acc.len() > 0 && acc.last() != dotdot() {
            acc.drop_last()
        } else if absolute {
            acc
        } else {
            acc.push(dotdot())
        }
    } else {
        acc.push(seg)
    }
}

/// Cleaning a sequence of raw segments onto an already-cleaned prefix.
pub open spec fn clean_from(acc: Seq<Seq<char>>, raw: Seq<Seq<char>>, absolute: bool) -> Seq<
    Seq<char>,
>
    decreases raw.len(),
{
    if raw.len() == 0 {
        acc
    } else {
        clean_push(clean_from(acc, raw.drop_last(), absolute), raw.last(), absolute)
    }
}

/// One canonical segment: non-empty and not `.`.
pub open spec fn seg_wf(seg: Seq<char>) -> bool {
    seg.len() > 0 && seg != dot()
}

/// Canonical-form segments: every segment is canonical, `..` segments form
/// a prefix, and an absolute path holds none at all.
pub open spec fn segs_wf(absolute: bool, segs: Seq<Seq<char>>) -> bool {
    &&& (forall|i: int| 0 <= i < segs.len() ==> seg_wf(#[trigger] segs[i]))
    &&& (forall|i: int|
        0 <= i < segs.len() && (#[trigger] segs[i]) == dotdot() ==> !absolute && (forall|j: int|
            0 <= j < i ==> segs[j] == dotdot()))
}

/// A path in canonical form.
pub open spec fn path_wf(p: PathModel) -> bool {
    segs_wf(p.absolute, p.segs)
}

/// Cleaning onto canonical segments yields canonical segments.
pub proof fn lemma_clean_wf(acc: Seq<Seq<char>>, raw: Seq<Seq<char>>, absolute: bool)
    requires
        segs_wf(absolute, acc),
    ensures
        segs_wf(absolute, clean_from(acc, raw, absolute)),
    decreases raw.len(),
{
    if raw.len() > 0 {
        lemma_clean_wf(acc, raw.drop_last(), absolute);
        let pre = clean_from(acc, raw.drop_last(), absolute);
        let seg = raw.last();
        let out = clean_push(pre, seg, absolute);
        if seg.len() == 0 || seg == dot() {
        } else if seg == dotdot() {
            if pre.len() > 0 && pre.last() != dotdot() {
                assert forall|i: int| 0 <= i < out.len() implies seg_wf(#[trigger] out[i]) by {
                    assert(out[i] == pre[i]);
                }
                assert forall|i: int|
                    0 <= i < out.len() && (#[trigger] out[i]) == dotdot() implies !absolute && (
                forall|j: int| 0 <= j < i ==> out[j] == dotdot()) by {
                    assert(out[i] == pre[i]);
                    assert forall|j: int| 0 <= j < i implies out[j] == dotdot() by {
                        assert(out[j] == pre[j]);
                    }
                }
            } else if absolute {
            } else {
                assert forall|i: int| 0 <= i < out.len() implies seg_wf(#[trigger] out[i]) by {
                    if i < pre.len() {
                        assert(out[i] == pre[i]);
                    } else {
                        assert(out[i] == dotdot());
                    }
                }
                assert forall|i: int|
                    0 <= i < out.len() && (#[trigger] out[i]) == dotdot() implies !absolute && (
                forall|j: int| 0 <= j < i ==> out[j] == dotdot()) by {
                    assert forall|j: int| 0 <= j < i implies out[j] == dotdot() by {
                        if j < pre.len() {
                            assert(out[j] == pre[j]);
                            // every stored segment is `..`, since the last
                            // one is
                            assert(pre[pre.len() - 1] == dotdot());
                            if j < pre.len() - 1 {
                                assert(pre[j] == dotdot());
                            }
                        } else {
                            assert(out[j] == dotdot());
                        }
                    }
                }
            }
        } else {
            assert forall|i: int| 0 <= i < out.len() implies seg_wf(#[trigger] out[i]) by {
                if i < pre.len() {
                    assert(out[i] == pre[i]);
                }
            }
            assert forall|i: int|
                0 <= i < out.len() && (#[trigger] out[i]) == dotdot() implies !absolute && (forall|
                j: int,
            |
                0 <= j < i ==> out[j] == dotdot()) by {
                assert(out[i] == pre[i]);
                assert forall|j: int| 0 <= j < i implies out[j] == dotdot() by {
                    assert(out[j] == pre[j]);
                }
            }
        }
    }
}

/// Parsed paths are canonical.
pub proof fn lemma_parse_wf(s: Seq<char>)
    ensures
        path_wf(parse_spec(s)),
{
    let absolute = s.len() > 0 && s[0] == '/';
    lemma_clean_wf(Seq::empty(), split_slash(s), absolute);
}

/// Joining keeps canonical form.
pub proof fn lemma_join_wf(a: PathModel, b: PathModel)
    requires
        path_wf(a),
        path_wf(b),
    ensures
        path_wf(join_spec(a, b)),
{
    if !b.absolute {
        lemma_clean_wf(a.segs, b.segs, a.absolute);
    }
}

/// The model of the path written `s`: split at `/`, then cleaned.
pub open spec fn parse_spec(s: Seq<char>) -> PathModel {
    let absolute = s.len() > 0 && s[0] == '/';
    PathModel { absolute, segs: clean_from(Seq::empty(), split_slash(s), absolute) }
}

/// Joining `b` onto `a`: an absolute `b` stands alone, a relative `b` has
/// its segments cleaned onto `a`'s.
pub open spec fn join_spec(a: PathModel, b: PathModel) -> PathModel {
    if b.absolute {
        b
    } else {
        PathModel { absolute: a.absolute, segs: clean_from(a.segs, b.segs, a.absolute) }
    }
}

/// The directory containing the path: the path without its last segment.
pub open spec fn parent_spec(p: PathModel) -> PathModel {
    if p.segs.len() > 0 {
        PathModel { absolute: p.absolute, segs: p.segs.drop_last() }
    } else {
        p
    }
}

/// Length of the longest common prefix of two segment sequences.
pub open spec fn common_len(a: Seq<Seq<char>>, b: Seq<Seq<char>>) -> int
    decreases a.len(),
{
    if a.len() == 0 || b.len() == 0 || a[0] != b[0] {
        0
    } else {
        1 + common_len(a.drop_first(), b.drop_first())
    }
}

/// The segments of the relative path leading from `start` to `path`: one
/// `..` for each segment of `start` past the common prefix, then the
/// segments of `path` past it.
pub open spec fn relative_segs(path: Seq<Seq<char>>, start: Seq<Seq<char>>) -> Seq<Seq<char>> {
    let c = common_len(path, start);
    Seq::new((start.len() - c) as nat, |i: int| dotdot()) + path.skip(c)
}

/// The string a path prints as: segments joined by `/`, a leading `/` when
/// absolute, and `.` for an empty relative path.
pub open spec fn segs_str(segs: Seq<Seq<char>>) -> Seq<char>
    decreases segs.len(),
{
    if segs.len() == 0 {
        Seq::empty()
    } else if segs.len() == 1 {
        segs[0]
    } else {
        segs_str(segs.drop_last()) + seq!['/'] + segs.last()
    }
}

pub open spec fn path_str(p: PathModel) -> Seq<char> {
    if p.absolute {
        seq!['/'] + segs_str(p.segs)
    } else if p.segs.len() == 0 {
        dot()
    } else {
        segs_str(p.segs)
    }
}

/// Errors of the pure path operations.
#[derive(Debug, PartialEq, Eq, Structural, Clone, Copy)]
pub enum PathError {
    /// The operation was handed paths it cannot relate or a path of a form
    /// it rejects.
    InvalidPath,
}

/// A slash-separated path in canonical form.
#[derive(Debug)]
pub struct BookPath {
    absolute: bool,
    segs: Vec<String>,
}

impl View for BookPath {
    type V = PathModel;

    closed spec fn view(&self) -> PathModel {
        PathModel { absolute: self.absolute, segs: self.segs.deep_view() }
    }
}

impl PartialEq for BookPath {
    fn eq(&self, other: &BookPath) -> (r: bool) {
        if self.absolute != other.absolute || self.segs.len() != other.segs.len() {
            proof {
                if self@ == other@ {
                    assert(self@.segs.len() == other@.segs.len());
                }
            }
            return false;
        }
        let n = self.segs.len();
        let mut i: usize = 0;
        while i < n
            invariant
                i <= n,
                n == self.segs.len(),
                n == other.segs.len(),
                self.absolute == other.absolute,
                forall|j: int| 0 <= j < i ==> self.segs.deep_view()[j] == other.segs.deep_view()[j],
            decreases n - i,
        {
            if self.segs[i] != other.segs[i] {
                proof {
                    if self@ == other@ {
                        assert(self@.segs[i as int] == other@.segs[i as int]);
                    }
                }
                return false;
            }
            i += 1;
        }
        proof {
            assert(self@.segs =~= other@.segs);
            assert(self@ =~= other@);
        }
        true
    }
}

impl vstd::std_specs::cmp::PartialEqSpecImpl for BookPath {
    open spec fn obeys_eq_spec() -> bool {
        true
    }

    open spec fn eq_spec(&self, other: &BookPath) -> bool {
        self@ == other@
    }
}

impl Eq for BookPath {

}

/// True exactly when the string holds `..`.
fn str_is_dotdot(s: &str) -> (r: bool)
    ensures
        r == (s@ == dotdot()),
{
    let n = s.unicode_len();
    if n == 2 && s.get_char(0) == '.' && s.get_char(1) == '.' {
        proof {
            assert(s@ =~= dotdot());
        }
        true
    } else {
        proof {
            if s@ == dotdot() {
                assert(s@.len() == 2);
                assert(s@[0] == '.' && s@[1] == '.');
            }
        }
        false
    }
}

/// Appends one raw segment to a cleaned segment vector, as `clean_push`
/// describes.
fn clean_push_exec(acc: &mut Vec<String>, seg: &str, absolute: bool)
    ensures
        final(acc).deep_view() == clean_push(old(acc).deep_view(), seg@, absolute),
{
    let n = seg.unicode_len();
    if n == 0 {
        return ;
    }
    let c0 = seg.get_char(0);
    if n == 1 && c0 == '.' {
        proof {
            assert(seg@ =~= dot());
        }
        return ;
    }
    if n == 2 && c0 == '.' && seg.get_char(1) == '.' {
        proof {
            assert(seg@ =~= dotdot());
        }
        if acc.len() > 0 {
            let last_dd = str_is_dotdot(acc[acc.len() - 1].as_str());
            proof {
                assert(acc.deep_view().last() == acc@[acc@.len() - 1]@);
            }
            if !last_dd {
                acc.pop();
                proof {
                    assert(acc.deep_view() =~= old(acc).deep_view().drop_last());
                }
                return ;
            }
        }
        if absolute {
            return ;
        }
        let dd = String::from_str("..");
        proof {
            reveal_strlit("..");
            assert(dd@ =~= dotdot());
        }
        acc.push(dd);
        proof {
            assert(acc.deep_view() =~= old(acc).deep_view().push(dotdot()));
        }
        return ;
    }
    proof {
        if seg@ == dot() {
            assert(seg@.len() == 1 && seg@[0] == '.');
        }
        if seg@ == dotdot() {
            assert(seg@.len() == 2 && seg@[0] == '.' && seg@[1] == '.');
        }
    }
    let owned = String::from_str(seg);
    acc.push(owned);
    proof {
        assert(acc.deep_view() =~= old(acc).deep_view().push(seg@));
    }
}

impl BookPath {
    /// The canonical form of the path written `s`.
    pub fn parse(s: &str) -> (p: BookPath)
        ensures
            p@ == parse_spec(s@),
    {
        let n = s.unicode_len();
        let absolute = n > 0 && s.get_char(0) == '/';
        let mut raw: Vec<String> = Vec::new();
        let mut seg_start: usize = 0;
        let mut i: usize = 0;
        proof {
            assert(s@.take(0) =~= Seq::<char>::empty());
            assert(s@.subrange(0, 0) =~= Seq::<char>::empty());
            assert(raw.deep_view().push(Seq::<char>::empty()) =~= split_slash(s@.take(0)));
        }
        while i < n
            invariant
                n == s@.len(),
                seg_start <= i <= n,
                raw.deep_view().push(s@.subrange(seg_start as int, i as int)) == split_slash(
                    s@.take(i as int),
                ),
            decreases n - i,
        {
            let c = s.get_char(i);
            proof {
                assert(s@.take(i + 1).drop_last() =~= s@.take(i as int));
                assert(s@.take(i + 1).last() == s@[i as int]);
            }
            if c == '/' {
                let seg = String::from_str(s.substring_char(seg_start, i));
                raw.push(seg);
                proof {
                    assert(raw.deep_view() =~= split_slash(s@.take(i as int)));
                    assert(s@.subrange(i + 1, i + 1) =~= Seq::<char>::empty());
                }
                seg_start = i + 1;
            } else {
                proof {
                    let r = split_slash(s@.take(i as int));
                    assert(r.last() == s@.subrange(seg_start as int, i as int));
                    assert(r.update(r.len() - 1, r.last().push(s@[i as int])) =~= raw.deep_view().push(
                        s@.subrange(seg_start as int, i as int).push(s@[i as int]),
                    ));
                    assert(s@.subrange(seg_start as int, i as int).push(s@[i as int]) =~= s@.subrange(
                        seg_start as int,
                        i + 1,
                    ));
                }
            }
            i += 1;
        }
        let seg = String::from_str(s.substring_char(seg_start, n));
        raw.push(seg);
        proof {
            assert(s@.take(n as int) =~= s@);
            assert(raw.deep_view() =~= split_slash(s@));
        }
        let mut segs: Vec<String> = Vec::new();
        let mut j: usize = 0;
        proof {
            assert(raw.deep_view().take(0) =~= Seq::<Seq<char>>::empty());
        }
        while j < raw.len()
            invariant
                j <= raw.len(),
                raw.deep_view() == split_slash(s@),
                segs.deep_view() == clean_from(
                    Seq::empty(),
                    raw.deep_view().take(j as int),
                    absolute,
                ),
                absolute == (s@.len() > 0 && s@[0] == '/'),
            decreases raw.len() - j,
        {
            proof {
                assert(raw.deep_view().take(j + 1).drop_last() =~= raw.deep_view().take(j as int));
                assert(raw.deep_view().take(j + 1).last() == raw.deep_view()[j as int]);
                assert(raw@[j as int]@ == raw.deep_view()[j as int]);
            }
            clean_push_exec(&mut segs, raw[j].as_str(), absolute);
            j += 1;
        }
        proof {
            assert(raw.deep_view().take(raw@.len() as int) =~= raw.deep_view());
        }
        let p = BookPath { absolute, segs };
        proof {
            assert(p@ =~= parse_spec(s@));
        }
        p
    }

    pub fn is_absolute(&self) -> (r: bool)
        ensures
            r == self@.absolute,
    {
        self.absolute
    }

    /// An identical copy.
    pub fn duplicate(&self) -> (r: BookPath)
        ensures
            r@ == self@,
    {
        let mut segs: Vec<String> = Vec::new();
        let mut i: usize = 0;
        while i < self.segs.len()
            invariant
                i <= self.segs.len(),
                segs.deep_view() == self.segs.deep_view().take(i as int),
            decreases self.segs.len() - i,
        {
            let x = self.segs[i].clone();
            let ghost pre = segs.deep_view();
            segs.push(x);
            proof {
                assert(segs.deep_view() =~= pre.push(x@));
                assert(pre.push(x@) =~= self.segs.deep_view().take(i + 1));
            }
            i += 1;
        }
        proof {
            assert(self.segs.deep_view().take(self.segs@.len() as int) =~= self.segs.deep_view());
        }
        let r = BookPath { absolute: self.absolute, segs };
        proof {
            assert(r@ =~= self@);
        }
        r
    }

    /// `other` joined onto `self`.
    pub fn join(&self, other: &BookPath) -> (r: BookPath)
        ensures
            r@ == join_spec(self@, other@),
    {
        if other.absolute {
            let r = other.duplicate();
            proof {
                assert(r@ =~= join_spec(self@, other@));
            }
            return r;
        }
        let mut out = self.duplicate();
        let mut j: usize = 0;
        proof {
            assert(other.segs.deep_view().take(0) =~= Seq::<Seq<char>>::empty());
        }
        while j < other.segs.len()
            invariant
                j <= other.segs.len(),
                out.absolute == self@.absolute,
                out.segs.deep_view() == clean_from(
                    self@.segs,
                    other.segs.deep_view().take(j as int),
                    self@.absolute,
                ),
            decreases other.segs.len() - j,
        {
            proof {
                assert(other.segs.deep_view().take(j + 1).drop_last() =~= other.segs.deep_view().take(
                    j as int,
                ));
                assert(other.segs.deep_view().take(j + 1).last() == other.segs.deep_view()[j as int]);
                assert(other.segs@[j as int]@ == other.segs.deep_view()[j as int]);
            }
            clean_push_exec(&mut out.segs, other.segs[j].as_str(), out.absolute);
            j += 1;
        }
        proof {
            assert(other.segs.deep_view().take(other.segs@.len() as int) =~= other.segs.deep_view());
            assert(out@ =~= join_spec(self@, other@));
        }
        out
    }

    /// The directory containing this path.
    pub fn parent(&self) -> (r: BookPath)
        ensures
            r@ == parent_spec(self@),
    {
        let mut r = self.duplicate();
        if r.segs.len() > 0 {
            r.segs.pop();
            proof {
                assert(r.segs.deep_view() =~= self.segs.deep_view().drop_last());
                assert(r@ =~= parent_spec(self@));
            }
        } else {
            proof {
                assert(r@ =~= parent_spec(self@));
            }
        }
        r
    }

    /// The number of segments.
    pub fn seg_count(&self) -> (r: usize)
        ensures
            r == self@.segs.len(),
    {
        self.segs.len()
    }

    /// The segment at `i`.
    pub fn seg_at(&self, i: usize) -> (r: &String)
        requires
            i < self@.segs.len(),
        ensures
            r@ == self@.segs[i as int],
    {
        &self.segs[i]
    }

    /// The string the path prints as.
    pub fn to_string(&self) -> (r: String)
        ensures
            r@ == path_str(self@),
    {
        let mut out = String::new();
        if self.absolute {
            out.append("/");
            proof {
                reveal_strlit("/");
                assert(out@ =~= seq!['/']);
            }
        } else if self.segs.len() == 0 {
            out.append(".");
            proof {
                reveal_strlit(".");
                assert(out@ =~= dot());
                assert(out@ =~= path_str(self@));
            }
            return out;
        }
        let mut i: usize = 0;
        while i < self.segs.len()
            invariant
                i <= self.segs.len(),
                self.absolute ==> out@ == seq!['/'] + segs_str(self.segs.deep_view().take(i as int)),
                !self.absolute ==> self.segs@.len() > 0 && (if i == 0 {
                    out@ == Seq::<char>::empty()
                } else {
                    out@ == segs_str(self.segs.deep_view().take(i as int))
                }),
            decreases self.segs.len() - i,
        {
            if i > 0 {
                out.append("/");
                proof {
                    reveal_strlit("/");
                }
            }
            out.append(self.segs[i].as_str());
            proof {
                let t = self.segs.deep_view().take(i + 1);
                assert(t.drop_last() =~= self.segs.deep_view().take(i as int));
                assert(t.last() == self.segs.deep_view()[i as int]);
                if i == 0 {
                    assert(segs_str(t) == t[0]);
                    assert(t[0] == self.segs.deep_view()[0]);
                } else {
                    assert(segs_str(t) == segs_str(self.segs.deep_view().take(i as int)) + seq!['/']
                        + self.segs.deep_view()[i as int]);
                }
            }
            i += 1;
        }
        proof {
            assert(self.segs.deep_view().take(self.segs@.len() as int) =~= self.segs.deep_view());
        }
        out
    }
}

/// Establishes that an exec loop that found `i` equal leading segments and
/// stopped has found exactly `common_len`.
proof fn lemma_common_len_from_scan(a: Seq<Seq<char>>, b: Seq<Seq<char>>, c: int)
    requires
        0 <= c <= a.len(),
        c <= b.len(),
        forall|j: int| 0 <= j < c ==> a[j] == b[j],
        c < a.len() && c < b.len() ==> a[c] != b[c],
    ensures
        common_len(a, b) == c,
    decreases c,
{
    if c == 0 {
    } else {
        lemma_common_len_from_scan(a.drop_first(), b.drop_first(), c - 1);
    }
}

/// Computes the relative path that leads from `start` to `path`, as
/// `relative_segs` describes; the two must both be relative or both be
/// absolute, otherwise no such path exists and `InvalidPath` is returned.
pub fn relative_path(path: &BookPath, start: &BookPath) -> (r: Result<BookPath, PathError>)
    ensures
        path@.absolute != start@.absolute <==> r == Err::<BookPath, PathError>(
            PathError::InvalidPath,
        ),
        path@.absolute == start@.absolute ==> match r {
            Ok(p) => p@.absolute == false && p@.segs == relative_segs(path@.segs, start@.segs),
            Err(_) => false,
        },
{
    if path.is_absolute() != start.is_absolute() {
        return Err(PathError::InvalidPath);
    }
    let pn = path.seg_count();
    let sn = start.seg_count();
    let mut c: usize = 0;
    loop
        invariant_except_break
            pn == path@.segs.len(),
            sn == start@.segs.len(),
            0 <= c <= pn,
            c <= sn,
            forall|j: int| 0 <= j < c ==> path@.segs[j] == start@.segs[j],
        ensures
            0 <= c <= pn,
            c <= sn,
            pn == path@.segs.len(),
            sn == start@.segs.len(),
            forall|j: int| 0 <= j < c ==> path@.segs[j] == start@.segs[j],
            c < pn && c < sn ==> path@.segs[c as int] != start@.segs[c as int],
        decreases pn - c,
    {
        if c >= pn || c >= sn {
            break ;
        }
        let eq = *path.seg_at(c) == *start.seg_at(c);
        if !eq {
            break ;
        }
        c += 1;
    }
    proof {
        lemma_common_len_from_scan(path@.segs, start@.segs, c as int);
    }
    let mut segs: Vec<String> = Vec::new();
    let mut i: usize = c;
    while i < sn
        invariant
            c <= i <= sn,
            sn == start@.segs.len(),
            segs.deep_view() == Seq::new((i - c) as nat, |k: int| dotdot()),
        decreases sn - i,
    {
        let dd = String::from_str("..");
        proof {
            reveal_strlit("..");
            assert(dd@ =~= dotdot());
        }
        let ghost pre = segs.deep_view();
        segs.push(dd);
        proof {
            assert(segs.deep_view() =~= pre.push(dotdot()));
            assert(pre.push(dotdot()) =~= Seq::new((i + 1 - c) as nat, |k: int| dotdot()));
        }
        i += 1;
    }
    let mut j: usize = c;
    while j < pn
        invariant
            c <= j <= pn,
            pn == path@.segs.len(),
            segs.deep_view() == Seq::new((sn - c) as nat, |k: int| dotdot()) + path@.segs.subrange(
                c as int,
                j as int,
            ),
            sn == start@.segs.len(),
            c <= sn,
        decreases pn - j,
    {
        let x = path.seg_at(j).clone();
        let ghost pre = segs.deep_view();
        segs.push(x);
        proof {
            assert(segs.deep_view() =~= pre.push(x@));
            assert(pre.push(x@) =~= Seq::new((sn - c) as nat, |k: int| dotdot())
                + path@.segs.subrange(c as int, j + 1));
        }
        j += 1;
    }
    proof {
        assert(path@.segs.subrange(c as int, pn as int) =~= path@.segs.skip(c as int));
        if c == sn {
            assert(segs.deep_view() =~= Seq::new((sn - c) as nat, |k: int| dotdot())
                + path@.segs.subrange(c as int, pn as int));
        }
    }
    let r = BookPath { absolute: false, segs };
    proof {
        assert(r@.segs =~= relative_segs(path@.segs, start@.segs));
    }
    Ok(r)
}

} // verus!
