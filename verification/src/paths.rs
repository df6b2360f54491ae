//! Lexical path model: byte paths split into components, normalization that
//! collapses `.` and `..` without touching the filesystem, and the
//! component-wise sandbox confinement check.
//!
//! Paths are Unix byte strings. A path is modelled as an absolute flag plus a
//! sequence of separator-free segments; `a//b`, `a/./b` and `a/b` normalize
//! alike. Normalization is purely lexical: it does not consult the
//! filesystem and therefore cannot see through symlinks — a documented
//! limitation of the resolver, not something it silently repairs.

use vstd::prelude::*;
use vstd::slice::slice_to_vec;

verus! {

/// Path separator byte, `/`.
pub const SEP: u8 = 47;

/// The `.` byte.
pub const DOT: u8 = 46;

/// The NUL byte; inputs containing it are invalid paths.
pub const NUL: u8 = 0;

/// A `.` segment: dropped by normalization.
pub open spec fn seg_is_cur(s: Seq<u8>) -> bool {
    s.len() == 1 && s[0] == DOT
}

/// A `..` segment: pops the previously kept segment.
pub open spec fn seg_is_parent(s: Seq<u8>) -> bool {
    s.len() == 2 && s[0] == DOT && s[1] == DOT
}

/// Empty and `.` segments vanish under normalization.
pub open spec fn seg_is_skippable(s: Seq<u8>) -> bool {
    s.len() == 0 || seg_is_cur(s)
}

/// A plain name: survives normalization unchanged.
pub open spec fn seg_is_normal(s: Seq<u8>) -> bool {
    !seg_is_skippable(s) && !seg_is_parent(s)
}

/// Every segment is a plain name; what normalization guarantees of its output.
pub open spec fn all_normal(ss: Seq<Seq<u8>>) -> bool {
    forall|i: int| 0 <= i < ss.len() ==> seg_is_normal(#[trigger] ss[i])
}

/// No segment contains a separator; what splitting guarantees.
pub open spec fn all_sep_free(ss: Seq<Seq<u8>>) -> bool {
    forall|i: int| 0 <= i < ss.len() ==> !(#[trigger] ss[i]).contains(SEP)
}

/// Whether a raw byte path is absolute.
pub open spec fn is_abs_bytes(s: Seq<u8>) -> bool {
    s.len() > 0 && s[0] == SEP
}

/// The raw bytes with the leading separator, if any, removed.
pub open spec fn path_body(s: Seq<u8>) -> Seq<u8> {
    if is_abs_bytes(s) {
        s.skip(1)
    } else {
        s
    }
}

/// Splits a byte string at separators; `n` separators give `n + 1` segments,
/// so doubled or trailing separators contribute empty segments.
pub open spec fn split_segs(s: Seq<u8>) -> Seq<Seq<u8>>
    decreases s.len(),
{
    if s.len() == 0 {
        seq![s]
    } else if s.last() == SEP {
        split_segs(s.drop_last()).push(Seq::empty())
    } else {
        let r = split_segs(s.drop_last());
        r.update(r.len() - 1, r.last().push(s.last()))
    }
}

/// The segments of a raw byte path: its body split at separators.
pub open spec fn parsed_segs(s: Seq<u8>) -> Seq<Seq<u8>> {
    split_segs(path_body(s))
}

/// Interposes separators between segments; the inverse of `split_segs`.
pub open spec fn joined(ss: Seq<Seq<u8>>) -> Seq<u8>
    decreases ss.len(),
{
    if ss.len() == 0 {
        Seq::empty()
    } else if ss.len() == 1 {
        ss[0]
    } else {
        joined(ss.drop_last()) + seq![SEP] + ss.last()
    }
}

pub proof fn lemma_split_len(s: Seq<u8>)
    ensures
        split_segs(s).len() >= 1,
    decreases s.len(),
{
    if s.len() > 0 {
        lemma_split_len(s.drop_last());
    }
}

pub proof fn lemma_split_sep_free(s: Seq<u8>)
    ensures
        all_sep_free(split_segs(s)),
    decreases s.len(),
{
    if s.len() == 0 {
    } else {
        lemma_split_sep_free(s.drop_last());
        lemma_split_len(s.drop_last());
        let r = split_segs(s.drop_last());
        if s.last() == SEP {
            assert forall|i: int| 0 <= i < split_segs(s).len() implies !(
            #[trigger] split_segs(s)[i]).contains(SEP) by {
                if i < r.len() {
                    assert(split_segs(s)[i] == r[i]);
                } else {
                    assert(split_segs(s)[i] =~= Seq::<u8>::empty());
                }
            }
        } else {
            let ext = r.last().push(s.last());
            assert(!ext.contains(SEP)) by {
                assert(!r.last().contains(SEP));
                assert forall|j: int| 0 <= j < ext.len() implies ext[j] != SEP by {
                    if j < r.last().len() {
                        assert(ext[j] == r.last()[j]);
                    }
                }
            }
            assert forall|i: int| 0 <= i < split_segs(s).len() implies !(
            #[trigger] split_segs(s)[i]).contains(SEP) by {
                if i != r.len() - 1 {
                    assert(split_segs(s)[i] == r[i]);
                }
            }
        }
    }
}

/// One step of lexical normalization: `..` pops, `.` and empty segments are
/// dropped, anything else is kept. Popping an empty accumulator is a no-op.
pub open spec fn norm_step(acc: Seq<Seq<u8>>, seg: Seq<u8>) -> Seq<Seq<u8>> {
    if seg_is_parent(seg) {
        if acc.len() > 0 {
            acc.drop_last()
        } else {
            acc
        }
    } else if seg_is_skippable(seg) {
        acc
    } else {
        acc.push(seg)
    }
}

/// Left-to-right normalization started from a given accumulator.
pub open spec fn norm_from(acc: Seq<Seq<u8>>, ss: Seq<Seq<u8>>) -> Seq<Seq<u8>>
    decreases ss.len(),
{
    if ss.len() == 0 {
        acc
    } else {
        norm_from(norm_step(acc, ss.first()), ss.drop_first())
    }
}

/// Lexical normalization of a segment sequence.
pub open spec fn norm_segs(ss: Seq<Seq<u8>>) -> Seq<Seq<u8>> {
    norm_from(Seq::empty(), ss)
}

/// Normalization processes segments one at a time: splitting the input splits
/// the walk.
pub proof fn lemma_norm_from_concat(acc: Seq<Seq<u8>>, a: Seq<Seq<u8>>, b: Seq<Seq<u8>>)
    ensures
        norm_from(acc, a + b) == norm_from(norm_from(acc, a), b),
    decreases a.len(),
{
    if a.len() == 0 {
        assert(a + b =~= b);
    } else {
        assert((a + b).first() == a.first());
        assert((a + b).drop_first() =~= a.drop_first() + b);
        lemma_norm_from_concat(norm_step(acc, a.first()), a.drop_first(), b);
    }
}

/// Normalization only ever keeps plain names.
pub proof fn lemma_norm_all_normal(acc: Seq<Seq<u8>>, ss: Seq<Seq<u8>>)
    requires
        all_normal(acc),
    ensures
        all_normal(norm_from(acc, ss)),
    decreases ss.len(),
{
    if ss.len() > 0 {
        let h = ss.first();
        let acc2 = norm_step(acc, h);
        assert(all_normal(acc2)) by {
            if seg_is_parent(h) && acc.len() > 0 {
                assert forall|i: int| 0 <= i < acc2.len() implies seg_is_normal(
                    #[trigger] acc2[i],
                ) by {
                    assert(acc2[i] == acc[i]);
                }
            } else if seg_is_normal(h) {
                assert forall|i: int| 0 <= i < acc2.len() implies seg_is_normal(
                    #[trigger] acc2[i],
                ) by {
                    if i < acc.len() {
                        assert(acc2[i] == acc[i]);
                    } else {
                        assert(acc2[i] == h);
                    }
                }
            }
        }
        lemma_norm_all_normal(acc2, ss.drop_first());
    }
}

/// Normalization keeps segments separator-free.
pub proof fn lemma_norm_sep_free(acc: Seq<Seq<u8>>, ss: Seq<Seq<u8>>)
    requires
        all_sep_free(acc),
        all_sep_free(ss),
    ensures
        all_sep_free(norm_from(acc, ss)),
    decreases ss.len(),
{
    if ss.len() > 0 {
        let h = ss.first();
        assert(!h.contains(SEP)) by {
            assert(ss[0] == h);
        }
        let acc2 = norm_step(acc, h);
        assert(all_sep_free(acc2)) by {
            assert forall|i: int| 0 <= i < acc2.len() implies !(#[trigger] acc2[i]).contains(
                SEP,
            ) by {
                if seg_is_parent(h) || seg_is_skippable(h) {
                    assert(acc2[i] == acc[i]);
                } else {
                    if i < acc.len() {
                        assert(acc2[i] == acc[i]);
                    } else {
                        assert(acc2[i] == h);
                    }
                }
            }
        }
        assert(all_sep_free(ss.drop_first())) by {
            assert forall|i: int| 0 <= i < ss.drop_first().len() implies !(#[trigger] ss.drop_first()[i]).contains(
                SEP,
            ) by {
                assert(ss.drop_first()[i] == ss[i + 1]);
            }
        }
        lemma_norm_sep_free(acc2, ss.drop_first());
    }
}

/// A sequence of plain names passes through normalization unchanged, appended
/// to the accumulator.
pub proof fn lemma_norm_of_normal(acc: Seq<Seq<u8>>, ss: Seq<Seq<u8>>)
    requires
        all_normal(ss),
    ensures
        norm_from(acc, ss) == acc + ss,
    decreases ss.len(),
{
    if ss.len() == 0 {
        assert(acc + ss =~= acc);
    } else {
        let h = ss.first();
        assert(seg_is_normal(h)) by {
            assert(ss[0] == h);
        }
        assert(all_normal(ss.drop_first())) by {
            assert forall|i: int| 0 <= i < ss.drop_first().len() implies seg_is_normal(
                #[trigger] ss.drop_first()[i],
            ) by {
                assert(ss.drop_first()[i] == ss[i + 1]);
            }
        }
        lemma_norm_of_normal(acc.push(h), ss.drop_first());
        assert(acc.push(h) + ss.drop_first() =~= acc + ss);
    }
}

/// Normalizing an already-normalized segment sequence is the identity:
/// normalization is idempotent.
pub proof fn lemma_normalize_idempotent(ss: Seq<Seq<u8>>)
    ensures
        norm_segs(norm_segs(ss)) == norm_segs(ss),
{
    lemma_norm_all_normal(Seq::empty(), ss);
    lemma_norm_of_normal(Seq::empty(), norm_segs(ss));
    assert(Seq::<Seq<u8>>::empty() + norm_segs(ss) =~= norm_segs(ss));
}

/// A path as its components: an absolute flag plus separator-split segments.
#[derive(Debug)]
pub struct BytePath {
    pub absolute: bool,
    pub segs: Vec<Vec<u8>>,
}

impl BytePath {
    /// The mathematical view of the segments.
    pub open spec fn segs_view(&self) -> Seq<Seq<u8>> {
        self.segs@.map_values(|v: Vec<u8>| v@)
    }
}

/// Tests a segment for `..`.
fn seg_is_parent_ex(s: &Vec<u8>) -> (r: bool)
    ensures
        r == seg_is_parent(s@),
{
    s.len() == 2 && s[0] == DOT && s[1] == DOT
}

/// Tests a segment for empty or `.`.
fn seg_is_skippable_ex(s: &Vec<u8>) -> (r: bool)
    ensures
        r == seg_is_skippable(s@),
{
    s.len() == 0 || (s.len() == 1 && s[0] == DOT)
}

/// Splits a raw byte path into its components. Purely syntactic: segments are
/// kept verbatim, including empty, `.` and `..` ones.
pub fn parse_path(raw: &[u8]) -> (r: BytePath)
    ensures
        r.absolute == is_abs_bytes(raw@),
        r.segs_view() == parsed_segs(raw@),
        r.segs_view().len() >= 1,
        all_sep_free(r.segs_view()),
{
    proof {
        lemma_split_len(path_body(raw@));
        lemma_split_sep_free(path_body(raw@));
    }
    let absolute = raw.len() > 0 && raw[0] == SEP;
    let start: usize = if absolute {
        1
    } else {
        0
    };
    let ghost body = path_body(raw@);
    let mut segs: Vec<Vec<u8>> = Vec::new();
    let mut cur: Vec<u8> = Vec::new();
    let mut i: usize = start;
    proof {
        assert(body =~= raw@.skip(start as int));
        assert(body.take(0) =~= Seq::<u8>::empty());
        assert(segs@.map_values(|v: Vec<u8>| v@).push(cur@) =~= split_segs(body.take(0)));
    }
    while i < raw.len()
        invariant
            start <= i <= raw@.len(),
            start == if is_abs_bytes(raw@) { 1int } else { 0int },
            body == path_body(raw@),
            body =~= raw@.skip(start as int),
            segs@.map_values(|v: Vec<u8>| v@).push(cur@) == split_segs(body.take(i - start)),
        decreases raw@.len() - i,
    {
        let ghost pre = body.take(i - start);
        let ghost mapped = segs@.map_values(|v: Vec<u8>| v@);
        proof {
            assert(body[i - start] == raw@[i as int]);
            assert(body.take(i + 1 - start) =~= pre.push(raw@[i as int]));
            assert(pre.push(raw@[i as int]).drop_last() =~= pre);
        }
        let ghost cur_old = cur@;
        if raw[i] == SEP {
            segs.push(cur);
            cur = Vec::new();
            proof {
                assert(segs@.map_values(|v: Vec<u8>| v@) =~= mapped.push(cur_old));
            }
        } else {
            cur.push(raw[i]);
        }
        proof {
            let post = body.take(i + 1 - start);
            if raw@[i as int] == SEP {
                assert(split_segs(post) == split_segs(pre).push(Seq::<u8>::empty()));
                assert(segs@.map_values(|v: Vec<u8>| v@).push(cur@) =~= split_segs(pre).push(
                    Seq::<u8>::empty(),
                ));
            } else {
                let r0 = split_segs(pre);
                assert(r0.len() >= 1) by {
                    lemma_split_len(pre);
                }
                assert(split_segs(post) == r0.update(r0.len() - 1, r0.last().push(raw@[i as int])));
                assert(segs@.map_values(|v: Vec<u8>| v@).push(cur@) =~= r0.update(
                    r0.len() - 1,
                    r0.last().push(raw@[i as int]),
                ));
            }
        }
        i += 1;
    }
    segs.push(cur);
    proof {
        assert(body.take(i - start) =~= body);
        assert(segs@.map_values(|v: Vec<u8>| v@) =~= split_segs(body));
    }
    BytePath { absolute, segs }
}

/// Lexically normalizes a path: walks its segments left to right, dropping
/// `.` and empty segments and letting `..` pop the last kept segment; popping
/// past the top is a no-op, so an absolute path never climbs above its root.
pub fn normalize_path(p: &BytePath) -> (r: BytePath)
    ensures
        r.absolute == p.absolute,
        r.segs_view() == norm_segs(p.segs_view()),
        all_normal(r.segs_view()),
{
    proof {
        lemma_norm_all_normal(Seq::empty(), p.segs_view());
    }
    let ghost pv = p.segs_view();
    let mut out: Vec<Vec<u8>> = Vec::new();
    let mut i: usize = 0;
    proof {
        assert(pv.take(0) =~= Seq::<Seq<u8>>::empty());
    }
    while i < p.segs.len()
        invariant
            i <= p.segs@.len(),
            pv == p.segs_view(),
            out@.map_values(|v: Vec<u8>| v@) == norm_from(Seq::empty(), pv.take(i as int)),
        decreases p.segs@.len() - i,
    {
        let ghost acc = out@.map_values(|v: Vec<u8>| v@);
        let seg = &p.segs[i];
        proof {
            assert(pv[i as int] == seg@);
            lemma_norm_from_concat(Seq::empty(), pv.take(i as int), seq![pv[i as int]]);
            assert(pv.take(i + 1) =~= pv.take(i as int) + seq![pv[i as int]]);
            assert(seq![pv[i as int]].first() == pv[i as int]);
            assert(seq![pv[i as int]].drop_first() =~= Seq::<Seq<u8>>::empty());
            assert(norm_from(acc, seq![pv[i as int]]) == norm_step(acc, pv[i as int])) by {
                reveal_with_fuel(norm_from, 2);
            }
        }
        if seg_is_parent_ex(seg) {
            if out.len() > 0 {
                let _dropped = out.pop();
                proof {
                    assert(out@.map_values(|v: Vec<u8>| v@) =~= acc.drop_last());
                }
            }
        } else if seg_is_skippable_ex(seg) {
        } else {
            let copy = slice_to_vec(seg.as_slice());
            out.push(copy);
            proof {
                assert(out@.map_values(|v: Vec<u8>| v@) =~= acc.push(seg@));
            }
        }
        i += 1;
    }
    proof {
        assert(pv.take(i as int) =~= pv);
    }
    BytePath { absolute: p.absolute, segs: out }
}

/// Component-wise prefix: every segment of `pre` equals the corresponding
/// segment of `ss`. This is the confinement order: `/storage2` does not have
/// `/storage` as a prefix, though the byte strings would say otherwise.
pub open spec fn is_seg_prefix(pre: Seq<Seq<u8>>, ss: Seq<Seq<u8>>) -> bool {
    pre.len() <= ss.len() && (forall|i: int| 0 <= i < pre.len() ==> pre[i] == ss[i])
}

/// Compares two segments byte for byte.
fn seg_eq(a: &Vec<u8>, b: &Vec<u8>) -> (r: bool)
    ensures
        r == (a@ == b@),
{
    if a.len() != b.len() {
        return false;
    }
    let mut i: usize = 0;
    while i < a.len()
        invariant
            i <= a@.len(),
            a@.len() == b@.len(),
            forall|j: int| 0 <= j < i ==> a@[j] == b@[j],
        decreases a@.len() - i,
    {
        if a[i] != b[i] {
            return false;
        }
        i += 1;
    }
    proof {
        assert(a@ =~= b@);
    }
    true
}

/// Whether the raw bytes contain a NUL.
pub fn contains_nul(raw: &[u8]) -> (r: bool)
    ensures
        r == raw@.contains(NUL),
{
    let mut i: usize = 0;
    while i < raw.len()
        invariant
            i <= raw@.len(),
            forall|j: int| 0 <= j < i ==> raw@[j] != NUL,
        decreases raw@.len() - i,
    {
        if raw[i] == NUL {
            return true;
        }
        i += 1;
    }
    false
}

/// Component-wise prefix test: `p` is equal to or nested under `base`.
pub fn starts_with(p: &BytePath, base: &BytePath) -> (r: bool)
    ensures
        r == (p.absolute == base.absolute && is_seg_prefix(base.segs_view(), p.segs_view())),
{
    if p.absolute != base.absolute {
        return false;
    }
    if base.segs.len() > p.segs.len() {
        return false;
    }
    let mut i: usize = 0;
    while i < base.segs.len()
        invariant
            i <= base.segs@.len(),
            base.segs@.len() <= p.segs@.len(),
            forall|j: int| 0 <= j < i ==> base.segs_view()[j] == p.segs_view()[j],
        decreases base.segs@.len() - i,
    {
        if !seg_eq(&base.segs[i], &p.segs[i]) {
            proof {
                assert(base.segs_view()[i as int] != p.segs_view()[i as int]);
            }
            return false;
        }
        i += 1;
    }
    true
}

/// Copies a segment vector.
fn copy_segs(src: &Vec<Vec<u8>>) -> (r: Vec<Vec<u8>>)
    ensures
        r@.map_values(|v: Vec<u8>| v@) == src@.map_values(|v: Vec<u8>| v@),
{
    let mut out: Vec<Vec<u8>> = Vec::new();
    let mut i: usize = 0;
    proof {
        assert(out@.map_values(|v: Vec<u8>| v@) =~= src@.map_values(|v: Vec<u8>| v@).take(0));
    }
    while i < src.len()
        invariant
            i <= src@.len(),
            out@.map_values(|v: Vec<u8>| v@) == src@.map_values(|v: Vec<u8>| v@).take(i as int),
        decreases src@.len() - i,
    {
        let ghost acc = out@.map_values(|v: Vec<u8>| v@);
        out.push(slice_to_vec(src[i].as_slice()));
        proof {
            assert(out@.map_values(|v: Vec<u8>| v@) =~= acc.push(src@[i as int]@));
            assert(src@.map_values(|v: Vec<u8>| v@).take(i + 1) =~= acc.push(src@[i as int]@));
        }
        i += 1;
    }
    proof {
        assert(src@.map_values(|v: Vec<u8>| v@).take(i as int) =~= src@.map_values(
            |v: Vec<u8>| v@,
        ));
    }
    out
}

/// Joins a path onto a base directory, as `PathBuf::join` does: an absolute
/// path replaces the base entirely, a relative one is appended to it.
pub fn join(base: &BytePath, rel: &BytePath) -> (r: BytePath)
    ensures
        rel.absolute ==> r.absolute && r.segs_view() == rel.segs_view(),
        !rel.absolute ==> r.absolute == base.absolute && r.segs_view() == base.segs_view()
            + rel.segs_view(),
{
    if rel.absolute {
        BytePath { absolute: true, segs: copy_segs(&rel.segs) }
    } else {
        let mut segs = copy_segs(&base.segs);
        let more = copy_segs(&rel.segs);
        let ghost bv = base.segs_view();
        let ghost rv = rel.segs_view();
        let mut i: usize = 0;
        proof {
            assert(bv + rv.take(0) =~= bv);
        }
        while i < more.len()
            invariant
                i <= more@.len(),
                more@.map_values(|v: Vec<u8>| v@) == rv,
                segs@.map_values(|v: Vec<u8>| v@) == bv + rv.take(i as int),
            decreases more@.len() - i,
        {
            let ghost acc = segs@.map_values(|v: Vec<u8>| v@);
            segs.push(slice_to_vec(more[i].as_slice()));
            proof {
                assert(segs@.map_values(|v: Vec<u8>| v@) =~= acc.push(rv[i as int]));
                assert(bv + rv.take(i + 1) =~= acc.push(rv[i as int]));
            }
            i += 1;
        }
        proof {
            assert(bv + rv.take(i as int) =~= bv + rv);
        }
        BytePath { absolute: base.absolute, segs }
    }
}

/// Why path resolution refused an input.
#[derive(Clone, Copy, Debug, PartialEq, Eq, Structural)]
pub enum SandboxError {
    /// The input is malformed: it contains a NUL byte.
    InvalidPath,
    /// The normalized input escapes the configured root.
    OutsideSandbox,
}

/// The effective form of a configured directory: made absolute against the
/// working directory if relative, then lexically normalized.
pub open spec fn config_dir_spec(cfg: Seq<u8>, cwd: Seq<u8>) -> Seq<Seq<u8>> {
    if is_abs_bytes(cfg) {
        norm_segs(parsed_segs(cfg))
    } else {
        norm_segs(parsed_segs(cwd) + parsed_segs(cfg))
    }
}

/// The normalized absolute form of an input: joined under the (already
/// normalized) root unless it is absolute itself.
pub open spec fn candidate_segs(raw: Seq<u8>, root: Seq<Seq<u8>>) -> Seq<Seq<u8>> {
    if is_abs_bytes(raw) {
        norm_segs(parsed_segs(raw))
    } else {
        norm_segs(root + parsed_segs(raw))
    }
}

/// What resolution returns, as a function of the raw input, the configured
/// root directory and the working directory: a NUL byte is an invalid path;
/// otherwise the input is accepted exactly when its normalized absolute form
/// still has the root as a component-wise prefix.
pub open spec fn resolve_spec(raw: Seq<u8>, cfg: Seq<u8>, cwd: Seq<u8>) -> Result<
    Seq<Seq<u8>>,
    SandboxError,
> {
    if raw.contains(NUL) {
        Err(SandboxError::InvalidPath)
    } else {
        let root = config_dir_spec(cfg, cwd);
        let cand = candidate_segs(raw, root);
        if is_seg_prefix(root, cand) {
            Ok(cand)
        } else {
            Err(SandboxError::OutsideSandbox)
        }
    }
}

/// Computes the effective directory for a configured override: parsed, made
/// absolute against the working directory if relative, and normalized. Used
/// for the storage root and, by the surrounding glue, for the archive and
/// cache directories.
pub fn config_dir(cfg: &[u8], cwd: &[u8]) -> (r: BytePath)
    requires
        is_abs_bytes(cwd@),
    ensures
        r.absolute,
        r.segs_view() == config_dir_spec(cfg@, cwd@),
        all_normal(r.segs_view()),
{
    let p = parse_path(cfg);
    proof {
        lemma_norm_all_normal(Seq::empty(), parsed_segs(cfg@));
        lemma_norm_all_normal(Seq::empty(), parsed_segs(cwd@) + parsed_segs(cfg@));
    }
    if p.absolute {
        normalize_path(&p)
    } else {
        let c = parse_path(cwd);
        let j = join(&c, &p);
        normalize_path(&j)
    }
}

/// Resolves a caller-supplied path against the configured root: rejects NUL
/// bytes as invalid, makes the input absolute under the root if relative,
/// normalizes it lexically, and accepts it exactly when the root is still a
/// component-wise prefix of the result. Pure computation: no filesystem
/// access, no symlink resolution.
///
/// Every accepted path is absolute, normalized, and equal to or nested under
/// the root — the resolver never hands back a partially-resolved path.
pub fn resolve(raw: &[u8], root_cfg: &[u8], cwd: &[u8]) -> (r: Result<BytePath, SandboxError>)
    requires
        is_abs_bytes(cwd@),
    ensures
        r matches Ok(p) ==> resolve_spec(raw@, root_cfg@, cwd@) == Ok::<_, SandboxError>(
            p.segs_view(),
        ) && p.absolute && all_normal(p.segs_view()) && is_seg_prefix(
            config_dir_spec(root_cfg@, cwd@),
            p.segs_view(),
        ),
        r matches Err(e) ==> resolve_spec(raw@, root_cfg@, cwd@) == Err::<Seq<Seq<u8>>, _>(e),
{
    if contains_nul(raw) {
        return Err(SandboxError::InvalidPath);
    }
    let root = config_dir(root_cfg, cwd);
    let parsed = parse_path(raw);
    let cand = if parsed.absolute {
        proof {
            lemma_norm_all_normal(Seq::empty(), parsed_segs(raw@));
        }
        normalize_path(&parsed)
    } else {
        let j = join(&root, &parsed);
        proof {
            lemma_norm_all_normal(Seq::empty(), root.segs_view() + parsed_segs(raw@));
        }
        normalize_path(&j)
    };
    if starts_with(&cand, &root) {
        Ok(cand)
    } else {
        Err(SandboxError::OutsideSandbox)
    }
}

/// The byte string a path denotes: a leading separator when absolute, then
/// its segments joined by separators.
pub open spec fn rendered(absolute: bool, ss: Seq<Seq<u8>>) -> Seq<u8> {
    if absolute {
        seq![SEP] + joined(ss)
    } else {
        joined(ss)
    }
}

/// Appends a segment's bytes.
fn push_bytes(out: &mut Vec<u8>, seg: &Vec<u8>)
    ensures
        final(out)@ == old(out)@ + seg@,
{
    let mut j: usize = 0;
    proof {
        assert(out@ =~= old(out)@ + seg@.take(0));
    }
    while j < seg.len()
        invariant
            j <= seg@.len(),
            out@ == old(out)@ + seg@.take(j as int),
        decreases seg@.len() - j,
    {
        out.push(seg[j]);
        proof {
            assert(old(out)@ + seg@.take(j + 1) =~= (old(out)@ + seg@.take(j as int)).push(
                seg@[j as int],
            ));
        }
        j += 1;
    }
    proof {
        assert(seg@.take(j as int) =~= seg@);
    }
}

/// Renders a path back to its byte string.
pub fn path_to_bytes(p: &BytePath) -> (r: Vec<u8>)
    ensures
        r@ == rendered(p.absolute, p.segs_view()),
{
    let ghost pv = p.segs_view();
    let ghost head: Seq<u8> = if p.absolute {
        seq![SEP]
    } else {
        Seq::empty()
    };
    let mut out: Vec<u8> = Vec::new();
    if p.absolute {
        out.push(SEP);
    }
    let mut i: usize = 0;
    proof {
        assert(pv.take(0) =~= Seq::<Seq<u8>>::empty());
        assert(out@ =~= head + joined(pv.take(0)));
    }
    while i < p.segs.len()
        invariant
            i <= p.segs@.len(),
            pv == p.segs_view(),
            head == (if p.absolute {
                seq![SEP]
            } else {
                Seq::<u8>::empty()
            }),
            out@ == head + joined(pv.take(i as int)),
        decreases p.segs@.len() - i,
    {
        let ghost before = out@;
        if i > 0 {
            out.push(SEP);
        }
        let seg = &p.segs[i];
        proof {
            assert(pv[i as int] == seg@);
        }
        push_bytes(&mut out, seg);
        proof {
            if i == 0 {
                assert(pv.take(1) =~= seq![pv[0]]);
                assert(joined(pv.take(1)) == pv[0]);
                assert(out@ =~= head + joined(pv.take(1)));
            } else {
                assert(pv.take(i + 1).drop_last() =~= pv.take(i as int));
                assert(pv.take(i + 1).last() == pv[i as int]);
                assert(joined(pv.take(i + 1)) == joined(pv.take(i as int)) + seq![SEP] + pv[
                    i as int
                ]);
                assert(out@ =~= head + joined(pv.take(i + 1)));
            }
        }
        i += 1;
    }
    proof {
        assert(pv.take(i as int) =~= pv);
    }
    out
}

/// The final segment of a path, if it has one: the name under which archived
/// and prefetched files are placed in their destination directories.
pub fn file_name(p: &BytePath) -> (r: Option<Vec<u8>>)
    ensures
        r is Some <==> p.segs_view().len() > 0,
        r matches Some(n) ==> n@ == p.segs_view().last(),
{
    if p.segs.len() == 0 {
        None
    } else {
        Some(slice_to_vec(p.segs[p.segs.len() - 1].as_slice()))
    }
}

/// Appends one name to a directory path: how an archive or cache destination
/// is formed from the destination directory and a file name.
pub fn push_seg(dir: &BytePath, name: &[u8]) -> (r: BytePath)
    ensures
        r.absolute == dir.absolute,
        r.segs_view() == dir.segs_view().push(name@),
{
    let mut segs = copy_segs(&dir.segs);
    let ghost acc = segs@.map_values(|v: Vec<u8>| v@);
    segs.push(slice_to_vec(name));
    proof {
        assert(segs@.map_values(|v: Vec<u8>| v@) =~= acc.push(name@));
    }
    BytePath { absolute: dir.absolute, segs }
}

/// A byte string with no separator splits into the single segment it is.
pub proof fn lemma_split_no_sep(s: Seq<u8>)
    requires
        !s.contains(SEP),
    ensures
        split_segs(s) == seq![s],
    decreases s.len(),
{
    if s.len() > 0 {
        assert(s.last() != SEP) by {
            if s.last() == SEP {
                assert(s[s.len() - 1] == SEP);
                assert(s.contains(SEP));
            }
        }
        assert(!s.drop_last().contains(SEP)) by {
            if s.drop_last().contains(SEP) {
                let i = choose|i: int| 0 <= i < s.drop_last().len() && s.drop_last()[i] == SEP;
                assert(s[i] == SEP);
                assert(s.contains(SEP));
            }
        }
        lemma_split_no_sep(s.drop_last());
        assert(s.drop_last().push(s.last()) =~= s);
        assert(split_segs(s) =~= seq![s]);
    }
}

/// Splitting distributes over a separator: the segments of `a / b` are the
/// segments of `a` followed by the segments of `b`.
pub proof fn lemma_split_concat(a: Seq<u8>, b: Seq<u8>)
    ensures
        split_segs(a + seq![SEP] + b) == split_segs(a) + split_segs(b),
    decreases b.len(),
{
    lemma_split_len(a);
    if b.len() == 0 {
        let s = a + seq![SEP] + b;
        assert(s =~= a + seq![SEP]);
        assert(s.last() == SEP);
        assert(s.drop_last() =~= a);
        assert(b =~= Seq::<u8>::empty());
        assert(split_segs(b) =~= seq![b]);
        assert(split_segs(a) + split_segs(b) =~= split_segs(a).push(Seq::<u8>::empty()));
    } else {
        let s = a + seq![SEP] + b;
        assert(s.last() == b.last());
        assert(s.drop_last() =~= a + seq![SEP] + b.drop_last());
        lemma_split_concat(a, b.drop_last());
        lemma_split_len(b.drop_last());
        if b.last() == SEP {
            assert(split_segs(a) + split_segs(b) =~= (split_segs(a) + split_segs(
                b.drop_last(),
            )).push(Seq::<u8>::empty()));
        } else {
            let r = split_segs(b.drop_last());
            let rs = split_segs(a) + r;
            assert(rs.last() == r.last());
            assert(split_segs(a) + split_segs(b) =~= rs.update(
                rs.len() - 1,
                rs.last().push(b.last()),
            ));
        }
    }
}

/// Splitting inverts joining on separator-free segments.
pub proof fn lemma_split_joined(ss: Seq<Seq<u8>>)
    requires
        ss.len() >= 1,
        all_sep_free(ss),
    ensures
        split_segs(joined(ss)) == ss,
    decreases ss.len(),
{
    if ss.len() == 1 {
        assert(!ss[0].contains(SEP));
        lemma_split_no_sep(ss[0]);
        assert(seq![ss[0]] =~= ss);
    } else {
        assert(!ss[ss.len() - 1].contains(SEP));
        lemma_split_concat(joined(ss.drop_last()), ss.last());
        lemma_split_no_sep(ss.last());
        assert(all_sep_free(ss.drop_last())) by {
            assert forall|i: int| 0 <= i < ss.drop_last().len() implies !(#[trigger] ss.drop_last()[i]).contains(
                SEP,
            ) by {
                assert(ss.drop_last()[i] == ss[i]);
            }
        }
        lemma_split_joined(ss.drop_last());
        assert(ss.drop_last() + seq![ss.last()] =~= ss);
    }
}

/// Whether a walk of the segments never pops above its starting depth: at
/// every `..` segment, more names than `..`s have come before it.
pub open spec fn escape_free_from(depth: int, ss: Seq<Seq<u8>>) -> bool
    decreases ss.len(),
{
    if ss.len() == 0 {
        true
    } else {
        let h = ss.first();
        if seg_is_parent(h) {
            depth >= 1 && escape_free_from(depth - 1, ss.drop_first())
        } else if seg_is_skippable(h) {
            escape_free_from(depth, ss.drop_first())
        } else {
            escape_free_from(depth + 1, ss.drop_first())
        }
    }
}

/// A relative path whose `..` segments never climb above its own start.
pub open spec fn escape_free(ss: Seq<Seq<u8>>) -> bool {
    escape_free_from(0, ss)
}

/// An escape-free walk never disturbs what lies beneath its starting depth:
/// the accumulator below stays untouched.
pub proof fn lemma_norm_from_escape_free(acc: Seq<Seq<u8>>, t: Seq<Seq<u8>>, ss: Seq<Seq<u8>>)
    requires
        escape_free_from(t.len() as int, ss),
    ensures
        norm_from(acc + t, ss) == acc + norm_from(t, ss),
    decreases ss.len(),
{
    if ss.len() == 0 {
    } else {
        let h = ss.first();
        if seg_is_parent(h) {
            assert(t.len() >= 1);
            assert((acc + t).len() >= 1);
            assert((acc + t).drop_last() =~= acc + t.drop_last());
            lemma_norm_from_escape_free(acc, t.drop_last(), ss.drop_first());
        } else if seg_is_skippable(h) {
            lemma_norm_from_escape_free(acc, t, ss.drop_first());
        } else {
            assert((acc + t).push(h) =~= acc + t.push(h));
            lemma_norm_from_escape_free(acc, t.push(h), ss.drop_first());
        }
    }
}

/// The effective configured directory always has plain, separator-free
/// segments: it is the output of normalization over split segments.
pub proof fn lemma_config_dir_well_formed(cfg: Seq<u8>, cwd: Seq<u8>)
    ensures
        all_sep_free(config_dir_spec(cfg, cwd)),
        all_normal(config_dir_spec(cfg, cwd)),
{
    lemma_split_sep_free(path_body(cfg));
    lemma_split_sep_free(path_body(cwd));
    if is_abs_bytes(cfg) {
        lemma_norm_sep_free(Seq::empty(), parsed_segs(cfg));
        lemma_norm_all_normal(Seq::empty(), parsed_segs(cfg));
    } else {
        let both = parsed_segs(cwd) + parsed_segs(cfg);
        assert(all_sep_free(both)) by {
            assert forall|i: int| 0 <= i < both.len() implies !(#[trigger] both[i]).contains(
                SEP,
            ) by {
                if i < parsed_segs(cwd).len() {
                    assert(both[i] == parsed_segs(cwd)[i]);
                } else {
                    assert(both[i] == parsed_segs(cfg)[i - parsed_segs(cwd).len()]);
                }
            }
        }
        lemma_norm_sep_free(Seq::empty(), both);
        lemma_norm_all_normal(Seq::empty(), both);
    }
}

/// Any input containing a NUL byte is rejected as an invalid path, whatever
/// the configured root and working directory.
pub proof fn lemma_nul_is_invalid(raw: Seq<u8>, cfg: Seq<u8>, cwd: Seq<u8>)
    requires
        raw.contains(NUL),
    ensures
        resolve_spec(raw, cfg, cwd) == Err::<Seq<Seq<u8>>, SandboxError>(SandboxError::InvalidPath),
{
}

/// A relative, NUL-free input whose `..` segments never climb above its own
/// start resolves successfully, to the root with the input's normalized
/// segments appended — in particular, to a path nested under the root.
pub proof fn lemma_relative_stays_inside(raw: Seq<u8>, cfg: Seq<u8>, cwd: Seq<u8>)
    requires
        !raw.contains(NUL),
        !is_abs_bytes(raw),
        escape_free(parsed_segs(raw)),
    ensures
        resolve_spec(raw, cfg, cwd) == Ok::<_, SandboxError>(
            config_dir_spec(cfg, cwd) + norm_segs(parsed_segs(raw)),
        ),
        is_seg_prefix(
            config_dir_spec(cfg, cwd),
            config_dir_spec(cfg, cwd) + norm_segs(parsed_segs(raw)),
        ),
{
    let root = config_dir_spec(cfg, cwd);
    let p = parsed_segs(raw);
    lemma_config_dir_well_formed(cfg, cwd);
    lemma_norm_from_concat(Seq::empty(), root, p);
    lemma_norm_of_normal(Seq::empty(), root);
    assert(Seq::<Seq<u8>>::empty() + root =~= root);
    lemma_norm_from_escape_free(root, Seq::empty(), p);
    assert(root + Seq::<Seq<u8>>::empty() =~= root);
    assert(candidate_segs(raw, root) == root + norm_segs(p));
    assert(is_seg_prefix(root, root + norm_segs(p))) by {
        assert forall|i: int| 0 <= i < root.len() implies root[i] == (root + norm_segs(p))[i] by {}
    }
}

/// An input spelled `<root>/../<name>` names a sibling of the root: it
/// normalizes to the root's parent with `name` attached and is refused as
/// outside the sandbox. Two degenerate spellings are excluded: a `name`
/// equal to the root's own last segment names the root itself, and a root
/// with no segments (the filesystem root) cannot be climbed above.
pub proof fn lemma_root_sibling_is_outside(raw: Seq<u8>, cfg: Seq<u8>, cwd: Seq<u8>, name: Seq<u8>)
    requires
        !raw.contains(NUL),
        config_dir_spec(cfg, cwd).len() >= 1,
        name != config_dir_spec(cfg, cwd).last(),
        seg_is_normal(name),
        !name.contains(SEP),
        raw == rendered(true, config_dir_spec(cfg, cwd)) + seq![SEP, DOT, DOT, SEP] + name,
    ensures
        resolve_spec(raw, cfg, cwd) == Err::<Seq<Seq<u8>>, SandboxError>(
            SandboxError::OutsideSandbox,
        ),
{
    let root = config_dir_spec(cfg, cwd);
    lemma_config_dir_well_formed(cfg, cwd);
    assert(raw[0] == SEP) by {
        assert(rendered(true, root)[0] == SEP);
    }
    assert(is_abs_bytes(raw));
    let body = path_body(raw);
    let dd = seq![DOT, DOT];
    assert(body =~= (joined(root) + seq![SEP] + dd) + seq![SEP] + name);
    lemma_split_concat(joined(root) + seq![SEP] + dd, name);
    lemma_split_concat(joined(root), dd);
    assert(!dd.contains(SEP)) by {
        assert forall|i: int| 0 <= i < dd.len() implies dd[i] != SEP by {}
    }
    lemma_split_no_sep(dd);
    lemma_split_no_sep(name);
    lemma_split_joined(root);
    assert(parsed_segs(raw) =~= root + seq![dd, name]) by {
        assert(split_segs(joined(root)) + seq![dd] + seq![name] =~= root + seq![dd, name]);
    }
    lemma_norm_from_concat(Seq::empty(), root, seq![dd, name]);
    lemma_norm_of_normal(Seq::empty(), root);
    assert(Seq::<Seq<u8>>::empty() + root =~= root);
    let cand = candidate_segs(raw, root);
    assert(cand == norm_from(root, seq![dd, name]));
    assert(seg_is_parent(dd));
    assert(seq![dd, name].first() == dd);
    assert(seq![dd, name].drop_first() =~= seq![name]);
    assert(seq![name].first() == name);
    assert(seq![name].drop_first() =~= Seq::<Seq<u8>>::empty());
    assert(cand == root.drop_last().push(name)) by {
        reveal_with_fuel(norm_from, 3);
    }
    assert(cand.len() == root.len());
    assert(cand[root.len() - 1] == name);
    assert(!is_seg_prefix(root, cand)) by {
        assert(root[root.len() - 1] == root.last());
        if is_seg_prefix(root, cand) {
            assert(root[root.len() - 1] == cand[root.len() - 1]);
        }
    }
}

} // verus!
