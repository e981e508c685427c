//! Splices: the localized replacements a patch makes in the bytes of a part.
//!
//! A part is never rebuilt. Each mutation names the byte ranges it replaces
//! and what it puts there; everything between those ranges is copied as it
//! is. The lemmas of this file say what survives: with no splice the bytes
//! are the source, and any range no splice touches is found unchanged in the
//! result, moved only by what the splices before it added or removed.

use vstd::prelude::*;
use crate::bytes::{append, append_range, copy_of};
use crate::error::PatchError;

verus! {

/// The replacement of `src[start..end]` by `text`.
#[derive(Clone, Debug)]
pub struct Splice {
    pub start: usize,
    pub end: usize,
    pub text: Vec<u8>,
}

/// What a splice is.
pub struct SpliceView {
    pub start: int,
    pub end: int,
    pub text: Seq<u8>,
}

impl View for Splice {
    type V = SpliceView;

    open spec fn view(&self) -> SpliceView {
        SpliceView { start: self.start as int, end: self.end as int, text: self.text@ }
    }
}

/// What each splice of a vector is.
pub open spec fn splice_views(splices: Seq<Splice>) -> Seq<SpliceView> {
    Seq::new(splices.len(), |i: int| splices[i]@)
}

/// The splices lie within a source of `len` bytes, in order, without
/// overlap.
pub open spec fn ordered(s: Seq<SpliceView>, len: int) -> bool {
    &&& forall|i: int| 0 <= i < s.len() ==> 0 <= (#[trigger] s[i]).start <= s[i].end <= len
    &&& forall|i: int, j: int|
        0 <= i < j < s.len() ==> (#[trigger] s[i]).end <= (#[trigger] s[j]).start
}

/// The source with every splice made.
pub open spec fn spliced(src: Seq<u8>, s: Seq<SpliceView>) -> Seq<u8>
    decreases s.len(),
{
    if s.len() == 0 {
        src
    } else {
        let last = s.last();
        spliced(src.subrange(0, last.start), s.drop_last()) + last.text + src.subrange(
            last.end,
            src.len() as int,
        )
    }
}

/// By how much the splices that end at or before `p` move what follows.
pub open spec fn drift(s: Seq<SpliceView>, p: int) -> int
    decreases s.len(),
{
    if s.len() == 0 {
        0
    } else {
        let last = s.last();
        drift(s.drop_last(), p) + if last.end <= p {
            last.text.len() - (last.end - last.start)
        } else {
            0
        }
    }
}

/// Whether the splices are ordered within a source of `len` bytes.
pub fn check_ordered(splices: &Vec<Splice>, len: usize) -> (ok: bool)
    ensures
        ok == ordered(splice_views(splices@), len as int),
{
    let ghost views = splice_views(splices@);
    let mut pos: usize = 0;
    let mut i: usize = 0;
    while i < splices.len()
        invariant
            i <= splices.len(),
            views == splice_views(splices@),
            pos <= len,
            ordered(views.subrange(0, i as int), len as int),
            forall|j: int| 0 <= j < i ==> (#[trigger] views[j]).end <= pos,
            i == 0 ==> pos == 0,
            i > 0 ==> pos == views[i - 1].end,
        decreases splices.len() - i,
    {
        let s = &splices[i];
        assert(views[i as int] == s@);
        if s.start < pos || s.end < s.start || s.end > len {
            proof {
                if ordered(views, len as int) {
                    assert(views[i as int].start <= views[i as int].end);
                    if i > 0 {
                        assert(views[i - 1].end <= views[i as int].start);
                    }
                }
            }
            return false;
        }
        proof {
            let before = views.subrange(0, i as int);
            let after = views.subrange(0, i + 1);
            assert forall|a: int| 0 <= a < after.len() implies 0 <= (#[trigger] after[a]).start
                <= after[a].end <= len by {
                if a < i {
                    assert(after[a] == before[a]);
                }
            }
            assert forall|a: int, b: int| 0 <= a < b < after.len() implies (#[trigger] after[a]).end
                <= (#[trigger] after[b]).start by {
                assert(after[a] == views[a]);
                assert(after[b] == views[b]);
                if b < i {
                    assert(before[a] == views[a]);
                    assert(before[b] == views[b]);
                }
            }
        }
        pos = s.end;
        i += 1;
    }
    assert(views.subrange(0, i as int) =~= views);
    true
}

/// Makes every splice: copies the source and puts each splice's text in
/// place of the range it names.
pub fn apply_splices(src: &[u8], splices: &Vec<Splice>) -> (out: Vec<u8>)
    requires
        ordered(splice_views(splices@), src@.len() as int),
    ensures
        out@ == spliced(src@, splice_views(splices@)),
{
    let ghost views = splice_views(splices@);
    let mut out: Vec<u8> = Vec::new();
    let mut pos: usize = 0;
    let mut i: usize = 0;
    assert(views.subrange(0, 0) =~= Seq::<SpliceView>::empty());
    assert(src@.subrange(0, 0) =~= Seq::<u8>::empty());
    while i < splices.len()
        invariant
            i <= splices.len(),
            views == splice_views(splices@),
            ordered(views, src@.len() as int),
            pos <= src@.len(),
            forall|j: int| 0 <= j < i ==> (#[trigger] views[j]).end <= pos,
            forall|j: int| i <= j < views.len() ==> pos <= (#[trigger] views[j]).start,
            out@ == spliced(src@.subrange(0, pos as int), views.subrange(0, i as int)),
        decreases splices.len() - i,
    {
        let s = &splices[i];
        let ghost done = views.subrange(0, i as int);
        let ghost next = views.subrange(0, i + 1);
        assert(views[i as int] == s@);
        proof {
            lemma_ordered_prefix(views, src@.len() as int, i as int);
            lemma_spliced_longer(src@, done, pos as int, s.start as int);
            assert(next.drop_last() =~= done);
            assert(next.last() == s@);
            let cut = src@.subrange(0, s.end as int);
            assert(cut.subrange(0, s.start as int) =~= src@.subrange(0, s.start as int));
            assert(cut.subrange(s.end as int, cut.len() as int) =~= Seq::<u8>::empty());
        }
        append_range(&mut out, src, pos, s.start);
        append(&mut out, s.text.as_slice());
        assert(out@ =~= spliced(src@.subrange(0, s.end as int), next));
        pos = s.end;
        i += 1;
    }
    proof {
        assert(views.subrange(0, i as int) =~= views);
        lemma_spliced_longer(src@, views, pos as int, src@.len() as int);
        assert(src@.subrange(0, src@.len() as int) =~= src@);
    }
    append_range(&mut out, src, pos, src.len());
    out
}

/// Makes every splice if they are ordered within the source, and nothing
/// otherwise.
pub fn splice_all(src: &[u8], splices: &Vec<Splice>) -> (out: Option<Vec<u8>>)
    ensures
        match out {
            Some(bytes) => ordered(splice_views(splices@), src@.len() as int) && bytes@
                == spliced(src@, splice_views(splices@)),
            None => !ordered(splice_views(splices@), src@.len() as int),
        },
{
    if check_ordered(splices, src.len()) {
        Some(apply_splices(src, splices))
    } else {
        None
    }
}

/// A prefix of ordered splices is ordered.
pub proof fn lemma_ordered_prefix(s: Seq<SpliceView>, len: int, k: int)
    requires
        ordered(s, len),
        0 <= k <= s.len(),
    ensures
        ordered(s.subrange(0, k), len),
        k > 0 ==> ordered(s.subrange(0, k), s[k - 1].end),
        k > 0 ==> ordered(s.subrange(0, k - 1), s[k - 1].start),
{
    let p = s.subrange(0, k);
    assert forall|i: int| 0 <= i < p.len() implies 0 <= (#[trigger] p[i]).start <= p[i].end
        <= len by {
        assert(p[i] == s[i]);
    }
    assert forall|i: int, j: int| 0 <= i < j < p.len() implies (#[trigger] p[i]).end <= (
    #[trigger] p[j]).start by {
        assert(p[i] == s[i]);
        assert(p[j] == s[j]);
    }
    if k > 0 {
        assert forall|i: int| 0 <= i < p.len() implies (#[trigger] p[i]).end <= s[k - 1].end by {
            assert(p[i] == s[i]);
            if i < k - 1 {
                assert(s[i].end <= s[k - 1].start);
            }
        }
        let q = s.subrange(0, k - 1);
        assert forall|i: int| 0 <= i < q.len() implies 0 <= (#[trigger] q[i]).start <= q[i].end
            <= s[k - 1].start by {
            assert(q[i] == s[i]);
            assert(s[i].end <= s[k - 1].start);
        }
        assert forall|i: int, j: int| 0 <= i < j < q.len() implies (#[trigger] q[i]).end <= (
        #[trigger] q[j]).start by {
            assert(q[i] == s[i]);
            assert(q[j] == s[j]);
        }
    }
}

/// Source bytes behind the last splice are carried over as they are.
pub proof fn lemma_spliced_longer(src: Seq<u8>, s: Seq<SpliceView>, a: int, b: int)
    requires
        ordered(s, a),
        0 <= a <= b <= src.len(),
    ensures
        spliced(src.subrange(0, b), s) == spliced(src.subrange(0, a), s) + src.subrange(a, b),
{
    let long = src.subrange(0, b);
    let short = src.subrange(0, a);
    if s.len() == 0 {
        assert(long =~= short + src.subrange(a, b));
    } else {
        let last = s.last();
        assert(long.subrange(0, last.start) =~= short.subrange(0, last.start));
        assert(long.subrange(last.end, long.len() as int) =~= short.subrange(
            last.end,
            short.len() as int,
        ) + src.subrange(a, b));
        assert(spliced(long, s) =~= spliced(short, s) + src.subrange(a, b));
    }
}

/// With no splice the result is the source.
pub proof fn lemma_no_splice(src: Seq<u8>)
    ensures
        spliced(src, Seq::<SpliceView>::empty()) == src,
{
}

/// The result is as long as the source, plus what the splices add, minus
/// what they take away.
pub proof fn lemma_spliced_len(src: Seq<u8>, s: Seq<SpliceView>)
    requires
        ordered(s, src.len() as int),
    ensures
        spliced(src, s).len() == src.len() + drift(s, src.len() as int),
    decreases s.len(),
{
    if s.len() > 0 {
        let last = s.last();
        lemma_ordered_prefix(s, src.len() as int, s.len() as int);
        assert(s.subrange(0, s.len() - 1) =~= s.drop_last());
        lemma_spliced_len(src.subrange(0, last.start), s.drop_last());
        lemma_drift_behind(s.drop_last(), last.start, src.len() as int);
    }
}

/// Behind the last splice the drift no longer changes.
pub proof fn lemma_drift_behind(s: Seq<SpliceView>, p: int, q: int)
    requires
        ordered(s, p),
        p <= q,
    ensures
        drift(s, p) == drift(s, q),
    decreases s.len(),
{
    if s.len() > 0 {
        lemma_ordered_prefix(s, p, s.len() as int);
        assert(s.subrange(0, s.len() - 1) =~= s.drop_last());
        lemma_ordered_longer(s.drop_last(), s.last().start, p);
        lemma_drift_behind(s.drop_last(), p, q);
    }
}

/// Splices ordered within a source are ordered within a longer one.
pub proof fn lemma_ordered_longer(s: Seq<SpliceView>, len: int, more: int)
    requires
        ordered(s, len),
        len <= more,
    ensures
        ordered(s, more),
{
}

/// A range of the source that no splice touches stands unchanged in the
/// result, at the place the splices before it moved it to.
pub proof fn lemma_untouched(src: Seq<u8>, s: Seq<SpliceView>, a: int, b: int)
    requires
        ordered(s, src.len() as int),
        0 <= a < b <= src.len(),
        forall|i: int| 0 <= i < s.len() ==> (#[trigger] s[i]).end <= a || b <= s[i].start,
    ensures
        0 <= a + drift(s, a),
        b + drift(s, a) <= spliced(src, s).len(),
        spliced(src, s).subrange(a + drift(s, a), b + drift(s, a)) == src.subrange(a, b),
    decreases s.len(),
{
    if s.len() == 0 {
    } else {
        let last = s.last();
        let rest = s.drop_last();
        let head = src.subrange(0, last.start);
        let tail = src.subrange(last.end, src.len() as int);
        lemma_ordered_prefix(s, src.len() as int, s.len() as int);
        assert(s.subrange(0, s.len() - 1) =~= rest);
        assert(s[s.len() - 1] == last);
        lemma_spliced_len(head, rest);
        if last.end <= a {
            lemma_drift_behind(rest, last.start, a);
            let at = a + drift(s, a);
            assert(at == spliced(head, rest).len() + last.text.len() + (a - last.end));
            assert(spliced(src, s).subrange(at, at + (b - a)) =~= tail.subrange(
                a - last.end,
                b - last.end,
            ));
            assert(tail.subrange(a - last.end, b - last.end) =~= src.subrange(a, b));
        } else {
            assert(b <= last.start);
            assert forall|i: int| 0 <= i < rest.len() implies (#[trigger] rest[i]).end <= a || b
                <= rest[i].start by {
                assert(rest[i] == s[i]);
            }
            lemma_untouched(head, rest, a, b);
            assert(head.subrange(a, b) =~= src.subrange(a, b));
            let at = a + drift(rest, a);
            assert(spliced(src, s).subrange(at, at + (b - a)) =~= spliced(head, rest).subrange(
                at,
                at + (b - a),
            ));
        }
    }
}

/// The splice that puts `text` at `at`.
pub open spec fn insertion(at: int, text: Seq<u8>) -> SpliceView {
    SpliceView { start: at, end: at, text }
}

/// What a list of splices, or the refusal to make one, is.
pub open spec fn views_of(r: Result<Vec<Splice>, PatchError>) -> Result<
    Seq<SpliceView>,
    PatchError,
> {
    match r {
        Ok(v) => Ok(splice_views(v@)),
        Err(e) => Err(e),
    }
}

/// What a byte string, or the refusal to make one, is.
pub open spec fn bytes_of(r: Result<Vec<u8>, PatchError>) -> Result<Seq<u8>, PatchError> {
    match r {
        Ok(v) => Ok(v@),
        Err(e) => Err(e),
    }
}

/// The source with the splices of a plan made, or the error of the plan.
pub open spec fn made(src: Seq<u8>, splices: Result<Seq<SpliceView>, PatchError>) -> Result<
    Seq<u8>,
    PatchError,
> {
    match splices {
        Err(e) => Err(e),
        Ok(s) => Ok(spliced(src, s)),
    }
}

/// Makes splices that are known to be in order.
pub fn make(src: &[u8], splices: Result<Vec<Splice>, PatchError>) -> (outcome: Result<
    Vec<u8>,
    PatchError,
>)
    requires
        views_of(splices) matches Ok(s) ==> ordered(s, src@.len() as int),
    ensures
        bytes_of(outcome) == made(src@, views_of(splices)),
{
    match splices {
        Err(e) => Err(e),
        Ok(s) => Ok(apply_splices(src, &s)),
    }
}

/// Unknown content is preserved: whatever range of the source lies outside
/// every splice of a mutation stands unchanged in the result, moved only
/// by what the splices before it add or take away.
pub proof fn lemma_made_keeps_rest(src: Seq<u8>, splices: Seq<SpliceView>, a: int, b: int)
    requires
        ordered(splices, src.len() as int),
        0 <= a < b <= src.len(),
        forall|i: int|
            0 <= i < splices.len() ==> (#[trigger] splices[i]).end <= a || b <= splices[i].start,
    ensures
        made(src, Ok(splices)) matches Ok(out) && b + drift(splices, a) <= out.len()
            && out.subrange(a + drift(splices, a), b + drift(splices, a)) == src.subrange(a, b),
{
    lemma_untouched(src, splices, a, b);
}

/// A mutation that names no splice leaves the part as it is.
pub proof fn lemma_made_nothing(src: Seq<u8>)
    ensures
        made(src, Ok(Seq::<SpliceView>::empty())) == Ok::<Seq<u8>, PatchError>(src),
{
}

/// Makes the splice that puts `text` at `at`.
pub fn insert_at(at: usize, text: &[u8]) -> (splice: Splice)
    ensures
        splice@ == insertion(at as int, text@),
{
    Splice { start: at, end: at, text: copy_of(text) }
}

/// A list that holds one splice.
pub fn one(splice: Splice) -> (list: Vec<Splice>)
    ensures
        splice_views(list@) == seq![splice@],
{
    let mut list: Vec<Splice> = Vec::new();
    list.push(splice);
    assert(splice_views(list@) =~= seq![splice@]);
    list
}

/// The splices lie between `lo` and `hi`, in order, without overlap.
pub open spec fn within(s: Seq<SpliceView>, lo: int, hi: int) -> bool {
    &&& forall|i: int| 0 <= i < s.len() ==> lo <= (#[trigger] s[i]).start <= s[i].end <= hi
    &&& forall|i: int, j: int|
        0 <= i < j < s.len() ==> (#[trigger] s[i]).end <= (#[trigger] s[j]).start
}

/// Splices between two bounds stay between wider ones.
pub proof fn lemma_within_wider(s: Seq<SpliceView>, lo: int, hi: int, lower: int, higher: int)
    requires
        within(s, lo, hi),
        lower <= lo,
        hi <= higher,
    ensures
        within(s, lower, higher),
{
}

/// A splice behind splices that are in order keeps them in order.
pub proof fn lemma_within_push(s: Seq<SpliceView>, lo: int, hi: int, x: SpliceView, higher: int)
    requires
        within(s, lo, hi),
        lo <= hi <= x.start <= x.end <= higher,
    ensures
        within(s.push(x), lo, higher),
{
    let t = s.push(x);
    assert forall|i: int| 0 <= i < t.len() implies lo <= (#[trigger] t[i]).start <= t[i].end
        <= higher by {
        if i < s.len() {
            assert(t[i] == s[i]);
        }
    }
    assert forall|i: int, j: int| 0 <= i < j < t.len() implies (#[trigger] t[i]).end <= (
    #[trigger] t[j]).start by {
        assert(t[i] == s[i]);
        if j < s.len() {
            assert(t[j] == s[j]);
        }
    }
}

/// Splices in order behind splices in order are in order together.
pub proof fn lemma_within_concat(a: Seq<SpliceView>, b: Seq<SpliceView>, lo: int, mid: int, hi: int)
    requires
        within(a, lo, mid),
        within(b, mid, hi),
        lo <= mid <= hi,
    ensures
        within(a + b, lo, hi),
{
    let t = a + b;
    assert forall|i: int| 0 <= i < t.len() implies lo <= (#[trigger] t[i]).start <= t[i].end
        <= hi by {
        if i < a.len() {
            assert(t[i] == a[i]);
        } else {
            assert(t[i] == b[i - a.len()]);
        }
    }
    assert forall|i: int, j: int| 0 <= i < j < t.len() implies (#[trigger] t[i]).end <= (
    #[trigger] t[j]).start by {
        if i < a.len() {
            assert(t[i] == a[i]);
        } else {
            assert(t[i] == b[i - a.len()]);
        }
        if j < a.len() {
            assert(t[j] == a[j]);
        } else {
            assert(t[j] == b[j - a.len()]);
        }
    }
}

/// Splices that lie in order within a source can be made on it.
pub proof fn lemma_within_ordered(s: Seq<SpliceView>, lo: int, hi: int, len: int)
    requires
        within(s, lo, hi),
        0 <= lo,
        hi <= len,
    ensures
        ordered(s, len),
{
}

/// A splice that starts behind the end of every splice of a list can be
/// put behind the list.
pub proof fn lemma_within_put(s: Seq<SpliceView>, lo: int, hi: int, x: SpliceView)
    requires
        within(s, lo, hi),
        lo <= x.start <= x.end <= hi,
        forall|k: int| 0 <= k < s.len() ==> (#[trigger] s[k]).end <= x.start,
    ensures
        within(s.push(x), lo, hi),
{
    let t = s.push(x);
    assert forall|i: int| 0 <= i < t.len() implies lo <= (#[trigger] t[i]).start <= t[i].end
        <= hi by {
        if i < s.len() {
            assert(t[i] == s[i]);
        }
    }
    assert forall|i: int, j: int| 0 <= i < j < t.len() implies (#[trigger] t[i]).end <= (
    #[trigger] t[j]).start by {
        assert(t[i] == s[i]);
        if j < s.len() {
            assert(t[j] == s[j]);
        }
    }
}

/// Splices that all end behind a place move nothing that stands before
/// it.
pub proof fn lemma_drift_none(s: Seq<SpliceView>, p: int)
    requires
        forall|i: int| 0 <= i < s.len() ==> p < (#[trigger] s[i]).end,
    ensures
        drift(s, p) == 0,
    decreases s.len(),
{
    if s.len() > 0 {
        let rest = s.drop_last();
        assert forall|i: int| 0 <= i < rest.len() implies p < (#[trigger] rest[i]).end by {
            assert(rest[i] == s[i]);
        }
        lemma_drift_none(rest, p);
        assert(p < s[s.len() - 1].end);
    }
}

} // verus!
