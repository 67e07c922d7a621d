//! Conflict-safe application of byte-range replacements to one file.
//!
//! A file under repair is held as its original byte text plus a set of
//! accepted patches, kept sorted by span (start, then end) and pairwise
//! disjoint; a pure insertion may sit at the start offset of a wider
//! patch.  Re-applying a patch that is already recorded is a harmless
//! no-op; a patch that overlaps an accepted one differently, or whose
//! span lies outside the file, is refused and the file is left as it was.

use vstd::prelude::*;

verus! {

/// One byte-range replacement: the bytes at `[start, end)` of the original
/// text are replaced by `text`.
pub struct Patch {
    pub start: usize,
    pub end: usize,
    pub text: Vec<u8>,
}

/// The mathematical value of a `Patch`.
pub struct PatchV {
    pub start: int,
    pub end: int,
    pub text: Seq<u8>,
}

impl View for Patch {
    type V = PatchV;

    open spec fn view(&self) -> PatchV {
        PatchV { start: self.start as int, end: self.end as int, text: self.text@ }
    }
}

/// `s` with the bytes at `[start, end)` replaced by `t`.
pub open spec fn splice(s: Seq<u8>, start: int, end: int, t: Seq<u8>) -> Seq<u8> {
    s.subrange(0, start) + t + s.subrange(end, s.len() as int)
}

/// The span names a real region of a text of length `len`.
pub open spec fn patch_in_bounds(p: PatchV, len: int) -> bool {
    0 <= p.start <= p.end <= len
}

/// `q`'s span comes before `p`'s: earlier start, or the same start with
/// the shorter span (a pure insertion sits ahead of a replacement that
/// begins at the same offset).
pub open spec fn lex_before(q: PatchV, p: PatchV) -> bool {
    q.start < p.start || (q.start == p.start && q.end < p.end)
}

/// Accepted patches are in bounds, strictly ordered by span, and pairwise
/// disjoint (two spans may touch, never overlap).
pub open spec fn patches_wf(ps: Seq<PatchV>, len: int) -> bool {
    &&& forall|i: int| 0 <= i < ps.len() ==> patch_in_bounds(#[trigger] ps[i], len)
    &&& forall|i: int, j: int|
        0 <= i < j < ps.len() ==> (#[trigger] ps[i]).end <= (#[trigger] ps[j]).start
            && lex_before(ps[i], ps[j])
}

/// The text after applying every patch of `ps` (sorted by start) to `s`,
/// highest start offset first, so that applying one patch never shifts the
/// span of a patch still to be applied.
pub open spec fn rendered(s: Seq<u8>, ps: Seq<PatchV>) -> Seq<u8>
    decreases ps.len(),
{
    if ps.len() == 0 {
        s
    } else {
        splice(rendered(s, ps.drop_first()), ps.first().start, ps.first().end, ps.first().text)
    }
}

/// `p` is recorded in `ps` with the same span and the same text.
pub open spec fn has_identical(ps: Seq<PatchV>, p: PatchV) -> bool {
    exists|i: int|
        0 <= i < ps.len() && (#[trigger] ps[i]).start == p.start && ps[i].end == p.end
            && ps[i].text == p.text
}

/// `p` cannot live beside the accepted patch `q`: their spans properly
/// intersect, or they name the same span (with different text, since an
/// identical patch is recognised before this test).
pub open spec fn conflicts_with(q: PatchV, p: PatchV) -> bool {
    !(p.end <= q.start || q.end <= p.start) || (p.start == q.start && p.end == q.end)
}

/// `p` cannot live beside some accepted patch.
pub open spec fn has_conflict(ps: Seq<PatchV>, p: PatchV) -> bool {
    exists|i: int| 0 <= i < ps.len() && conflicts_with(#[trigger] ps[i], p)
}

/// `ps` with `p` inserted at its place in the span order.
pub open spec fn insert_sorted(ps: Seq<PatchV>, p: PatchV) -> Seq<PatchV>
    decreases ps.len(),
{
    if ps.len() == 0 {
        seq![p]
    } else if lex_before(p, ps.first()) {
        seq![p] + ps
    } else {
        seq![ps.first()] + insert_sorted(ps.drop_first(), p)
    }
}

/// What applying `p` to a file of length `len` with accepted patches `ps`
/// reports.
#[derive(PartialEq, Eq, Structural, Clone, Copy, Debug)]
pub enum ApplyOutcome {
    /// The patch was fresh and is now recorded.
    Applied,
    /// The identical patch was already recorded; nothing changed.
    Unchanged,
    /// The span is invalid or collides with an accepted patch; refused.
    Conflict,
}

/// The outcome of applying `p`.
pub open spec fn apply_outcome(ps: Seq<PatchV>, len: int, p: PatchV) -> ApplyOutcome {
    if !patch_in_bounds(p, len) {
        ApplyOutcome::Conflict
    } else if has_identical(ps, p) {
        ApplyOutcome::Unchanged
    } else if has_conflict(ps, p) {
        ApplyOutcome::Conflict
    } else {
        ApplyOutcome::Applied
    }
}

/// The accepted patches after applying `p`.
pub open spec fn apply_patches(ps: Seq<PatchV>, len: int, p: PatchV) -> Seq<PatchV> {
    if apply_outcome(ps, len, p) == ApplyOutcome::Applied {
        insert_sorted(ps, p)
    } else {
        ps
    }
}

/// A file under repair: its original text and the accepted patches.
pub struct FileFix {
    original: Vec<u8>,
    patches: Vec<Patch>,
}

impl FileFix {
    /// The original text.
    pub closed spec fn text(&self) -> Seq<u8> {
        self.original@
    }

    /// The accepted patches, by value.
    pub closed spec fn accepted(&self) -> Seq<PatchV> {
        self.patches@.map_values(|p: Patch| p@)
    }

    pub open spec fn wf(&self) -> bool {
        patches_wf(self.accepted(), self.text().len() as int)
    }

    /// Start repairing a file whose current text is `code`.
    pub fn new(code: Vec<u8>) -> (r: FileFix)
        ensures
            r.text() == code@,
            r.accepted() == Seq::<PatchV>::empty(),
            r.wf(),
    {
        let r = FileFix { original: code, patches: Vec::new() };
        proof {
            assert(r.accepted() =~= Seq::<PatchV>::empty());
        }
        r
    }

    /// True once at least one fresh patch was accepted.
    pub fn modified(&self) -> (r: bool)
        ensures
            r == (self.accepted().len() > 0),
    {
        self.patches.len() > 0
    }

    /// A copy of the accepted patches, to come back to if a later step of
    /// the same edit fails.
    pub fn checkpoint(&self) -> (r: Vec<Patch>)
        ensures
            r@.map_values(|p: Patch| p@) == self.accepted(),
    {
        let mut r: Vec<Patch> = Vec::new();
        let mut i: usize = 0;
        while i < self.patches.len()
            invariant
                0 <= i <= self.patches.len(),
                r@.map_values(|p: Patch| p@) == self.accepted().take(i as int),
            decreases self.patches.len() - i,
        {
            let q = &self.patches[i];
            let c = Patch { start: q.start, end: q.end, text: copy_bytes(&q.text) };
            assert(c@ == self.accepted()[i as int]);
            let ghost before = r@.map_values(|p: Patch| p@);
            r.push(c);
            proof {
                assert(r@.map_values(|p: Patch| p@) =~= before.push(self.accepted()[i as int]));
                assert(r@.map_values(|p: Patch| p@) =~= self.accepted().take(i as int + 1));
            }
            i += 1;
        }
        proof {
            assert(self.accepted().take(self.accepted().len() as int) =~= self.accepted());
        }
        r
    }

    /// Drop every patch accepted since the checkpoint was taken.
    pub fn restore(&mut self, snap: Vec<Patch>)
        requires
            patches_wf(snap@.map_values(|p: Patch| p@), old(self).text().len() as int),
        ensures
            final(self).text() == old(self).text(),
            final(self).accepted() == snap@.map_values(|p: Patch| p@),
            final(self).wf(),
    {
        self.patches = snap;
    }

    /// Try to accept one more patch.  A patch recorded before with the same
    /// span and text is reported `Unchanged`; an out-of-bounds span or one
    /// that collides with an accepted patch is reported `Conflict`; in both
    /// cases nothing changes.
    pub fn apply(&mut self, p: Patch) -> (r: ApplyOutcome)
        requires
            old(self).wf(),
        ensures
            final(self).wf(),
            final(self).text() == old(self).text(),
            r == apply_outcome(old(self).accepted(), old(self).text().len() as int, p@),
            final(self).accepted() == apply_patches(
                old(self).accepted(),
                old(self).text().len() as int,
                p@,
            ),
    {
        let ghost ps = self.accepted();
        let ghost len = self.text().len() as int;
        if !(p.start <= p.end && p.end <= self.original.len()) {
            assert(!patch_in_bounds(p@, len));
            return ApplyOutcome::Conflict;
        }
        // Look for an identical patch or a collision.
        let mut i: usize = 0;
        while i < self.patches.len()
            invariant
                0 <= i <= self.patches.len(),
                self.original == old(self).original,
                self.patches == old(self).patches,
                self.accepted() == ps,
                self.wf(),
                self.text().len() as int == len,
                patch_in_bounds(p@, len),
                forall|j: int|
                    0 <= j < i ==> !((#[trigger] ps[j]).start == p@.start && ps[j].end == p@.end
                        && ps[j].text == p@.text),
                forall|j: int| 0 <= j < i ==> !conflicts_with(#[trigger] ps[j], p@),
            decreases self.patches.len() - i,
        {
            let q = &self.patches[i];
            if q.start == p.start && q.end == p.end && bytes_eq_slice(&q.text, &p.text) {
                assert(ps[i as int].start == p@.start && ps[i as int].end == p@.end
                    && ps[i as int].text == p@.text);
                return ApplyOutcome::Unchanged;
            }
            let ghost not_identical_here = !(ps[i as int].start == p@.start && ps[i as int].end
                == p@.end && ps[i as int].text == p@.text);
            if !(p.end <= q.start || q.end <= p.start) || (p.start == q.start && p.end == q.end)
            {
                proof {
                    assert(conflicts_with(ps[i as int], p@));
                    // In a well-formed set a patch identical to `p` would be
                    // disjoint from every other patch and name a span no
                    // other patch names; that contradicts the collision
                    // just found.
                    assert forall|j: int| 0 <= j < ps.len() implies !((#[trigger] ps[j]).start
                        == p@.start && ps[j].end == p@.end && ps[j].text == p@.text) by {
                        if ps[j].start == p@.start && ps[j].end == p@.end && ps[j].text
                            == p@.text {
                            if j < i as int {
                            } else if j == i as int {
                                assert(not_identical_here);
                            } else {
                                assert(ps[i as int].end <= ps[j].start && lex_before(
                                    ps[i as int],
                                    ps[j],
                                ));
                            }
                        }
                    }
                    assert(!has_identical(ps, p@));
                }
                return ApplyOutcome::Conflict;
            }
            i += 1;
        }
        assert(!has_identical(ps, p@));
        assert(!has_conflict(ps, p@));
        // Find the insertion point: the first accepted patch whose span
        // comes later in the order.
        let mut k: usize = 0;
        while k < self.patches.len() && (self.patches[k].start < p.start || (self.patches[k].start
            == p.start && self.patches[k].end < p.end))
            invariant
                0 <= k <= self.patches.len(),
                self.original == old(self).original,
                self.patches == old(self).patches,
                self.accepted() == ps,
                self.text().len() as int == len,
                patch_in_bounds(p@, len),
                !has_identical(ps, p@),
                !has_conflict(ps, p@),
                forall|j: int| 0 <= j < k ==> lex_before(#[trigger] ps[j], p@),
            decreases self.patches.len() - k,
        {
            k += 1;
        }
        proof {
            if (k as int) < ps.len() {
                // No collision means in particular no shared span.
                assert(!conflicts_with(ps[k as int], p@));
                assert(lex_before(p@, ps[k as int]));
            }
        }
        let ghost pv = p@;
        self.patches.insert(k, p);
        proof {
            lemma_insert_sorted_at(ps, pv, k as int);
            assert(self.accepted() =~= ps.subrange(0, k as int) + seq![pv] + ps.subrange(
                k as int,
                ps.len() as int,
            ));
            lemma_insert_keeps_wf(ps, len, pv, k as int);
            assert(!patch_in_bounds(pv, len) == false);
            assert(apply_outcome(ps, len, pv) == ApplyOutcome::Applied);
        }
        ApplyOutcome::Applied
    }

    /// The repaired text: every accepted patch applied, highest start first.
    pub fn finish(&self) -> (r: Vec<u8>)
        requires
            self.wf(),
        ensures
            r@ == rendered(self.text(), self.accepted()),
    {
        let ghost ps = self.accepted();
        let mut buf: Vec<u8> = copy_bytes(&self.original);
        let mut i: usize = self.patches.len();
        while i > 0
            invariant
                0 <= i <= self.patches.len(),
                self.wf(),
                ps == self.accepted(),
                buf@ == rendered(self.text(), ps.subrange(i as int, ps.len() as int)),
            decreases i,
        {
            i -= 1;
            let p = &self.patches[i];
            proof {
                let tail = ps.subrange(i as int + 1, ps.len() as int);
                assert(p@ == ps[i as int]);
                assert(patch_in_bounds(ps[i as int], self.text().len() as int));
                assert(forall|a: int| 0 <= a < tail.len() ==> tail[a] == ps[a + i + 1]);
                assert(patches_wf(tail, self.text().len() as int));
                assert(forall|a: int|
                    0 <= a < tail.len() ==> p@.end <= (#[trigger] tail[a]).start);
                lemma_rendered_keeps_prefix(self.text(), tail, p@.end);
                assert(ps.subrange(i as int, ps.len() as int).drop_first() =~= tail);
                assert(ps.subrange(i as int, ps.len() as int).first() == ps[i as int]);
            }
            buf = splice_bytes(&buf, p.start, p.end, &p.text);
        }
        proof {
            assert(ps.subrange(0, ps.len() as int) =~= ps);
        }
        buf
    }
}

/// Compare two byte slices for equality.
pub fn bytes_eq_slice(a: &Vec<u8>, b: &Vec<u8>) -> (r: bool)
    ensures
        r == (a@ == b@),
{
    if a.len() != b.len() {
        return false;
    }
    let mut i: usize = 0;
    while i < a.len()
        invariant
            i <= a.len(),
            a.len() == b.len(),
            forall|j: int| 0 <= j < i ==> a@[j] == b@[j],
        decreases a.len() - i,
    {
        if a[i] != b[i] {
            return false;
        }
        i += 1;
    }
    proof {
        assert(a@ =~= b@);
    }
    true
}

/// Copy a byte string.
pub fn copy_bytes(a: &Vec<u8>) -> (r: Vec<u8>)
    ensures
        r@ == a@,
{
    let mut r: Vec<u8> = Vec::new();
    let mut i: usize = 0;
    while i < a.len()
        invariant
            i <= a.len(),
            r@ == a@.subrange(0, i as int),
        decreases a.len() - i,
    {
        r.push(a[i]);
        proof {
            assert(r@ =~= a@.subrange(0, i as int + 1));
        }
        i += 1;
    }
    proof {
        assert(a@.subrange(0, a@.len() as int) =~= a@);
    }
    r
}

/// `s` with the bytes at `[start, end)` replaced by `t`, as a new vector.
pub fn splice_bytes(s: &Vec<u8>, start: usize, end: usize, t: &Vec<u8>) -> (r: Vec<u8>)
    requires
        start <= end <= s@.len(),
    ensures
        r@ == splice(s@, start as int, end as int, t@),
{
    let mut r: Vec<u8> = Vec::new();
    let mut i: usize = 0;
    while i < start
        invariant
            i <= start <= s@.len(),
            r@ == s@.subrange(0, i as int),
        decreases start - i,
    {
        r.push(s[i]);
        proof {
            assert(r@ =~= s@.subrange(0, i as int + 1));
        }
        i += 1;
    }
    let mut j: usize = 0;
    while j < t.len()
        invariant
            j <= t@.len(),
            start <= end <= s@.len(),
            r@ == s@.subrange(0, start as int) + t@.subrange(0, j as int),
        decreases t.len() - j,
    {
        r.push(t[j]);
        proof {
            assert(r@ =~= s@.subrange(0, start as int) + t@.subrange(0, j as int + 1));
        }
        j += 1;
    }
    let mut k: usize = end;
    while k < s.len()
        invariant
            end <= k <= s@.len(),
            start <= end,
            t@.subrange(0, t@.len() as int) == t@,
            r@ == s@.subrange(0, start as int) + t@ + s@.subrange(end as int, k as int),
        decreases s.len() - k,
    {
        r.push(s[k]);
        proof {
            assert(r@ =~= s@.subrange(0, start as int) + t@ + s@.subrange(
                end as int,
                k as int + 1,
            ));
        }
        k += 1;
    }
    proof {
        assert(t@.subrange(0, t@.len() as int) =~= t@);
        assert(r@ =~= splice(s@, start as int, end as int, t@));
    }
    r
}

/// Applying patches that all start at or after `k` neither shortens the text
/// below `k` nor changes its first `k` bytes.
pub proof fn lemma_rendered_keeps_prefix(s: Seq<u8>, ps: Seq<PatchV>, k: int)
    requires
        patches_wf(ps, s.len() as int),
        0 <= k <= s.len(),
        forall|i: int| 0 <= i < ps.len() ==> k <= (#[trigger] ps[i]).start,
    ensures
        rendered(s, ps).len() >= k,
        rendered(s, ps).subrange(0, k) == s.subrange(0, k),
    decreases ps.len(),
{
    if ps.len() == 0 {
    } else {
        let p = ps.first();
        let tail = ps.drop_first();
        assert(forall|i: int| 0 <= i < tail.len() ==> tail[i] == ps[i + 1]);
        assert(patches_wf(tail, s.len() as int));
        assert(forall|i: int| 0 <= i < tail.len() ==> p.end <= (#[trigger] tail[i]).start);
        lemma_rendered_keeps_prefix(s, tail, p.end);
        let r1 = rendered(s, tail);
        let r = rendered(s, ps);
        assert(r == splice(r1, p.start, p.end, p.text));
        assert(r1.subrange(0, p.end) == s.subrange(0, p.end));
        assert(r1.subrange(0, p.start) =~= s.subrange(0, p.start)) by {
            assert(forall|x: int|
                0 <= x < p.start ==> r1.subrange(0, p.end)[x] == s.subrange(0, p.end)[x]);
        }
        assert(r.len() >= k);
        assert(r.subrange(0, k) =~= s.subrange(0, k)) by {
            assert(forall|x: int| 0 <= x < k ==> r[x] == r1.subrange(0, p.start)[x]);
        }
    }
}

/// Inserting a patch at the first position whose span does not come
/// earlier yields exactly the sorted insertion.
proof fn lemma_insert_sorted_at(ps: Seq<PatchV>, p: PatchV, k: int)
    requires
        0 <= k <= ps.len(),
        forall|j: int| 0 <= j < k ==> lex_before(#[trigger] ps[j], p),
        k < ps.len() ==> lex_before(p, ps[k]),
    ensures
        insert_sorted(ps, p) == ps.subrange(0, k) + seq![p] + ps.subrange(k, ps.len() as int),
    decreases ps.len(),
{
    if ps.len() == 0 {
        assert(insert_sorted(ps, p) =~= ps.subrange(0, k) + seq![p] + ps.subrange(
            k,
            ps.len() as int,
        ));
    } else if lex_before(p, ps.first()) {
        assert(k == 0) by {
            if k > 0 {
                assert(lex_before(ps[0], p));
            }
        }
        assert(insert_sorted(ps, p) =~= ps.subrange(0, k) + seq![p] + ps.subrange(
            k,
            ps.len() as int,
        ));
    } else {
        assert(k >= 1) by {
            if k == 0 {
                assert(lex_before(p, ps[0]));
            }
        }
        let tail = ps.drop_first();
        assert(forall|j: int| 0 <= j < k - 1 ==> lex_before(#[trigger] tail[j], p));
        lemma_insert_sorted_at(tail, p, k - 1);
        assert(insert_sorted(ps, p) =~= ps.subrange(0, k) + seq![p] + ps.subrange(
            k,
            ps.len() as int,
        )) by {
            assert(insert_sorted(ps, p) == seq![ps.first()] + insert_sorted(tail, p));
            assert(insert_sorted(tail, p) == tail.subrange(0, k - 1) + seq![p] + tail.subrange(
                k - 1,
                tail.len() as int,
            ));
            assert(forall|j: int| 0 <= j < tail.len() ==> tail[j] == ps[j + 1]);
        }
    }
}

/// A fresh, collision-free patch inserted at its sorted position keeps the
/// accepted set well formed.
proof fn lemma_insert_keeps_wf(ps: Seq<PatchV>, len: int, p: PatchV, k: int)
    requires
        patches_wf(ps, len),
        patch_in_bounds(p, len),
        !has_conflict(ps, p),
        0 <= k <= ps.len(),
        forall|j: int| 0 <= j < k ==> lex_before(#[trigger] ps[j], p),
        k < ps.len() ==> lex_before(p, ps[k]),
    ensures
        patches_wf(ps.subrange(0, k) + seq![p] + ps.subrange(k, ps.len() as int), len),
{
    let r = ps.subrange(0, k) + seq![p] + ps.subrange(k, ps.len() as int);
    assert(forall|i: int| 0 <= i < k ==> r[i] == ps[i]);
    assert(r[k as int] == p);
    assert(forall|i: int| k < i < r.len() ==> r[i] == ps[i - 1]);
    assert forall|i: int| 0 <= i < ps.len() implies !conflicts_with(#[trigger] ps[i], p) by {
        assert(!has_conflict(ps, p));
    }
    assert forall|i: int, j: int| 0 <= i < j < r.len() implies (#[trigger] r[i]).end
        <= (#[trigger] r[j]).start && lex_before(r[i], r[j]) by {
        if i < k && j < k {
        } else if i < k && j == k {
            // ps[i]'s span comes earlier and does not collide with p, so
            // the spans cannot properly intersect: ps[i] ends by p's start.
            assert(!conflicts_with(ps[i], p));
            if ps[i].start == p.start {
                // An earlier span with the same start is a pure insertion.
                assert(ps[i].end < p.end);
                assert(p.end <= ps[i].start || ps[i].end <= p.start);
            }
        } else if i == k && j > k {
            assert(!conflicts_with(ps[j - 1], p));
            if p.start == ps[j - 1].start {
                assert(p.end < ps[j - 1].end);
                assert(p.end <= ps[j - 1].start || ps[j - 1].end <= p.start);
            }
        } else if i < k && j > k {
        } else if i > k && j > k {
        }
    }
}

/// A freshly inserted patch is recorded in the result.
pub proof fn lemma_insert_contains(ps: Seq<PatchV>, p: PatchV)
    ensures
        has_identical(insert_sorted(ps, p), p),
    decreases ps.len(),
{
    let r = insert_sorted(ps, p);
    if ps.len() == 0 {
        assert(r[0].start == p.start && r[0].end == p.end && r[0].text == p.text);
    } else if lex_before(p, ps.first()) {
        assert(r[0].start == p.start && r[0].end == p.end && r[0].text == p.text);
    } else {
        lemma_insert_contains(ps.drop_first(), p);
        let inner = insert_sorted(ps.drop_first(), p);
        let i = choose|i: int|
            0 <= i < inner.len() && (#[trigger] inner[i]).start == p.start && inner[i].end
                == p.end && inner[i].text == p.text;
        assert(r[i + 1] == inner[i]);
    }
}

/// Insertion never drops a recorded patch.
pub proof fn lemma_insert_preserves_identical(ps: Seq<PatchV>, p: PatchV, q: PatchV)
    requires
        has_identical(ps, q),
    ensures
        has_identical(insert_sorted(ps, p), q),
    decreases ps.len(),
{
    let r = insert_sorted(ps, p);
    let i = choose|i: int|
        0 <= i < ps.len() && (#[trigger] ps[i]).start == q.start && ps[i].end == q.end
            && ps[i].text == q.text;
    if ps.len() == 0 {
    } else if lex_before(p, ps.first()) {
        assert(r[i + 1] == ps[i]);
    } else {
        if i == 0 {
            assert(r[0] == ps[0]);
        } else {
            let tail = ps.drop_first();
            assert(tail[i - 1] == ps[i]);
            assert(has_identical(tail, q));
            lemma_insert_preserves_identical(tail, p, q);
            let inner = insert_sorted(tail, p);
            let m = choose|m: int|
                0 <= m < inner.len() && (#[trigger] inner[m]).start == q.start && inner[m].end
                    == q.end && inner[m].text == q.text;
            assert(r[m + 1] == inner[m]);
        }
    }
}

/// Law of idempotence: once a patch has applied, applying the very same
/// patch again reports `Unchanged` and leaves the accepted set — and so
/// the rendered text — exactly as it was.
pub proof fn lemma_apply_idempotent(ps: Seq<PatchV>, len: int, p: PatchV)
    requires
        patches_wf(ps, len),
        apply_outcome(ps, len, p) == ApplyOutcome::Applied,
    ensures
        apply_outcome(apply_patches(ps, len, p), len, p) == ApplyOutcome::Unchanged,
        apply_patches(apply_patches(ps, len, p), len, p) == apply_patches(ps, len, p),
{
    lemma_insert_contains(ps, p);
}

/// Law of reverse-order application: two disjoint patches, applied highest
/// start first, land at their original offsets — the later patch does not
/// shift the earlier one's span.
pub proof fn lemma_reverse_order_two(s: Seq<u8>, a: PatchV, b: PatchV)
    requires
        0 <= a.start <= a.end <= b.start <= b.end <= s.len(),
    ensures
        rendered(s, seq![a, b]) == s.subrange(0, a.start) + a.text + s.subrange(a.end, b.start)
            + b.text + s.subrange(b.end, s.len() as int),
{
    let two = seq![a, b];
    assert(two.drop_first() =~= seq![b]);
    assert(seq![b].drop_first() =~= Seq::<PatchV>::empty());
    assert(rendered(s, Seq::<PatchV>::empty()) == s);
    let r1 = rendered(s, seq![b]);
    assert(r1 == splice(s, b.start, b.end, b.text));
    assert(rendered(s, two) == splice(r1, a.start, a.end, a.text));
    assert(r1.subrange(0, a.start) =~= s.subrange(0, a.start));
    assert(r1.subrange(a.end, r1.len() as int) =~= s.subrange(a.end, b.start) + b.text
        + s.subrange(b.end, s.len() as int));
    assert(rendered(s, two) =~= s.subrange(0, a.start) + a.text + (s.subrange(a.end, b.start)
        + b.text + s.subrange(b.end, s.len() as int)));
    assert(s.subrange(0, a.start) + a.text + (s.subrange(a.end, b.start) + b.text + s.subrange(
        b.end,
        s.len() as int,
    )) =~= s.subrange(0, a.start) + a.text + s.subrange(a.end, b.start) + b.text + s.subrange(
        b.end,
        s.len() as int,
    ));
}

} // verus!
