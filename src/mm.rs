//! Per-task address spaces made of framed areas, and the bridge that turns
//! a user address range into physical byte ranges the kernel may touch.
use vstd::prelude::*;
use crate::config::{MAX_FRAMES, PAGE_SIZE};

verus! {

/// Access rights of a mapped page.
#[derive(Clone, Copy, PartialEq, Eq, Structural, Debug)]
pub struct MapPermission {
    pub read: bool,
    pub write: bool,
    pub execute: bool,
    pub user: bool,
}

/// Page-table entry: the frame backing a page and its rights.
#[derive(Clone, Copy, PartialEq, Eq, Structural, Debug)]
pub struct PageTableEntry {
    pub ppn: usize,
    pub perm: MapPermission,
}

/// A range of physical bytes the kernel may access on behalf of a task.
#[derive(Clone, Copy, PartialEq, Eq, Structural, Debug)]
pub struct PhysRange {
    /// Physical address of the first byte.
    pub pa: usize,
    /// Number of bytes.
    pub len: usize,
}

/// Abstract view of one area.
pub struct AreaView {
    pub start: usize,
    pub end: usize,
    pub perm: MapPermission,
    pub frames: Seq<usize>,
}

/// A framed area: virtual pages `[start_vpn, end_vpn)`, page
/// `start_vpn + i` backed by frame `frames[i]`.
pub struct MapArea {
    pub start_vpn: usize,
    pub end_vpn: usize,
    pub perm: MapPermission,
    pub frames: Vec<usize>,
}

impl View for MapArea {
    type V = AreaView;

    open spec fn view(&self) -> AreaView {
        AreaView { start: self.start_vpn, end: self.end_vpn, perm: self.perm, frames: self.frames@ }
    }
}

/// Bounds of an area.
pub open spec fn bounds(a: AreaView) -> (usize, usize) {
    (a.start, a.end)
}

/// Whether area `a` covers page `vpn`.
pub open spec fn covers(a: AreaView, vpn: int) -> bool {
    a.start <= vpn < a.end
}

/// Whether some area covers page `vpn`.
pub open spec fn vpn_mapped(areas: Seq<AreaView>, vpn: int) -> bool {
    exists|i: int| 0 <= i < areas.len() && covers(#[trigger] areas[i], vpn)
}

/// Whether any page of `[start, end)` is mapped.
pub open spec fn range_mapped(areas: Seq<AreaView>, start: int, end: int) -> bool {
    exists|v: int| start <= v < end && #[trigger] vpn_mapped(areas, v)
}

/// Entry of the page table for page `vpn`.
pub open spec fn lookup(areas: Seq<AreaView>, vpn: int) -> Option<PageTableEntry> {
    if vpn_mapped(areas, vpn) {
        let i = choose|i: int| 0 <= i < areas.len() && covers(#[trigger] areas[i], vpn);
        Some(PageTableEntry { ppn: areas[i].frames[vpn - areas[i].start], perm: areas[i].perm })
    } else {
        None
    }
}

/// Areas are well-formed and pairwise disjoint; frames are in range.
pub open spec fn areas_wf(areas: Seq<AreaView>) -> bool {
    &&& forall|i: int|
        0 <= i < areas.len() ==> {
            &&& (#[trigger] areas[i]).start <= areas[i].end
            &&& areas[i].frames.len() == areas[i].end - areas[i].start
            &&& forall|k: int| 0 <= k < areas[i].frames.len() ==> areas[i].frames[k] < MAX_FRAMES
        }
    &&& forall|i: int, j: int|
        0 <= i < areas.len() && 0 <= j < areas.len() && i != j ==> disjoint(
            #[trigger] areas[i],
            #[trigger] areas[j],
        )
}

/// Two areas share no page.
pub open spec fn disjoint(a: AreaView, b: AreaView) -> bool {
    a.start == a.end || b.start == b.end || a.end <= b.start || b.end <= a.start
}

/// Index of the area whose bounds are exactly `[start, end)`.
pub open spec fn exact_match(areas: Seq<AreaView>, start: usize, end: usize) -> Option<int> {
    if exists|i: int| 0 <= i < areas.len() && bounds(#[trigger] areas[i]) == (start, end) {
        Some(choose|i: int| 0 <= i < areas.len() && bounds(#[trigger] areas[i]) == (start, end))
    } else {
        None
    }
}

/// A task's address space.
pub struct MemorySet {
    pub areas: Vec<MapArea>,
}

impl View for MemorySet {
    type V = Seq<AreaView>;

    open spec fn view(&self) -> Seq<AreaView> {
        self.areas@.map_values(|a: MapArea| a@)
    }
}

/// Two areas covering one page are the same area.
pub proof fn lemma_cover_unique(areas: Seq<AreaView>, vpn: int, i: int, j: int)
    requires
        areas_wf(areas),
        0 <= i < areas.len(),
        0 <= j < areas.len(),
        covers(areas[i], vpn),
        covers(areas[j], vpn),
    ensures
        i == j,
{
}

impl MemorySet {
    /// Well-formed: disjoint areas with one frame per page.
    pub open spec fn wf(&self) -> bool {
        areas_wf(self@)
    }

    /// An empty address space.
    pub fn new_bare() -> (r: Self)
        ensures
            r.wf(),
            r@ == Seq::<AreaView>::empty(),
    {
        let r = MemorySet { areas: Vec::new() };
        assert(r@ =~= Seq::<AreaView>::empty());
        r
    }

    /// Whether any page of `[start_vpn, end_vpn)` is already mapped.
    pub fn check_vpn_range(&self, start_vpn: usize, end_vpn: usize) -> (r: bool)
        requires
            self.wf(),
        ensures
            r == range_mapped(self@, start_vpn as int, end_vpn as int),
    {
        let n = self.areas.len();
        let mut i: usize = 0;
        while i < n
            invariant
                n == self.areas.len(),
                areas_wf(self@),
                i <= n,
                forall|k: int|
                    0 <= k < i ==> !(start_vpn < end_vpn && self@[k].start < end_vpn && start_vpn
                        < self@[k].end && self@[k].start < self@[k].end),
            decreases n - i,
        {
            let a = &self.areas[i];
            if start_vpn < end_vpn && a.start_vpn < end_vpn && start_vpn < a.end_vpn && a.start_vpn < a.end_vpn {
                let v: usize = if a.start_vpn < start_vpn { start_vpn } else { a.start_vpn };
                assert(covers(self@[i as int], v as int));
                assert(vpn_mapped(self@, v as int));
                return true;
            }
            i = i + 1;
        }
        assert forall|v: int| start_vpn <= v < end_vpn implies !vpn_mapped(self@, v) by {
            if vpn_mapped(self@, v) {
                let k = choose|k: int| 0 <= k < self@.len() && covers(#[trigger] self@[k], v);
            }
        }
        false
    }

    /// Adds area `[start_vpn, end_vpn)` backed by `frames`. The caller has
    /// checked that no page of the range is mapped.
    pub fn insert_framed_area(
        &mut self,
        start_vpn: usize,
        end_vpn: usize,
        perm: MapPermission,
        frames: Vec<usize>,
    )
        requires
            old(self).wf(),
            start_vpn <= end_vpn,
            frames@.len() == end_vpn - start_vpn,
            forall|k: int| 0 <= k < frames@.len() ==> frames@[k] < MAX_FRAMES,
            !range_mapped(old(self)@, start_vpn as int, end_vpn as int),
        ensures
            final(self).wf(),
            final(self)@ == old(self)@.push(
                AreaView { start: start_vpn, end: end_vpn, perm, frames: frames@ },
            ),
    {
        let ghost old_areas = self@;
        let area = MapArea { start_vpn, end_vpn, perm, frames };
        self.areas.push(area);
        assert(self@ =~= old_areas.push(area@));
        assert forall|i: int, j: int|
            0 <= i < self@.len() && 0 <= j < self@.len() && i != j implies disjoint(
            #[trigger] self@[i],
            #[trigger] self@[j],
        ) by {
            if i == old_areas.len() as int || j == old_areas.len() as int {
                let o = if i == old_areas.len() as int { j } else { i };
                let b = self@[o];
                if b.start < end_vpn && start_vpn < b.end && b.start < b.end && start_vpn < end_vpn {
                    let v: int = if b.start < start_vpn { start_vpn as int } else { b.start as int };
                    assert(old_areas[o] == b);
                    assert(covers(old_areas[o], v));
                    assert(vpn_mapped(old_areas, v));
                }
            }
        }
    }

    /// Index of the area whose bounds are exactly `[start_vpn, end_vpn)`.
    pub fn find_exact_match(&self, start_vpn: usize, end_vpn: usize) -> (r: Option<usize>)
        requires
            self.wf(),
        ensures
            r is Some <==> exact_match(self@, start_vpn, end_vpn) is Some,
            r matches Some(i) ==> i < self@.len() && bounds(self@[i as int]) == (start_vpn, end_vpn),
            start_vpn < end_vpn ==> (r matches Some(i) ==> exact_match(self@, start_vpn, end_vpn)
                == Some(i as int)),
    {
        let n = self.areas.len();
        let mut i: usize = 0;
        while i < n
            invariant
                n == self.areas.len(),
                areas_wf(self@),
                i <= n,
                forall|k: int| 0 <= k < i ==> bounds(#[trigger] self@[k]) != (start_vpn, end_vpn),
            decreases n - i,
        {
            if self.areas[i].start_vpn == start_vpn && self.areas[i].end_vpn == end_vpn {
                assert(bounds(self@[i as int]) == (start_vpn, end_vpn));
                proof {
                    if start_vpn < end_vpn {
                        let c = choose|c: int|
                            0 <= c < self@.len() && bounds(#[trigger] self@[c]) == (start_vpn, end_vpn);
                        if c != i {
                            assert(covers(self@[c], start_vpn as int));
                            lemma_cover_unique(self@, start_vpn as int, c, i as int);
                        }
                    }
                }
                return Some(i);
            }
            i = i + 1;
        }
        None
    }

    /// Removes the area whose bounds are exactly `[start_vpn, end_vpn)` and
    /// hands back its frames; `None`, with nothing changed, when there is none.
    pub fn remove_area(&mut self, start_vpn: usize, end_vpn: usize) -> (r: Option<Vec<usize>>)
        requires
            old(self).wf(),
            start_vpn < end_vpn,
        ensures
            final(self).wf(),
            match exact_match(old(self)@, start_vpn, end_vpn) {
                Some(i) => r matches Some(f) && f@ == old(self)@[i].frames && final(self)@
                    == old(self)@.remove(i),
                None => r is None && final(self)@ == old(self)@,
            },
    {
        match self.find_exact_match(start_vpn, end_vpn) {
            Some(i) => {
                let ghost old_areas = self@;
                let area = self.areas.remove(i);
                assert(self@ =~= old_areas.remove(i as int));
                assert forall|a: int, b: int|
                    0 <= a < self@.len() && 0 <= b < self@.len() && a != b implies disjoint(
                    #[trigger] self@[a],
                    #[trigger] self@[b],
                ) by {
                    let oa = if a < i { a } else { a + 1 };
                    let ob = if b < i { b } else { b + 1 };
                    assert(self@[a] == old_areas[oa]);
                    assert(self@[b] == old_areas[ob]);
                }
                assert forall|a: int| 0 <= a < self@.len() implies ({
                    &&& (#[trigger] self@[a]).start <= self@[a].end
                    &&& self@[a].frames.len() == self@[a].end - self@[a].start
                    &&& forall|k: int| 0 <= k < self@[a].frames.len() ==> self@[a].frames[k] < MAX_FRAMES
                }) by {
                    let oa = if a < i { a } else { a + 1 };
                    assert(self@[a] == old_areas[oa]);
                }
                Some(area.frames)
            },
            None => None,
        }
    }

    /// Page-table entry of page `vpn`.
    pub fn translate(&self, vpn: usize) -> (r: Option<PageTableEntry>)
        requires
            self.wf(),
        ensures
            r == lookup(self@, vpn as int),
    {
        let n = self.areas.len();
        let mut i: usize = 0;
        while i < n
            invariant
                n == self.areas.len(),
                areas_wf(self@),
                i <= n,
                forall|k: int| 0 <= k < i ==> !covers(#[trigger] self@[k], vpn as int),
            decreases n - i,
        {
            let a = &self.areas[i];
            if a.start_vpn <= vpn && vpn < a.end_vpn {
                assert(covers(self@[i as int], vpn as int));
                proof {
                    let c = choose|c: int| 0 <= c < self@.len() && covers(#[trigger] self@[c], vpn as int);
                    lemma_cover_unique(self@, vpn as int, c, i as int);
                }
                return Some(PageTableEntry { ppn: a.frames[vpn - a.start_vpn], perm: a.perm });
            }
            i = i + 1;
        }
        proof {
            if vpn_mapped(self@, vpn as int) {
                let c = choose|c: int| 0 <= c < self@.len() && covers(#[trigger] self@[c], vpn as int);
            }
        }
        None
    }
}

/// Number of pages touched by the bytes `[va, va + len)`.
pub open spec fn piece_count(va: int, len: int) -> int {
    if len <= 0 {
        0
    } else {
        (va + len - 1) / (PAGE_SIZE as int) - va / (PAGE_SIZE as int) + 1
    }
}

/// First virtual byte of the `i`-th piece of `[va, va + len)`.
pub open spec fn piece_start(va: int, i: int) -> int {
    if i == 0 {
        va
    } else {
        (va / (PAGE_SIZE as int) + i) * (PAGE_SIZE as int)
    }
}

/// End (exclusive) of the `i`-th piece of `[va, va + len)`: the next page
/// boundary, or the end of the range.
pub open spec fn piece_end(va: int, len: int, i: int) -> int {
    let boundary = (va / (PAGE_SIZE as int) + i + 1) * (PAGE_SIZE as int);
    if va + len < boundary {
        va + len
    } else {
        boundary
    }
}

/// Physical address of virtual byte `v`, where its page is mapped.
pub open spec fn phys_addr(areas: Seq<AreaView>, v: int) -> int {
    match lookup(areas, v / (PAGE_SIZE as int)) {
        Some(e) => e.ppn * (PAGE_SIZE as int) + v % (PAGE_SIZE as int),
        None => 0,
    }
}

/// Whether user code may access virtual byte `v` (writing when `write`).
pub open spec fn user_accessible(areas: Seq<AreaView>, v: int, write: bool) -> bool {
    match lookup(areas, v / (PAGE_SIZE as int)) {
        Some(e) => e.perm.user && if write { e.perm.write } else { e.perm.read },
        None => false,
    }
}

/// Whether every page of `[va, va + len)` grants the access.
pub open spec fn range_accessible(areas: Seq<AreaView>, va: int, len: int, write: bool) -> bool {
    forall|i: int| 0 <= i < piece_count(va, len) ==> user_accessible(areas, #[trigger] piece_start(va, i), write)
}

/// The pieces `[va, va + len)` splits into: one per page touched, in order,
/// each starting at the physical address of its first byte.
pub open spec fn bridge_pieces_ok(areas: Seq<AreaView>, va: int, len: int, r: Seq<PhysRange>) -> bool {
    &&& r.len() == piece_count(va, len)
    &&& forall|i: int|
        0 <= i < r.len() ==> {
            &&& (#[trigger] r[i]).pa == phys_addr(areas, piece_start(va, i))
            &&& r[i].len == piece_end(va, len, i) - piece_start(va, i)
        }
}

proof fn lemma_piece_step(va: int, len: int, i: int)
    requires
        0 <= va,
        0 < len,
        0 <= i,
        piece_end(va, len, i) < va + len,
    ensures
        piece_end(va, len, i) == piece_start(va, i + 1),
        i + 1 < piece_count(va, len),
        piece_start(va, i) < piece_end(va, len, i),
        piece_start(va, i + 1) / (PAGE_SIZE as int) == va / (PAGE_SIZE as int) + i + 1,
        piece_start(va, i + 1) % (PAGE_SIZE as int) == 0,
{
    let p = PAGE_SIZE as int;
    let q = va / p;
    assert(va < (q + 1) * p);
    assert((q + i + 1) * p == (q + i + 1) * p);
    assert(((q + i + 1) * p) / p == q + i + 1) by (nonlinear_arith)
        requires p == 4096;
    assert(((q + i + 1) * p) % p == 0) by (nonlinear_arith)
        requires p == 4096;
    assert((va + len - 1) / p >= q + i + 1) by (nonlinear_arith)
        requires p == 4096, (q + i + 1) * p <= va + len - 1;
    if i > 0 {
        assert(q * p + i * p < (q + i + 1) * p) by (nonlinear_arith)
            requires p == 4096, i >= 0;
        assert((q + i) * p < (q + i + 1) * p) by (nonlinear_arith)
            requires p == 4096;
    }
}

proof fn lemma_piece_last(va: int, len: int, i: int)
    requires
        0 <= va,
        0 < len,
        0 <= i,
        piece_start(va, i) < va + len,
        i == 0 || piece_start(va, i) / (PAGE_SIZE as int) == va / (PAGE_SIZE as int) + i,
        piece_end(va, len, i) == va + len,
    ensures
        i + 1 == piece_count(va, len),
{
    let p = PAGE_SIZE as int;
    let q = va / p;
    assert(va + len <= (q + i + 1) * p);
    assert(q * p <= va) by (nonlinear_arith)
        requires p == 4096, q == va / p, va >= 0;
    if i == 0 {
        assert((va + len - 1) / p == q) by (nonlinear_arith)
            requires p == 4096, q == va / p, va >= 0, va + len <= (q + 1) * p, len > 0;
    } else {
        assert((q + i) * p < va + len);
        assert((va + len - 1) / p == q + i) by (nonlinear_arith)
            requires p == 4096, (q + i) * p <= va + len - 1, va + len <= (q + i + 1) * p;
    }
}

/// Splits the user bytes `[va, va + len)` of `ms` into physical pieces, one
/// per page, in order. `None` when some page of the range is unmapped or
/// lacks the right (`write` selects writing, else reading) for user code.
pub fn translated_byte_buffer(ms: &MemorySet, va: usize, len: usize, write: bool) -> (r: Option<
    Vec<PhysRange>,
>)
    requires
        ms.wf(),
        va + len <= usize::MAX,
    ensures
        r is Some <==> range_accessible(ms@, va as int, len as int, write),
        r matches Some(v) ==> bridge_pieces_ok(ms@, va as int, len as int, v@),
{
    let end = va + len;
    let mut out: Vec<PhysRange> = Vec::new();
    let mut cur = va;
    let mut i: usize = 0;
    if len == 0 {
        return Some(out);
    }
    while cur < end
        invariant
            ms.wf(),
            end == va + len,
            len > 0,
            va <= cur <= end,
            cur < end ==> cur as int == piece_start(va as int, i as int),
            cur < end ==> (i == 0 || cur as int / (PAGE_SIZE as int) == va as int / (PAGE_SIZE as int) + i),
            cur < end ==> (i == 0 || cur as int % (PAGE_SIZE as int) == 0),
            cur < end ==> i < piece_count(va as int, len as int),
            cur == end ==> i == piece_count(va as int, len as int),
            out@.len() == i,
            forall|k: int| 0 <= k < i ==> user_accessible(ms@, #[trigger] piece_start(va as int, k), write),
            forall|k: int|
                0 <= k < i ==> {
                    &&& (#[trigger] out@[k]).pa == phys_addr(ms@, piece_start(va as int, k))
                    &&& out@[k].len == piece_end(va as int, len as int, k) - piece_start(va as int, k)
                },
        decreases end - cur,
    {
        let vpn = cur / PAGE_SIZE;
        let entry = match ms.translate(vpn) {
            Some(e) => e,
            None => {
                assert(!user_accessible(ms@, piece_start(va as int, i as int), write));
                return None;
            },
        };
        let allowed = entry.perm.user && if write { entry.perm.write } else { entry.perm.read };
        if !allowed {
            assert(!user_accessible(ms@, piece_start(va as int, i as int), write));
            return None;
        }
        assert(entry.ppn < MAX_FRAMES) by {
            let c = choose|c: int| 0 <= c < ms@.len() && covers(#[trigger] ms@[c], vpn as int);
            assert(ms@[c].frames[vpn - ms@[c].start] < MAX_FRAMES);
        }
        let room = PAGE_SIZE - cur % PAGE_SIZE;
        let piece_len = if end - cur < room { end - cur } else { room };
        let piece_end_v = cur + piece_len;
        let pa = entry.ppn * PAGE_SIZE + cur % PAGE_SIZE;
        out.push(PhysRange { pa, len: piece_len });
        proof {
            let p = PAGE_SIZE as int;
            assert(cur as int == vpn as int * p + cur as int % p) by (nonlinear_arith)
                requires p == 4096, vpn as int == cur as int / p, cur >= 0;
            if i == 0 {
                assert(vpn as int == va as int / (PAGE_SIZE as int));
            }
            assert(piece_end_v as int == piece_end(va as int, len as int, i as int));
            if piece_end_v < end {
                lemma_piece_step(va as int, len as int, i as int);
            } else {
                lemma_piece_last(va as int, len as int, i as int);
            }
        }
        cur = piece_end_v;
        i = i + 1;
    }
    Some(out)
}

/// Sum of the lengths of the first `k` pieces of `[va, va + len)`.
pub open spec fn pieces_total(va: int, len: int, k: int) -> int
    decreases k,
{
    if k <= 0 {
        0
    } else {
        pieces_total(va, len, k - 1) + piece_end(va, len, k - 1) - piece_start(va, k - 1)
    }
}

proof fn lemma_pieces_total(va: int, len: int, k: int)
    requires
        0 <= va,
        0 < len,
        1 <= k <= piece_count(va, len),
    ensures
        pieces_total(va, len, k) == piece_end(va, len, k - 1) - va,
        k < piece_count(va, len) ==> piece_end(va, len, k - 1) < va + len,
        k == piece_count(va, len) ==> piece_end(va, len, k - 1) == va + len,
    decreases k,
{
    reveal_with_fuel(pieces_total, 2);
    let p = PAGE_SIZE as int;
    let q = va / p;
    if k > 1 {
        lemma_pieces_total(va, len, k - 1);
        lemma_piece_step(va, len, k - 2);
    }
    assert(q * p <= va) by (nonlinear_arith)
        requires p == 4096, q == va / p, va >= 0;
    assert(va < (q + 1) * p) by (nonlinear_arith)
        requires p == 4096, q == va / p, va >= 0;
    let c = piece_count(va, len);
    let last = (va + len - 1) / p;
    assert(last * p <= va + len - 1 < (last + 1) * p) by (nonlinear_arith)
        requires p == 4096, last == (va + len - 1) / p, va + len - 1 >= 0;
    assert(c == last - q + 1);
    if k < c {
        assert((q + k) * p <= last * p) by (nonlinear_arith)
            requires p == 4096, q + k <= last;
    } else {
        assert((q + k) * p == (last + 1) * p);
    }
}

/// Pointer-bridge split: the pieces of `[va, va + len)` follow one another
/// with no gap and add up to exactly `len` bytes. A range inside one page
/// gives one piece; a range that crosses exactly one page boundary gives two,
/// the first ending at that boundary and the second starting there.
pub proof fn lemma_bridge_split(va: int, len: int)
    requires
        0 <= va,
        0 < len,
    ensures
        pieces_total(va, len, piece_count(va, len)) == len,
        forall|i: int| 0 <= i < piece_count(va, len) - 1 ==> #[trigger] piece_end(va, len, i)
            == piece_start(va, i + 1),
        va / (PAGE_SIZE as int) == (va + len - 1) / (PAGE_SIZE as int) ==> piece_count(va, len) == 1
            && piece_end(va, len, 0) == va + len,
        (va + len - 1) / (PAGE_SIZE as int) == va / (PAGE_SIZE as int) + 1 ==> {
            &&& piece_count(va, len) == 2
            &&& piece_end(va, len, 0) == (va / (PAGE_SIZE as int) + 1) * (PAGE_SIZE as int)
            &&& piece_start(va, 1) == piece_end(va, len, 0)
            &&& piece_end(va, len, 1) == va + len
        },
{
    let c = piece_count(va, len);
    assert(c >= 1) by {
        let p = PAGE_SIZE as int;
        assert((va + len - 1) / p >= va / p) by (nonlinear_arith)
            requires p == 4096, len >= 1, va >= 0;
    }
    lemma_pieces_total(va, len, c);
    assert forall|i: int| 0 <= i < piece_count(va, len) - 1 implies #[trigger] piece_end(va, len, i)
        == piece_start(va, i + 1) by {
        lemma_pieces_total(va, len, i + 1);
        lemma_piece_step(va, len, i);
    }
    if c == 2 {
        lemma_pieces_total(va, len, 1);
        lemma_piece_step(va, len, 0);
    }
}

/// `m` with the bytes `d` written from address `pa` on.
pub open spec fn write_range(m: Seq<u8>, pa: int, d: Seq<u8>) -> Seq<u8> {
    Seq::new(m.len(), |x: int| if pa <= x < pa + d.len() { d[x - pa] } else { m[x] })
}

/// `m` after writing `d` through the pieces `r`, in order: piece `i`
/// receives the next `r[i].len` bytes of `d`, starting at offset `off`.
pub open spec fn write_pieces(m: Seq<u8>, r: Seq<PhysRange>, d: Seq<u8>, off: int) -> Seq<u8>
    decreases r.len(),
{
    if r.len() == 0 {
        m
    } else {
        write_pieces(
            write_range(m, r[0].pa as int, d.subrange(off, off + r[0].len)),
            r.drop_first(),
            d,
            off + r[0].len,
        )
    }
}

/// Sum of the lengths of the pieces `r`.
pub open spec fn total_len(r: Seq<PhysRange>) -> int
    decreases r.len(),
{
    if r.len() == 0 {
        0
    } else {
        r[0].len + total_len(r.drop_first())
    }
}

/// Whether every piece lies inside a memory of `n` bytes.
pub open spec fn pieces_within(r: Seq<PhysRange>, n: int) -> bool {
    forall|i: int| 0 <= i < r.len() ==> (#[trigger] r[i]).pa + r[i].len <= n
}

proof fn lemma_total_len_nonneg(r: Seq<PhysRange>)
    ensures
        total_len(r) >= 0,
    decreases r.len(),
{
    if r.len() > 0 {
        lemma_total_len_nonneg(r.drop_first());
    }
}

/// Copies `d` into physical memory `mem` through the pieces `r`.
pub fn write_user_bytes(mem: &mut Vec<u8>, r: &Vec<PhysRange>, d: &Vec<u8>)
    requires
        total_len(r@) == d@.len(),
        pieces_within(r@, old(mem)@.len() as int),
    ensures
        final(mem)@ == write_pieces(old(mem)@, r@, d@, 0),
        final(mem)@.len() == old(mem)@.len(),
{
    let mut i: usize = 0;
    let mut off: usize = 0;
    let _dl = d.len();
    let _ml = mem.len();
    proof {
        lemma_total_len_nonneg(r@);
        assert(r@.subrange(0, r@.len() as int) =~= r@);
    }
    while i < r.len()
        invariant
            i <= r@.len(),
            d@.len() <= usize::MAX,
            mem@.len() <= usize::MAX,
            pieces_within(r@, mem@.len() as int),
            mem@.len() == old(mem)@.len(),
            off + total_len(r@.subrange(i as int, r@.len() as int)) == d@.len(),
            write_pieces(old(mem)@, r@, d@, 0) == write_pieces(
                mem@,
                r@.subrange(i as int, r@.len() as int),
                d@,
                off as int,
            ),
        decreases r@.len() - i,
    {
        let rest = Ghost(r@.subrange(i as int, r@.len() as int));
        assert(rest@[0] == r@[i as int]);
        assert(rest@.drop_first() =~= r@.subrange(i + 1, r@.len() as int));
        proof {
            lemma_total_len_nonneg(rest@.drop_first());
        }
        let piece = r[i];
        assert(off + piece.len <= d@.len());
        assert(piece.pa + piece.len <= mem@.len());
        let ghost before = mem@;
        let mut j: usize = 0;
        while j < piece.len
            invariant
                j <= piece.len,
                d@.len() <= usize::MAX,
                mem@.len() <= usize::MAX,
                piece.pa + piece.len <= mem@.len(),
                off + piece.len <= d@.len(),
                mem@.len() == before.len(),
                mem@ == write_range(before, piece.pa as int, d@.subrange(off as int, off + j)),
            decreases piece.len - j,
        {
            let b = d[off + j];
            mem.set(piece.pa + j, b);
            assert(mem@ =~= write_range(before, piece.pa as int, d@.subrange(off as int, off + j + 1)));
            j = j + 1;
        }
        off = off + piece.len;
        i = i + 1;
    }
}

proof fn lemma_total_len_suffix(va: int, len: int, r: Seq<PhysRange>, areas: Seq<AreaView>, i: int)
    requires
        bridge_pieces_ok(areas, va, len, r),
        0 <= i <= r.len(),
    ensures
        total_len(r.subrange(i, r.len() as int)) == pieces_total(va, len, r.len() as int)
            - pieces_total(va, len, i),
    decreases r.len() - i,
{
    if i < r.len() {
        lemma_total_len_suffix(va, len, r, areas, i + 1);
        let t = r.subrange(i, r.len() as int);
        assert(t[0] == r[i]);
        assert(t.drop_first() =~= r.subrange(i + 1, r.len() as int));
    } else {
        assert(r.subrange(i, r.len() as int).len() == 0);
    }
}

/// The pieces the bridge returns for an accessible range lie inside the
/// physical memory of `nframes` frames and add up to `len` bytes.
pub proof fn lemma_bridge_pieces_fit(
    areas: Seq<AreaView>,
    va: int,
    len: int,
    r: Seq<PhysRange>,
    nframes: int,
    write: bool,
)
    requires
        areas_wf(areas),
        forall|i: int, k: int|
            0 <= i < areas.len() && 0 <= k < areas[i].frames.len() ==> #[trigger] areas[i].frames[k]
                < nframes,
        bridge_pieces_ok(areas, va, len, r),
        range_accessible(areas, va, len, write),
        0 <= va,
        0 < len,
    ensures
        pieces_within(r, nframes * PAGE_SIZE),
        total_len(r) == len,
{
    let p = PAGE_SIZE as int;
    lemma_bridge_split(va, len);
    lemma_total_len_suffix(va, len, r, areas, 0);
    assert(r.subrange(0, r.len() as int) =~= r);
    assert(pieces_total(va, len, 0) == 0);
    assert forall|i: int| 0 <= i < r.len() implies (#[trigger] r[i]).pa + r[i].len <= nframes * PAGE_SIZE by {
        let v = piece_start(va, i);
        assert(user_accessible(areas, v, write));
        let e = lookup(areas, v / p)->0;
        let c = choose|c: int| 0 <= c < areas.len() && covers(#[trigger] areas[c], v / p);
        assert(e.ppn == areas[c].frames[v / p - areas[c].start]);
        assert(e.ppn < nframes);
        let q = va / p;
        assert(v % p + (piece_end(va, len, i) - v) <= p) by {
            if i == 0 {
                assert(va == q * p + va % p) by (nonlinear_arith)
                    requires p == 4096, q == va / p, va >= 0;
                assert(piece_end(va, len, 0) <= (q + 1) * p);
                assert((q + 1) * p == q * p + p) by (nonlinear_arith);
            } else {
                assert(v == (q + i) * p);
                assert(v % p == 0) by (nonlinear_arith)
                    requires p == 4096, v == (q + i) * p;
                assert((q + i + 1) * p == (q + i) * p + p) by (nonlinear_arith);
            }
        }
        assert(e.ppn * p + p <= nframes * p) by (nonlinear_arith)
            requires e.ppn < nframes, p == 4096;
    }
}

/// Bytes of `m` seen through the pieces `r`, concatenated in order.
pub open spec fn read_pieces(m: Seq<u8>, r: Seq<PhysRange>) -> Seq<u8>
    decreases r.len(),
{
    if r.len() == 0 {
        Seq::empty()
    } else {
        m.subrange(r[0].pa as int, r[0].pa + r[0].len) + read_pieces(m, r.drop_first())
    }
}

/// Whether address `x` lies in some piece of `r`.
pub open spec fn in_pieces(r: Seq<PhysRange>, x: int) -> bool {
    exists|i: int| 0 <= i < r.len() && (#[trigger] r[i]).pa <= x < r[i].pa + r[i].len
}

/// No two pieces share a physical byte.
pub open spec fn pieces_disjoint(r: Seq<PhysRange>) -> bool {
    forall|i: int, j: int|
        0 <= i < r.len() && 0 <= j < r.len() && i != j ==> (#[trigger] r[i]).pa + r[i].len <= (
        #[trigger] r[j]).pa || r[j].pa + r[j].len <= r[i].pa
}

proof fn lemma_write_pieces_len(m: Seq<u8>, r: Seq<PhysRange>, d: Seq<u8>, off: int)
    ensures
        write_pieces(m, r, d, off).len() == m.len(),
    decreases r.len(),
{
    if r.len() > 0 {
        let m1 = write_range(m, r[0].pa as int, d.subrange(off, off + r[0].len));
        lemma_write_pieces_len(m1, r.drop_first(), d, off + r[0].len);
    }
}

proof fn lemma_write_pieces_outside(m: Seq<u8>, r: Seq<PhysRange>, d: Seq<u8>, off: int, x: int)
    requires
        0 <= x < m.len(),
        !in_pieces(r, x),
        0 <= off,
        off + total_len(r) <= d.len(),
    ensures
        write_pieces(m, r, d, off)[x] == m[x],
    decreases r.len(),
{
    if r.len() > 0 {
        lemma_total_len_nonneg(r.drop_first());
        let m1 = write_range(m, r[0].pa as int, d.subrange(off, off + r[0].len));
        assert(!(r[0].pa <= x < r[0].pa + r[0].len));
        assert(!in_pieces(r.drop_first(), x)) by {
            if in_pieces(r.drop_first(), x) {
                let i = choose|i: int|
                    0 <= i < r.drop_first().len() && (#[trigger] r.drop_first()[i]).pa <= x < r.drop_first()[i].pa
                        + r.drop_first()[i].len;
                assert(r[i + 1] == r.drop_first()[i]);
            }
        }
        assert(m1[x] == m[x]);
        assert(write_pieces(m, r, d, off) == write_pieces(m1, r.drop_first(), d, off + r[0].len));
        lemma_write_pieces_outside(m1, r.drop_first(), d, off + r[0].len, x);
    }
}

proof fn lemma_read_after_write(m: Seq<u8>, r: Seq<PhysRange>, d: Seq<u8>, off: int)
    requires
        pieces_within(r, m.len() as int),
        pieces_disjoint(r),
        0 <= off,
        off + total_len(r) <= d.len(),
    ensures
        read_pieces(write_pieces(m, r, d, off), r) == d.subrange(off, off + total_len(r)),
    decreases r.len(),
{
    if r.len() == 0 {
        assert(d.subrange(off, off) =~= Seq::<u8>::empty());
    } else {
        let head = r[0];
        let rest = r.drop_first();
        let m1 = write_range(m, head.pa as int, d.subrange(off, off + head.len));
        let w = write_pieces(m, r, d, off);
        lemma_total_len_nonneg(rest);
        assert(pieces_within(rest, m1.len() as int)) by {
            assert forall|i: int| 0 <= i < rest.len() implies (#[trigger] rest[i]).pa + rest[i].len <= m1.len() by {
                assert(rest[i] == r[i + 1]);
            }
        }
        assert(pieces_disjoint(rest)) by {
            assert forall|i: int, j: int|
                0 <= i < rest.len() && 0 <= j < rest.len() && i != j implies (#[trigger] rest[i]).pa
                + rest[i].len <= (#[trigger] rest[j]).pa || rest[j].pa + rest[j].len <= rest[i].pa by {
                assert(rest[i] == r[i + 1]);
                assert(rest[j] == r[j + 1]);
            }
        }
        lemma_read_after_write(m1, rest, d, off + head.len);
        lemma_write_pieces_len(m1, rest, d, off + head.len);
        assert(w.subrange(head.pa as int, head.pa + head.len) =~= d.subrange(off, off + head.len)) by {
            assert forall|x: int| head.pa <= x < head.pa + head.len implies #[trigger] w[x] == d[off + x - head.pa] by {
                assert(!in_pieces(rest, x)) by {
                    if in_pieces(rest, x) {
                        let i = choose|i: int| 0 <= i < rest.len() && (#[trigger] rest[i]).pa <= x < rest[i].pa + rest[i].len;
                        assert(rest[i] == r[i + 1]);
                    }
                }
                lemma_write_pieces_outside(m1, rest, d, off + head.len, x);
            }
        }
        assert(read_pieces(w, r) == w.subrange(head.pa as int, head.pa + head.len) + read_pieces(w, rest));
        assert(d.subrange(off, off + total_len(r)) =~= d.subrange(off, off + head.len) + d.subrange(
            off + head.len,
            off + head.len + total_len(rest),
        ));
    }
}

/// Cross-page record round trip: writing `d` to user memory through the
/// pieces the bridge returned, then reading those pieces in order, gives back
/// exactly `d`, provided the pieces do not share physical bytes.
pub proof fn lemma_bridge_round_trip(m: Seq<u8>, r: Seq<PhysRange>, d: Seq<u8>)
    requires
        pieces_within(r, m.len() as int),
        pieces_disjoint(r),
        total_len(r) == d.len(),
    ensures
        read_pieces(write_pieces(m, r, d, 0), r) == d,
{
    lemma_read_after_write(m, r, d, 0);
    assert(d.subrange(0, d.len() as int) =~= d);
}

} // verus!
