//! The mathematical model of the heap's free list: a sequence of unused regions
//! `(address, size)`, ordered by address, and what allocating from it and
//! releasing into it do.
use vstd::prelude::*;

verus! {

/// Bytes that every allocation takes at least: the size of a region header.
pub open spec fn min_block() -> int {
    16
}

/// The size that a request of `size` bytes takes from the heap.
pub open spec fn block_size(size: int) -> int {
    if size < min_block() {
        min_block()
    } else {
        size
    }
}

/// End (exclusive) of a region.
pub open spec fn end_of(r: (int, int)) -> int {
    r.0 + r.1
}

/// The regions lie in `[start + 16, start + len)` (after the head header), are
/// not empty, and are ordered by address without overlapping.
#[verifier::opaque]
pub open spec fn regions_ok(start: int, len: int, rs: Seq<(int, int)>) -> bool {
    &&& forall|j: int|
        0 <= j < rs.len() ==> start + min_block() <= #[trigger] rs[j].0 && rs[j].1 > 0
            && end_of(rs[j]) <= start + len
    &&& forall|j: int, k: int| 0 <= j < k < rs.len() ==> end_of(#[trigger] rs[j]) <= (#[trigger] rs[k]).0
}

/// Sum of the sizes of the regions.
pub open spec fn total(rs: Seq<(int, int)>) -> int
    decreases rs.len(),
{
    if rs.len() == 0 {
        0
    } else {
        total(rs.drop_last()) + rs.last().1
    }
}

/// Whether the byte range `[a, a + s)` overlaps no region.
pub open spec fn disjoint_from_all(rs: Seq<(int, int)>, a: int, s: int) -> bool {
    forall|j: int| 0 <= j < rs.len() ==> a + s <= (#[trigger] rs[j]).0 || end_of(rs[j]) <= a
}

/// Whether the byte `x` lies in some region.
pub open spec fn covered(rs: Seq<(int, int)>, x: int) -> bool {
    exists|j: int| 0 <= j < rs.len() && (#[trigger] rs[j]).0 <= x < end_of(rs[j])
}

/// Bytes to skip from `addr` up to the next multiple of `align`.
pub open spec fn pad_for(addr: int, align: int) -> int {
    (align - addr % align) % align
}

/// `pad` raised by steps of `align` until it can hold a header (16 bytes).
pub open spec fn bump(pad: int, align: int) -> int
    decreases (if pad < 16 { 16 - pad } else { 0 }),
{
    if pad < 16 && align > 0 {
        bump(pad + align, align)
    } else {
        pad
    }
}

/// How an allocation is carved out of an unused region.
pub enum Placement {
    /// The whole region is handed out.
    Whole,
    /// The front of the region is handed out; the rest stays unused.
    Front,
    /// The region keeps its first `pad` bytes; the rest is handed out.
    Tail(int),
    /// The region keeps its first `pad` bytes, the block follows, and what is
    /// after the block becomes a new unused region.
    Middle(int),
}

impl Placement {
    /// Offset of the handed-out block from the region's start.
    pub open spec fn offset(self) -> int {
        match self {
            Placement::Whole => 0,
            Placement::Front => 0,
            Placement::Tail(p) => p,
            Placement::Middle(p) => p,
        }
    }
}

/// How a block of `l` bytes aligned to `align` is placed in the region
/// `(addr, size)`, if it fits there.
pub open spec fn placement(addr: int, size: int, l: int, align: int) -> Option<Placement> {
    let pad = pad_for(addr, align);
    if pad == 0 && l == size {
        Some(Placement::Whole)
    } else if pad == 0 && l + 16 <= size {
        Some(Placement::Front)
    } else if pad >= 16 && pad + l == size {
        Some(Placement::Tail(pad))
    } else if pad >= 16 && pad + l + 16 <= size {
        Some(Placement::Middle(pad))
    } else if bump(pad, align) + l + 16 <= size {
        Some(Placement::Middle(bump(pad, align)))
    } else {
        None
    }
}

/// Index of the first region, from `from` on, in which the block fits.
pub open spec fn first_fit(rs: Seq<(int, int)>, l: int, align: int, from: int) -> Option<int>
    decreases rs.len() - from,
{
    if from < 0 || from >= rs.len() {
        None
    } else if placement(rs[from].0, rs[from].1, l, align) is Some {
        Some(from)
    } else {
        first_fit(rs, l, align, from + 1)
    }
}

/// The regions after the block of `l` bytes was placed by `pl` in region `i`.
pub open spec fn carve(rs: Seq<(int, int)>, i: int, pl: Placement, l: int) -> Seq<(int, int)> {
    let (a, s) = rs[i];
    match pl {
        Placement::Whole => rs.remove(i),
        Placement::Front => rs.update(i, (a + l, s - l)),
        Placement::Tail(p) => rs.update(i, (a, p)),
        Placement::Middle(p) => rs.update(i, (a, p)).insert(i + 1, (a + p + l, s - p - l)),
    }
}

/// Index of the first region whose address is above `a`, from `from` on.
pub open spec fn first_above(rs: Seq<(int, int)>, a: int, from: int) -> Option<int>
    decreases rs.len() - from,
{
    if from < 0 || from >= rs.len() {
        None
    } else if rs[from].0 > a {
        Some(from)
    } else {
        first_above(rs, a, from + 1)
    }
}

/// The regions after the block `[a, a + s)` was given back. It is merged with
/// the regions it touches. When no region lies above the block, the block
/// replaces the last region in the list.
pub open spec fn release(rs: Seq<(int, int)>, a: int, s: int) -> Seq<(int, int)> {
    if rs.len() == 0 {
        seq![(a, s)]
    } else {
        match first_above(rs, a, 0) {
            None => rs.drop_last().push((a, s)),
            Some(k) => {
                let left = k > 0 && end_of(rs[k - 1]) == a;
                let right = a + s == rs[k].0;
                if left && right {
                    rs.update(k - 1, (rs[k - 1].0, rs[k - 1].1 + s + rs[k].1)).remove(k)
                } else if left {
                    rs.update(k - 1, (rs[k - 1].0, rs[k - 1].1 + s))
                } else if right {
                    rs.update(k, (a, s + rs[k].1))
                } else {
                    rs.insert(k, (a, s))
                }
            },
        }
    }
}


/// `pad_for` lands on a multiple of `align` and skips less than `align` bytes.
pub proof fn lemma_pad_for(addr: int, align: int)
    requires
        align > 0,
    ensures
        0 <= pad_for(addr, align) < align,
        (addr + pad_for(addr, align)) % align == 0,
{
    let r = addr % align;
    vstd::arithmetic::div_mod::lemma_mod_bound(addr, align);
    vstd::arithmetic::div_mod::lemma_fundamental_div_mod(addr, align);
    let q = addr / align;
    if r == 0 {
        vstd::arithmetic::div_mod::lemma_mod_self_0(align);
        assert(pad_for(addr, align) == 0);
        assert(addr + 0 == align * q + 0);
        vstd::arithmetic::div_mod::lemma_mod_multiples_vanish(q, 0, align);
    } else {
        vstd::arithmetic::div_mod::lemma_small_mod((align - r) as nat, align as nat);
        assert(pad_for(addr, align) == align - r);
        assert(addr + (align - r) == align * (q + 1) + 0) by (nonlinear_arith)
            requires
                addr == align * q + r,
        ;
        vstd::arithmetic::div_mod::lemma_mod_multiples_vanish(q + 1, 0, align);
    }
}

/// `bump` reaches at least 16, moves by whole steps of `align`, and stays below
/// `16 + align` when it starts below `align`.
pub proof fn lemma_bump(pad: int, align: int)
    requires
        align > 0,
        0 <= pad,
    ensures
        bump(pad, align) >= 16,
        bump(pad, align) >= pad,
        pad >= 16 ==> bump(pad, align) == pad,
        pad < 16 + align ==> bump(pad, align) < 16 + align,
        exists|k: int| k >= 0 && #[trigger] (align * k) == bump(pad, align) - pad,
    decreases (if pad < 16 {
        16 - pad
    } else {
        0
    }),
{
    if pad < 16 {
        lemma_bump(pad + align, align);
        let k = choose|k: int| k >= 0 && #[trigger] (align * k) == bump(pad + align, align) - (pad + align);
        assert(align * (k + 1) == align * k + align) by (nonlinear_arith);
        assert(align * (k + 1) == bump(pad, align) - pad);
        if pad + align >= 16 {
            assert(bump(pad + align, align) == pad + align);
        }
    } else {
        assert(align * 0 == 0);
    }
}

/// Where a block is placed, it is aligned, it lies within the region, and what
/// the region keeps is not empty.
pub proof fn lemma_placement(addr: int, size: int, l: int, align: int)
    requires
        align > 0,
        l >= 16,
        placement(addr, size, l, align) is Some,
    ensures
        ({
            let pl = placement(addr, size, l, align)->0;
            &&& (addr + pl.offset()) % align == 0
            &&& 0 <= pl.offset()
            &&& pl.offset() + l <= size
            &&& pl is Whole ==> l == size
            &&& pl is Front ==> l + 16 <= size
            &&& pl matches Placement::Tail(p) ==> p >= 16 && p + l == size
            &&& pl matches Placement::Middle(p) ==> p >= 16 && p + l + 16 <= size
        }),
{
    lemma_pad_for(addr, align);
    let pad = pad_for(addr, align);
    lemma_bump(pad, align);
    let b = bump(pad, align);
    let k = choose|k: int| k >= 0 && #[trigger] (align * k) == b - pad;
    vstd::arithmetic::div_mod::lemma_mod_multiples_vanish(k, addr + pad, align);
    assert(align * k + (addr + pad) == addr + b);
}

/// The regions of a sound list have strictly increasing addresses above the
/// head header.
pub proof fn lemma_addresses_increase(start: int, len: int, rs: Seq<(int, int)>)
    requires
        regions_ok(start, len, rs),
    ensures
        forall|j: int, k: int| 0 <= j < k < rs.len() ==> (#[trigger] rs[j]).0 < (#[trigger] rs[k]).0,
        forall|j: int| 0 <= j < rs.len() ==> start < (#[trigger] rs[j]).0,
{
    reveal(regions_ok);
    assert forall|j: int, k: int| 0 <= j < k < rs.len() implies (#[trigger] rs[j]).0 < (
    #[trigger] rs[k]).0 by {
        assert(end_of(rs[j]) <= rs[k].0);
    }
}

/// Removing a region keeps the list sound.
pub proof fn lemma_remove_ok(start: int, len: int, rs: Seq<(int, int)>, i: int)
    requires
        regions_ok(start, len, rs),
        0 <= i < rs.len(),
    ensures
        regions_ok(start, len, rs.remove(i)),
{
    reveal(regions_ok);
    let out = rs.remove(i);
    assert forall|j: int| 0 <= j < out.len() implies start + min_block() <= #[trigger] out[j].0
        && out[j].1 > 0 && end_of(out[j]) <= start + len by {
        if j < i {
            assert(out[j] == rs[j]);
        } else {
            assert(out[j] == rs[j + 1]);
        }
    }
    assert forall|j: int, k: int| 0 <= j < k < out.len() implies end_of(#[trigger] out[j]) <= (
    #[trigger] out[k]).0 by {
        let jj = if j < i { j } else { j + 1 };
        let kk = if k < i { k } else { k + 1 };
        assert(out[j] == rs[jj] && out[k] == rs[kk]);
        assert(end_of(rs[jj]) <= rs[kk].0);
    }
}

/// Replacing a region by a non-empty part of it keeps the list sound.
pub proof fn lemma_shrink_ok(start: int, len: int, rs: Seq<(int, int)>, i: int, b: int, t: int)
    requires
        regions_ok(start, len, rs),
        0 <= i < rs.len(),
        rs[i].0 <= b,
        t > 0,
        b + t <= end_of(rs[i]),
    ensures
        regions_ok(start, len, rs.update(i, (b, t))),
{
    reveal(regions_ok);
    let out = rs.update(i, (b, t));
    assert forall|j: int| 0 <= j < out.len() implies start + min_block() <= #[trigger] out[j].0
        && out[j].1 > 0 && end_of(out[j]) <= start + len by {
        assert(start + min_block() <= rs[j].0 && end_of(rs[j]) <= start + len);
    }
    assert forall|j: int, k: int| 0 <= j < k < out.len() implies end_of(#[trigger] out[j]) <= (
    #[trigger] out[k]).0 by {
        assert(end_of(rs[j]) <= rs[k].0);
    }
}

/// Splitting a region into a front part `(a, p)` and a back part that starts
/// `l` bytes after it keeps the list sound.
pub proof fn lemma_split_ok(start: int, len: int, rs: Seq<(int, int)>, i: int, p: int, l: int)
    requires
        regions_ok(start, len, rs),
        0 <= i < rs.len(),
        p > 0,
        l >= 0,
        p + l < rs[i].1,
    ensures
        regions_ok(
            start,
            len,
            rs.update(i, (rs[i].0, p)).insert(i + 1, (rs[i].0 + p + l, rs[i].1 - p - l)),
        ),
{
    reveal(regions_ok);
    let (a, s) = rs[i];
    lemma_shrink_ok(start, len, rs, i, a, p);
    let mid = rs.update(i, (a, p));
    let out = mid.insert(i + 1, (a + p + l, s - p - l));
    assert(start + min_block() <= rs[i].0 && end_of(rs[i]) <= start + len);
    assert forall|j: int| 0 <= j < out.len() implies start + min_block() <= #[trigger] out[j].0
        && out[j].1 > 0 && end_of(out[j]) <= start + len by {
        if j <= i {
            assert(out[j] == mid[j]);
        } else if j > i + 1 {
            assert(out[j] == mid[j - 1]);
        }
    }
    assert forall|j: int, k: int| 0 <= j < k < out.len() implies end_of(#[trigger] out[j]) <= (
    #[trigger] out[k]).0 by {
        let jj = if j <= i { j } else { j - 1 };
        let kk = if k <= i { k } else { k - 1 };
        if j == i + 1 {
            assert(out[k] == mid[kk]);
            assert(end_of(rs[i]) <= rs[kk].0);
        } else if k == i + 1 {
            assert(out[j] == mid[jj]);
            if j < i {
                assert(end_of(rs[j]) <= rs[i].0);
            }
        } else {
            assert(out[j] == mid[jj] && out[k] == mid[kk]);
            assert(end_of(mid[jj]) <= mid[kk].0);
        }
    }
}

/// Carving a fitting block out of a region keeps the list sound.
pub proof fn lemma_carve_ok(start: int, len: int, rs: Seq<(int, int)>, i: int, l: int, align: int)
    requires
        regions_ok(start, len, rs),
        0 <= i < rs.len(),
        align > 0,
        l >= 16,
        placement(rs[i].0, rs[i].1, l, align) is Some,
    ensures
        regions_ok(start, len, carve(rs, i, placement(rs[i].0, rs[i].1, l, align)->0, l)),
{
    let pl = placement(rs[i].0, rs[i].1, l, align)->0;
    lemma_placement(rs[i].0, rs[i].1, l, align);
    let (a, s) = rs[i];
    match pl {
        Placement::Whole => lemma_remove_ok(start, len, rs, i),
        Placement::Front => lemma_shrink_ok(start, len, rs, i, a + l, s - l),
        Placement::Tail(p) => lemma_shrink_ok(start, len, rs, i, a, p),
        Placement::Middle(p) => lemma_split_ok(start, len, rs, i, p, l),
    }
}

/// Replacing the `i`-th region by one that stays between its neighbours keeps
/// the list sound.
pub proof fn lemma_replace_ok(start: int, len: int, rs: Seq<(int, int)>, i: int, b: int, t: int)
    requires
        regions_ok(start, len, rs),
        0 <= i < rs.len(),
        t > 0,
        start + min_block() <= b,
        b + t <= start + len,
        i > 0 ==> end_of(rs[i - 1]) <= b,
        i + 1 < rs.len() ==> b + t <= rs[i + 1].0,
    ensures
        regions_ok(start, len, rs.update(i, (b, t))),
{
    reveal(regions_ok);
    let out = rs.update(i, (b, t));
    assert forall|j: int| 0 <= j < out.len() implies start + min_block() <= #[trigger] out[j].0
        && out[j].1 > 0 && end_of(out[j]) <= start + len by {
        assert(start + min_block() <= rs[j].0 && end_of(rs[j]) <= start + len);
    }
    assert forall|j: int, k: int| 0 <= j < k < out.len() implies end_of(#[trigger] out[j]) <= (
    #[trigger] out[k]).0 by {
        assert(end_of(rs[j]) <= rs[k].0);
        if j == i && k > i + 1 {
            assert(end_of(rs[i + 1]) <= rs[k].0);
        }
        if k == i && j < i - 1 {
            assert(end_of(rs[j]) <= rs[i - 1].0);
        }
    }
}

/// Inserting a region between its neighbours keeps the list sound.
pub proof fn lemma_insert_ok(start: int, len: int, rs: Seq<(int, int)>, i: int, b: int, t: int)
    requires
        regions_ok(start, len, rs),
        0 <= i <= rs.len(),
        t > 0,
        start + min_block() <= b,
        b + t <= start + len,
        i > 0 ==> end_of(rs[i - 1]) <= b,
        i < rs.len() ==> b + t <= rs[i].0,
    ensures
        regions_ok(start, len, rs.insert(i, (b, t))),
{
    reveal(regions_ok);
    let out = rs.insert(i, (b, t));
    assert forall|j: int| 0 <= j < out.len() implies start + min_block() <= #[trigger] out[j].0
        && out[j].1 > 0 && end_of(out[j]) <= start + len by {
        if j < i {
            assert(out[j] == rs[j]);
        } else if j > i {
            assert(out[j] == rs[j - 1]);
        }
    }
    assert forall|j: int, k: int| 0 <= j < k < out.len() implies end_of(#[trigger] out[j]) <= (
    #[trigger] out[k]).0 by {
        if j == i {
            assert(out[k] == rs[k - 1]);
            if k - 1 > i {
                assert(end_of(rs[i]) <= rs[k - 1].0);
            }
        } else if k == i {
            assert(out[j] == rs[j]);
            if j < i - 1 {
                assert(end_of(rs[j]) <= rs[i - 1].0);
            }
        } else {
            let jj = if j < i { j } else { j - 1 };
            let kk = if k < i { k } else { k - 1 };
            assert(out[j] == rs[jj] && out[k] == rs[kk]);
            assert(end_of(rs[jj]) <= rs[kk].0);
        }
    }
}

/// Merging two regions and the gap of `s` bytes between them keeps the list sound.
pub proof fn lemma_merge_ok(start: int, len: int, rs: Seq<(int, int)>, k: int, s: int)
    requires
        regions_ok(start, len, rs),
        0 < k < rs.len(),
        s >= 0,
        end_of(rs[k - 1]) + s == rs[k].0,
    ensures
        regions_ok(
            start,
            len,
            rs.update(k - 1, (rs[k - 1].0, rs[k - 1].1 + s + rs[k].1)).remove(k),
        ),
{
    reveal(regions_ok);
    let b = rs[k - 1].0;
    let t = rs[k - 1].1 + s + rs[k].1;
    lemma_remove_ok(start, len, rs, k);
    let removed = rs.remove(k);
    assert(removed[k - 1] == rs[k - 1]);
    if k < removed.len() {
        assert(removed[k] == rs[k + 1]);
        assert(end_of(rs[k]) <= rs[k + 1].0);
    }
    if k > 1 {
        assert(removed[k - 2] == rs[k - 2]);
        assert(end_of(rs[k - 2]) <= rs[k - 1].0);
    }
    assert(end_of(rs[k]) <= start + len);
    lemma_replace_ok(start, len, removed, k - 1, b, t);
    assert(rs.update(k - 1, (b, t)).remove(k) =~= removed.update(k - 1, (b, t)));
}

/// Facts that soundness gives of single regions and pairs of regions.
pub proof fn lemma_regions_ok_facts(start: int, len: int, rs: Seq<(int, int)>)
    requires
        regions_ok(start, len, rs),
    ensures
        forall|j: int|
            0 <= j < rs.len() ==> start + min_block() <= #[trigger] rs[j].0 && rs[j].1 > 0
                && end_of(rs[j]) <= start + len,
        forall|j: int, k: int| 0 <= j < k < rs.len() ==> end_of(#[trigger] rs[j]) <= (#[trigger] rs[k]).0,
{
    reveal(regions_ok);
}

/// `total` adds up over concatenation.
pub proof fn lemma_total_concat(a: Seq<(int, int)>, b: Seq<(int, int)>)
    ensures
        total(a + b) == total(a) + total(b),
    decreases b.len(),
{
    if b.len() == 0 {
        assert(a + b =~= a);
    } else {
        lemma_total_concat(a, b.drop_last());
        assert((a + b).drop_last() =~= a + b.drop_last());
        assert((a + b).last() == b.last());
    }
}

/// `total` of a sequence split around its `i`-th element.
pub proof fn lemma_total_split(rs: Seq<(int, int)>, i: int)
    requires
        0 <= i < rs.len(),
    ensures
        total(rs) == total(rs.subrange(0, i)) + rs[i].1 + total(rs.subrange(i + 1, rs.len() as int)),
{
    let pre = rs.subrange(0, i);
    let post = rs.subrange(i + 1, rs.len() as int);
    assert(rs =~= pre + seq![rs[i]] + post);
    lemma_total_concat(pre + seq![rs[i]], post);
    lemma_total_concat(pre, seq![rs[i]]);
    assert(seq![rs[i]].drop_last() =~= Seq::<(int, int)>::empty());
    assert(total(seq![rs[i]]) == total(Seq::<(int, int)>::empty()) + rs[i].1);
    assert(total(rs) == total(pre + seq![rs[i]] + post));
}

/// Replacing an element changes `total` by the difference of sizes.
pub proof fn lemma_total_update(rs: Seq<(int, int)>, i: int, x: (int, int))
    requires
        0 <= i < rs.len(),
    ensures
        total(rs.update(i, x)) == total(rs) - rs[i].1 + x.1,
{
    let out = rs.update(i, x);
    lemma_total_split(rs, i);
    lemma_total_split(out, i);
    assert(out.subrange(0, i) =~= rs.subrange(0, i));
    assert(out.subrange(i + 1, out.len() as int) =~= rs.subrange(i + 1, rs.len() as int));
}

/// Removing an element takes its size off `total`.
pub proof fn lemma_total_remove(rs: Seq<(int, int)>, i: int)
    requires
        0 <= i < rs.len(),
    ensures
        total(rs.remove(i)) == total(rs) - rs[i].1,
{
    lemma_total_split(rs, i);
    lemma_total_concat(rs.subrange(0, i), rs.subrange(i + 1, rs.len() as int));
}

/// Inserting an element adds its size to `total`.
pub proof fn lemma_total_insert(rs: Seq<(int, int)>, i: int, x: (int, int))
    requires
        0 <= i <= rs.len(),
    ensures
        total(rs.insert(i, x)) == total(rs) + x.1,
{
    let out = rs.insert(i, x);
    lemma_total_split(out, i);
    assert(out.subrange(0, i) =~= rs.subrange(0, i));
    assert(out.subrange(i + 1, out.len() as int) =~= rs.subrange(i, rs.len() as int));
    lemma_total_concat(rs.subrange(0, i), rs.subrange(i, rs.len() as int));
    assert(rs =~= rs.subrange(0, i) + rs.subrange(i, rs.len() as int));
}

/// What `first_fit` finds is a region, from `from` on, where the block fits.
pub proof fn lemma_first_fit(rs: Seq<(int, int)>, l: int, align: int, from: int)
    requires
        first_fit(rs, l, align, from) is Some,
    ensures
        from <= first_fit(rs, l, align, from)->0 < rs.len(),
        0 <= first_fit(rs, l, align, from)->0,
        placement(
            rs[first_fit(rs, l, align, from)->0].0,
            rs[first_fit(rs, l, align, from)->0].1,
            l,
            align,
        ) is Some,
    decreases rs.len() - from,
{
    if from >= 0 && from < rs.len() && placement(rs[from].0, rs[from].1, l, align) is None {
        lemma_first_fit(rs, l, align, from + 1);
    }
}

/// What `first_above` finds is the first region, from `from` on, above `a`.
pub proof fn lemma_first_above(rs: Seq<(int, int)>, a: int, from: int)
    requires
        0 <= from,
    ensures
        first_above(rs, a, from) matches Some(k) ==> from <= k < rs.len() && rs[k].0 > a && forall|
            j: int,
        | from <= j < k ==> (#[trigger] rs[j]).0 <= a,
        first_above(rs, a, from) is None ==> forall|j: int| from <= j < rs.len() ==> (#[trigger] rs[j]).0 <= a,
    decreases rs.len() - from,
{
    if from < rs.len() && rs[from].0 <= a {
        lemma_first_above(rs, a, from + 1);
    }
}

/// Law: the block that allocation hands out is aligned, lies in the region it is
/// taken from, overlaps no region that stays unused, and the unused bytes shrink
/// by exactly its length; the list stays sound.
#[verifier::spinoff_prover]
#[verifier::rlimit(40)]
pub proof fn law_allocation_takes_aligned_free_block(
    start: int,
    len: int,
    rs: Seq<(int, int)>,
    l: int,
    align: int,
)
    requires
        regions_ok(start, len, rs),
        align > 0,
        l >= 16,
        first_fit(rs, l, align, 0) is Some,
    ensures
        ({
            let i = first_fit(rs, l, align, 0)->0;
            let pl = placement(rs[i].0, rs[i].1, l, align)->0;
            let p = rs[i].0 + pl.offset();
            let out = carve(rs, i, pl, l);
            &&& p % align == 0
            &&& rs[i].0 <= p
            &&& p + l <= end_of(rs[i])
            &&& disjoint_from_all(out, p, l)
            &&& total(out) == total(rs) - l
            &&& regions_ok(start, len, out)
        }),
{
    lemma_first_fit(rs, l, align, 0);
    let i = first_fit(rs, l, align, 0)->0;
    let (a, s) = rs[i];
    lemma_placement(a, s, l, align);
    let pl = placement(a, s, l, align)->0;
    let p = a + pl.offset();
    let out = carve(rs, i, pl, l);
    lemma_carve_ok(start, len, rs, i, l, align);
    lemma_regions_ok_facts(start, len, rs);
    match pl {
        Placement::Whole => {
            lemma_total_remove(rs, i);
            assert forall|j: int| 0 <= j < out.len() implies p + l <= (#[trigger] out[j]).0 || end_of(out[j]) <= p by {
                if j < i {
                    assert(out[j] == rs[j]);
                    assert(end_of(rs[j]) <= rs[i].0);
                } else {
                    assert(out[j] == rs[j + 1]);
                    assert(end_of(rs[i]) <= rs[j + 1].0);
                }
            }
        },
        Placement::Front => {
            lemma_total_update(rs, i, (a + l, s - l));
            assert forall|j: int| 0 <= j < out.len() implies p + l <= (#[trigger] out[j]).0 || end_of(out[j]) <= p by {
                if j < i {
                    assert(end_of(rs[j]) <= rs[i].0);
                } else if j > i {
                    assert(end_of(rs[i]) <= rs[j].0);
                }
            }
        },
        Placement::Tail(q) => {
            lemma_total_update(rs, i, (a, q));
            assert forall|j: int| 0 <= j < out.len() implies p + l <= (#[trigger] out[j]).0 || end_of(out[j]) <= p by {
                if j < i {
                    assert(end_of(rs[j]) <= rs[i].0);
                } else if j > i {
                    assert(end_of(rs[i]) <= rs[j].0);
                }
            }
        },
        Placement::Middle(q) => {
            let mid = rs.update(i, (a, q));
            lemma_total_update(rs, i, (a, q));
            lemma_total_insert(mid, i + 1, (a + q + l, s - q - l));
            assert forall|j: int| 0 <= j < out.len() implies p + l <= (#[trigger] out[j]).0 || end_of(out[j]) <= p by {
                if j < i {
                    assert(out[j] == rs[j]);
                    assert(end_of(rs[j]) <= rs[i].0);
                } else if j > i + 1 {
                    assert(out[j] == rs[j - 1]);
                    assert(end_of(rs[i]) <= rs[j - 1].0);
                }
            }
        },
    }
}

/// Law: giving back a block that no region overlaps, below the last region or
/// into an empty list, adds exactly its bytes to the unused ones: every byte that
/// was unused stays so, every byte of the block becomes so, and the list stays
/// sound.
#[verifier::spinoff_prover]
#[verifier::rlimit(40)]
pub proof fn law_release_adds_block(start: int, len: int, rs: Seq<(int, int)>, a: int, s: int)
    requires
        regions_ok(start, len, rs),
        s > 0,
        start + min_block() <= a,
        a + s <= start + len,
        disjoint_from_all(rs, a, s),
        rs.len() == 0 || first_above(rs, a, 0) is Some,
    ensures
        total(release(rs, a, s)) == total(rs) + s,
        regions_ok(start, len, release(rs, a, s)),
        forall|x: int| a <= x < a + s ==> covered(release(rs, a, s), x),
        forall|x: int| covered(rs, x) ==> covered(release(rs, a, s), x),
{
    let out = release(rs, a, s);
    lemma_regions_ok_facts(start, len, rs);
    if rs.len() == 0 {
        lemma_insert_ok(start, len, rs, 0, a, s);
        assert(rs.insert(0, (a, s)) =~= out);
        lemma_total_insert(rs, 0, (a, s));
        assert forall|x: int| a <= x < a + s implies covered(out, x) by {
            assert(out[0] == (a, s));
        }
    } else {
        lemma_first_above(rs, a, 0);
        let k = first_above(rs, a, 0)->0;
        assert(a + s <= rs[k].0);
        if k > 0 {
            assert(rs[k - 1].0 <= a);
            assert(end_of(rs[k - 1]) <= a);
        }
        let left = k > 0 && end_of(rs[k - 1]) == a;
        let right = a + s == rs[k].0;
        if left && right {
            lemma_merge_ok(start, len, rs, k, s);
            let mid = rs.update(k - 1, (rs[k - 1].0, rs[k - 1].1 + s + rs[k].1));
            lemma_total_update(rs, k - 1, (rs[k - 1].0, rs[k - 1].1 + s + rs[k].1));
            lemma_total_remove(mid, k);
            assert forall|x: int| a <= x < a + s implies covered(out, x) by {
                assert(out[k - 1] == mid[k - 1]);
            }
            assert forall|x: int| covered(rs, x) implies covered(out, x) by {
                let j = choose|j: int| 0 <= j < rs.len() && (#[trigger] rs[j]).0 <= x < end_of(rs[j]);
                if j < k - 1 {
                    assert(out[j] == rs[j]);
                } else if j == k - 1 || j == k {
                    assert(out[k - 1] == mid[k - 1]);
                } else {
                    assert(out[j - 1] == rs[j]);
                }
            }
        } else if left {
            lemma_replace_ok(start, len, rs, k - 1, rs[k - 1].0, rs[k - 1].1 + s);
            lemma_total_update(rs, k - 1, (rs[k - 1].0, rs[k - 1].1 + s));
            assert forall|x: int| a <= x < a + s implies covered(out, x) by {
                assert(out[k - 1] == (rs[k - 1].0, rs[k - 1].1 + s));
            }
            assert forall|x: int| covered(rs, x) implies covered(out, x) by {
                let j = choose|j: int| 0 <= j < rs.len() && (#[trigger] rs[j]).0 <= x < end_of(rs[j]);
                assert(out[j].0 <= x < end_of(out[j]));
            }
        } else if right {
            lemma_replace_ok(start, len, rs, k, a, s + rs[k].1);
            lemma_total_update(rs, k, (a, s + rs[k].1));
            assert forall|x: int| a <= x < a + s implies covered(out, x) by {
                assert(out[k] == (a, s + rs[k].1));
            }
            assert forall|x: int| covered(rs, x) implies covered(out, x) by {
                let j = choose|j: int| 0 <= j < rs.len() && (#[trigger] rs[j]).0 <= x < end_of(rs[j]);
                assert(out[j].0 <= x < end_of(out[j]));
            }
        } else {
            lemma_insert_ok(start, len, rs, k, a, s);
            lemma_total_insert(rs, k, (a, s));
            assert forall|x: int| a <= x < a + s implies covered(out, x) by {
                assert(out[k] == (a, s));
            }
            assert forall|x: int| covered(rs, x) implies covered(out, x) by {
                let j = choose|j: int| 0 <= j < rs.len() && (#[trigger] rs[j]).0 <= x < end_of(rs[j]);
                if j < k {
                    assert(out[j] == rs[j]);
                } else {
                    assert(out[j + 1] == rs[j]);
                }
            }
        }
    }
}

/// Law: a block given back above every region takes the place of the last
/// region: that region's bytes leave the unused ones, the block's join them, and
/// the list stays sound.
pub proof fn law_release_past_last_replaces_last(start: int, len: int, rs: Seq<(int, int)>, a: int, s: int)
    requires
        regions_ok(start, len, rs),
        s > 0,
        start + min_block() <= a,
        a + s <= start + len,
        disjoint_from_all(rs, a, s),
        rs.len() > 0,
        first_above(rs, a, 0) is None,
    ensures
        release(rs, a, s) == rs.drop_last().push((a, s)),
        total(release(rs, a, s)) == total(rs) - rs.last().1 + s,
        regions_ok(start, len, release(rs, a, s)),
{
    lemma_regions_ok_facts(start, len, rs);
    lemma_first_above(rs, a, 0);
    let n = rs.len() - 1;
    assert(rs[n].0 <= a);
    assert(end_of(rs[n]) <= a);
    if n > 0 {
        assert(end_of(rs[n - 1]) <= rs[n].0);
    }
    lemma_replace_ok(start, len, rs, n, a, s);
    assert(rs.update(n, (a, s)) =~= rs.drop_last().push((a, s)));
    lemma_total_update(rs, n, (a, s));
}

/// Law: giving back the block that allocation just handed out restores the
/// unused bytes to what they were, unless no region is left above the block.
pub proof fn law_allocate_then_release(start: int, len: int, rs: Seq<(int, int)>, l: int, align: int)
    requires
        regions_ok(start, len, rs),
        align > 0,
        l >= 16,
        first_fit(rs, l, align, 0) is Some,
        ({
            let i = first_fit(rs, l, align, 0)->0;
            let pl = placement(rs[i].0, rs[i].1, l, align)->0;
            let out = carve(rs, i, pl, l);
            out.len() == 0 || first_above(out, rs[i].0 + pl.offset(), 0) is Some
        }),
    ensures
        ({
            let i = first_fit(rs, l, align, 0)->0;
            let pl = placement(rs[i].0, rs[i].1, l, align)->0;
            let p = rs[i].0 + pl.offset();
            total(release(carve(rs, i, pl, l), p, l)) == total(rs)
        }),
{
    law_allocation_takes_aligned_free_block(start, len, rs, l, align);
    lemma_first_fit(rs, l, align, 0);
    let i = first_fit(rs, l, align, 0)->0;
    let pl = placement(rs[i].0, rs[i].1, l, align)->0;
    let p = rs[i].0 + pl.offset();
    lemma_regions_ok_facts(start, len, rs);
    law_release_adds_block(start, len, carve(rs, i, pl, l), p, l);
}

/// Every region can hold a header (16 bytes or more), and no two regions
/// touch: between any two lies at least one byte in use.
pub open spec fn regions_tight(rs: Seq<(int, int)>) -> bool {
    &&& forall|j: int| 0 <= j < rs.len() ==> (#[trigger] rs[j]).1 >= min_block()
    &&& forall|j: int, k: int| 0 <= j < k < rs.len() ==> end_of(#[trigger] rs[j]) < (#[trigger] rs[k]).0
}

/// Law: allocating keeps the list tight: every region that stays unused can
/// still hold a header, and no two regions come to touch.
#[verifier::spinoff_prover]
pub proof fn law_allocation_keeps_tight(start: int, len: int, rs: Seq<(int, int)>, l: int, align: int)
    requires
        regions_ok(start, len, rs),
        regions_tight(rs),
        align > 0,
        l >= 16,
        first_fit(rs, l, align, 0) is Some,
    ensures
        ({
            let i = first_fit(rs, l, align, 0)->0;
            let pl = placement(rs[i].0, rs[i].1, l, align)->0;
            regions_tight(carve(rs, i, pl, l))
        }),
{
    lemma_first_fit(rs, l, align, 0);
    let i = first_fit(rs, l, align, 0)->0;
    let (a, s) = rs[i];
    lemma_placement(a, s, l, align);
    let pl = placement(a, s, l, align)->0;
    let out = carve(rs, i, pl, l);
    lemma_regions_ok_facts(start, len, rs);
    match pl {
        Placement::Whole => {
            assert forall|j: int, k: int| 0 <= j < k < out.len() implies end_of(#[trigger] out[j]) < (
            #[trigger] out[k]).0 by {
                let jj = if j < i { j } else { j + 1 };
                let kk = if k < i { k } else { k + 1 };
                assert(out[j] == rs[jj] && out[k] == rs[kk]);
            }
            assert forall|j: int| 0 <= j < out.len() implies (#[trigger] out[j]).1 >= min_block() by {
                let jj = if j < i { j } else { j + 1 };
                assert(out[j] == rs[jj]);
            }
        },
        Placement::Front => {
            assert forall|j: int, k: int| 0 <= j < k < out.len() implies end_of(#[trigger] out[j]) < (
            #[trigger] out[k]).0 by {
                assert(end_of(rs[j]) < rs[k].0);
            }
            assert forall|j: int| 0 <= j < out.len() implies (#[trigger] out[j]).1 >= min_block() by {
                assert(rs[j].1 >= min_block());
            }
        },
        Placement::Tail(q) => {
            assert forall|j: int, k: int| 0 <= j < k < out.len() implies end_of(#[trigger] out[j]) < (
            #[trigger] out[k]).0 by {
                assert(end_of(rs[j]) < rs[k].0);
            }
            assert forall|j: int| 0 <= j < out.len() implies (#[trigger] out[j]).1 >= min_block() by {
                assert(rs[j].1 >= min_block());
            }
        },
        Placement::Middle(q) => {
            let mid = rs.update(i, (a, q));
            assert forall|j: int, k: int| 0 <= j < k < out.len() implies end_of(#[trigger] out[j]) < (
            #[trigger] out[k]).0 by {
                let jj = if j <= i { j } else { j - 1 };
                let kk = if k <= i { k } else { k - 1 };
                assert(end_of(rs[jj]) < rs[kk].0 || jj == kk || jj > kk);
                if j <= i && k > i + 1 {
                    assert(end_of(rs[i]) < rs[k - 1].0);
                }
            }
            assert forall|j: int| 0 <= j < out.len() implies (#[trigger] out[j]).1 >= min_block() by {
                if j < i {
                    assert(rs[j].1 >= min_block());
                } else if j > i + 1 {
                    assert(rs[j - 1].1 >= min_block());
                }
            }
        },
    }
}

/// Law: giving back a block of at least 16 bytes that overlaps no region keeps
/// the list tight, whether the block merges with its neighbours, is inserted,
/// or takes the place of the last region.
#[verifier::spinoff_prover]
pub proof fn law_release_keeps_tight(start: int, len: int, rs: Seq<(int, int)>, a: int, s: int)
    requires
        regions_ok(start, len, rs),
        regions_tight(rs),
        s >= min_block(),
        disjoint_from_all(rs, a, s),
    ensures
        regions_tight(release(rs, a, s)),
{
    lemma_regions_ok_facts(start, len, rs);
    let out = release(rs, a, s);
    if rs.len() == 0 {
        return;
    }
    lemma_first_above(rs, a, 0);
    match first_above(rs, a, 0) {
        None => {
            let n = rs.len() - 1;
            assert(rs[n].0 <= a);
            assert(end_of(rs[n]) <= a);
            assert forall|j: int, k: int| 0 <= j < k < out.len() implies end_of(#[trigger] out[j]) < (
            #[trigger] out[k]).0 by {
                if k == n {
                    assert(end_of(rs[j]) < rs[n].0);
                } else {
                    assert(end_of(rs[j]) < rs[k].0);
                }
            }
            assert forall|j: int| 0 <= j < out.len() implies (#[trigger] out[j]).1 >= min_block() by {
                if j < n {
                    assert(rs[j].1 >= min_block());
                }
            }
        },
        Some(k) => {
            let left = k > 0 && end_of(rs[k - 1]) == a;
            let right = a + s == rs[k].0;
            assert(a + s <= rs[k].0);
            if k > 0 {
                assert(end_of(rs[k - 1]) <= a);
            }
            if left && right {
                assert forall|j: int, m: int| 0 <= j < m < out.len() implies end_of(#[trigger] out[j]) < (
                #[trigger] out[m]).0 by {
                    let jj = if j < k { j } else { j + 1 };
                    let mm = if m < k { m } else { m + 1 };
                    if j == k - 1 {
                        assert(end_of(rs[k]) < rs[mm].0);
                    } else {
                        assert(end_of(rs[jj]) < rs[mm].0);
                        if m == k - 1 {
                            assert(end_of(rs[jj]) < rs[k - 1].0);
                        }
                    }
                }
                assert forall|j: int| 0 <= j < out.len() implies (#[trigger] out[j]).1 >= min_block() by {
                    let jj = if j < k { j } else { j + 1 };
                    assert(rs[jj].1 >= min_block());
                }
            } else if left {
                assert forall|j: int, m: int| 0 <= j < m < out.len() implies end_of(#[trigger] out[j]) < (
                #[trigger] out[m]).0 by {
                    if j == k - 1 {
                        assert(a + s < rs[k].0);
                        assert(rs[k].0 <= rs[m].0);
                    } else {
                        assert(end_of(rs[j]) < rs[m].0);
                    }
                }
                assert forall|j: int| 0 <= j < out.len() implies (#[trigger] out[j]).1 >= min_block() by {
                    assert(rs[j].1 >= min_block());
                }
            } else if right {
                assert forall|j: int, m: int| 0 <= j < m < out.len() implies end_of(#[trigger] out[j]) < (
                #[trigger] out[m]).0 by {
                    if m == k {
                        if k > 0 {
                            assert(end_of(rs[j]) <= end_of(rs[k - 1]));
                        }
                    } else {
                        assert(end_of(rs[j]) < rs[m].0);
                    }
                }
                assert forall|j: int| 0 <= j < out.len() implies (#[trigger] out[j]).1 >= min_block() by {
                    assert(rs[j].1 >= min_block());
                }
            } else {
                assert forall|j: int, m: int| 0 <= j < m < out.len() implies end_of(#[trigger] out[j]) < (
                #[trigger] out[m]).0 by {
                    let jj = if j < k { j } else { j - 1 };
                    let mm = if m < k { m } else { m - 1 };
                    if j == k {
                        assert(a + s < rs[k].0);
                        assert(rs[k].0 <= rs[mm].0);
                    } else if m == k {
                        if k > 0 {
                            assert(end_of(rs[j]) <= end_of(rs[k - 1]));
                        }
                    } else {
                        assert(end_of(rs[jj]) < rs[mm].0);
                    }
                }
                assert forall|j: int| 0 <= j < out.len() implies (#[trigger] out[j]).1 >= min_block() by {
                    if j < k {
                        assert(rs[j].1 >= min_block());
                    } else if j > k {
                        assert(rs[j - 1].1 >= min_block());
                    }
                }
            }
        },
    }
}

/// Law: in a tight list, giving back the block that allocation just handed
/// out gives back the very list there was before, unless no region is left
/// above the block (then the block takes the place of the last region).
#[verifier::spinoff_prover]
pub proof fn law_allocate_then_release_restores(start: int, len: int, rs: Seq<(int, int)>, l: int, align: int)
    requires
        regions_ok(start, len, rs),
        regions_tight(rs),
        align > 0,
        l >= 16,
        first_fit(rs, l, align, 0) is Some,
        ({
            let i = first_fit(rs, l, align, 0)->0;
            let pl = placement(rs[i].0, rs[i].1, l, align)->0;
            let out = carve(rs, i, pl, l);
            out.len() == 0 || first_above(out, rs[i].0 + pl.offset(), 0) is Some
        }),
    ensures
        ({
            let i = first_fit(rs, l, align, 0)->0;
            let pl = placement(rs[i].0, rs[i].1, l, align)->0;
            release(carve(rs, i, pl, l), rs[i].0 + pl.offset(), l) == rs
        }),
{
    lemma_first_fit(rs, l, align, 0);
    let i = first_fit(rs, l, align, 0)->0;
    let (a, s) = rs[i];
    lemma_placement(a, s, l, align);
    let pl = placement(a, s, l, align)->0;
    let out = carve(rs, i, pl, l);
    let p = a + pl.offset();
    lemma_regions_ok_facts(start, len, rs);
    if out.len() == 0 {
        assert(rs.len() == 1);
        assert(release(out, p, l) =~= rs);
        return;
    }
    lemma_first_above(out, p, 0);
    let k = first_above(out, p, 0)->0;
    match pl {
        Placement::Whole => {
            assert(k == i) by {
                if k < i {
                    assert(out[k] == rs[k]);
                    assert(end_of(rs[k]) <= rs[i].0);
                }
                if k > i {
                    assert(out[i] == rs[i + 1]);
                }
            }
            if i > 0 {
                assert(out[i - 1] == rs[i - 1]);
                assert(end_of(rs[i - 1]) < rs[i].0);
            }
            assert(out[i] == rs[i + 1]);
            assert(end_of(rs[i]) < rs[i + 1].0);
            assert(release(out, p, l) =~= rs);
        },
        Placement::Front => {
            assert(out[i] == (a + l, s - l));
            assert(k == i) by {
                if k < i {
                    assert(out[k] == rs[k]);
                    assert(end_of(rs[k]) <= rs[i].0);
                    assert(rs[k].1 > 0);
                }
                if k > i {
                    assert(out[i].0 <= p);
                }
            }
            if i > 0 {
                assert(end_of(rs[i - 1]) < rs[i].0);
            }
            assert(release(out, p, l) =~= rs);
        },
        Placement::Tail(q) => {
            assert(out[i] == (a, q));
            assert(p == a + q);
            assert(k == i + 1) by {
                if k < i {
                    assert(out[k] == rs[k]);
                    assert(end_of(rs[k]) <= rs[i].0);
                    assert(rs[k].1 > 0);
                }
                if k == i {
                    assert(out[i].0 <= p);
                }
                if k > i + 1 {
                    assert(out[i + 1] == rs[i + 1]);
                    assert(out[i + 1].0 <= p);
                    assert(end_of(rs[i]) < rs[i + 1].0);
                }
            }
            assert(end_of(rs[i]) < rs[i + 1].0);
            assert(release(out, p, l) =~= rs);
        },
        Placement::Middle(q) => {
            assert(k == i + 1) by {
                if k < i {
                    assert(end_of(rs[k]) <= rs[i].0);
                }
            }
            assert(release(out, p, l) =~= rs);
        },
    }
}

/// Whether a block of `l` bytes aligned to `align` can be cut from the region
/// `(a, s)` with either nothing or room for a header (16 bytes) before it and
/// room for a header after it.
pub open spec fn room_for(a: int, s: int, l: int, align: int) -> bool {
    exists|p: int|
        0 <= p && #[trigger] ((a + p) % align) == 0 && (p == 0 || p >= 16) && p + l + 16 <= s
}

/// Raising a padding by steps of `align` to at least 16 stops at or below any
/// such padding `p` of at least 16 that it can reach.
proof fn lemma_bump_le(q: int, p: int, align: int, m: int)
    requires
        align > 0,
        0 <= q,
        m >= 0,
        p == q + m * align,
        p >= 16,
    ensures
        bump(q, align) <= p,
    decreases m,
{
    if q < 16 {
        assert(m >= 1) by (nonlinear_arith)
            requires
                p == q + m * align,
                q < 16,
                p >= 16,
                m >= 0,
                align > 0,
        ;
        assert(p == (q + align) + (m - 1) * align) by (nonlinear_arith)
            requires
                p == q + m * align,
        ;
        lemma_bump_le(q + align, p, align, m - 1);
    }
}

/// A region with room for the block has a placement for it.
pub proof fn lemma_room_for_placement(a: int, s: int, l: int, align: int)
    requires
        align > 0,
        l >= 16,
        room_for(a, s, l, align),
    ensures
        placement(a, s, l, align) is Some,
{
    let p = choose|p: int|
        0 <= p && #[trigger] ((a + p) % align) == 0 && (p == 0 || p >= 16) && p + l + 16 <= s;
    lemma_pad_for(a, align);
    let pad = pad_for(a, align);
    let x = (a + p) / align;
    let y = (a + pad) / align;
    vstd::arithmetic::div_mod::lemma_fundamental_div_mod(a + p, align);
    vstd::arithmetic::div_mod::lemma_fundamental_div_mod(a + pad, align);
    let m = x - y;
    assert(p == pad + m * align && m >= 0) by (nonlinear_arith)
        requires
            a + p == align * x,
            a + pad == align * y,
            m == x - y,
            0 <= pad < align,
            0 <= p,
    {
        assert(p - pad == align * (x - y));
        if x - y < 0 {
            assert(align * (x - y) <= -align);
        }
    }
    if pad == 0 {
    } else if pad >= 16 {
    } else {
        lemma_bump_le(pad, p, align, m);
    }
}

/// What `first_fit` passes over has no placement for the block.
proof fn lemma_first_fit_skips(rs: Seq<(int, int)>, l: int, align: int, from: int)
    requires
        0 <= from,
    ensures
        first_fit(rs, l, align, from) is None ==> forall|k: int|
            from <= k < rs.len() ==> placement((#[trigger] rs[k]).0, rs[k].1, l, align) is None,
        first_fit(rs, l, align, from) matches Some(i) ==> forall|k: int|
            from <= k < i ==> placement((#[trigger] rs[k]).0, rs[k].1, l, align) is None,
    decreases rs.len() - from,
{
    if from < rs.len() && placement(rs[from].0, rs[from].1, l, align) is None {
        lemma_first_fit_skips(rs, l, align, from + 1);
    }
}

/// Law: allocation takes the first region, in address order, with room for
/// the block: when it finds none, no region has room for it, and when it takes
/// region `i`, no region before `i` has room for it.
pub proof fn law_first_fit_is_first(rs: Seq<(int, int)>, l: int, align: int)
    requires
        align > 0,
        l >= 16,
    ensures
        first_fit(rs, l, align, 0) is None ==> forall|k: int|
            0 <= k < rs.len() ==> !room_for((#[trigger] rs[k]).0, rs[k].1, l, align),
        first_fit(rs, l, align, 0) matches Some(i) ==> forall|k: int|
            0 <= k < i ==> !room_for((#[trigger] rs[k]).0, rs[k].1, l, align),
{
    lemma_first_fit_skips(rs, l, align, 0);
    if first_fit(rs, l, align, 0) is Some {
        lemma_first_fit(rs, l, align, 0);
    }
    assert forall|k: int| 0 <= k < rs.len() && room_for(rs[k].0, rs[k].1, l, align) implies placement(
        #[trigger] rs[k].0,
        rs[k].1,
        l,
        align,
    ) is Some by {
        lemma_room_for_placement(rs[k].0, rs[k].1, l, align);
    }
}

} // verus!
