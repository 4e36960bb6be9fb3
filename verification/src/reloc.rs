//! Symbolic pointers between data segments. Relocations are held back until
//! every segment has a base address, so the order in which segments are placed
//! does not show in the bytes.

use crate::abi::BlobSlice;
use crate::le;
use crate::le::{put_word, to_bits, to_signed};
use vstd::prelude::*;

verus! {

/// Names a data segment whose base address is not known yet.
pub type SymbolId = u32;

/// One pending pointer write. Once segments have bases, the base of `target`
/// plus `addend` goes, as a little-endian word, to `site` bytes past the base
/// of the segment that holds the relocation.
#[derive(Clone, Copy, Debug)]
pub struct Reloc {
    pub site: u32,
    pub target: SymbolId,
    pub addend: i32,
}

/// One unit of bytes and relocations handed to the layout phase.
pub struct Segment {
    pub id: SymbolId,
    pub align: u32,
    pub bytes: Vec<u8>,
    pub relocs: Vec<Reloc>,
}

/// A `(ptr, len)` pair into segment `target` at relative offset `off`.
#[derive(Clone, Copy, Debug)]
pub struct SymRef {
    pub target: SymbolId,
    pub off: u32,
    pub len: u32,
}

/// One base address, once assigned, per [`SymbolId`].
pub struct SymbolBases {
    bases: Vec<Option<u32>>,
}

impl View for SymbolBases {
    type V = Seq<Option<u32>>;

    closed spec fn view(&self) -> Seq<Option<u32>> {
        self.bases@
    }
}

/// Whether symbol `id` has been given a base address.
pub open spec fn placed(bases: Seq<Option<u32>>, id: SymbolId) -> bool {
    id < bases.len() && bases[id as int] is Some
}

impl SymbolBases {
    /// No symbols.
    pub fn new() -> (symbols: Self)
        ensures
            symbols@ == Seq::<Option<u32>>::empty(),
    {
        SymbolBases { bases: Vec::new() }
    }

    /// Adds a symbol without a base. Its id is the low 32 bits of the number
    /// of symbols before it.
    pub fn allocate(&mut self) -> (id: SymbolId)
        ensures
            id == old(self)@.len() as u32,
            final(self)@ == old(self)@.push(None),
    {
        let id = self.bases.len() as SymbolId;
        self.bases.push(None);
        id
    }

    /// Places symbol `id` at `base`. A symbol is placed once.
    pub fn set(&mut self, id: SymbolId, base: u32)
        requires
            id < old(self)@.len(),
            old(self)@[id as int] is None,
        ensures
            final(self)@ == old(self)@.update(id as int, Some(base)),
    {
        self.bases[id as usize] = Some(base);
    }

    /// Where symbol `id` was placed.
    pub fn base_of(&self, id: SymbolId) -> (base: u32)
        requires
            placed(self@, id),
        ensures
            Some(base) == self@[id as int],
    {
        self.bases[id as usize].unwrap()
    }
}

/// Symbols get pairwise different ids, as long as ids fit 32 bits, and no
/// other symbol changes when one is added.
pub proof fn lemma_allocate_fresh(bases: Seq<Option<u32>>, id: SymbolId)
    requires
        bases.len() <= u32::MAX,
        id < bases.len(),
    ensures
        bases.len() as u32 != id,
        bases.push(None)[id as int] == bases[id as int],
        !placed(bases.push(None), bases.len() as u32),
{
}

/// It does not matter in which order two symbols are placed.
pub proof fn lemma_placement_order(
    bases: Seq<Option<u32>>,
    a: SymbolId,
    base_a: u32,
    b: SymbolId,
    base_b: u32,
)
    requires
        a < bases.len(),
        b < bases.len(),
        a != b,
    ensures
        bases.update(a as int, Some(base_a)).update(b as int, Some(base_b)) == bases.update(
            b as int,
            Some(base_b),
        ).update(a as int, Some(base_a)),
{
    assert(bases.update(a as int, Some(base_a)).update(b as int, Some(base_b)) =~= bases.update(
        b as int,
        Some(base_b),
    ).update(a as int, Some(base_a)));
}

/// Whether `sym` can be resolved: its target is placed, and the absolute
/// offset fits an address.
pub open spec fn resolvable(sym: SymRef, bases: Seq<Option<u32>>) -> bool {
    &&& placed(bases, sym.target)
    &&& bases[sym.target as int]->0 + sym.off <= u32::MAX
}

/// The absolute slice of `sym`.
pub open spec fn resolved(sym: SymRef, bases: Seq<Option<u32>>) -> BlobSlice {
    BlobSlice { off: (bases[sym.target as int]->0 + sym.off) as u32, len: sym.len }
}

/// The absolute slice of an optional symbolic one; nothing resolves to the
/// empty slice.
pub fn resolve(sym: Option<SymRef>, symbols: &SymbolBases) -> (slice: BlobSlice)
    requires
        sym matches Some(s) ==> resolvable(s, symbols@),
    ensures
        slice == match sym {
            None => (BlobSlice { off: 0, len: 0 }),
            Some(s) => resolved(s, symbols@),
        },
{
    match sym {
        None => BlobSlice::empty(),
        Some(s) => BlobSlice { off: symbols.base_of(s.target) + s.off, len: s.len },
    }
}

/// A relocation whose segment has been placed: what goes to the four bytes at
/// the absolute offset `site`, which data-segment entry `seg_idx` holds.
#[derive(Clone, Copy, Debug)]
pub struct PendingReloc {
    pub seg_idx: usize,
    pub site: u32,
    pub target: SymbolId,
    pub addend: i32,
}

/// Data-segment entries by base address and contents.
pub open spec fn entries(data_segments: Seq<(u32, Vec<u8>)>) -> Seq<(u32, Seq<u8>)> {
    data_segments.map_values(|entry: (u32, Vec<u8>)| (entry.0, entry.1@))
}

/// The relocations of a segment placed at `seg_base` in entry `seg_idx`.
pub open spec fn placed_relocs(seg_idx: usize, seg_base: u32, relocs: Seq<Reloc>) -> Seq<
    PendingReloc,
> {
    relocs.map_values(
        |r: Reloc|
            PendingReloc {
                seg_idx,
                site: (seg_base + r.site) as u32,
                target: r.target,
                addend: r.addend,
            },
    )
}

/// Whether `r` can be carried out: its target is placed, and its entry holds
/// all four bytes of its site.
pub open spec fn patchable(
    r: PendingReloc,
    bases: Seq<Option<u32>>,
    segs: Seq<(u32, Seq<u8>)>,
) -> bool {
    &&& placed(bases, r.target)
    &&& r.seg_idx < segs.len()
    &&& segs[r.seg_idx as int].0 <= r.site
    &&& r.site - segs[r.seg_idx as int].0 + 4 <= segs[r.seg_idx as int].1.len()
}

/// Whether each of `pending` can be carried out.
pub open spec fn all_patchable(
    pending: Seq<PendingReloc>,
    bases: Seq<Option<u32>>,
    segs: Seq<(u32, Seq<u8>)>,
) -> bool {
    forall|i: int| 0 <= i < pending.len() ==> patchable(#[trigger] pending[i], bases, segs)
}

/// The word that `r` writes: the base of its target plus its addend, modulo
/// two to the thirty-second.
pub open spec fn pointer(r: PendingReloc, bases: Seq<Option<u32>>) -> u32 {
    ((bases[r.target as int]->0 + r.addend) % 0x1_0000_0000) as u32
}

/// Position of `r`'s site within its entry.
pub open spec fn slot(r: PendingReloc, segs: Seq<(u32, Seq<u8>)>) -> int {
    r.site - segs[r.seg_idx as int].0
}

/// The entries after carrying out `r`.
pub open spec fn patched(
    segs: Seq<(u32, Seq<u8>)>,
    r: PendingReloc,
    bases: Seq<Option<u32>>,
) -> Seq<(u32, Seq<u8>)> {
    segs.update(
        r.seg_idx as int,
        (
            segs[r.seg_idx as int].0,
            le::overwrite(
                segs[r.seg_idx as int].1,
                slot(r, segs),
                le::le_bytes(pointer(r, bases)),
            ),
        ),
    )
}

/// The entries after carrying out each of `pending` in turn.
pub open spec fn patched_all(
    segs: Seq<(u32, Seq<u8>)>,
    pending: Seq<PendingReloc>,
    bases: Seq<Option<u32>>,
) -> Seq<(u32, Seq<u8>)>
    decreases pending.len(),
{
    if pending.len() == 0 {
        segs
    } else {
        patched(patched_all(segs, pending.drop_last(), bases), pending.last(), bases)
    }
}

/// Holds relocations back until every target symbol has a base.
pub struct RelocPlan {
    pending: Vec<PendingReloc>,
}

impl View for RelocPlan {
    type V = Seq<PendingReloc>;

    closed spec fn view(&self) -> Seq<PendingReloc> {
        self.pending@
    }
}

impl RelocPlan {
    /// A plan that holds nothing.
    pub fn new() -> (plan: Self)
        ensures
            plan@ == Seq::<PendingReloc>::empty(),
    {
        RelocPlan { pending: Vec::new() }
    }

    /// Records the relocations of a segment that was placed at `seg_base`
    /// within entry `seg_idx`.
    pub fn record_segment(&mut self, seg_idx: usize, seg_base: u32, relocs: Vec<Reloc>)
        requires
            forall|i: int| 0 <= i < relocs@.len() ==> seg_base + (#[trigger] relocs@[i]).site
                <= u32::MAX,
        ensures
            final(self)@ == old(self)@ + placed_relocs(seg_idx, seg_base, relocs@),
    {
        let mut i: usize = 0;
        while i < relocs.len()
            invariant
                i <= relocs.len(),
                forall|i: int|
                    0 <= i < relocs@.len() ==> seg_base + (#[trigger] relocs@[i]).site <= u32::MAX,
                self@ == old(self)@ + placed_relocs(seg_idx, seg_base, relocs@.take(i as int)),
            decreases relocs.len() - i,
        {
            let r = relocs[i];
            self.pending.push(
                PendingReloc {
                    seg_idx,
                    site: seg_base + r.site,
                    target: r.target,
                    addend: r.addend,
                },
            );
            i += 1;
            assert(self@ =~= old(self)@ + placed_relocs(
                seg_idx,
                seg_base,
                relocs@.take(i as int),
            ));
        }
        assert(relocs@.take(i as int) =~= relocs@);
    }

    /// Carries out every recorded relocation.
    pub fn resolve(self, symbols: &SymbolBases, data_segments: &mut [(u32, Vec<u8>)])
        requires
            all_patchable(self@, symbols@, entries(old(data_segments)@)),
        ensures
            entries(final(data_segments)@) == patched_all(
                entries(old(data_segments)@),
                self@,
                symbols@,
            ),
    {
        let mut i: usize = 0;
        while i < self.pending.len()
            invariant
                i <= self.pending.len(),
                all_patchable(self@, symbols@, entries(old(data_segments)@)),
                entries(data_segments@) == patched_all(
                    entries(old(data_segments)@),
                    self@.take(i as int),
                    symbols@,
                ),
            decreases self.pending.len() - i,
        {
            let r = self.pending[i];
            let ghost before = entries(data_segments@);
            proof {
                assert(patchable(self@[i as int], symbols@, entries(old(data_segments)@)));
                lemma_patched_all_shape(
                    entries(old(data_segments)@),
                    self@.take(i as int),
                    symbols@,
                );
                assert(before[r.seg_idx as int] == (
                    data_segments@[r.seg_idx as int].0,
                    data_segments@[r.seg_idx as int].1@,
                ));
            }
            let value = to_signed(symbols.base_of(r.target)).wrapping_add(r.addend);
            assert(le::bits(value) == pointer(r, symbols@));
            let off = (r.site - data_segments[r.seg_idx].0) as usize;
            let bytes = &mut data_segments[r.seg_idx].1;
            put_word(bytes.as_mut_slice(), off, to_bits(value));
            i += 1;
            assert(self@.take(i as int).drop_last() =~= self@.take(i - 1));
            assert(entries(data_segments@) =~= patched(before, r, symbols@));
        }
        assert(self@.take(i as int) =~= self@);
    }
}

/// Relocations change neither the number of entries, nor their bases and
/// lengths.
pub proof fn lemma_patched_all_shape(
    segs: Seq<(u32, Seq<u8>)>,
    pending: Seq<PendingReloc>,
    bases: Seq<Option<u32>>,
)
    requires
        all_patchable(pending, bases, segs),
    ensures
        patched_all(segs, pending, bases).len() == segs.len(),
        forall|e: int|
            0 <= e < segs.len() ==> {
                &&& (#[trigger] patched_all(segs, pending, bases)[e]).0 == segs[e].0
                &&& patched_all(segs, pending, bases)[e].1.len() == segs[e].1.len()
            },
    decreases pending.len(),
{
    if pending.len() > 0 {
        assert(patchable(pending.last(), bases, segs));
        lemma_patched_all_shape(segs, pending.drop_last(), bases);
    }
}

/// Whether `r` writes byte `k` of entry `e`.
pub open spec fn writes(r: PendingReloc, segs: Seq<(u32, Seq<u8>)>, e: int, k: int) -> bool {
    r.seg_idx == e && 0 <= k - slot(r, segs) < 4
}

/// What `r` writes to byte `k` of its entry.
pub open spec fn written(
    r: PendingReloc,
    bases: Seq<Option<u32>>,
    segs: Seq<(u32, Seq<u8>)>,
    k: int,
) -> u8 {
    le::le_bytes(pointer(r, bases))[k - slot(r, segs)]
}

/// Whether no two of `pending` write different values to the same byte. Sites
/// that do not overlap agree.
pub open spec fn agree(
    pending: Seq<PendingReloc>,
    bases: Seq<Option<u32>>,
    segs: Seq<(u32, Seq<u8>)>,
) -> bool {
    forall|i: int, j: int, e: int, k: int|
        0 <= i < pending.len() && 0 <= j < pending.len() && #[trigger] writes(
            pending[i],
            segs,
            e,
            k,
        ) && #[trigger] writes(pending[j], segs, e, k) ==> written(pending[i], bases, segs, k)
            == written(pending[j], bases, segs, k)
}

/// Every byte of every entry ends up as what a relocation writes there, or
/// stays as it was where none does.
pub proof fn lemma_patched_byte(
    segs: Seq<(u32, Seq<u8>)>,
    pending: Seq<PendingReloc>,
    bases: Seq<Option<u32>>,
    e: int,
    k: int,
)
    requires
        all_patchable(pending, bases, segs),
        agree(pending, bases, segs),
        0 <= e < segs.len(),
        0 <= k < segs[e].1.len(),
    ensures
        forall|i: int|
            0 <= i < pending.len() && #[trigger] writes(pending[i], segs, e, k) ==> patched_all(
                segs,
                pending,
                bases,
            )[e].1[k] == written(pending[i], bases, segs, k),
        (forall|i: int| 0 <= i < pending.len() ==> !(#[trigger] writes(pending[i], segs, e, k)))
            ==> patched_all(segs, pending, bases)[e].1[k] == segs[e].1[k],
    decreases pending.len(),
{
    if pending.len() > 0 {
        let init = pending.drop_last();
        let last = pending.last();
        let before = patched_all(segs, init, bases);
        assert(patchable(last, bases, segs));
        assert forall|i: int, j: int, e: int, k: int|
            0 <= i < init.len() && 0 <= j < init.len() && #[trigger] writes(init[i], segs, e, k)
                && #[trigger] writes(init[j], segs, e, k) implies written(init[i], bases, segs, k)
            == written(init[j], bases, segs, k) by {
            assert(writes(pending[i], segs, e, k) && writes(pending[j], segs, e, k));
        }
        lemma_patched_byte(segs, init, bases, e, k);
        lemma_patched_all_shape(segs, init, bases);
        assert(before[last.seg_idx as int].0 == segs[last.seg_idx as int].0);
        let after = patched_all(segs, pending, bases);
        assert(after == patched(before, last, bases));
        assert(last == pending[pending.len() - 1]);
        assert forall|i: int|
            0 <= i < pending.len() && #[trigger] writes(pending[i], segs, e, k) implies after[e].1[k]
            == written(pending[i], bases, segs, k) by {
            if writes(last, segs, e, k) {
                assert(after[e].1[k] == written(last, bases, segs, k));
            } else {
                assert(after[e].1[k] == before[e].1[k]);
                assert(init[i] == pending[i]);
            }
        }
        if forall|i: int| 0 <= i < pending.len() ==> !(#[trigger] writes(pending[i], segs, e, k)) {
            assert(!writes(pending[pending.len() - 1], segs, e, k));
            assert forall|i: int| 0 <= i < init.len() implies !(#[trigger] writes(
                init[i],
                segs,
                e,
                k,
            )) by {
                assert(!writes(pending[i], segs, e, k));
            }
            assert(after[e].1[k] == before[e].1[k]);
        }
    }
}

/// The same relocations, in whatever order they were recorded, give the same
/// bytes.
pub proof fn lemma_resolve_order(
    segs: Seq<(u32, Seq<u8>)>,
    p: Seq<PendingReloc>,
    q: Seq<PendingReloc>,
    bases: Seq<Option<u32>>,
)
    requires
        all_patchable(p, bases, segs),
        agree(p, bases, segs),
        forall|r: PendingReloc| #[trigger] p.contains(r) <==> q.contains(r),
    ensures
        patched_all(segs, p, bases) == patched_all(segs, q, bases),
{
    assert forall|j: int| 0 <= j < q.len() implies patchable(#[trigger] q[j], bases, segs) by {
        assert(q.contains(q[j]) && p.contains(q[j]));
        let i = choose|i: int| 0 <= i < p.len() && p[i] == q[j];
        assert(patchable(p[i], bases, segs));
    }
    assert forall|i: int, j: int, e: int, k: int|
        0 <= i < q.len() && 0 <= j < q.len() && #[trigger] writes(q[i], segs, e, k)
            && #[trigger] writes(q[j], segs, e, k) implies written(q[i], bases, segs, k) == written(
        q[j],
        bases,
        segs,
        k,
    ) by {
        assert(q.contains(q[i]) && p.contains(q[i]));
        assert(q.contains(q[j]) && p.contains(q[j]));
        let i2 = choose|i2: int| 0 <= i2 < p.len() && p[i2] == q[i];
        let j2 = choose|j2: int| 0 <= j2 < p.len() && p[j2] == q[j];
        assert(writes(p[i2], segs, e, k) && writes(p[j2], segs, e, k));
    }
    let a = patched_all(segs, p, bases);
    let b = patched_all(segs, q, bases);
    lemma_patched_all_shape(segs, p, bases);
    lemma_patched_all_shape(segs, q, bases);
    assert forall|e: int| 0 <= e < segs.len() implies a[e] == b[e] by {
        assert forall|k: int| 0 <= k < segs[e].1.len() implies a[e].1[k] == b[e].1[k] by {
            lemma_patched_byte(segs, p, bases, e, k);
            lemma_patched_byte(segs, q, bases, e, k);
            if exists|i: int| 0 <= i < p.len() && #[trigger] writes(p[i], segs, e, k) {
                let i = choose|i: int| 0 <= i < p.len() && #[trigger] writes(p[i], segs, e, k);
                assert(p.contains(p[i]));
                let j = choose|j: int| 0 <= j < q.len() && q[j] == p[i];
                assert(writes(q[j], segs, e, k));
            } else {
                assert forall|j: int| 0 <= j < q.len() implies !(#[trigger] writes(
                    q[j],
                    segs,
                    e,
                    k,
                )) by {
                    assert(q.contains(q[j]) && p.contains(q[j]));
                    let i = choose|i: int| 0 <= i < p.len() && p[i] == q[j];
                    assert(!writes(p[i], segs, e, k));
                }
            }
        }
        assert(a[e].1 =~= b[e].1);
        assert(a[e].0 == b[e].0);
    }
    assert(a =~= b);
}

/// Recording two segments in either order gives the same bytes.
pub proof fn lemma_record_order(
    segs: Seq<(u32, Seq<u8>)>,
    pending: Seq<PendingReloc>,
    a: Seq<PendingReloc>,
    b: Seq<PendingReloc>,
    bases: Seq<Option<u32>>,
)
    requires
        all_patchable(pending + a + b, bases, segs),
        agree(pending + a + b, bases, segs),
    ensures
        patched_all(segs, pending + a + b, bases) == patched_all(segs, pending + b + a, bases),
{
    let p = pending + a + b;
    let q = pending + b + a;
    assert forall|r: PendingReloc| #[trigger] p.contains(r) <==> q.contains(r) by {
        lemma_contains_concat(pending, a, b, r);
        lemma_contains_concat(pending, b, a, r);
    }
    lemma_resolve_order(segs, p, q, bases);
}

proof fn lemma_contains_concat(
    x: Seq<PendingReloc>,
    y: Seq<PendingReloc>,
    z: Seq<PendingReloc>,
    r: PendingReloc,
)
    ensures
        (x + y + z).contains(r) <==> x.contains(r) || y.contains(r) || z.contains(r),
{
    let s = x + y + z;
    if x.contains(r) {
        let i = choose|i: int| 0 <= i < x.len() && x[i] == r;
        assert(s[i] == r);
    }
    if y.contains(r) {
        let i = choose|i: int| 0 <= i < y.len() && y[i] == r;
        assert(s[x.len() + i] == r);
    }
    if z.contains(r) {
        let i = choose|i: int| 0 <= i < z.len() && z[i] == r;
        assert(s[x.len() + y.len() + i] == r);
    }
}

/// Whether `to` arranges the entries of `from` anew: entry `e` has moved to
/// position `perm[e]`.
pub open spec fn rearranged(
    from: Seq<(u32, Seq<u8>)>,
    to: Seq<(u32, Seq<u8>)>,
    perm: Seq<usize>,
) -> bool {
    &&& perm.len() == from.len()
    &&& to.len() == from.len()
    &&& forall|e: int| 0 <= e < perm.len() ==> #[trigger] perm[e] < to.len()
    &&& forall|e: int, f: int| 0 <= e < f < perm.len() ==> perm[e] != perm[f]
    &&& forall|e: int| 0 <= e < from.len() ==> to[perm[e] as int] == #[trigger] from[e]
}

/// `pending`, with each relocation following its entry to its new position.
pub open spec fn moved(pending: Seq<PendingReloc>, perm: Seq<usize>) -> Seq<PendingReloc> {
    pending.map_values(
        |r: PendingReloc|
            PendingReloc {
                seg_idx: perm[r.seg_idx as int],
                site: r.site,
                target: r.target,
                addend: r.addend,
            },
    )
}

/// It does not matter in which order the entries stand: each ends up with the
/// same bytes.
pub proof fn lemma_entry_order(
    from: Seq<(u32, Seq<u8>)>,
    to: Seq<(u32, Seq<u8>)>,
    perm: Seq<usize>,
    pending: Seq<PendingReloc>,
    bases: Seq<Option<u32>>,
)
    requires
        all_patchable(pending, bases, from),
        rearranged(from, to, perm),
    ensures
        all_patchable(moved(pending, perm), bases, to),
        rearranged(
            patched_all(from, pending, bases),
            patched_all(to, moved(pending, perm), bases),
            perm,
        ),
    decreases pending.len(),
{
    let q = moved(pending, perm);
    assert forall|i: int| 0 <= i < q.len() implies patchable(#[trigger] q[i], bases, to) by {
        assert(patchable(pending[i], bases, from));
        assert(to[perm[pending[i].seg_idx as int] as int] == from[pending[i].seg_idx as int]);
    }
    if pending.len() > 0 {
        let init = pending.drop_last();
        let last = pending.last();
        lemma_entry_order(from, to, perm, init, bases);
        assert(q.drop_last() =~= moved(init, perm));
        assert(patchable(last, bases, from));
        let a = patched_all(from, init, bases);
        let b = patched_all(to, moved(init, perm), bases);
        lemma_patched_all_shape(from, init, bases);
        lemma_patched_all_shape(to, moved(init, perm), bases);
        assert(b[perm[last.seg_idx as int] as int] == a[last.seg_idx as int]);
        let a2 = patched(a, last, bases);
        let b2 = patched(b, q.last(), bases);
        assert forall|e: int| 0 <= e < a2.len() implies b2[perm[e] as int] == #[trigger] a2[e] by {
            if e != last.seg_idx {
                assert(b[perm[e] as int] == a[e]);
            }
        }
    }
}

/// After resolution every site holds the base of its target plus its addend.
pub proof fn lemma_resolved_site(
    segs: Seq<(u32, Seq<u8>)>,
    pending: Seq<PendingReloc>,
    bases: Seq<Option<u32>>,
    i: int,
)
    requires
        all_patchable(pending, bases, segs),
        agree(pending, bases, segs),
        0 <= i < pending.len(),
    ensures
        le::word_at(
            patched_all(segs, pending, bases)[pending[i].seg_idx as int].1,
            slot(pending[i], segs),
        ) == pointer(pending[i], bases),
{
    let r = pending[i];
    let e = r.seg_idx as int;
    let at = slot(r, segs);
    let after = patched_all(segs, pending, bases)[e].1;
    let bytes = le::le_bytes(pointer(r, bases));
    assert(patchable(r, bases, segs));
    lemma_patched_all_shape(segs, pending, bases);
    assert(patched_all(segs, pending, bases)[e].1.len() == segs[e].1.len());
    assert forall|k: int| 0 <= k < 4 implies #[trigger] after.subrange(at, at + 4)[k] == bytes[k] by {
        lemma_patched_byte(segs, pending, bases, e, at + k);
        assert(writes(pending[i], segs, e, at + k));
    }
    assert(after.subrange(at, at + 4) =~= bytes);
    le::lemma_le_value_of_bytes(pointer(r, bases));
}

/// A symbolic slice resolves to as far past its target's base as it lies past
/// the target's start, with its length kept. That it fits an address is all
/// that it takes.
pub proof fn lemma_resolved_offset(sym: SymRef, bases: Seq<Option<u32>>, base: u32)
    requires
        sym.target < bases.len(),
        bases[sym.target as int] == Some(base),
        base + sym.off <= u32::MAX,
    ensures
        resolvable(sym, bases),
        resolved(sym, bases).off - base == sym.off,
        resolved(sym, bases).len == sym.len,
{
}

/// Moving a segment moves the slices into it just as far, and no others.
pub proof fn lemma_resolved_moves(
    sym: SymRef,
    bases: Seq<Option<u32>>,
    id: SymbolId,
    from: u32,
    to: u32,
)
    requires
        id < bases.len(),
        bases[id as int] == Some(from),
        resolvable(sym, bases),
        sym.target == id ==> to + sym.off <= u32::MAX,
    ensures
        resolvable(sym, bases.update(id as int, Some(to))),
        resolved(sym, bases.update(id as int, Some(to))).len == resolved(sym, bases).len,
        resolved(sym, bases.update(id as int, Some(to))).off - resolved(sym, bases).off == if sym.target
            == id {
            to - from
        } else {
            0
        },
{
}

/// A resolved slice addresses, in memory, the bytes of the segment that the
/// symbolic one addresses in the segment.
pub proof fn lemma_resolved_bytes(
    sym: SymRef,
    bases: Seq<Option<u32>>,
    base: u32,
    segment: Seq<u8>,
    memory: Seq<u8>,
)
    requires
        sym.target < bases.len(),
        bases[sym.target as int] == Some(base),
        sym.off + sym.len <= segment.len(),
        base + segment.len() <= memory.len(),
        memory.len() <= u32::MAX,
        memory.subrange(base as int, base + segment.len() as int) == segment,
    ensures
        memory.subrange(
            resolved(sym, bases).off as int,
            resolved(sym, bases).off + resolved(sym, bases).len,
        ) == segment.subrange(sym.off as int, sym.off + sym.len),
{
    lemma_resolved_offset(sym, bases, base);
    let slice = resolved(sym, bases);
    let placed_segment = memory.subrange(base as int, base + segment.len() as int);
    assert(memory.subrange(slice.off as int, slice.off + slice.len) =~= placed_segment.subrange(
        sym.off as int,
        sym.off + sym.len,
    ));
}

/// Recording a segment holds back each of its relocations once, in order, with
/// the site moved by the segment's base and all else kept.
pub proof fn lemma_placed_reloc(seg_idx: usize, seg_base: u32, relocs: Seq<Reloc>, i: int)
    requires
        0 <= i < relocs.len(),
        seg_base + relocs[i].site <= u32::MAX,
    ensures
        placed_relocs(seg_idx, seg_base, relocs).len() == relocs.len(),
        placed_relocs(seg_idx, seg_base, relocs)[i].seg_idx == seg_idx,
        placed_relocs(seg_idx, seg_base, relocs)[i].site - seg_base == relocs[i].site,
        placed_relocs(seg_idx, seg_base, relocs)[i].target == relocs[i].target,
        placed_relocs(seg_idx, seg_base, relocs)[i].addend == relocs[i].addend,
{
}

/// Entries are seen as they are: base and bytes, in their places.
pub proof fn lemma_entries_seen(data_segments: Seq<(u32, Vec<u8>)>, e: int)
    requires
        0 <= e < data_segments.len(),
    ensures
        entries(data_segments).len() == data_segments.len(),
        entries(data_segments)[e].0 == data_segments[e].0,
        entries(data_segments)[e].1 == data_segments[e].1@,
{
}

/// Where sites do not overlap, each site ends up with a word that equals its
/// target's base plus its addend, but for multiples of two to the
/// thirty-second; bytes of no site stay; and so do bases and lengths.
pub proof fn lemma_sites_resolved(
    segs: Seq<(u32, Seq<u8>)>,
    pending: Seq<PendingReloc>,
    bases: Seq<Option<u32>>,
    i: int,
    e: int,
    k: int,
)
    requires
        forall|j: int| #![trigger pending[j]]
            0 <= j < pending.len() ==> {
                &&& pending[j].target < bases.len()
                &&& bases[pending[j].target as int] is Some
                &&& pending[j].seg_idx < segs.len()
                &&& segs[pending[j].seg_idx as int].0 <= pending[j].site
                &&& pending[j].site + 4 <= segs[pending[j].seg_idx as int].0
                    + segs[pending[j].seg_idx as int].1.len()
            },
        forall|a: int, b: int| #![trigger pending[a], pending[b]]
            0 <= a < b < pending.len() && pending[a].seg_idx == pending[b].seg_idx
                ==> pending[a].site + 4 <= pending[b].site || pending[b].site + 4
                <= pending[a].site,
        0 <= i < pending.len(),
        0 <= e < segs.len(),
        0 <= k < segs[e].1.len(),
    ensures
        all_patchable(pending, bases, segs),
        patched_all(segs, pending, bases).len() == segs.len(),
        patched_all(segs, pending, bases)[e].0 == segs[e].0,
        patched_all(segs, pending, bases)[e].1.len() == segs[e].1.len(),
        (le::word_at(
            patched_all(segs, pending, bases)[pending[i].seg_idx as int].1,
            pending[i].site - segs[pending[i].seg_idx as int].0,
        ) - (bases[pending[i].target as int]->0 + pending[i].addend)) % 0x1_0000_0000 == 0,
        (forall|j: int| #![trigger pending[j]]
            0 <= j < pending.len() && pending[j].seg_idx == e ==> !(pending[j].site <= segs[e].0 + k
                < pending[j].site + 4)) ==> patched_all(segs, pending, bases)[e].1[k]
            == segs[e].1[k],
{
    assert forall|j: int| 0 <= j < pending.len() implies patchable(
        #[trigger] pending[j],
        bases,
        segs,
    ) by {}
    assert(agree(pending, bases, segs)) by {
        assert forall|a: int, b: int, x: int, y: int|
            0 <= a < pending.len() && 0 <= b < pending.len() && #[trigger] writes(
                pending[a],
                segs,
                x,
                y,
            ) && #[trigger] writes(pending[b], segs, x, y) implies written(
            pending[a],
            bases,
            segs,
            y,
        ) == written(pending[b], bases, segs, y) by {
            if a < b {
                assert(pending[a].seg_idx == pending[b].seg_idx);
            } else if b < a {
                assert(pending[b].seg_idx == pending[a].seg_idx);
            }
        }
    }
    lemma_patched_all_shape(segs, pending, bases);
    lemma_resolved_site(segs, pending, bases, i);
    let sum = bases[pending[i].target as int]->0 + pending[i].addend;
    assert((sum % 0x1_0000_0000 - sum) % 0x1_0000_0000 == 0);
    lemma_patched_byte(segs, pending, bases, e, k);
    if forall|j: int| #![trigger pending[j]]
        0 <= j < pending.len() && pending[j].seg_idx == e ==> !(pending[j].site <= segs[e].0 + k
            < pending[j].site + 4) {
        assert forall|j: int| 0 <= j < pending.len() implies !(#[trigger] writes(
            pending[j],
            segs,
            e,
            k,
        )) by {
            assert(pending[j].seg_idx == e ==> !(pending[j].site <= segs[e].0 + k < pending[j].site
                + 4));
        }
    }
}

} // verus!
