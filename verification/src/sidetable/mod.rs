//! Side tables: per-tree info records that cells reference by index. Each kind
//! of cell has a builder of its own.

use crate::abi::{BlobSlice, RecordLayout};
use crate::classify;
use crate::plan::{Cell, LiftPlan};
use crate::reloc;
use crate::reloc::{resolve, Segment, SymRef, SymbolBases};
use flags_info::{FlagsFillView, FlagsRuntimeFill};
use handle_info::HandleRuntimeFill;
use record_info::RecordRuntimeFill;
use variant_info::{VariantFillView, VariantRuntimeFill};
use vstd::prelude::*;

pub mod char_info;
pub mod enum_info;
pub mod flags_info;
pub mod handle_info;
pub mod record_info;
pub mod variant_info;

verus! {

/// The views of a row of optional values.
pub open spec fn views<T: View>(row: Seq<Option<T>>) -> Seq<Option<T::V>> {
    row.map_values(
        |slot: Option<T>|
            match slot {
                Some(value) => Some(value@),
                None => None,
            },
    )
}

/// One optional value per plan cell, for each parameter and each result.
pub struct PerCellIndices<T> {
    pub per_param: Vec<Vec<Vec<Option<T>>>>,
    pub per_result: Vec<Vec<Option<T>>>,
}

impl<T> PerCellIndices<T> {
    /// The values of parameter `param_idx` of function `fn_idx`.
    pub fn for_param(&self, fn_idx: usize, param_idx: usize) -> (row: &[Option<T>])
        requires
            fn_idx < self.per_param@.len(),
            param_idx < self.per_param@[fn_idx as int]@.len(),
        ensures
            row@ == self.per_param@[fn_idx as int]@[param_idx as int]@,
    {
        self.per_param[fn_idx][param_idx].as_slice()
    }

    /// The values of the result of function `fn_idx`; none at all where it is
    /// not compound.
    pub fn for_result(&self, fn_idx: usize) -> (row: &[Option<T>])
        requires
            fn_idx < self.per_result@.len(),
        ensures
            row@ == self.per_result@[fn_idx as int]@,
    {
        self.per_result[fn_idx].as_slice()
    }
}

impl PerCellIndices<SymRef> {
    /// The absolute slices of one parameter's cells.
    pub fn resolve_param(&self, fn_idx: usize, param_idx: usize, symbols: &SymbolBases) -> (slices:
        Vec<Option<BlobSlice>>)
        requires
            fn_idx < self.per_param@.len(),
            param_idx < self.per_param@[fn_idx as int]@.len(),
            row_resolvable(self.per_param@[fn_idx as int]@[param_idx as int]@, symbols@),
        ensures
            slices@ == row_resolved(
                self.per_param@[fn_idx as int]@[param_idx as int]@,
                symbols@,
            ),
    {
        resolve_cell_syms(self.for_param(fn_idx, param_idx), symbols)
    }

    /// The absolute slices of one result's cells.
    pub fn resolve_result(&self, fn_idx: usize, symbols: &SymbolBases) -> (slices: Vec<
        Option<BlobSlice>,
    >)
        requires
            fn_idx < self.per_result@.len(),
            row_resolvable(self.per_result@[fn_idx as int]@, symbols@),
        ensures
            slices@ == row_resolved(self.per_result@[fn_idx as int]@, symbols@),
    {
        resolve_cell_syms(self.for_result(fn_idx), symbols)
    }
}

/// Whether every symbolic slice of `row` can be resolved.
pub open spec fn row_resolvable(row: Seq<Option<SymRef>>, bases: Seq<Option<u32>>) -> bool {
    forall|i: int| #![trigger row[i]]
        0 <= i < row.len() && row[i] is Some ==> reloc::resolvable(row[i]->0, bases)
}

/// The absolute slices of `row`. Empty slots stay empty.
pub open spec fn row_resolved(row: Seq<Option<SymRef>>, bases: Seq<Option<u32>>) -> Seq<
    Option<BlobSlice>,
> {
    row.map_values(
        |slot: Option<SymRef>|
            match slot {
                Some(sym) => Some(reloc::resolved(sym, bases)),
                None => None,
            },
    )
}

/// The absolute slices of a row of symbolic ones.
pub fn resolve_cell_syms(syms: &[Option<SymRef>], symbols: &SymbolBases) -> (slices: Vec<
    Option<BlobSlice>,
>)
    requires
        row_resolvable(syms@, symbols@),
    ensures
        slices@ == row_resolved(syms@, symbols@),
{
    let mut slices: Vec<Option<BlobSlice>> = Vec::new();
    let mut i: usize = 0;
    while i < syms.len()
        invariant
            i <= syms@.len(),
            row_resolvable(syms@, symbols@),
            slices@ == row_resolved(syms@, symbols@).take(i as int),
        decreases syms.len() - i,
    {
        let slot = syms[i];
        match slot {
            Some(sym) => {
                slices.push(Some(resolve(Some(sym), symbols)));
            },
            None => {
                slices.push(None);
            },
        }
        i += 1;
    }
    slices
}

/// Field of a side-table record that names the type.
pub const INFO_TYPE_NAME: &'static str = "type-name";

/// A side table baked into a data segment, and the range of it that each
/// parameter and result points at, if any.
pub struct SideTableBlob {
    pub segment: Segment,
    pub per_param: Vec<Vec<Option<SymRef>>>,
    pub per_result: Vec<Option<SymRef>>,
}

// ─── Folding ─────────────────────────────────────────────────────

/// Side-table data of one plan cell; nothing for a cell that lifts from flat
/// slots alone.
#[derive(Clone, Debug)]
pub enum CellSideData {
    Flat,
    Record(Box<RecordRuntimeFill>),
    Tuple { source: TupleIdxSource },
    Flags(Box<FlagsRuntimeFill>),
    Variant(Box<VariantRuntimeFill>),
    Char { scratch: CharScratch },
    Handle(Box<HandleRuntimeFill>),
}

/// Where a `char` cell's utf-8 scratch buffer lies.
#[derive(Clone, Copy, Debug, PartialEq, Eq, Structural)]
pub enum CharScratch {
    /// A slab reserved at build time.
    Static { scratch_addr: i32 },
    /// Staged by the list element that holds the cell.
    Prestaged,
}

/// Where a tuple cell's child-index array lies.
#[derive(Clone, Copy, Debug, PartialEq, Eq, Structural)]
pub enum TupleIdxSource {
    /// In a data segment.
    Static(BlobSlice),
    /// In a per-call buffer, this far into the list element that holds the
    /// cell.
    PerIteration { offset_in_elem: u32 },
}

/// What a [`CellSideData`] holds.
pub enum CellSideView {
    Flat,
    Record(RecordRuntimeFill),
    Tuple(TupleIdxSource),
    Flags(FlagsFillView),
    Variant(VariantFillView),
    Char(CharScratch),
    Handle(HandleRuntimeFill),
}

impl View for CellSideData {
    type V = CellSideView;

    open spec fn view(&self) -> CellSideView {
        match self {
            CellSideData::Flat => CellSideView::Flat,
            CellSideData::Record(fill) => CellSideView::Record(**fill),
            CellSideData::Tuple { source } => CellSideView::Tuple(*source),
            CellSideData::Flags(fill) => CellSideView::Flags(fill@),
            CellSideData::Variant(fill) => CellSideView::Variant(fill@),
            CellSideData::Char { scratch } => CellSideView::Char(*scratch),
            CellSideData::Handle(fill) => CellSideView::Handle(**fill),
        }
    }
}

/// What each builder made of one plan, cell by cell.
pub struct CellFillSources<'a> {
    pub record_fill: &'a [Option<RecordRuntimeFill>],
    pub tuple_indices: &'a [Option<BlobSlice>],
    pub flags_fill: &'a [Option<FlagsRuntimeFill>],
    pub variant_fill: &'a [Option<VariantRuntimeFill>],
    pub char_scratch: &'a [Option<i32>],
    pub handle_fill: &'a [Option<HandleRuntimeFill>],
}

impl<'a> CellFillSources<'a> {
    /// Whether each source has one slot per cell of a plan of `n` cells.
    pub open spec fn parallel_to(&self, n: nat) -> bool {
        &&& self.record_fill@.len() == n
        &&& self.tuple_indices@.len() == n
        &&& self.flags_fill@.len() == n
        &&& self.variant_fill@.len() == n
        &&& self.char_scratch@.len() == n
        &&& self.handle_fill@.len() == n
    }

    /// Whether the source for the kind of `cell` has a value in slot `i`.
    pub open spec fn provides(&self, cell: Cell, i: int) -> bool {
        match cell {
            Cell::RecordOf { .. } => self.record_fill@[i] is Some,
            Cell::TupleOf { .. } => self.tuple_indices@[i] is Some,
            Cell::Flags { .. } => self.flags_fill@[i] is Some,
            Cell::Variant { .. } => self.variant_fill@[i] is Some,
            Cell::Char { .. } => self.char_scratch@[i] is Some,
            Cell::Handle { .. } => self.handle_fill@[i] is Some,
            _ => true,
        }
    }

    /// The side data of `cell`: what the source for its kind has in slot `i`.
    pub open spec fn side_data(&self, cell: Cell, i: int) -> CellSideView {
        match cell {
            Cell::RecordOf { .. } => CellSideView::Record(self.record_fill@[i]->0),
            Cell::TupleOf { .. } => CellSideView::Tuple(
                TupleIdxSource::Static(self.tuple_indices@[i]->0),
            ),
            Cell::Flags { .. } => CellSideView::Flags(self.flags_fill@[i]->0@),
            Cell::Variant { .. } => CellSideView::Variant(self.variant_fill@[i]->0@),
            Cell::Char { .. } => CellSideView::Char(
                CharScratch::Static { scratch_addr: self.char_scratch@[i]->0 },
            ),
            Cell::Handle { .. } => CellSideView::Handle(self.handle_fill@[i]->0),
            _ => CellSideView::Flat,
        }
    }
}

/// Folds what the builders made of one plan into one list. For outer plans
/// only; list elements get theirs when they are walked.
pub fn fold_cell_side_data(plan: &LiftPlan, sources: &CellFillSources<'_>) -> (side: Vec<
    CellSideData,
>)
    requires
        sources.parallel_to(plan.cells@.len()),
        forall|i: int| #![trigger plan.cells@[i]]
            0 <= i < plan.cells@.len() ==> sources.provides(plan.cells@[i], i),
    ensures
        side@.len() == plan.cells@.len(),
        forall|i: int| #![trigger side@[i]]
            0 <= i < side@.len() ==> side@[i]@ == sources.side_data(plan.cells@[i], i),
{
    let mut side: Vec<CellSideData> = Vec::new();
    let mut i: usize = 0;
    while i < plan.cells.len()
        invariant
            sources.parallel_to(plan.cells@.len()),
            forall|i: int| #![trigger plan.cells@[i]]
                0 <= i < plan.cells@.len() ==> sources.provides(plan.cells@[i], i),
            i <= plan.cells@.len(),
            side@.len() == i,
            forall|k: int| #![trigger side@[k]]
                0 <= k < i ==> side@[k]@ == sources.side_data(plan.cells@[k], k),
        decreases plan.cells.len() - i,
    {
        let cell = &plan.cells[i];
        assert(sources.provides(plan.cells@[i as int], i as int));
        let data = match cell {
            Cell::RecordOf { .. } => CellSideData::Record(
                Box::new(sources.record_fill[i].unwrap()),
            ),
            Cell::TupleOf { .. } => CellSideData::Tuple {
                source: TupleIdxSource::Static(sources.tuple_indices[i].unwrap()),
            },
            Cell::Flags { .. } => match &sources.flags_fill[i] {
                Some(fill) => CellSideData::Flags(Box::new(fill.clone())),
                None => vstd::pervasive::unreached(),
            },
            Cell::Variant { .. } => match &sources.variant_fill[i] {
                Some(fill) => CellSideData::Variant(Box::new(fill.clone())),
                None => vstd::pervasive::unreached(),
            },
            Cell::Char { .. } => CellSideData::Char {
                scratch: CharScratch::Static { scratch_addr: sources.char_scratch[i].unwrap() },
            },
            Cell::Handle { .. } => CellSideData::Handle(
                Box::new(sources.handle_fill[i].unwrap()),
            ),
            // Spelled out, so that a new kind of cell calls for a decision here.
            Cell::Bool { .. } | Cell::IntegerSignExt { .. } | Cell::IntegerZeroExt { .. }
            | Cell::Integer64 { .. } | Cell::FloatingF32 { .. } | Cell::FloatingF64 { .. }
            | Cell::Text { .. } | Cell::Bytes { .. } | Cell::EnumCase { .. } | Cell::Option { .. }
            | Cell::Result { .. } | Cell::ListOf { .. } => CellSideData::Flat,
        };
        side.push(data);
        i += 1;
    }
    side
}

/// What the builders make of a plan can be folded, with the records back-filled
/// or not: each builder provides for the cells of its own kind, whatever the
/// addresses. Tuples are up to the caller.
pub proof fn lemma_builders_provide(
    cells: Seq<Cell>,
    sources: CellFillSources<'_>,
    layout: RecordLayout,
    tuples_start: nat,
    tuples_base: u32,
    flags_addrs: Seq<u32>,
    flags_start: int,
    char_addrs: Seq<u32>,
    char_start: int,
)
    requires
        sources.record_fill@ == record_info::record_fills(layout, cells, tuples_start)
            || sources.record_fill@ == record_info::row_rebased(
            record_info::record_fills(layout, cells, tuples_start),
            tuples_base,
        ),
        views(sources.flags_fill@) == flags_info::flags_fills(cells, flags_addrs, flags_start),
        views(sources.variant_fill@) == variant_info::variant_fills(cells),
        sources.char_scratch@ == char_info::char_addrs(cells, char_addrs, char_start),
        sources.handle_fill@ == handle_info::handle_fills(cells),
        sources.tuple_indices@.len() == cells.len(),
        forall|i: int| #![trigger sources.tuple_indices@[i]]
            0 <= i < cells.len() && cells[i] is TupleOf ==> sources.tuple_indices@[i] is Some,
    ensures
        sources.parallel_to(cells.len()),
        forall|i: int| #![trigger cells[i]]
            0 <= i < cells.len() ==> sources.provides(cells[i], i),
{
    assert(views(sources.flags_fill@).len() == cells.len());
    assert(views(sources.variant_fill@).len() == cells.len());
    assert forall|i: int| #![trigger cells[i]] 0 <= i < cells.len() implies sources.provides(
        cells[i],
        i,
    ) by {
        assert(views(sources.flags_fill@)[i] is Some ==> sources.flags_fill@[i] is Some);
        assert(views(sources.variant_fill@)[i] is Some ==> sources.variant_fill@[i] is Some);
        assert(record_info::record_fills(layout, cells, tuples_start)[i] is Some
            ==> sources.record_fill@[i] is Some);
        assert(sources.tuple_indices@[i] is Some || !(cells[i] is TupleOf));
    }
}

// ─── Back-filling ────────────────────────────────────────────────

/// Whether `patch` may be applied to every value in `row`.
pub open spec fn row_patchable<F, P: Fn(F) -> F>(row: Seq<Option<F>>, patch: P) -> bool {
    forall|i: int| #![trigger row[i]]
        0 <= i < row.len() && row[i] is Some ==> call_requires(patch, (row[i]->0,))
}

/// Whether `after` is `before` with `patch` applied to every value. Empty slots
/// stay empty.
pub open spec fn row_patched<F, P: Fn(F) -> F>(
    before: Seq<Option<F>>,
    after: Seq<Option<F>>,
    patch: P,
) -> bool {
    &&& after.len() == before.len()
    &&& forall|i: int| #![trigger after[i]]
        0 <= i < before.len() ==> match (before[i], after[i]) {
            (Some(b), Some(a)) => call_ensures(patch, (b,), a),
            (None, None) => true,
            _ => false,
        }
}

/// Whether `patch` may be applied to every value of the grid.
pub open spec fn grid_patchable<F, P: Fn(F) -> F>(grid: PerCellIndices<F>, patch: P) -> bool {
    &&& forall|f: int, p: int| #![trigger grid.per_param@[f]@[p]]
        0 <= f < grid.per_param@.len() && 0 <= p < grid.per_param@[f]@.len() ==> row_patchable(
            grid.per_param@[f]@[p]@,
            patch,
        )
    &&& forall|f: int| #![trigger grid.per_result@[f]]
        0 <= f < grid.per_result@.len() ==> row_patchable(grid.per_result@[f]@, patch)
}

/// Whether `after` is `before` with `patch` applied to every value.
pub open spec fn grid_patched<F, P: Fn(F) -> F>(
    before: PerCellIndices<F>,
    after: PerCellIndices<F>,
    patch: P,
) -> bool {
    &&& after.per_param@.len() == before.per_param@.len()
    &&& forall|f: int| #![trigger after.per_param@[f]]
        0 <= f < before.per_param@.len() ==> after.per_param@[f]@.len()
            == before.per_param@[f]@.len()
    &&& forall|f: int, p: int| #![trigger after.per_param@[f]@[p]]
        0 <= f < before.per_param@.len() && 0 <= p < before.per_param@[f]@.len() ==> row_patched(
            before.per_param@[f]@[p]@,
            after.per_param@[f]@[p]@,
            patch,
        )
    &&& after.per_result@.len() == before.per_result@.len()
    &&& forall|f: int| #![trigger after.per_result@[f]]
        0 <= f < before.per_result@.len() ==> row_patched(
            before.per_result@[f]@,
            after.per_result@[f]@,
            patch,
        )
}

/// Applies `patch` to every value of the grid, and of the per-function overlay
/// `single_fill`, which is empty where no result is direct.
pub fn back_fill_per_cell<F, P: Fn(F) -> F>(
    fill: &mut PerCellIndices<F>,
    single_fill: &mut [Option<F>],
    patch: P,
)
    requires
        grid_patchable(*old(fill), patch),
        row_patchable(old(single_fill)@, patch),
    ensures
        grid_patched(*old(fill), *final(fill), patch),
        row_patched(old(single_fill)@, final(single_fill)@, patch),
{
    let mut f: usize = 0;
    while f < fill.per_param.len()
        invariant
            grid_patchable(*old(fill), patch),
            f <= fill.per_param@.len(),
            fill.per_param@.len() == old(fill).per_param@.len(),
            fill.per_result == old(fill).per_result,
            forall|g: int| #![trigger fill.per_param@[g]]
                0 <= g < f ==> fill.per_param@[g]@.len() == old(fill).per_param@[g]@.len(),
            forall|g: int, q: int| #![trigger fill.per_param@[g]@[q]]
                0 <= g < f && 0 <= q < old(fill).per_param@[g]@.len() ==> row_patched(
                    old(fill).per_param@[g]@[q]@,
                    fill.per_param@[g]@[q]@,
                    patch,
                ),
            forall|g: int| #![trigger fill.per_param@[g]]
                f <= g < fill.per_param@.len() ==> fill.per_param@[g] == old(fill).per_param@[g],
        decreases fill.per_param.len() - f,
    {
        let ghost before = fill.per_param@;
        assert(before[f as int] == old(fill).per_param@[f as int]);
        patch_rows(&mut fill.per_param[f], &patch);
        f += 1;
    }
    patch_rows(&mut fill.per_result, &patch);
    patch_row(single_fill, &patch);
}

fn patch_rows<F, P: Fn(F) -> F>(rows: &mut Vec<Vec<Option<F>>>, patch: &P)
    requires
        forall|r: int| #![trigger old(rows)@[r]]
            0 <= r < old(rows)@.len() ==> row_patchable(old(rows)@[r]@, *patch),
    ensures
        final(rows)@.len() == old(rows)@.len(),
        forall|r: int| #![trigger final(rows)@[r]]
            0 <= r < old(rows)@.len() ==> row_patched(
                old(rows)@[r]@,
                final(rows)@[r]@,
                *patch,
            ),
{
    let mut r: usize = 0;
    while r < rows.len()
        invariant
            forall|r: int| #![trigger old(rows)@[r]]
                0 <= r < old(rows)@.len() ==> row_patchable(old(rows)@[r]@, *patch),
            r <= rows@.len(),
            rows@.len() == old(rows)@.len(),
            forall|s: int| #![trigger rows@[s]]
                0 <= s < r ==> row_patched(old(rows)@[s]@, rows@[s]@, *patch),
            forall|s: int| #![trigger rows@[s]] r <= s < rows@.len() ==> rows@[s] == old(rows)@[s],
        decreases rows.len() - r,
    {
        assert(rows@[r as int] == old(rows)@[r as int]);
        patch_row(rows[r].as_mut_slice(), patch);
        r += 1;
    }
}

fn patch_row<F, P: Fn(F) -> F>(row: &mut [Option<F>], patch: &P)
    requires
        row_patchable(old(row)@, *patch),
    ensures
        row_patched(old(row)@, final(row)@, *patch),
{
    let mut i: usize = 0;
    while i < row.len()
        invariant
            row_patchable(old(row)@, *patch),
            i <= row@.len(),
            row@.len() == old(row)@.len(),
            forall|k: int| #![trigger row@[k]]
                0 <= k < i ==> match (old(row)@[k], row@[k]) {
                    (Some(b), Some(a)) => call_ensures(*patch, (b,), a),
                    (None, None) => true,
                    _ => false,
                },
            forall|k: int| #![trigger row@[k]] i <= k < row@.len() ==> row@[k] == old(row)@[k],
        decreases row.len() - i,
    {
        assert(row@[i as int] == old(row)@[i as int]);
        let slot = &mut row[i];
        if let Some(value) = slot.take() {
            *slot = Some(patch(value));
        }
        i += 1;
    }
}

/// Folding loses nothing: what a cell's own builder made of it stands, field by
/// field, in the cell's side data, under the cell's kind. Cells of other kinds
/// have none.
pub proof fn lemma_fold_keeps(
    cells: Seq<Cell>,
    sources: CellFillSources<'_>,
    side: Seq<CellSideData>,
    i: int,
)
    requires
        0 <= i < cells.len(),
        sources.provides(cells[i], i),
        side[i]@ == sources.side_data(cells[i], i),
    ensures
        match cells[i] {
            Cell::RecordOf { .. } => {
                &&& side[i] matches CellSideData::Record(fill)
                &&& sources.record_fill@[i] == Some(*fill)
            },
            Cell::TupleOf { .. } => {
                &&& side[i] matches CellSideData::Tuple { source: TupleIdxSource::Static(slice) }
                &&& sources.tuple_indices@[i] == Some(slice)
            },
            Cell::Flags { .. } => {
                &&& side[i] matches CellSideData::Flags(fill)
                &&& sources.flags_fill@[i] matches Some(made)
                &&& fill.slot_source == made.slot_source
                &&& fill.ty_name == made.ty_name
                &&& fill.flag_names@ == made.flag_names@
            },
            Cell::Variant { .. } => {
                &&& side[i] matches CellSideData::Variant(fill)
                &&& sources.variant_fill@[i] matches Some(made)
                &&& fill.slot_source == made.slot_source
                &&& fill.ty_name == made.ty_name
                &&& fill.case_names@ == made.case_names@
                &&& fill.per_case_payload@ == made.per_case_payload@
            },
            Cell::Char { .. } => {
                &&& side[i] matches CellSideData::Char { scratch: CharScratch::Static { scratch_addr } }
                &&& sources.char_scratch@[i] == Some(scratch_addr)
            },
            Cell::Handle { .. } => {
                &&& side[i] matches CellSideData::Handle(fill)
                &&& sources.handle_fill@[i] == Some(*fill)
            },
            _ => side[i] is Flat,
        },
{
}

/// Whether every value that a fold needs is there decides whether it can be
/// made, and nothing else does.
pub proof fn lemma_fold_needs(cells: Seq<Cell>, sources: CellFillSources<'_>, i: int)
    requires
        0 <= i < cells.len(),
    ensures
        sources.provides(cells[i], i) <==> {
            &&& cells[i] is RecordOf ==> sources.record_fill@[i] is Some
            &&& cells[i] is TupleOf ==> sources.tuple_indices@[i] is Some
            &&& cells[i] is Flags ==> sources.flags_fill@[i] is Some
            &&& cells[i] is Variant ==> sources.variant_fill@[i] is Some
            &&& cells[i] is Char ==> sources.char_scratch@[i] is Some
            &&& cells[i] is Handle ==> sources.handle_fill@[i] is Some
        },
{
}

/// Folded handles keep apart: of two handle cells of a plan each has an entry
/// of its own, and every index below their number is taken.
pub proof fn lemma_folded_handles(
    cells: Seq<Cell>,
    sources: CellFillSources<'_>,
    side: Seq<CellSideData>,
    i: int,
    j: int,
    k: u32,
) -> (at: int)
    requires
        sources.handle_fill@ == handle_info::handle_fills(cells),
        cells.filter(|cell: Cell| cell is Handle).len() <= u32::MAX,
        forall|c: int| #![trigger side[c]]
            0 <= c < cells.len() ==> side[c]@ == sources.side_data(cells[c], c),
        0 <= i < j < cells.len(),
        cells[i] is Handle,
        cells[j] is Handle,
        k < cells.filter(|cell: Cell| cell is Handle).len(),
    ensures
        side[i] matches CellSideData::Handle(a) && side[j] matches CellSideData::Handle(b)
            && a.slot_source != b.slot_source,
        0 <= at < cells.len(),
        side[at] matches CellSideData::Handle(c) && c.slot_source
            == handle_info::HandleSlotSource::Static(k),
{
    assert(handle_info::is_handle() =~= |cell: Cell| cell is Handle);
    classify::lemma_count_filter(cells, handle_info::is_handle());
    let at = handle_info::lemma_handle_numbering(cells, k);
    handle_info::lemma_handle_row(cells, at);
    handle_info::lemma_handle_row(cells, i);
    handle_info::lemma_handle_row(cells, j);
    classify::lemma_rank_filter(cells, handle_info::is_handle(), i);
    classify::lemma_rank_filter(cells, handle_info::is_handle(), j);
    classify::lemma_rank_distinct(cells, handle_info::is_handle(), i, j);
    lemma_fold_keeps(cells, sources, side, at);
    lemma_fold_keeps(cells, sources, side, i);
    lemma_fold_keeps(cells, sources, side, j);
    at
}

/// A row of views has a slot per slot, filled where that is.
pub proof fn lemma_views_slot<T: View>(row: Seq<Option<T>>, i: int)
    requires
        0 <= i < row.len(),
    ensures
        views(row).len() == row.len(),
        match (row[i], views(row)[i]) {
            (Some(value), Some(seen)) => seen == value@,
            (None, None) => true,
            _ => false,
        },
{
}

/// A row resolves slot by slot: each slice moves by its own target's base and
/// keeps its length, and empty slots stay empty.
pub proof fn lemma_row_resolves(row: Seq<Option<SymRef>>, bases: Seq<Option<u32>>, i: int)
    requires
        0 <= i < row.len(),
        row_resolvable(row, bases),
    ensures
        row_resolved(row, bases).len() == row.len(),
        match (row[i], row_resolved(row, bases)[i]) {
            (Some(sym), Some(slice)) => {
                &&& sym.target < bases.len()
                &&& bases[sym.target as int] matches Some(base)
                &&& slice.off - base == sym.off
                &&& slice.len == sym.len
            },
            (None, None) => true,
            _ => false,
        },
{
    if let Some(sym) = row[i] {
        assert(reloc::resolvable(sym, bases));
        reloc::lemma_resolved_offset(sym, bases, bases[sym.target as int]->0);
    }
}

/// Patching a row patches each value once and each for itself: what comes out
/// of a slot is what the patch makes of what went in, and empty slots stay
/// empty.
pub proof fn lemma_row_patches<F, P: Fn(F) -> F>(
    before: Seq<Option<F>>,
    after: Seq<Option<F>>,
    patch: P,
    i: int,
)
    requires
        row_patched(before, after, patch),
        0 <= i < before.len(),
    ensures
        after.len() == before.len(),
        before[i] is Some <==> after[i] is Some,
        before[i] is Some ==> call_ensures(patch, (before[i]->0,), after[i]->0),
{
    assert(match (before[i], after[i]) {
        (Some(b), Some(a)) => call_ensures(patch, (b,), a),
        (None, None) => true,
        _ => false,
    });
}

/// Patching a grid patches every row of it, and adds or drops none.
pub proof fn lemma_grid_patches<F, P: Fn(F) -> F>(
    before: PerCellIndices<F>,
    after: PerCellIndices<F>,
    patch: P,
    f: int,
    p: int,
)
    requires
        grid_patched(before, after, patch),
    ensures
        after.per_param@.len() == before.per_param@.len(),
        after.per_result@.len() == before.per_result@.len(),
        0 <= f < before.per_param@.len() ==> after.per_param@[f]@.len()
            == before.per_param@[f]@.len(),
        0 <= f < before.per_param@.len() && 0 <= p < before.per_param@[f]@.len() ==> row_patched(
            before.per_param@[f]@[p]@,
            after.per_param@[f]@[p]@,
            patch,
        ),
        0 <= f < before.per_result@.len() ==> row_patched(
            before.per_result@[f]@,
            after.per_result@[f]@,
            patch,
        ),
{
}

} // verus!
