//! Variant info. Each variant cell has one entry in a per-call buffer, which
//! names its type, the case that a call selects, and the payload's cell.

use super::PerCellIndices;
use crate::abi::BlobSlice;
use crate::classify;
use crate::classify::{FuncClassified, ResultLift, ResultSource};
use crate::plan::{Cell, LiftPlan};
use crate::sidetable;
use vstd::prelude::*;

verus! {

/// Where a variant cell's entry lies in the per-call buffer.
#[derive(Clone, Copy, Debug, PartialEq, Eq, Structural)]
pub enum VariantSlotSource {
    /// Index known at build time.
    Static { entry_idx: u32 },
    /// Within a list element: this far past the element's own base index.
    PerIteration { entry_offset_in_elem: u32 },
}

/// What is written to a variant cell's entry, and where.
#[derive(Debug)]
pub struct VariantRuntimeFill {
    pub slot_source: VariantSlotSource,
    pub ty_name: BlobSlice,
    pub case_names: Vec<BlobSlice>,
    /// Per case, in order of discriminants, the payload's cell.
    pub per_case_payload: Vec<Option<u32>>,
}

/// What a [`VariantRuntimeFill`] holds.
#[verifier::ext_equal]
pub struct VariantFillView {
    pub slot_source: VariantSlotSource,
    pub ty_name: BlobSlice,
    pub case_names: Seq<BlobSlice>,
    pub per_case_payload: Seq<Option<u32>>,
}

impl View for VariantRuntimeFill {
    type V = VariantFillView;

    open spec fn view(&self) -> VariantFillView {
        VariantFillView {
            slot_source: self.slot_source,
            ty_name: self.ty_name,
            case_names: self.case_names@,
            per_case_payload: self.per_case_payload@,
        }
    }
}

impl Clone for VariantRuntimeFill {
    fn clone(&self) -> (fill: Self)
        ensures
            fill@ == self@,
    {
        let fill = VariantRuntimeFill {
            slot_source: self.slot_source,
            ty_name: self.ty_name,
            case_names: self.case_names.clone(),
            per_case_payload: self.per_case_payload.clone(),
        };
        assert(fill@ =~= self@);
        fill
    }
}

/// Entries of all variant cells, and how many there are. A variant result
/// always comes through a return pointer, so there is no direct one.
pub struct VariantInfoMaps {
    pub per_cell_fill: PerCellIndices<VariantRuntimeFill>,
    pub per_param_count: Vec<Vec<u32>>,
    pub per_result_count: Vec<u32>,
}

/// Selects variant cells.
pub open spec fn is_variant_cell() -> spec_fn(Cell) -> bool {
    |cell: Cell| cell is Variant
}

/// The entry of a variant cell whose index is `entry_idx`.
pub open spec fn variant_fill(cell: Cell, entry_idx: u32) -> Option<VariantFillView> {
    match cell {
        Cell::Variant { ty_name, case_names, per_case_payload, .. } => Some(
            VariantFillView {
                slot_source: VariantSlotSource::Static { entry_idx },
                ty_name,
                case_names: case_names@,
                per_case_payload: per_case_payload@,
            },
        ),
        _ => None,
    }
}

/// The entries of one plan: its variant cells are numbered from zero, in
/// order.
pub open spec fn variant_fills(cells: Seq<Cell>) -> Seq<Option<VariantFillView>> {
    Seq::new(
        cells.len(),
        |i: int| variant_fill(cells[i], classify::rank(cells, is_variant_cell(), i) as u32),
    )
}

/// Whether no plan has more variant cells than 32 bits can number.
pub open spec fn variants_countable(per_func: Seq<FuncClassified>) -> bool {
    forall|f: int|
        0 <= f < per_func.len() ==> {
            &&& forall|p: int|
                0 <= p < per_func[f].params@.len() ==> classify::count(
                    (#[trigger] per_func[f].params@[p]).plan.cells@,
                    is_variant_cell(),
                ) <= u32::MAX
            &&& classify::count(
                classify::compound_cells((#[trigger] per_func[f]).result_lift),
                is_variant_cell(),
            ) <= u32::MAX
        }
}

/// Whether `fills` and `counts` describe the variants of `params`.
pub open spec fn param_variants(
    fills: Seq<Vec<Option<VariantRuntimeFill>>>,
    counts: Seq<u32>,
    params: Seq<classify::ParamLift>,
) -> bool {
    &&& fills.len() == params.len()
    &&& counts.len() == params.len()
    &&& forall|p: int|
        0 <= p < params.len() ==> {
            &&& sidetable::views((#[trigger] fills[p])@) == variant_fills(params[p].plan.cells@)
            &&& counts[p] == classify::count(params[p].plan.cells@, is_variant_cell())
        }
}

/// Whether row `f` of `maps` describes the variants of `fd`.
pub open spec fn func_variants(maps: VariantInfoMaps, f: int, fd: FuncClassified) -> bool {
    &&& param_variants(
        maps.per_cell_fill.per_param@[f]@,
        maps.per_param_count@[f]@,
        fd.params@,
    )
    &&& sidetable::views(maps.per_cell_fill.per_result@[f]@) == variant_fills(
        classify::compound_cells(fd.result_lift),
    )
    &&& maps.per_result_count@[f] == classify::count(
        classify::compound_cells(fd.result_lift),
        is_variant_cell(),
    )
}

/// Whether `maps` describes the variants of `per_func`, row by row.
pub open spec fn describes_variants(maps: VariantInfoMaps, per_func: Seq<FuncClassified>) -> bool {
    &&& maps.per_cell_fill.per_param@.len() == per_func.len()
    &&& maps.per_param_count@.len() == per_func.len()
    &&& maps.per_cell_fill.per_result@.len() == per_func.len()
    &&& maps.per_result_count@.len() == per_func.len()
    &&& forall|f: int| 0 <= f < per_func.len() ==> #[trigger] func_variants(maps, f, per_func[f])
}

/// Collects the entry of every variant cell, and the number of entries per
/// parameter and result.
pub fn build_variant_info_maps(per_func: &[FuncClassified]) -> (maps: VariantInfoMaps)
    requires
        variants_countable(per_func@),
    ensures
        describes_variants(maps, per_func@),
{
    let mut maps = VariantInfoMaps {
        per_cell_fill: PerCellIndices { per_param: Vec::new(), per_result: Vec::new() },
        per_param_count: Vec::new(),
        per_result_count: Vec::new(),
    };
    let mut f: usize = 0;
    while f < per_func.len()
        invariant
            f <= per_func.len(),
            variants_countable(per_func@),
            describes_variants(maps, per_func@.take(f as int)),
        decreases per_func.len() - f,
    {
        let fd = &per_func[f];
        let mut params_fill: Vec<Vec<Option<VariantRuntimeFill>>> = Vec::new();
        let mut params_count: Vec<u32> = Vec::new();
        let mut p: usize = 0;
        while p < fd.params.len()
            invariant
                f < per_func.len(),
                *fd == per_func@[f as int],
                variants_countable(per_func@),
                p <= fd.params.len(),
                param_variants(params_fill@, params_count@, fd.params@.take(p as int)),
            decreases fd.params.len() - p,
        {
            assert(per_func@[f as int].params@[p as int] == fd.params@[p as int]);
            let (fill, count) = scan_plan(&fd.params[p].plan);
            params_fill.push(fill);
            params_count.push(count);
            p += 1;
        }
        assert(fd.params@.take(p as int) =~= fd.params@);
        let compound = match &fd.result_lift {
            Some(rl) => rl.compound(),
            None => None,
        };
        let (result_fill, result_count) = match compound {
            Some(c) => scan_plan(&c.plan),
            None => (Vec::new(), 0u32),
        };
        let ghost before = maps;
        maps.per_cell_fill.per_param.push(params_fill);
        maps.per_param_count.push(params_count);
        maps.per_cell_fill.per_result.push(result_fill);
        maps.per_result_count.push(result_count);
        f += 1;
        assert forall|g: int| 0 <= g < f implies #[trigger] func_variants(
            maps,
            g,
            per_func@.take(f as int)[g],
        ) by {
            if g < f - 1 {
                assert(func_variants(before, g, per_func@.take(f - 1)[g]));
            } else {
                assert(sidetable::views(maps.per_cell_fill.per_result@[g]@) =~= variant_fills(
                    classify::compound_cells(fd.result_lift),
                ));
            }
        }
    }
    assert(per_func@.take(f as int) =~= per_func@);
    maps
}

/// Numbers the variant cells of one plan.
pub fn scan_plan(plan: &LiftPlan) -> (scan: (Vec<Option<VariantRuntimeFill>>, u32))
    requires
        classify::count(plan.cells@, is_variant_cell()) <= u32::MAX,
    ensures
        sidetable::views(scan.0@) == variant_fills(plan.cells@),
        scan.1 == classify::count(plan.cells@, is_variant_cell()),
{
    let mut fill_map: Vec<Option<VariantRuntimeFill>> = Vec::new();
    let mut count: u32 = 0;
    let mut i: usize = 0;
    proof {
        classify::lemma_rank_bounds(plan.cells@, is_variant_cell(), 0, 0);
    }
    while i < plan.cells.len()
        invariant
            i <= plan.cells.len(),
            classify::count(plan.cells@, is_variant_cell()) <= u32::MAX,
            count == classify::rank(plan.cells@, is_variant_cell(), i as int),
            sidetable::views(fill_map@) == variant_fills(plan.cells@).take(i as int),
        decreases plan.cells.len() - i,
    {
        proof {
            classify::lemma_rank_step(plan.cells@, is_variant_cell(), i as int);
            classify::lemma_rank_bounds(plan.cells@, is_variant_cell(), i + 1, i + 1);
        }
        let fill = match &plan.cells[i] {
            Cell::Variant { ty_name, case_names, per_case_payload, .. } => {
                let fill = VariantRuntimeFill {
                    slot_source: VariantSlotSource::Static { entry_idx: count },
                    ty_name: *ty_name,
                    case_names: case_names.clone(),
                    per_case_payload: per_case_payload.clone(),
                };
                assert(fill@.case_names =~= case_names@);
                assert(fill@.per_case_payload =~= per_case_payload@);
                assert(Some(fill@) == variant_fill(plan.cells@[i as int], count));
                count += 1;
                Some(fill)
            },
            _ => None,
        };
        let ghost before = fill_map@;
        fill_map.push(fill);
        i += 1;
        assert(sidetable::views(fill_map@) =~= sidetable::views(before).push(
            variant_fills(plan.cells@)[i - 1],
        ));
        assert(sidetable::views(fill_map@) =~= variant_fills(plan.cells@).take(i as int));
    }
    proof {
        classify::lemma_rank_bounds(plan.cells@, is_variant_cell(), i as int, i as int);
        assert(variant_fills(plan.cells@).take(i as int) =~= variant_fills(plan.cells@));
    }
    (fill_map, count)
}

/// The variant cells of a plan take each entry index below their count exactly
/// once.
pub proof fn lemma_variant_numbering(cells: Seq<Cell>, k: u32) -> (i: int)
    requires
        classify::count(cells, is_variant_cell()) <= u32::MAX,
        k < classify::count(cells, is_variant_cell()),
    ensures
        0 <= i < cells.len(),
        variant_fills(cells)[i] == variant_fill(cells[i], k),
        variant_fills(cells)[i] is Some,
        forall|j: int|
            0 <= j < cells.len() && #[trigger] variant_fills(cells)[j] is Some && j != i
                ==> variant_fills(cells)[j]->0.slot_source != (VariantSlotSource::Static {
                entry_idx: k,
            }),
{
    let i = classify::lemma_rank_onto(cells, is_variant_cell(), k as nat);
    assert forall|j: int|
        0 <= j < cells.len() && #[trigger] variant_fills(cells)[j] is Some && j
            != i implies variant_fills(cells)[j]->0.slot_source != (VariantSlotSource::Static {
        entry_idx: k,
    }) by {
        classify::lemma_rank_bounds(cells, is_variant_cell(), j, j);
        if j < i {
            classify::lemma_rank_distinct(cells, is_variant_cell(), j, i);
        } else {
            classify::lemma_rank_distinct(cells, is_variant_cell(), i, j);
        }
    }
    i
}

/// A row of entries has one slot per cell. A variant cell's entry names the
/// cell's type and cases and lists their payloads, and its index is how many
/// variant cells stand before it; other cells have none.
pub proof fn lemma_variant_row(row: Seq<Option<VariantRuntimeFill>>, cells: Seq<Cell>, i: int)
    requires
        sidetable::views(row) == variant_fills(cells),
        cells.filter(|cell: Cell| cell is Variant).len() <= u32::MAX,
        0 <= i < cells.len(),
    ensures
        row.len() == cells.len(),
        match row[i] {
            Some(fill) => {
                &&& cells[i] is Variant
                &&& fill.ty_name == cells[i]->Variant_ty_name
                &&& fill.case_names@ == cells[i]->Variant_case_names@
                &&& fill.per_case_payload@ == cells[i]->Variant_per_case_payload@
                &&& fill.slot_source matches VariantSlotSource::Static { entry_idx }
                &&& entry_idx == cells.take(i).filter(|cell: Cell| cell is Variant).len()
            },
            None => !(cells[i] is Variant),
        },
{
    assert(is_variant_cell() =~= |cell: Cell| cell is Variant);
    classify::lemma_count_filter(cells, is_variant_cell());
    classify::lemma_rank_filter(cells, is_variant_cell(), i);
    classify::lemma_rank_bounds(cells, is_variant_cell(), i, i);
    assert(sidetable::views(row).len() == cells.len());
    assert(sidetable::views(row)[i] == variant_fills(cells)[i]);
}

/// Each parameter has the row of its own plan, and its count is that of its
/// variant cells.
pub proof fn lemma_variant_param_row(
    maps: VariantInfoMaps,
    per_func: Seq<FuncClassified>,
    f: int,
    p: int,
)
    requires
        describes_variants(maps, per_func),
        0 <= f < per_func.len(),
        0 <= p < per_func[f].params@.len(),
    ensures
        maps.per_cell_fill.per_param@.len() == per_func.len(),
        maps.per_cell_fill.per_param@[f]@.len() == per_func[f].params@.len(),
        sidetable::views(maps.per_cell_fill.per_param@[f]@[p]@) == variant_fills(
            per_func[f].params@[p].plan.cells@,
        ),
        maps.per_param_count@[f]@[p] == per_func[f].params@[p].plan.cells@.filter(
            |cell: Cell| cell is Variant,
        ).len(),
{
    assert(is_variant_cell() =~= |cell: Cell| cell is Variant);
    assert(func_variants(maps, f, per_func[f]));
    assert(sidetable::views(maps.per_cell_fill.per_param@[f]@[p]@) == variant_fills(
        per_func[f].params@[p].plan.cells@,
    ));
    classify::lemma_count_filter(per_func[f].params@[p].plan.cells@, is_variant_cell());
}

/// A result has the row of its plan, or an empty one where it has no plan.
pub proof fn lemma_variant_result_row(maps: VariantInfoMaps, per_func: Seq<FuncClassified>, f: int)
    requires
        describes_variants(maps, per_func),
        0 <= f < per_func.len(),
    ensures
        match per_func[f].result_lift {
            Some(ResultLift { source: ResultSource::Compound(c) }) => {
                &&& sidetable::views(maps.per_cell_fill.per_result@[f]@) == variant_fills(
                    c.plan.cells@,
                )
                &&& maps.per_result_count@[f] == c.plan.cells@.filter(
                    |cell: Cell| cell is Variant,
                ).len()
            },
            _ => {
                &&& maps.per_cell_fill.per_result@[f]@.len() == 0
                &&& maps.per_result_count@[f] == 0
            },
        },
{
    assert(is_variant_cell() =~= |cell: Cell| cell is Variant);
    assert(func_variants(maps, f, per_func[f]));
    let cells = classify::compound_cells(per_func[f].result_lift);
    assert(sidetable::views(maps.per_cell_fill.per_result@[f]@).len() == cells.len());
    classify::lemma_count_filter(cells, is_variant_cell());
}

} // verus!
