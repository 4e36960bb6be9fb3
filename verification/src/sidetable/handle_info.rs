//! Handle info. Each handle cell (resource, stream, future or error-context)
//! has one entry in a per-call buffer: lists of handles make the number of
//! entries depend on lengths that only a call knows.

use super::PerCellIndices;
use crate::abi::BlobSlice;
use crate::classify;
use crate::classify::{FuncClassified, ResultLift, ResultSource};
use crate::plan::{Cell, LiftPlan};
use vstd::prelude::*;

verus! {

/// Where a handle cell's entry lies in the per-call buffer.
#[derive(Clone, Copy, Debug, PartialEq, Eq, Structural)]
pub enum HandleSlotSource {
    /// Index known at build time.
    Static(u32),
    /// Within a list element: this far past the element's own base index.
    PerIteration { offset_in_elem: u32 },
}

/// What is written to a handle cell's entry, and where.
#[derive(Clone, Copy, Debug)]
pub struct HandleRuntimeFill {
    pub slot_source: HandleSlotSource,
    pub ty_name: BlobSlice,
}

/// Entries of all handle cells, and how many there are.
pub struct HandleInfoMaps {
    pub per_cell_fill: PerCellIndices<HandleRuntimeFill>,
    /// The entry of a direct handle result.
    pub per_result_single_fill: Vec<Option<HandleRuntimeFill>>,
    /// Number of entries with a build-time index, per parameter.
    pub per_param_count: Vec<Vec<u32>>,
    pub per_result_count: Vec<u32>,
}

/// Selects handle cells.
pub open spec fn is_handle() -> spec_fn(Cell) -> bool {
    |cell: Cell| cell is Handle
}

/// The entry of a handle cell whose index is `entry_idx`.
pub open spec fn handle_fill(cell: Cell, entry_idx: u32) -> Option<HandleRuntimeFill> {
    match cell {
        Cell::Handle { ty_name, .. } => Some(
            HandleRuntimeFill { slot_source: HandleSlotSource::Static(entry_idx), ty_name },
        ),
        _ => None,
    }
}

/// The entries of one plan: its handle cells are numbered from zero, in order.
pub open spec fn handle_fills(cells: Seq<Cell>) -> Seq<Option<HandleRuntimeFill>> {
    Seq::new(
        cells.len(),
        |i: int| handle_fill(cells[i], classify::rank(cells, is_handle(), i) as u32),
    )
}

/// The entry of a direct handle result: the only one, so its index is zero.
pub open spec fn direct_handle_fill(result: Option<ResultLift>) -> Option<HandleRuntimeFill> {
    match result {
        Some(ResultLift { source: ResultSource::Direct(cell) }) => handle_fill(cell, 0),
        _ => None,
    }
}

/// Whether no plan has more handle cells than 32 bits can number.
pub open spec fn handles_countable(per_func: Seq<FuncClassified>) -> bool {
    forall|f: int|
        0 <= f < per_func.len() ==> {
            &&& forall|p: int|
                0 <= p < per_func[f].params@.len() ==> classify::count(
                    (#[trigger] per_func[f].params@[p]).plan.cells@,
                    is_handle(),
                ) <= u32::MAX
            &&& classify::count(
                classify::compound_cells((#[trigger] per_func[f]).result_lift),
                is_handle(),
            ) <= u32::MAX
        }
}

/// Whether `fills` and `counts` describe the handles of `params`.
pub open spec fn param_handles(
    fills: Seq<Vec<Option<HandleRuntimeFill>>>,
    counts: Seq<u32>,
    params: Seq<classify::ParamLift>,
) -> bool {
    &&& fills.len() == params.len()
    &&& counts.len() == params.len()
    &&& forall|p: int|
        0 <= p < params.len() ==> {
            &&& (#[trigger] fills[p])@ == handle_fills(params[p].plan.cells@)
            &&& counts[p] == classify::count(params[p].plan.cells@, is_handle())
        }
}

/// Whether row `f` of `maps` describes the handles of `fd`.
pub open spec fn func_handles(maps: HandleInfoMaps, f: int, fd: FuncClassified) -> bool {
    &&& param_handles(
        maps.per_cell_fill.per_param@[f]@,
        maps.per_param_count@[f]@,
        fd.params@,
    )
    &&& maps.per_cell_fill.per_result@[f]@ == handle_fills(
        classify::compound_cells(fd.result_lift),
    )
    &&& maps.per_result_count@[f] == classify::count(
        classify::result_cells(fd.result_lift),
        is_handle(),
    )
    &&& maps.per_result_single_fill@[f] == direct_handle_fill(fd.result_lift)
}

/// Whether `maps` describes the handles of `per_func`, row by row.
pub open spec fn describes_handles(maps: HandleInfoMaps, per_func: Seq<FuncClassified>) -> bool {
    &&& maps.per_cell_fill.per_param@.len() == per_func.len()
    &&& maps.per_param_count@.len() == per_func.len()
    &&& maps.per_cell_fill.per_result@.len() == per_func.len()
    &&& maps.per_result_count@.len() == per_func.len()
    &&& maps.per_result_single_fill@.len() == per_func.len()
    &&& forall|f: int| 0 <= f < per_func.len() ==> #[trigger] func_handles(maps, f, per_func[f])
}

/// Collects the entry of every handle cell, and the number of entries per
/// parameter and result.
pub fn build_handle_info_maps(per_func: &[FuncClassified]) -> (maps: HandleInfoMaps)
    requires
        handles_countable(per_func@),
    ensures
        describes_handles(maps, per_func@),
{
    let mut maps = HandleInfoMaps {
        per_cell_fill: PerCellIndices { per_param: Vec::new(), per_result: Vec::new() },
        per_result_single_fill: Vec::new(),
        per_param_count: Vec::new(),
        per_result_count: Vec::new(),
    };
    let mut f: usize = 0;
    while f < per_func.len()
        invariant
            f <= per_func.len(),
            handles_countable(per_func@),
            describes_handles(maps, per_func@.take(f as int)),
        decreases per_func.len() - f,
    {
        let fd = &per_func[f];
        let mut params_fill: Vec<Vec<Option<HandleRuntimeFill>>> = Vec::new();
        let mut params_count: Vec<u32> = Vec::new();
        let mut p: usize = 0;
        while p < fd.params.len()
            invariant
                f < per_func.len(),
                *fd == per_func@[f as int],
                handles_countable(per_func@),
                p <= fd.params.len(),
                param_handles(params_fill@, params_count@, fd.params@.take(p as int)),
            decreases fd.params.len() - p,
        {
            assert(per_func@[f as int].params@[p as int] == fd.params@[p as int]);
            let (fill, count) = scan_plan(&fd.params[p].plan);
            params_fill.push(fill);
            params_count.push(count);
            p += 1;
        }
        assert(fd.params@.take(p as int) =~= fd.params@);
        proof {
            classify::lemma_count_result(fd.result_lift, is_handle());
        }
        let (result_fill, result_count, single) = match &fd.result_lift {
            Some(rl) => match &rl.source {
                ResultSource::Compound(c) => {
                    let (fill, count) = scan_plan(&c.plan);
                    (fill, count, None)
                },
                // A direct handle is exactly one entry.
                ResultSource::Direct(Cell::Handle { ty_name, .. }) => (
                    Vec::new(),
                    1u32,
                    Some(
                        HandleRuntimeFill {
                            slot_source: HandleSlotSource::Static(0),
                            ty_name: *ty_name,
                        },
                    ),
                ),
                ResultSource::Direct(_) => (Vec::new(), 0u32, None),
            },
            None => (Vec::new(), 0u32, None),
        };
        let ghost before = maps;
        maps.per_cell_fill.per_param.push(params_fill);
        maps.per_param_count.push(params_count);
        maps.per_cell_fill.per_result.push(result_fill);
        maps.per_result_count.push(result_count);
        maps.per_result_single_fill.push(single);
        f += 1;
        assert forall|g: int| 0 <= g < f implies #[trigger] func_handles(
            maps,
            g,
            per_func@.take(f as int)[g],
        ) by {
            if g < f - 1 {
                assert(func_handles(before, g, per_func@.take(f - 1)[g]));
            } else {
                assert(maps.per_cell_fill.per_result@[g]@ =~= handle_fills(
                    classify::compound_cells(fd.result_lift),
                ));
            }
        }
    }
    assert(per_func@.take(f as int) =~= per_func@);
    maps
}

/// Numbers the handle cells of one plan. Handles within list elements are
/// numbered per call.
pub fn scan_plan(plan: &LiftPlan) -> (scan: (Vec<Option<HandleRuntimeFill>>, u32))
    requires
        classify::count(plan.cells@, is_handle()) <= u32::MAX,
    ensures
        scan.0@ == handle_fills(plan.cells@),
        scan.1 == classify::count(plan.cells@, is_handle()),
{
    let mut fill_map: Vec<Option<HandleRuntimeFill>> = Vec::new();
    let mut count: u32 = 0;
    let mut i: usize = 0;
    proof {
        classify::lemma_rank_bounds(plan.cells@, is_handle(), 0, 0);
    }
    while i < plan.cells.len()
        invariant
            i <= plan.cells.len(),
            classify::count(plan.cells@, is_handle()) <= u32::MAX,
            count == classify::rank(plan.cells@, is_handle(), i as int),
            fill_map@ == handle_fills(plan.cells@).take(i as int),
        decreases plan.cells.len() - i,
    {
        proof {
            classify::lemma_rank_step(plan.cells@, is_handle(), i as int);
            classify::lemma_rank_bounds(plan.cells@, is_handle(), i + 1, i + 1);
        }
        match &plan.cells[i] {
            Cell::Handle { ty_name, .. } => {
                fill_map.push(
                    Some(
                        HandleRuntimeFill {
                            slot_source: HandleSlotSource::Static(count),
                            ty_name: *ty_name,
                        },
                    ),
                );
                count += 1;
            },
            _ => {
                fill_map.push(None);
            },
        }
        i += 1;
    }
    proof {
        classify::lemma_rank_bounds(plan.cells@, is_handle(), i as int, i as int);
    }
    (fill_map, count)
}

/// The handle cells of a plan take each entry index below their count exactly
/// once.
pub proof fn lemma_handle_numbering(cells: Seq<Cell>, k: u32) -> (i: int)
    requires
        classify::count(cells, is_handle()) <= u32::MAX,
        k < classify::count(cells, is_handle()),
    ensures
        0 <= i < cells.len(),
        handle_fills(cells)[i] == handle_fill(cells[i], k),
        handle_fills(cells)[i] is Some,
        forall|j: int|
            0 <= j < cells.len() && #[trigger] handle_fills(cells)[j] is Some && j != i
                ==> handle_fills(cells)[j]->0.slot_source != HandleSlotSource::Static(k),
{
    let i = classify::lemma_rank_onto(cells, is_handle(), k as nat);
    assert forall|j: int|
        0 <= j < cells.len() && #[trigger] handle_fills(cells)[j] is Some && j
            != i implies handle_fills(cells)[j]->0.slot_source != HandleSlotSource::Static(k) by {
        classify::lemma_rank_bounds(cells, is_handle(), j, j);
        if j < i {
            classify::lemma_rank_distinct(cells, is_handle(), j, i);
        } else {
            classify::lemma_rank_distinct(cells, is_handle(), i, j);
        }
    }
    i
}

/// A row of entries has one slot per cell. A handle cell's entry names the
/// cell's type, and its index is how many handle cells stand before it; other
/// cells have none.
pub proof fn lemma_handle_row(cells: Seq<Cell>, i: int)
    requires
        cells.filter(|cell: Cell| cell is Handle).len() <= u32::MAX,
        0 <= i < cells.len(),
    ensures
        handle_fills(cells).len() == cells.len(),
        match handle_fills(cells)[i] {
            Some(fill) => {
                &&& cells[i] is Handle
                &&& fill.ty_name == cells[i]->Handle_ty_name
                &&& fill.slot_source matches HandleSlotSource::Static(idx)
                &&& idx == cells.take(i).filter(|cell: Cell| cell is Handle).len()
            },
            None => !(cells[i] is Handle),
        },
{
    assert(is_handle() =~= |cell: Cell| cell is Handle);
    classify::lemma_count_filter(cells, is_handle());
    classify::lemma_rank_filter(cells, is_handle(), i);
    classify::lemma_rank_bounds(cells, is_handle(), i, i);
}

/// Each parameter has the row of its own plan, and its count is that of its
/// handle cells.
pub proof fn lemma_handle_param_row(
    maps: HandleInfoMaps,
    per_func: Seq<FuncClassified>,
    f: int,
    p: int,
)
    requires
        describes_handles(maps, per_func),
        0 <= f < per_func.len(),
        0 <= p < per_func[f].params@.len(),
    ensures
        maps.per_cell_fill.per_param@.len() == per_func.len(),
        maps.per_cell_fill.per_param@[f]@.len() == per_func[f].params@.len(),
        maps.per_cell_fill.per_param@[f]@[p]@ == handle_fills(per_func[f].params@[p].plan.cells@),
        maps.per_param_count@[f]@[p] == per_func[f].params@[p].plan.cells@.filter(
            |cell: Cell| cell is Handle,
        ).len(),
{
    assert(is_handle() =~= |cell: Cell| cell is Handle);
    assert(func_handles(maps, f, per_func[f]));
    assert(maps.per_cell_fill.per_param@[f]@[p]@ == handle_fills(
        per_func[f].params@[p].plan.cells@,
    ));
    classify::lemma_count_filter(per_func[f].params@[p].plan.cells@, is_handle());
}

/// A compound result has the row of its plan. A direct handle has the only
/// entry, with index zero; any other result has none.
pub proof fn lemma_handle_result_row(maps: HandleInfoMaps, per_func: Seq<FuncClassified>, f: int)
    requires
        describes_handles(maps, per_func),
        0 <= f < per_func.len(),
    ensures
        match per_func[f].result_lift {
            Some(ResultLift { source: ResultSource::Compound(c) }) => {
                &&& maps.per_result_single_fill@[f] is None
                &&& maps.per_cell_fill.per_result@[f]@ == handle_fills(c.plan.cells@)
                &&& maps.per_result_count@[f] == c.plan.cells@.filter(
                    |cell: Cell| cell is Handle,
                ).len()
            },
            Some(ResultLift { source: ResultSource::Direct(cell) }) => {
                &&& maps.per_cell_fill.per_result@[f]@.len() == 0
                &&& match maps.per_result_single_fill@[f] {
                    Some(fill) => {
                        &&& cell is Handle
                        &&& fill.ty_name == cell->Handle_ty_name
                        &&& fill.slot_source == HandleSlotSource::Static(0)
                        &&& maps.per_result_count@[f] == 1
                    },
                    None => !(cell is Handle) && maps.per_result_count@[f] == 0,
                }
            },
            None => {
                &&& maps.per_cell_fill.per_result@[f]@.len() == 0
                &&& maps.per_result_single_fill@[f] is None
                &&& maps.per_result_count@[f] == 0
            },
        },
{
    assert(is_handle() =~= |cell: Cell| cell is Handle);
    assert(func_handles(maps, f, per_func[f]));
    classify::lemma_count_result(per_func[f].result_lift, is_handle());
    classify::lemma_count_filter(
        classify::compound_cells(per_func[f].result_lift),
        is_handle(),
    );
}

} // verus!
