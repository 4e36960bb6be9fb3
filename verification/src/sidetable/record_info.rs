//! Record info. Each record cell has one entry in a per-call buffer, which
//! names its type and points at its field tuples. The tuples of outer plans are
//! baked into a data segment; those of list elements are written per call.

use super::{back_fill_per_cell, PerCellIndices};
use crate::abi::{BlobSlice, RecordLayout};
use crate::blob;
use crate::blob::RecordWriter;
use crate::classify;
use crate::classify::{FuncClassified, ParamLift, ResultLift, ResultSource};
use crate::le;
use crate::le::to_signed;
use crate::plan::{Cell, LiftPlan};
use crate::reloc::{Segment, SymbolId};
use crate::sidetable;
use vstd::prelude::*;

verus! {

/// Field of a field tuple that holds the field's name.
pub const RECORD_FIELD_TUPLE_NAME: &'static str = "name";

/// Field of a field tuple that holds the index of the field's cell.
pub const RECORD_FIELD_TUPLE_IDX: &'static str = "idx";

/// Where a record cell's entry and its field tuples lie.
#[derive(Clone, Copy, Debug, PartialEq, Eq, Structural)]
pub enum RecordSlotSource {
    /// Entry index and tuples address known at build time. The address is
    /// relative to the tuples segment until it is back-filled.
    Static { entry_idx: u32, fields_ptr: i32 },
    /// Within a list element: this far past the element's own base index and
    /// tuples.
    PerIteration { entry_offset_in_elem: u32, tuples_offset_in_elem: u32 },
}

/// What is written to a record cell's entry, and where.
#[derive(Clone, Copy, Debug)]
pub struct RecordRuntimeFill {
    pub slot_source: RecordSlotSource,
    pub ty_name: BlobSlice,
    pub fields_len: u32,
}

/// Field tuples and entries of all record cells, and how many entries there
/// are. A record result always comes through a return pointer, so there is no
/// direct one.
pub struct RecordInfoMaps {
    pub tuples: Segment,
    pub per_cell_fill: PerCellIndices<RecordRuntimeFill>,
    pub per_param_count: Vec<Vec<u32>>,
    pub per_result_count: Vec<u32>,
}

/// Selects record cells.
pub open spec fn is_record() -> spec_fn(Cell) -> bool {
    |cell: Cell| cell is RecordOf
}

/// Whether field tuples of this layout hold a name and an index.
pub open spec fn tuple_layout_fits(layout: RecordLayout) -> bool {
    &&& layout.offsets@.contains_key(RECORD_FIELD_TUPLE_NAME@)
    &&& layout.offsets@[RECORD_FIELD_TUPLE_NAME@] + 8 <= layout.size
    &&& layout.offsets@.contains_key(RECORD_FIELD_TUPLE_IDX@)
    &&& layout.offsets@[RECORD_FIELD_TUPLE_IDX@] + 4 <= layout.size
}

/// Whether the field tuples of each record among `cells` can be written.
pub open spec fn tuples_fit(layout: RecordLayout, cells: Seq<Cell>) -> bool {
    forall|i: int| #![trigger cells[i]]
        0 <= i < cells.len() && (cells[i] matches Cell::RecordOf { fields, .. } && fields@.len()
            > 0) ==> tuple_layout_fits(layout)
}

/// The bytes of one field tuple.
pub open spec fn tuple_bytes(layout: RecordLayout, field: (BlobSlice, u32)) -> Seq<u8> {
    le::overwrite(
        le::overwrite(
            blob::zeros(layout.size as nat),
            layout.offsets@[RECORD_FIELD_TUPLE_NAME@] as int,
            blob::slice_bytes(field.0),
        ),
        layout.offsets@[RECORD_FIELD_TUPLE_IDX@] as int,
        le::le_bytes(field.1),
    )
}

/// The tuples of one record's fields, in order.
pub open spec fn field_tuples(layout: RecordLayout, fields: Seq<(BlobSlice, u32)>) -> Seq<u8>
    decreases fields.len(),
{
    if fields.len() == 0 {
        Seq::empty()
    } else {
        field_tuples(layout, fields.drop_last()) + tuple_bytes(layout, fields.last())
    }
}

/// The tuples of all records among `cells`, in order.
pub open spec fn record_tuples(layout: RecordLayout, cells: Seq<Cell>) -> Seq<u8>
    decreases cells.len(),
{
    if cells.len() == 0 {
        Seq::empty()
    } else {
        let init = record_tuples(layout, cells.drop_last());
        match cells.last() {
            Cell::RecordOf { fields, .. } => init + field_tuples(layout, fields@),
            _ => init,
        }
    }
}

/// The entry of a record cell whose index is `entry_idx` and whose tuples start
/// at `tuples_off`.
pub open spec fn record_fill(cell: Cell, entry_idx: u32, tuples_off: nat) -> Option<
    RecordRuntimeFill,
> {
    match cell {
        Cell::RecordOf { ty_name, fields } => Some(
            RecordRuntimeFill {
                slot_source: RecordSlotSource::Static {
                    entry_idx,
                    fields_ptr: le::signed(tuples_off as u32),
                },
                ty_name,
                fields_len: fields@.len() as u32,
            },
        ),
        _ => None,
    }
}

/// The entries of one plan: its record cells are numbered from zero, in order,
/// and their tuples follow one another from `start` on.
pub open spec fn record_fills(layout: RecordLayout, cells: Seq<Cell>, start: nat) -> Seq<
    Option<RecordRuntimeFill>,
> {
    Seq::new(
        cells.len(),
        |i: int|
            record_fill(
                cells[i],
                classify::rank(cells, is_record(), i) as u32,
                start + record_tuples(layout, cells.take(i)).len(),
            ),
    )
}

/// What the walk meets before the cells of parameter `p` of function `f`.
pub open spec fn plans_before_param(per_func: Seq<FuncClassified>, f: int, p: int) -> Seq<Cell> {
    classify::walked_plans(per_func.take(f)) + classify::param_cells(per_func[f].params@.take(p))
}

/// What the walk meets before the cells of the result of function `f`.
pub open spec fn plans_before_result(per_func: Seq<FuncClassified>, f: int) -> Seq<Cell> {
    classify::walked_plans(per_func.take(f)) + classify::param_cells(per_func[f].params@)
}

/// Whether no plan has more record cells than 32 bits can number, and the
/// field tuples of all of them can be written.
pub open spec fn records_buildable(layout: RecordLayout, per_func: Seq<FuncClassified>) -> bool {
    forall|f: int|
        0 <= f < per_func.len() ==> {
            &&& forall|p: int| #![trigger per_func[f].params@[p]]
                0 <= p < per_func[f].params@.len() ==> {
                    &&& classify::count(per_func[f].params@[p].plan.cells@, is_record())
                        <= u32::MAX
                    &&& tuples_fit(layout, per_func[f].params@[p].plan.cells@)
                }
            &&& classify::count(
                classify::compound_cells((#[trigger] per_func[f]).result_lift),
                is_record(),
            ) <= u32::MAX
            &&& tuples_fit(layout, classify::compound_cells(per_func[f].result_lift))
        }
}

/// Whether `fills` and `counts` describe the records of the first parameters of
/// function `f`.
pub open spec fn param_records(
    fills: Seq<Vec<Option<RecordRuntimeFill>>>,
    counts: Seq<u32>,
    layout: RecordLayout,
    per_func: Seq<FuncClassified>,
    f: int,
) -> bool {
    &&& fills.len() <= per_func[f].params@.len()
    &&& counts.len() == fills.len()
    &&& forall|p: int|
        0 <= p < fills.len() ==> {
            &&& (#[trigger] fills[p])@ == record_fills(
                layout,
                per_func[f].params@[p].plan.cells@,
                record_tuples(layout, plans_before_param(per_func, f, p)).len(),
            )
            &&& counts[p] == classify::count(per_func[f].params@[p].plan.cells@, is_record())
        }
}

/// Whether row `f` of the entries describes the records of function `f`.
pub open spec fn func_records(
    fills: PerCellIndices<RecordRuntimeFill>,
    param_counts: Seq<Vec<u32>>,
    result_counts: Seq<u32>,
    layout: RecordLayout,
    per_func: Seq<FuncClassified>,
    f: int,
) -> bool {
    &&& fills.per_param@[f]@.len() == per_func[f].params@.len()
    &&& param_records(fills.per_param@[f]@, param_counts[f]@, layout, per_func, f)
    &&& fills.per_result@[f]@ == record_fills(
        layout,
        classify::compound_cells(per_func[f].result_lift),
        record_tuples(layout, plans_before_result(per_func, f)).len(),
    )
    &&& result_counts[f] == classify::count(
        classify::compound_cells(per_func[f].result_lift),
        is_record(),
    )
}

/// Whether the first `n` rows of the entries, and no others, are there and
/// describe the records of their functions.
pub open spec fn describes_records(
    fills: PerCellIndices<RecordRuntimeFill>,
    param_counts: Seq<Vec<u32>>,
    result_counts: Seq<u32>,
    n: nat,
    layout: RecordLayout,
    per_func: Seq<FuncClassified>,
) -> bool {
    &&& fills.per_param@.len() == n
    &&& param_counts.len() == n
    &&& fills.per_result@.len() == n
    &&& result_counts.len() == n
    &&& forall|f: int|
        0 <= f < n ==> #[trigger] func_records(
            fills,
            param_counts,
            result_counts,
            layout,
            per_func,
            f,
        )
}

/// Collects the entry of every record cell, the number of entries per parameter
/// and result, and the segment of field tuples.
pub fn build_record_info_maps(
    per_func: &[FuncClassified],
    tuple_layout: &RecordLayout,
    tuples_id: SymbolId,
) -> (maps: RecordInfoMaps)
    requires
        records_buildable(*tuple_layout, per_func@),
    ensures
        maps.tuples.id == tuples_id,
        maps.tuples.align == tuple_layout.align,
        maps.tuples.bytes@ == record_tuples(*tuple_layout, classify::walked_plans(per_func@)),
        maps.tuples.relocs@.len() == 0,
        describes_records(
            maps.per_cell_fill,
            maps.per_param_count@,
            maps.per_result_count@,
            per_func@.len(),
            *tuple_layout,
            per_func@,
        ),
{
    let mut tuples_bytes: Vec<u8> = Vec::new();
    let mut fills: PerCellIndices<RecordRuntimeFill> = PerCellIndices {
        per_param: Vec::new(),
        per_result: Vec::new(),
    };
    let mut per_param_count: Vec<Vec<u32>> = Vec::new();
    let mut per_result_count: Vec<u32> = Vec::new();
    let mut f: usize = 0;
    assert(per_func@.take(0) =~= Seq::empty());
    while f < per_func.len()
        invariant
            f <= per_func.len(),
            records_buildable(*tuple_layout, per_func@),
            tuples_bytes@ == record_tuples(
                *tuple_layout,
                classify::walked_plans(per_func@.take(f as int)),
            ),
            describes_records(
                fills,
                per_param_count@,
                per_result_count@,
                f as nat,
                *tuple_layout,
                per_func@,
            ),
        decreases per_func.len() - f,
    {
        let fd = &per_func[f];
        let mut params_fill: Vec<Vec<Option<RecordRuntimeFill>>> = Vec::new();
        let mut params_count: Vec<u32> = Vec::new();
        let mut p: usize = 0;
        assert(fd.params@.take(0) =~= Seq::empty());
        assert(plans_before_param(per_func@, f as int, 0) =~= classify::walked_plans(
            per_func@.take(f as int),
        ));
        while p < fd.params.len()
            invariant
                f < per_func.len(),
                *fd == per_func@[f as int],
                records_buildable(*tuple_layout, per_func@),
                p <= fd.params.len(),
                params_fill@.len() == p,
                tuples_bytes@ == record_tuples(
                    *tuple_layout,
                    plans_before_param(per_func@, f as int, p as int),
                ),
                param_records(params_fill@, params_count@, *tuple_layout, per_func@, f as int),
            decreases fd.params.len() - p,
        {
            assert(per_func@[f as int].params@[p as int] == fd.params@[p as int]);
            let (fill, count) = scan_plan(&fd.params[p].plan, tuple_layout, &mut tuples_bytes);
            params_fill.push(fill);
            params_count.push(count);
            proof {
                let cells = fd.params@[p as int].plan.cells@;
                let before = plans_before_param(per_func@, f as int, p as int);
                lemma_record_tuples_concat(*tuple_layout, before, cells);
                assert(fd.params@.take(p + 1).drop_last() =~= fd.params@.take(p as int));
                assert(plans_before_param(per_func@, f as int, p + 1) =~= before + cells);
            }
            p += 1;
        }
        assert(fd.params@.take(p as int) =~= fd.params@);
        let compound = match &fd.result_lift {
            Some(rl) => rl.compound(),
            None => None,
        };
        proof {
            lemma_record_tuples_concat(
                *tuple_layout,
                plans_before_result(per_func@, f as int),
                classify::compound_cells(fd.result_lift),
            );
        }
        let (result_fill, result_count) = match compound {
            Some(c) => scan_plan(&c.plan, tuple_layout, &mut tuples_bytes),
            None => (Vec::new(), 0u32),
        };
        let ghost before = fills;
        let ghost before_param_count = per_param_count@;
        let ghost before_result_count = per_result_count@;
        fills.per_param.push(params_fill);
        per_param_count.push(params_count);
        fills.per_result.push(result_fill);
        per_result_count.push(result_count);
        f += 1;
        assert(per_func@.take(f as int).drop_last() =~= per_func@.take(f - 1));
        assert forall|g: int| 0 <= g < f implies #[trigger] func_records(
            fills,
            per_param_count@,
            per_result_count@,
            *tuple_layout,
            per_func@,
            g,
        ) by {
            if g < f - 1 {
                assert(func_records(
                    before,
                    before_param_count,
                    before_result_count,
                    *tuple_layout,
                    per_func@,
                    g,
                ));
            } else {
                assert(fills.per_result@[g]@ =~= record_fills(
                    *tuple_layout,
                    classify::compound_cells(fd.result_lift),
                    record_tuples(*tuple_layout, plans_before_result(per_func@, g)).len(),
                ));
            }
        }
    }
    assert(per_func@.take(f as int) =~= per_func@);
    RecordInfoMaps {
        tuples: Segment {
            id: tuples_id,
            align: tuple_layout.align,
            bytes: tuples_bytes,
            relocs: Vec::new(),
        },
        per_cell_fill: fills,
        per_param_count,
        per_result_count,
    }
}

/// Numbers the record cells of one plan and appends their field tuples.
pub fn scan_plan(
    plan: &LiftPlan,
    tuple_layout: &RecordLayout,
    tuples_bytes: &mut Vec<u8>,
) -> (scan: (Vec<Option<RecordRuntimeFill>>, u32))
    requires
        classify::count(plan.cells@, is_record()) <= u32::MAX,
        tuples_fit(*tuple_layout, plan.cells@),
    ensures
        final(tuples_bytes)@ == old(tuples_bytes)@ + record_tuples(*tuple_layout, plan.cells@),
        scan.0@ == record_fills(*tuple_layout, plan.cells@, old(tuples_bytes)@.len()),
        scan.1 == classify::count(plan.cells@, is_record()),
{
    let mut fill_map: Vec<Option<RecordRuntimeFill>> = Vec::new();
    let mut count: u32 = 0;
    let mut i: usize = 0;
    proof {
        classify::lemma_rank_bounds(plan.cells@, is_record(), 0, 0);
        assert(plan.cells@.take(0) =~= Seq::empty());
    }
    while i < plan.cells.len()
        invariant
            i <= plan.cells.len(),
            classify::count(plan.cells@, is_record()) <= u32::MAX,
            tuples_fit(*tuple_layout, plan.cells@),
            count == classify::rank(plan.cells@, is_record(), i as int),
            tuples_bytes@ == old(tuples_bytes)@ + record_tuples(
                *tuple_layout,
                plan.cells@.take(i as int),
            ),
            fill_map@ == record_fills(
                *tuple_layout,
                plan.cells@,
                old(tuples_bytes)@.len(),
            ).take(i as int),
        decreases plan.cells.len() - i,
    {
        proof {
            classify::lemma_rank_step(plan.cells@, is_record(), i as int);
            classify::lemma_rank_bounds(plan.cells@, is_record(), i + 1, i + 1);
            assert(plan.cells@.take(i + 1).drop_last() =~= plan.cells@.take(i as int));
        }
        match &plan.cells[i] {
            Cell::RecordOf { ty_name, fields } => {
                assert(plan.cells@[i as int] is RecordOf);
                let tuples_off = tuples_bytes.len() as u32;
                append_tuples(fields, tuple_layout, tuples_bytes);
                fill_map.push(
                    Some(
                        RecordRuntimeFill {
                            slot_source: RecordSlotSource::Static {
                                entry_idx: count,
                                fields_ptr: to_signed(tuples_off),
                            },
                            ty_name: *ty_name,
                            fields_len: fields.len() as u32,
                        },
                    ),
                );
                count += 1;
            },
            _ => {
                fill_map.push(None);
            },
        }
        i += 1;
        assert(tuples_bytes@ =~= old(tuples_bytes)@ + record_tuples(
            *tuple_layout,
            plan.cells@.take(i as int),
        ));
    }
    proof {
        classify::lemma_rank_bounds(plan.cells@, is_record(), i as int, i as int);
        assert(plan.cells@.take(i as int) =~= plan.cells@);
    }
    (fill_map, count)
}

fn append_tuples(fields: &Vec<(BlobSlice, u32)>, layout: &RecordLayout, bytes: &mut Vec<u8>)
    requires
        fields@.len() > 0 ==> tuple_layout_fits(*layout),
    ensures
        final(bytes)@ == old(bytes)@ + field_tuples(*layout, fields@),
{
    let mut k: usize = 0;
    assert(fields@.take(0) =~= Seq::empty());
    while k < fields.len()
        invariant
            k <= fields.len(),
            fields@.len() > 0 ==> tuple_layout_fits(*layout),
            bytes@ == old(bytes)@ + field_tuples(*layout, fields@.take(k as int)),
        decreases fields.len() - k,
    {
        let (field_name, child_cell_idx) = fields[k];
        let ghost before = bytes@;
        let tuple = RecordWriter::extend_zero(bytes, layout);
        tuple.write_slice(bytes.as_mut_slice(), RECORD_FIELD_TUPLE_NAME, field_name);
        tuple.write_i32(bytes.as_mut_slice(), RECORD_FIELD_TUPLE_IDX, to_signed(child_cell_idx));
        proof {
            let zeroed = blob::zeros(layout.size as nat);
            let name_off = layout.offsets@[RECORD_FIELD_TUPLE_NAME@] as int;
            let idx_off = layout.offsets@[RECORD_FIELD_TUPLE_IDX@] as int;
            let named = le::overwrite(zeroed, name_off, blob::slice_bytes(field_name));
            le::lemma_overwrite_suffix(
                before,
                zeroed,
                name_off,
                blob::slice_bytes(field_name),
            );
            le::lemma_overwrite_suffix(before, named, idx_off, le::le_bytes(child_cell_idx));
            le::lemma_bits_signed(0, child_cell_idx);
            assert(fields@.take(k + 1).drop_last() =~= fields@.take(k as int));
            assert(bytes@ =~= before + tuple_bytes(*layout, fields@[k as int]));
        }
        k += 1;
        assert(bytes@ =~= old(bytes)@ + field_tuples(*layout, fields@.take(k as int)));
    }
    assert(fields@.take(k as int) =~= fields@);
}

/// Whether the tuples address of `fill`, moved by `tuples_base`, still fits.
pub open spec fn rebasable(fill: RecordRuntimeFill, tuples_base: u32) -> bool {
    fill.slot_source matches RecordSlotSource::Static { fields_ptr, .. } ==> i32::MIN <= le::signed(
        tuples_base,
    ) + fields_ptr <= i32::MAX
}

/// `fill` with its tuples address moved by `tuples_base`. Entries of list
/// elements get their address per call and stay as they are.
pub open spec fn rebased(fill: RecordRuntimeFill, tuples_base: u32) -> RecordRuntimeFill {
    match fill.slot_source {
        RecordSlotSource::Static { entry_idx, fields_ptr } => RecordRuntimeFill {
            slot_source: RecordSlotSource::Static {
                entry_idx,
                fields_ptr: (le::signed(tuples_base) + fields_ptr) as i32,
            },
            ty_name: fill.ty_name,
            fields_len: fill.fields_len,
        },
        RecordSlotSource::PerIteration { .. } => fill,
    }
}

/// Whether every entry of `row` can be rebased.
pub open spec fn row_rebasable(row: Seq<Option<RecordRuntimeFill>>, tuples_base: u32) -> bool {
    forall|i: int| #![trigger row[i]]
        0 <= i < row.len() && row[i] is Some ==> rebasable(row[i]->0, tuples_base)
}

/// `row` with every entry rebased.
pub open spec fn row_rebased(row: Seq<Option<RecordRuntimeFill>>, tuples_base: u32) -> Seq<
    Option<RecordRuntimeFill>,
> {
    row.map_values(
        |slot: Option<RecordRuntimeFill>|
            match slot {
                Some(fill) => Some(rebased(fill, tuples_base)),
                None => None,
            },
    )
}

/// Whether every entry of the grid can be rebased.
pub open spec fn grid_rebasable(fills: PerCellIndices<RecordRuntimeFill>, tuples_base: u32) -> bool {
    &&& forall|f: int, p: int| #![trigger fills.per_param@[f]@[p]]
        0 <= f < fills.per_param@.len() && 0 <= p < fills.per_param@[f]@.len() ==> row_rebasable(
            fills.per_param@[f]@[p]@,
            tuples_base,
        )
    &&& forall|f: int| #![trigger fills.per_result@[f]]
        0 <= f < fills.per_result@.len() ==> row_rebasable(fills.per_result@[f]@, tuples_base)
}

/// Whether `after` is `before` with every entry rebased.
pub open spec fn grid_rebased(
    before: PerCellIndices<RecordRuntimeFill>,
    after: PerCellIndices<RecordRuntimeFill>,
    tuples_base: u32,
) -> bool {
    &&& after.per_param@.len() == before.per_param@.len()
    &&& forall|f: int| #![trigger after.per_param@[f]]
        0 <= f < before.per_param@.len() ==> after.per_param@[f]@.len()
            == before.per_param@[f]@.len()
    &&& forall|f: int, p: int| #![trigger after.per_param@[f]@[p]]
        0 <= f < before.per_param@.len() && 0 <= p < before.per_param@[f]@.len()
            ==> after.per_param@[f]@[p]@ == row_rebased(before.per_param@[f]@[p]@, tuples_base)
    &&& after.per_result@.len() == before.per_result@.len()
    &&& forall|f: int| #![trigger after.per_result@[f]]
        0 <= f < before.per_result@.len() ==> after.per_result@[f]@ == row_rebased(
            before.per_result@[f]@,
            tuples_base,
        )
}

/// Turns every tuples address from relative to the tuples segment into
/// absolute.
pub fn back_fill_record_fields_ptrs(
    per_cell_fill: &mut PerCellIndices<RecordRuntimeFill>,
    tuples_base: u32,
)
    requires
        grid_rebasable(*old(per_cell_fill), tuples_base),
    ensures
        grid_rebased(*old(per_cell_fill), *final(per_cell_fill), tuples_base),
{
    let patch = |fill: RecordRuntimeFill| -> (after: RecordRuntimeFill)
        requires
            rebasable(fill, tuples_base),
        ensures
            after == rebased(fill, tuples_base),
        {
            match fill.slot_source {
                RecordSlotSource::Static { entry_idx, fields_ptr } => RecordRuntimeFill {
                    slot_source: RecordSlotSource::Static {
                        entry_idx,
                        fields_ptr: to_signed(tuples_base) + fields_ptr,
                    },
                    ty_name: fill.ty_name,
                    fields_len: fill.fields_len,
                },
                // Computed per call.
                RecordSlotSource::PerIteration { .. } => fill,
            }
        };
    let ghost before = *per_cell_fill;
    let mut singles: Vec<Option<RecordRuntimeFill>> = Vec::new();
    back_fill_per_cell(per_cell_fill, singles.as_mut_slice(), patch);
    proof {
        assert forall|f: int, p: int| #![trigger per_cell_fill.per_param@[f]@[p]]
            0 <= f < before.per_param@.len() && 0 <= p
                < before.per_param@[f]@.len() implies per_cell_fill.per_param@[f]@[p]@
            == row_rebased(before.per_param@[f]@[p]@, tuples_base) by {
            assert(per_cell_fill.per_param@[f]@[p]@ =~= row_rebased(
                before.per_param@[f]@[p]@,
                tuples_base,
            ));
        }
        assert forall|f: int| #![trigger per_cell_fill.per_result@[f]]
            0 <= f < before.per_result@.len() implies per_cell_fill.per_result@[f]@
            == row_rebased(before.per_result@[f]@, tuples_base) by {
            assert(per_cell_fill.per_result@[f]@ =~= row_rebased(
                before.per_result@[f]@,
                tuples_base,
            ));
        }
    }
}

proof fn lemma_record_tuples_concat(layout: RecordLayout, a: Seq<Cell>, b: Seq<Cell>)
    ensures
        record_tuples(layout, a + b) == record_tuples(layout, a) + record_tuples(layout, b),
    decreases b.len(),
{
    if b.len() == 0 {
        assert(a + b =~= a);
        assert(record_tuples(layout, a) + record_tuples(layout, b) =~= record_tuples(layout, a));
    } else {
        assert((a + b).drop_last() =~= a + b.drop_last());
        lemma_record_tuples_concat(layout, a, b.drop_last());
        assert(record_tuples(layout, a + b) =~= record_tuples(layout, a) + record_tuples(
            layout,
            b,
        ));
    }
}

/// The record cells of a plan take each entry index below their count exactly
/// once.
pub proof fn lemma_record_numbering(
    layout: RecordLayout,
    cells: Seq<Cell>,
    start: nat,
    k: u32,
) -> (i: int)
    requires
        classify::count(cells, is_record()) <= u32::MAX,
        k < classify::count(cells, is_record()),
    ensures
        0 <= i < cells.len(),
        record_fills(layout, cells, start)[i] == record_fill(
            cells[i],
            k,
            start + record_tuples(layout, cells.take(i)).len(),
        ),
        record_fills(layout, cells, start)[i] is Some,
        forall|j: int|
            0 <= j < cells.len() && #[trigger] record_fills(layout, cells, start)[j] is Some && j
                != i ==> record_fills(layout, cells, start)[j]->0.slot_source->entry_idx != k,
{
    let i = classify::lemma_rank_onto(cells, is_record(), k as nat);
    assert forall|j: int|
        0 <= j < cells.len() && #[trigger] record_fills(layout, cells, start)[j] is Some && j
            != i implies record_fills(layout, cells, start)[j]->0.slot_source->entry_idx != k by {
        classify::lemma_rank_bounds(cells, is_record(), j, j);
        if j < i {
            classify::lemma_rank_distinct(cells, is_record(), j, i);
        } else {
            classify::lemma_rank_distinct(cells, is_record(), i, j);
        }
    }
    i
}

/// Each field of a record reads back from its tuple: its name and the index of
/// its cell.
pub proof fn lemma_field_reads_back(
    layout: RecordLayout,
    fields: Seq<(BlobSlice, u32)>,
    k: int,
)
    requires
        tuple_layout_fits(layout),
        tuple_fields_apart(layout),
        0 <= k < fields.len(),
    ensures
        field_tuples(layout, fields).len() == fields.len() * layout.size,
        0 <= k * layout.size,
        (k + 1) * layout.size <= field_tuples(layout, fields).len(),
        blob::slice_at(
            field_tuples(layout, fields),
            k * layout.size + layout.offsets@[RECORD_FIELD_TUPLE_NAME@],
        ) == fields[k].0,
        le::word_at(
            field_tuples(layout, fields),
            k * layout.size + layout.offsets@[RECORD_FIELD_TUPLE_IDX@],
        ) == fields[k].1,
    decreases fields.len(),
{
    let name_off = layout.offsets@[RECORD_FIELD_TUPLE_NAME@] as int;
    let idx_off = layout.offsets@[RECORD_FIELD_TUPLE_IDX@] as int;
    let init = field_tuples(layout, fields.drop_last());
    let tuple = tuple_bytes(layout, fields.last());
    let n = fields.len() as int;
    lemma_field_tuples_len(layout, fields);
    lemma_field_tuples_len(layout, fields.drop_last());
    let size = layout.size as int;
    assert(0 <= k * size && (k + 1) * size == k * size + size && (k + 1) * size <= n * size)
        by (nonlinear_arith)
        requires
            0 <= k < n,
            0 <= size,
    ;
    if k == n - 1 {
        let zeroed = blob::zeros(layout.size as nat);
        let named = le::overwrite(zeroed, name_off, blob::slice_bytes(fields[k].0));
        blob::lemma_slice_reads_back(zeroed, name_off, fields[k].0);
        le::lemma_word_at_frame(named, idx_off, le::le_bytes(fields[k].1), name_off);
        le::lemma_word_at_frame(named, idx_off, le::le_bytes(fields[k].1), name_off + 4);
        le::lemma_word_at_overwrite(named, idx_off, fields[k].1);
        le::lemma_word_at_concat(init, tuple, name_off);
        le::lemma_word_at_concat(init, tuple, name_off + 4);
        le::lemma_word_at_concat(init, tuple, idx_off);
    } else {
        lemma_field_reads_back(layout, fields.drop_last(), k);
        le::lemma_word_at_concat(init, tuple, k * size + name_off);
        le::lemma_word_at_concat(init, tuple, k * size + name_off + 4);
        le::lemma_word_at_concat(init, tuple, k * size + idx_off);
    }
}

/// Whether the two fields of a tuple do not overlap.
pub open spec fn tuple_fields_apart(layout: RecordLayout) -> bool {
    ||| layout.offsets@[RECORD_FIELD_TUPLE_NAME@] + 8 <= layout.offsets@[RECORD_FIELD_TUPLE_IDX@]
    ||| layout.offsets@[RECORD_FIELD_TUPLE_IDX@] + 4 <= layout.offsets@[RECORD_FIELD_TUPLE_NAME@]
}

proof fn lemma_field_tuples_len(layout: RecordLayout, fields: Seq<(BlobSlice, u32)>)
    ensures
        field_tuples(layout, fields).len() == fields.len() * layout.size,
    decreases fields.len(),
{
    if fields.len() > 0 {
        lemma_field_tuples_len(layout, fields.drop_last());
        let n = fields.len() as int;
        let size = layout.size as int;
        assert(n * size == (n - 1) * size + size) by (nonlinear_arith);
    }
}

/// A parameter's record cell points at its own field tuples within the tuples
/// segment.
pub proof fn lemma_record_param_fields(
    maps: RecordInfoMaps,
    layout: RecordLayout,
    per_func: Seq<FuncClassified>,
    f: int,
    p: int,
    i: int,
) -> (off: nat)
    requires
        maps.tuples.bytes@ == record_tuples(layout, classify::walked_plans(per_func)),
        describes_records(
            maps.per_cell_fill,
            maps.per_param_count@,
            maps.per_result_count@,
            per_func.len(),
            layout,
            per_func,
        ),
        0 <= f < per_func.len(),
        0 <= p < per_func[f].params@.len(),
        0 <= i < per_func[f].params@[p].plan.cells@.len(),
        per_func[f].params@[p].plan.cells@[i] is RecordOf,
    ensures
        off + field_tuples(layout, per_func[f].params@[p].plan.cells@[i]->RecordOf_fields@).len()
            <= maps.tuples.bytes@.len(),
        maps.tuples.bytes@.subrange(
            off as int,
            (off + field_tuples(
                layout,
                per_func[f].params@[p].plan.cells@[i]->RecordOf_fields@,
            ).len()) as int,
        ) == field_tuples(layout, per_func[f].params@[p].plan.cells@[i]->RecordOf_fields@),
        maps.per_cell_fill.per_param@[f]@[p]@[i] == record_fill(
            per_func[f].params@[p].plan.cells@[i],
            classify::rank(per_func[f].params@[p].plan.cells@, is_record(), i) as u32,
            off,
        ),
{
    let params = per_func[f].params@;
    let cells = params[p].plan.cells@;
    let before = plans_before_param(per_func, f, p);
    let after = classify::lemma_param_cells_split(params, p);
    let rest = classify::lemma_walked_plans_split(per_func, f);
    let tail = after + classify::compound_cells(per_func[f].result_lift) + rest;
    assert(classify::walked_plans(per_func) =~= before + cells + tail);
    lemma_cell_tuples(layout, before, cells, tail, i);
    assert(func_records(
        maps.per_cell_fill,
        maps.per_param_count@,
        maps.per_result_count@,
        layout,
        per_func,
        f,
    ));
    assert(maps.per_cell_fill.per_param@[f]@[p]@ == record_fills(
        layout,
        cells,
        record_tuples(layout, before).len(),
    ));
    record_tuples(layout, before).len() + record_tuples(layout, cells.take(i)).len()
}

/// A result's record cell points at its own field tuples within the tuples
/// segment.
pub proof fn lemma_record_result_fields(
    maps: RecordInfoMaps,
    layout: RecordLayout,
    per_func: Seq<FuncClassified>,
    f: int,
    i: int,
) -> (off: nat)
    requires
        maps.tuples.bytes@ == record_tuples(layout, classify::walked_plans(per_func)),
        describes_records(
            maps.per_cell_fill,
            maps.per_param_count@,
            maps.per_result_count@,
            per_func.len(),
            layout,
            per_func,
        ),
        0 <= f < per_func.len(),
        0 <= i < classify::compound_cells(per_func[f].result_lift).len(),
        classify::compound_cells(per_func[f].result_lift)[i] is RecordOf,
    ensures
        off + field_tuples(
            layout,
            classify::compound_cells(per_func[f].result_lift)[i]->RecordOf_fields@,
        ).len() <= maps.tuples.bytes@.len(),
        maps.tuples.bytes@.subrange(
            off as int,
            (off + field_tuples(
                layout,
                classify::compound_cells(per_func[f].result_lift)[i]->RecordOf_fields@,
            ).len()) as int,
        ) == field_tuples(
            layout,
            classify::compound_cells(per_func[f].result_lift)[i]->RecordOf_fields@,
        ),
        maps.per_cell_fill.per_result@[f]@[i] == record_fill(
            classify::compound_cells(per_func[f].result_lift)[i],
            classify::rank(
                classify::compound_cells(per_func[f].result_lift),
                is_record(),
                i,
            ) as u32,
            off,
        ),
{
    let cells = classify::compound_cells(per_func[f].result_lift);
    let before = plans_before_result(per_func, f);
    let rest = classify::lemma_walked_plans_split(per_func, f);
    lemma_cell_tuples(layout, before, cells, rest, i);
    assert(func_records(
        maps.per_cell_fill,
        maps.per_param_count@,
        maps.per_result_count@,
        layout,
        per_func,
        f,
    ));
    record_tuples(layout, before).len() + record_tuples(layout, cells.take(i)).len()
}

proof fn lemma_cell_tuples(
    layout: RecordLayout,
    before: Seq<Cell>,
    cells: Seq<Cell>,
    tail: Seq<Cell>,
    i: int,
)
    requires
        0 <= i < cells.len(),
        cells[i] is RecordOf,
    ensures
        ({
            let bytes = record_tuples(layout, before + cells + tail);
            let off = record_tuples(layout, before).len() + record_tuples(
                layout,
                cells.take(i),
            ).len();
            let own = field_tuples(layout, cells[i]->RecordOf_fields@);
            off + own.len() <= bytes.len() && bytes.subrange(off as int, (off + own.len()) as int)
                == own
        }),
{
    let own = field_tuples(layout, cells[i]->RecordOf_fields@);
    let one = cells.take(i + 1);
    lemma_record_tuples_concat(layout, before + cells, tail);
    lemma_record_tuples_concat(layout, before, cells);
    assert(cells =~= one + cells.skip(i + 1));
    lemma_record_tuples_concat(layout, one, cells.skip(i + 1));
    assert(one.drop_last() =~= cells.take(i));
    let head = record_tuples(layout, before) + record_tuples(layout, cells.take(i));
    let bytes = record_tuples(layout, before + cells + tail);
    assert(bytes =~= head + own + (record_tuples(layout, cells.skip(i + 1)) + record_tuples(
        layout,
        tail,
    )));
    assert(bytes.subrange(head.len() as int, (head.len() + own.len()) as int) =~= own);
}

/// Once rebased, an entry holds the absolute address of its tuples, as long as
/// that address is a positive 32-bit number.
pub proof fn lemma_rebased_address(cell: Cell, entry_idx: u32, tuples_off: nat, tuples_base: u32)
    requires
        cell is RecordOf,
        tuples_base + tuples_off <= i32::MAX,
    ensures
        rebasable(record_fill(cell, entry_idx, tuples_off)->0, tuples_base),
        rebased(record_fill(cell, entry_idx, tuples_off)->0, tuples_base).slot_source
            == (RecordSlotSource::Static {
            entry_idx,
            fields_ptr: (tuples_base + tuples_off) as i32,
        }),
{
}

/// A row of entries has one slot per cell. A record cell's entry names the
/// cell's type and counts the cell's fields; its index is how many record cells
/// stand before it. Other cells have none.
pub proof fn lemma_record_row(layout: RecordLayout, cells: Seq<Cell>, start: nat, i: int)
    requires
        cells.filter(|cell: Cell| cell is RecordOf).len() <= u32::MAX,
        0 <= i < cells.len(),
        cells[i] is RecordOf ==> cells[i]->RecordOf_fields@.len() <= u32::MAX,
        start + record_tuples(layout, cells.take(i)).len() <= u32::MAX,
    ensures
        record_fills(layout, cells, start).len() == cells.len(),
        match record_fills(layout, cells, start)[i] {
            Some(fill) => {
                &&& cells[i] is RecordOf
                &&& fill.ty_name == cells[i]->RecordOf_ty_name
                &&& fill.fields_len == cells[i]->RecordOf_fields@.len()
                &&& fill.slot_source matches RecordSlotSource::Static { entry_idx, fields_ptr }
                &&& entry_idx == cells.take(i).filter(|cell: Cell| cell is RecordOf).len()
                &&& le::bits(fields_ptr) == start + record_tuples(layout, cells.take(i)).len()
            },
            None => !(cells[i] is RecordOf),
        },
{
    assert(is_record() =~= |cell: Cell| cell is RecordOf);
    classify::lemma_count_filter(cells, is_record());
    classify::lemma_rank_filter(cells, is_record(), i);
    classify::lemma_rank_bounds(cells, is_record(), i, i);
    le::lemma_bits_signed(0, (start + record_tuples(layout, cells.take(i)).len()) as u32);
}

/// Each parameter has the row of its own plan, whose tuples come after those of
/// all plans before it, and its count is that of its record cells.
pub proof fn lemma_record_param_row(
    maps: RecordInfoMaps,
    layout: RecordLayout,
    per_func: Seq<FuncClassified>,
    f: int,
    p: int,
)
    requires
        describes_records(
            maps.per_cell_fill,
            maps.per_param_count@,
            maps.per_result_count@,
            per_func.len(),
            layout,
            per_func,
        ),
        0 <= f < per_func.len(),
        0 <= p < per_func[f].params@.len(),
    ensures
        maps.per_cell_fill.per_param@.len() == per_func.len(),
        maps.per_cell_fill.per_param@[f]@.len() == per_func[f].params@.len(),
        maps.per_cell_fill.per_param@[f]@[p]@ == record_fills(
            layout,
            per_func[f].params@[p].plan.cells@,
            record_tuples(
                layout,
                classify::walked_plans(per_func.take(f)) + per_func[f].params@.take(p).map_values(
                    |p: ParamLift| p.plan.cells@,
                ).flatten(),
            ).len(),
        ),
        maps.per_param_count@[f]@[p] == per_func[f].params@[p].plan.cells@.filter(
            |cell: Cell| cell is RecordOf,
        ).len(),
{
    assert(is_record() =~= |cell: Cell| cell is RecordOf);
    assert(func_records(
        maps.per_cell_fill,
        maps.per_param_count@,
        maps.per_result_count@,
        layout,
        per_func,
        f,
    ));
    assert(maps.per_cell_fill.per_param@[f]@[p]@ == record_fills(
        layout,
        per_func[f].params@[p].plan.cells@,
        record_tuples(layout, plans_before_param(per_func, f, p)).len(),
    ));
    classify::lemma_count_filter(per_func[f].params@[p].plan.cells@, is_record());
    classify::lemma_param_cells_flat(per_func[f].params@.take(p));
}

/// A compound result has the row of its plan, whose tuples come after those of
/// all plans before it; any other result has an empty row.
pub proof fn lemma_record_result_row(
    maps: RecordInfoMaps,
    layout: RecordLayout,
    per_func: Seq<FuncClassified>,
    f: int,
)
    requires
        describes_records(
            maps.per_cell_fill,
            maps.per_param_count@,
            maps.per_result_count@,
            per_func.len(),
            layout,
            per_func,
        ),
        0 <= f < per_func.len(),
    ensures
        match per_func[f].result_lift {
            Some(ResultLift { source: ResultSource::Compound(c) }) => {
                &&& maps.per_cell_fill.per_result@[f]@ == record_fills(
                    layout,
                    c.plan.cells@,
                    record_tuples(
                        layout,
                        classify::walked_plans(per_func.take(f)) + per_func[f].params@.map_values(
                            |p: ParamLift| p.plan.cells@,
                        ).flatten(),
                    ).len(),
                )
                &&& maps.per_result_count@[f] == c.plan.cells@.filter(
                    |cell: Cell| cell is RecordOf,
                ).len()
            },
            _ => {
                &&& maps.per_cell_fill.per_result@[f]@.len() == 0
                &&& maps.per_result_count@[f] == 0
            },
        },
{
    assert(is_record() =~= |cell: Cell| cell is RecordOf);
    assert(func_records(
        maps.per_cell_fill,
        maps.per_param_count@,
        maps.per_result_count@,
        layout,
        per_func,
        f,
    ));
    classify::lemma_count_filter(
        classify::compound_cells(per_func[f].result_lift),
        is_record(),
    );
    classify::lemma_param_cells_flat(per_func[f].params@);
}

/// The tuples of records follow one another, each record's fields in order, one
/// tuple per field.
pub proof fn lemma_record_tuples_flat(layout: RecordLayout, cells: Seq<Cell>)
    ensures
        record_tuples(layout, cells) == cells.map_values(
            |cell: Cell|
                match cell {
                    Cell::RecordOf { fields, .. } => fields@.map_values(
                        |field: (BlobSlice, u32)| tuple_bytes(layout, field),
                    ).flatten(),
                    _ => Seq::empty(),
                },
        ).flatten(),
    decreases cells.len(),
{
    let own = |cell: Cell|
        match cell {
            Cell::RecordOf { fields, .. } => fields@.map_values(
                |field: (BlobSlice, u32)| tuple_bytes(layout, field),
            ).flatten(),
            _ => Seq::empty(),
        };
    let parts = cells.map_values(own);
    parts.lemma_flatten_and_flatten_alt_are_equivalent();
    if cells.len() > 0 {
        let init = cells.drop_last();
        lemma_record_tuples_flat(layout, init);
        init.map_values(own).lemma_flatten_and_flatten_alt_are_equivalent();
        assert(parts.drop_last() =~= init.map_values(own));
        if let Cell::RecordOf { fields, .. } = cells.last() {
            lemma_field_tuples_flat(layout, fields@);
        }
        assert(record_tuples(layout, cells) =~= record_tuples(layout, init) + own(cells.last()));
    }
}

proof fn lemma_field_tuples_flat(layout: RecordLayout, fields: Seq<(BlobSlice, u32)>)
    ensures
        field_tuples(layout, fields) == fields.map_values(
            |field: (BlobSlice, u32)| tuple_bytes(layout, field),
        ).flatten(),
    decreases fields.len(),
{
    let own = |field: (BlobSlice, u32)| tuple_bytes(layout, field);
    let parts = fields.map_values(own);
    parts.lemma_flatten_and_flatten_alt_are_equivalent();
    if fields.len() > 0 {
        let init = fields.drop_last();
        lemma_field_tuples_flat(layout, init);
        init.map_values(own).lemma_flatten_and_flatten_alt_are_equivalent();
        assert(parts.drop_last() =~= init.map_values(own));
    }
}

/// A tuple takes up the size of its layout, and is zero but for its two fields.
pub proof fn lemma_tuple_padding(layout: RecordLayout, field: (BlobSlice, u32), k: int)
    requires
        0 <= k < layout.size,
        !(layout.offsets@["name"@] <= k < layout.offsets@["name"@] + 8),
        !(layout.offsets@["idx"@] <= k < layout.offsets@["idx"@] + 4),
    ensures
        tuple_bytes(layout, field).len() == layout.size,
        tuple_bytes(layout, field)[k] == 0,
{
}

/// Back-filling changes nothing but addresses: no entry comes or goes, and each
/// keeps its type name, number of fields and index. The address of an entry of
/// an outer plan moves by the base; those of list elements have none yet.
pub proof fn lemma_back_fill_keeps(
    before: Seq<Option<RecordRuntimeFill>>,
    tuples_base: u32,
    i: int,
)
    requires
        0 <= i < before.len(),
        row_rebasable(before, tuples_base),
    ensures
        row_rebased(before, tuples_base).len() == before.len(),
        match (before[i], row_rebased(before, tuples_base)[i]) {
            (Some(b), Some(a)) => {
                &&& a.ty_name == b.ty_name
                &&& a.fields_len == b.fields_len
                &&& match (b.slot_source, a.slot_source) {
                    (
                        RecordSlotSource::Static { entry_idx: x, fields_ptr: from },
                        RecordSlotSource::Static { entry_idx: y, fields_ptr: to },
                    ) => x == y && (to - from - tuples_base) % 0x1_0000_0000 == 0 && (tuples_base
                        <= i32::MAX ==> to - from == tuples_base),
                    (
                        RecordSlotSource::PerIteration {
                            entry_offset_in_elem: x,
                            tuples_offset_in_elem: from,
                        },
                        RecordSlotSource::PerIteration {
                            entry_offset_in_elem: y,
                            tuples_offset_in_elem: to,
                        },
                    ) => x == y && from == to,
                    _ => false,
                }
            },
            (None, None) => true,
            _ => false,
        },
{
    le::lemma_bits_congruent(0, tuples_base);
    assert(row_rebased(before, tuples_base)[i] == match before[i] {
        Some(fill) => Some(rebased(fill, tuples_base)),
        None => None,
    });
    if before[i] is Some {
        assert(rebasable(before[i]->0, tuples_base));
    }
}

/// Back-filling reaches every row, and adds or drops none.
pub proof fn lemma_back_fill_rows(
    before: PerCellIndices<RecordRuntimeFill>,
    after: PerCellIndices<RecordRuntimeFill>,
    tuples_base: u32,
    f: int,
    p: int,
)
    requires
        grid_rebased(before, after, tuples_base),
    ensures
        after.per_param@.len() == before.per_param@.len(),
        after.per_result@.len() == before.per_result@.len(),
        0 <= f < before.per_param@.len() ==> after.per_param@[f]@.len()
            == before.per_param@[f]@.len(),
        0 <= f < before.per_param@.len() && 0 <= p < before.per_param@[f]@.len()
            ==> after.per_param@[f]@[p]@ == row_rebased(before.per_param@[f]@[p]@, tuples_base),
        0 <= f < before.per_result@.len() ==> after.per_result@[f]@ == row_rebased(
            before.per_result@[f]@,
            tuples_base,
        ),
{
}

/// After back-filling, a parameter's record cell has an entry that names the
/// cell's type, counts its fields and points, in memory, at tuples from which
/// each field reads back.
pub proof fn lemma_back_filled_param(
    maps: RecordInfoMaps,
    after: PerCellIndices<RecordRuntimeFill>,
    layout: RecordLayout,
    per_func: Seq<FuncClassified>,
    tuples_base: u32,
    memory: Seq<u8>,
    f: int,
    p: int,
    i: int,
    k: int,
)
    requires
        maps.tuples.bytes@ == record_tuples(layout, classify::walked_plans(per_func)),
        describes_records(
            maps.per_cell_fill,
            maps.per_param_count@,
            maps.per_result_count@,
            per_func.len(),
            layout,
            per_func,
        ),
        grid_rebased(maps.per_cell_fill, after, tuples_base),
        tuple_layout_fits(layout),
        tuple_fields_apart(layout),
        tuples_base + maps.tuples.bytes@.len() <= i32::MAX,
        tuples_base + maps.tuples.bytes@.len() <= memory.len(),
        memory.subrange(tuples_base as int, tuples_base + maps.tuples.bytes@.len() as int)
            == maps.tuples.bytes@,
        0 <= f < per_func.len(),
        0 <= p < per_func[f].params@.len(),
        0 <= i < per_func[f].params@[p].plan.cells@.len(),
        per_func[f].params@[p].plan.cells@[i] is RecordOf,
        per_func[f].params@[p].plan.cells@[i]->RecordOf_fields@.len() <= u32::MAX,
        0 <= k < per_func[f].params@[p].plan.cells@[i]->RecordOf_fields@.len(),
    ensures
        ({
            let cell = per_func[f].params@[p].plan.cells@[i];
            &&& after.per_param@[f]@[p]@[i] matches Some(fill)
            &&& fill.ty_name == cell->RecordOf_ty_name
            &&& fill.fields_len == cell->RecordOf_fields@.len()
            &&& fill.slot_source matches RecordSlotSource::Static { fields_ptr, .. }
            &&& blob::slice_at(
                memory,
                fields_ptr + k * layout.size + layout.offsets@["name"@],
            ) == cell->RecordOf_fields@[k].0
            &&& le::word_at(
                memory,
                fields_ptr + k * layout.size + layout.offsets@["idx"@],
            ) == cell->RecordOf_fields@[k].1
        }),
{
    let cell = per_func[f].params@[p].plan.cells@[i];
    let fields = cell->RecordOf_fields@;
    let off = lemma_record_param_fields(maps, layout, per_func, f, p, i);
    lemma_record_param_row(maps, layout, per_func, f, p);
    lemma_back_fill_rows(maps.per_cell_fill, after, tuples_base, f, p);
    let row = maps.per_cell_fill.per_param@[f]@[p]@;
    assert(row_rebased(row, tuples_base)[i] == Some(rebased(row[i]->0, tuples_base)));
    lemma_fields_in_memory(layout, maps.tuples.bytes@, memory, tuples_base, off, fields, k);
}

/// After back-filling, a result's record cell has an entry that names the
/// cell's type, counts its fields and points, in memory, at tuples from which
/// each field reads back.
pub proof fn lemma_back_filled_result(
    maps: RecordInfoMaps,
    after: PerCellIndices<RecordRuntimeFill>,
    layout: RecordLayout,
    per_func: Seq<FuncClassified>,
    tuples_base: u32,
    memory: Seq<u8>,
    f: int,
    i: int,
    k: int,
)
    requires
        maps.tuples.bytes@ == record_tuples(layout, classify::walked_plans(per_func)),
        describes_records(
            maps.per_cell_fill,
            maps.per_param_count@,
            maps.per_result_count@,
            per_func.len(),
            layout,
            per_func,
        ),
        grid_rebased(maps.per_cell_fill, after, tuples_base),
        tuple_layout_fits(layout),
        tuple_fields_apart(layout),
        tuples_base + maps.tuples.bytes@.len() <= i32::MAX,
        tuples_base + maps.tuples.bytes@.len() <= memory.len(),
        memory.subrange(tuples_base as int, tuples_base + maps.tuples.bytes@.len() as int)
            == maps.tuples.bytes@,
        0 <= f < per_func.len(),
        0 <= i < classify::compound_cells(per_func[f].result_lift).len(),
        classify::compound_cells(per_func[f].result_lift)[i] is RecordOf,
        classify::compound_cells(per_func[f].result_lift)[i]->RecordOf_fields@.len() <= u32::MAX,
        0 <= k < classify::compound_cells(per_func[f].result_lift)[i]->RecordOf_fields@.len(),
    ensures
        ({
            let cell = classify::compound_cells(per_func[f].result_lift)[i];
            &&& after.per_result@[f]@[i] matches Some(fill)
            &&& fill.ty_name == cell->RecordOf_ty_name
            &&& fill.fields_len == cell->RecordOf_fields@.len()
            &&& fill.slot_source matches RecordSlotSource::Static { fields_ptr, .. }
            &&& blob::slice_at(
                memory,
                fields_ptr + k * layout.size + layout.offsets@["name"@],
            ) == cell->RecordOf_fields@[k].0
            &&& le::word_at(
                memory,
                fields_ptr + k * layout.size + layout.offsets@["idx"@],
            ) == cell->RecordOf_fields@[k].1
        }),
{
    let cell = classify::compound_cells(per_func[f].result_lift)[i];
    let fields = cell->RecordOf_fields@;
    let off = lemma_record_result_fields(maps, layout, per_func, f, i);
    assert(func_records(
        maps.per_cell_fill,
        maps.per_param_count@,
        maps.per_result_count@,
        layout,
        per_func,
        f,
    ));
    lemma_back_fill_rows(maps.per_cell_fill, after, tuples_base, f, 0);
    let row = maps.per_cell_fill.per_result@[f]@;
    assert(row_rebased(row, tuples_base)[i] == Some(rebased(row[i]->0, tuples_base)));
    lemma_fields_in_memory(layout, maps.tuples.bytes@, memory, tuples_base, off, fields, k);
}

proof fn lemma_fields_in_memory(
    layout: RecordLayout,
    bytes: Seq<u8>,
    memory: Seq<u8>,
    base: u32,
    off: nat,
    fields: Seq<(BlobSlice, u32)>,
    k: int,
)
    requires
        tuple_layout_fits(layout),
        tuple_fields_apart(layout),
        0 <= k < fields.len(),
        base + bytes.len() <= memory.len(),
        memory.subrange(base as int, base + bytes.len() as int) == bytes,
        off + field_tuples(layout, fields).len() <= bytes.len(),
        bytes.subrange(off as int, (off + field_tuples(layout, fields).len()) as int)
            == field_tuples(layout, fields),
    ensures
        blob::slice_at(
            memory,
            base + off + k * layout.size + layout.offsets@[RECORD_FIELD_TUPLE_NAME@],
        ) == fields[k].0,
        le::word_at(
            memory,
            base + off + k * layout.size + layout.offsets@[RECORD_FIELD_TUPLE_IDX@],
        ) == fields[k].1,
{
    let own = field_tuples(layout, fields);
    let start = base + off as int;
    let end = start + own.len();
    assert(memory.subrange(start, end) =~= bytes.subrange(off as int, (off + own.len()) as int));
    lemma_field_reads_back(layout, fields, k);
    let at = k * layout.size;
    assert((k + 1) * layout.size == at + layout.size) by (nonlinear_arith)
        requires
            at == k * layout.size,
    ;
    let name_off = at + layout.offsets@[RECORD_FIELD_TUPLE_NAME@];
    let idx_off = at + layout.offsets@[RECORD_FIELD_TUPLE_IDX@];
    le::lemma_word_at_subrange(memory, start, end, name_off);
    le::lemma_word_at_subrange(memory, start, end, name_off + 4);
    le::lemma_word_at_subrange(memory, start, end, idx_off);
}

} // verus!
