//! Enum info: a data segment with one entry per case, which names the type and
//! the case. A cell points at the range of its own cases.

use super::{SideTableBlob, INFO_TYPE_NAME};
use crate::abi::{BlobSlice, RecordLayout};
use crate::blob;
use crate::blob::RecordWriter;
use crate::classify::{FuncClassified, ParamLift, ResultLift, ResultSource};
use crate::le;
use crate::plan::{Cell, LiftPlan};
use crate::reloc::{Segment, SymRef, SymbolId};
use vstd::prelude::*;

verus! {

/// Field of an entry that names the case.
pub const ENUM_INFO_CASE_NAME: &'static str = "case-name";

// ─── Enum cases of a plan ────────────────────────────────────────

/// The enum-case cells of a plan, in order, those of list elements at the place
/// of their list.
pub open spec fn enum_cases(plan: LiftPlan) -> Seq<Cell>
    decreases plan, plan.cells@.len() + 1,
{
    enum_cases_upto(plan, plan.cells@.len())
}

/// The enum-case cells among the first `n` cells of a plan.
pub open spec fn enum_cases_upto(plan: LiftPlan, n: nat) -> Seq<Cell>
    decreases plan, n,
{
    if n == 0 || n > plan.cells@.len() {
        Seq::empty()
    } else {
        let init = enum_cases_upto(plan, (n - 1) as nat);
        match plan.cells@[n - 1] {
            Cell::EnumCase { .. } => init.push(plan.cells@[n - 1]),
            Cell::ListOf { element_plan, .. } => init + enum_cases(*element_plan),
            _ => init,
        }
    }
}

/// The only enum-case cell of a plan, if it has one.
pub open spec fn sole(plan: LiftPlan) -> Option<Cell> {
    if enum_cases(plan).len() == 0 {
        None
    } else {
        Some(enum_cases(plan)[0])
    }
}

/// Adds the plan's enum-case cells to `visited`, in order. Only lists carry
/// plans of their own; those are walked too.
pub fn visit_enum_cases<'a>(plan: &'a LiftPlan, visited: &mut Vec<&'a Cell>)
    ensures
        final(visited)@.unref() == old(visited)@.unref() + enum_cases(*plan),
    decreases plan,
{
    let mut i: usize = 0;
    while i < plan.cells.len()
        invariant
            i <= plan.cells.len(),
            visited@.unref() == old(visited)@.unref() + enum_cases_upto(*plan, i as nat),
        decreases plan.cells.len() - i,
    {
        let ghost before = visited@;
        let cell = &plan.cells[i];
        match cell {
            Cell::EnumCase { .. } => {
                visited.push(cell);
                assert(visited@.unref() =~= before.unref().push(*cell));
            },
            Cell::ListOf { element_plan, .. } => {
                visit_enum_cases(element_plan, visited);
            },
            _ => {},
        }
        i += 1;
        assert(visited@.unref() =~= old(visited)@.unref() + enum_cases_upto(*plan, i as nat));
    }
}

/// The plan's only enum-case cell, if it has one.
pub fn sole_enum_case(plan: &LiftPlan) -> (cell: Option<&Cell>)
    requires
        enum_cases(*plan).len() <= 1,
    ensures
        (match cell {
            Some(c) => Some(*c),
            None => None,
        }) == sole(*plan),
{
    let mut visited: Vec<&Cell> = Vec::new();
    visit_enum_cases(plan, &mut visited);
    assert(visited@.unref() =~= enum_cases(*plan));
    if visited.len() == 0 {
        None
    } else {
        assert(visited@.unref()[0] == *visited@[0]);
        Some(visited[0])
    }
}

// ─── Entries ─────────────────────────────────────────────────────

/// Whether entries of this layout hold a type name and a case name.
pub open spec fn entry_layout_fits(layout: RecordLayout) -> bool {
    &&& layout.offsets@.contains_key(INFO_TYPE_NAME@)
    &&& layout.offsets@[INFO_TYPE_NAME@] + 8 <= layout.size
    &&& layout.offsets@.contains_key(ENUM_INFO_CASE_NAME@)
    &&& layout.offsets@[ENUM_INFO_CASE_NAME@] + 8 <= layout.size
}

/// Whether the two fields of an entry do not overlap.
pub open spec fn entry_fields_apart(layout: RecordLayout) -> bool {
    ||| layout.offsets@[INFO_TYPE_NAME@] + 8 <= layout.offsets@[ENUM_INFO_CASE_NAME@]
    ||| layout.offsets@[ENUM_INFO_CASE_NAME@] + 8 <= layout.offsets@[INFO_TYPE_NAME@]
}

/// The bytes of one entry.
pub open spec fn entry_bytes(layout: RecordLayout, ty_name: BlobSlice, case_name: BlobSlice) -> Seq<
    u8,
> {
    le::overwrite(
        le::overwrite(
            blob::zeros(layout.size as nat),
            layout.offsets@[INFO_TYPE_NAME@] as int,
            blob::slice_bytes(ty_name),
        ),
        layout.offsets@[ENUM_INFO_CASE_NAME@] as int,
        blob::slice_bytes(case_name),
    )
}

/// The entries of one enum's cases, in order.
pub open spec fn case_entries(
    layout: RecordLayout,
    ty_name: BlobSlice,
    case_names: Seq<BlobSlice>,
) -> Seq<u8>
    decreases case_names.len(),
{
    if case_names.len() == 0 {
        Seq::empty()
    } else {
        case_entries(layout, ty_name, case_names.drop_last()) + entry_bytes(
            layout,
            ty_name,
            case_names.last(),
        )
    }
}

/// The entries of an enum-case cell; none where there is no such cell.
pub open spec fn cell_entries(layout: RecordLayout, cell: Option<Cell>) -> Seq<u8> {
    match cell {
        Some(Cell::EnumCase { ty_name, case_names, .. }) => case_entries(
            layout,
            ty_name,
            case_names@,
        ),
        _ => Seq::empty(),
    }
}

/// Whether the entries of `cell` can be written.
pub open spec fn cell_writable(layout: RecordLayout, cell: Option<Cell>) -> bool {
    (cell matches Some(Cell::EnumCase { case_names, .. }) && case_names@.len() > 0)
        ==> entry_layout_fits(layout)
}

/// The range that `cell` points at: as many entries as it has cases, from `off`
/// on.
pub open spec fn cell_range(cell: Option<Cell>, segment_id: SymbolId, off: nat) -> Option<SymRef> {
    match cell {
        Some(Cell::EnumCase { case_names, .. }) => Some(
            SymRef { target: segment_id, off: off as u32, len: case_names@.len() as u32 },
        ),
        _ => None,
    }
}

/// Appends one entry per case of `cell`, if there is one, and returns their
/// range.
pub fn append_entries(
    blob: &mut Vec<u8>,
    entry_layout: &RecordLayout,
    segment_id: SymbolId,
    cell: Option<&Cell>,
) -> (range: Option<SymRef>)
    requires
        cell is Some ==> cell->0 is EnumCase,
        cell is Some ==> cell_writable(*entry_layout, Some(*cell->0)),
    ensures
        (match cell {
            Some(c) => {
                &&& final(blob)@ == old(blob)@ + cell_entries(*entry_layout, Some(*c))
                &&& range == cell_range(Some(*c), segment_id, old(blob)@.len())
            },
            None => final(blob)@ == old(blob)@ && range is None,
        }),
{
    match cell {
        Some(Cell::EnumCase { ty_name, case_names, .. }) => {
            let blob_off = blob.len() as u32;
            let len = case_names.len() as u32;
            let mut d: usize = 0;
            assert(case_names@.take(0) =~= Seq::empty());
            while d < case_names.len()
                invariant
                    d <= case_names.len(),
                    case_names@.len() > 0 ==> entry_layout_fits(*entry_layout),
                    blob@ == old(blob)@ + case_entries(
                        *entry_layout,
                        *ty_name,
                        case_names@.take(d as int),
                    ),
                decreases case_names.len() - d,
            {
                let ghost before = blob@;
                let case_name = case_names[d];
                let entry = RecordWriter::extend_zero(blob, entry_layout);
                entry.write_slice(blob.as_mut_slice(), INFO_TYPE_NAME, *ty_name);
                entry.write_slice(blob.as_mut_slice(), ENUM_INFO_CASE_NAME, case_name);
                proof {
                    let zeroed = blob::zeros(entry_layout.size as nat);
                    let type_off = entry_layout.offsets@[INFO_TYPE_NAME@] as int;
                    let case_off = entry_layout.offsets@[ENUM_INFO_CASE_NAME@] as int;
                    let typed = le::overwrite(zeroed, type_off, blob::slice_bytes(*ty_name));
                    le::lemma_overwrite_suffix(
                        before,
                        zeroed,
                        type_off,
                        blob::slice_bytes(*ty_name),
                    );
                    le::lemma_overwrite_suffix(
                        before,
                        typed,
                        case_off,
                        blob::slice_bytes(case_name),
                    );
                    assert(case_names@.take(d + 1).drop_last() =~= case_names@.take(d as int));
                }
                d += 1;
                assert(blob@ =~= old(blob)@ + case_entries(
                    *entry_layout,
                    *ty_name,
                    case_names@.take(d as int),
                ));
            }
            assert(case_names@.take(d as int) =~= case_names@);
            Some(SymRef { target: segment_id, off: blob_off, len })
        },
        Some(_) => vstd::pervasive::unreached(),
        None => None,
    }
}

// ─── Table ───────────────────────────────────────────────────────

/// The enum-case cell of a result: the only one of its plan, or the direct
/// result itself.
pub open spec fn result_sole(result: Option<ResultLift>) -> Option<Cell> {
    match result {
        Some(ResultLift { source: ResultSource::Compound(c) }) => sole(c.plan),
        Some(ResultLift { source: ResultSource::Direct(cell) }) => if cell is EnumCase {
            Some(cell)
        } else {
            None
        },
        None => None,
    }
}

/// The entries of all parameters, in order.
pub open spec fn param_entries(layout: RecordLayout, params: Seq<ParamLift>) -> Seq<u8>
    decreases params.len(),
{
    if params.len() == 0 {
        Seq::empty()
    } else {
        param_entries(layout, params.drop_last()) + cell_entries(layout, sole(params.last().plan))
    }
}

/// The entries of all functions: per function those of its parameters, then
/// those of its result.
pub open spec fn func_entries(layout: RecordLayout, per_func: Seq<FuncClassified>) -> Seq<u8>
    decreases per_func.len(),
{
    if per_func.len() == 0 {
        Seq::empty()
    } else {
        func_entries(layout, per_func.drop_last()) + param_entries(
            layout,
            per_func.last().params@,
        ) + cell_entries(layout, result_sole(per_func.last().result_lift))
    }
}

/// Where the entries of parameter `p` of function `f` start.
pub open spec fn param_start(
    layout: RecordLayout,
    per_func: Seq<FuncClassified>,
    f: int,
    p: int,
) -> nat {
    func_entries(layout, per_func.take(f)).len() + param_entries(
        layout,
        per_func[f].params@.take(p),
    ).len()
}

/// Where the entries of the result of function `f` start.
pub open spec fn result_start(layout: RecordLayout, per_func: Seq<FuncClassified>, f: int) -> nat {
    func_entries(layout, per_func.take(f)).len() + param_entries(
        layout,
        per_func[f].params@,
    ).len()
}

/// Whether a plan has at most one enum-case cell, whose entries can be written.
/// A cell's payload is its case, not an offset, so two enums would collide in
/// one range.
pub open spec fn plan_buildable(layout: RecordLayout, plan: LiftPlan) -> bool {
    &&& enum_cases(plan).len() <= 1
    &&& cell_writable(layout, sole(plan))
}

/// Whether [`plan_buildable`] holds of each parameter and result.
pub open spec fn enums_buildable(layout: RecordLayout, per_func: Seq<FuncClassified>) -> bool {
    forall|f: int|
        0 <= f < per_func.len() ==> {
            &&& forall|p: int|
                0 <= p < per_func[f].params@.len() ==> plan_buildable(
                    layout,
                    (#[trigger] per_func[f].params@[p]).plan,
                )
            &&& match (#[trigger] per_func[f]).result_lift {
                Some(ResultLift { source: ResultSource::Compound(c) }) => plan_buildable(
                    layout,
                    c.plan,
                ),
                Some(ResultLift { source: ResultSource::Direct(cell) }) => cell_writable(
                    layout,
                    Some(cell),
                ),
                None => true,
            }
        }
}

/// Whether row `f` of the ranges is that of function `f`.
pub open spec fn func_ranges(
    per_param: Seq<Vec<Option<SymRef>>>,
    per_result: Seq<Option<SymRef>>,
    segment_id: SymbolId,
    layout: RecordLayout,
    per_func: Seq<FuncClassified>,
    f: int,
) -> bool {
    &&& per_param[f]@.len() == per_func[f].params@.len()
    &&& forall|p: int|
        0 <= p < per_param[f]@.len() ==> #[trigger] per_param[f]@[p] == cell_range(
            sole(per_func[f].params@[p].plan),
            segment_id,
            param_start(layout, per_func, f, p),
        )
    &&& per_result[f] == cell_range(
        result_sole(per_func[f].result_lift),
        segment_id,
        result_start(layout, per_func, f),
    )
}

/// Whether the first `n` rows of the ranges, and no others, are there and are
/// those of their functions.
pub open spec fn describes_enums(
    per_param: Seq<Vec<Option<SymRef>>>,
    per_result: Seq<Option<SymRef>>,
    n: nat,
    segment_id: SymbolId,
    layout: RecordLayout,
    per_func: Seq<FuncClassified>,
) -> bool {
    &&& per_param.len() == n
    &&& per_result.len() == n
    &&& forall|f: int|
        0 <= f < n ==> #[trigger] func_ranges(
            per_param,
            per_result,
            segment_id,
            layout,
            per_func,
            f,
        )
}

/// Builds the enum-info segment, and the range of it that each parameter and
/// result points at.
pub fn build_enum_info_blob(
    per_func: &[FuncClassified],
    entry_layout: &RecordLayout,
    segment_id: SymbolId,
) -> (table: SideTableBlob)
    requires
        enums_buildable(*entry_layout, per_func@),
    ensures
        table.segment.id == segment_id,
        table.segment.align == entry_layout.align,
        table.segment.bytes@ == func_entries(*entry_layout, per_func@),
        table.segment.relocs@.len() == 0,
        describes_enums(
            table.per_param@,
            table.per_result@,
            per_func@.len(),
            segment_id,
            *entry_layout,
            per_func@,
        ),
{
    let mut bytes: Vec<u8> = Vec::new();
    let mut per_param: Vec<Vec<Option<SymRef>>> = Vec::new();
    let mut per_result: Vec<Option<SymRef>> = Vec::new();
    let mut f: usize = 0;
    assert(per_func@.take(0) =~= Seq::empty());
    while f < per_func.len()
        invariant
            f <= per_func.len(),
            enums_buildable(*entry_layout, per_func@),
            bytes@ == func_entries(*entry_layout, per_func@.take(f as int)),
            describes_enums(
                per_param@,
                per_result@,
                f as nat,
                segment_id,
                *entry_layout,
                per_func@,
            ),
        decreases per_func.len() - f,
    {
        let fd = &per_func[f];
        let ghost head = func_entries(*entry_layout, per_func@.take(f as int));
        let mut params: Vec<Option<SymRef>> = Vec::new();
        let mut p: usize = 0;
        assert(fd.params@.take(0) =~= Seq::empty());
        assert(head + param_entries(*entry_layout, fd.params@.take(0)) =~= head);
        while p < fd.params.len()
            invariant
                f < per_func.len(),
                *fd == per_func@[f as int],
                enums_buildable(*entry_layout, per_func@),
                head == func_entries(*entry_layout, per_func@.take(f as int)),
                p <= fd.params.len(),
                bytes@ == head + param_entries(*entry_layout, fd.params@.take(p as int)),
                params@.len() == p,
                forall|q: int|
                    0 <= q < p ==> #[trigger] params@[q] == cell_range(
                        sole(per_func@[f as int].params@[q].plan),
                        segment_id,
                        param_start(*entry_layout, per_func@, f as int, q),
                    ),
            decreases fd.params.len() - p,
        {
            assert(per_func@[f as int].params@[p as int] == fd.params@[p as int]);
            let cell = sole_enum_case(&fd.params[p].plan);
            proof {
                lemma_sole_is_enum(fd.params@[p as int].plan);
                assert(fd.params@.take(p + 1).drop_last() =~= fd.params@.take(p as int));
            }
            params.push(append_entries(&mut bytes, entry_layout, segment_id, cell));
            p += 1;
            assert(bytes@ =~= head + param_entries(*entry_layout, fd.params@.take(p as int)));
        }
        assert(fd.params@.take(p as int) =~= fd.params@);
        // A compound result is searched, list elements included. A direct one
        // is the cell itself.
        let result_cell = match &fd.result_lift {
            Some(rl) => match rl.compound() {
                Some(c) => {
                    proof {
                        lemma_sole_is_enum(c.plan);
                    }
                    sole_enum_case(&c.plan)
                },
                None => match &rl.source {
                    ResultSource::Direct(cell) => if matches!(cell, Cell::EnumCase { .. }) {
                        Some(cell)
                    } else {
                        None
                    },
                    ResultSource::Compound(_) => None,
                },
            },
            None => None,
        };
        let ghost before = (per_param@, per_result@);
        per_param.push(params);
        per_result.push(append_entries(&mut bytes, entry_layout, segment_id, result_cell));
        f += 1;
        assert(per_func@.take(f as int).drop_last() =~= per_func@.take(f - 1));
        assert(bytes@ =~= func_entries(*entry_layout, per_func@.take(f as int)));
        assert forall|g: int| 0 <= g < f implies #[trigger] func_ranges(
            per_param@,
            per_result@,
            segment_id,
            *entry_layout,
            per_func@,
            g,
        ) by {
            if g < f - 1 {
                assert(func_ranges(
                    before.0,
                    before.1,
                    segment_id,
                    *entry_layout,
                    per_func@,
                    g,
                ));
            }
        }
    }
    assert(per_func@.take(f as int) =~= per_func@);
    SideTableBlob {
        segment: Segment {
            id: segment_id,
            align: entry_layout.align,
            bytes,
            relocs: Vec::new(),
        },
        per_param,
        per_result,
    }
}

proof fn lemma_sole_is_enum(plan: LiftPlan)
    ensures
        sole(plan) is Some ==> sole(plan)->0 is EnumCase,
{
    if sole(plan) is Some {
        lemma_enum_cases_upto(plan, plan.cells@.len(), 0);
    }
}

proof fn lemma_enum_cases_upto(plan: LiftPlan, n: nat, k: int)
    requires
        0 <= k < enum_cases_upto(plan, n).len(),
    ensures
        enum_cases_upto(plan, n)[k] is EnumCase,
    decreases plan, n,
{
    reveal_with_fuel(enum_cases_upto, 2);
    reveal_with_fuel(enum_cases, 2);
    let init = enum_cases_upto(plan, (n - 1) as nat);
    if k < init.len() {
        lemma_enum_cases_upto(plan, (n - 1) as nat, k);
    } else if let Cell::ListOf { element_plan, .. } = plan.cells@[n - 1] {
        lemma_enum_cases_upto(*element_plan, element_plan.cells@.len(), k - init.len());
    }
}

// ─── Laws ────────────────────────────────────────────────────────

/// Each case of an enum reads back from its entry: the type's name and its
/// own.
pub proof fn lemma_case_reads_back(
    layout: RecordLayout,
    ty_name: BlobSlice,
    case_names: Seq<BlobSlice>,
    d: int,
)
    requires
        entry_layout_fits(layout),
        entry_fields_apart(layout),
        0 <= d < case_names.len(),
    ensures
        case_entries(layout, ty_name, case_names).len() == case_names.len() * layout.size,
        0 <= d * layout.size,
        (d + 1) * layout.size <= case_entries(layout, ty_name, case_names).len(),
        blob::slice_at(
            case_entries(layout, ty_name, case_names),
            d * layout.size + layout.offsets@[INFO_TYPE_NAME@],
        ) == ty_name,
        blob::slice_at(
            case_entries(layout, ty_name, case_names),
            d * layout.size + layout.offsets@[ENUM_INFO_CASE_NAME@],
        ) == case_names[d],
    decreases case_names.len(),
{
    let type_off = layout.offsets@[INFO_TYPE_NAME@] as int;
    let case_off = layout.offsets@[ENUM_INFO_CASE_NAME@] as int;
    let init = case_entries(layout, ty_name, case_names.drop_last());
    let entry = entry_bytes(layout, ty_name, case_names.last());
    let n = case_names.len() as int;
    let size = layout.size as int;
    lemma_case_entries_len(layout, ty_name, case_names);
    lemma_case_entries_len(layout, ty_name, case_names.drop_last());
    assert(0 <= d * size && (d + 1) * size == d * size + size && (d + 1) * size <= n * size)
        by (nonlinear_arith)
        requires
            0 <= d < n,
            0 <= size,
    ;
    if d == n - 1 {
        let zeroed = blob::zeros(layout.size as nat);
        let typed = le::overwrite(zeroed, type_off, blob::slice_bytes(ty_name));
        blob::lemma_slice_reads_back(zeroed, type_off, ty_name);
        blob::lemma_slice_reads_back(typed, case_off, case_names[d]);
        let case_bytes = blob::slice_bytes(case_names[d]);
        le::lemma_word_at_frame(typed, case_off, case_bytes, type_off);
        le::lemma_word_at_frame(typed, case_off, case_bytes, type_off + 4);
        le::lemma_word_at_concat(init, entry, type_off);
        le::lemma_word_at_concat(init, entry, type_off + 4);
        le::lemma_word_at_concat(init, entry, case_off);
        le::lemma_word_at_concat(init, entry, case_off + 4);
    } else {
        lemma_case_reads_back(layout, ty_name, case_names.drop_last(), d);
        le::lemma_word_at_concat(init, entry, d * size + type_off);
        le::lemma_word_at_concat(init, entry, d * size + type_off + 4);
        le::lemma_word_at_concat(init, entry, d * size + case_off);
        le::lemma_word_at_concat(init, entry, d * size + case_off + 4);
    }
}

proof fn lemma_case_entries_len(
    layout: RecordLayout,
    ty_name: BlobSlice,
    case_names: Seq<BlobSlice>,
)
    ensures
        case_entries(layout, ty_name, case_names).len() == case_names.len() * layout.size,
    decreases case_names.len(),
{
    if case_names.len() > 0 {
        lemma_case_entries_len(layout, ty_name, case_names.drop_last());
        let n = case_names.len() as int;
        let size = layout.size as int;
        assert(n * size == (n - 1) * size + size) by (nonlinear_arith);
    }
}

/// The range of a parameter holds the entries of its own enum.
pub proof fn lemma_enum_param_range(
    layout: RecordLayout,
    per_func: Seq<FuncClassified>,
    f: int,
    p: int,
)
    requires
        0 <= f < per_func.len(),
        0 <= p < per_func[f].params@.len(),
    ensures
        param_start(layout, per_func, f, p) + cell_entries(
            layout,
            sole(per_func[f].params@[p].plan),
        ).len() <= func_entries(layout, per_func).len(),
        func_entries(layout, per_func).subrange(
            param_start(layout, per_func, f, p) as int,
            (param_start(layout, per_func, f, p) + cell_entries(
                layout,
                sole(per_func[f].params@[p].plan),
            ).len()) as int,
        ) == cell_entries(layout, sole(per_func[f].params@[p].plan)),
{
    let own = cell_entries(layout, sole(per_func[f].params@[p].plan));
    let head = func_entries(layout, per_func.take(f));
    let before = param_entries(layout, per_func[f].params@.take(p));
    let after = lemma_param_entries_split(layout, per_func[f].params@, p);
    let rest = lemma_func_entries_split(layout, per_func, f);
    let result = cell_entries(layout, result_sole(per_func[f].result_lift));
    lemma_middle(head, before, own, after, result + rest);
    assert(head + (before + own + after) + result + rest =~= head + (before + own + after) + (result
        + rest));
}

proof fn lemma_middle(a: Seq<u8>, b: Seq<u8>, own: Seq<u8>, c: Seq<u8>, d: Seq<u8>)
    ensures
        (a + (b + own + c) + d).subrange(
            (a.len() + b.len()) as int,
            (a.len() + b.len() + own.len()) as int,
        ) == own,
{
    assert((a + (b + own + c) + d).subrange(
        (a.len() + b.len()) as int,
        (a.len() + b.len() + own.len()) as int,
    ) =~= own);
}

/// The range of a result holds the entries of its own enum.
pub proof fn lemma_enum_result_range(layout: RecordLayout, per_func: Seq<FuncClassified>, f: int)
    requires
        0 <= f < per_func.len(),
    ensures
        result_start(layout, per_func, f) + cell_entries(
            layout,
            result_sole(per_func[f].result_lift),
        ).len() <= func_entries(layout, per_func).len(),
        func_entries(layout, per_func).subrange(
            result_start(layout, per_func, f) as int,
            (result_start(layout, per_func, f) + cell_entries(
                layout,
                result_sole(per_func[f].result_lift),
            ).len()) as int,
        ) == cell_entries(layout, result_sole(per_func[f].result_lift)),
{
    let own = cell_entries(layout, result_sole(per_func[f].result_lift));
    let head = func_entries(layout, per_func.take(f)) + param_entries(
        layout,
        per_func[f].params@,
    );
    let rest = lemma_func_entries_split(layout, per_func, f);
    assert(func_entries(layout, per_func) =~= head + own + rest);
    assert(func_entries(layout, per_func).subrange(
        head.len() as int,
        (head.len() + own.len()) as int,
    ) =~= own);
}

/// A case selects its entry: `d` entries past the start of its parameter's
/// range stand the names of the enum and of case `d`.
pub proof fn lemma_enum_param_case(
    layout: RecordLayout,
    per_func: Seq<FuncClassified>,
    f: int,
    p: int,
    d: int,
)
    requires
        entry_layout_fits(layout),
        entry_fields_apart(layout),
        0 <= f < per_func.len(),
        0 <= p < per_func[f].params@.len(),
        sole(per_func[f].params@[p].plan) matches Some(cell) && cell is EnumCase && 0 <= d
            < cell->EnumCase_case_names@.len(),
    ensures
        blob::slice_at(
            func_entries(layout, per_func),
            param_start(layout, per_func, f, p) + d * layout.size
                + layout.offsets@[INFO_TYPE_NAME@],
        ) == sole(per_func[f].params@[p].plan)->0->EnumCase_ty_name,
        blob::slice_at(
            func_entries(layout, per_func),
            param_start(layout, per_func, f, p) + d * layout.size
                + layout.offsets@[ENUM_INFO_CASE_NAME@],
        ) == sole(per_func[f].params@[p].plan)->0->EnumCase_case_names@[d],
{
    lemma_enum_param_range(layout, per_func, f, p);
    lemma_case_within(
        layout,
        func_entries(layout, per_func),
        param_start(layout, per_func, f, p),
        sole(per_func[f].params@[p].plan)->0,
        d,
    );
}

/// A case selects its entry: `d` entries past the start of its result's range
/// stand the names of the enum and of case `d`.
pub proof fn lemma_enum_result_case(
    layout: RecordLayout,
    per_func: Seq<FuncClassified>,
    f: int,
    d: int,
)
    requires
        entry_layout_fits(layout),
        entry_fields_apart(layout),
        0 <= f < per_func.len(),
        result_sole(per_func[f].result_lift) matches Some(cell) && cell is EnumCase && 0 <= d
            < cell->EnumCase_case_names@.len(),
    ensures
        blob::slice_at(
            func_entries(layout, per_func),
            result_start(layout, per_func, f) + d * layout.size + layout.offsets@[INFO_TYPE_NAME@],
        ) == result_sole(per_func[f].result_lift)->0->EnumCase_ty_name,
        blob::slice_at(
            func_entries(layout, per_func),
            result_start(layout, per_func, f) + d * layout.size
                + layout.offsets@[ENUM_INFO_CASE_NAME@],
        ) == result_sole(per_func[f].result_lift)->0->EnumCase_case_names@[d],
{
    lemma_enum_result_range(layout, per_func, f);
    lemma_case_within(
        layout,
        func_entries(layout, per_func),
        result_start(layout, per_func, f),
        result_sole(per_func[f].result_lift)->0,
        d,
    );
}

proof fn lemma_case_within(layout: RecordLayout, bytes: Seq<u8>, start: nat, cell: Cell, d: int)
    requires
        entry_layout_fits(layout),
        entry_fields_apart(layout),
        cell is EnumCase,
        0 <= d < cell->EnumCase_case_names@.len(),
        start + cell_entries(layout, Some(cell)).len() <= bytes.len(),
        bytes.subrange(
            start as int,
            (start + cell_entries(layout, Some(cell)).len()) as int,
        ) == cell_entries(layout, Some(cell)),
    ensures
        blob::slice_at(bytes, start + d * layout.size + layout.offsets@[INFO_TYPE_NAME@])
            == cell->EnumCase_ty_name,
        blob::slice_at(bytes, start + d * layout.size + layout.offsets@[ENUM_INFO_CASE_NAME@])
            == cell->EnumCase_case_names@[d],
{
    let own = cell_entries(layout, Some(cell));
    let at = d * layout.size;
    let end = start + own.len();
    lemma_case_reads_back(layout, cell->EnumCase_ty_name, cell->EnumCase_case_names@, d);
    assert((d + 1) * layout.size == at + layout.size) by (nonlinear_arith)
        requires
            at == d * layout.size,
    ;
    let type_off = at + layout.offsets@[INFO_TYPE_NAME@];
    let case_off = at + layout.offsets@[ENUM_INFO_CASE_NAME@];
    le::lemma_word_at_subrange(bytes, start as int, end as int, type_off);
    le::lemma_word_at_subrange(bytes, start as int, end as int, type_off + 4);
    le::lemma_word_at_subrange(bytes, start as int, end as int, case_off);
    le::lemma_word_at_subrange(bytes, start as int, end as int, case_off + 4);
}

proof fn lemma_func_entries_split(
    layout: RecordLayout,
    per_func: Seq<FuncClassified>,
    f: int,
) -> (rest: Seq<u8>)
    requires
        0 <= f < per_func.len(),
    ensures
        func_entries(layout, per_func) == func_entries(layout, per_func.take(f)) + param_entries(
            layout,
            per_func[f].params@,
        ) + cell_entries(layout, result_sole(per_func[f].result_lift)) + rest,
    decreases per_func.len(),
{
    let init = per_func.drop_last();
    let own = param_entries(layout, per_func[f].params@) + cell_entries(
        layout,
        result_sole(per_func[f].result_lift),
    );
    if f == per_func.len() - 1 {
        assert(per_func.take(f) =~= init);
        let rest = Seq::<u8>::empty();
        assert(func_entries(layout, per_func) =~= func_entries(layout, init) + own + rest);
        rest
    } else {
        let rest = lemma_func_entries_split(layout, init, f);
        assert(init.take(f) =~= per_func.take(f));
        let longer = rest + param_entries(layout, per_func.last().params@) + cell_entries(
            layout,
            result_sole(per_func.last().result_lift),
        );
        assert(func_entries(layout, per_func) =~= func_entries(layout, per_func.take(f)) + own
            + longer);
        longer
    }
}

proof fn lemma_param_entries_split(
    layout: RecordLayout,
    params: Seq<ParamLift>,
    p: int,
) -> (rest: Seq<u8>)
    requires
        0 <= p < params.len(),
    ensures
        param_entries(layout, params) == param_entries(layout, params.take(p)) + cell_entries(
            layout,
            sole(params[p].plan),
        ) + rest,
    decreases params.len(),
{
    let init = params.drop_last();
    let own = cell_entries(layout, sole(params[p].plan));
    if p == params.len() - 1 {
        assert(params.take(p) =~= init);
        let rest = Seq::<u8>::empty();
        assert(param_entries(layout, params) =~= param_entries(layout, init) + own + rest);
        rest
    } else {
        let rest = lemma_param_entries_split(layout, init, p);
        assert(init.take(p) =~= params.take(p));
        let longer = rest + cell_entries(layout, sole(params.last().plan));
        assert(param_entries(layout, params) =~= param_entries(layout, params.take(p)) + own
            + longer);
        longer
    }
}

/// The enum-case cells of a plan are those among its cells, in order, with
/// those of a list's elements at the place of the list.
pub proof fn lemma_enum_cases_flat(plan: LiftPlan)
    ensures
        enum_cases(plan) == plan.cells@.map_values(
            |cell: Cell|
                match cell {
                    Cell::EnumCase { .. } => seq![cell],
                    Cell::ListOf { element_plan, .. } => enum_cases(*element_plan),
                    _ => Seq::empty(),
                },
        ).flatten(),
{
    reveal_with_fuel(enum_cases, 2);
    lemma_enum_cases_upto_flat(plan, plan.cells@.len());
    assert(plan.cells@.take(plan.cells@.len() as int) =~= plan.cells@);
}

proof fn lemma_enum_cases_upto_flat(plan: LiftPlan, n: nat)
    requires
        n <= plan.cells@.len(),
    ensures
        enum_cases_upto(plan, n) == plan.cells@.take(n as int).map_values(
            |cell: Cell|
                match cell {
                    Cell::EnumCase { .. } => seq![cell],
                    Cell::ListOf { element_plan, .. } => enum_cases(*element_plan),
                    _ => Seq::empty(),
                },
        ).flatten(),
    decreases n,
{
    reveal_with_fuel(enum_cases_upto, 2);
    let own = |cell: Cell|
        match cell {
            Cell::EnumCase { .. } => seq![cell],
            Cell::ListOf { element_plan, .. } => enum_cases(*element_plan),
            _ => Seq::empty(),
        };
    let parts = plan.cells@.take(n as int).map_values(own);
    parts.lemma_flatten_and_flatten_alt_are_equivalent();
    if n > 0 {
        let init = plan.cells@.take(n - 1);
        lemma_enum_cases_upto_flat(plan, (n - 1) as nat);
        init.map_values(own).lemma_flatten_and_flatten_alt_are_equivalent();
        assert(parts.drop_last() =~= init.map_values(own));
        assert(enum_cases_upto(plan, n) =~= enum_cases_upto(plan, (n - 1) as nat) + own(
            plan.cells@[n - 1],
        ));
    }
}

/// Where a plan has one enum-case cell, that is the one found; where it has
/// none, none is.
pub proof fn lemma_sole_found(plan: LiftPlan)
    requires
        enum_cases(plan).len() <= 1,
    ensures
        match sole(plan) {
            Some(cell) => enum_cases(plan) == seq![cell] && cell is EnumCase,
            None => enum_cases(plan) == Seq::<Cell>::empty(),
        },
{
    lemma_sole_is_enum(plan);
    if sole(plan) is Some {
        assert(enum_cases(plan) =~= seq![sole(plan)->0]);
    }
}

/// Entries follow one another: function by function, those of each parameter's
/// enum, then those of the result's, one entry per case, in order.
pub proof fn lemma_func_entries_flat(layout: RecordLayout, per_func: Seq<FuncClassified>)
    ensures
        func_entries(layout, per_func) == per_func.map_values(
            |fd: FuncClassified|
                fd.params@.map_values(
                    |p: ParamLift| cell_entries(layout, sole(p.plan)),
                ).flatten() + cell_entries(
                    layout,
                    match fd.result_lift {
                        Some(ResultLift { source: ResultSource::Compound(c) }) => sole(c.plan),
                        Some(ResultLift { source: ResultSource::Direct(cell) }) => Some(cell),
                        None => None,
                    },
                ),
        ).flatten(),
    decreases per_func.len(),
{
    let own = |fd: FuncClassified|
        fd.params@.map_values(|p: ParamLift| cell_entries(layout, sole(p.plan))).flatten()
            + cell_entries(
            layout,
            match fd.result_lift {
                Some(ResultLift { source: ResultSource::Compound(c) }) => sole(c.plan),
                Some(ResultLift { source: ResultSource::Direct(cell) }) => Some(cell),
                None => None,
            },
        );
    let parts = per_func.map_values(own);
    parts.lemma_flatten_and_flatten_alt_are_equivalent();
    if per_func.len() > 0 {
        let init = per_func.drop_last();
        lemma_func_entries_flat(layout, init);
        lemma_param_entries_flat(layout, per_func.last().params@);
        init.map_values(own).lemma_flatten_and_flatten_alt_are_equivalent();
        assert(parts.drop_last() =~= init.map_values(own));
        assert(func_entries(layout, per_func) =~= func_entries(layout, init) + own(
            per_func.last(),
        ));
    }
}

/// The entries of parameters follow one another.
pub proof fn lemma_param_entries_flat(layout: RecordLayout, params: Seq<ParamLift>)
    ensures
        param_entries(layout, params) == params.map_values(
            |p: ParamLift| cell_entries(layout, sole(p.plan)),
        ).flatten(),
    decreases params.len(),
{
    let own = |p: ParamLift| cell_entries(layout, sole(p.plan));
    let parts = params.map_values(own);
    parts.lemma_flatten_and_flatten_alt_are_equivalent();
    if params.len() > 0 {
        let init = params.drop_last();
        lemma_param_entries_flat(layout, init);
        init.map_values(own).lemma_flatten_and_flatten_alt_are_equivalent();
        assert(parts.drop_last() =~= init.map_values(own));
    }
}

/// An entry takes up the size of its layout, and is zero but for its two
/// fields.
pub proof fn lemma_entry_padding(
    layout: RecordLayout,
    ty_name: BlobSlice,
    case_name: BlobSlice,
    k: int,
)
    requires
        0 <= k < layout.size,
        !(layout.offsets@["type-name"@] <= k < layout.offsets@["type-name"@] + 8),
        !(layout.offsets@["case-name"@] <= k < layout.offsets@["case-name"@] + 8),
    ensures
        entry_bytes(layout, ty_name, case_name).len() == layout.size,
        entry_bytes(layout, ty_name, case_name)[k] == 0,
{
}

/// A range covers the entries of its own enum and no others: it starts where
/// they do, and its length times the size of an entry is their length. Without
/// an enum there is no range and no entry.
pub proof fn lemma_range_covers(
    layout: RecordLayout,
    cell: Option<Cell>,
    segment_id: SymbolId,
    off: nat,
)
    requires
        off <= u32::MAX,
        cell is Some && cell->0 is EnumCase ==> cell->0->EnumCase_case_names@.len() <= u32::MAX,
    ensures
        match cell_range(cell, segment_id, off) {
            Some(range) => {
                &&& cell is Some && cell->0 is EnumCase
                &&& range.target == segment_id
                &&& range.off == off
                &&& range.len == cell->0->EnumCase_case_names@.len()
                &&& range.len * layout.size == cell_entries(layout, cell).len()
            },
            None => {
                &&& !(cell is Some && cell->0 is EnumCase)
                &&& cell_entries(layout, cell).len() == 0
            },
        },
{
    if let Some(Cell::EnumCase { ty_name, case_names, .. }) = cell {
        lemma_case_entries_len(layout, ty_name, case_names@);
    }
}

/// The range that a parameter gets: none without an enum-case cell; else one
/// that starts after all entries before it and has as many entries as the enum
/// has cases, all within the segment.
pub proof fn lemma_enum_param_served(
    per_param: Seq<Vec<Option<SymRef>>>,
    per_result: Seq<Option<SymRef>>,
    segment_id: SymbolId,
    layout: RecordLayout,
    per_func: Seq<FuncClassified>,
    f: int,
    p: int,
)
    requires
        describes_enums(
            per_param,
            per_result,
            per_func.len(),
            segment_id,
            layout,
            per_func,
        ),
        func_entries(layout, per_func).len() <= u32::MAX,
        0 <= f < per_func.len(),
        0 <= p < per_func[f].params@.len(),
        enum_cases(per_func[f].params@[p].plan).len() <= 1,
        enum_cases(per_func[f].params@[p].plan).len() == 1 ==> enum_cases(
            per_func[f].params@[p].plan,
        )[0]->EnumCase_case_names@.len() <= u32::MAX,
    ensures
        per_param.len() == per_func.len(),
        per_param[f]@.len() == per_func[f].params@.len(),
        match per_param[f]@[p] {
            Some(range) => {
                let found = enum_cases(per_func[f].params@[p].plan);
                &&& found.len() == 1
                &&& found[0] is EnumCase
                &&& range.target == segment_id
                &&& range.off == func_entries(layout, per_func.take(f)).len() + param_entries(
                    layout,
                    per_func[f].params@.take(p),
                ).len()
                &&& range.len == found[0]->EnumCase_case_names@.len()
                &&& range.off + range.len * layout.size <= func_entries(layout, per_func).len()
            },
            None => enum_cases(per_func[f].params@[p].plan).len() == 0,
        },
{
    let plan = per_func[f].params@[p].plan;
    let start = param_start(layout, per_func, f, p);
    lemma_sole_found(plan);
    assert(func_ranges(per_param, per_result, segment_id, layout, per_func, f));
    assert(per_param[f]@[p] == cell_range(sole(plan), segment_id, start));
    lemma_enum_param_range(layout, per_func, f, p);
    if sole(plan) is Some {
        assert(enum_cases(plan)[0] == sole(plan)->0);
    }
    lemma_range_covers(layout, sole(plan), segment_id, start);
}

/// Entry `d` of the range that a parameter gets reads back as the names of its
/// enum and of case `d`, and each case has an entry in the range.
pub proof fn lemma_enum_param_entry(
    per_param: Seq<Vec<Option<SymRef>>>,
    per_result: Seq<Option<SymRef>>,
    segment_id: SymbolId,
    layout: RecordLayout,
    per_func: Seq<FuncClassified>,
    f: int,
    p: int,
    range: SymRef,
    d: int,
)
    requires
        describes_enums(
            per_param,
            per_result,
            per_func.len(),
            segment_id,
            layout,
            per_func,
        ),
        entry_layout_fits(layout),
        entry_fields_apart(layout),
        func_entries(layout, per_func).len() <= u32::MAX,
        0 <= f < per_func.len(),
        0 <= p < per_func[f].params@.len(),
        enum_cases(per_func[f].params@[p].plan).len() == 1,
        enum_cases(per_func[f].params@[p].plan)[0]->EnumCase_case_names@.len() <= u32::MAX,
        per_param[f]@[p] == Some(range),
        0 <= d < enum_cases(per_func[f].params@[p].plan)[0]->EnumCase_case_names@.len(),
    ensures
        d < range.len,
        blob::slice_at(
            func_entries(layout, per_func),
            range.off + d * layout.size + layout.offsets@["type-name"@],
        ) == enum_cases(per_func[f].params@[p].plan)[0]->EnumCase_ty_name,
        blob::slice_at(
            func_entries(layout, per_func),
            range.off + d * layout.size + layout.offsets@["case-name"@],
        ) == enum_cases(per_func[f].params@[p].plan)[0]->EnumCase_case_names@[d],
{
    lemma_enum_param_served(per_param, per_result, segment_id, layout, per_func, f, p);
    assert(range.off == param_start(layout, per_func, f, p));
    lemma_sole_found(per_func[f].params@[p].plan);
    lemma_enum_param_case(layout, per_func, f, p, d);
}

/// The enum-case cells of a result: those of a compound result's plan, or the
/// direct result itself if it is one.
pub open spec fn result_enum_cases(result: Option<ResultLift>) -> Seq<Cell> {
    match result {
        Some(ResultLift { source: ResultSource::Compound(c) }) => enum_cases(c.plan),
        Some(ResultLift { source: ResultSource::Direct(cell) }) => if cell is EnumCase {
            seq![cell]
        } else {
            Seq::empty()
        },
        None => Seq::empty(),
    }
}

/// A result's enum-case cells come from its plan, if it has one, and else from
/// its own cell.
pub proof fn lemma_result_enum_cases(result: Option<ResultLift>)
    ensures
        result is None ==> result_enum_cases(result).len() == 0,
        result matches Some(rl) ==> match rl.source {
            ResultSource::Compound(c) => result_enum_cases(result) == enum_cases(c.plan),
            ResultSource::Direct(cell) => result_enum_cases(result) == seq![cell].filter(
                |cell: Cell| cell is EnumCase,
            ),
        },
{
    if let Some(ResultLift { source: ResultSource::Direct(cell) }) = result {
        reveal(Seq::filter);
        assert(seq![cell].drop_last() =~= Seq::<Cell>::empty());
        assert(Seq::<Cell>::empty().filter(|cell: Cell| cell is EnumCase) =~= Seq::empty());
        assert(Seq::<Cell>::empty().push(cell) =~= seq![cell]);
    }
}

proof fn lemma_result_sole_found(result: Option<ResultLift>)
    requires
        result_enum_cases(result).len() <= 1,
    ensures
        match result_sole(result) {
            Some(cell) => result_enum_cases(result) == seq![cell] && cell is EnumCase,
            None => result_enum_cases(result) == Seq::<Cell>::empty(),
        },
{
    if let Some(ResultLift { source: ResultSource::Compound(c) }) = result {
        lemma_sole_found(c.plan);
    }
}

/// The range that a result gets, as for parameters.
pub proof fn lemma_enum_result_served(
    per_param: Seq<Vec<Option<SymRef>>>,
    per_result: Seq<Option<SymRef>>,
    segment_id: SymbolId,
    layout: RecordLayout,
    per_func: Seq<FuncClassified>,
    f: int,
)
    requires
        describes_enums(
            per_param,
            per_result,
            per_func.len(),
            segment_id,
            layout,
            per_func,
        ),
        func_entries(layout, per_func).len() <= u32::MAX,
        0 <= f < per_func.len(),
        result_enum_cases(per_func[f].result_lift).len() <= 1,
        result_enum_cases(per_func[f].result_lift).len() == 1 ==> result_enum_cases(
            per_func[f].result_lift,
        )[0]->EnumCase_case_names@.len() <= u32::MAX,
    ensures
        per_result.len() == per_func.len(),
        match per_result[f] {
            Some(range) => {
                let found = result_enum_cases(per_func[f].result_lift);
                &&& found.len() == 1
                &&& found[0] is EnumCase
                &&& range.target == segment_id
                &&& range.off == func_entries(layout, per_func.take(f)).len() + param_entries(
                    layout,
                    per_func[f].params@,
                ).len()
                &&& range.len == found[0]->EnumCase_case_names@.len()
                &&& range.off + range.len * layout.size <= func_entries(layout, per_func).len()
            },
            None => result_enum_cases(per_func[f].result_lift).len() == 0,
        },
{
    let result = result_sole(per_func[f].result_lift);
    let start = result_start(layout, per_func, f);
    lemma_result_sole_found(per_func[f].result_lift);
    assert(func_ranges(per_param, per_result, segment_id, layout, per_func, f));
    lemma_enum_result_range(layout, per_func, f);
    if result is Some {
        assert(result_enum_cases(per_func[f].result_lift)[0] == result->0);
    }
    lemma_range_covers(layout, result, segment_id, start);
}

/// Entry `d` of the range that a result gets reads back as the names of its
/// enum and of case `d`, and each case has an entry in the range.
pub proof fn lemma_enum_result_entry(
    per_param: Seq<Vec<Option<SymRef>>>,
    per_result: Seq<Option<SymRef>>,
    segment_id: SymbolId,
    layout: RecordLayout,
    per_func: Seq<FuncClassified>,
    f: int,
    range: SymRef,
    d: int,
)
    requires
        describes_enums(
            per_param,
            per_result,
            per_func.len(),
            segment_id,
            layout,
            per_func,
        ),
        entry_layout_fits(layout),
        entry_fields_apart(layout),
        func_entries(layout, per_func).len() <= u32::MAX,
        0 <= f < per_func.len(),
        result_enum_cases(per_func[f].result_lift).len() == 1,
        result_enum_cases(per_func[f].result_lift)[0]->EnumCase_case_names@.len() <= u32::MAX,
        per_result[f] == Some(range),
        0 <= d < result_enum_cases(per_func[f].result_lift)[0]->EnumCase_case_names@.len(),
    ensures
        d < range.len,
        blob::slice_at(
            func_entries(layout, per_func),
            range.off + d * layout.size + layout.offsets@["type-name"@],
        ) == result_enum_cases(per_func[f].result_lift)[0]->EnumCase_ty_name,
        blob::slice_at(
            func_entries(layout, per_func),
            range.off + d * layout.size + layout.offsets@["case-name"@],
        ) == result_enum_cases(per_func[f].result_lift)[0]->EnumCase_case_names@[d],
{
    lemma_enum_result_served(per_param, per_result, segment_id, layout, per_func, f);
    assert(range.off == result_start(layout, per_func, f));
    lemma_result_sole_found(per_func[f].result_lift);
    lemma_enum_result_case(layout, per_func, f, d);
}

} // verus!
