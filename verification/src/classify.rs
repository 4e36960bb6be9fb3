//! Classified functions: one lift plan per parameter, and how the result is
//! lifted; and the order in which side-table builders walk them.

use crate::plan::{Cell, LiftPlan};
use vstd::prelude::*;

verus! {

/// A parameter and its plan.
#[derive(Debug)]
pub struct ParamLift {
    pub plan: LiftPlan,
}

/// A result that is lifted from memory, and its plan.
#[derive(Debug)]
pub struct CompoundResult {
    pub plan: LiftPlan,
}

/// Where a result is lifted from.
#[derive(Debug)]
pub enum ResultSource {
    /// One cell, straight from the flat result.
    Direct(Cell),
    /// A plan's worth of cells, through a return pointer.
    Compound(CompoundResult),
}

/// How a result is lifted.
#[derive(Debug)]
pub struct ResultLift {
    pub source: ResultSource,
}

impl ResultLift {
    /// The compound result, if this is one.
    pub fn compound(&self) -> (compound: Option<&CompoundResult>)
        ensures
            compound == match self.source {
                ResultSource::Compound(c) => Some(&c),
                ResultSource::Direct(_) => None,
            },
    {
        match &self.source {
            ResultSource::Compound(c) => Some(c),
            ResultSource::Direct(_) => None,
        }
    }
}

/// One function of the target interface. A function without a result has no
/// result lift.
#[derive(Debug)]
pub struct FuncClassified {
    pub params: Vec<ParamLift>,
    pub result_lift: Option<ResultLift>,
}

// ─── Walk order ──────────────────────────────────────────────────

/// The cells of all parameters, in order.
pub open spec fn param_cells(params: Seq<ParamLift>) -> Seq<Cell>
    decreases params.len(),
{
    if params.len() == 0 {
        Seq::empty()
    } else {
        param_cells(params.drop_last()) + params.last().plan.cells@
    }
}

/// The cells of a compound result.
pub open spec fn compound_cells(result: Option<ResultLift>) -> Seq<Cell> {
    match result {
        Some(ResultLift { source: ResultSource::Compound(c) }) => c.plan.cells@,
        _ => Seq::empty(),
    }
}

/// The cells of a compound result, or the one cell of a direct result.
pub open spec fn result_cells(result: Option<ResultLift>) -> Seq<Cell> {
    match result {
        Some(ResultLift { source: ResultSource::Compound(c) }) => c.plan.cells@,
        Some(ResultLift { source: ResultSource::Direct(cell) }) => seq![cell],
        None => Seq::empty(),
    }
}

/// The cells of all functions in walk order: per function its parameters'
/// cells, then those of its result.
pub open spec fn walked(per_func: Seq<FuncClassified>) -> Seq<Cell>
    decreases per_func.len(),
{
    if per_func.len() == 0 {
        Seq::empty()
    } else {
        walked(per_func.drop_last()) + param_cells(per_func.last().params@) + result_cells(
            per_func.last().result_lift,
        )
    }
}

/// Like [`walked`], with direct results left out.
pub open spec fn walked_plans(per_func: Seq<FuncClassified>) -> Seq<Cell>
    decreases per_func.len(),
{
    if per_func.len() == 0 {
        Seq::empty()
    } else {
        walked_plans(per_func.drop_last()) + param_cells(per_func.last().params@)
            + compound_cells(per_func.last().result_lift)
    }
}

/// How many of `cells` are of `kind`.
pub open spec fn count(cells: Seq<Cell>, kind: spec_fn(Cell) -> bool) -> nat
    decreases cells.len(),
{
    if cells.len() == 0 {
        0
    } else {
        count(cells.drop_last(), kind) + if kind(cells.last()) {
            1nat
        } else {
            0nat
        }
    }
}

/// How many of the cells before position `i` are of `kind`.
pub open spec fn rank(cells: Seq<Cell>, kind: spec_fn(Cell) -> bool, i: int) -> nat {
    count(cells.take(i), kind)
}

/// How many cells of `kind` the walk meets before those of parameter `p` of
/// function `f`.
pub open spec fn before_param(
    per_func: Seq<FuncClassified>,
    kind: spec_fn(Cell) -> bool,
    f: int,
    p: int,
) -> nat {
    count(walked(per_func.take(f)), kind) + count(param_cells(per_func[f].params@.take(p)), kind)
}

/// How many cells of `kind` the walk meets before those of the result of
/// function `f`.
pub open spec fn before_result(
    per_func: Seq<FuncClassified>,
    kind: spec_fn(Cell) -> bool,
    f: int,
) -> nat {
    count(walked(per_func.take(f)), kind) + count(param_cells(per_func[f].params@), kind)
}

/// Counting goes cell by cell.
pub proof fn lemma_rank_step(cells: Seq<Cell>, kind: spec_fn(Cell) -> bool, i: int)
    requires
        0 <= i < cells.len(),
    ensures
        rank(cells, kind, i + 1) == rank(cells, kind, i) + if kind(cells[i]) {
            1nat
        } else {
            0nat
        },
{
    assert(cells.take(i + 1).drop_last() =~= cells.take(i));
}

/// Ranks do not decrease, and the rank past the end is the count.
pub proof fn lemma_rank_bounds(cells: Seq<Cell>, kind: spec_fn(Cell) -> bool, i: int, j: int)
    requires
        0 <= i <= j <= cells.len(),
    ensures
        rank(cells, kind, i) <= rank(cells, kind, j) <= count(cells, kind),
        rank(cells, kind, cells.len() as int) == count(cells, kind),
        rank(cells, kind, 0) == 0,
    decreases cells.len() - i,
{
    assert(cells.take(cells.len() as int) =~= cells);
    assert(cells.take(0) =~= Seq::empty());
    if i < j {
        lemma_rank_step(cells, kind, i);
        lemma_rank_bounds(cells, kind, i + 1, j);
    } else if j < cells.len() {
        lemma_rank_step(cells, kind, j);
        lemma_rank_bounds(cells, kind, j + 1, j + 1);
    }
}

/// Counts add up over concatenation.
pub proof fn lemma_count_concat(a: Seq<Cell>, b: Seq<Cell>, kind: spec_fn(Cell) -> bool)
    ensures
        count(a + b, kind) == count(a, kind) + count(b, kind),
    decreases b.len(),
{
    if b.len() == 0 {
        assert(a + b =~= a);
    } else {
        assert((a + b).drop_last() =~= a + b.drop_last());
        lemma_count_concat(a, b.drop_last(), kind);
    }
}

/// A direct result counts as its one cell; any other as its plan.
pub proof fn lemma_count_result(result: Option<ResultLift>, kind: spec_fn(Cell) -> bool)
    ensures
        count(result_cells(result), kind) == match result {
            Some(ResultLift { source: ResultSource::Direct(cell) }) => if kind(cell) {
                1nat
            } else {
                0nat
            },
            _ => count(compound_cells(result), kind),
        },
{
    if let Some(ResultLift { source: ResultSource::Direct(cell) }) = result {
        assert(seq![cell].drop_last() =~= Seq::<Cell>::empty());
        assert(count(Seq::<Cell>::empty(), kind) == 0);
    }
}

/// One more parameter adds its cells to the count.
pub proof fn lemma_before_param_step(
    per_func: Seq<FuncClassified>,
    kind: spec_fn(Cell) -> bool,
    f: int,
    p: int,
)
    requires
        0 <= f < per_func.len(),
        0 <= p < per_func[f].params@.len(),
    ensures
        before_param(per_func, kind, f, p + 1) == before_param(per_func, kind, f, p) + count(
            per_func[f].params@[p].plan.cells@,
            kind,
        ),
        before_param(per_func, kind, f, p + 1) <= before_result(per_func, kind, f),
    decreases per_func[f].params@.len() - p,
{
    let params = per_func[f].params@;
    assert(params.take(p + 1).drop_last() =~= params.take(p));
    lemma_count_concat(param_cells(params.take(p)), params[p].plan.cells@, kind);
    if p + 1 < params.len() {
        lemma_before_param_step(per_func, kind, f, p + 1);
    } else {
        assert(params.take(p + 1) =~= params);
    }
}

/// One more function adds its parameters' cells and those of its result.
pub proof fn lemma_walked_step(per_func: Seq<FuncClassified>, kind: spec_fn(Cell) -> bool, f: int)
    requires
        0 <= f < per_func.len(),
    ensures
        before_param(per_func, kind, f, 0) == count(walked(per_func.take(f)), kind),
        before_param(per_func, kind, f, per_func[f].params@.len() as int) == before_result(
            per_func,
            kind,
            f,
        ),
        count(walked(per_func.take(f + 1)), kind) == before_result(per_func, kind, f) + count(
            result_cells(per_func[f].result_lift),
            kind,
        ),
        count(walked(per_func.take(f + 1)), kind) <= count(walked(per_func), kind),
    decreases per_func.len() - f,
{
    let fd = per_func[f];
    assert(fd.params@.take(0) =~= Seq::empty());
    assert(fd.params@.take(fd.params@.len() as int) =~= fd.params@);
    assert(per_func.take(f + 1).drop_last() =~= per_func.take(f));
    let head = walked(per_func.take(f));
    lemma_count_concat(head, param_cells(fd.params@), kind);
    lemma_count_concat(head + param_cells(fd.params@), result_cells(fd.result_lift), kind);
    if f + 1 < per_func.len() {
        lemma_walked_step(per_func, kind, f + 1);
    } else {
        assert(per_func.take(f + 1) =~= per_func);
    }
}

/// Of two cells of a kind, the later one has the higher rank.
pub proof fn lemma_rank_distinct(cells: Seq<Cell>, kind: spec_fn(Cell) -> bool, i: int, j: int)
    requires
        0 <= i < j < cells.len(),
        kind(cells[i]),
    ensures
        rank(cells, kind, i) < rank(cells, kind, j),
{
    lemma_rank_step(cells, kind, i);
    lemma_rank_bounds(cells, kind, i + 1, j);
}

/// Ranks number the cells of a kind without gaps: each number below the count
/// is the rank of one of them.
pub proof fn lemma_rank_onto(cells: Seq<Cell>, kind: spec_fn(Cell) -> bool, k: nat) -> (i: int)
    requires
        k < count(cells, kind),
    ensures
        0 <= i < cells.len(),
        kind(cells[i]),
        rank(cells, kind, i) == k,
    decreases cells.len(),
{
    let init = cells.drop_last();
    let last = cells.len() - 1;
    assert(cells.take(last) =~= init);
    if kind(cells.last()) && k == count(init, kind) {
        last
    } else {
        let i = lemma_rank_onto(init, kind, k);
        assert(init.take(i) =~= cells.take(i));
        i
    }
}

/// Where the cells of parameter `p` of function `f` start in the walk.
pub open spec fn param_position(per_func: Seq<FuncClassified>, f: int, p: int) -> nat {
    walked(per_func.take(f)).len() + param_cells(per_func[f].params@.take(p)).len()
}

/// Where the cells of the result of function `f` start in the walk.
pub open spec fn result_position(per_func: Seq<FuncClassified>, f: int) -> nat {
    walked(per_func.take(f)).len() + param_cells(per_func[f].params@).len()
}

/// Cell `i` of parameter `p` of function `f` stands in the walk, and its rank
/// there is what [`before_param`] and its rank within its own plan add up to.
pub proof fn lemma_param_in_walk(
    per_func: Seq<FuncClassified>,
    kind: spec_fn(Cell) -> bool,
    f: int,
    p: int,
    i: int,
)
    requires
        0 <= f < per_func.len(),
        0 <= p < per_func[f].params@.len(),
        0 <= i < per_func[f].params@[p].plan.cells@.len(),
    ensures
        0 <= param_position(per_func, f, p) + i < walked(per_func).len(),
        walked(per_func)[param_position(per_func, f, p) + i]
            == per_func[f].params@[p].plan.cells@[i],
        rank(walked(per_func), kind, param_position(per_func, f, p) + i) == before_param(
            per_func,
            kind,
            f,
            p,
        ) + rank(per_func[f].params@[p].plan.cells@, kind, i),
{
    let params = per_func[f].params@;
    let cells = params[p].plan.cells@;
    let head = walked(per_func.take(f));
    let before = param_cells(params.take(p));
    lemma_walked_prefix(per_func, f + 1);
    assert(per_func.take(f + 1).drop_last() =~= per_func.take(f));
    lemma_param_cells_prefix(params, p + 1);
    assert(params.take(p + 1).drop_last() =~= params.take(p));
    let w = param_position(per_func, f, p) + i;
    assert(walked(per_func).take(w) =~= head + before + cells.take(i));
    lemma_count_concat(head + before, cells.take(i), kind);
    lemma_count_concat(head, before, kind);
}

/// Cell `i` of the result of function `f` stands in the walk, and its rank
/// there is what [`before_result`] and its rank within the result add up to.
pub proof fn lemma_result_in_walk(
    per_func: Seq<FuncClassified>,
    kind: spec_fn(Cell) -> bool,
    f: int,
    i: int,
)
    requires
        0 <= f < per_func.len(),
        0 <= i < result_cells(per_func[f].result_lift).len(),
    ensures
        0 <= result_position(per_func, f) + i < walked(per_func).len(),
        walked(per_func)[result_position(per_func, f) + i] == result_cells(
            per_func[f].result_lift,
        )[i],
        rank(walked(per_func), kind, result_position(per_func, f) + i) == before_result(
            per_func,
            kind,
            f,
        ) + rank(result_cells(per_func[f].result_lift), kind, i),
{
    let head = walked(per_func.take(f));
    let before = param_cells(per_func[f].params@);
    let cells = result_cells(per_func[f].result_lift);
    lemma_walked_prefix(per_func, f + 1);
    assert(per_func.take(f + 1).drop_last() =~= per_func.take(f));
    let w = result_position(per_func, f) + i;
    assert(walked(per_func).take(w) =~= head + before + cells.take(i));
    lemma_count_concat(head + before, cells.take(i), kind);
    lemma_count_concat(head, before, kind);
}

proof fn lemma_walked_prefix(per_func: Seq<FuncClassified>, f: int)
    requires
        0 <= f <= per_func.len(),
    ensures
        walked(per_func.take(f)).len() <= walked(per_func).len(),
        forall|k: int|
            0 <= k < walked(per_func.take(f)).len() ==> #[trigger] walked(per_func)[k] == walked(
                per_func.take(f),
            )[k],
    decreases per_func.len(),
{
    if f < per_func.len() {
        let init = per_func.drop_last();
        lemma_walked_prefix(init, f);
        assert(init.take(f) =~= per_func.take(f));
        assert forall|k: int| 0 <= k < walked(per_func.take(f)).len() implies #[trigger] walked(
            per_func,
        )[k] == walked(per_func.take(f))[k] by {
            assert(walked(init)[k] == walked(per_func)[k]);
        }
    } else {
        assert(per_func.take(f) =~= per_func);
    }
}

proof fn lemma_param_cells_prefix(params: Seq<ParamLift>, p: int)
    requires
        0 <= p <= params.len(),
    ensures
        param_cells(params.take(p)).len() <= param_cells(params).len(),
        forall|k: int|
            0 <= k < param_cells(params.take(p)).len() ==> #[trigger] param_cells(params)[k]
                == param_cells(params.take(p))[k],
    decreases params.len(),
{
    if p < params.len() {
        let init = params.drop_last();
        lemma_param_cells_prefix(init, p);
        assert(init.take(p) =~= params.take(p));
        assert forall|k: int|
            0 <= k < param_cells(params.take(p)).len() implies #[trigger] param_cells(params)[k]
            == param_cells(params.take(p))[k] by {
            assert(param_cells(init)[k] == param_cells(params)[k]);
        }
    } else {
        assert(params.take(p) =~= params);
    }
}

/// The walk over plans splits at the plans of function `f`.
pub proof fn lemma_walked_plans_split(per_func: Seq<FuncClassified>, f: int) -> (rest: Seq<Cell>)
    requires
        0 <= f < per_func.len(),
    ensures
        walked_plans(per_func) == walked_plans(per_func.take(f)) + param_cells(per_func[f].params@)
            + compound_cells(per_func[f].result_lift) + rest,
    decreases per_func.len(),
{
    let init = per_func.drop_last();
    if f == per_func.len() - 1 {
        assert(per_func.take(f) =~= init);
        let rest = Seq::<Cell>::empty();
        assert(walked_plans(per_func) =~= walked_plans(per_func.take(f)) + param_cells(
            per_func[f].params@,
        ) + compound_cells(per_func[f].result_lift) + rest);
        rest
    } else {
        let rest = lemma_walked_plans_split(init, f);
        assert(init.take(f) =~= per_func.take(f));
        let longer = rest + param_cells(per_func.last().params@) + compound_cells(
            per_func.last().result_lift,
        );
        assert(walked_plans(per_func) =~= walked_plans(per_func.take(f)) + param_cells(
            per_func[f].params@,
        ) + compound_cells(per_func[f].result_lift) + longer);
        longer
    }
}

/// The parameters' cells split at those of parameter `p`.
pub proof fn lemma_param_cells_split(params: Seq<ParamLift>, p: int) -> (rest: Seq<Cell>)
    requires
        0 <= p < params.len(),
    ensures
        param_cells(params) == param_cells(params.take(p)) + params[p].plan.cells@ + rest,
    decreases params.len(),
{
    let init = params.drop_last();
    if p == params.len() - 1 {
        assert(params.take(p) =~= init);
        let rest = Seq::<Cell>::empty();
        assert(param_cells(params) =~= param_cells(params.take(p)) + params[p].plan.cells@ + rest);
        rest
    } else {
        let rest = lemma_param_cells_split(init, p);
        assert(init.take(p) =~= params.take(p));
        let longer = rest + params.last().plan.cells@;
        assert(param_cells(params) =~= param_cells(params.take(p)) + params[p].plan.cells@
            + longer);
        longer
    }
}

/// Counting cells of a kind counts those that a filter for the kind keeps.
pub proof fn lemma_count_filter(cells: Seq<Cell>, kind: spec_fn(Cell) -> bool)
    ensures
        count(cells, kind) == cells.filter(kind).len(),
    decreases cells.len(),
{
    reveal(Seq::filter);
    if cells.len() > 0 {
        lemma_count_filter(cells.drop_last(), kind);
    }
}

/// The rank of a position is how many cells of the kind stand before it.
pub proof fn lemma_rank_filter(cells: Seq<Cell>, kind: spec_fn(Cell) -> bool, i: int)
    requires
        0 <= i <= cells.len(),
    ensures
        rank(cells, kind, i) == cells.take(i).filter(kind).len(),
{
    lemma_count_filter(cells.take(i), kind);
}

/// The cells of parameters follow one another, plan by plan.
pub proof fn lemma_param_cells_flat(params: Seq<ParamLift>)
    ensures
        param_cells(params) == params.map_values(|p: ParamLift| p.plan.cells@).flatten(),
    decreases params.len(),
{
    let plans = params.map_values(|p: ParamLift| p.plan.cells@);
    plans.lemma_flatten_and_flatten_alt_are_equivalent();
    if params.len() > 0 {
        let init = params.drop_last();
        lemma_param_cells_flat(init);
        init.map_values(
            |p: ParamLift| p.plan.cells@,
        ).lemma_flatten_and_flatten_alt_are_equivalent();
        assert(plans.drop_last() =~= init.map_values(|p: ParamLift| p.plan.cells@));
    }
}

/// The walk goes function by function: all cells of all parameters, then those
/// of the result, of which a direct one is a single cell.
pub proof fn lemma_walked_flat(per_func: Seq<FuncClassified>)
    ensures
        walked(per_func) == per_func.map_values(
            |fd: FuncClassified|
                fd.params@.map_values(|p: ParamLift| p.plan.cells@).flatten()
                    + match fd.result_lift {
                    Some(ResultLift { source: ResultSource::Compound(c) }) => c.plan.cells@,
                    Some(ResultLift { source: ResultSource::Direct(cell) }) => seq![cell],
                    None => Seq::empty(),
                },
        ).flatten(),
    decreases per_func.len(),
{
    let own = |fd: FuncClassified|
        fd.params@.map_values(|p: ParamLift| p.plan.cells@).flatten() + match fd.result_lift {
            Some(ResultLift { source: ResultSource::Compound(c) }) => c.plan.cells@,
            Some(ResultLift { source: ResultSource::Direct(cell) }) => seq![cell],
            None => Seq::empty(),
        };
    let parts = per_func.map_values(own);
    parts.lemma_flatten_and_flatten_alt_are_equivalent();
    if per_func.len() > 0 {
        let init = per_func.drop_last();
        lemma_walked_flat(init);
        lemma_param_cells_flat(per_func.last().params@);
        init.map_values(own).lemma_flatten_and_flatten_alt_are_equivalent();
        assert(parts.drop_last() =~= init.map_values(own));
        assert(walked(per_func) =~= walked(init) + own(per_func.last()));
    }
}

/// The walk over plans is the walk without direct results.
pub proof fn lemma_walked_plans_flat(per_func: Seq<FuncClassified>)
    ensures
        walked_plans(per_func) == per_func.map_values(
            |fd: FuncClassified|
                fd.params@.map_values(|p: ParamLift| p.plan.cells@).flatten()
                    + match fd.result_lift {
                    Some(ResultLift { source: ResultSource::Compound(c) }) => c.plan.cells@,
                    _ => Seq::empty(),
                },
        ).flatten(),
    decreases per_func.len(),
{
    let own = |fd: FuncClassified|
        fd.params@.map_values(|p: ParamLift| p.plan.cells@).flatten() + match fd.result_lift {
            Some(ResultLift { source: ResultSource::Compound(c) }) => c.plan.cells@,
            _ => Seq::empty(),
        };
    let parts = per_func.map_values(own);
    parts.lemma_flatten_and_flatten_alt_are_equivalent();
    if per_func.len() > 0 {
        let init = per_func.drop_last();
        lemma_walked_plans_flat(init);
        lemma_param_cells_flat(per_func.last().params@);
        init.map_values(own).lemma_flatten_and_flatten_alt_are_equivalent();
        assert(parts.drop_last() =~= init.map_values(own));
        assert(walked_plans(per_func) =~= walked_plans(init) + own(per_func.last()));
    }
}

/// The cells that the walk meets before cell `i` of parameter `p` of function
/// `f`.
pub open spec fn met_before_param(
    per_func: Seq<FuncClassified>,
    f: int,
    p: int,
    i: int,
) -> Seq<Cell> {
    walked(per_func.take(f)) + param_cells(per_func[f].params@.take(p))
        + per_func[f].params@[p].plan.cells@.take(i)
}

/// The cells that the walk meets before cell `i` of the result of function `f`.
pub open spec fn met_before_result(per_func: Seq<FuncClassified>, f: int, i: int) -> Seq<Cell> {
    walked(per_func.take(f)) + param_cells(per_func[f].params@) + result_cells(
        per_func[f].result_lift,
    ).take(i)
}

/// What is met before a parameter's cell, together with that cell, starts the
/// walk.
pub proof fn lemma_met_before_param(
    per_func: Seq<FuncClassified>,
    kind: spec_fn(Cell) -> bool,
    f: int,
    p: int,
    i: int,
)
    requires
        0 <= f < per_func.len(),
        0 <= p < per_func[f].params@.len(),
        0 <= i < per_func[f].params@[p].plan.cells@.len(),
    ensures
        met_before_param(per_func, f, p, i).push(per_func[f].params@[p].plan.cells@[i])
            == walked(per_func).take(met_before_param(per_func, f, p, i).len() + 1int),
        met_before_param(per_func, f, p, i).filter(kind).len() == before_param(
            per_func,
            kind,
            f,
            p,
        ) + rank(per_func[f].params@[p].plan.cells@, kind, i),
        met_before_param(per_func, f, p, i).filter(kind).len() == rank(
            walked(per_func),
            kind,
            param_position(per_func, f, p) + i,
        ),
        kind(per_func[f].params@[p].plan.cells@[i]) ==> met_before_param(per_func, f, p, i).filter(
            kind,
        ).len() < walked(per_func).filter(kind).len(),
{
    let params = per_func[f].params@;
    let cells = params[p].plan.cells@;
    let head = walked(per_func.take(f));
    let before = param_cells(params.take(p));
    let met = met_before_param(per_func, f, p, i);
    lemma_walked_prefix(per_func, f + 1);
    assert(per_func.take(f + 1).drop_last() =~= per_func.take(f));
    lemma_param_cells_prefix(params, p + 1);
    assert(params.take(p + 1).drop_last() =~= params.take(p));
    lemma_param_in_walk(per_func, kind, f, p, i);
    assert(met.push(cells[i]) =~= walked(per_func).take(met.len() + 1int));
    assert(met =~= walked(per_func).take(met.len() as int));
    lemma_count_filter(met, kind);
    lemma_count_filter(walked(per_func), kind);
    lemma_rank_step(walked(per_func), kind, met.len() as int);
    lemma_rank_bounds(walked(per_func), kind, met.len() + 1int, met.len() + 1int);
}

/// What is met before a result's cell, together with that cell, starts the
/// walk.
pub proof fn lemma_met_before_result(
    per_func: Seq<FuncClassified>,
    kind: spec_fn(Cell) -> bool,
    f: int,
    i: int,
)
    requires
        0 <= f < per_func.len(),
        0 <= i < result_cells(per_func[f].result_lift).len(),
    ensures
        met_before_result(per_func, f, i).push(result_cells(per_func[f].result_lift)[i])
            == walked(per_func).take(met_before_result(per_func, f, i).len() + 1int),
        met_before_result(per_func, f, i).filter(kind).len() == before_result(per_func, kind, f)
            + rank(result_cells(per_func[f].result_lift), kind, i),
        met_before_result(per_func, f, i).filter(kind).len() == rank(
            walked(per_func),
            kind,
            result_position(per_func, f) + i,
        ),
        kind(result_cells(per_func[f].result_lift)[i]) ==> met_before_result(
            per_func,
            f,
            i,
        ).filter(kind).len() < walked(per_func).filter(kind).len(),
{
    let cells = result_cells(per_func[f].result_lift);
    let met = met_before_result(per_func, f, i);
    lemma_walked_prefix(per_func, f + 1);
    assert(per_func.take(f + 1).drop_last() =~= per_func.take(f));
    lemma_result_in_walk(per_func, kind, f, i);
    assert(met.push(cells[i]) =~= walked(per_func).take(met.len() + 1int));
    assert(met =~= walked(per_func).take(met.len() as int));
    lemma_count_filter(met, kind);
    lemma_count_filter(walked(per_func), kind);
    lemma_rank_step(walked(per_func), kind, met.len() as int);
    lemma_rank_bounds(walked(per_func), kind, met.len() + 1int, met.len() + 1int);
}

/// What is met before a parameter, counted.
pub proof fn lemma_met_at_param(
    per_func: Seq<FuncClassified>,
    kind: spec_fn(Cell) -> bool,
    f: int,
    p: int,
)
    requires
        0 <= f < per_func.len(),
        0 <= p < per_func[f].params@.len(),
    ensures
        met_before_param(per_func, f, p, 0).filter(kind).len() == before_param(
            per_func,
            kind,
            f,
            p,
        ),
{
    let head = walked(per_func.take(f));
    let before = param_cells(per_func[f].params@.take(p));
    assert(met_before_param(per_func, f, p, 0) =~= head + before);
    lemma_count_concat(head, before, kind);
    lemma_count_filter(head + before, kind);
}

/// What is met before a result, counted.
pub proof fn lemma_met_at_result(
    per_func: Seq<FuncClassified>,
    kind: spec_fn(Cell) -> bool,
    f: int,
)
    requires
        0 <= f < per_func.len(),
    ensures
        met_before_result(per_func, f, 0).filter(kind).len() == before_result(per_func, kind, f),
{
    let head = walked(per_func.take(f));
    let before = param_cells(per_func[f].params@);
    assert(met_before_result(per_func, f, 0) =~= head + before);
    lemma_count_concat(head, before, kind);
    lemma_count_filter(head + before, kind);
}

/// What is met before a parameter, or before a result, is the walk over the
/// functions before and the plans of the parameters before.
pub proof fn lemma_met_flat(per_func: Seq<FuncClassified>, f: int, p: int, i: int)
    requires
        0 <= f < per_func.len(),
        0 <= p < per_func[f].params@.len(),
        0 <= i <= per_func[f].params@[p].plan.cells@.len(),
    ensures
        met_before_param(per_func, f, p, i) == walked(per_func.take(f)) + per_func[f].params@.take(
            p,
        ).map_values(|p: ParamLift| p.plan.cells@).flatten()
            + per_func[f].params@[p].plan.cells@.take(i),
        met_before_result(per_func, f, 0) == walked(per_func.take(f))
            + per_func[f].params@.map_values(|p: ParamLift| p.plan.cells@).flatten(),
{
    lemma_param_cells_flat(per_func[f].params@.take(p));
    lemma_param_cells_flat(per_func[f].params@);
    assert(met_before_result(per_func, f, 0) =~= walked(per_func.take(f)) + param_cells(
        per_func[f].params@,
    ));
}

} // verus!
