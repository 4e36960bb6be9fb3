//! Scratch buffers for the utf-8 bytes of `char` cells: how many bytes to
//! reserve, and which reserved address each cell gets. Both walk the functions
//! in the same order. Chars within list elements use per-call scratch and do
//! not take part.

use super::PerCellIndices;
use crate::abi::MAX_UTF8_LEN;
use crate::classify;
use crate::classify::{FuncClassified, ResultLift, ResultSource};
use crate::le;
use crate::le::to_signed;
use crate::plan::{Cell, LiftPlan};
use vstd::prelude::*;

verus! {

/// Selects `char` cells.
pub open spec fn is_char() -> spec_fn(Cell) -> bool {
    |cell: Cell| cell is Char
}

/// Whether the result of `fd` is one `char`, straight from the flat result.
pub open spec fn direct_char(fd: FuncClassified) -> bool {
    fd.result_lift matches Some(rl) && rl.source matches ResultSource::Direct(cell) && cell is Char
}

/// Whether the result of `fd` is one `char`, straight from the flat result.
/// A `char` result that comes through a return pointer is compound.
pub fn result_is_direct_char(fd: &FuncClassified) -> (direct: bool)
    ensures
        direct == direct_char(*fd),
{
    match &fd.result_lift {
        Some(rl) => matches!(&rl.source, ResultSource::Direct(Cell::Char { .. })),
        None => false,
    }
}

/// Scratch address of each `char` cell.
pub struct CharScratchMaps {
    pub per_cell: PerCellIndices<i32>,
    /// The address for a direct `char` result.
    pub per_result_single: Vec<Option<i32>>,
}

/// `n` scratch sizes, each that of one `char`.
pub open spec fn char_sizes(n: nat) -> Seq<u32> {
    Seq::new(n, |k: int| MAX_UTF8_LEN)
}

/// Scratch byte count of each `char` cell, in the order in which
/// [`build_char_scratch_map`] takes addresses.
pub fn char_scratch_sizes(per_func: &[FuncClassified]) -> (sizes: Vec<u32>)
    ensures
        sizes@ == char_sizes(classify::count(classify::walked(per_func@), is_char())),
{
    let mut sizes: Vec<u32> = Vec::new();
    let mut f: usize = 0;
    while f < per_func.len()
        invariant
            f <= per_func.len(),
            sizes@ == char_sizes(
                classify::count(classify::walked(per_func@.take(f as int)), is_char()),
            ),
        decreases per_func.len() - f,
    {
        let fd = &per_func[f];
        proof {
            classify::lemma_walked_step(per_func@, is_char(), f as int);
        }
        let mut p: usize = 0;
        while p < fd.params.len()
            invariant
                f < per_func.len(),
                *fd == per_func@[f as int],
                p <= fd.params.len(),
                sizes@ == char_sizes(
                    classify::before_param(per_func@, is_char(), f as int, p as int),
                ),
            decreases fd.params.len() - p,
        {
            collect(&fd.params[p].plan, &mut sizes);
            proof {
                classify::lemma_before_param_step(per_func@, is_char(), f as int, p as int);
            }
            p += 1;
        }
        proof {
            classify::lemma_count_result(fd.result_lift, is_char());
        }
        if let Some(rl) = &fd.result_lift {
            if let Some(c) = rl.compound() {
                collect(&c.plan, &mut sizes);
            } else if result_is_direct_char(fd) {
                sizes.push(MAX_UTF8_LEN);
            }
        }
        f += 1;
        assert(sizes@ =~= char_sizes(
            classify::count(classify::walked(per_func@.take(f as int)), is_char()),
        ));
    }
    assert(per_func@.take(f as int) =~= per_func@);
    sizes
}

/// Adds the scratch sizes of one plan's `char` cells.
pub fn collect(plan: &LiftPlan, sizes: &mut Vec<u32>)
    ensures
        final(sizes)@ == old(sizes)@ + char_sizes(classify::count(plan.cells@, is_char())),
{
    let mut i: usize = 0;
    assert(plan.cells@.take(0) =~= Seq::empty());
    while i < plan.cells.len()
        invariant
            i <= plan.cells.len(),
            sizes@ == old(sizes)@ + char_sizes(
                classify::rank(plan.cells@, is_char(), i as int),
            ),
        decreases plan.cells.len() - i,
    {
        proof {
            classify::lemma_rank_step(plan.cells@, is_char(), i as int);
        }
        if matches!(&plan.cells[i], Cell::Char { .. }) {
            sizes.push(MAX_UTF8_LEN);
        }
        i += 1;
        assert(sizes@ =~= old(sizes)@ + char_sizes(
            classify::rank(plan.cells@, is_char(), i as int),
        ));
    }
    assert(plan.cells@.take(i as int) =~= plan.cells@);
}

/// The addresses of one plan's cells: its `char` cells take, in order, those
/// of `addrs` from `start` on.
pub open spec fn char_addrs(cells: Seq<Cell>, addrs: Seq<u32>, start: int) -> Seq<Option<i32>> {
    Seq::new(
        cells.len(),
        |i: int|
            if cells[i] is Char {
                Some(le::signed(addrs[start + classify::rank(cells, is_char(), i)]))
            } else {
                None
            },
    )
}

/// The addresses of one plan's cells, taken from `scratch_addrs`.
pub fn map_plan<I: Iterator<Item = u32>>(plan: &LiftPlan, scratch_addrs: &mut I) -> (map: Vec<
    Option<i32>,
>)
    requires
        vstd::std_specs::iter::IteratorSpec::obeys_prophetic_iter_laws(&*old(scratch_addrs)),
        vstd::std_specs::iter::IteratorSpec::remaining(&*old(scratch_addrs)).len()
            >= classify::count(plan.cells@, is_char()),
    ensures
        vstd::std_specs::iter::IteratorSpec::obeys_prophetic_iter_laws(&*final(scratch_addrs)),
        vstd::std_specs::iter::IteratorSpec::remaining(&*final(scratch_addrs))
            == vstd::std_specs::iter::IteratorSpec::remaining(&*old(scratch_addrs)).skip(
            classify::count(plan.cells@, is_char()) as int,
        ),
        map@ == char_addrs(
            plan.cells@,
            vstd::std_specs::iter::IteratorSpec::remaining(&*old(scratch_addrs)),
            0,
        ),
{
    let mut map: Vec<Option<i32>> = Vec::new();
    let mut i: usize = 0;
    while i < plan.cells.len()
        invariant
            i <= plan.cells.len(),
            vstd::std_specs::iter::IteratorSpec::obeys_prophetic_iter_laws(&*scratch_addrs),
            vstd::std_specs::iter::IteratorSpec::remaining(&*old(scratch_addrs)).len()
                >= classify::count(plan.cells@, is_char()),
            vstd::std_specs::iter::IteratorSpec::remaining(&*scratch_addrs)
                == vstd::std_specs::iter::IteratorSpec::remaining(&*old(scratch_addrs)).skip(
                classify::rank(plan.cells@, is_char(), i as int) as int,
            ),
            map@ == char_addrs(
                plan.cells@,
                vstd::std_specs::iter::IteratorSpec::remaining(&*old(scratch_addrs)),
                0,
            ).take(i as int),
        decreases plan.cells.len() - i,
    {
        proof {
            classify::lemma_rank_step(plan.cells@, is_char(), i as int);
            classify::lemma_rank_bounds(plan.cells@, is_char(), i + 1, i + 1);
        }
        match &plan.cells[i] {
            Cell::Char { .. } => {
                let addr = scratch_addrs.next().unwrap();
                map.push(Some(to_signed(addr)));
            },
            _ => {
                map.push(None);
            },
        }
        i += 1;
    }
    proof {
        classify::lemma_rank_bounds(plan.cells@, is_char(), i as int, i as int);
    }
    map
}

/// Whether `maps` gives each `char` cell the address that is its turn in the
/// walk.
pub open spec fn maps_addrs(
    maps: CharScratchMaps,
    per_func: Seq<FuncClassified>,
    addrs: Seq<u32>,
) -> bool {
    &&& maps.per_cell.per_param@.len() == per_func.len()
    &&& maps.per_cell.per_result@.len() == per_func.len()
    &&& maps.per_result_single@.len() == per_func.len()
    &&& forall|f: int|
        0 <= f < per_func.len() ==> {
            &&& (#[trigger] maps.per_cell.per_param@[f])@.len() == per_func[f].params@.len()
            &&& forall|p: int|
                0 <= p < per_func[f].params@.len() ==> (
                #[trigger] maps.per_cell.per_param@[f]@[p])@ == char_addrs(
                    per_func[f].params@[p].plan.cells@,
                    addrs,
                    classify::before_param(per_func, is_char(), f, p) as int,
                )
        }
    &&& forall|f: int|
        0 <= f < per_func.len() ==> (#[trigger] maps.per_cell.per_result@[f])@ == char_addrs(
            classify::compound_cells(per_func[f].result_lift),
            addrs,
            classify::before_result(per_func, is_char(), f) as int,
        )
    &&& forall|f: int|
        0 <= f < per_func.len() ==> #[trigger] maps.per_result_single@[f] == if direct_char(
            per_func[f],
        ) {
            Some(le::signed(addrs[classify::before_result(per_func, is_char(), f) as int]))
        } else {
            None
        }
}

/// The scratch address of each `char` cell. `scratch_addrs` yields one address
/// for each size of [`char_scratch_sizes`], in the same order.
pub fn build_char_scratch_map<I: Iterator<Item = u32>>(
    per_func: &[FuncClassified],
    scratch_addrs: &mut I,
) -> (maps: CharScratchMaps)
    requires
        vstd::std_specs::iter::IteratorSpec::obeys_prophetic_iter_laws(&*old(scratch_addrs)),
        vstd::std_specs::iter::IteratorSpec::remaining(&*old(scratch_addrs)).len()
            >= classify::count(classify::walked(per_func@), is_char()),
    ensures
        vstd::std_specs::iter::IteratorSpec::obeys_prophetic_iter_laws(&*final(scratch_addrs)),
        vstd::std_specs::iter::IteratorSpec::remaining(&*final(scratch_addrs))
            == vstd::std_specs::iter::IteratorSpec::remaining(&*old(scratch_addrs)).skip(
            classify::count(classify::walked(per_func@), is_char()) as int,
        ),
        maps_addrs(
            maps,
            per_func@,
            vstd::std_specs::iter::IteratorSpec::remaining(&*old(scratch_addrs)),
        ),
{
    let mut per_param: Vec<Vec<Vec<Option<i32>>>> = Vec::new();
    let mut per_result: Vec<Vec<Option<i32>>> = Vec::new();
    let mut per_result_single: Vec<Option<i32>> = Vec::new();
    let mut f: usize = 0;
    proof {
        assert(per_func@.take(0) =~= Seq::empty());
        assert(vstd::std_specs::iter::IteratorSpec::remaining(&*old(scratch_addrs)).skip(0)
            =~= vstd::std_specs::iter::IteratorSpec::remaining(&*old(scratch_addrs)));
    }
    while f < per_func.len()
        invariant
            f <= per_func.len(),
            vstd::std_specs::iter::IteratorSpec::remaining(&*old(scratch_addrs)).len()
                >= classify::count(classify::walked(per_func@), is_char()),
            vstd::std_specs::iter::IteratorSpec::obeys_prophetic_iter_laws(&*scratch_addrs),
            vstd::std_specs::iter::IteratorSpec::remaining(&*scratch_addrs)
                == vstd::std_specs::iter::IteratorSpec::remaining(&*old(scratch_addrs)).skip(
                classify::count(classify::walked(per_func@.take(f as int)), is_char()) as int,
            ),
            per_param@.len() == f,
            per_result@.len() == f,
            per_result_single@.len() == f,
            forall|g: int|
                0 <= g < f ==> {
                    &&& (#[trigger] per_param@[g])@.len() == per_func@[g].params@.len()
                    &&& forall|q: int|
                        0 <= q < per_func@[g].params@.len() ==> (#[trigger] per_param@[g]@[q])@
                            == char_addrs(
                            per_func@[g].params@[q].plan.cells@,
                            vstd::std_specs::iter::IteratorSpec::remaining(&*old(scratch_addrs)),
                            classify::before_param(per_func@, is_char(), g, q) as int,
                        )
                },
            forall|g: int|
                0 <= g < f ==> (#[trigger] per_result@[g])@ == char_addrs(
                    classify::compound_cells(per_func@[g].result_lift),
                    vstd::std_specs::iter::IteratorSpec::remaining(&*old(scratch_addrs)),
                    classify::before_result(per_func@, is_char(), g) as int,
                ),
            forall|g: int|
                0 <= g < f ==> #[trigger] per_result_single@[g] == if direct_char(per_func@[g]) {
                    Some(
                        le::signed(
                            vstd::std_specs::iter::IteratorSpec::remaining(
                                &*old(scratch_addrs),
                            )[classify::before_result(per_func@, is_char(), g) as int],
                        ),
                    )
                } else {
                    None
                },
        decreases per_func.len() - f,
    {
        let fd = &per_func[f];
        proof {
            classify::lemma_walked_step(per_func@, is_char(), f as int);
        }
        let mut params: Vec<Vec<Option<i32>>> = Vec::new();
        let mut p: usize = 0;
        while p < fd.params.len()
            invariant
                f < per_func.len(),
                *fd == per_func@[f as int],
                p <= fd.params.len(),
                params@.len() == p,
                classify::before_result(per_func@, is_char(), f as int)
                    <= vstd::std_specs::iter::IteratorSpec::remaining(&*old(scratch_addrs)).len(),
                vstd::std_specs::iter::IteratorSpec::obeys_prophetic_iter_laws(&*scratch_addrs),
                vstd::std_specs::iter::IteratorSpec::remaining(&*scratch_addrs)
                    == vstd::std_specs::iter::IteratorSpec::remaining(&*old(scratch_addrs)).skip(
                    classify::before_param(per_func@, is_char(), f as int, p as int) as int,
                ),
                forall|q: int|
                    0 <= q < p ==> (#[trigger] params@[q])@ == char_addrs(
                        per_func@[f as int].params@[q].plan.cells@,
                        vstd::std_specs::iter::IteratorSpec::remaining(&*old(scratch_addrs)),
                        classify::before_param(per_func@, is_char(), f as int, q) as int,
                    ),
            decreases fd.params.len() - p,
        {
            proof {
                classify::lemma_before_param_step(per_func@, is_char(), f as int, p as int);
                lemma_char_addrs_shift(
                    fd.params@[p as int].plan.cells@,
                    vstd::std_specs::iter::IteratorSpec::remaining(&*old(scratch_addrs)),
                    classify::before_param(per_func@, is_char(), f as int, p as int) as int,
                );
            }
            params.push(map_plan(&fd.params[p].plan, scratch_addrs));
            p += 1;
        }
        per_param.push(params);
        proof {
            lemma_char_addrs_shift(
                classify::compound_cells(fd.result_lift),
                vstd::std_specs::iter::IteratorSpec::remaining(&*old(scratch_addrs)),
                classify::before_result(per_func@, is_char(), f as int) as int,
            );
            classify::lemma_count_result(fd.result_lift, is_char());
        }
        let compound = match &fd.result_lift {
            Some(rl) => rl.compound(),
            None => None,
        };
        if let Some(c) = compound {
            per_result.push(map_plan(&c.plan, scratch_addrs));
            per_result_single.push(None);
        } else if result_is_direct_char(fd) {
            let addr = scratch_addrs.next().unwrap();
            per_result.push(Vec::new());
            per_result_single.push(Some(to_signed(addr)));
        } else {
            per_result.push(Vec::new());
            per_result_single.push(None);
        }
        f += 1;
    }
    assert(per_func@.take(f as int) =~= per_func@);
    CharScratchMaps { per_cell: PerCellIndices { per_param, per_result }, per_result_single }
}

proof fn lemma_char_addrs_shift(cells: Seq<Cell>, addrs: Seq<u32>, start: int)
    requires
        0 <= start,
        start + classify::count(cells, is_char()) <= addrs.len(),
    ensures
        char_addrs(cells, addrs.skip(start), 0) == char_addrs(cells, addrs, start),
{
    assert forall|i: int| 0 <= i < cells.len() implies char_addrs(cells, addrs.skip(start), 0)[i]
        == char_addrs(cells, addrs, start)[i] by {
        classify::lemma_rank_step(cells, is_char(), i);
        classify::lemma_rank_bounds(cells, is_char(), i + 1, i + 1);
    }
    assert(char_addrs(cells, addrs.skip(start), 0) =~= char_addrs(cells, addrs, start));
}

/// Sizes and addresses go in lockstep: each size of [`char_scratch_sizes`] is
/// that of one `char` cell of the walk, and that cell takes the address of the
/// same position. No two cells take the same one.
pub proof fn lemma_char_lockstep(per_func: Seq<FuncClassified>, w: int, v: int)
    requires
        0 <= w < v < classify::walked(per_func).len(),
        classify::walked(per_func)[w] is Char,
        classify::walked(per_func)[v] is Char,
    ensures
        classify::rank(classify::walked(per_func), is_char(), w) < classify::rank(
            classify::walked(per_func),
            is_char(),
            v,
        ) < char_sizes(classify::count(classify::walked(per_func), is_char())).len(),
{
    let cells = classify::walked(per_func);
    classify::lemma_rank_distinct(cells, is_char(), w, v);
    classify::lemma_rank_step(cells, is_char(), v);
    classify::lemma_rank_bounds(cells, is_char(), v + 1, v + 1);
}

/// The address of a parameter's `char` cell is the one whose position is the
/// cell's rank in the walk.
pub proof fn lemma_char_param_address(
    maps: CharScratchMaps,
    per_func: Seq<FuncClassified>,
    addrs: Seq<u32>,
    f: int,
    p: int,
    i: int,
)
    requires
        maps_addrs(maps, per_func, addrs),
        0 <= f < per_func.len(),
        0 <= p < per_func[f].params@.len(),
        0 <= i < per_func[f].params@[p].plan.cells@.len(),
        per_func[f].params@[p].plan.cells@[i] is Char,
    ensures
        maps.per_cell.per_param@[f]@[p]@[i] == Some(
            le::signed(
                addrs[classify::rank(
                    classify::walked(per_func),
                    is_char(),
                    classify::param_position(per_func, f, p) + i,
                ) as int],
            ),
        ),
{
    classify::lemma_param_in_walk(per_func, is_char(), f, p, i);
    assert(maps.per_cell.per_param@[f]@.len() == per_func[f].params@.len());
    assert(maps.per_cell.per_param@[f]@[p]@ == char_addrs(
        per_func[f].params@[p].plan.cells@,
        addrs,
        classify::before_param(per_func, is_char(), f, p) as int,
    ));
}

/// The address of a result's `char` cell, compound or direct, is the one whose
/// position is the cell's rank in the walk.
pub proof fn lemma_char_result_address(
    maps: CharScratchMaps,
    per_func: Seq<FuncClassified>,
    addrs: Seq<u32>,
    f: int,
    i: int,
)
    requires
        maps_addrs(maps, per_func, addrs),
        0 <= f < per_func.len(),
        0 <= i < classify::result_cells(per_func[f].result_lift).len(),
        classify::result_cells(per_func[f].result_lift)[i] is Char,
    ensures
        (if direct_char(per_func[f]) {
            maps.per_result_single@[f]
        } else {
            maps.per_cell.per_result@[f]@[i]
        }) == Some(
            le::signed(
                addrs[classify::rank(
                    classify::walked(per_func),
                    is_char(),
                    classify::result_position(per_func, f) + i,
                ) as int],
            ),
        ),
{
    classify::lemma_result_in_walk(per_func, is_char(), f, i);
    let cells = classify::result_cells(per_func[f].result_lift);
    classify::lemma_rank_bounds(cells, is_char(), 0, 0);
    assert(maps.per_cell.per_result@[f]@ == char_addrs(
        classify::compound_cells(per_func[f].result_lift),
        addrs,
        classify::before_result(per_func, is_char(), f) as int,
    ));
    assert(direct_char(per_func[f]) ==> maps.per_result_single@[f] is Some);
}

/// There is one scratch buffer per `char` cell of the walk, and each has room
/// for the utf-8 bytes of any `char`.
pub proof fn lemma_char_room(per_func: Seq<FuncClassified>, k: int, c: char)
    requires
        0 <= k < classify::walked(per_func).filter(|cell: Cell| cell is Char).len(),
    ensures
        ({
            let sizes = char_sizes(classify::count(classify::walked(per_func), is_char()));
            &&& sizes.len() == classify::walked(per_func).filter(|cell: Cell| cell is Char).len()
            &&& sizes[k] == 4
            &&& vstd::utf8::encode_utf8(seq![c]).len() <= sizes[k]
        }),
{
    classify::lemma_count_filter(classify::walked(per_func), is_char());
    assert(is_char() =~= |cell: Cell| cell is Char);
    reveal_with_fuel(vstd::utf8::encode_utf8, 2);
    assert(seq![c].drop_first() =~= Seq::<char>::empty());
}

/// A row of addresses has one slot per cell. A `char` cell gets the address
/// that comes after as many as there are `char` cells before it; other cells
/// get none.
pub proof fn lemma_char_row(cells: Seq<Cell>, addrs: Seq<u32>, start: int, i: int)
    requires
        0 <= i < cells.len(),
    ensures
        char_addrs(cells, addrs, start).len() == cells.len(),
        match char_addrs(cells, addrs, start)[i] {
            Some(addr) => cells[i] is Char && le::bits(addr) == addrs[start + cells.take(i).filter(
                |cell: Cell| cell is Char,
            ).len()],
            None => !(cells[i] is Char),
        },
{
    classify::lemma_rank_filter(cells, is_char(), i);
    assert(is_char() =~= |cell: Cell| cell is Char);
    le::lemma_bits_signed(0, addrs[start + classify::rank(cells, is_char(), i)]);
}

/// Each parameter has a slot per cell. A `char` cell's address is the one that
/// comes after as many as the walk meets `char` cells before it; other cells
/// have none.
pub proof fn lemma_char_param_row(
    maps: CharScratchMaps,
    per_func: Seq<FuncClassified>,
    addrs: Seq<u32>,
    f: int,
    p: int,
)
    requires
        maps_addrs(maps, per_func, addrs),
        0 <= f < per_func.len(),
        0 <= p < per_func[f].params@.len(),
    ensures
        maps.per_cell.per_param@.len() == per_func.len(),
        maps.per_cell.per_param@[f]@.len() == per_func[f].params@.len(),
        maps.per_cell.per_param@[f]@[p]@.len() == per_func[f].params@[p].plan.cells@.len(),
        forall|i: int| #![trigger maps.per_cell.per_param@[f]@[p]@[i]]
            0 <= i < per_func[f].params@[p].plan.cells@.len()
                ==> match maps.per_cell.per_param@[f]@[p]@[i] {
                Some(addr) => per_func[f].params@[p].plan.cells@[i] is Char && le::bits(addr)
                    == addrs[classify::met_before_param(per_func, f, p, i).filter(
                    |cell: Cell| cell is Char,
                ).len() as int],
                None => !(per_func[f].params@[p].plan.cells@[i] is Char),
            },
{
    let cells = per_func[f].params@[p].plan.cells@;
    let start = classify::before_param(per_func, is_char(), f, p) as int;
    assert(maps.per_cell.per_param@[f]@.len() == per_func[f].params@.len());
    assert(maps.per_cell.per_param@[f]@[p]@ == char_addrs(cells, addrs, start));
    assert(is_char() =~= |cell: Cell| cell is Char);
    assert forall|i: int| #![trigger maps.per_cell.per_param@[f]@[p]@[i]]
        0 <= i < cells.len() implies match maps.per_cell.per_param@[f]@[p]@[i] {
        Some(addr) => cells[i] is Char && le::bits(addr) == addrs[classify::met_before_param(
            per_func,
            f,
            p,
            i,
        ).filter(|cell: Cell| cell is Char).len() as int],
        None => !(cells[i] is Char),
    } by {
        lemma_char_row(cells, addrs, start, i);
        classify::lemma_rank_filter(cells, is_char(), i);
        classify::lemma_met_before_param(per_func, is_char(), f, p, i);
    }
}

/// A result has a slot per cell of its plan, or one slot of its own where it is
/// a direct `char`. The address goes by the walk, as for parameters.
pub proof fn lemma_char_result_row(
    maps: CharScratchMaps,
    per_func: Seq<FuncClassified>,
    addrs: Seq<u32>,
    f: int,
)
    requires
        maps_addrs(maps, per_func, addrs),
        0 <= f < per_func.len(),
    ensures
        maps.per_cell.per_result@.len() == per_func.len(),
        maps.per_result_single@.len() == per_func.len(),
        match per_func[f].result_lift {
            Some(ResultLift { source: ResultSource::Compound(c) }) => {
                &&& maps.per_result_single@[f] is None
                &&& maps.per_cell.per_result@[f]@.len() == c.plan.cells@.len()
                &&& forall|i: int| #![trigger maps.per_cell.per_result@[f]@[i]]
                    0 <= i < c.plan.cells@.len() ==> match maps.per_cell.per_result@[f]@[i] {
                        Some(addr) => c.plan.cells@[i] is Char && le::bits(addr)
                            == addrs[classify::met_before_result(per_func, f, i).filter(
                            |cell: Cell| cell is Char,
                        ).len() as int],
                        None => !(c.plan.cells@[i] is Char),
                    }
            },
            Some(ResultLift { source: ResultSource::Direct(cell) }) => {
                &&& maps.per_cell.per_result@[f]@.len() == 0
                &&& match maps.per_result_single@[f] {
                    Some(addr) => cell is Char && le::bits(addr)
                        == addrs[classify::met_before_result(per_func, f, 0).filter(
                        |cell: Cell| cell is Char,
                    ).len() as int],
                    None => !(cell is Char),
                }
            },
            None => {
                &&& maps.per_cell.per_result@[f]@.len() == 0
                &&& maps.per_result_single@[f] is None
            },
        },
{
    let cells = classify::compound_cells(per_func[f].result_lift);
    let start = classify::before_result(per_func, is_char(), f) as int;
    assert(is_char() =~= |cell: Cell| cell is Char);
    assert(maps.per_cell.per_result@[f]@ == char_addrs(cells, addrs, start));
    let single = maps.per_result_single@[f];
    match per_func[f].result_lift {
        Some(ResultLift { source: ResultSource::Compound(c) }) => {
            assert forall|i: int| #![trigger maps.per_cell.per_result@[f]@[i]]
                0 <= i < c.plan.cells@.len() implies match maps.per_cell.per_result@[f]@[i] {
                Some(addr) => c.plan.cells@[i] is Char && le::bits(addr)
                    == addrs[classify::met_before_result(per_func, f, i).filter(
                    |cell: Cell| cell is Char,
                ).len() as int],
                None => !(c.plan.cells@[i] is Char),
            } by {
                lemma_char_row(cells, addrs, start, i);
                classify::lemma_rank_filter(cells, is_char(), i);
                classify::lemma_met_before_result(per_func, is_char(), f, i);
            }
        },
        Some(ResultLift { source: ResultSource::Direct(cell) }) => {
            classify::lemma_met_before_result(per_func, is_char(), f, 0);
            classify::lemma_rank_bounds(seq![cell], is_char(), 0, 0);
            le::lemma_bits_signed(0, addrs[start]);
        },
        None => {},
    }
}

} // verus!
