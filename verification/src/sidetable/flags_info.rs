//! Flags info. Each flags cell has one entry in a per-call buffer, which names
//! its type and points at the names of the flags that a call sets. Those names
//! are listed in a scratch slab that each cell has to itself.

use super::PerCellIndices;
use crate::abi::{BlobSlice, STRING_FLAT_BYTES};
use crate::classify;
use crate::classify::{FuncClassified, ResultLift, ResultSource};
use crate::le;
use crate::le::to_signed;
use crate::plan::{Cell, LiftPlan};
use crate::sidetable;
use vstd::prelude::*;

verus! {

/// Where a flags cell's entry and its scratch slab lie.
#[derive(Clone, Copy, Debug, PartialEq, Eq, Structural)]
pub enum FlagsSlotSource {
    /// Entry index and slab address known at build time.
    Static { entry_idx: u32, scratch_addr: i32 },
    /// Within a list element: this far past the element's own base index and
    /// slab.
    PerIteration { entry_offset_in_elem: u32, scratch_offset_in_elem: u32 },
}

/// What is written to a flags cell's entry, and where.
#[derive(Debug)]
pub struct FlagsRuntimeFill {
    pub slot_source: FlagsSlotSource,
    pub ty_name: BlobSlice,
    /// Flag names in order of bit positions.
    pub flag_names: Vec<BlobSlice>,
}

/// What a [`FlagsRuntimeFill`] holds.
#[verifier::ext_equal]
pub struct FlagsFillView {
    pub slot_source: FlagsSlotSource,
    pub ty_name: BlobSlice,
    pub flag_names: Seq<BlobSlice>,
}

impl View for FlagsRuntimeFill {
    type V = FlagsFillView;

    open spec fn view(&self) -> FlagsFillView {
        FlagsFillView {
            slot_source: self.slot_source,
            ty_name: self.ty_name,
            flag_names: self.flag_names@,
        }
    }
}

impl Clone for FlagsRuntimeFill {
    fn clone(&self) -> (fill: Self)
        ensures
            fill@ == self@,
    {
        let fill = FlagsRuntimeFill {
            slot_source: self.slot_source,
            ty_name: self.ty_name,
            flag_names: self.flag_names.clone(),
        };
        assert(fill@ =~= self@);
        fill
    }
}

/// Entries of all flags cells, and how many there are.
pub struct FlagsInfoMaps {
    pub per_cell_fill: PerCellIndices<FlagsRuntimeFill>,
    /// The entry of a direct flags result.
    pub per_result_single_fill: Vec<Option<FlagsRuntimeFill>>,
    pub per_param_count: Vec<Vec<u32>>,
    pub per_result_count: Vec<u32>,
}

/// Selects flags cells.
pub open spec fn is_flags() -> spec_fn(Cell) -> bool {
    |cell: Cell| cell is Flags
}

/// The entry of a flags cell whose index is `entry_idx` and whose slab is at
/// `addr`.
pub open spec fn flags_fill(cell: Cell, entry_idx: u32, addr: u32) -> Option<FlagsFillView> {
    match cell {
        Cell::Flags { ty_name, flag_names, .. } => Some(
            FlagsFillView {
                slot_source: FlagsSlotSource::Static {
                    entry_idx,
                    scratch_addr: le::signed(addr),
                },
                ty_name,
                flag_names: flag_names@,
            },
        ),
        _ => None,
    }
}

/// The entries of one plan: its flags cells are numbered from zero, in order,
/// and take those of `addrs` from `start` on.
pub open spec fn flags_fills(cells: Seq<Cell>, addrs: Seq<u32>, start: int) -> Seq<
    Option<FlagsFillView>,
> {
    Seq::new(
        cells.len(),
        |i: int|
            flags_fill(
                cells[i],
                classify::rank(cells, is_flags(), i) as u32,
                addrs[start + classify::rank(cells, is_flags(), i)],
            ),
    )
}

/// The entry of a direct flags result: the only one, so its index is zero.
pub open spec fn direct_flags_fill(result: Option<ResultLift>, addr: u32) -> Option<
    FlagsFillView,
> {
    match result {
        Some(ResultLift { source: ResultSource::Direct(cell) }) => flags_fill(cell, 0, addr),
        _ => None,
    }
}

/// Whether no plan has more flags cells than 32 bits can number.
pub open spec fn flags_countable(per_func: Seq<FuncClassified>) -> bool {
    forall|f: int|
        0 <= f < per_func.len() ==> {
            &&& forall|p: int|
                0 <= p < per_func[f].params@.len() ==> classify::count(
                    (#[trigger] per_func[f].params@[p]).plan.cells@,
                    is_flags(),
                ) <= u32::MAX
            &&& classify::count(
                classify::compound_cells((#[trigger] per_func[f]).result_lift),
                is_flags(),
            ) <= u32::MAX
        }
}

/// Whether `fills` and `counts` describe the flags of the first parameters of
/// function `f`.
pub open spec fn param_flags(
    fills: Seq<Vec<Option<FlagsRuntimeFill>>>,
    counts: Seq<u32>,
    per_func: Seq<FuncClassified>,
    f: int,
    addrs: Seq<u32>,
) -> bool {
    &&& fills.len() <= per_func[f].params@.len()
    &&& counts.len() == fills.len()
    &&& forall|p: int|
        0 <= p < fills.len() ==> {
            &&& sidetable::views((#[trigger] fills[p])@) == flags_fills(
                per_func[f].params@[p].plan.cells@,
                addrs,
                classify::before_param(per_func, is_flags(), f, p) as int,
            )
            &&& counts[p] == classify::count(per_func[f].params@[p].plan.cells@, is_flags())
        }
}

/// Whether row `f` of `maps` describes the flags of function `f`.
pub open spec fn func_flags(
    maps: FlagsInfoMaps,
    f: int,
    per_func: Seq<FuncClassified>,
    addrs: Seq<u32>,
) -> bool {
    &&& maps.per_cell_fill.per_param@[f]@.len() == per_func[f].params@.len()
    &&& param_flags(
        maps.per_cell_fill.per_param@[f]@,
        maps.per_param_count@[f]@,
        per_func,
        f,
        addrs,
    )
    &&& sidetable::views(maps.per_cell_fill.per_result@[f]@) == flags_fills(
        classify::compound_cells(per_func[f].result_lift),
        addrs,
        classify::before_result(per_func, is_flags(), f) as int,
    )
    &&& maps.per_result_count@[f] == classify::count(
        classify::result_cells(per_func[f].result_lift),
        is_flags(),
    )
    &&& (match maps.per_result_single_fill@[f] {
        Some(fill) => Some(fill@),
        None => None,
    }) == direct_flags_fill(
        per_func[f].result_lift,
        addrs[classify::before_result(per_func, is_flags(), f) as int],
    )
}

/// Whether the first `n` rows of `maps`, and no others, are there and describe
/// the flags of their functions.
pub open spec fn describes_flags(
    maps: FlagsInfoMaps,
    n: nat,
    per_func: Seq<FuncClassified>,
    addrs: Seq<u32>,
) -> bool {
    &&& maps.per_cell_fill.per_param@.len() == n
    &&& maps.per_param_count@.len() == n
    &&& maps.per_cell_fill.per_result@.len() == n
    &&& maps.per_result_count@.len() == n
    &&& maps.per_result_single_fill@.len() == n
    &&& forall|f: int| 0 <= f < n ==> #[trigger] func_flags(maps, f, per_func, addrs)
}

/// Collects the entry of every flags cell, and the number of entries per
/// parameter and result. `scratch_addrs` yields one address for each size of
/// [`flags_scratch_sizes`], in the same order.
pub fn build_flags_info_maps<I: Iterator<Item = u32>>(
    per_func: &[FuncClassified],
    scratch_addrs: &mut I,
) -> (maps: FlagsInfoMaps)
    requires
        flags_countable(per_func@),
        vstd::std_specs::iter::IteratorSpec::obeys_prophetic_iter_laws(&*old(scratch_addrs)),
        vstd::std_specs::iter::IteratorSpec::remaining(&*old(scratch_addrs)).len()
            >= classify::count(classify::walked(per_func@), is_flags()),
    ensures
        vstd::std_specs::iter::IteratorSpec::obeys_prophetic_iter_laws(&*final(scratch_addrs)),
        vstd::std_specs::iter::IteratorSpec::remaining(&*final(scratch_addrs))
            == vstd::std_specs::iter::IteratorSpec::remaining(&*old(scratch_addrs)).skip(
            classify::count(classify::walked(per_func@), is_flags()) as int,
        ),
        describes_flags(
            maps,
            per_func@.len(),
            per_func@,
            vstd::std_specs::iter::IteratorSpec::remaining(&*old(scratch_addrs)),
        ),
{
    let mut maps = FlagsInfoMaps {
        per_cell_fill: PerCellIndices { per_param: Vec::new(), per_result: Vec::new() },
        per_result_single_fill: Vec::new(),
        per_param_count: Vec::new(),
        per_result_count: Vec::new(),
    };
    let mut f: usize = 0;
    proof {
        assert(per_func@.take(0) =~= Seq::empty());
        assert(vstd::std_specs::iter::IteratorSpec::remaining(&*old(scratch_addrs)).skip(0)
            =~= vstd::std_specs::iter::IteratorSpec::remaining(&*old(scratch_addrs)));
    }
    while f < per_func.len()
        invariant
            f <= per_func.len(),
            flags_countable(per_func@),
            vstd::std_specs::iter::IteratorSpec::remaining(&*old(scratch_addrs)).len()
                >= classify::count(classify::walked(per_func@), is_flags()),
            vstd::std_specs::iter::IteratorSpec::obeys_prophetic_iter_laws(&*scratch_addrs),
            vstd::std_specs::iter::IteratorSpec::remaining(&*scratch_addrs)
                == vstd::std_specs::iter::IteratorSpec::remaining(&*old(scratch_addrs)).skip(
                classify::count(classify::walked(per_func@.take(f as int)), is_flags()) as int,
            ),
            describes_flags(
                maps,
                f as nat,
                per_func@,
                vstd::std_specs::iter::IteratorSpec::remaining(&*old(scratch_addrs)),
            ),
        decreases per_func.len() - f,
    {
        let fd = &per_func[f];
        proof {
            classify::lemma_walked_step(per_func@, is_flags(), f as int);
        }
        let mut params_fill: Vec<Vec<Option<FlagsRuntimeFill>>> = Vec::new();
        let mut params_count: Vec<u32> = Vec::new();
        let mut p: usize = 0;
        while p < fd.params.len()
            invariant
                f < per_func.len(),
                *fd == per_func@[f as int],
                flags_countable(per_func@),
                p <= fd.params.len(),
                params_fill@.len() == p,
                classify::before_result(per_func@, is_flags(), f as int)
                    <= vstd::std_specs::iter::IteratorSpec::remaining(&*old(scratch_addrs)).len(),
                vstd::std_specs::iter::IteratorSpec::obeys_prophetic_iter_laws(&*scratch_addrs),
                vstd::std_specs::iter::IteratorSpec::remaining(&*scratch_addrs)
                    == vstd::std_specs::iter::IteratorSpec::remaining(&*old(scratch_addrs)).skip(
                    classify::before_param(per_func@, is_flags(), f as int, p as int) as int,
                ),
                param_flags(
                    params_fill@,
                    params_count@,
                    per_func@,
                    f as int,
                    vstd::std_specs::iter::IteratorSpec::remaining(&*old(scratch_addrs)),
                ),
            decreases fd.params.len() - p,
        {
            assert(per_func@[f as int].params@[p as int] == fd.params@[p as int]);
            proof {
                classify::lemma_before_param_step(per_func@, is_flags(), f as int, p as int);
                lemma_flags_fills_shift(
                    fd.params@[p as int].plan.cells@,
                    vstd::std_specs::iter::IteratorSpec::remaining(&*old(scratch_addrs)),
                    classify::before_param(per_func@, is_flags(), f as int, p as int) as int,
                );
            }
            let (fill, count) = scan_plan(&fd.params[p].plan, scratch_addrs);
            params_fill.push(fill);
            params_count.push(count);
            p += 1;
        }
        proof {
            classify::lemma_count_result(fd.result_lift, is_flags());
            lemma_flags_fills_shift(
                classify::compound_cells(fd.result_lift),
                vstd::std_specs::iter::IteratorSpec::remaining(&*old(scratch_addrs)),
                classify::before_result(per_func@, is_flags(), f as int) as int,
            );
        }
        let (result_fill, result_count, single) = match &fd.result_lift {
            Some(rl) => match &rl.source {
                ResultSource::Compound(c) => {
                    let (fill, count) = scan_plan(&c.plan, scratch_addrs);
                    (fill, count, None)
                },
                // Direct flags are exactly one entry.
                ResultSource::Direct(cell) => if matches!(cell, Cell::Flags { .. }) {
                    (Vec::new(), 1u32, Some(build_static_fill(0, cell, scratch_addrs)))
                } else {
                    (Vec::new(), 0u32, None)
                },
            },
            None => (Vec::new(), 0u32, None),
        };
        let ghost before = maps;
        maps.per_cell_fill.per_param.push(params_fill);
        maps.per_param_count.push(params_count);
        maps.per_cell_fill.per_result.push(result_fill);
        maps.per_result_count.push(result_count);
        maps.per_result_single_fill.push(single);
        f += 1;
        assert forall|g: int| 0 <= g < f implies #[trigger] func_flags(
            maps,
            g,
            per_func@,
            vstd::std_specs::iter::IteratorSpec::remaining(&*old(scratch_addrs)),
        ) by {
            if g < f - 1 {
                assert(func_flags(
                    before,
                    g,
                    per_func@,
                    vstd::std_specs::iter::IteratorSpec::remaining(&*old(scratch_addrs)),
                ));
            } else {
                assert(sidetable::views(maps.per_cell_fill.per_result@[g]@) =~= flags_fills(
                    classify::compound_cells(fd.result_lift),
                    vstd::std_specs::iter::IteratorSpec::remaining(&*old(scratch_addrs)),
                    classify::before_result(per_func@, is_flags(), g) as int,
                ));
            }
        }
    }
    assert(per_func@.take(f as int) =~= per_func@);
    maps
}

/// Numbers the flags cells of one plan and takes a slab address for each.
/// Flags within list elements are numbered per call.
pub fn scan_plan<I: Iterator<Item = u32>>(plan: &LiftPlan, scratch_addrs: &mut I) -> (scan: (
    Vec<Option<FlagsRuntimeFill>>,
    u32,
))
    requires
        classify::count(plan.cells@, is_flags()) <= u32::MAX,
        vstd::std_specs::iter::IteratorSpec::obeys_prophetic_iter_laws(&*old(scratch_addrs)),
        vstd::std_specs::iter::IteratorSpec::remaining(&*old(scratch_addrs)).len()
            >= classify::count(plan.cells@, is_flags()),
    ensures
        vstd::std_specs::iter::IteratorSpec::obeys_prophetic_iter_laws(&*final(scratch_addrs)),
        vstd::std_specs::iter::IteratorSpec::remaining(&*final(scratch_addrs))
            == vstd::std_specs::iter::IteratorSpec::remaining(&*old(scratch_addrs)).skip(
            classify::count(plan.cells@, is_flags()) as int,
        ),
        sidetable::views(scan.0@) == flags_fills(
            plan.cells@,
            vstd::std_specs::iter::IteratorSpec::remaining(&*old(scratch_addrs)),
            0,
        ),
        scan.1 == classify::count(plan.cells@, is_flags()),
{
    let mut fill_map: Vec<Option<FlagsRuntimeFill>> = Vec::new();
    let mut count: u32 = 0;
    let mut i: usize = 0;
    proof {
        classify::lemma_rank_bounds(plan.cells@, is_flags(), 0, 0);
    }
    while i < plan.cells.len()
        invariant
            i <= plan.cells.len(),
            classify::count(plan.cells@, is_flags()) <= u32::MAX,
            count == classify::rank(plan.cells@, is_flags(), i as int),
            vstd::std_specs::iter::IteratorSpec::obeys_prophetic_iter_laws(&*scratch_addrs),
            vstd::std_specs::iter::IteratorSpec::remaining(&*old(scratch_addrs)).len()
                >= classify::count(plan.cells@, is_flags()),
            vstd::std_specs::iter::IteratorSpec::remaining(&*scratch_addrs)
                == vstd::std_specs::iter::IteratorSpec::remaining(&*old(scratch_addrs)).skip(count as int),
            sidetable::views(fill_map@) == flags_fills(
                plan.cells@,
                vstd::std_specs::iter::IteratorSpec::remaining(&*old(scratch_addrs)),
                0,
            ).take(i as int),
        decreases plan.cells.len() - i,
    {
        proof {
            classify::lemma_rank_step(plan.cells@, is_flags(), i as int);
            classify::lemma_rank_bounds(plan.cells@, is_flags(), i + 1, i + 1);
        }
        let cell = &plan.cells[i];
        let fill = if matches!(cell, Cell::Flags { .. }) {
            let fill = build_static_fill(count, cell, scratch_addrs);
            count += 1;
            Some(fill)
        } else {
            None
        };
        let ghost before = fill_map@;
        fill_map.push(fill);
        i += 1;
        assert(sidetable::views(fill_map@) =~= sidetable::views(before).push(
            flags_fills(
                plan.cells@,
                vstd::std_specs::iter::IteratorSpec::remaining(&*old(scratch_addrs)),
                0,
            )[i - 1],
        ));
        assert(sidetable::views(fill_map@) =~= flags_fills(
            plan.cells@,
            vstd::std_specs::iter::IteratorSpec::remaining(&*old(scratch_addrs)),
            0,
        ).take(i as int));
    }
    proof {
        classify::lemma_rank_bounds(plan.cells@, is_flags(), i as int, i as int);
        assert(sidetable::views(fill_map@) =~= flags_fills(
            plan.cells@,
            vstd::std_specs::iter::IteratorSpec::remaining(&*old(scratch_addrs)),
            0,
        ));
    }
    (fill_map, count)
}

/// The entry of one flags cell, with the next slab address.
pub fn build_static_fill<I: Iterator<Item = u32>>(
    entry_idx: u32,
    cell: &Cell,
    scratch_addrs: &mut I,
) -> (fill: FlagsRuntimeFill)
    requires
        cell is Flags,
        vstd::std_specs::iter::IteratorSpec::obeys_prophetic_iter_laws(&*old(scratch_addrs)),
        vstd::std_specs::iter::IteratorSpec::remaining(&*old(scratch_addrs)).len() > 0,
    ensures
        vstd::std_specs::iter::IteratorSpec::obeys_prophetic_iter_laws(&*final(scratch_addrs)),
        vstd::std_specs::iter::IteratorSpec::remaining(&*final(scratch_addrs))
            == vstd::std_specs::iter::IteratorSpec::remaining(&*old(scratch_addrs)).skip(1),
        Some(fill@) == flags_fill(
            *cell,
            entry_idx,
            vstd::std_specs::iter::IteratorSpec::remaining(&*old(scratch_addrs))[0],
        ),
{
    let scratch_addr = to_signed(scratch_addrs.next().unwrap());
    let slot_source = FlagsSlotSource::Static { entry_idx, scratch_addr };
    match cell {
        Cell::Flags { ty_name, flag_names, .. } => {
            let fill = FlagsRuntimeFill {
                slot_source,
                ty_name: *ty_name,
                flag_names: flag_names.clone(),
            };
            assert(fill@.flag_names =~= flag_names@);
            fill
        },
        _ => vstd::pervasive::unreached(),
    }
}

proof fn lemma_flags_fills_shift(cells: Seq<Cell>, addrs: Seq<u32>, start: int)
    requires
        0 <= start,
        start + classify::count(cells, is_flags()) <= addrs.len(),
    ensures
        flags_fills(cells, addrs.skip(start), 0) == flags_fills(cells, addrs, start),
{
    assert forall|i: int| 0 <= i < cells.len() implies flags_fills(cells, addrs.skip(start), 0)[i]
        == flags_fills(cells, addrs, start)[i] by {
        classify::lemma_rank_step(cells, is_flags(), i);
        classify::lemma_rank_bounds(cells, is_flags(), i + 1, i + 1);
    }
    assert(flags_fills(cells, addrs.skip(start), 0) =~= flags_fills(cells, addrs, start));
}

/// Scratch byte count of one flags cell: room for the name of every flag.
pub open spec fn slab_size(cell: Cell) -> int {
    match cell {
        Cell::Flags { flag_names, .. } => (flag_names@.len() as u32) * STRING_FLAT_BYTES,
        _ => 0,
    }
}

/// Whether the slab of each flags cell has a size that fits 32 bits.
pub open spec fn slabs_fit(cells: Seq<Cell>) -> bool {
    forall|i: int| 0 <= i < cells.len() ==> slab_size(#[trigger] cells[i]) <= u32::MAX
}

/// The slab sizes of the flags cells among `cells`, in order.
pub open spec fn slab_sizes(cells: Seq<Cell>) -> Seq<u32>
    decreases cells.len(),
{
    if cells.len() == 0 {
        Seq::empty()
    } else {
        let init = slab_sizes(cells.drop_last());
        if cells.last() is Flags {
            init.push(slab_size(cells.last()) as u32)
        } else {
            init
        }
    }
}

/// Scratch byte count of each flags cell, in the order in which
/// [`build_flags_info_maps`] takes addresses.
pub fn flags_scratch_sizes(per_func: &[FuncClassified]) -> (sizes: Vec<u32>)
    requires
        slabs_fit(classify::walked(per_func@)),
    ensures
        sizes@ == slab_sizes(classify::walked(per_func@)),
{
    let mut sizes: Vec<u32> = Vec::new();
    let mut f: usize = 0;
    assert(per_func@.take(0) =~= Seq::empty());
    while f < per_func.len()
        invariant
            f <= per_func.len(),
            slabs_fit(classify::walked(per_func@)),
            sizes@ == slab_sizes(classify::walked(per_func@.take(f as int))),
        decreases per_func.len() - f,
    {
        let fd = &per_func[f];
        let ghost head = classify::walked(per_func@.take(f as int));
        let mut p: usize = 0;
        assert(fd.params@.take(0) =~= Seq::empty());
        assert(head + classify::param_cells(fd.params@.take(0)) =~= head);
        while p < fd.params.len()
            invariant
                f < per_func.len(),
                *fd == per_func@[f as int],
                slabs_fit(classify::walked(per_func@)),
                p <= fd.params.len(),
                sizes@ == slab_sizes(head + classify::param_cells(fd.params@.take(p as int))),
            decreases fd.params.len() - p,
        {
            let ghost cells = fd.params@[p as int].plan.cells@;
            assert forall|i: int| 0 <= i < cells.len() implies slab_size(#[trigger] cells[i])
                <= u32::MAX by {
                classify::lemma_param_in_walk(per_func@, is_flags(), f as int, p as int, i);
            }
            collect_flags_sizes(&fd.params[p].plan, &mut sizes);
            proof {
                let before = head + classify::param_cells(fd.params@.take(p as int));
                lemma_slab_sizes_concat(before, cells);
                assert(fd.params@.take(p + 1).drop_last() =~= fd.params@.take(p as int));
                assert(before + cells =~= head + classify::param_cells(fd.params@.take(p + 1)));
            }
            p += 1;
        }
        assert(fd.params@.take(p as int) =~= fd.params@);
        let ghost cells = classify::result_cells(fd.result_lift);
        assert forall|i: int| 0 <= i < cells.len() implies slab_size(#[trigger] cells[i])
            <= u32::MAX by {
            classify::lemma_result_in_walk(per_func@, is_flags(), f as int, i);
        }
        proof {
            lemma_slab_sizes_concat(head + classify::param_cells(fd.params@), cells);
        }
        if let Some(rl) = &fd.result_lift {
            match &rl.source {
                ResultSource::Compound(c) => {
                    collect_flags_sizes(&c.plan, &mut sizes);
                },
                ResultSource::Direct(cell) => {
                    proof {
                        assert(cells[0] == *cell);
                        assert(cells.drop_last() =~= Seq::<Cell>::empty());
                        assert(slab_sizes(Seq::<Cell>::empty()) =~= Seq::<u32>::empty());
                    }
                    if let Cell::Flags { flag_names, .. } = cell {
                        sizes.push(flag_names.len() as u32 * STRING_FLAT_BYTES);
                    }
                },
            }
        }
        f += 1;
        assert(per_func@.take(f as int).drop_last() =~= per_func@.take(f - 1));
        assert(sizes@ =~= slab_sizes(classify::walked(per_func@.take(f as int))));
    }
    assert(per_func@.take(f as int) =~= per_func@);
    sizes
}

/// Adds the slab sizes of one plan's flags cells.
pub fn collect_flags_sizes(plan: &LiftPlan, sizes: &mut Vec<u32>)
    requires
        slabs_fit(plan.cells@),
    ensures
        final(sizes)@ == old(sizes)@ + slab_sizes(plan.cells@),
{
    let mut i: usize = 0;
    assert(plan.cells@.take(0) =~= Seq::empty());
    while i < plan.cells.len()
        invariant
            i <= plan.cells.len(),
            slabs_fit(plan.cells@),
            sizes@ == old(sizes)@ + slab_sizes(plan.cells@.take(i as int)),
        decreases plan.cells.len() - i,
    {
        assert(plan.cells@.take(i + 1).drop_last() =~= plan.cells@.take(i as int));
        assert(slab_size(plan.cells@[i as int]) <= u32::MAX);
        if let Cell::Flags { flag_names, .. } = &plan.cells[i] {
            sizes.push(flag_names.len() as u32 * STRING_FLAT_BYTES);
        }
        i += 1;
        assert(sizes@ =~= old(sizes)@ + slab_sizes(plan.cells@.take(i as int)));
    }
    assert(plan.cells@.take(i as int) =~= plan.cells@);
}

proof fn lemma_slab_sizes_concat(a: Seq<Cell>, b: Seq<Cell>)
    ensures
        slab_sizes(a + b) == slab_sizes(a) + slab_sizes(b),
    decreases b.len(),
{
    if b.len() == 0 {
        assert(a + b =~= a);
        assert(slab_sizes(a) + slab_sizes(b) =~= slab_sizes(a));
    } else {
        assert((a + b).drop_last() =~= a + b.drop_last());
        lemma_slab_sizes_concat(a, b.drop_last());
        assert(slab_sizes(a + b) =~= slab_sizes(a) + slab_sizes(b));
    }
}

/// Sizes and addresses go in lockstep: there is one size per flags cell of the
/// walk, and the cell whose rank is `k` has the size at position `k`. By
/// [`lemma_flags_param_entry`] and [`lemma_flags_result_entry`] it also takes
/// the address at position `k`.
pub proof fn lemma_flags_lockstep(cells: Seq<Cell>, w: int)
    requires
        0 <= w < cells.len(),
        cells[w] is Flags,
    ensures
        slab_sizes(cells).len() == classify::count(cells, is_flags()),
        classify::rank(cells, is_flags(), w) < slab_sizes(cells).len(),
        slab_sizes(cells)[classify::rank(cells, is_flags(), w) as int] == slab_size(
            cells[w],
        ) as u32,
    decreases cells.len(),
{
    let init = cells.drop_last();
    lemma_slab_sizes_len(cells);
    lemma_slab_sizes_len(init);
    if w == cells.len() - 1 {
        assert(cells.take(w) =~= init);
    } else {
        lemma_flags_lockstep(init, w);
        assert(init.take(w) =~= cells.take(w));
    }
}

proof fn lemma_slab_sizes_len(cells: Seq<Cell>)
    ensures
        slab_sizes(cells).len() == classify::count(cells, is_flags()),
    decreases cells.len(),
{
    if cells.len() > 0 {
        lemma_slab_sizes_len(cells.drop_last());
    }
}

/// A parameter's flags cell takes the slab address whose position is the
/// cell's rank in the walk.
pub proof fn lemma_flags_param_entry(
    maps: FlagsInfoMaps,
    per_func: Seq<FuncClassified>,
    addrs: Seq<u32>,
    f: int,
    p: int,
    i: int,
)
    requires
        describes_flags(maps, per_func.len(), per_func, addrs),
        0 <= f < per_func.len(),
        0 <= p < per_func[f].params@.len(),
        0 <= i < per_func[f].params@[p].plan.cells@.len(),
        per_func[f].params@[p].plan.cells@[i] is Flags,
    ensures
        sidetable::views(maps.per_cell_fill.per_param@[f]@[p]@)[i] == flags_fill(
            per_func[f].params@[p].plan.cells@[i],
            classify::rank(per_func[f].params@[p].plan.cells@, is_flags(), i) as u32,
            addrs[classify::rank(
                classify::walked(per_func),
                is_flags(),
                classify::param_position(per_func, f, p) + i,
            ) as int],
        ),
{
    classify::lemma_param_in_walk(per_func, is_flags(), f, p, i);
    assert(func_flags(maps, f, per_func, addrs));
    assert(sidetable::views(maps.per_cell_fill.per_param@[f]@[p]@) == flags_fills(
        per_func[f].params@[p].plan.cells@,
        addrs,
        classify::before_param(per_func, is_flags(), f, p) as int,
    ));
}

/// A result's flags cell, compound or direct, takes the slab address whose
/// position is the cell's rank in the walk.
pub proof fn lemma_flags_result_entry(
    maps: FlagsInfoMaps,
    per_func: Seq<FuncClassified>,
    addrs: Seq<u32>,
    f: int,
    i: int,
)
    requires
        describes_flags(maps, per_func.len(), per_func, addrs),
        0 <= f < per_func.len(),
        0 <= i < classify::result_cells(per_func[f].result_lift).len(),
        classify::result_cells(per_func[f].result_lift)[i] is Flags,
    ensures
        (match per_func[f].result_lift {
            Some(ResultLift { source: ResultSource::Direct(_) }) => match maps.per_result_single_fill@[f] {
                Some(fill) => Some(fill@),
                None => None,
            },
            _ => sidetable::views(maps.per_cell_fill.per_result@[f]@)[i],
        }) == flags_fill(
            classify::result_cells(per_func[f].result_lift)[i],
            classify::rank(classify::result_cells(per_func[f].result_lift), is_flags(), i) as u32,
            addrs[classify::rank(
                classify::walked(per_func),
                is_flags(),
                classify::result_position(per_func, f) + i,
            ) as int],
        ),
{
    classify::lemma_result_in_walk(per_func, is_flags(), f, i);
    let cells = classify::result_cells(per_func[f].result_lift);
    classify::lemma_rank_bounds(cells, is_flags(), 0, 0);
    assert(func_flags(maps, f, per_func, addrs));
}

/// The flags cells of a plan take each entry index below their count exactly
/// once.
pub proof fn lemma_flags_numbering(cells: Seq<Cell>, addrs: Seq<u32>, start: int, k: u32) -> (i: int)
    requires
        classify::count(cells, is_flags()) <= u32::MAX,
        k < classify::count(cells, is_flags()),
    ensures
        0 <= i < cells.len(),
        flags_fills(cells, addrs, start)[i] == flags_fill(cells[i], k, addrs[start + k]),
        flags_fills(cells, addrs, start)[i] is Some,
        forall|j: int|
            0 <= j < cells.len() && #[trigger] flags_fills(cells, addrs, start)[j] is Some && j != i
                ==> flags_fills(cells, addrs, start)[j]->0.slot_source->entry_idx != k,
{
    let i = classify::lemma_rank_onto(cells, is_flags(), k as nat);
    assert forall|j: int|
        0 <= j < cells.len() && #[trigger] flags_fills(cells, addrs, start)[j] is Some && j
            != i implies flags_fills(cells, addrs, start)[j]->0.slot_source->entry_idx != k by {
        classify::lemma_rank_bounds(cells, is_flags(), j, j);
        if j < i {
            classify::lemma_rank_distinct(cells, is_flags(), j, i);
        } else {
            classify::lemma_rank_distinct(cells, is_flags(), i, j);
        }
    }
    i
}

/// Each slab has room for the name of every flag of its cell, and no more: as
/// many pairs of words as the cell has flags.
pub proof fn lemma_slab_room(cells: Seq<Cell>, w: int, flag: int)
    requires
        0 <= w < cells.len(),
        cells[w] is Flags,
        cells[w]->Flags_flag_names@.len() * 8 <= u32::MAX,
        0 <= flag < cells[w]->Flags_flag_names@.len(),
    ensures
        slab_sizes(cells).len() == cells.filter(|cell: Cell| cell is Flags).len(),
        ({
            let size = slab_sizes(cells)[cells.take(w).filter(|cell: Cell| cell is Flags).len() as int];
            &&& size == cells[w]->Flags_flag_names@.len() * 8
            &&& (flag + 1) * 8 <= size
        }),
{
    lemma_slab_size(cells, w);
}

/// Each slab is eight bytes per flag of its cell, also where there is no flag
/// at all.
pub proof fn lemma_slab_size(cells: Seq<Cell>, w: int)
    requires
        0 <= w < cells.len(),
        cells[w] is Flags,
        cells[w]->Flags_flag_names@.len() * 8 <= u32::MAX,
    ensures
        slab_sizes(cells).len() == cells.filter(|cell: Cell| cell is Flags).len(),
        slab_sizes(cells)[cells.take(w).filter(|cell: Cell| cell is Flags).len() as int]
            == cells[w]->Flags_flag_names@.len() * 8,
{
    lemma_flags_lockstep(cells, w);
    classify::lemma_count_filter(cells, is_flags());
    classify::lemma_rank_filter(cells, is_flags(), w);
    assert(is_flags() =~= |cell: Cell| cell is Flags);
}

/// Slabs fit wherever eight bytes per flag do.
pub proof fn lemma_slabs_fit(cells: Seq<Cell>)
    requires
        forall|i: int| #![trigger cells[i]]
            0 <= i < cells.len() && cells[i] is Flags ==> cells[i]->Flags_flag_names@.len() * 8
                <= u32::MAX,
    ensures
        slabs_fit(cells),
{
}

/// A row of entries has one slot per cell. A flags cell's entry names the
/// cell's type and the cell's flags, in order; its index is how many flags cells
/// stand before it, and its address comes as many after the first. Other cells
/// have none.
pub proof fn lemma_flags_row(
    row: Seq<Option<FlagsRuntimeFill>>,
    cells: Seq<Cell>,
    addrs: Seq<u32>,
    start: int,
    i: int,
)
    requires
        sidetable::views(row) == flags_fills(cells, addrs, start),
        cells.filter(|cell: Cell| cell is Flags).len() <= u32::MAX,
        0 <= i < cells.len(),
    ensures
        row.len() == cells.len(),
        match row[i] {
            Some(fill) => {
                &&& cells[i] is Flags
                &&& fill.ty_name == cells[i]->Flags_ty_name
                &&& fill.flag_names@ == cells[i]->Flags_flag_names@
                &&& fill.slot_source matches FlagsSlotSource::Static { entry_idx, scratch_addr }
                &&& entry_idx == cells.take(i).filter(|cell: Cell| cell is Flags).len()
                &&& le::bits(scratch_addr) == addrs[start + entry_idx]
            },
            None => !(cells[i] is Flags),
        },
{
    assert(is_flags() =~= |cell: Cell| cell is Flags);
    classify::lemma_count_filter(cells, is_flags());
    classify::lemma_rank_filter(cells, is_flags(), i);
    classify::lemma_rank_bounds(cells, is_flags(), i, i);
    assert(sidetable::views(row).len() == cells.len());
    assert(sidetable::views(row)[i] == flags_fills(cells, addrs, start)[i]);
    le::lemma_bits_signed(0, addrs[start + classify::rank(cells, is_flags(), i)]);
}

/// Each parameter has the row of its own plan, with the addresses that come
/// after as many as the walk meets flags cells before it, and its count is that
/// of its flags cells.
pub proof fn lemma_flags_param_row(
    maps: FlagsInfoMaps,
    per_func: Seq<FuncClassified>,
    addrs: Seq<u32>,
    f: int,
    p: int,
)
    requires
        describes_flags(maps, per_func.len(), per_func, addrs),
        0 <= f < per_func.len(),
        0 <= p < per_func[f].params@.len(),
    ensures
        maps.per_cell_fill.per_param@.len() == per_func.len(),
        maps.per_cell_fill.per_param@[f]@.len() == per_func[f].params@.len(),
        sidetable::views(maps.per_cell_fill.per_param@[f]@[p]@) == flags_fills(
            per_func[f].params@[p].plan.cells@,
            addrs,
            classify::met_before_param(per_func, f, p, 0).filter(
                |cell: Cell| cell is Flags,
            ).len() as int,
        ),
        maps.per_param_count@[f]@[p] == per_func[f].params@[p].plan.cells@.filter(
            |cell: Cell| cell is Flags,
        ).len(),
{
    let cells = per_func[f].params@[p].plan.cells@;
    assert(is_flags() =~= |cell: Cell| cell is Flags);
    assert(func_flags(maps, f, per_func, addrs));
    assert(sidetable::views(maps.per_cell_fill.per_param@[f]@[p]@) == flags_fills(
        cells,
        addrs,
        classify::before_param(per_func, is_flags(), f, p) as int,
    ));
    classify::lemma_count_filter(cells, is_flags());
    classify::lemma_met_at_param(per_func, is_flags(), f, p);
}

/// A compound result has the row of its plan, with addresses as for parameters.
/// A direct flags result has the only entry, with index zero; any other result
/// has none.
pub proof fn lemma_flags_result_row(
    maps: FlagsInfoMaps,
    per_func: Seq<FuncClassified>,
    addrs: Seq<u32>,
    f: int,
)
    requires
        describes_flags(maps, per_func.len(), per_func, addrs),
        0 <= f < per_func.len(),
    ensures
        match per_func[f].result_lift {
            Some(ResultLift { source: ResultSource::Compound(c) }) => {
                &&& maps.per_result_single_fill@[f] is None
                &&& maps.per_result_count@[f] == c.plan.cells@.filter(
                    |cell: Cell| cell is Flags,
                ).len()
                &&& sidetable::views(maps.per_cell_fill.per_result@[f]@) == flags_fills(
                    c.plan.cells@,
                    addrs,
                    classify::met_before_result(per_func, f, 0).filter(
                        |cell: Cell| cell is Flags,
                    ).len() as int,
                )
            },
            Some(ResultLift { source: ResultSource::Direct(cell) }) => {
                &&& maps.per_cell_fill.per_result@[f]@.len() == 0
                &&& match maps.per_result_single_fill@[f] {
                    Some(fill) => {
                        &&& maps.per_result_count@[f] == 1
                        &&& cell is Flags
                        &&& fill.ty_name == cell->Flags_ty_name
                        &&& fill.flag_names@ == cell->Flags_flag_names@
                        &&& fill.slot_source matches FlagsSlotSource::Static {
                            entry_idx,
                            scratch_addr,
                        }
                        &&& entry_idx == 0
                        &&& le::bits(scratch_addr) == addrs[classify::met_before_result(
                            per_func,
                            f,
                            0,
                        ).filter(|cell: Cell| cell is Flags).len() as int]
                    },
                    None => maps.per_result_count@[f] == 0 && !(cell is Flags),
                }
            },
            None => {
                &&& maps.per_cell_fill.per_result@[f]@.len() == 0
                &&& maps.per_result_single_fill@[f] is None
                &&& maps.per_result_count@[f] == 0
            },
        },
{
    let cells = classify::compound_cells(per_func[f].result_lift);
    let start = classify::before_result(per_func, is_flags(), f) as int;
    let row = maps.per_cell_fill.per_result@[f]@;
    assert(is_flags() =~= |cell: Cell| cell is Flags);
    assert(func_flags(maps, f, per_func, addrs));
    assert(sidetable::views(row) == flags_fills(cells, addrs, start));
    assert(sidetable::views(row).len() == cells.len());
    classify::lemma_count_result(per_func[f].result_lift, is_flags());
    classify::lemma_count_filter(cells, is_flags());
    classify::lemma_met_at_result(per_func, is_flags(), f);
    le::lemma_bits_signed(0, addrs[start]);
}

} // verus!
