use splicer::abi::{BlobSlice, RecordLayout};
use splicer::classify::{CompoundResult, FuncClassified, ParamLift, ResultLift, ResultSource};
use splicer::plan::{Cell, LiftPlan};
use splicer::reloc::{SymRef, SymbolBases};
use splicer::sidetable::char_info::{
    build_char_scratch_map, char_scratch_sizes, collect, map_plan, result_is_direct_char,
};
use splicer::sidetable::enum_info::{
    append_entries, build_enum_info_blob, sole_enum_case, visit_enum_cases,
};
use splicer::sidetable::flags_info;
use splicer::sidetable::flags_info::{
    build_flags_info_maps, build_static_fill, collect_flags_sizes, flags_scratch_sizes,
    FlagsSlotSource,
};
use splicer::sidetable::handle_info;
use splicer::sidetable::handle_info::{build_handle_info_maps, HandleSlotSource};
use splicer::sidetable::record_info;
use splicer::sidetable::record_info::{
    back_fill_record_fields_ptrs, build_record_info_maps, RecordRuntimeFill, RecordSlotSource,
};
use splicer::sidetable::variant_info;
use splicer::sidetable::variant_info::{build_variant_info_maps, VariantSlotSource};
use splicer::sidetable::{
    back_fill_per_cell, fold_cell_side_data, resolve_cell_syms, CellFillSources, CellSideData,
    CharScratch, PerCellIndices, TupleIdxSource,
};

fn slice(off: u32, len: u32) -> BlobSlice {
    BlobSlice { off, len }
}

fn plan(cells: Vec<Cell>) -> LiftPlan {
    let root = cells.len().saturating_sub(1) as u32;
    LiftPlan { cells, root, flat_slot_count: 0 }
}

fn param(cells: Vec<Cell>) -> ParamLift {
    ParamLift { plan: plan(cells) }
}

fn compound(cells: Vec<Cell>) -> Option<ResultLift> {
    Some(ResultLift { source: ResultSource::Compound(CompoundResult { plan: plan(cells) }) })
}

fn direct(cell: Cell) -> Option<ResultLift> {
    Some(ResultLift { source: ResultSource::Direct(cell) })
}

fn func(params: Vec<ParamLift>, result_lift: Option<ResultLift>) -> FuncClassified {
    FuncClassified { params, result_lift }
}

fn boolean() -> Cell {
    Cell::Bool { flat_slot: 0 }
}

fn character() -> Cell {
    Cell::Char { flat_slot: 0 }
}

fn flags(n: u32) -> Cell {
    Cell::Flags {
        flat_slot: 0,
        ty_name: slice(n, 1),
        flag_names: (0..n).map(|k| slice(k, k)).collect(),
    }
}

fn handle(n: u32) -> Cell {
    Cell::Handle { flat_slot: 0, ty_name: slice(n, 2) }
}

fn variant(n: u32) -> Cell {
    Cell::Variant {
        disc_slot: 0,
        ty_name: slice(n, 3),
        case_names: vec![slice(1, 1), slice(2, 2)],
        per_case_payload: vec![None, Some(n)],
    }
}

fn enum_case(n: u32, cases: u32) -> Cell {
    Cell::EnumCase {
        flat_slot: 0,
        ty_name: slice(n, 4),
        case_names: (0..cases).map(|k| slice(100 + k, k)).collect(),
    }
}

fn record(n: u32, fields: Vec<(BlobSlice, u32)>) -> Cell {
    Cell::RecordOf { ty_name: slice(n, 5), fields }
}

fn list_of(cells: Vec<Cell>) -> Cell {
    Cell::ListOf { ptr_slot: 0, len_slot: 1, element_plan: Box::new(plan(cells)) }
}

fn word(bytes: &[u8], off: usize) -> u32 {
    u32::from_le_bytes(bytes[off..off + 4].try_into().unwrap())
}

fn slice_at(bytes: &[u8], off: usize) -> BlobSlice {
    slice(word(bytes, off), word(bytes, off + 4))
}

// ─── Chars ───────────────────────────────────────────────────────

fn char_funcs() -> Vec<FuncClassified> {
    vec![
        func(
            vec![param(vec![character(), boolean(), character()]), param(vec![boolean()])],
            direct(character()),
        ),
        func(vec![param(vec![list_of(vec![character()])])], compound(vec![boolean(), character()])),
        func(vec![], None),
        func(vec![], direct(boolean())),
    ]
}

#[test]
fn char_addresses_go_with_their_sizes() {
    let funcs = char_funcs();
    assert_eq!(char_scratch_sizes(&funcs), [4, 4, 4, 4]);
    let mut addrs = vec![0x10u32, 0x20, 0x30, 0x8000_0000, 0x50].into_iter();
    let maps = build_char_scratch_map(&funcs, &mut addrs);
    assert_eq!(
        maps.per_cell.per_param,
        [vec![vec![Some(0x10), None, Some(0x20)], vec![None]], vec![vec![None]], vec![], vec![]]
    );
    assert_eq!(maps.per_cell.per_result, [vec![], vec![None, Some(i32::MIN)], vec![], vec![]]);
    assert_eq!(maps.per_result_single, [Some(0x30), None, None, None]);
    assert_eq!(addrs.next(), Some(0x50));
}

#[test]
fn one_plan_of_chars() {
    let cells = plan(vec![boolean(), character()]);
    let mut sizes = vec![9];
    collect(&cells, &mut sizes);
    assert_eq!(sizes, [9, 4]);
    let mut addrs = vec![7u32].into_iter();
    assert_eq!(map_plan(&cells, &mut addrs), [None, Some(7)]);
}

#[test]
fn direct_char_results_are_told_apart() {
    let direct_flags: Vec<bool> = char_funcs().iter().map(result_is_direct_char).collect();
    assert_eq!(direct_flags, [true, false, false, false]);
    assert!(!result_is_direct_char(&func(vec![], compound(vec![character()]))));
}

// ─── Flags ───────────────────────────────────────────────────────

#[test]
fn flags_take_addresses_in_walk_order() {
    let funcs = vec![
        func(vec![param(vec![flags(2), boolean(), flags(0)])], compound(vec![flags(1)])),
        func(vec![param(vec![boolean()])], direct(flags(3))),
    ];
    assert_eq!(flags_scratch_sizes(&funcs), [16, 0, 8, 24]);
    let mut addrs = vec![100u32, 200, 300, 400, 500].into_iter();
    let maps = build_flags_info_maps(&funcs, &mut addrs);
    assert_eq!(addrs.next(), Some(500));
    let row = maps.per_cell_fill.for_param(0, 0);
    assert_eq!(row.len(), 3);
    let first = row[0].as_ref().unwrap();
    assert_eq!(first.slot_source, FlagsSlotSource::Static { entry_idx: 0, scratch_addr: 100 });
    assert_eq!(first.ty_name, slice(2, 1));
    assert_eq!(first.flag_names, [slice(0, 0), slice(1, 1)]);
    assert!(row[1].is_none());
    let third = row[2].as_ref().unwrap();
    assert_eq!(third.slot_source, FlagsSlotSource::Static { entry_idx: 1, scratch_addr: 200 });
    let result = maps.per_cell_fill.for_result(0)[0].as_ref().unwrap();
    assert_eq!(result.slot_source, FlagsSlotSource::Static { entry_idx: 0, scratch_addr: 300 });
    let single = maps.per_result_single_fill[1].as_ref().unwrap();
    assert_eq!(single.slot_source, FlagsSlotSource::Static { entry_idx: 0, scratch_addr: 400 });
    assert!(maps.per_result_single_fill[0].is_none());
    assert_eq!(maps.per_param_count, [vec![2], vec![0]]);
    assert_eq!(maps.per_result_count, [1, 1]);
}

#[test]
fn one_plan_of_flags() {
    let cells = plan(vec![flags(1), list_of(vec![flags(4)])]);
    let mut sizes = vec![];
    collect_flags_sizes(&cells, &mut sizes);
    assert_eq!(sizes, [8]);
    let mut addrs = vec![1u32, 2].into_iter();
    let (row, count) = flags_info::scan_plan(&cells, &mut addrs);
    assert_eq!(count, 1);
    assert!(row[0].is_some() && row[1].is_none());
    let fill = build_static_fill(5, &flags(1), &mut addrs);
    assert_eq!(fill.slot_source, FlagsSlotSource::Static { entry_idx: 5, scratch_addr: 2 });
}

// ─── Handles and variants ────────────────────────────────────────

#[test]
fn handles_are_numbered_per_plan() {
    let funcs = vec![
        func(
            vec![param(vec![handle(1), boolean(), handle(2)]), param(vec![handle(3)])],
            direct(handle(4)),
        ),
        func(vec![], compound(vec![boolean(), handle(5)])),
    ];
    let maps = build_handle_info_maps(&funcs);
    let row = maps.per_cell_fill.for_param(0, 0);
    assert_eq!(row[0].unwrap().slot_source, HandleSlotSource::Static(0));
    assert_eq!(row[0].unwrap().ty_name, slice(1, 2));
    assert!(row[1].is_none());
    assert_eq!(row[2].unwrap().slot_source, HandleSlotSource::Static(1));
    let row = maps.per_cell_fill.for_param(0, 1);
    assert_eq!(row[0].unwrap().slot_source, HandleSlotSource::Static(0));
    assert_eq!(maps.per_cell_fill.for_result(0).len(), 0);
    assert_eq!(maps.per_cell_fill.for_result(1)[1].unwrap().ty_name, slice(5, 2));
    assert_eq!(maps.per_result_single_fill[0].unwrap().slot_source, HandleSlotSource::Static(0));
    assert!(maps.per_result_single_fill[1].is_none());
    assert_eq!(maps.per_param_count, [vec![2, 1], vec![]]);
    assert_eq!(maps.per_result_count, [1, 1]);
    let (row, count) = handle_info::scan_plan(&plan(vec![handle(9)]));
    assert_eq!((row.len(), count), (1, 1));
}

#[test]
fn variants_are_numbered_per_plan() {
    let funcs = vec![func(
        vec![param(vec![variant(1), variant(2)])],
        compound(vec![boolean(), variant(3)]),
    )];
    let maps = build_variant_info_maps(&funcs);
    let second = maps.per_cell_fill.for_param(0, 0)[1].as_ref().unwrap();
    assert_eq!(second.slot_source, VariantSlotSource::Static { entry_idx: 1 });
    assert_eq!(second.ty_name, slice(2, 3));
    assert_eq!(second.case_names, [slice(1, 1), slice(2, 2)]);
    assert_eq!(second.per_case_payload, [None, Some(2)]);
    let result = maps.per_cell_fill.for_result(0)[1].as_ref().unwrap();
    assert_eq!(result.slot_source, VariantSlotSource::Static { entry_idx: 0 });
    assert_eq!(maps.per_param_count, [vec![2]]);
    assert_eq!(maps.per_result_count, [1]);
    let (row, count) = variant_info::scan_plan(&plan(vec![boolean(), variant(7)]));
    assert!(row[0].is_none() && row[1].is_some());
    assert_eq!(count, 1);
}

// ─── Records ─────────────────────────────────────────────────────

fn tuple_layout() -> RecordLayout {
    RecordLayout::new(12, 4).with_field("name", 0).with_field("idx", 8)
}

fn source(fill: &Option<RecordRuntimeFill>) -> RecordSlotSource {
    fill.unwrap().slot_source
}

#[test]
fn records_point_at_their_field_tuples() {
    let funcs = vec![
        func(
            vec![
                param(vec![boolean(), record(1, vec![(slice(10, 1), 0)])]),
                param(vec![record(2, vec![]), record(3, vec![(slice(20, 2), 5), (slice(30, 3), 6)])]),
            ],
            compound(vec![record(4, vec![(slice(40, 4), 7)])]),
        ),
        func(vec![], direct(boolean())),
    ];
    let mut maps = build_record_info_maps(&funcs, &tuple_layout(), 77);
    assert_eq!(maps.tuples.id, 77);
    assert_eq!(maps.tuples.align, 4);
    assert!(maps.tuples.relocs.is_empty());
    let bytes = maps.tuples.bytes.clone();
    assert_eq!(bytes.len(), 48);
    assert_eq!((slice_at(&bytes, 0), word(&bytes, 8)), (slice(10, 1), 0));
    assert_eq!((slice_at(&bytes, 12), word(&bytes, 20)), (slice(20, 2), 5));
    assert_eq!((slice_at(&bytes, 24), word(&bytes, 32)), (slice(30, 3), 6));
    assert_eq!((slice_at(&bytes, 36), word(&bytes, 44)), (slice(40, 4), 7));

    let fills = &maps.per_cell_fill;
    let at = |entry_idx: u32, fields_ptr: i32| RecordSlotSource::Static { entry_idx, fields_ptr };
    assert!(fills.for_param(0, 0)[0].is_none());
    assert_eq!(source(&fills.for_param(0, 0)[1]), at(0, 0));
    assert_eq!(source(&fills.for_param(0, 1)[0]), at(0, 12));
    assert_eq!(source(&fills.for_param(0, 1)[1]), at(1, 12));
    assert_eq!(fills.for_param(0, 1)[1].unwrap().fields_len, 2);
    assert_eq!(fills.for_param(0, 1)[1].unwrap().ty_name, slice(3, 5));
    assert_eq!(source(&fills.for_result(0)[0]), at(0, 36));
    assert_eq!(maps.per_param_count, [vec![1, 2], vec![]]);
    assert_eq!(maps.per_result_count, [1, 0]);

    back_fill_record_fields_ptrs(&mut maps.per_cell_fill, 1000);
    let fills = &maps.per_cell_fill;
    assert_eq!(source(&fills.for_param(0, 0)[1]), at(0, 1000));
    assert_eq!(source(&fills.for_param(0, 1)[1]), at(1, 1012));
    assert_eq!(source(&fills.for_result(0)[0]), at(0, 1036));
}

#[test]
fn entries_of_list_elements_are_not_rebased() {
    let per_iteration = RecordSlotSource::PerIteration {
        entry_offset_in_elem: 1,
        tuples_offset_in_elem: 2,
    };
    let fill = RecordRuntimeFill { slot_source: per_iteration, ty_name: slice(0, 0), fields_len: 0 };
    let mut fills = PerCellIndices { per_param: vec![], per_result: vec![vec![None, Some(fill)]] };
    back_fill_record_fields_ptrs(&mut fills, 1000);
    assert!(fills.per_result[0][0].is_none());
    assert_eq!(source(&fills.per_result[0][1]), per_iteration);
}

#[test]
fn one_plan_of_records() {
    let mut bytes = vec![1u8, 2];
    let cells = plan(vec![record(1, vec![(slice(3, 4), 5)]), boolean()]);
    let (row, count) = record_info::scan_plan(&cells, &tuple_layout(), &mut bytes);
    assert_eq!(count, 1);
    assert_eq!(source(&row[0]), RecordSlotSource::Static { entry_idx: 0, fields_ptr: 2 });
    assert!(row[1].is_none());
    assert_eq!(bytes, [1, 2, 3, 0, 0, 0, 4, 0, 0, 0, 5, 0, 0, 0]);
}

// ─── Enums ───────────────────────────────────────────────────────

fn entry_layout() -> RecordLayout {
    RecordLayout::new(16, 4).with_field("type-name", 0).with_field("case-name", 8)
}

fn range(sym: &Option<SymRef>) -> (u32, u32, u32) {
    let sym = sym.unwrap();
    (sym.target, sym.off, sym.len)
}

#[test]
fn enum_ranges_hold_their_own_cases() {
    let funcs = vec![
        func(
            vec![param(vec![boolean()]), param(vec![boolean(), enum_case(1, 2)])],
            direct(enum_case(2, 1)),
        ),
        func(
            vec![param(vec![list_of(vec![list_of(vec![enum_case(3, 3)])])])],
            compound(vec![enum_case(4, 1)]),
        ),
        func(vec![], direct(boolean())),
        func(vec![param(vec![enum_case(5, 0)])], None),
    ];
    let table = build_enum_info_blob(&funcs, &entry_layout(), 8);
    assert_eq!((table.segment.id, table.segment.align), (8, 4));
    assert!(table.segment.relocs.is_empty());
    assert_eq!(table.segment.bytes.len(), 16 * 7);
    assert!(table.per_param[0][0].is_none());
    assert_eq!(range(&table.per_param[0][1]), (8, 0, 2));
    assert_eq!(range(&table.per_result[0]), (8, 32, 1));
    assert_eq!(range(&table.per_param[1][0]), (8, 48, 3));
    assert_eq!(range(&table.per_result[1]), (8, 96, 1));
    assert!(table.per_result[2].is_none() && table.per_result[3].is_none());
    assert_eq!(range(&table.per_param[3][0]), (8, 112, 0));
    let bytes = &table.segment.bytes;
    // The last case of the enum within the nested list.
    assert_eq!(slice_at(bytes, 48 + 2 * 16), slice(3, 4));
    assert_eq!(slice_at(bytes, 48 + 2 * 16 + 8), slice(102, 2));
    assert_eq!(slice_at(bytes, 32), slice(2, 4));
}

#[test]
fn enum_cases_are_visited_in_order() {
    let nested = plan(vec![
        enum_case(1, 1),
        list_of(vec![enum_case(2, 1), boolean()]),
        boolean(),
        enum_case(3, 1),
    ]);
    let mut visited = Vec::new();
    visit_enum_cases(&nested, &mut visited);
    let names: Vec<u32> = visited
        .iter()
        .map(|cell| match cell {
            Cell::EnumCase { ty_name, .. } => ty_name.off,
            _ => panic!("not an enum case"),
        })
        .collect();
    assert_eq!(names, [1, 2, 3]);
    assert!(sole_enum_case(&plan(vec![boolean()])).is_none());
    assert!(sole_enum_case(&plan(vec![boolean(), enum_case(1, 1)])).is_some());
}

#[test]
fn entries_are_appended() {
    let mut blob = vec![9u8];
    let cell = enum_case(6, 1);
    let sym = append_entries(&mut blob, &entry_layout(), 3, Some(&cell));
    assert_eq!(range(&sym), (3, 1, 1));
    assert_eq!(blob, [9, 6, 0, 0, 0, 4, 0, 0, 0, 100, 0, 0, 0, 0, 0, 0, 0]);
    assert!(append_entries(&mut blob, &entry_layout(), 3, None).is_none());
    assert_eq!(blob.len(), 17);
}

// ─── Resolving, folding, back-filling ────────────────────────────

#[test]
fn rows_resolve_slot_by_slot() {
    let mut symbols = SymbolBases::new();
    let id = symbols.allocate();
    symbols.set(id, 64);
    let sym = SymRef { target: id, off: 8, len: 2 };
    let grid = PerCellIndices {
        per_param: vec![vec![vec![None, Some(sym)]]],
        per_result: vec![vec![Some(sym), None]],
    };
    assert_eq!(grid.resolve_param(0, 0, &symbols), [None, Some(slice(72, 2))]);
    assert_eq!(grid.resolve_result(0, &symbols), [Some(slice(72, 2)), None]);
    assert_eq!(resolve_cell_syms(&[], &symbols), []);
}

#[test]
fn side_data_follows_the_kind_of_cell() {
    let cells = plan(vec![
        boolean(),
        character(),
        handle(1),
        Cell::TupleOf { children: vec![0, 1] },
        record(2, vec![]),
        flags(1),
        variant(3),
        enum_case(4, 1),
    ]);
    let n = cells.cells.len();
    let mut bytes = Vec::new();
    let (records, _) = record_info::scan_plan(&cells, &tuple_layout(), &mut bytes);
    let (flag_fills, _) = flags_info::scan_plan(&cells, &mut vec![11u32].into_iter());
    let (variants, _) = variant_info::scan_plan(&cells);
    let (handles, _) = handle_info::scan_plan(&cells);
    let chars = map_plan(&cells, &mut vec![22u32].into_iter());
    let mut tuples = vec![None; n];
    tuples[3] = Some(slice(33, 2));
    let side = fold_cell_side_data(
        &cells,
        &CellFillSources {
            record_fill: &records,
            tuple_indices: &tuples,
            flags_fill: &flag_fills,
            variant_fill: &variants,
            char_scratch: &chars,
            handle_fill: &handles,
        },
    );
    assert_eq!(side.len(), n);
    assert!(matches!(side[0], CellSideData::Flat));
    assert!(matches!(
        side[1],
        CellSideData::Char { scratch: CharScratch::Static { scratch_addr: 22 } }
    ));
    assert!(matches!(&side[2], CellSideData::Handle(fill) if fill.ty_name == slice(1, 2)));
    assert!(matches!(
        &side[3],
        CellSideData::Tuple { source: TupleIdxSource::Static(s) } if *s == slice(33, 2)
    ));
    assert!(matches!(&side[4], CellSideData::Record(fill) if fill.ty_name == slice(2, 5)));
    assert!(matches!(
        &side[5],
        CellSideData::Flags(fill)
            if fill.slot_source == FlagsSlotSource::Static { entry_idx: 0, scratch_addr: 11 }
    ));
    assert!(matches!(&side[6], CellSideData::Variant(fill) if fill.per_case_payload[1] == Some(3)));
    assert!(matches!(side[7], CellSideData::Flat));
}

#[test]
fn patches_reach_every_value() {
    let mut grid = PerCellIndices {
        per_param: vec![vec![vec![Some(1u32), None], vec![]], vec![vec![Some(2)]]],
        per_result: vec![vec![None, Some(3)], vec![]],
    };
    let mut singles = [None, Some(4u32)];
    back_fill_per_cell(&mut grid, &mut singles, |value: u32| value * 10);
    assert_eq!(grid.per_param, [vec![vec![Some(10), None], vec![]], vec![vec![Some(20)]]]);
    assert_eq!(grid.per_result, [vec![None, Some(30)], vec![]]);
    assert_eq!(singles, [None, Some(40)]);
}
