//! Lift plans: flat lists of the cells that one parameter or result lifts to.

use crate::abi::BlobSlice;
use vstd::prelude::*;

verus! {

/// One cell of a lift plan. Slots are offsets into the plan's flat slots;
/// children are positions in the same plan. The children of a list element
/// stand in a plan of their own.
#[derive(Debug)]
pub enum Cell {
    Bool { flat_slot: u32 },
    IntegerSignExt { flat_slot: u32 },
    IntegerZeroExt { flat_slot: u32 },
    Integer64 { flat_slot: u32 },
    FloatingF32 { flat_slot: u32 },
    FloatingF64 { flat_slot: u32 },
    Text { ptr_slot: u32, len_slot: u32 },
    Bytes { ptr_slot: u32, len_slot: u32 },
    EnumCase { flat_slot: u32, ty_name: BlobSlice, case_names: Vec<BlobSlice> },
    RecordOf { ty_name: BlobSlice, fields: Vec<(BlobSlice, u32)> },
    TupleOf { children: Vec<u32> },
    Option { disc_slot: u32, child: u32 },
    Result { disc_slot: u32, ok: Option<u32>, err: Option<u32> },
    Flags { flat_slot: u32, ty_name: BlobSlice, flag_names: Vec<BlobSlice> },
    Variant {
        disc_slot: u32,
        ty_name: BlobSlice,
        case_names: Vec<BlobSlice>,
        per_case_payload: Vec<Option<u32>>,
    },
    Char { flat_slot: u32 },
    Handle { flat_slot: u32, ty_name: BlobSlice },
    ListOf { ptr_slot: u32, len_slot: u32, element_plan: Box<LiftPlan> },
}

/// The cells of one parameter, result or list element, children before their
/// parents.
#[derive(Debug)]
pub struct LiftPlan {
    pub cells: Vec<Cell>,
    /// Position of the root cell.
    pub root: u32,
    /// Number of flat slots that the plan consumes.
    pub flat_slot_count: u32,
}

} // verus!
