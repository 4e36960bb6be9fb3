use splicer::abi::BlobSlice;
use splicer::reloc::{resolve, Reloc, RelocPlan, SymRef, SymbolBases, SymbolId};

/// Many segments with many relocations each.
#[test]
fn resolve_writes_each_site_in_owning_segment() {
    const N: u32 = 64;
    const SLOTS_PER_SEG: u32 = 8;
    const SEG_BYTES: u32 = SLOTS_PER_SEG * 4;
    // A gap of four bytes between segments, so that they do not coalesce.
    const STRIDE: u32 = SEG_BYTES + 4;

    let mut symbols = SymbolBases::new();
    let mut plan = RelocPlan::new();
    let mut data_segments: Vec<(u32, Vec<u8>)> = Vec::new();
    let mut targets: Vec<SymbolId> = Vec::new();

    for i in 0..N {
        let id = symbols.allocate();
        let base = i * STRIDE;
        symbols.set(id, base);
        data_segments.push((base, vec![0u8; SEG_BYTES as usize]));
        targets.push(id);
    }

    for (seg_idx, (base, _)) in data_segments.iter().enumerate() {
        let relocs: Vec<Reloc> = (0..SLOTS_PER_SEG)
            .map(|s| Reloc {
                site: s * 4,
                target: targets[(seg_idx + s as usize) % N as usize],
                addend: (seg_idx as i32) * 100 + s as i32,
            })
            .collect();
        plan.record_segment(seg_idx, *base, relocs);
    }

    plan.resolve(&symbols, &mut data_segments);

    for (seg_idx, (_, bytes)) in data_segments.iter().enumerate() {
        for s in 0..SLOTS_PER_SEG as usize {
            let off = s * 4;
            let written = i32::from_le_bytes(bytes[off..off + 4].try_into().unwrap());
            let target_base = ((seg_idx + s) % N as usize) as i32 * STRIDE as i32;
            let addend = (seg_idx as i32) * 100 + s as i32;
            assert_eq!(written, target_base + addend);
        }
    }
}

/// Placements that share an entry; each relocation hits its own offset.
#[test]
fn resolve_handles_coalesced_segments() {
    let mut symbols = SymbolBases::new();
    let mut plan = RelocPlan::new();

    let id_a = symbols.allocate();
    let id_b = symbols.allocate();
    symbols.set(id_a, 0);
    symbols.set(id_b, 8);

    let mut data_segments = vec![(0u32, vec![0u8; 16])];

    plan.record_segment(
        0,
        0,
        vec![Reloc {
            site: 4,
            target: id_b,
            addend: 0,
        }],
    );
    plan.record_segment(
        0,
        8,
        vec![Reloc {
            site: 0,
            target: id_a,
            addend: 3,
        }],
    );

    plan.resolve(&symbols, &mut data_segments);

    let bytes = &data_segments[0].1;
    assert_eq!(i32::from_le_bytes(bytes[4..8].try_into().unwrap()), 8);
    assert_eq!(i32::from_le_bytes(bytes[8..12].try_into().unwrap()), 3);
}

fn two_segments(a_first: bool) -> Vec<(u32, Vec<u8>)> {
    let mut symbols = SymbolBases::new();
    let (a, b) = (symbols.allocate(), symbols.allocate());
    if a_first {
        symbols.set(a, 0x100);
        symbols.set(b, 0x200);
    } else {
        symbols.set(b, 0x200);
        symbols.set(a, 0x100);
    }
    let in_a = vec![
        Reloc { site: 0, target: b, addend: 16 },
        Reloc { site: 4, target: a, addend: -1 },
    ];
    let in_b = vec![Reloc { site: 2, target: a, addend: 8 }];
    let mut plan = RelocPlan::new();
    if a_first {
        plan.record_segment(0, 0x100, in_a);
        plan.record_segment(1, 0x200, in_b);
    } else {
        plan.record_segment(1, 0x200, in_b);
        plan.record_segment(0, 0x100, in_a);
    }
    let mut data_segments = vec![(0x100, vec![0xffu8; 8]), (0x200, vec![0xffu8; 8])];
    plan.resolve(&symbols, &mut data_segments);
    data_segments
}

#[test]
fn placement_order_does_not_show() {
    let expected = vec![
        (0x100, vec![0x10, 0x02, 0x00, 0x00, 0xff, 0x00, 0x00, 0x00]),
        (0x200, vec![0xff, 0xff, 0x08, 0x01, 0x00, 0x00, 0xff, 0xff]),
    ];
    assert_eq!(two_segments(true), expected);
    assert_eq!(two_segments(false), expected);
}

#[test]
fn symbol_ids_count_up() {
    let mut symbols = SymbolBases::new();
    assert_eq!(symbols.allocate(), 0);
    assert_eq!(symbols.allocate(), 1);
    symbols.set(1, 40);
    symbols.set(0, 50);
    assert_eq!(symbols.base_of(0), 50);
    assert_eq!(symbols.base_of(1), 40);
}

#[test]
fn symbolic_slices_become_absolute() {
    let mut symbols = SymbolBases::new();
    let id = symbols.allocate();
    symbols.set(id, 1000);
    let sym = SymRef { target: id, off: 24, len: 3 };
    assert_eq!(resolve(Some(sym), &symbols), BlobSlice { off: 1024, len: 3 });
    assert_eq!(resolve(None, &symbols), BlobSlice::empty());
}

#[test]
fn entry_order_does_not_show() {
    let resolved = |a_at: usize, b_at: usize| {
        let mut symbols = SymbolBases::new();
        let (a, b) = (symbols.allocate(), symbols.allocate());
        symbols.set(a, 16);
        symbols.set(b, 32);
        let mut plan = RelocPlan::new();
        plan.record_segment(a_at, 16, vec![Reloc { site: 0, target: b, addend: 1 }]);
        plan.record_segment(b_at, 32, vec![Reloc { site: 0, target: a, addend: 2 }]);
        let mut entries = vec![(0u32, Vec::new()); 2];
        entries[a_at] = (16, vec![0u8; 4]);
        entries[b_at] = (32, vec![0u8; 4]);
        plan.resolve(&symbols, &mut entries);
        (entries[a_at].clone(), entries[b_at].clone())
    };
    let expected = ((16, vec![33, 0, 0, 0]), (32, vec![18, 0, 0, 0]));
    assert_eq!(resolved(0, 1), expected);
    assert_eq!(resolved(1, 0), expected);
}
