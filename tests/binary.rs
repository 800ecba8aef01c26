use lsx86features::aggregate::count_instructions;
use lsx86features::binary::{Binary, ElfLayout, LoadError, TextSection, EM_386, EM_X86_64};
use lsx86features::decode::instructions;

// movaps; movaps; addps; movaps; ret
const SSE_CODE: &[u8] = &[
    0x0f, 0x28, 0x06, 0x0f, 0x28, 0x0a, 0x0f, 0x58, 0xc1, 0x0f, 0x29, 0x07, 0xc3,
];

fn layout(machine: u16, text: Option<(u64, u64, u64)>, symbols: &[(&str, u64)]) -> ElfLayout {
    ElfLayout {
        machine,
        text: text.map(|(offset, size, address)| TextSection { offset, size, address }),
        symbols: symbols.iter().map(|(n, a)| (n.to_string(), *a)).collect(),
    }
}

fn load(machine: u16, text: Option<(u64, u64, u64)>, symbols: &[(&str, u64)], data: &[u8]) -> Result<Binary, LoadError> {
    Binary::from_elf(&layout(machine, text, symbols), data)
}

fn counts_of(binary: &Binary) -> Vec<(String, Vec<String>, usize)> {
    let mut v: Vec<_> = binary
        .instruction_counts()
        .into_iter()
        .map(|c| (c.mnemonic, c.features, c.count))
        .collect();
    v.sort();
    v
}

#[test]
fn unknown_machine_is_refused() {
    match load(40, Some((0, 13, 0x1000)), &[], SSE_CODE) {
        Err(LoadError::UnknownArchitecture(40)) => {}
        _ => panic!("expected an unknown architecture"),
    }
}

#[test]
fn missing_text_section_is_refused() {
    assert!(matches!(load(EM_X86_64, None, &[], SSE_CODE), Err(LoadError::NoTextSection)));
}

#[test]
fn text_past_the_end_is_refused() {
    match load(EM_X86_64, Some((4, 13, 0x1000)), &[], SSE_CODE) {
        Err(LoadError::TextOutOfBounds { offset: 4, size: 13, file_size: 13 }) => {}
        _ => panic!("expected out of bounds"),
    }
    assert!(matches!(
        load(EM_X86_64, Some((u64::MAX - 1, 13, 0x1000)), &[], SSE_CODE),
        Err(LoadError::TextOutOfBounds { .. })
    ));
}

#[test]
fn text_address_overflow_is_refused() {
    assert!(matches!(
        load(EM_X86_64, Some((0, 13, u64::MAX - 4)), &[], SSE_CODE),
        Err(LoadError::TextAddressTooLarge(_))
    ));
}

#[test]
fn text_ending_at_end_of_file_is_accepted() {
    let b = load(EM_X86_64, Some((0, 13, 0x1000)), &[("f", 0x1000)], SSE_CODE).ok().unwrap();
    assert_eq!(counts_of(&b).len(), 3);
}

#[test]
fn total_counts_of_sse_code() {
    let b = load(EM_X86_64, Some((0, 13, 0x1000)), &[], SSE_CODE).ok().unwrap();
    assert_eq!(
        counts_of(&b),
        vec![
            ("Addps".to_string(), vec!["SSE".to_string()], 1),
            ("Movaps".to_string(), vec!["SSE".to_string()], 3),
            ("Ret".to_string(), vec!["X64".to_string()], 1),
        ]
    );
}

#[test]
fn text_at_an_offset_is_cut_out() {
    let mut data = vec![0x90u8, 0x90, 0x90];
    data.extend_from_slice(SSE_CODE);
    data.push(0x90);
    let b = load(EM_386, Some((3, 13, 0x1000)), &[], &data).ok().unwrap();
    let c = counts_of(&b);
    assert!(c.iter().all(|(m, _, _)| m != "Nop"));
    assert_eq!(c.iter().map(|x| x.2).sum::<usize>(), 5);
}

#[test]
fn by_symbol_without_symbols_fails() {
    let b = load(EM_X86_64, Some((0, 13, 0x1000)), &[("ext", 0), ("far", 0x9000)], SSE_CODE)
        .ok()
        .unwrap();
    assert!(b.instruction_counts_by_symbol().is_err());
    assert!(b.symbol_features().is_err());
    assert!(b.feature_symbols().is_err());
}

#[test]
fn by_symbol_counts_follow_ranges() {
    // f: movaps; movaps  g: addps; movaps; ret
    let b = load(EM_X86_64, Some((0, 13, 0x1000)), &[("g", 0x1006), ("f", 0x1000)], SSE_CODE)
        .ok()
        .unwrap();
    let per = b.instruction_counts_by_symbol().ok().unwrap();
    assert_eq!(per.len(), 2);
    assert_eq!(per[0].name, "f");
    assert_eq!(per[0].counts.len(), 1);
    assert_eq!(per[0].counts[0].count, 2);
    assert_eq!(per[1].name, "g");
    assert_eq!(per[1].counts.iter().map(|c| c.count).sum::<usize>(), 3);
}

#[test]
fn feature_index_inverts_symbol_features() {
    let b = load(EM_X86_64, Some((0, 13, 0x1000)), &[("g", 0x1006), ("f", 0x1000)], SSE_CODE)
        .ok()
        .unwrap();
    let sf = b.symbol_features().ok().unwrap();
    assert_eq!(sf[0].name, "f");
    assert_eq!(sf[0].features, vec!["SSE".to_string()]);
    let mut g = sf[1].features.clone();
    g.sort();
    assert_eq!(g, vec!["SSE".to_string(), "X64".to_string()]);
    let fs = b.feature_symbols().ok().unwrap();
    let sse = fs.iter().find(|e| e.feature == "SSE").unwrap();
    let mut users = sse.symbols.clone();
    users.sort();
    assert_eq!(users, vec!["f".to_string(), "g".to_string()]);
    let x64 = fs.iter().find(|e| e.feature == "X64").unwrap();
    assert_eq!(x64.symbols, vec!["g".to_string()]);
    assert_eq!(fs.len(), 2);
}

#[test]
fn counting_ignores_order() {
    let mut forward = instructions(SSE_CODE, 64);
    let mut counted: Vec<_> = count_instructions(&forward)
        .into_iter()
        .map(|c| (c.mnemonic, c.features, c.count))
        .collect();
    forward.reverse();
    let mut reversed: Vec<_> = count_instructions(&forward)
        .into_iter()
        .map(|c| (c.mnemonic, c.features, c.count))
        .collect();
    counted.sort();
    reversed.sort();
    assert_eq!(counted, reversed);
}
