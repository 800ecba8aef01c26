use lsx86features::binary::{Binary, ElfLayout, TextSection, EM_X86_64};
use lsx86features::cli::{parse_filter, ShowSymbols};
use lsx86features::command::{
    digits, feature_groups, feature_selected, functions_by_group, get_features, lowercase,
    matches_any, raw_decision, symbol_name, symbol_selected, width, Features,
};

// movaps; movaps; addps; movaps; ret
const SSE_CODE: &[u8] = &[
    0x0f, 0x28, 0x06, 0x0f, 0x28, 0x0a, 0x0f, 0x58, 0xc1, 0x0f, 0x29, 0x07, 0xc3,
];

// f: movaps xmm0,[rsi]; ret   g: vpaddd ymm0,ymm0,ymm1; ret
const MIXED_CODE: &[u8] = &[0x0f, 0x28, 0x06, 0xc3, 0xc5, 0xfd, 0xfe, 0xc1, 0xc3];

fn strings(items: &[&str]) -> Vec<String> {
    items.iter().map(|s| s.to_string()).collect()
}

fn binary(code: &[u8], symbols: &[(&str, u64)]) -> Binary {
    let layout = ElfLayout {
        machine: EM_X86_64,
        text: Some(TextSection { offset: 0, size: code.len() as u64, address: 0x1000 }),
        symbols: symbols.iter().map(|(n, a)| (n.to_string(), *a)).collect(),
    };
    Binary::from_elf(&layout, code).ok().unwrap()
}

fn total(f: Features) -> Vec<(String, String, usize)> {
    match f {
        Features::Total { data } => {
            let mut v: Vec<_> = data
                .into_iter()
                .map(|r| (r.features.0, r.instruction.0, r.count))
                .collect();
            v.sort();
            v
        }
        Features::BySymbol { .. } => panic!("expected total counts"),
    }
}

fn by_symbol(f: Features) -> Vec<(String, String, String, usize)> {
    match f {
        Features::BySymbol { data } => {
            let mut v: Vec<_> = data
                .into_iter()
                .map(|r| (r.symbol.0, r.row.features.0, r.row.instruction.0, r.row.count))
                .collect();
            v.sort();
            v
        }
        Features::Total { .. } => panic!("expected per-symbol counts"),
    }
}

#[test]
fn total_report_of_sse_code() {
    let b = binary(SSE_CODE, &[]);
    let f = get_features(&b, &vec![], &vec![], &vec![], ShowSymbols::No).ok().unwrap();
    assert_eq!(
        total(f),
        vec![
            ("sse".to_string(), "addps".to_string(), 1),
            ("sse".to_string(), "movaps".to_string(), 3),
            ("x64".to_string(), "ret".to_string(), 1),
        ]
    );
}

#[test]
fn per_symbol_report_needs_symbols() {
    let b = binary(SSE_CODE, &[("ext", 0)]);
    assert!(get_features(&b, &vec![], &vec![], &vec![], ShowSymbols::Raw).is_err());
    assert!(get_features(&b, &vec![], &strings(&["*"]), &vec![], ShowSymbols::No).is_err());
    assert!(get_features(&b, &vec![], &vec![], &vec![], ShowSymbols::No).is_ok());
}

#[test]
fn avx_pattern_keeps_avx2_and_drops_sse() {
    let b = binary(MIXED_CODE, &[("f", 0x1000), ("g", 0x1004)]);
    let f = get_features(&b, &strings(&["avx*"]), &vec![], &vec![], ShowSymbols::No).ok().unwrap();
    assert_eq!(total(f), vec![("avx2".to_string(), "vpaddd".to_string(), 1)]);
    assert!(feature_selected(&strings(&["avx*"]), &strings(&["avx2"])));
    assert!(!feature_selected(&strings(&["avx*"]), &strings(&["sse"])));
    assert!(feature_selected(&strings(&["avx*"]), &strings(&["sse", "avx512f"])));
    assert!(feature_selected(&vec![], &strings(&["sse"])));
}

#[test]
fn per_symbol_report_with_raw_names() {
    let b = binary(MIXED_CODE, &[("f", 0x1000), ("g", 0x1004)]);
    let f = get_features(&b, &vec![], &vec![], &vec![], ShowSymbols::Raw).ok().unwrap();
    assert_eq!(
        by_symbol(f),
        vec![
            ("f".to_string(), "sse".to_string(), "movaps".to_string(), 1),
            ("f".to_string(), "x64".to_string(), "ret".to_string(), 1),
            ("g".to_string(), "avx2".to_string(), "vpaddd".to_string(), 1),
            ("g".to_string(), "x64".to_string(), "ret".to_string(), 1),
        ]
    );
}

#[test]
fn filters_only_remove_rows() {
    let b = binary(MIXED_CODE, &[("f", 0x1000), ("g", 0x1004)]);
    let all = by_symbol(get_features(&b, &vec![], &vec![], &vec![], ShowSymbols::Raw).ok().unwrap());
    let some = by_symbol(
        get_features(&b, &strings(&["sse", "x64"]), &strings(&["g"]), &vec![], ShowSymbols::Raw)
            .ok()
            .unwrap(),
    );
    assert_eq!(some, vec![("g".to_string(), "x64".to_string(), "ret".to_string(), 1)]);
    assert!(some.iter().all(|row| all.contains(row)));
}

#[test]
fn raw_filter_selects_per_symbol_mode() {
    let b = binary(MIXED_CODE, &[("f", 0x1000), ("g", 0x1004)]);
    let rows = by_symbol(get_features(&b, &vec![], &strings(&["f"]), &vec![], ShowSymbols::No).ok().unwrap());
    assert_eq!(rows.len(), 2);
    assert!(rows.iter().all(|r| r.0 == "f"));
}

#[test]
fn demangled_filter_and_names() {
    let b = binary(MIXED_CODE, &[("_ZN3foo3barE", 0x1000), ("g", 0x1004)]);
    let rows = by_symbol(
        get_features(&b, &vec![], &vec![], &strings(&["foo::*"]), ShowSymbols::Demangled)
            .ok()
            .unwrap(),
    );
    assert_eq!(rows.len(), 2);
    assert!(rows.iter().all(|r| r.0 == "foo::bar"));
    assert_eq!(symbol_name(ShowSymbols::Demangled, &"_ZN3foo3barE".to_string()), "foo::bar");
    assert_eq!(symbol_name(ShowSymbols::Raw, &"_ZN3foo3barE".to_string()), "_ZN3foo3barE");
    assert_eq!(symbol_name(ShowSymbols::Demangled, &"main".to_string()), "main");
}

#[test]
fn demangling_only_when_demangled_patterns_exist() {
    let raw = strings(&["f*"]);
    let dem = strings(&["foo::*"]);
    assert_eq!(raw_decision(&vec![], &vec![], "x"), Some(true));
    assert_eq!(raw_decision(&raw, &vec![], "fun"), Some(true));
    assert_eq!(raw_decision(&raw, &vec![], "main"), Some(false));
    assert_eq!(raw_decision(&raw, &dem, "fun"), Some(true));
    assert_eq!(raw_decision(&raw, &dem, "_ZN3foo3barE"), None);
    assert_eq!(raw_decision(&vec![], &dem, "_ZN3foo3barE"), None);
    assert!(symbol_selected(&raw, &dem, "_ZN3foo3barE"));
    assert!(!symbol_selected(&raw, &dem, "_ZN3baz3barE"));
}

#[test]
fn wildcard_patterns() {
    assert!(matches_any(&strings(&["avx*"]), "avx2"));
    assert!(matches_any(&strings(&["x", "?se"]), "sse"));
    assert!(!matches_any(&strings(&["avx*"]), "sse"));
    assert!(!matches_any(&vec![], "sse"));
    assert!(matches_any(&strings(&[""]), ""));
}

#[test]
fn lowercase_names() {
    assert_eq!(lowercase("Movaps"), "movaps");
    assert_eq!(lowercase("AVX512F"), "avx512f");
    assert_eq!(lowercase("sse4_2"), "sse4_2");
}

#[test]
fn groups_of_several_features_are_joined() {
    // vpaddd ymm0{k0},ymm0,ymm1 in EVEX form needs AVX512VL and AVX512F
    let code: &[u8] = &[0x62, 0xf1, 0x7d, 0x28, 0xfe, 0xc1];
    let b = binary(code, &[]);
    let rows = total(get_features(&b, &vec![], &vec![], &vec![], ShowSymbols::No).ok().unwrap());
    assert_eq!(rows.len(), 1);
    let mut parts: Vec<&str> = rows[0].0.split(',').collect();
    parts.sort();
    assert_eq!(parts, vec!["avx512f", "avx512vl"]);
    assert_eq!(rows[0].1, "vpaddd");
}

#[test]
fn list_mode_groups() {
    let b = binary(MIXED_CODE, &[("f", 0x1000), ("g", 0x1004)]);
    match get_features(&b, &vec![], &vec![], &vec![], ShowSymbols::Raw).ok().unwrap() {
        Features::BySymbol { data } => {
            let index = functions_by_group(&data);
            assert_eq!(index.len(), 3);
            let x64 = index.iter().find(|e| e.feature == "x64").unwrap();
            let mut users = x64.symbols.clone();
            users.sort();
            assert_eq!(users, vec!["f".to_string(), "g".to_string()]);
        }
        Features::Total { .. } => panic!("expected per-symbol counts"),
    }
    match get_features(&b, &vec![], &vec![], &vec![], ShowSymbols::No).ok().unwrap() {
        Features::Total { data } => {
            let mut groups = feature_groups(&data);
            groups.sort();
            assert_eq!(groups, strings(&["avx2", "sse", "x64"]));
        }
        Features::BySymbol { .. } => panic!("expected total counts"),
    }
}

#[test]
fn table_widths() {
    assert_eq!(width("Opcode", &vec![3, 9, 2]), 9);
    assert_eq!(width("Extension", &vec![3]), 9);
    assert_eq!(width("Count", &vec![]), 5);
    assert_eq!(digits(0), 1);
    assert_eq!(digits(9), 1);
    assert_eq!(digits(10), 2);
    assert_eq!(digits(12345), 5);
    assert_eq!(digits(usize::MAX), usize::MAX.to_string().len());
}

#[test]
fn filters_are_split_at_commas() {
    assert_eq!(parse_filter("avx*,sse"), strings(&["avx*", "sse"]));
    assert_eq!(parse_filter("x"), strings(&["x"]));
    assert_eq!(parse_filter(""), strings(&[""]));
}
