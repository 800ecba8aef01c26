use lsx86features::symbols::{symbol_ranges, SymbolRange};

fn view(r: &[SymbolRange]) -> Vec<(String, usize, usize)> {
    r.iter().map(|s| (s.name.clone(), s.begin, s.end)).collect()
}

fn syms(items: &[(&str, usize)]) -> Vec<(String, usize)> {
    items.iter().map(|(n, a)| (n.to_string(), *a)).collect()
}

#[test]
fn two_symbols_split_the_region() {
    // foo at A = 0x1010, bar at B = 0x1040; region [0x1000, 0x1100)
    let r = symbol_ranges(0x1000, 0x100, &syms(&[("bar", 0x1040), ("foo", 0x1010)]));
    assert_eq!(
        view(&r),
        vec![
            ("foo".to_string(), 0x10, 0x40),
            ("bar".to_string(), 0x40, 0x100)
        ]
    );
}

#[test]
fn zero_and_outside_addresses_are_dropped() {
    let r = symbol_ranges(
        0x1000,
        0x100,
        &syms(&[("ext", 0), ("before", 0xfff), ("after", 0x1100), ("main", 0x1000)]),
    );
    assert_eq!(view(&r), vec![("main".to_string(), 0, 0x100)]);
}

#[test]
fn no_symbols_give_no_ranges() {
    assert!(symbol_ranges(0x1000, 0x100, &Vec::new()).is_empty());
    assert!(symbol_ranges(0x1000, 0x100, &syms(&[("ext", 0)])).is_empty());
}

#[test]
fn equal_addresses_are_ordered_by_name() {
    let r = symbol_ranges(0x1000, 0x20, &syms(&[("zeta", 0x1008), ("alpha", 0x1008), ("start", 0x1000)]));
    assert_eq!(
        view(&r),
        vec![
            ("start".to_string(), 0, 8),
            ("alpha".to_string(), 8, 8),
            ("zeta".to_string(), 8, 0x20)
        ]
    );
}

#[test]
fn ranges_chain_without_gaps_and_repeat() {
    let input = syms(&[("c", 0x1030), ("a", 0x1000), ("b", 0x1010), ("d", 0x10f0)]);
    let r = symbol_ranges(0x1000, 0x100, &input);
    assert_eq!(r[0].begin, 0);
    for w in r.windows(2) {
        assert_eq!(w[0].end, w[1].begin);
        assert!(w[0].begin <= w[0].end);
    }
    assert_eq!(r.last().unwrap().end, 0x100);
    let mut shuffled = input.clone();
    shuffled.reverse();
    assert_eq!(view(&r), view(&symbol_ranges(0x1000, 0x100, &shuffled)));
}
