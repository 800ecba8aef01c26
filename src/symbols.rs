//! Turning absolute symbol addresses into byte ranges of the code region.
use vstd::prelude::*;

verus! {

broadcast use vstd::seq_lib::group_to_multiset_ensures;

/// A symbol's byte range `[begin, end)`, relative to the start of the code
/// region.
pub struct SymbolRange {
    pub name: String,
    pub begin: usize,
    pub end: usize,
}

/// `a` orders before or equal to `b`, comparing code points one by one; a
/// proper prefix orders first.
pub open spec fn chars_le(a: Seq<char>, b: Seq<char>) -> bool
    decreases a.len(),
{
    if a.len() == 0 {
        true
    } else if b.len() == 0 {
        false
    } else if a[0] != b[0] {
        (a[0] as u32) < (b[0] as u32)
    } else {
        chars_le(a.drop_first(), b.drop_first())
    }
}

/// An `(address, name)` pair, the name by its characters.
pub type Entry = (usize, Seq<char>);

/// Order of `(address, name)` pairs: by address, then by name.
pub open spec fn entry_le(a: Entry, b: Entry) -> bool {
    a.0 < b.0 || (a.0 == b.0 && chars_le(a.1, b.1))
}

/// The pairs with their names as characters.
pub open spec fn entry_views(v: Seq<(usize, String)>) -> Seq<Entry> {
    v.map_values(|e: (usize, String)| (e.0, e.1@))
}

pub open spec fn entries_sorted(s: Seq<Entry>) -> bool {
    forall|i: int| 0 <= i < s.len() - 1 ==> #[trigger] entry_le(s[i], s[i + 1])
}

/// The address lies in the code region and is not the null address of an
/// externally defined symbol.
pub open spec fn in_code(address: usize, base: usize, size: usize) -> bool {
    address != 0 && base <= address && address < base + size
}

/// The symbols that lie in the code region, as `(address, name)`, in input
/// order.
pub open spec fn kept_symbols(s: Seq<(String, usize)>, base: usize, size: usize) -> Seq<Entry>
    decreases s.len(),
{
    if s.len() == 0 {
        Seq::empty()
    } else {
        let rest = kept_symbols(s.drop_last(), base, size);
        if in_code(s.last().1, base, size) {
            rest.push((s.last().1, s.last().0@))
        } else {
            rest
        }
    }
}

/// The `(address, name)` pairs that a range list was made from.
pub open spec fn range_entries(r: Seq<SymbolRange>, base: usize) -> Seq<Entry> {
    Seq::new(r.len(), |i: int| ((r[i].begin + base) as usize, r[i].name@))
}

/// Consecutive ranges touch, each range is ordered, and the last one ends at
/// the end of the region.
pub open spec fn ranges_chained(r: Seq<SymbolRange>, size: usize) -> bool {
    &&& forall|i: int| 0 <= i < r.len() ==> #[trigger] r[i].begin <= r[i].end
    &&& forall|i: int| 0 <= i < r.len() - 1 ==> #[trigger] r[i].end == r[i + 1].begin
    &&& r.len() > 0 ==> r.last().end == size
}

/// `r` is the range list of `symbols` in the region of `size` bytes at
/// `base`: the ranges are those of the symbols in the region, sorted by
/// address and then name, chained, and each one starts inside the region.
pub open spec fn ranges_built(
    r: Seq<SymbolRange>,
    symbols: Seq<(String, usize)>,
    base: usize,
    size: usize,
) -> bool {
    &&& range_entries(r, base).to_multiset() == kept_symbols(symbols, base, size).to_multiset()
    &&& entries_sorted(range_entries(r, base))
    &&& ranges_chained(r, size)
    &&& forall|i: int| 0 <= i < r.len() ==> #[trigger] r[i].begin < size && r[i].end <= size
}

/// Relies on std's `sort` for `(usize, String)`: ascending, tuples compared
/// field by field and strings by their bytes, which orders code points by
/// value.
#[verifier::external_body]
fn sort_entries(v: &mut Vec<(usize, String)>)
    ensures
        entry_views(final(v)@).to_multiset() == entry_views(old(v)@).to_multiset(),
        entries_sorted(entry_views(final(v)@)),
{
    v.sort();
}

/// Builds the byte range of each symbol that lies in the code region
/// `[text_address, text_address + text_size)`, sorted by address and then by
/// name. Each range ends where the next one begins; the last ends at
/// `text_size`.
pub fn symbol_ranges(text_address: usize, text_size: usize, symbols: &Vec<(String, usize)>) -> (r:
    Vec<SymbolRange>)
    requires
        text_address + text_size <= usize::MAX,
    ensures
        ranges_built(r@, symbols@, text_address, text_size),
{
    let mut kept: Vec<(usize, String)> = Vec::new();
    let mut i: usize = 0;
    while i < symbols.len()
        invariant
            i <= symbols@.len(),
            text_address + text_size <= usize::MAX,
            entry_views(kept@) == kept_symbols(symbols@.take(i as int), text_address, text_size),
        decreases symbols@.len() - i,
    {
        proof {
            assert(symbols@.take(i + 1).drop_last() == symbols@.take(i as int));
        }
        let address = symbols[i].1;
        if address != 0 && text_address <= address && address < text_address + text_size {
            let ghost before = kept@;
            kept.push((address, symbols[i].0.clone()));
            assert(entry_views(kept@) =~= entry_views(before).push((address, symbols@[i as int].0@)));
        }
        i += 1;
    }
    assert(symbols@.take(symbols@.len() as int) == symbols@);
    let ghost unsorted = entry_views(kept@);
    proof {
        lemma_kept_in_code(symbols@, text_address, text_size);
    }
    sort_entries(&mut kept);
    proof {
        assert forall|k: int| 0 <= k < kept@.len() implies in_code(
            #[trigger] kept@[k].0,
            text_address,
            text_size,
        ) by {
            let e = entry_views(kept@)[k];
            assert(entry_views(kept@).contains(e));
            assert(entry_views(kept@).to_multiset().count(e) > 0);
            assert(unsorted.contains(e));
            let m = choose|m: int| 0 <= m < unsorted.len() && unsorted[m] == e;
            assert(in_code(kept_symbols(symbols@, text_address, text_size)[m].0, text_address, text_size));
        }
    }
    let mut out: Vec<SymbolRange> = Vec::new();
    let mut j: usize = 0;
    while j < kept.len()
        invariant
            j <= kept@.len(),
            out@.len() == j,
            entries_sorted(entry_views(kept@)),
            forall|k: int| 0 <= k < kept@.len() ==> in_code(#[trigger] kept@[k].0, text_address, text_size),
            forall|k: int|
                0 <= k < j ==> {
                    &&& (#[trigger] out@[k]).name@ == kept@[k].1@
                    &&& out@[k].begin == kept@[k].0 - text_address
                    &&& out@[k].end <= text_size
                    &&& out@[k].end == if k + 1 < kept@.len() {
                        kept@[k + 1].0 - text_address
                    } else {
                        text_size as int
                    }
                },
        decreases kept@.len() - j,
    {
        let begin = kept[j].0 - text_address;
        let end = if j + 1 < kept.len() {
            assert(entry_le(entry_views(kept@)[j as int], entry_views(kept@)[j + 1]));
            kept[j + 1].0 - text_address
        } else {
            text_size
        };
        out.push(SymbolRange { name: kept[j].1.clone(), begin, end });
        j += 1;
    }
    proof {
        assert(range_entries(out@, text_address) =~= entry_views(kept@));
        assert forall|k: int| 0 <= k < out@.len() implies #[trigger] out@[k].begin <= out@[k].end by {
            if k + 1 < kept@.len() {
                assert(entry_le(entry_views(kept@)[k], entry_views(kept@)[k + 1]));
            }
        }
    }
    out
}

proof fn lemma_kept_in_code(s: Seq<(String, usize)>, base: usize, size: usize)
    ensures
        forall|k: int|
            0 <= k < kept_symbols(s, base, size).len() ==> in_code(
                #[trigger] kept_symbols(s, base, size)[k].0,
                base,
                size,
            ),
    decreases s.len(),
{
    if s.len() > 0 {
        lemma_kept_in_code(s.drop_last(), base, size);
        let rest = kept_symbols(s.drop_last(), base, size);
        assert forall|k: int|
            0 <= k < kept_symbols(s, base, size).len() implies in_code(
                #[trigger] kept_symbols(s, base, size)[k].0,
                base,
                size,
            ) by {
            if k < rest.len() {
                assert(kept_symbols(s, base, size)[k] == rest[k]);
            }
        }
    }
}

/// Some range holds the byte at `offset`.
pub open spec fn covered(r: Seq<SymbolRange>, offset: int) -> bool {
    exists|i: int| 0 <= i < r.len() && r[i].begin <= offset < #[trigger] r[i].end
}

proof fn lemma_chain_ordered(r: Seq<SymbolRange>, size: usize, i: int, j: int)
    requires
        ranges_chained(r, size),
        0 <= i < j < r.len(),
    ensures
        r[i].end <= r[j].begin,
    decreases j - i,
{
    if j > i + 1 {
        lemma_chain_ordered(r, size, i, j - 1);
        assert(r[j - 1].begin <= r[j - 1].end);
        assert(r[j - 1].end == r[j].begin);
    } else {
        assert(r[i].end == r[i + 1].begin);
    }
}

proof fn lemma_chain_covers(r: Seq<SymbolRange>, size: usize, k: int, offset: int)
    requires
        ranges_chained(r, size),
        0 <= k < r.len(),
        r[k].begin <= offset < size,
    ensures
        exists|i: int| 0 <= i < r.len() && r[i].begin <= offset < #[trigger] r[i].end,
    decreases r.len() - k,
{
    if offset < r[k].end {
        assert(r[k].begin <= offset < r[k].end);
    } else if k + 1 < r.len() {
        assert(r[k].end == r[k + 1].begin);
        lemma_chain_covers(r, size, k + 1, offset);
    }
}

/// Symbol ranges never overlap, and together they cover the code region
/// without gaps from the start of the first range to the end of the region
/// (from offset 0 on when a symbol sits at the region's first byte).
pub proof fn lemma_ranges_partition(r: Seq<SymbolRange>, size: usize)
    requires
        ranges_chained(r, size),
    ensures
        forall|i: int, j: int| 0 <= i < j < r.len() ==> #[trigger] r[i].end <= #[trigger] r[j].begin,
        forall|offset: int|
            r.len() > 0 && r[0].begin <= offset < size ==> #[trigger] covered(r, offset),
{
    assert forall|i: int, j: int| 0 <= i < j < r.len() implies #[trigger] r[i].end <= #[trigger] r[j].begin by {
        lemma_chain_ordered(r, size, i, j);
    }
    assert forall|offset: int| r.len() > 0 && r[0].begin <= offset < size implies #[trigger] covered(
        r,
        offset,
    ) by {
        lemma_chain_covers(r, size, 0, offset);
    }
}

proof fn lemma_chars_le_antisymmetric(a: Seq<char>, b: Seq<char>)
    requires
        chars_le(a, b),
        chars_le(b, a),
    ensures
        a == b,
    decreases a.len(),
{
    if a.len() > 0 && b.len() > 0 && a[0] == b[0] {
        lemma_chars_le_antisymmetric(a.drop_first(), b.drop_first());
        assert(a =~= seq![a[0]] + a.drop_first());
        assert(b =~= seq![b[0]] + b.drop_first());
    } else if a.len() == 0 && b.len() == 0 {
        assert(a =~= b);
    }
}

proof fn lemma_chars_le_transitive(a: Seq<char>, b: Seq<char>, c: Seq<char>)
    requires
        chars_le(a, b),
        chars_le(b, c),
    ensures
        chars_le(a, c),
    decreases a.len(),
{
    if a.len() > 0 && a[0] == b[0] && b[0] == c[0] {
        lemma_chars_le_transitive(a.drop_first(), b.drop_first(), c.drop_first());
    }
}

proof fn lemma_entries_sorted_globally(s: Seq<Entry>, i: int, j: int)
    requires
        entries_sorted(s),
        0 <= i < j < s.len(),
    ensures
        entry_le(s[i], s[j]),
    decreases j - i,
{
    if j > i + 1 {
        lemma_entries_sorted_globally(s, i, j - 1);
        lemma_sorted_step(s, j - 1);
        if s[i].0 == s[j - 1].0 && s[j - 1].0 == s[j].0 {
            lemma_chars_le_transitive(s[i].1, s[j - 1].1, s[j].1);
        }
    } else {
        lemma_sorted_step(s, i);
    }
}

proof fn lemma_sorted_step(s: Seq<Entry>, i: int)
    requires
        entries_sorted(s),
        0 <= i < s.len() - 1,
    ensures
        entry_le(s[i], s[i + 1]),
{
}

/// Two sorted sequences of the same pairs are the same sequence.
proof fn lemma_sorted_unique(s: Seq<Entry>, t: Seq<Entry>)
    requires
        entries_sorted(s),
        entries_sorted(t),
        s.to_multiset() == t.to_multiset(),
    ensures
        s == t,
    decreases s.len(),
{
    assert(s.len() == s.to_multiset().len());
    assert(t.len() == t.to_multiset().len());
    if s.len() == 0 {
        assert(s =~= t);
    } else {
        assert(s.to_multiset().count(s[0]) > 0);
        assert(t.contains(s[0]));
        let j = choose|j: int| 0 <= j < t.len() && t[j] == s[0];
        if j > 0 {
            lemma_entries_sorted_globally(t, 0, j);
        }
        assert(t.to_multiset().count(t[0]) > 0);
        assert(s.contains(t[0]));
        let k = choose|k: int| 0 <= k < s.len() && s[k] == t[0];
        if k > 0 {
            lemma_entries_sorted_globally(s, 0, k);
        }
        if s[0] != t[0] {
            assert(entry_le(t[0], s[0]));
            assert(entry_le(s[0], t[0]));
            if s[0].0 == t[0].0 {
                lemma_chars_le_antisymmetric(s[0].1, t[0].1);
            }
        }
        assert(s[0] == t[0]);
        assert(s.remove(0) =~= s.drop_first());
        assert(t.remove(0) =~= t.drop_first());
        assert(s.drop_first().to_multiset() == s.to_multiset().remove(s[0]));
        assert(t.drop_first().to_multiset() == t.to_multiset().remove(t[0]));
        assert(entries_sorted(s.drop_first())) by {
            assert forall|i: int| 0 <= i < s.drop_first().len() - 1 implies #[trigger] entry_le(
                s.drop_first()[i],
                s.drop_first()[i + 1],
            ) by {
                lemma_sorted_step(s, i + 1);
            }
        }
        assert(entries_sorted(t.drop_first())) by {
            assert forall|i: int| 0 <= i < t.drop_first().len() - 1 implies #[trigger] entry_le(
                t.drop_first()[i],
                t.drop_first()[i + 1],
            ) by {
                lemma_sorted_step(t, i + 1);
            }
        }
        lemma_sorted_unique(s.drop_first(), t.drop_first());
        assert(s =~= seq![s[0]] + s.drop_first());
        assert(t =~= seq![t[0]] + t.drop_first());
    }
}

/// Range building is deterministic: any two range lists built from the same
/// symbols over the same region agree on every name, start and end.
pub proof fn lemma_ranges_deterministic(
    r1: Seq<SymbolRange>,
    r2: Seq<SymbolRange>,
    symbols: Seq<(String, usize)>,
    base: usize,
    size: usize,
)
    requires
        base + size <= usize::MAX,
        ranges_built(r1, symbols, base, size),
        ranges_built(r2, symbols, base, size),
    ensures
        r1.len() == r2.len(),
        forall|i: int|
            0 <= i < r1.len() ==> (#[trigger] r1[i]).name@ == r2[i].name@ && r1[i].begin
                == r2[i].begin && r1[i].end == r2[i].end,
{
    lemma_sorted_unique(range_entries(r1, base), range_entries(r2, base));
    assert(range_entries(r1, base).len() == range_entries(r2, base).len());
    assert forall|i: int| 0 <= i < r1.len() implies r1[i].begin == r2[i].begin by {
        assert(range_entries(r1, base)[i] == range_entries(r2, base)[i]);
    }
    assert forall|i: int|
        0 <= i < r1.len() implies (#[trigger] r1[i]).name@ == r2[i].name@ && r1[i].begin
            == r2[i].begin && r1[i].end == r2[i].end by {
        assert(range_entries(r1, base)[i] == range_entries(r2, base)[i]);
        if i + 1 < r1.len() {
            assert(r1[i].end == r1[i + 1].begin);
            assert(r2[i].end == r2[i + 1].begin);
            assert(range_entries(r1, base)[i + 1] == range_entries(r2, base)[i + 1]);
        }
    }
}

} // verus!
