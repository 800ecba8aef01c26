//! Turning counts into the report's feature usage, with filters on feature
//! names and symbol names.
use vstd::prelude::*;
use itertools::Itertools;
use symbolic_demangle::Demangle;
use crate::aggregate::{InstructionCount, InstructionKey, count_view};
use crate::binary::{Binary, NoSymbols};
use crate::index::{FeatureSymbols, SymbolFeatures, lists_feature, merge_names, some_symbol_uses, symbol_uses, symbols_by_feature};
use crate::cli::ShowSymbols;
use crate::aggregate::usage_of;
use crate::decode::{decoded, string_views};

verus! {

/// Whether the glob `pattern` (`*` any run of characters, `?` one character)
/// matches all of `text`.
pub uninterp spec fn wild_matches(pattern: Seq<char>, text: Seq<char>) -> bool;

/// The demangled form of a symbol name; a name that is not recognised as
/// mangled comes back as it is.
pub uninterp spec fn demangled(raw: Seq<char>) -> Seq<char>;

/// Relies on wildmatch's `WildMatch::new` and `WildMatch::matches`; an empty
/// pattern matches the empty text only.
#[verifier::external_body]
fn pattern_matches(pattern: &str, text: &str) -> (r: bool)
    ensures
        r == wild_matches(pattern@, text@),
        pattern@.len() == 0 ==> (r <==> text@.len() == 0),
{
    wildmatch::WildMatch::new(pattern).matches(text)
}

/// Relies on symbolic_demangle's `Demangle::try_demangle` of a
/// `symbolic_common::Name` of unknown language, with complete options.
#[verifier::external_body]
fn demangle(raw: &str) -> (r: String)
    ensures
        r@ == demangled(raw@),
{
    symbolic_common::Name::from(raw).try_demangle(symbolic_demangle::DemangleOptions::complete()).to_string()
}

/// The parts with a comma between each two.
pub open spec fn joined(parts: Seq<Seq<char>>) -> Seq<char>
    decreases parts.len(),
{
    if parts.len() == 0 {
        Seq::empty()
    } else if parts.len() == 1 {
        parts[0]
    } else {
        joined(parts.drop_last()) + seq![','] + parts.last()
    }
}

/// Relies on itertools' `Itertools::join` with the separator `,`.
#[verifier::external_body]
fn join_commas(parts: &Vec<String>) -> (r: String)
    ensures
        r@ == joined(string_views(parts@)),
{
    parts.iter().join(",")
}

/// ASCII letters `A` to `Z` become `a` to `z`; every other character stays.
pub open spec fn ascii_lower(c: char) -> char {
    if 'A' <= c && c <= 'Z' {
        ((c as u32) + 32) as char
    } else {
        c
    }
}

pub open spec fn lower(s: Seq<char>) -> Seq<char> {
    s.map_values(|c: char| ascii_lower(c))
}

pub open spec fn lower_all(names: Seq<Seq<char>>) -> Seq<Seq<char>> {
    names.map_values(|n: Seq<char>| lower(n))
}

/// Relies on std's `str::to_ascii_lowercase`.
#[verifier::external_body]
fn to_ascii_lower(s: &str) -> (r: String)
    ensures
        r@ == lower(s@),
{
    s.to_ascii_lowercase()
}

/// A decoder name as the report shows it, in ASCII lower case.
pub fn lowercase(name: &str) -> (r: String)
    ensures
        r@ == lower(name@),
{
    to_ascii_lower(name)
}

/// Each name in ASCII lower case.
pub fn lowercase_all(names: &Vec<String>) -> (r: Vec<String>)
    ensures
        string_views(r@) == lower_all(string_views(names@)),
{
    let mut r: Vec<String> = Vec::new();
    let mut i: usize = 0;
    while i < names.len()
        invariant
            i <= names@.len(),
            string_views(r@) == lower_all(string_views(names@)).take(i as int),
        decreases names@.len() - i,
    {
        let ghost before = r@;
        let low = lowercase(names[i].as_str());
        r.push(low);
        assert(string_views(r@) =~= string_views(before).push(low@));
        i += 1;
        assert(string_views(r@) =~= lower_all(string_views(names@)).take(i as int));
    }
    assert(lower_all(string_views(names@)).take(i as int) =~= lower_all(string_views(names@)));
    r
}

/// Some pattern matches `text`.
pub open spec fn any_matches(patterns: Seq<Seq<char>>, text: Seq<char>) -> bool {
    exists|i: int| 0 <= i < patterns.len() && #[trigger] wild_matches(patterns[i], text)
}

/// Whether some pattern matches `text`.
pub fn matches_any(patterns: &Vec<String>, text: &str) -> (r: bool)
    ensures
        r == any_matches(string_views(patterns@), text@),
{
    let ghost views = string_views(patterns@);
    let mut i: usize = 0;
    while i < patterns.len()
        invariant
            i <= patterns@.len(),
            views == string_views(patterns@),
            forall|k: int| 0 <= k < i ==> !wild_matches(#[trigger] views[k], text@),
        decreases patterns@.len() - i,
    {
        if pattern_matches(patterns[i].as_str(), text) {
            assert(wild_matches(views[i as int], text@));
            return true;
        }
        i += 1;
    }
    false
}

/// A feature group is kept when there is no filter, or when some pattern
/// matches some single feature name of the group.
pub open spec fn group_selected(filter: Seq<Seq<char>>, features: Seq<Seq<char>>) -> bool {
    filter.len() == 0 || exists|j: int|
        0 <= j < features.len() && #[trigger] any_matches(filter, features[j])
}

/// Whether the feature filter keeps a group of (lower-case) feature names.
pub fn feature_selected(filter: &Vec<String>, features: &Vec<String>) -> (r: bool)
    ensures
        r == group_selected(string_views(filter@), string_views(features@)),
{
    if filter.len() == 0 {
        return true;
    }
    let ghost views = string_views(features@);
    let mut j: usize = 0;
    while j < features.len()
        invariant
            j <= features@.len(),
            views == string_views(features@),
            forall|k: int| 0 <= k < j ==> !any_matches(string_views(filter@), #[trigger] views[k]),
        decreases features@.len() - j,
    {
        if matches_any(filter, features[j].as_str()) {
            assert(any_matches(string_views(filter@), views[j as int]));
            return true;
        }
        j += 1;
    }
    false
}

/// A symbol is kept when there is no symbol filter at all, when a raw-name
/// pattern matches its name, or when a demangled-name pattern matches its
/// demangled name.
pub open spec fn symbol_passes(raw: Seq<Seq<char>>, demangled_filter: Seq<Seq<char>>, name: Seq<char>) -> bool {
    (raw.len() == 0 && demangled_filter.len() == 0) || any_matches(raw, name) || any_matches(
        demangled_filter,
        demangled(name),
    )
}

/// Decides what can be decided of a symbol without demangling its name:
/// `Some(keep)` when the raw name settles it, `None` when only the demangled
/// name can, which is never the case without demangled-name patterns.
pub fn raw_decision(raw_filter: &Vec<String>, demangled_filter: &Vec<String>, name: &str) -> (r:
    Option<bool>)
    ensures
        r is None ==> demangled_filter@.len() > 0,
        r is None <==> !(raw_filter@.len() == 0 && demangled_filter@.len() == 0) && !any_matches(
            string_views(raw_filter@),
            name@,
        ) && demangled_filter@.len() > 0,
        r is Some ==> (r->0 <==> symbol_passes(
            string_views(raw_filter@),
            string_views(demangled_filter@),
            name@,
        )),
{
    if raw_filter.len() == 0 && demangled_filter.len() == 0 {
        return Some(true);
    }
    if matches_any(raw_filter, name) {
        return Some(true);
    }
    if demangled_filter.len() == 0 {
        return Some(false);
    }
    None
}

/// Whether the symbol filters keep the symbol `name`; demangles the name only
/// when the raw name does not settle it.
pub fn symbol_selected(raw_filter: &Vec<String>, demangled_filter: &Vec<String>, name: &str) -> (r:
    bool)
    ensures
        r == symbol_passes(string_views(raw_filter@), string_views(demangled_filter@), name@),
{
    match raw_decision(raw_filter, demangled_filter, name) {
        Some(keep) => keep,
        None => {
            let full = demangle(name);
            matches_any(demangled_filter, full.as_str())
        },
    }
}

/// A mnemonic as the report shows it.
pub struct Instruction(pub String);

/// A single CPUID feature name as the report shows it.
pub struct Feature(pub String);

/// A feature group: its feature names joined by commas, in decoder order.
pub struct ConcatenatedFeatures(pub String);

/// A symbol name as the report shows it.
pub struct Symbol(pub String);

/// How often one mnemonic occurs with one feature group.
pub struct UsageRow {
    pub features: ConcatenatedFeatures,
    pub instruction: Instruction,
    pub count: usize,
}

/// A usage row of one symbol.
pub struct SymbolRow {
    pub symbol: Symbol,
    pub row: UsageRow,
}

/// The report's data: usage rows of the whole code region, or of each symbol.
#[allow(inconsistent_fields)]
pub enum Features {
    Total { data: Vec<UsageRow> },
    BySymbol { data: Vec<SymbolRow> },
}

/// A usage row as (feature group, mnemonic, count).
pub type RowView = (Seq<char>, Seq<char>, nat);

pub open spec fn row_view(r: UsageRow) -> RowView {
    (r.features.0@, r.instruction.0@, r.count as nat)
}

pub open spec fn rows_view(v: Seq<UsageRow>) -> Seq<RowView> {
    v.map_values(|r: UsageRow| row_view(r))
}

pub open spec fn symbol_rows_view(v: Seq<SymbolRow>) -> Seq<(Seq<char>, RowView)> {
    v.map_values(|r: SymbolRow| (r.symbol.0@, row_view(r.row)))
}

/// The row that a counted key gives: lower-case names, features joined.
pub open spec fn row_of(c: (InstructionKey, nat)) -> RowView {
    (joined(lower_all(c.0.1)), lower(c.0.0), c.1)
}

/// The rows of the counts whose feature group the filter keeps, in order.
pub open spec fn total_rows(usage: Seq<(InstructionKey, nat)>, filter: Seq<Seq<char>>) -> Seq<RowView>
    decreases usage.len(),
{
    if usage.len() == 0 {
        Seq::empty()
    } else {
        let rest = total_rows(usage.drop_last(), filter);
        if group_selected(filter, lower_all(usage.last().0.1)) {
            rest.push(row_of(usage.last()))
        } else {
            rest
        }
    }
}

/// Turns counts into report rows, keeping those whose feature group the
/// filter keeps.
pub fn usage_rows(counts: &Vec<InstructionCount>, feature_filter: &Vec<String>) -> (r: Vec<UsageRow>)
    ensures
        rows_view(r@) == total_rows(
            counts@.map_values(|c: InstructionCount| count_view(c)),
            string_views(feature_filter@),
        ),
{
    let ghost usage = counts@.map_values(|c: InstructionCount| count_view(c));
    let mut r: Vec<UsageRow> = Vec::new();
    let mut i: usize = 0;
    while i < counts.len()
        invariant
            i <= counts@.len(),
            usage == counts@.map_values(|c: InstructionCount| count_view(c)),
            rows_view(r@) == total_rows(usage.take(i as int), string_views(feature_filter@)),
        decreases counts@.len() - i,
    {
        proof {
            assert(usage.take(i + 1).drop_last() =~= usage.take(i as int));
            assert(usage.take(i + 1).last() == usage[i as int]);
        }
        let c = &counts[i];
        let features = lowercase_all(&c.features);
        if feature_selected(feature_filter, &features) {
            let ghost before = r@;
            let row = UsageRow {
                features: ConcatenatedFeatures(join_commas(&features)),
                instruction: Instruction(lowercase(c.mnemonic.as_str())),
                count: c.count,
            };
            r.push(row);
            assert(rows_view(r@) =~= rows_view(before).push(row_view(row)));
        }
        i += 1;
    }
    assert(usage.take(i as int) =~= usage);
    r
}

/// The name shown for a symbol.
pub open spec fn shown_name(show: crate::cli::ShowSymbols, name: Seq<char>) -> Seq<char> {
    if show is Demangled {
        demangled(name)
    } else {
        name
    }
}

/// The name to show for a symbol: demangled when so asked, else the raw name.
pub fn symbol_name(show: crate::cli::ShowSymbols, name: &String) -> (r: String)
    ensures
        r@ == shown_name(show, name@),
{
    match show {
        crate::cli::ShowSymbols::Demangled => demangle(name.as_str()),
        _ => name.clone(),
    }
}

/// The rows of the symbols that the symbol filters keep, each with the name
/// shown for its symbol, symbol after symbol.
pub open spec fn symbol_rows(
    per_symbol: Seq<(Seq<char>, Seq<(InstructionKey, nat)>)>,
    feature_filter: Seq<Seq<char>>,
    raw_filter: Seq<Seq<char>>,
    demangled_filter: Seq<Seq<char>>,
    show: crate::cli::ShowSymbols,
) -> Seq<(Seq<char>, RowView)>
    decreases per_symbol.len(),
{
    if per_symbol.len() == 0 {
        Seq::empty()
    } else {
        let rest = symbol_rows(per_symbol.drop_last(), feature_filter, raw_filter, demangled_filter, show);
        let (name, usage) = per_symbol.last();
        if symbol_passes(raw_filter, demangled_filter, name) {
            rest + total_rows(usage, feature_filter).map_values(
                |row: RowView| (shown_name(show, name), row),
            )
        } else {
            rest
        }
    }
}

/// Per-symbol rows are reported when symbols are to be shown or a raw-name
/// filter is given.
pub open spec fn by_symbol(show: ShowSymbols, raw_filter: Seq<Seq<char>>) -> bool {
    !(show is No) || raw_filter.len() > 0
}

/// `f` is the report of `b` under the given filters.
pub open spec fn report_of(
    f: Features,
    b: Binary,
    feature_filter: Seq<Seq<char>>,
    raw_filter: Seq<Seq<char>>,
    demangled_filter: Seq<Seq<char>>,
    show: ShowSymbols,
) -> bool {
    match f {
        Features::Total { data } => !by_symbol(show, raw_filter) && rows_view(data@) == total_rows(
            usage_of(decoded(b.code(), b.bitness_spec())),
            feature_filter,
        ),
        Features::BySymbol { data } => by_symbol(show, raw_filter) && symbol_rows_view(data@)
            == symbol_rows(b.symbol_usages(), feature_filter, raw_filter, demangled_filter, show),
    }
}

/// Counts the binary's instructions, in total or per symbol, and keeps what
/// the feature and symbol filters select; per-symbol counts need symbols.
#[verifier::loop_isolation(false)]
pub fn get_features(
    binary: &Binary,
    feature_filter: &Vec<String>,
    raw_symbol_filter: &Vec<String>,
    demangled_symbol_filter: &Vec<String>,
    show_symbols: ShowSymbols,
) -> (r: Result<Features, NoSymbols>)
    requires
        binary.wf(),
    ensures
        r is Err <==> by_symbol(show_symbols, string_views(raw_symbol_filter@))
            && binary.ranges().len() == 0,
        r is Ok ==> report_of(
            r->Ok_0,
            *binary,
            string_views(feature_filter@),
            string_views(raw_symbol_filter@),
            string_views(demangled_symbol_filter@),
            show_symbols,
        ),
{
    let ghost ff = string_views(feature_filter@);
    let ghost raw = string_views(raw_symbol_filter@);
    let ghost dem = string_views(demangled_symbol_filter@);
    if !matches!(show_symbols, ShowSymbols::No) || raw_symbol_filter.len() > 0 {
        let per_symbol = match binary.instruction_counts_by_symbol() {
            Ok(v) => v,
            Err(e) => {
                return Err(e);
            },
        };
        let ghost usages = binary.symbol_usages();
        let mut data: Vec<SymbolRow> = Vec::new();
        let mut i: usize = 0;
        while i < per_symbol.len()
            invariant
                i <= per_symbol@.len(),
                per_symbol@.len() == usages.len(),
                usages == binary.symbol_usages(),
                forall|k: int|
                    0 <= k < per_symbol@.len() ==> (#[trigger] per_symbol@[k]).name@ == usages[k].0
                        && per_symbol@[k].counts@.map_values(|c: InstructionCount| count_view(c))
                        == usages[k].1,
                symbol_rows_view(data@) == symbol_rows(usages.take(i as int), ff, raw, dem, show_symbols),
            decreases per_symbol@.len() - i,
        {
            proof {
                assert(usages.take(i + 1).drop_last() =~= usages.take(i as int));
                assert(usages.take(i + 1).last() == usages[i as int]);
            }
            let entry = &per_symbol[i];
            assert(entry.name@ == usages[i as int].0);
            if symbol_selected(raw_symbol_filter, demangled_symbol_filter, entry.name.as_str()) {
                let shown = symbol_name(show_symbols, &entry.name);
                let rows = usage_rows(&entry.counts, feature_filter);
                assert(entry.counts@.map_values(|c: InstructionCount| count_view(c)) == usages[i as int].1);
                let ghost base = symbol_rows_view(data@);
                let ghost added = total_rows(usages[i as int].1, ff).map_values(
                    |row: RowView| (shown_name(show_symbols, usages[i as int].0), row),
                );
                let mut k: usize = 0;
                while k < rows.len()
                    invariant
                        k <= rows@.len(),
                        rows_view(rows@) == total_rows(usages[i as int].1, ff),
                        shown@ == shown_name(show_symbols, usages[i as int].0),
                        added == total_rows(usages[i as int].1, ff).map_values(
                            |row: RowView| (shown_name(show_symbols, usages[i as int].0), row),
                        ),
                        symbol_rows_view(data@) == base + added.take(k as int),
                    decreases rows@.len() - k,
                {
                    let row = &rows[k];
                    let item = SymbolRow {
                        symbol: Symbol(shown.clone()),
                        row: UsageRow {
                            features: ConcatenatedFeatures(row.features.0.clone()),
                            instruction: Instruction(row.instruction.0.clone()),
                            count: row.count,
                        },
                    };
                    let ghost before = data@;
                    data.push(item);
                    proof {
                        assert(row_view(item.row) == rows_view(rows@)[k as int]);
                        assert(symbol_rows_view(data@) =~= symbol_rows_view(before).push(
                            (item.symbol.0@, row_view(item.row)),
                        ));
                    }
                    k += 1;
                    assert(symbol_rows_view(data@) =~= base + added.take(k as int));
                }
                assert(added.take(k as int) =~= added);
            }
            proof {
                let next = usages.take(i + 1);
                assert(next.drop_last() == usages.take(i as int));
                assert(next.last() == usages[i as int]);
                assert(symbol_rows(next, ff, raw, dem, show_symbols) == if symbol_passes(raw, dem, usages[i as int].0) {
                    symbol_rows(usages.take(i as int), ff, raw, dem, show_symbols) + total_rows(usages[i as int].1, ff).map_values(
                        |row: RowView| (shown_name(show_symbols, usages[i as int].0), row),
                    )
                } else {
                    symbol_rows(usages.take(i as int), ff, raw, dem, show_symbols)
                });
            }
            i += 1;
        }
        assert(usages.take(i as int) =~= usages);
        Ok(Features::BySymbol { data })
    } else {
        let counts = binary.instruction_counts();
        let data = usage_rows(&counts, feature_filter);
        Ok(Features::Total { data })
    }
}

/// Filtering by feature only removes rows: each row kept under `filter` is a
/// row of the unfiltered counts. The empty filter keeps every count, in
/// order.
pub proof fn lemma_feature_filter_subset(usage: Seq<(InstructionKey, nat)>, filter: Seq<Seq<char>>)
    ensures
        forall|x: RowView|
            #[trigger] total_rows(usage, filter).contains(x) ==> total_rows(
                usage,
                Seq::empty(),
            ).contains(x),
        total_rows(usage, Seq::empty()) == usage.map_values(|c: (InstructionKey, nat)| row_of(c)),
    decreases usage.len(),
{
    if usage.len() > 0 {
        lemma_feature_filter_subset(usage.drop_last(), filter);
        let rest = total_rows(usage.drop_last(), filter);
        let all_rest = total_rows(usage.drop_last(), Seq::empty());
        assert(total_rows(usage, Seq::empty()) == all_rest.push(row_of(usage.last())));
        assert forall|x: RowView| #[trigger] total_rows(usage, filter).contains(x) implies total_rows(
            usage,
            Seq::empty(),
        ).contains(x) by {
            if rest.contains(x) {
                assert(all_rest.contains(x));
                let m = choose|m: int| 0 <= m < all_rest.len() && all_rest[m] == x;
                assert(all_rest.push(row_of(usage.last()))[m] == x);
            } else {
                assert(x == row_of(usage.last()));
                assert(all_rest.push(row_of(usage.last()))[all_rest.len() as int] == x);
            }
        }
        assert(usage.map_values(|c: (InstructionKey, nat)| row_of(c)) =~= usage.drop_last().map_values(
            |c: (InstructionKey, nat)| row_of(c),
        ).push(row_of(usage.last())));
    } else {
        assert(usage.map_values(|c: (InstructionKey, nat)| row_of(c)) =~= Seq::empty());
    }
}

/// Filtering by feature and symbol only removes rows: each row kept under
/// the filters is a row of the unfiltered report. Without filters every
/// symbol and every feature group is kept.
pub proof fn lemma_symbol_filter_subset(
    per_symbol: Seq<(Seq<char>, Seq<(InstructionKey, nat)>)>,
    feature_filter: Seq<Seq<char>>,
    raw_filter: Seq<Seq<char>>,
    demangled_filter: Seq<Seq<char>>,
    show: ShowSymbols,
)
    ensures
        forall|x: (Seq<char>, RowView)|
            #[trigger] symbol_rows(
                per_symbol,
                feature_filter,
                raw_filter,
                demangled_filter,
                show,
            ).contains(x) ==> symbol_rows(
                per_symbol,
                Seq::empty(),
                Seq::empty(),
                Seq::empty(),
                show,
            ).contains(x),
        forall|name: Seq<char>| #[trigger] symbol_passes(Seq::empty(), Seq::empty(), name),
        forall|features: Seq<Seq<char>>| #[trigger] group_selected(Seq::empty(), features),
    decreases per_symbol.len(),
{
    let e = Seq::<Seq<char>>::empty();
    if per_symbol.len() > 0 {
        lemma_symbol_filter_subset(per_symbol.drop_last(), feature_filter, raw_filter, demangled_filter, show);
        let (name, usage) = per_symbol.last();
        lemma_feature_filter_subset(usage, feature_filter);
        let rest = symbol_rows(per_symbol.drop_last(), feature_filter, raw_filter, demangled_filter, show);
        let all_rest = symbol_rows(per_symbol.drop_last(), e, e, e, show);
        let tag = |row: RowView| (shown_name(show, name), row);
        let added = total_rows(usage, feature_filter).map_values(tag);
        let all_added = total_rows(usage, e).map_values(tag);
        assert(symbol_passes(e, e, name));
        assert(symbol_rows(per_symbol, e, e, e, show) == all_rest + all_added);
        assert forall|x: (Seq<char>, RowView)|
            #[trigger] symbol_rows(
                per_symbol,
                feature_filter,
                raw_filter,
                demangled_filter,
                show,
            ).contains(x) implies symbol_rows(per_symbol, e, e, e, show).contains(x) by {
            let whole = all_rest + all_added;
            if rest.contains(x) {
                assert(all_rest.contains(x));
                let m = choose|m: int| 0 <= m < all_rest.len() && all_rest[m] == x;
                assert(whole[m] == x);
            } else {
                assert(symbol_passes(raw_filter, demangled_filter, name));
                assert((rest + added).contains(x));
                let m = choose|m: int| 0 <= m < (rest + added).len() && (rest + added)[m] == x;
                assert(added[m - rest.len()] == x);
                let row = total_rows(usage, feature_filter)[m - rest.len()];
                assert(total_rows(usage, feature_filter).contains(row));
                assert(total_rows(usage, e).contains(row));
                let n = choose|n: int| 0 <= n < total_rows(usage, e).len() && total_rows(usage, e)[n] == row;
                assert(all_added[n] == x);
                assert(whole[all_rest.len() + n] == x);
            }
        }
    }
}

/// A column's width: the title's length, or the longest entry if that is
/// longer.
pub fn width(title: &str, lengths: &Vec<usize>) -> (r: usize)
    ensures
        r >= title.len(),
        forall|i: int| 0 <= i < lengths@.len() ==> r >= #[trigger] lengths@[i],
        r == title.len() || exists|i: int| 0 <= i < lengths@.len() && r == #[trigger] lengths@[i],
{
    let mut r = title.len();
    let mut i: usize = 0;
    while i < lengths.len()
        invariant
            i <= lengths@.len(),
            r >= title.len(),
            forall|k: int| 0 <= k < i ==> r >= #[trigger] lengths@[k],
            r == title.len() || exists|k: int| 0 <= k < lengths@.len() && r == #[trigger] lengths@[k],
        decreases lengths@.len() - i,
    {
        if lengths[i] > r {
            r = lengths[i];
        }
        i += 1;
    }
    r
}

/// The number of decimal digits of `n`; zero has one.
pub open spec fn decimal_digits(n: nat) -> nat
    decreases n,
{
    if n < 10 {
        1
    } else {
        1 + decimal_digits(n / 10)
    }
}

/// How many characters `n` takes when written in decimal.
pub fn digits(n: usize) -> (r: usize)
    ensures
        r == decimal_digits(n as nat),
{
    let mut m = n;
    let mut d: usize = 1;
    while m >= 10
        invariant
            d + decimal_digits(m as nat) == decimal_digits(n as nat) + 1,
            d + m <= n + 1,
        decreases m,
    {
        assert(decimal_digits(m as nat) == 1 + decimal_digits((m / 10) as nat));
        m = m / 10;
        d = d + 1;
    }
    d
}

/// Some row has the feature group `g`.
pub open spec fn has_group(data: Seq<UsageRow>, g: Seq<char>) -> bool {
    exists|i: int| 0 <= i < data.len() && #[trigger] data[i].features.0@ == g
}

/// The distinct feature groups of the rows.
pub fn feature_groups(data: &Vec<UsageRow>) -> (r: Vec<String>)
    ensures
        string_views(r@).no_duplicates(),
        forall|g: Seq<char>| #[trigger] string_views(r@).contains(g) <==> has_group(data@, g),
{
    let mut groups: Vec<String> = Vec::new();
    let mut i: usize = 0;
    while i < data.len()
        invariant
            i <= data@.len(),
            groups@.len() == i,
            forall|k: int| 0 <= k < i ==> (#[trigger] groups@[k])@ == data@[k].features.0@,
        decreases data@.len() - i,
    {
        groups.push(data[i].features.0.clone());
        i += 1;
    }
    let mut r: Vec<String> = Vec::new();
    assert(string_views(r@) =~= Seq::empty());
    merge_names(&mut r, &groups);
    proof {
        assert forall|g: Seq<char>| #[trigger] string_views(r@).contains(g) <==> has_group(data@, g) by {
            if string_views(groups@).contains(g) {
                let k = choose|k: int| 0 <= k < string_views(groups@).len() && string_views(groups@)[k] == g;
                assert(data@[k].features.0@ == g);
            }
            if has_group(data@, g) {
                let k = choose|k: int| 0 <= k < data@.len() && #[trigger] data@[k].features.0@ == g;
                assert(string_views(groups@)[k] == g);
            }
        }
    }
    r
}

/// Some row has the feature group `g`.
pub open spec fn symbol_row_has_group(data: Seq<SymbolRow>, g: Seq<char>) -> bool {
    exists|i: int| 0 <= i < data.len() && #[trigger] data[i].row.features.0@ == g
}

/// Some row of the symbol `name` has the feature group `g`.
pub open spec fn symbol_has_group(data: Seq<SymbolRow>, name: Seq<char>, g: Seq<char>) -> bool {
    exists|i: int|
        0 <= i < data.len() && data[i].symbol.0@ == name && #[trigger] data[i].row.features.0@ == g
}

/// For each feature group of per-symbol rows, once, the distinct symbols that
/// have a row with it.
pub fn functions_by_group(data: &Vec<SymbolRow>) -> (r: Vec<FeatureSymbols>)
    ensures
        forall|a: int, b: int|
            0 <= a < b < r@.len() ==> #[trigger] r@[a].feature@ != #[trigger] r@[b].feature@,
        forall|g: Seq<char>| #[trigger] symbol_row_has_group(data@, g) <==> lists_feature(r@, g),
        forall|j: int|
            0 <= j < r@.len() ==> string_views((#[trigger] r@[j]).symbols@).no_duplicates(),
        forall|j: int, name: Seq<char>|
            0 <= j < r@.len() ==> (#[trigger] string_views(r@[j].symbols@).contains(name)
                <==> symbol_has_group(data@, name, r@[j].feature@)),
{
    let mut per: Vec<SymbolFeatures> = Vec::new();
    let mut i: usize = 0;
    while i < data.len()
        invariant
            i <= data@.len(),
            per@.len() == i,
            forall|k: int|
                0 <= k < i ==> (#[trigger] per@[k]).name@ == data@[k].symbol.0@ && string_views(
                    per@[k].features@,
                ) == seq![data@[k].row.features.0@],
        decreases data@.len() - i,
    {
        let mut features: Vec<String> = Vec::new();
        features.push(data[i].row.features.0.clone());
        assert(string_views(features@) =~= seq![data@[i as int].row.features.0@]);
        per.push(SymbolFeatures { name: data[i].symbol.0.clone(), features });
        i += 1;
    }
    let r = symbols_by_feature(&per);
    proof {
        assert forall|k: int, f: Seq<char>|
            0 <= k < per@.len() implies (#[trigger] string_views(per@[k].features@).contains(f)
                <==> f == data@[k].row.features.0@) by {
            if f == data@[k].row.features.0@ {
                assert(string_views(per@[k].features@)[0] == f);
            }
        }
        assert forall|g: Seq<char>| #[trigger] symbol_row_has_group(data@, g) <==> some_symbol_uses(per@, g) by {
            if symbol_row_has_group(data@, g) {
                let k = choose|k: int| 0 <= k < data@.len() && #[trigger] data@[k].row.features.0@ == g;
                assert(string_views(per@[k].features@).contains(g));
            }
            if some_symbol_uses(per@, g) {
                let k = choose|k: int| 0 <= k < per@.len() && #[trigger] string_views(per@[k].features@).contains(g);
                assert(data@[k].row.features.0@ == g);
            }
        }
        assert forall|j: int, name: Seq<char>|
            0 <= j < r@.len() implies (#[trigger] string_views(r@[j].symbols@).contains(name)
                <==> symbol_has_group(data@, name, r@[j].feature@)) by {
            let g = r@[j].feature@;
            if symbol_uses(per@, name, g) {
                let k = choose|k: int|
                    0 <= k < per@.len() && per@[k].name@ == name && #[trigger] string_views(per@[k].features@).contains(g);
                assert(data@[k].row.features.0@ == g);
            }
            if symbol_has_group(data@, name, g) {
                let k = choose|k: int|
                    0 <= k < data@.len() && data@[k].symbol.0@ == name && #[trigger] data@[k].row.features.0@ == g;
                assert(string_views(per@[k].features@).contains(g));
                assert(symbol_uses(per@, name, g));
            }
        }
    }
    r
}

} // verus!
