//! Which features each symbol uses, and which symbols use each feature.
use vstd::prelude::*;
use crate::aggregate::{InstructionKey, instruction_views};
use crate::decode::{ClassifiedInstruction, string_views};

verus! {

/// Some instruction of `d` needs the feature `f`.
pub open spec fn uses_feature(d: Seq<InstructionKey>, f: Seq<char>) -> bool {
    exists|i: int| 0 <= i < d.len() && #[trigger] d[i].1.contains(f)
}

/// The features that one symbol's instructions need.
pub struct SymbolFeatures {
    pub name: String,
    pub features: Vec<String>,
}

/// The symbols whose instructions need one feature.
pub struct FeatureSymbols {
    pub feature: String,
    pub symbols: Vec<String>,
}

/// The position of `s` in `v`, if it is there.
pub fn find_name(v: &Vec<String>, s: &String) -> (r: Option<usize>)
    ensures
        r is None <==> !string_views(v@).contains(s@),
        r is Some ==> r->0 < v@.len() && v@[r->0 as int]@ == s@,
{
    let mut i: usize = 0;
    while i < v.len()
        invariant
            i <= v@.len(),
            forall|k: int| 0 <= k < i ==> v@[k]@ != s@,
        decreases v@.len() - i,
    {
        if v[i] == *s {
            assert(string_views(v@)[i as int] == s@);
            return Some(i);
        }
        i += 1;
    }
    proof {
        if string_views(v@).contains(s@) {
            let k = choose|k: int| 0 <= k < string_views(v@).len() && string_views(v@)[k] == s@;
            assert(v@[k]@ == s@);
        }
    }
    None
}

/// Adds `s` to `v` unless it is there already.
fn insert_name(v: &mut Vec<String>, s: &String)
    requires
        string_views(old(v)@).no_duplicates(),
    ensures
        string_views(final(v)@).no_duplicates(),
        forall|x: Seq<char>| #[trigger] string_views(final(v)@).contains(x) <==> (string_views(
            old(v)@,
        ).contains(x) || x == s@),
{
    if find_name(v, s).is_none() {
        let ghost before = v@;
        v.push(s.clone());
        proof {
            assert(string_views(v@) =~= string_views(before).push(s@));
            assert forall|x: Seq<char>| #[trigger] string_views(v@).contains(x) implies (string_views(
                before,
            ).contains(x) || x == s@) by {
                let k = choose|k: int| 0 <= k < string_views(v@).len() && string_views(v@)[k] == x;
                if k < before.len() {
                    assert(string_views(before)[k] == x);
                }
            }
            assert forall|x: Seq<char>| string_views(before).contains(x) implies #[trigger] string_views(
                v@,
            ).contains(x) by {
                let k = choose|k: int| 0 <= k < string_views(before).len() && string_views(before)[k] == x;
                assert(string_views(v@)[k] == x);
            }
            assert(string_views(v@)[before.len() as int] == s@);
        }
    }
}

/// The distinct features that the instructions need.
pub fn distinct_features(instructions: &Vec<ClassifiedInstruction>) -> (r: Vec<String>)
    ensures
        string_views(r@).no_duplicates(),
        forall|f: Seq<char>| #[trigger] string_views(r@).contains(f) <==> uses_feature(
            instruction_views(instructions@),
            f,
        ),
{
    let ghost d = instruction_views(instructions@);
    let mut r: Vec<String> = Vec::new();
    let mut i: usize = 0;
    while i < instructions.len()
        invariant
            i <= instructions@.len(),
            d == instruction_views(instructions@),
            string_views(r@).no_duplicates(),
            forall|f: Seq<char>| #[trigger] string_views(r@).contains(f) <==> uses_feature(
                d.take(i as int),
                f,
            ),
        decreases instructions@.len() - i,
    {
        let features = &instructions[i].features;
        assert(string_views(features@) == d[i as int].1);
        let mut k: usize = 0;
        while k < features.len()
            invariant
                k <= features@.len(),
                i < instructions@.len(),
                d == instruction_views(instructions@),
                features == instructions@[i as int].features,
                string_views(features@) == d[i as int].1,
                string_views(r@).no_duplicates(),
                forall|f: Seq<char>| #[trigger] string_views(r@).contains(f) <==> (uses_feature(
                    d.take(i as int),
                    f,
                ) || string_views(features@).take(k as int).contains(f)),
            decreases features@.len() - k,
        {
            let ghost before = string_views(r@);
            insert_name(&mut r, &features[k]);
            proof {
                let all = string_views(features@);
                let t1 = all.take(k + 1);
                let t0 = all.take(k as int);
                assert(t1 =~= t0.push(all[k as int]));
                assert forall|f: Seq<char>| t1.contains(f) <==> (t0.contains(f) || f == features@[k as int]@) by {
                    if t1.contains(f) {
                        let m = choose|m: int| 0 <= m < t1.len() && t1[m] == f;
                        if m < k {
                            assert(t0[m] == f);
                        }
                    }
                    if t0.contains(f) {
                        let m = choose|m: int| 0 <= m < t0.len() && t0[m] == f;
                        assert(t1[m] == f);
                    }
                    if f == features@[k as int]@ {
                        assert(t1[k as int] == f);
                    }
                }
            }
            k += 1;
        }
        proof {
            assert(string_views(features@).take(k as int) =~= d[i as int].1);
            let d1 = d.take(i + 1);
            let d0 = d.take(i as int);
            assert forall|f: Seq<char>| uses_feature(d1, f) <==> (uses_feature(d0, f) || d[i as int].1.contains(f)) by {
                if uses_feature(d1, f) {
                    let m = choose|m: int| 0 <= m < d1.len() && #[trigger] d1[m].1.contains(f);
                    if m < i {
                        assert(d0[m].1.contains(f));
                    }
                }
                if uses_feature(d0, f) {
                    let m = choose|m: int| 0 <= m < d0.len() && #[trigger] d0[m].1.contains(f);
                    assert(d1[m].1.contains(f));
                }
                if d[i as int].1.contains(f) {
                    assert(d1[i as int].1.contains(f));
                }
            }
        }
        i += 1;
    }
    assert(d.take(i as int) =~= d);
    r
}

/// Adds each name of `names` to `v` that is not there already.
pub(crate) fn merge_names(v: &mut Vec<String>, names: &Vec<String>)
    requires
        string_views(old(v)@).no_duplicates(),
    ensures
        string_views(final(v)@).no_duplicates(),
        forall|x: Seq<char>| #[trigger] string_views(final(v)@).contains(x) <==> (string_views(
            old(v)@,
        ).contains(x) || string_views(names@).contains(x)),
{
    let ghost start = string_views(v@);
    let ghost all = string_views(names@);
    let mut k: usize = 0;
    while k < names.len()
        invariant
            k <= names@.len(),
            all == string_views(names@),
            string_views(v@).no_duplicates(),
            forall|x: Seq<char>| #[trigger] string_views(v@).contains(x) <==> (start.contains(x)
                || all.take(k as int).contains(x)),
        decreases names@.len() - k,
    {
        insert_name(v, &names[k]);
        proof {
            let t1 = all.take(k + 1);
            let t0 = all.take(k as int);
            assert(t1 =~= t0.push(all[k as int]));
            assert forall|x: Seq<char>| t1.contains(x) <==> (t0.contains(x) || x == all[k as int]) by {
                if t1.contains(x) {
                    let m = choose|m: int| 0 <= m < t1.len() && t1[m] == x;
                    if m < k {
                        assert(t0[m] == x);
                    }
                }
                if t0.contains(x) {
                    let m = choose|m: int| 0 <= m < t0.len() && t0[m] == x;
                    assert(t1[m] == x);
                }
                if x == all[k as int] {
                    assert(t1[k as int] == x);
                }
            }
        }
        k += 1;
    }
    assert(all.take(k as int) =~= all);
}

/// Some symbol's feature list holds `f`.
pub open spec fn some_symbol_uses(s: Seq<SymbolFeatures>, f: Seq<char>) -> bool {
    exists|i: int| 0 <= i < s.len() && #[trigger] string_views(s[i].features@).contains(f)
}

/// The name is that of a symbol whose feature list holds `f`.
pub open spec fn symbol_uses(s: Seq<SymbolFeatures>, name: Seq<char>, f: Seq<char>) -> bool {
    exists|i: int|
        0 <= i < s.len() && s[i].name@ == name && #[trigger] string_views(s[i].features@).contains(
            f,
        )
}

/// Some entry of `v` is that of the feature `f`.
pub open spec fn lists_feature(v: Seq<FeatureSymbols>, f: Seq<char>) -> bool {
    exists|j: int| 0 <= j < v.len() && #[trigger] v[j].feature@ == f
}

/// Inverts per-symbol feature lists: each feature that some symbol uses, once,
/// with the distinct names of the symbols that use it.
pub fn symbols_by_feature(per_symbol: &Vec<SymbolFeatures>) -> (r: Vec<FeatureSymbols>)
    ensures
        forall|a: int, b: int|
            0 <= a < b < r@.len() ==> #[trigger] r@[a].feature@ != #[trigger] r@[b].feature@,
        forall|f: Seq<char>| #[trigger] some_symbol_uses(per_symbol@, f) <==> lists_feature(r@, f),
        forall|j: int|
            0 <= j < r@.len() ==> string_views((#[trigger] r@[j]).symbols@).no_duplicates(),
        forall|j: int, name: Seq<char>|
            0 <= j < r@.len() ==> (#[trigger] string_views(r@[j].symbols@).contains(name)
                <==> symbol_uses(per_symbol@, name, r@[j].feature@)),
{
    let mut all: Vec<String> = Vec::new();
    let mut i: usize = 0;
    while i < per_symbol.len()
        invariant
            i <= per_symbol@.len(),
            string_views(all@).no_duplicates(),
            forall|f: Seq<char>| #[trigger] string_views(all@).contains(f) <==> some_symbol_uses(
                per_symbol@.take(i as int),
                f,
            ),
        decreases per_symbol@.len() - i,
    {
        merge_names(&mut all, &per_symbol[i].features);
        proof {
            let p1 = per_symbol@.take(i + 1);
            let p0 = per_symbol@.take(i as int);
            assert forall|f: Seq<char>| some_symbol_uses(p1, f) <==> (some_symbol_uses(p0, f)
                || string_views(per_symbol@[i as int].features@).contains(f)) by {
                if some_symbol_uses(p1, f) {
                    let m = choose|m: int| 0 <= m < p1.len() && #[trigger] string_views(p1[m].features@).contains(f);
                    if m < i {
                        assert(string_views(p0[m].features@).contains(f));
                    }
                }
                if some_symbol_uses(p0, f) {
                    let m = choose|m: int| 0 <= m < p0.len() && #[trigger] string_views(p0[m].features@).contains(f);
                    assert(string_views(p1[m].features@).contains(f));
                }
                if string_views(per_symbol@[i as int].features@).contains(f) {
                    assert(string_views(p1[i as int].features@).contains(f));
                }
            }
        }
        i += 1;
    }
    assert(per_symbol@.take(i as int) =~= per_symbol@);
    let mut r: Vec<FeatureSymbols> = Vec::new();
    let mut j: usize = 0;
    while j < all.len()
        invariant
            j <= all@.len(),
            r@.len() == j,
            string_views(all@).no_duplicates(),
            forall|f: Seq<char>| #[trigger] string_views(all@).contains(f) <==> some_symbol_uses(
                per_symbol@,
                f,
            ),
            forall|a: int| 0 <= a < j ==> (#[trigger] r@[a]).feature@ == all@[a]@,
            forall|a: int|
                0 <= a < r@.len() ==> string_views((#[trigger] r@[a]).symbols@).no_duplicates(),
            forall|a: int, name: Seq<char>|
                0 <= a < r@.len() ==> (#[trigger] string_views(r@[a].symbols@).contains(name)
                    <==> symbol_uses(per_symbol@, name, r@[a].feature@)),
        decreases all@.len() - j,
    {
        let feature = &all[j];
        let mut names: Vec<String> = Vec::new();
        let mut i: usize = 0;
        while i < per_symbol.len()
            invariant
                i <= per_symbol@.len(),
                string_views(names@).no_duplicates(),
                forall|name: Seq<char>| #[trigger] string_views(names@).contains(name) <==> symbol_uses(
                    per_symbol@.take(i as int),
                    name,
                    feature@,
                ),
            decreases per_symbol@.len() - i,
        {
            let entry = &per_symbol[i];
            let ghost before = string_views(names@);
            let hit = find_name(&entry.features, feature).is_some();
            if hit {
                insert_name(&mut names, &entry.name);
            }
            proof {
                let p1 = per_symbol@.take(i + 1);
                let p0 = per_symbol@.take(i as int);
                assert forall|name: Seq<char>| #[trigger] string_views(names@).contains(name) <==> symbol_uses(p1, name, feature@) by {
                    if symbol_uses(p1, name, feature@) {
                        let m = choose|m: int|
                            0 <= m < p1.len() && p1[m].name@ == name && #[trigger] string_views(p1[m].features@).contains(feature@);
                        if m < i {
                            assert(string_views(p0[m].features@).contains(feature@));
                            assert(symbol_uses(p0, name, feature@));
                        }
                    }
                    if symbol_uses(p0, name, feature@) {
                        let m = choose|m: int|
                            0 <= m < p0.len() && p0[m].name@ == name && #[trigger] string_views(p0[m].features@).contains(feature@);
                        assert(string_views(p1[m].features@).contains(feature@));
                    }
                    if hit && name == entry.name@ {
                        assert(string_views(p1[i as int].features@).contains(feature@));
                    }
                }
            }
            i += 1;
        }
        assert(per_symbol@.take(i as int) =~= per_symbol@);
        let ghost before = r@;
        r.push(FeatureSymbols { feature: feature.clone(), symbols: names });
        proof {
            assert(string_views(all@)[j as int] == all@[j as int]@);
            assert forall|a: int, name: Seq<char>|
                0 <= a < r@.len() implies (#[trigger] string_views(r@[a].symbols@).contains(name)
                    <==> symbol_uses(per_symbol@, name, r@[a].feature@)) by {
                if a < j {
                    assert(r@[a] == before[a]);
                }
            }
        }
        j += 1;
    }
    proof {
        assert forall|a: int, b: int|
            0 <= a < b < r@.len() implies #[trigger] r@[a].feature@ != #[trigger] r@[b].feature@ by {
            assert(string_views(all@)[a] != string_views(all@)[b]);
        }
        assert forall|f: Seq<char>| #[trigger] some_symbol_uses(per_symbol@, f) implies lists_feature(r@, f) by {
            assert(string_views(all@).contains(f));
            let m = choose|m: int| 0 <= m < string_views(all@).len() && string_views(all@)[m] == f;
            assert(r@[m].feature@ == f);
        }
        assert forall|f: Seq<char>| lists_feature(r@, f) implies #[trigger] some_symbol_uses(per_symbol@, f) by {
            let m = choose|m: int| 0 <= m < r@.len() && #[trigger] r@[m].feature@ == f;
            assert(string_views(all@)[m] == f);
            assert(string_views(all@).contains(f));
        }
    }
    r
}

} // verus!
