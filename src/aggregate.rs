//! Counting decoded instructions by mnemonic and feature group.
use vstd::prelude::*;
use crate::decode::{ClassifiedInstruction, instruction_view, string_views};

verus! {

broadcast use vstd::seq_lib::group_to_multiset_ensures;

/// How often one (mnemonic, feature list) pair occurs.
pub struct InstructionCount {
    pub mnemonic: String,
    pub features: Vec<String>,
    pub count: usize,
}

/// The key an instruction is counted under.
pub type InstructionKey = (Seq<char>, Seq<Seq<char>>);

pub open spec fn count_key(c: InstructionCount) -> InstructionKey {
    (c.mnemonic@, string_views(c.features@))
}

/// The view of a count: its key and how often the key occurs.
pub open spec fn count_view(c: InstructionCount) -> (InstructionKey, nat) {
    (count_key(c), c.count as nat)
}

/// The distinct elements of `s`, in the order of their first occurrence.
pub open spec fn distinct_keys(s: Seq<InstructionKey>) -> Seq<InstructionKey>
    decreases s.len(),
{
    if s.len() == 0 {
        Seq::empty()
    } else {
        let rest = distinct_keys(s.drop_last());
        if rest.contains(s.last()) {
            rest
        } else {
            rest.push(s.last())
        }
    }
}

/// Each distinct key of `s`, in the order of first occurrence, with the number
/// of times it occurs in `s`.
pub open spec fn usage_of(s: Seq<InstructionKey>) -> Seq<(InstructionKey, nat)> {
    distinct_keys(s).map_values(|k: InstructionKey| (k, s.to_multiset().count(k)))
}

/// The views of a list of decoded instructions.
pub open spec fn instruction_views(v: Seq<ClassifiedInstruction>) -> Seq<InstructionKey> {
    v.map_values(|i: ClassifiedInstruction| instruction_view(i))
}

fn copy_strings(v: &Vec<String>) -> (r: Vec<String>)
    ensures
        r@ == v@,
{
    let mut r: Vec<String> = Vec::new();
    let mut i: usize = 0;
    while i < v.len()
        invariant
            i <= v@.len(),
            r@ == v@.take(i as int),
        decreases v@.len() - i,
    {
        r.push(v[i].clone());
        i += 1;
        assert(r@ =~= v@.take(i as int));
    }
    assert(v@.take(v@.len() as int) =~= v@);
    r
}

/// Two lists of names are equal.
pub fn same_names(a: &Vec<String>, b: &Vec<String>) -> (r: bool)
    ensures
        r == (string_views(a@) == string_views(b@)),
{
    if a.len() != b.len() {
        assert(string_views(a@).len() != string_views(b@).len());
        return false;
    }
    let mut i: usize = 0;
    while i < a.len()
        invariant
            i <= a@.len(),
            a@.len() == b@.len(),
            forall|k: int| 0 <= k < i ==> a@[k]@ == b@[k]@,
        decreases a@.len() - i,
    {
        if a[i] != b[i] {
            assert(string_views(a@)[i as int] != string_views(b@)[i as int]);
            return false;
        }
        i += 1;
    }
    assert(string_views(a@) =~= string_views(b@));
    true
}

proof fn lemma_count_at_most_len(s: Seq<InstructionKey>, k: InstructionKey)
    ensures
        s.to_multiset().count(k) <= s.len(),
    decreases s.len(),
{
    if s.len() > 0 {
        lemma_count_at_most_len(s.drop_last(), k);
        assert(s =~= s.drop_last().push(s.last()));
    }
}

proof fn lemma_distinct_keys(s: Seq<InstructionKey>)
    ensures
        forall|k: InstructionKey| distinct_keys(s).contains(k) <==> s.contains(k),
        forall|i: int, j: int|
            0 <= i < j < distinct_keys(s).len() ==> distinct_keys(s)[i] != distinct_keys(s)[j],
    decreases s.len(),
{
    if s.len() > 0 {
        lemma_distinct_keys(s.drop_last());
        assert(s =~= s.drop_last().push(s.last()));
        let rest = distinct_keys(s.drop_last());
        assert forall|k: InstructionKey| s.contains(k) implies distinct_keys(s).contains(k) by {
            let i = choose|i: int| 0 <= i < s.len() && s[i] == k;
            if i < s.len() - 1 {
                assert(s.drop_last()[i] == k);
                assert(s.drop_last().contains(k));
                assert(rest.contains(k));
                let m = choose|m: int| 0 <= m < rest.len() && rest[m] == k;
                if !rest.contains(s.last()) {
                    assert(distinct_keys(s)[m] == k);
                }
            } else if !rest.contains(s.last()) {
                assert(distinct_keys(s)[rest.len() as int] == k);
            }
        }
        assert forall|k: InstructionKey| distinct_keys(s).contains(k) implies s.contains(k) by {
            if rest.contains(k) {
                assert(s.drop_last().contains(k));
                let i = choose|i: int| 0 <= i < s.drop_last().len() && s.drop_last()[i] == k;
                assert(s[i] == k);
            } else {
                let m = choose|m: int| 0 <= m < distinct_keys(s).len() && distinct_keys(s)[m] == k;
                if m < rest.len() {
                    assert(rest[m] == k);
                }
                assert(s[s.len() - 1] == k);
            }
        }
    }
}

/// Counts the instructions by (mnemonic, feature list): one entry per distinct
/// pair, in the order of first occurrence.
pub fn count_instructions(instructions: &Vec<ClassifiedInstruction>) -> (r: Vec<InstructionCount>)
    ensures
        r@.map_values(|c: InstructionCount| count_view(c)) == usage_of(
            instruction_views(instructions@),
        ),
{
    let ghost views = instruction_views(instructions@);
    let mut firsts: Vec<usize> = Vec::new();
    let mut counts: Vec<usize> = Vec::new();
    let mut i: usize = 0;
    while i < instructions.len()
        invariant
            i <= instructions@.len(),
            views == instruction_views(instructions@),
            firsts@.len() == counts@.len(),
            firsts@.len() == distinct_keys(views.take(i as int)).len(),
            forall|j: int|
                0 <= j < firsts@.len() ==> #[trigger] firsts@[j] < i && views[firsts@[j] as int]
                    == distinct_keys(views.take(i as int))[j],
            forall|j: int|
                0 <= j < counts@.len() ==> #[trigger] counts@[j] == views.take(i as int).to_multiset().count(
                    distinct_keys(views.take(i as int))[j],
                ),
        decreases instructions@.len() - i,
    {
        let ghost prefix = views.take(i as int);
        let ghost next = views.take(i + 1);
        proof {
            assert(next.drop_last() == prefix);
            assert(next.last() == views[i as int]);
            assert(next =~= prefix.push(views[i as int]));
            lemma_distinct_keys(prefix);
        }
        let mut j: usize = 0;
        let mut found = false;
        while j < firsts.len() && !found
            invariant
                j <= firsts@.len(),
                found ==> j < firsts@.len() && distinct_keys(prefix)[j as int] == views[i as int],
                i < instructions@.len(),
                views == instruction_views(instructions@),
                firsts@.len() == distinct_keys(prefix).len(),
                forall|m: int|
                    0 <= m < firsts@.len() ==> #[trigger] firsts@[m] < i && views[firsts@[m] as int]
                        == distinct_keys(prefix)[m],
                forall|m: int| 0 <= m < j ==> distinct_keys(prefix)[m] != views[i as int],
            decreases firsts@.len() - j + (if found { 0int } else { 1int }),
        {
            let f = firsts[j];
            let a = &instructions[f];
            let b = &instructions[i];
            assert(views[f as int] == instruction_view(*a));
            assert(views[i as int] == instruction_view(*b));
            if a.mnemonic == b.mnemonic && same_names(&a.features, &b.features) {
                found = true;
            } else {
                j += 1;
            }
        }
        if found {
            assert(distinct_keys(prefix)[j as int] == views[i as int]);
            assert(distinct_keys(prefix).contains(views[i as int]));
            assert(distinct_keys(next) == distinct_keys(prefix));
            assert(counts[j as int] <= i) by {
                assert(prefix.to_multiset().len() == i);
                lemma_count_at_most_len(prefix, views[i as int]);
            }
            let c = counts[j] + 1;
            counts.set(j, c);
        } else {
            assert(!distinct_keys(prefix).contains(views[i as int]));
            assert(!prefix.contains(views[i as int]));
            assert(distinct_keys(next) == distinct_keys(prefix).push(views[i as int]));
            firsts.push(i);
            counts.push(1);
        }
        i += 1;
    }
    assert(views.take(instructions@.len() as int) =~= views);
    let mut r: Vec<InstructionCount> = Vec::new();
    let mut k: usize = 0;
    while k < firsts.len()
        invariant
            k <= firsts@.len(),
            firsts@.len() == counts@.len(),
            views == instruction_views(instructions@),
            firsts@.len() == distinct_keys(views).len(),
            forall|j: int|
                0 <= j < firsts@.len() ==> #[trigger] firsts@[j] < instructions@.len() && views[firsts@[j] as int]
                    == distinct_keys(views)[j],
            forall|j: int|
                0 <= j < counts@.len() ==> #[trigger] counts@[j] == views.to_multiset().count(
                    distinct_keys(views)[j],
                ),
            r@.map_values(|c: InstructionCount| count_view(c)) == usage_of(views).take(k as int),
        decreases firsts@.len() - k,
    {
        let source = &instructions[firsts[k]];
        assert(views[firsts@[k as int] as int] == instruction_view(*source));
        let entry = InstructionCount {
            mnemonic: source.mnemonic.clone(),
            features: copy_strings(&source.features),
            count: counts[k],
        };
        let ghost before = r@;
        r.push(entry);
        k += 1;
        assert(r@.map_values(|c: InstructionCount| count_view(c)) =~= usage_of(views).take(k as int)) by {
            assert(r@.map_values(|c: InstructionCount| count_view(c)) =~= before.map_values(
                |c: InstructionCount| count_view(c),
            ).push(count_view(entry)));
        }
    }
    assert(usage_of(views).take(k as int) =~= usage_of(views));
    r
}

proof fn lemma_usage_contains(s: Seq<InstructionKey>, p: (InstructionKey, nat))
    ensures
        usage_of(s).contains(p) <==> distinct_keys(s).contains(p.0) && p.1 == s.to_multiset().count(
            p.0,
        ),
{
    let d = distinct_keys(s);
    if usage_of(s).contains(p) {
        let i = choose|i: int| 0 <= i < usage_of(s).len() && usage_of(s)[i] == p;
        assert(d[i] == p.0);
    }
    if d.contains(p.0) && p.1 == s.to_multiset().count(p.0) {
        let i = choose|i: int| 0 <= i < d.len() && d[i] == p.0;
        assert(usage_of(s)[i] == p);
    }
}

/// Counting does not depend on the order of the instructions: two streams that
/// are permutations of each other have the same keys, give each key the same
/// count, and so have the same (key, count) entries.
pub proof fn lemma_counts_ignore_order(a: Seq<InstructionKey>, b: Seq<InstructionKey>)
    requires
        a.to_multiset() == b.to_multiset(),
    ensures
        forall|k: InstructionKey| a.to_multiset().count(k) == b.to_multiset().count(k),
        forall|k: InstructionKey|
            #[trigger] distinct_keys(a).contains(k) <==> distinct_keys(b).contains(k),
        forall|p: (InstructionKey, nat)| #[trigger] usage_of(a).contains(p) <==> usage_of(b).contains(p),
{
    lemma_distinct_keys(a);
    lemma_distinct_keys(b);
    assert forall|p: (InstructionKey, nat)| #[trigger] usage_of(a).contains(p) implies usage_of(b).contains(p) by {
        lemma_usage_contains(a, p);
        lemma_usage_contains(b, p);
        assert(a.contains(p.0) <==> a.to_multiset().count(p.0) > 0);
        assert(b.contains(p.0) <==> b.to_multiset().count(p.0) > 0);
    }
    assert forall|p: (InstructionKey, nat)| #[trigger] usage_of(b).contains(p) implies usage_of(a).contains(p) by {
        lemma_usage_contains(a, p);
        lemma_usage_contains(b, p);
        assert(a.contains(p.0) <==> a.to_multiset().count(p.0) > 0);
        assert(b.contains(p.0) <==> b.to_multiset().count(p.0) > 0);
    }
    assert forall|k: InstructionKey| #[trigger] distinct_keys(a).contains(k) <==> distinct_keys(b).contains(k) by {
        assert(a.contains(k) <==> a.to_multiset().count(k) > 0);
        assert(b.contains(k) <==> b.to_multiset().count(k) > 0);
    }
}

} // verus!
