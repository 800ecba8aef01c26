//! A loaded binary: its code region, bitness and symbol ranges.
use vstd::prelude::*;
use crate::aggregate::{InstructionCount, InstructionKey, count_instructions, count_view, instruction_views, usage_of};
use crate::decode::{decoded, instructions};
use crate::index::{FeatureSymbols, lists_feature, SymbolFeatures, distinct_features, symbols_by_feature, uses_feature};
use crate::decode::string_views;
use crate::symbols::{SymbolRange, ranges_built, symbol_ranges};

verus! {

/// ELF machine number of 32-bit x86.
pub const EM_386: u16 = 3;

/// ELF machine number of x86-64.
pub const EM_X86_64: u16 = 62;

/// The header of the executable-code section: where its bytes lie in the file,
/// how many there are, and the virtual address they are loaded at.
pub struct TextSection {
    pub offset: u64,
    pub size: u64,
    pub address: u64,
}

/// What the logic reads of an ELF object: its machine, its `.text` section
/// header if it has one, and its symbols as (name, value).
pub struct ElfLayout {
    pub machine: u16,
    pub text: Option<TextSection>,
    pub symbols: Vec<(String, u64)>,
}

/// Why a binary cannot be analysed.
pub enum LoadError {
    /// The machine is neither 32-bit x86 nor x86-64.
    UnknownArchitecture(u16),
    /// There is no `.text` section.
    NoTextSection,
    /// The section's file offset does not fit in `usize`.
    TextOffsetTooLarge(u64),
    /// The section's size does not fit in `usize`.
    TextSizeTooLarge(u64),
    /// The section reaches past the end of the file.
    TextOutOfBounds { offset: usize, size: usize, file_size: usize },
    /// The section's virtual address range does not fit in `usize`.
    TextAddressTooLarge(u64),
    /// A symbol's value does not fit in `usize`.
    SymbolAddressTooLarge { name: String, address: u64 },
}

/// Per-symbol analysis was asked of a binary without symbols in its code
/// region; it may have been stripped.
pub struct NoSymbols;

impl NoSymbols {
    pub fn message(&self) -> (r: &'static str) {
        "No symbols found in the '.text' section, the binary may have been stripped"
    }
}

/// The instruction counts of one symbol's range.
pub struct SymbolCounts {
    pub name: String,
    pub counts: Vec<InstructionCount>,
}

pub struct Binary {
    bitness: u32,
    text: Vec<u8>,
    symbols: Vec<SymbolRange>,
}

pub open spec fn bitness_of_machine(machine: u16) -> Option<u32> {
    if machine == EM_386 {
        Some(32u32)
    } else if machine == EM_X86_64 {
        Some(64u32)
    } else {
        None
    }
}

/// The index of the first symbol whose value does not fit in `usize`.
pub open spec fn first_oversized(symbols: Seq<(String, u64)>) -> Option<int> {
    if exists|i: int| 0 <= i < symbols.len() && symbols[i].1 > usize::MAX {
        Some(
            choose|i: int|
                0 <= i < symbols.len() && symbols[i].1 > usize::MAX && forall|j: int|
                    0 <= j < i ==> symbols[j].1 <= usize::MAX,
        )
    } else {
        None
    }
}

/// The symbols with their values as addresses.
pub open spec fn symbol_addresses(symbols: Seq<(String, u64)>) -> Seq<(String, usize)> {
    symbols.map_values(|e: (String, u64)| (e.0, e.1 as usize))
}

/// The error that loading `layout` from a file of `file_size` bytes gives, or
/// `None` when it succeeds. The checks come in this order: machine, section,
/// offset, size, bounds, address, symbols.
pub open spec fn load_error(layout: ElfLayout, file_size: usize) -> Option<LoadError> {
    if bitness_of_machine(layout.machine) is None {
        Some(LoadError::UnknownArchitecture(layout.machine))
    } else if layout.text is None {
        Some(LoadError::NoTextSection)
    } else {
        let t = layout.text->0;
        if t.offset > usize::MAX {
            Some(LoadError::TextOffsetTooLarge(t.offset))
        } else if t.size > usize::MAX {
            Some(LoadError::TextSizeTooLarge(t.size))
        } else if t.offset + t.size > file_size {
            Some(
                LoadError::TextOutOfBounds {
                    offset: t.offset as usize,
                    size: t.size as usize,
                    file_size,
                },
            )
        } else if t.address + t.size > usize::MAX {
            Some(LoadError::TextAddressTooLarge(t.address))
        } else if first_oversized(layout.symbols@) is Some {
            let i = first_oversized(layout.symbols@)->0;
            Some(
                LoadError::SymbolAddressTooLarge {
                    name: layout.symbols@[i].0,
                    address: layout.symbols@[i].1,
                },
            )
        } else {
            None
        }
    }
}

impl Binary {
    /// Each symbol's name with the counts of its range, in range order.
    pub open spec fn symbol_usages(&self) -> Seq<(Seq<char>, Seq<(InstructionKey, nat)>)> {
        Seq::new(
            self.ranges().len(),
            |i: int|
                (
                    self.ranges()[i].name@,
                    usage_of(
                        decoded(
                            self.code().subrange(
                                self.ranges()[i].begin as int,
                                self.ranges()[i].end as int,
                            ),
                            self.bitness_spec(),
                        ),
                    ),
                ),
        )
    }

    pub closed spec fn code(&self) -> Seq<u8> {
        self.text@
    }

    pub closed spec fn bitness_spec(&self) -> u32 {
        self.bitness
    }

    pub closed spec fn ranges(&self) -> Seq<SymbolRange> {
        self.symbols@
    }

    /// The bitness is one the decoder takes, and every symbol range lies in
    /// the code.
    pub open spec fn wf(&self) -> bool {
        &&& self.bitness_spec() == 32 || self.bitness_spec() == 64
        &&& forall|i: int|
            0 <= i < self.ranges().len() ==> #[trigger] self.ranges()[i].begin
                <= self.ranges()[i].end <= self.code().len()
    }

    /// Checks the layout against the file of `data` and keeps the code region
    /// and the symbol ranges; fails with the first check that does not hold.
    #[verifier::loop_isolation(false)]
    pub fn from_elf(layout: &ElfLayout, data: &[u8]) -> (r: Result<Binary, LoadError>)
        ensures
            r is Err <==> load_error(*layout, data@.len() as usize) is Some,
            r is Err ==> r->Err_0 == load_error(*layout, data@.len() as usize)->0,
            r is Ok ==> {
                let b = r->Ok_0;
                let t = layout.text->0;
                &&& b.wf()
                &&& Some(b.bitness_spec()) == bitness_of_machine(layout.machine)
                &&& b.code() == data@.subrange(t.offset as int, t.offset + t.size)
                &&& ranges_built(
                    b.ranges(),
                    symbol_addresses(layout.symbols@),
                    t.address as usize,
                    t.size as usize,
                )
            },
    {
        let bitness: u32 = if layout.machine == EM_386 {
            32
        } else if layout.machine == EM_X86_64 {
            64
        } else {
            return Err(LoadError::UnknownArchitecture(layout.machine));
        };
        let section = match &layout.text {
            Some(section) => section,
            None => {
                return Err(LoadError::NoTextSection);
            },
        };
        if section.offset > usize::MAX as u64 {
            return Err(LoadError::TextOffsetTooLarge(section.offset));
        }
        let text_begin = section.offset as usize;
        if section.size > usize::MAX as u64 {
            return Err(LoadError::TextSizeTooLarge(section.size));
        }
        let text_size = section.size as usize;
        if text_size > data.len() || text_begin > data.len() - text_size {
            return Err(
                LoadError::TextOutOfBounds {
                    offset: text_begin,
                    size: text_size,
                    file_size: data.len(),
                },
            );
        }
        let text_end = text_begin + text_size;
        if section.address > usize::MAX as u64 || text_size > usize::MAX - section.address as usize {
            return Err(LoadError::TextAddressTooLarge(section.address));
        }
        let text_address = section.address as usize;
        let mut symbols: Vec<(String, usize)> = Vec::new();
        let mut i: usize = 0;
        while i < layout.symbols.len()
            invariant
                i <= layout.symbols@.len(),
                symbols@ == symbol_addresses(layout.symbols@.take(i as int)),
                forall|j: int| 0 <= j < i ==> layout.symbols@[j].1 <= usize::MAX,
            decreases layout.symbols@.len() - i,
        {
            let value = layout.symbols[i].1;
            if value > usize::MAX as u64 {
                proof {
                    let syms = layout.symbols@;
                    assert(0 <= i < syms.len() && syms[i as int].1 > usize::MAX);
                    let c = choose|c: int|
                        0 <= c < syms.len() && syms[c].1 > usize::MAX && forall|j: int|
                            0 <= j < c ==> syms[j].1 <= usize::MAX;
                    if c < i {
                        assert(syms[c].1 <= usize::MAX);
                    } else if c > i {
                        assert(syms[i as int].1 <= usize::MAX);
                    }
                    assert(first_oversized(syms) == Some(i as int));
                }
                return Err(
                    LoadError::SymbolAddressTooLarge { name: layout.symbols[i].0.clone(), address: value },
                );
            }
            symbols.push((layout.symbols[i].0.clone(), value as usize));
            i += 1;
            assert(symbols@ =~= symbol_addresses(layout.symbols@.take(i as int)));
        }
        assert(layout.symbols@.take(i as int) =~= layout.symbols@);
        assert(first_oversized(layout.symbols@) is None);
        let ranges = symbol_ranges(text_address, text_size, &symbols);
        let text = vstd::slice::slice_to_vec(&data[text_begin..text_end]);
        Ok(Binary { bitness, text, symbols: ranges })
    }

    /// Counts the instructions of the whole code region.
    pub fn instruction_counts(&self) -> (r: Vec<InstructionCount>)
        requires
            self.wf(),
        ensures
            r@.map_values(|c: InstructionCount| count_view(c)) == usage_of(
                decoded(self.code(), self.bitness_spec()),
            ),
    {
        let decoded_instructions = instructions(self.text.as_slice(), self.bitness);
        count_instructions(&decoded_instructions)
    }

    /// Counts the instructions of each symbol's range, in the order of the
    /// ranges; fails when there are no symbols.
    pub fn instruction_counts_by_symbol(&self) -> (r: Result<Vec<SymbolCounts>, NoSymbols>)
        requires
            self.wf(),
        ensures
            r is Err <==> self.ranges().len() == 0,
            r is Ok ==> {
                let v = r->Ok_0@;
                &&& v.len() == self.ranges().len()
                &&& forall|i: int|
                    0 <= i < v.len() ==> {
                        let s = #[trigger] self.ranges()[i];
                        &&& v[i].name@ == s.name@
                        &&& v[i].counts@.map_values(|c: InstructionCount| count_view(c))
                            == usage_of(
                            decoded(
                                self.code().subrange(s.begin as int, s.end as int),
                                self.bitness_spec(),
                            ),
                        )
                    }
            },
    {
        if self.symbols.len() == 0 {
            return Err(NoSymbols);
        }
        let mut result: Vec<SymbolCounts> = Vec::new();
        let mut i: usize = 0;
        while i < self.symbols.len()
            invariant
                self.wf(),
                i <= self.ranges().len(),
                result@.len() == i,
                forall|k: int|
                    0 <= k < i ==> {
                        let s = #[trigger] self.ranges()[k];
                        &&& result@[k].name@ == s.name@
                        &&& result@[k].counts@.map_values(|c: InstructionCount| count_view(c))
                            == usage_of(
                            decoded(
                                self.code().subrange(s.begin as int, s.end as int),
                                self.bitness_spec(),
                            ),
                        )
                    },
            decreases self.ranges().len() - i,
        {
            let range = &self.symbols[i];
            assert(self.symbols@.len() == self.ranges().len());
            assert(self.ranges()[i as int] == self.symbols@[i as int]);
            assert(self.wf());
            assert(0 <= i < self.ranges().len());
            assert(self.ranges()[i as int].begin <= self.ranges()[i as int].end);
            assert(self.ranges()[i as int].end <= self.code().len());
            let slice = &self.text.as_slice()[range.begin..range.end];
            let decoded_instructions = instructions(slice, self.bitness);
            let counts = count_instructions(&decoded_instructions);
            result.push(SymbolCounts { name: range.name.clone(), counts });
            i += 1;
        }
        Ok(result)
    }

    /// The code of the `i`-th symbol's range.
    pub open spec fn range_code(&self, i: int) -> Seq<u8> {
        self.code().subrange(self.ranges()[i].begin as int, self.ranges()[i].end as int)
    }

    /// Some symbol's range holds an instruction that needs `f`.
    pub open spec fn some_range_uses(&self, f: Seq<char>) -> bool {
        exists|i: int|
            0 <= i < self.ranges().len() && #[trigger] uses_feature(
                decoded(self.range_code(i), self.bitness_spec()),
                f,
            )
    }

    /// The distinct features that each symbol's instructions need, in the
    /// order of the ranges; fails when there are no symbols.
    pub fn symbol_features(&self) -> (r: Result<Vec<SymbolFeatures>, NoSymbols>)
        requires
            self.wf(),
        ensures
            r is Err <==> self.ranges().len() == 0,
            r is Ok ==> {
                let v = r->Ok_0@;
                &&& v.len() == self.ranges().len()
                &&& forall|i: int|
                    0 <= i < v.len() ==> {
                        &&& (#[trigger] v[i]).name@ == self.ranges()[i].name@
                        &&& string_views(v[i].features@).no_duplicates()
                        &&& forall|f: Seq<char>|
                            #[trigger] string_views(v[i].features@).contains(f) <==> uses_feature(
                                decoded(self.range_code(i), self.bitness_spec()),
                                f,
                            )
                    }
            },
    {
        if self.symbols.len() == 0 {
            return Err(NoSymbols);
        }
        let mut result: Vec<SymbolFeatures> = Vec::new();
        let mut i: usize = 0;
        while i < self.symbols.len()
            invariant
                self.wf(),
                i <= self.ranges().len(),
                result@.len() == i,
                forall|k: int|
                    0 <= k < i ==> {
                        &&& (#[trigger] result@[k]).name@ == self.ranges()[k].name@
                        &&& string_views(result@[k].features@).no_duplicates()
                        &&& forall|f: Seq<char>|
                            #[trigger] string_views(result@[k].features@).contains(f) <==> uses_feature(
                                decoded(self.range_code(k), self.bitness_spec()),
                                f,
                            )
                    },
            decreases self.ranges().len() - i,
        {
            assert(self.symbols@.len() == self.ranges().len());
            assert(self.ranges()[i as int] == self.symbols@[i as int]);
            assert(0 <= i < self.ranges().len());
            assert(self.ranges()[i as int].begin <= self.ranges()[i as int].end);
            assert(self.ranges()[i as int].end <= self.code().len());
            let range = &self.symbols[i];
            let slice = &self.text.as_slice()[range.begin..range.end];
            let decoded_instructions = instructions(slice, self.bitness);
            let features = distinct_features(&decoded_instructions);
            result.push(SymbolFeatures { name: range.name.clone(), features });
            i += 1;
        }
        Ok(result)
    }

    /// For each feature that some symbol uses, the distinct names of the
    /// symbols using it; fails when there are no symbols.
    pub fn feature_symbols(&self) -> (r: Result<Vec<FeatureSymbols>, NoSymbols>)
        requires
            self.wf(),
        ensures
            r is Err <==> self.ranges().len() == 0,
            r is Ok ==> {
                let v = r->Ok_0@;
                &&& forall|a: int, b: int|
                    0 <= a < b < v.len() ==> #[trigger] v[a].feature@ != #[trigger] v[b].feature@
                &&& forall|f: Seq<char>| #[trigger] self.some_range_uses(f) <==> lists_feature(v, f)
                &&& forall|j: int|
                    0 <= j < v.len() ==> string_views((#[trigger] v[j]).symbols@).no_duplicates()
                &&& forall|j: int, name: Seq<char>|
                    0 <= j < v.len() ==> (#[trigger] string_views(v[j].symbols@).contains(name)
                        <==> exists|i: int|
                        0 <= i < self.ranges().len() && self.ranges()[i].name@ == name
                            && #[trigger] uses_feature(
                            decoded(self.range_code(i), self.bitness_spec()),
                            v[j].feature@,
                        ))
            },
    {
        let per_symbol = match self.symbol_features() {
            Ok(v) => v,
            Err(e) => {
                return Err(e);
            },
        };
        let r = symbols_by_feature(&per_symbol);
        proof {
            let ps = per_symbol@;
            assert forall|f: Seq<char>| #[trigger] self.some_range_uses(f) <==> crate::index::some_symbol_uses(ps, f) by {
                if exists|i: int|
                    0 <= i < self.ranges().len() && #[trigger] uses_feature(
                        decoded(self.range_code(i), self.bitness_spec()),
                        f,
                    ) {
                    let i = choose|i: int|
                        0 <= i < self.ranges().len() && #[trigger] uses_feature(
                            decoded(self.range_code(i), self.bitness_spec()),
                            f,
                        );
                    assert(string_views(ps[i].features@).contains(f));
                }
                if crate::index::some_symbol_uses(ps, f) {
                    let i = choose|i: int| 0 <= i < ps.len() && #[trigger] string_views(ps[i].features@).contains(f);
                    assert(uses_feature(decoded(self.range_code(i), self.bitness_spec()), f));
                }
            }
            assert forall|j: int, name: Seq<char>|
                0 <= j < r@.len() implies (#[trigger] string_views(r@[j].symbols@).contains(name)
                    <==> exists|i: int|
                    0 <= i < self.ranges().len() && self.ranges()[i].name@ == name
                        && #[trigger] uses_feature(
                        decoded(self.range_code(i), self.bitness_spec()),
                        r@[j].feature@,
                    )) by {
                let f = r@[j].feature@;
                if crate::index::symbol_uses(ps, name, f) {
                    let i = choose|i: int|
                        0 <= i < ps.len() && ps[i].name@ == name && #[trigger] string_views(ps[i].features@).contains(f);
                    assert(uses_feature(decoded(self.range_code(i), self.bitness_spec()), f));
                }
                if exists|i: int|
                    0 <= i < self.ranges().len() && self.ranges()[i].name@ == name
                        && #[trigger] uses_feature(
                        decoded(self.range_code(i), self.bitness_spec()),
                        f,
                    ) {
                    let i = choose|i: int|
                        0 <= i < self.ranges().len() && self.ranges()[i].name@ == name
                            && #[trigger] uses_feature(
                            decoded(self.range_code(i), self.bitness_spec()),
                            f,
                        );
                    assert(string_views(ps[i].features@).contains(f));
                    assert(crate::index::symbol_uses(ps, name, f));
                }
            }
        }
        Ok(r)
    }
}

} // verus!
