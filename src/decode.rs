//! Decoding a byte slice into classified instructions.
use vstd::prelude::*;

verus! {

/// One decoded instruction: the decoder's name of its mnemonic and the names
/// of the CPUID features it needs, in the decoder's order.
pub struct ClassifiedInstruction {
    pub mnemonic: String,
    pub features: Vec<String>,
}

/// The views of a list of strings.
pub open spec fn string_views(v: Seq<String>) -> Seq<Seq<char>> {
    v.map_values(|s: String| s@)
}

/// What decoding the first instruction of `bytes` in `bitness`-bit mode gives:
/// its length in bytes, its mnemonic's name and its features' names.
pub uninterp spec fn first_instruction(bytes: Seq<u8>, bitness: u32) -> (int, Seq<char>, Seq<Seq<char>>);

/// The instruction view: mnemonic name and feature names.
pub open spec fn instruction_view(i: ClassifiedInstruction) -> (Seq<char>, Seq<Seq<char>>) {
    (i.mnemonic@, string_views(i.features@))
}

/// The instructions that decoding `bytes` from its first byte on yields:
/// one instruction after another until no byte is left.
pub open spec fn decoded(bytes: Seq<u8>, bitness: u32) -> Seq<(Seq<char>, Seq<Seq<char>>)>
    decreases bytes.len(),
{
    if bytes.len() == 0 {
        Seq::empty()
    } else {
        let first = first_instruction(bytes, bitness);
        if 0 < first.0 <= bytes.len() {
            seq![(first.1, first.2)] + decoded(bytes.skip(first.0), bitness)
        } else {
            Seq::empty()
        }
    }
}

/// Relies on iced_x86's `Decoder::new` and `Decoder::decode`: decodes the
/// first instruction of `data`, and gives its length, and the `Debug` names of
/// its mnemonic and CPUID features. `Decoder::new` panics unless the bitness
/// is 16, 32 or 64.
#[verifier::external_body]
fn decode_first(data: &[u8], bitness: u32) -> (r: (usize, String, Vec<String>))
    requires
        data@.len() > 0,
        bitness == 16 || bitness == 32 || bitness == 64,
    ensures
        (r.0 as int, r.1@, string_views(r.2@)) == first_instruction(data@, bitness),
{
    let instruction = iced_x86::Decoder::new(bitness, data, iced_x86::DecoderOptions::NONE).decode();
    let features = instruction.cpuid_features().iter().map(|f| format!("{f:?}")).collect();
    (instruction.len(), format!("{:?}", instruction.mnemonic()), features)
}

/// Decodes `data` instruction by instruction until no byte is left.
pub fn instructions(data: &[u8], bitness: u32) -> (r: Vec<ClassifiedInstruction>)
    requires
        bitness == 16 || bitness == 32 || bitness == 64,
    ensures
        r@.map_values(|i: ClassifiedInstruction| instruction_view(i)) == decoded(data@, bitness),
{
    let mut result: Vec<ClassifiedInstruction> = Vec::new();
    let mut position: usize = 0;
    assert(data@.skip(0) =~= data@);
    assert(result@.map_values(|i: ClassifiedInstruction| instruction_view(i)) =~= Seq::empty());
    while position < data.len()
        invariant
            position <= data@.len(),
            bitness == 16 || bitness == 32 || bitness == 64,
            result@.map_values(|i: ClassifiedInstruction| instruction_view(i)) + decoded(
                data@.skip(position as int),
                bitness,
            ) == decoded(data@, bitness),
        decreases data@.len() - position,
    {
        let rest = &data[position..data.len()];
        assert(rest@ == data@.skip(position as int));
        let (length, mnemonic, features) = decode_first(rest, bitness);
        if length == 0 || length > rest.len() {
            proof {
                assert(decoded(rest@, bitness) == Seq::<(Seq<char>, Seq<Seq<char>>)>::empty());
                assert(result@.map_values(|i: ClassifiedInstruction| instruction_view(i)) + decoded(
                    data@.skip(data@.len() as int),
                    bitness,
                ) =~= result@.map_values(|i: ClassifiedInstruction| instruction_view(i)) + decoded(
                    rest@,
                    bitness,
                ));
            }
            position = data.len();
        } else {
            let ghost before = result@;
            result.push(ClassifiedInstruction { mnemonic, features });
            proof {
                assert(rest@.skip(length as int) == data@.skip(position + length));
                assert(result@.map_values(|i: ClassifiedInstruction| instruction_view(i)) =~= before.map_values(
                    |i: ClassifiedInstruction| instruction_view(i),
                ).push(instruction_view(result@.last())));
            }
            position = position + length;
        }
    }
    assert(data@.skip(data@.len() as int) =~= Seq::<u8>::empty());
    result
}

/// Decoding depends on the bytes and the bitness alone: decoding the same
/// bytes twice gives the same instructions in the same order.
pub proof fn lemma_decoding_repeatable(a: Seq<u8>, b: Seq<u8>, bitness: u32)
    requires
        a == b,
    ensures
        decoded(a, bitness) == decoded(b, bitness),
{
}

} // verus!
