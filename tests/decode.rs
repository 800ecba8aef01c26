use lsx86features::decode::{instructions, ClassifiedInstruction};

fn names(v: &[ClassifiedInstruction]) -> Vec<(String, Vec<String>)> {
    v.iter()
        .map(|i| (i.mnemonic.clone(), i.features.clone()))
        .collect()
}

fn expect(items: &[(&str, &[&str])]) -> Vec<(String, Vec<String>)> {
    items
        .iter()
        .map(|(m, fs)| (m.to_string(), fs.iter().map(|f| f.to_string()).collect()))
        .collect()
}

#[test]
fn instructions_sse() {
    let add_arrays_sse: &[u8] = &[
        0x0f, 0x28, 0x06, // movaps xmm0,XMMWORD PTR [rsi]
        0x0f, 0x28, 0x0a, // movaps xmm1,XMMWORD PTR [rdx]
        0x0f, 0x58, 0xc1, // addps xmm0,xmm1
        0x0f, 0x29, 0x07, // movaps XMMWORD PTR [rdi],xmm0
        0xc3, // ret
        0x0f, 0x1f, 0x00, // nop DWORD PTR [rax]
    ];
    let result = expect(&[
        ("Movaps", &["SSE"]),
        ("Movaps", &["SSE"]),
        ("Addps", &["SSE"]),
        ("Movaps", &["SSE"]),
        ("Ret", &["X64"]),
        ("Nop", &["MULTIBYTENOP"]),
    ]);

    assert_eq!(names(&instructions(add_arrays_sse, 64)), result);
}

#[test]
fn instructions_avx2() {
    let add_arrays_avx2: &[u8] = &[
        0xc5, 0xfc, 0x77, // vzeroall
        0xc5, 0xfc, 0x28, 0x06, // vmovaps ymm0,YMMWORD PTR [rsi]
        0xc5, 0xfc, 0x28, 0x0a, // vmovaps ymm1,YMMWORD PTR [rdx]
        0xc5, 0xfc, 0x58, 0xd1, // vaddps ymm2,ymm0,ymm1
        0xc5, 0xfc, 0x29, 0x17, // vmovaps YMMWORD PTR [rdi],ymm2
        0xc3, // ret
        0x66, 0x2e, 0x0f, 0x1f, 0x84, 0x00, 0x00, // cs nop WORD PTR [rax+rax*1+0x0]
        0x00, 0x00, 0x00, //
        0x66, 0x90, // xchg ax,ax
    ];
    let result = expect(&[
        ("Vzeroall", &["AVX"]),
        ("Vmovaps", &["AVX"]),
        ("Vmovaps", &["AVX"]),
        ("Vaddps", &["AVX"]),
        ("Vmovaps", &["AVX"]),
        ("Ret", &["X64"]),
        ("Nop", &["MULTIBYTENOP"]),
        ("Nop", &["INTEL8086"]),
    ]);

    assert_eq!(names(&instructions(add_arrays_avx2, 64)), result);
}

#[test]
fn instructions_avx512() {
    let add_arrays_avx512: &[u8] = &[
        0xc5, 0xfc, 0x77, // vzeroall
        0x62, 0xf1, 0x7c, 0x48, 0x28, 0x06, // vmovaps zmm0,ZMMWORD PTR [rsi]
        0x62, 0xf1, 0x7c, 0x48, 0x28, 0x0a, // vmovaps zmm1,ZMMWORD PTR [rdx]
        0x62, 0xf1, 0x7c, 0x48, 0x58, 0xd1, // vaddps zmm2,zmm0,zmm1
        0x62, 0xf1, 0x7c, 0x48, 0x29, 0x17, // vmovaps ZMMWORD PTR [rdi],zmm2
        0xc3, // ret
    ];
    let result = expect(&[
        ("Vzeroall", &["AVX"]),
        ("Vmovaps", &["AVX512F"]),
        ("Vmovaps", &["AVX512F"]),
        ("Vaddps", &["AVX512F"]),
        ("Vmovaps", &["AVX512F"]),
        ("Ret", &["X64"]),
    ]);

    assert_eq!(names(&instructions(add_arrays_avx512, 64)), result);
}

#[test]
fn decoding_twice_gives_the_same_sequence() {
    let code: &[u8] = &[0x0f, 0x28, 0x06, 0xc5, 0xfc, 0x77, 0xc3, 0x0f];
    let first = names(&instructions(code, 64));
    let second = names(&instructions(code, 64));
    assert_eq!(first, second);
    assert!(!first.is_empty());
}

#[test]
fn empty_input_decodes_to_nothing() {
    assert!(instructions(&[], 64).is_empty());
    assert!(instructions(&[], 32).is_empty());
}

#[test]
fn truncated_tail_does_not_fail() {
    // movaps, then the first two bytes of another movaps
    let code: &[u8] = &[0x0f, 0x28, 0x06, 0x0f, 0x28];
    let decoded = names(&instructions(code, 64));
    assert_eq!(decoded[0], ("Movaps".to_string(), vec!["SSE".to_string()]));
    assert!(decoded.len() >= 2);
}

#[test]
fn ret_in_32_bit_mode() {
    let decoded = names(&instructions(&[0xc3], 32));
    assert_eq!(decoded, expect(&[("Ret", &["INTEL386"])]));
}
