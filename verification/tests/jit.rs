use avl_jit::avl::AvlTree;
use avl_jit::codegen::{check_size, compile_on, conclude, emit_program, started, CompileError};
use avl_jit::key::rank_value;
use avl_jit::program::Strategy;
use avl_jit::emitter::Emitter;
use avl_jit::jit;
use avl_jit::jit_sse::{compile_scalar, compile_sse};
use rand::rngs::StdRng;
use rand::seq::SliceRandom;
use dynasmrt::AssemblyOffset;
use rand::{Rng, SeedableRng};

// Registers and flags of a processor that knows the instructions the
// generated code is made of, and nothing else.
struct Cpu {
    rax: u64,
    r8: u64,
    r9: u64,
    r10: u64,
    r11: u64,
    xmm0: [u8; 16],
    xmm1: [u8; 16],
    left: i64,
    right: i64,
}

fn rel32(code: &[u8], at: usize) -> i64 {
    i32::from_le_bytes([code[at], code[at + 1], code[at + 2], code[at + 3]]) as i64
}

fn imm64(code: &[u8], at: usize) -> u64 {
    let mut bytes = [0u8; 8];
    bytes.copy_from_slice(&code[at..at + 8]);
    u64::from_le_bytes(bytes)
}

fn word(key: &[u8; 16], at: usize) -> u64 {
    let mut bytes = [0u8; 8];
    bytes.copy_from_slice(&key[at..at + 8]);
    u64::from_le_bytes(bytes)
}

// Runs machine code from `entry` until it returns, with `edi` in the argument
// register read by value and `key` behind the argument register read as a
// pointer.
fn execute(code: &[u8], entry: usize, edi: u32, key: &[u8; 16]) -> i32 {
    let mut cpu = Cpu {
        rax: 0xDEAD_BEEF_DEAD_BEEF,
        r8: 1,
        r9: 2,
        r10: 3,
        r11: 4,
        xmm0: [0xAA; 16],
        xmm1: [0x55; 16],
        left: 0,
        right: 0,
    };
    let mut pc = entry;
    let mut steps = 0usize;
    loop {
        steps += 1;
        assert!(steps <= 1_000_000, "the code does not return");
        let rest = &code[pc..];
        if rest.starts_with(&[0x81, 0xFF]) {
            cpu.left = edi as i32 as i64;
            cpu.right = rel32(code, pc + 2);
            pc += 6;
        } else if rest.starts_with(&[0x3D]) {
            cpu.left = cpu.rax as u32 as i32 as i64;
            cpu.right = rel32(code, pc + 1);
            pc += 5;
        } else if rest.starts_with(&[0x4D, 0x3B, 0xC2]) {
            cpu.left = cpu.r8 as i64;
            cpu.right = cpu.r10 as i64;
            pc += 3;
        } else if rest.starts_with(&[0x4D, 0x3B, 0xCB]) {
            cpu.left = cpu.r9 as i64;
            cpu.right = cpu.r11 as i64;
            pc += 3;
        } else if rest.starts_with(&[0x0F, 0x84])
            || rest.starts_with(&[0x0F, 0x85])
            || rest.starts_with(&[0x0F, 0x8C])
            || rest.starts_with(&[0x0F, 0x8F])
        {
            let taken = match rest[1] {
                0x84 => cpu.left == cpu.right,
                0x85 => cpu.left != cpu.right,
                0x8C => cpu.left < cpu.right,
                _ => cpu.left > cpu.right,
            };
            let next = pc + 6;
            pc = if taken { (next as i64 + rel32(code, pc + 2)) as usize } else { next };
        } else if rest.starts_with(&[0xE9]) {
            pc = ((pc + 5) as i64 + rel32(code, pc + 1)) as usize;
        } else if rest.starts_with(&[0x48, 0xC7, 0xC0]) {
            cpu.rax = rel32(code, pc + 3) as u64;
            pc += 7;
        } else if rest.starts_with(&[0xC3]) {
            return cpu.rax as u32 as i32;
        } else if rest.starts_with(&[0x4C, 0x8B, 0x07]) {
            cpu.r8 = word(key, 0);
            pc += 3;
        } else if rest.starts_with(&[0x4C, 0x8B, 0x4F, 0x08]) {
            cpu.r9 = word(key, 8);
            pc += 4;
        } else if rest.starts_with(&[0x49, 0xBA]) {
            cpu.r10 = imm64(code, pc + 2);
            pc += 10;
        } else if rest.starts_with(&[0x49, 0xBB]) {
            cpu.r11 = imm64(code, pc + 2);
            pc += 10;
        } else if rest.starts_with(&[0x0F, 0x10, 0x07]) {
            cpu.xmm0 = *key;
            pc += 3;
        } else if rest.starts_with(&[0x66, 0x49, 0x0F, 0x6E, 0xCA]) {
            cpu.xmm1 = [0; 16];
            cpu.xmm1[..8].copy_from_slice(&cpu.r10.to_le_bytes());
            pc += 5;
        } else if rest.starts_with(&[0x66, 0x49, 0x0F, 0x3A, 0x22, 0xCB, 0x01]) {
            cpu.xmm1[8..].copy_from_slice(&cpu.r11.to_le_bytes());
            pc += 7;
        } else if rest.starts_with(&[0x66, 0x0F, 0x74, 0xC1]) {
            for i in 0..16 {
                cpu.xmm0[i] = if cpu.xmm0[i] == cpu.xmm1[i] { 0xFF } else { 0 };
            }
            pc += 4;
        } else if rest.starts_with(&[0x66, 0x0F, 0xD7, 0xC0]) {
            let mut mask = 0u64;
            for i in 0..16 {
                mask |= ((cpu.xmm0[i] >> 7) as u64) << i;
            }
            cpu.rax = mask;
            pc += 4;
        } else {
            panic!("unknown instruction at offset {}", pc);
        }
    }
}

fn call_scalar(code: &[u8], entry: usize, key: i32) -> i32 {
    execute(code, entry, key as u32, &[0xEE; 16])
}

fn call_wide(code: &[u8], entry: usize, key: &[u8; 16]) -> i32 {
    execute(code, entry, 0x1234_5678, key)
}

// Helper function to generate random 16-byte arrays
fn generate_random_bytes(rng: &mut StdRng) -> [u8; 16] {
    let mut bytes = [0u8; 16];
    rng.fill(&mut bytes);
    bytes
}

#[test]
fn test_i32_jit_correctness() {
    let tree_size = 1000;
    let lookups = 10000;
    let seed = 12345;

    let mut tree = AvlTree::new();
    let mut rng = StdRng::seed_from_u64(seed);
    let mut keys: Vec<i32> = (0..tree_size).collect();
    keys.shuffle(&mut rng);
    for &key in &keys {
        tree.insert(key, key);
    }

    let mut lookup_keys = Vec::with_capacity(lookups as usize);
    for _ in 0..lookups {
        lookup_keys.push(rng.random_range(0..tree_size));
    }

    let mut generic_correct_count = 0;
    for &key in &lookup_keys {
        if tree.lookup(&key).is_some() {
            generic_correct_count += 1;
        }
    }

    let (buf, start) = jit::compile(&tree.root).unwrap();
    let mut jit_correct_count = 0;
    for &key in &lookup_keys {
        let result = call_scalar(&buf, start.0, key);
        if result != -1 {
            jit_correct_count += 1;
        }
    }

    assert_eq!(
        generic_correct_count, jit_correct_count,
        "Mismatch in i32 JIT correctness"
    );
}

#[test]
fn test_str_jit_scalar_correctness() {
    let tree_size = 1000;
    let lookups = 10000;
    let seed = 54321;

    let mut tree = AvlTree::new();
    let mut rng = StdRng::seed_from_u64(seed);
    let mut keys: Vec<[u8; 16]> = Vec::with_capacity(tree_size as usize);
    for _ in 0..tree_size {
        keys.push(generate_random_bytes(&mut rng));
    }
    keys.shuffle(&mut rng);
    for &key in &keys {
        tree.insert(key, 1);
    }

    let mut lookup_keys = Vec::with_capacity(lookups as usize);
    for _ in 0..lookups {
        lookup_keys.push(generate_random_bytes(&mut rng));
    }

    let mut generic_correct_count = 0;
    for &key in &lookup_keys {
        if tree.lookup(&key).is_some() {
            generic_correct_count += 1;
        }
    }

    let (buf, start) = compile_scalar(&tree.root).unwrap();
    let mut jit_correct_count = 0;
    for &key in &lookup_keys {
        let result = call_wide(&buf, start.0, &key);
        if result != -1 {
            jit_correct_count += 1;
        }
    }

    assert_eq!(
        generic_correct_count, jit_correct_count,
        "Mismatch in string GPR JIT correctness"
    );
}

#[test]
fn test_str_jit_sse_correctness() {
    let tree_size = 1000;
    let lookups = 10000;
    let seed = 67890;

    let mut tree = AvlTree::new();
    let mut rng = StdRng::seed_from_u64(seed);
    let mut keys: Vec<[u8; 16]> = Vec::with_capacity(tree_size as usize);
    for _ in 0..tree_size {
        keys.push(generate_random_bytes(&mut rng));
    }
    keys.shuffle(&mut rng);
    for &key in &keys {
        tree.insert(key, 1);
    }

    let mut lookup_keys = Vec::with_capacity(lookups as usize);
    for _ in 0..lookups {
        lookup_keys.push(generate_random_bytes(&mut rng));
    }

    let mut generic_correct_count = 0;
    for &key in &lookup_keys {
        if tree.lookup(&key).is_some() {
            generic_correct_count += 1;
        }
    }

    let (buf, start) = compile_sse(&tree.root).unwrap();
    let mut jit_correct_count = 0;
    for &key in &lookup_keys {
        let result = call_wide(&buf, start.0, &key);
        if result != -1 {
            jit_correct_count += 1;
        }
    }

    assert_eq!(
        generic_correct_count, jit_correct_count,
        "Mismatch in string SSE JIT correctness"
    );
}

#[test]
fn scalar_scenario_of_seven_keys() {
    let mut tree = AvlTree::new();
    for key in [5, 3, 8, 1, 4, 7, 9] {
        tree.insert(key, key);
    }
    let (buf, start) = jit::compile(&tree.root).unwrap();
    assert_eq!(call_scalar(&buf, start.0, 4), 4);
    assert_eq!(call_scalar(&buf, start.0, 8), 8);
    assert_eq!(call_scalar(&buf, start.0, 6), -1);
    assert_eq!(call_scalar(&buf, start.0, 100), -1);
}

#[test]
fn wide_scenario_of_two_keys() {
    let mut a = [0u8; 16];
    a[15] = 1;
    let b = [0xFFu8; 16];
    let mut c = [0u8; 16];
    c[0] = 7;
    let mut tree = AvlTree::new();
    tree.insert(a, 10);
    tree.insert(b, 20);
    let (limbs, limbs_start) = compile_scalar(&tree.root).unwrap();
    let (vector, vector_start) = compile_sse(&tree.root).unwrap();
    assert_eq!(call_wide(&limbs, limbs_start.0, &a), 10);
    assert_eq!(call_wide(&limbs, limbs_start.0, &b), 20);
    assert_eq!(call_wide(&limbs, limbs_start.0, &c), -1);
    assert_eq!(call_wide(&vector, vector_start.0, &a), 10);
    assert_eq!(call_wide(&vector, vector_start.0, &b), 20);
    assert_eq!(call_wide(&vector, vector_start.0, &c), -1);
}

#[test]
fn present_keys_return_their_values() {
    let mut rng = StdRng::seed_from_u64(7);
    let mut narrow = AvlTree::new();
    let mut wide = AvlTree::new();
    let mut narrow_keys = Vec::new();
    let mut wide_keys = Vec::new();
    for i in 0..300 {
        let k: i32 = rng.random_range(-1_000_000..1_000_000);
        narrow.insert(k, i);
        narrow_keys.push(k);
        let w = generate_random_bytes(&mut rng);
        wide.insert(w, i + 1000);
        wide_keys.push(w);
    }
    let (code, start) = jit::compile(&narrow.root).unwrap();
    for k in &narrow_keys {
        assert_eq!(Some(call_scalar(&code, start.0, *k)), narrow.lookup(k));
    }
    let (limbs, limbs_start) = compile_scalar(&wide.root).unwrap();
    let (vector, vector_start) = compile_sse(&wide.root).unwrap();
    for w in &wide_keys {
        assert_eq!(Some(call_wide(&limbs, limbs_start.0, w)), wide.lookup(w));
        assert_eq!(Some(call_wide(&vector, vector_start.0, w)), wide.lookup(w));
    }
}

#[test]
fn absent_keys_return_the_sentinel() {
    let mut narrow = AvlTree::new();
    let mut wide = AvlTree::new();
    for i in 0..200 {
        narrow.insert(2 * i, i);
        let mut w = [0u8; 16];
        w[0] = (2 * i) as u8;
        w[9] = (i / 2) as u8;
        wide.insert(w, i);
    }
    let (code, start) = jit::compile(&narrow.root).unwrap();
    let (limbs, limbs_start) = compile_scalar(&wide.root).unwrap();
    let (vector, vector_start) = compile_sse(&wide.root).unwrap();
    for i in 0..200 {
        assert_eq!(call_scalar(&code, start.0, 2 * i + 1), -1);
        let mut w = [0u8; 16];
        w[0] = (2 * i) as u8;
        w[9] = (i / 2) as u8;
        w[15] = 1;
        assert_eq!(wide.lookup(&w), None);
        assert_eq!(call_wide(&limbs, limbs_start.0, &w), -1);
        assert_eq!(call_wide(&vector, vector_start.0, &w), -1);
    }
    assert_eq!(call_scalar(&code, start.0, i32::MIN), -1);
    assert_eq!(call_scalar(&code, start.0, i32::MAX), -1);
    assert_eq!(call_scalar(&code, start.0, -1), -1);
}

#[test]
fn empty_tree_returns_the_sentinel() {
    let narrow: AvlTree<i32, i32> = AvlTree::new();
    let (code, start) = jit::compile(&narrow.root).unwrap();
    assert_eq!(start.0, 0);
    assert_eq!(&code[..], &[0x48, 0xC7, 0xC0, 0xFF, 0xFF, 0xFF, 0xFF, 0xC3]);
    for k in [0, 1, -1, 42, i32::MIN, i32::MAX] {
        assert_eq!(call_scalar(&code, start.0, k), -1);
    }
    let wide: AvlTree<[u8; 16], i32> = AvlTree::new();
    let (limbs, limbs_start) = compile_scalar(&wide.root).unwrap();
    let (vector, vector_start) = compile_sse(&wide.root).unwrap();
    assert_eq!(&limbs[..], &code[..]);
    assert_eq!(&vector[..], &code[..]);
    for k in [[0u8; 16], [0xFF; 16], [0x5A; 16]] {
        assert_eq!(call_wide(&limbs, limbs_start.0, &k), -1);
        assert_eq!(call_wide(&vector, vector_start.0, &k), -1);
    }
}

#[test]
fn wide_strategies_agree() {
    let mut rng = StdRng::seed_from_u64(99);
    let mut tree = AvlTree::new();
    let mut probes = Vec::new();
    for i in 0..500 {
        let k = generate_random_bytes(&mut rng);
        tree.insert(k, i);
        probes.push(k);
        probes.push(generate_random_bytes(&mut rng));
        let mut near = k;
        near[(i % 16) as usize] ^= 1 << (i % 8);
        probes.push(near);
    }
    let (limbs, limbs_start) = compile_scalar(&tree.root).unwrap();
    let (vector, vector_start) = compile_sse(&tree.root).unwrap();
    for p in &probes {
        let by_limbs = call_wide(&limbs, limbs_start.0, p);
        let by_vector = call_wide(&vector, vector_start.0, p);
        assert_eq!(by_limbs, by_vector);
        assert_eq!(by_limbs, tree.lookup(p).unwrap_or(-1));
    }
}

#[test]
fn compiling_twice_gives_the_same_code() {
    let mut tree = AvlTree::new();
    for key in [50, 20, 70, 10, 30, 60, 80, 25] {
        tree.insert(key, key * 3);
    }
    let (first, first_start) = jit::compile(&tree.root).unwrap();
    let (second, second_start) = jit::compile(&tree.root).unwrap();
    assert_eq!(&first[..], &second[..]);
    assert_eq!(first_start, second_start);
    for k in 0..100 {
        assert_eq!(
            call_scalar(&first, first_start.0, k),
            call_scalar(&second, second_start.0, k)
        );
    }
}

#[test]
fn scalar_code_of_one_node() {
    let mut tree = AvlTree::new();
    tree.insert(5, 0x0102_0304);
    let (code, start) = jit::compile(&tree.root).unwrap();
    assert_eq!(start.0, 0);
    let expected: [u8; 40] = [
        0x81, 0xFF, 0x05, 0x00, 0x00, 0x00, // cmp edi, 5
        0x0F, 0x84, 0x0C, 0x00, 0x00, 0x00, // je +12
        0x0F, 0x8C, 0x0E, 0x00, 0x00, 0x00, // jl +14
        0x0F, 0x8F, 0x08, 0x00, 0x00, 0x00, // jg +8
        0x48, 0xC7, 0xC0, 0x04, 0x03, 0x02, 0x01, // mov rax, 0x01020304
        0xC3, // ret
        0x48, 0xC7, 0xC0, 0xFF, 0xFF, 0xFF, 0xFF, // mov rax, -1
        0xC3, // ret
    ];
    assert_eq!(&code[..], &expected[..]);
}

#[test]
fn scalar_code_of_three_nodes() {
    let mut tree = AvlTree::new();
    tree.insert(2, 20);
    tree.insert(1, 10);
    tree.insert(-3, 30);
    // the tree has been rotated: 1 is the root, -3 and 2 are its children
    let (code, _) = jit::compile(&tree.root).unwrap();
    assert_eq!(code.len(), 3 * 32 + 8);
    // root: cmp edi, 1; je found(88); jl left(24); jg right(56)
    assert_eq!(&code[0..6], &[0x81, 0xFF, 0x01, 0x00, 0x00, 0x00]);
    assert_eq!(&code[6..12], &[0x0F, 0x84, 76, 0, 0, 0]);
    assert_eq!(&code[12..18], &[0x0F, 0x8C, 6, 0, 0, 0]);
    assert_eq!(&code[18..24], &[0x0F, 0x8F, 32, 0, 0, 0]);
    // left child: cmp edi, -3
    assert_eq!(&code[24..30], &[0x81, 0xFF, 0xFD, 0xFF, 0xFF, 0xFF]);
    // its misses jump forward to the not-found epilogue at 96
    assert_eq!(&code[36..42], &[0x0F, 0x8C, 54, 0, 0, 0]);
    // right child: cmp edi, 2
    assert_eq!(&code[56..62], &[0x81, 0xFF, 0x02, 0x00, 0x00, 0x00]);
    // epilogue of the root: mov rax, 10
    assert_eq!(&code[88..96], &[0x48, 0xC7, 0xC0, 10, 0, 0, 0, 0xC3]);
    assert_eq!(&code[96..104], &[0x48, 0xC7, 0xC0, 0xFF, 0xFF, 0xFF, 0xFF, 0xC3]);
}

#[test]
fn two_limb_code_of_one_node() {
    let key: [u8; 16] = [1, 2, 3, 4, 5, 6, 7, 8, 9, 10, 11, 12, 13, 14, 15, 16];
    let mut tree = AvlTree::new();
    tree.insert(key, 7);
    let (code, start) = compile_scalar(&tree.root).unwrap();
    assert_eq!(start.0, 0);
    let expected: [u8; 88] = [
        0x4C, 0x8B, 0x07, // mov r8, [rdi]
        0x4C, 0x8B, 0x4F, 0x08, // mov r9, [rdi + 8]
        0x49, 0xBA, 1, 2, 3, 4, 5, 6, 7, 8, // mov r10, imm64
        0x49, 0xBB, 9, 10, 11, 12, 13, 14, 15, 16, // mov r11, imm64
        0x4D, 0x3B, 0xC2, // cmp r8, r10
        0x0F, 0x8C, 26, 0, 0, 0, // jl go_left (62)
        0x0F, 0x8F, 25, 0, 0, 0, // jg go_right (67)
        0x4D, 0x3B, 0xCB, // cmp r9, r11
        0x0F, 0x8C, 11, 0, 0, 0, // jl go_left
        0x0F, 0x8F, 10, 0, 0, 0, // jg go_right
        0xE9, 10, 0, 0, 0, // jmp found (72)
        0xE9, 13, 0, 0, 0, // go_left: jmp not_found (80)
        0xE9, 8, 0, 0, 0, // go_right: jmp not_found
        0x48, 0xC7, 0xC0, 7, 0, 0, 0, // found: mov rax, 7
        0xC3, // ret
        0x48, 0xC7, 0xC0, 0xFF, 0xFF, 0xFF, 0xFF, // not_found: mov rax, -1
        0xC3, // ret
    ];
    assert_eq!(&code[..], &expected[..]);
}

#[test]
fn vector_code_of_one_node() {
    let key: [u8; 16] = [1, 2, 3, 4, 5, 6, 7, 8, 9, 10, 11, 12, 13, 14, 15, 16];
    let mut tree = AvlTree::new();
    tree.insert(key, -2);
    let (code, start) = compile_sse(&tree.root).unwrap();
    assert_eq!(start.0, 0);
    let expected: [u8; 122] = [
        0x0F, 0x10, 0x07, // movups xmm0, [rdi]
        0x49, 0xBA, 1, 2, 3, 4, 5, 6, 7, 8, // mov r10, imm64
        0x49, 0xBB, 9, 10, 11, 12, 13, 14, 15, 16, // mov r11, imm64
        0x66, 0x49, 0x0F, 0x6E, 0xCA, // movq xmm1, r10
        0x66, 0x49, 0x0F, 0x3A, 0x22, 0xCB, 0x01, // pinsrq xmm1, r11, 1
        0x66, 0x0F, 0x74, 0xC1, // pcmpeqb xmm0, xmm1
        0x66, 0x0F, 0xD7, 0xC0, // pmovmskb eax, xmm0
        0x3D, 0xFF, 0xFF, 0x00, 0x00, // cmp eax, 0xFFFF
        0x0F, 0x85, 5, 0, 0, 0, // jne check_ordering (59)
        0xE9, 47, 0, 0, 0, // jmp found (106)
        0x4C, 0x8B, 0x07, // check_ordering: mov r8, [rdi]
        0x4C, 0x8B, 0x4F, 0x08, // mov r9, [rdi + 8]
        0x4D, 0x3B, 0xC2, // cmp r8, r10
        0x0F, 0x8C, 21, 0, 0, 0, // jl go_left (96)
        0x0F, 0x8F, 20, 0, 0, 0, // jg go_right (101)
        0x4D, 0x3B, 0xCB, // cmp r9, r11
        0x0F, 0x8C, 6, 0, 0, 0, // jl go_left
        0x0F, 0x8F, 5, 0, 0, 0, // jg go_right
        0xE9, 13, 0, 0, 0, // go_left: jmp not_found (114)
        0xE9, 8, 0, 0, 0, // go_right: jmp not_found
        0x48, 0xC7, 0xC0, 0xFE, 0xFF, 0xFF, 0xFF, // found: mov rax, -2
        0xC3, // ret
        0x48, 0xC7, 0xC0, 0xFF, 0xFF, 0xFF, 0xFF, // not_found: mov rax, -1
        0xC3, // ret
    ];
    assert_eq!(&code[..], &expected[..]);
}

#[test]
fn code_length_follows_the_node_count() {
    let mut narrow = AvlTree::new();
    let mut wide = AvlTree::new();
    for i in 0..37 {
        narrow.insert(i, i);
        let mut w = [0u8; 16];
        w[3] = i as u8;
        wide.insert(w, i);
    }
    assert_eq!(jit::compile(&narrow.root).unwrap().0.len(), 32 * 37 + 8);
    assert_eq!(compile_scalar(&wide.root).unwrap().0.len(), 80 * 37 + 8);
    assert_eq!(compile_sse(&wide.root).unwrap().0.len(), 114 * 37 + 8);
}

#[test]
fn stored_sentinel_cannot_be_told_from_a_miss() {
    let mut tree = AvlTree::new();
    tree.insert(3, -1);
    tree.insert(4, 0);
    let (code, start) = jit::compile(&tree.root).unwrap();
    assert_eq!(tree.lookup(&3), Some(-1));
    assert_eq!(call_scalar(&code, start.0, 3), -1);
    assert_eq!(call_scalar(&code, start.0, 4), 0);
    assert_eq!(call_scalar(&code, start.0, 5), -1);
}

#[test]
fn negative_keys_and_values_round_trip() {
    let mut tree = AvlTree::new();
    for k in [-5, i32::MIN, i32::MAX, 0, -1, 17] {
        tree.insert(k, k.wrapping_mul(3));
    }
    let (code, start) = jit::compile(&tree.root).unwrap();
    for k in [-5, i32::MIN, i32::MAX, 0, 17] {
        assert_eq!(call_scalar(&code, start.0, k), k.wrapping_mul(3));
    }
    assert_eq!(call_scalar(&code, start.0, -1), -3);
    assert_eq!(call_scalar(&code, start.0, 16), -1);
}

#[test]
fn region_outlives_a_later_compilation() {
    let mut tree = AvlTree::new();
    tree.insert(1, 11);
    let (first, first_start) = jit::compile(&tree.root).unwrap();
    tree.insert(2, 22);
    let (second, second_start) = jit::compile(&tree.root).unwrap();
    assert_eq!(call_scalar(&first, first_start.0, 2), -1);
    assert_eq!(call_scalar(&second, second_start.0, 2), 22);
    assert_eq!(call_scalar(&first, first_start.0, 1), 11);
}

#[test]
fn missing_emitter_is_an_allocation_failure() {
    assert!(Emitter::around(None).is_none());
    assert!(matches!(started(None), Err(CompileError::Allocation)));
    assert!(started(Emitter::new()).is_ok());
}

#[test]
fn code_beyond_a_displacement_is_too_large() {
    assert_eq!(check_size(AssemblyOffset(0)), Ok(()));
    assert_eq!(check_size(AssemblyOffset(0x7FFF_FFFF)), Ok(()));
    assert_eq!(check_size(AssemblyOffset(0x8000_0000)), Err(CompileError::TooLarge));
    assert_eq!(check_size(AssemblyOffset(usize::MAX)), Err(CompileError::TooLarge));
}

#[test]
fn missing_region_is_a_finalize_failure() {
    assert!(matches!(
        conclude(None, AssemblyOffset(0)),
        Err(CompileError::Finalize)
    ));
    let tree: AvlTree<i32, i32> = AvlTree::new();
    let (region, start) = jit::compile(&tree.root).unwrap();
    let (same, at) = conclude(Some(region), start).unwrap();
    assert_eq!(same.len(), 8);
    assert_eq!(at, AssemblyOffset(0));
}

#[test]
fn a_key_keeps_its_label() {
    let mut em = Emitter::new().unwrap();
    assert_eq!(em.offset(), AssemblyOffset(0));
    let first = em.labels.get_or_create(&mut em.ops, 5);
    let again = em.labels.get_or_create(&mut em.ops, 5);
    let other = em.labels.get_or_create(&mut em.ops, 6);
    assert_eq!(first, again);
    assert_ne!(first, other);
    assert_eq!(em.labels.get_or_create(&mut em.ops, 6), other);
    assert_eq!(em.labels.map.len(), 2);
    assert_eq!(first.get_id(), 0);
    assert_eq!(other.get_id(), 1);
    assert_eq!(em.get_or_create(5), first);
    assert_eq!(em.get_or_create(-7).get_id(), 2);
}

#[test]
fn a_made_emitter_owes_the_code() {
    let mut tree = AvlTree::new();
    for key in [5, 3, 8] {
        tree.insert(key, key + 100);
    }
    assert!(matches!(
        compile_on(None, Strategy::Scalar, &tree.root),
        Err(CompileError::Allocation)
    ));
    let (code, start) = compile_on(Emitter::new(), Strategy::Scalar, &tree.root).unwrap();
    let (same, _) = jit::compile(&tree.root).unwrap();
    assert_eq!(&code[..], &same[..]);
    assert_eq!(call_scalar(&code, start.0, 8), 108);
    assert_eq!(call_scalar(&code, start.0, 6), -1);
}

#[test]
fn label_table_holds_the_keys_of_the_tree() {
    let mut tree = AvlTree::new();
    let keys = [50, 20, 70, 10, 30, 60, 80, 25, -4];
    for key in keys {
        tree.insert(key, key);
    }
    let mut em = Emitter::new().unwrap();
    emit_program(&mut em, Strategy::Scalar, &tree.root);
    assert_eq!(em.labels.map.len(), keys.len());
    let mut ids = Vec::new();
    for key in keys {
        ids.push(em.labels.map[&rank_value(&key)].get_id());
    }
    ids.sort();
    ids.dedup();
    assert_eq!(ids.len(), keys.len());
    // the first label made is the one of the not-found epilogue
    assert!(!ids.contains(&0));
    assert_eq!(em.offset(), AssemblyOffset(32 * keys.len() + 8));
}
