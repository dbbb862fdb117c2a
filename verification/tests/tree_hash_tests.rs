use treehash::collapse_stack;
use treehash::compute_tree_hash;
use treehash::rollup;
use treehash::run_sha256;
use treehash::to_hex_string;
use treehash::TreeHashError;
use treehash::TreeHashStackFrame;
use treehash::TreeHasher;
use treehash::ONE_MB;

/// A deterministic, non-repeating byte pattern.
fn pattern(len: usize) -> Vec<u8> {
    (0..len).map(|i| (i % 251) as u8).collect()
}

#[test]
fn sha256_known_answer_empty() {
    let digest = run_sha256(&[]);
    assert_eq!(
        to_hex_string(&digest),
        "e3b0c44298fc1c149afbf4c8996fb92427ae41e4649b934ca495991b7852b855"
    );
}

#[test]
fn sha256_known_answer_abc() {
    let digest = run_sha256(b"abc");
    assert_eq!(
        to_hex_string(&digest),
        "ba7816bf8f01cfea414140de5dae2223b00361a396177a9cb410ff61f20015ad"
    );
}

#[test]
fn hashing_twice_is_deterministic() {
    let data = pattern(3 * ONE_MB + 12345);
    let first = compute_tree_hash(&data).unwrap();
    let second = compute_tree_hash(&data).unwrap();
    assert_eq!(first, second);
}

#[test]
fn digest_is_32_bytes() {
    let data = pattern(ONE_MB + 1);
    assert_eq!(compute_tree_hash(&data).unwrap().len(), 32);
}

#[test]
fn single_chunk_equals_leaf_digest() {
    let small = pattern(1000);
    assert_eq!(compute_tree_hash(&small).unwrap(), run_sha256(&small));
    let exact = pattern(ONE_MB);
    assert_eq!(compute_tree_hash(&exact).unwrap(), run_sha256(&exact));
    let one = pattern(1);
    assert_eq!(compute_tree_hash(&one).unwrap(), run_sha256(&one));
}

#[test]
fn two_chunks_combine_in_order() {
    let data = pattern(2 * ONE_MB);
    let leaf1 = run_sha256(&data[..ONE_MB]);
    let leaf2 = run_sha256(&data[ONE_MB..]);
    let expected = rollup(&leaf1, &leaf2);
    assert_eq!(compute_tree_hash(&data).unwrap(), expected);
    // the merge order is load-bearing: the swapped combination differs
    assert_ne!(compute_tree_hash(&data).unwrap(), rollup(&leaf2, &leaf1));
}

#[test]
fn three_chunks_force_combine_at_the_root() {
    // 2,500,000 bytes: two full chunks and one partial chunk
    let data = pattern(2_500_000);
    let leaf1 = run_sha256(&data[..ONE_MB]);
    let leaf2 = run_sha256(&data[ONE_MB..2 * ONE_MB]);
    let leaf3 = run_sha256(&data[2 * ONE_MB..]);
    let merged12 = rollup(&leaf1, &leaf2);
    let expected = rollup(&merged12, &leaf3);
    assert_eq!(compute_tree_hash(&data).unwrap(), expected);
}

#[test]
fn empty_input_is_rejected_consistently() {
    assert_eq!(compute_tree_hash(&[]), Err(TreeHashError::EmptyInput));
    assert_eq!(compute_tree_hash(&[]), Err(TreeHashError::EmptyInput));
}

#[test]
fn finalize_without_chunks_is_rejected() {
    let hasher = TreeHasher::new();
    assert_eq!(hasher.finalize(), Err(TreeHashError::EmptyInput));
}

#[test]
fn streaming_chunks_matches_whole_buffer() {
    let data = pattern(2_500_000);
    let mut hasher = TreeHasher::new();
    for chunk in data.chunks(ONE_MB) {
        hasher.push_chunk(chunk);
    }
    assert_eq!(hasher.finalize().unwrap(), compute_tree_hash(&data).unwrap());
}

/// Push `n` leaf frames through the public collapse pass and return the
/// stack, as the hasher does while consuming `n` chunks.
fn stack_after_leaves(n: usize) -> Vec<TreeHashStackFrame> {
    let mut stack: Vec<TreeHashStackFrame> = Vec::new();
    for i in 0..n {
        let frame = TreeHashStackFrame { level: 0, bytes: run_sha256(&[i as u8]) };
        stack.push(frame);
        collapse_stack(&mut stack, false);
    }
    stack
}

#[test]
fn stack_depth_is_the_popcount_of_the_chunk_count() {
    for n in 1..=16usize {
        let stack = stack_after_leaves(n);
        assert_eq!(stack.len(), n.count_ones() as usize);
        // levels are strictly decreasing from bottom to top
        for w in stack.windows(2) {
            assert!(w[0].level > w[1].level);
        }
    }
}

#[test]
fn five_leaves_leave_levels_two_and_zero() {
    let stack = stack_after_leaves(5);
    let levels: Vec<u64> = stack.iter().map(|f| f.level).collect();
    assert_eq!(levels, vec![2, 0]);
}

#[test]
fn forced_collapse_reduces_to_one_frame() {
    let mut stack = stack_after_leaves(5);
    collapse_stack(&mut stack, true);
    assert_eq!(stack.len(), 1);
    assert_eq!(stack[0].bytes.len(), 32);
}

#[test]
fn rollup_matches_hashing_the_concatenation() {
    let a = run_sha256(b"left");
    let b = run_sha256(b"right");
    let mut concat = a.clone();
    concat.extend_from_slice(&b);
    assert_eq!(rollup(&a, &b), run_sha256(&concat));
}

#[test]
fn root_digest_hex_is_64_characters() {
    let data = pattern(123);
    let digest = compute_tree_hash(&data).unwrap();
    let hex = to_hex_string(&digest);
    assert_eq!(hex.len(), 64);
}
