//! The tree-hash core: leaf digests, the reduction stack with its eager
//! collapse pass, and the finalizer that yields the single root digest.
//!
//! The stack behaves as a binary counter over the number of chunks consumed
//! so far: after every non-forced collapse its levels, read bottom to top,
//! are strictly decreasing, and each level present corresponds to one set
//! bit of the chunk count.  That bounds the live frames logarithmically in
//! the input size, which is the point of the eager collapse.

use sha2::{Digest, Sha256};
use vstd::arithmetic::div_mod::{
    lemma_add_mod_noop, lemma_div_multiples_vanish, lemma_fundamental_div_mod,
    lemma_mod_multiples_basic, lemma_small_mod,
};
use vstd::arithmetic::power2::{
    lemma2_to64, lemma2_to64_rest, lemma_pow2_adds, lemma_pow2_pos, lemma_pow2_strictly_increases,
    lemma_pow2_unfold, pow2,
};
use vstd::prelude::*;

verus! {

/// Largest chunk size: every chunk but the last holds exactly this many bytes.
pub const ONE_MB: usize = 1048576;

/// The SHA-256 digest of a byte sequence.  The digest depends on the bytes
/// alone; its 32-byte length is stated where the hash is computed.
pub uninterp spec fn sha256_of(bytes: Seq<u8>) -> Seq<u8>;

/// Relies on sha2::Sha256 (the Digest API: new, update, finalize): the
/// returned digest is a function of the input bytes alone and is exactly
/// 32 bytes long.
#[verifier::external_body]
pub fn run_sha256(bytes: &[u8]) -> (r: Vec<u8>)
    ensures
        r@ == sha256_of(bytes@),
        r@.len() == 32,
{
    let mut sha256 = Sha256::new();
    sha256.update(bytes);
    let result = sha256.finalize();
    result.iter().copied().collect()
}

/// One frame of the reduction stack: a digest together with its level, the
/// number of merges separating it from the leaves it summarizes.
pub struct TreeHashStackFrame {
    /// Zero for a leaf; a merge of two frames sits one above its left input.
    pub level: u64,
    /// The 32-byte digest this frame carries.
    pub bytes: Vec<u8>,
}

/// The mathematical content of one frame: its level and its digest.
pub open spec fn frame_model(f: TreeHashStackFrame) -> (nat, Seq<u8>) {
    (f.level as nat, f.bytes@)
}

/// The mathematical content of a whole stack, bottom first.
pub open spec fn stack_model(s: Seq<TreeHashStackFrame>) -> Seq<(nat, Seq<u8>)> {
    s.map_values(|f: TreeHashStackFrame| frame_model(f))
}

/// The merge rule: the combined node sits one level above the older (left)
/// node and carries the digest of the two digests' concatenation, older
/// digest first.
pub open spec fn merge_nodes(l: (nat, Seq<u8>), r: (nat, Seq<u8>)) -> (nat, Seq<u8>) {
    ((l.0 + 1) as nat, sha256_of(l.1 + r.1))
}

/// The leaf node for one chunk.
pub open spec fn leaf_node(chunk: Seq<u8>) -> (nat, Seq<u8>) {
    (0nat, sha256_of(chunk))
}

/// What collapsing does to a stack: while at least two nodes remain, the
/// top two are combined if they share a level or `force` is set; otherwise
/// the pass stops.
pub open spec fn collapse_model(s: Seq<(nat, Seq<u8>)>, force: bool) -> Seq<(nat, Seq<u8>)>
    decreases s.len(),
{
    if s.len() < 2 {
        s
    } else {
        let right = s[s.len() - 1];
        let left = s[s.len() - 2];
        if left.0 == right.0 || force {
            collapse_model(s.take(s.len() - 2).push(merge_nodes(left, right)), force)
        } else {
            s
        }
    }
}

/// Pushing one chunk: its leaf node goes on top, then a non-forced
/// collapse pass runs.
pub open spec fn push_chunk_model(s: Seq<(nat, Seq<u8>)>, chunk: Seq<u8>) -> Seq<(nat, Seq<u8>)> {
    collapse_model(s.push(leaf_node(chunk)), false)
}

/// The stack after consuming the given chunks in order, starting empty.
pub open spec fn stack_after(chunks: Seq<Seq<u8>>) -> Seq<(nat, Seq<u8>)>
    decreases chunks.len(),
{
    if chunks.len() == 0 {
        Seq::empty()
    } else {
        push_chunk_model(stack_after(chunks.drop_last()), chunks.last())
    }
}

/// The root digest of a non-empty chunk sequence: what remains after the
/// final forced collapse.
pub open spec fn root_of(chunks: Seq<Seq<u8>>) -> Seq<u8>
    recommends
        chunks.len() > 0,
{
    collapse_model(stack_after(chunks), true).last().1
}

/// Splitting a byte sequence into chunks: full chunks of `ONE_MB` bytes,
/// the last chunk possibly shorter, never empty.
pub open spec fn chunks_of(bytes: Seq<u8>) -> Seq<Seq<u8>>
    decreases bytes.len(),
{
    if bytes.len() == 0 {
        Seq::empty()
    } else if bytes.len() <= ONE_MB {
        seq![bytes]
    } else {
        seq![bytes.take(ONE_MB as int)] + chunks_of(bytes.skip(ONE_MB as int))
    }
}

/// Levels read bottom to top are strictly decreasing.
pub open spec fn levels_strictly_decreasing(s: Seq<(nat, Seq<u8>)>) -> bool {
    forall|i: int, j: int|
        0 <= i < j < s.len() ==> (#[trigger] s[i]).0 > (#[trigger] s[j]).0
}

/// How many leaves a stack summarizes: each node at level `k` stands for
/// `2^k` chunks.
pub open spec fn count_of(s: Seq<(nat, Seq<u8>)>) -> nat
    decreases s.len(),
{
    if s.len() == 0 {
        0
    } else {
        count_of(s.drop_last()) + pow2(s.last().0)
    }
}

/// The number of set bits in the binary representation of `n`.
pub open spec fn popcount(n: nat) -> nat
    decreases n,
{
    if n == 0 {
        0nat
    } else {
        popcount(n / 2) + n % 2
    }
}

/// A non-forced collapse of a stack that is strictly decreasing except
/// possibly at its top keeps the leaf count, restores the strict decrease,
/// and leaves the stack non-empty.
proof fn lemma_collapse_carry(s: Seq<(nat, Seq<u8>)>)
    requires
        s.len() >= 1,
        levels_strictly_decreasing(s.drop_last()),
        s.len() >= 2 ==> s[s.len() - 2].0 >= s[s.len() - 1].0,
    ensures
        levels_strictly_decreasing(collapse_model(s, false)),
        count_of(collapse_model(s, false)) == count_of(s),
        collapse_model(s, false).len() >= 1,
    decreases s.len(),
{
    if s.len() >= 2 {
        let l = s[s.len() - 2];
        let r = s[s.len() - 1];
        if l.0 == r.0 {
            let merged = merge_nodes(l, r);
            let s2 = s.take(s.len() - 2).push(merged);
            assert(s2.drop_last() =~= s.take(s.len() - 2));
            assert forall|i: int, j: int| 0 <= i < j < s2.drop_last().len() implies (#[trigger] s2.drop_last()[i]).0
                > (#[trigger] s2.drop_last()[j]).0 by {
                assert(s.drop_last()[i] == s[i]);
                assert(s.drop_last()[j] == s[j]);
            }
            if s2.len() >= 2 {
                assert(s2[s2.len() - 2] == s[s.len() - 3]);
                assert(s.drop_last()[s.len() - 3] == s[s.len() - 3]);
                assert(s.drop_last()[s.len() - 2] == s[s.len() - 2]);
                assert(s[s.len() - 3].0 > l.0);
            }
            assert(count_of(s2) == count_of(s.take(s.len() - 2)) + pow2(merged.0));
            assert(s.drop_last().drop_last() =~= s.take(s.len() - 2));
            assert(s.drop_last().last() == l);
            assert(s.last() == r);
            assert(count_of(s) == count_of(s.drop_last()) + pow2(r.0));
            assert(count_of(s.drop_last()) == count_of(s.drop_last().drop_last()) + pow2(l.0));
            assert(count_of(s) == count_of(s.take(s.len() - 2)) + pow2(l.0) + pow2(r.0));
            lemma_pow2_unfold((l.0 + 1) as nat);
            assert(pow2(merged.0) == pow2(l.0) + pow2(r.0));
            lemma_collapse_carry(s2);
            assert(collapse_model(s, false) == collapse_model(s2, false));
        } else {
            assert(l.0 > r.0);
            assert(collapse_model(s, false) == s);
            assert forall|i: int, j: int| 0 <= i < j < s.len() implies (#[trigger] s[i]).0
                > (#[trigger] s[j]).0 by {
                if j < s.len() - 1 {
                    assert(s.drop_last()[i] == s[i]);
                    assert(s.drop_last()[j] == s[j]);
                } else {
                    assert(s.drop_last()[i] == s[i]);
                    if i < s.len() - 2 {
                        assert(s.drop_last()[s.len() - 2] == s[s.len() - 2]);
                    }
                }
            }
        }
    }
}

/// A forced collapse leaves exactly one node on a non-empty stack and
/// nothing on an empty one.
proof fn lemma_collapse_force_len(s: Seq<(nat, Seq<u8>)>)
    ensures
        s.len() >= 1 ==> collapse_model(s, true).len() == 1,
        s.len() == 0 ==> collapse_model(s, true).len() == 0,
    decreases s.len(),
{
    if s.len() >= 2 {
        let l = s[s.len() - 2];
        let r = s[s.len() - 1];
        lemma_collapse_force_len(s.take(s.len() - 2).push(merge_nodes(l, r)));
    }
}

/// The stack after any chunk sequence is strictly decreasing and
/// summarizes exactly those chunks.
pub proof fn lemma_stack_after_counter(chunks: Seq<Seq<u8>>)
    ensures
        levels_strictly_decreasing(stack_after(chunks)),
        count_of(stack_after(chunks)) == chunks.len(),
    decreases chunks.len(),
{
    if chunks.len() > 0 {
        lemma_stack_after_counter(chunks.drop_last());
        let s0 = stack_after(chunks.drop_last());
        let s1 = s0.push(leaf_node(chunks.last()));
        assert(s1.drop_last() =~= s0);
        assert(count_of(s1) == count_of(s0) + pow2(0));
        lemma2_to64();
        lemma_collapse_carry(s1);
        assert(stack_after(chunks) == collapse_model(s1, false));
    }
}

/// Every node's weight is bounded by the whole stack's leaf count.
proof fn lemma_member_pow2_le_count(s: Seq<(nat, Seq<u8>)>, i: int)
    requires
        0 <= i < s.len(),
    ensures
        pow2(s[i].0) <= count_of(s),
    decreases s.len(),
{
    if i == s.len() - 1 {
    } else {
        lemma_member_pow2_le_count(s.drop_last(), i);
        assert(s.drop_last()[i] == s[i]);
    }
}

/// A stack summarizing fewer than `2^64` chunks holds no level above 63.
proof fn lemma_levels_below_64(s: Seq<(nat, Seq<u8>)>)
    requires
        count_of(s) < pow2(64),
    ensures
        forall|i: int| 0 <= i < s.len() ==> (#[trigger] s[i]).0 < 64,
{
    assert forall|i: int| 0 <= i < s.len() implies (#[trigger] s[i]).0 < 64 by {
        lemma_member_pow2_le_count(s, i);
        if s[i].0 >= 64 {
            if s[i].0 > 64 {
                lemma_pow2_strictly_increases(64, s[i].0);
            }
            assert(pow2(64) <= pow2(s[i].0));
        }
    }
}

/// If every level on a stack lies above `l`, the leaf count is a multiple
/// of `2^(l+1)`.
proof fn lemma_count_of_multiple(s: Seq<(nat, Seq<u8>)>, l: nat)
    requires
        forall|i: int| 0 <= i < s.len() ==> (#[trigger] s[i]).0 > l,
    ensures
        count_of(s) % pow2((l + 1) as nat) == 0,
    decreases s.len(),
{
    let m = pow2((l + 1) as nat) as int;
    lemma_pow2_pos((l + 1) as nat);
    lemma_small_mod(0, pow2((l + 1) as nat));
    if s.len() == 0 {
    } else {
        assert forall|i: int| 0 <= i < s.drop_last().len() implies (#[trigger] s.drop_last()[i]).0
            > l by {
            assert(s.drop_last()[i] == s[i]);
        }
        lemma_count_of_multiple(s.drop_last(), l);
        let e = s.last().0;
        assert(e >= l + 1);
        lemma_pow2_adds((l + 1) as nat, (e - l - 1) as nat);
        assert(pow2(e) == pow2((l + 1) as nat) * pow2((e - l - 1) as nat));
        lemma_mod_multiples_basic(pow2((e - l - 1) as nat) as int, m);
        assert(pow2((e - l - 1) as nat) as int * m == pow2(e) as int) by (nonlinear_arith)
            requires
                pow2(e) == pow2((l + 1) as nat) * pow2((e - l - 1) as nat),
                m == pow2((l + 1) as nat) as int,
        ;
        assert(pow2(e) as int % m == 0);
        lemma_add_mod_noop(count_of(s.drop_last()) as int, pow2(e) as int, m);
        assert(count_of(s) == count_of(s.drop_last()) + pow2(e));
        assert((count_of(s.drop_last()) as int + pow2(e) as int) % m == 0);
        assert(count_of(s) as int % m == 0);
    }
}

/// Adding `2^l` to a multiple of `2^(l+1)` sets one more bit.
proof fn lemma_popcount_add_pow2(m: nat, l: nat)
    requires
        m % pow2((l + 1) as nat) == 0,
    ensures
        popcount((m + pow2(l)) as nat) == popcount(m) + 1,
    decreases l,
{
    lemma_pow2_pos(l);
    lemma_pow2_pos((l + 1) as nat);
    lemma_pow2_unfold((l + 1) as nat);
    lemma_fundamental_div_mod(m as int, pow2((l + 1) as nat) as int);
    let q = m as int / pow2((l + 1) as nat) as int;
    assert(m as int == pow2((l + 1) as nat) as int * q);
    assert(m as int == 2 * (pow2(l) as int * q)) by (nonlinear_arith)
        requires
            m as int == pow2((l + 1) as nat) as int * q,
            pow2((l + 1) as nat) == 2 * pow2(l),
    ;
    lemma_mod_multiples_basic(pow2(l) as int * q, 2);
    assert((2 * (pow2(l) as int * q)) % 2 == ((pow2(l) as int * q) * 2) % 2) by (nonlinear_arith);
    assert(m % 2 == 0);
    let n = (m + pow2(l)) as nat;
    if l == 0 {
        lemma2_to64();
        assert(pow2(0) == 1);
        assert(n == m + 1);
        lemma_fundamental_div_mod(m as int, 2);
        assert(n % 2 == 1);
        assert(n / 2 == m / 2);
        assert(popcount(n) == popcount(n / 2) + 1);
        assert(popcount(m) == popcount(m / 2));
    } else {
        lemma_pow2_unfold(l);
        assert(pow2(l) == 2 * pow2((l - 1) as nat));
        assert(n % 2 == 0);
        assert(n / 2 == m / 2 + pow2((l - 1) as nat));
        lemma_div_multiples_vanish(pow2(l) as int * q, 2);
        assert(m / 2 == pow2(l) as nat * q) by {
            assert(m as int == 2 * (pow2(l) as int * q));
            assert((2 * (pow2(l) as int * q)) / 2 == pow2(l) as int * q);
        }
        lemma_mod_multiples_basic(q, pow2(l) as int);
        assert((q * pow2(l) as int) % pow2(l) as int == 0);
        assert(pow2(l) as int * q == q * pow2(l) as int) by (nonlinear_arith);
        assert((m / 2) % pow2(l) == 0);
        lemma_popcount_add_pow2((m / 2) as nat, (l - 1) as nat);
        assert(popcount(n) == popcount(n / 2));
        assert(popcount(m) == popcount(m / 2));
    }
}

/// On a strictly decreasing stack the frame count equals the number of set
/// bits of the leaf count.
proof fn lemma_sd_len_popcount(s: Seq<(nat, Seq<u8>)>)
    requires
        levels_strictly_decreasing(s),
    ensures
        s.len() == popcount(count_of(s)),
    decreases s.len(),
{
    if s.len() == 0 {
    } else {
        let d = s.drop_last();
        assert forall|i: int, j: int| 0 <= i < j < d.len() implies (#[trigger] d[i]).0
            > (#[trigger] d[j]).0 by {
            assert(d[i] == s[i]);
            assert(d[j] == s[j]);
        }
        lemma_sd_len_popcount(d);
        let l = s.last().0;
        assert forall|i: int| 0 <= i < d.len() implies (#[trigger] d[i]).0 > l by {
            assert(d[i] == s[i]);
            assert(s[i].0 > s[s.len() - 1].0);
        }
        lemma_count_of_multiple(d, l);
        lemma_popcount_add_pow2(count_of(d), l);
        assert(count_of(s) == count_of(d) + pow2(l));
    }
}

/// Law: after consuming `n` chunks and before the forced finalize, the
/// stack holds exactly one frame per set bit in the binary representation
/// of `n`, and its levels, read bottom to top, are strictly decreasing.
pub proof fn lemma_stack_depth_bound(chunks: Seq<Seq<u8>>)
    ensures
        levels_strictly_decreasing(stack_after(chunks)),
        count_of(stack_after(chunks)) == chunks.len(),
        stack_after(chunks).len() == popcount(chunks.len()),
{
    lemma_stack_after_counter(chunks);
    lemma_sd_len_popcount(stack_after(chunks));
}

/// Combine two 32-byte digests: hash the 64-byte concatenation, older
/// digest first.  The order is load-bearing; swapping the arguments
/// yields a different digest.
pub fn rollup(lbytes: &[u8], rbytes: &[u8]) -> (r: Vec<u8>)
    requires
        lbytes@.len() == 32,
        rbytes@.len() == 32,
    ensures
        r@ == sha256_of(lbytes@ + rbytes@),
        r@.len() == 32,
{
    let mut merge_buf: Vec<u8> = Vec::with_capacity(64);
    merge_buf.extend_from_slice(lbytes);
    merge_buf.extend_from_slice(rbytes);
    proof {
        assert(merge_buf@ =~= lbytes@ + rbytes@);
    }
    run_sha256(merge_buf.as_slice())
}

/// One collapse pass over the stack, exactly as `collapse_model` says:
/// pop two, combine when levels match or `force` is set, stop otherwise.
pub fn collapse_stack(stack: &mut Vec<TreeHashStackFrame>, force: bool)
    requires
        forall|i: int|
            0 <= i < old(stack)@.len() ==> (#[trigger] old(stack)@[i]).level < u64::MAX,
        forall|i: int| 0 <= i < old(stack)@.len() ==> (#[trigger] old(stack)@[i]).bytes@.len() == 32,
    ensures
        stack_model(final(stack)@) == collapse_model(stack_model(old(stack)@), force),
        forall|i: int|
            0 <= i < final(stack)@.len() ==> (#[trigger] final(stack)@[i]).bytes@.len() == 32,
{
    loop
        invariant
            collapse_model(stack_model(stack@), force) == collapse_model(
                stack_model(old(stack)@),
                force,
            ),
            forall|i: int|
                0 <= i < stack@.len() - 1 ==> (#[trigger] stack@[i]).level < u64::MAX,
            forall|i: int| 0 <= i < stack@.len() ==> (#[trigger] stack@[i]).bytes@.len() == 32,
        decreases stack@.len(),
    {
        if stack.len() < 2 {
            return ;
        }
        let ghost pre = stack@;
        // the length check guarantees at least two frames, so unwrap() is fine
        let right = stack.pop().unwrap();
        let left = stack.pop().unwrap();
        proof {
            assert(stack@ =~= pre.take(pre.len() - 2));
        }
        if left.level == right.level || force {
            let rolled_up = rollup(left.bytes.as_slice(), right.bytes.as_slice());
            let new_frame = TreeHashStackFrame { level: left.level + 1, bytes: rolled_up };
            stack.push(new_frame);
            proof {
                let lm = frame_model(left);
                let rm = frame_model(right);
                assert(stack_model(pre)[pre.len() - 1] == rm);
                assert(stack_model(pre)[pre.len() - 2] == lm);
                assert(stack_model(stack@) =~= stack_model(pre).take(pre.len() - 2).push(
                    merge_nodes(lm, rm),
                ));
                assert(collapse_model(stack_model(pre), force) == collapse_model(
                    stack_model(stack@),
                    force,
                ));
            }
        } else {
            stack.push(left);
            stack.push(right);
            proof {
                assert(stack@ =~= pre);
                let lm = frame_model(left);
                let rm = frame_model(right);
                assert(stack_model(pre)[pre.len() - 1] == rm);
                assert(stack_model(pre)[pre.len() - 2] == lm);
                assert(collapse_model(stack_model(pre), force) == stack_model(pre));
            }
            return ;
        }
    }
}

/// Why a tree hash cannot be produced.
#[derive(Clone, Copy, Debug, PartialEq, Eq, Structural)]
pub enum TreeHashError {
    /// The input held no bytes at all: there is no leaf to hash.  An empty
    /// input is rejected explicitly rather than given a sentinel digest.
    EmptyInput,
}

/// An in-flight tree-hash computation: feed it chunks in stream order,
/// then finalize.  One value of this type owns its whole state; it is
/// never shared between computations.
pub struct TreeHasher {
    stack: Vec<TreeHashStackFrame>,
    processed: Ghost<Seq<Seq<u8>>>,
}

impl TreeHasher {
    /// The chunks consumed so far, in order.
    pub closed spec fn chunks(self) -> Seq<Seq<u8>> {
        self.processed@
    }

    /// The stack mirrors the model stack for the consumed chunks, and
    /// every frame carries a 32-byte digest.
    pub closed spec fn wf(self) -> bool {
        &&& stack_model(self.stack@) == stack_after(self.processed@)
        &&& forall|i: int|
            0 <= i < self.stack@.len() ==> (#[trigger] self.stack@[i]).bytes@.len() == 32
    }

    /// A fresh computation with nothing consumed.
    pub fn new() -> (h: TreeHasher)
        ensures
            h.wf(),
            h.chunks() == Seq::<Seq<u8>>::empty(),
    {
        // 32 frames cover inputs of several GiB without reallocating
        let h = TreeHasher { stack: Vec::with_capacity(32), processed: Ghost(Seq::empty()) };
        proof {
            assert(stack_model(h.stack@) =~= stack_after(h.processed@));
        }
        h
    }

    /// Consume one chunk: hash it into a leaf frame, then collapse
    /// eagerly.
    pub fn push_chunk(&mut self, chunk: &[u8])
        requires
            old(self).wf(),
            1 <= chunk@.len() <= ONE_MB,
            old(self).chunks().len() < u64::MAX,
        ensures
            final(self).wf(),
            final(self).chunks() == old(self).chunks().push(chunk@),
    {
        proof {
            lemma_stack_after_counter(self.processed@);
            lemma2_to64();
            lemma2_to64_rest();
            lemma_levels_below_64(stack_model(self.stack@));
        }
        let ghost pre = self.stack@;
        let digest = run_sha256(chunk);
        self.stack.push(TreeHashStackFrame { level: 0, bytes: digest });
        proof {
            assert(stack_model(self.stack@) =~= stack_model(pre).push(leaf_node(chunk@)));
            assert forall|i: int| 0 <= i < self.stack@.len() implies (#[trigger] self.stack@[i]).level
                < u64::MAX by {
                if i < pre.len() {
                    assert(stack_model(pre)[i] == frame_model(pre[i]));
                }
            }
        }
        collapse_stack(&mut self.stack, false);
        proof {
            self.processed@ = self.processed@.push(chunk@);
            assert(self.processed@.drop_last() =~= old(self).processed@);
            assert(self.processed@.last() == chunk@);
            assert(stack_model(self.stack@) == stack_after(self.processed@));
        }
    }

    /// Finish: force-collapse everything that remains and hand out the
    /// root digest, or report that no chunk was ever consumed.
    pub fn finalize(self) -> (r: Result<Vec<u8>, TreeHashError>)
        requires
            self.wf(),
            self.chunks().len() <= u64::MAX,
        ensures
            self.chunks().len() == 0 <==> r is Err,
            r is Err ==> r == Err::<Vec<u8>, TreeHashError>(TreeHashError::EmptyInput),
            r matches Ok(digest) ==> digest@ == root_of(self.chunks()) && digest@.len() == 32,
    {
        let TreeHasher { mut stack, processed } = self;
        proof {
            lemma_stack_after_counter(processed@);
            lemma2_to64();
            lemma2_to64_rest();
            lemma_levels_below_64(stack_model(stack@));
            lemma_collapse_force_len(stack_model(stack@));
            assert forall|i: int| 0 <= i < stack@.len() implies (#[trigger] stack@[i]).level
                < u64::MAX by {
                assert(stack_model(stack@)[i] == frame_model(stack@[i]));
            }
        }
        collapse_stack(&mut stack, true);
        let ghost collapsed = stack@;
        match stack.pop() {
            Some(final_frame) => {
                proof {
                    assert(final_frame == collapsed[collapsed.len() - 1]);
                    assert(frame_model(final_frame) == stack_model(collapsed).last());
                    if processed@.len() == 0 {
                        assert(stack_after(processed@) =~= Seq::<(nat, Seq<u8>)>::empty());
                        assert(collapsed.len() == 0);
                    }
                }
                Ok(final_frame.bytes)
            },
            None => {
                proof {
                    assert(collapsed.len() == 0);
                    if stack_after(processed@).len() >= 1 {
                        assert(stack_model(collapsed).len() == 1);
                    }
                    assert(count_of(stack_after(processed@)) == 0);
                }
                Err(TreeHashError::EmptyInput)
            },
        }
    }
}

/// Compute the tree hash of a byte sequence held in memory: split it into
/// `ONE_MB` chunks (the last possibly shorter), hash each into a leaf,
/// reduce, and return the 32-byte root digest.  An empty input is
/// rejected with `TreeHashError::EmptyInput`; every other input succeeds.
pub fn compute_tree_hash(data: &[u8]) -> (r: Result<Vec<u8>, TreeHashError>)
    ensures
        data@.len() == 0 <==> r is Err,
        r is Err ==> r == Err::<Vec<u8>, TreeHashError>(TreeHashError::EmptyInput),
        r matches Ok(digest) ==> digest@ == root_of(chunks_of(data@)) && digest@.len() == 32,
{
    let mut hasher = TreeHasher::new();
    let len = data.len();
    let mut offset: usize = 0;
    proof {
        assert(data@.skip(0) =~= data@);
        assert(Seq::<Seq<u8>>::empty() + chunks_of(data@) =~= chunks_of(data@));
    }
    while offset < len
        invariant
            offset <= len,
            len == data@.len(),
            hasher.wf(),
            hasher.chunks().len() <= offset,
            chunks_of(data@) == hasher.chunks() + chunks_of(data@.skip(offset as int)),
        decreases len - offset,
    {
        let remaining = len - offset;
        let end = if remaining >= ONE_MB {
            offset + ONE_MB
        } else {
            len
        };
        let chunk = vstd::slice::slice_subrange(data, offset, end);
        let ghost rest = data@.skip(offset as int);
        let ghost prev_chunks = hasher.chunks();
        proof {
            if rest.len() <= ONE_MB {
                assert(chunk@ =~= rest);
            } else {
                assert(chunk@ =~= rest.take(ONE_MB as int));
                assert(rest.skip(ONE_MB as int) =~= data@.skip(end as int));
            }
        }
        hasher.push_chunk(chunk);
        offset = end;
        proof {
            if rest.len() <= ONE_MB {
                assert(chunks_of(rest) == seq![rest]);
                assert(data@.skip(len as int) =~= Seq::<u8>::empty());
                assert(hasher.chunks() + chunks_of(data@.skip(offset as int)) =~= prev_chunks
                    + chunks_of(rest));
            } else {
                assert(chunks_of(rest) == seq![rest.take(ONE_MB as int)] + chunks_of(
                    rest.skip(ONE_MB as int),
                ));
                assert(hasher.chunks() + chunks_of(data@.skip(offset as int)) =~= prev_chunks
                    + chunks_of(rest));
            }
        }
    }
    proof {
        assert(data@.skip(len as int) =~= Seq::<u8>::empty());
        assert(hasher.chunks() + chunks_of(data@.skip(len as int)) =~= hasher.chunks());
        if data@.len() > 0 {
            assert(chunks_of(data@).len() > 0);
        }
    }
    hasher.finalize()
}

/// Law: the digest is a function of the input bytes alone; hashing the
/// same bytes twice yields the same digest.
pub proof fn lemma_tree_hash_deterministic(b1: Seq<u8>, b2: Seq<u8>)
    requires
        b1 == b2,
    ensures
        root_of(chunks_of(b1)) == root_of(chunks_of(b2)),
{
}

/// Law: an input of at most one chunk hashes to its own leaf digest.
pub proof fn lemma_single_chunk_identity(bytes: Seq<u8>)
    requires
        1 <= bytes.len() <= ONE_MB,
    ensures
        root_of(chunks_of(bytes)) == sha256_of(bytes),
{
    let cs = chunks_of(bytes);
    assert(cs == seq![bytes]);
    assert(cs.drop_last() =~= Seq::<Seq<u8>>::empty());
    assert(cs.last() == bytes);
    let leaf = leaf_node(bytes);
    assert(Seq::<(nat, Seq<u8>)>::empty().push(leaf) =~= seq![leaf]);
    assert(stack_after(Seq::<Seq<u8>>::empty()) == Seq::<(nat, Seq<u8>)>::empty());
    assert(stack_after(cs.drop_last()) == Seq::<(nat, Seq<u8>)>::empty());
    assert(collapse_model(seq![leaf], false) == seq![leaf]);
    assert(stack_after(cs) == collapse_model(
        Seq::<(nat, Seq<u8>)>::empty().push(leaf),
        false,
    ));
    assert(stack_after(cs) == seq![leaf]);
    assert(collapse_model(seq![leaf], true) == seq![leaf]);
}

/// Law: an input of exactly two full chunks hashes to the digest of the
/// two leaf digests' concatenation, first chunk's digest first.
pub proof fn lemma_two_chunk_combination(bytes: Seq<u8>)
    requires
        bytes.len() == 2 * ONE_MB,
    ensures
        root_of(chunks_of(bytes)) == sha256_of(
            sha256_of(bytes.take(ONE_MB as int)) + sha256_of(bytes.skip(ONE_MB as int)),
        ),
{
    let c1 = bytes.take(ONE_MB as int);
    let c2 = bytes.skip(ONE_MB as int);
    assert(chunks_of(c2) == seq![c2]);
    assert(chunks_of(bytes) == seq![c1] + seq![c2]);
    assert(chunks_of(bytes) =~= seq![c1, c2]);
    lemma_three_chunk_prefix(c1, c2);
}

/// The stack after two chunks: one level-one frame holding the merge of
/// the two leaves.
proof fn lemma_three_chunk_prefix(c1: Seq<u8>, c2: Seq<u8>)
    ensures
        stack_after(seq![c1, c2]) == seq![merge_nodes(leaf_node(c1), leaf_node(c2))],
        root_of(seq![c1, c2]) == sha256_of(sha256_of(c1) + sha256_of(c2)),
{
    let l1 = leaf_node(c1);
    let l2 = leaf_node(c2);
    let cs = seq![c1, c2];
    assert(cs.drop_last() =~= seq![c1]);
    assert(seq![c1].drop_last() =~= Seq::<Seq<u8>>::empty());
    assert(Seq::<(nat, Seq<u8>)>::empty().push(l1) =~= seq![l1]);
    assert(stack_after(Seq::<Seq<u8>>::empty()) == Seq::<(nat, Seq<u8>)>::empty());
    assert(stack_after(seq![c1].drop_last()) == Seq::<(nat, Seq<u8>)>::empty());
    assert(collapse_model(seq![l1], false) == seq![l1]);
    assert(stack_after(seq![c1]) == collapse_model(
        Seq::<(nat, Seq<u8>)>::empty().push(l1),
        false,
    ));
    assert(stack_after(seq![c1]) == seq![l1]);
    assert(seq![l1].push(l2) =~= seq![l1, l2]);
    let merged = merge_nodes(l1, l2);
    assert(seq![l1, l2].take(0).push(merged) =~= seq![merged]);
    assert(collapse_model(seq![l1, l2], false) == collapse_model(seq![merged], false));
    assert(stack_after(cs) == seq![merged]);
    assert(collapse_model(seq![merged], true) == seq![merged]);
}

/// Law: with three chunks the intermediate stack holds the level-one
/// merge of the first two leaves below the third leaf, and the forced
/// finalize combines exactly those two frames, in that order.
pub proof fn lemma_three_chunk_shape(c1: Seq<u8>, c2: Seq<u8>, c3: Seq<u8>)
    ensures
        stack_after(seq![c1, c2, c3]) == seq![
            merge_nodes(leaf_node(c1), leaf_node(c2)),
            leaf_node(c3),
        ],
        root_of(seq![c1, c2, c3]) == sha256_of(
            sha256_of(sha256_of(c1) + sha256_of(c2)) + sha256_of(c3),
        ),
{
    let l3 = leaf_node(c3);
    let merged = merge_nodes(leaf_node(c1), leaf_node(c2));
    let cs = seq![c1, c2, c3];
    assert(cs.drop_last() =~= seq![c1, c2]);
    lemma_three_chunk_prefix(c1, c2);
    assert(seq![merged].push(l3) =~= seq![merged, l3]);
    assert(merged.0 == 1 && l3.0 == 0);
    assert(collapse_model(seq![merged, l3], false) == seq![merged, l3]);
    assert(stack_after(cs) == seq![merged, l3]);
    let root = merge_nodes(merged, l3);
    assert(seq![merged, l3].take(0).push(root) =~= seq![root]);
    assert(collapse_model(seq![merged, l3], true) == collapse_model(seq![root], true));
    assert(root_of(cs) == root.1);
}

} // verus!
