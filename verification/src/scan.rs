//! Decoding steps of a scan that work on the decoded coefficients.
use vstd::prelude::*;

verus! {

/// The sum of the first coefficients of the first `count` blocks.
pub open spec fn dc_sum(blocks: Seq<Seq<i16>>, count: nat) -> int
    decreases count,
{
    if count == 0 {
        0
    } else {
        dc_sum(blocks, (count - 1) as nat) + blocks[count - 1][0]
    }
}

/// The value of the first coefficient of block `j`: the sum of the coded ones of blocks
/// `0` to `j`.
pub open spec fn dc_prefix(blocks: Seq<Seq<i16>>, j: int) -> int {
    dc_sum(blocks, (j + 1) as nat)
}

/// Whether every sum `dc_prefix(blocks, j)` is an `i16`.
pub open spec fn dc_prefixes_fit(blocks: Seq<Seq<i16>>) -> bool {
    forall|j: int| 0 <= j < blocks.len() ==> i16::MIN <= #[trigger] dc_prefix(blocks, j) <= i16::MAX
}

/// Turns the first coefficient of each block, coded as the difference from the previous
/// block's, into its value: block `j` gets the sum of the coded first coefficients of
/// blocks `0` to `j`. Where one of these sums is not an `i16`, nothing changes and the
/// result is `false`.
pub fn correct_dc(blocks: &mut Vec<Vec<i16>>) -> (ok: bool)
    requires
        forall|j: int| 0 <= j < old(blocks)@.len() ==> #[trigger] old(blocks)@[j]@.len() >= 1,
    ensures
        ok == dc_prefixes_fit(old(blocks).deep_view()),
        ok ==> final(blocks)@.len() == old(blocks)@.len() && forall|j: int|
            0 <= j < old(blocks)@.len() ==> #[trigger] final(blocks)@[j]@ == old(blocks)@[j]@.update(
                0,
                dc_prefix(old(blocks).deep_view(), j) as i16,
            ),
        ok ==> old(blocks)@.len() > 0 ==> final(blocks)@[0]@[0] == old(blocks)@[0]@[0],
        ok ==> forall|j: int|
            1 <= j < old(blocks)@.len() ==> #[trigger] final(blocks)@[j]@[0] == final(blocks)@[j
                - 1]@[0] + old(blocks)@[j]@[0],
        !ok ==> final(blocks).deep_view() == old(blocks).deep_view(),
{
    let ghost orig = blocks.deep_view();
    let n = blocks.len();
    let mut previous_dc: i16 = 0;
    let mut j: usize = 0;
    while j < n
        invariant
            n == blocks@.len(),
            orig == blocks.deep_view(),
            orig.len() == n,
            forall|t: int| 0 <= t < n ==> #[trigger] orig[t].len() >= 1,
            j <= n,
            forall|t: int| 0 <= t < j ==> i16::MIN <= #[trigger] dc_prefix(orig, t) <= i16::MAX,
            previous_dc == dc_sum(orig, j as nat),
        decreases n - j,
    {
        assert(orig[j as int] == blocks@[j as int]@);
        assert(dc_prefix(orig, j as int) == dc_sum(orig, j as nat) + orig[j as int][0]);
        let sum = previous_dc as i32 + blocks[j][0] as i32;
        if sum < i16::MIN as i32 || sum > i16::MAX as i32 {
            assert(!(i16::MIN <= dc_prefix(orig, j as int) <= i16::MAX));
            return false;
        }
        previous_dc = sum as i16;
        j = j + 1;
    }
    previous_dc = 0;
    let mut k: usize = 0;
    while k < n
        invariant
            n == blocks@.len(),
            orig.len() == n,
            forall|t: int| 0 <= t < n ==> #[trigger] orig[t].len() >= 1,
            dc_prefixes_fit(orig),
            k <= n,
            forall|t: int| 0 <= t < k ==> #[trigger] blocks@[t]@ == orig[t].update(0, dc_prefix(orig, t) as i16),
            forall|t: int| k <= t < n ==> #[trigger] blocks@[t]@ == orig[t],
            previous_dc == dc_sum(orig, k as nat),
        decreases n - k,
    {
        let mut block: Vec<i16> = Vec::new();
        blocks.set_and_swap(k, &mut block);
        assert(block@ == orig[k as int]);
        assert(i16::MIN <= dc_prefix(orig, k as int) <= i16::MAX);
        assert(dc_prefix(orig, k as int) == dc_sum(orig, k as nat) + orig[k as int][0]);
        let value = previous_dc + block[0];
        block.set(0, value);
        blocks.set_and_swap(k, &mut block);
        previous_dc = value;
        k = k + 1;
    }
    proof {
        assert(dc_prefixes_fit(orig));
        lemma_dc_prefix_running_sum(orig);
        assert forall|j: int| 1 <= j < n implies #[trigger] blocks@[j]@[0] == blocks@[j - 1]@[0]
            + orig[j][0] by {
            assert(blocks@[j]@ == orig[j].update(0, dc_prefix(orig, j) as i16));
            assert(blocks@[j - 1]@ == orig[j - 1].update(0, dc_prefix(orig, j - 1) as i16));
        }
        if n > 0 {
            assert(blocks@[0]@ == orig[0].update(0, dc_prefix(orig, 0) as i16));
        }
    }
    true
}

/// The values of the first coefficients are a running sum of the coded ones, restarted
/// nowhere: block 0 keeps its coded value, and each later block adds its coded value to
/// the value of the block before it.
pub proof fn lemma_dc_prefix_running_sum(blocks: Seq<Seq<i16>>)
    ensures
        blocks.len() > 0 ==> dc_prefix(blocks, 0) == blocks[0][0],
        forall|j: int|
            1 <= j < blocks.len() ==> #[trigger] dc_prefix(blocks, j) == dc_prefix(blocks, j - 1)
                + blocks[j][0],
{
    assert forall|j: int| 1 <= j < blocks.len() implies #[trigger] dc_prefix(blocks, j)
        == dc_prefix(blocks, j - 1) + blocks[j][0] by {
        assert(dc_sum(blocks, (j + 1) as nat) == dc_sum(blocks, j as nat) + blocks[j][0]);
    }
    if blocks.len() > 0 {
        assert(dc_sum(blocks, 0) == 0);
        assert(dc_sum(blocks, 1) == dc_sum(blocks, 0) + blocks[0][0]);
    }
}

} // verus!
