use vstd::prelude::*;
use vstd::string::*;
use crate::text::{decimal, u64_to_decimal};

verus! {

/// Every power of two is a power of two.
pub proof fn lemma_pow2_is_power_of_two(k: nat)
    ensures
        is_power_of_two(pow2(k) as int),
    decreases k,
{
    if k > 0 {
        lemma_pow2_is_power_of_two((k - 1) as nat);
        lemma_pow2_monotone(0, (k - 1) as nat);
        assert(pow2(0) == 1);
        assert((2 * pow2((k - 1) as nat)) / 2 == pow2((k - 1) as nat));
    }
}

/// Two to the power `k`.
pub open spec fn pow2(k: nat) -> nat
    decreases k,
{
    if k == 0 {
        1
    } else {
        2 * pow2((k - 1) as nat)
    }
}

/// `x` is a power of two.
pub open spec fn is_power_of_two(x: int) -> bool
    decreases x,
{
    if x <= 0 {
        false
    } else if x == 1 {
        true
    } else {
        x % 2 == 0 && is_power_of_two(x / 2)
    }
}

/// A power of two is `pow2` of its number of halvings.
proof fn lemma_power_of_two_halves(x: int, k: nat)
    requires
        is_power_of_two(x),
        x > 1,
    ensures
        x % 2 == 0,
        is_power_of_two(x / 2),
{
}

/// Calculate the next power of two >= n: the least power of two that is at
/// least `n` (1 for 0), for every `n` whose answer fits in a `usize`.
pub fn next_power_of_two(n: usize) -> (r: usize)
    requires
        n <= usize::MAX / 2 + 1,
    ensures
        is_power_of_two(r as int),
        n <= r,
        r == 1 || r / 2 < n,
        n == 0 ==> r == 1,
{
    let mut p: usize = 1;
    while p < n
        invariant
            n <= usize::MAX / 2 + 1,
            is_power_of_two(p as int),
            p >= 1,
            p == 1 || p / 2 < n,
        decreases usize::MAX - p,
    {
        assert((2 * p) / 2 == p);
        p = p * 2;
    }
    p
}

/// The title of a round that stands `k` rounds before the last one.
pub open spec fn round_title(k: int) -> Seq<char> {
    if k == 0 {
        "Final"@
    } else if k == 1 {
        "Semi Final"@
    } else if k == 2 {
        "Quarter Final"@
    } else {
        "Round of "@ + decimal(pow2((k + 1) as nat))
    }
}

/// Generate round name based on round number and total rounds.
///
/// The last round is the "Final", the one before it the "Semi Final", the one
/// before that the "Quarter Final", and any earlier round is named after the
/// number of players it holds ("Round of 16", "Round of 32", ...).
pub fn round_name(round_number: i32, total_rounds: i32) -> (name: String)
    requires
        -1 <= total_rounds - round_number <= 29,
    ensures
        name@ == round_title(total_rounds - round_number),
{
    let rounds_from_end = total_rounds - round_number;
    if rounds_from_end == 0 {
        String::from_str("Final")
    } else if rounds_from_end == 1 {
        String::from_str("Semi Final")
    } else if rounds_from_end == 2 {
        String::from_str("Quarter Final")
    } else {
        let e: i32 = rounds_from_end + 1;
        let mut p: u64 = 1;
        let mut i: i32 = 0;
        assert(pow2(0) == 1);
        while i < e
            invariant
                0 <= i <= e,
                e <= 30,
                p == pow2(i as nat),
                p <= 0x4000_0000,
            decreases e - i,
        {
            proof {
                lemma_pow2_monotone((i + 1) as nat, 30);
                lemma_pow2_30();
            }
            p = p * 2;
            i = i + 1;
        }
        let digits = u64_to_decimal(p);
        String::from_str("Round of ").concat(digits.as_str())
    }
}

pub proof fn lemma_pow2_30()
    ensures
        pow2(30) == 0x4000_0000,
{
    reveal_with_fuel(pow2, 31);
}

/// The standard seeding order of a bracket of `size` slots: the order of a
/// bracket of half the size, each seed followed by the seed it meets.
pub open spec fn seed_order(size: nat) -> Seq<int>
    decreases size,
{
    if size <= 1 {
        seq![1int]
    } else {
        let prev = seed_order(size / 2);
        Seq::new(2 * prev.len(), |i: int| if i % 2 == 0 {
            prev[i / 2]
        } else {
            size + 1 - prev[i / 2]
        })
    }
}

/// Every seed in the order of a bracket of `size` slots lies in 1..=size.
pub proof fn lemma_seed_order_range(size: nat)
    requires
        size >= 1,
    ensures
        forall|i: int| 0 <= i < seed_order(size).len() ==> 1 <= #[trigger] seed_order(size)[i] <= size,
        size >= 2 ==> seed_order(size).len() == 2 * seed_order(size / 2).len(),
    decreases size,
{
    if size > 1 {
        lemma_seed_order_range(size / 2);
        let prev = seed_order(size / 2);
        assert forall|i: int| 0 <= i < seed_order(size).len() implies 1 <= #[trigger] seed_order(size)[i] <= size by {
            assert(0 <= i / 2 < prev.len());
            assert(1 <= prev[i / 2] <= size / 2);
        }
    }
}

/// For a bracket whose size is a power of two, the seeding order holds every
/// seed from 1 to the size exactly once.
pub proof fn lemma_seed_order_is_permutation(size: nat)
    requires
        is_power_of_two(size as int),
    ensures
        seed_order(size).len() == size,
        forall|i: int| 0 <= i < size ==> 1 <= #[trigger] seed_order(size)[i] <= size,
        forall|i: int, j: int|
            0 <= i < size && 0 <= j < size && i != j ==> #[trigger] seed_order(size)[i] != #[trigger] seed_order(size)[j],
    decreases size,
{
    lemma_seed_order_range(size);
    if size > 1 {
        let h = size / 2;
        lemma_seed_order_is_permutation(h);
        let prev = seed_order(h);
        let cur = seed_order(size);
        assert(size == 2 * h);
        assert forall|i: int, j: int|
            0 <= i < size && 0 <= j < size && i != j implies #[trigger] cur[i] != #[trigger] cur[j] by {
            assert(1 <= prev[i / 2] <= h);
            assert(1 <= prev[j / 2] <= h);
            if i % 2 == j % 2 {
                assert(i / 2 != j / 2);
            }
        }
    }
}

/// In the first round every slot pair meets seeds that add up to one more
/// than the bracket size: seed 1 plays seed N, seed 2 plays seed N-1, ...
pub proof fn lemma_seed_order_pairs(size: nat)
    requires
        size >= 2,
    ensures
        forall|i: int| 0 <= i < seed_order(size).len() / 2 ==>
            #[trigger] seed_order(size)[2 * i] + seed_order(size)[2 * i + 1] == size + 1,
{
    lemma_seed_order_range(size);
    let prev = seed_order(size / 2);
    assert forall|i: int| 0 <= i < seed_order(size).len() / 2 implies
        #[trigger] seed_order(size)[2 * i] + seed_order(size)[2 * i + 1] == size + 1 by {
        assert((2 * i) / 2 == i);
        assert((2 * i + 1) / 2 == i);
    }
}

/// The top seed opens the order and the second seed opens its second half,
/// so the two best seeds can only meet in the final.
pub proof fn lemma_seed_order_top_seeds(size: nat)
    requires
        is_power_of_two(size as int),
        size >= 2,
    ensures
        seed_order(size)[0] == 1,
        seed_order(size)[(size / 2) as int] == 2,
    decreases size,
{
    lemma_seed_order_is_permutation(size);
    let h = size / 2;
    lemma_seed_order_is_permutation(h);
    if h == 1 {
        assert(seed_order(1) =~= seq![1int]);
    } else {
        lemma_seed_order_top_seeds(h);
        assert(h % 2 == 0);
        assert(seed_order(size)[(size / 2) as int] == seed_order(h)[(h / 2) as int]);
    }
}

/// Generate standard tournament seeding order for a given bracket size.
///
/// For bracket_size=8, returns [1, 8, 4, 5, 2, 7, 3, 6]: seed 1 plays seed N,
/// seed 2 plays seed N-1, and so on, with the top seeds on opposite sides.
pub fn generate_seed_order(bracket_size: usize) -> (order: Vec<usize>)
    requires
        1 <= bracket_size < usize::MAX,
    ensures
        order@.len() == seed_order(bracket_size as nat).len(),
        forall|i: int| 0 <= i < order@.len() ==> order@[i] as int == #[trigger] seed_order(bracket_size as nat)[i],
    decreases bracket_size,
{
    proof {
        lemma_seed_order_range(bracket_size as nat);
    }
    if bracket_size == 1 {
        let v = vec![1usize];
        assert(seed_order(1) =~= seq![1int]);
        return v;
    }
    if bracket_size == 2 {
        let v = vec![1usize, 2usize];
        proof {
            assert(seed_order(1) =~= seq![1int]);
        }
        return v;
    }
    let half = bracket_size / 2;
    let prev = generate_seed_order(half);
    let ghost target = seed_order(bracket_size as nat);
    proof {
        lemma_seed_order_range(half as nat);
    }
    let mut result: Vec<usize> = Vec::new();
    let mut j: usize = 0;
    while j < prev.len()
        invariant
            half == bracket_size / 2,
            bracket_size > 2,
            bracket_size < usize::MAX,
            target == seed_order(bracket_size as nat),
            prev@.len() == seed_order(half as nat).len(),
            target.len() == 2 * prev@.len(),
            forall|i: int| 0 <= i < prev@.len() ==> prev@[i] as int == #[trigger] seed_order(half as nat)[i],
            forall|i: int| 0 <= i < prev@.len() ==> 1 <= #[trigger] seed_order(half as nat)[i] <= half,
            0 <= j <= prev@.len(),
            result@.len() == 2 * j,
            forall|i: int| 0 <= i < result@.len() ==> result@[i] as int == #[trigger] target[i],
        decreases prev@.len() - j,
    {
        let seed = prev[j];
        assert(seed_order(half as nat)[j as int] == seed);
        result.push(seed);
        result.push(bracket_size + 1 - seed);
        assert(target[2 * j as int] == seed);
        assert(target[2 * j as int + 1] == bracket_size + 1 - seed);
        j = j + 1;
    }
    result
}

/// Calculate the number of rounds needed for n participants: the least
/// number of rounds whose bracket holds all of them.
pub fn num_rounds(n: usize) -> (r: i32)
    requires
        n <= usize::MAX / 2 + 1,
    ensures
        n <= 1 ==> r == 0,
        n > 1 ==> r >= 1 && pow2((r - 1) as nat) < n <= pow2(r as nat),
{
    if n <= 1 {
        return 0;
    }
    let bracket_size = next_power_of_two(n);
    let mut x = bracket_size;
    let mut k: i32 = 0;
    assert(pow2(0) == 1);
    assert(x as int * pow2(k as nat) == bracket_size as int) by (nonlinear_arith)
        requires
            k == 0,
            pow2(0) == 1,
            x == bracket_size,
    ;
    while x > 1
        invariant
            is_power_of_two(x as int),
            x as int * pow2(k as nat) == bracket_size as int,
            0 <= k <= 64,
            pow2(k as nat) <= bracket_size,
            x >= 1,
        decreases x,
    {
        proof {
            lemma_power_of_two_halves(x as int, k as nat);
            assert(pow2((k + 1) as nat) == 2 * pow2(k as nat));
            assert((x / 2) as int * pow2((k + 1) as nat) == bracket_size as int) by (nonlinear_arith)
                requires
                    x % 2 == 0,
                    pow2((k + 1) as nat) == 2 * pow2(k as nat),
                    x as int * pow2(k as nat) == bracket_size as int,
            ;
            assert(pow2((k + 1) as nat) <= bracket_size) by (nonlinear_arith)
                requires
                    x >= 2,
                    pow2((k + 1) as nat) == 2 * pow2(k as nat),
                    x as int * pow2(k as nat) == bracket_size as int,
            ;
            lemma_pow2_bound(k as nat, bracket_size as nat);
        }
        x = x / 2;
        k = k + 1;
    }
    proof {
        assert(pow2(k as nat) == bracket_size);
        assert(k >= 1);
        assert(pow2(k as nat) == 2 * pow2((k - 1) as nat));
    }
    k
}

/// A power of two that fits in 64 bits has an exponent below 64.
proof fn lemma_pow2_bound(k: nat, b: nat)
    requires
        2 * pow2(k) <= b,
        b <= usize::MAX,
    ensures
        k < 64,
    decreases k,
{
    if k >= 64 {
        lemma_pow2_monotone(64, k);
        lemma_pow2_64();
    }
}

/// Powers of two grow with the exponent.
pub proof fn lemma_pow2_monotone(a: nat, b: nat)
    requires
        a <= b,
    ensures
        pow2(a) <= pow2(b),
    decreases b,
{
    if a < b {
        lemma_pow2_monotone(a, (b - 1) as nat);
    }
}

proof fn lemma_pow2_64()
    ensures
        pow2(64) == 0x1_0000_0000_0000_0000,
{
    reveal_with_fuel(pow2, 65);
}

} // verus!
