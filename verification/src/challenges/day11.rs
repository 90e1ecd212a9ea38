use vstd::prelude::*;

verus! {

use std::collections::HashMap;
use vstd::string::*;
use vstd::std_specs::iter::IteratorSpec;

broadcast use vstd::std_specs::hash::group_hash_axioms;

/// The low sixty-four bits of an integer, as wrapping machine arithmetic
/// leaves them.
pub open spec fn wrap64(x: int) -> u64 {
    (x % 0x1_0000_0000_0000_0000) as u64
}

/// Count a stone `c` more times in the tally.
pub open spec fn bump(m: Map<u64, u64>, k: u64, c: u64) -> Map<u64, u64> {
    let prev: u64 = if m.contains_key(k) {
        m[k]
    } else {
        0
    };
    m.insert(k, wrap64(prev + c))
}

/// How many decimal digits `n` prints with.
pub open spec fn num_digits(n: u64) -> nat
    decreases n,
{
    if n < 10 {
        1
    } else {
        1 + num_digits(n / 10)
    }
}

/// Ten to the power `d`.
pub open spec fn pow10(d: nat) -> int
    decreases d,
{
    if d == 0 {
        1
    } else {
        10 * pow10((d - 1) as nat)
    }
}

/// One blink applied to a single kind of stone: zero becomes one, a stone
/// with an even count of digits splits into its halves, and anything else
/// is multiplied by 2024.
pub open spec fn add_stone(m: Map<u64, u64>, stone: u64, count: u64) -> Map<u64, u64> {
    if stone == 0 {
        bump(m, 1, count)
    } else {
        let d = num_digits(stone);
        if d % 2 == 0 {
            let p = pow10(d / 2);
            bump(bump(m, (stone as int / p) as u64, count), (stone as int % p) as u64, count)
        } else {
            bump(m, wrap64(stone * 2024), count)
        }
    }
}

/// `entries` lists the tally exactly: every pair is an entry of the map,
/// no key repeats, and every key is covered.
pub open spec fn lists_tally(m: Map<u64, u64>, entries: Seq<(u64, u64)>) -> bool {
    &&& entries.len() == m.dom().len()
    &&& (forall|i: int|
        0 <= i < entries.len() ==> m.contains_key((#[trigger] entries[i]).0) && m[entries[i].0]
            == entries[i].1)
    &&& (forall|i: int, j: int|
        0 <= i < j < entries.len() ==> (#[trigger] entries[i]).0 != (#[trigger] entries[j]).0)
}

/// One blink rewrites the tally: the result is the fold of the per-stone
/// rewrite over some listing of the tally.
pub open spec fn blink_rel(m: Map<u64, u64>, m2: Map<u64, u64>) -> bool {
    exists|entries: Seq<(u64, u64)>|
        #![trigger entries.len()]
        lists_tally(m, entries) && m2 == blink_fold(entries)
}

/// The wrapped sum of the listed counts.
pub open spec fn sum_fold(entries: Seq<(u64, u64)>) -> u64
    decreases entries.len(),
{
    if entries.len() == 0 {
        0
    } else {
        wrap64(sum_fold(entries.drop_last()) + entries.last().1)
    }
}

/// `v` is the wrapped total of the tally, read off some listing of it.
pub open spec fn sum_rel(m: Map<u64, u64>, v: u64) -> bool {
    exists|entries: Seq<(u64, u64)>|
        #![trigger entries.len()]
        lists_tally(m, entries) && v == sum_fold(entries)
}

/// The starting tally: one count per non-negative listed stone.
pub open spec fn init_tally(nums: Seq<i64>) -> Map<u64, u64>
    decreases nums.len(),
{
    if nums.len() == 0 {
        Map::empty()
    } else {
        let m = init_tally(nums.drop_last());
        if nums.last() >= 0 {
            bump(m, nums.last() as u64, 1)
        } else {
            m
        }
    }
}

/// One blink folded over a listing of the stone tally.
pub open spec fn blink_fold(entries: Seq<(u64, u64)>) -> Map<u64, u64>
    decreases entries.len(),
{
    if entries.len() == 0 {
        Map::empty()
    } else {
        add_stone(blink_fold(entries.drop_last()), entries.last().0, entries.last().1)
    }
}

proof fn lemma_pow10_pos(d: nat)
    ensures
        pow10(d) >= 1,
    decreases d,
{
    if d > 0 {
        lemma_pow10_pos((d - 1) as nat);
    }
}

/// The number of decimal digits of `n`.
fn count_digits(n: u64) -> (d: u64)
    requires
        n >= 1,
    ensures
        d == num_digits(n),
        1 <= d <= 20,
{
    let mut m = n;
    let mut d: u64 = 1;
    while m >= 10
        invariant
            1 <= m,
            1 <= d <= 20,
            num_digits(n) == d - 1 + num_digits(m),
            pow10((d - 1) as nat) <= n,
            m == n as int / pow10((d - 1) as nat),
        decreases m,
    {
        proof {
            lemma_pow10_pos((d - 1) as nat);
            vstd::arithmetic::div_mod::lemma_div_denominator(
                n as int,
                pow10((d - 1) as nat),
                10,
            );
            assert(pow10(d as nat) == pow10((d - 1) as nat) * 10) by (nonlinear_arith)
                requires
                    pow10(d as nat) == 10 * pow10((d as nat - 1) as nat),
                    d >= 1,
            ;
            assert(n as int >= m * pow10((d - 1) as nat)) by (nonlinear_arith)
                requires
                    m == n as int / pow10((d - 1) as nat),
                    pow10((d - 1) as nat) >= 1,
                    n >= 1,
            ;
            assert(pow10(d as nat) <= n) by (nonlinear_arith)
                requires
                    m >= 10,
                    m == n as int / pow10((d - 1) as nat),
                    pow10((d - 1) as nat) >= 1,
                    pow10(d as nat) == pow10((d - 1) as nat) * 10,
                    n as int >= m * pow10((d - 1) as nat),
            ;
            if d >= 20 {
                assert(pow10(20) > 0xffff_ffff_ffff_ffff) by {
                    reveal_with_fuel(pow10, 21);
                }
            }
        }
        m = m / 10;
        d = d + 1;
    }
    proof {
        assert(num_digits(m) == 1);
    }
    d
}

/// Ten to the power `d`, for small `d`.
fn pow10_exec(d: u64) -> (r: u64)
    requires
        d <= 10,
    ensures
        r == pow10(d as nat),
        r >= 1,
{
    let mut r: u64 = 1;
    let mut k: u64 = 0;
    while k < d
        invariant
            0 <= k <= d <= 10,
            r == pow10(k as nat),
            1 <= r,
            r <= 0x2540be400,
        decreases d - k,
    {
        proof {
            assert(pow10(10) == 10000000000) by {
                reveal_with_fuel(pow10, 11);
            }
            assert(pow10((k + 1) as nat) == 10 * pow10(k as nat));
            lemma_pow10_mono(k as nat, 9);
        }
        r = r * 10;
        k = k + 1;
    }
    r
}

proof fn lemma_pow10_mono(a: nat, b: nat)
    requires
        a <= b,
    ensures
        pow10(a) <= pow10(b),
    decreases b,
{
    if a < b {
        lemma_pow10_mono(a, (b - 1) as nat);
        lemma_pow10_pos((b - 1) as nat);
    }
}

/// One blink over the whole stone tally: every kind of stone is rewritten
/// at once and the counts add up, wrapping as machine words do.  The
/// result is the fold of the rewrite over some listing of the tally's
/// entries, each key exactly once.
pub fn blink(stones: HashMap<u64, u64>) -> (res: HashMap<u64, u64>)
    ensures
        blink_rel(stones@, res@),
{
    let mut res: HashMap<u64, u64> = HashMap::new();
    let ghost rem = vstd::std_specs::hash::spec_hash_map_iter(&stones).remaining();
    let ghost entries = rem.map_values(|e: (&u64, &u64)| (*e.0, *e.1));
    proof {
        assert(res@ =~= Map::<u64, u64>::empty());
        assert(entries.take(0) =~= Seq::<(u64, u64)>::empty());
    }
    let n = stones.len();
    let mut it = vstd::std_specs::iter::VerusForLoopWrapper::new(stones.iter(), Ghost(None));
    loop
        invariant
            it.wf(),
            it.seq() == rem,
            entries == rem.map_values(|e: (&u64, &u64)| (*e.0, *e.1)),
            0 <= it.index() <= entries.len(),
            entries.len() == rem.len(),
            n == entries.len(),
            res@ == blink_fold(entries.take(it.index())),
        ensures
            res@ == blink_fold(entries),
        decreases n - it.index(),
    {
        let ghost pre_index = it.index();
        let kv = match it.next() {
            Some(kv) => kv,
            None => {
                proof {
                    assert(it.index() == it.seq().len());
                    assert(entries.take(it.index()) =~= entries);
                }
                break;
            },
        };
        let ghost i = pre_index;
        proof {
            assert(kv == rem[i]);
            assert(it.index() == i + 1);
        }
        let stone = *kv.0;
        let count = *kv.1;
        proof {
            assert(entries[i] == (stone, count));
            assert(entries.take(i + 1).drop_last() =~= entries.take(i));
            assert(entries.take(i + 1).last() == entries[i]);
        }
        let ghost pre_map = res@;
        if stone == 0 {
            bump_count(&mut res, 1, count);
            proof {
                assert(res@ == add_stone(pre_map, stone, count));
            }
        } else {
            let d = count_digits(stone);
            if d % 2 == 0 {
                let p = pow10_exec(d / 2);
                proof {
                    lemma_pow10_pos((d / 2) as nat);
                }
                let hi = stone / p;
                let lo = stone % p;
                bump_count(&mut res, hi, count);
                bump_count(&mut res, lo, count);
                proof {
                    assert(res@ == add_stone(pre_map, stone, count));
                }
            } else {
                let prod = (stone as u128) * 2024u128;
                let wrapped = (prod % 0x1_0000_0000_0000_0000u128) as u64;
                proof {
                    assert(wrapped == wrap64(stone * 2024));
                }
                bump_count(&mut res, wrapped, count);
                proof {
                    assert(res@ == add_stone(pre_map, stone, count));
                }
            }
        }
    }
    proof {
        assert(entries.len() == stones@.dom().len());
        assert forall|t: int|
            0 <= t < entries.len() implies stones@.contains_key((#[trigger] entries[t]).0)
            && stones@[entries[t].0] == entries[t].1 by {
            assert(stones@.contains_key(*rem[t].0) && stones@[*rem[t].0] == *rem[t].1);
        }
        assert forall|a: int, b: int|
            0 <= a < b < entries.len() implies (#[trigger] entries[a]).0 != (
        #[trigger] entries[b]).0 by {
            assert(rem.no_duplicates());
            assert(rem[a] != rem[b]);
            if *rem[a].0 == *rem[b].0 {
                assert(stones@[*rem[a].0] == *rem[a].1 && stones@[*rem[b].0] == *rem[b].1);
            }
        }
        assert(lists_tally(stones@, entries) && res@ == blink_fold(entries));
    }
    res
}

/// Add `count` to one stone's tally, wrapping as machine addition does.
fn bump_count(m: &mut HashMap<u64, u64>, k: u64, count: u64)
    ensures
        final(m)@ == bump(old(m)@, k, count),
{
    let prev = match m.get(&k) {
        Some(v) => *v,
        None => 0,
    };
    let sum = ((prev as u128 + count as u128) % 0x1_0000_0000_0000_0000u128) as u64;
    proof {
        assert(sum == wrap64(prev + count));
    }
    m.insert(k, sum);
}

/// The tally evolves through `blinks` rounds: a chain of maps starting at
/// the parsed stones, each step one blink of the one before, with the
/// answer the wrapped total of the last.
pub open spec fn counts_after(input: Seq<u8>, blinks: int, r: u64) -> bool {
    exists|chain: Seq<Map<u64, u64>>|
        #![trigger chain.len()]
        {
            &&& chain.len() == blinks + 1
            &&& chain[0] == init_tally(crate::numbers_in(input))
            &&& (forall|i: int| 0 <= i < blinks ==> blink_rel(#[trigger] chain[i], chain[i + 1]))
            &&& sum_rel(chain.last(), r)
        }
}

/// Count the stones after `blinks` rounds over the numbers of the input.
/// Each round rewrites the tally as one blink does; the result is the sum
/// of the final counts, wrapping as machine words do.
fn blink_rounds(input: &str, blinks: u64) -> (r: u64)
    ensures
        counts_after(input.spec_bytes(), blinks as int, r),
{
    let nums = crate::parse_number_list(input);
    let mut tally: HashMap<u64, u64> = HashMap::new();
    let mut i: usize = 0;
    proof {
        assert(nums@.take(0) =~= Seq::<i64>::empty());
        assert(tally@ =~= Map::<u64, u64>::empty());
    }
    while i < nums.len()
        invariant
            nums@ == crate::numbers_in(input.spec_bytes()),
            0 <= i <= nums@.len(),
            tally@ == init_tally(nums@.take(i as int)),
        decreases nums@.len() - i,
    {
        proof {
            assert(nums@.take(i + 1).drop_last() =~= nums@.take(i as int));
            assert(nums@.take(i + 1).last() == nums@[i as int]);
        }
        let v = nums[i];
        if v >= 0 {
            bump_count(&mut tally, v as u64, 1);
        }
        i = i + 1;
    }
    proof {
        assert(nums@.take(i as int) =~= nums@);
    }
    let ghost mut chain: Seq<Map<u64, u64>> = seq![tally@];
    let mut round: u64 = 0;
    while round < blinks
        invariant
            0 <= round <= blinks,
            chain.len() == round + 1,
            chain[0] == init_tally(crate::numbers_in(input.spec_bytes())),
            forall|t: int| 0 <= t < round ==> blink_rel(#[trigger] chain[t], chain[t + 1]),
            chain.last() == tally@,
        decreases blinks - round,
    {
        let ghost pre = tally@;
        tally = blink(tally);
        proof {
            chain = chain.push(tally@);
            assert(chain.last() == tally@);
            assert forall|t: int| 0 <= t < round + 1 implies blink_rel(
                #[trigger] chain[t],
                chain[t + 1],
            ) by {
                if t < round {
                    assert(chain[t] == chain.drop_last()[t] && chain[t + 1] == chain.drop_last()[t
                        + 1]);
                } else {
                    assert(chain[t] == pre && chain[t + 1] == tally@);
                }
            }
        }
        round = round + 1;
    }
    // sum the counts over a listing of the final tally
    let mut total: u64 = 0;
    let ghost rem = vstd::std_specs::hash::spec_hash_map_iter(&tally).remaining();
    let ghost entries = rem.map_values(|e: (&u64, &u64)| (*e.0, *e.1));
    proof {
        assert(entries.take(0) =~= Seq::<(u64, u64)>::empty());
    }
    let n = tally.len();
    let mut it = vstd::std_specs::iter::VerusForLoopWrapper::new(tally.iter(), Ghost(None));
    loop
        invariant
            it.wf(),
            it.seq() == rem,
            entries == rem.map_values(|e: (&u64, &u64)| (*e.0, *e.1)),
            0 <= it.index() <= entries.len(),
            entries.len() == rem.len(),
            n == entries.len(),
            total == sum_fold(entries.take(it.index())),
        ensures
            total == sum_fold(entries),
        decreases n - it.index(),
    {
        let ghost pre_index = it.index();
        let kv = match it.next() {
            Some(kv) => kv,
            None => {
                proof {
                    assert(it.index() == it.seq().len());
                    assert(entries.take(it.index()) =~= entries);
                }
                break;
            },
        };
        let add = *kv.1;
        proof {
            assert(kv == rem[pre_index]);
            assert(entries[pre_index] == (*kv.0, add));
            assert(entries.take(pre_index + 1).drop_last() =~= entries.take(pre_index));
            assert(entries.take(pre_index + 1).last() == entries[pre_index]);
        }
        total = ((total as u128 + add as u128) % 0x1_0000_0000_0000_0000u128) as u64;
        proof {
            assert(total == wrap64(sum_fold(entries.take(pre_index)) + add));
        }
    }
    proof {
        assert(lists_tally(tally@, entries)) by {
            assert forall|t: int|
                0 <= t < entries.len() implies tally@.contains_key((#[trigger] entries[t]).0)
                && tally@[entries[t].0] == entries[t].1 by {
                assert(tally@.contains_key(*rem[t].0) && tally@[*rem[t].0] == *rem[t].1);
            }
            assert forall|a: int, b: int|
                0 <= a < b < entries.len() implies (#[trigger] entries[a]).0 != (
            #[trigger] entries[b]).0 by {
                assert(rem.no_duplicates());
                assert(rem[a] != rem[b]);
                if *rem[a].0 == *rem[b].0 {
                    assert(tally@[*rem[a].0] == *rem[a].1 && tally@[*rem[b].0] == *rem[b].1);
                }
            }
        }
        assert(sum_rel(tally@, total));
        assert(counts_after(input.spec_bytes(), blinks as int, total)) by {
            assert(chain.len() == blinks + 1 && chain[0] == init_tally(
                crate::numbers_in(input.spec_bytes()),
            ) && (forall|t: int|
                0 <= t < blinks ==> blink_rel(#[trigger] chain[t], chain[t + 1])) && sum_rel(
                chain.last(),
                total,
            ));
        }
    }
    total
}

/// The stone count after twenty-five blinks.
pub fn part1(input: &str) -> (r: u64)
    ensures
        counts_after(input.spec_bytes(), 25, r),
{
    blink_rounds(input, 25)
}

/// The stone count after seventy-five blinks.
pub fn part2(input: &str) -> (r: u64)
    ensures
        counts_after(input.spec_bytes(), 75, r),
{
    blink_rounds(input, 75)
}

} // verus!
