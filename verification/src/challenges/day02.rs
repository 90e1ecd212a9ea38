use vstd::prelude::*;

verus! {

use vstd::string::*;

/// The state of one report walk: just started, safely rising, safely
/// falling, or already broken.
#[derive(Debug, PartialEq, Eq, Structural, Clone, Copy)]
pub enum PlantState {
    Initial(i64),
    SafeIncreasing(i64),
    SafeDecreasing(i64),
    Unsafe,
}

impl PlantState {
    /// Where one more level takes the walk: a step of one to three in the
    /// established direction stays safe, anything else breaks the report.
    pub open spec fn spec_next_state(self, next: i64) -> PlantState {
        match self {
            PlantState::Initial(num) => if next > num && next <= num + 3 {
                PlantState::SafeIncreasing(next)
            } else if next < num && next >= num - 3 {
                PlantState::SafeDecreasing(next)
            } else {
                PlantState::Unsafe
            },
            PlantState::SafeIncreasing(num) => if next > num && next <= num + 3 {
                PlantState::SafeIncreasing(next)
            } else {
                PlantState::Unsafe
            },
            PlantState::SafeDecreasing(num) => if next < num && next >= num - 3 {
                PlantState::SafeDecreasing(next)
            } else {
                PlantState::Unsafe
            },
            PlantState::Unsafe => PlantState::Unsafe,
        }
    }

    pub fn next_state(&self, next: i64) -> (r: PlantState)
        ensures
            r == self.spec_next_state(next),
    {
        match self {
            PlantState::Initial(num) => {
                let n = *num as i128;
                if (next as i128) > n && (next as i128) <= n + 3 {
                    PlantState::SafeIncreasing(next)
                } else if (next as i128) < n && (next as i128) >= n - 3 {
                    PlantState::SafeDecreasing(next)
                } else {
                    PlantState::Unsafe
                }
            },
            PlantState::SafeIncreasing(num) => {
                let n = *num as i128;
                if (next as i128) > n && (next as i128) <= n + 3 {
                    PlantState::SafeIncreasing(next)
                } else {
                    PlantState::Unsafe
                }
            },
            PlantState::SafeDecreasing(num) => {
                let n = *num as i128;
                if (next as i128) < n && (next as i128) >= n - 3 {
                    PlantState::SafeDecreasing(next)
                } else {
                    PlantState::Unsafe
                }
            },
            PlantState::Unsafe => PlantState::Unsafe,
        }
    }
}

/// The state a whole report ends in, walked from its first level.
pub open spec fn run_states(nums: Seq<i64>) -> PlantState
    recommends
        nums.len() >= 1,
    decreases nums.len(),
{
    if nums.len() <= 1 {
        PlantState::Initial(if nums.len() == 1 {
            nums[0]
        } else {
            0
        })
    } else {
        run_states(nums.drop_last()).spec_next_state(nums.last())
    }
}

/// A report is safe when its walk ends rising or falling.
pub open spec fn line_safe(nums: Seq<i64>) -> bool {
    nums.len() >= 2 && (run_states(nums) is SafeIncreasing || run_states(nums) is SafeDecreasing)
}

/// A report is nearly safe when removing one level leaves a safe report.
pub open spec fn line_safe_dampened(nums: Seq<i64>) -> bool {
    exists|k: int| 0 <= k < nums.len() && #[trigger] line_safe(nums.remove(k))
}

/// How many reports of the input a test passes; reports without at least
/// one level are passed over.
pub open spec fn count_passing(lines: Seq<Seq<u8>>, dampened: bool) -> int
    decreases lines.len(),
{
    if lines.len() == 0 {
        0
    } else {
        let nums = crate::numbers_in(lines.last());
        count_passing(lines.drop_last(), dampened) + if nums.len() >= 1 && (if dampened {
            line_safe_dampened(nums)
        } else {
            line_safe(nums)
        }) {
            1int
        } else {
            0int
        }
    }
}

/// Walk one report to its final state.
fn run_report(nums: &Vec<i64>) -> (r: PlantState)
    requires
        nums@.len() >= 1,
    ensures
        r == run_states(nums@),
{
    let mut state = PlantState::Initial(nums[0]);
    let mut i: usize = 1;
    proof {
        assert(nums@.take(1).len() == 1 && nums@.take(1)[0] == nums@[0]);
    }
    while i < nums.len()
        invariant
            1 <= i <= nums@.len(),
            state == run_states(nums@.take(i as int)),
        decreases nums@.len() - i,
    {
        proof {
            assert(nums@.take(i + 1).drop_last() =~= nums@.take(i as int));
            assert(nums@.take(i + 1).last() == nums@[i as int]);
        }
        state = state.next_state(nums[i]);
        i = i + 1;
    }
    proof {
        assert(nums@.take(i as int) =~= nums@);
    }
    state
}

/// How many reports are safe as they stand.
pub fn part1(input: &str) -> (r: i64)
    requires
        input.spec_bytes().len() <= 0x7fff_ffff,
    ensures
        r == count_passing(crate::challenges::day13::byte_lines(input.spec_bytes()), false),
{
    count_reports(input, false)
}

/// How many reports are safe after removing at most one level.
pub fn part2(input: &str) -> (r: i64)
    requires
        input.spec_bytes().len() <= 0x7fff_ffff,
    ensures
        r == count_passing(crate::challenges::day13::byte_lines(input.spec_bytes()), true),
{
    count_reports(input, true)
}

/// Count the passing reports of the input under the chosen test.
fn count_reports(input: &str, dampened: bool) -> (r: i64)
    requires
        input.spec_bytes().len() <= 0x7fff_ffff,
    ensures
        r == count_passing(crate::challenges::day13::byte_lines(input.spec_bytes()), dampened),
{
    let ghost all_lines = crate::challenges::day13::byte_lines(input.spec_bytes());
    let bytes = input.as_bytes();
    let lines = crate::challenges::day13::split_lines(bytes);
    let mut count: i64 = 0;
    let mut i: usize = 0;
    proof {
        assert(all_lines.take(0) =~= Seq::<Seq<u8>>::empty());
        crate::challenges::day13::lemma_byte_lines_count(input.spec_bytes());
    }
    while i < lines.len()
        invariant
            bytes@ == input.spec_bytes(),
            lines@.len() == all_lines.len(),
            forall|k: int|
                0 <= k < lines@.len() ==> {
                    let (a, b) = #[trigger] lines@[k];
                    a <= b <= bytes@.len() && bytes@.subrange(a as int, b as int) == all_lines[k]
                },
            0 <= i <= lines@.len(),
            lines@.len() <= 0x7fff_ffff,
            0 <= count <= i,
            count == count_passing(all_lines.take(i as int), dampened),
        decreases lines@.len() - i,
    {
        let (a, b) = lines[i];
        let nums = crate::numbers_of_bytes(vstd::slice::slice_subrange(bytes, a, b));
        proof {
            assert(all_lines.take(i + 1).drop_last() =~= all_lines.take(i as int));
            assert(all_lines.take(i + 1).last() == all_lines[i as int]);
        }
        if nums.len() >= 1 {
            let passed = if dampened {
                report_safe_dampened(&nums)
            } else {
                let state = run_report(&nums);
                match state {
                    PlantState::SafeIncreasing(_) => nums.len() >= 2,
                    PlantState::SafeDecreasing(_) => nums.len() >= 2,
                    _ => false,
                }
            };
            proof {
                if !dampened {
                    assert(passed == line_safe(nums@));
                }
            }
            if passed {
                count = count + 1;
            }
        }
        i = i + 1;
    }
    proof {
        assert(all_lines.take(i as int) =~= all_lines);
    }
    count
}

/// Whether removing some single level leaves a safe report.
fn report_safe_dampened(nums: &Vec<i64>) -> (r: bool)
    requires
        nums@.len() >= 1,
    ensures
        r == line_safe_dampened(nums@),
{
    let mut k: usize = 0;
    while k < nums.len()
        invariant
            0 <= k <= nums@.len(),
            forall|t: int| 0 <= t < k ==> !line_safe(#[trigger] nums@.remove(t)),
        decreases nums@.len() - k,
    {
        let mut shorter: Vec<i64> = Vec::new();
        let mut j: usize = 0;
        while j < nums.len()
            invariant
                0 <= j <= nums@.len(),
                k < nums@.len(),
                shorter@.len() == if j <= k {
                    j as int
                } else {
                    j - 1
                },
                forall|t: int| 0 <= t < shorter@.len() ==> shorter@[t] == nums@.remove(k as int)[t],
            decreases nums@.len() - j,
        {
            if j != k {
                proof {
                    if j < k {
                        assert(nums@.remove(k as int)[j as int] == nums@[j as int]);
                    } else {
                        assert(nums@.remove(k as int)[j - 1] == nums@[j as int]);
                    }
                }
                shorter.push(nums[j]);
            }
            j = j + 1;
        }
        proof {
            assert(shorter@ =~= nums@.remove(k as int));
        }
        if shorter.len() >= 2 {
            let state = run_report(&shorter);
            let ok = match state {
                PlantState::SafeIncreasing(_) => true,
                PlantState::SafeDecreasing(_) => true,
                _ => false,
            };
            if ok {
                proof {
                    assert(line_safe(nums@.remove(k as int)));
                }
                return true;
            }
        }
        k = k + 1;
    }
    false
}

} // verus!
