use vstd::prelude::*;

verus! {

use vstd::arithmetic::div_mod::lemma_fundamental_div_mod_converse;
use vstd::string::*;

/// A robot on a wrapping grid: position and velocity per step.
#[derive(Debug, Default, Clone, Copy, PartialEq, Eq, Structural)]
pub struct Robot {
    pub x: i32,
    pub y: i32,
    pub dx: i32,
    pub dy: i32,
}

/// A line that does not carry exactly four coordinates in range.
#[derive(Debug, PartialEq, Eq, Structural)]
pub struct ParseRobotError;

/// The least non-negative residue of `v` modulo `m`.
fn emod(v: i64, m: i64) -> (r: i64)
    requires
        0 < m,
        i64::MIN < v,
    ensures
        r == v as int % m as int,
        0 <= r < m,
{
    if v >= 0 {
        let r = (v as u64 % m as u64) as i64;
        proof {
            assert(v as int % m as int == (v as u64) as int % (m as u64) as int);
        }
        r
    } else {
        let a = (-v) as u64;
        let r0 = (a % m as u64) as i64;
        proof {
            let ai = a as int;
            let mi = m as int;
            let q = ai / mi;
            assert(ai == q * mi + ai % mi) by {
                vstd::arithmetic::div_mod::lemma_fundamental_div_mod(ai, mi);
            }
            if r0 == 0 {
                assert(v == (-q) * mi + 0) by (nonlinear_arith)
                    requires
                        v == -ai,
                        ai == q * mi,
                ;
                lemma_fundamental_div_mod_converse(v as int, mi, -q, 0);
            } else {
                assert(v == (-q - 1) * mi + (mi - r0)) by (nonlinear_arith)
                    requires
                        v == -ai,
                        ai == q * mi + r0,
                ;
                lemma_fundamental_div_mod_converse(v as int, mi, -q - 1, mi - r0);
            }
        }
        if r0 == 0 {
            0
        } else {
            m - r0
        }
    }
}

impl Robot {
    /// Where the robot stands after `t` steps on a `w` by `h` grid whose
    /// edges wrap.
    pub open spec fn spec_pos_after(&self, t: int, w: int, h: int) -> (int, int) {
        ((self.x + self.dx * t) % w, (self.y + self.dy * t) % h)
    }

    pub fn pos_after(&self, t: i32, w: i32, h: i32) -> (r: (i32, i32))
        requires
            0 < w,
            0 < h,
        ensures
            r.0 == self.spec_pos_after(t as int, w as int, h as int).0,
            r.1 == self.spec_pos_after(t as int, w as int, h as int).1,
            0 <= r.0 < w && 0 <= r.1 < h,
    {
        proof {
            crate::bytegrid::lemma_i32_mul_bound(self.dx, t);
            crate::bytegrid::lemma_i32_mul_bound(self.dy, t);
        }
        let vx = self.x as i64 + self.dx as i64 * t as i64;
        let vy = self.y as i64 + self.dy as i64 * t as i64;
        let rx = emod(vx, w as i64);
        let ry = emod(vy, h as i64);
        (rx as i32, ry as i32)
    }
}

/// The robot a line denotes: exactly four numbers in `i32` range, read with
/// every byte other than digits and minus signs blanked out.
pub open spec fn spec_robot_of(line: Seq<u8>) -> Result<Robot, ParseRobotError> {
    let nums = crate::numbers_in(crate::numericish_of(line));
    if nums.len() == 4 && (forall|k: int| 0 <= k < 4 ==> i32::MIN <= #[trigger] nums[k] <= i32::MAX) {
        Ok(Robot { x: nums[0] as i32, y: nums[1] as i32, dx: nums[2] as i32, dy: nums[3] as i32 })
    } else {
        Err(ParseRobotError)
    }
}

/// Parse one robot description line.
pub fn parse_robot(s: &str) -> (r: Result<Robot, ParseRobotError>)
    ensures
        r == spec_robot_of(s.spec_bytes()),
{
    let nums = crate::extract_numbers(s);
    if nums.len() != 4 {
        return Err(ParseRobotError);
    }
    let mut k: usize = 0;
    while k < 4
        invariant
            0 <= k <= 4,
            nums@.len() == 4,
            nums@ == crate::numbers_in(crate::numericish_of(s.spec_bytes())),
            forall|j: int| 0 <= j < k ==> i32::MIN <= #[trigger] nums@[j] <= i32::MAX,
        decreases 4 - k,
    {
        let v = nums[k];
        if v < i32::MIN as i64 || v > i32::MAX as i64 {
            proof {
                assert(!(i32::MIN <= crate::numbers_in(crate::numericish_of(s.spec_bytes()))[
                    k as int] <= i32::MAX));
                assert(spec_robot_of(s.spec_bytes()) is Err);
            }
            return Err(ParseRobotError);
        }
        k = k + 1;
    }
    Ok(
        Robot {
            x: nums[0] as i32,
            y: nums[1] as i32,
            dx: nums[2] as i32,
            dy: nums[3] as i32,
        },
    )
}

/// The robots of the input, one per line; lines that do not describe a
/// robot are passed over.
pub open spec fn spec_robots(lines: Seq<Seq<u8>>) -> Seq<Robot>
    decreases lines.len(),
{
    if lines.len() == 0 {
        seq![]
    } else {
        let rest = spec_robots(lines.drop_last());
        match spec_robot_of(lines.last()) {
            Ok(rb) => rest.push(rb),
            Err(_) => rest,
        }
    }
}

/// Which quadrant of a `w` by `h` grid the position falls in, with the
/// middle row and column belonging to none.
pub open spec fn quad_of(pos: (int, int), w: int, h: int) -> Option<int> {
    if pos.0 == w / 2 || pos.1 == h / 2 {
        None
    } else {
        Some(
            (if pos.0 > w / 2 {
                1int
            } else {
                0int
            }) + (if pos.1 > h / 2 {
                2int
            } else {
                0int
            }),
        )
    }
}

/// How many robots stand in quadrant `q` after `t` steps.
pub open spec fn quad_count(robots: Seq<Robot>, t: int, w: int, h: int, q: int) -> int
    decreases robots.len(),
{
    if robots.len() == 0 {
        0
    } else {
        quad_count(robots.drop_last(), t, w, h, q) + if quad_of(
            robots.last().spec_pos_after(t, w, h),
            w,
            h,
        ) == Some(q) {
            1int
        } else {
            0int
        }
    }
}

proof fn lemma_quad_count_bound(robots: Seq<Robot>, t: int, w: int, h: int, q: int)
    ensures
        0 <= quad_count(robots, t, w, h, q) <= robots.len(),
    decreases robots.len(),
{
    if robots.len() > 0 {
        lemma_quad_count_bound(robots.drop_last(), t, w, h, q);
    }
}

/// The product of the four quadrant populations after one hundred steps of
/// every robot the input describes; minus one when the grid dimensions are
/// unusable, there are too many robots to count, or the product leaves the
/// answer's range.
pub fn part1(input: &str, w: i32, h: i32) -> (r: i32)
    ensures
        ({
            let robots = spec_robots(crate::challenges::day13::byte_lines(input.spec_bytes()));
            let q0 = quad_count(robots, 100, w as int, h as int, 0);
            let q1 = quad_count(robots, 100, w as int, h as int, 1);
            let q2 = quad_count(robots, 100, w as int, h as int, 2);
            let q3 = quad_count(robots, 100, w as int, h as int, 3);
            if 0 < w && 0 < h && robots.len() <= 0x7fff_ffff && q0 * q1 * q2 * q3 <= i32::MAX {
                r == q0 * q1 * q2 * q3
            } else {
                r == -1
            }
        }),
{
    if w <= 0 || h <= 0 {
        return -1;
    }
    let ghost all_lines = crate::challenges::day13::byte_lines(input.spec_bytes());
    let ghost robots_spec = spec_robots(all_lines);
    let bytes = input.as_bytes();
    let lines = crate::challenges::day13::split_lines(bytes);
    let mut robots: Vec<Robot> = Vec::new();
    let mut i: usize = 0;
    proof {
        assert(all_lines.take(0) =~= Seq::<Seq<u8>>::empty());
    }
    while i < lines.len()
        invariant
            bytes@ == input.spec_bytes(),
            lines@.len() == all_lines.len(),
            forall|k: int|
                0 <= k < lines@.len() ==> {
                    let (a, b) = #[trigger] lines@[k];
                    a <= b <= bytes@.len() && bytes@.subrange(a as int, b as int) == all_lines[k]
                },
            0 <= i <= lines@.len(),
            robots@ == spec_robots(all_lines.take(i as int)),
        decreases lines@.len() - i,
    {
        let (a, b) = lines[i];
        let rb = parse_robot_bytes(bytes, a, b);
        proof {
            assert(all_lines.take(i + 1).drop_last() =~= all_lines.take(i as int));
            assert(all_lines.take(i + 1).last() == all_lines[i as int]);
        }
        match rb {
            Ok(robot) => robots.push(robot),
            Err(_) => (),
        }
        i = i + 1;
    }
    proof {
        assert(all_lines.take(i as int) =~= all_lines);
    }
    if robots.len() > 0x7fff_ffff {
        return -1;
    }
    let mut q: [i64; 4] = [0, 0, 0, 0];
    let mut j: usize = 0;
    proof {
        assert(robots_spec.take(0) =~= Seq::<Robot>::empty());
    }
    while j < robots.len()
        invariant
            0 < w && 0 < h,
            robots@ == robots_spec,
            robots_spec.len() <= 0x7fff_ffff,
            0 <= j <= robots@.len(),
            forall|qi: int|
                0 <= qi < 4 ==> #[trigger] q@[qi] == quad_count(
                    robots_spec.take(j as int),
                    100,
                    w as int,
                    h as int,
                    qi,
                ),
            forall|qi: int| 0 <= qi < 4 ==> 0 <= #[trigger] q@[qi] <= j,
        decreases robots@.len() - j,
    {
        let rb = robots[j];
        let pos = rb.pos_after(100, w, h);
        proof {
            assert(robots_spec.take(j + 1).drop_last() =~= robots_spec.take(j as int));
            assert(robots_spec.take(j + 1).last() == robots_spec[j as int]);
        }
        if !(pos.0 == w / 2 || pos.1 == h / 2) {
            let mut quad_idx: usize = 0;
            if pos.0 > w / 2 {
                quad_idx = quad_idx + 1;
            }
            if pos.1 > h / 2 {
                quad_idx = quad_idx + 2;
            }
            let old_v = q[quad_idx];
            q[quad_idx] = old_v + 1;
            proof {
                assert(quad_of(
                    robots_spec[j as int].spec_pos_after(100, w as int, h as int),
                    w as int,
                    h as int,
                ) == Some(quad_idx as int));
                assert forall|qi: int|
                    0 <= qi < 4 implies #[trigger] q@[qi] == quad_count(
                    robots_spec.take(j + 1),
                    100,
                    w as int,
                    h as int,
                    qi,
                ) by {}
            }
        } else {
            proof {
                assert(quad_of(
                    robots_spec[j as int].spec_pos_after(100, w as int, h as int),
                    w as int,
                    h as int,
                ) is None);
            }
        }
        j = j + 1;
    }
    proof {
        assert(robots_spec.take(j as int) =~= robots_spec);
        assert(q@[0] * q@[1] <= 0x7fff_ffff * 0x7fff_ffffi64) by (nonlinear_arith)
            requires
                0 <= q@[0] <= 0x7fff_ffff && 0 <= q@[1] <= 0x7fff_ffff,
        ;
        assert(q@[0] * q@[1] * q@[2] * q@[3] >= 0) by (nonlinear_arith)
            requires
                0 <= q@[0] && 0 <= q@[1] && 0 <= q@[2] && 0 <= q@[3],
        ;
    }
    proof {
        assert(0 <= q@[0] * q@[1] <= 0x4000_0000_0000_0000int) by (nonlinear_arith)
            requires
                0 <= q@[0] <= 0x7fff_ffff && 0 <= q@[1] <= 0x7fff_ffff,
        ;
        assert(0 <= q@[2] * q@[3] <= 0x4000_0000_0000_0000int) by (nonlinear_arith)
            requires
                0 <= q@[2] <= 0x7fff_ffff && 0 <= q@[3] <= 0x7fff_ffff,
        ;
    }
    let p01 = q[0] as i128 * q[1] as i128;
    let p23 = q[2] as i128 * q[3] as i128;
    proof {
        assert(p01 * p23 == q@[0] * q@[1] * q@[2] * q@[3]) by (nonlinear_arith)
            requires
                p01 == q@[0] * q@[1],
                p23 == q@[2] * q@[3],
        ;
        assert(p01 * p23 <= 0x1000_0000_0000_0000_0000_0000_0000_0000int && 0 <= p01 * p23) by (
        nonlinear_arith)
            requires
                0 <= p01 <= 0x4000_0000_0000_0000int,
                0 <= p23 <= 0x4000_0000_0000_0000int,
        ;
    }
    let product = p01 * p23;
    if product > i32::MAX as i128 {
        return -1;
    }
    product as i32
}

/// Parse the robot of one line given by byte bounds.
fn parse_robot_bytes(bytes: &[u8], a: usize, b: usize) -> (r: Result<Robot, ParseRobotError>)
    requires
        a <= b <= bytes@.len(),
    ensures
        r == spec_robot_of(bytes@.subrange(a as int, b as int)),
{
    let ghost line = bytes@.subrange(a as int, b as int);
    let mut cleaned: Vec<u8> = Vec::new();
    let mut i: usize = a;
    while i < b
        invariant
            a <= i <= b <= bytes@.len(),
            line == bytes@.subrange(a as int, b as int),
            cleaned@ =~= line.take(i - a).map_values(|x: u8| crate::keep_numericish(x)),
        decreases b - i,
    {
        let c = bytes[i];
        if (48 <= c && c <= 57) || c == 45 {
            cleaned.push(c);
        } else {
            cleaned.push(32);
        }
        proof {
            assert(line[i - a] == bytes@[i as int]);
            assert(cleaned@ =~= line.take(i + 1 - a).map_values(
                |x: u8| crate::keep_numericish(x),
            ));
        }
        i = i + 1;
    }
    proof {
        assert(line.take(b - a) =~= line);
        assert(cleaned@ =~= crate::numericish_of(line));
    }
    let nums = crate::numbers_of_bytes(cleaned.as_slice());
    proof {
        assert(nums@ == crate::numbers_in(crate::numericish_of(line)));
    }
    if nums.len() != 4 {
        proof {
            assert(crate::numbers_in(crate::numericish_of(line)).len() != 4);
            assert(spec_robot_of(line) is Err);
        }
        return Err(ParseRobotError);
    }
    let mut k: usize = 0;
    while k < 4
        invariant
            0 <= k <= 4,
            a <= b <= bytes@.len(),
            line == bytes@.subrange(a as int, b as int),
            nums@.len() == 4,
            nums@ == crate::numbers_in(crate::numericish_of(line)),
            forall|j: int| 0 <= j < k ==> i32::MIN <= #[trigger] nums@[j] <= i32::MAX,
        decreases 4 - k,
    {
        let v = nums[k];
        if v < i32::MIN as i64 || v > i32::MAX as i64 {
            proof {
                assert(!(i32::MIN <= crate::numbers_in(crate::numericish_of(line))[k as int]
                    <= i32::MAX));
                assert(spec_robot_of(line) is Err);
            }
            return Err(ParseRobotError);
        }
        k = k + 1;
    }
    Ok(
        Robot {
            x: nums[0] as i32,
            y: nums[1] as i32,
            dx: nums[2] as i32,
            dy: nums[3] as i32,
        },
    )
}

} // verus!
