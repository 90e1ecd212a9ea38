use vstd::prelude::*;

verus! {

use vstd::string::*;

/// Field values small enough that every product and sum of the token-cost
/// arithmetic stays inside `i128`.
pub const COORD_BOUND: i128 = 0x4000_0000_0000_0000;

/// One claw machine: two button displacements and a prize position.
#[derive(Debug, Default)]
pub struct ClawMachine {
    pub button_a: (i128, i128),
    pub button_b: (i128, i128),
    pub prize: (i128, i128),
}

/// Magnitude of an integer.
pub open spec fn abs_i(x: int) -> int {
    if x < 0 {
        -x
    } else {
        x
    }
}

/// `b` divides `a` exactly.
pub open spec fn divides_exact(a: int, b: int) -> bool {
    abs_i(a) % abs_i(b) == 0
}

/// The exact signed quotient of `a` by `b`, for `b` dividing `a`.
pub open spec fn exact_quot(a: int, b: int) -> int {
    if (a < 0) != (b < 0) {
        -(abs_i(a) / abs_i(b))
    } else {
        abs_i(a) / abs_i(b)
    }
}

impl ClawMachine {
    pub open spec fn bounded(&self, bound: int) -> bool {
        &&& -bound <= self.button_a.0 <= bound
        &&& -bound <= self.button_a.1 <= bound
        &&& -bound <= self.button_b.0 <= bound
        &&& -bound <= self.button_b.1 <= bound
        &&& -bound <= self.prize.0 <= bound
        &&& -bound <= self.prize.1 <= bound
    }

    /// The token cost this machine yields: three per press of the first
    /// button, one per press of the second, with the presses solved by
    /// Cramer's rule; zero when there is no affordable exact solution
    /// within `max` presses per button.
    pub open spec fn spec_token_cost(&self, max: int) -> int {
        let a1 = self.button_a.0 as int;
        let b1 = self.button_b.0 as int;
        let c1 = self.prize.0 as int;
        let a2 = self.button_a.1 as int;
        let b2 = self.button_b.1 as int;
        let c2 = self.prize.1 as int;
        let denom = a1 * b2 - b1 * a2;
        let a_numer = c1 * b2 - b1 * c2;
        let b_numer = a1 * c2 - c1 * a2;
        if denom != 0 && divides_exact(a_numer, denom) && !(0 <= exact_quot(a_numer, denom)
            <= max) {
            0
        } else {
            let a_buttons = if denom != 0 && divides_exact(a_numer, denom) {
                exact_quot(a_numer, denom)
            } else {
                0
            };
            if denom != 0 && divides_exact(b_numer, denom) && !(0 <= exact_quot(b_numer, denom)
                <= max) {
                0
            } else {
                let b_buttons = if denom != 0 && divides_exact(b_numer, denom) {
                    exact_quot(b_numer, denom)
                } else {
                    0
                };
                if a1 * a_buttons + b1 * b_buttons == c1 && a2 * a_buttons + b2 * b_buttons == c2 {
                    a_buttons * 3 + b_buttons
                } else {
                    0
                }
            }
        }
    }

    /// The cost of winning the prize on this machine with at most `max`
    /// presses per button, or zero when that cannot be done exactly.
    pub fn token_cost(&self, max: i128) -> (r: i128)
        requires
            self.bounded(COORD_BOUND as int),
            0 <= max <= COORD_BOUND,
        ensures
            r == self.spec_token_cost(max as int),
            0 <= r <= 4 * COORD_BOUND,
    {
        let a1 = self.button_a.0;
        let b1 = self.button_b.0;
        let c1 = self.prize.0;
        let a2 = self.button_a.1;
        let b2 = self.button_b.1;
        let c2 = self.prize.1;
        proof {
            lemma_coord_products(a1, b2, b1, a2);
            lemma_coord_products(c1, b2, b1, c2);
            lemma_coord_products(a1, c2, c1, a2);
        }
        let denom = a1 * b2 - b1 * a2;
        let a_numer = c1 * b2 - b1 * c2;
        let b_numer = a1 * c2 - c1 * a2;

        let mut a_buttons: i128 = 0;
        if denom != 0 && exact_division(a_numer, denom).is_some() {
            a_buttons = match exact_division(a_numer, denom) {
                Some(q) => q,
                None => 0,
            };
            if a_buttons > max || a_buttons < 0 {
                return 0;
            }
        }
        let mut b_buttons: i128 = 0;
        if denom != 0 && exact_division(b_numer, denom).is_some() {
            b_buttons = match exact_division(b_numer, denom) {
                Some(q) => q,
                None => 0,
            };
            if b_buttons > max || b_buttons < 0 {
                return 0;
            }
        }
        proof {
            lemma_press_products(a1, a_buttons, b1, b_buttons, max as int);
            lemma_press_products(a2, a_buttons, b2, b_buttons, max as int);
        }
        if a1 * a_buttons + b1 * b_buttons == c1 && a2 * a_buttons + b2 * b_buttons == c2 {
            a_buttons * 3 + b_buttons
        } else {
            0
        }
    }
}

/// The exact signed quotient of `a` by `b`, when `b` divides `a`.
fn exact_division(a: i128, b: i128) -> (r: Option<i128>)
    requires
        b != 0,
        -0x4000_0000_0000_0000_0000_0000_0000_0000 < a < 0x4000_0000_0000_0000_0000_0000_0000_0000,
        -0x4000_0000_0000_0000_0000_0000_0000_0000 < b < 0x4000_0000_0000_0000_0000_0000_0000_0000,
    ensures
        r is Some <==> divides_exact(a as int, b as int),
        r matches Some(q) ==> q == exact_quot(a as int, b as int) && -abs_i(a as int) <= q
            <= abs_i(a as int),
{
    let ua = if a < 0 {
        (-a) as u128
    } else {
        a as u128
    };
    let ub = if b < 0 {
        (-b) as u128
    } else {
        b as u128
    };
    if ua % ub != 0 {
        return None;
    }
    let q = ua / ub;
    proof {
        assert(ua as int / ub as int <= ua) by (nonlinear_arith)
            requires
                ub >= 1,
                ua >= 0,
        ;
    }
    if (a < 0) != (b < 0) {
        Some(-(q as i128))
    } else {
        Some(q as i128)
    }
}

/// Products of two bounded coordinates and their difference stay in `i128`.
proof fn lemma_coord_products(x1: i128, y1: i128, x2: i128, y2: i128)
    requires
        -COORD_BOUND <= x1 <= COORD_BOUND,
        -COORD_BOUND <= y1 <= COORD_BOUND,
        -COORD_BOUND <= x2 <= COORD_BOUND,
        -COORD_BOUND <= y2 <= COORD_BOUND,
    ensures
        -(0x1000_0000_0000_0000_0000_0000_0000_0000int) <= x1 * y1
            <= 0x1000_0000_0000_0000_0000_0000_0000_0000int,
        -(0x1000_0000_0000_0000_0000_0000_0000_0000int) <= x2 * y2
            <= 0x1000_0000_0000_0000_0000_0000_0000_0000int,
{
    assert(-(0x1000_0000_0000_0000_0000_0000_0000_0000int) <= x1 * y1
        <= 0x1000_0000_0000_0000_0000_0000_0000_0000int) by (nonlinear_arith)
        requires
            -COORD_BOUND <= x1 <= COORD_BOUND,
            -COORD_BOUND <= y1 <= COORD_BOUND,
    ;
    assert(-(0x1000_0000_0000_0000_0000_0000_0000_0000int) <= x2 * y2
        <= 0x1000_0000_0000_0000_0000_0000_0000_0000int) by (nonlinear_arith)
        requires
            -COORD_BOUND <= x2 <= COORD_BOUND,
            -COORD_BOUND <= y2 <= COORD_BOUND,
    ;
}

/// A bounded coordinate times an affordable press count stays in `i128`.
proof fn lemma_press_products(x1: i128, n1: i128, x2: i128, n2: i128, max: int)
    requires
        -COORD_BOUND <= x1 <= COORD_BOUND,
        -COORD_BOUND <= x2 <= COORD_BOUND,
        0 <= n1 <= max <= COORD_BOUND,
        0 <= n2 <= max <= COORD_BOUND,
    ensures
        -(0x1000_0000_0000_0000_0000_0000_0000_0000int) <= x1 * n1
            <= 0x1000_0000_0000_0000_0000_0000_0000_0000int,
        -(0x1000_0000_0000_0000_0000_0000_0000_0000int) <= x2 * n2
            <= 0x1000_0000_0000_0000_0000_0000_0000_0000int,
{
    assert(-(0x1000_0000_0000_0000_0000_0000_0000_0000int) <= x1 * n1
        <= 0x1000_0000_0000_0000_0000_0000_0000_0000int) by (nonlinear_arith)
        requires
            -COORD_BOUND <= x1 <= COORD_BOUND,
            0 <= n1 <= COORD_BOUND,
    ;
    assert(-(0x1000_0000_0000_0000_0000_0000_0000_0000int) <= x2 * n2
        <= 0x1000_0000_0000_0000_0000_0000_0000_0000int) by (nonlinear_arith)
        requires
            -COORD_BOUND <= x2 <= COORD_BOUND,
            0 <= n2 <= COORD_BOUND,
    ;
}

/// A line reduced to its digits and blanks, as the machine descriptions are
/// read.
pub open spec fn digits_kept(line: Seq<u8>) -> Seq<u8> {
    line.map_values(|b: u8| if crate::is_digit(b) || b == 32 {
        b
    } else {
        32
    })
}

/// The machine a group of three description lines denotes, when each line
/// carries at least two numbers that fit the coordinate bound.
pub open spec fn machine_of_lines(l0: Seq<u8>, l1: Seq<u8>, l2: Seq<u8>) -> Option<ClawMachine> {
    let a = crate::numbers_in(digits_kept(l0));
    let b = crate::numbers_in(digits_kept(l1));
    let p = crate::numbers_in(digits_kept(l2));
    if a.len() >= 2 && b.len() >= 2 && p.len() >= 2 {
        Some(
            ClawMachine {
                button_a: (a[0] as i128, a[1] as i128),
                button_b: (b[0] as i128, b[1] as i128),
                prize: (p[0] as i128, p[1] as i128),
            },
        )
    } else {
        None
    }
}

/// The machines of the input, read from its lines in groups of four.
pub open spec fn spec_machines(lines: Seq<Seq<u8>>) -> Seq<ClawMachine>
    decreases lines.len(),
{
    if lines.len() < 3 {
        seq![]
    } else {
        let rest = if lines.len() > 4 {
            spec_machines(lines.skip(4))
        } else {
            seq![]
        };
        match machine_of_lines(lines[0], lines[1], lines[2]) {
            Some(m) => seq![m] + rest,
            None => rest,
        }
    }
}

/// The text lines of `s`, split at newline bytes.
pub open spec fn byte_lines(s: Seq<u8>) -> Seq<Seq<u8>>
    decreases s.len(),
    via byte_lines_decreases
{
    if s.len() == 0 {
        seq![]
    } else {
        let l = crate::piece_len(s, 10);
        if l < s.len() {
            seq![s.take(l)] + byte_lines(s.skip(l + 1))
        } else {
            seq![s]
        }
    }
}

#[via_fn]
proof fn byte_lines_decreases(s: Seq<u8>) {
    if s.len() != 0 {
        crate::lemma_piece_len_bounds(s, 10);
    }
}

/// Split `bytes` into its lines.
pub fn split_lines(bytes: &[u8]) -> (r: Vec<(usize, usize)>)
    ensures
        r@.len() == byte_lines(bytes@).len(),
        forall|k: int|
            0 <= k < r@.len() ==> {
                let (a, b) = #[trigger] r@[k];
                a <= b <= bytes@.len() && bytes@.subrange(a as int, b as int) == byte_lines(
                    bytes@,
                )[k]
            },
{
    let ghost whole = bytes@;
    let mut r: Vec<(usize, usize)> = Vec::new();
    let mut i: usize = 0;
    let mut done = bytes.len() == 0;
    proof {
        assert(whole.skip(0) =~= whole);
        if whole.len() == 0 {
            assert(byte_lines(whole) =~= Seq::<Seq<u8>>::empty());
            assert(r@.map_values(|p: (usize, usize)| whole.subrange(p.0 as int, p.1 as int)) =~= Seq::<
                Seq<u8>,
            >::empty());
        }
    }
    while !done
        invariant
            0 <= i <= bytes@.len(),
            bytes@ == whole,
            forall|k: int|
                0 <= k < r@.len() ==> {
                    let (a, b) = #[trigger] r@[k];
                    a <= b <= whole.len()
                },
            byte_lines(whole) =~= r@.map_values(
                |p: (usize, usize)| whole.subrange(p.0 as int, p.1 as int),
            ) + if done {
                seq![]
            } else {
                byte_lines(whole.skip(i as int))
            },
            done ==> i == bytes@.len(),
        decreases bytes@.len() - i + if done {
            1int
        } else {
            2int
        },
    {
        if i >= bytes.len() {
            done = true;
            proof {
                assert(whole.skip(i as int) =~= Seq::<u8>::empty());
                assert(byte_lines(whole.skip(i as int)) =~= Seq::<Seq<u8>>::empty());
            }
            continue;
        }
        let start = i;
        let j = crate::scan_to_byte(bytes, i, 10);
        let ghost rest = whole.skip(start as int);
        let ghost oldr = r@;
        proof {
            assert(forall|k: int| 0 <= k < j - start ==> #[trigger] rest[k] == whole[k + start]);
            crate::lemma_piece_len_at(rest, 10, j - start);
            assert(rest.take(j - start) =~= whole.subrange(start as int, j as int));
            if (j as int) < whole.len() {
                assert(rest.skip(j - start + 1) =~= whole.skip(j + 1));
            }
        }
        r.push((start, j));
        if j < bytes.len() {
            i = j + 1;
        } else {
            i = j;
            done = true;
        }
        proof {
            let f = |p: (usize, usize)| whole.subrange(p.0 as int, p.1 as int);
            assert(r@.map_values(f) =~= oldr.map_values(f).push(whole.subrange(
                start as int,
                j as int,
            )));
            assert(oldr.map_values(f) + (seq![whole.subrange(start as int, j as int)] + (
            if done {
                Seq::<Seq<u8>>::empty()
            } else {
                byte_lines(whole.skip(i as int))
            })) =~= r@.map_values(f) + if done {
                Seq::<Seq<u8>>::empty()
            } else {
                byte_lines(whole.skip(i as int))
            });
            if done {
                assert(byte_lines(rest) =~= seq![rest.take(j - start)]);
            }
        }
    }
    r
}

/// The claw machines described by `input`: groups of four lines carrying
/// the two button displacements and the prize coordinates.
pub fn parse(input: &str) -> (r: Vec<ClawMachine>)
    ensures
        r@ == spec_machines(byte_lines(input.spec_bytes())),
        4 * r@.len() <= byte_lines(input.spec_bytes()).len() + 8,
        byte_lines(input.spec_bytes()).len() <= 0xffff_ffff_ffff_ffff,
        byte_lines(input.spec_bytes()).len() <= input.spec_bytes().len(),
{
    proof {
        lemma_byte_lines_count(input.spec_bytes());
    }
    let bytes = input.as_bytes();
    let lines = split_lines(bytes);
    let nl = lines.len();
    let ghost ls = byte_lines(bytes@);
    proof {
        assert(ls.len() == nl);
    }
    let mut r: Vec<ClawMachine> = Vec::new();
    let mut i: usize = 0;
    proof {
        assert(ls.skip(0) =~= ls);
    }
    while i < lines.len() && lines.len() - i >= 3
        invariant
            bytes@ == input.spec_bytes(),
            ls == byte_lines(bytes@),
            lines@.len() == ls.len(),
            forall|k: int|
                0 <= k < lines@.len() ==> {
                    let (a, b) = #[trigger] lines@[k];
                    a <= b <= bytes@.len() && bytes@.subrange(a as int, b as int) == ls[k]
                },
            0 <= i <= lines@.len(),
            4 * r@.len() <= i + 5 || (i == lines@.len() && 4 * r@.len() <= i + 8),
            spec_machines(ls) == r@ + spec_machines(ls.skip(i as int)),
        decreases lines@.len() - i,
    {
        let (a0, b0) = lines[i];
        let (a1, b1) = lines[i + 1];
        let (a2, b2) = lines[i + 2];
        let n_a = keep_digit_numbers(bytes, a0, b0);
        let n_b = keep_digit_numbers(bytes, a1, b1);
        let n_p = keep_digit_numbers(bytes, a2, b2);
        let ghost tail = ls.skip(i as int);
        proof {
            assert(tail[0] == ls[i as int] && tail[1] == ls[i + 1] && tail[2] == ls[i + 2]);
            if i + 4 < ls.len() {
                assert(tail.skip(4) =~= ls.skip(i + 4));
            }
        }
        let ghost oldr = r@;
        if n_a.len() >= 2 && n_b.len() >= 2 && n_p.len() >= 2 {
            let m = ClawMachine {
                button_a: (n_a[0] as i128, n_a[1] as i128),
                button_b: (n_b[0] as i128, n_b[1] as i128),
                prize: (n_p[0] as i128, n_p[1] as i128),
            };
            r.push(m);
            proof {
                assert(machine_of_lines(tail[0], tail[1], tail[2]) == Some(m));
                if i + 4 < ls.len() {
                    assert(oldr + (seq![m] + spec_machines(ls.skip(i + 4))) =~= r@ + spec_machines(
                        ls.skip(i + 4),
                    ));
                } else {
                    assert(spec_machines(tail) =~= seq![m]);
                    assert(oldr + seq![m] =~= r@);
                    assert(ls.skip(ls.len() as int) =~= Seq::<Seq<u8>>::empty());
                    assert(spec_machines(Seq::<Seq<u8>>::empty()) =~= Seq::<ClawMachine>::empty());
                }
            }
        } else {
            proof {
                assert(machine_of_lines(tail[0], tail[1], tail[2]) is None);
                if i + 4 >= ls.len() {
                    assert(spec_machines(tail) =~= Seq::<ClawMachine>::empty());
                    assert(oldr + Seq::<ClawMachine>::empty() =~= r@);
                }
            }
        }
        if lines.len() - i >= 4 {
            i = i + 4;
        } else {
            i = lines.len();
            proof {
                assert(ls.skip(i as int) =~= Seq::<Seq<u8>>::empty());
            }
        }
    }
    proof {
        assert(spec_machines(ls.skip(i as int)) =~= Seq::<ClawMachine>::empty());
        assert(r@ + Seq::<ClawMachine>::empty() =~= r@);
    }
    r
}

/// The numbers of one line after every byte other than a digit or a blank
/// is blanked out, as the machine descriptions are read.
fn keep_digit_numbers(bytes: &[u8], a: usize, b: usize) -> (r: Vec<i64>)
    requires
        a <= b <= bytes@.len(),
    ensures
        r@ == crate::numbers_in(digits_kept(bytes@.subrange(a as int, b as int))),
{
    let ghost line = bytes@.subrange(a as int, b as int);
    let mut cleaned: Vec<u8> = Vec::new();
    let mut i: usize = a;
    while i < b
        invariant
            a <= i <= b <= bytes@.len(),
            line == bytes@.subrange(a as int, b as int),
            cleaned@ =~= line.take(i - a).map_values(
                |x: u8| if crate::is_digit(x) || x == 32 {
                    x
                } else {
                    32
                },
            ),
        decreases b - i,
    {
        let c = bytes[i];
        if (48 <= c && c <= 57) || c == 32 {
            cleaned.push(c);
        } else {
            cleaned.push(32);
        }
        proof {
            assert(line[i - a] == bytes@[i as int]);
            assert(cleaned@ =~= line.take(i + 1 - a).map_values(
                |x: u8| if crate::is_digit(x) || x == 32 {
                    x
                } else {
                    32
                },
            ));
        }
        i = i + 1;
    }
    proof {
        assert(line.take(b - a) =~= line);
        assert(cleaned@ =~= digits_kept(line));
    }
    crate::numbers_of_bytes(cleaned.as_slice())
}

/// A machine whose coordinates are small enough to price after the prize
/// shift: buttons within the coordinate bound and the prize at most three
/// quarters of it.
pub open spec fn priceable(m: ClawMachine) -> bool {
    &&& -COORD_BOUND <= m.button_a.0 <= COORD_BOUND
    &&& -COORD_BOUND <= m.button_a.1 <= COORD_BOUND
    &&& -COORD_BOUND <= m.button_b.0 <= COORD_BOUND
    &&& -COORD_BOUND <= m.button_b.1 <= COORD_BOUND
    &&& -0x3000_0000_0000_0000 <= m.prize.0 <= 0x3000_0000_0000_0000
    &&& -0x3000_0000_0000_0000 <= m.prize.1 <= 0x3000_0000_0000_0000
}

/// Sum of affordable token costs over a run of machines, each bounded by
/// `max` presses per button; a machine whose coordinates leave the
/// supported range counts nothing.
pub open spec fn spec_total_tokens(ms: Seq<ClawMachine>, max: int, extra: int) -> int
    decreases ms.len(),
{
    if ms.len() == 0 {
        0
    } else {
        let m = ms.last();
        let shifted = ClawMachine {
            prize: ((m.prize.0 + extra) as i128, (m.prize.1 + extra) as i128),
            ..m
        };
        spec_total_tokens(ms.drop_last(), max, extra) + if priceable(m) {
            shifted.spec_token_cost(max)
        } else {
            0
        }
    }
}

/// Total tokens over the machines of `input` at one hundred presses per
/// button at most; machines whose coordinates leave the supported range
/// count nothing.
pub fn part1(input: &str) -> (r: i128)
    ensures
        r == spec_total_tokens(spec_machines(byte_lines(input.spec_bytes())), 100, 0),
{
    total_tokens(input, 100, 0)
}

/// Total tokens with each prize moved ten trillion units out and the press
/// bound all but removed.
pub fn part2(input: &str) -> (r: i128)
    ensures
        r == spec_total_tokens(
            spec_machines(byte_lines(input.spec_bytes())),
            COORD_BOUND as int,
            10000000000000,
        ),
{
    total_tokens(input, COORD_BOUND, 10000000000000)
}

/// Total affordable tokens over all machines of `input`, with `extra` added
/// to both prize coordinates first.
fn total_tokens(input: &str, max: i128, extra: i128) -> (r: i128)
    requires
        0 <= max <= COORD_BOUND,
        0 <= extra <= 0x1000_0000_0000_0000,
    ensures
        r == spec_total_tokens(spec_machines(byte_lines(input.spec_bytes())), max as int, extra as int),
{
    let machines = parse(input);
    let ghost ms = machines@;
    let ghost nlines = byte_lines(input.spec_bytes()).len() as int;
    let mut total: i128 = 0;
    let mut i: usize = 0;
    while i < machines.len()
        invariant
            ms == machines@,
            4 * ms.len() <= nlines + 8,
            0 <= nlines <= 0xffff_ffff_ffff_ffff,
            0 <= i <= ms.len(),
            0 <= max <= COORD_BOUND,
            0 <= extra <= 0x1000_0000_0000_0000,
            total == spec_total_tokens(ms.take(i as int), max as int, extra as int),
            0 <= total <= i * 0x1_0000_0000_0000_0000,
        decreases ms.len() - i,
    {
        let m = &machines[i];
        proof {
            assert(ms.take(i + 1).drop_last() =~= ms.take(i as int));
            assert(ms.take(i + 1).last() == ms[i as int]);
        }
        let p0 = m.prize.0;
        let p1 = m.prize.1;
        let within = -COORD_BOUND <= m.button_a.0 && m.button_a.0 <= COORD_BOUND && -COORD_BOUND
            <= m.button_a.1 && m.button_a.1 <= COORD_BOUND && -COORD_BOUND <= m.button_b.0
            && m.button_b.0 <= COORD_BOUND && -COORD_BOUND <= m.button_b.1 && m.button_b.1
            <= COORD_BOUND && -0x3000_0000_0000_0000 <= p0 && p0 <= 0x3000_0000_0000_0000
            && -0x3000_0000_0000_0000 <= p1 && p1 <= 0x3000_0000_0000_0000;
        proof {
            assert(within == priceable(ms[i as int]));
        }
        if within {
            let shifted = ClawMachine {
                button_a: m.button_a,
                button_b: m.button_b,
                prize: (p0 + extra, p1 + extra),
            };
            let cost = shifted.token_cost(max);
            proof {
                assert(total + cost <= (i + 1) * 0x1_0000_0000_0000_0000) by (nonlinear_arith)
                    requires
                        total <= i * 0x1_0000_0000_0000_0000int,
                        0 <= cost <= 0x1_0000_0000_0000_0000int,
                        i >= 0,
                ;
                assert((i + 1) * 0x1_0000_0000_0000_0000int
                    < 0x8000_0000_0000_0000_0000_0000_0000_0000int) by (nonlinear_arith)
                    requires
                        4 * (i + 1) <= nlines + 8,
                        0 <= nlines <= 0xffff_ffff_ffff_ffffint,
                ;
            }
            total = total + cost;
        } else {
            proof {
                assert((i + 1) * 0x1_0000_0000_0000_0000int >= total) by (nonlinear_arith)
                    requires
                        total <= i * 0x1_0000_0000_0000_0000int,
                        i >= 0,
                ;
            }
        }
        i = i + 1;
    }
    proof {
        assert(ms.take(i as int) =~= ms);
    }
    total
}

/// A split into lines never yields more lines than bytes.
pub proof fn lemma_byte_lines_count(s: Seq<u8>)
    ensures
        byte_lines(s).len() <= s.len(),
    decreases s.len(),
{
    if s.len() != 0 {
        crate::lemma_piece_len_bounds(s, 10);
        let l = crate::piece_len(s, 10);
        if l < s.len() {
            lemma_byte_lines_count(s.skip(l + 1));
        }
    }
}

} // verus!
