use vstd::prelude::*;

verus! {

use vstd::string::*;

pub const REG_A: usize = 0;

pub const REG_B: usize = 1;

pub const REG_C: usize = 2;

/// How many machine steps a run is allowed before it is cut off, so that a
/// program that never halts still leaves the library.
pub const STEP_LIMIT: u64 = 0x100_0000;

/// An instruction operand: a small literal, a register index, the reserved
/// combo encoding, or an encoding outside the instruction set.
#[derive(Debug, Clone, Copy, PartialEq, Eq, Structural)]
pub enum Operand {
    Literal(u64),
    Register(u64),
    Reserved,
    Invalid,
}

impl Operand {
    /// The combo reading of an operand byte: zero through three stand for
    /// themselves, four through six name a register, seven is reserved.
    pub open spec fn spec_combo(input: u64) -> Operand {
        if input <= 3 {
            Operand::Literal(input)
        } else if input <= 6 {
            Operand::Register((input - 4) as u64)
        } else if input == 7 {
            Operand::Reserved
        } else {
            Operand::Invalid
        }
    }

    pub fn combo(input: u64) -> (r: Operand)
        ensures
            r == Operand::spec_combo(input),
    {
        if input <= 3 {
            Operand::Literal(input)
        } else if input <= 6 {
            Operand::Register(input - 4)
        } else if input == 7 {
            Operand::Reserved
        } else {
            Operand::Invalid
        }
    }
}

/// The three-register machine: a program of three-bit values, an output
/// tape, an instruction pointer and the registers.
#[derive(Debug, Clone)]
pub struct Computer {
    pub program: Vec<u64>,
    pub output: Vec<u64>,
    pub i: usize,
    pub registers: [u64; 3],
}

/// Two to the power `e`, saturating to zero quotient use beyond the `u64`
/// width.
pub open spec fn shifted_down(a: u64, e: u64) -> u64 {
    if e < 64 {
        (a as int / vstd::arithmetic::power2::pow2(e as nat) as int) as u64
    } else {
        0
    }
}

/// `a` divided by two to the `e`, where `e` has already been reduced to its
/// low thirty-two bits as the machine does.
fn divide_pow2(a: u64, e: u64) -> (r: u64)
    ensures
        r == shifted_down(a, e),
{
    if e >= 64 {
        proof {
            vstd::arithmetic::power2::lemma2_to64();
            vstd::arithmetic::power2::lemma2_to64_rest();
        }
        return 0;
    }
    let mut den: u64 = 1;
    let mut k: u64 = 0;
    proof {
        vstd::arithmetic::power2::lemma2_to64();
            vstd::arithmetic::power2::lemma2_to64_rest();
    }
    while k < e
        invariant
            0 <= k <= e < 64,
            den == vstd::arithmetic::power2::pow2(k as nat),
        decreases e - k,
    {
        proof {
            vstd::arithmetic::power2::lemma2_to64();
            vstd::arithmetic::power2::lemma2_to64_rest();
            if (k as nat) < 63 {
                vstd::arithmetic::power2::lemma_pow2_strictly_increases(k as nat, 63);
            }
            assert(den < 0x8000_0000_0000_0000);
            assert(vstd::arithmetic::power2::pow2((k + 1) as nat) == 2 * vstd::arithmetic::power2::pow2(
                k as nat,
            )) by {
                vstd::arithmetic::power2::lemma_pow2_unfold((k + 1) as nat);
            }
        }
        den = den * 2;
        k = k + 1;
    }
    proof {
        vstd::arithmetic::power2::lemma_pow2_pos(e as nat);
    }
    a / den
}

/// The mathematical state of the machine: program, output tape,
/// instruction pointer and registers.
pub open spec fn view_of(c: Computer) -> (Seq<u64>, Seq<u64>, int, Seq<u64>) {
    (c.program@, c.output@, c.i as int, c.registers@)
}

/// Whether the machine can take one more step: the instruction pointer
/// names an opcode with its operand inside the program, and a combo operand
/// is not reserved or out of range.
pub open spec fn can_step(s: (Seq<u64>, Seq<u64>, int, Seq<u64>)) -> bool {
    let p = s.0;
    let i = s.2;
    &&& 0 <= i
    &&& i + 1 < p.len()
    &&& p[i] <= 7
    &&& ((p[i] == 0 || p[i] == 2 || p[i] == 5 || p[i] == 6 || p[i] == 7) ==> p[i + 1] <= 6)
}

/// The value a combo operand byte denotes given the registers.
pub open spec fn combo_value(regs: Seq<u64>, operand: u64) -> u64 {
    if operand <= 3 {
        operand
    } else {
        regs[operand - 4]
    }
}

/// The machine state after one step.
pub open spec fn spec_step(s: (Seq<u64>, Seq<u64>, int, Seq<u64>)) -> (
    Seq<u64>,
    Seq<u64>,
    int,
    Seq<u64>,
) {
    let (p, out, i, regs) = s;
    let op = p[i];
    let arg = p[i + 1];
    if op == 0 {
        // adv: A divided by two to the combo operand
        let e = (combo_value(regs, arg) % 0x1_0000_0000) as u64;
        (p, out, i + 2, regs.update(0, shifted_down(regs[0], e)))
    } else if op == 1 {
        // bxl: B xor literal
        (p, out, i + 2, regs.update(1, regs[1] ^ arg))
    } else if op == 2 {
        // bst: B takes the combo operand modulo eight
        (p, out, i + 2, regs.update(1, (combo_value(regs, arg) % 8) as u64))
    } else if op == 3 {
        // jnz: jump to the literal operand unless A is zero
        if regs[0] != 0 {
            (p, out, (arg as usize) as int, regs)
        } else {
            (p, out, i + 2, regs)
        }
    } else if op == 4 {
        // bxc: B xor C
        (p, out, i + 2, regs.update(1, regs[1] ^ regs[2]))
    } else if op == 5 {
        // out: emit the combo operand modulo eight
        (p, out.push((combo_value(regs, arg) % 8) as u64), i + 2, regs)
    } else if op == 6 {
        // bdv: like adv, stored in B
        let e = (combo_value(regs, arg) % 0x1_0000_0000) as u64;
        (p, out, i + 2, regs.update(1, shifted_down(regs[0], e)))
    } else {
        // cdv: like adv, stored in C
        let e = (combo_value(regs, arg) % 0x1_0000_0000) as u64;
        (p, out, i + 2, regs.update(2, shifted_down(regs[0], e)))
    }
}

/// The state after running until the machine halts or `fuel` steps have
/// passed.
pub open spec fn spec_run(s: (Seq<u64>, Seq<u64>, int, Seq<u64>), fuel: nat) -> (
    Seq<u64>,
    Seq<u64>,
    int,
    Seq<u64>,
)
    decreases fuel,
{
    if fuel == 0 || !can_step(s) {
        s
    } else {
        spec_run(spec_step(s), (fuel - 1) as nat)
    }
}

impl Computer {
    pub fn new(program: Vec<u64>, registers: [u64; 3]) -> (r: Computer)
        ensures
            r.program == program,
            r.output@.len() == 0,
            r.i == 0,
            r.registers == registers,
    {
        Computer { program, output: Vec::new(), i: 0, registers }
    }

    /// Take one step.  The machine refuses the step and reports a halt when
    /// the instruction pointer or the instruction is not usable.
    pub fn execute(&mut self) -> (r: bool)
        ensures
            r == can_step(view_of(*old(self))),
            r ==> view_of(*final(self)) == spec_step(view_of(*old(self))),
            !r ==> *final(self) == *old(self),
    {
        if self.i >= self.program.len() || self.i + 1 >= self.program.len() {
            return false;
        }
        let op = self.program[self.i];
        if op > 7 {
            return false;
        }
        let arg = self.program[self.i + 1];
        let uses_combo = op == 0 || op == 2 || op == 5 || op == 6 || op == 7;
        if uses_combo && arg > 6 {
            return false;
        }
        let ghost pre = *self;
        if op == 0 {
            let v = self.combo_val(arg);
            let e = v % 0x1_0000_0000;
            let a = self.registers[REG_A];
            self.registers[REG_A] = divide_pow2(a, e);
            self.i = self.i + 2;
            proof {
                assert(final(self).registers@ =~= pre.registers@.update(
                    0,
                    shifted_down(pre.registers@[0], e),
                ));
            }
        } else if op == 1 {
            self.registers[REG_B] = self.registers[REG_B] ^ arg;
            self.i = self.i + 2;
            proof {
                assert(final(self).registers@ =~= pre.registers@.update(
                    1,
                    pre.registers@[1] ^ arg,
                ));
            }
        } else if op == 2 {
            let v = self.combo_val(arg);
            self.registers[REG_B] = v % 8;
            self.i = self.i + 2;
            proof {
                assert(final(self).registers@ =~= pre.registers@.update(
                    1,
                    (combo_value(pre.registers@, arg) % 8) as u64,
                ));
            }
        } else if op == 3 {
            if self.registers[REG_A] != 0 {
                self.i = arg as usize;
            } else {
                self.i = self.i + 2;
            }
        } else if op == 4 {
            self.registers[REG_B] = self.registers[REG_B] ^ self.registers[REG_C];
            self.i = self.i + 2;
            proof {
                assert(final(self).registers@ =~= pre.registers@.update(
                    1,
                    pre.registers@[1] ^ pre.registers@[2],
                ));
            }
        } else if op == 5 {
            let v = self.combo_val(arg);
            self.output.push(v % 8);
            self.i = self.i + 2;
        } else if op == 6 {
            let v = self.combo_val(arg);
            let e = v % 0x1_0000_0000;
            let a = self.registers[REG_A];
            self.registers[REG_B] = divide_pow2(a, e);
            self.i = self.i + 2;
            proof {
                assert(final(self).registers@ =~= pre.registers@.update(
                    1,
                    shifted_down(pre.registers@[0], e),
                ));
            }
        } else {
            let v = self.combo_val(arg);
            let e = v % 0x1_0000_0000;
            let a = self.registers[REG_A];
            self.registers[REG_C] = divide_pow2(a, e);
            self.i = self.i + 2;
            proof {
                assert(final(self).registers@ =~= pre.registers@.update(
                    2,
                    shifted_down(pre.registers@[0], e),
                ));
            }
        }
        true
    }

    /// The value of a combo operand byte in the current state.
    fn combo_val(&self, arg: u64) -> (r: u64)
        requires
            arg <= 6,
        ensures
            r == combo_value(self.registers@, arg),
    {
        if arg <= 3 {
            arg
        } else {
            self.registers[(arg - 4) as usize]
        }
    }

    /// Run until the machine halts, or at most the step budget of the
    /// library.
    pub fn execute_to_end(&mut self)
        ensures
            view_of(*final(self)) == spec_run(view_of(*old(self)), STEP_LIMIT as nat),
    {
        let mut steps: u64 = 0;
        let mut running = true;
        while running && steps < STEP_LIMIT
            invariant
                0 <= steps <= STEP_LIMIT,
                running ==> spec_run(view_of(*old(self)), STEP_LIMIT as nat) == spec_run(
                    view_of(*self),
                    (STEP_LIMIT - steps) as nat,
                ),
                !running ==> view_of(*self) == spec_run(view_of(*old(self)), STEP_LIMIT as nat),
            decreases STEP_LIMIT - steps, if running {
                1int
            } else {
                0int
            },
        {
            let ghost pre = *self;
            running = self.execute();
            proof {
                if !running {
                    assert(spec_run(view_of(pre), (STEP_LIMIT - steps) as nat) == view_of(pre));
                } else {
                    assert(spec_run(view_of(pre), (STEP_LIMIT - steps) as nat) == spec_run(
                        spec_step(view_of(pre)),
                        (STEP_LIMIT - steps - 1) as nat,
                    ));
                }
            }
            steps = steps + 1;
            if steps >= STEP_LIMIT && running {
                proof {
                    assert(spec_run(view_of(*self), 0) == view_of(*self));
                }
                return ;
            }
        }
    }

    /// Put the machine back at the start with fresh registers and an empty
    /// tape.
    pub fn reset(&mut self, registers: [u64; 3])
        ensures
            final(self).program == old(self).program,
            final(self).registers == registers,
            final(self).i == 0,
            final(self).output@.len() == 0,
    {
        self.registers = registers;
        self.i = 0;
        self.output = Vec::new();
    }
}


/// The program bytes a description line denotes: the label is dropped, the
/// line splits at commas, and each piece contributes the value of its first
/// byte when that is a digit.
pub open spec fn spec_program_of(line: Seq<u8>) -> Seq<u64>
    decreases line.len(),
    via spec_program_of_decreases
{
    if line.len() == 0 {
        seq![]
    } else {
        let l = crate::piece_len(line, 44);
        let head: Seq<u64> = if l > 0 && crate::is_digit(line[0]) {
            seq![(line[0] - 48) as u64]
        } else {
            seq![]
        };
        if l < line.len() {
            head + spec_program_of(line.skip(l + 1))
        } else {
            head
        }
    }
}

#[via_fn]
proof fn spec_program_of_decreases(line: Seq<u8>) {
    if line.len() != 0 {
        crate::lemma_piece_len_bounds(line, 44);
    }
}

/// The line with one leading program label removed.
pub open spec fn strip_label(line: Seq<u8>) -> Seq<u8> {
    let label = seq![80u8, 114u8, 111u8, 103u8, 114u8, 97u8, 109u8, 58u8, 32u8];
    if line.len() >= 9 && line.take(9) == label {
        line.skip(9)
    } else {
        line
    }
}

/// The first number of a line read over blanked punctuation, or zero when
/// the line carries none.
pub open spec fn first_number_of(line: Seq<u8>) -> u64 {
    let nums = crate::numbers_in(crate::numericish_of(line));
    if nums.len() >= 1 && 0 <= nums[0] {
        nums[0] as u64
    } else {
        0
    }
}

/// The machine state a full puzzle description denotes: three register
/// lines, then the program line as the fifth.
pub open spec fn initial_state(input: Seq<u8>) -> (Seq<u64>, Seq<u64>, int, Seq<u64>) {
    let lines = crate::challenges::day13::byte_lines(input);
    if lines.len() >= 5 {
        (
            spec_program_of(strip_label(lines[4])),
            Seq::<u64>::empty(),
            0int,
            seq![
                first_number_of(lines[0]),
                first_number_of(lines[1]),
                first_number_of(lines[2]),
            ],
        )
    } else {
        (Seq::<u64>::empty(), Seq::<u64>::empty(), 0int, seq![0u64, 0u64, 0u64])
    }
}

impl Computer {
    /// Read a machine description: the first three lines carry the
    /// registers and the fifth the program.
    pub fn parse(input: &str) -> (r: Computer)
        ensures
            ({
                let lines = crate::challenges::day13::byte_lines(input.spec_bytes());
                lines.len() >= 5 ==> {
                    &&& r.program@ == spec_program_of(strip_label(lines[4]))
                    &&& r.registers@ =~= seq![
                        first_number_of(lines[0]),
                        first_number_of(lines[1]),
                        first_number_of(lines[2]),
                    ]
                    &&& r.i == 0
                    &&& r.output@.len() == 0
                }
            }),
            ({
                let lines = crate::challenges::day13::byte_lines(input.spec_bytes());
                lines.len() < 5 ==> r.program@.len() == 0 && r.i == 0 && r.output@.len() == 0
                    && r.registers@ =~= seq![0u64, 0u64, 0u64]
            }),
    {
        let ghost all_lines = crate::challenges::day13::byte_lines(input.spec_bytes());
        let bytes = input.as_bytes();
        let lines = crate::challenges::day13::split_lines(bytes);
        if lines.len() < 5 {
            return Computer::new(Vec::new(), [0, 0, 0]);
        }
        let ra = first_number(bytes, lines[0].0, lines[0].1);
        let rb = first_number(bytes, lines[1].0, lines[1].1);
        let rc = first_number(bytes, lines[2].0, lines[2].1);
        let (p4a, p4b) = lines[4];
        let program = parse_program(bytes, p4a, p4b);
        Computer::new(program, [ra, rb, rc])
    }
}

/// The first number of one line, or zero.
fn first_number(bytes: &[u8], a: usize, b: usize) -> (r: u64)
    requires
        a <= b <= bytes@.len(),
    ensures
        r == first_number_of(bytes@.subrange(a as int, b as int)),
{
    let ghost line = bytes@.subrange(a as int, b as int);
    let mut cleaned: Vec<u8> = Vec::new();
    let mut i: usize = a;
    while i < b
        invariant
            a <= i <= b <= bytes@.len(),
            line == bytes@.subrange(a as int, b as int),
            cleaned@ =~= line.take(i - a).map_values(|x: u8| crate::keep_numericish(x)),
        decreases b - i,
    {
        let c = bytes[i];
        if (48 <= c && c <= 57) || c == 45 {
            cleaned.push(c);
        } else {
            cleaned.push(32);
        }
        proof {
            assert(line[i - a] == bytes@[i as int]);
            assert(cleaned@ =~= line.take(i + 1 - a).map_values(
                |x: u8| crate::keep_numericish(x),
            ));
        }
        i = i + 1;
    }
    proof {
        assert(line.take(b - a) =~= line);
        assert(cleaned@ =~= crate::numericish_of(line));
    }
    let nums = crate::numbers_of_bytes(cleaned.as_slice());
    if nums.len() >= 1 && nums[0] >= 0 {
        nums[0] as u64
    } else {
        0
    }
}

/// The program encoded on the program line.
fn parse_program(bytes: &[u8], a: usize, b: usize) -> (r: Vec<u64>)
    requires
        a <= b <= bytes@.len(),
    ensures
        r@ == spec_program_of(strip_label(bytes@.subrange(a as int, b as int))),
{
    let ghost raw = bytes@.subrange(a as int, b as int);
    let label: [u8; 9] = [80, 114, 111, 103, 114, 97, 109, 58, 32];
    let mut start = a;
    if b - a >= 9 {
        let mut matches = true;
        let mut k: usize = 0;
        while k < 9
            invariant
                0 <= k <= 9,
                a + 9 <= b <= bytes@.len(),
                raw == bytes@.subrange(a as int, b as int),
                label@ =~= seq![80u8, 114u8, 111u8, 103u8, 114u8, 97u8, 109u8, 58u8, 32u8],
                matches == (forall|t: int| 0 <= t < k ==> raw[t] == label@[t]),
            decreases 9 - k,
        {
            proof {
                assert(raw[k as int] == bytes@[a + k]);
            }
            if bytes[a + k] != label[k] {
                matches = false;
            }
            k = k + 1;
        }
        if matches {
            start = a + 9;
            proof {
                assert(raw.take(9) =~= seq![
                    80u8,
                    114u8,
                    111u8,
                    103u8,
                    114u8,
                    97u8,
                    109u8,
                    58u8,
                    32u8,
                ]);
                assert(strip_label(raw) =~= bytes@.subrange(a + 9, b as int));
            }
        } else {
            proof {
                let t = choose|t: int| 0 <= t < 9 && raw[t] != label@[t];
                assert(raw.take(9)[t] == raw[t]);
                assert(strip_label(raw) == raw);
            }
        }
    } else {
        proof {
            assert(strip_label(raw) == raw);
        }
    }
    let ghost line = strip_label(raw);
    proof {
        assert(line =~= bytes@.subrange(start as int, b as int));
    }
    let mut r: Vec<u64> = Vec::new();
    let mut i: usize = start;
    let mut done = false;
    proof {
        assert(line.skip(0) =~= line);
        if line.len() == 0 {
            assert(spec_program_of(line) =~= Seq::<u64>::empty());
        }
    }
    if i >= b {
        return r;
    }
    while !done
        invariant
            start <= i <= b <= bytes@.len(),
            line == bytes@.subrange(start as int, b as int),
            line.len() > 0,
            spec_program_of(line) =~= r@ + if done {
                seq![]
            } else {
                spec_program_of(line.skip(i - start))
            },
            done ==> i == b,
        decreases b - i + if done {
            0int
        } else {
            1int
        },
    {
        if i >= b {
            done = true;
            proof {
                assert(line.skip(i - start) =~= Seq::<u8>::empty());
                assert(spec_program_of(line.skip(i - start)) =~= Seq::<u64>::empty());
                assert(r@ + Seq::<u64>::empty() =~= r@);
            }
            continue;
        }
        let piece_start = i;
        let j = crate::scan_to_byte(bytes, i, 44);
        let j = if j > b {
            b
        } else {
            j
        };
        let ghost rest = line.skip(piece_start - start);
        let ghost oldr = r@;
        proof {
            assert(forall|t: int|
                0 <= t < rest.len() ==> #[trigger] rest[t] == bytes@[piece_start + t]);
            assert(forall|t: int| piece_start <= t < j ==> #[trigger] bytes@[t] != 44);
            crate::lemma_piece_len_at(rest, 44, j - piece_start);
            if (j as int) < b {
                assert(rest.skip(j - piece_start + 1) =~= line.skip(j + 1 - start));
            }
        }
        let c = bytes[piece_start];
        if piece_start < j && 48 <= c && c <= 57 {
            r.push((c - 48) as u64);
            proof {
                assert(rest[0] == c && crate::is_digit(rest[0]));
            }
        } else {
            proof {
                if j > piece_start {
                    assert(rest[0] == c);
                }
            }
        }
        if j < b {
            i = j + 1;
            proof {
                assert(spec_program_of(rest) =~= (if j > piece_start && crate::is_digit(c) {
                    seq![(c - 48) as u64]
                } else {
                    Seq::<u64>::empty()
                }) + spec_program_of(line.skip(i - start)));
                assert(r@ + spec_program_of(line.skip(i - start)) =~= oldr + spec_program_of(
                    rest,
                ));
            }
        } else {
            i = b;
            done = true;
            proof {
                assert(spec_program_of(rest) =~= if j > piece_start && crate::is_digit(c) {
                    seq![(c - 48) as u64]
                } else {
                    Seq::<u64>::empty()
                });
                assert(r@ =~= oldr + spec_program_of(rest));
            }
        }
    }
    r
}

/// The rendering of the output tape: one digit per value, run together.
pub open spec fn join_digits(s: Seq<u64>) -> Seq<char>
    decreases s.len(),
{
    if s.len() == 0 {
        seq![]
    } else {
        join_digits(s.drop_last()) + seq![digit_char(s.last())]
    }
}

/// The character for a single output value; values above nine render as a
/// question mark, though the machine never emits one.
pub open spec fn digit_char(v: u64) -> char {
    if v <= 9 {
        ((v + 48) as u8) as char
    } else {
        '?'
    }
}

/// Render one output value.
fn digit_str(v: u64) -> (r: &'static str)
    ensures
        r@ =~= seq![digit_char(v)],
{
    proof {
        reveal_strlit("0");
        reveal_strlit("1");
        reveal_strlit("2");
        reveal_strlit("3");
        reveal_strlit("4");
        reveal_strlit("5");
        reveal_strlit("6");
        reveal_strlit("7");
        reveal_strlit("8");
        reveal_strlit("9");
        reveal_strlit("?");
    }
    if v == 0 {
        "0"
    } else if v == 1 {
        "1"
    } else if v == 2 {
        "2"
    } else if v == 3 {
        "3"
    } else if v == 4 {
        "4"
    } else if v == 5 {
        "5"
    } else if v == 6 {
        "6"
    } else if v == 7 {
        "7"
    } else if v == 8 {
        "8"
    } else if v == 9 {
        "9"
    } else {
        "?"
    }
}

/// Run the parsed machine to completion and render its output tape.
pub fn part1(input: &str) -> (r: String)
    ensures
        r@ == join_digits(spec_run(initial_state(input.spec_bytes()), STEP_LIMIT as nat).1),
{
    let mut computer = Computer::parse(input);
    proof {
        let s0 = initial_state(input.spec_bytes());
        assert(view_of(computer).0 =~= s0.0);
        assert(view_of(computer).1 =~= s0.1);
        assert(view_of(computer).3 =~= s0.3);
        assert(view_of(computer) == s0);
    }
    computer.execute_to_end();
    let mut out = String::new();
    let mut j: usize = 0;
    let ghost outputs = computer.output@;
    proof {
        assert(join_digits(outputs.take(0)) =~= Seq::<char>::empty());
    }
    while j < computer.output.len()
        invariant
            outputs == computer.output@,
            0 <= j <= outputs.len(),
            out@ =~= join_digits(outputs.take(j as int)),
        decreases outputs.len() - j,
    {
        proof {
            assert(outputs.take(j + 1).drop_last() =~= outputs.take(j as int));
            assert(outputs.take(j + 1).last() == outputs[j as int]);
        }
        let d = digit_str(computer.output[j]);
        out.append(d);
        proof {
            assert(out@ =~= join_digits(outputs.take(j + 1)));
        }
        j = j + 1;
    }
    proof {
        assert(outputs.take(outputs.len() as int) =~= outputs);
    }
    out
}


} // verus!
