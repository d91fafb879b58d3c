//! Cathode-ray tube: a processor of two instructions that draws on a screen
//! of forty columns.

use crate::errors::{ParseError, PuzzleError};
use crate::text::{
    bytes_of, lines, parse_i64, push_char, rows_view, signed_decimal, signed_decimal_string,
    signed_value, split_lines, split_once, split_once_byte,
};
use crate::traits::AdventOfCode;
use vstd::prelude::*;
use vstd::string::*;

verus! {

#[derive(Clone, Copy, Debug, PartialEq, Eq, Structural)]
pub enum Instruction {
    Noop,
    Addx(i64),
}

/// The word `addx`.
pub open spec fn addx_word() -> Seq<u8> {
    seq![97u8, 100, 100, 120]
}

/// The word `noop`.
pub open spec fn noop_word() -> Seq<u8> {
    seq![110u8, 111, 111, 112]
}

/// The line `i` is the first that writes no instruction.
pub open spec fn is_first_bad(ls: Seq<Seq<u8>>, i: int) -> bool {
    &&& 0 <= i < ls.len()
    &&& instruction_of(ls[i]) is None
    &&& forall|j: int| 0 <= j < i ==> instruction_of(#[trigger] ls[j]) is Some
}

/// The instruction that a line writes, if it writes one: `noop`, with or
/// without anything after a space, or `addx`, a space and a number.
pub open spec fn instruction_of(line: Seq<u8>) -> Option<Instruction> {
    let (word, value) = match split_once(line, 32) {
        Some((w, v)) => (w, v),
        None => (line, Seq::<u8>::empty()),
    };
    if word == addx_word() {
        match signed_value(value) {
            Some(v) => if i64::MIN <= v <= i64::MAX {
                Some(Instruction::Addx(v as i64))
            } else {
                None
            },
            None => None,
        }
    } else if word == noop_word() {
        Some(Instruction::Noop)
    } else {
        None
    }
}

impl Instruction {
    /// Reads an instruction from a line.
    pub fn from_bytes(s: &[u8]) -> (r: Result<Instruction, ParseError>)
        ensures
            match r {
                Ok(i) => instruction_of(s@) == Some(i),
                Err(e) => e == ParseError::Malformed && instruction_of(s@) is None,
            },
    {
        let addx: [u8; 4] = [97, 100, 100, 120];
        let noop: [u8; 4] = [110, 111, 111, 112];
        proof {
            assert(addx@ =~= addx_word());
            assert(noop@ =~= noop_word());
        }
        let (word, value) = match split_once_byte(s, 32) {
            Some((w, v)) => (w, v),
            None => (crate::text::copy_bytes(s), Vec::new()),
        };
        if crate::text::same_bytes(word.as_slice(), addx.as_slice()) {
            match parse_i64(value.as_slice()) {
                Some(v) => Ok(Instruction::Addx(v)),
                None => Err(ParseError::Malformed),
            }
        } else if crate::text::same_bytes(word.as_slice(), noop.as_slice()) {
            Ok(Instruction::Noop)
        } else {
            Err(ParseError::Malformed)
        }
    }
}

/// The screen: the rows drawn so far, and the row that is being drawn.
pub struct CRT {
    pub display: Vec<String>,
    pub line: usize,
}

/// The rows of a screen as texts.
pub open spec fn screen_view(display: Seq<String>) -> Seq<Seq<char>> {
    display.map_values(|s: String| s@)
}

/// During the cycle `clk`, counted from zero, the sprite in the middle of
/// which `reg` stands covers the column that is drawn.
pub open spec fn lit(clk: int, reg: int) -> bool {
    reg - 1 <= clk % 40 <= reg + 1
}

/// The screen after the cycle `clk`, counted from zero, has been drawn with
/// the register at `reg`: a new row starts every forty cycles.
pub open spec fn drawn(screen: Seq<Seq<char>>, clk: int, reg: int) -> Seq<Seq<char>> {
    let rows = if clk % 40 == 0 {
        screen.push(Seq::<char>::empty())
    } else {
        screen
    };
    let pixel = if lit(clk, reg) {
        '#'
    } else {
        ' '
    };
    rows.update(rows.len() - 1, rows.last().push(pixel))
}

impl CRT {
    pub fn new() -> (crt: CRT)
        ensures
            crt.display@.len() == 0,
            crt.line == 0,
    {
        CRT { display: Vec::new(), line: 0 }
    }

    /// The screen is as its own drawing leaves it: the row being drawn is the last.
    pub open spec fn wf(&self) -> bool {
        self.display.len() == 0 || self.line == self.display.len() - 1
    }

    /// Draws the pixel of the cycle `clk`, counted from zero.
    pub fn update_at(&mut self, clk: usize, reg: i64)
        requires
            old(self).wf(),
            old(self).display.len() > 0 || clk % 40 == 0,
        ensures
            final(self).wf(),
            final(self).display.len() > 0,
            screen_view(final(self).display@) == drawn(
                screen_view(old(self).display@),
                clk as int,
                reg as int,
            ),
    {
        if clk % 40 == 0 {
            self.display.push(String::new());
            self.line = self.display.len() - 1;
        }
        let ghost rows = screen_view(self.display@);
        let ghost before = self.display@;
        proof {
            assert(screen_view(old(self).display@).len() == old(self).display.len());
            if clk % 40 == 0 {
                assert(rows =~= screen_view(old(self).display@).push(Seq::<char>::empty()));
            }
        }
        let col = (clk % 40) as i128;
        let sprite = reg as i128;
        let pixel = if sprite - 1 <= col && col <= sprite + 1 {
            '#'
        } else {
            ' '
        };
        let line = self.line;
        push_char(&mut self.display[line], pixel);
        proof {
            assert(self.display@.len() == before.len());
            assert forall|i: int| 0 <= i < before.len() && i != line implies self.display@[i]
                == before[i] by {}
            assert(screen_view(self.display@) =~= rows.update(
                rows.len() - 1,
                rows.last().push(pixel),
            ));
        }
    }

    /// The rows of the screen, each ended by a line feed but for the last.
    pub fn to_string(&self) -> (s: String)
        ensures
            s@ == joined(screen_view(self.display@), self.display.len() as int),
    {
        let mut s = String::new();
        let mut i: usize = 0;
        proof {
            assert(screen_view(self.display@).len() == self.display.len());
        }
        while i < self.display.len()
            invariant
                i <= self.display.len(),
                screen_view(self.display@).len() == self.display.len(),
                s@ == joined(screen_view(self.display@), i as int),
            decreases self.display.len() - i,
        {
            if i > 0 {
                push_char(&mut s, '\n');
            }
            let row = self.display[i].as_str();
            let n = row.unicode_len();
            let ghost start = s@;
            let mut j: usize = 0;
            while j < n
                invariant
                    j <= n,
                    n == row@.len(),
                    s@ == start + row@.take(j as int),
                decreases n - j,
            {
                push_char(&mut s, row.get_char(j));
                proof {
                    assert(row@.take(j + 1) =~= row@.take(j as int).push(row@[j as int]));
                    assert(s@ =~= start + row@.take(j + 1));
                }
                j += 1;
            }
            proof {
                assert(row@.take(n as int) =~= row@);
                assert(screen_view(self.display@)[i as int] == row@);
            }
            i += 1;
        }
        s
    }
}

/// The first `n` rows, with a line feed between each two.
pub open spec fn joined(rows: Seq<Seq<char>>, n: int) -> Seq<char>
    decreases n,
{
    if n <= 0 {
        Seq::<char>::empty()
    } else if n == 1 {
        rows[0]
    } else {
        joined(rows, n - 1) + seq!['\n'] + rows[n - 1]
    }
}

/// The processor: its program, its register, the instruction that it is at,
/// and the number that an `addx` under way will add.
pub struct CPU {
    pub code: Vec<Instruction>,
    pub reg: i64,
    pub pc: usize,
    pub load: Option<i64>,
    pub crt: CRT,
}

/// The state of a run: the register, the place in the program, the number
/// being loaded, the cycles done, the sum of the signal strengths, the screen.
pub struct Run {
    pub reg: int,
    pub pc: int,
    pub load: Option<int>,
    pub clock: int,
    pub sum: int,
    pub screen: Seq<Seq<char>>,
}

/// One cycle: the pixel is drawn, the signal strength is added in the
/// cycles 20, 60, 100 and so on, and the instruction goes on.
pub open spec fn cycle(code: Seq<Instruction>, r: Run) -> Run {
    let screen = drawn(r.screen, r.clock, r.reg);
    let clock = r.clock + 1;
    let sum = if clock >= 20 && (clock - 20) % 40 == 0 {
        r.sum + clock * r.reg
    } else {
        r.sum
    };
    match (code[r.pc], r.load) {
        (Instruction::Noop, _) => Run { reg: r.reg, pc: r.pc + 1, load: r.load, clock, sum, screen },
        (Instruction::Addx(v), None) => Run {
            reg: r.reg,
            pc: r.pc,
            load: Some(v as int),
            clock,
            sum,
            screen,
        },
        (Instruction::Addx(_), Some(l)) => Run {
            reg: r.reg + l,
            pc: r.pc + 1,
            load: None,
            clock,
            sum,
            screen,
        },
    }
}

/// The cycles that are left to the end of the program.
pub open spec fn cycles_left(code: Seq<Instruction>, r: Run) -> int {
    2 * (code.len() - r.pc) + if r.load is Some {
        0int
    } else {
        1int
    }
}

/// The run to the end of the program.
pub open spec fn finish(code: Seq<Instruction>, r: Run) -> Run
    decreases cycles_left(code, r),
{
    if 0 <= r.pc < code.len() {
        finish(code, cycle(code, r))
    } else {
        r
    }
}

/// Every number of the program is small, and the program short, so that no
/// sum of them leaves 64 bits.
pub open spec fn is_small(code: Seq<Instruction>) -> bool {
    &&& code.len() <= 1_000_000
    &&& forall|i: int|
        0 <= i < code.len() ==> match #[trigger] code[i] {
            Instruction::Addx(v) => -1_000_000 <= v <= 1_000_000,
            Instruction::Noop => true,
        }
}

impl CPU {
    pub fn init() -> (cpu: CPU)
        ensures
            cpu.reg == 1,
            cpu.code@.len() == 0,
            cpu.pc == 0,
            cpu.load is None,
            cpu.crt.display@.len() == 0,
            cpu.crt.wf(),
    {
        CPU { reg: 1, code: Vec::new(), pc: 0, load: None, crt: CRT::new() }
    }

    /// The state of the run that the processor is in.
    pub open spec fn state(&self, clock: int, sum: int) -> Run {
        Run {
            reg: self.reg as int,
            pc: self.pc as int,
            load: match self.load {
                Some(l) => Some(l as int),
                None => None,
            },
            clock,
            sum,
            screen: screen_view(self.crt.display@),
        }
    }

    /// Adds the instructions that the lines of `program` write. Where a line
    /// writes none, the instructions before it have been added.
    pub fn load_program(&mut self, program: &str) -> (r: Result<(), ParseError>)
        ensures
            final(self).reg == old(self).reg,
            final(self).pc == old(self).pc,
            final(self).load == old(self).load,
            final(self).crt == old(self).crt,
            match r {
                Ok(_) => {
                    &&& forall|i: int|
                        0 <= i < lines(program.spec_bytes()).len() ==> instruction_of(
                            #[trigger] lines(program.spec_bytes())[i],
                        ) is Some
                    &&& final(self).code@ == old(self).code@ + lines(
                        program.spec_bytes(),
                    ).map_values(|l: Seq<u8>| instruction_of(l).unwrap())
                },
                Err(e) => e == ParseError::Malformed && exists|i: int|
                    #[trigger] is_first_bad(lines(program.spec_bytes()), i) && final(self).code@
                        == old(self).code@ + lines(program.spec_bytes()).take(i).map_values(
                        |l: Seq<u8>| instruction_of(l).unwrap(),
                    ),
            },
    {
        let rows = split_lines(program.as_bytes());
        let ghost ls = lines(program.spec_bytes());
        let mut i: usize = 0;
        proof {
            assert(ls.len() == rows.len());
            assert(self.code@ =~= old(self).code@ + ls.take(0).map_values(
                |l: Seq<u8>| instruction_of(l).unwrap(),
            ));
        }
        while i < rows.len()
            invariant
                i <= rows.len(),
                rows_view(rows@) == ls,
                ls.len() == rows.len(),
                ls == lines(program.spec_bytes()),
                self.reg == old(self).reg,
                self.pc == old(self).pc,
                self.load == old(self).load,
                self.crt == old(self).crt,
                forall|k: int| 0 <= k < i ==> instruction_of(#[trigger] ls[k]) is Some,
                self.code@ == old(self).code@ + ls.take(i as int).map_values(
                    |l: Seq<u8>| instruction_of(l).unwrap(),
                ),
            decreases rows.len() - i,
        {
            proof {
                assert(ls[i as int] == rows@[i as int]@);
            }
            match Instruction::from_bytes(rows[i].as_slice()) {
                Ok(ins) => {
                    self.code.push(ins);
                    proof {
                        assert(ls.take(i + 1) =~= ls.take(i as int).push(ls[i as int]));
                        assert(self.code@ =~= old(self).code@ + ls.take(i + 1).map_values(
                            |l: Seq<u8>| instruction_of(l).unwrap(),
                        ));
                    }
                },
                Err(e) => {
                    proof {
                        assert(is_first_bad(ls, i as int));
                    }
                    return Err(e);
                },
            }
            i += 1;
        }
        proof {
            assert(ls.take(rows.len() as int) =~= ls);
        }
        Ok(())
    }

    /// One cycle of the instruction that the processor is at.
    fn clock(&mut self)
        requires
            old(self).pc < old(self).code.len(),
            old(self).load is Some ==> -0x7000_0000_0000_0000 <= old(self).reg + old(self).load.unwrap() <= 0x7000_0000_0000_0000,
        ensures
            final(self).code == old(self).code,
            final(self).crt == old(self).crt,
            match (old(self).code[old(self).pc as int], old(self).load) {
                (Instruction::Noop, _) => final(self).pc == old(self).pc + 1 && final(self).reg
                    == old(self).reg && final(self).load == old(self).load,
                (Instruction::Addx(v), None) => final(self).pc == old(self).pc && final(self).reg
                    == old(self).reg && final(self).load == Some(v),
                (Instruction::Addx(_), Some(l)) => final(self).pc == old(self).pc + 1 && final(self).reg == old(self).reg + l && final(self).load is None,
            },
    {
        let ins = self.code[self.pc];
        match (ins, self.load) {
            (Instruction::Noop, _) => {
                self.pc += 1;
            },
            (Instruction::Addx(v), None) => {
                self.load = Some(v);
            },
            (Instruction::Addx(_), Some(l)) => {
                self.load = None;
                self.reg = self.reg + l;
                self.pc += 1;
            },
        }
    }

    /// The processor can run: its screen is empty, its program is small
    /// and not behind it, and its register and the number that it is
    /// loading are small.
    pub open spec fn can_run(&self) -> bool {
        &&& self.crt.display@.len() == 0
        &&& self.pc <= self.code.len()
        &&& is_small(self.code@)
        &&& -1_000_000 <= self.reg <= 1_000_000
        &&& (self.load is Some ==> -1_000_000 <= self.load.unwrap() <= 1_000_000)
    }

    /// Runs the program to its end, drawing the screen, and returns the sum
    /// of the signal strengths. Where the processor cannot run, nothing is
    /// done and the error says that the program is too large; where the
    /// sum does not fit in 64 bits, that it overflows.
    pub fn run(&mut self) -> (ret: Result<i64, PuzzleError>)
        ensures
            final(self).code == old(self).code,
            !old(self).can_run() ==> {
                &&& ret == Err::<i64, PuzzleError>(PuzzleError::TooLarge)
                &&& final(self).reg == old(self).reg
                &&& final(self).pc == old(self).pc
                &&& final(self).load == old(self).load
                &&& final(self).crt == old(self).crt
            },
            old(self).can_run() ==> {
                let end = finish(old(self).code@, old(self).state(0, 0));
                &&& final(self).state(end.clock, end.sum) == end
                &&& match ret {
                    Ok(v) => v == end.sum,
                    Err(e) => e == PuzzleError::Overflow && !(i64::MIN <= end.sum <= i64::MAX),
                }
            },
    {
        let load_small = match self.load {
            Some(l) => -1_000_000 <= l && l <= 1_000_000,
            None => true,
        };
        if self.crt.display.len() != 0 || self.pc > self.code.len() || !small_program(&self.code)
            || self.reg < -1_000_000 || self.reg > 1_000_000 || !load_small {
            return Err(PuzzleError::TooLarge);
        }
        match self.run_small() {
            Some(v) => Ok(v),
            None => Err(PuzzleError::Overflow),
        }
    }

    /// Runs a program that can run.
    fn run_small(&mut self) -> (ret: Option<i64>)
        requires
            old(self).crt.display@.len() == 0,
            old(self).pc <= old(self).code.len(),
            is_small(old(self).code@),
            -1_000_000 <= old(self).reg <= 1_000_000,
            old(self).load is Some ==> -1_000_000 <= old(self).load.unwrap() <= 1_000_000,
        ensures
            final(self).code == old(self).code,
            final(self).state(
                finish(old(self).code@, old(self).state(0, 0)).clock,
                finish(old(self).code@, old(self).state(0, 0)).sum,
            ) == finish(old(self).code@, old(self).state(0, 0)),
            match ret {
                Some(v) => v == finish(old(self).code@, old(self).state(0, 0)).sum,
                None => !(i64::MIN <= finish(old(self).code@, old(self).state(0, 0)).sum
                    <= i64::MAX),
            },
    {
        let mut clock_count: usize = 0;
        let mut ret: i128 = 0;
        let ghost code = self.code@;
        let ghost goal = finish(code, old(self).state(0, 0));
        while self.pc < self.code.len()
            invariant
                self.code@ == code,
                self.code == old(self).code,
                is_small(code),
                self.pc <= code.len(),
                self.crt.wf(),
                clock_count == 0 ==> self.crt.display@.len() == 0,
                clock_count > 0 ==> self.crt.display@.len() > 0,
                clock_count + cycles_left(code, self.state(clock_count as int, ret as int)) <= 2
                    * code.len() + 1,
                -1_000_000 - 1_000_000 * self.pc <= self.reg <= 1_000_000 + 1_000_000 * self.pc,
                self.load is Some ==> -1_000_000 <= self.load.unwrap() <= 1_000_000,
                -2_000_003_000_001_000_000 * clock_count <= ret <= 2_000_003_000_001_000_000 * clock_count,
                finish(code, self.state(clock_count as int, ret as int)) == goal,
            decreases cycles_left(code, self.state(clock_count as int, ret as int)),
        {
            let ghost before = self.state(clock_count as int, ret as int);
            self.crt.update_at(clock_count, self.reg);
            clock_count += 1;
            if clock_count >= 20 && (clock_count - 20) % 40 == 0 {
                assert(-2_000_003_000_001_000_000 <= clock_count * self.reg <= 2_000_003_000_001_000_000) by (nonlinear_arith)
                    requires
                        0 <= clock_count <= 2_000_001,
                        -1_000_001_000_000 <= self.reg <= 1_000_001_000_000,
                ;
                ret = ret + (clock_count as i128) * (self.reg as i128);
            }
            proof {
                assert(self.code[self.pc as int] == code[self.pc as int]);
                match code[self.pc as int] {
                    Instruction::Addx(v) => {
                        assert(-1_000_000 <= v <= 1_000_000);
                    },
                    Instruction::Noop => {},
                }
            }
            self.clock();
            proof {
                assert(self.state(clock_count as int, ret as int) == cycle(code, before));
            }
        }
        if ret < i64::MIN as i128 || ret > i64::MAX as i128 {
            None
        } else {
            Some(ret as i64)
        }
    }

    /// The screen as a text.
    pub fn display(&self) -> (s: String)
        ensures
            s@ == joined(screen_view(self.crt.display@), self.crt.display.len() as int),
    {
        self.crt.to_string()
    }
}

/// The program that a text writes, one instruction a line, if every line writes one.
pub open spec fn program_of(text: Seq<u8>) -> Option<Seq<Instruction>> {
    if forall|i: int| 0 <= i < lines(text).len() ==> instruction_of(#[trigger] lines(text)[i]) is Some {
        Some(lines(text).map_values(|l: Seq<u8>| instruction_of(l).unwrap()))
    } else {
        None
    }
}

/// The state in which a processor starts a program.
pub open spec fn start() -> Run {
    Run { reg: 1, pc: 0, load: None, clock: 0, sum: 0, screen: Seq::<Seq<char>>::empty() }
}

/// What a part answers to an input: the sum of the signal strengths in the
/// first part, the screen in the second, or why there is none.
pub open spec fn is_answer(input: Option<String>, part: int, r: Result<String, PuzzleError>) -> bool {
    match input {
        None => r == Err::<String, PuzzleError>(PuzzleError::MissingInput),
        Some(text) => match program_of(bytes_of(text@)) {
            None => r == Err::<String, PuzzleError>(PuzzleError::Parse(ParseError::Malformed)),
            Some(code) => if !is_small(code) {
                r == Err::<String, PuzzleError>(PuzzleError::TooLarge)
            } else {
                let end = finish(code, start());
                if part == 1 {
                    if i64::MIN <= end.sum <= i64::MAX {
                        r is Ok && r.unwrap()@ == signed_decimal(end.sum)
                    } else {
                        r == Err::<String, PuzzleError>(PuzzleError::Overflow)
                    }
                } else {
                    r is Ok && r.unwrap()@ == joined(end.screen, end.screen.len() as int)
                }
            },
        },
    }
}

fn small_program(code: &Vec<Instruction>) -> (b: bool)
    ensures
        b == is_small(code@),
{
    if code.len() > 1_000_000 {
        return false;
    }
    let mut i: usize = 0;
    while i < code.len()
        invariant
            i <= code.len(),
            forall|k: int|
                0 <= k < i ==> match #[trigger] code@[k] {
                    Instruction::Addx(v) => -1_000_000 <= v <= 1_000_000,
                    Instruction::Noop => true,
                },
        decreases code.len() - i,
    {
        match code[i] {
            Instruction::Addx(v) => {
                if v < -1_000_000 || v > 1_000_000 {
                    return false;
                }
            },
            Instruction::Noop => {},
        }
        i += 1;
    }
    true
}

fn run_part(input: Option<String>, part: u8) -> (r: Result<String, PuzzleError>)
    requires
        part == 1 || part == 2,
    ensures
        is_answer(input, part as int, r),
{
    let text = match input {
        Some(t) => t,
        None => {
            return Err(PuzzleError::MissingInput);
        },
    };
    let mut cpu = CPU::init();
    let program = text.as_str();
    proof {
        assert(bytes_of(text@) == program.spec_bytes());
    }
    match cpu.load_program(program) {
        Ok(_) => {},
        Err(e) => {
            return Err(PuzzleError::Parse(e));
        },
    }
    proof {
        let ls = lines(bytes_of(text@));
        assert(cpu.code@ =~= ls.map_values(|l: Seq<u8>| instruction_of(l).unwrap()));
        assert(cpu.state(0, 0) == start()) by {
            assert(screen_view(cpu.crt.display@) =~= Seq::<Seq<char>>::empty());
        }
    }
    if !small_program(&cpu.code) {
        return Err(PuzzleError::TooLarge);
    }
    let sum = cpu.run();
    proof {
        let end = finish(cpu.code@, start());
        assert(screen_view(cpu.crt.display@) == end.screen);
        assert(end.screen.len() == cpu.crt.display.len());
    }
    if part == 1 {
        match sum {
            Ok(v) => Ok(signed_decimal_string(v as i128)),
            Err(_) => Err(PuzzleError::Overflow),
        }
    } else {
        Ok(cpu.display())
    }
}

pub struct Day10;

impl AdventOfCode for Day10 {
    fn day(&self) -> (d: u8)
        ensures
            d == 10,
    {
        10
    }

    fn run1(&mut self, input: Option<String>) -> (r: Result<String, PuzzleError>)
        ensures
            is_answer(input, 1, r),
    {
        run_part(input, 1)
    }

    fn run2(&mut self, input: Option<String>) -> (r: Result<String, PuzzleError>)
        ensures
            is_answer(input, 2, r),
    {
        run_part(input, 2)
    }
}

} // verus!
