//! A processor with one register, and the picture that its register
//! draws on a screen.

use crate::text::{chars_of, is_text, parse_i32, signed_literal, split_whitespace, texts, words_of};
use vstd::prelude::*;

verus! {

/// What the processor can be told to do.
#[derive(Clone, Copy, Debug, PartialEq, Eq, Structural)]
pub enum Instruction {
    /// Takes one cycle and changes nothing.
    Noop,
    /// Takes two cycles and then adds its argument to the register.
    Addx(i32),
}

/// A number that fits in an `i32`, read from a decimal literal.
pub open spec fn argument_of(word: Seq<char>) -> Option<i32> {
    match signed_literal(word) {
        Some(n) => if i32::MIN <= n <= i32::MAX {
            Some(n as i32)
        } else {
            None
        },
        None => None,
    }
}

/// The instruction that a line holds: one or two words, of which the first
/// is `noop`, or `addx` with a number after it.
pub open spec fn instruction_of(line: Seq<char>) -> Option<Instruction> {
    let parts = words_of(line);
    if parts.len() != 1 && parts.len() != 2 {
        None
    } else if parts[0] == "noop"@ {
        Some(Instruction::Noop)
    } else if parts[0] == "addx"@ && parts.len() == 2 {
        match argument_of(parts[1]) {
            Some(n) => Some(Instruction::Addx(n)),
            None => None,
        }
    } else {
        None
    }
}

/// Reads the instruction that a line holds.
pub fn parse_instruction(line: &str) -> (r: Option<Instruction>)
    ensures
        r == instruction_of(line@),
{
    let chars = chars_of(line);
    let parts = split_whitespace(&chars);
    if parts.len() != 1 && parts.len() != 2 {
        return None;
    }
    proof {
        assert(texts(parts@)[0] == parts@[0]@);
        if parts.len() == 2 {
            assert(texts(parts@)[1] == parts@[1]@);
        }
    }
    if is_text(&parts[0], "noop") {
        Some(Instruction::Noop)
    } else if is_text(&parts[0], "addx") && parts.len() == 2 {
        match parse_i32(&parts[1]) {
            Some(n) => Some(Instruction::Addx(n)),
            None => None,
        }
    } else {
        None
    }
}

/// The processor: its register, and what the register held during each
/// cycle that has passed.
pub struct Run {
    pub x: i32,
    pub during: Seq<i32>,
}

/// The run after one more instruction; `None` if the register would leave
/// the range of an `i32`.
pub open spec fn executed(run: Run, instruction: Instruction) -> Option<Run> {
    match instruction {
        Instruction::Noop => Some(Run { x: run.x, during: run.during.push(run.x) }),
        Instruction::Addx(n) => if i32::MIN <= run.x + n <= i32::MAX {
            Some(Run { x: (run.x + n) as i32, during: run.during.push(run.x).push(run.x) })
        } else {
            None
        },
    }
}

/// The run after the first `k` lines of a program that starts with 1 in
/// the register; empty lines are passed over. `None` if a line holds no
/// instruction or the register would leave the range of an `i32`.
pub open spec fn run_after(lines: Seq<String>, k: int) -> Option<Run>
    decreases k,
{
    if k <= 0 {
        Some(Run { x: 1, during: Seq::empty() })
    } else {
        match run_after(lines, k - 1) {
            Some(run) => if lines[k - 1]@.len() == 0 {
                Some(run)
            } else {
                match instruction_of(lines[k - 1]@) {
                    Some(instruction) => executed(run, instruction),
                    None => None,
                }
            },
            None => None,
        }
    }
}

proof fn lemma_run_fails(lines: Seq<String>, k: int, n: int)
    requires
        0 <= k <= n,
        run_after(lines, k) is None,
    ensures
        run_after(lines, n) is None,
    decreases n - k,
{
    if k < n {
        lemma_run_fails(lines, k, n - 1);
    }
}

/// Runs the program and lists, cycle by cycle, what the register holds
/// during the cycle. `None` if a line that is not empty holds no
/// instruction or the register would leave the range of an `i32`.
pub fn foreach_cycle(lines: &Vec<String>) -> (r: Option<Vec<i32>>)
    ensures
        match r {
            Some(during) => run_after(lines@, lines.len() as int) matches Some(run) && run.during == during@,
            None => run_after(lines@, lines.len() as int) is None,
        },
{
    let mut during: Vec<i32> = Vec::new();
    let mut x: i32 = 1;
    let mut k: usize = 0;
    while k < lines.len()
        invariant
            k <= lines.len(),
            run_after(lines@, k as int) == Some(Run { x, during: during@ }),
        decreases lines.len() - k,
    {
        let line = lines[k].as_str();
        if chars_of(line).len() > 0 {
            let prev_x = x;
            match parse_instruction(line) {
                Some(Instruction::Noop) => {
                    during.push(prev_x);
                },
                Some(Instruction::Addx(val)) => {
                    match x.checked_add(val) {
                        Some(sum) => {
                            x = sum;
                        },
                        None => {
                            proof {
                                lemma_run_fails(lines@, k as int + 1, lines.len() as int);
                            }
                            return None;
                        },
                    }
                    during.push(prev_x);
                    during.push(prev_x);
                },
                None => {
                    proof {
                        lemma_run_fails(lines@, k as int + 1, lines.len() as int);
                    }
                    return None;
                },
            }
        }
        k += 1;
    }
    Some(during)
}

/// The signal strength of cycle `c`, counted from zero: the number of the
/// cycle, counted from one, times what the register holds during it.
pub open spec fn strength(during: Seq<i32>, c: int) -> int {
    if 0 <= c < during.len() {
        during[c] * (c + 1)
    } else {
        0
    }
}

/// The signal strengths of the cycles 20, 60, 100, 140, 180 and 220,
/// added up, as far as the program got.
pub open spec fn strengths(during: Seq<i32>) -> int {
    strength(during, 19) + strength(during, 59) + strength(during, 99) + strength(during, 139) + strength(
        during,
        179,
    ) + strength(during, 219)
}

fn strength_of(during: &Vec<i32>, c: usize) -> (r: i64)
    requires
        c < 1000,
    ensures
        r == strength(during@, c as int),
{
    if c < during.len() {
        let x = during[c] as i64;
        let n = (c + 1) as i64;
        assert(-0x8000_0000 * 1000 <= x * n <= 0x8000_0000 * 1000) by (nonlinear_arith)
            requires
                -0x8000_0000 <= x <= 0x8000_0000,
                1 <= n <= 1000,
        ;
        x * n
    } else {
        0
    }
}

/// Adds up the signal strengths of the cycles 20, 60, 100, 140, 180 and
/// 220. `None` if the sum leaves the range of an `i32`.
pub fn sum_signal_strengths(during: &Vec<i32>) -> (r: Option<i32>)
    ensures
        r == if i32::MIN <= strengths(during@) <= i32::MAX {
            Some(strengths(during@) as i32)
        } else {
            None
        },
{
    let sum = strength_of(during, 19) + strength_of(during, 59) + strength_of(during, 99) + strength_of(
        during,
        139,
    ) + strength_of(during, 179) + strength_of(during, 219);
    if sum >= -0x8000_0000 && sum <= 0x7fff_ffff {
        Some(sum as i32)
    } else {
        None
    }
}

/// Width of the screen.
pub const WIDTH: usize = 40;

/// Height of the screen.
pub const HEIGHT: usize = 6;

/// Whether the pixel that is drawn during cycle `c` is lit: the sprite,
/// three pixels wide around the register, covers the column of the pixel.
pub open spec fn lit(during: Seq<i32>, c: int) -> bool {
    0 <= c < during.len() && during[c] - 1 <= c % 40 <= during[c] + 1
}

/// Whether every pixel that the program lights is on the screen.
pub open spec fn on_screen(during: Seq<i32>) -> bool {
    forall|c: int| 240 <= c ==> !#[trigger] lit(during, c)
}

/// Whether `image` shows what the program draws.
pub open spec fn shows(image: Seq<Vec<bool>>, during: Seq<i32>) -> bool {
    &&& image.len() == 6
    &&& forall|row: int| 0 <= row < 6 ==> (#[trigger] image[row]).len() == 40
    &&& forall|row: int, col: int|
        0 <= row < 6 && 0 <= col < 40 ==> #[trigger] image[row][col] == lit(during, row * 40 + col)
}

/// Draws the picture: six rows of forty pixels, one pixel for each cycle,
/// row after row. `None` if the program lights a pixel below the last row.
pub fn render(during: &Vec<i32>) -> (r: Option<Vec<Vec<bool>>>)
    ensures
        match r {
            Some(image) => on_screen(during@) && shows(image@, during@),
            None => !on_screen(during@),
        },
{
    let mut image: Vec<Vec<bool>> = Vec::new();
    let mut row: usize = 0;
    while row < HEIGHT
        invariant
            row <= 6,
            image.len() == row,
            forall|r: int| 0 <= r < row ==> (#[trigger] image[r]).len() == 40,
            forall|r: int, c: int| 0 <= r < row && 0 <= c < 40 ==> #[trigger] image[r][c] == false,
        decreases 6 - row,
    {
        let mut line: Vec<bool> = Vec::new();
        let mut col: usize = 0;
        while col < WIDTH
            invariant
                col <= 40,
                line.len() == col,
                forall|c: int| 0 <= c < col ==> line[c] == false,
            decreases 40 - col,
        {
            line.push(false);
            col += 1;
        }
        image.push(line);
        row += 1;
    }
    let mut cycle: usize = 0;
    while cycle < during.len()
        invariant
            cycle <= during.len(),
            image.len() == 6,
            forall|r: int| 0 <= r < 6 ==> (#[trigger] image[r]).len() == 40,
            forall|r: int, c: int|
                0 <= r < 6 && 0 <= c < 40 ==> #[trigger] image[r][c] == (r * 40 + c < cycle && lit(
                    during@,
                    r * 40 + c,
                )),
            forall|c: int| 240 <= c < cycle ==> !#[trigger] lit(during@, c),
        decreases during.len() - cycle,
    {
        let col = cycle % WIDTH;
        let x = during[cycle] as i64;
        if x - 1 <= col as i64 && col as i64 <= x + 1 {
            let row = cycle / WIDTH;
            if row >= HEIGHT {
                assert(lit(during@, cycle as int));
                return None;
            }
            let ghost before = image@;
            image[row][col] = true;
            proof {
                assert(row * 40 + col == cycle);
                assert forall|r: int, c: int| 0 <= r < 6 && 0 <= c < 40 implies #[trigger] image[r][c] == (r * 40
                    + c < cycle + 1 && lit(during@, r * 40 + c)) by {
                    if r == row && c == col {
                    } else {
                        assert(image[r][c] == before[r][c]);
                        assert(r * 40 + c != cycle);
                    }
                }
            }
        }
        cycle += 1;
    }
    Some(image)
}

} // verus!
