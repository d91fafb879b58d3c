//! Trench map: a square image that is enhanced pixel by pixel, each from
//! the nine pixels around it.

use crate::errors::{ParseError, PuzzleError};
use crate::text::{lines, nonempty_lines, nonempty_rows, rows_view};
use vstd::prelude::*;
use vstd::string::*;

verus! {

/// The image is square: as many pixels in each row as there are rows, each 0 or 1.
pub open spec fn is_image(image: Seq<Vec<u8>>) -> bool {
    forall|i: int|
        0 <= i < image.len() ==> (#[trigger] image[i]).len() == image.len() && forall|j: int|
            0 <= j < image.len() ==> #[trigger] image[i][j] <= 1
}

/// The code is complete: a pixel, 0 or 1, for each of the 512 patterns of nine pixels.
pub open spec fn is_code(code: Seq<u8>) -> bool {
    code.len() == 512 && forall|i: int| 0 <= i < 512 ==> #[trigger] code[i] <= 1
}

/// The pixel in row `x` and column `y`; outside the image, the pixel that
/// fills the plane in the step `step`.
pub open spec fn pixel(image: Seq<Vec<u8>>, x: int, y: int, step: int) -> int {
    if x < 0 || y < 0 || x >= image.len() || y >= image.len() {
        step % 2
    } else {
        image[x][y] as int
    }
}

/// The number that the nine pixels around a pixel write, row by row, the
/// first the highest bit: `k` of them are left to be read.
pub open spec fn pattern(image: Seq<Vec<u8>>, x: int, y: int, step: int, k: int) -> int
    decreases 9 - k,
{
    if k >= 9 || k < 0 {
        0
    } else {
        let rest = pattern(image, x, y, step, k + 1);
        if pixel(image, x - 1 + k / 3, y - 1 + k % 3, step) == 1 {
            rest + two_to(8 - k)
        } else {
            rest
        }
    }
}

pub open spec fn two_to(n: int) -> int
    decreases n,
{
    if n <= 0 {
        1
    } else {
        2 * two_to(n - 1)
    }
}

/// The step that fills the plane: none where the code leaves an empty plane empty.
pub open spec fn plane_step(code: Seq<u8>, step: int) -> int {
    if code[0] == 0 {
        0
    } else {
        step
    }
}

/// The pixel that the code gives for the pixels around a pixel.
pub open spec fn enhanced(image: Seq<Vec<u8>>, code: Seq<u8>, x: int, y: int, step: int) -> u8 {
    code[pattern(image, x, y, plane_step(code, step), 0)]
}

pub fn get_pixel_at(image: &Vec<Vec<u8>>, x: i64, y: i64, step: u8) -> (p: u8)
    requires
        is_image(image@),
    ensures
        p == pixel(image@, x as int, y as int, step as int),
        p <= 1,
{
    if x < 0 || y < 0 || x as u64 >= image.len() as u64 || y as u64 >= image.len() as u64 {
        step % 2
    } else {
        image[x as usize][y as usize]
    }
}

proof fn lemma_pattern_bound(image: Seq<Vec<u8>>, x: int, y: int, step: int, k: int)
    requires
        0 <= k <= 9,
    ensures
        0 <= pattern(image, x, y, step, k) < two_to(9 - k),
        two_to(9 - k) <= 512,
    decreases 9 - k,
{
    reveal_with_fuel(two_to, 10);
    if k < 9 {
        lemma_pattern_bound(image, x, y, step, k + 1);
    }
}

pub fn encode_pixel_at(image: &Vec<Vec<u8>>, code: &Vec<u8>, x: i64, y: i64, step: u8) -> (p: u8)
    requires
        is_image(image@),
        is_code(code@),
        -0x4000_0000_0000_0000 <= x <= 0x4000_0000_0000_0000,
        -0x4000_0000_0000_0000 <= y <= 0x4000_0000_0000_0000,
    ensures
        p == enhanced(image@, code@, x as int, y as int, step as int),
        p <= 1,
{
    let s = if code[0] == 0 {
        0
    } else {
        step
    };
    let mut idx: usize = 0;
    let mut k: usize = 9;
    while k > 0
        invariant
            k <= 9,
            is_image(image@),
            -0x4000_0000_0000_0000 <= x <= 0x4000_0000_0000_0000,
            -0x4000_0000_0000_0000 <= y <= 0x4000_0000_0000_0000,
            idx == pattern(image@, x as int, y as int, s as int, k as int),
        decreases k,
    {
        k -= 1;
        proof {
            lemma_pattern_bound(image@, x as int, y as int, s as int, k + 1);
            reveal_with_fuel(two_to, 10);
        }
        let a = x - 1 + (k / 3) as i64;
        let b = y - 1 + (k % 3) as i64;
        if get_pixel_at(image, a, b, s) == 1 {
            let bit: usize = if k == 8 {
                1
            } else if k == 7 {
                2
            } else if k == 6 {
                4
            } else if k == 5 {
                8
            } else if k == 4 {
                16
            } else if k == 3 {
                32
            } else if k == 2 {
                64
            } else if k == 1 {
                128
            } else {
                256
            };
            idx = idx + bit;
        }
    }
    proof {
        lemma_pattern_bound(image@, x as int, y as int, s as int, 0);
        reveal_with_fuel(two_to, 10);
    }
    code[idx]
}

/// The enhanced image: one pixel wider on each side.
pub fn encode(image: &Vec<Vec<u8>>, code: &Vec<u8>, step: u8) -> (ret: Vec<Vec<u8>>)
    requires
        is_image(image@),
        is_code(code@),
        image.len() <= 0x4000_0000,
    ensures
        is_image(ret@),
        ret.len() == image.len() + 2,
        forall|a: int, b: int|
            0 <= a < ret.len() && 0 <= b < ret.len() ==> #[trigger] ret[a][b] == enhanced(
                image@,
                code@,
                a - 1,
                b - 1,
                step as int,
            ),
{
    let n = image.len() + 2;
    let mut ret: Vec<Vec<u8>> = Vec::new();
    let mut a: usize = 0;
    while a < n
        invariant
            a <= n,
            n == image.len() + 2,
            n <= 0x4000_0002,
            is_image(image@),
            is_code(code@),
            ret.len() == a,
            forall|i: int| 0 <= i < a ==> (#[trigger] ret[i]).len() == n,
            forall|i: int, j: int|
                0 <= i < a && 0 <= j < n ==> #[trigger] ret[i][j] == enhanced(
                    image@,
                    code@,
                    i - 1,
                    j - 1,
                    step as int,
                ) && ret[i][j] <= 1,
        decreases n - a,
    {
        let mut row: Vec<u8> = Vec::new();
        let mut b: usize = 0;
        while b < n
            invariant
                b <= n,
                a < n,
                n == image.len() + 2,
                n <= 0x4000_0002,
                is_image(image@),
                is_code(code@),
                row.len() == b,
                forall|j: int|
                    0 <= j < b ==> #[trigger] row[j] == enhanced(
                        image@,
                        code@,
                        a - 1,
                        j - 1,
                        step as int,
                    ) && row[j] <= 1,
            decreases n - b,
        {
            row.push(encode_pixel_at(image, code, a as i64 - 1, b as i64 - 1, step));
            b += 1;
        }
        ret.push(row);
        a += 1;
    }
    ret
}

/// The pixels that a line writes: 0 for each dot and 1 for each hash, other characters passed over.
pub open spec fn code_of(line: Seq<u8>) -> Seq<u8>
    decreases line.len(),
{
    if line.len() == 0 {
        Seq::<u8>::empty()
    } else if line.last() == 46 {
        code_of(line.drop_last()).push(0)
    } else if line.last() == 35 {
        code_of(line.drop_last()).push(1)
    } else {
        code_of(line.drop_last())
    }
}

proof fn lemma_code_bits(line: Seq<u8>)
    ensures
        forall|i: int| 0 <= i < code_of(line).len() ==> #[trigger] code_of(line)[i] <= 1,
        code_of(line).len() <= line.len(),
    decreases line.len(),
{
    if line.len() > 0 {
        lemma_code_bits(line.drop_last());
    }
}

pub fn make_code(line: &[u8]) -> (r: Result<Vec<u8>, String>)
    ensures
        r is Ok,
        r.unwrap()@ == code_of(line@),
{
    let mut ret: Vec<u8> = Vec::new();
    let mut i: usize = 0;
    proof {
        assert(line@.take(0) =~= Seq::<u8>::empty());
    }
    while i < line.len()
        invariant
            i <= line.len(),
            ret@ == code_of(line@.take(i as int)),
        decreases line.len() - i,
    {
        proof {
            assert(line@.take(i + 1).drop_last() =~= line@.take(i as int));
        }
        if line[i] == 46 {
            ret.push(0);
        } else if line[i] == 35 {
            ret.push(1);
        }
        i += 1;
    }
    proof {
        assert(line@.take(line.len() as int) =~= line@);
    }
    Ok(ret)
}

/// The sum of the first `n` pixels of a row.
pub open spec fn row_lit(row: Seq<u8>, n: int) -> nat
    decreases n,
{
    if n <= 0 {
        0
    } else {
        row_lit(row, n - 1) + row[n - 1] as nat
    }
}

/// The sum of the pixels of the first `n` rows.
pub open spec fn lit_to(image: Seq<Seq<u8>>, n: int) -> nat
    decreases n,
{
    if n <= 0 {
        0
    } else {
        lit_to(image, n - 1) + row_lit(image[n - 1], image[n - 1].len() as int)
    }
}

/// The sum of the pixels of an image.
pub open spec fn lit(image: Seq<Seq<u8>>) -> nat {
    lit_to(image, image.len() as int)
}

proof fn lemma_lit_grows(image: Seq<Seq<u8>>, i: int, n: int)
    requires
        0 <= i <= n,
    ensures
        lit_to(image, i) <= lit_to(image, n),
    decreases n - i,
{
    if i < n {
        lemma_lit_grows(image, i, n - 1);
    }
}

proof fn lemma_row_grows(row: Seq<u8>, i: int, n: int)
    requires
        0 <= i <= n,
    ensures
        row_lit(row, i) <= row_lit(row, n),
    decreases n - i,
{
    if i < n {
        lemma_row_grows(row, i, n - 1);
    }
}

/// How many pixels of the image are lit, if the number fits in 32 bits.
pub fn lit_pixels(image: &Vec<Vec<u8>>) -> (r: Option<u32>)
    ensures
        match r {
            Some(n) => n == lit(rows_view(image@)),
            None => lit(rows_view(image@)) > u32::MAX,
        },
{
    let ghost rows = rows_view(image@);
    let mut total: u32 = 0;
    let mut i: usize = 0;
    proof {
        assert(rows.len() == image.len());
    }
    while i < image.len()
        invariant
            i <= image.len(),
            rows == rows_view(image@),
            rows.len() == image.len(),
            total == lit_to(rows, i as int),
        decreases image.len() - i,
    {
        let row = &image[i];
        let mut j: usize = 0;
        let ghost before = total;
        proof {
            assert(rows[i as int] == row@);
        }
        while j < row.len()
            invariant
                j <= row.len(),
                i < image.len(),
                rows == rows_view(image@),
                rows.len() == image.len(),
                row@ == rows[i as int],
                before == lit_to(rows, i as int),
                total == before + row_lit(row@, j as int),
            decreases row.len() - j,
        {
            match total.checked_add(row[j] as u32) {
                Some(t) => {
                    total = t;
                },
                None => {
                    proof {
                        lemma_row_grows(row@, j + 1, row@.len() as int);
                        lemma_lit_grows(rows, i + 1, rows.len() as int);
                    }
                    return None;
                },
            }
            j += 1;
        }
        i += 1;
    }
    Some(total)
}

/// The image after it has been enhanced in the steps from `from` up to `to`.
pub open spec fn after_steps(image: Seq<Seq<u8>>, code: Seq<u8>, from: int, to: int) -> Seq<Seq<u8>>
    decreases to - from,
{
    if to <= from {
        image
    } else {
        let before = after_steps(image, code, from, to - 1);
        Seq::new(
            before.len() + 2,
            |a: int|
                Seq::new(
                    before.len() + 2,
                    |b: int| code[pattern_of(before, a - 1, b - 1, plane_step(code, to - 1), 0)],
                ),
        )
    }
}

/// The number that the nine pixels around a pixel of an image write.
pub open spec fn pattern_of(image: Seq<Seq<u8>>, x: int, y: int, step: int, k: int) -> int
    decreases 9 - k,
{
    if k >= 9 || k < 0 {
        0
    } else {
        let rest = pattern_of(image, x, y, step, k + 1);
        let a = x - 1 + k / 3;
        let b = y - 1 + k % 3;
        let p = if a < 0 || b < 0 || a >= image.len() || b >= image.len() {
            step % 2
        } else {
            image[a][b] as int
        };
        if p == 1 {
            rest + two_to(8 - k)
        } else {
            rest
        }
    }
}

proof fn lemma_pattern_of(image: Seq<Vec<u8>>, x: int, y: int, step: int, k: int)
    requires
        0 <= k <= 9,
    ensures
        pattern(image, x, y, step, k) == pattern_of(rows_view(image), x, y, step, k),
    decreases 9 - k,
{
    if k < 9 {
        lemma_pattern_of(image, x, y, step, k + 1);
        let a = x - 1 + k / 3;
        let b = y - 1 + k % 3;
        assert(rows_view(image).len() == image.len());
        if 0 <= a < image.len() {
            assert(rows_view(image)[a] == image[a]@);
        }
    }
}

/// Enhances the image in the steps from `from` up to `to`.
pub fn enhance(image: Vec<Vec<u8>>, code: &Vec<u8>, from: u8, to: u8) -> (r: Vec<Vec<u8>>)
    requires
        is_image(image@),
        is_code(code@),
        image.len() <= 0x1000_0000,
        from <= to,
    ensures
        is_image(r@),
        rows_view(r@) == after_steps(rows_view(image@), code@, from as int, to as int),
        r.len() == image.len() + 2 * (to - from),
{
    let mut current = image;
    let mut step = from;
    while step < to
        invariant
            from <= step <= to,
            is_image(current@),
            is_code(code@),
            current.len() == image.len() + 2 * (step - from),
            image.len() <= 0x1000_0000,
            rows_view(current@) == after_steps(rows_view(image@), code@, from as int, step as int),
        decreases to - step,
    {
        let next = encode(&current, code, step);
        proof {
            let before = rows_view(current@);
            let want = after_steps(rows_view(image@), code@, from as int, step + 1);
            assert(before.len() == current.len());
            assert(rows_view(next@).len() == next.len());
            assert forall|a: int| 0 <= a < next.len() implies #[trigger] rows_view(next@)[a]
                == want[a] by {
                assert(rows_view(next@)[a] == next@[a]@);
                assert forall|b: int| 0 <= b < next.len() implies next@[a]@[b] == want[a][b] by {
                    assert(next[a][b] == enhanced(current@, code@, a - 1, b - 1, step as int));
                    lemma_pattern_of(current@, a - 1, b - 1, plane_step(code@, step as int), 0);
                }
                assert(next@[a]@ =~= want[a]);
            }
            assert(rows_view(next@) =~= want);
        }
        current = next;
        step += 1;
    }
    current
}

proof fn lemma_steps_join(image: Seq<Seq<u8>>, code: Seq<u8>, from: int, mid: int, to: int)
    requires
        from <= mid <= to,
    ensures
        after_steps(after_steps(image, code, from, mid), code, mid, to) == after_steps(
            image,
            code,
            from,
            to,
        ),
    decreases to - mid,
{
    if mid < to {
        lemma_steps_join(image, code, from, mid, to - 1);
    }
}

/// The rows of pixels that the lines write.
pub open spec fn rows_of(ls: Seq<Seq<u8>>) -> Seq<Seq<u8>> {
    ls.map_values(|l: Seq<u8>| code_of(l))
}

/// The rows are a square image.
pub open spec fn is_square(rows: Seq<Seq<u8>>) -> bool {
    forall|i: int| 0 <= i < rows.len() ==> (#[trigger] rows[i]).len() == rows.len()
}

/// What the enhancing of the image of a text returns: how many pixels are
/// lit after two steps and after fifty, or why there is no answer. The first
/// line that holds anything writes the code, the others the image.
pub open spec fn is_solution(input: Seq<u8>, r: Result<(u32, u32), PuzzleError>) -> bool {
    let ls = nonempty_rows(lines(input));
    if ls.len() == 0 || code_of(ls[0]).len() != 512 || !is_square(rows_of(ls.skip(1))) {
        r == Err::<(u32, u32), PuzzleError>(PuzzleError::Parse(ParseError::Malformed))
    } else if ls.len() - 1 > 0x0100_0000 {
        r == Err::<(u32, u32), PuzzleError>(PuzzleError::TooLarge)
    } else {
        let code = code_of(ls[0]);
        let image = rows_of(ls.skip(1));
        let two = lit(after_steps(image, code, 0, 2));
        let fifty = lit(after_steps(image, code, 0, 50));
        if two > u32::MAX || fifty > u32::MAX {
            r == Err::<(u32, u32), PuzzleError>(PuzzleError::Overflow)
        } else {
            r == Ok::<(u32, u32), PuzzleError>((two as u32, fifty as u32))
        }
    }
}

/// How many pixels of the image of a text are lit after two steps, and after fifty.
pub fn run(contents: &str) -> (r: Result<(u32, u32), PuzzleError>)
    ensures
        is_solution(contents.spec_bytes(), r),
{
    let rows = nonempty_lines(contents.as_bytes());
    let ghost ls = nonempty_rows(lines(contents.spec_bytes()));
    proof {
        assert(ls.len() == rows.len());
    }
    if rows.len() == 0 {
        return Err(PuzzleError::Parse(ParseError::Malformed));
    }
    proof {
        assert(ls[0] == rows@[0]@);
        lemma_code_bits(ls[0]);
    }
    let code = match make_code(rows[0].as_slice()) {
        Ok(c) => c,
        Err(_) => {
            return Err(PuzzleError::Parse(ParseError::Malformed));
        },
    };
    if code.len() != 512 {
        return Err(PuzzleError::Parse(ParseError::Malformed));
    }
    let n = rows.len() - 1;
    let ghost want = rows_of(ls.skip(1));
    let mut image: Vec<Vec<u8>> = Vec::new();
    let mut i: usize = 0;
    while i < n
        invariant
            i <= n,
            n == rows.len() - 1,
            rows_view(rows@) == ls,
            ls.len() == rows.len(),
            ls == nonempty_rows(lines(contents.spec_bytes())),
            code_of(ls[0]).len() == 512,
            want == rows_of(ls.skip(1)),
            image.len() == i,
            forall|k: int| 0 <= k < i ==> (#[trigger] image[k])@ == want[k] && want[k].len() == n,
        decreases n - i,
    {
        proof {
            assert(ls[i + 1] == rows@[i + 1]@);
            assert(want[i as int] == code_of(ls.skip(1)[i as int]));
        }
        let row = match make_code(rows[i + 1].as_slice()) {
            Ok(c) => c,
            Err(_) => {
                return Err(PuzzleError::Parse(ParseError::Malformed));
            },
        };
        if row.len() != n {
            proof {
                assert(want.len() == n);
                assert(want[i as int].len() != want.len());
            }
            return Err(PuzzleError::Parse(ParseError::Malformed));
        }
        image.push(row);
        i += 1;
    }
    proof {
        assert(want.len() == n);
        assert(rows_view(image@) =~= want);
        assert forall|a: int| 0 <= a < image.len() implies (#[trigger] image@[a]).len()
            == image.len() && forall|b: int| 0 <= b < image.len() ==> #[trigger] image@[a][b] <= 1 by {
            lemma_code_bits(ls.skip(1)[a]);
            assert(image@[a]@ == code_of(ls.skip(1)[a]));
        }
    }
    if n > 0x0100_0000 {
        return Err(PuzzleError::TooLarge);
    }
    let two = enhance(image, &code, 0, 2);
    let l2 = lit_pixels(&two);
    let fifty = enhance(two, &code, 2, 50);
    let l50 = lit_pixels(&fifty);
    proof {
        lemma_steps_join(want, code@, 0, 2, 50);
    }
    match (l2, l50) {
        (Some(a), Some(b)) => Ok((a, b)),
        _ => Err(PuzzleError::Overflow),
    }
}

} // verus!
