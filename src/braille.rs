//! Renders a bit mask as Unicode braille: each character shows a cell two
//! bits wide and four bits high.

use vstd::prelude::*;
use vstd::string::StringExecFns;
use vstd::utf8::is_scalar;
use crate::mask::{Mask, mask_bits};

verus! {

/// Relies on `char::from_u32`: `Some` exactly for Unicode scalar values,
/// holding that code point.
#[verifier::external_body]
fn char_from_u32(code: u32) -> (r: Option<char>)
    ensures
        r is Some == is_scalar(code),
        r matches Some(c) ==> c as u32 == code,
{
    char::from_u32(code)
}

/// Relies on `String::push`: appends one character.
#[verifier::external_body]
fn push_char(s: &mut String, c: char)
    ensures
        final(s)@ == old(s)@.push(c),
{
    s.push(c)
}

/// Whether the bit at column `x`, row `y` of a mask `width` bits wide is set.
pub open spec fn dot(bits: Seq<bool>, width: int, x: int, y: int) -> bool {
    &&& 0 <= x < width
    &&& 0 <= y
    &&& y * width + x < bits.len()
    &&& bits[y * width + x]
}

/// The braille weight of the dot at column `tx`, row `ty` of a cell.
pub open spec fn weight(tx: int, ty: int) -> int {
    if ty == 3 {
        64 * (tx + 1)
    } else if tx == 0 {
        if ty == 0 {
            1
        } else if ty == 1 {
            2
        } else {
            4
        }
    } else {
        if ty == 0 {
            8
        } else if ty == 1 {
            16
        } else {
            32
        }
    }
}

pub open spec fn dot_weight(bits: Seq<bool>, width: int, ix: int, iy: int, tx: int, ty: int) -> int {
    if dot(bits, width, 2 * ix + tx, 4 * iy + ty) {
        weight(tx, ty)
    } else {
        0
    }
}

/// The sum of the weights of the set dots of cell (`ix`, `iy`).
pub open spec fn cell_code(bits: Seq<bool>, width: int, ix: int, iy: int) -> int {
    dot_weight(bits, width, ix, iy, 0, 0) + dot_weight(bits, width, ix, iy, 0, 1) + dot_weight(
        bits,
        width,
        ix,
        iy,
        0,
        2,
    ) + dot_weight(bits, width, ix, iy, 1, 0) + dot_weight(bits, width, ix, iy, 1, 1)
        + dot_weight(bits, width, ix, iy, 1, 2) + dot_weight(bits, width, ix, iy, 0, 3)
        + dot_weight(bits, width, ix, iy, 1, 3)
}

/// The code points of row `iy` of cells.
pub open spec fn row_codes(bits: Seq<bool>, width: int, iy: int) -> Seq<u32> {
    Seq::new(((width + 1) / 2) as nat, |ix: int| (0x2800 + cell_code(bits, width, ix, iy)) as u32)
}

/// The code points of the first `k` rows of cells, separated by `nl`.
pub open spec fn braille_codes(bits: Seq<bool>, width: int, nl: Seq<u32>, k: int) -> Seq<u32>
    decreases k,
{
    if k <= 0 {
        Seq::empty()
    } else if k == 1 {
        row_codes(bits, width, 0)
    } else {
        braille_codes(bits, width, nl, k - 1) + nl + row_codes(bits, width, k - 1)
    }
}

pub open spec fn codes_of(s: Seq<char>) -> Seq<u32> {
    s.map_values(|c: char| c as u32)
}

fn get_dot(bits: &Vec<bool>, width: usize, rows: usize, x: usize, y: usize) -> (r: bool)
    requires
        width * rows <= usize::MAX,
        y < rows,
    ensures
        r == dot(bits@, width as int, x as int, y as int),
{
    if x >= width {
        return false;
    }
    proof {
        assert(y * width + x < width * rows) by (nonlinear_arith)
            requires
                x < width,
                y < rows,
        ;
    }
    let i = y * width + x;
    if i >= bits.len() {
        false
    } else {
        bits[i]
    }
}

fn get_cell(bits: &Vec<bool>, width: usize, rows: usize, ix: usize, iy: usize) -> (r: u32)
    requires
        width * rows <= usize::MAX,
        4 * iy + 4 <= rows,
        ix < (width + 1) / 2,
        width < usize::MAX,
    ensures
        r == cell_code(bits@, width as int, ix as int, iy as int),
        r < 256,
{
    let x = 2 * ix;
    let y = 4 * iy;
    let mut code: u32 = 0;
    if get_dot(bits, width, rows, x, y) {
        code = code + 1;
    }
    if get_dot(bits, width, rows, x, y + 1) {
        code = code + 2;
    }
    if get_dot(bits, width, rows, x, y + 2) {
        code = code + 4;
    }
    if get_dot(bits, width, rows, x + 1, y) {
        code = code + 8;
    }
    if get_dot(bits, width, rows, x + 1, y + 1) {
        code = code + 16;
    }
    if get_dot(bits, width, rows, x + 1, y + 2) {
        code = code + 32;
    }
    if get_dot(bits, width, rows, x, y + 3) {
        code = code + 64;
    }
    if get_dot(bits, width, rows, x + 1, y + 3) {
        code = code + 128;
    }
    code
}

/// The number of bit rows that `height` rows take once rounded up to whole
/// cells.
pub open spec fn cell_rows(height: int) -> int {
    4 * ((height + 3) / 4)
}

/// Draws `bits`, read as rows of `width` bits, as braille cells: rows of
/// cells separated by `new_line`. The bits must fit the cells that `height`
/// rows take.
pub fn braille_fmt2(mask: &Mask, width: usize, height: usize, new_line: &str) -> (r: String)
    requires
        width * cell_rows(height as int) <= usize::MAX,
        width < usize::MAX,
        height + 3 <= usize::MAX,
    ensures
        codes_of(r@) == braille_codes(
            mask_bits(*mask),
            width as int,
            codes_of(new_line@),
            (height as int + 3) / 4,
        ),
{
    let bits = mask.to_bits();
    draw(&bits, width, height, new_line)
}

fn draw(bits: &Vec<bool>, width: usize, height: usize, new_line: &str) -> (r: String)
    requires
        width * cell_rows(height as int) <= usize::MAX,
        width < usize::MAX,
        height + 3 <= usize::MAX,
    ensures
        codes_of(r@) == braille_codes(
            bits@,
            width as int,
            codes_of(new_line@),
            (height as int + 3) / 4,
        ),
{
    let w = width / 2 + width % 2;
    let h = height / 4 + if height % 4 == 0 {
        0
    } else {
        1
    };
    let rows = 4 * h;
    let mut out = String::new();
    let mut iy: usize = 0;
    while iy < h
        invariant
            width * rows <= usize::MAX,
            width < usize::MAX,
            rows == 4 * h,
            w == (width + 1) / 2,
            h == (height + 3) / 4,
            iy <= h,
            codes_of(out@) == braille_codes(bits@, width as int, codes_of(new_line@), iy as int),
        decreases h - iy,
    {
        let ghost before = out@;
        if iy > 0 {
            out.append(new_line);
            assert(codes_of(out@) =~= codes_of(before) + codes_of(new_line@));
        }
        let ghost start = out@;
        let mut ix: usize = 0;
        while ix < w
            invariant
                width * rows <= usize::MAX,
                width < usize::MAX,
                rows == 4 * h,
                w == (width + 1) / 2,
                h == (height + 3) / 4,
                iy < h,
                ix <= w,
                codes_of(out@) == codes_of(start) + row_codes(bits@, width as int, iy as int).subrange(0, ix as int),
            decreases w - ix,
        {
            let code = get_cell(bits, width, rows, ix, iy);
            let c = char_from_u32(0x2800 + code).unwrap();
            let ghost o = out@;
            push_char(&mut out, c);
            assert(codes_of(out@) =~= codes_of(o).push(c as u32));
            assert(row_codes(bits@, width as int, iy as int).subrange(0, ix + 1) =~= row_codes(bits@, width as int, iy as int).subrange(0, ix as int).push((0x2800 + code) as u32));
            ix = ix + 1;
        }
        assert(row_codes(bits@, width as int, iy as int).subrange(0, ix as int) =~= row_codes(bits@, width as int, iy as int));
        iy = iy + 1;
    }
    out
}


/// Draws `bits` as a single row of braille cells, four bit rows high.
pub fn braille_fmt(mask: &Mask) -> (r: String)
    requires
        mask_bits(*mask).len() + 3 <= usize::MAX,
    ensures
        codes_of(r@) == braille_codes(
            mask_bits(*mask),
            (mask_bits(*mask).len() + 3) as int / 4,
            Seq::empty(),
            1,
        ),
{
    let bits = mask.to_bits();
    let l = bits.len();
    let width = l / 4 + if l % 4 == 0 {
        0
    } else {
        1
    };
    proof {
        assert(width * cell_rows(1) == 4 * width);
    }
    let r = draw(&bits, width, 1, "");
    proof {
        reveal_strlit("");
        assert(codes_of(""@) =~= Seq::<u32>::empty());
    }
    r
}

} // verus!
