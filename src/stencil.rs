//! A sparse pixel buffer: a rectangle of pixels, a mask of the pixels that
//! are present, and the bytes of the present pixels in row-major order.

use vstd::prelude::*;
use crate::graph::{count_true, lemma_count_le};
use crate::mask::{Mask, mask_bits, mask_repeat, mask_len, mask_get, mask_set, max_bits};
use crate::braille::{braille_fmt2, braille_codes, codes_of, cell_rows};
use vstd::string::StringExecFns;

verus! {

/// The pixel channels of a stencil, which fix how many bytes a pixel takes.
#[derive(Clone, Copy, Debug, PartialEq, Eq, Structural)]
pub enum Channel {
    A,
    Lumaa,
    Rgb,
    Rgba,
}

impl Channel {
    pub open spec fn spec_len(&self) -> nat {
        match self {
            Channel::A => 1,
            Channel::Lumaa => 2,
            Channel::Rgb => 3,
            Channel::Rgba => 4,
        }
    }

    pub open spec fn spec_name(&self) -> Seq<char> {
        match self {
            Channel::A => "A"@,
            Channel::Lumaa => "Lumaa"@,
            Channel::Rgb => "Rgb"@,
            Channel::Rgba => "Rgba"@,
        }
    }

    /// The channel's name.
    pub fn name(&self) -> (r: &'static str)
        ensures
            r@ == self.spec_name(),
    {
        match self {
            Channel::A => "A",
            Channel::Lumaa => "Lumaa",
            Channel::Rgb => "Rgb",
            Channel::Rgba => "Rgba",
        }
    }

    /// Bytes per pixel.
    pub fn len(&self) -> (n: usize)
        ensures
            n == self.spec_len(),
    {
        match self {
            Channel::A => 1,
            Channel::Lumaa => 2,
            Channel::Rgb => 3,
            Channel::Rgba => 4,
        }
    }
}

/// A width and a height.
#[derive(Clone, Copy, Debug, PartialEq, Eq, Structural)]
pub struct Extent2 {
    pub w: u32,
    pub h: u32,
}

/// A sparse pixel buffer.
pub struct Stencil2 {
    pub size: Extent2,
    /// One bit per pixel, row-major: whether the pixel is present.
    pub mask: Mask,
    pub channels: Channel,
    /// The bytes of the present pixels, in mask order.
    pub data: Vec<u8>,
}

/// The number of present pixels among the first `n` of `s`.
pub open spec fn present_before(s: Seq<bool>, n: int) -> nat {
    count_true(s.subrange(0, n))
}

proof fn lemma_present_step(s: Seq<bool>, n: int)
    requires
        0 <= n < s.len(),
    ensures
        present_before(s, n + 1) == present_before(s, n) + if s[n] {
            1nat
        } else {
            0nat
        },
{
    assert(s.subrange(0, n + 1).drop_last() =~= s.subrange(0, n));
}

proof fn lemma_present_mono(s: Seq<bool>, a: int, b: int)
    requires
        0 <= a <= b <= s.len(),
    ensures
        present_before(s, a) <= present_before(s, b),
    decreases b - a,
{
    if a < b {
        lemma_present_step(s, b - 1);
        lemma_present_mono(s, a, b - 1);
    }
}

proof fn lemma_all_present(len: nat)
    ensures
        count_true(Seq::new(len, |i: int| true)) == len,
    decreases len,
{
    if len > 0 {
        assert(Seq::new(len, |i: int| true).drop_last() =~= Seq::new((len - 1) as nat, |i: int| true));
        lemma_all_present((len - 1) as nat);
    }
}

proof fn lemma_pixel_bounds(d: int, s: int, c: int)
    requires
        0 <= d,
        d + 1 <= c,
        0 <= s,
    ensures
        d * s + s == (d + 1) * s,
        (d + 1) * s <= c * s,
        0 <= d * s,
{
    assert(d * s + s == (d + 1) * s) by (nonlinear_arith);
    assert((d + 1) * s <= c * s) by (nonlinear_arith)
        requires
            d + 1 <= c,
            0 <= s,
    ;
    assert(0 <= d * s) by (nonlinear_arith)
        requires
            0 <= d,
            0 <= s,
    ;
}

proof fn lemma_div_mono(a: int, b: int, w: int)
    requires
        0 <= a <= b,
        w > 0,
    ensures
        a / w <= b / w,
{
    assert(a / w <= b / w) by (nonlinear_arith)
        requires
            0 <= a <= b,
            w > 0,
    ;
}

/// Whether `st` has a present pixel at column `x`, row `y`.
pub open spec fn present(st: &Stencil2, x: int, y: int) -> bool {
    &&& 0 <= x < st.size.w
    &&& 0 <= y < st.size.h
    &&& mask_bits(st.mask)[y * st.size.w + x]
}

/// The bytes of the present pixel at mask index `k` of `st`.
pub open spec fn pixel(st: &Stencil2, k: int) -> Seq<u8> {
    let s = st.channels.spec_len() as int;
    let d = present_before(mask_bits(st.mask), k) as int;
    st.data@.subrange(d * s, (d + 1) * s)
}

/// Whether position (`x`, `y`) comes before (`cx`, `cy`) in row-major order.
pub open spec fn visited(x: int, y: int, cx: int, cy: int) -> bool {
    y < cy || (y == cy && x < cx)
}

proof fn lemma_row_index(x: int, y: int, cx: int, cy: int, w: int)
    requires
        0 <= x < w,
        0 <= cx <= w,
        0 <= y,
        0 <= cy,
        visited(x, y, cx, cy),
    ensures
        y * w + x < cy * w + cx,
        0 <= y * w + x,
{
    if y < cy {
        assert(y * w + w <= cy * w) by (nonlinear_arith)
            requires
                y < cy,
                w >= 0,
        ;
    }
    assert(0 <= y * w) by (nonlinear_arith)
        requires
            0 <= y,
            0 <= w,
    ;
}

proof fn lemma_next_row(y: int, w: int)
    ensures
        y * w + w == (y + 1) * w,
{
    assert(y * w + w == (y + 1) * w) by (nonlinear_arith);
}

proof fn lemma_prefix_update(s: Seq<bool>, j: int, v: bool, k: int)
    requires
        0 <= k <= j < s.len(),
    ensures
        present_before(s.update(j, v), k) == present_before(s, k),
{
    assert(s.update(j, v).subrange(0, k) =~= s.subrange(0, k));
}

proof fn lemma_in_grid(x: int, y: int, w: int, h: int)
    requires
        0 <= x < w,
        0 <= y < h,
    ensures
        0 <= y * w + x < w * h,
        y * w + x + 1 <= (y + 1) * w,
{
    assert(0 <= y * w + x < w * h && y * w + x + 1 <= (y + 1) * w) by (nonlinear_arith)
        requires
            0 <= x < w,
            0 <= y < h,
    ;
}

/// An earlier pixel of a mask being filled keeps its bit and its bytes when
/// the mask is extended at `i` and bytes are appended.
proof fn lemma_keep_earlier(
    cm: Seq<bool>,
    cm2: Seq<bool>,
    data: Seq<u8>,
    data2: Seq<u8>,
    st: int,
    k: int,
    i: int,
)
    requires
        0 <= k < i < cm.len(),
        cm2.len() == cm.len(),
        forall|j: int| 0 <= j < i ==> cm2[j] == cm[j],
        data.len() == present_before(cm, i) * st,
        data.len() <= data2.len(),
        data2.subrange(0, data.len() as int) == data,
        st >= 0,
    ensures
        cm2[k] == cm[k],
        present_before(cm2, k) == present_before(cm, k),
        cm[k] ==> data2.subrange(present_before(cm2, k) * st, (present_before(cm2, k) + 1) * st)
            == data.subrange(present_before(cm, k) * st, (present_before(cm, k) + 1) * st),
{
    assert(cm2.subrange(0, k) =~= cm.subrange(0, k));
    if cm[k] {
        lemma_present_step(cm, k);
        lemma_present_mono(cm, k + 1, i);
        let d = present_before(cm, k) as int;
        let e = present_before(cm, i) as int;
        assert((d + 1) * st <= e * st && 0 <= d * st && d * st <= (d + 1) * st) by (nonlinear_arith)
            requires
                d + 1 <= e,
                st >= 0,
                d >= 0,
        ;
        assert(data2.subrange(d * st, (d + 1) * st) =~= data2.subrange(0, data.len() as int).subrange(
            d * st,
            (d + 1) * st,
        ));
    }
}

/// Filling position (`x`, `y`) of a layered stencil keeps every earlier
/// position right and makes this one right.
proof fn lemma_extend_row(
    a: &Stencil2,
    b: &Stencil2,
    ww: int,
    cm: Seq<bool>,
    cm2: Seq<bool>,
    d0: Seq<u8>,
    data: Seq<u8>,
    st: int,
    x: int,
    y: int,
)
    requires
        0 <= x < ww,
        0 <= y,
        y * ww + x < cm.len(),
        st >= 0,
        a.channels.spec_len() == st,
        d0.len() == present_before(cm, y * ww + x) * st,
        cm2 == if present(a, x, y) || present(b, x, y) {
            cm.update(y * ww + x, true)
        } else {
            cm
        },
        !cm[y * ww + x],
        data == if present(b, x, y) {
            d0 + pixel(b, y * b.size.w + x)
        } else if present(a, x, y) {
            d0 + pixel(a, y * a.size.w + x)
        } else {
            d0
        },
        pixel(b, y * b.size.w + x).len() == st || !present(b, x, y),
        pixel(a, y * a.size.w + x).len() == st || !present(a, x, y),
        forall|px: int, py: int|
            0 <= px < ww && 0 <= py && visited(px, py, x, y) ==> {
                &&& (#[trigger] cm[py * ww + px] == (present(a, px, py) || present(b, px, py)))
                &&& cm[py * ww + px] ==> d0.subrange(
                    present_before(cm, py * ww + px) * st,
                    (present_before(cm, py * ww + px) + 1) * st,
                ) == if present(b, px, py) {
                    pixel(b, py * b.size.w + px)
                } else {
                    pixel(a, py * a.size.w + px)
                }
            },
    ensures
        forall|px: int, py: int|
            0 <= px < ww && 0 <= py && visited(px, py, x + 1, y) ==> {
                &&& (#[trigger] cm2[py * ww + px] == (present(a, px, py) || present(b, px, py)))
                &&& cm2[py * ww + px] ==> data.subrange(
                    present_before(cm2, py * ww + px) * st,
                    (present_before(cm2, py * ww + px) + 1) * st,
                ) == if present(b, px, py) {
                    pixel(b, py * b.size.w + px)
                } else {
                    pixel(a, py * a.size.w + px)
                }
            },
{
    let i = y * ww + x;
    assert(data.subrange(0, d0.len() as int) =~= d0);
    assert forall|j: int| 0 <= j < i implies cm2[j] == cm[j] by {}
    assert(cm2.subrange(0, i) =~= cm.subrange(0, i));
    assert forall|px: int, py: int|
        0 <= px < ww && 0 <= py && visited(px, py, x + 1, y) implies {
            &&& (#[trigger] cm2[py * ww + px] == (present(a, px, py) || present(b, px, py)))
            &&& cm2[py * ww + px] ==> data.subrange(
                present_before(cm2, py * ww + px) * st,
                (present_before(cm2, py * ww + px) + 1) * st,
            ) == if present(b, px, py) {
                pixel(b, py * b.size.w + px)
            } else {
                pixel(a, py * a.size.w + px)
            }
        } by {
        let k = py * ww + px;
        if visited(px, py, x, y) {
            lemma_row_index(px, py, x, y, ww);
            lemma_keep_earlier(cm, cm2, d0, data, st, k, i);
        } else {
            assert(px == x && py == y);
            assert(present_before(cm2, i) == present_before(cm, i));
            assert(data.subrange(d0.len() as int, d0.len() + st) =~= data.subrange(
                present_before(cm2, i) * st,
                (present_before(cm2, i) + 1) * st,
            )) by (nonlinear_arith)
                requires
                    d0.len() == present_before(cm, i) * st,
                    present_before(cm2, i) == present_before(cm, i),
            ;
        }
    }
}

/// Appends bytes `lo .. hi` of `src`.
fn push_bytes(out: &mut Vec<u8>, src: &Vec<u8>, lo: usize, hi: usize)
    requires
        lo <= hi <= src@.len(),
    ensures
        final(out)@ == old(out)@ + src@.subrange(lo as int, hi as int),
{
    let mut j: usize = lo;
    while j < hi
        invariant
            lo <= j <= hi <= src@.len(),
            out@ == old(out)@ + src@.subrange(lo as int, j as int),
        decreases hi - j,
    {
        out.push(src[j]);
        assert(out@ =~= old(out)@ + src@.subrange(lo as int, j + 1));
        j = j + 1;
    }
}

impl Stencil2 {
    /// Whether the mask has one bit per pixel of the rectangle and the data
    /// one pixel per set bit.
    pub open spec fn wf(&self) -> bool {
        &&& mask_bits(self.mask).len() == self.size.w * self.size.h
        &&& self.data@.len() == count_true(mask_bits(self.mask)) * self.channels.spec_len()
    }

    /// A stencil of `size` whose pixels are all present and all zero.
    pub fn new(size: Extent2, channels: Channel) -> (r: Stencil2)
        requires
            size.w * size.h * channels.spec_len() <= usize::MAX,
            size.w * size.h <= max_bits(),
        ensures
            r.wf(),
            r.size == size,
            r.channels == channels,
            mask_bits(r.mask) == Seq::new((size.w * size.h) as nat, |i: int| true),
            r.data@ == Seq::new((size.w * size.h * channels.spec_len()) as nat, |i: int| 0u8),
    {
        proof {
            assert(size.w * size.h <= size.w * size.h * channels.spec_len()) by (nonlinear_arith)
                requires
                    channels.spec_len() >= 1,
            ;
        }
        let n = (size.w as usize) * (size.h as usize) * channels.len();
        let buffer: Vec<u8> = vec![0u8; n];
        assert(buffer@ =~= Seq::new((size.w * size.h * channels.spec_len()) as nat, |i: int| 0u8));
        Stencil2::from_buffer(size, channels, buffer.as_slice())
    }

    /// A stencil of `size` whose pixels are all present, with the bytes of
    /// `buffer`.
    pub fn from_buffer(size: Extent2, channels: Channel, buffer: &[u8]) -> (r: Stencil2)
        requires
            size.w * size.h * channels.spec_len() == buffer@.len(),
            size.w * size.h <= max_bits(),
        ensures
            r.wf(),
            r.size == size,
            r.channels == channels,
            mask_bits(r.mask) == Seq::new((size.w * size.h) as nat, |i: int| true),
            r.data@ == buffer@,
    {
        proof {
            assert(size.w * size.h <= size.w * size.h * channels.spec_len()) by (nonlinear_arith)
                requires
                    channels.spec_len() >= 1,
            ;
        }
        let len = buffer.len();
        let n = (size.w as usize) * (size.h as usize);
        let mask = mask_repeat(true, n);
        let data = vstd::slice::slice_to_vec(buffer);
        proof {
            lemma_all_present(n as nat);
        }
        Stencil2 { size, mask, channels, data }
    }

    /// Lays `other` over `self`: the result spans both rectangles, and each
    /// pixel is `other`'s where `other` has one, else `self`'s where `self`
    /// has one, else absent.
    #[verifier::rlimit(100)]
    pub fn add(self, other: Stencil2) -> (r: Stencil2)
        requires
            self.wf(),
            other.wf(),
            self.channels == other.channels,
            (if self.size.w >= other.size.w {
                self.size.w
            } else {
                other.size.w
            }) * (if self.size.h >= other.size.h {
                self.size.h
            } else {
                other.size.h
            }) * self.channels.spec_len() <= usize::MAX,
            (if self.size.w >= other.size.w {
                self.size.w
            } else {
                other.size.w
            }) * (if self.size.h >= other.size.h {
                self.size.h
            } else {
                other.size.h
            }) <= max_bits(),
        ensures
            r.wf(),
            r.channels == self.channels,
            r.size.w == if self.size.w >= other.size.w {
                self.size.w
            } else {
                other.size.w
            },
            r.size.h == if self.size.h >= other.size.h {
                self.size.h
            } else {
                other.size.h
            },
            forall|x: int, y: int|
                0 <= x < r.size.w && 0 <= y < r.size.h ==> (#[trigger] present(&r, x, y) == (
                present(&self, x, y) || present(&other, x, y))),
            forall|x: int, y: int|
                #![trigger present(&r, x, y)]
                present(&r, x, y) ==> pixel(&r, y * r.size.w + x) == if present(&other, x, y) {
                    pixel(&other, y * other.size.w + x)
                } else {
                    pixel(&self, y * self.size.w + x)
                },
    {
        let a = &self;
        let b = &other;
        let ww = if a.size.w >= b.size.w {
            a.size.w
        } else {
            b.size.w
        };
        let hh = if a.size.h >= b.size.h {
            a.size.h
        } else {
            b.size.h
        };
        let st = a.channels.len();
        let ghost amask = mask_bits(a.mask);
        let ghost bmask = mask_bits(b.mask);
        proof {
            assert((ww as int) * (hh as int) <= (ww as int) * (hh as int) * (st as int)) by (nonlinear_arith)
                requires
                    st >= 1,
            ;
            lemma_count_le(amask);
            lemma_count_le(bmask);
        }
        let n = (ww as usize) * (hh as usize);
        let alen = mask_len(&a.mask);
        let blen = mask_len(&b.mask);
        let adl = a.data.len();
        let bdl = b.data.len();
        proof {
            assert(0 * a.size.w == 0 && a.size.w * 0 == 0 && 0 * b.size.w == 0 && b.size.w * 0 == 0);
            assert(0 * ww == 0);
        }
        let mut mask = mask_repeat(false, n);
        let mut data: Vec<u8> = Vec::new();
        let mut i: usize = 0;
        let mut ia: usize = 0;
        let mut ib: usize = 0;
        let mut ca: usize = 0;
        let mut cb: usize = 0;
        let mut y: u32 = 0;
        while y < hh
            invariant
                a.wf(), b.wf(),
                amask == mask_bits(a.mask),
                bmask == mask_bits(b.mask),
                alen == amask.len(),
                blen == bmask.len(),
                adl == a.data@.len(),
                bdl == b.data@.len(),
                st == a.channels.spec_len(),
                a.channels == b.channels,
                n == ww * hh,
                mask_bits(mask).len() == n,
                y <= hh,
                ww >= a.size.w, ww >= b.size.w, hh >= a.size.h, hh >= b.size.h,
                i == y * ww,
                ia == if y < a.size.h { y * a.size.w } else { a.size.w * a.size.h },
                ib == if y < b.size.h { y * b.size.w } else { b.size.w * b.size.h },
                ca == present_before(amask, ia as int),
                cb == present_before(bmask, ib as int),
                data@.len() == present_before(mask_bits(mask), i as int) * st,
                forall|j: int| i <= j < n ==> !mask_bits(mask)[j],
                forall|px: int, py: int|
                    0 <= px < ww && 0 <= py && visited(px, py, 0, y as int) ==> {
                        &&& (#[trigger] mask_bits(mask)[py * ww + px] == (present(a, px, py) || present(b, px, py)))
                        &&& mask_bits(mask)[py * ww + px] ==> data@.subrange(
                            present_before(mask_bits(mask), py * ww + px) * st,
                            (present_before(mask_bits(mask), py * ww + px) + 1) * st,
                        ) == if present(b, px, py) {
                            pixel(b, py * b.size.w + px)
                        } else {
                            pixel(a, py * a.size.w + px)
                        }
                    },
            decreases hh - y,
        {
            let mut x: u32 = 0;
            proof {
                if y < a.size.h {
                    assert(ia == y * a.size.w + 0);
                }
            }
            while x < ww
                invariant
                    a.wf(), b.wf(),
                    amask == mask_bits(a.mask),
                    bmask == mask_bits(b.mask),
                    alen == amask.len(),
                    blen == bmask.len(),
                    adl == a.data@.len(),
                    bdl == b.data@.len(),
                    st == a.channels.spec_len(),
                    a.channels == b.channels,
                    n == ww * hh,
                    mask_bits(mask).len() == n,
                    y < hh,
                    x <= ww,
                    ww >= a.size.w, ww >= b.size.w, hh >= a.size.h, hh >= b.size.h,
                    i == y * ww + x,
                    ia == if y < a.size.h { y * a.size.w + if x < a.size.w { x as int } else { a.size.w as int } } else { a.size.w * a.size.h },
                    ib == if y < b.size.h { y * b.size.w + if x < b.size.w { x as int } else { b.size.w as int } } else { b.size.w * b.size.h },
                    ca == present_before(amask, ia as int),
                    cb == present_before(bmask, ib as int),
                    data@.len() == present_before(mask_bits(mask), i as int) * st,
                    forall|j: int| i <= j < n ==> !mask_bits(mask)[j],
                    forall|px: int, py: int|
                        0 <= px < ww && 0 <= py && visited(px, py, x as int, y as int) ==> {
                            &&& (#[trigger] mask_bits(mask)[py * ww + px] == (present(a, px, py) || present(b, px, py)))
                            &&& mask_bits(mask)[py * ww + px] ==> data@.subrange(
                                present_before(mask_bits(mask), py * ww + px) * st,
                                (present_before(mask_bits(mask), py * ww + px) + 1) * st,
                            ) == if present(b, px, py) {
                                pixel(b, py * b.size.w + px)
                            } else {
                                pixel(a, py * a.size.w + px)
                            }
                        },
                decreases ww - x,
            {
                proof {
                    lemma_in_grid(x as int, y as int, ww as int, hh as int);
                }
                let in_a = x < a.size.w && y < a.size.h;
                let in_b = x < b.size.w && y < b.size.h;
                proof {
                    if in_a {
                        lemma_in_grid(x as int, y as int, a.size.w as int, a.size.h as int);
                    }
                    if in_b {
                        lemma_in_grid(x as int, y as int, b.size.w as int, b.size.h as int);
                    }
                }
                let bit_a = if in_a { mask_get(&a.mask, ia) } else { false };
                let bit_b = if in_b { mask_get(&b.mask, ib) } else { false };
                assert(bit_a == present(a, x as int, y as int));
                assert(bit_b == present(b, x as int, y as int));
                let ghost cm = mask_bits(mask);
                let ghost d0 = data@;
                proof {
                    if bit_b {
                        lemma_present_step(bmask, ib as int);
                        lemma_present_mono(bmask, ib + 1, bmask.len() as int);
                        assert(bmask.subrange(0, bmask.len() as int) =~= bmask);
                        lemma_pixel_bounds(cb as int, st as int, count_true(bmask) as int);
                    }
                    if bit_a {
                        lemma_present_step(amask, ia as int);
                        lemma_present_mono(amask, ia + 1, amask.len() as int);
                        assert(amask.subrange(0, amask.len() as int) =~= amask);
                        lemma_pixel_bounds(ca as int, st as int, count_true(amask) as int);
                    }
                }
                if bit_b {
                    push_bytes(&mut data, &b.data, cb * st, cb * st + st);
                    mask_set(&mut mask, i, true);
                } else if bit_a {
                    push_bytes(&mut data, &a.data, ca * st, ca * st + st);
                    mask_set(&mut mask, i, true);
                }
                proof {
                    let cm2 = mask_bits(mask);
                    assert(cm2.subrange(0, i as int) =~= cm.subrange(0, i as int));
                    lemma_present_step(cm2, i as int);
                    let p = present_before(cm, i as int) as int;
                    assert((p + 1) * (st as int) == p * (st as int) + (st as int)) by (nonlinear_arith);
                    if bit_b {
                        assert(y * b.size.w + x == ib);
                        assert(pixel(b, y * b.size.w + x) == b.data@.subrange(cb * st, cb * st + st));
                    } else if bit_a {
                        assert(y * a.size.w + x == ia);
                        assert(pixel(a, y * a.size.w + x) == a.data@.subrange(ca * st, ca * st + st));
                    }
                    lemma_extend_row(a, b, ww as int, cm, cm2, d0, data@, st as int, x as int, y as int);
                }
                if in_a {
                    if bit_a {
                        ca = ca + 1;
                    }
                    ia = ia + 1;
                    proof {
                        lemma_present_step(amask, (ia - 1) as int);
                    }
                }
                if in_b {
                    if bit_b {
                        cb = cb + 1;
                    }
                    ib = ib + 1;
                    proof {
                        lemma_present_step(bmask, (ib - 1) as int);
                    }
                }
                i = i + 1;
                x = x + 1;
            }
            proof {
                lemma_next_row(y as int, ww as int);
                lemma_next_row(y as int, a.size.w as int);
                lemma_next_row(y as int, b.size.w as int);
                if y + 1 == a.size.h {
                    assert((y + 1) * a.size.w == a.size.w * a.size.h) by (nonlinear_arith)
                        requires
                            y + 1 == a.size.h,
                    ;
                }
                if y + 1 == b.size.h {
                    assert((y + 1) * b.size.w == b.size.w * b.size.h) by (nonlinear_arith)
                        requires
                            y + 1 == b.size.h,
                    ;
                }
                assert forall|px: int, py: int|
                    0 <= px < ww && 0 <= py && visited(px, py, 0, y + 1) implies visited(px, py, x as int, y as int) by {}
            }
            y = y + 1;
        }
        proof {
            assert(y * ww == ww * hh) by (nonlinear_arith)
                requires
                    y == hh,
            ;
            assert(mask_bits(mask).subrange(0, n as int) =~= mask_bits(mask));
        }
        Stencil2 { size: Extent2 { w: ww, h: hh }, mask, channels: a.channels, data }
    }

    /// A text picture of the stencil: its channels and its mask drawn in
    /// braille, continuation rows indented under the first.
    pub fn debug_string(&self) -> (r: String)
        requires
            self.wf(),
            self.size.w * cell_rows(self.size.h as int) <= usize::MAX,
            self.size.w < usize::MAX,
            self.size.h + 3 <= usize::MAX,
        ensures
            exists|b: Seq<char>|
                {
                    &&& codes_of(b) == braille_codes(
                        mask_bits(self.mask),
                        self.size.w as int,
                        codes_of("\n               "@),
                        (self.size.h as int + 3) / 4,
                    )
                    &&& r@ == "Stencil2 ("@ + self.channels.spec_name() + ", "@ + b + " )"@
                },
    {
        proof {
            assert(self.size.w * self.size.h <= self.size.w * cell_rows(self.size.h as int)) by (nonlinear_arith)
                requires
                    self.size.h <= cell_rows(self.size.h as int),
            ;
        }
        let picture = braille_fmt2(&self.mask, self.size.w as usize, self.size.h as usize, "\n               ");
        let mut out = String::from_str("Stencil2 (");
        out.append(self.channels.name());
        out.append(", ");
        out.append(picture.as_str());
        out.append(" )");
        out
    }

    /// Walks the present pixels in row-major order.
    pub fn iter(&self) -> (it: Stencil2Iterator<'_>)
        requires
            self.wf(),
        ensures
            it.wf(),
            it.bit_offset == 0,
            it.width == self.size.w,
            it.mask == &self.mask,
            it.data == &self.data,
            it.data_stride == self.channels.spec_len(),
    {
        proof {
            let w = self.size.w as int;
            let h = self.size.h as int;
            assert(mask_bits(self.mask).subrange(0, 0) =~= Seq::<bool>::empty());
            if w > 0 {
                assert((w * h) % w == 0 && (w * h) / w == h) by (nonlinear_arith)
                    requires
                        w > 0,
                        h >= 0,
                ;
            } else {
                assert(w * h == 0);
            }
        }
        Stencil2Iterator {
            bit_offset: 0,
            data_offset: 0,
            width: self.size.w,
            mask: &self.mask,
            data_stride: self.channels.len(),
            data: &self.data,
        }
    }
}

/// A walk over the present pixels of a stencil.
pub struct Stencil2Iterator<'a> {
    pub bit_offset: usize,
    pub data_offset: usize,
    pub width: u32,
    pub mask: &'a Mask,
    pub data_stride: usize,
    pub data: &'a Vec<u8>,
}

impl<'a> Stencil2Iterator<'a> {
    /// Whether the walk stands at a pixel boundary of a well-formed stencil:
    /// `data_offset` counts the present pixels before `bit_offset`.
    pub open spec fn wf(&self) -> bool {
        let bits = mask_bits(*self.mask);
        &&& self.bit_offset <= bits.len()
        &&& (bits.len() as int) % (self.width as int) == 0 || bits.len() == 0
        &&& self.width > 0 || bits.len() == 0
        &&& (bits.len() as int) / (self.width as int) <= u32::MAX || bits.len() == 0
        &&& self.data_offset == present_before(bits, self.bit_offset as int)
        &&& self.data@.len() == count_true(bits) * self.data_stride
    }

    /// The next present pixel: its column, its row and its bytes.
    pub fn next(&mut self) -> (r: Option<(u32, u32, &'a [u8])>)
        requires
            old(self).wf(),
        ensures
            final(self).wf(),
            final(self).mask == old(self).mask,
            final(self).data == old(self).data,
            match r {
                None => forall|j: int|
                    old(self).bit_offset <= j < mask_bits(*old(self).mask).len() ==> !mask_bits(
                        *old(self).mask,
                    )[j],
                Some((x, y, px)) => {
                    let j = final(self).bit_offset - 1;
                    let d = old(self).data_offset;
                    let s = old(self).data_stride;
                    &&& old(self).bit_offset <= j < mask_bits(*old(self).mask).len()
                    &&& mask_bits(*old(self).mask)[j]
                    &&& forall|k: int| old(self).bit_offset <= k < j ==> !mask_bits(*old(self).mask)[k]
                    &&& x == j % (old(self).width as int)
                    &&& y == j / (old(self).width as int)
                    &&& px@ == old(self).data@.subrange(d * s, (d + 1) * s)
                },
            },
    {
        let ghost bits = mask_bits(*self.mask);
        let len = mask_len(self.mask);
        let dlen = self.data.len();
        let ghost start = self.bit_offset;
        while self.bit_offset < len
            invariant
                self.wf(),
                bits == mask_bits(*self.mask),
                len == bits.len(),
                dlen == self.data@.len(),
                self.mask == old(self).mask,
                self.data == old(self).data,
                self.width == old(self).width,
                self.data_stride == old(self).data_stride,
                self.data_offset == old(self).data_offset,
                start == old(self).bit_offset,
                start <= self.bit_offset,
                forall|k: int| start <= k < self.bit_offset ==> !bits[k],
            decreases len - self.bit_offset,
        {
            let j = self.bit_offset;
            let bit = mask_get(self.mask, j);
            proof {
                lemma_present_step(bits, j as int);
            }
            self.bit_offset = j + 1;
            if bit {
                let w = self.width as usize;
                let d = self.data_offset;
                let s = self.data_stride;
                proof {
                    lemma_count_le(bits);
                    lemma_present_mono(bits, j + 1, bits.len() as int);
                    assert(bits.subrange(0, bits.len() as int) =~= bits);
                    lemma_pixel_bounds(d as int, s as int, count_true(bits) as int);
                    lemma_div_mono(j as int, bits.len() as int, w as int);
                }
                self.data_offset = d + 1;
                let lo = d * s;
                let hi = lo + s;
                let px = vstd::slice::slice_subrange(self.data.as_slice(), lo, hi);
                return Some(((j % w) as u32, (j / w) as u32, px));
            }
        }
        None
    }
}

} // verus!
