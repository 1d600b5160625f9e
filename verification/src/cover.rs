//! Layout of the cover art view: where the cover picture goes in the terminal
//! so that it is square on screen, and where the box with the current lyric
//! line goes under it.
use vstd::prelude::*;
use vstd::arithmetic::div_mod::{
    lemma_div_is_ordered_by_denominator, lemma_div_multiples_vanish, lemma_fundamental_div_mod,
    lemma_mod_multiples_basic,
};
use unicode_width::UnicodeWidthStr;

verus! {

/// `d` is a positive divisor of `n`.
pub open spec fn divides(d: int, n: int) -> bool {
    d > 0 && n % d == 0
}

/// Euclid's greatest common divisor; 0 only for two zeros.
pub open spec fn gcd_spec(a: nat, b: nat) -> nat
    decreases b,
{
    if b == 0 {
        a
    } else {
        gcd_spec(b, a % b)
    }
}

proof fn lemma_divides_combination(x: int, y: int, q: int, g: int)
    requires
        divides(g, x),
        divides(g, y),
    ensures
        divides(g, x - q * y),
        divides(g, x + q * y),
{
    lemma_fundamental_div_mod(x, g);
    lemma_fundamental_div_mod(y, g);
    let xq = x / g;
    let yq = y / g;
    assert(x - q * y == (xq - q * yq) * g) by (nonlinear_arith)
        requires
            x == g * xq,
            y == g * yq,
    ;
    assert(x + q * y == (xq + q * yq) * g) by (nonlinear_arith)
        requires
            x == g * xq,
            y == g * yq,
    ;
    lemma_mod_multiples_basic(xq - q * yq, g);
    lemma_mod_multiples_basic(xq + q * yq, g);
}

/// Euclid's number is the greatest common divisor: it divides both numbers,
/// and every common divisor divides it.
pub proof fn law_gcd(a: nat, b: nat)
    requires
        a > 0 || b > 0,
    ensures
        divides(gcd_spec(a, b) as int, a as int),
        divides(gcd_spec(a, b) as int, b as int),
        forall|d: int|
            #![trigger divides(d, a as int), divides(d, b as int)]
            divides(d, a as int) && divides(d, b as int) ==> divides(d, gcd_spec(a, b) as int),
    decreases b,
{
    if b == 0 {
        lemma_mod_multiples_basic(1, a as int);
        lemma_mod_multiples_basic(0, a as int);
    } else {
        let r = a % b;
        law_gcd(b, r);
        let g = gcd_spec(a, b) as int;
        lemma_fundamental_div_mod(a as int, b as int);
        let q = (a / b) as int;
        assert(a == r + q * b);
        lemma_divides_combination(r as int, b as int, q, g);
        assert forall|d: int|
            #![trigger divides(d, a as int), divides(d, b as int)]
            divides(d, a as int) && divides(d, b as int) implies divides(d, g) by {
            lemma_divides_combination(a as int, b as int, q, d);
            assert(divides(d, r as int));
        }
    }
}

/// The greatest common divisor of `a` and `b`, and 1 where that is 0.
pub fn gcd(a: u32, b: u32) -> (r: u32)
    ensures
        r == if gcd_spec(a as nat, b as nat) == 0 {
            1
        } else {
            gcd_spec(a as nat, b as nat)
        },
{
    let mut a = a;
    let mut b = b;
    let ghost g = gcd_spec(a as nat, b as nat);
    while b != 0
        invariant
            gcd_spec(a as nat, b as nat) == g,
        decreases b,
    {
        let t = b;
        b = a % b;
        a = t;
    }
    if a > 1 {
        a
    } else {
        1
    }
}

/// A rectangle of terminal cells. `x + width` and `y + height` fit in a `u16`,
/// as they do for the areas that the terminal layout hands out.
#[derive(Clone, Copy, Debug, PartialEq, Eq, Structural)]
pub struct Area {
    pub x: u16,
    pub y: u16,
    pub width: u16,
    pub height: u16,
}

impl Area {
    pub open spec fn wf(self) -> bool {
        self.x + self.width <= u16::MAX && self.y + self.height <= u16::MAX
    }
}

/// How many cell rows the cover may take: the rows that app code computed as
/// 45 % of the area's height, kept between 6 and 28.
pub open spec fn row_budget(scaled_rows: u16) -> int {
    if scaled_rows < 6 {
        6
    } else if scaled_rows > 28 {
        28
    } else {
        scaled_rows as int
    }
}

/// A cell's width and height in pixels, at least 1 each.
pub open spec fn cell_px(v: u16) -> int {
    if v == 0 {
        1
    } else {
        v as int
    }
}

/// The smallest common multiple of the cell's width and height in pixels: the
/// step in which a square side in pixels fills whole cells both ways.
pub open spec fn cell_lcm(fw: int, fh: int) -> int {
    fw / gcd_spec(fw as nat, fh as nat) as int * fh
}

/// The side in pixels of the square cover: as large as the row budget, the
/// area's width and the picture allow, rounded down to a whole number of
/// `cell_lcm` steps, and at least one step.
pub open spec fn cover_side(area: Area, font_w: u16, font_h: u16, art_w: u32, art_h: u32, scaled_rows: u16) -> int {
    let fw = cell_px(font_w);
    let fh = cell_px(font_h);
    let lcm = cell_lcm(fw, fh);
    let art_min = if art_w < art_h {
        art_w as int
    } else {
        art_h as int
    };
    let art_side = if art_min < 1 {
        1
    } else {
        art_min
    };
    let by_rows = row_budget(scaled_rows) * fh;
    let by_width = area.width * fw;
    let budget = if by_rows < by_width {
        if by_rows < art_side {
            by_rows
        } else {
            art_side
        }
    } else {
        if by_width < art_side {
            by_width
        } else {
            art_side
        }
    };
    let steps = budget / lcm * lcm;
    if steps < lcm {
        lcm
    } else {
        steps
    }
}

proof fn lemma_cell_lcm(fw: int, fh: int)
    requires
        1 <= fw <= u16::MAX,
        1 <= fh <= u16::MAX,
    ensures
        1 <= cell_lcm(fw, fh) <= fw * fh,
        cell_lcm(fw, fh) % fw == 0,
        cell_lcm(fw, fh) % fh == 0,
        cell_lcm(fw, fh) / fw <= fh,
        cell_lcm(fw, fh) / fh <= fw,
{
    law_gcd(fw as nat, fh as nat);
    let g = gcd_spec(fw as nat, fh as nat) as int;
    lemma_fundamental_div_mod(fw, g);
    lemma_fundamental_div_mod(fh, g);
    let a = fw / g;
    let b = fh / g;
    assert(fw == g * a && fh == g * b);
    assert(a >= 1 && b >= 1 && a <= fw && b <= fh) by (nonlinear_arith)
        requires
            fw == g * a,
            fh == g * b,
            g >= 1,
            fw >= 1,
            fh >= 1,
    ;
    assert(cell_lcm(fw, fh) == a * fh);
    assert(a * fh == fw * b) by (nonlinear_arith)
        requires
            fw == g * a,
            fh == g * b,
    ;
    assert(1 <= a * fh <= fw * fh) by (nonlinear_arith)
        requires
            1 <= a <= fw,
            fh >= 1,
    ;
    lemma_mod_multiples_basic(a, fh);
    lemma_mod_multiples_basic(b, fw);
    assert(b * fw == a * fh) by (nonlinear_arith)
        requires
            a * fh == fw * b,
    ;
    lemma_div_multiples_vanish(a, fh);
    lemma_div_multiples_vanish(b, fw);
    assert(fh * a == a * fh && fw * b == b * fw) by (nonlinear_arith);
}

/// Where the square cover of a picture `art_w` x `art_h` pixels goes in
/// `area`, for terminal cells of `font_w` x `font_h` pixels: centred across
/// the area and, together with the lyric box under it when there is one,
/// centred down it. `scaled_rows` is 45 % of the area's height, rounded down.
/// `None` when the area is empty or the square does not fit in it.
#[verifier::rlimit(40)]
pub fn cover_rect(
    area: Area,
    font_w: u16,
    font_h: u16,
    art_w: u32,
    art_h: u32,
    scaled_rows: u16,
    has_lyric: bool,
) -> (r: Option<Area>)
    requires
        area.wf(),
        ({
            let h = cover_side(area, font_w, font_h, art_w, art_h, scaled_rows) / cell_px(font_h);
            !(has_lyric && h <= area.height && h > u16::MAX - 4)
        }),
    ensures
        ({
            let side = cover_side(area, font_w, font_h, art_w, art_h, scaled_rows);
            let w = side / cell_px(font_w);
            let h = side / cell_px(font_h);
            let fits = area.width > 0 && area.height > 0 && w > 0 && h > 0 && w <= area.width && h
                <= area.height;
            let group = h + if has_lyric {
                4int
            } else {
                0
            };
            let spare_rows = if group < area.height {
                area.height - group
            } else {
                0
            };
            &&& r is Some <==> fits
            &&& r matches Some(c) ==> {
                &&& c.width == w && c.height == h
                &&& c.x == area.x + (area.width - w) / 2
                &&& c.y == area.y + spare_rows / 2
            }
        }),
        // The cover lies inside the area and is square in pixels.
        r matches Some(c) ==> {
            &&& area.x <= c.x && c.x + c.width <= area.x + area.width
            &&& area.y <= c.y && c.y + c.height <= area.y + area.height
            &&& c.width * cell_px(font_w) == c.height * cell_px(font_h)
        },
{
    if area.width == 0 || area.height == 0 {
        return None;
    }
    let fw: u32 = if font_w > 1 {
        font_w as u32
    } else {
        1
    };
    let fh: u32 = if font_h > 1 {
        font_h as u32
    } else {
        1
    };
    assert(fw == cell_px(font_w) && fh == cell_px(font_h));
    let g = gcd(fw, fh);
    proof {
        law_gcd(fw as nat, fh as nat);
        lemma_cell_lcm(fw as int, fh as int);
        assert(g as int == gcd_spec(fw as nat, fh as nat));
        assert(g <= fw) by {
            lemma_fundamental_div_mod(fw as int, g as int);
            assert(fw as int == g * (fw as int / g as int));
            assert(fw as int / g as int >= 1) by (nonlinear_arith)
                requires fw as int == g * (fw as int / g as int), g >= 1, fw >= 1;
            assert(g <= fw) by (nonlinear_arith)
                requires fw as int == g * (fw as int / g as int), g >= 1, fw as int / g as int >= 1;
        }
        assert(fw / g <= fw) by {
            lemma_div_is_ordered_by_denominator(fw as int, 1, g as int);
        }
        assert((fw / g) as int * fh <= fw as int * fh) by (nonlinear_arith)
            requires (fw / g) as int <= fw, fh >= 1;
        assert(fw as int * fh <= u16::MAX as int * u16::MAX) by (nonlinear_arith)
            requires 1 <= fw <= u16::MAX, 1 <= fh <= u16::MAX;
    }
    let lcm = fw / g * fh;
    assert(lcm as int == cell_lcm(fw as int, fh as int));
    let max_h: u32 = if scaled_rows < 6 {
        6
    } else if scaled_rows > 28 {
        28
    } else {
        scaled_rows as u32
    };
    let art_min = if art_w < art_h {
        art_w
    } else {
        art_h
    };
    let art_side = if art_min < 1 {
        1
    } else {
        art_min
    };
    proof {
        assert(max_h * fh <= 28 * u16::MAX) by (nonlinear_arith)
            requires max_h <= 28, fh <= u16::MAX;
        assert(area.width as u32 * fw <= u16::MAX as int * u16::MAX) by (nonlinear_arith)
            requires area.width <= u16::MAX, fw <= u16::MAX;
    }
    let by_rows = max_h * fh;
    let by_width = (area.width as u32) * fw;
    let budget = if by_rows < by_width {
        if by_rows < art_side {
            by_rows
        } else {
            art_side
        }
    } else {
        if by_width < art_side {
            by_width
        } else {
            art_side
        }
    };
    proof {
        lemma_fundamental_div_mod(budget as int, lcm as int);
        assert((budget / lcm) * lcm <= budget) by (nonlinear_arith)
            requires budget as int == lcm * (budget as int / lcm as int) + budget as int % lcm as int,
                budget as int % lcm as int >= 0;
    }
    let steps = budget / lcm * lcm;
    let side = if steps < lcm {
        lcm
    } else {
        steps
    };
    let ghost spec_side = cover_side(area, font_w, font_h, art_w, art_h, scaled_rows);
    assert(side as int == spec_side);
    let img_w_wide = side / fw;
    let img_h_wide = side / fh;
    if img_w_wide == 0 || img_h_wide == 0 || img_w_wide > area.width as u32 || img_h_wide
        > area.height as u32 {
        return None;
    }
    let img_w = img_w_wide as u16;
    let img_h = img_h_wide as u16;
    let lyric_h: u16 = if has_lyric {
        4
    } else {
        0
    };
    let group_h = img_h + lyric_h;
    let top = area.y + (area.height.saturating_sub(group_h)) / 2;
    let img_x = area.x + (area.width.saturating_sub(img_w)) / 2;
    proof {
        // A whole number of lcm steps is a whole number of cells both ways.
        let k = side as int / lcm as int;
        lemma_fundamental_div_mod(side as int, lcm as int);
        assert(side as int % lcm as int == 0) by {
            if side == lcm {
                lemma_mod_multiples_basic(1, lcm as int);
            } else {
                lemma_mod_multiples_basic(budget as int / lcm as int, lcm as int);
            }
        }
        let pw = lcm as int / fw as int;
        let ph = lcm as int / fh as int;
        lemma_fundamental_div_mod(lcm as int, fw as int);
        lemma_fundamental_div_mod(lcm as int, fh as int);
        assert(side as int == (k * pw) * fw) by (nonlinear_arith)
            requires side as int == lcm * k, lcm as int == fw * pw;
        assert(side as int == (k * ph) * fh) by (nonlinear_arith)
            requires side as int == lcm * k, lcm as int == fh * ph;
        lemma_div_multiples_vanish(k * pw, fw as int);
        lemma_div_multiples_vanish(k * ph, fh as int);
        assert(img_w as int * fw == img_h as int * fh) by (nonlinear_arith)
            requires img_w as int == (k * pw) * fw / fw as int, img_h as int == (k * ph) * fh / fh as int,
                (k * pw) * fw / fw as int == k * pw, (k * ph) * fh / fh as int == k * ph,
                side as int == (k * pw) * fw, side as int == (k * ph) * fh;
    }
    Some(Area { x: img_x, y: top, width: img_w, height: img_h })
}

/// The number of terminal columns that `s` takes.
pub uninterp spec fn text_width(s: Seq<char>) -> usize;

/// `UnicodeWidthStr::width` of the `unicode-width` crate: the display width
/// of `s` in terminal columns, as that crate computes it from the string's
/// characters. Its value is named, not stated.
#[verifier::external_body]
fn display_width(s: &str) -> (r: usize)
    ensures
        r == text_width(s@),
{
    UnicodeWidthStr::width(s)
}

/// The box of the lyric line `text` under the cover `cover` in `area`: three
/// rows high, one row below the cover, as wide as the text and its frame
/// (two cells each side) but no wider than the area, centred across it. The
/// text's width counts modulo 2^16, as its `u16` cast keeps it.
pub fn lyric_box(area: Area, cover: Area, text: &str) -> (r: Area)
    requires
        area.wf(),
        cover.y + cover.height < u16::MAX,
    ensures
        ({
            let tw = text_width(text@) as int % 0x1_0000;
            let room = if area.width >= 4 {
                area.width - 4
            } else {
                0
            };
            let text_w = if tw < room {
                tw
            } else {
                room
            };
            let box_w = if text_w + 4 < area.width {
                text_w + 4
            } else {
                area.width as int
            };
            &&& r.width == box_w
            &&& r.height == 3
            &&& r.x == area.x + (area.width - box_w) / 2
            &&& r.y == cover.y + cover.height + 1
        }),
{
    let width = display_width(text);
    let tw = (width % 0x1_0000) as u16;
    let room = area.width.saturating_sub(4);
    let text_w = if tw < room {
        tw
    } else {
        room
    };
    let framed = text_w + 4;
    let box_w = if framed < area.width {
        framed
    } else {
        area.width
    };
    let box_x = area.x + (area.width.saturating_sub(box_w)) / 2;
    let bottom = cover.y + cover.height;
    Area { x: box_x, y: bottom + 1, width: box_w, height: 3 }
}

/// The cover takes at least 6 and at most 28 rows; between those, the rows
/// it is given. A cell counts at least one pixel each way.
pub proof fn law_row_budget_and_cells(scaled_rows: u16, v: u16)
    ensures
        6 <= row_budget(scaled_rows) <= 28,
        6 <= scaled_rows <= 28 ==> row_budget(scaled_rows) == scaled_rows,
        cell_px(v) >= 1,
        v >= 1 ==> cell_px(v) == v,
{
}

/// The cover's side in pixels fills whole cells both ways, is a whole number
/// of `cell_lcm` steps (one at least), stays within each of its three limits
/// (the row budget, the area's width and the picture's smaller side) unless a
/// single step already exceeds one of them, and is the largest such number of
/// steps: one step more would exceed a limit.
pub proof fn law_cover_side(area: Area, font_w: u16, font_h: u16, art_w: u32, art_h: u32, scaled_rows: u16)
    ensures
        ({
            let fw = cell_px(font_w);
            let fh = cell_px(font_h);
            let lcm = cell_lcm(fw, fh);
            let side = cover_side(area, font_w, font_h, art_w, art_h, scaled_rows);
            let art_min = if art_w < art_h {
                art_w as int
            } else {
                art_h as int
            };
            let art_limit = if art_min < 1 {
                1
            } else {
                art_min
            };
            &&& side % fw == 0 && side % fh == 0
            &&& side % lcm == 0 && side >= lcm
            &&& side > lcm ==> side <= row_budget(scaled_rows) * fh && side <= area.width * fw
                && side <= art_limit
            &&& side + lcm > row_budget(scaled_rows) * fh || side + lcm > area.width * fw || side
                + lcm > art_limit
        }),
{
    let fw = cell_px(font_w);
    let fh = cell_px(font_h);
    lemma_cell_lcm(fw, fh);
    let lcm = cell_lcm(fw, fh);
    let side = cover_side(area, font_w, font_h, art_w, art_h, scaled_rows);
    let art_min = if art_w < art_h {
        art_w as int
    } else {
        art_h as int
    };
    let art_limit = if art_min < 1 {
        1
    } else {
        art_min
    };
    let by_rows = row_budget(scaled_rows) * fh;
    let by_width = area.width * fw;
    let budget = if by_rows < by_width {
        if by_rows < art_limit {
            by_rows
        } else {
            art_limit
        }
    } else {
        if by_width < art_limit {
            by_width
        } else {
            art_limit
        }
    };
    assert(by_width >= 0) by (nonlinear_arith)
        requires by_width == area.width * fw, fw >= 1;
    assert(by_rows >= 6) by (nonlinear_arith)
        requires by_rows == row_budget(scaled_rows) * fh, fh >= 1, row_budget(scaled_rows) >= 6;
    lemma_fundamental_div_mod(budget, lcm);
    let k = budget / lcm;
    assert(k >= 0) by (nonlinear_arith)
        requires budget == lcm * k + budget % lcm, budget >= 0, lcm >= 1, 0 <= budget % lcm < lcm;
    assert(k * lcm <= budget && budget < k * lcm + lcm) by (nonlinear_arith)
        requires budget == lcm * k + budget % lcm, 0 <= budget % lcm < lcm;
    let steps = k * lcm;
    let m = if steps < lcm {
        1
    } else {
        k
    };
    assert(side == m * lcm);
    lemma_mod_multiples_basic(m, lcm);
    lemma_fundamental_div_mod(lcm, fw);
    lemma_fundamental_div_mod(lcm, fh);
    let pw = lcm / fw;
    let ph = lcm / fh;
    assert(side == (m * pw) * fw) by (nonlinear_arith)
        requires side == m * lcm, lcm == fw * pw;
    assert(side == (m * ph) * fh) by (nonlinear_arith)
        requires side == m * lcm, lcm == fh * ph;
    lemma_mod_multiples_basic(m * pw, fw);
    lemma_mod_multiples_basic(m * ph, fh);
    if steps < lcm {
        assert(k < 1) by (nonlinear_arith)
            requires k * lcm < lcm, lcm >= 1;
        assert(k == 0);
        assert(k * lcm == 0) by (nonlinear_arith)
            requires k == 0;
        assert(budget < lcm);
    }
}

} // verus!
