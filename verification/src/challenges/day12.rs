use vstd::prelude::*;

verus! {

use vstd::string::*;
use crate::bytegrid::{
    ByteGrid,
    Region,
    Point,
    is_component,
    perimeter_of,
    sides_of,
    first_line_width,
    without_newlines,
};

/// The region list a garden grid decomposes into: every region is one
/// whole connected patch and every cell belongs to one.
pub open spec fn region_decomposition(g: ByteGrid, regs: Seq<Region>) -> bool {
    &&& forall|k: int|
        0 <= k < regs.len() ==> {
            let reg = #[trigger] regs[k];
            &&& reg.points@.len() > 0
            &&& is_component(g, reg.points@[0], reg.points@, true)
            &&& reg.byte == g.spec_at(reg.points@[0])
            &&& reg.area == reg.points@.len()
            &&& reg.perimeter == perimeter_of(g, reg.byte, reg.points@)
            &&& reg.sides == sides_of(g, reg.byte, reg.points@)
        }
    &&& forall|p: Point|
        g.valid(p) ==> exists|k: int| 0 <= k < regs.len() && (#[trigger] regs[k]).points@.contains(
            p,
        )
    &&& forall|k1: int, k2: int, p: Point|
        #![trigger regs[k1].points@.contains(p), regs[k2].points@.contains(p)]
        0 <= k1 < k2 < regs.len() ==> !(regs[k1].points@.contains(p) && regs[k2].points@.contains(
            p,
        ))
}

/// Total price of a run of regions at one measure per region: the area
/// times the perimeter, and the area times the side count.
pub open spec fn sum_prices(regs: Seq<Region>) -> (int, int)
    decreases regs.len(),
{
    if regs.len() == 0 {
        (0, 0)
    } else {
        let rest = sum_prices(regs.drop_last());
        let reg = regs.last();
        (rest.0 + reg.area * reg.perimeter, rest.1 + reg.area * reg.sides)
    }
}

/// The input describes a usable garden: non-empty rectangular text whose
/// grid is small enough to measure.
pub open spec fn usable_garden(input: Seq<u8>) -> bool {
    &&& input.len() > 0
    &&& input.len() <= 0x1fff_ffff
    &&& first_line_width(input) > 0
    &&& ({
        let w = first_line_width(input);
        let data = without_newlines(input);
        data.len() == w * (data.len() as int / w) && data.len() as int / w > 0
    })
}

/// The width of the first text line of `input`.
pub fn measure_first_line(input: &str) -> (r: usize)
    ensures
        r == first_line_width(input.spec_bytes()),
{
    let bytes = input.as_bytes();
    let l = crate::scan_to_byte(bytes, 0, 10);
    proof {
        crate::lemma_piece_len_at(bytes@, 10, l as int);
    }
    if l < bytes.len() && l > 0 && bytes[l - 1] == 13 {
        l - 1
    } else {
        l
    }
}

/// Price the garden: the fencing total by perimeter and by straight sides.
/// An input that is not a usable garden, or whose totals leave `i32`,
/// prices as minus one.
pub fn solve(input: &str) -> (r: (i32, i32))
    ensures
        usable_garden(input.spec_bytes()) ==> exists|g: ByteGrid, regs: Seq<Region>|
            {
                &&& g.wf()
                &&& g.width == first_line_width(input.spec_bytes())
                &&& g.data@ == without_newlines(input.spec_bytes())
                &&& g.height == g.data@.len() as int / g.width as int
                &&& region_decomposition(g, regs)
                &&& ({
                    let sums = sum_prices(regs);
                    if sums.0 <= i32::MAX && sums.1 <= i32::MAX {
                        r == (sums.0 as i32, sums.1 as i32)
                    } else {
                        r == (-1i32, -1i32)
                    }
                })
            },
        !usable_garden(input.spec_bytes()) ==> r == (-1i32, -1i32),
{
    let all_bytes = input.as_bytes();
    let bytes_len = all_bytes.len();
    if bytes_len == 0 || bytes_len > 0x1fff_ffff {
        return (-1, -1);
    }
    let w = measure_first_line(input);
    if w == 0 {
        return (-1, -1);
    }
    let grid = ByteGrid::new(input);
    proof {
        crate::bytegrid::lemma_without_newlines_len(input.spec_bytes());
    }
    if !grid.is_wf() {
        proof {
            assert(!usable_garden(input.spec_bytes()));
        }
        return (-1, -1);
    }
    if grid.data.len() > 0x1fff_ffff {
        return (-1, -1);
    }
    let regions = grid.to_regions();
    let ghost gridg = grid;
    proof {
        assert forall|t: int|
            0 <= t < regions@.len() implies 0 <= (#[trigger] regions@[t]).area <= 0x7fff_ffff && 0
            <= regions@[t].perimeter <= 0x7fff_ffff && 0 <= regions@[t].sides <= 0x7fff_ffff by {
            crate::bytegrid::lemma_distinct_points_bound_pub(gridg, regions@[t].points@);
        }
    }
    let mut p1: i128 = 0;
    let mut p2: i128 = 0;
    let mut k: usize = 0;
    let ghost regs = regions@;
    proof {
        assert(regs.take(0) =~= Seq::<Region>::empty());
    }
    while k < regions.len()
        invariant
            regs == regions@,
            0 <= k <= regs.len(),
            forall|t: int|
                0 <= t < regs.len() ==> 0 <= (#[trigger] regs[t]).area <= 0x7fff_ffff && 0
                    <= regs[t].perimeter <= 0x7fff_ffff && 0 <= regs[t].sides <= 0x7fff_ffff,
            (p1 as int, p2 as int) == sum_prices(regs.take(k as int)),
            0 <= p1 <= k * 0x4000_0000_0000_0000,
            0 <= p2 <= k * 0x4000_0000_0000_0000,
        decreases regs.len() - k,
    {
        let reg = &regions[k];
        proof {
            assert(regs.take(k + 1).drop_last() =~= regs.take(k as int));
            assert(regs.take(k + 1).last() == regs[k as int]);
            assert(0 <= regs[k as int].area * regs[k as int].perimeter
                <= 0x4000_0000_0000_0000int) by (nonlinear_arith)
                requires
                    0 <= regs[k as int].area <= 0x7fff_ffff,
                    0 <= regs[k as int].perimeter <= 0x7fff_ffff,
            ;
            assert(0 <= regs[k as int].area * regs[k as int].sides <= 0x4000_0000_0000_0000int)
                by (nonlinear_arith)
                requires
                    0 <= regs[k as int].area <= 0x7fff_ffff,
                    0 <= regs[k as int].sides <= 0x7fff_ffff,
            ;
            assert((k + 1) * 0x4000_0000_0000_0000int
                <= 0x4000_0000_0000_0000_0000_0000_0000_0000int) by (nonlinear_arith)
                requires
                    0 <= k < 0xffff_ffff_ffff_ffffint,
            ;
            assert(p1 + regs[k as int].area * regs[k as int].perimeter <= (k + 1)
                * 0x4000_0000_0000_0000int) by (nonlinear_arith)
                requires
                    0 <= p1 <= k * 0x4000_0000_0000_0000int,
                    0 <= regs[k as int].area * regs[k as int].perimeter
                        <= 0x4000_0000_0000_0000int,
                    k >= 0,
            ;
            assert(p2 + regs[k as int].area * regs[k as int].sides <= (k + 1)
                * 0x4000_0000_0000_0000int) by (nonlinear_arith)
                requires
                    0 <= p2 <= k * 0x4000_0000_0000_0000int,
                    0 <= regs[k as int].area * regs[k as int].sides <= 0x4000_0000_0000_0000int,
                    k >= 0,
            ;
        }
        let a = reg.area() as i128;
        let pm = reg.perimeter() as i128;
        let sd = reg.sides() as i128;
        p1 = p1 + a * pm;
        p2 = p2 + a * sd;
        k = k + 1;
    }
    proof {
        assert(regs.take(k as int) =~= regs);
    }
    let in_range = p1 <= i32::MAX as i128 && p2 <= i32::MAX as i128;
    let r: (i32, i32) = if in_range {
        (p1 as i32, p2 as i32)
    } else {
        (-1, -1)
    };
    proof {
        if usable_garden(input.spec_bytes()) {
            assert(region_decomposition(gridg, regs));
            let g0 = gridg;
            let sums = sum_prices(regs);
            assert(g0.wf() && g0.width == first_line_width(input.spec_bytes()) && g0.data@
                == without_newlines(input.spec_bytes()) && g0.height == g0.data@.len() as int
                / g0.width as int && region_decomposition(g0, regs) && (if sums.0 <= i32::MAX
                && sums.1 <= i32::MAX {
                r == (sums.0 as i32, sums.1 as i32)
            } else {
                r == (-1i32, -1i32)
            }));
        }
    }
    r
}

} // verus!
