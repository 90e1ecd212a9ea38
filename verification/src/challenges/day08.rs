use vstd::prelude::*;

verus! {

use vstd::string::*;
use vstd::std_specs::iter::IteratorSpec;
use crate::bytegrid::{ByteGrid, Point, count_matching, first_line_width, without_newlines};
use crate::challenges::day15::{in_grid, cell};

broadcast use vstd::std_specs::hash::group_hash_axioms;

/// The buffer index of the cell `t` offsets past `b` along the offset from
/// `a` to `b`, if that cell lies inside a `w` by `h` grid.
pub open spec fn pair_ray_idx(w: int, h: int, a: Point, b: Point, t: int) -> Option<int> {
    let r = b.row + t * (b.row - a.row);
    let c = b.col + t * (b.col - a.col);
    if 0 <= r < h && 0 <= c < w {
        Some(r * w + c)
    } else {
        None
    }
}

/// Cell `k` of the `w` by `h` board `data` is an antinode: it lies a whole
/// number of offsets past one end of a pair of distinct same-frequency
/// antennas, the count of offsets falling in `[skip, skip + take)`.
pub open spec fn antinode_cell(
    w: int,
    h: int,
    data: Seq<u8>,
    skip: int,
    take: int,
    k: int,
) -> bool {
    exists|a: Point, b: Point, t: int|
        {
            &&& in_grid(w, h, a)
            &&& in_grid(w, h, b)
            &&& a != b
            &&& cell(w, data, a) == cell(w, data, b)
            &&& cell(w, data, a) != 46
            &&& skip <= t < skip + take
            &&& #[trigger] pair_ray_idx(w, h, a, b, t) == Some(k)
        }
}

/// The board with every antinode cell marked 35 and every other cell as it
/// came.
pub open spec fn marked(w: int, h: int, data: Seq<u8>, skip: int, take: int) -> Seq<u8> {
    Seq::new(
        data.len(),
        |k: int|
            if antinode_cell(w, h, data, skip, take, k) {
                35u8
            } else {
                data[k]
            },
    )
}

/// The input reads as a grid: sized for the counters, a positive first
/// line, and full rows.
pub open spec fn usable_grid(bytes: Seq<u8>) -> bool {
    let w = first_line_width(bytes);
    let data = without_newlines(bytes);
    &&& 0 < bytes.len() <= 0x1fff_ffff
    &&& 0 < w
    &&& 0 < data.len() as int / w
    &&& data.len() == w * (data.len() as int / w)
}

/// Every cell `t` offsets past `b` away from `a`, for a counted `t`, holds
/// a 35 in `data`.
pub open spec fn pair_done(
    w: int,
    h: int,
    skip: int,
    take: int,
    a: Point,
    b: Point,
    data: Seq<u8>,
) -> bool {
    forall|t: int|
        skip <= t < skip + take ==> match #[trigger] pair_ray_idx(w, h, a, b, t) {
            Some(k) => 0 <= k < data.len() && data[k] == 35,
            None => true,
        }
}

/// A board that only gained 35s keeps every pair's marks.
proof fn lemma_pair_done_persists(
    w: int,
    h: int,
    skip: int,
    take: int,
    a: Point,
    b: Point,
    pre: Seq<u8>,
    post: Seq<u8>,
)
    requires
        pair_done(w, h, skip, take, a, b, pre),
        post.len() == pre.len(),
        forall|k: int| 0 <= k < pre.len() && pre[k] == 35 ==> post[k] == 35,
    ensures
        pair_done(w, h, skip, take, a, b, post),
{
    assert forall|t: int| skip <= t < skip + take implies match #[trigger] pair_ray_idx(
        w,
        h,
        a,
        b,
        t,
    ) {
        Some(k) => 0 <= k < post.len() && post[k] == 35,
        None => true,
    } by {
        if pair_ray_idx(w, h, a, b, t) is Some {
            let k = pair_ray_idx(w, h, a, b, t)->Some_0;
            assert(0 <= k < pre.len() && pre[k] == 35);
        }
    }
}

/// The list is the full antenna listing of some non-dot frequency.
pub open spec fn freq_list(o: ByteGrid, glen: int, pts: Seq<Point>) -> bool {
    exists|b: u8| b != 46 && pts == o.points_of_upto(b, glen)
}

/// Every non-dot frequency with an antenna has its listing among the
/// lists.
pub open spec fn lists_complete(o: ByteGrid, glen: int, lists: Seq<Vec<Point>>) -> bool {
    forall|b: u8|
        #![trigger o.points_of_upto(b, glen)]
        o.points_of_upto(b, glen).len() > 0 && b != 46 ==> exists|li: int|
            0 <= li < lists.len() && lists[li]@ == o.points_of_upto(b, glen)
}

/// Every listed antenna point is a valid cell holding the listed byte, at a
/// buffer index below `n`, and the listing rises strictly in buffer index.
proof fn lemma_points_of_upto_props(o: &ByteGrid, b: u8, n: int)
    requires
        o.wf(),
        0 <= n <= o.data@.len(),
    ensures
        forall|i: int|
            0 <= i < o.points_of_upto(b, n).len() ==> {
                let p = #[trigger] o.points_of_upto(b, n)[i];
                o.valid(p) && o.spec_at(p) == b && 0 <= o.spec_idx(p) < n
            },
        forall|i: int, j: int|
            0 <= i < j < o.points_of_upto(b, n).len() ==> o.spec_idx(
                #[trigger] o.points_of_upto(b, n)[i],
            ) < o.spec_idx(#[trigger] o.points_of_upto(b, n)[j]),
    decreases n,
{
    if n <= 0 {
    } else {
        lemma_points_of_upto_props(o, b, n - 1);
        if o.data@[n - 1] == b {
            let p = o.spec_point_of_idx(n - 1);
            let w = o.width as int;
            let h = o.height as int;
            assert(0 <= (n - 1) / w < h && 0 <= (n - 1) % w < w && ((n - 1) / w) * w + (n - 1) % w
                == n - 1) by (nonlinear_arith)
                requires
                    0 < w && 0 < h && 0 <= n - 1 < w * h,
            ;
            assert(o.valid(p));
            assert(o.spec_idx(p) == n - 1);
            assert(o.points_of_upto(b, n) == o.points_of_upto(b, n - 1).push(p));
        } else {
            assert(o.points_of_upto(b, n) == o.points_of_upto(b, n - 1));
        }
    }
}

/// Every valid antenna cell appears in its byte's listing.
proof fn lemma_points_of_upto_complete(o: &ByteGrid, b: u8, n: int, p: Point)
    requires
        o.wf(),
        0 <= n <= o.data@.len(),
        o.valid(p),
        o.spec_at(p) == b,
        o.spec_idx(p) < n,
    ensures
        o.points_of_upto(b, n).contains(p),
    decreases n,
{
    o.lemma_valid_idx(p);
    if o.spec_idx(p) == n - 1 {
        let w = o.width as int;
        vstd::arithmetic::div_mod::lemma_fundamental_div_mod_converse(
            n - 1,
            w,
            p.row as int,
            p.col as int,
        );
        assert(o.spec_point_of_idx(n - 1) == p);
        assert(o.data@[n - 1] == b);
        assert(o.points_of_upto(b, n).last() == p);
    } else {
        lemma_points_of_upto_complete(o, b, n - 1, p);
        let idx = choose|idx: int|
            0 <= idx < o.points_of_upto(b, n - 1).len() && #[trigger] o.points_of_upto(
                b,
                n - 1,
            )[idx] == p;
        if o.data@[n - 1] == b {
            assert(o.points_of_upto(b, n)[idx] == p);
        } else {
            assert(o.points_of_upto(b, n)[idx] == p);
        }
    }
}

/// Mark the antinodes of every pair of same-frequency antennas and count
/// them: each pair projects marks along its own offset away from both ends,
/// passing over the first `skip` positions and placing at most `take`.  The
/// count is of this input's grid with exactly the antinode cells marked.
/// An input that is not a usable grid counts zero.
pub fn solver(input: &str, skip: usize, take: usize) -> (r: usize)
    ensures
        ({
            let bytes = input.spec_bytes();
            let w = first_line_width(bytes);
            let data = without_newlines(bytes);
            &&& (usable_grid(bytes) ==> r == count_matching(
                marked(w, data.len() as int / w, data, skip as int, take as int),
                35,
            ))
            &&& (!usable_grid(bytes) ==> r == 0)
        }),
{
    let bytes = input.as_bytes();
    if bytes.len() == 0 || bytes.len() > 0x1fff_ffff {
        return 0;
    }
    let l = crate::scan_to_byte(bytes, 0, 10);
    proof {
        crate::lemma_piece_len_at(bytes@, 10, l as int);
    }
    let w = if l < bytes.len() && l > 0 && bytes[l - 1] == 13 {
        l - 1
    } else {
        l
    };
    if w == 0 {
        proof {
            assert(first_line_width(input.spec_bytes()) == 0);
        }
        return 0;
    }
    let mut world = ByteGrid::new(input);
    if !world.is_wf() {
        proof {
            assert(!usable_grid(input.spec_bytes()));
        }
        return 0;
    }
    let ghost orig = world;
    let ghost ow = orig.width as int;
    let ghost oh = orig.height as int;
    let ghost od = orig.data@;
    let mut groups = world.bytes_to_points();
    groups.remove(&46);
    // walk each frequency's antenna list and mark the rays of every pair
    let ghost glen = orig.data@.len() as int;
    let mut lists: Vec<Vec<Point>> = Vec::new();
    let ghost rem = vstd::std_specs::hash::spec_hash_map_iter(&groups).remaining();
    let gn = groups.len();
    let mut it = vstd::std_specs::iter::VerusForLoopWrapper::new(groups.iter(), Ghost(None));
    loop
        invariant
            it.wf(),
            it.seq() == rem,
            rem == vstd::std_specs::hash::spec_hash_map_iter(&groups).remaining(),
            0 <= it.index() <= rem.len(),
            gn == rem.len(),
            glen == orig.data@.len() as int,
            lists@.len() == it.index(),
            forall|b: u8| #[trigger]
                groups@.contains_key(b) ==> b != 46 && groups@[b]@ == orig.points_of_upto(b, glen),
            forall|b: u8|
                #![trigger orig.points_of_upto(b, glen)]
                orig.points_of_upto(b, glen).len() > 0 && b != 46 ==> groups@.contains_key(b),
            forall|idx: int| 0 <= idx < it.index() ==> (#[trigger] lists@[idx])@ == rem[idx].1@,
            forall|li: int|
                0 <= li < lists@.len() ==> freq_list(orig, glen, (#[trigger] lists@[li])@),
        ensures
            lists@.len() == rem.len(),
            forall|idx: int| 0 <= idx < rem.len() ==> (#[trigger] lists@[idx])@ == rem[idx].1@,
            forall|b: u8| #[trigger]
                groups@.contains_key(b) ==> b != 46 && groups@[b]@ == orig.points_of_upto(b, glen),
            forall|b: u8|
                #![trigger orig.points_of_upto(b, glen)]
                orig.points_of_upto(b, glen).len() > 0 && b != 46 ==> groups@.contains_key(b),
            rem == vstd::std_specs::hash::spec_hash_map_iter(&groups).remaining(),
            forall|li: int|
                0 <= li < lists@.len() ==> freq_list(orig, glen, (#[trigger] lists@[li])@),
        decreases gn - it.index(),
    {
        let ghost pre_index = it.index();
        let kv = match it.next() {
            Some(kv) => kv,
            None => {
                proof {
                    assert(it.index() == it.seq().len());
                }
                break ;
            },
        };
        proof {
            assert(kv == rem[pre_index]);
            assert(groups@.contains_key(*kv.0) && groups@[*kv.0] == *kv.1);
        }
        let copy = clone_points(kv.1);
        let ghost pre_lists = lists@;
        lists.push(copy);
        proof {
            assert forall|li: int| 0 <= li < lists@.len() implies freq_list(
                orig,
                glen,
                (#[trigger] lists@[li])@,
            ) by {
                if li < pre_lists.len() {
                    assert(lists@[li] == pre_lists[li]);
                } else {
                    assert((lists@[li])@ == orig.points_of_upto(*kv.0, glen));
                }
            }
        }
    }
    proof {
        assert forall|b: u8|
            #![trigger orig.points_of_upto(b, glen)]
            orig.points_of_upto(b, glen).len() > 0 && b != 46 implies exists|li: int|
            0 <= li < lists@.len() && lists@[li]@ == orig.points_of_upto(b, glen) by {
            assert(groups@.contains_key(b));
            assert(rem.contains((&b, &groups@[b])));
            let idx = choose|idx: int| 0 <= idx < rem.len() && rem[idx] == (&b, &groups@[b]);
            assert(lists@[idx]@ == orig.points_of_upto(b, glen));
        }
        assert(lists_complete(orig, glen, lists@));
    }
    let mut gi: usize = 0;
    while gi < lists.len()
        invariant
            world.wf(),
            orig.wf(),
            world.width == orig.width && world.height == orig.height,
            world.data@.len() == orig.data@.len(),
            ow == orig.width as int && oh == orig.height as int && od == orig.data@,
            glen == orig.data@.len() as int,
            lists_complete(orig, glen, lists@),
            forall|li: int|
                0 <= li < lists@.len() ==> freq_list(orig, glen, (#[trigger] lists@[li])@),
            forall|k: int|
                0 <= k < world.data@.len() && (#[trigger] world.data@[k]) != od[k]
                    ==> world.data@[k] == 35 && antinode_cell(
                    ow,
                    oh,
                    od,
                    skip as int,
                    take as int,
                    k,
                ),
            forall|li: int, i2: int, j2: int|
                #![trigger lists@[li]@[i2], lists@[li]@[j2]]
                0 <= li < gi && 0 <= i2 < j2 < lists@[li]@.len() ==> pair_done(
                    ow,
                    oh,
                    skip as int,
                    take as int,
                    lists@[li]@[i2],
                    lists@[li]@[j2],
                    world.data@,
                ) && pair_done(
                    ow,
                    oh,
                    skip as int,
                    take as int,
                    lists@[li]@[j2],
                    lists@[li]@[i2],
                    world.data@,
                ),
        decreases lists@.len() - gi,
    {
        let pts = &lists[gi];
        let ghost freq = choose|b: u8|
            b != 46 && lists@[gi as int]@ == orig.points_of_upto(b, glen);
        proof {
            assert(freq_list(orig, glen, lists@[gi as int]@));
            lemma_points_of_upto_props(&orig, freq, glen);
        }
        let m = pts.len();
        let mut i: usize = 0;
        while i < m
            invariant
                world.wf(),
                orig.wf(),
                world.width == orig.width && world.height == orig.height,
                world.data@.len() == orig.data@.len(),
                ow == orig.width as int && oh == orig.height as int && od == orig.data@,
                glen == orig.data@.len() as int,
                m == pts@.len(),
                gi < lists@.len(),
                pts@ == lists@[gi as int]@,
                freq != 46 && pts@ == orig.points_of_upto(freq, glen),
                forall|k: int|
                    0 <= k < world.data@.len() && (#[trigger] world.data@[k]) != od[k]
                        ==> world.data@[k] == 35 && antinode_cell(
                        ow,
                        oh,
                        od,
                        skip as int,
                        take as int,
                        k,
                    ),
                forall|li: int, i2: int, j2: int|
                    #![trigger lists@[li]@[i2], lists@[li]@[j2]]
                    0 <= li < gi && 0 <= i2 < j2 < lists@[li]@.len() ==> pair_done(
                        ow,
                        oh,
                        skip as int,
                        take as int,
                        lists@[li]@[i2],
                        lists@[li]@[j2],
                        world.data@,
                    ) && pair_done(
                        ow,
                        oh,
                        skip as int,
                        take as int,
                        lists@[li]@[j2],
                        lists@[li]@[i2],
                        world.data@,
                    ),
                forall|i2: int, j2: int|
                    #![trigger pts@[i2], pts@[j2]]
                    0 <= i2 < i && i2 < j2 < pts@.len() ==> pair_done(
                        ow,
                        oh,
                        skip as int,
                        take as int,
                        pts@[i2],
                        pts@[j2],
                        world.data@,
                    ) && pair_done(
                        ow,
                        oh,
                        skip as int,
                        take as int,
                        pts@[j2],
                        pts@[i2],
                        world.data@,
                    ),
            decreases m - i,
        {
            let mut j: usize = i + 1;
            while j < m
                invariant
                    world.wf(),
                    orig.wf(),
                    world.width == orig.width && world.height == orig.height,
                    world.data@.len() == orig.data@.len(),
                    ow == orig.width as int && oh == orig.height as int && od == orig.data@,
                    glen == orig.data@.len() as int,
                    m == pts@.len(),
                    i < j,
                    i < m,
                    gi < lists@.len(),
                    pts@ == lists@[gi as int]@,
                    freq != 46 && pts@ == orig.points_of_upto(freq, glen),
                    forall|k: int|
                        0 <= k < world.data@.len() && (#[trigger] world.data@[k]) != od[k]
                            ==> world.data@[k] == 35 && antinode_cell(
                            ow,
                            oh,
                            od,
                            skip as int,
                            take as int,
                            k,
                        ),
                    forall|li: int, i2: int, j2: int|
                        #![trigger lists@[li]@[i2], lists@[li]@[j2]]
                        0 <= li < gi && 0 <= i2 < j2 < lists@[li]@.len() ==> pair_done(
                            ow,
                            oh,
                            skip as int,
                            take as int,
                            lists@[li]@[i2],
                            lists@[li]@[j2],
                            world.data@,
                        ) && pair_done(
                            ow,
                            oh,
                            skip as int,
                            take as int,
                            lists@[li]@[j2],
                            lists@[li]@[i2],
                            world.data@,
                        ),
                    forall|i2: int, j2: int|
                        #![trigger pts@[i2], pts@[j2]]
                        0 <= i2 < i && i2 < j2 < pts@.len() ==> pair_done(
                            ow,
                            oh,
                            skip as int,
                            take as int,
                            pts@[i2],
                            pts@[j2],
                            world.data@,
                        ) && pair_done(
                            ow,
                            oh,
                            skip as int,
                            take as int,
                            pts@[j2],
                            pts@[i2],
                            world.data@,
                        ),
                    forall|j2: int|
                        #![trigger pts@[j2]]
                        i < j2 < j ==> pair_done(
                            ow,
                            oh,
                            skip as int,
                            take as int,
                            pts@[i as int],
                            pts@[j2],
                            world.data@,
                        ) && pair_done(
                            ow,
                            oh,
                            skip as int,
                            take as int,
                            pts@[j2],
                            pts@[i as int],
                            world.data@,
                        ),
                decreases m - j,
            {
                let a = pts[i];
                let b = pts[j];
                proof {
                    lemma_points_of_upto_props(&orig, freq, glen);
                    assert(a == orig.points_of_upto(freq, glen)[i as int]);
                    assert(b == orig.points_of_upto(freq, glen)[j as int]);
                    assert(orig.valid(a) && orig.spec_at(a) == freq);
                    assert(orig.valid(b) && orig.spec_at(b) == freq);
                    assert(orig.spec_idx(a) < orig.spec_idx(b));
                }
                if world.is_valid_point(a) && world.is_valid_point(b) {
                    let (smaller, larger) = if a.row < b.row || (a.row == b.row && a.col
                        < b.col) {
                        (a, b)
                    } else {
                        (b, a)
                    };
                    let drow = larger.row - smaller.row;
                    let dcol = larger.col - smaller.col;
                    let ghost pre1 = world.data@;
                    mark_ray(&mut world, smaller, -drow, -dcol, skip, take);
                    let ghost mid = world.data@;
                    proof {
                        assert forall|k: int|
                            0 <= k < world.data@.len() && (#[trigger] world.data@[k])
                                != od[k] implies world.data@[k] == 35 && antinode_cell(
                            ow,
                            oh,
                            od,
                            skip as int,
                            take as int,
                            k,
                        ) by {
                            if world.data@[k] != pre1[k] {
                                let t = choose|t: int|
                                    skip <= t < skip as int + take as int && #[trigger] ray_idx(
                                        ow,
                                        oh,
                                        smaller,
                                        (-drow) as int,
                                        (-dcol) as int,
                                        t,
                                    ) == Some(k);
                                assert(pair_ray_idx(ow, oh, larger, smaller, t) == Some(k));
                            }
                        }
                        assert forall|t: int|
                            skip as int <= t < skip as int + take as int implies match
                            #[trigger] pair_ray_idx(ow, oh, larger, smaller, t) {
                            Some(k) => 0 <= k < mid.len() && mid[k] == 35,
                            None => true,
                        } by {
                            assert(pair_ray_idx(ow, oh, larger, smaller, t) == ray_idx(
                                ow,
                                oh,
                                smaller,
                                (-drow) as int,
                                (-dcol) as int,
                                t,
                            ));
                        }
                        assert(pair_done(
                            ow,
                            oh,
                            skip as int,
                            take as int,
                            larger,
                            smaller,
                            mid,
                        ));
                    }
                    let ghost pre2 = world.data@;
                    mark_ray(&mut world, larger, drow, dcol, skip, take);
                    proof {
                        let fin = world.data@;
                        assert forall|k: int|
                            0 <= k < fin.len() && (#[trigger] fin[k]) != od[k] implies fin[k] == 35
                            && antinode_cell(ow, oh, od, skip as int, take as int, k) by {
                            if fin[k] != pre2[k] {
                                let t = choose|t: int|
                                    skip <= t < skip as int + take as int && #[trigger] ray_idx(
                                        ow,
                                        oh,
                                        larger,
                                        drow as int,
                                        dcol as int,
                                        t,
                                    ) == Some(k);
                                assert(pair_ray_idx(ow, oh, smaller, larger, t) == Some(k));
                            }
                        }
                        // a later pass writes only 35s, so earlier marks stay
                        assert forall|k: int|
                            0 <= k < pre1.len() && pre1[k] == 35 implies fin[k] == 35 by {
                            if mid[k] != pre1[k] {
                                assert(mid[k] == 35);
                            }
                            if fin[k] != mid[k] {
                                assert(fin[k] == 35);
                            }
                        }
                        assert forall|t: int|
                            skip as int <= t < skip as int + take as int implies match
                            #[trigger] pair_ray_idx(ow, oh, smaller, larger, t) {
                            Some(k) => 0 <= k < fin.len() && fin[k] == 35,
                            None => true,
                        } by {
                            assert(pair_ray_idx(ow, oh, smaller, larger, t) == ray_idx(
                                ow,
                                oh,
                                larger,
                                drow as int,
                                dcol as int,
                                t,
                            ));
                        }
                        assert(pair_done(ow, oh, skip as int, take as int, smaller, larger, fin));
                        lemma_pair_done_persists(
                            ow,
                            oh,
                            skip as int,
                            take as int,
                            larger,
                            smaller,
                            mid,
                            fin,
                        );
                        assert forall|li: int, i2: int, j2: int|
                            #![trigger lists@[li]@[i2], lists@[li]@[j2]]
                            0 <= li < gi && 0 <= i2 < j2 < lists@[li]@.len() implies pair_done(
                            ow,
                            oh,
                            skip as int,
                            take as int,
                            lists@[li]@[i2],
                            lists@[li]@[j2],
                            fin,
                        ) && pair_done(
                            ow,
                            oh,
                            skip as int,
                            take as int,
                            lists@[li]@[j2],
                            lists@[li]@[i2],
                            fin,
                        ) by {
                            lemma_pair_done_persists(
                                ow,
                                oh,
                                skip as int,
                                take as int,
                                lists@[li]@[i2],
                                lists@[li]@[j2],
                                pre1,
                                fin,
                            );
                            lemma_pair_done_persists(
                                ow,
                                oh,
                                skip as int,
                                take as int,
                                lists@[li]@[j2],
                                lists@[li]@[i2],
                                pre1,
                                fin,
                            );
                        }
                        assert forall|i2: int, j2: int|
                            #![trigger pts@[i2], pts@[j2]]
                            0 <= i2 < i && i2 < j2 < pts@.len() implies pair_done(
                            ow,
                            oh,
                            skip as int,
                            take as int,
                            pts@[i2],
                            pts@[j2],
                            fin,
                        ) && pair_done(
                            ow,
                            oh,
                            skip as int,
                            take as int,
                            pts@[j2],
                            pts@[i2],
                            fin,
                        ) by {
                            lemma_pair_done_persists(
                                ow,
                                oh,
                                skip as int,
                                take as int,
                                pts@[i2],
                                pts@[j2],
                                pre1,
                                fin,
                            );
                            lemma_pair_done_persists(
                                ow,
                                oh,
                                skip as int,
                                take as int,
                                pts@[j2],
                                pts@[i2],
                                pre1,
                                fin,
                            );
                        }
                        assert forall|j2: int|
                            #![trigger pts@[j2]]
                            i < j2 < j + 1 implies pair_done(
                            ow,
                            oh,
                            skip as int,
                            take as int,
                            pts@[i as int],
                            pts@[j2],
                            fin,
                        ) && pair_done(
                            ow,
                            oh,
                            skip as int,
                            take as int,
                            pts@[j2],
                            pts@[i as int],
                            fin,
                        ) by {
                            if j2 < j {
                                lemma_pair_done_persists(
                                    ow,
                                    oh,
                                    skip as int,
                                    take as int,
                                    pts@[i as int],
                                    pts@[j2],
                                    pre1,
                                    fin,
                                );
                                lemma_pair_done_persists(
                                    ow,
                                    oh,
                                    skip as int,
                                    take as int,
                                    pts@[j2],
                                    pts@[i as int],
                                    pre1,
                                    fin,
                                );
                            } else {
                                assert(pts@[j2] == b && pts@[i as int] == a);
                                assert((smaller == a && larger == b) || (smaller == b && larger
                                    == a));
                            }
                        }
                    }
                }
                j = j + 1;
            }
            i = i + 1;
        }
        gi = gi + 1;
    }
    let r = world.count(35);
    proof {
        assert forall|k: int|
            0 <= k < world.data@.len() implies world.data@[k] == marked(
            ow,
            oh,
            od,
            skip as int,
            take as int,
        )[k] by {
            if antinode_cell(ow, oh, od, skip as int, take as int, k) {
                let (a, b, t) = choose|a: Point, b: Point, t: int|
                    {
                        &&& in_grid(ow, oh, a)
                        &&& in_grid(ow, oh, b)
                        &&& a != b
                        &&& cell(ow, od, a) == cell(ow, od, b)
                        &&& cell(ow, od, a) != 46
                        &&& skip as int <= t < skip as int + take as int
                        &&& #[trigger] pair_ray_idx(ow, oh, a, b, t) == Some(k)
                    };
                let f = cell(ow, od, a);
                assert(orig.valid(a) && orig.spec_at(a) == f);
                assert(orig.valid(b) && orig.spec_at(b) == f);
                orig.lemma_valid_idx(a);
                orig.lemma_valid_idx(b);
                lemma_points_of_upto_complete(&orig, f, glen, a);
                lemma_points_of_upto_complete(&orig, f, glen, b);
                let pts2 = orig.points_of_upto(f, glen);
                let li = choose|li: int| 0 <= li < lists@.len() && lists@[li]@ == pts2;
                let ia = choose|ia: int| 0 <= ia < pts2.len() && pts2[ia] == a;
                let ib = choose|ib: int| 0 <= ib < pts2.len() && pts2[ib] == b;
                assert(ia != ib);
                if ia < ib {
                    assert(lists@[li]@[ia] == a && lists@[li]@[ib] == b);
                    assert(pair_done(ow, oh, skip as int, take as int, a, b, world.data@));
                } else {
                    assert(lists@[li]@[ib] == b && lists@[li]@[ia] == a);
                    assert(pair_done(ow, oh, skip as int, take as int, a, b, world.data@));
                }
                assert(world.data@[k] == 35);
            } else {
                if world.data@[k] != od[k] {
                    assert(false);
                }
            }
        }
        assert(world.data@ =~= marked(ow, oh, od, skip as int, take as int));
        assert(ow == first_line_width(input.spec_bytes()));
        assert(od == without_newlines(input.spec_bytes()));
        assert(oh == od.len() as int / ow);
        assert(usable_grid(input.spec_bytes()));
    }
    r
}

/// A copy of one antenna list.
fn clone_points(pts: &Vec<Point>) -> (r: Vec<Point>)
    ensures
        r@ == pts@,
{
    let mut r: Vec<Point> = Vec::new();
    let mut i: usize = 0;
    while i < pts.len()
        invariant
            0 <= i <= pts@.len(),
            r@ =~= pts@.take(i as int),
        decreases pts@.len() - i,
    {
        r.push(pts[i]);
        proof {
            assert(r@ =~= pts@.take(i + 1));
        }
        i = i + 1;
    }
    proof {
        assert(pts@.take(pts@.len() as int) =~= pts@);
    }
    r
}

/// The buffer index `t` steps along `(drow, dcol)` from `from`, if that
/// cell lies inside a `w` by `h` grid.
pub open spec fn ray_idx(w: int, h: int, from: Point, drow: int, dcol: int, t: int) -> Option<
    int,
> {
    let r = from.row + t * drow;
    let c = from.col + t * dcol;
    if 0 <= r < h && 0 <= c < w {
        Some(r * w + c)
    } else {
        None
    }
}

/// Mark cells along a ray from `from` stepping by the offset, passing over
/// the first `skip` in-grid positions and marking at most `take` more:
/// every changed cell becomes a 35 and sits a counted number of steps along
/// the ray, and every counted in-grid step of the ray ends 35.
fn mark_ray(world: &mut ByteGrid, from: Point, drow: i32, dcol: i32, skip: usize, take: usize)
    requires
        old(world).wf(),
        old(world).valid(from),
        -0x7fff_ffff <= drow <= 0x7fff_ffff,
        -0x7fff_ffff <= dcol <= 0x7fff_ffff,
    ensures
        final(world).wf(),
        final(world).width == old(world).width && final(world).height == old(world).height,
        final(world).data@.len() == old(world).data@.len(),
        forall|k: int|
            0 <= k < final(world).data@.len() && (#[trigger] final(world).data@[k]) != old(
                world,
            ).data@[k] ==> final(world).data@[k] == 35 && exists|t: int|
                skip <= t < skip as int + take as int && #[trigger] ray_idx(
                    old(world).width as int,
                    old(world).height as int,
                    from,
                    drow as int,
                    dcol as int,
                    t,
                ) == Some(k),
        forall|t: int|
            skip <= t < skip as int + take as int ==> match #[trigger] ray_idx(
                old(world).width as int,
                old(world).height as int,
                from,
                drow as int,
                dcol as int,
                t,
            ) {
                Some(k) => 0 <= k < final(world).data@.len() && final(world).data@[k] == 35,
                None => true,
            },
{
    let mut row = from.row as i64;
    let mut col = from.col as i64;
    let mut skipped: usize = 0;
    let mut taken: usize = 0;
    let ghost w0 = old(world).width as int;
    let ghost h0 = old(world).height as int;
    // the ray yields `from` itself first, as the walk starts on the antenna
    while taken < take
        invariant
            world.wf(),
            world.width == old(world).width && world.height == old(world).height,
            world.data@.len() == old(world).data@.len(),
            old(world).valid(from),
            w0 == old(world).width as int && h0 == old(world).height as int,
            -0x7fff_ffff <= drow <= 0x7fff_ffff,
            -0x7fff_ffff <= dcol <= 0x7fff_ffff,
            skipped <= skip,
            taken <= take,
            0 <= row < world.height as int,
            0 <= col < world.width as int,
            row == from.row + (skipped + taken) * (drow as int),
            col == from.col + (skipped + taken) * (dcol as int),
            skipped < skip ==> taken == 0,
            forall|k: int|
                0 <= k < world.data@.len() && (#[trigger] world.data@[k]) != old(world).data@[k]
                    ==> world.data@[k] == 35 && exists|t: int|
                    skip <= t < skip as int + taken as int && #[trigger] ray_idx(
                        w0,
                        h0,
                        from,
                        drow as int,
                        dcol as int,
                        t,
                    ) == Some(k),
            forall|t: int|
                skip <= t < (skipped + taken) as int ==> match #[trigger] ray_idx(
                    w0,
                    h0,
                    from,
                    drow as int,
                    dcol as int,
                    t,
                ) {
                    Some(k) => 0 <= k < world.data@.len() && world.data@[k] == 35,
                    None => true,
                },
        decreases skip - skipped, take - taken,
    {
        let ghost s = skipped as int + taken as int;
        if skipped < skip {
            skipped = skipped + 1;
        } else {
            let p = Point { row: row as i32, col: col as i32 };
            let ghost pre = world.data@;
            proof {
                world.lemma_valid_idx(p);
            }
            world.set_point(p, 35);
            proof {
                assert(world.spec_idx(p) == row * old(world).width + col);
                assert(ray_idx(w0, h0, from, drow as int, dcol as int, s) == Some(
                    world.spec_idx(p),
                ));
                assert forall|k: int|
                    0 <= k < world.data@.len() && (#[trigger] world.data@[k]) != old(
                        world,
                    ).data@[k] implies world.data@[k] == 35 && exists|t: int|
                    skip <= t < skip as int + (taken + 1) as int && #[trigger] ray_idx(
                        w0,
                        h0,
                        from,
                        drow as int,
                        dcol as int,
                        t,
                    ) == Some(k) by {
                    if k != world.spec_idx(p) {
                        assert(world.data@[k] == pre[k]);
                    }
                }
                assert forall|t: int|
                    skip <= t < s + 1 implies match #[trigger] ray_idx(
                    w0,
                    h0,
                    from,
                    drow as int,
                    dcol as int,
                    t,
                ) {
                    Some(k) => 0 <= k < world.data@.len() && world.data@[k] == 35,
                    None => true,
                } by {
                    if ray_idx(w0, h0, from, drow as int, dcol as int, t) is Some {
                        let k = ray_idx(w0, h0, from, drow as int, dcol as int, t)->Some_0;
                        if t == s {
                            assert(k == world.spec_idx(p));
                        } else {
                            assert(0 <= k < pre.len() && pre[k] == 35);
                            if k != world.spec_idx(p) {
                                assert(world.data@[k] == pre[k]);
                            }
                        }
                    }
                }
            }
            taken = taken + 1;
        }
        proof {
            assert((s + 1) * (drow as int) == s * (drow as int) + drow as int) by (nonlinear_arith);
            assert((s + 1) * (dcol as int) == s * (dcol as int) + dcol as int) by (nonlinear_arith);
        }
        let ghost prow = row as int;
        let ghost pcol = col as int;
        row = row + drow as i64;
        col = col + dcol as i64;
        if !(0 <= row && row < world.height as i64 && 0 <= col && col < world.width as i64) {
            proof {
                let dr = drow as int;
                let dc = dcol as int;
                let s1 = s + 1;
                assert(row == from.row + s1 * dr && col == from.col + s1 * dc);
                assert(0 <= prow < h0 && 0 <= pcol < w0);
                assert forall|t: int|
                    skip <= t < skip as int + take as int implies match #[trigger] ray_idx(
                    w0,
                    h0,
                    from,
                    dr,
                    dc,
                    t,
                ) {
                    Some(k) => 0 <= k < world.data@.len() && world.data@[k] == 35,
                    None => true,
                } by {
                    if t >= s1 {
                        // the walk left the grid and each axis moves one way only
                        assert(t * dr == s1 * dr + (t - s1) * dr) by (nonlinear_arith);
                        assert(t * dc == s1 * dc + (t - s1) * dc) by (nonlinear_arith);
                        let rt = from.row + t * dr;
                        let ct = from.col + t * dc;
                        if !(0 <= row && (row as int) < h0) {
                            if (row as int) < 0 {
                                assert(dr < 0);
                                assert((t - s1) * dr <= 0) by (nonlinear_arith)
                                    requires
                                        t - s1 >= 0,
                                        dr < 0,
                                ;
                                assert(rt < 0);
                            } else {
                                assert(dr > 0);
                                assert((t - s1) * dr >= 0) by (nonlinear_arith)
                                    requires
                                        t - s1 >= 0,
                                        dr > 0,
                                ;
                                assert(rt >= h0);
                            }
                        } else {
                            if (col as int) < 0 {
                                assert(dc < 0);
                                assert((t - s1) * dc <= 0) by (nonlinear_arith)
                                    requires
                                        t - s1 >= 0,
                                        dc < 0,
                                ;
                                assert(ct < 0);
                            } else {
                                assert(dc > 0);
                                assert((t - s1) * dc >= 0) by (nonlinear_arith)
                                    requires
                                        t - s1 >= 0,
                                        dc > 0,
                                ;
                                assert(ct >= w0);
                            }
                        }
                        assert(ray_idx(w0, h0, from, dr, dc, t) is None);
                    } else {
                        assert(skip <= t < (skipped + taken) as int);
                    }
                }
            }
            return ;
        }
    }
    proof {
        if take > 0 {
            assert(skipped == skip);
        }
        assert forall|t: int|
            skip <= t < skip as int + take as int implies match #[trigger] ray_idx(
            w0,
            h0,
            from,
            drow as int,
            dcol as int,
            t,
        ) {
            Some(k) => 0 <= k < world.data@.len() && world.data@[k] == 35,
            None => true,
        } by {
            assert(skip <= t < (skipped + taken) as int);
        }
    }
}

} // verus!
