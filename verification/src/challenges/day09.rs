use vstd::prelude::*;

verus! {

use vstd::string::*;
use vstd::multiset::Multiset;

broadcast use vstd::seq_lib::group_to_multiset_ensures;

/// One cell of the expanded disk map: part of a numbered file, or free.
#[derive(Debug, Copy, Clone, PartialEq, Eq, Structural)]
pub enum Block {
    File { id: usize },
    Free,
}

/// The expanded disk map of the digit string: digits at even raw positions
/// spell file lengths with rising ids, digits at odd positions spell gaps,
/// and other bytes are passed over without disturbing the parity.
pub open spec fn blocks_from(s: Seq<u8>, i: int, id: int) -> Seq<Block>
    decreases s.len() - i,
{
    if i < 0 || i >= s.len() {
        seq![]
    } else if !crate::is_digit(s[i]) {
        blocks_from(s, i + 1, id)
    } else {
        let n = (s[i] - 48) as nat;
        if i % 2 == 0 {
            Seq::new(n, |j: int| Block::File { id: id as usize }) + blocks_from(s, i + 1, id + 1)
        } else {
            Seq::new(n, |j: int| Block::Free) + blocks_from(s, i + 1, id)
        }
    }
}

/// Expand a digit string into its disk blocks.
pub fn parse_puzzle(input: &str) -> (r: Vec<Block>)
    requires
        input.spec_bytes().len() <= 0x7fff_ffff,
    ensures
        r@ == blocks_from(input.spec_bytes(), 0, 0),
        r@.len() <= 9 * input.spec_bytes().len(),
{
    let bytes = input.as_bytes();
    let ghost whole = bytes@;
    let mut out: Vec<Block> = Vec::new();
    let mut i: usize = 0;
    let mut id: usize = 0;
    proof {
        assert(out@ + blocks_from(whole, 0, 0) =~= blocks_from(whole, 0, 0));
    }
    while i < bytes.len()
        invariant
            0 <= i <= bytes@.len() <= 0x7fff_ffff,
            bytes@ == whole,
            0 <= id <= i,
            out@.len() <= 9 * i,
            blocks_from(whole, 0, 0) == out@ + blocks_from(whole, i as int, id as int),
        decreases bytes@.len() - i,
    {
        let c = bytes[i];
        if 48 <= c && c <= 57 {
            let n = (c - 48) as usize;
            let ghost before = out@;
            let mut k: usize = 0;
            while k < n
                invariant
                    0 <= k <= n,
                    i < bytes@.len(),
                    bytes@ == whole,
                    whole[i as int] == c,
                    out@.len() == before.len() + k,
                    forall|t: int| 0 <= t < before.len() ==> out@[t] == before[t],
                    forall|t: int|
                        before.len() <= t < out@.len() ==> out@[t] == (if i % 2 == 0 {
                            Block::File { id }
                        } else {
                            Block::Free
                        }),
                decreases n - k,
            {
                if i % 2 == 0 {
                    out.push(Block::File { id });
                } else {
                    out.push(Block::Free);
                }
                k = k + 1;
            }
            proof {
                if i % 2 == 0 {
                    assert(out@ =~= before + Seq::new(n as nat, |j: int| Block::File { id }));
                } else {
                    assert(out@ =~= before + Seq::new(n as nat, |j: int| Block::Free));
                }
                assert(before + (Seq::new(n as nat, |j: int| if i % 2 == 0 {
                    Block::File { id }
                } else {
                    Block::Free
                }) + blocks_from(whole, i + 1, id as int + (if i % 2 == 0 {
                    1int
                } else {
                    0int
                }))) =~= out@ + blocks_from(whole, i + 1, id as int + (if i % 2 == 0 {
                    1int
                } else {
                    0int
                })));
                if i % 2 == 0 {
                    assert(Seq::new(n as nat, |j: int| Block::File { id }) =~= Seq::new(
                        n as nat,
                        |j: int| if i % 2 == 0 {
                            Block::File { id }
                        } else {
                            Block::Free
                        },
                    ));
                } else {
                    assert(Seq::new(n as nat, |j: int| Block::Free) =~= Seq::new(
                        n as nat,
                        |j: int| if i % 2 == 0 {
                            Block::File { id }
                        } else {
                            Block::Free
                        },
                    ));
                }
            }
            if i % 2 == 0 {
                id = id + 1;
            }
        }
        i = i + 1;
    }
    proof {
        assert(blocks_from(whole, i as int, id as int) =~= Seq::<Block>::empty());
        assert(out@ + Seq::<Block>::empty() =~= out@);
    }
    out
}

/// The checksum of a disk layout: each file cell contributes its id times
/// its position.
pub open spec fn spec_score(fs: Seq<Block>) -> int
    decreases fs.len(),
{
    if fs.len() == 0 {
        0
    } else {
        spec_score(fs.drop_last()) + match fs.last() {
            Block::File { id } => id * (fs.len() - 1),
            Block::Free => 0,
        }
    }
}

proof fn lemma_score_prefix_bound(fs: Seq<Block>, i: int)
    requires
        0 <= i <= fs.len(),
    ensures
        0 <= spec_score(fs.take(i)),
        spec_score(fs.take(i)) <= spec_score(fs),
    decreases fs.len() - i,
{
    if i < fs.len() {
        assert(fs.take(i + 1).drop_last() =~= fs.take(i));
        lemma_score_prefix_bound(fs, i + 1);
        assert(spec_score(fs.take(i + 1)) >= spec_score(fs.take(i))) by {
            match fs.take(i + 1).last() {
                Block::File { id } => {
                    assert(id * (fs.take(i + 1).len() - 1) >= 0) by (nonlinear_arith)
                        requires
                            id >= 0,
                            fs.take(i + 1).len() >= 1,
                    ;
                },
                Block::Free => {},
            }
        }
    } else {
        assert(fs.take(i) =~= fs);
    }
    lemma_score_nonneg(fs.take(i));
}

proof fn lemma_score_nonneg(fs: Seq<Block>)
    ensures
        spec_score(fs) >= 0,
    decreases fs.len(),
{
    if fs.len() > 0 {
        lemma_score_nonneg(fs.drop_last());
        match fs.last() {
            Block::File { id } => {
                assert(id * (fs.len() - 1) >= 0) by (nonlinear_arith)
                    requires
                        id >= 0,
                        fs.len() >= 1,
                ;
            },
            Block::Free => {},
        }
    }
}

proof fn lemma_skip_free_bounds(fs: Seq<Block>, r: int)
    requires
        r >= 0,
    ensures
        0 <= skip_free(fs, r) <= r,
    decreases r,
{
    if r > 0 && fs[r - 1] is Free {
        lemma_skip_free_bounds(fs, r - 1);
    }
}

/// Checksum a disk layout; a sum past the machine word saturates to the
/// word's largest value.
pub fn score_fs(fs: &[Block]) -> (r: usize)
    ensures
        spec_score(fs@) <= usize::MAX ==> r == spec_score(fs@),
        spec_score(fs@) > usize::MAX ==> r == usize::MAX,
{
    let mut sum: u128 = 0;
    let mut i: usize = 0;
    proof {
        assert(fs@.take(0) =~= Seq::<Block>::empty());
    }
    while i < fs.len()
        invariant
            0 <= i <= fs@.len(),
            sum == spec_score(fs@.take(i as int)) || (sum == u128::MAX && spec_score(
                fs@.take(i as int),
            ) > u128::MAX),
            sum <= u128::MAX,
        decreases fs@.len() - i,
    {
        proof {
            assert(fs@.take(i + 1).drop_last() =~= fs@.take(i as int));
            assert(fs@.take(i + 1).last() == fs@[i as int]);
            lemma_score_nonneg(fs@.take(i as int));
            lemma_score_nonneg(fs@.take(i + 1));
        }
        match fs[i] {
            Block::File { id } => {
                proof {
                    assert(spec_score(fs@.take(i + 1)) == spec_score(fs@.take(i as int)) + id * (
                    i as int));
                    assert(id * (i as int) >= 0) by (nonlinear_arith)
                        requires
                            id >= 0,
                            i >= 0,
                    ;
                    assert((id as int) * (i as int) <= 0xffff_ffff_ffff_ffff
                        * 0xffff_ffff_ffff_ffffint) by (nonlinear_arith)
                        requires
                            0 <= id <= 0xffff_ffff_ffff_ffffint,
                            0 <= i <= 0xffff_ffff_ffff_ffffint,
                    ;
                }
                let term = (id as u128) * (i as u128);
                if sum > u128::MAX - term {
                    sum = u128::MAX;
                } else {
                    sum = sum + term;
                }
            },
            Block::Free => (),
        }
        i = i + 1;
    }
    proof {
        assert(fs@.take(i as int) =~= fs@);
    }
    if sum > usize::MAX as u128 {
        usize::MAX
    } else {
        sum as usize
    }
}

/// The index just past the last non-free block at or below `r`, walking
/// down over free cells.
pub open spec fn skip_free(fs: Seq<Block>, r: int) -> int
    decreases r,
{
    if r <= 0 {
        0
    } else if fs[r - 1] is Free {
        skip_free(fs, r - 1)
    } else {
        r
    }
}

/// The forward compaction of the disk: file cells stay, and each gap pulls
/// the hindmost remaining file cell forward, with the bookkeeping counter
/// of the reference walk deciding when the two ends meet.
pub open spec fn compact_from(fs: Seq<Block>, f: int, r: int, total: int) -> Seq<Block>
    decreases fs.len() - f,
{
    if f < 0 || f >= fs.len() || total >= fs.len() {
        seq![]
    } else {
        match fs[f] {
            Block::File { id } => seq![Block::File { id }] + compact_from(fs, f + 1, r, total + 1),
            Block::Free => {
                let r2 = skip_free(fs, r);
                let t2 = total + (r - r2);
                if t2 >= fs.len() || r2 <= 0 {
                    seq![]
                } else {
                    match fs[r2 - 1] {
                        Block::File { id } => seq![Block::File { id }] + compact_from(
                            fs,
                            f + 1,
                            r2 - 1,
                            t2 + 2,
                        ),
                        Block::Free => compact_from(fs, f + 1, r2 - 1, t2),
                    }
                }
            },
        }
    }
}

/// The compacted layout the whole disk reaches.
pub open spec fn spec_compacted(fs: Seq<Block>) -> Seq<Block> {
    compact_from(fs, 0, fs.len() as int, 0)
}

/// Compact the disk forward and checksum the result.
pub fn part1(input: &str) -> (r: usize)
    requires
        input.spec_bytes().len() <= 0x7fff_ffff,
    ensures
        ({
            let score = spec_score(spec_compacted(blocks_from(input.spec_bytes(), 0, 0)));
            if score <= usize::MAX {
                r == score
            } else {
                r == usize::MAX
            }
        }),
{
    let fs = parse_puzzle(input);
    let ghost fseq = fs@;
    let mut new_fs: Vec<Block> = Vec::new();
    let len = fs.len();
    let mut f: usize = 0;
    let mut r: usize = len;
    let mut total: usize = 0;
    let mut done = false;
    proof {
        assert(new_fs@ + spec_compacted(fseq) =~= spec_compacted(fseq));
    }
    while !done
        invariant
            fseq == fs@,
            len == fseq.len(),
            len <= 0x5_0000_0000,
            0 <= f <= len,
            0 <= r <= len,
            0 <= total <= len,
            spec_compacted(fseq) =~= new_fs@ + if done {
                seq![]
            } else {
                compact_from(fseq, f as int, r as int, total as int)
            },
        decreases len - f + if done {
            0int
        } else {
            1int
        },
    {
        if f >= len || total >= len {
            done = true;
            proof {
                assert(compact_from(fseq, f as int, r as int, total as int)
                    =~= Seq::<Block>::empty());
                assert(new_fs@ + Seq::<Block>::empty() =~= new_fs@);
            }
            continue;
        }
        let ghost oldnew = new_fs@;
        match fs[f] {
            Block::File { id } => {
                new_fs.push(Block::File { id });
                proof {
                    assert(oldnew + (seq![Block::File { id }] + compact_from(
                        fseq,
                        f + 1,
                        r as int,
                        total + 1,
                    )) =~= new_fs@ + compact_from(fseq, f + 1, r as int, total + 1));
                }
                total = total + 1;
                f = f + 1;
            },
            Block::Free => {
                let r_entry = r;
                let mut scanning = true;
                while scanning
                    invariant
                        fseq == fs@,
                        len == fseq.len(),
                        0 <= r <= r_entry <= len,
                        skip_free(fseq, r_entry as int) == skip_free(fseq, r as int),
                        !scanning ==> skip_free(fseq, r as int) == r,
                    decreases r + if scanning {
                        1int
                    } else {
                        0int
                    },
                {
                    if r == 0 {
                        scanning = false;
                    } else {
                        match fs[r - 1] {
                            Block::Free => {
                                r = r - 1;
                            },
                            Block::File { .. } => {
                                scanning = false;
                            },
                        }
                    }
                }
                let skipped = r_entry - r;
                let ghost entry_total = total as int;
                if skipped >= len - total {
                    total = len;
                } else {
                    total = total + skipped;
                }
                proof {
                    assert((total as int) >= len ==> entry_total + skipped >= len);
                    assert((total as int) < len ==> total as int == entry_total + skipped);
                }
                if total >= len || r == 0 {
                    done = true;
                    proof {
                        assert(compact_from(fseq, f as int, r_entry as int, entry_total)
                            =~= Seq::<Block>::empty());
                        assert(new_fs@ + Seq::<Block>::empty() =~= new_fs@);
                    }
                    continue;
                }
                match fs[r - 1] {
                    Block::File { id } => {
                        new_fs.push(Block::File { id });
                        proof {
                            assert(compact_from(fseq, f as int, r_entry as int, entry_total)
                                =~= seq![Block::File { id }] + compact_from(
                                fseq,
                                f + 1,
                                r - 1,
                                total + 2,
                            ));
                            assert(oldnew + (seq![Block::File { id }] + compact_from(
                                fseq,
                                f + 1,
                                r - 1,
                                total + 2,
                            )) =~= new_fs@ + compact_from(fseq, f + 1, r - 1, total + 2));
                        }
                        let ghost t2 = total as int;
                        r = r - 1;
                        f = f + 1;
                        if 2 >= len - total {
                            total = len;
                            proof {
                                assert(t2 + 2 >= len);
                                assert(compact_from(fseq, f as int, r as int, t2 + 2)
                                    =~= Seq::<Block>::empty());
                                assert(compact_from(fseq, f as int, r as int, len as int)
                                    =~= Seq::<Block>::empty());
                            }
                        } else {
                            total = total + 2;
                        }
                    },
                    Block::Free => {
                        proof {
                            lemma_skip_free_bounds(fseq, r - 1);
                            assert(false);
                        }
                    },
                }
            },
        }
    }
    proof {
        assert(spec_compacted(fseq) =~= new_fs@);
    }
    score_fs(new_fs.as_slice())
}


/// One whole file on the disk: its id, start position and length.
#[derive(Debug, Default, Copy, Clone, PartialEq, Eq, Structural)]
pub struct File {
    pub id: usize,
    pub pos: usize,
    pub size: usize,
}

/// The files of the digit string, with their start positions.
pub open spec fn files_from(s: Seq<u8>, i: int, pos: int, id: int) -> Seq<File>
    decreases s.len() - i,
{
    if i < 0 || i >= s.len() {
        seq![]
    } else if !crate::is_digit(s[i]) {
        files_from(s, i + 1, pos, id)
    } else {
        let n = s[i] - 48;
        if i % 2 == 0 {
            seq![File { id: id as usize, pos: pos as usize, size: n as usize }] + files_from(
                s,
                i + 1,
                pos + n,
                id + 1,
            )
        } else {
            files_from(s, i + 1, pos + n, id)
        }
    }
}

/// Whole-file compaction state: the files in order, and one list of gap
/// positions per gap size from one through nine.
#[derive(Debug)]
pub struct Defragmenter {
    pub gap_to_pos: Vec<Vec<usize>>,
    pub files: Vec<File>,
}

/// The least position a non-empty gap multiset offers.
pub open spec fn ms_min(m: Multiset<usize>) -> usize {
    choose|x: usize| m.count(x) > 0 && (forall|y: usize| #[trigger] m.count(y) > 0 ==> x <= y)
}

/// The gap lists read as multisets of start positions, one per size.
pub open spec fn gaps_view(gaps: Seq<Vec<usize>>) -> Seq<Multiset<usize>> {
    gaps.map_values(|v: Vec<usize>| v@.to_multiset())
}

/// The gap record the digit string spells out: for each length 1 through 9,
/// the starting positions of the free stretches of that length, read with
/// the same parity walk as the files.
pub open spec fn gaps_from(s: Seq<u8>, i: int, pos: int) -> Seq<Multiset<usize>>
    decreases s.len() - i,
{
    if i < 0 || i >= s.len() {
        Seq::new(9, |k: int| Multiset::empty())
    } else {
        let c = s[i];
        if 48 <= c <= 57 {
            let size = (c - 48) as int;
            let rest = gaps_from(s, i + 1, pos + size);
            if i % 2 != 0 && size > 0 && 0 <= pos <= usize::MAX {
                rest.update(size - 1, rest[size - 1].insert(pos as usize))
            } else {
                rest
            }
        } else {
            gaps_from(s, i + 1, pos)
        }
    }
}

/// Two gap records merged size by size.
pub open spec fn gaps_add(a: Seq<Multiset<usize>>, b: Seq<Multiset<usize>>) -> Seq<
    Multiset<usize>,
> {
    Seq::new(a.len(), |k: int| a[k].add(b[k]))
}

proof fn lemma_gaps_from_len(s: Seq<u8>, i: int, pos: int)
    ensures
        gaps_from(s, i, pos).len() == 9,
    decreases s.len() - i,
{
    if i < 0 || i >= s.len() {
    } else {
        let c = s[i];
        if 48 <= c <= 57 {
            lemma_gaps_from_len(s, i + 1, pos + (c - 48) as int);
        } else {
            lemma_gaps_from_len(s, i + 1, pos);
        }
    }
}

/// Scan the gap sizes a file fits, ascending, keeping the strictly
/// smallest recorded start; ties keep the earlier, smaller size.
pub open spec fn scan_gaps(
    gaps: Seq<Multiset<usize>>,
    size: int,
    found: bool,
    bs: int,
    bp: int,
) -> (bool, int, int)
    decreases 10 - size,
{
    if size >= 10 || !(0 <= size - 1 < gaps.len()) {
        (found, bs, bp)
    } else {
        let m = gaps[size - 1];
        if m.len() > 0 && (ms_min(m) as int) < bp {
            scan_gaps(gaps, size + 1, true, size, ms_min(m) as int)
        } else {
            scan_gaps(gaps, size + 1, found, bs, bp)
        }
    }
}

/// One file's turn at the whole-file compaction: it moves to the smallest
/// recorded gap start that fits and lies strictly left, that gap is
/// consumed, and any length the file does not cover is re-registered.
pub open spec fn defrag_one(files: Seq<File>, gaps: Seq<Multiset<usize>>, fi: int) -> (
    Seq<File>,
    Seq<Multiset<usize>>,
) {
    let f = files[fi];
    if !(1 <= f.size <= 9) {
        (files, gaps)
    } else {
        let s = scan_gaps(gaps, f.size as int, false, 0, usize::MAX as int);
        if s.0 && s.2 < f.pos {
            let bs = s.1;
            let bp = s.2;
            let g1 = gaps.update(bs - 1, gaps[bs - 1].remove(bp as usize));
            let g2 = if f.size < bs && bp <= 0xffff_fff7 {
                g1.update(
                    bs - f.size - 1,
                    g1[bs - f.size - 1].insert((bp + f.size) as usize),
                )
            } else {
                g1
            };
            (files.update(fi, File { pos: bp as usize, ..f }), g2)
        } else {
            (files, gaps)
        }
    }
}

/// The compaction folded over the files, hindmost first.
pub open spec fn defrag_fold(files: Seq<File>, gaps: Seq<Multiset<usize>>, k: int) -> (
    Seq<File>,
    Seq<Multiset<usize>>,
)
    decreases k,
{
    if k <= 0 {
        (files, gaps)
    } else {
        let prev = defrag_fold(files, gaps, k - 1);
        defrag_one(prev.0, prev.1, files.len() - k)
    }
}

/// A gap list's minimum value is the minimum of its multiset.
proof fn lemma_vec_min_is_ms_min(v: Seq<usize>, m: usize)
    requires
        v.contains(m),
        forall|k: int| 0 <= k < v.len() ==> m <= #[trigger] v[k],
    ensures
        v.to_multiset().len() > 0,
        ms_min(v.to_multiset()) == m,
{
    broadcast use vstd::seq_lib::group_to_multiset_ensures;

    assert(v.to_multiset().count(m) > 0);
    assert forall|y: usize| #[trigger] v.to_multiset().count(y) > 0 implies m <= y by {
        assert(v.contains(y));
    }
    let x = ms_min(v.to_multiset());
    assert(v.to_multiset().count(x) > 0 && (forall|y: usize| #[trigger]
        v.to_multiset().count(y) > 0 ==> x <= y)) by {
        assert(v.to_multiset().count(m) > 0 && (forall|y: usize| #[trigger]
            v.to_multiset().count(y) > 0 ==> m <= y));
    }
    assert(x <= m && m <= x);
}

impl Defragmenter {
    /// Read the digit string into files and gap lists.
    pub fn new(input: &str) -> (r: Defragmenter)
        requires
            input.spec_bytes().len() <= 0x0fff_ffff,
        ensures
            r.files@ == files_from(input.spec_bytes(), 0, 0, 0),
            r.gap_to_pos@.len() == 9,
            gaps_view(r.gap_to_pos@) == gaps_from(input.spec_bytes(), 0, 0),
            forall|k: int|
                0 <= k < r.files@.len() ==> {
                    let f = #[trigger] r.files@[k];
                    f.id <= 0x0fff_ffff && f.pos <= 0xffff_fff7 && f.size <= 9
                },
    {
        let bytes = input.as_bytes();
        let ghost whole = bytes@;
        let mut gaps: Vec<Vec<usize>> = Vec::new();
        let mut gi: usize = 0;
        while gi < 9
            invariant
                gaps@.len() == gi <= 9,
                forall|t: int| 0 <= t < gi ==> (#[trigger] gaps@[t])@.len() == 0,
            decreases 9 - gi,
        {
            gaps.push(Vec::new());
            gi = gi + 1;
        }
        let mut files: Vec<File> = Vec::new();
        let mut pos: usize = 0;
        let mut id: usize = 0;
        let mut i: usize = 0;
        proof {
            assert(files@ + files_from(whole, 0, 0, 0) =~= files_from(whole, 0, 0, 0));
            lemma_gaps_from_len(whole, 0, 0);
            assert forall|k: int| 0 <= k < 9 implies gaps_view(gaps@)[k].add(gaps_from(
                whole,
                0,
                0,
            )[k]) == gaps_from(whole, 0, 0)[k] by {
                assert forall|x: usize| gaps@[k]@.to_multiset().count(x) == 0 by {
                    assert(!gaps@[k]@.contains(x));
                }
                assert(gaps_view(gaps@)[k].add(gaps_from(whole, 0, 0)[k]) =~= gaps_from(
                    whole,
                    0,
                    0,
                )[k]);
            }
            assert(gaps_add(gaps_view(gaps@), gaps_from(whole, 0, 0)) =~= gaps_from(
                whole,
                0,
                0,
            ));
        }
        while i < bytes.len()
            invariant
                0 <= i <= bytes@.len() <= 0x0fff_ffff,
                bytes@ == whole,
                0 <= id <= i,
                0 <= pos <= 9 * i,
                gaps@.len() == 9,
                gaps_from(whole, 0, 0) == gaps_add(
                    gaps_view(gaps@),
                    gaps_from(whole, i as int, pos as int),
                ),
                files_from(whole, 0, 0, 0) == files@ + files_from(
                    whole,
                    i as int,
                    pos as int,
                    id as int,
                ),
                forall|k: int|
                    0 <= k < files@.len() ==> {
                        let f = #[trigger] files@[k];
                        f.id <= 0x0fff_ffff && f.pos <= 0xffff_fff7 && f.size <= 9
                    },
            decreases bytes@.len() - i,
        {
            let c = bytes[i];
            if 48 <= c && c <= 57 {
                let size = (c - 48) as usize;
                if i % 2 == 0 {
                    let ghost oldfiles = files@;
                    files.push(File { id, pos, size });
                    proof {
                        assert(oldfiles + (seq![File { id, pos, size }] + files_from(
                            whole,
                            i + 1,
                            pos + size,
                            id + 1,
                        )) =~= files@ + files_from(whole, i + 1, pos + size, id + 1));
                    }
                    id = id + 1;
                } else if size > 0 {
                    let ghost pre_outer = gaps@;
                    let ghost gvpre = gaps_view(gaps@);
                    let mut gl = match gaps.remove(size - 1) {
                        g => g,
                    };
                    let ghost gl_pre = gl@;
                    gl.push(pos);
                    proof {
                        assert(gl@.to_multiset() =~= gl_pre.to_multiset().insert(pos));
                    }
                    gaps.insert(size - 1, gl);
                    proof {
                        assert(gaps@.len() == 9);
                        assert(gaps@ =~= pre_outer.update(
                            size as int - 1,
                            gaps@[size as int - 1],
                        ));
                        assert(gaps_view(gaps@) =~= gvpre.update(
                            size as int - 1,
                            gvpre[size as int - 1].insert(pos),
                        ));
                        let rest = gaps_from(whole, i + 1, pos as int + size as int);
                        lemma_gaps_from_len(whole, i + 1, pos as int + size as int);
                        assert(gaps_from(whole, i as int, pos as int) == rest.update(
                            size as int - 1,
                            rest[size as int - 1].insert(pos),
                        ));
                        assert forall|k: int| 0 <= k < 9 implies gaps_add(
                            gvpre,
                            gaps_from(whole, i as int, pos as int),
                        )[k] == gaps_add(gaps_view(gaps@), rest)[k] by {
                            if k == size as int - 1 {
                                assert(gvpre[k].add(rest[k].insert(pos)) =~= gvpre[k].insert(
                                    pos,
                                ).add(rest[k]));
                            }
                        }
                        assert(gaps_add(gvpre, gaps_from(whole, i as int, pos as int))
                            =~= gaps_add(gaps_view(gaps@), rest));
                    }
                }
                pos = pos + size;
            }
            i = i + 1;
        }
        proof {
            assert(files_from(whole, i as int, pos as int, id as int) =~= Seq::<File>::empty());
            assert(files@ + Seq::<File>::empty() =~= files@);
            lemma_gaps_from_len(whole, 0, 0);
            let rest = gaps_from(whole, i as int, pos as int);
            assert forall|k: int| 0 <= k < 9 implies gaps_add(gaps_view(gaps@), rest)[k]
                == gaps_view(gaps@)[k] by {
                assert(rest[k] == Multiset::<usize>::empty());
                assert(gaps_view(gaps@)[k].add(rest[k]) =~= gaps_view(gaps@)[k]);
            }
            assert(gaps_view(gaps@) =~= gaps_add(gaps_view(gaps@), rest));
        }
        Defragmenter { gap_to_pos: gaps, files }
    }

    /// Move each file, hindmost first, into the smallest recorded gap start
    /// that fits it and lies strictly left, consuming the gap and
    /// re-registering whatever length the file leaves over.  Every file
    /// keeps its id and size and never moves rightwards.
    pub fn defragment(&mut self)
        requires
            old(self).gap_to_pos@.len() == 9,
        ensures
            final(self).files@ == defrag_fold(
                old(self).files@,
                gaps_view(old(self).gap_to_pos@),
                old(self).files@.len() as int,
            ).0,
            gaps_view(final(self).gap_to_pos@) == defrag_fold(
                old(self).files@,
                gaps_view(old(self).gap_to_pos@),
                old(self).files@.len() as int,
            ).1,
            final(self).files@.len() == old(self).files@.len(),
            forall|k: int|
                0 <= k < final(self).files@.len() ==> {
                    let f = #[trigger] final(self).files@[k];
                    let g = old(self).files@[k];
                    f.id == g.id && f.size == g.size && f.pos <= g.pos
                },
            final(self).gap_to_pos@.len() == 9,
    {
        let ghost forig = self.files@;
        let ghost gorig = gaps_view(self.gap_to_pos@);
        let n = self.files.len();
        let mut step: usize = 0;
        proof {
            assert((self.files@, gaps_view(self.gap_to_pos@)) == defrag_fold(forig, gorig, 0));
        }
        while step < n
            invariant
                self.gap_to_pos@.len() == 9,
                0 <= step <= n,
                n == self.files@.len() == forig.len(),
                self.files@ == defrag_fold(forig, gorig, step as int).0,
                gaps_view(self.gap_to_pos@) == defrag_fold(forig, gorig, step as int).1,
                forall|k: int|
                    0 <= k < n ==> {
                        let f = #[trigger] self.files@[k];
                        let g = forig[k];
                        f.id == g.id && f.size == g.size && f.pos <= g.pos
                    },
            decreases n - step,
        {
            let fi = n - 1 - step;
            let file = self.files[fi];
            let ghost pre_files = self.files@;
            let ghost pre_gv = gaps_view(self.gap_to_pos@);
            if file.size >= 1 && file.size <= 9 {
                // pick the smallest gap position among the sizes that fit
                let mut size_for_smallest: usize = 0;
                let mut smallest_pos: usize = usize::MAX;
                let mut found = false;
                let mut size = file.size;
                while size < 10
                    invariant
                        self.gap_to_pos@.len() == 9,
                        pre_gv == gaps_view(self.gap_to_pos@),
                        1 <= file.size <= size <= 10,
                        found ==> 1 <= size_for_smallest <= 9 && file.size <= size_for_smallest,
                        found ==> smallest_pos < usize::MAX,
                        found ==> pre_gv[size_for_smallest - 1].len() > 0 && ms_min(
                            pre_gv[size_for_smallest - 1],
                        ) == smallest_pos,
                        scan_gaps(pre_gv, file.size as int, false, 0, usize::MAX as int)
                            == scan_gaps(
                            pre_gv,
                            size as int,
                            found,
                            size_for_smallest as int,
                            smallest_pos as int,
                        ),
                    decreases 10 - size,
                {
                    let gl = &self.gap_to_pos[size - 1];
                    proof {
                        assert(pre_gv[size - 1] == gl@.to_multiset());
                    }
                    match vec_min(gl) {
                        Some(p) => {
                            proof {
                                let m = choose|m: usize|
                                    gl@.contains(m) && m == p && (forall|k: int|
                                        0 <= k < gl@.len() ==> m <= #[trigger] gl@[k]);
                                lemma_vec_min_is_ms_min(gl@, p);
                            }
                            if p < smallest_pos {
                                smallest_pos = p;
                                size_for_smallest = size;
                                found = true;
                            }
                        },
                        None => {
                            proof {
                                assert(gl@.to_multiset().len() == 0);
                            }
                        },
                    }
                    size = size + 1;
                }
                proof {
                    assert(scan_gaps(pre_gv, 10, found, size_for_smallest as int,
                        smallest_pos as int) == (found, size_for_smallest as int,
                    smallest_pos as int));
                }
                if found && smallest_pos < file.pos {
                    // take the gap and return what the file does not cover
                    let gl = &self.gap_to_pos[size_for_smallest - 1];
                    match vec_min_index(gl) {
                        Some(gidx) => {
                            let ghost pre_outer = self.gap_to_pos@;
                            let mut taken = match self.gap_to_pos.remove(size_for_smallest - 1) {
                                g => g,
                            };
                            let new_pos = taken[gidx];
                            proof {
                                // the indexed minimum is the minimum value
                                assert(taken@.contains(taken@[gidx as int]));
                                assert(pre_gv[size_for_smallest as int - 1]
                                    == taken@.to_multiset());
                                assert(forall|k: int|
                                    0 <= k < taken@.len() ==> taken@[gidx as int]
                                        <= #[trigger] taken@[k]);
                                lemma_vec_min_is_ms_min(taken@, new_pos);
                                assert(new_pos == smallest_pos);
                            }
                            let ghost pre_list = taken@;
                            taken.remove(gidx);
                            proof {
                                assert(taken@.to_multiset() =~= pre_list.to_multiset().remove(
                                    new_pos,
                                ));
                            }
                            self.gap_to_pos.insert(size_for_smallest - 1, taken);
                            proof {
                                assert(self.gap_to_pos@ =~= pre_outer.update(
                                    size_for_smallest as int - 1,
                                    self.gap_to_pos@[size_for_smallest as int - 1],
                                ));
                                assert(gaps_view(self.gap_to_pos@) =~= pre_gv.update(
                                    size_for_smallest as int - 1,
                                    pre_gv[size_for_smallest as int - 1].remove(smallest_pos),
                                ));
                            }
                            if file.size < size_for_smallest && new_pos <= 0xffff_fff7 {
                                let remaining_size = size_for_smallest - file.size;
                                let remaining_pos = new_pos + file.size;
                                let ghost mid_outer = self.gap_to_pos@;
                                let ghost mid_gv = gaps_view(self.gap_to_pos@);
                                let mut rl = match self.gap_to_pos.remove(remaining_size - 1) {
                                    g => g,
                                };
                                let ghost rl_pre = rl@;
                                rl.push(remaining_pos);
                                proof {
                                    assert(rl@.to_multiset() =~= rl_pre.to_multiset().insert(
                                        remaining_pos,
                                    ));
                                }
                                self.gap_to_pos.insert(remaining_size - 1, rl);
                                proof {
                                    assert(self.gap_to_pos@ =~= mid_outer.update(
                                        remaining_size as int - 1,
                                        self.gap_to_pos@[remaining_size as int - 1],
                                    ));
                                    assert(gaps_view(self.gap_to_pos@) =~= mid_gv.update(
                                        remaining_size as int - 1,
                                        mid_gv[remaining_size as int - 1].insert(remaining_pos),
                                    ));
                                }
                            }
                            if new_pos < file.pos {
                                let ghost oldfiles = self.files@;
                                let updated = File { id: file.id, pos: new_pos, size: file.size };
                                self.files[fi] = updated;
                                proof {
                                    assert(self.files@ =~= oldfiles.update(fi as int, updated));
                                }
                            }
                            proof {
                                assert((self.files@, gaps_view(self.gap_to_pos@)) == defrag_one(
                                    pre_files,
                                    pre_gv,
                                    fi as int,
                                ));
                            }
                        },
                        None => {
                            proof {
                                assert(false);
                            }
                        },
                    }
                } else {
                    proof {
                        assert((self.files@, gaps_view(self.gap_to_pos@)) == defrag_one(
                            pre_files,
                            pre_gv,
                            fi as int,
                        ));
                    }
                }
            } else {
                proof {
                    assert((self.files@, gaps_view(self.gap_to_pos@)) == defrag_one(
                        pre_files,
                        pre_gv,
                        fi as int,
                    ));
                }
            }
            proof {
                assert(defrag_fold(forig, gorig, step as int + 1) == defrag_one(
                    defrag_fold(forig, gorig, step as int).0,
                    defrag_fold(forig, gorig, step as int).1,
                    forig.len() - (step as int + 1),
                ));
            }
            step = step + 1;
        }
    }
}

/// The smallest entry of a gap list, if any.
fn vec_min(v: &Vec<usize>) -> (r: Option<usize>)
    ensures
        r is Some <==> v@.len() > 0,
        r matches Some(m) ==> v@.contains(m) && (forall|k: int| 0 <= k < v@.len() ==> m <= #[trigger] v@[k]),
{
    if v.len() == 0 {
        return None;
    }
    let mut m = v[0];
    let mut i: usize = 1;
    proof {
        assert(v@.contains(v@[0]));
    }
    while i < v.len()
        invariant
            1 <= i <= v@.len(),
            v@.contains(m),
            forall|k: int| 0 <= k < i ==> m <= #[trigger] v@[k],
        decreases v@.len() - i,
    {
        if v[i] < m {
            m = v[i];
            proof {
                assert(v@.contains(v@[i as int]));
            }
        }
        i = i + 1;
    }
    Some(m)
}

/// The index of a smallest entry of a gap list, if any.
fn vec_min_index(v: &Vec<usize>) -> (r: Option<usize>)
    ensures
        r is Some <==> v@.len() > 0,
        r matches Some(idx) ==> idx < v@.len() && (forall|k: int|
            0 <= k < v@.len() ==> v@[idx as int] <= #[trigger] v@[k]),
{
    if v.len() == 0 {
        return None;
    }
    let mut best: usize = 0;
    let mut i: usize = 1;
    while i < v.len()
        invariant
            1 <= i <= v@.len(),
            best < i,
            forall|k: int| 0 <= k < i ==> v@[best as int] <= #[trigger] v@[k],
        decreases v@.len() - i,
    {
        if v[i] < v[best] {
            best = i;
        }
        i = i + 1;
    }
    Some(best)
}

/// The checksum contribution of one file: its id times each position it
/// covers.
pub open spec fn file_score(f: File, k: int) -> int
    decreases k,
{
    if k <= 0 {
        0
    } else {
        file_score(f, k - 1) + f.id * (f.pos + k - 1)
    }
}

/// The checksum of a run of files.
pub open spec fn files_score(fs: Seq<File>) -> int
    decreases fs.len(),
{
    if fs.len() == 0 {
        0
    } else {
        files_score(fs.drop_last()) + file_score(fs.last(), fs.last().size as int)
    }
}

proof fn lemma_file_score_bound(f: File, k: int)
    requires
        0 <= k <= 9,
        f.id <= 0x0fff_ffff,
        f.pos <= 0xffff_fff7,
    ensures
        0 <= file_score(f, k) <= k * 0x1000_0000_0000_0000,
    decreases k,
{
    if k > 0 {
        lemma_file_score_bound(f, k - 1);
        assert(0 <= f.id * (f.pos + k - 1) <= 0x1000_0000_0000_0000int) by (nonlinear_arith)
            requires
                0 <= f.id <= 0x0fff_ffff,
                0 <= f.pos <= 0xffff_fff7,
                0 < k <= 9,
        ;
    }
}

/// Checksum the files after whole-file compaction.  A total beyond the
/// machine word saturates to the word's largest value.
pub fn score_files(files: &Vec<File>) -> (r: usize)
    requires
        forall|k: int|
            0 <= k < files@.len() ==> {
                let f = #[trigger] files@[k];
                f.id <= 0x0fff_ffff && f.pos <= 0xffff_fff7 && f.size <= 9
            },
    ensures
        files_score(files@) <= usize::MAX ==> r == files_score(files@),
        files_score(files@) > usize::MAX ==> r == usize::MAX,
{
    let mut sum: u128 = 0;
    let mut i: usize = 0;
    proof {
        assert(files@.take(0) =~= Seq::<File>::empty());
    }
    while i < files.len()
        invariant
            0 <= i <= files@.len(),
            forall|k: int|
                0 <= k < files@.len() ==> {
                    let f = #[trigger] files@[k];
                    f.id <= 0x0fff_ffff && f.pos <= 0xffff_fff7 && f.size <= 9
                },
            sum == files_score(files@.take(i as int)),
            sum <= i * 0x9000_0000_0000_0000,
        decreases files@.len() - i,
    {
        let f = files[i];
        proof {
            assert(files@.take(i + 1).drop_last() =~= files@.take(i as int));
            assert(files@.take(i + 1).last() == files@[i as int]);
            lemma_file_score_bound(files@[i as int], files@[i as int].size as int);
            assert(sum + file_score(files@[i as int], files@[i as int].size as int) <= (i + 1)
                * 0x9000_0000_0000_0000int) by (nonlinear_arith)
                requires
                    sum <= i * 0x9000_0000_0000_0000int,
                    0 <= file_score(files@[i as int], files@[i as int].size as int) <= 9
                        * 0x1000_0000_0000_0000int,
                    i >= 0,
            ;
            assert((i + 1) * 0x9000_0000_0000_0000int
                <= 0x9000_0000_0000_0000_0000_0000_0000_0000int) by (nonlinear_arith)
                requires
                    0 <= i <= 0xffff_ffff_ffff_ffffint,
            ;
        }
        let mut k: usize = 0;
        let ghost fg = files@[i as int];
        while k < f.size
            invariant
                f == fg,
                f.id <= 0x0fff_ffff && f.pos <= 0xffff_fff7 && f.size <= 9,
                0 <= k <= f.size,
                sum == files_score(files@.take(i as int)) + file_score(fg, k as int),
                sum <= i * 0x9000_0000_0000_0000 + k * 0x1000_0000_0000_0000,
            decreases f.size - k,
        {
            proof {
                lemma_file_score_bound(fg, k + 1);
                assert(0 <= fg.id * (fg.pos + k) <= 0x1000_0000_0000_0000int) by (nonlinear_arith)
                    requires
                        0 <= fg.id <= 0x0fff_ffff,
                        0 <= fg.pos <= 0xffff_fff7,
                        0 <= k <= 9,
                ;
                assert(i * 0x9000_0000_0000_0000int + 10 * 0x1000_0000_0000_0000int
                    <= 0x9000_0000_0000_0000_0000_0000_0000_0000int
                        + 0x1000_0000_0000_0000_0000int) by (nonlinear_arith)
                    requires
                        0 <= i <= 0xffff_ffff_ffff_ffffint,
                ;
            }
            sum = sum + (f.id as u128) * ((f.pos + k) as u128);
            k = k + 1;
        }
        i = i + 1;
    }
    proof {
        assert(files@.take(i as int) =~= files@);
    }
    if sum > usize::MAX as u128 {
        usize::MAX
    } else {
        sum as usize
    }
}

/// Compact whole files leftward and checksum the disk.
pub fn part2(input: &str) -> (r: usize)
    requires
        input.spec_bytes().len() <= 0x0fff_ffff,
    ensures
        ({
            let orig = files_from(input.spec_bytes(), 0, 0, 0);
            let moved = defrag_fold(
                orig,
                gaps_from(input.spec_bytes(), 0, 0),
                orig.len() as int,
            ).0;
            if files_score(moved) <= usize::MAX {
                r == files_score(moved)
            } else {
                r == usize::MAX
            }
        }),
{
    let mut defragmenter = Defragmenter::new(input);
    let ghost orig_files = defragmenter.files@;
    defragmenter.defragment();
    proof {
        assert forall|k: int| 0 <= k < defragmenter.files@.len() implies {
            let f = #[trigger] defragmenter.files@[k];
            f.id <= 0x0fff_ffff && f.pos <= 0xffff_fff7 && f.size <= 9
        } by {
            assert(orig_files[k].id <= 0x0fff_ffff && orig_files[k].pos <= 0xffff_fff7
                && orig_files[k].size <= 9);
        }
    }
    let r = score_files(&defragmenter.files);
    proof {
        let fs = defragmenter.files@;
        assert(fs.len() == files_from(input.spec_bytes(), 0, 0, 0).len());
    }
    r
}


} // verus!
