use vstd::prelude::*;

verus! {

use std::collections::HashMap;
use vstd::string::*;
use vstd::multiset::Multiset;
use min_max_heap::MinMaxHeap;

broadcast use vstd::std_specs::hash::group_hash_axioms;

#[verifier::external_type_specification]
#[verifier::external_body]
#[verifier::reject_recursive_types(T)]
pub struct ExMinMaxHeap<T>(MinMaxHeap<T>);

/// What the heap holds, as a multiset of its indexes.
pub uninterp spec fn heap_elems(h: MinMaxHeap<usize>) -> Multiset<int>;

/// Relies on min-max-heap's MinMaxHeap::new: a fresh heap holds nothing.
#[verifier::external_body]
fn heap_new() -> (h: MinMaxHeap<usize>)
    ensures
        heap_elems(h) == Multiset::<int>::empty(),
{
    MinMaxHeap::new()
}

/// Relies on min-max-heap's MinMaxHeap::push: the element joins the heap.
#[verifier::external_body]
fn heap_push(h: &mut MinMaxHeap<usize>, v: usize)
    ensures
        heap_elems(*final(h)) == heap_elems(*old(h)).insert(v as int),
{
    h.push(v)
}

/// Relies on min-max-heap's MinMaxHeap::pop_min: the least element leaves
/// the heap, and nothing comes out of an empty heap.
#[verifier::external_body]
fn heap_pop_min(h: &mut MinMaxHeap<usize>) -> (r: Option<usize>)
    ensures
        r is None <==> heap_elems(*old(h)).len() == 0,
        r is None ==> heap_elems(*final(h)) == heap_elems(*old(h)) && (forall|x: int|
            heap_elems(*old(h)).count(x) == 0),
        r matches Some(m) ==> heap_elems(*old(h)).count(m as int) > 0 && heap_elems(*final(h))
            == heap_elems(*old(h)).remove(m as int) && (forall|x: int|
            heap_elems(*old(h)).count(x) > 0 ==> m as int <= x),
{
    h.pop_min()
}

/// The alphabet's chunks, each as its bytes.
pub open spec fn alphabet_bytes(a: Seq<&str>) -> Seq<Seq<u8>> {
    a.map_values(|t: &str| t.spec_bytes())
}

/// `word` up to `e` splits into a run of alphabet chunks: a rising cut list
/// from zero to `e` whose every piece is a chunk.
pub open spec fn tiled_prefix(word: Seq<u8>, alphabet: Seq<Seq<u8>>, e: int) -> bool {
    exists|cuts: Seq<int>|
        {
            &&& cuts.len() >= 1
            &&& cuts[0] == 0
            &&& cuts.last() == e
            &&& forall|i: int| 0 <= i < cuts.len() - 1 ==> #[trigger] cuts[i] < cuts[i + 1]
            &&& forall|i: int|
                0 <= i < cuts.len() - 1 ==> alphabet.contains(
                    #[trigger] word.subrange(cuts[i], cuts[i + 1]),
                )
        }
}

proof fn lemma_tiled_zero(word: Seq<u8>, alphabet: Seq<Seq<u8>>)
    ensures
        tiled_prefix(word, alphabet, 0),
{
    let cuts = seq![0int];
    assert(cuts.len() >= 1 && cuts[0] == 0 && cuts.last() == 0);
}

proof fn lemma_tiled_extend(word: Seq<u8>, alphabet: Seq<Seq<u8>>, e: int, e2: int)
    requires
        tiled_prefix(word, alphabet, e),
        e < e2,
        alphabet.contains(word.subrange(e, e2)),
    ensures
        tiled_prefix(word, alphabet, e2),
{
    let cuts = choose|cuts: Seq<int>|
        {
            &&& cuts.len() >= 1
            &&& cuts[0] == 0
            &&& cuts.last() == e
            &&& forall|i: int| 0 <= i < cuts.len() - 1 ==> #[trigger] cuts[i] < cuts[i + 1]
            &&& forall|i: int|
                0 <= i < cuts.len() - 1 ==> alphabet.contains(
                    #[trigger] word.subrange(cuts[i], cuts[i + 1]),
                )
        };
    let longer = cuts.push(e2);
    assert(longer[0] == cuts[0] && longer.last() == e2);
    assert forall|i: int| 0 <= i < longer.len() - 1 implies #[trigger] longer[i] < longer[i
        + 1] by {
        if i < cuts.len() - 1 {
            assert(longer[i] == cuts[i] && longer[i + 1] == cuts[i + 1]);
        } else {
            assert(longer[i] == cuts.last() && longer[i + 1] == e2);
        }
    }
    assert forall|i: int| 0 <= i < longer.len() - 1 implies alphabet.contains(
        #[trigger] word.subrange(longer[i], longer[i + 1]),
    ) by {
        if i < cuts.len() - 1 {
            assert(longer[i] == cuts[i] && longer[i + 1] == cuts[i + 1]);
        } else {
            assert(longer[i] == cuts.last() && longer[i + 1] == e2);
        }
    }
}

/// A finite set of indexes bounded by `n` holds at most `n + 1` of them.
proof fn lemma_bounded_index_card(s: Set<usize>, n: int)
    requires
        s.finite(),
        n >= 0,
        forall|k: usize| #[trigger] s.contains(k) ==> k <= n,
    ensures
        s.len() <= n + 1,
    decreases n,
{
    if n == 0 {
        if s.len() > 1 {
            let a = s.choose();
            assert(s.contains(a));
            let s2 = s.remove(a);
            let b = s2.choose();
            assert(s2.len() > 0);
            assert(s2.contains(b));
            assert(s.contains(b));
            assert(a == b);
            assert(false);
        }
    } else {
        let top = n as usize;
        if s.contains(top) {
            lemma_bounded_index_card(s.remove(top), n - 1);
        } else {
            lemma_bounded_index_card(s, n - 1);
        }
    }
}

/// Strictly rising cut lists are monotone across any distance.
proof fn lemma_cuts_mono(cuts: Seq<int>, a: int, b: int)
    requires
        forall|i: int| 0 <= i < cuts.len() - 1 ==> #[trigger] cuts[i] < cuts[i + 1],
        0 <= a < b < cuts.len(),
    ensures
        cuts[a] < cuts[b],
    decreases b - a,
{
    if a + 1 < b {
        lemma_cuts_mono(cuts, a + 1, b);
    }
}

/// Once the frontier is exhausted, walking any tiling's cut list through
/// the processed set shows the final chunk was tallied.
proof fn lemma_cuts_tallied(
    w: Seq<u8>,
    ab: Seq<Seq<u8>>,
    n: int,
    processed: Set<usize>,
    ways: i64,
    cuts: Seq<int>,
    i: int,
)
    requires
        n > 0,
        forall|k: usize, ci: int|
            #![trigger processed.contains(k), ab[ci]]
            processed.contains(k) && 0 <= ci < ab.len() && ab[ci].len() >= 1 && k + ab[ci].len()
                <= n && w.subrange(k as int, k as int + ab[ci].len() as int) == ab[ci] ==> ((
            k + ab[ci].len() < n ==> processed.contains((k + ab[ci].len()) as usize)) && (k
                + ab[ci].len() == n ==> ways >= 1)),
        cuts.len() >= 1,
        cuts[0] == 0,
        cuts.last() == n,
        forall|t: int| 0 <= t < cuts.len() - 1 ==> #[trigger] cuts[t] < cuts[t + 1],
        forall|t: int|
            0 <= t < cuts.len() - 1 ==> ab.contains(#[trigger] w.subrange(cuts[t], cuts[t + 1])),
        0 <= i < cuts.len(),
        0 <= cuts[i] < n,
        processed.contains(cuts[i] as usize),
        w.len() == n,
        n <= usize::MAX,
    ensures
        ways >= 1,
    decreases cuts.len() - i,
{
    if i == cuts.len() - 1 {
        // the last cut equals the word's length, which the walk never
        // reaches below it
        assert(cuts[i] == n);
        assert(false);
    } else {
        let piece = w.subrange(cuts[i], cuts[i + 1]);
        assert(ab.contains(piece));
        let ci = choose|ci: int| 0 <= ci < ab.len() && ab[ci] == piece;
        assert(cuts[i] < cuts[i + 1]);
        if i + 1 < cuts.len() - 1 {
            lemma_cuts_mono(cuts, i + 1, cuts.len() - 1);
        }
        assert(cuts[i + 1] <= n);
        assert(piece.len() == cuts[i + 1] - cuts[i]);
        assert(piece.len() >= 1);
        let k = cuts[i] as usize;
        assert(k + ab[ci].len() == cuts[i + 1]);
        if cuts[i + 1] < n {
            assert(processed.contains((k + ab[ci].len()) as usize));
            lemma_cuts_tallied(w, ab, n, processed, ways, cuts, i + 1);
        } else {
            assert(k + ab[ci].len() == n);
            assert(ways >= 1);
        }
    }
}

/// One step of saturating tally arithmetic.
fn sat_add(a: i64, b: i64) -> (r: i64)
    requires
        a >= 0,
        b >= 0,
    ensures
        r >= a && r >= b && r >= 0,
        a + b <= i64::MAX ==> r == a + b,
        a + b > i64::MAX ==> r == i64::MAX,
{
    if a > i64::MAX - b {
        i64::MAX
    } else {
        a + b
    }
}

/// How many ways `word` splits into a run of alphabet chunks, counted over
/// a frontier of cut positions ordered through a priority queue.  A
/// positive answer comes with a full tiling of the word; the tallies
/// saturate rather than wrap when they outgrow the counter.
pub fn ways_to_make(word: String, alphabet: &Vec<&str>) -> (r: i64)
    ensures
        r >= 0,
        r != 0 ==> tiled_prefix(
            vstd::utf8::encode_utf8(word@),
            alphabet_bytes(alphabet@),
            vstd::utf8::encode_utf8(word@).len() as int,
        ),
        vstd::utf8::encode_utf8(word@).len() > 0 && tiled_prefix(
            vstd::utf8::encode_utf8(word@),
            alphabet_bytes(alphabet@),
            vstd::utf8::encode_utf8(word@).len() as int,
        ) ==> r != 0,
{
    let wbytes = word.as_str().as_bytes();
    let n = wbytes.len();
    let ghost w = wbytes@;
    let ghost ab = alphabet_bytes(alphabet@);
    let mut candidates: MinMaxHeap<usize> = heap_new();
    let mut idx_to_counts: HashMap<usize, i64> = HashMap::new();
    let mut ways: i64 = 0;
    heap_push(&mut candidates, 0);
    idx_to_counts.insert(0, 1);
    let ghost mut processed: Set<usize> = Set::empty();
    proof {
        lemma_tiled_zero(w, ab);
        assert(idx_to_counts@.dom() =~= Set::<usize>::empty().insert(0));
    }
    loop
        invariant
            n == w.len(),
            wbytes@ == w,
            w == vstd::utf8::encode_utf8(word@),
            ab == alphabet_bytes(alphabet@),
            ways >= 0,
            forall|x: int| heap_elems(candidates).count(x) > 0 ==> 0 <= x <= n,
            forall|x: int| #[trigger] heap_elems(candidates).count(x) <= 1,
            forall|x: int|
                heap_elems(candidates).count(x) > 0 ==> idx_to_counts@.contains_key(x as usize),
            forall|k: usize| #[trigger]
                idx_to_counts@.contains_key(k) ==> k <= n && tiled_prefix(w, ab, k as int),
            forall|k: usize| #[trigger]
                idx_to_counts@.contains_key(k) <==> processed.contains(k) || heap_elems(
                    candidates,
                ).count(k as int) > 0,
            forall|k: usize| #[trigger]
                processed.contains(k) ==> heap_elems(candidates).count(k as int) == 0,
            idx_to_counts@.contains_key(0),
            idx_to_counts@.dom().len() <= n + 1,
            forall|k: usize, ci: int|
                #![trigger processed.contains(k), ab[ci]]
                processed.contains(k) && 0 <= ci < ab.len() && ab[ci].len() >= 1 && k
                    + ab[ci].len() <= n && w.subrange(k as int, k as int + ab[ci].len() as int)
                    == ab[ci] ==> ((k + ab[ci].len() < n ==> idx_to_counts@.contains_key(
                    (k + ab[ci].len()) as usize,
                )) && (k + ab[ci].len() == n ==> ways >= 1)),
            ways != 0 ==> tiled_prefix(w, ab, n as int),
        ensures
            ways >= 0,
            ways != 0 ==> tiled_prefix(w, ab, n as int),
            forall|k: usize| #[trigger] idx_to_counts@.contains_key(k) ==> processed.contains(k),
            idx_to_counts@.contains_key(0),
            forall|k: usize, ci: int|
                #![trigger processed.contains(k), ab[ci]]
                processed.contains(k) && 0 <= ci < ab.len() && ab[ci].len() >= 1 && k
                    + ab[ci].len() <= n && w.subrange(k as int, k as int + ab[ci].len() as int)
                    == ab[ci] ==> ((k + ab[ci].len() < n ==> idx_to_counts@.contains_key(
                    (k + ab[ci].len()) as usize,
                )) && (k + ab[ci].len() == n ==> ways >= 1)),
        decreases heap_elems(candidates).len() + (n + 1 - idx_to_counts@.dom().len()),
    {
        proof {
            assert(vstd::std_specs::hash::spec_hash_map_len(&idx_to_counts)
                == idx_to_counts@.dom().len());
        }
        let ghost entry_measure = heap_elems(candidates).len() + (n + 1
            - idx_to_counts@.dom().len());
        let idx = match heap_pop_min(&mut candidates) {
            Some(i) => i,
            None => {
                proof {
                    assert forall|k: usize| #[trigger]
                        idx_to_counts@.contains_key(k) implies processed.contains(k) by {
                        assert(heap_elems(candidates).count(k as int) == 0);
                    }
                }
                break;
            },
        };
        proof {
            assert(heap_elems(candidates).len() + (n + 1 - idx_to_counts@.dom().len())
                < entry_measure);
            assert(!processed.contains(idx));
            processed = processed.insert(idx);
        }
        let cur = match idx_to_counts.get(&idx) {
            Some(c) => *c,
            None => 1,
        };
        let cur_idx_count = if cur < 1 {
            1
        } else {
            cur
        };
        let ghost has_idx_tiling = idx_to_counts@.contains_key(idx);
        let mut ci: usize = 0;
        while ci < alphabet.len()
            invariant
                n == w.len(),
                wbytes@ == w,
                w == vstd::utf8::encode_utf8(word@),
                ab == alphabet_bytes(alphabet@),
                0 <= ci <= alphabet@.len(),
                idx <= n,
                cur_idx_count >= 1,
                ways >= 0,
                has_idx_tiling ==> tiled_prefix(w, ab, idx as int),
                has_idx_tiling,
                forall|x: int| heap_elems(candidates).count(x) > 0 ==> 0 <= x <= n,
                forall|x: int| #[trigger] heap_elems(candidates).count(x) <= 1,
                forall|x: int|
                    heap_elems(candidates).count(x) > 0 ==> idx_to_counts@.contains_key(
                        x as usize,
                    ),
                forall|k: usize| #[trigger]
                    idx_to_counts@.contains_key(k) ==> k <= n && tiled_prefix(w, ab, k as int),
                forall|k: usize| #[trigger]
                    idx_to_counts@.contains_key(k) <==> processed.contains(k) || heap_elems(
                        candidates,
                    ).count(k as int) > 0,
                forall|k: usize| #[trigger]
                    processed.contains(k) ==> heap_elems(candidates).count(k as int) == 0,
                idx_to_counts@.contains_key(0),
                processed.contains(idx),
                idx_to_counts@.dom().len() <= n + 1,
                heap_elems(candidates).len() + (n + 1 - idx_to_counts@.dom().len())
                    < entry_measure,
                // obligations of every earlier frontier cell stay met
                forall|k: usize, ci2: int|
                    #![trigger processed.contains(k), ab[ci2]]
                    processed.contains(k) && k != idx && 0 <= ci2 < ab.len() && ab[ci2].len() >= 1
                        && k + ab[ci2].len() <= n && w.subrange(
                        k as int,
                        k as int + ab[ci2].len() as int,
                    ) == ab[ci2] ==> ((k + ab[ci2].len() < n ==> idx_to_counts@.contains_key(
                        (k + ab[ci2].len()) as usize,
                    )) && (k + ab[ci2].len() == n ==> ways >= 1)),
                // and this cell's are met for the chunks walked so far
                forall|ci2: int|
                    #![trigger ab[ci2]]
                    0 <= ci2 < ci && ab[ci2].len() >= 1 && idx + ab[ci2].len() <= n && w.subrange(
                        idx as int,
                        idx as int + ab[ci2].len() as int,
                    ) == ab[ci2] ==> ((idx + ab[ci2].len() < n ==> idx_to_counts@.contains_key(
                        (idx + ab[ci2].len()) as usize,
                    )) && (idx + ab[ci2].len() == n ==> ways >= 1)),
                ways != 0 ==> tiled_prefix(w, ab, n as int),
            decreases alphabet@.len() - ci,
        {
            let chunk: &str = alphabet[ci];
            let cbytes = chunk.as_bytes();
            let clen = cbytes.len();
            proof {
                assert(ab[ci as int] == alphabet@[ci as int].spec_bytes());
                assert(cbytes@ == ab[ci as int]);
            }
            let matched = clen <= n - idx && matches_at(wbytes, idx, cbytes);
            if matched {
                proof {
                    assert(ab[ci as int] == alphabet@[ci as int].spec_bytes());
                    assert(ab.contains(w.subrange(idx as int, idx + clen)));
                }
                if clen >= n - idx {
                    // the chunk finishes the word
                    proof {
                        if idx < n {
                            lemma_tiled_extend(w, ab, idx as int, n as int);
                        }
                    }
                    ways = sat_add(ways, cur_idx_count);
                    proof {
                        assert(ways != 0);
                        assert(tiled_prefix(w, ab, n as int));
                    }
                } else if clen >= 1 {
                    let new_idx = idx + clen;
                    proof {
                        lemma_tiled_extend(w, ab, idx as int, new_idx as int);
                    }
                    if idx_to_counts.contains_key(&new_idx) {
                        let prev = match idx_to_counts.get(&new_idx) {
                            Some(k) => *k,
                            None => 0,
                        };
                        let prev = if prev < 0 {
                            0
                        } else {
                            prev
                        };
                        let ghost old_dom = idx_to_counts@.dom();
                        idx_to_counts.insert(new_idx, sat_add(prev, cur_idx_count));
                        proof {
                            assert(idx_to_counts@.dom() =~= old_dom);
                        }
                    } else {
                        let ghost old_dom = idx_to_counts@.dom();
                        proof {
                            assert(heap_elems(candidates).count(new_idx as int) == 0);
                        }
                        heap_push(&mut candidates, new_idx);
                        idx_to_counts.insert(new_idx, cur_idx_count);
                        proof {
                            assert(old_dom.finite());
                            assert(idx_to_counts@.dom() =~= old_dom.insert(new_idx));
                            assert(idx_to_counts@.dom().len() == old_dom.len() + 1);
                            lemma_bounded_index_card(idx_to_counts@.dom(), n as int);
                        }
                    }
                    proof {
                        assert(idx_to_counts@.contains_key(new_idx));
                    }
                }
            }
            proof {
                // this round's chunk is settled: matched chunks were tallied
                // or enqueued, and an unmatched chunk owes nothing
                assert forall|ci2: int|
                    #![trigger ab[ci2]]
                    0 <= ci2 < ci + 1 && ab[ci2].len() >= 1 && idx + ab[ci2].len() <= n
                        && w.subrange(idx as int, idx as int + ab[ci2].len() as int) == ab[ci2]
                        implies ((idx + ab[ci2].len() < n ==> idx_to_counts@.contains_key(
                    (idx + ab[ci2].len()) as usize,
                )) && (idx + ab[ci2].len() == n ==> ways >= 1)) by {
                    if ci2 == ci {
                        assert(matched);
                    }
                }
            }
            ci = ci + 1;
        }
        proof {
            assert forall|k: usize, ci2: int|
                #![trigger processed.contains(k), ab[ci2]]
                processed.contains(k) && 0 <= ci2 < ab.len() && ab[ci2].len() >= 1 && k
                    + ab[ci2].len() <= n && w.subrange(k as int, k as int + ab[ci2].len() as int)
                    == ab[ci2] implies ((k + ab[ci2].len() < n ==> idx_to_counts@.contains_key(
                (k + ab[ci2].len()) as usize,
            )) && (k + ab[ci2].len() == n ==> ways >= 1)) by {
                if k == idx {
                }
            }
        }
    }
    proof {
        if n > 0 && tiled_prefix(w, ab, n as int) {
            let cuts = choose|cuts: Seq<int>|
                {
                    &&& cuts.len() >= 1
                    &&& cuts[0] == 0
                    &&& cuts.last() == n as int
                    &&& forall|i: int| 0 <= i < cuts.len() - 1 ==> #[trigger] cuts[i] < cuts[i + 1]
                    &&& forall|i: int|
                        0 <= i < cuts.len() - 1 ==> ab.contains(
                            #[trigger] w.subrange(cuts[i], cuts[i + 1]),
                        )
                };
            assert(processed.contains(0usize));
            assert forall|k: usize, ci: int|
                #![trigger processed.contains(k), ab[ci]]
                processed.contains(k) && 0 <= ci < ab.len() && ab[ci].len() >= 1 && k
                    + ab[ci].len() <= n && w.subrange(k as int, k as int + ab[ci].len() as int)
                    == ab[ci] implies ((k + ab[ci].len() < n ==> processed.contains(
                (k + ab[ci].len()) as usize,
            )) && (k + ab[ci].len() == n ==> ways >= 1)) by {
                if k + ab[ci].len() < n {
                    assert(idx_to_counts@.contains_key((k + ab[ci].len()) as usize));
                }
            }
            lemma_cuts_tallied(w, ab, n as int, processed, ways, cuts, 0);
        }
    }
    ways
}

/// Whether the chunk bytes occur in the word at `at`.
fn matches_at(wbytes: &[u8], at: usize, cbytes: &[u8]) -> (r: bool)
    requires
        at + cbytes@.len() <= wbytes@.len(),
    ensures
        r == (wbytes@.subrange(at as int, at + cbytes@.len()) == cbytes@),
{
    let wl = wbytes.len();
    let mut i: usize = 0;
    while i < cbytes.len()
        invariant
            at + cbytes@.len() <= wbytes@.len(),
            wbytes@.len() == wl,
            0 <= i <= cbytes@.len(),
            forall|k: int| 0 <= k < i ==> wbytes@[at + k] == cbytes@[k],
        decreases cbytes@.len() - i,
    {
        if wbytes[at + i] != cbytes[i] {
            proof {
                assert(wbytes@.subrange(at as int, at + cbytes@.len())[i as int] != cbytes@[
                    i as int]);
            }
            return false;
        }
        i = i + 1;
    }
    proof {
        assert(wbytes@.subrange(at as int, at + cbytes@.len()) =~= cbytes@);
    }
    true
}

/// The least offset of a comma-space pair, or the length.
pub open spec fn first_break(s: Seq<u8>) -> int
    decreases s.len(),
{
    if s.len() < 2 {
        s.len() as int
    } else if s[0] == 44 && s[1] == 32 {
        0
    } else {
        1 + first_break(s.skip(1))
    }
}

proof fn lemma_first_break_props(s: Seq<u8>)
    ensures
        0 <= first_break(s) <= s.len(),
        first_break(s) < s.len() ==> first_break(s) + 2 <= s.len(),
    decreases s.len(),
{
    if s.len() < 2 {
    } else if s[0] == 44 && s[1] == 32 {
    } else {
        lemma_first_break_props(s.skip(1));
    }
}

/// The pieces of the alphabet line, split on comma-space.
pub open spec fn comma_pieces(s: Seq<u8>) -> Seq<Seq<u8>>
    decreases s.len(),
{
    let c = first_break(s);
    if 0 <= c && c + 2 <= s.len() && c < s.len() {
        seq![s.take(c)] + comma_pieces(s.skip(c + 2))
    } else {
        seq![s]
    }
}

/// The alphabet section: everything before the first blank line.
pub open spec fn alphabet_section(bytes: Seq<u8>) -> Seq<u8> {
    bytes.take(crate::challenges::day15::first_blank(bytes))
}

/// The candidate words: the lines after the first blank line.
pub open spec fn candidate_words(bytes: Seq<u8>) -> Seq<Seq<u8>> {
    let fb = crate::challenges::day15::first_blank(bytes);
    if fb + 2 <= bytes.len() {
        crate::challenges::day13::byte_lines(bytes.skip(fb + 2))
    } else {
        Seq::<Seq<u8>>::empty()
    }
}

/// How many of the first `k` words split fully into alphabet chunks.
pub open spec fn tiled_count(words: Seq<Seq<u8>>, ab: Seq<Seq<u8>>, k: int) -> int
    decreases k,
{
    if k <= 0 {
        0
    } else {
        tiled_count(words, ab, k - 1) + if words[k - 1].len() > 0 && tiled_prefix(
            words[k - 1],
            ab,
            words[k - 1].len() as int,
        ) {
            1int
        } else {
            0int
        }
    }
}

/// The offset of the first comma-space pair in `[lo, hi)`, or `hi`.
fn scan_to_break(bytes: &[u8], lo: usize, hi: usize) -> (r: usize)
    requires
        lo <= hi <= bytes@.len(),
    ensures
        lo <= r <= hi,
        r - lo == first_break(bytes@.subrange(lo as int, hi as int)),
{
    let ghost whole = bytes@.subrange(lo as int, hi as int);
    let n = hi - lo;
    if n < 2 {
        return hi;
    }
    let mut i: usize = 0;
    proof {
        assert(whole.skip(0) =~= whole);
    }
    while i < n - 1
        invariant
            lo <= hi <= bytes@.len(),
            n == hi - lo,
            whole == bytes@.subrange(lo as int, hi as int),
            n == whole.len() >= 2,
            0 <= i <= n - 1,
            first_break(whole) == i + first_break(whole.skip(i as int)),
        decreases n - i,
    {
        if bytes[lo + i] == 44 && bytes[lo + i + 1] == 32 {
            proof {
                assert(whole.skip(i as int)[0] == whole[i as int]);
                assert(whole[i as int] == bytes@[lo + i]);
                assert(whole.skip(i as int)[1] == whole[i as int + 1]);
                assert(whole[i as int + 1] == bytes@[lo + i + 1]);
            }
            return lo + i;
        }
        proof {
            assert(whole.skip(i as int)[0] == whole[i as int]);
            assert(whole.skip(i as int)[1] == whole[i + 1]);
            assert(whole.skip(i as int).skip(1) =~= whole.skip(i + 1));
        }
        i = i + 1;
    }
    proof {
        assert(whole.skip(n - 1).len() == 1);
    }
    hi
}

/// Split the puzzle into its alphabet line and its word list and tally the
/// words: how many of them the alphabet tiles, and the tiles' total count,
/// saturating.  An input that is not plain text, or has no word section,
/// counts nothing.
pub fn solver(input: &str) -> (r: (i64, i64))
    ensures
        r.0 >= 0 && r.1 >= 0,
        (r.0 == 0) == (r.1 == 0),
        ({
            let bytes = input.spec_bytes();
            let ab = comma_pieces(alphabet_section(bytes));
            let words = candidate_words(bytes);
            (is_ascii(input) && words.len() <= 0x7fff_ffff_ffff_ffff && (forall|k: int|
                0 <= k < words.len() ==> (#[trigger] words[k]).len() > 0)) ==> r.0 == tiled_count(
                words,
                ab,
                words.len() as int,
            )
        }),
{
    if !input.is_ascii() {
        // the byte windows below only slice plain text
        return (0, 0);
    }
    let bytes = input.as_bytes();
    let fb = crate::challenges::day15::find_blank_line(bytes);
    proof {
        assert(input.spec_bytes() =~= Seq::new(input@.len(), |i: int| input@.index(i) as u8));
    }
    // cut the alphabet line into its comma-separated byte windows
    let mut offs: Vec<(usize, usize)> = Vec::new();
    let ghost section = bytes@.subrange(0, fb as int);
    let ghost mut collected: Seq<Seq<u8>> = Seq::<Seq<u8>>::empty();
    let mut start: usize = 0;
    proof {
        assert(section.skip(0) =~= section);
        assert(Seq::<Seq<u8>>::empty() + comma_pieces(section) =~= comma_pieces(section));
        assert(section =~= alphabet_section(bytes@));
    }
    loop
        invariant_except_break
            comma_pieces(section) == collected + comma_pieces(section.skip(start as int)),
        invariant
            bytes@ == input.spec_bytes(),
            0 <= start <= fb <= bytes@.len(),
            section == bytes@.subrange(0, fb as int),
            offs@.len() == collected.len(),
            forall|k: int|
                0 <= k < offs@.len() ==> {
                    let (a, b) = #[trigger] offs@[k];
                    a <= b <= fb && bytes@.subrange(a as int, b as int) == collected[k]
                },
        ensures
            bytes@ == input.spec_bytes(),
            fb <= bytes@.len(),
            comma_pieces(section) == collected,
            section == bytes@.subrange(0, fb as int),
            offs@.len() == collected.len(),
            forall|k: int|
                0 <= k < offs@.len() ==> {
                    let (a, b) = #[trigger] offs@[k];
                    a <= b <= fb && bytes@.subrange(a as int, b as int) == collected[k]
                },
        decreases fb - start + 1,
    {
        let c = scan_to_break(bytes, start, fb);
        let ghost sub = bytes@.subrange(start as int, fb as int);
        let ghost pre_collected = collected;
        proof {
            assert(sub =~= section.skip(start as int));
            lemma_first_break_props(sub);
        }
        if c < fb {
            offs.push((start, c));
            proof {
                assert(c - start + 2 <= sub.len());
                assert(sub.take(c - start) =~= bytes@.subrange(start as int, c as int));
                assert(sub.skip(c - start + 2) =~= bytes@.subrange(c as int + 2, fb as int));
                assert(comma_pieces(sub) == seq![sub.take(c - start)] + comma_pieces(
                    sub.skip(c - start + 2),
                ));
                collected = collected.push(bytes@.subrange(start as int, c as int));
                assert(collected =~= pre_collected + seq![sub.take(c - start)]);
                assert((pre_collected + seq![sub.take(c - start)]) + comma_pieces(
                    sub.skip(c - start + 2),
                ) =~= pre_collected + (seq![sub.take(c - start)] + comma_pieces(
                    sub.skip(c - start + 2),
                )));
                assert(bytes@.subrange(c as int + 2, fb as int) =~= section.skip(c as int + 2));
            }
            start = c + 2;
        } else {
            offs.push((start, fb));
            proof {
                assert(c == fb);
                assert(first_break(sub) == sub.len());
                assert(comma_pieces(sub) == seq![sub]);
                collected = collected.push(sub);
                assert(collected =~= pre_collected + seq![sub]);
                assert(sub =~= bytes@.subrange(start as int, fb as int));
            }
            break ;
        }
    }
    // the windows as text chunks
    let mut alphabet: Vec<&str> = Vec::new();
    let mut pi: usize = 0;
    while pi < offs.len()
        invariant
            is_ascii(input),
            bytes@ == input.spec_bytes(),
            bytes@.len() == input@.len(),
            fb <= bytes@.len(),
            offs@.len() == collected.len(),
            forall|k: int|
                0 <= k < offs@.len() ==> {
                    let (a, b) = #[trigger] offs@[k];
                    a <= b <= fb && bytes@.subrange(a as int, b as int) == collected[k]
                },
            0 <= pi <= offs@.len(),
            alphabet@.len() == pi,
            forall|k: int|
                0 <= k < pi ==> (#[trigger] alphabet@[k]).spec_bytes() == collected[k],
        decreases offs@.len() - pi,
    {
        let (a, b) = offs[pi];
        let piece = input.substring_ascii(a, b);
        proof {
            assert(piece@ == input@.subrange(a as int, b as int));
            assert(piece.spec_bytes() =~= Seq::new(piece@.len(), |i: int| piece@.index(i) as u8));
            assert forall|i: int| 0 <= i < piece@.len() implies (piece@.index(i) as u8)
                == bytes@.subrange(a as int, b as int)[i] by {
                assert(piece@.index(i) == input@.index(a + i));
                assert(bytes@[a + i] == input@.index(a + i) as u8);
            }
            assert(piece.spec_bytes() =~= bytes@.subrange(a as int, b as int));
        }
        alphabet.push(piece);
        pi = pi + 1;
    }
    proof {
        assert(alphabet_bytes(alphabet@) =~~= collected);
        assert(alphabet_bytes(alphabet@) =~~= comma_pieces(alphabet_section(bytes@)));
    }
    let ghost ab = alphabet_bytes(alphabet@);
    // tally the words after the blank line
    let mut count: i64 = 0;
    let mut total: i64 = 0;
    if bytes.len() >= 2 && fb <= bytes.len() - 2 {
        let tail = vstd::slice::slice_subrange(bytes, fb + 2, bytes.len());
        let lines = crate::challenges::day13::split_lines(tail);
        let ghost words = crate::challenges::day13::byte_lines(tail@);
        proof {
            assert(tail@ =~= bytes@.skip(fb as int + 2));
            assert(words == candidate_words(bytes@));
        }
        let mut i: usize = 0;
        while i < lines.len()
            invariant
                is_ascii(input),
                bytes@ == input.spec_bytes(),
                bytes@.len() == input@.len(),
                bytes@.len() <= usize::MAX,
                fb as int + 2 <= bytes@.len(),
                tail@ == bytes@.skip(fb as int + 2),
                words == crate::challenges::day13::byte_lines(tail@),
                words == candidate_words(bytes@),
                ab == alphabet_bytes(alphabet@),
                ab == comma_pieces(alphabet_section(bytes@)),
                lines@.len() == words.len(),
                forall|k: int|
                    0 <= k < lines@.len() ==> {
                        let (a, b) = #[trigger] lines@[k];
                        a <= b <= tail@.len() && tail@.subrange(a as int, b as int) == words[k]
                    },
                0 <= i <= lines@.len(),
                count >= 0 && total >= 0,
                (count == 0) == (total == 0),
                (words.len() <= 0x7fff_ffff_ffff_ffff && (forall|k: int|
                    0 <= k < words.len() ==> (#[trigger] words[k]).len() > 0)) ==> count
                    == tiled_count(words, ab, i as int) && count <= i,
            decreases lines@.len() - i,
        {
            let (ra, rb) = lines[i];
            proof {
                assert(ra <= rb <= tail@.len());
                assert(fb as int + 2 + tail@.len() == bytes@.len());
                assert(fb as int + 2 + ra as int <= bytes@.len());
                assert(fb as int + 2 + rb as int <= bytes@.len());
                assert(bytes@.len() <= usize::MAX);
            }
            let ga = fb + 2 + ra;
            let gb = fb + 2 + rb;
            let word_s = input.substring_ascii(ga, gb);
            let word = word_s.to_owned();
            proof {
                assert(word@ == input@.subrange(ga as int, gb as int));
                assert(vstd::utf8::is_ascii_chars(word_s@));
                vstd::utf8::is_ascii_chars_encode_utf8(word@);
                assert forall|t: int| 0 <= t < word@.len() implies (word@.index(t) as u8)
                    == words[i as int][t] by {
                    assert(word@.index(t) == input@.index(ga + t));
                    assert(bytes@[ga + t] == input@.index(ga + t) as u8);
                    assert(tail@.subrange(ra as int, rb as int)[t] == tail@[ra + t]);
                    assert(tail@[ra + t] == bytes@[fb as int + 2 + ra + t]);
                }
                assert(vstd::utf8::encode_utf8(word@) =~= words[i as int]);
            }
            let new_ways = ways_to_make(word, &alphabet);
            let ghost pre_count = count;
            let ghost pre_total = total;
            if new_ways > 0 {
                count = sat_add(count, 1);
                total = sat_add(total, new_ways);
            }
            proof {
                if words.len() <= 0x7fff_ffff_ffff_ffff && (forall|k: int|
                    0 <= k < words.len() ==> (#[trigger] words[k]).len() > 0) {
                    assert(words[i as int].len() > 0);
                    if new_ways > 0 {
                        assert(tiled_prefix(words[i as int], ab, words[i as int].len() as int));
                        assert(pre_count + 1 <= i + 1);
                        assert(count == pre_count + 1);
                    } else {
                        assert(!tiled_prefix(words[i as int], ab, words[i as int].len() as int));
                    }
                    assert(count == tiled_count(words, ab, i as int + 1));
                }
            }
            i = i + 1;
        }
    } else {
        proof {
            assert(candidate_words(bytes@) =~= Seq::<Seq<u8>>::empty());
        }
    }
    (count, total)
}

} // verus!
