use vstd::prelude::*;

verus! {

use vstd::string::*;

/// Length of the leading run of decimal digits.
pub open spec fn digit_run(s: Seq<u8>) -> int
    decreases s.len(),
{
    if s.len() == 0 || !crate::is_digit(s[0]) {
        0
    } else {
        1 + digit_run(s.skip(1))
    }
}

proof fn lemma_digit_run_bounds(s: Seq<u8>)
    ensures
        0 <= digit_run(s) <= s.len(),
    decreases s.len(),
{
    if s.len() > 0 && crate::is_digit(s[0]) {
        lemma_digit_run_bounds(s.skip(1));
    }
}

proof fn lemma_digit_run_at(s: Seq<u8>, l: int)
    requires
        0 <= l <= s.len(),
        forall|i: int| 0 <= i < l ==> crate::is_digit(#[trigger] s[i]),
        l < s.len() ==> !crate::is_digit(s[l]),
    ensures
        digit_run(s) == l,
    decreases s.len(),
{
    if s.len() == 0 || !crate::is_digit(s[0]) {
    } else {
        assert(forall|i: int| 0 <= i < l - 1 ==> s.skip(1)[i] == s[i + 1]);
        lemma_digit_run_at(s.skip(1), l - 1);
    }
}

/// A multiply instruction sits at the head of `s`: the word `mul`, an
/// opening bracket, a digit run, a comma, a digit run and a closing
/// bracket.  The result is how many bytes the instruction spans.
pub open spec fn mul_match(s: Seq<u8>) -> Option<int> {
    if s.len() >= 4 && s[0] == 109 && s[1] == 117 && s[2] == 108 && s[3] == 40 {
        let d1 = digit_run(s.skip(4));
        if d1 >= 1 && 4 + d1 < s.len() && s[4 + d1] == 44 {
            let d2 = digit_run(s.skip(4 + d1 + 1));
            if d2 >= 1 && 4 + d1 + 1 + d2 < s.len() && s[4 + d1 + 1 + d2] == 41 {
                Some(4 + d1 + 1 + d2 + 1)
            } else {
                None
            }
        } else {
            None
        }
    } else {
        None
    }
}

/// The two factors of a multiply instruction at the head of `s`, when both
/// fit the number range the library reads.
pub open spec fn mul_factors(s: Seq<u8>) -> (Option<i64>, Option<i64>) {
    let d1 = digit_run(s.skip(4));
    let d2 = digit_run(s.skip(4 + d1 + 1));
    (
        crate::token_val(s.subrange(4, 4 + d1)),
        crate::token_val(s.subrange(4 + d1 + 1, 4 + d1 + 1 + d2)),
    )
}

/// The word `do()` sits at the head of `s`.
pub open spec fn do_match(s: Seq<u8>) -> bool {
    s.len() >= 4 && s[0] == 100 && s[1] == 111 && s[2] == 40 && s[3] == 41
}

/// The word `don't()` sits at the head of `s`.
pub open spec fn dont_match(s: Seq<u8>) -> bool {
    s.len() >= 7 && s[0] == 100 && s[1] == 111 && s[2] == 110 && s[3] == 39 && s[4] == 116 && s[5]
        == 40 && s[6] == 41
}

/// Clamp to the wide accumulator's range, as the running totals saturate.
pub open spec fn sat128(x: int) -> int {
    if x > 0x7fff_ffff_ffff_ffff_ffff_ffff_ffff_ffff {
        0x7fff_ffff_ffff_ffff_ffff_ffff_ffff_ffff
    } else if x < -0x8000_0000_0000_0000_0000_0000_0000_0000 {
        -0x8000_0000_0000_0000_0000_0000_0000_0000
    } else {
        x
    }
}

/// Walk the instruction stream left to right: every whole multiply
/// instruction adds its product to the first total; it also adds to the
/// second while the most recent toggle was `do()`.  A multiply whose
/// factors leave the number range is passed over.
pub open spec fn spec_scan(s: Seq<u8>, enabled: bool, acc1: int, acc2: int) -> (int, int)
    decreases s.len(),
    via spec_scan_decreases
{
    if s.len() == 0 {
        (acc1, acc2)
    } else {
        match mul_match(s) {
            Some(l) => {
                let f = mul_factors(s);
                match (f.0, f.1) {
                    (Some(a), Some(b)) => spec_scan(
                        s.skip(l),
                        enabled,
                        sat128(acc1 + a * b),
                        if enabled {
                            sat128(acc2 + a * b)
                        } else {
                            acc2
                        },
                    ),
                    _ => spec_scan(s.skip(l), enabled, acc1, acc2),
                }
            },
            None => {
                if do_match(s) {
                    spec_scan(s.skip(4), true, acc1, acc2)
                } else if dont_match(s) {
                    spec_scan(s.skip(7), false, acc1, acc2)
                } else {
                    spec_scan(s.skip(1), enabled, acc1, acc2)
                }
            },
        }
    }
}

#[via_fn]
proof fn spec_scan_decreases(s: Seq<u8>, enabled: bool, acc1: int, acc2: int) {
    if s.len() != 0 {
        match mul_match(s) {
            Some(l) => {
                lemma_digit_run_bounds(s.skip(4));
                let d1 = digit_run(s.skip(4));
                lemma_digit_run_bounds(s.skip(4 + d1 + 1));
            },
            None => {},
        }
    }
}

/// One step of saturating accumulation.
fn sat_add128(a: i128, b: i128) -> (r: i128)
    ensures
        r == sat128(a + b),
{
    if b >= 0 {
        if a > i128::MAX - b {
            i128::MAX
        } else {
            a + b
        }
    } else {
        if a < i128::MIN - b {
            i128::MIN
        } else {
            a + b
        }
    }
}

/// Sum every multiply instruction of the memory dump, and separately the
/// ones that the `do()` and `don't()` toggles leave enabled.
#[verifier::rlimit(100)]
#[verifier::spinoff_prover]
pub fn challenge(input: &str) -> (r: (i128, i128))
    ensures
        (r.0 as int, r.1 as int) == spec_scan(input.spec_bytes(), true, 0, 0),
{
    let bytes = input.as_bytes();
    let n = bytes.len();
    let ghost whole = bytes@;
    let mut enabled = true;
    let mut part1: i128 = 0;
    let mut part2: i128 = 0;
    let mut i: usize = 0;
    proof {
        assert(whole.skip(0) =~= whole);
    }
    while i < n
        invariant
            0 <= i <= n,
            n == whole.len(),
            bytes@ == whole,
            spec_scan(whole, true, 0, 0) == spec_scan(
                whole.skip(i as int),
                enabled,
                part1 as int,
                part2 as int,
            ),
        decreases n - i,
    {
        let ghost rest = whole.skip(i as int);
        // a multiply instruction?
        if n - i >= 4 && bytes[i] == 109 && bytes[i + 1] == 117 && bytes[i + 2] == 108 && bytes[i
            + 3] == 40 {
            let d1_end = scan_digits(bytes, i + 4);
            let d1 = d1_end - (i + 4);
            proof {
                assert(forall|k: int| 0 <= k < rest.len() ==> #[trigger] rest[k] == whole[i + k]);
                assert(rest.skip(4) =~= whole.skip(i + 4));
                assert(forall|k: int|
                    0 <= k < whole.len() - i - 4 ==> #[trigger] whole.skip(i + 4)[k] == whole[i + 4
                        + k]);
                lemma_digit_run_at(rest.skip(4), d1 as int);
            }
            if d1 >= 1 && d1_end < n && bytes[d1_end] == 44 {
                let d2_end = scan_digits(bytes, d1_end + 1);
                let d2 = d2_end - (d1_end + 1);
                proof {
                    assert(rest.skip(4 + d1 as int + 1) =~= whole.skip(d1_end + 1));
                    assert(forall|k: int|
                        0 <= k < whole.len() - d1_end - 1 ==> #[trigger] whole.skip(d1_end + 1)[k]
                            == whole[d1_end + 1 + k]);
                    lemma_digit_run_at(rest.skip(4 + d1 as int + 1), d2 as int);
                }
                if d2 >= 1 && d2_end < n && bytes[d2_end] == 41 {
                    proof {
                        assert(mul_match(rest) == Some(4 + d1 as int + 1 + d2 as int + 1));
                        assert(rest.subrange(4, 4 + d1 as int) =~= whole.subrange(
                            i + 4,
                            d1_end as int,
                        ));
                        assert(rest.subrange(4 + d1 as int + 1, 4 + d1 as int + 1 + d2 as int)
                            =~= whole.subrange(d1_end + 1, d2_end as int));
                        assert(rest.skip(4 + d1 as int + 1 + d2 as int + 1) =~= whole.skip(
                            d2_end + 1,
                        ));
                    }
                    let v1 = crate::parse_token(vstd::slice::slice_subrange(bytes, i + 4, d1_end));
                    let v2 = crate::parse_token(
                        vstd::slice::slice_subrange(bytes, d1_end + 1, d2_end),
                    );
                    match (v1, v2) {
                        (Some(a), Some(b)) => {
                            proof {
                                assert(-0x4000_0000_0000_0000_0000_0000_0000_0000
                                    <= (a as int) * (b as int)
                                    <= 0x4000_0000_0000_0000_0000_0000_0000_0000) by (
                                nonlinear_arith)
                                    requires
                                        -0x8000_0000_0000_0000 <= a <= 0x7fff_ffff_ffff_ffff,
                                        -0x8000_0000_0000_0000 <= b <= 0x7fff_ffff_ffff_ffff,
                                ;
                            }
                            let prod = (a as i128) * (b as i128);
                            part1 = sat_add128(part1, prod);
                            if enabled {
                                part2 = sat_add128(part2, prod);
                            }
                        },
                        _ => (),
                    }
                    i = d2_end + 1;
                    continue;
                }
            }
        }
        // a toggle?
        if n - i >= 4 && bytes[i] == 100 && bytes[i + 1] == 111 && bytes[i + 2] == 40 && bytes[i
            + 3] == 41 {
            proof {
                assert(forall|k: int| 0 <= k < rest.len() ==> #[trigger] rest[k] == whole[i + k]);
                assert(do_match(rest));
                assert(mul_match(rest) is None);
                assert(rest.skip(4) =~= whole.skip(i + 4));
            }
            enabled = true;
            i = i + 4;
            continue;
        }
        if n - i >= 7 && bytes[i] == 100 && bytes[i + 1] == 111 && bytes[i + 2] == 110 && bytes[i
            + 3] == 39 && bytes[i + 4] == 116 && bytes[i + 5] == 40 && bytes[i + 6] == 41 {
            proof {
                assert(forall|k: int| 0 <= k < rest.len() ==> #[trigger] rest[k] == whole[i + k]);
                assert(dont_match(rest));
                assert(mul_match(rest) is None);
                assert(rest.skip(7) =~= whole.skip(i + 7));
            }
            enabled = false;
            i = i + 7;
            continue;
        }
        proof {
            assert(forall|k: int| 0 <= k < rest.len() ==> #[trigger] rest[k] == whole[i + k]);
            if mul_match(rest) is Some {
                lemma_mul_match_shape(rest);
            }
            assert(rest.skip(1) =~= whole.skip(i + 1));
        }
        i = i + 1;
    }
    proof {
        assert(whole.skip(i as int) =~= Seq::<u8>::empty());
    }
    (part1, part2)
}

/// A matched multiply instruction always opens with its four keyword
/// bytes, two runs of digits and the separating and closing punctuation.
proof fn lemma_mul_match_shape(s: Seq<u8>)
    requires
        mul_match(s) is Some,
    ensures
        s.len() >= 4 && s[0] == 109 && s[1] == 117 && s[2] == 108 && s[3] == 40,
{
}

/// The end of the run of digits at or after `from`.
fn scan_digits(bytes: &[u8], from: usize) -> (j: usize)
    requires
        from <= bytes@.len(),
    ensures
        from <= j <= bytes@.len(),
        forall|k: int| from <= k < j ==> crate::is_digit(#[trigger] bytes@[k]),
        j < bytes@.len() ==> !crate::is_digit(bytes@[j as int]),
{
    let mut j = from;
    while j < bytes.len()
        invariant
            from <= j <= bytes@.len(),
            forall|k: int| from <= k < j ==> crate::is_digit(#[trigger] bytes@[k]),
        decreases bytes@.len() - j,
    {
        let c = bytes[j];
        if !(48 <= c && c <= 57) {
            return j;
        }
        j = j + 1;
    }
    j
}

} // verus!
