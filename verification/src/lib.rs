use vstd::prelude::*;

pub mod bytegrid;
pub mod challenges;
pub mod chargrid;
pub mod graph;
pub mod tile;

pub use graph::dfs;
pub use tile::Tile;

verus! {

use vstd::slice::slice_subrange;
use vstd::string::*;

/// ASCII whitespace bytes that separate number tokens.
pub open spec fn is_space(b: u8) -> bool {
    b == 32 || b == 9 || b == 10 || b == 13
}

/// ASCII decimal digits.
pub open spec fn is_digit(b: u8) -> bool {
    48 <= b && b <= 57
}

/// Numeric value of the digit sequence `s`, most significant digit first.
pub open spec fn digits_val(s: Seq<u8>) -> int
    decreases s.len(),
{
    if s.len() == 0 {
        0
    } else {
        digits_val(s.drop_last()) * 10 + (s.last() - 48)
    }
}

pub open spec fn all_digits(s: Seq<u8>) -> bool {
    forall|i: int| 0 <= i < s.len() ==> is_digit(#[trigger] s[i])
}

/// The value a decimal token denotes, if any: an optional sign followed by
/// one or more digits, with the value in range for `i64`.
pub open spec fn token_val(s: Seq<u8>) -> Option<i64> {
    if s.len() >= 1 && (s[0] == 43 || s[0] == 45) {
        let mag = s.skip(1);
        if mag.len() >= 1 && all_digits(mag) {
            let v = if s[0] == 45 {
                -digits_val(mag)
            } else {
                digits_val(mag)
            };
            if i64::MIN <= v <= i64::MAX {
                Some(v as i64)
            } else {
                None
            }
        } else {
            None
        }
    } else {
        if s.len() >= 1 && all_digits(s) {
            if digits_val(s) <= i64::MAX {
                Some(digits_val(s) as i64)
            } else {
                None
            }
        } else {
            None
        }
    }
}

/// Length of the maximal leading run of non-whitespace bytes.
pub open spec fn token_len(s: Seq<u8>) -> int
    decreases s.len(),
{
    if s.len() == 0 || is_space(s[0]) {
        0
    } else {
        1 + token_len(s.skip(1))
    }
}

/// Length of the leading run of bytes other than the delimiter `d`.
pub open spec fn piece_len(s: Seq<u8>, d: u8) -> int
    decreases s.len(),
{
    if s.len() == 0 || s[0] == d {
        0
    } else {
        1 + piece_len(s.skip(1), d)
    }
}

/// The numbers denoted by the whitespace-separated tokens of `s`, in order;
/// tokens that are not in-range decimal literals are passed over.
pub open spec fn numbers_in(s: Seq<u8>) -> Seq<i64>
    decreases s.len(),
    via numbers_in_decreases
{
    if s.len() == 0 {
        seq![]
    } else if is_space(s[0]) {
        numbers_in(s.skip(1))
    } else {
        let l = token_len(s);
        match token_val(s.take(l)) {
            Some(v) => seq![v] + numbers_in(s.skip(l)),
            None => numbers_in(s.skip(l)),
        }
    }
}

#[via_fn]
proof fn numbers_in_decreases(s: Seq<u8>) {
    if s.len() != 0 && !is_space(s[0]) {
        lemma_token_len_bounds(s);
    }
}

pub proof fn lemma_token_len_bounds(s: Seq<u8>)
    ensures
        0 <= token_len(s) <= s.len(),
        s.len() > 0 && !is_space(s[0]) ==> token_len(s) >= 1,
    decreases s.len(),
{
    if s.len() > 0 && !is_space(s[0]) {
        lemma_token_len_bounds(s.skip(1));
    }
}

pub proof fn lemma_piece_len_bounds(s: Seq<u8>, d: u8)
    ensures
        0 <= piece_len(s, d) <= s.len(),
    decreases s.len(),
{
    if s.len() > 0 && s[0] != d {
        lemma_piece_len_bounds(s.skip(1), d);
    }
}

/// `token_len` is `l` when no whitespace stops the token before `l` and `l`
/// is the end of the sequence or whitespace.
pub proof fn lemma_token_len_at(s: Seq<u8>, l: int)
    requires
        0 <= l <= s.len(),
        forall|i: int| 0 <= i < l ==> !is_space(#[trigger] s[i]),
        l < s.len() ==> is_space(s[l]),
    ensures
        token_len(s) == l,
    decreases s.len(),
{
    if s.len() == 0 || is_space(s[0]) {
    } else {
        assert(forall|i: int| 0 <= i < l - 1 ==> s.skip(1)[i] == s[i + 1]);
        lemma_token_len_at(s.skip(1), l - 1);
    }
}

pub proof fn lemma_piece_len_at(s: Seq<u8>, d: u8, l: int)
    requires
        0 <= l <= s.len(),
        forall|i: int| 0 <= i < l ==> #[trigger] s[i] != d,
        l < s.len() ==> s[l] == d,
    ensures
        piece_len(s, d) == l,
    decreases s.len(),
{
    if s.len() == 0 || s[0] == d {
    } else {
        assert(forall|i: int| 0 <= i < l - 1 ==> s.skip(1)[i] == s[i + 1]);
        lemma_piece_len_at(s.skip(1), d, l - 1);
    }
}

proof fn lemma_digits_val_nonneg(s: Seq<u8>)
    requires
        all_digits(s),
    ensures
        digits_val(s) >= 0,
    decreases s.len(),
{
    if s.len() > 0 {
        assert(all_digits(s.drop_last()));
        lemma_digits_val_nonneg(s.drop_last());
    }
}

/// The value of a digit run grows (weakly) as digits are appended.
proof fn lemma_digits_val_prefix(s: Seq<u8>, i: int)
    requires
        all_digits(s),
        0 <= i <= s.len(),
    ensures
        digits_val(s) >= digits_val(s.take(i)),
    decreases s.len() - i,
{
    if i < s.len() {
        assert(all_digits(s.take(i))) by {
            assert(forall|j: int| 0 <= j < i ==> s.take(i)[j] == s[j]);
        }
        lemma_digits_val_nonneg(s.take(i));
        assert(s.take(i + 1).drop_last() =~= s.take(i));
        assert(digits_val(s.take(i + 1)) == digits_val(s.take(i)) * 10 + (s[i] - 48));
        lemma_digits_val_prefix(s, i + 1);
    } else {
        assert(s.take(i) =~= s);
    }
}

/// Parse one token as a decimal `i64`, returning exactly what `token_val`
/// denotes.
pub fn parse_token(t: &[u8]) -> (r: Option<i64>)
    ensures
        r == token_val(t@),
{
    let ghost whole = t@;
    let mut i: usize = 0;
    let mut neg = false;
    if t.len() >= 1 && (t[0] == 43 || t[0] == 45) {
        neg = t[0] == 45;
        i = 1;
    }
    proof {
        if i == 0 {
            assert(whole.skip(0) =~= whole);
        }
    }
    let ghost mag = whole.skip(i as int);
    if i >= t.len() {
        return None;
    }
    let start = i;
    let mut acc: i128 = 0;
    while i < t.len()
        invariant
            start <= i <= t.len(),
            start == if whole.len() >= 1 && (whole[0] == 43 || whole[0] == 45) {
                1int
            } else {
                0int
            },
            neg == (whole.len() >= 1 && whole[0] == 45),
            mag == whole.skip(start as int),
            start == 0 ==> mag == whole,
            t@ == whole,
            whole.len() >= start + 1,
            all_digits(mag.take(i - start)),
            0 <= acc <= 0x8000_0000_0000_0000,
            acc == digits_val(mag.take(i - start)),
        decreases t@.len() - i,
    {
        let b = t[i];
        proof {
            assert(mag[i - start] == whole[i as int]);
        }
        if !(48 <= b && b <= 57) {
            proof {
                assert(!is_digit(mag[i - start]));
                assert(!all_digits(mag));
            }
            return None;
        }
        let d = (b - 48) as i128;
        let next = acc * 10 + d;
        proof {
            assert(mag.take(i - start + 1).drop_last() =~= mag.take(i - start));
            assert(mag.take(i - start + 1).last() == b);
            assert(digits_val(mag.take(i - start + 1)) == acc * 10 + (b - 48));
            assert(all_digits(mag.take(i - start + 1)));
        }
        if next > 0x8000_0000_0000_0000i128 {
            // the magnitude is already out of the `i64` range and appending
            // further digits can only grow it
            proof {
                if all_digits(mag) {
                    lemma_digits_val_prefix(mag, i - start + 1);
                    assert(digits_val(mag) > 0x8000_0000_0000_0000);
                }
                assert(token_val(whole) is None);
            }
            return None;
        }
        acc = next;
        i = i + 1;
    }
    proof {
        assert(mag.take(i - start) =~= mag);
    }
    if neg {
        Some((-acc) as i64)
    } else {
        if acc > 0x7fff_ffff_ffff_ffffi128 {
            None
        } else {
            Some(acc as i64)
        }
    }
}

/// The position of the first whitespace byte at or after `from`, or the
/// length of `bytes` when no whitespace follows.
pub(crate) fn scan_to_space(bytes: &[u8], from: usize) -> (j: usize)
    requires
        from <= bytes@.len(),
    ensures
        from <= j <= bytes@.len(),
        forall|k: int| from <= k < j ==> !is_space(#[trigger] bytes@[k]),
        j < bytes@.len() ==> is_space(bytes@[j as int]),
{
    let mut j = from;
    while j < bytes.len()
        invariant
            from <= j <= bytes@.len(),
            forall|k: int| from <= k < j ==> !is_space(#[trigger] bytes@[k]),
        decreases bytes@.len() - j,
    {
        let c = bytes[j];
        if c == 32 || c == 9 || c == 10 || c == 13 {
            return j;
        }
        j = j + 1;
    }
    j
}

/// The position of the first occurrence of `d` at or after `from`, or the
/// length of `bytes` when `d` does not occur.
pub(crate) fn scan_to_byte(bytes: &[u8], from: usize, d: u8) -> (j: usize)
    requires
        from <= bytes@.len(),
    ensures
        from <= j <= bytes@.len(),
        forall|k: int| from <= k < j ==> #[trigger] bytes@[k] != d,
        j < bytes@.len() ==> bytes@[j as int] == d,
{
    let mut j = from;
    while j < bytes.len()
        invariant
            from <= j <= bytes@.len(),
            forall|k: int| from <= k < j ==> #[trigger] bytes@[k] != d,
        decreases bytes@.len() - j,
    {
        if bytes[j] == d {
            return j;
        }
        j = j + 1;
    }
    j
}

/// The numbers among the byte sequence `bytes`, reading whitespace-separated
/// decimal tokens.
pub fn numbers_of_bytes(bytes: &[u8]) -> (r: Vec<i64>)
    ensures
        r@ == numbers_in(bytes@),
{
    let ghost whole = bytes@;
    let mut res: Vec<i64> = Vec::new();
    let mut i: usize = 0;
    proof {
        assert(whole.skip(0) =~= whole);
        assert(res@ + numbers_in(whole) =~= numbers_in(whole));
    }
    while i < bytes.len()
        invariant
            0 <= i <= bytes.len(),
            bytes@ == whole,
            numbers_in(whole) == res@ + numbers_in(whole.skip(i as int)),
        decreases bytes.len() - i,
    {
        let b = bytes[i];
        if b == 32 || b == 9 || b == 10 || b == 13 {
            proof {
                assert(whole.skip(i as int).skip(1) =~= whole.skip(i + 1));
            }
            i = i + 1;
        } else {
            let start = i;
            let j = scan_to_space(bytes, i + 1);
            let ghost rest = whole.skip(start as int);
            proof {
                assert(forall|k: int|
                    0 <= k < j - start ==> #[trigger] rest[k] == whole[k + start]);
                lemma_token_len_at(rest, j - start);
                assert(rest.take(j - start) =~= whole.subrange(start as int, j as int));
                assert(rest.skip(j - start) =~= whole.skip(j as int));
            }
            let token = slice_subrange(bytes, start, j);
            let ghost oldres = res@;
            match parse_token(token) {
                Some(v) => {
                    res.push(v);
                    proof {
                        assert(oldres + (seq![v] + numbers_in(whole.skip(j as int))) =~= res@
                            + numbers_in(whole.skip(j as int)));
                    }
                },
                None => (),
            }
            i = j;
        }
    }
    proof {
        assert(whole.skip(i as int) =~= Seq::<u8>::empty());
        assert(res@ + numbers_in(whole.skip(i as int)) =~= res@);
    }
    res
}

/// A copy of one byte range of a slice.
pub fn slice_copy(bytes: &[u8], a: usize, b: usize) -> (r: Vec<u8>)
    requires
        a <= b <= bytes@.len(),
    ensures
        r@ == bytes@.subrange(a as int, b as int),
{
    let mut r: Vec<u8> = Vec::new();
    let mut i = a;
    while i < b
        invariant
            a <= i <= b <= bytes@.len(),
            r@ =~= bytes@.subrange(a as int, i as int),
        decreases b - i,
    {
        r.push(bytes[i]);
        proof {
            assert(r@ =~= bytes@.subrange(a as int, i + 1));
        }
        i = i + 1;
    }
    r
}

/// The numbers among the whitespace-separated tokens of `s`.
pub fn parse_number_list(s: &str) -> (r: Vec<i64>)
    ensures
        r@ == numbers_in(s.spec_bytes()),
{
    numbers_of_bytes(s.as_bytes())
}

/// How `extract_numbers` rewrites a byte before parsing: digits, minus signs
/// and blanks are kept, everything else becomes a blank.
pub open spec fn keep_numericish(b: u8) -> u8 {
    if is_digit(b) || b == 45 {
        b
    } else {
        32
    }
}

/// `s` with every byte other than a digit or a minus sign replaced by a
/// blank.
pub open spec fn numericish_of(s: Seq<u8>) -> Seq<u8> {
    s.map_values(|b: u8| keep_numericish(b))
}

/// The numbers of `s` after every byte other than a digit or a minus sign is
/// replaced by a blank, so that numbers embedded in arbitrary text are found.
pub fn extract_numbers(s: &str) -> (r: Vec<i64>)
    ensures
        r@ == numbers_in(numericish_of(s.spec_bytes())),
{
    let bytes = s.as_bytes();
    let mut cleaned: Vec<u8> = Vec::new();
    let mut i: usize = 0;
    while i < bytes.len()
        invariant
            0 <= i <= bytes.len(),
            bytes@ == s.spec_bytes(),
            cleaned@ =~= bytes@.take(i as int).map_values(|b: u8| keep_numericish(b)),
        decreases bytes.len() - i,
    {
        let b = bytes[i];
        if (48 <= b && b <= 57) || b == 45 {
            cleaned.push(b);
        } else {
            cleaned.push(32);
        }
        proof {
            assert(cleaned@ =~= bytes@.take(i + 1).map_values(|b: u8| keep_numericish(b)));
        }
        i = i + 1;
    }
    proof {
        assert(bytes@.take(i as int) =~= bytes@);
        assert(cleaned@ =~= numericish_of(s.spec_bytes()));
    }
    numbers_of_bytes(cleaned.as_slice())
}

/// The numbers denoted by the pieces of `s` between occurrences of the
/// delimiter byte `d`; pieces that are not decimal literals are passed over.
pub open spec fn numbers_between(s: Seq<u8>, d: u8) -> Seq<i64>
    decreases s.len(),
    via numbers_between_decreases
{
    if s.len() == 0 {
        seq![]
    } else {
        let l = piece_len(s, d);
        let rest = if l < s.len() {
            numbers_between(s.skip(l + 1), d)
        } else {
            seq![]
        };
        match token_val(s.take(l)) {
            Some(v) => seq![v] + rest,
            None => rest,
        }
    }
}

#[via_fn]
proof fn numbers_between_decreases(s: Seq<u8>, d: u8) {
    if s.len() != 0 {
        lemma_piece_len_bounds(s, d);
    }
}

/// The numbers of `s` read between occurrences of the one-byte delimiter
/// `delim`.
pub fn parse_number_list_delimited_by(s: &str, delim: &str) -> (r: Vec<i64>)
    requires
        delim.spec_bytes().len() == 1,
    ensures
        r@ == numbers_between(s.spec_bytes(), delim.spec_bytes()[0]),
{
    let bytes = s.as_bytes();
    let dbytes = delim.as_bytes();
    let d = dbytes[0];
    let ghost whole = bytes@;
    let mut res: Vec<i64> = Vec::new();
    let mut i: usize = 0;
    let mut done = false;
    proof {
        assert(whole.skip(0) =~= whole);
        assert(res@ + numbers_between(whole, d) =~= numbers_between(whole, d));
        if whole.len() == 0 {
            assert(numbers_between(whole, d) =~= Seq::<i64>::empty());
        }
    }
    if bytes.len() == 0 {
        return res;
    }
    while !done
        invariant
            0 <= i <= bytes.len(),
            bytes@ == whole,
            whole.len() > 0,
            d == delim.spec_bytes()[0],
            numbers_between(whole, d) == res@ + if done {
                seq![]
            } else {
                numbers_between(whole.skip(i as int), d)
            },
        decreases bytes.len() - i + if done {
            0int
        } else {
            1int
        },
    {
        if i >= bytes.len() {
            // a trailing delimiter leaves one final empty piece, which
            // denotes no number
            done = true;
            proof {
                assert(whole.skip(i as int) =~= Seq::<u8>::empty());
                assert(numbers_between(whole.skip(i as int), d) =~= Seq::<i64>::empty());
                assert(res@ + Seq::<i64>::empty() =~= res@);
                assert(res@ + seq![] =~= res@);
            }
            continue;
        }
        let start = i;
        let j = scan_to_byte(bytes, i, d);
        let ghost rest = whole.skip(start as int);
        proof {
            assert(forall|k: int| 0 <= k < j - start ==> #[trigger] rest[k] == whole[k + start]);
            lemma_piece_len_at(rest, d, j - start);
            assert(rest.take(j - start) =~= whole.subrange(start as int, j as int));
            if (j as int) < whole.len() {
                assert(rest.skip(j - start + 1) =~= whole.skip(j + 1));
            }
        }
        let token = slice_subrange(bytes, start, j);
        let ghost oldres = res@;
        let r = parse_token(token);
        match r {
            Some(v) => res.push(v),
            None => (),
        }
        if j < bytes.len() {
            i = j + 1;
            proof {
                if r is Some {
                    assert(oldres + (seq![r.unwrap()] + numbers_between(whole.skip(i as int), d))
                        =~= res@ + numbers_between(whole.skip(i as int), d));
                }
            }
        } else {
            i = j;
            done = true;
            proof {
                if r is Some {
                    assert(oldres + seq![r.unwrap()] =~= res@);
                }
            }
        }
    }
    res
}

/// One trailing carriage return is removed from a line, as the `lines`
/// reading of text does.
pub open spec fn strip_cr(line: Seq<char>) -> Seq<char> {
    if line.len() > 0 && line.last() == '\r' {
        line.drop_last()
    } else {
        line
    }
}

/// Length of the leading run of characters other than `'\n'`.
pub open spec fn line_len(s: Seq<char>) -> int
    decreases s.len(),
{
    if s.len() == 0 || s[0] == '\n' {
        0
    } else {
        1 + line_len(s.skip(1))
    }
}

/// The lines of `s`: pieces split at `'\n'`, each with one trailing `'\r'`
/// removed, and with no empty line produced after a final newline.
pub open spec fn lines_of(s: Seq<char>) -> Seq<Seq<char>>
    decreases s.len(),
    via lines_of_decreases
{
    if s.len() == 0 {
        seq![]
    } else {
        let l = line_len(s);
        if l < s.len() {
            seq![strip_cr(s.take(l))] + lines_of(s.skip(l + 1))
        } else {
            seq![strip_cr(s)]
        }
    }
}

#[via_fn]
proof fn lines_of_decreases(s: Seq<char>) {
    if s.len() != 0 {
        lemma_line_len_bounds(s);
    }
}

proof fn lemma_line_len_bounds(s: Seq<char>)
    ensures
        0 <= line_len(s) <= s.len(),
    decreases s.len(),
{
    if s.len() > 0 && s[0] != '\n' {
        lemma_line_len_bounds(s.skip(1));
    }
}

proof fn lemma_line_len_at(s: Seq<char>, l: int)
    requires
        0 <= l <= s.len(),
        forall|i: int| 0 <= i < l ==> #[trigger] s[i] != '\n',
        l < s.len() ==> s[l] == '\n',
    ensures
        line_len(s) == l,
    decreases s.len(),
{
    if s.len() == 0 || s[0] == '\n' {
    } else {
        assert(forall|i: int| 0 <= i < l - 1 ==> s.skip(1)[i] == s[i + 1]);
        lemma_line_len_at(s.skip(1), l - 1);
    }
}

/// The grid of characters of `s`: one row of characters per line.
pub fn string_to_2d_array(s: String) -> (r: Vec<Vec<char>>)
    ensures
        r@.map_values(|v: Vec<char>| v@) == lines_of(s@),
{
    let ghost whole = s@;
    let mut out: Vec<Vec<char>> = Vec::new();
    let mut cur: Vec<char> = Vec::new();
    let slice = s.as_str();
    let n = slice.unicode_len();
    let mut i: usize = 0;
    proof {
        assert(cur@ + whole.skip(0) =~= whole);
        assert(out@.map_values(|v: Vec<char>| v@) + lines_of(whole) =~= lines_of(whole));
    }
    while i < n
        invariant
            0 <= i <= n,
            n == whole.len(),
            slice@ == whole,
            forall|k: int| 0 <= k < cur@.len() ==> #[trigger] cur@[k] != '\n',
            lines_of(whole) =~= out@.map_values(|v: Vec<char>| v@) + lines_of(
                cur@ + whole.skip(i as int),
            ),
        decreases n - i,
    {
        let c = slice.get_char(i);
        let ghost rest = whole.skip(i as int);
        let ghost pending = cur@ + rest;
        let ghost oldcur = cur@;
        let ghost oldout = out@;
        proof {
            assert(rest[0] == c);
            assert(whole.skip(i + 1) =~= rest.skip(1));
        }
        if c == '\n' {
            proof {
                lemma_line_len_at(pending, oldcur.len() as int);
                assert(pending.take(oldcur.len() as int) =~= oldcur);
                assert(pending.skip(oldcur.len() as int + 1) =~= whole.skip(i + 1));
                assert(lines_of(pending) =~= seq![strip_cr(oldcur)] + lines_of(whole.skip(i + 1)));
            }
            let mut line = cur;
            cur = Vec::new();
            if line.len() > 0 && *line.last().unwrap() == '\r' {
                line.pop();
            }
            proof {
                assert(line@ =~= strip_cr(oldcur));
            }
            out.push(line);
            proof {
                assert(cur@ + whole.skip(i + 1) =~= whole.skip(i + 1));
                assert(out@.map_values(|v: Vec<char>| v@) =~= oldout.map_values(|v: Vec<char>| v@)
                    + seq![strip_cr(oldcur)]);
                assert(oldout.map_values(|v: Vec<char>| v@) + (seq![strip_cr(oldcur)] + lines_of(
                    whole.skip(i + 1),
                )) =~= out@.map_values(|v: Vec<char>| v@) + lines_of(whole.skip(i + 1)));
            }
        } else {
            cur.push(c);
            proof {
                assert(cur@ + whole.skip(i + 1) =~= pending);
            }
        }
        i = i + 1;
    }
    proof {
        assert(whole.skip(i as int) =~= Seq::<char>::empty());
        assert(cur@ + whole.skip(i as int) =~= cur@);
    }
    if cur.len() > 0 {
        let ghost oldcur = cur@;
        let ghost oldout = out@;
        proof {
            lemma_line_len_at(oldcur, oldcur.len() as int);
            assert(oldcur.take(oldcur.len() as int) =~= oldcur);
            assert(lines_of(oldcur) =~= seq![strip_cr(oldcur)]);
        }
        if *cur.last().unwrap() == '\r' {
            cur.pop();
        }
        proof {
            assert(cur@ =~= strip_cr(oldcur));
        }
        out.push(cur);
        proof {
            assert(out@.map_values(|v: Vec<char>| v@) =~= oldout.map_values(|v: Vec<char>| v@)
                + seq![strip_cr(oldcur)]);
        }
    } else {
        proof {
            assert(lines_of(cur@) =~= Seq::<Seq<char>>::empty());
            assert(out@.map_values(|v: Vec<char>| v@) + lines_of(cur@) =~= out@.map_values(
                |v: Vec<char>| v@,
            ));
        }
    }
    out
}

} // verus!
