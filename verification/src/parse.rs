//! Line-oriented extraction of output/scale declarations.
//!
//! The file format is loosely structured; only two line patterns matter,
//! independent of brace nesting:
//!
//! * an output declaration: optional whitespace, the keyword `output`,
//!   whitespace, then a double-quoted label;
//! * a scale declaration: optional whitespace, the keyword `scale`,
//!   whitespace, a run of digits and dots, then only trailing whitespace.
//!
//! A scale line is attributed to the most recently declared output label; a
//! scale line seen before any output declaration is ignored, as is any line
//! matching neither pattern. A numeric token that is not digits optionally
//! followed by a dot and more digits is malformed and silently skipped, as is
//! one too large for machine arithmetic.

use vstd::prelude::*;
use crate::scale::{Scale, pow10, scale_le, pow10_u64, scale_le_exec, lemma_pow10_pos,
    lemma_scale_le_trans};

verus! {

/// Whitespace bytes: space, tab, carriage return, vertical tab, form feed.
pub open spec fn is_ws(b: u8) -> bool {
    b == 32 || b == 9 || b == 13 || b == 11 || b == 12
}

pub open spec fn is_digit(b: u8) -> bool {
    48 <= b <= 57
}

pub open spec fn digit_val(b: u8) -> nat {
    (b - 48) as nat
}

/// First index at or after `i` holding a byte that is not whitespace, or the
/// length if there is none.
pub open spec fn first_non_ws(s: Seq<u8>, i: int) -> int
    decreases s.len() - i,
{
    if i < s.len() && is_ws(s[i]) {
        first_non_ws(s, i + 1)
    } else {
        i
    }
}

/// First index at or after `i` holding byte `b`, or the length if none.
pub open spec fn find_byte(s: Seq<u8>, b: u8, i: int) -> int
    decreases s.len() - i,
{
    if i < s.len() && s[i] != b {
        find_byte(s, b, i + 1)
    } else {
        i
    }
}

/// First index at or after `i` holding a byte outside the numeric-token
/// class (digits and dots), or the length if none.
pub open spec fn token_end(s: Seq<u8>, i: int) -> int
    decreases s.len() - i,
{
    if i < s.len() && (is_digit(s[i]) || s[i] == 46) {
        token_end(s, i + 1)
    } else {
        i
    }
}

pub proof fn lemma_find_byte_bounds(s: Seq<u8>, b: u8, i: int)
    requires
        0 <= i <= s.len(),
    ensures
        i <= find_byte(s, b, i) <= s.len(),
    decreases s.len() - i,
{
    if i < s.len() && s[i] != b {
        lemma_find_byte_bounds(s, b, i + 1);
    }
}

fn is_ws_exec(b: u8) -> (r: bool)
    ensures
        r == is_ws(b),
{
    b == 32 || b == 9 || b == 13 || b == 11 || b == 12
}

fn is_digit_exec(b: u8) -> (r: bool)
    ensures
        r == is_digit(b),
{
    48 <= b && b <= 57
}

/// Advance past whitespace.
fn skip_ws(s: &Vec<u8>, from: usize) -> (r: usize)
    requires
        from <= s@.len(),
    ensures
        r == first_non_ws(s@, from as int),
        from <= r <= s@.len(),
{
    let mut i = from;
    while i < s.len() && is_ws_exec(s[i])
        invariant
            from <= i <= s@.len(),
            first_non_ws(s@, from as int) == first_non_ws(s@, i as int),
        decreases s@.len() - i,
    {
        i = i + 1;
    }
    i
}

/// Find the next occurrence of byte `b`.
fn find_byte_exec(s: &Vec<u8>, b: u8, from: usize) -> (r: usize)
    requires
        from <= s@.len(),
    ensures
        r == find_byte(s@, b, from as int),
        from <= r <= s@.len(),
{
    let mut i = from;
    while i < s.len() && s[i] != b
        invariant
            from <= i <= s@.len(),
            find_byte(s@, b, from as int) == find_byte(s@, b, i as int),
        decreases s@.len() - i,
    {
        i = i + 1;
    }
    i
}

/// Advance past the numeric-token class.
fn token_end_exec(s: &Vec<u8>, from: usize) -> (r: usize)
    requires
        from <= s@.len(),
    ensures
        r == token_end(s@, from as int),
        from <= r <= s@.len(),
{
    let mut i = from;
    while i < s.len() && (is_digit_exec(s[i]) || s[i] == 46)
        invariant
            from <= i <= s@.len(),
            token_end(s@, from as int) == token_end(s@, i as int),
        decreases s@.len() - i,
    {
        i = i + 1;
    }
    i
}

/// Copy the bytes of `s` in `[a, b)` into a fresh vector.
fn copy_range(s: &Vec<u8>, a: usize, b: usize) -> (r: Vec<u8>)
    requires
        a <= b <= s@.len(),
    ensures
        r@ == s@.subrange(a as int, b as int),
{
    let mut r: Vec<u8> = Vec::new();
    let mut i = a;
    while i < b
        invariant
            a <= i <= b <= s@.len(),
            r@ == s@.subrange(a as int, i as int),
        decreases b - i,
    {
        let x = s[i];
        r.push(x);
        proof {
            assert(r@ =~= s@.subrange(a as int, i + 1 as int));
        }
        i = i + 1;
    }
    r
}

/// The number written by a run of digit bytes, most significant first.
pub open spec fn digits_val(s: Seq<u8>) -> nat
    decreases s.len(),
{
    if s.len() == 0 {
        0
    } else {
        digits_val(s.drop_last()) * 10 + digit_val(s.last())
    }
}

/// Extending a digit run never shrinks its value.
proof fn lemma_digits_val_mono(s: Seq<u8>, a: int, i: int, j: int)
    requires
        0 <= a <= i <= j <= s.len(),
    ensures
        digits_val(s.subrange(a, i)) <= digits_val(s.subrange(a, j)),
    decreases j - i,
{
    if i < j {
        lemma_digits_val_mono(s, a, i + 1, j);
        let p = s.subrange(a, i);
        let q = s.subrange(a, i + 1);
        assert(q.drop_last() =~= p);
        assert(digits_val(q) == digits_val(p) * 10 + digit_val(q.last()));
    }
}

/// Read the digit run `s[a..b]` as a machine integer; `None` exactly when the
/// value does not fit.
fn digits_value(s: &Vec<u8>, a: usize, b: usize) -> (r: Option<u64>)
    requires
        a <= b <= s@.len(),
        forall|k: int| a <= k < b ==> is_digit(s@[k]),
    ensures
        match r {
            Some(v) => v == digits_val(s@.subrange(a as int, b as int)),
            None => digits_val(s@.subrange(a as int, b as int)) > u64::MAX,
        },
{
    let mut acc: u64 = 0;
    let mut i = a;
    while i < b
        invariant
            a <= i <= b <= s@.len(),
            forall|k: int| a <= k < b ==> is_digit(s@[k]),
            acc == digits_val(s@.subrange(a as int, i as int)),
        decreases b - i,
    {
        let d = s[i] - 48;
        proof {
            let p = s@.subrange(a as int, i as int);
            let q = s@.subrange(a as int, i + 1);
            assert(q.drop_last() =~= p);
            assert(digits_val(q) == digits_val(p) * 10 + digit_val(s@[i as int]));
        }
        if acc > (u64::MAX - (d as u64)) / 10 {
            proof {
                let q = s@.subrange(a as int, i + 1);
                assert(digits_val(q) > u64::MAX) by {
                    assert(acc >= (u64::MAX - (d as u64)) / 10 + 1);
                    assert(acc * 10 >= ((u64::MAX - (d as u64)) / 10 + 1) * 10) by (nonlinear_arith)
                        requires
                            acc >= (u64::MAX - (d as u64)) / 10 + 1,
                    ;
                    assert(((u64::MAX - (d as u64)) / 10) * 10 + 10 > u64::MAX - (d as u64)) by (nonlinear_arith);
                };
                lemma_digits_val_mono(s@, a as int, i + 1, b as int);
            }
            return None;
        }
        proof {
            assert(acc * 10 + d <= u64::MAX) by (nonlinear_arith)
                requires
                    acc <= (u64::MAX - (d as u64)) / 10,
                    d < 10,
            ;
        }
        acc = acc * 10 + (d as u64);
        i = i + 1;
    }
    Some(acc)
}

/// Position of the first dot in a numeric token, or its length.
pub open spec fn lit_dot(t: Seq<u8>) -> int {
    find_byte(t, 46, 0)
}

pub open spec fn all_digits(s: Seq<u8>) -> bool {
    forall|k: int| 0 <= k < s.len() ==> is_digit(s[k])
}

/// A well-formed decimal literal: digits, optionally followed by a dot and
/// more digits.
pub open spec fn lit_valid(t: Seq<u8>) -> bool {
    let d = lit_dot(t);
    &&& d >= 1
    &&& all_digits(t.subrange(0, d))
    &&& (d == t.len() || (d + 1 < t.len() && all_digits(t.subrange(d + 1, t.len() as int))))
}

/// Number of digits after the dot.
pub open spec fn lit_frac_len(t: Seq<u8>) -> int {
    if lit_dot(t) == t.len() {
        0
    } else {
        t.len() - lit_dot(t) - 1
    }
}

/// The numerator of the literal over `10^lit_frac_len`.
pub open spec fn lit_num(t: Seq<u8>) -> nat {
    let d = lit_dot(t);
    if d == t.len() {
        digits_val(t)
    } else {
        digits_val(t.subrange(0, d)) * pow10(lit_frac_len(t) as nat)
            + digits_val(t.subrange(d + 1, t.len() as int))
    }
}

/// Whether the literal's value fits the machine representation.
pub open spec fn lit_fits(t: Seq<u8>) -> bool {
    lit_frac_len(t) <= 9 && lit_num(t) <= u64::MAX
}

/// The scale a well-formed, fitting literal denotes.
pub open spec fn lit_scale(t: Seq<u8>) -> Scale {
    Scale { num: lit_num(t) as u64, den_pow: lit_frac_len(t) as u32 }
}

/// Parse a decimal literal. Returns `Some` exactly when the token is
/// well-formed and its value fits.
pub fn parse_literal(t: &Vec<u8>) -> (r: Option<Scale>)
    ensures
        match r {
            Some(sc) => lit_valid(t@) && lit_fits(t@) && sc == lit_scale(t@) && sc.wf(),
            None => !(lit_valid(t@) && lit_fits(t@)),
        },
{
    let n = t.len();
    let d = find_byte_exec(t, 46, 0);
    if d == 0 {
        return None;
    }
    // every byte before the first dot must be a digit
    let mut i: usize = 0;
    while i < d
        invariant
            0 <= i <= d <= t@.len(),
            d == lit_dot(t@),
            forall|k: int| 0 <= k < i ==> is_digit(t@[k]),
        decreases d - i,
    {
        if !is_digit_exec(t[i]) {
            proof {
                assert(t@.subrange(0, d as int)[i as int] == t@[i as int]);
                assert(!all_digits(t@.subrange(0, d as int)));
            }
            return None;
        }
        i = i + 1;
    }
    let frac_len: usize;
    if d == n {
        frac_len = 0;
    } else {
        if d + 1 >= n {
            return None;
        }
        let mut j: usize = d + 1;
        while j < n
            invariant
                d + 1 <= j <= n == t@.len(),
                d == lit_dot(t@),
                forall|k: int| d + 1 <= k < j ==> is_digit(t@[k]),
            decreases n - j,
        {
            if !is_digit_exec(t[j]) {
                proof {
                    assert(t@.subrange(d + 1, t@.len() as int)[j - (d + 1)] == t@[j as int]);
                    assert(!all_digits(t@.subrange(d + 1, t@.len() as int)));
                }
                return None;
            }
            j = j + 1;
        }
        frac_len = n - d - 1;
    }
    proof {
        assert(lit_valid(t@)) by {
            assert(all_digits(t@.subrange(0, d as int)));
            if d < n {
                assert(all_digits(t@.subrange(d + 1, t@.len() as int)));
            }
        };
        assert(frac_len == lit_frac_len(t@));
    }
    if frac_len > 9 {
        return None;
    }
    let int_val = match digits_value(t, 0, d) {
        Some(v) => v,
        None => {
            proof {
                if d == n {
                    assert(t@.subrange(0, d as int) =~= t@);
                } else {
                    lemma_pow10_pos(frac_len as nat);
                    let iv = digits_val(t@.subrange(0, d as int));
                    assert(iv * pow10(frac_len as nat) >= iv * 1) by (nonlinear_arith)
                        requires
                            pow10(frac_len as nat) >= 1,
                            iv >= 0,
                    ;
                }
            }
            return None;
        },
    };
    if d == n {
        proof {
            assert(t@.subrange(0, d as int) =~= t@);
        }
        return Some(Scale { num: int_val, den_pow: 0 });
    }
    let frac_val = match digits_value(t, d + 1, n) {
        Some(v) => v,
        None => {
            return None;
        },
    };
    let p = pow10_u64(frac_len as u32);
    proof {
        assert(int_val * p <= 0xffff_ffff_ffff_ffffu64 * 1000000000u64) by (nonlinear_arith)
            requires
                int_val <= 0xffff_ffff_ffff_ffffu64,
                p <= 1000000000u64,
        ;
    }
    let total: u128 = (int_val as u128) * (p as u128) + (frac_val as u128);
    if total > u64::MAX as u128 {
        return None;
    }
    Some(Scale { num: total as u64, den_pow: frac_len as u32 })
}

pub open spec fn output_kw() -> Seq<u8> {
    seq![111u8, 117u8, 116u8, 112u8, 117u8, 116u8]
}

pub open spec fn scale_kw() -> Seq<u8> {
    seq![115u8, 99u8, 97u8, 108u8, 101u8]
}

/// The bytes of `kw` occur in `s` starting at `i`.
pub open spec fn starts_with_at(s: Seq<u8>, i: int, kw: Seq<u8>) -> bool {
    0 <= i && i + kw.len() <= s.len() && s.subrange(i, i + kw.len()) == kw
}

/// The label of an output-declaration line: optional whitespace, `output`,
/// whitespace, then a nonempty double-quoted label. `None` when the line does
/// not match.
pub open spec fn output_label(line: Seq<u8>) -> Option<Seq<u8>> {
    let i = first_non_ws(line, 0);
    if !starts_with_at(line, i, output_kw()) {
        None
    } else if !(i + 6 < line.len() && is_ws(line[i + 6])) {
        None
    } else {
        let k = first_non_ws(line, i + 6);
        if !(k < line.len() && line[k] == 34) {
            None
        } else {
            let q = find_byte(line, 34, k + 1);
            if q < line.len() && q > k + 1 {
                Some(line.subrange(k + 1, q))
            } else {
                None
            }
        }
    }
}

/// The numeric token of a scale-declaration line: optional whitespace,
/// `scale`, whitespace, a nonempty run of digits and dots, then nothing but
/// trailing whitespace. `None` when the line does not match.
pub open spec fn scale_token(line: Seq<u8>) -> Option<Seq<u8>> {
    let i = first_non_ws(line, 0);
    if !starts_with_at(line, i, scale_kw()) {
        None
    } else if !(i + 5 < line.len() && is_ws(line[i + 5])) {
        None
    } else {
        let k = first_non_ws(line, i + 5);
        let e = token_end(line, k);
        if e > k && first_non_ws(line, e) == line.len() {
            Some(line.subrange(k, e))
        } else {
            None
        }
    }
}

/// Check for the keyword `output` at position `i`.
fn is_output_kw_at(line: &Vec<u8>, i: usize) -> (r: bool)
    requires
        i <= line@.len(),
    ensures
        r == starts_with_at(line@, i as int, output_kw()),
{
    if line.len() - i < 6 {
        return false;
    }
    let r = line[i] == 111 && line[i + 1] == 117 && line[i + 2] == 116 && line[i + 3] == 112
        && line[i + 4] == 117 && line[i + 5] == 116;
    proof {
        let s = line@.subrange(i as int, i + 6);
        if r {
            assert(s =~= output_kw());
        } else {
            assert(s[0] == line@[i as int]);
            assert(s[1] == line@[i + 1]);
            assert(s[2] == line@[i + 2]);
            assert(s[3] == line@[i + 3]);
            assert(s[4] == line@[i + 4]);
            assert(s[5] == line@[i + 5]);
            assert(s != output_kw());
        }
    }
    r
}

/// Check for the keyword `scale` at position `i`.
fn is_scale_kw_at(line: &Vec<u8>, i: usize) -> (r: bool)
    requires
        i <= line@.len(),
    ensures
        r == starts_with_at(line@, i as int, scale_kw()),
{
    if line.len() - i < 5 {
        return false;
    }
    let r = line[i] == 115 && line[i + 1] == 99 && line[i + 2] == 97 && line[i + 3] == 108
        && line[i + 4] == 101;
    proof {
        let s = line@.subrange(i as int, i + 5);
        if r {
            assert(s =~= scale_kw());
        } else {
            assert(s[0] == line@[i as int]);
            assert(s[1] == line@[i + 1]);
            assert(s[2] == line@[i + 2]);
            assert(s[3] == line@[i + 3]);
            assert(s[4] == line@[i + 4]);
            assert(s != scale_kw());
        }
    }
    r
}

/// Match an output-declaration line and hand back its label.
pub fn match_output_line(line: &Vec<u8>) -> (r: Option<Vec<u8>>)
    ensures
        match r {
            Some(l) => output_label(line@) == Some(l@),
            None => output_label(line@) is None,
        },
{
    let i = skip_ws(line, 0);
    if !is_output_kw_at(line, i) {
        return None;
    }
    proof {
        assert(output_kw().len() == 6);
    }
    let n = line.len();
    if !(i + 6 < n && is_ws_exec(line[i + 6])) {
        return None;
    }
    let k = skip_ws(line, i + 6);
    if !(k < line.len() && line[k] == 34) {
        return None;
    }
    let q = find_byte_exec(line, 34, k + 1);
    if q < line.len() && q > k + 1 {
        Some(copy_range(line, k + 1, q))
    } else {
        None
    }
}

/// The scale recorded by a line, if any: the line matches the scale pattern
/// and its token is a well-formed literal that fits.
pub open spec fn recorded_scale(line: Seq<u8>) -> Option<Scale> {
    match scale_token(line) {
        Some(t) => if lit_valid(t) && lit_fits(t) {
            Some(lit_scale(t))
        } else {
            None
        },
        None => None,
    }
}

/// Match a scale-declaration line and parse its value.
pub fn match_scale_line(line: &Vec<u8>) -> (r: Option<Scale>)
    ensures
        r == recorded_scale(line@),
        r is Some ==> r->Some_0.wf(),
{
    let i = skip_ws(line, 0);
    if !is_scale_kw_at(line, i) {
        return None;
    }
    proof {
        assert(scale_kw().len() == 5);
    }
    let n = line.len();
    if !(i + 5 < n && is_ws_exec(line[i + 5])) {
        return None;
    }
    let k = skip_ws(line, i + 5);
    let e = token_end_exec(line, k);
    if !(e > k) {
        return None;
    }
    let rest = skip_ws(line, e);
    if rest != line.len() {
        return None;
    }
    let tok = copy_range(line, k, e);
    parse_literal(&tok)
}

/// The lines of `s` from position `i` on, split at newline bytes, the
/// newline not kept. A trailing newline does not open a final empty line.
pub open spec fn split_lines_from(s: Seq<u8>, i: int) -> Seq<Seq<u8>>
    decreases s.len() - i,
        when 0 <= i
        via split_lines_from_decreases
{
    if i >= s.len() {
        Seq::empty()
    } else {
        let j = find_byte(s, 10, i);
        if j >= s.len() {
            seq![s.subrange(i, s.len() as int)]
        } else {
            seq![s.subrange(i, j)] + split_lines_from(s, j + 1)
        }
    }
}

#[via_fn]
proof fn split_lines_from_decreases(s: Seq<u8>, i: int) {
    if 0 <= i && i < s.len() {
        lemma_find_byte_bounds(s, 10, i);
    }
}

pub open spec fn split_lines(s: Seq<u8>) -> Seq<Seq<u8>> {
    split_lines_from(s, 0)
}

pub open spec fn views_of(ls: Seq<Vec<u8>>) -> Seq<Seq<u8>> {
    ls.map_values(|l: Vec<u8>| l@)
}

/// Split a file's bytes into its lines.
fn split_into_lines(content: &Vec<u8>) -> (r: Vec<Vec<u8>>)
    ensures
        views_of(r@) == split_lines(content@),
{
    let mut r: Vec<Vec<u8>> = Vec::new();
    let n = content.len();
    let mut i: usize = 0;
    proof {
        assert(views_of(r@) + split_lines_from(content@, 0) =~= split_lines(content@));
    }
    while i < n
        invariant
            i <= n,
            n == content@.len(),
            views_of(r@) + split_lines_from(content@, i as int) == split_lines(content@),
        decreases n - i,
    {
        let j = find_byte_exec(content, 10, i);
        let line = copy_range(content, i, j);
        proof {
            let f = |l: Vec<u8>| l@;
            assert(r@.push(line).map_values(f) =~= r@.map_values(f).push(line@));
        }
        r.push(line);
        proof {
            if j >= n {
                assert(split_lines_from(content@, i as int) =~= seq![content@.subrange(
                    i as int,
                    n as int,
                )]);
                assert(views_of(r@) + split_lines_from(content@, n as int) =~= split_lines(
                    content@,
                ));
            } else {
                assert(split_lines_from(content@, i as int) =~= seq![content@.subrange(
                    i as int,
                    j as int,
                )] + split_lines_from(content@, j + 1));
                assert(views_of(r@) + split_lines_from(content@, j + 1) =~= split_lines(
                    content@,
                ));
            }
        }
        if j >= n {
            i = n;
        } else {
            i = j + 1;
        }
    }
    proof {
        assert(split_lines_from(content@, i as int) =~= Seq::<Seq<u8>>::empty());
        assert(views_of(r@) =~= split_lines(content@));
    }
    r
}

/// The parser's transient state: the current output-label cursor (empty when
/// no output has been declared yet) and the mapping from output label to its
/// most recently declared scale.
pub struct ScanState {
    pub cursor: Seq<u8>,
    pub scales: Map<Seq<u8>, Scale>,
}

/// One line's effect on the parser state: an output declaration moves the
/// cursor; a recordable scale line records its value under the cursor label,
/// unless the cursor is still empty.
pub open spec fn step_line(st: ScanState, line: Seq<u8>) -> ScanState {
    let cur = match output_label(line) {
        Some(l) => l,
        None => st.cursor,
    };
    match recorded_scale(line) {
        Some(sc) => if cur.len() > 0 {
            ScanState { cursor: cur, scales: st.scales.insert(cur, sc) }
        } else {
            ScanState { cursor: cur, scales: st.scales }
        },
        None => ScanState { cursor: cur, scales: st.scales },
    }
}

/// The parser state after scanning all of `lines`, starting from an empty
/// cursor and an empty mapping.
pub open spec fn scan(lines: Seq<Seq<u8>>) -> ScanState
    decreases lines.len(),
{
    if lines.len() == 0 {
        ScanState { cursor: Seq::empty(), scales: Map::empty() }
    } else {
        step_line(scan(lines.drop_last()), lines.last())
    }
}

/// The scale mapping extracted from a file's bytes.
pub open spec fn scales_of(content: Seq<u8>) -> Map<Seq<u8>, Scale> {
    scan(split_lines(content)).scales
}

pub open spec fn no_scales(m: Map<Seq<u8>, Scale>) -> bool {
    forall|l: Seq<u8>| !m.contains_key(l)
}

/// `sc` is a value of `m`, and no value of `m` exceeds it.
pub open spec fn is_max_scale(sc: Scale, m: Map<Seq<u8>, Scale>) -> bool {
    &&& exists|l: Seq<u8>| m.contains_key(l) && m[l] == sc
    &&& forall|l: Seq<u8>| m.contains_key(l) ==> scale_le(m[l], sc)
}

/// The mapping held by a list of (label, scale) records, a later record for
/// a label overriding an earlier one.
pub open spec fn entries_map(es: Seq<(Vec<u8>, Scale)>) -> Map<Seq<u8>, Scale>
    decreases es.len(),
{
    if es.len() == 0 {
        Map::empty()
    } else {
        entries_map(es.drop_last()).insert(es.last().0@, es.last().1)
    }
}

/// Index of the last record for label `l`, or -1 if there is none.
pub open spec fn last_occ(es: Seq<(Vec<u8>, Scale)>, l: Seq<u8>) -> int
    decreases es.len(),
{
    if es.len() == 0 {
        -1
    } else if es.last().0@ == l {
        es.len() - 1
    } else {
        last_occ(es.drop_last(), l)
    }
}

/// The mapping of a record list is read off at each label's last record.
proof fn lemma_last_occ(es: Seq<(Vec<u8>, Scale)>, l: Seq<u8>)
    ensures
        entries_map(es).contains_key(l) <==> last_occ(es, l) >= 0,
        last_occ(es, l) < es.len(),
        last_occ(es, l) >= 0 ==> es[last_occ(es, l)].0@ == l && entries_map(es)[l] == es[last_occ(
            es,
            l,
        )].1 && (forall|j: int| last_occ(es, l) < j < es.len() ==> es[j].0@ != l),
        last_occ(es, l) < 0 ==> forall|j: int| 0 <= j < es.len() ==> es[j].0@ != l,
    decreases es.len(),
{
    if es.len() > 0 {
        lemma_last_occ(es.drop_last(), l);
        assert(forall|j: int|
            0 <= j < es.len() - 1 ==> es.drop_last()[j] == es[j]);
        if es.last().0@ == l {
        } else {
            assert(es[es.len() - 1].0@ != l);
        }
    }
}

/// Scan all lines, returning the record list of declared scales.
fn scan_lines(lines: &Vec<Vec<u8>>) -> (r: Vec<(Vec<u8>, Scale)>)
    ensures
        entries_map(r@) == scan(views_of(lines@)).scales,
        forall|k: int| 0 <= k < r@.len() ==> (#[trigger] r@[k]).1.wf(),
{
    let ghost lv = views_of(lines@);
    let mut cursor: Vec<u8> = Vec::new();
    let mut entries: Vec<(Vec<u8>, Scale)> = Vec::new();
    let n = lines.len();
    let mut i: usize = 0;
    proof {
        assert(lv.take(0) =~= Seq::<Seq<u8>>::empty());
        assert(entries_map(entries@) =~= scan(lv.take(0)).scales);
    }
    while i < n
        invariant
            i <= n == lines@.len(),
            lv == views_of(lines@),
            cursor@ == scan(lv.take(i as int)).cursor,
            entries_map(entries@) == scan(lv.take(i as int)).scales,
            forall|k: int| 0 <= k < entries@.len() ==> (#[trigger] entries@[k]).1.wf(),
        decreases n - i,
    {
        let line = &lines[i];
        proof {
            assert(lv[i as int] == lines@[i as int]@);
            assert(lv.take(i + 1).drop_last() =~= lv.take(i as int));
            assert(lv.take(i + 1).last() == lv[i as int]);
        }
        let ghost pre = scan(lv.take(i as int));
        match match_output_line(line) {
            Some(lbl) => {
                cursor = lbl;
            },
            None => {},
        }
        match match_scale_line(line) {
            Some(sc) => {
                if cursor.len() > 0 {
                    let owned = copy_range(&cursor, 0, cursor.len());
                    proof {
                        assert(owned@ =~= cursor@);
                        assert(entries@.push((owned, sc)).drop_last() =~= entries@);
                    }
                    entries.push((owned, sc));
                }
            },
            None => {},
        }
        proof {
            assert(scan(lv.take(i + 1)) == step_line(pre, lv[i as int]));
            assert(cursor@ == scan(lv.take(i + 1)).cursor);
            assert(entries_map(entries@) =~= scan(lv.take(i + 1)).scales);
        }
        i = i + 1;
    }
    proof {
        assert(lv.take(n as int) =~= lv);
    }
    entries
}

/// Compare two byte strings.
fn bytes_eq(a: &Vec<u8>, b: &Vec<u8>) -> (r: bool)
    ensures
        r == (a@ == b@),
{
    if a.len() != b.len() {
        return false;
    }
    let n = a.len();
    let mut i: usize = 0;
    while i < n
        invariant
            i <= n == a@.len() == b@.len(),
            forall|k: int| 0 <= k < i ==> a@[k] == b@[k],
        decreases n - i,
    {
        if a[i] != b[i] {
            return false;
        }
        i = i + 1;
    }
    proof {
        assert(a@ =~= b@);
    }
    true
}

/// Reduce a record list to the maximum scale over the mapping it holds, or
/// `None` when the mapping is empty.
fn max_entry(entries: &Vec<(Vec<u8>, Scale)>) -> (r: Option<Scale>)
    requires
        forall|k: int| 0 <= k < entries@.len() ==> (#[trigger] entries@[k]).1.wf(),
    ensures
        ({
            let m = entries_map(entries@);
            match r {
                None => no_scales(m),
                Some(sc) => sc.wf() && is_max_scale(sc, m),
            }
        }),
{
    let ghost es = entries@;
    let ghost m = entries_map(es);
    let mut best: Option<Scale> = None;
    let n = entries.len();
    let mut i: usize = 0;
    proof {
        assert forall|l: Seq<u8>| #[trigger] m.contains_key(l) implies last_occ(es, l) >= 0 by {
            lemma_last_occ(es, l);
        };
    }
    while i < n
        invariant
            i <= n == es.len(),
            es == entries@,
            m == entries_map(es),
            forall|k: int| 0 <= k < es.len() ==> (#[trigger] es[k]).1.wf(),
            match best {
                None => forall|l: Seq<u8>|
                    #[trigger] m.contains_key(l) ==> last_occ(es, l) >= i,
                Some(b) => b.wf() && (exists|l: Seq<u8>|
                    m.contains_key(l) && m[l] == b) && (forall|l: Seq<u8>|
                    #[trigger] m.contains_key(l) && last_occ(es, l) < i ==> scale_le(m[l], b)),
            },
        decreases n - i,
    {
        let mut is_last = true;
        let mut j = i + 1;
        while j < n
            invariant
                i < j <= n == es.len(),
                es == entries@,
                is_last == (forall|t: int| i < t < j ==> (#[trigger] es[t]).0@ != es[i as int].0@),
            decreases n - j,
        {
            if bytes_eq(&entries[j].0, &entries[i].0) {
                is_last = false;
            }
            j = j + 1;
        }
        let ghost l0 = es[i as int].0@;
        if is_last {
            proof {
                lemma_last_occ(es, l0);
                assert(last_occ(es, l0) == i);
                assert(m.contains_key(l0) && m[l0] == es[i as int].1);
            }
            let cand = entries[i].1;
            match best {
                None => {
                    proof {
                        assert forall|l: Seq<u8>|
                            #[trigger] m.contains_key(l) && last_occ(es, l) < i + 1 implies scale_le(
                            m[l],
                            cand,
                        ) by {
                            lemma_last_occ(es, l);
                            assert(last_occ(es, l) == i);
                            assert(l == l0);
                        };
                    }
                    best = Some(cand);
                },
                Some(b) => {
                    if scale_le_exec(&b, &cand) {
                        proof {
                            assert forall|l: Seq<u8>|
                                #[trigger] m.contains_key(l) && last_occ(es, l) < i + 1 implies scale_le(
                                m[l],
                                cand,
                            ) by {
                                lemma_last_occ(es, l);
                                if last_occ(es, l) < i {
                                    lemma_scale_le_trans(m[l], b, cand);
                                } else {
                                    assert(last_occ(es, l) == i);
                                    assert(l == l0);
                                }
                            };
                        }
                        best = Some(cand);
                    } else {
                        proof {
                            assert(scale_le(cand, b));
                            assert forall|l: Seq<u8>|
                                #[trigger] m.contains_key(l) && last_occ(es, l) < i + 1 implies scale_le(
                                m[l],
                                b,
                            ) by {
                                lemma_last_occ(es, l);
                                if last_occ(es, l) == i {
                                    assert(l == l0);
                                }
                            };
                        }
                    }
                },
            }
        } else {
            proof {
                let t0 = choose|t: int| i < t < n && (#[trigger] es[t]).0@ == es[i as int].0@;
                assert forall|l: Seq<u8>|
                    #[trigger] m.contains_key(l) && last_occ(es, l) < i + 1 implies last_occ(
                    es,
                    l,
                ) < i by {
                    lemma_last_occ(es, l);
                    if last_occ(es, l) == i {
                        assert(es[t0].0@ == l);
                    }
                };
            }
        }
        i = i + 1;
    }
    proof {
        match best {
            None => {
                assert forall|l: Seq<u8>| !m.contains_key(l) by {
                    lemma_last_occ(es, l);
                };
            },
            Some(b) => {
                assert forall|l: Seq<u8>| #[trigger] m.contains_key(l) implies scale_le(
                    m[l],
                    b,
                ) by {
                    lemma_last_occ(es, l);
                };
            },
        }
    }
    best
}

/// Lines declaring no output leave the cursor empty and the mapping empty:
/// every scale line among them is ignored.
pub proof fn lemma_no_outputs_no_scales(lines: Seq<Seq<u8>>)
    requires
        forall|i: int| 0 <= i < lines.len() ==> output_label(#[trigger] lines[i]) is None,
    ensures
        scan(lines).cursor == Seq::<u8>::empty(),
        no_scales(scan(lines).scales),
    decreases lines.len(),
{
    if lines.len() > 0 {
        assert(forall|i: int|
            0 <= i < lines.len() - 1 ==> lines.drop_last()[i] == lines[i]);
        lemma_no_outputs_no_scales(lines.drop_last());
        assert(output_label(lines.last()) is None);
    }
}

/// Lines with no recordable scale declaration leave the mapping empty,
/// whatever outputs they declare: a file with output declarations but no
/// valid scale lines yields no scales.
pub proof fn lemma_no_scale_lines(lines: Seq<Seq<u8>>)
    requires
        forall|i: int| 0 <= i < lines.len() ==> recorded_scale(#[trigger] lines[i]) is None,
    ensures
        no_scales(scan(lines).scales),
    decreases lines.len(),
{
    if lines.len() > 0 {
        assert(forall|i: int|
            0 <= i < lines.len() - 1 ==> lines.drop_last()[i] == lines[i]);
        lemma_no_scale_lines(lines.drop_last());
        assert(recorded_scale(lines.last()) is None);
    }
}

/// A recordable scale line is attributed to the most recently declared
/// output: appending it records its value under the current cursor label,
/// overwriting any earlier value for that label.
pub proof fn lemma_scale_attribution(lines: Seq<Seq<u8>>, line: Seq<u8>)
    requires
        output_label(line) is None,
        recorded_scale(line) is Some,
        scan(lines).cursor.len() > 0,
    ensures
        scan(lines.push(line)).cursor == scan(lines).cursor,
        scan(lines.push(line)).scales == scan(lines).scales.insert(
            scan(lines).cursor,
            recorded_scale(line)->Some_0,
        ),
{
    assert(lines.push(line).drop_last() =~= lines);
}

/// A scale line seen while the cursor is still empty is ignored.
pub proof fn lemma_scale_before_output_ignored(lines: Seq<Seq<u8>>, line: Seq<u8>)
    requires
        scan(lines).cursor.len() == 0,
        output_label(line) is None,
    ensures
        scan(lines.push(line)).cursor == scan(lines).cursor,
        scan(lines.push(line)).scales == scan(lines).scales,
{
    assert(lines.push(line).drop_last() =~= lines);
}

/// A line matching neither pattern changes nothing: attribution carries
/// across any number of intervening unrelated lines.
pub proof fn lemma_irrelevant_line(lines: Seq<Seq<u8>>, line: Seq<u8>)
    requires
        output_label(line) is None,
        recorded_scale(line) is None,
    ensures
        scan(lines.push(line)).cursor == scan(lines).cursor,
        scan(lines.push(line)).scales == scan(lines).scales,
{
    assert(lines.push(line).drop_last() =~= lines);
}

/// An output declaration moves the cursor to its label, replacing any prior
/// value.
pub proof fn lemma_output_moves_cursor(lines: Seq<Seq<u8>>, line: Seq<u8>)
    requires
        output_label(line) is Some,
    ensures
        scan(lines.push(line)).cursor == output_label(line)->Some_0,
{
    assert(lines.push(line).drop_last() =~= lines);
}

/// Extract the effective scale from a file's bytes: scan every line, then
/// take the maximum declared scale across all outputs. `None` exactly when
/// the file declares no scale at all.
pub fn compute_scale(content: &Vec<u8>) -> (r: Option<Scale>)
    ensures
        ({
            let m = scales_of(content@);
            match r {
                None => no_scales(m),
                Some(sc) => sc.wf() && is_max_scale(sc, m),
            }
        }),
{
    let lines = split_into_lines(content);
    let entries = scan_lines(&lines);
    max_entry(&entries)
}

} // verus!
