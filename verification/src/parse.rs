//! The line-delimited record format.
//!
//! Each line of a file is one record: an object `{"name": value, ...}` whose
//! values are integers, byte strings, booleans or null. Blank lines (only
//! whitespace) carry no record. The grammar is defined by specification
//! functions over byte sequences; the executable parser is proved to return
//! exactly what they define.

use vstd::prelude::*;

use crate::schema::JsonValue;
use crate::schema::ValModel;

verus! {

/// Whitespace that may surround tokens within a line: space, tab, CR.
pub open spec fn is_ws(c: u8) -> bool {
    c == 32 || c == 9 || c == 13
}

pub open spec fn is_digit(c: u8) -> bool {
    48 <= c <= 57
}

/// First position at or after `i` holding a non-whitespace byte (or the end).
pub open spec fn skip_ws(s: Seq<u8>, i: int) -> int
    decreases s.len() - i,
{
    if 0 <= i < s.len() && is_ws(s[i]) {
        skip_ws(s, i + 1)
    } else {
        i
    }
}

pub proof fn lemma_skip_ws(s: Seq<u8>, i: int)
    requires
        0 <= i <= s.len(),
    ensures
        i <= skip_ws(s, i) <= s.len(),
    decreases s.len() - i,
{
    if i < s.len() && is_ws(s[i]) {
        lemma_skip_ws(s, i + 1);
    }
}

/// Position of the closing quote of a string whose contents start at `i`:
/// the first unescapable terminator. Quotes, backslashes and control bytes
/// may not occur inside a string.
pub open spec fn scan_string_end(s: Seq<u8>, i: int) -> Option<int>
    decreases s.len() - i,
{
    if i < 0 || i >= s.len() {
        Option::None
    } else if s[i] == 34 {
        Option::Some(i)
    } else if s[i] == 92 || s[i] < 32 {
        Option::None
    } else {
        scan_string_end(s, i + 1)
    }
}

pub proof fn lemma_scan_string_end(s: Seq<u8>, i: int)
    ensures
        scan_string_end(s, i) matches Some(j) ==> i <= j < s.len(),
    decreases s.len() - i,
{
    if 0 <= i < s.len() && s[i] != 34 && s[i] != 92 && s[i] >= 32 {
        lemma_scan_string_end(s, i + 1);
    }
}

/// A quoted byte string at `i`: `Some((contents, position after the closing
/// quote))` when one is there.
pub open spec fn parse_string(s: Seq<u8>, i: int) -> Option<(Seq<u8>, int)> {
    if 0 <= i < s.len() && s[i] == 34 {
        match scan_string_end(s, i + 1) {
            Option::Some(j) => Option::Some((s.subrange(i + 1, j), j + 1)),
            Option::None => Option::None,
        }
    } else {
        Option::None
    }
}

pub proof fn lemma_parse_string(s: Seq<u8>, i: int)
    ensures
        parse_string(s, i) matches Some(p) ==> i < p.1 <= s.len(),
{
    lemma_scan_string_end(s, i + 1);
}

/// First position at or after `i` holding a non-digit byte (or the end).
pub open spec fn scan_digits(s: Seq<u8>, i: int) -> int
    decreases s.len() - i,
{
    if 0 <= i < s.len() && is_digit(s[i]) {
        scan_digits(s, i + 1)
    } else {
        i
    }
}

pub proof fn lemma_scan_digits(s: Seq<u8>, i: int)
    requires
        0 <= i <= s.len(),
    ensures
        i <= scan_digits(s, i) <= s.len(),
        forall|k: int| i <= k < scan_digits(s, i) ==> is_digit(s[k]),
    decreases s.len() - i,
{
    if i < s.len() && is_digit(s[i]) {
        lemma_scan_digits(s, i + 1);
    }
}

/// Value of the decimal digit run `s[i .. j)`.
pub open spec fn digits_val(s: Seq<u8>, i: int, j: int) -> int
    decreases j - i,
{
    if j <= i {
        0
    } else {
        digits_val(s, i, j - 1) * 10 + (s[j - 1] - 48)
    }
}

pub open spec fn pow10(n: nat) -> int
    decreases n,
{
    if n == 0 {
        1
    } else {
        10 * pow10((n - 1) as nat)
    }
}

pub proof fn lemma_digits_val_bounds(s: Seq<u8>, i: int, j: int)
    requires
        0 <= i <= j <= s.len(),
        forall|k: int| i <= k < j ==> #[trigger] is_digit(s[k]),
    ensures
        0 <= digits_val(s, i, j) < pow10((j - i) as nat),
    decreases j - i,
{
    if j > i {
        lemma_digits_val_bounds(s, i, j - 1);
        assert(is_digit(s[j - 1]));
        assert(digits_val(s, i, j) == digits_val(s, i, j - 1) * 10 + (s[j - 1] - 48));
        assert(digits_val(s, i, j - 1) * 10 + 9 < pow10((j - i) as nat)) by (nonlinear_arith)
            requires
                0 <= digits_val(s, i, j - 1) < pow10((j - i - 1) as nat),
                pow10((j - i) as nat) == 10 * pow10((j - i - 1) as nat),
        ;
    }
}

/// A digit run without a leading zero is at least `pow10` of one less than
/// its length.
pub proof fn lemma_digits_val_lower(s: Seq<u8>, i: int, j: int)
    requires
        0 <= i < j <= s.len(),
        forall|k: int| i <= k < j ==> #[trigger] is_digit(s[k]),
        s[i] != 48,
    ensures
        digits_val(s, i, j) >= pow10((j - i - 1) as nat),
    decreases j - i,
{
    assert(is_digit(s[i]));
    if j == i + 1 {
        assert(digits_val(s, i, i) == 0);
        assert(digits_val(s, i, j) == s[i] - 48);
        assert(pow10(0) == 1);
    } else {
        lemma_digits_val_lower(s, i, j - 1);
        assert(is_digit(s[j - 1]));
        assert(digits_val(s, i, j) == digits_val(s, i, j - 1) * 10 + (s[j - 1] - 48));
        assert(pow10((j - i - 1) as nat) == 10 * pow10((j - i - 2) as nat));
        assert(digits_val(s, i, j - 1) * 10 >= pow10((j - i - 2) as nat) * 10) by (nonlinear_arith)
            requires
                digits_val(s, i, j - 1) >= pow10((j - i - 2) as nat),
        ;
    }
}

/// An optionally signed decimal integer at `i`, without a leading zero,
/// fitting a 64-bit signed integer: `Some((value, position after it))`.
pub open spec fn parse_int(s: Seq<u8>, i: int) -> Option<(int, int)> {
    if i < 0 || i >= s.len() {
        Option::None
    } else {
        let neg = s[i] == 45;
        let k = if neg { i + 1 } else { i };
        if k >= s.len() || !is_digit(s[k]) {
            Option::None
        } else {
            let j = scan_digits(s, k);
            if s[k] == 48 && j > k + 1 {
                Option::None
            } else {
                let m = digits_val(s, k, j);
                let v = if neg { -m } else { m };
                if i64::MIN <= v <= i64::MAX {
                    Option::Some((v, j))
                } else {
                    Option::None
                }
            }
        }
    }
}

pub proof fn lemma_parse_int(s: Seq<u8>, i: int)
    ensures
        parse_int(s, i) matches Some(p) ==> i < p.1 <= s.len(),
{
    if 0 <= i < s.len() {
        let neg = s[i] == 45;
        let k = if neg { i + 1 } else { i };
        if k < s.len() && is_digit(s[k]) {
            lemma_scan_digits(s, k + 1);
            assert(scan_digits(s, k) == scan_digits(s, k + 1));
        }
    }
}

/// One value at `i`: a string, an integer, `true`, `false` or `null`.
pub open spec fn parse_value(s: Seq<u8>, i: int) -> Option<(ValModel, int)> {
    if i < 0 || i >= s.len() {
        Option::None
    } else if s[i] == 34 {
        match parse_string(s, i) {
            Option::Some(p) => Option::Some((ValModel::Str(p.0), p.1)),
            Option::None => Option::None,
        }
    } else if s[i] == 45 || is_digit(s[i]) {
        match parse_int(s, i) {
            Option::Some(p) => Option::Some((ValModel::Int(p.0), p.1)),
            Option::None => Option::None,
        }
    } else if s[i] == 110 {
        if i + 4 <= s.len() && s[i + 1] == 117 && s[i + 2] == 108 && s[i + 3] == 108 {
            Option::Some((ValModel::Null, i + 4))
        } else {
            Option::None
        }
    } else if s[i] == 116 {
        if i + 4 <= s.len() && s[i + 1] == 114 && s[i + 2] == 117 && s[i + 3] == 101 {
            Option::Some((ValModel::Bool(true), i + 4))
        } else {
            Option::None
        }
    } else if s[i] == 102 {
        if i + 5 <= s.len() && s[i + 1] == 97 && s[i + 2] == 108 && s[i + 3] == 115
            && s[i + 4] == 101 {
            Option::Some((ValModel::Bool(false), i + 5))
        } else {
            Option::None
        }
    } else {
        Option::None
    }
}

pub proof fn lemma_parse_value(s: Seq<u8>, i: int)
    ensures
        parse_value(s, i) matches Some(p) ==> i < p.1 <= s.len(),
{
    lemma_parse_string(s, i);
    lemma_parse_int(s, i);
}

/// One observed record field: a name and its value.
#[verifier::ext_equal]
pub struct RowFieldModel {
    pub name: Seq<u8>,
    pub value: ValModel,
}

/// One record as observed in the input: its fields in order of appearance.
pub type RowModel = Seq<RowFieldModel>;

/// One `"name": value` member starting at the whitespace before its name.
pub open spec fn parse_member(s: Seq<u8>, i: int) -> Option<(RowFieldModel, int)> {
    let a = skip_ws(s, i);
    match parse_string(s, a) {
        Option::None => Option::None,
        Option::Some(np) => {
            let b = skip_ws(s, np.1);
            if b < s.len() && s[b] == 58 {
                let c = skip_ws(s, b + 1);
                match parse_value(s, c) {
                    Option::None => Option::None,
                    Option::Some(vp) => Option::Some(
                        (RowFieldModel { name: np.0, value: vp.0 }, vp.1),
                    ),
                }
            } else {
                Option::None
            }
        },
    }
}

pub proof fn lemma_parse_member(s: Seq<u8>, i: int)
    requires
        0 <= i <= s.len(),
    ensures
        parse_member(s, i) matches Some(p) ==> i < p.1 <= s.len(),
{
    let a = skip_ws(s, i);
    lemma_skip_ws(s, i);
    lemma_parse_string(s, a);
    if let Option::Some(np) = parse_string(s, a) {
        let b = skip_ws(s, np.1);
        lemma_skip_ws(s, np.1);
        if b < s.len() && s[b] == 58 {
            lemma_skip_ws(s, b + 1);
            lemma_parse_value(s, skip_ws(s, b + 1));
        }
    }
}

/// A comma-separated run of members starting at `i` (just after `{` or a
/// comma): the members and the position of the byte that ended the run
/// (expected by the caller to be `}`).
pub open spec fn parse_members(s: Seq<u8>, i: int) -> Option<(RowModel, int)>
    decreases s.len() - i,
    when 0 <= i <= s.len()
    via parse_members_decreases
{
    match parse_member(s, i) {
        Option::None => Option::None,
        Option::Some(mp) => {
            let k = skip_ws(s, mp.1);
            if k < s.len() && s[k] == 44 {
                match parse_members(s, k + 1) {
                    Option::None => Option::None,
                    Option::Some(rp) => Option::Some((seq![mp.0] + rp.0, rp.1)),
                }
            } else {
                Option::Some((seq![mp.0], k))
            }
        },
    }
}

#[via_fn]
proof fn parse_members_decreases(s: Seq<u8>, i: int) {
    lemma_parse_member(s, i);
    if let Option::Some(mp) = parse_member(s, i) {
        lemma_skip_ws(s, mp.1);
    }
}

/// A whole line as one record. `None` means the line is not a well-formed
/// record; a blank line is not a record either (the producer skips blanks
/// before asking).
pub open spec fn parse_record(line: Seq<u8>) -> Option<RowModel> {
    let a = skip_ws(line, 0);
    if a >= line.len() || line[a] != 123 {
        Option::None
    } else {
        let b = skip_ws(line, a + 1);
        if b < line.len() && line[b] == 125 {
            if skip_ws(line, b + 1) >= line.len() {
                Option::Some(Seq::empty())
            } else {
                Option::None
            }
        } else {
            match parse_members(line, a + 1) {
                Option::None => Option::None,
                Option::Some(rp) => {
                    if rp.1 < line.len() && line[rp.1] == 125
                        && skip_ws(line, rp.1 + 1) >= line.len() {
                        Option::Some(rp.0)
                    } else {
                        Option::None
                    }
                },
            }
        }
    }
}

/// One observed record field as executable data.
#[derive(Clone, Debug, PartialEq, Eq)]
pub struct RowField {
    pub name: Vec<u8>,
    pub value: JsonValue,
}

impl View for RowField {
    type V = RowFieldModel;

    open spec fn view(&self) -> RowFieldModel {
        RowFieldModel { name: self.name@, value: self.value@ }
    }
}

/// Model of an executable row: its fields' models in order.
pub open spec fn row_view(s: Seq<RowField>) -> RowModel {
    s.map_values(|rf: RowField| rf@)
}

/// First non-whitespace position at or after `i`.
pub(crate) fn ws_end(line: &Vec<u8>, i: usize) -> (r: usize)
    requires
        i <= line.len(),
    ensures
        r == skip_ws(line@, i as int),
        i <= r <= line.len(),
{
    let mut r: usize = i;
    while r < line.len() && (line[r] == 32 || line[r] == 9 || line[r] == 13)
        invariant
            i <= r <= line.len(),
            skip_ws(line@, i as int) == skip_ws(line@, r as int),
        decreases line.len() - r,
    {
        r += 1;
    }
    r
}

/// Copy of the bytes `line[a .. b)`.
pub(crate) fn copy_range(line: &Vec<u8>, a: usize, b: usize) -> (r: Vec<u8>)
    requires
        a <= b <= line.len(),
    ensures
        r@ == line@.subrange(a as int, b as int),
{
    let mut r: Vec<u8> = Vec::new();
    let mut k: usize = a;
    while k < b
        invariant
            a <= k <= b <= line.len(),
            r@ == line@.subrange(a as int, k as int),
        decreases b - k,
    {
        r.push(line[k]);
        proof {
            assert(r@ =~= line@.subrange(a as int, k + 1));
        }
        k += 1;
    }
    r
}

/// A quoted byte string at `i`, as [`parse_string`] defines it.
fn parse_string_at(line: &Vec<u8>, i: usize) -> (r: Option<(Vec<u8>, usize)>)
    requires
        i <= line.len(),
    ensures
        match r {
            Option::Some(p) => parse_string(line@, i as int) matches Some(q) && p.0@ == q.0
                && p.1 == q.1 && i < p.1 <= line.len(),
            Option::None => parse_string(line@, i as int) is None,
        },
{
    if i >= line.len() || line[i] != 34 {
        return Option::None;
    }
    let mut j: usize = i + 1;
    while j < line.len() && line[j] != 34 && line[j] != 92 && line[j] >= 32
        invariant
            i + 1 <= j <= line.len(),
            scan_string_end(line@, i + 1) == scan_string_end(line@, j as int),
        decreases line.len() - j,
    {
        j += 1;
    }
    if j >= line.len() || line[j] != 34 {
        proof {
            assert(scan_string_end(line@, j as int) is None);
        }
        return Option::None;
    }
    let contents = copy_range(line, i + 1, j);
    Option::Some((contents, j + 1))
}

/// End of the digit run starting at `i`.
fn digits_end(line: &Vec<u8>, i: usize) -> (r: usize)
    requires
        i <= line.len(),
    ensures
        r == scan_digits(line@, i as int),
        i <= r <= line.len(),
        forall|k: int| i <= k < r ==> #[trigger] is_digit(line@[k]),
        r < line.len() ==> !is_digit(line@[r as int]),
{
    let mut r: usize = i;
    while r < line.len() && 48 <= line[r] && line[r] <= 57
        invariant
            i <= r <= line.len(),
            scan_digits(line@, i as int) == scan_digits(line@, r as int),
            forall|k: int| i <= k < r ==> #[trigger] is_digit(line@[k]),
        decreases line.len() - r,
    {
        r += 1;
    }
    r
}

/// The digit run's value is monotone in the run's length.
proof fn lemma_digits_val_mono(s: Seq<u8>, i: int, m: int, j: int)
    requires
        0 <= i <= m <= j <= s.len(),
        forall|k: int| i <= k < j ==> #[trigger] is_digit(s[k]),
    ensures
        digits_val(s, i, j) >= digits_val(s, i, m),
    decreases j - m,
{
    if j > m {
        lemma_digits_val_mono(s, i, m, j - 1);
        lemma_digits_val_bounds(s, i, j - 1);
        assert(is_digit(s[j - 1]));
        assert(digits_val(s, i, j) == digits_val(s, i, j - 1) * 10 + (s[j - 1] - 48));
        assert(digits_val(s, i, j - 1) * 10 >= digits_val(s, i, j - 1)) by (nonlinear_arith)
            requires
                digits_val(s, i, j - 1) >= 0,
        ;
    }
}

/// An optionally signed 64-bit integer at `i`, as [`parse_int`] defines it.
#[verifier::loop_isolation(false)]
fn parse_int_at(line: &Vec<u8>, i: usize) -> (r: Option<(i64, usize)>)
    requires
        i <= line.len(),
    ensures
        match r {
            Option::Some(p) => parse_int(line@, i as int) matches Some(q) && p.0 as int == q.0
                && p.1 == q.1 && i < p.1 <= line.len(),
            Option::None => parse_int(line@, i as int) is None,
        },
{
    if i >= line.len() {
        return Option::None;
    }
    let neg = line[i] == 45;
    let k = if neg { i + 1 } else { i };
    if k >= line.len() || line[k] < 48 || line[k] > 57 {
        return Option::None;
    }
    let j = digits_end(line, k);
    proof {
        assert(j > k) by {
            assert(scan_digits(line@, k as int) == scan_digits(line@, k + 1));
            lemma_scan_digits(line@, k + 1);
        }
    }
    if line[k] == 48 && j > k + 1 {
        return Option::None;
    }
    let mut acc: u64 = 0;
    let mut m: usize = k;
    while m < j
        invariant
            k <= m <= j <= line.len(),
            j == scan_digits(line@, k as int),
            forall|p: int| k <= p < j ==> #[trigger] is_digit(line@[p]),
            acc as int == digits_val(line@, k as int, m as int),
        decreases j - m,
    {
        proof {
            assert(is_digit(line@[m as int]));
        }
        let d = line[m] - 48;
        if acc > (u64::MAX - (d as u64)) / 10 {
            proof {
                assert(digits_val(line@, k as int, m + 1)
                    == acc * 10 + (line@[m as int] - 48));
                assert(acc * 10 + d > u64::MAX) by (nonlinear_arith)
                    requires
                        acc > (u64::MAX - (d as u64)) / 10,
                        0 <= d <= 9,
                ;
                lemma_digits_val_mono(line@, k as int, m + 1, j as int);
                assert(digits_val(line@, k as int, j as int) > u64::MAX);
            }
            return Option::None;
        }
        proof {
            assert(acc * 10 + d <= u64::MAX) by (nonlinear_arith)
                requires
                    acc <= (u64::MAX - (d as u64)) / 10,
                    0 <= d <= 9,
            ;
        }
        acc = acc * 10 + (d as u64);
        m += 1;
    }
    if neg {
        if acc > 9223372036854775808u64 {
            return Option::None;
        }
        let v: i64 = if acc == 9223372036854775808u64 {
            i64::MIN
        } else {
            -(acc as i64)
        };
        Option::Some((v, j))
    } else {
        if acc > i64::MAX as u64 {
            return Option::None;
        }
        Option::Some((acc as i64, j))
    }
}

/// One value at `i`, as [`parse_value`] defines it.
fn parse_value_at(line: &Vec<u8>, i: usize) -> (r: Option<(JsonValue, usize)>)
    requires
        i <= line.len(),
    ensures
        match r {
            Option::Some(p) => parse_value(line@, i as int) matches Some(q) && p.0@ == q.0
                && p.1 == q.1 && i < p.1 <= line.len(),
            Option::None => parse_value(line@, i as int) is None,
        },
{
    if i >= line.len() {
        return Option::None;
    }
    let c = line[i];
    if c == 34 {
        match parse_string_at(line, i) {
            Option::Some((s, p)) => Option::Some((JsonValue::Str(s), p)),
            Option::None => Option::None,
        }
    } else if c == 45 || (48 <= c && c <= 57) {
        match parse_int_at(line, i) {
            Option::Some((v, p)) => Option::Some((JsonValue::Int(v), p)),
            Option::None => Option::None,
        }
    } else if c == 110 {
        if line.len() - i >= 4 && line[i + 1] == 117 && line[i + 2] == 108
            && line[i + 3] == 108 {
            Option::Some((JsonValue::Null, i + 4))
        } else {
            Option::None
        }
    } else if c == 116 {
        if line.len() - i >= 4 && line[i + 1] == 114 && line[i + 2] == 117
            && line[i + 3] == 101 {
            Option::Some((JsonValue::Bool(true), i + 4))
        } else {
            Option::None
        }
    } else if c == 102 {
        if line.len() - i >= 5 && line[i + 1] == 97 && line[i + 2] == 108
            && line[i + 3] == 115 && line[i + 4] == 101 {
            Option::Some((JsonValue::Bool(false), i + 5))
        } else {
            Option::None
        }
    } else {
        Option::None
    }
}

/// One `"name": value` member at `i`, as [`parse_member`] defines it.
fn parse_member_at(line: &Vec<u8>, i: usize) -> (r: Option<(RowField, usize)>)
    requires
        i <= line.len(),
    ensures
        match r {
            Option::Some(p) => parse_member(line@, i as int) matches Some(q) && p.0@ == q.0
                && p.1 == q.1 && i < p.1 <= line.len(),
            Option::None => parse_member(line@, i as int) is None,
        },
{
    let a = ws_end(line, i);
    match parse_string_at(line, a) {
        Option::None => Option::None,
        Option::Some((name, np)) => {
            let b = ws_end(line, np);
            if b < line.len() && line[b] == 58 {
                let c = ws_end(line, b + 1);
                match parse_value_at(line, c) {
                    Option::None => Option::None,
                    Option::Some((value, vp)) => Option::Some(
                        (RowField { name, value }, vp),
                    ),
                }
            } else {
                Option::None
            }
        },
    }
}

/// A comma-separated run of members, as [`parse_members`] defines it.
fn parse_members_at(line: &Vec<u8>, i: usize) -> (r: Option<(Vec<RowField>, usize)>)
    requires
        i <= line.len(),
    ensures
        match r {
            Option::Some(p) => parse_members(line@, i as int) matches Some(q)
                && row_view(p.0@) == q.0 && p.1 == q.1 && i <= p.1 <= line.len(),
            Option::None => parse_members(line@, i as int) is None,
        },
    decreases line.len() - i,
{
    match parse_member_at(line, i) {
        Option::None => Option::None,
        Option::Some((rf, j)) => {
            let k = ws_end(line, j);
            if k < line.len() && line[k] == 44 {
                match parse_members_at(line, k + 1) {
                    Option::None => Option::None,
                    Option::Some((mut v, fin)) => {
                        let ghost tail = v@;
                        v.insert(0, rf);
                        proof {
                            assert(v@ == tail.insert(0, rf));
                            assert(row_view(v@) =~= seq![rf@] + row_view(tail));
                        }
                        Option::Some((v, fin))
                    },
                }
            } else {
                let mut v: Vec<RowField> = Vec::new();
                let ghost rfm = rf@;
                v.push(rf);
                proof {
                    assert(row_view(v@) =~= seq![rfm]);
                }
                Option::Some((v, k))
            }
        },
    }
}

/// Parses one whole line as a record, as [`parse_record`] defines it.
pub fn parse_record_line(line: &Vec<u8>) -> (r: Option<Vec<RowField>>)
    ensures
        match r {
            Option::Some(v) => parse_record(line@) matches Some(m) && row_view(v@) == m,
            Option::None => parse_record(line@) is None,
        },
{
    let a = ws_end(line, 0);
    if a >= line.len() || line[a] != 123 {
        return Option::None;
    }
    let b = ws_end(line, a + 1);
    if b < line.len() && line[b] == 125 {
        if ws_end(line, b + 1) >= line.len() {
            let v: Vec<RowField> = Vec::new();
            proof {
                assert(row_view(v@) =~= Seq::<RowFieldModel>::empty());
            }
            return Option::Some(v);
        } else {
            return Option::None;
        }
    }
    match parse_members_at(line, a + 1) {
        Option::None => Option::None,
        Option::Some((v, p)) => {
            if p < line.len() && line[p] == 125 && ws_end(line, p + 1) >= line.len() {
                Option::Some(v)
            } else {
                Option::None
            }
        },
    }
}

} // verus!

