//! The bulk-load record list: its grammar, as specification functions over
//! character sequences, and a verified parser for it.
//!
//! The accepted text is a bracketed list of records, each of the form
//! `{"id": <int>, "x": <int>, "y": <int>}` with the three keys in that
//! order, decimal integer values in `i32` range, optional `-` sign, and
//! whitespace allowed around every token. The loading policy is
//! best-effort prefix: reading stops at the closing bracket or at the
//! first malformed record, and whatever was read up to that point is the
//! result; text that does not even open a list is rejected outright.

use vstd::prelude::*;

use vstd::arithmetic::div_mod::lemma_div_decreases;
use vstd::arithmetic::div_mod::lemma_div_pos_is_pos;
use vstd::arithmetic::div_mod::lemma_fundamental_div_mod;
use vstd::arithmetic::div_mod::lemma_mod_division_less_than_divisor;

use crate::dot::ADot;

verus! {

/// Whitespace accepted between tokens.
pub open spec fn is_ws(c: char) -> bool {
    c == ' ' || c == '\t' || c == '\n' || c == '\r'
}

/// A decimal digit.
pub open spec fn is_digit(c: char) -> bool {
    48 <= c as u32 <= 57
}

/// The numeric value of a decimal digit.
pub open spec fn digit_val(c: char) -> int {
    c as u32 - 48
}

/// The first position at or after `i` holding no whitespace.
pub open spec fn skip_ws(s: Seq<char>, i: int) -> int
    decreases s.len() - i,
{
    if i < 0 || i >= s.len() {
        i
    } else if is_ws(s[i]) {
        skip_ws(s, i + 1)
    } else {
        i
    }
}

/// The position after the given character, when it stands exactly at `i`.
pub open spec fn expect_at(s: Seq<char>, i: int, c: char) -> Option<int> {
    if 0 <= i < s.len() && s[i] == c {
        Some(i + 1)
    } else {
        None
    }
}

/// The position after the given characters, when they stand exactly at `i`.
pub open spec fn expect_chars(s: Seq<char>, i: int, t: Seq<char>) -> Option<int>
    decreases t.len(),
{
    if t.len() == 0 {
        Some(i)
    } else {
        match expect_at(s, i, t[0]) {
            None => None,
            Some(j) => expect_chars(s, j, t.drop_first()),
        }
    }
}

/// The position after the given character, with whitespace allowed first.
pub open spec fn expect_token(s: Seq<char>, i: int, c: char) -> Option<int> {
    expect_at(s, skip_ws(s, i), c)
}

/// The end of the digit run beginning at `i`.
pub open spec fn digits_end(s: Seq<char>, i: int) -> int
    decreases s.len() - i,
{
    if i < 0 || i >= s.len() {
        i
    } else if is_digit(s[i]) {
        digits_end(s, i + 1)
    } else {
        i
    }
}

/// The decimal value of the digits `s[i..j)`.
pub open spec fn digits_value(s: Seq<char>, i: int, j: int) -> int
    decreases j - i,
{
    if i >= j {
        0
    } else {
        digits_value(s, i, j - 1) * 10 + digit_val(s[j - 1])
    }
}

/// The integer beginning exactly at `i` — an optional `-` sign and a
/// nonempty digit run — and the position after it. Values outside `i32`
/// range are malformed.
pub open spec fn parse_int(s: Seq<char>, i: int) -> Option<(int, int)> {
    let neg = 0 <= i < s.len() && s[i] == '-';
    let d0 = if neg {
        i + 1
    } else {
        i
    };
    let e = digits_end(s, d0);
    if e == d0 {
        None
    } else {
        let v = if neg {
            -digits_value(s, d0, e)
        } else {
            digits_value(s, d0, e)
        };
        if i32::MIN <= v <= i32::MAX {
            Some((v, e))
        } else {
            None
        }
    }
}

/// One `"key": <int>` member, the key given as its characters, and the
/// position after its value.
pub open spec fn parse_field(s: Seq<char>, i: int, key: Seq<char>) -> Option<(int, int)> {
    match expect_token(s, i, '"') {
        None => None,
        Some(a) => match expect_chars(s, a, key) {
            None => None,
            Some(b) => match expect_at(s, b, '"') {
                None => None,
                Some(c) => match expect_token(s, c, ':') {
                    None => None,
                    Some(d) => parse_int(s, skip_ws(s, d)),
                },
            },
        },
    }
}

/// One whole record beginning at `i`, and the position after it.
pub open spec fn parse_record(s: Seq<char>, i: int) -> Option<(ADot, int)> {
    match expect_token(s, i, '{') {
        None => None,
        Some(a) => match parse_field(s, a, seq!['i', 'd']) {
            None => None,
            Some((idv, b)) => match expect_token(s, b, ',') {
                None => None,
                Some(c) => match parse_field(s, c, seq!['x']) {
                    None => None,
                    Some((xv, d)) => match expect_token(s, d, ',') {
                        None => None,
                        Some(e) => match parse_field(s, e, seq!['y']) {
                            None => None,
                            Some((yv, f)) => match expect_token(s, f, '}') {
                                None => None,
                                Some(g) => Some(
                                    (ADot { id: idv as i32, x: xv as i32, y: yv as i32 }, g),
                                ),
                            },
                        },
                    },
                },
            },
        },
    }
}

/// Whitespace skipping stays inside the text.
proof fn lemma_skip_ws_bounds(s: Seq<char>, i: int)
    requires
        0 <= i <= s.len(),
    ensures
        i <= skip_ws(s, i) <= s.len(),
    decreases s.len() - i,
{
    if i < s.len() && is_ws(s[i]) {
        lemma_skip_ws_bounds(s, i + 1);
    }
}

/// A matched token stands at a valid position and advances.
proof fn lemma_expect_token_bounds(s: Seq<char>, i: int, c: char)
    ensures
        match expect_token(s, i, c) {
            Some(k) => 0 <= i && i < k <= s.len(),
            None => true,
        },
{
    if 0 <= i <= s.len() {
        lemma_skip_ws_bounds(s, i);
    }
}

/// Matched characters advance without leaving the text.
proof fn lemma_expect_chars_bounds(s: Seq<char>, i: int, t: Seq<char>)
    requires
        0 <= i <= s.len(),
    ensures
        match expect_chars(s, i, t) {
            Some(j) => i <= j <= s.len(),
            None => true,
        },
    decreases t.len(),
{
    if t.len() > 0 {
        match expect_at(s, i, t[0]) {
            None => {},
            Some(j) => {
                lemma_expect_chars_bounds(s, j, t.drop_first());
            },
        }
    }
}

/// A digit run ends inside the text.
proof fn lemma_digits_end_bounds(s: Seq<char>, i: int)
    requires
        0 <= i <= s.len(),
    ensures
        i <= digits_end(s, i) <= s.len(),
    decreases s.len() - i,
{
    if i < s.len() && is_digit(s[i]) {
        lemma_digits_end_bounds(s, i + 1);
    }
}

/// A parsed integer consumes at least one character.
proof fn lemma_parse_int_bounds(s: Seq<char>, i: int)
    requires
        0 <= i <= s.len(),
    ensures
        match parse_int(s, i) {
            Some(p) => i < p.1 <= s.len(),
            None => true,
        },
{
    let neg = 0 <= i < s.len() && s[i] == '-';
    let d0 = if neg {
        i + 1
    } else {
        i
    };
    lemma_digits_end_bounds(s, d0);
}

/// A parsed member consumes at least one character.
proof fn lemma_parse_field_bounds(s: Seq<char>, i: int, key: Seq<char>)
    requires
        0 <= i <= s.len(),
    ensures
        match parse_field(s, i, key) {
            Some(p) => i < p.1 <= s.len(),
            None => true,
        },
{
    lemma_expect_token_bounds(s, i, '"');
    match expect_token(s, i, '"') {
        None => {},
        Some(a) => {
            lemma_expect_chars_bounds(s, a, key);
            match expect_chars(s, a, key) {
                None => {},
                Some(b) => match expect_at(s, b, '"') {
                    None => {},
                    Some(c) => {
                        lemma_expect_token_bounds(s, c, ':');
                        match expect_token(s, c, ':') {
                            None => {},
                            Some(d) => {
                                lemma_skip_ws_bounds(s, d);
                                lemma_parse_int_bounds(s, skip_ws(s, d));
                            },
                        }
                    },
                },
            }
        },
    }
}

/// A parsed record consumes at least one character; out-of-range start
/// positions never parse.
proof fn lemma_parse_record_bounds(s: Seq<char>, i: int)
    ensures
        match parse_record(s, i) {
            Some(p) => i < p.1 <= s.len(),
            None => true,
        },
{
    lemma_expect_token_bounds(s, i, '{');
    match expect_token(s, i, '{') {
        None => {},
        Some(a) => {
            lemma_parse_field_bounds(s, a, seq!['i', 'd']);
            match parse_field(s, a, seq!['i', 'd']) {
                None => {},
                Some((idv, b)) => {
                    lemma_expect_token_bounds(s, b, ',');
                    match expect_token(s, b, ',') {
                        None => {},
                        Some(c) => {
                            lemma_parse_field_bounds(s, c, seq!['x']);
                            match parse_field(s, c, seq!['x']) {
                                None => {},
                                Some((xv, d)) => {
                                    lemma_expect_token_bounds(s, d, ',');
                                    match expect_token(s, d, ',') {
                                        None => {},
                                        Some(e) => {
                                            lemma_parse_field_bounds(s, e, seq!['y']);
                                            match parse_field(s, e, seq!['y']) {
                                                None => {},
                                                Some((yv, f)) => {
                                                    lemma_expect_token_bounds(s, f, '}');
                                                },
                                            }
                                        },
                                    }
                                },
                            }
                        },
                    }
                },
            }
        },
    }
}

/// The records read from position `i` on, best-effort: stop cleanly at a
/// closing bracket, or at the first stretch of text that is not a record
/// (`first` says whether a separating comma is still owed).
pub open spec fn parse_items(s: Seq<char>, i: int, first: bool) -> Seq<ADot>
    decreases s.len() - i,
    via parse_items_dec
{
    if 0 <= skip_ws(s, i) < s.len() && s[skip_ws(s, i)] == ']' {
        Seq::empty()
    } else if first {
        match parse_record(s, i) {
            None => Seq::empty(),
            Some((d, n)) => seq![d] + parse_items(s, n, false),
        }
    } else {
        match expect_token(s, i, ',') {
            None => Seq::empty(),
            Some(k) => match parse_record(s, k) {
                None => Seq::empty(),
                Some((d, n)) => seq![d] + parse_items(s, n, false),
            },
        }
    }
}

#[via_fn]
proof fn parse_items_dec(s: Seq<char>, i: int, first: bool) {
    lemma_parse_record_bounds(s, i);
    lemma_expect_token_bounds(s, i, ',');
    match expect_token(s, i, ',') {
        None => {},
        Some(k) => {
            lemma_parse_record_bounds(s, k);
        },
    }
}

/// The parsed store for a bulk-load text: nothing when the text does not
/// open a bracketed list, otherwise the longest well-formed prefix of its
/// records.
pub open spec fn parse_dots(s: Seq<char>) -> Option<Seq<ADot>> {
    match expect_token(s, 0, '[') {
        None => None,
        Some(j) => Some(parse_items(s, j, true)),
    }
}

/// The character of one decimal digit.
pub open spec fn digit_char(v: int) -> char {
    seq!['0', '1', '2', '3', '4', '5', '6', '7', '8', '9'][v]
}

/// The canonical decimal rendering of a nonnegative integer.
pub open spec fn render_nat(v: int) -> Seq<char>
    recommends
        v >= 0,
    decreases v,
    via render_nat_dec
{
    if v <= 9 {
        seq![digit_char(v)]
    } else {
        render_nat(v / 10) + seq![digit_char(v % 10)]
    }
}

#[via_fn]
proof fn render_nat_dec(v: int) {
    if v > 9 {
        lemma_div_decreases(v, 10);
        lemma_div_pos_is_pos(v, 10);
    }
}

/// The canonical rendering of an integer value.
pub open spec fn render_int(v: int) -> Seq<char> {
    if v < 0 {
        seq!['-'] + render_nat(-v)
    } else {
        render_nat(v)
    }
}

/// The canonical rendering of one record.
pub open spec fn render_record(d: ADot) -> Seq<char> {
    seq!['{', '"', 'i', 'd', '"', ':'] + render_int(d.id as int) + seq![',', '"', 'x', '"', ':']
        + render_int(d.x as int) + seq![',', '"', 'y', '"', ':'] + render_int(d.y as int)
        + seq!['}']
}

/// The canonical rendering of a run of records, comma-separated (`first`
/// says whether a separating comma is still owed before the next record).
pub open spec fn render_recs(ds: Seq<ADot>, first: bool) -> Seq<char>
    decreases ds.len(),
{
    if ds.len() == 0 {
        Seq::empty()
    } else if first {
        render_record(ds[0]) + render_recs(ds.drop_first(), false)
    } else {
        seq![','] + render_record(ds[0]) + render_recs(ds.drop_first(), false)
    }
}

/// The canonical rendering of a whole store.
pub open spec fn render_dots(ds: Seq<ADot>) -> Seq<char> {
    seq!['['] + render_recs(ds, true) + seq![']']
}

/// The value of one digit's character.
proof fn lemma_digit_char_val(x: int)
    requires
        0 <= x <= 9,
    ensures
        digit_char(x) as u32 == 48 + x,
        is_digit(digit_char(x)),
{
    if x == 0 {
    } else if x == 1 {
    } else if x == 2 {
    } else if x == 3 {
    } else if x == 4 {
    } else if x == 5 {
    } else if x == 6 {
    } else if x == 7 {
    } else if x == 8 {
    } else {
    }
}

/// A rendered nonnegative integer is a nonempty run of digits.
proof fn lemma_render_nat_digits(v: int)
    requires
        v >= 0,
    ensures
        render_nat(v).len() >= 1,
        forall|k: int| 0 <= k < render_nat(v).len() ==> is_digit(#[trigger] render_nat(v)[k]),
    decreases v,
{
    if v <= 9 {
        lemma_digit_char_val(v);
    } else {
        lemma_div_decreases(v, 10);
        lemma_div_pos_is_pos(v, 10);
        lemma_mod_division_less_than_divisor(v, 10);
        lemma_digit_char_val(v % 10);
        lemma_render_nat_digits(v / 10);
        let rp = render_nat(v / 10);
        assert forall|k: int| 0 <= k < render_nat(v).len() implies is_digit(
            #[trigger] render_nat(v)[k],
        ) by {
            if k < rp.len() {
                assert(render_nat(v)[k] == rp[k]);
            } else {
                assert(render_nat(v)[k] == digit_char(v % 10));
            }
        }
    }
}

/// A digit run ends exactly where the digits end.
proof fn lemma_digits_end_run(s: Seq<char>, i: int, j: int)
    requires
        0 <= i <= j <= s.len(),
        forall|k: int| i <= k < j ==> is_digit(#[trigger] s[k]),
        j == s.len() || !is_digit(s[j]),
    ensures
        digits_end(s, i) == j,
    decreases j - i,
{
    if i < j {
        lemma_digits_end_run(s, i + 1, j);
    }
}

/// Reading back the rendering of a nonnegative integer gives the value.
proof fn lemma_digits_value_render(s: Seq<char>, i: int, v: int)
    requires
        v >= 0,
        0 <= i,
        i + render_nat(v).len() <= s.len(),
        s.subrange(i, i + render_nat(v).len() as int) == render_nat(v),
    ensures
        digits_value(s, i, i + render_nat(v).len() as int) == v,
    decreases v,
{
    broadcast use vstd::seq::lemma_seq_add_index1_alt;
    broadcast use vstd::seq::lemma_seq_add_index2_alt;

    let rn = render_nat(v);
    let l = rn.len() as int;
    assert forall|k: int| 0 <= k < l implies s[i + k] == #[trigger] rn[k] by {
        assert(s.subrange(i, i + l)[k] == s[i + k]);
    }
    if v <= 9 {
        lemma_digit_char_val(v);
        assert(rn[0] == digit_char(v));
        assert(s[i] == digit_char(v));
        assert(digits_value(s, i, i + 1) == digits_value(s, i, i) * 10 + digit_val(s[i]));
    } else {
        lemma_div_decreases(v, 10);
        lemma_div_pos_is_pos(v, 10);
        lemma_mod_division_less_than_divisor(v, 10);
        lemma_digit_char_val(v % 10);
        let rp = render_nat(v / 10);
        let lp = rp.len() as int;
        assert(rn == rp + seq![digit_char(v % 10)]);
        assert(l == lp + 1);
        assert(s.subrange(i, i + lp) =~= rp) by {
            assert forall|k: int| 0 <= k < lp implies s.subrange(i, i + lp)[k] == rp[k] by {
                assert(rn[k] == rp[k]);
                assert(s[i + k] == rn[k]);
            }
        }
        lemma_digits_value_render(s, i, v / 10);
        assert(digits_value(s, i, i + l) == digits_value(s, i, i + l - 1) * 10 + digit_val(
            s[i + l - 1],
        ));
        assert(seq![digit_char(v % 10)][0] == digit_char(v % 10));
        assert(rn[l - 1] == digit_char(v % 10));
        assert(s[i + (l - 1)] == rn[l - 1]);
        assert(s[i + l - 1] == digit_char(v % 10));
        lemma_fundamental_div_mod(v, 10);
    }
}

/// Reading back the rendering of an integer gives the value, provided no
/// further digit follows it.
proof fn lemma_parse_int_render(s: Seq<char>, i: int, v: int)
    requires
        i32::MIN <= v <= i32::MAX,
        0 <= i,
        i + render_int(v).len() <= s.len(),
        s.subrange(i, i + render_int(v).len() as int) == render_int(v),
        i + render_int(v).len() == s.len() || !is_digit(s[i + render_int(v).len()]),
    ensures
        parse_int(s, i) == Some((v, i + render_int(v).len() as int)),
{
    broadcast use vstd::seq::lemma_seq_add_index1_alt;
    broadcast use vstd::seq::lemma_seq_add_index2_alt;

    let r = render_int(v);
    let l = r.len() as int;
    assert forall|k: int| 0 <= k < l implies s[i + k] == #[trigger] r[k] by {
        assert(s.subrange(i, i + l)[k] == s[i + k]);
    }
    if v < 0 {
        let m = -v;
        let rn = render_nat(m);
        lemma_render_nat_digits(m);
        assert(r == seq!['-'] + rn);
        assert(seq!['-'][0] == '-');
        assert(r[0] == '-');
        assert(s[i] == '-');
        assert(s.subrange(i + 1, i + l) =~= rn) by {
            assert forall|k: int| 0 <= k < l - 1 implies s.subrange(i + 1, i + l)[k] == rn[k] by {
                assert(r[k + 1] == rn[k]);
                assert(s[i + (k + 1)] == r[k + 1]);
                assert(s.subrange(i + 1, i + l)[k] == s[i + 1 + k]);
            }
        }
        assert forall|k: int| i + 1 <= k < i + l implies is_digit(#[trigger] s[k]) by {
            assert(r[k - i] == rn[k - i - 1]);
            assert(s[i + (k - i)] == r[k - i]);
            assert(is_digit(rn[k - i - 1]));
        }
        lemma_digits_end_run(s, i + 1, i + l);
        lemma_digits_value_render(s, i + 1, m);
    } else {
        let rn = render_nat(v);
        lemma_render_nat_digits(v);
        assert(is_digit(rn[0]));
        assert(s[i + 0] == r[0]);
        assert(s[i] == rn[0]);
        assert(is_digit(s[i]));
        assert(s[i] != '-');
        assert forall|k: int| i <= k < i + l implies is_digit(#[trigger] s[k]) by {
            assert(is_digit(rn[k - i]));
            assert(s[i + (k - i)] == r[k - i]);
        }
        lemma_digits_end_run(s, i, i + l);
        lemma_digits_value_render(s, i, v);
    }
}

/// Within a rendered record, the id member parses to the id.
#[verifier::spinoff_prover]
proof fn lemma_record_member_id(s: Seq<char>, i: int, d: ADot)
    requires
        0 <= i,
        i + render_record(d).len() <= s.len(),
        s.subrange(i, i + render_record(d).len() as int) == render_record(d),
    ensures
        skip_ws(s, i) == i,
        s[i] == '{',
        parse_field(s, i + 1, seq!['i', 'd']) == Some(
            (d.id as int, i + 6 + render_int(d.id as int).len() as int),
        ),
{
    broadcast use vstd::seq::lemma_seq_add_index1_alt;
    broadcast use vstd::seq::lemma_seq_add_index2_alt;

    let rr = render_record(d);
    let l = rr.len() as int;
    let p1 = seq!['{', '"', 'i', 'd', '"', ':'];
    let r1 = render_int(d.id as int);
    let l1 = r1.len() as int;
    lemma_render_int_shape(d.id as int);
    lemma_render_int_shape(d.x as int);
    lemma_render_int_shape(d.y as int);
    assert(rr == p1 + r1 + seq![',', '"', 'x', '"', ':'] + render_int(d.x as int) + seq![
        ',',
        '"',
        'y',
        '"',
        ':',
    ] + render_int(d.y as int) + seq!['}']);
    assert forall|k: int| 0 <= k < l implies s[i + k] == #[trigger] rr[k] by {
        assert(s.subrange(i, i + l)[k] == s[i + k]);
    }
    let q1 = i + 6;
    let e1 = q1 + l1;
    assert(p1[0] == '{' && p1[1] == '"' && p1[2] == 'i' && p1[3] == 'd' && p1[4] == '"' && p1[5]
        == ':');
    assert(rr[0] == '{' && rr[1] == '"' && rr[2] == 'i' && rr[3] == 'd' && rr[4] == '"' && rr[5]
        == ':');
    assert(s[i] == '{');
    assert(s[i + 1] == '"');
    assert(s[i + 2] == 'i');
    assert(s[i + 3] == 'd');
    assert(s[i + 4] == '"');
    assert(s[i + 5] == ':');
    assert(rr[6int] == r1[0]);
    assert(s[i + 6] == r1[0]);
    assert(seq![',', '"', 'x', '"', ':'][0] == ',');
    assert(rr[6 + l1] == ',');
    assert(s[i + (6 + l1)] == ',');
    assert(skip_ws(s, i) == i);
    assert(skip_ws(s, i + 1) == i + 1);
    assert(skip_ws(s, i + 5) == i + 5);
    assert(expect_chars(s, i + 4, Seq::<char>::empty()) == Some(i + 4));
    assert(seq!['i', 'd'].drop_first() =~= seq!['d']);
    assert(seq!['d'].drop_first() =~= Seq::<char>::empty());
    assert(expect_chars(s, i + 3, seq!['d']) == Some(i + 4));
    assert(expect_chars(s, i + 2, seq!['i', 'd']) == Some(i + 4));
    assert(skip_ws(s, q1) == q1);
    assert(s.subrange(q1, q1 + l1) =~= r1) by {
        assert forall|k: int| 0 <= k < l1 implies s.subrange(q1, q1 + l1)[k] == r1[k] by {
            assert(rr[6 + k] == r1[k]);
            assert(s[i + (6 + k)] == rr[6 + k]);
            assert(s.subrange(q1, q1 + l1)[k] == s[q1 + k]);
        }
    }
    assert(!is_digit(s[e1]));
    lemma_parse_int_render(s, q1, d.id as int);
}

/// Within a rendered record, the x member parses to the x position.
#[verifier::rlimit(100)]
#[verifier::spinoff_prover]
proof fn lemma_record_member_x(s: Seq<char>, i: int, d: ADot)
    requires
        0 <= i,
        i + render_record(d).len() <= s.len(),
        s.subrange(i, i + render_record(d).len() as int) == render_record(d),
    ensures
        expect_token(s, i + 6 + render_int(d.id as int).len() as int, ',') == Some(
            i + 7 + render_int(d.id as int).len() as int,
        ),
        parse_field(s, i + 7 + render_int(d.id as int).len() as int, seq!['x']) == Some(
            (d.x as int, i + 11 + render_int(d.id as int).len() + render_int(d.x as int).len()),
        ),
{
    broadcast use vstd::seq::lemma_seq_add_index1_alt;
    broadcast use vstd::seq::lemma_seq_add_index2_alt;

    let rr = render_record(d);
    let l = rr.len() as int;
    let p2 = seq![',', '"', 'x', '"', ':'];
    let r1 = render_int(d.id as int);
    let r2 = render_int(d.x as int);
    let l1 = r1.len() as int;
    let l2 = r2.len() as int;
    lemma_render_int_shape(d.id as int);
    lemma_render_int_shape(d.x as int);
    lemma_render_int_shape(d.y as int);
    assert(rr == seq!['{', '"', 'i', 'd', '"', ':'] + r1 + p2 + r2 + seq![',', '"', 'y', '"', ':']
        + render_int(d.y as int) + seq!['}']);
    assert forall|k: int| 0 <= k < l implies s[i + k] == #[trigger] rr[k] by {
        assert(s.subrange(i, i + l)[k] == s[i + k]);
    }
    let e1 = i + 6 + l1;
    let q2 = e1 + 5;
    let e2 = q2 + l2;
    assert(p2[0] == ',' && p2[1] == '"' && p2[2] == 'x' && p2[3] == '"' && p2[4] == ':');
    assert(rr[(6 + l1) + 0] == p2[0]);
    assert(rr[(6 + l1) + 1] == p2[1]);
    assert(rr[(6 + l1) + 2] == p2[2]);
    assert(rr[(6 + l1) + 3] == p2[3]);
    assert(rr[(6 + l1) + 4] == p2[4]);
    assert(s[i + (6 + l1)] == ',');
    assert(s[i + (6 + l1) + 1] == '"');
    assert(s[i + (6 + l1) + 2] == 'x');
    assert(s[i + (6 + l1) + 3] == '"');
    assert(s[i + (6 + l1) + 4] == ':');
    assert(rr[(11 + l1) + 0] == r2[0]);
    assert(s[i + (11 + l1)] == r2[0]);
    assert(seq![',', '"', 'y', '"', ':'][0] == ',');
    assert(rr[(11 + l1) + l2] == ',');
    assert(s[i + ((11 + l1) + l2)] == ',');
    assert(skip_ws(s, e1) == e1);
    assert(skip_ws(s, e1 + 1) == e1 + 1);
    assert(skip_ws(s, e1 + 4) == e1 + 4);
    assert(expect_chars(s, e1 + 3, Seq::<char>::empty()) == Some(e1 + 3));
    assert(seq!['x'].drop_first() =~= Seq::<char>::empty());
    assert(expect_chars(s, e1 + 2, seq!['x']) == Some(e1 + 3));
    assert(skip_ws(s, q2) == q2);
    assert(s.subrange(q2, q2 + l2) =~= r2) by {
        assert forall|k: int| 0 <= k < l2 implies s.subrange(q2, q2 + l2)[k] == r2[k] by {
            assert(rr[(11 + l1) + k] == r2[k]);
            assert(s[i + ((11 + l1) + k)] == rr[(11 + l1) + k]);
            assert(s.subrange(q2, q2 + l2)[k] == s[q2 + k]);
        }
    }
    assert(!is_digit(s[e2]));
    lemma_parse_int_render(s, q2, d.x as int);
}

/// Within a rendered record, the y member parses to the y position, and
/// the closing brace ends the record.
#[verifier::rlimit(100)]
#[verifier::spinoff_prover]
proof fn lemma_record_member_y(s: Seq<char>, i: int, d: ADot)
    requires
        0 <= i,
        i + render_record(d).len() <= s.len(),
        s.subrange(i, i + render_record(d).len() as int) == render_record(d),
    ensures
        expect_token(
            s,
            i + 11 + render_int(d.id as int).len() + render_int(d.x as int).len(),
            ',',
        ) == Some(i + 12 + render_int(d.id as int).len() + render_int(d.x as int).len()),
        parse_field(
            s,
            i + 12 + render_int(d.id as int).len() + render_int(d.x as int).len(),
            seq!['y'],
        ) == Some(
            (
                d.y as int,
                i + 16 + render_int(d.id as int).len() + render_int(d.x as int).len()
                    + render_int(d.y as int).len(),
            ),
        ),
        expect_token(
            s,
            i + 16 + render_int(d.id as int).len() + render_int(d.x as int).len() + render_int(
                d.y as int,
            ).len(),
            '}',
        ) == Some(i + render_record(d).len() as int),
{
    broadcast use vstd::seq::lemma_seq_add_index1_alt;
    broadcast use vstd::seq::lemma_seq_add_index2_alt;

    let rr = render_record(d);
    let l = rr.len() as int;
    let p3 = seq![',', '"', 'y', '"', ':'];
    let r1 = render_int(d.id as int);
    let r2 = render_int(d.x as int);
    let r3 = render_int(d.y as int);
    let l1 = r1.len() as int;
    let l2 = r2.len() as int;
    let l3 = r3.len() as int;
    lemma_render_int_shape(d.id as int);
    lemma_render_int_shape(d.x as int);
    lemma_render_int_shape(d.y as int);
    assert(rr == seq!['{', '"', 'i', 'd', '"', ':'] + r1 + seq![',', '"', 'x', '"', ':'] + r2 + p3
        + r3 + seq!['}']);
    assert(l == 17 + l1 + l2 + l3);
    assert forall|k: int| 0 <= k < l implies s[i + k] == #[trigger] rr[k] by {
        assert(s.subrange(i, i + l)[k] == s[i + k]);
    }
    let e2 = i + 11 + l1 + l2;
    let q3 = e2 + 5;
    let e3 = q3 + l3;
    assert(p3[0] == ',' && p3[1] == '"' && p3[2] == 'y' && p3[3] == '"' && p3[4] == ':');
    assert(rr[(11 + l1 + l2) + 0] == p3[0]);
    assert(rr[(11 + l1 + l2) + 1] == p3[1]);
    assert(rr[(11 + l1 + l2) + 2] == p3[2]);
    assert(rr[(11 + l1 + l2) + 3] == p3[3]);
    assert(rr[(11 + l1 + l2) + 4] == p3[4]);
    assert(s[i + (11 + l1 + l2)] == ',');
    assert(s[i + (11 + l1 + l2) + 1] == '"');
    assert(s[i + (11 + l1 + l2) + 2] == 'y');
    assert(s[i + (11 + l1 + l2) + 3] == '"');
    assert(s[i + (11 + l1 + l2) + 4] == ':');
    assert(rr[(16 + l1 + l2) + 0] == r3[0]);
    assert(s[i + (16 + l1 + l2)] == r3[0]);
    assert(seq!['}'][0] == '}');
    assert(rr[(16 + l1 + l2) + l3] == '}');
    assert(s[i + (16 + l1 + l2 + l3)] == '}');
    assert(skip_ws(s, e2) == e2);
    assert(skip_ws(s, e2 + 1) == e2 + 1);
    assert(skip_ws(s, e2 + 4) == e2 + 4);
    assert(expect_chars(s, e2 + 3, Seq::<char>::empty()) == Some(e2 + 3));
    assert(seq!['y'].drop_first() =~= Seq::<char>::empty());
    assert(expect_chars(s, e2 + 2, seq!['y']) == Some(e2 + 3));
    assert(skip_ws(s, q3) == q3);
    assert(s.subrange(q3, q3 + l3) =~= r3) by {
        assert forall|k: int| 0 <= k < l3 implies s.subrange(q3, q3 + l3)[k] == r3[k] by {
            assert(rr[(16 + l1 + l2) + k] == r3[k]);
            assert(s[i + ((16 + l1 + l2) + k)] == rr[(16 + l1 + l2) + k]);
            assert(s.subrange(q3, q3 + l3)[k] == s[q3 + k]);
        }
    }
    assert(!is_digit(s[e3]));
    lemma_parse_int_render(s, q3, d.y as int);
    assert(skip_ws(s, e3) == e3);
    assert(e3 + 1 == i + l);
}

/// Reading back the rendering of a record gives the record.
proof fn lemma_parse_record_render(s: Seq<char>, i: int, d: ADot)
    requires
        0 <= i,
        i + render_record(d).len() <= s.len(),
        s.subrange(i, i + render_record(d).len() as int) == render_record(d),
    ensures
        parse_record(s, i) == Some((d, i + render_record(d).len() as int)),
{
    lemma_render_record_shape(d);
    lemma_record_member_id(s, i, d);
    lemma_record_member_x(s, i, d);
    lemma_record_member_y(s, i, d);
    assert(expect_token(s, i, '{') == Some(i + 1));
    assert((d.id as int) as i32 == d.id);
    assert((d.x as int) as i32 == d.x);
    assert((d.y as int) as i32 == d.y);
}

/// A rendered integer is nonempty, opens with a sign or digit — never
/// whitespace — and ends with a digit.
proof fn lemma_render_int_shape(v: int)
    requires
        i32::MIN <= v <= i32::MAX,
    ensures
        render_int(v).len() >= 1,
        !is_ws(render_int(v)[0]),
        is_digit(render_int(v)[render_int(v).len() - 1]),
{
    if v < 0 {
        lemma_render_nat_digits(-v);
        assert(render_int(v)[0] == '-');
        assert(render_int(v)[render_int(v).len() - 1] == render_nat(-v)[render_nat(-v).len() - 1]);
    } else {
        lemma_render_nat_digits(v);
        assert(render_int(v)[0] == render_nat(v)[0]);
    }
}

/// A rendered record is a brace-delimited block.
proof fn lemma_render_record_shape(d: ADot)
    ensures
        render_record(d).len() >= 17,
        render_record(d)[0] == '{',
{
    broadcast use vstd::seq::lemma_seq_add_index1_alt;
    broadcast use vstd::seq::lemma_seq_add_index2_alt;

    let rr = render_record(d);
    let p1 = seq!['{', '"', 'i', 'd', '"', ':'];
    lemma_render_int_shape(d.id as int);
    lemma_render_int_shape(d.x as int);
    lemma_render_int_shape(d.y as int);
    assert(rr == p1 + render_int(d.id as int) + seq![',', '"', 'x', '"', ':'] + render_int(
        d.x as int,
    ) + seq![',', '"', 'y', '"', ':'] + render_int(d.y as int) + seq!['}']);
    assert(p1[0] == '{');
    assert(rr[0int] == '{');
}

/// Loading law: a text that opens a list, carries a run of well-formed
/// records, and then continues with anything from which no further record
/// can be read, loads exactly those records — the well-formed prefix.
pub proof fn lemma_bulk_load_truncates(ds: Seq<ADot>, tail: Seq<char>)
    requires
        parse_items(
            seq!['['] + render_recs(ds, true) + tail,
            1 + render_recs(ds, true).len() as int,
            ds.len() == 0,
        ) == Seq::<ADot>::empty(),
    ensures
        parse_dots(seq!['['] + render_recs(ds, true) + tail) == Some(ds),
{
    broadcast use vstd::seq::lemma_seq_add_index1_alt;
    broadcast use vstd::seq::lemma_seq_add_index2_alt;

    let s = seq!['['] + render_recs(ds, true) + tail;
    let rs = render_recs(ds, true);
    assert(seq!['['][0] == '[');
    assert(s[0int] == '[');
    assert(skip_ws(s, 0) == 0);
    assert(expect_token(s, 0, '[') == Some(1int));
    assert(s.subrange(1, 1 + rs.len() as int) =~= rs) by {
        assert forall|k: int| 0 <= k < rs.len() implies s.subrange(1, 1 + rs.len() as int)[k]
            == rs[k] by {
            assert((seq!['['] + rs)[1 + k] == rs[k]);
            assert(s[1 + k] == (seq!['['] + rs)[1 + k]);
            assert(s.subrange(1, 1 + rs.len() as int)[k] == s[1 + k]);
        }
    }
    lemma_parse_items_rendered(s, 1, ds, true);
}

/// The heart of the loading law: from a position where the text carries
/// the rendering of `ds` and then stops yielding records, exactly `ds` is
/// read.
#[verifier::rlimit(100)]
proof fn lemma_parse_items_rendered(s: Seq<char>, i: int, ds: Seq<ADot>, first: bool)
    requires
        0 <= i,
        i + render_recs(ds, first).len() <= s.len(),
        s.subrange(i, i + render_recs(ds, first).len() as int) == render_recs(ds, first),
        parse_items(s, i + render_recs(ds, first).len() as int, first && ds.len() == 0) == Seq::<
            ADot,
        >::empty(),
    ensures
        parse_items(s, i, first) == ds,
    decreases ds.len(),
{
    broadcast use vstd::seq::lemma_seq_add_index1_alt;
    broadcast use vstd::seq::lemma_seq_add_index2_alt;

    let rs = render_recs(ds, first);
    let l = rs.len() as int;
    assert forall|k: int| 0 <= k < l implies s[i + k] == #[trigger] rs[k] by {
        assert(s.subrange(i, i + l)[k] == s[i + k]);
    }
    if ds.len() == 0 {
        assert(parse_items(s, i, first) == ds);
    } else {
        let d0 = ds[0];
        let rr = render_record(d0);
        let rest = render_recs(ds.drop_first(), false);
        let p: int = if first {
            i
        } else {
            i + 1
        };
        lemma_render_record_shape(d0);
        if !first {
            assert(rs == seq![','] + rr + rest);
            assert(seq![','][0] == ',');
            assert(rs[0int] == ',');
            assert(s[i + 0] == rs[0int]);
            assert(s[i] == ',');
            assert(skip_ws(s, i) == i);
            assert(expect_token(s, i, ',') == Some(i + 1));
            assert((seq![','] + rr)[1int] == rr[0]);
            assert(rs[1int] == rr[0]);
            assert(s[i + 1] == rs[1int]);
        } else {
            assert(rs == rr + rest);
            assert(rs[0int] == rr[0]);
            assert(s[i + 0] == rs[0int]);
        }
        assert(s[p] == '{');
        assert(skip_ws(s, i) == i);
        assert(s[i] != ']');
        assert(s.subrange(p, p + rr.len() as int) =~= rr) by {
            assert forall|k: int| 0 <= k < rr.len() implies s.subrange(p, p + rr.len() as int)[k]
                == rr[k] by {
                if first {
                    assert(rs[k] == rr[k]);
                    assert(s[i + k] == rs[k]);
                } else {
                    assert((seq![','] + rr)[1 + k] == rr[k]);
                    assert(rs[1 + k] == rr[k]);
                    assert(s[i + (1 + k)] == rs[1 + k]);
                }
                assert(s.subrange(p, p + rr.len() as int)[k] == s[p + k]);
            }
        }
        lemma_parse_record_render(s, p, d0);
        let e = p + rr.len() as int;
        let off = e - i;
        assert(s.subrange(e, e + rest.len() as int) =~= rest) by {
            assert forall|k: int| 0 <= k < rest.len() implies s.subrange(e, e + rest.len() as int)[k]
                == rest[k] by {
                if first {
                    assert(rs[rr.len() + k] == rest[k]);
                } else {
                    assert(rs[(seq![','] + rr).len() + k] == rest[k]);
                }
                assert(rs[off + k] == rest[k]);
                assert(s[i + (off + k)] == rs[off + k]);
                assert(s.subrange(e, e + rest.len() as int)[k] == s[e + k]);
            }
        }
        assert(e + rest.len() == i + l);
        lemma_parse_items_rendered(s, e, ds.drop_first(), false);
        assert(parse_items(s, i, first) == seq![d0] + ds.drop_first());
        assert(seq![d0] + ds.drop_first() =~= ds);
    }
}

/// Round trip: rendering any store and bulk-loading the text gives back
/// exactly that store.
pub proof fn lemma_parse_render_round_trip(ds: Seq<ADot>)
    ensures
        parse_dots(render_dots(ds)) == Some(ds),
{
    broadcast use vstd::seq::lemma_seq_add_index1_alt;
    broadcast use vstd::seq::lemma_seq_add_index2_alt;

    let s = render_dots(ds);
    let rs = render_recs(ds, true);
    let e = 1 + rs.len() as int;
    assert(s == seq!['['] + rs + seq![']']);
    assert(seq![']'][0] == ']');
    assert(s[(seq!['['] + rs).len() + 0int] == ']');
    assert(s[e] == ']');
    assert(skip_ws(s, e) == e);
    assert(parse_items(s, e, ds.len() == 0) =~= Seq::<ADot>::empty());
    lemma_bulk_load_truncates(ds, seq![']']);
}

/// Executable whitespace skipping.
fn skip_ws_exec(s: &str, n: usize, i: usize) -> (r: usize)
    requires
        n == s@.len(),
        i <= n,
    ensures
        r as int == skip_ws(s@, i as int),
        i <= r <= n,
{
    let mut j = i;
    while j < n
        invariant
            i <= j <= n,
            n == s@.len(),
            skip_ws(s@, i as int) == skip_ws(s@, j as int),
        decreases n - j,
    {
        let c = s.get_char(j);
        if !(c == ' ' || c == '\t' || c == '\n' || c == '\r') {
            return j;
        }
        j += 1;
    }
    j
}

/// Executable token match.
fn expect_token_exec(s: &str, n: usize, i: usize, c: char) -> (r: Option<usize>)
    requires
        n == s@.len(),
        i <= n,
    ensures
        (match r {
            Some(u) => expect_token(s@, i as int, c) == Some(u as int) && i < u <= n,
            None => expect_token(s@, i as int, c) is None,
        }),
{
    let j = skip_ws_exec(s, n, i);
    if j < n && s.get_char(j) == c {
        Some(j + 1)
    } else {
        None
    }
}

/// Executable digit test at a position.
fn is_digit_exec(s: &str, n: usize, j: usize) -> (r: bool)
    requires
        n == s@.len(),
        j < n,
    ensures
        r == is_digit(s@[j as int]),
{
    let u = s.get_char(j) as u32;
    48 <= u && u <= 57
}

/// Executable integer parse.
fn parse_int_exec(s: &str, n: usize, i: usize) -> (r: Option<(i32, usize)>)
    requires
        n == s@.len(),
        i <= n,
    ensures
        (match r {
            Some(p) => parse_int(s@, i as int) == Some((p.0 as int, p.1 as int)) && i < p.1 <= n,
            None => parse_int(s@, i as int) is None,
        }),
{
    let neg = i < n && s.get_char(i) == '-';
    let d0 = if neg {
        i + 1
    } else {
        i
    };
    let mut j = d0;
    let mut val: u64 = 0;
    while j < n && is_digit_exec(s, n, j)
        invariant
            d0 <= j <= n,
            n == s@.len(),
            digits_end(s@, d0 as int) == digits_end(s@, j as int),
            val <= 2147483649,
            digits_value(s@, d0 as int, j as int) <= 2147483648 ==> val == digits_value(
                s@,
                d0 as int,
                j as int,
            ),
            digits_value(s@, d0 as int, j as int) > 2147483648 ==> val == 2147483649,
            digits_value(s@, d0 as int, j as int) >= 0,
        decreases n - j,
    {
        let c = s.get_char(j);
        let u = c as u32;
        let d = (u - 48) as u64;
        proof {
            assert(digits_value(s@, d0 as int, j as int + 1) == digits_value(
                s@,
                d0 as int,
                j as int,
            ) * 10 + digit_val(s@[j as int]));
        }
        if val <= 2147483648 {
            let nv = val * 10 + d;
            val = if nv > 2147483648 {
                2147483649
            } else {
                nv
            };
        }
        j += 1;
    }
    if j == d0 {
        return None;
    }
    proof {
        assert(digits_end(s@, j as int) == j as int);
    }
    if neg {
        if val > 2147483648 {
            None
        } else {
            Some(((-(val as i64)) as i32, j))
        }
    } else {
        if val > 2147483647 {
            None
        } else {
            Some((val as i32, j))
        }
    }
}

/// Executable member parse; the key is one or two characters.
fn parse_field_exec(s: &str, n: usize, i: usize, k1: char, k2: Option<char>) -> (r: Option<
    (i32, usize),
>)
    requires
        n == s@.len(),
        i <= n,
    ensures
        (match r {
            Some(p) => parse_field(
                s@,
                i as int,
                match k2 {
                    Some(c2) => seq![k1, c2],
                    None => seq![k1],
                },
            ) == Some((p.0 as int, p.1 as int)) && i < p.1 <= n,
            None => parse_field(
                s@,
                i as int,
                match k2 {
                    Some(c2) => seq![k1, c2],
                    None => seq![k1],
                },
            ) is None,
        }),
{
    let ghost key: Seq<char> = match k2 {
        Some(c2) => seq![k1, c2],
        None => seq![k1],
    };
    let a = match expect_token_exec(s, n, i, '"') {
        None => {
            return None;
        },
        Some(a) => a,
    };
    // the key's characters, one by one
    let b_opt: Option<usize> = match k2 {
        None => {
            proof {
                assert(key =~= seq![k1]);
                assert(key[0] == k1);
            }
            if a < n && s.get_char(a) == k1 {
                proof {
                    assert(key.drop_first() =~= Seq::<char>::empty());
                    assert(expect_chars(s@, a as int + 1, Seq::<char>::empty()) == Some(
                        a as int + 1,
                    ));
                    assert(expect_chars(s@, a as int, key) == Some(a as int + 1));
                }
                Some(a + 1)
            } else {
                proof {
                    assert(expect_at(s@, a as int, key[0]) is None);
                    assert(expect_chars(s@, a as int, key) is None);
                }
                None
            }
        },
        Some(c2) => {
            proof {
                assert(key =~= seq![k1, c2]);
                assert(key[0] == k1);
            }
            if a < n && s.get_char(a) == k1 {
                proof {
                    assert(key.drop_first() =~= seq![c2]);
                    assert(seq![c2][0] == c2);
                }
                if a + 1 < n && s.get_char(a + 1) == c2 {
                    proof {
                        assert(seq![c2].drop_first() =~= Seq::<char>::empty());
                        assert(expect_chars(s@, a as int + 2, Seq::<char>::empty()) == Some(
                            a as int + 2,
                        ));
                        assert(expect_chars(s@, a as int + 1, seq![c2]) == Some(a as int + 2));
                        assert(expect_chars(s@, a as int, key) == Some(a as int + 2));
                    }
                    Some(a + 2)
                } else {
                    proof {
                        assert(expect_at(s@, a as int + 1, seq![c2][0]) is None);
                        assert(expect_chars(s@, a as int + 1, seq![c2]) is None);
                        assert(expect_chars(s@, a as int, key) is None);
                    }
                    None
                }
            } else {
                proof {
                    assert(expect_at(s@, a as int, key[0]) is None);
                    assert(expect_chars(s@, a as int, key) is None);
                }
                None
            }
        },
    };
    let b = match b_opt {
        None => {
            return None;
        },
        Some(b) => b,
    };
    if !(b < n && s.get_char(b) == '"') {
        return None;
    }
    let c = b + 1;
    let d = match expect_token_exec(s, n, c, ':') {
        None => {
            return None;
        },
        Some(d) => d,
    };
    let e = skip_ws_exec(s, n, d);
    parse_int_exec(s, n, e)
}

/// Executable record parse.
fn parse_record_exec(s: &str, n: usize, i: usize) -> (r: Option<(ADot, usize)>)
    requires
        n == s@.len(),
        i <= n,
    ensures
        (match r {
            Some(p) => parse_record(s@, i as int) == Some((p.0, p.1 as int)) && i < p.1 <= n,
            None => parse_record(s@, i as int) is None,
        }),
{
    let a = match expect_token_exec(s, n, i, '{') {
        None => {
            return None;
        },
        Some(a) => a,
    };
    let (idv, b) = match parse_field_exec(s, n, a, 'i', Some('d')) {
        None => {
            return None;
        },
        Some(p) => p,
    };
    let c = match expect_token_exec(s, n, b, ',') {
        None => {
            return None;
        },
        Some(c) => c,
    };
    let (xv, d) = match parse_field_exec(s, n, c, 'x', None) {
        None => {
            return None;
        },
        Some(p) => p,
    };
    let e = match expect_token_exec(s, n, d, ',') {
        None => {
            return None;
        },
        Some(e) => e,
    };
    let (yv, f) = match parse_field_exec(s, n, e, 'y', None) {
        None => {
            return None;
        },
        Some(p) => p,
    };
    let g = match expect_token_exec(s, n, f, '}') {
        None => {
            return None;
        },
        Some(g) => g,
    };
    Some((ADot { id: idv, x: xv, y: yv }, g))
}

/// Executable bulk-load parse: the verified counterpart of [`parse_dots`].
pub fn parse_dots_exec(s: &str) -> (r: Option<Vec<ADot>>)
    ensures
        (match r {
            Some(v) => parse_dots(s@) == Some(v@),
            None => parse_dots(s@) is None,
        }),
{
    let n = s.unicode_len();
    let start = match expect_token_exec(s, n, 0, '[') {
        None => {
            return None;
        },
        Some(j) => j,
    };
    let mut acc: Vec<ADot> = Vec::new();
    let mut pos = start;
    let mut first = true;
    loop
        invariant
            pos <= n,
            n == s@.len(),
            parse_items(s@, start as int, true) == acc@ + parse_items(s@, pos as int, first),
        ensures
            parse_items(s@, start as int, true) == acc@,
        decreases n - pos,
    {
        let k = skip_ws_exec(s, n, pos);
        if k < n && s.get_char(k) == ']' {
            proof {
                assert(parse_items(s@, pos as int, first) =~= Seq::<ADot>::empty());
                assert(acc@ + Seq::<ADot>::empty() =~= acc@);
            }
            break;
        }
        let rstart = if first {
            pos
        } else {
            match expect_token_exec(s, n, pos, ',') {
                None => {
                    proof {
                        assert(parse_items(s@, pos as int, first) =~= Seq::<ADot>::empty());
                        assert(acc@ + Seq::<ADot>::empty() =~= acc@);
                    }
                    break;
                },
                Some(k2) => k2,
            }
        };
        match parse_record_exec(s, n, rstart) {
            None => {
                proof {
                    assert(parse_items(s@, pos as int, first) =~= Seq::<ADot>::empty());
                    assert(acc@ + Seq::<ADot>::empty() =~= acc@);
                }
                break;
            },
            Some((d, np)) => {
                proof {
                    assert(parse_items(s@, pos as int, first) == seq![d] + parse_items(
                        s@,
                        np as int,
                        false,
                    ));
                    assert(acc@.push(d) =~= acc@ + seq![d]);
                    assert((acc@ + seq![d]) + parse_items(s@, np as int, false) =~= acc@ + (
                    seq![d] + parse_items(s@, np as int, false)));
                }
                acc.push(d);
                pos = np;
                first = false;
            },
        }
    }
    Some(acc)
}

} // verus!
