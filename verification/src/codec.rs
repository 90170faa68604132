//! The text form of a curve: a human-readable, whitespace-tolerant
//! encoding used both for display and for replacing the curve by a
//! pasted edit.
//!
//! A curve prints as `[(time:T,val:(x:X,y:Y)),...]`, with `T`, `X`, `Y`
//! signed decimal integers in stored micro-units.  The parser skips
//! blanks, tabs and line breaks before every token, accepts leading
//! zeros, and rejects any coordinate whose magnitude exceeds
//! [`COORD_MAX`].  Decoding a curve's encoding reproduces the curve
//! exactly ([`lemma_round_trip`]).

use vstd::prelude::*;
use vstd::arithmetic::div_mod::lemma_fundamental_div_mod;

use crate::COORD_MAX;
use crate::model::Point;
use crate::model::Value;

verus! {

/// Blank, tab, line feed or carriage return.
pub open spec fn is_ws(b: u8) -> bool {
    b == 32 || b == 9 || b == 10 || b == 13
}

/// An ASCII decimal digit.
pub open spec fn is_digit(b: u8) -> bool {
    48 <= b <= 57
}

/// The first position at or after `i` holding no whitespace.
pub open spec fn skip_ws(s: Seq<u8>, i: nat) -> nat
    decreases s.len() - i,
{
    if i < s.len() && is_ws(s[i as int]) {
        skip_ws(s, i + 1)
    } else {
        i
    }
}

/// The literal `lit` stands at position `j`, byte for byte.
pub open spec fn match_at(s: Seq<u8>, j: nat, lit: Seq<u8>) -> bool {
    j + lit.len() <= s.len() && forall|k: int| 0 <= k < lit.len() ==> s[j + k] == lit[k]
}

/// Skip whitespace, then require the literal; yields the position after it.
pub open spec fn expect_sp(s: Seq<u8>, i: nat, lit: Seq<u8>) -> Option<nat> {
    let j = skip_ws(s, i);
    if match_at(s, j, lit) {
        Option::Some((j + lit.len()) as nat)
    } else {
        Option::None
    }
}

/// Consume the maximal digit run from `i`, folding into `acc`; yields
/// the value and the position after the run.
pub open spec fn parse_digits_sp(s: Seq<u8>, i: nat, acc: nat) -> (nat, nat)
    decreases s.len() - i,
{
    if i < s.len() && is_digit(s[i as int]) {
        parse_digits_sp(s, i + 1, acc * 10 + (s[i as int] - 48) as nat)
    } else {
        (acc, i)
    }
}

/// A signed decimal number after optional whitespace, rejected when its
/// magnitude exceeds `COORD_MAX`.
pub open spec fn parse_num_sp(s: Seq<u8>, i: nat) -> Option<(int, nat)> {
    let j = skip_ws(s, i);
    if j < s.len() && s[j as int] == 45 {
        if j + 1 < s.len() && is_digit(s[j + 1 as int]) {
            let (v, k) = parse_digits_sp(s, j + 1, 0);
            if v <= COORD_MAX {
                Option::Some((-(v as int), k))
            } else {
                Option::None
            }
        } else {
            Option::None
        }
    } else if j < s.len() && is_digit(s[j as int]) {
        let (v, k) = parse_digits_sp(s, j, 0);
        if v <= COORD_MAX {
            Option::Some((v as int, k))
        } else {
            Option::None
        }
    } else {
        Option::None
    }
}

/// The token opening a sample: `(time:`.
pub open spec fn lit_time() -> Seq<u8> {
    seq![40u8, 116u8, 105u8, 109u8, 101u8, 58u8]
}

/// The token between the time and the first channel: `,val:(x:`.
pub open spec fn lit_val() -> Seq<u8> {
    seq![44u8, 118u8, 97u8, 108u8, 58u8, 40u8, 120u8, 58u8]
}

/// The token between the channels: `,y:`.
pub open spec fn lit_y() -> Seq<u8> {
    seq![44u8, 121u8, 58u8]
}

/// The token closing a sample: `))`.
pub open spec fn lit_close() -> Seq<u8> {
    seq![41u8, 41u8]
}

/// One sample: `(time:T,val:(x:X,y:Y))`.
#[verifier::opaque]
pub open spec fn parse_point_sp(s: Seq<u8>, i: nat) -> Option<(Point, nat)> {
    match expect_sp(s, i, lit_time()) {
        Option::None => Option::None,
        Option::Some(j1) => match parse_num_sp(s, j1) {
            Option::None => Option::None,
            Option::Some((t, j2)) => match expect_sp(s, j2, lit_val()) {
                Option::None => Option::None,
                Option::Some(j3) => match parse_num_sp(s, j3) {
                    Option::None => Option::None,
                    Option::Some((x, j4)) => match expect_sp(s, j4, lit_y()) {
                        Option::None => Option::None,
                        Option::Some(j5) => match parse_num_sp(s, j5) {
                            Option::None => Option::None,
                            Option::Some((y, j6)) => match expect_sp(s, j6, lit_close()) {
                                Option::None => Option::None,
                                Option::Some(j7) => Option::Some(
                                    (
                                        Point {
                                            time: t as i64,
                                            val: Value { x: x as i64, y: y as i64 },
                                        },
                                        j7,
                                    ),
                                ),
                            },
                        },
                    },
                },
            },
        },
    }
}

/// The tail of a sample list: either `]`, or `,` and one more sample,
/// repeated.  The guard `i < k` records that a sample consumes input.
pub open spec fn parse_points_rest_sp(s: Seq<u8>, i: nat, acc: Seq<Point>) -> Option<
    (Seq<Point>, nat),
>
    decreases s.len() - i,
{
    let j = skip_ws(s, i);
    if j < s.len() && s[j as int] == 93 {
        Option::Some((acc, (j + 1) as nat))
    } else if j < s.len() && s[j as int] == 44 {
        match parse_point_sp(s, (j + 1) as nat) {
            Option::None => Option::None,
            Option::Some((p, k)) => {
                if i < k && k <= s.len() {
                    parse_points_rest_sp(s, k, acc.push(p))
                } else {
                    Option::None
                }
            },
        }
    } else {
        Option::None
    }
}

/// A whole curve: `[` then samples separated by `,` then `]`, with
/// nothing but whitespace after it.
pub open spec fn parse_points_sp(s: Seq<u8>) -> Option<Seq<Point>> {
    match expect_sp(s, 0, seq![91u8]) {
        Option::None => Option::None,
        Option::Some(j) => {
            let jw = skip_ws(s, j);
            if jw < s.len() && s[jw as int] == 93 {
                if skip_ws(s, jw + 1) == s.len() {
                    Option::Some(Seq::empty())
                } else {
                    Option::None
                }
            } else {
                match parse_point_sp(s, j) {
                    Option::None => Option::None,
                    Option::Some((p, k)) => {
                        if j < k && k <= s.len() {
                            match parse_points_rest_sp(s, k, seq![p]) {
                                Option::None => Option::None,
                                Option::Some((ps, e)) => {
                                    if skip_ws(s, e) == s.len() {
                                        Option::Some(ps)
                                    } else {
                                        Option::None
                                    }
                                },
                            }
                        } else {
                            Option::None
                        }
                    },
                }
            }
        },
    }
}

/// The canonical decimal digits of `n`, most significant first.
pub open spec fn digits_of(n: nat) -> Seq<u8>
    decreases n,
{
    if n < 10 {
        seq![(48 + n) as u8]
    } else {
        digits_of(n / 10).push((48 + n % 10) as u8)
    }
}

/// The canonical encoding of a signed number.
pub open spec fn encode_num_sp(v: int) -> Seq<u8> {
    if v < 0 {
        seq![45u8] + digits_of((-v) as nat)
    } else {
        digits_of(v as nat)
    }
}

/// The canonical encoding of one sample.
#[verifier::opaque]
pub open spec fn encode_point_sp(p: Point) -> Seq<u8> {
    lit_time() + encode_num_sp(p.time as int) + lit_val() + encode_num_sp(p.val.x as int) + lit_y()
        + encode_num_sp(p.val.y as int) + lit_close()
}

/// The encoding of every sample after the first: `,` before each, `]`
/// at the end.
pub open spec fn encode_rest_sp(rest: Seq<Point>) -> Seq<u8>
    decreases rest.len(),
{
    if rest.len() == 0 {
        seq![93u8]
    } else {
        seq![44u8] + encode_point_sp(rest[0]) + encode_rest_sp(rest.drop_first())
    }
}

/// The canonical encoding of a whole curve.
pub open spec fn encode_points_sp(s: Seq<Point>) -> Seq<u8> {
    if s.len() == 0 {
        seq![91u8, 93u8]
    } else {
        seq![91u8] + encode_point_sp(s[0]) + encode_rest_sp(s.drop_first())
    }
}

/// Every coordinate of the sample is within the encodable range.
pub open spec fn point_bounded(p: Point) -> bool {
    &&& -COORD_MAX <= p.time <= COORD_MAX
    &&& -COORD_MAX <= p.val.x <= COORD_MAX
    &&& -COORD_MAX <= p.val.y <= COORD_MAX
}

/// Powers of ten.
pub open spec fn pow10(k: nat) -> nat
    decreases k,
{
    if k == 0 {
        1
    } else {
        10 * pow10((k - 1) as nat)
    }
}

/// The canonical digits of a number are decimal digits, and there is at
/// least one.
pub proof fn lemma_digits_of_digits(n: nat)
    ensures
        digits_of(n).len() >= 1,
        forall|k: int| 0 <= k < digits_of(n).len() ==> is_digit(#[trigger] digits_of(n)[k]),
    decreases n,
{
    if n >= 10 {
        lemma_digits_of_digits(n / 10);
        assert forall|k: int| 0 <= k < digits_of(n).len() implies is_digit(
            #[trigger] digits_of(n)[k],
        ) by {
            if k < digits_of(n / 10).len() {
                assert(digits_of(n)[k] == digits_of(n / 10)[k]);
            } else {
                assert(digits_of(n)[k] == (48 + n % 10) as u8);
            }
        }
    }
}

/// Folding the parser over the canonical digits of `n`, starting from
/// any accumulator, shifts the accumulator past `n`'s digits and adds
/// `n` — the heart of the decode-encode round trip.
pub proof fn lemma_parse_digits_at(s: Seq<u8>, i: nat, n: nat, acc: nat)
    requires
        i + digits_of(n).len() <= s.len(),
        forall|k: int| 0 <= k < digits_of(n).len() ==> s[i + k] == #[trigger] digits_of(n)[k],
    ensures
        parse_digits_sp(s, i, acc) == parse_digits_sp(
            s,
            (i + digits_of(n).len()) as nat,
            acc * pow10(digits_of(n).len()) + n,
        ),
    decreases n,
{
    if n < 10 {
        assert(s[i as int] == digits_of(n)[0] == (48 + n) as u8);
        assert(pow10(0) == 1);
        assert(pow10(1) == 10);
        assert(parse_digits_sp(s, i, acc) == parse_digits_sp(s, i + 1, acc * 10 + n));
    } else {
        let m = n / 10;
        let d = n % 10;
        let pre = digits_of(m);
        let kp = pre.len();
        lemma_fundamental_div_mod(n as int, 10);
        assert(digits_of(n) == pre.push((48 + d) as u8));
        assert forall|k: int| 0 <= k < kp implies s[i + k] == #[trigger] pre[k] by {
            assert(digits_of(n)[k] == pre[k]);
            assert(s[i + k] == digits_of(n)[k]);
        }
        lemma_parse_digits_at(s, i, m, acc);
        let a1 = acc * pow10(kp) + m;
        assert(s[(i + kp) as int] == digits_of(n)[kp as int] == (48 + d) as u8);
        assert(is_digit((48 + d) as u8));
        assert(parse_digits_sp(s, (i + kp) as nat, a1) == parse_digits_sp(
            s,
            (i + kp + 1) as nat,
            a1 * 10 + d,
        ));
        assert(pow10(kp + 1) == 10 * pow10(kp));
        assert(a1 * 10 + d == acc * pow10(kp + 1) + n) by (nonlinear_arith)
            requires
                a1 == acc * pow10(kp) + m,
                n == 10 * m + d,
                pow10(kp + 1) == 10 * pow10(kp),
        ;
        assert(digits_of(n).len() == kp + 1);
    }
}

/// Skipping whitespace at a non-whitespace byte stays put.
pub proof fn lemma_skip_ws_noop(s: Seq<u8>, i: nat)
    requires
        i < s.len() ==> !is_ws(s[i as int]),
    ensures
        skip_ws(s, i) == i,
{
}

/// A literal standing exactly at `i` is accepted there.
pub proof fn lemma_expect_exact(s: Seq<u8>, i: nat, lit: Seq<u8>)
    requires
        lit.len() >= 1,
        !is_ws(lit[0]),
        i + lit.len() <= s.len(),
        forall|k: int| 0 <= k < lit.len() ==> s[i + k] == lit[k],
    ensures
        expect_sp(s, i, lit) == Option::Some((i + lit.len()) as nat),
{
    assert(s[i as int] == lit[0]);
    lemma_skip_ws_noop(s, i);
    assert(match_at(s, i, lit));
}

/// The canonical encoding of a number standing at `i`, followed by a
/// non-digit, parses back to exactly that number.
pub proof fn lemma_parse_num_of_encode(s: Seq<u8>, i: nat, v: int)
    requires
        -COORD_MAX <= v <= COORD_MAX,
        i + encode_num_sp(v).len() <= s.len(),
        forall|k: int| 0 <= k < encode_num_sp(v).len() ==> s[i + k] == #[trigger] encode_num_sp(
            v,
        )[k],
        i + encode_num_sp(v).len() < s.len() ==> !is_digit(
            s[(i + encode_num_sp(v).len()) as int],
        ),
    ensures
        parse_num_sp(s, i) == Option::Some((v, (i + encode_num_sp(v).len()) as nat)),
{
    let e = encode_num_sp(v);
    if v < 0 {
        let n = (-v) as nat;
        lemma_digits_of_digits(n);
        assert(e[0] == 45u8);
        lemma_skip_ws_noop(s, i);
        assert forall|k: int| 0 <= k < digits_of(n).len() implies s[i + 1 + k]
            == #[trigger] digits_of(n)[k] by {
            assert(e[k + 1] == digits_of(n)[k]);
            assert(s[i + (k + 1)] == e[k + 1]);
            assert(i + 1 + k == i + (k + 1));
        }
        assert(s[(i + 1) as int] == digits_of(n)[0]);
        assert(is_digit(s[(i + 1) as int]));
        lemma_parse_digits_at(s, i + 1, n, 0);
        let end = (i + 1 + digits_of(n).len()) as nat;
        assert(parse_digits_sp(s, end, 0 * pow10(digits_of(n).len()) + n) == (n, end));
        assert(parse_digits_sp(s, i + 1, 0) == (n, end));
    } else {
        let n = v as nat;
        lemma_digits_of_digits(n);
        assert(s[i as int] == digits_of(n)[0]);
        assert(is_digit(s[i as int]));
        assert(!is_ws(s[i as int]));
        lemma_skip_ws_noop(s, i);
        lemma_parse_digits_at(s, i, n, 0);
        let end = (i + digits_of(n).len()) as nat;
        assert(parse_digits_sp(s, end, 0 * pow10(digits_of(n).len()) + n) == (n, end));
        assert(parse_digits_sp(s, i, 0) == (n, end));
        assert(s[i as int] != 45u8);
    }
}

/// The canonical encoding of one sample standing at `i` parses back to
/// exactly that sample.
pub proof fn lemma_parse_point_of_encode(s: Seq<u8>, i: nat, p: Point)
    requires
        point_bounded(p),
        i + encode_point_sp(p).len() <= s.len(),
        forall|k: int|
            0 <= k < encode_point_sp(p).len() ==> s[i + k] == #[trigger] encode_point_sp(p)[k],
    ensures
        parse_point_sp(s, i) == Option::Some((p, (i + encode_point_sp(p).len()) as nat)),
        encode_point_sp(p).len() >= 1,
        encode_point_sp(p)[0] == 40u8,
{
    reveal(parse_point_sp);
    reveal(encode_point_sp);
    let ep = encode_point_sp(p);
    let e1 = lit_time();
    let n1 = encode_num_sp(p.time as int);
    let e2 = lit_val();
    let n2 = encode_num_sp(p.val.x as int);
    let e3 = lit_y();
    let n3 = encode_num_sp(p.val.y as int);
    let e4 = lit_close();
    let o1 = i + e1.len();
    let o2 = o1 + n1.len();
    let o3 = o2 + e2.len();
    let o4 = o3 + n2.len();
    let o5 = o4 + e3.len();
    let o6 = o5 + n3.len();
    let o7 = o6 + e4.len();
    assert(ep.len() == e1.len() + n1.len() + e2.len() + n2.len() + e3.len() + n3.len() + e4.len());
    assert forall|k: int| 0 <= k < e1.len() implies s[i + k] == #[trigger] e1[k] by {
        assert(ep[k] == e1[k]);
        assert(s[i + k] == ep[k]);
    }
    assert forall|k: int| 0 <= k < n1.len() implies s[o1 + k] == #[trigger] n1[k] by {
        let q = e1.len() + k;
        assert(ep[q] == n1[k]);
        assert(s[i + q] == ep[q]);
        assert(o1 + k == i + q);
    }
    assert forall|k: int| 0 <= k < e2.len() implies s[o2 + k] == #[trigger] e2[k] by {
        let q = e1.len() + n1.len() + k;
        assert(ep[q] == e2[k]);
        assert(s[i + q] == ep[q]);
        assert(o2 + k == i + q);
    }
    assert forall|k: int| 0 <= k < n2.len() implies s[o3 + k] == #[trigger] n2[k] by {
        let q = e1.len() + n1.len() + e2.len() + k;
        assert(ep[q] == n2[k]);
        assert(s[i + q] == ep[q]);
        assert(o3 + k == i + q);
    }
    assert forall|k: int| 0 <= k < e3.len() implies s[o4 + k] == #[trigger] e3[k] by {
        let q = e1.len() + n1.len() + e2.len() + n2.len() + k;
        assert(ep[q] == e3[k]);
        assert(s[i + q] == ep[q]);
        assert(o4 + k == i + q);
    }
    assert forall|k: int| 0 <= k < n3.len() implies s[o5 + k] == #[trigger] n3[k] by {
        let q = e1.len() + n1.len() + e2.len() + n2.len() + e3.len() + k;
        assert(ep[q] == n3[k]);
        assert(s[i + q] == ep[q]);
        assert(o5 + k == i + q);
    }
    assert forall|k: int| 0 <= k < e4.len() implies s[o6 + k] == #[trigger] e4[k] by {
        let q = e1.len() + n1.len() + e2.len() + n2.len() + e3.len() + n3.len() + k;
        assert(ep[q] == e4[k]);
        assert(s[i + q] == ep[q]);
        assert(o6 + k == i + q);
    }
    assert(e1[0] == 40u8 && !is_ws(e1[0]));
    lemma_expect_exact(s, i, e1);
    assert(s[o2 as int] == e2[0] && e2[0] == 44u8);
    lemma_parse_num_of_encode(s, o1, p.time as int);
    assert(e2[0] == 44u8 && !is_ws(e2[0]));
    lemma_expect_exact(s, o2, e2);
    assert(s[o4 as int] == e3[0] && e3[0] == 44u8);
    lemma_parse_num_of_encode(s, o3, p.val.x as int);
    assert(e3[0] == 44u8 && !is_ws(e3[0]));
    lemma_expect_exact(s, o4, e3);
    assert(s[o6 as int] == e4[0] && e4[0] == 41u8);
    lemma_parse_num_of_encode(s, o5, p.val.y as int);
    assert(e4[0] == 41u8 && !is_ws(e4[0]));
    lemma_expect_exact(s, o6, e4);
    assert(((p.time as int) as i64) == p.time);
}

/// After the opening bracket and first sample, the canonical tail
/// encoding parses back to exactly the remaining samples.
pub proof fn lemma_parse_rest_of_encode(s: Seq<u8>, i: nat, acc: Seq<Point>, rest: Seq<Point>)
    requires
        forall|q: int| 0 <= q < rest.len() ==> point_bounded(#[trigger] rest[q]),
        i + encode_rest_sp(rest).len() <= s.len(),
        forall|k: int|
            0 <= k < encode_rest_sp(rest).len() ==> s[i + k] == #[trigger] encode_rest_sp(rest)[k],
    ensures
        parse_points_rest_sp(s, i, acc) == Option::Some(
            (acc + rest, (i + encode_rest_sp(rest).len()) as nat),
        ),
    decreases rest.len(),
{
    let er = encode_rest_sp(rest);
    if rest.len() == 0 {
        assert(er[0] == 93u8);
        assert(s[i as int] == 93u8);
        lemma_skip_ws_noop(s, i);
        assert(acc + rest =~= acc);
    } else {
        let p0 = rest[0];
        let ep = encode_point_sp(p0);
        let tail = encode_rest_sp(rest.drop_first());
        assert(er == seq![44u8] + ep + tail);
        assert(er.len() == 1 + ep.len() + tail.len());
        assert(er[0] == 44u8);
        assert(s[i as int] == 44u8);
        lemma_skip_ws_noop(s, i);
        assert forall|k: int| 0 <= k < ep.len() implies s[i + 1 + k] == #[trigger] ep[k] by {
            assert(er[1 + k] == ep[k]);
            assert(s[i + (1 + k)] == er[1 + k]);
            assert(i + 1 + k == i + (1 + k));
        }
        lemma_parse_point_of_encode(s, i + 1, p0);
        let k0 = i + 1 + ep.len();
        assert forall|k: int| 0 <= k < tail.len() implies s[k0 + k] == #[trigger] tail[k] by {
            let q = 1 + ep.len() + k;
            assert(er[q] == tail[k]);
            assert(s[i + q] == er[q]);
            assert(k0 + k == i + q);
        }
        assert(forall|q: int|
            0 <= q < rest.drop_first().len() ==> point_bounded(#[trigger] rest.drop_first()[q]));
        lemma_parse_rest_of_encode(s, k0, acc.push(p0), rest.drop_first());
        assert(acc.push(p0) + rest.drop_first() =~= acc + rest);
    }
}

/// The nonempty half of the round trip: the first sample and the tail.
#[verifier::spinoff_prover]
#[verifier::rlimit(100)]
proof fn lemma_round_trip_nonempty(ps: Seq<Point>)
    requires
        ps.len() > 0,
        forall|q: int| 0 <= q < ps.len() ==> point_bounded(#[trigger] ps[q]),
    ensures
        parse_points_sp(encode_points_sp(ps)) == Option::Some(ps),
{
    let s = encode_points_sp(ps);
    let open = seq![91u8];
    let ep = encode_point_sp(ps[0]);
    let tail = encode_rest_sp(ps.drop_first());
    assert(s == open + ep + tail);
    assert(s.len() == 1 + ep.len() + tail.len());
    assert(s[0] == 91u8);
    assert(open[0] == 91u8 && !is_ws(open[0]) && open.len() == 1);
    assert(forall|k: int| 0 <= k < open.len() ==> s[0 + k] == open[k]);
    lemma_expect_exact(s, 0, open);
    assert forall|k: int| 0 <= k < ep.len() implies s[1 + k] == #[trigger] ep[k] by {
        assert(s[1 + k] == (open + ep + tail)[1 + k]);
        assert((open + ep + tail)[1 + k] == ep[k]);
    }
    lemma_parse_point_of_encode(s, 1, ps[0]);
    assert(s[1] == ep[0]);
    assert(s[1] == 40u8);
    lemma_skip_ws_noop(s, 1);
    let k0 = 1 + ep.len();
    assert forall|k: int| 0 <= k < tail.len() implies s[k0 + k] == #[trigger] tail[k] by {
        let q = 1 + ep.len() + k;
        assert(s[q] == (open + ep + tail)[q]);
        assert((open + ep + tail)[q] == tail[k]);
        assert(k0 + k == q);
    }
    assert(forall|q: int|
        0 <= q < ps.drop_first().len() ==> point_bounded(#[trigger] ps.drop_first()[q]));
    lemma_parse_rest_of_encode(s, k0 as nat, seq![ps[0]], ps.drop_first());
    assert(seq![ps[0]] + ps.drop_first() =~= ps);
    lemma_skip_ws_noop(s, s.len());
}

/// Law: decoding the canonical encoding of any in-range curve
/// reproduces the curve exactly — same length, same field values.
pub proof fn lemma_round_trip(ps: Seq<Point>)
    requires
        forall|q: int| 0 <= q < ps.len() ==> point_bounded(#[trigger] ps[q]),
    ensures
        parse_points_sp(encode_points_sp(ps)) == Option::Some(ps),
{
    let s = encode_points_sp(ps);
    let open = seq![91u8];
    if ps.len() == 0 {
        assert(s == seq![91u8, 93u8]);
        assert(s[0] == 91u8 && s[1] == 93u8 && s.len() == 2);
        assert(open[0] == 91u8 && !is_ws(open[0]) && open.len() == 1);
        assert(forall|k: int| 0 <= k < open.len() ==> s[0 + k] == open[k]);
        lemma_expect_exact(s, 0, open);
        lemma_skip_ws_noop(s, 1);
        lemma_skip_ws_noop(s, 2);
        assert(parse_points_sp(s) == Option::Some(Seq::<Point>::empty()));
        assert(Seq::<Point>::empty() =~= ps);
    } else {
        lemma_round_trip_nonempty(ps);
    }
}

/// Executable whitespace skip.
fn skip_ws_x(v: &Vec<u8>, i: usize) -> (r: usize)
    requires
        i <= v@.len(),
    ensures
        r == skip_ws(v@, i as nat),
        i <= r <= v@.len(),
    decreases v@.len() - i,
{
    if i < v.len() {
        let b = v[i];
        if b == 32 || b == 9 || b == 10 || b == 13 {
            skip_ws_x(v, i + 1)
        } else {
            i
        }
    } else {
        i
    }
}

/// Executable digit run, tracking the exact value up to `COORD_MAX` and
/// saturating just above it (the parser rejects such numbers anyway).
fn parse_digits_x(v: &Vec<u8>, i: usize, acc: u64, Ghost(a): Ghost<nat>) -> (r: (u64, usize))
    requires
        i <= v@.len(),
        acc as int == (if a > COORD_MAX {
            COORD_MAX + 1
        } else {
            a as int
        }),
    ensures
        ({
            let (val, end) = parse_digits_sp(v@, i as nat, a);
            &&& r.1 == end
            &&& i <= r.1 <= v@.len()
            &&& r.0 as int == (if val > COORD_MAX {
                COORD_MAX + 1
            } else {
                val as int
            })
        }),
    decreases v@.len() - i,
{
    if i < v.len() {
        let b = v[i];
        if 48 <= b && b <= 57 {
            let d: u64 = (b - 48) as u64;
            let ghost a2: nat = a * 10 + (b - 48) as nat;
            let acc2: u64 = if acc > 1_000_000_000_000u64 {
                proof {
                    assert(a * 10 >= a) by (nonlinear_arith)
                        requires
                            a >= 0,
                    ;
                }
                acc
            } else {
                let t: u64 = acc * 10 + d;
                if t > 1_000_000_000_000u64 {
                    1_000_000_000_001u64
                } else {
                    t
                }
            };
            parse_digits_x(v, i + 1, acc2, Ghost(a2))
        } else {
            (acc, i)
        }
    } else {
        (acc, i)
    }
}

/// Executable signed number.
fn parse_num_x(v: &Vec<u8>, i: usize) -> (r: Option<(i64, usize)>)
    requires
        i <= v@.len(),
    ensures
        (r is Some) <==> (parse_num_sp(v@, i as nat) is Some),
        r matches Some(p) ==> parse_num_sp(v@, i as nat) == Option::Some((p.0 as int, p.1 as nat))
            && -COORD_MAX <= p.0 <= COORD_MAX && i <= p.1 <= v@.len(),
{
    let j = skip_ws_x(v, i);
    if j < v.len() && v[j] == 45 {
        if j + 1 < v.len() && 48 <= v[j + 1] && v[j + 1] <= 57 {
            let (dv, end) = parse_digits_x(v, j + 1, 0, Ghost(0nat));
            if dv > 1_000_000_000_000u64 {
                Option::None
            } else {
                Option::Some((-(dv as i64), end))
            }
        } else {
            Option::None
        }
    } else if j < v.len() && 48 <= v[j] && v[j] <= 57 {
        let (dv, end) = parse_digits_x(v, j, 0, Ghost(0nat));
        if dv > 1_000_000_000_000u64 {
            Option::None
        } else {
            Option::Some((dv as i64, end))
        }
    } else {
        Option::None
    }
}

/// Executable token match after whitespace.
fn expect_x(v: &Vec<u8>, i: usize, lit: &Vec<u8>) -> (r: Option<usize>)
    requires
        i <= v@.len(),
        1 <= lit@.len(),
        !is_ws(lit@[0]),
    ensures
        (r is Some) <==> (expect_sp(v@, i as nat, lit@) is Some),
        r matches Some(e) ==> expect_sp(v@, i as nat, lit@) == Option::Some(e as nat) && i < e
            <= v@.len(),
{
    let j = skip_ws_x(v, i);
    if v.len() - j < lit.len() {
        proof {
            assert(!match_at(v@, j as nat, lit@));
        }
        Option::None
    } else {
        let n = v.len();
        let mut k: usize = 0;
        while k < lit.len()
            invariant
                n == v@.len(),
                k <= lit@.len(),
                j + lit@.len() <= v@.len(),
                j == skip_ws(v@, i as nat),
                i <= j,
                forall|q: int| 0 <= q < k ==> v@[j + q] == lit@[q],
            decreases lit@.len() - k,
        {
            if v[j + k] != lit[k] {
                proof {
                    assert(v@[j + k as int] != lit@[k as int]);
                    assert(!match_at(v@, j as nat, lit@));
                }
                return Option::None;
            }
            k = k + 1;
        }
        proof {
            assert(match_at(v@, j as nat, lit@));
        }
        Option::Some(j + lit.len())
    }
}

/// The `(time:` token as bytes.
fn lit_time_x() -> (r: Vec<u8>)
    ensures
        r@ == lit_time(),
{
    let mut r: Vec<u8> = Vec::new();
    r.push(40);
    r.push(116);
    r.push(105);
    r.push(109);
    r.push(101);
    r.push(58);
    proof {
        assert(r@ =~= lit_time());
    }
    r
}

/// The `,val:(x:` token as bytes.
fn lit_val_x() -> (r: Vec<u8>)
    ensures
        r@ == lit_val(),
{
    let mut r: Vec<u8> = Vec::new();
    r.push(44);
    r.push(118);
    r.push(97);
    r.push(108);
    r.push(58);
    r.push(40);
    r.push(120);
    r.push(58);
    proof {
        assert(r@ =~= lit_val());
    }
    r
}

/// The `,y:` token as bytes.
fn lit_y_x() -> (r: Vec<u8>)
    ensures
        r@ == lit_y(),
{
    let mut r: Vec<u8> = Vec::new();
    r.push(44);
    r.push(121);
    r.push(58);
    proof {
        assert(r@ =~= lit_y());
    }
    r
}

/// The `))` token as bytes.
fn lit_close_x() -> (r: Vec<u8>)
    ensures
        r@ == lit_close(),
{
    let mut r: Vec<u8> = Vec::new();
    r.push(41);
    r.push(41);
    proof {
        assert(r@ =~= lit_close());
    }
    r
}

/// Executable sample parser.
fn parse_point_x(v: &Vec<u8>, i: usize) -> (r: Option<(Point, usize)>)
    requires
        i <= v@.len(),
    ensures
        (r is Some) <==> (parse_point_sp(v@, i as nat) is Some),
        r matches Some(pk) ==> parse_point_sp(v@, i as nat) == Option::Some((pk.0, pk.1 as nat))
            && i < pk.1 <= v@.len() && point_bounded(pk.0),
{
    proof {
        reveal(parse_point_sp);
    }
    let lt = lit_time_x();
    let j1 = match expect_x(v, i, &lt) {
        Option::Some(j) => j,
        Option::None => {
            return Option::None;
        },
    };
    let (t, j2) = match parse_num_x(v, j1) {
        Option::Some(p) => p,
        Option::None => {
            return Option::None;
        },
    };
    let lv = lit_val_x();
    let j3 = match expect_x(v, j2, &lv) {
        Option::Some(j) => j,
        Option::None => {
            return Option::None;
        },
    };
    let (x, j4) = match parse_num_x(v, j3) {
        Option::Some(p) => p,
        Option::None => {
            return Option::None;
        },
    };
    let ly = lit_y_x();
    let j5 = match expect_x(v, j4, &ly) {
        Option::Some(j) => j,
        Option::None => {
            return Option::None;
        },
    };
    let (y, j6) = match parse_num_x(v, j5) {
        Option::Some(p) => p,
        Option::None => {
            return Option::None;
        },
    };
    let lc = lit_close_x();
    let j7 = match expect_x(v, j6, &lc) {
        Option::Some(j) => j,
        Option::None => {
            return Option::None;
        },
    };
    Option::Some((Point { time: t, val: Value { x, y } }, j7))
}

/// Executable list tail parser, pushing samples onto `acc`.
fn parse_points_rest_x(v: &Vec<u8>, i: usize, acc: &mut Vec<Point>) -> (r: Option<usize>)
    requires
        i <= v@.len(),
    ensures
        (r is Some) <==> (parse_points_rest_sp(v@, i as nat, old(acc)@) is Some),
        r matches Some(e) ==> parse_points_rest_sp(v@, i as nat, old(acc)@) == Option::Some(
            (final(acc)@, e as nat),
        ) && e <= v@.len(),
    decreases v@.len() - i,
{
    let j = skip_ws_x(v, i);
    if j < v.len() && v[j] == 93 {
        return Option::Some(j + 1);
    }
    if j < v.len() && v[j] == 44 {
        match parse_point_x(v, j + 1) {
            Option::None => Option::None,
            Option::Some((p, k)) => {
                if i < k && k <= v.len() {
                    acc.push(p);
                    parse_points_rest_x(v, k, acc)
                } else {
                    Option::None
                }
            },
        }
    } else {
        Option::None
    }
}

/// Decode a curve from its text form; `None` when the text is not a
/// well-formed sample list or a coordinate is out of range.
pub fn parse_points(v: &Vec<u8>) -> (r: Option<Vec<Point>>)
    ensures
        (r is Some) <==> (parse_points_sp(v@) is Some),
        r matches Some(ps) ==> parse_points_sp(v@) == Option::Some(ps@),
{
    let mut open: Vec<u8> = Vec::new();
    open.push(91);
    proof {
        assert(open@ =~= seq![91u8]);
    }
    let j = match expect_x(v, 0, &open) {
        Option::Some(j) => j,
        Option::None => {
            return Option::None;
        },
    };
    let jw = skip_ws_x(v, j);
    if jw < v.len() && v[jw] == 93 {
        let e = skip_ws_x(v, jw + 1);
        if e == v.len() {
            let ps: Vec<Point> = Vec::new();
            proof {
                assert(ps@ =~= Seq::<Point>::empty());
            }
            return Option::Some(ps);
        } else {
            return Option::None;
        }
    }
    match parse_point_x(v, j) {
        Option::None => Option::None,
        Option::Some((p, k)) => {
            if j < k && k <= v.len() {
                let mut ps: Vec<Point> = Vec::new();
                ps.push(p);
                proof {
                    assert(ps@ =~= seq![p]);
                }
                match parse_points_rest_x(v, k, &mut ps) {
                    Option::None => Option::None,
                    Option::Some(e) => {
                        let e2 = skip_ws_x(v, e);
                        if e2 == v.len() {
                            Option::Some(ps)
                        } else {
                            Option::None
                        }
                    },
                }
            } else {
                Option::None
            }
        },
    }
}

/// Append the canonical digits of `n`.
fn push_digits_x(out: &mut Vec<u8>, n: u64)
    ensures
        final(out)@ == old(out)@ + digits_of(n as nat),
    decreases n,
{
    if n < 10 {
        out.push(48 + n as u8);
        proof {
            assert(out@ =~= old(out)@ + digits_of(n as nat));
        }
    } else {
        push_digits_x(out, n / 10);
        out.push(48 + (n % 10) as u8);
        proof {
            assert(digits_of(n as nat) == digits_of(n as nat / 10).push(
                (48 + n as nat % 10) as u8,
            ));
            assert(n as nat / 10 == (n / 10) as nat);
            assert(out@ =~= old(out)@ + digits_of(n as nat));
        }
    }
}

/// Append the canonical encoding of a signed number.
fn encode_num_x(out: &mut Vec<u8>, v: i64)
    requires
        -COORD_MAX <= v <= COORD_MAX,
    ensures
        final(out)@ == old(out)@ + encode_num_sp(v as int),
{
    if v < 0 {
        out.push(45);
        push_digits_x(out, (-v) as u64);
        proof {
            assert(out@ =~= old(out)@ + encode_num_sp(v as int));
        }
    } else {
        push_digits_x(out, v as u64);
    }
}

/// Append the canonical encoding of one sample.
fn encode_point_x(out: &mut Vec<u8>, p: Point)
    requires
        point_bounded(p),
    ensures
        final(out)@ == old(out)@ + encode_point_sp(p),
{
    proof {
        reveal(encode_point_sp);
    }
    let mut t1 = lit_time_x();
    out.append(&mut t1);
    encode_num_x(out, p.time);
    let mut t2 = lit_val_x();
    out.append(&mut t2);
    encode_num_x(out, p.val.x);
    let mut t3 = lit_y_x();
    out.append(&mut t3);
    encode_num_x(out, p.val.y);
    let mut t4 = lit_close_x();
    out.append(&mut t4);
    proof {
        assert(out@ =~= old(out)@ + encode_point_sp(p));
    }
}

/// Append every sample after the first, then the closing bracket.
fn encode_rest_x(out: &mut Vec<u8>, points: &Vec<Point>, i: usize)
    requires
        i <= points@.len(),
        forall|q: int| 0 <= q < points@.len() ==> point_bounded(#[trigger] points@[q]),
    ensures
        final(out)@ == old(out)@ + encode_rest_sp(points@.skip(i as int)),
    decreases points@.len() - i,
{
    if i == points.len() {
        out.push(93);
        proof {
            assert(points@.skip(i as int) =~= Seq::<Point>::empty());
            assert(out@ =~= old(out)@ + encode_rest_sp(points@.skip(i as int)));
        }
    } else {
        out.push(44);
        encode_point_x(out, points[i]);
        encode_rest_x(out, points, i + 1);
        proof {
            let rest = points@.skip(i as int);
            assert(rest[0] == points@[i as int]);
            assert(rest.drop_first() =~= points@.skip(i as int + 1));
            assert(out@ =~= old(out)@ + encode_rest_sp(rest));
        }
    }
}

/// Encode a curve to its canonical text form:
/// `[(time:T,val:(x:X,y:Y)),...]` in stored micro-units.
pub fn encode_points(points: &Vec<Point>) -> (r: Vec<u8>)
    requires
        forall|q: int| 0 <= q < points@.len() ==> point_bounded(#[trigger] points@[q]),
    ensures
        r@ == encode_points_sp(points@),
{
    let mut out: Vec<u8> = Vec::new();
    out.push(91);
    if points.len() == 0 {
        out.push(93);
        proof {
            assert(out@ =~= encode_points_sp(points@));
        }
    } else {
        encode_point_x(&mut out, points[0]);
        encode_rest_x(&mut out, points, 1);
        proof {
            assert(points@.skip(1) =~= points@.drop_first());
            assert(out@ =~= encode_points_sp(points@));
        }
    }
    out
}

} // verus!
