//! The round-trip law of the JSON codec: parsing a canonically rendered
//! record yields the record back.
//!
//! The proofs go production by production: a rendered piece standing in a
//! larger input at some position is parsed back to exactly the value it
//! renders, with the position just past it.

use vstd::prelude::*;
use vstd::arithmetic::div_mod::lemma_fundamental_div_mod;
use crate::json::{
    is_digit, dec_digits, zero_digits, digits_value, digit_run_end, skip_ws, pow10,
    lemma_pow10_pos, lemma_dec_digits_len, esc_byte, esc_bytes, hex_digit, hex_val, hex_val4,
    unescape, render_text, render_int, render_dec, render_value, render_member, render_record,
    join_items, parse_number, parse_text, parse_text_body, parse_text_items, parse_value,
    parse_members, parse_document, Decimal, Number, ValueModel, RecordModel, dec_wf,
    option_value, option_record,
};

verus! {

/// A byte of a window equals the corresponding byte of the piece that
/// stands there.
proof fn lemma_window_byte(s: Seq<u8>, i: int, w: Seq<u8>, k: int)
    requires
        0 <= i,
        i + w.len() <= s.len(),
        s.subrange(i, i + w.len()) == w,
        0 <= k < w.len(),
    ensures
        s[i + k] == w[k],
{
    assert(w[k] == s.subrange(i, i + w.len() as int)[k]);
}

/// A sub-piece of a window is itself a window.
proof fn lemma_window_sub(s: Seq<u8>, i: int, w: Seq<u8>, a: int, b: int)
    requires
        0 <= i,
        i + w.len() <= s.len(),
        s.subrange(i, i + w.len()) == w,
        0 <= a <= b <= w.len(),
    ensures
        s.subrange(i + a, i + b) == w.subrange(a, b),
{
    assert forall|k: int| 0 <= k < b - a implies s.subrange(i + a, i + b)[k] == w.subrange(a, b)[k]
        by {
        lemma_window_byte(s, i, w, a + k);
    }
    assert(s.subrange(i + a, i + b) =~= w.subrange(a, b));
}

/// All bytes of rendered digits are digits.
proof fn lemma_dec_digits_are_digits(n: nat)
    ensures
        forall|k: int| 0 <= k < dec_digits(n).len() ==> is_digit(#[trigger] dec_digits(n)[k]),
    decreases n,
{
    let w = dec_digits(n);
    if n < 10 {
        assert(w[0] == (0x30 + n) as u8);
        assert(is_digit(w[0]));
    } else {
        lemma_dec_digits_are_digits(n / 10);
        let wf = dec_digits(n / 10);
        assert forall|k: int| 0 <= k < w.len() implies is_digit(#[trigger] w[k]) by {
            if k < wf.len() {
                assert(w[k] == wf[k]);
            } else {
                assert(w[k] == (0x30 + n % 10) as u8);
            }
        }
    }
}

/// A run of digit bytes bounded by a non-digit (or the end) is exactly
/// the digit run.
proof fn lemma_run_end(s: Seq<u8>, i: int, j: int)
    requires
        0 <= i <= j <= s.len(),
        forall|t: int| i <= t < j ==> is_digit(#[trigger] s[t]),
        j == s.len() || !is_digit(s[j]),
    ensures
        digit_run_end(s, i) == j,
    decreases j - i,
{
    if i < j {
        lemma_run_end(s, i + 1, j);
    }
}

/// The value of a window of zero digits.
proof fn lemma_digits_value_zeros(s: Seq<u8>, i: int, j: int)
    requires
        0 <= i <= j <= s.len(),
        forall|t: int| i <= t < j ==> #[trigger] s[t] == 0x30u8,
    ensures
        digits_value(s, i, j) == 0,
    decreases j - i,
{
    if i < j {
        lemma_digits_value_zeros(s, i, j - 1);
    }
}

/// Splitting the value of a digit window at a middle position.
proof fn lemma_digits_value_split(s: Seq<u8>, i: int, k: int, j: int)
    requires
        0 <= i <= k <= j <= s.len(),
    ensures
        digits_value(s, i, j) == digits_value(s, i, k) * pow10((j - k) as nat) + digits_value(
            s,
            k,
            j,
        ),
    decreases j - k,
{
    if k < j {
        lemma_digits_value_split(s, i, k, j - 1);
        let a = digits_value(s, i, k);
        let p = pow10((j - 1 - k) as nat);
        let b = digits_value(s, k, j - 1);
        let d = (s[j - 1] - 0x30) as nat;
        assert((a * p + b) * 10 + d == a * (p * 10) + (b * 10 + d)) by (nonlinear_arith);
        assert(pow10((j - k) as nat) == 10 * pow10((j - 1 - k) as nat));
        assert(a * (p * 10) == a * pow10((j - k) as nat)) by (nonlinear_arith)
            requires
                pow10((j - k) as nat) == 10 * p,
        ;
    } else {
        assert(pow10(0) == 1);
        assert(digits_value(s, i, j) * 1 == digits_value(s, i, j)) by (nonlinear_arith);
    }
}

/// A window holding the rendered digits of `n` reads back as `n`.
proof fn lemma_digits_window(s: Seq<u8>, i: int, n: nat)
    requires
        0 <= i,
        i + dec_digits(n).len() <= s.len(),
        s.subrange(i, i + dec_digits(n).len()) == dec_digits(n),
    ensures
        digits_value(s, i, i + dec_digits(n).len()) == n,
        forall|t: int| i <= t < i + dec_digits(n).len() ==> is_digit(#[trigger] s[t]),
    decreases n,
{
    let w = dec_digits(n);
    let l = w.len() as int;
    lemma_dec_digits_are_digits(n);
    assert forall|t: int| i <= t < i + l implies is_digit(#[trigger] s[t]) by {
        lemma_window_byte(s, i, w, t - i);
    }
    if n < 10 {
        lemma_window_byte(s, i, w, 0);
        assert(digits_value(s, i, i + 1) == digits_value(s, i, i) * 10 + (s[i] - 0x30) as nat);
    } else {
        let wf = dec_digits(n / 10);
        let lf = wf.len() as int;
        lemma_window_sub(s, i, w, 0, lf);
        assert(w.subrange(0, lf) =~= wf);
        lemma_digits_window(s, i, n / 10);
        lemma_window_byte(s, i, w, l - 1);
        assert(w[l - 1] == (0x30 + n % 10) as u8);
        assert(digits_value(s, i, i + l) == digits_value(s, i, i + l - 1) * 10 + (s[i + l - 1]
            - 0x30) as nat);
        lemma_fundamental_div_mod(n as int, 10);
    }
}

/// A window holding a rendered integer, bounded on the right by a byte
/// that can extend neither a digit run nor a decimal, reads back as that
/// integer.
proof fn lemma_int_window(s: Seq<u8>, i: int, v: i64)
    requires
        0 <= i,
        i + render_int(v as int).len() <= s.len(),
        s.subrange(i, i + render_int(v as int).len()) == render_int(v as int),
        ({
            let j = i + render_int(v as int).len();
            j == s.len() || (!is_digit(s[j]) && s[j] != 0x2E)
        }),
    ensures
        parse_number(s, i) == Some((Number::Int(v), i + render_int(v as int).len())),
{
    let w = render_int(v as int);
    let l = w.len() as int;
    let j = i + l;
    if v < 0 {
        let n = (-(v as int)) as nat;
        let dl = dec_digits(n).len() as int;
        lemma_window_byte(s, i, w, 0);
        assert(w[0] == 0x2D);
        assert(s[i] == 0x2D);
        lemma_window_sub(s, i, w, 1, l);
        assert(w.subrange(1, l) =~= dec_digits(n));
        lemma_digits_window(s, i + 1, n);
        lemma_run_end(s, i + 1, j);
        assert(digit_run_end(s, i + 1) == j);
        assert(digits_value(s, i + 1, j) == n);
        assert(n <= 0x8000_0000_0000_0000);
        assert((0 - n as int) as i64 == v);
    } else {
        let n = v as nat;
        assert(s.subrange(i, i + l) =~= dec_digits(n));
        lemma_digits_window(s, i, n);
        assert(is_digit(s[i]));
        assert(s[i] != 0x2D);
        lemma_run_end(s, i, j);
        assert(digits_value(s, i, j) == n);
        assert(n <= 0x7FFF_FFFF_FFFF_FFFF);
        assert(n as i64 == v);
    }
}

/// The digit count of `n` is bounded by any width whose power of ten
/// exceeds `n`.
proof fn lemma_dec_digits_len_upper(n: nat, width: nat)
    requires
        width >= 1,
        n < pow10(width),
    ensures
        dec_digits(n).len() <= width,
    decreases n,
{
    if n < 10 {
    } else {
        assert(pow10(width) == 10 * pow10((width - 1) as nat));
        assert(n / 10 < pow10((width - 1) as nat)) by {
            lemma_fundamental_div_mod(n as int, 10);
        }
        assert(width >= 2) by {
            if width == 1 {
                assert(pow10(1) == 10) by {
                    crate::json::lemma_pow10_le_18();
                    reveal_with_fuel(pow10, 2);
                }
            }
        }
        lemma_dec_digits_len_upper(n / 10, (width - 1) as nat);
    }
}

/// A window holding a rendered decimal, bounded on the right by a byte
/// that is not a digit, reads back as that decimal.
proof fn lemma_dec_window(s: Seq<u8>, i: int, d: Decimal)
    requires
        dec_wf(d),
        0 <= i,
        i + render_dec(d).len() <= s.len(),
        s.subrange(i, i + render_dec(d).len()) == render_dec(d),
        ({
            let j = i + render_dec(d).len();
            j == s.len() || !is_digit(s[j])
        }),
    ensures
        parse_number(s, i) == Some((Number::Dec(d), i + render_dec(d).len())),
{
    let w = render_dec(d);
    let l = w.len() as int;
    let fin = i + l;
    let p = pow10(d.scale as nat);
    let whole = d.mantissa as nat / p;
    let frac = d.mantissa as nat % p;
    let wd = dec_digits(whole);
    let fd = dec_digits(frac);
    lemma_pow10_pos(d.scale as nat);
    vstd::arithmetic::div_mod::lemma_mod_division_less_than_divisor(d.mantissa as int, p as int);
    lemma_dec_digits_len_upper(frac, d.scale as nat);
    let zn = (d.scale as nat - fd.len()) as int;
    let wl = wd.len() as int;
    let fl = fd.len() as int;
    let sg: int = if d.neg {
        1
    } else {
        0
    };
    // layout: [sign] wd '.' zeros fd
    let i1 = i + sg;  // start of whole digits
    let jdot = i1 + wl;  // the point
    let if0 = jdot + 1;  // start of fraction digits (zeros first)
    assert(l == sg + wl + 1 + zn + fl);
    // the sign
    if d.neg {
        lemma_window_byte(s, i, w, 0);
        assert(w[0] == 0x2D);
    }
    // the whole part
    lemma_window_sub(s, i, w, sg, sg + wl);
    assert(w.subrange(sg, sg + wl) =~= wd);
    lemma_digits_window(s, i1, whole);
    lemma_window_byte(s, i, w, sg + wl);
    assert(w[sg + wl] == 0x2E);
    assert(s[jdot] == 0x2E);
    lemma_run_end(s, i1, jdot);
    // the fraction: zeros, then the digits of `frac`
    assert forall|t: int| if0 <= t < if0 + zn implies #[trigger] s[t] == 0x30u8 by {
        lemma_window_byte(s, i, w, sg + wl + 1 + (t - if0));
        assert(w[sg + wl + 1 + (t - if0)] == zero_digits(zn as nat)[t - if0]);
    }
    lemma_window_sub(s, i, w, sg + wl + 1 + zn, l);
    assert(w.subrange(sg + wl + 1 + zn, l) =~= fd);
    lemma_digits_window(s, if0 + zn, frac);
    assert forall|t: int| if0 <= t < fin implies is_digit(#[trigger] s[t]) by {
        if t < if0 + zn {
            assert(s[t] == 0x30u8);
        }
    }
    lemma_run_end(s, if0, fin);
    lemma_digits_value_zeros(s, if0, if0 + zn);
    lemma_digits_value_split(s, if0, if0 + zn, fin);
    assert(digits_value(s, if0, fin) == 0 * pow10((fin - (if0 + zn)) as nat) + frac)
        by (nonlinear_arith)
        requires
            digits_value(s, if0, fin) == digits_value(s, if0, if0 + zn) * pow10(
                (fin - (if0 + zn)) as nat,
            ) + digits_value(s, if0 + zn, fin),
            digits_value(s, if0, if0 + zn) == 0,
            digits_value(s, if0 + zn, fin) == frac,
    ;
    // the parsed scale and mantissa
    let sc = fin - if0;
    assert(sc == d.scale);
    lemma_fundamental_div_mod(d.mantissa as int, p as int);
    assert(whole * p + frac == d.mantissa as nat) by (nonlinear_arith)
        requires
            d.mantissa as int == p as int * (d.mantissa as int / p as int) + d.mantissa as int
                % p as int,
            whole == d.mantissa as nat / p,
            frac == d.mantissa as nat % p,
    ;
    assert(digit_run_end(s, i1) == jdot);
    assert(jdot < s.len() && s[jdot] == 0x2E);
    assert(digit_run_end(s, jdot + 1) == fin);
    assert(fin != jdot + 1);
    assert(digits_value(s, i1, jdot) == whole);
    if d.neg {
        assert(s[i] == 0x2D);
    } else {
        assert(is_digit(s[i]));
        assert(s[i] != 0x2D);
    }
    assert(parse_number(s, i) == Some((Number::Dec(d), fin)));
}

/// Reading back the hex digit of a value below sixteen.
proof fn lemma_hex_of_digit(n: nat)
    requires
        n < 16,
    ensures
        hex_val(hex_digit(n)) == Some(n),
{
}

/// A window holding escaped text followed by a closing quote reads back
/// as that text, the position just past the quote.
proof fn lemma_text_body_window(s: Seq<u8>, i: int, t: Seq<u8>)
    requires
        0 <= i,
        i + esc_bytes(t).len() + 1 <= s.len(),
        s.subrange(i, i + esc_bytes(t).len() + 1) == esc_bytes(t) + seq![0x22u8],
    ensures
        parse_text_body(s, i) == Some((t, i + esc_bytes(t).len() + 1)),
    decreases t.len(),
{
    let w = esc_bytes(t) + seq![0x22u8];
    let l = w.len() as int;
    if t.len() == 0 {
        lemma_window_byte(s, i, w, 0);
        assert(w[0] == 0x22);
        assert(t =~= Seq::<u8>::empty());
    } else {
        let b = t[0];
        let e = esc_byte(b);
        let el = e.len() as int;
        let rest = t.subrange(1, t.len() as int);
        assert(esc_bytes(t) == e + esc_bytes(rest));
        assert forall|k: int| 0 <= k < el implies #[trigger] w[k] == e[k] by {
            assert(w[k] == (e + esc_bytes(rest))[k]);
        }
        lemma_window_sub(s, i, w, el, l);
        assert(w.subrange(el, l) =~= esc_bytes(rest) + seq![0x22u8]);
        lemma_text_body_window(s, i + el, rest);
        lemma_window_byte(s, i, w, 0);
        assert(w[0] == e[0]);
        if el >= 2 {
            lemma_window_byte(s, i, w, 1);
            assert(w[1] == e[1]);
        }
        if el == 6 {
            lemma_window_byte(s, i, w, 2);
            lemma_window_byte(s, i, w, 3);
            lemma_window_byte(s, i, w, 4);
            lemma_window_byte(s, i, w, 5);
            assert(w[2] == e[2] && w[3] == e[3] && w[4] == e[4] && w[5] == e[5]);
        }
        assert(seq![b] + rest =~= t);
        if b == 0x22 {
            assert(e == seq![0x5Cu8, 0x22u8]);
            assert(s[i] == 0x5C && s[i + 1] == 0x22);
            assert(unescape(0x22) == Some(0x22u8));
        } else if b == 0x5C {
            assert(e == seq![0x5Cu8, 0x5Cu8]);
            assert(s[i] == 0x5C && s[i + 1] == 0x5C);
            assert(unescape(0x5C) == Some(0x5Cu8));
        } else if b < 0x20 {
            assert(e == seq![0x5Cu8, 0x75u8, 0x30u8, 0x30u8, hex_digit((b / 16) as nat), hex_digit(
                (b % 16) as nat,
            )]);
            assert(s[i] == 0x5C && s[i + 1] == 0x75);
            assert(s[i + 2] == 0x30 && s[i + 3] == 0x30);
            assert(s[i + 4] == hex_digit((b / 16) as nat));
            assert(s[i + 5] == hex_digit((b % 16) as nat));
            lemma_hex_of_digit((b / 16) as nat);
            lemma_hex_of_digit((b % 16) as nat);
            assert(hex_val(0x30u8) == Some(0nat));
            let v = 0 * 0x1000 + 0 * 0x100 + (b / 16) as nat * 0x10 + (b % 16) as nat;
            assert(hex_val4(s, i + 2) == Some(v));
            lemma_fundamental_div_mod(b as int, 16);
            assert(v == b);
            assert(v <= 0x7F);
            assert(v as u8 == b);
        } else {
            assert(e == seq![b]);
            assert(s[i] == b);
        }
    }
}

/// A window holding a rendered string reads back as its text.
proof fn lemma_text_window(s: Seq<u8>, i: int, t: Seq<u8>)
    requires
        0 <= i,
        i + render_text(t).len() <= s.len(),
        s.subrange(i, i + render_text(t).len()) == render_text(t),
    ensures
        parse_text(s, i) == Some((t, i + render_text(t).len())),
{
    let w = render_text(t);
    let l = w.len() as int;
    lemma_window_byte(s, i, w, 0);
    assert(w[0] == 0x22);
    lemma_window_sub(s, i, w, 1, l);
    assert(w.subrange(1, l) =~= esc_bytes(t) + seq![0x22u8]);
    lemma_text_body_window(s, i + 1, t);
}

/// A window holding joined rendered strings and a closing bracket reads
/// back as the list of their texts.
proof fn lemma_text_items_window(s: Seq<u8>, i: int, ts: Seq<Seq<u8>>)
    requires
        ts.len() >= 1,
        0 <= i,
        ({
            let w = join_items(ts.map_values(|t: Seq<u8>| render_text(t))) + seq![0x5Du8];
            i + w.len() <= s.len() && s.subrange(i, i + w.len()) == w
        }),
    ensures
        ({
            let w = join_items(ts.map_values(|t: Seq<u8>| render_text(t))) + seq![0x5Du8];
            parse_text_items(s, i) == Some((ts, i + w.len()))
        }),
    decreases ts.len(),
{
    let pieces = ts.map_values(|t: Seq<u8>| render_text(t));
    let w = join_items(pieces) + seq![0x5Du8];
    let l = w.len() as int;
    let rt0 = render_text(ts[0]);
    assert(pieces[0] == rt0);
    let rl = rt0.len() as int;
    if ts.len() == 1 {
        assert(join_items(pieces) == pieces[0]);
        lemma_window_sub(s, i, w, 0, rl);
        assert(w.subrange(0, rl) =~= rt0);
        lemma_text_window(s, i, ts[0]);
        let j = i + rl;
        lemma_window_byte(s, i, w, rl);
        assert(w[rl] == 0x5D);
        assert(s[j] == 0x5D);
        assert(skip_ws(s, j) == j);
        assert(seq![ts[0]] =~= ts);
        assert(parse_text_items(s, i) == Some((ts, j + 1)));
    } else {
        let rest = ts.subrange(1, ts.len() as int);
        let pieces2 = rest.map_values(|t: Seq<u8>| render_text(t));
        assert(pieces.subrange(1, pieces.len() as int) =~= pieces2);
        assert(join_items(pieces) == pieces[0] + seq![0x2Cu8] + join_items(pieces2));
        assert(w =~= rt0 + seq![0x2Cu8] + (join_items(pieces2) + seq![0x5Du8]));
        lemma_window_sub(s, i, w, 0, rl);
        assert(w.subrange(0, rl) =~= rt0);
        lemma_text_window(s, i, ts[0]);
        let j = i + rl;
        lemma_window_byte(s, i, w, rl);
        assert(w[rl] == 0x2C);
        assert(s[j] == 0x2C);
        assert(skip_ws(s, j) == j);
        let w2 = join_items(pieces2) + seq![0x5Du8];
        lemma_window_sub(s, i, w, rl + 1, l);
        assert(w.subrange(rl + 1, l) =~= w2);
        lemma_text_items_window(s, j + 1, rest);
        let rt1 = render_text(rest[0]);
        assert(pieces2[0] == rt1);
        assert(join_items(pieces2)[0] == rt1[0]) by {
            if pieces2.len() == 1 {
                assert(join_items(pieces2) == pieces2[0]);
            } else {
                assert(join_items(pieces2) == pieces2[0] + seq![0x2Cu8] + join_items(
                    pieces2.subrange(1, pieces2.len() as int),
                ));
            }
        }
        assert(rt1[0] == 0x22);
        lemma_window_byte(s, i, w, rl + 1);
        assert(w[rl + 1] == w2[0]);
        assert(s[j + 1] == 0x22);
        assert(skip_ws(s, j + 1) == j + 1);
        assert(seq![ts[0]] + rest =~= ts);
        assert(parse_text_items(s, i) == Some((ts, i + l)));
    }
}

/// The first byte of a rendered value is never whitespace, and tells the
/// parser's dispatch; a window holding a rendered option value, bounded
/// on the right by a separator or the end, reads back as that value.
proof fn lemma_value_window(s: Seq<u8>, i: int, v: ValueModel)
    requires
        option_value(v),
        0 <= i,
        i + render_value(v).len() <= s.len(),
        s.subrange(i, i + render_value(v).len()) == render_value(v),
        ({
            let j = i + render_value(v).len();
            j == s.len() || s[j] == 0x2C || s[j] == 0x7D || s[j] == 0x5D
        }),
    ensures
        parse_value(s, i) == Some((v, i + render_value(v).len())),
{
    let w = render_value(v);
    let l = w.len() as int;
    let j = i + l;
    match v {
        ValueModel::Bool(b) => {
            if b {
                lemma_window_byte(s, i, w, 0);
                lemma_window_byte(s, i, w, 1);
                lemma_window_byte(s, i, w, 2);
                lemma_window_byte(s, i, w, 3);
                assert(s[i] == 0x74 && s[i + 1] == 0x72 && s[i + 2] == 0x75 && s[i + 3] == 0x65);
                assert(skip_ws(s, i) == i);
            } else {
                lemma_window_byte(s, i, w, 0);
                lemma_window_byte(s, i, w, 1);
                lemma_window_byte(s, i, w, 2);
                lemma_window_byte(s, i, w, 3);
                lemma_window_byte(s, i, w, 4);
                assert(s[i] == 0x66 && s[i + 1] == 0x61 && s[i + 2] == 0x6C && s[i + 3] == 0x73
                    && s[i + 4] == 0x65);
                assert(skip_ws(s, i) == i);
            }
        },
        ValueModel::Num(n) => {
            match n {
                Number::Int(x) => {
                    lemma_window_byte(s, i, w, 0);
                    if x < 0 {
                        assert(w[0] == 0x2D);
                    } else {
                        lemma_dec_digits_are_digits(x as nat);
                        assert(w[0] == dec_digits(x as nat)[0]);
                        assert(is_digit(w[0]));
                    }
                    assert(skip_ws(s, i) == i);
                    lemma_int_window(s, i, x);
                },
                Number::Dec(d) => {
                    lemma_window_byte(s, i, w, 0);
                    let p = pow10(d.scale as nat);
                    let whole = d.mantissa as nat / p;
                    if d.neg {
                        assert(w[0] == 0x2D);
                    } else {
                        lemma_dec_digits_are_digits(whole);
                        lemma_dec_digits_len(whole);
                        assert(Seq::<u8>::empty() + dec_digits(whole) =~= dec_digits(whole));
                        assert(w[0] == dec_digits(whole)[0]);
                        assert(is_digit(w[0]));
                    }
                    assert(skip_ws(s, i) == i);
                    lemma_dec_window(s, i, d);
                },
            }
        },
        ValueModel::Text(t) => {
            lemma_window_byte(s, i, w, 0);
            assert(w[0] == 0x22);
            assert(skip_ws(s, i) == i);
            lemma_text_window(s, i, t);
        },
        ValueModel::TextList(ts) => {
            lemma_window_byte(s, i, w, 0);
            assert(w[0] == 0x5B);
            assert(skip_ws(s, i) == i);
            let pieces = ts.map_values(|t: Seq<u8>| render_text(t));
            if ts.len() == 0 {
                assert(join_items(pieces) == Seq::<u8>::empty());
                lemma_window_byte(s, i, w, 1);
                assert(w[1] == 0x5D);
                assert(s[i + 1] == 0x5D);
                assert(skip_ws(s, i + 1) == i + 1);
                assert(ts =~= Seq::<Seq<u8>>::empty());
            } else {
                let w2 = join_items(pieces) + seq![0x5Du8];
                lemma_window_sub(s, i, w, 1, l);
                assert(w.subrange(1, l) =~= w2);
                lemma_text_items_window(s, i + 1, ts);
                let rt0 = render_text(ts[0]);
                assert(pieces[0] == rt0);
                assert(join_items(pieces)[0] == rt0[0]) by {
                    if pieces.len() == 1 {
                        assert(join_items(pieces) == pieces[0]);
                    } else {
                        assert(join_items(pieces) == pieces[0] + seq![0x2Cu8] + join_items(
                            pieces.subrange(1, pieces.len() as int),
                        ));
                    }
                }
                assert(rt0[0] == 0x22);
                lemma_window_byte(s, i, w, 1);
                assert(w[1] == w2[0]);
                assert(s[i + 1] == 0x22);
                assert(skip_ws(s, i + 1) == i + 1);
            }
        },
        ValueModel::NumList(_) => {
            assert(false);
        },
        ValueModel::PairList(_) => {
            assert(false);
        },
        ValueModel::EmptyMap => {
            lemma_window_byte(s, i, w, 0);
            lemma_window_byte(s, i, w, 1);
            assert(s[i] == 0x7B && s[i + 1] == 0x7D);
            assert(skip_ws(s, i) == i);
            assert(skip_ws(s, i + 1) == i + 1);
        },
    }
}

/// A window holding joined rendered members and a closing brace reads
/// back as those members.
proof fn lemma_members_window(s: Seq<u8>, i: int, m: RecordModel)
    requires
        m.len() >= 1,
        option_record(m),
        0 <= i,
        ({
            let w = join_items(m.map_values(|p: (Seq<u8>, ValueModel)| render_member(p)))
                + seq![0x7Du8];
            i + w.len() <= s.len() && s.subrange(i, i + w.len()) == w
        }),
    ensures
        ({
            let w = join_items(m.map_values(|p: (Seq<u8>, ValueModel)| render_member(p)))
                + seq![0x7Du8];
            parse_members(s, i) == Some((m, i + w.len()))
        }),
    decreases m.len(),
{
    let pieces = m.map_values(|p: (Seq<u8>, ValueModel)| render_member(p));
    let w = join_items(pieces) + seq![0x7Du8];
    let l = w.len() as int;
    let key = m[0].0;
    let v = m[0].1;
    assert(option_value(v));
    let mr = render_member(m[0]);
    assert(pieces[0] == mr);
    let rk = render_text(key);
    let rkl = rk.len() as int;
    let rv = render_value(v);
    let rvl = rv.len() as int;
    let ml = mr.len() as int;
    assert(ml == rkl + 1 + rvl);
    if m.len() == 1 {
        assert(join_items(pieces) == pieces[0]);
        assert(w =~= rk + seq![0x3Au8] + rv + seq![0x7Du8]);
        // the key
        lemma_window_sub(s, i, w, 0, rkl);
        assert(w.subrange(0, rkl) =~= rk);
        lemma_text_window(s, i, key);
        // the colon
        lemma_window_byte(s, i, w, rkl);
        assert(w[rkl] == 0x3A);
        assert(s[i + rkl] == 0x3A);
        assert(skip_ws(s, i + rkl) == i + rkl);
        // the value, bounded by the closing brace
        lemma_window_sub(s, i, w, rkl + 1, rkl + 1 + rvl);
        assert(w.subrange(rkl + 1, rkl + 1 + rvl) =~= rv);
        lemma_window_byte(s, i, w, ml);
        assert(w[ml] == 0x7D);
        assert(s[i + ml] == 0x7D);
        lemma_value_window(s, i + rkl + 1, v);
        assert(skip_ws(s, i + ml) == i + ml);
        assert(seq![(key, v)] =~= m);
        assert(parse_members(s, i) == Some((m, i + l)));
    } else {
        let rest = m.subrange(1, m.len() as int);
        let pieces2 = rest.map_values(|p: (Seq<u8>, ValueModel)| render_member(p));
        assert(pieces.subrange(1, pieces.len() as int) =~= pieces2);
        assert(join_items(pieces) == pieces[0] + seq![0x2Cu8] + join_items(pieces2));
        assert(w =~= rk + seq![0x3Au8] + rv + seq![0x2Cu8] + (join_items(pieces2)
            + seq![0x7Du8]));
        // the key
        lemma_window_sub(s, i, w, 0, rkl);
        assert(w.subrange(0, rkl) =~= rk);
        lemma_text_window(s, i, key);
        // the colon
        lemma_window_byte(s, i, w, rkl);
        assert(w[rkl] == 0x3A);
        assert(s[i + rkl] == 0x3A);
        assert(skip_ws(s, i + rkl) == i + rkl);
        // the value, bounded by the comma
        lemma_window_sub(s, i, w, rkl + 1, rkl + 1 + rvl);
        assert(w.subrange(rkl + 1, rkl + 1 + rvl) =~= rv);
        lemma_window_byte(s, i, w, ml);
        assert(w[ml] == 0x2C);
        assert(s[i + ml] == 0x2C);
        lemma_value_window(s, i + rkl + 1, v);
        assert(skip_ws(s, i + ml) == i + ml);
        // the members after the comma
        assert(option_record(rest)) by {
            assert(forall|t: int| 0 <= t < rest.len() ==> rest[t] == m[t + 1]);
        }
        let w2 = join_items(pieces2) + seq![0x7Du8];
        lemma_window_sub(s, i, w, ml + 1, l);
        assert(w.subrange(ml + 1, l) =~= w2);
        lemma_members_window(s, i + ml + 1, rest);
        // the next member starts with a quote
        let rk1 = render_text(rest[0].0);
        assert(pieces2[0] == render_member(rest[0]));
        assert(join_items(pieces2)[0] == render_member(rest[0])[0]) by {
            if pieces2.len() == 1 {
                assert(join_items(pieces2) == pieces2[0]);
            } else {
                assert(join_items(pieces2) == pieces2[0] + seq![0x2Cu8] + join_items(
                    pieces2.subrange(1, pieces2.len() as int),
                ));
            }
        }
        assert(render_member(rest[0])[0] == rk1[0]);
        assert(rk1[0] == 0x22);
        lemma_window_byte(s, i, w, ml + 1);
        assert(w[ml + 1] == w2[0]);
        assert(s[i + ml + 1] == 0x22);
        assert(skip_ws(s, i + ml + 1) == i + ml + 1);
        assert(seq![(key, v)] + rest =~= m);
        assert(parse_members(s, i) == Some((m, i + l)));
    }
}

/// The round-trip law of the codec: a canonically rendered record, parsed
/// back, yields exactly the record — every field present, in order, with
/// its value unchanged.
pub proof fn lemma_record_roundtrip(m: RecordModel)
    requires
        option_record(m),
    ensures
        parse_document(render_record(m)) == Some(m),
{
    let s = render_record(m);
    let pieces = m.map_values(|p: (Seq<u8>, ValueModel)| render_member(p));
    assert(s == seq![0x7Bu8] + join_items(pieces) + seq![0x7Du8]);
    assert(s[0] == 0x7B);
    assert(skip_ws(s, 0) == 0);
    if m.len() == 0 {
        assert(join_items(pieces) == Seq::<u8>::empty());
        assert(s.len() == 2);
        assert(s[1] == 0x7D);
        assert(skip_ws(s, 1) == 1);
        assert(skip_ws(s, 2) == 2);
        assert(m =~= Seq::<(Seq<u8>, ValueModel)>::empty());
    } else {
        let w2 = join_items(pieces) + seq![0x7Du8];
        assert(s.subrange(1, s.len() as int) =~= w2);
        lemma_members_window(s, 1, m);
        let rk0 = render_text(m[0].0);
        assert(pieces[0] == render_member(m[0]));
        assert(join_items(pieces)[0] == render_member(m[0])[0]) by {
            if pieces.len() == 1 {
                assert(join_items(pieces) == pieces[0]);
            } else {
                assert(join_items(pieces) == pieces[0] + seq![0x2Cu8] + join_items(
                    pieces.subrange(1, pieces.len() as int),
                ));
            }
        }
        assert(render_member(m[0])[0] == rk0[0]);
        assert(rk0[0] == 0x22);
        assert(s[1] == 0x22);
        assert(skip_ws(s, 1) == 1);
        assert(parse_members(s, 1) == Some((m, s.len() as int)));
        assert(skip_ws(s, s.len() as int) == s.len());
        assert(parse_document(s) == Some(m));
    }
}

} // verus!
