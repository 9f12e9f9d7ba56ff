//! A JSON codec for the flat records this layer exchanges with the native
//! toolkit: the configuration record and the element timing record.
//!
//! Values are modeled without floating point: a JSON number is either an
//! integer or a decimal kept exactly as a sign, a mantissa and a scale
//! (the count of digits after the point). Text is kept as raw UTF-8 bytes.
//!
//! Rendering is canonical (no inserted whitespace, fields in record order);
//! parsing accepts whitespace between tokens and the standard string
//! escapes. The round-trip law — parsing a rendered record yields the
//! record back — is proved in `roundtrip`.

use vstd::prelude::*;

verus! {

/// A decimal number kept exactly: `(-1)^neg * mantissa / 10^scale`.
///
/// `scale` is the count of digits after the decimal point; a well-formed
/// decimal has at least one such digit (so its text always holds a point,
/// which keeps decimals and integers distinct on the wire).
#[derive(Clone, Copy, Debug, PartialEq, Eq)]
pub struct Decimal {
    pub neg: bool,
    pub mantissa: u64,
    pub scale: u64,
}

/// A JSON number: an integer or an exact decimal.
#[derive(Clone, Copy, Debug, PartialEq, Eq)]
pub enum Number {
    Int(i64),
    Dec(Decimal),
}

/// A JSON value of one of the shapes this layer exchanges: scalars,
/// lists of text, lists of numbers, lists of integer pairs, and the
/// empty object.
#[derive(Clone, Debug, PartialEq, Eq)]
pub enum JsonValue {
    Bool(bool),
    Num(Number),
    Text(Vec<u8>),
    TextList(Vec<Vec<u8>>),
    NumList(Vec<Number>),
    PairList(Vec<(i64, i64)>),
    EmptyMap,
}

/// The mathematical model of a `JsonValue`.
pub enum ValueModel {
    Bool(bool),
    Num(Number),
    Text(Seq<u8>),
    TextList(Seq<Seq<u8>>),
    NumList(Seq<Number>),
    PairList(Seq<(i64, i64)>),
    EmptyMap,
}

impl View for JsonValue {
    type V = ValueModel;

    open spec fn view(&self) -> ValueModel {
        match self {
            JsonValue::Bool(b) => ValueModel::Bool(*b),
            JsonValue::Num(n) => ValueModel::Num(*n),
            JsonValue::Text(t) => ValueModel::Text(t@),
            JsonValue::TextList(ts) => ValueModel::TextList(ts@.map_values(|x: Vec<u8>| x@)),
            JsonValue::NumList(ns) => ValueModel::NumList(ns@),
            JsonValue::PairList(ps) => ValueModel::PairList(ps@),
            JsonValue::EmptyMap => ValueModel::EmptyMap,
        }
    }
}

/// A record: field names with their values, in order.
pub type RecordModel = Seq<(Seq<u8>, ValueModel)>;

/// A well-formed decimal: at least one digit after the point, and few
/// enough that ten to the scale fits the mantissa's width.
pub open spec fn dec_wf(d: Decimal) -> bool {
    1 <= d.scale <= 18
}

pub open spec fn num_wf(n: Number) -> bool {
    match n {
        Number::Int(_) => true,
        Number::Dec(d) => dec_wf(d),
    }
}

/// Every number of a sequence is well formed.
pub open spec fn nums_wf(ns: Seq<Number>) -> bool {
    forall|i: int| 0 <= i < ns.len() ==> num_wf(#[trigger] ns[i])
}

/// The value shapes a configuration option can take: scalars, text,
/// lists of text, and the empty object. Number lists and pair lists
/// belong to the timing record only.
pub open spec fn option_value(v: ValueModel) -> bool {
    match v {
        ValueModel::Bool(_) => true,
        ValueModel::Num(n) => num_wf(n),
        ValueModel::Text(_) => true,
        ValueModel::TextList(_) => true,
        ValueModel::NumList(_) => false,
        ValueModel::PairList(_) => false,
        ValueModel::EmptyMap => true,
    }
}

/// Every value of a record is an option value.
pub open spec fn option_record(m: RecordModel) -> bool {
    forall|i: int| 0 <= i < m.len() ==> option_value((#[trigger] m[i]).1)
}

/// Well-formedness of a value model: its numbers are well formed.
pub open spec fn value_wf(v: ValueModel) -> bool {
    match v {
        ValueModel::Bool(_) => true,
        ValueModel::Num(n) => num_wf(n),
        ValueModel::Text(_) => true,
        ValueModel::TextList(_) => true,
        ValueModel::NumList(ns) => nums_wf(ns),
        ValueModel::PairList(_) => true,
        ValueModel::EmptyMap => true,
    }
}

// ---------------------------------------------------------------------
// Byte classes
// ---------------------------------------------------------------------

pub open spec fn is_ws(b: u8) -> bool {
    b == 0x20 || b == 0x09 || b == 0x0A || b == 0x0D
}

pub open spec fn is_digit(b: u8) -> bool {
    0x30 <= b <= 0x39
}

// ---------------------------------------------------------------------
// Rendering (canonical form)
// ---------------------------------------------------------------------

/// Ten to the `k`.
pub open spec fn pow10(k: nat) -> nat
    decreases k,
{
    if k == 0 {
        1
    } else {
        10 * pow10((k - 1) as nat)
    }
}

/// A lowercase hex digit for `n < 16`.
pub open spec fn hex_digit(n: nat) -> u8 {
    if n < 10 {
        (0x30 + n) as u8
    } else {
        (0x61 + (n - 10)) as u8
    }
}

/// The decimal digits of `n`, most significant first.
pub open spec fn dec_digits(n: nat) -> Seq<u8>
    decreases n,
{
    if n < 10 {
        seq![(0x30 + n) as u8]
    } else {
        dec_digits(n / 10) + seq![(0x30 + n % 10) as u8]
    }
}

/// `k` zero digits.
pub open spec fn zero_digits(k: nat) -> Seq<u8> {
    Seq::new(k, |i: int| 0x30u8)
}

/// How one byte of text is written inside a JSON string: quote and
/// backslash are escaped, control bytes become `\u00xx`, all else is
/// written as itself.
pub open spec fn esc_byte(b: u8) -> Seq<u8> {
    if b == 0x22 {
        seq![0x5Cu8, 0x22u8]
    } else if b == 0x5C {
        seq![0x5Cu8, 0x5Cu8]
    } else if b < 0x20 {
        seq![0x5Cu8, 0x75u8, 0x30u8, 0x30u8, hex_digit((b / 16) as nat), hex_digit((b % 16) as nat)]
    } else {
        seq![b]
    }
}

pub open spec fn esc_bytes(t: Seq<u8>) -> Seq<u8>
    decreases t.len(),
{
    if t.len() == 0 {
        Seq::empty()
    } else {
        esc_byte(t[0]) + esc_bytes(t.subrange(1, t.len() as int))
    }
}

/// A JSON string: the escaped text between quotes.
pub open spec fn render_text(t: Seq<u8>) -> Seq<u8> {
    seq![0x22u8] + esc_bytes(t) + seq![0x22u8]
}

/// A JSON integer.
pub open spec fn render_int(v: int) -> Seq<u8> {
    if v < 0 {
        seq![0x2Du8] + dec_digits((-v) as nat)
    } else {
        dec_digits(v as nat)
    }
}

/// A JSON decimal: whole part, point, then exactly `scale` fraction
/// digits, zero-padded on the left.
pub open spec fn render_dec(d: Decimal) -> Seq<u8> {
    let whole = d.mantissa as nat / pow10(d.scale as nat);
    let frac = d.mantissa as nat % pow10(d.scale as nat);
    let fd = dec_digits(frac);
    let sign: Seq<u8> = if d.neg {
        seq![0x2Du8]
    } else {
        Seq::empty()
    };
    sign + dec_digits(whole) + seq![0x2Eu8] + zero_digits((d.scale as nat - fd.len()) as nat) + fd
}

pub open spec fn render_number(n: Number) -> Seq<u8> {
    match n {
        Number::Int(v) => render_int(v as int),
        Number::Dec(d) => render_dec(d),
    }
}

/// Already-rendered pieces joined with commas.
pub open spec fn join_items(items: Seq<Seq<u8>>) -> Seq<u8>
    decreases items.len(),
{
    if items.len() == 0 {
        Seq::empty()
    } else if items.len() == 1 {
        items[0]
    } else {
        items[0] + seq![0x2Cu8] + join_items(items.subrange(1, items.len() as int))
    }
}

pub open spec fn render_pair(p: (i64, i64)) -> Seq<u8> {
    seq![0x5Bu8] + render_int(p.0 as int) + seq![0x2Cu8] + render_int(p.1 as int) + seq![0x5Du8]
}

/// A rendered JSON value in canonical form.
pub open spec fn render_value(v: ValueModel) -> Seq<u8> {
    match v {
        ValueModel::Bool(b) => if b {
            seq![0x74u8, 0x72u8, 0x75u8, 0x65u8]
        } else {
            seq![0x66u8, 0x61u8, 0x6Cu8, 0x73u8, 0x65u8]
        },
        ValueModel::Num(n) => render_number(n),
        ValueModel::Text(t) => render_text(t),
        ValueModel::TextList(ts) => seq![0x5Bu8] + join_items(ts.map_values(|t: Seq<u8>| render_text(t)))
            + seq![0x5Du8],
        ValueModel::NumList(ns) => seq![0x5Bu8] + join_items(ns.map_values(|n: Number| render_number(n)))
            + seq![0x5Du8],
        ValueModel::PairList(ps) => seq![0x5Bu8] + join_items(ps.map_values(|p: (i64, i64)| render_pair(p)))
            + seq![0x5Du8],
        ValueModel::EmptyMap => seq![0x7Bu8, 0x7Du8],
    }
}

/// How one record member is written: the name, a colon, the value.
pub open spec fn render_member(p: (Seq<u8>, ValueModel)) -> Seq<u8> {
    render_text(p.0) + seq![0x3Au8] + render_value(p.1)
}

/// A rendered record: the fields in order, between braces.
pub open spec fn render_record(m: RecordModel) -> Seq<u8> {
    seq![0x7Bu8] + join_items(m.map_values(|p: (Seq<u8>, ValueModel)| render_member(p)))
        + seq![0x7Du8]
}

// ---------------------------------------------------------------------
// Parsing
//
// Each parse function takes the input and a position and yields the
// parsed model with the position just past it, or nothing when the input
// does not match. Whitespace is accepted between tokens; strings accept
// the standard escapes. Recursive calls carry an explicit position-growth
// guard so that termination is structural.
// ---------------------------------------------------------------------

/// The first position at or after `i` holding no whitespace.
pub open spec fn skip_ws(s: Seq<u8>, i: int) -> int
    decreases s.len() - i,
{
    if 0 <= i < s.len() && is_ws(s[i]) {
        skip_ws(s, i + 1)
    } else {
        i
    }
}

/// The end of the digit run starting at `i`.
pub open spec fn digit_run_end(s: Seq<u8>, i: int) -> int
    decreases s.len() - i,
{
    if 0 <= i < s.len() && is_digit(s[i]) {
        digit_run_end(s, i + 1)
    } else {
        i
    }
}

/// The value of the digits in `s[i..j)`.
pub open spec fn digits_value(s: Seq<u8>, i: int, j: int) -> nat
    decreases j - i,
{
    if i < j {
        digits_value(s, i, j - 1) * 10 + (s[j - 1] - 0x30) as nat
    } else {
        0
    }
}

/// A number read at `i`: optional minus sign, digits, and optionally a
/// point with more digits. Values outside the fixed-width ranges this
/// layer represents do not parse.
pub open spec fn parse_number(s: Seq<u8>, i: int) -> Option<(Number, int)> {
    let (neg, i1): (bool, int) = if 0 <= i < s.len() && s[i] == 0x2D {
        (true, i + 1)
    } else {
        (false, i)
    };
    let j = digit_run_end(s, i1);
    if j == i1 {
        None
    } else {
        let iv = digits_value(s, i1, j);
        if j < s.len() && s[j] == 0x2E {
            let k = digit_run_end(s, j + 1);
            if k == j + 1 {
                None
            } else {
                let fv = digits_value(s, j + 1, k);
                let sc = k - (j + 1);
                let m = iv * pow10(sc as nat) + fv;
                if 1 <= sc <= 18 && m <= 0xFFFF_FFFF_FFFF_FFFF {
                    Some((Number::Dec(Decimal { neg, mantissa: m as u64, scale: sc as u64 }), k))
                } else {
                    None
                }
            }
        } else {
            if neg {
                if iv <= 0x8000_0000_0000_0000 {
                    Some((Number::Int((0 - iv as int) as i64), j))
                } else {
                    None
                }
            } else {
                if iv <= 0x7FFF_FFFF_FFFF_FFFF {
                    Some((Number::Int(iv as i64), j))
                } else {
                    None
                }
            }
        }
    }
}

/// The byte an escape character after a backslash stands for.
pub open spec fn unescape(e: u8) -> Option<u8> {
    if e == 0x22 {
        Some(0x22)
    } else if e == 0x5C {
        Some(0x5C)
    } else if e == 0x2F {
        Some(0x2F)
    } else if e == 0x62 {
        Some(0x08)
    } else if e == 0x66 {
        Some(0x0C)
    } else if e == 0x6E {
        Some(0x0A)
    } else if e == 0x72 {
        Some(0x0D)
    } else if e == 0x74 {
        Some(0x09)
    } else {
        None
    }
}

/// The value of one hex digit.
pub open spec fn hex_val(b: u8) -> Option<nat> {
    if 0x30 <= b <= 0x39 {
        Some((b - 0x30) as nat)
    } else if 0x61 <= b <= 0x66 {
        Some((b - 0x61 + 10) as nat)
    } else if 0x41 <= b <= 0x46 {
        Some((b - 0x41 + 10) as nat)
    } else {
        None
    }
}

/// The value of the four hex digits at `i`, if all four are hex digits.
pub open spec fn hex_val4(s: Seq<u8>, i: int) -> Option<nat> {
    if 0 <= i && i + 4 <= s.len() {
        match (hex_val(s[i]), hex_val(s[i + 1]), hex_val(s[i + 2]), hex_val(s[i + 3])) {
            (Some(a), Some(b), Some(c), Some(d)) => Some(a * 0x1000 + b * 0x100 + c * 0x10 + d),
            _ => None,
        }
    } else {
        None
    }
}

/// The body of a string, read from just after the opening quote up to and
/// past the closing quote. A `\u` escape is accepted for seven-bit values
/// only; other text passes through byte for byte.
pub open spec fn parse_text_body(s: Seq<u8>, i: int) -> Option<(Seq<u8>, int)>
    decreases s.len() - i,
{
    if !(0 <= i < s.len()) {
        None
    } else if s[i] == 0x22 {
        Some((Seq::empty(), i + 1))
    } else if s[i] == 0x5C {
        if i + 1 >= s.len() {
            None
        } else if s[i + 1] == 0x75 {
            match hex_val4(s, i + 2) {
                Some(v) => if v <= 0x7F {
                    match parse_text_body(s, i + 6) {
                        Some((t, j)) => Some((seq![v as u8] + t, j)),
                        None => None,
                    }
                } else {
                    None
                },
                None => None,
            }
        } else {
            match unescape(s[i + 1]) {
                Some(c) => match parse_text_body(s, i + 2) {
                    Some((t, j)) => Some((seq![c] + t, j)),
                    None => None,
                },
                None => None,
            }
        }
    } else {
        match parse_text_body(s, i + 1) {
            Some((t, j)) => Some((seq![s[i]] + t, j)),
            None => None,
        }
    }
}

/// A string read at `i`: an opening quote, then its body.
pub open spec fn parse_text(s: Seq<u8>, i: int) -> Option<(Seq<u8>, int)> {
    if 0 <= i < s.len() && s[i] == 0x22 {
        parse_text_body(s, i + 1)
    } else {
        None
    }
}

/// List elements that are strings, read from the first element up to and
/// past the closing bracket.
pub open spec fn parse_text_items(s: Seq<u8>, i: int) -> Option<(Seq<Seq<u8>>, int)>
    decreases s.len() - i,
{
    match parse_text(s, i) {
        Some((t, j)) => {
            let k = skip_ws(s, j);
            if k < s.len() && s[k] == 0x5D {
                Some((seq![t], k + 1))
            } else if k < s.len() && s[k] == 0x2C {
                let k2 = skip_ws(s, k + 1);
                if i < k2 <= s.len() {
                    match parse_text_items(s, k2) {
                        Some((ts, j2)) => Some((seq![t] + ts, j2)),
                        None => None,
                    }
                } else {
                    None
                }
            } else {
                None
            }
        },
        None => None,
    }
}

/// List elements that are numbers.
pub open spec fn parse_num_items(s: Seq<u8>, i: int) -> Option<(Seq<Number>, int)>
    decreases s.len() - i,
{
    match parse_number(s, i) {
        Some((n, j)) => {
            let k = skip_ws(s, j);
            if k < s.len() && s[k] == 0x5D {
                Some((seq![n], k + 1))
            } else if k < s.len() && s[k] == 0x2C {
                let k2 = skip_ws(s, k + 1);
                if i < k2 <= s.len() {
                    match parse_num_items(s, k2) {
                        Some((ns, j2)) => Some((seq![n] + ns, j2)),
                        None => None,
                    }
                } else {
                    None
                }
            } else {
                None
            }
        },
        None => None,
    }
}

/// A two-integer pair `[a,b]` read at `i`.
pub open spec fn parse_pair(s: Seq<u8>, i: int) -> Option<((i64, i64), int)> {
    if 0 <= i < s.len() && s[i] == 0x5B {
        match parse_number(s, skip_ws(s, i + 1)) {
            Some((Number::Int(a), j)) => {
                let k = skip_ws(s, j);
                if k < s.len() && s[k] == 0x2C {
                    match parse_number(s, skip_ws(s, k + 1)) {
                        Some((Number::Int(b), j2)) => {
                            let k2 = skip_ws(s, j2);
                            if k2 < s.len() && s[k2] == 0x5D {
                                Some(((a, b), k2 + 1))
                            } else {
                                None
                            }
                        },
                        _ => None,
                    }
                } else {
                    None
                }
            },
            _ => None,
        }
    } else {
        None
    }
}

/// List elements that are integer pairs.
pub open spec fn parse_pair_items(s: Seq<u8>, i: int) -> Option<(Seq<(i64, i64)>, int)>
    decreases s.len() - i,
{
    match parse_pair(s, i) {
        Some((p, j)) => {
            let k = skip_ws(s, j);
            if k < s.len() && s[k] == 0x5D {
                Some((seq![p], k + 1))
            } else if k < s.len() && s[k] == 0x2C {
                let k2 = skip_ws(s, k + 1);
                if i < k2 <= s.len() {
                    match parse_pair_items(s, k2) {
                        Some((ps, j2)) => Some((seq![p] + ps, j2)),
                        None => None,
                    }
                } else {
                    None
                }
            } else {
                None
            }
        },
        None => None,
    }
}

/// A list read at `i`, its element kind told by the first element:
/// an empty list reads as an empty text list.
pub open spec fn parse_list(s: Seq<u8>, i: int) -> Option<(ValueModel, int)> {
    if 0 <= i < s.len() && s[i] == 0x5B {
        let j = skip_ws(s, i + 1);
        if !(j < s.len()) {
            None
        } else if s[j] == 0x5D {
            Some((ValueModel::TextList(Seq::empty()), j + 1))
        } else if s[j] == 0x22 {
            match parse_text_items(s, j) {
                Some((ts, j2)) => Some((ValueModel::TextList(ts), j2)),
                None => None,
            }
        } else if s[j] == 0x5B {
            match parse_pair_items(s, j) {
                Some((ps, j2)) => Some((ValueModel::PairList(ps), j2)),
                None => None,
            }
        } else if s[j] == 0x2D || is_digit(s[j]) {
            match parse_num_items(s, j) {
                Some((ns, j2)) => Some((ValueModel::NumList(ns), j2)),
                None => None,
            }
        } else {
            None
        }
    } else {
        None
    }
}

/// A value read at `i`, after any whitespace.
pub open spec fn parse_value(s: Seq<u8>, i: int) -> Option<(ValueModel, int)>
    decreases s.len() - i + 1,
{
    let i0 = skip_ws(s, i);
    if !(0 <= i0 < s.len()) {
        None
    } else if s[i0] == 0x74 {
        if i0 + 4 <= s.len() && s[i0 + 1] == 0x72 && s[i0 + 2] == 0x75 && s[i0 + 3] == 0x65 {
            Some((ValueModel::Bool(true), i0 + 4))
        } else {
            None
        }
    } else if s[i0] == 0x66 {
        if i0 + 5 <= s.len() && s[i0 + 1] == 0x61 && s[i0 + 2] == 0x6C && s[i0 + 3] == 0x73
            && s[i0 + 4] == 0x65 {
            Some((ValueModel::Bool(false), i0 + 5))
        } else {
            None
        }
    } else if s[i0] == 0x22 {
        match parse_text(s, i0) {
            Some((t, j)) => Some((ValueModel::Text(t), j)),
            None => None,
        }
    } else if s[i0] == 0x7B {
        let j = skip_ws(s, i0 + 1);
        if j < s.len() && s[j] == 0x7D {
            Some((ValueModel::EmptyMap, j + 1))
        } else {
            None
        }
    } else if s[i0] == 0x5B {
        parse_list(s, i0)
    } else if s[i0] == 0x2D || is_digit(s[i0]) {
        match parse_number(s, i0) {
            Some((n, j)) => Some((ValueModel::Num(n), j)),
            None => None,
        }
    } else {
        None
    }
}

/// Record members, read from the opening quote of the first field name up
/// to and past the closing brace.
pub open spec fn parse_members(s: Seq<u8>, i: int) -> Option<(RecordModel, int)>
    decreases s.len() - i,
{
    match parse_text(s, i) {
        Some((key, j)) => {
            let k = skip_ws(s, j);
            if k < s.len() && s[k] == 0x3A {
                match parse_value(s, k + 1) {
                    Some((v, j2)) => {
                        let k2 = skip_ws(s, j2);
                        if k2 < s.len() && s[k2] == 0x7D {
                            Some((seq![(key, v)], k2 + 1))
                        } else if k2 < s.len() && s[k2] == 0x2C {
                            let k3 = skip_ws(s, k2 + 1);
                            if i < k3 <= s.len() {
                                match parse_members(s, k3) {
                                    Some((m, j3)) => Some((seq![(key, v)] + m, j3)),
                                    None => None,
                                }
                            } else {
                                None
                            }
                        } else {
                            None
                        }
                    },
                    None => None,
                }
            } else {
                None
            }
        },
        None => None,
    }
}

// ---------------------------------------------------------------------
// Rendering, executable
// ---------------------------------------------------------------------

/// Ten to the `k`, executable.
pub fn pow10_u64(k: u64) -> (r: u64)
    requires
        k <= 18,
    ensures
        r == pow10(k as nat),
{
    proof {
        lemma_pow10_le_18();
    }
    let mut r: u64 = 1;
    let mut j: u64 = 0;
    while j < k
        invariant
            j <= k <= 18,
            r == pow10(j as nat),
        decreases k - j,
    {
        proof {
            lemma_pow10_le_18();
            lemma_pow10_mono(j as nat + 1, 18);
        }
        r = r * 10;
        j = j + 1;
    }
    r
}

/// `pow10` is positive.
pub proof fn lemma_pow10_pos(k: nat)
    ensures
        pow10(k) >= 1,
    decreases k,
{
    if k > 0 {
        lemma_pow10_pos((k - 1) as nat);
    }
}

/// `pow10` does not decrease as the exponent grows.
pub proof fn lemma_pow10_mono(a: nat, b: nat)
    requires
        a <= b,
    ensures
        pow10(a) <= pow10(b),
    decreases b,
{
    if a < b {
        lemma_pow10_mono(a, (b - 1) as nat);
        lemma_pow10_pos((b - 1) as nat);
    }
}

/// The value of `pow10` at 18, by unfolding.
pub proof fn lemma_pow10_le_18()
    ensures
        pow10(18) == 1_000_000_000_000_000_000,
{
    reveal_with_fuel(pow10, 19);
}

/// The count of digits of `n` is the least width that holds it.
pub proof fn lemma_dec_digits_len(n: nat)
    ensures
        dec_digits(n).len() >= 1,
        n < pow10(dec_digits(n).len()),
    decreases n,
{
    if n < 10 {
        assert(pow10(1) == 10) by {
            reveal_with_fuel(pow10, 2);
        }
    } else {
        lemma_dec_digits_len(n / 10);
    }
}

/// Appends the decimal digits of `n`.
pub fn push_digits(out: &mut Vec<u8>, n: u64)
    ensures
        final(out)@ == old(out)@ + dec_digits(n as nat),
    decreases n,
{
    if n < 10 {
        out.push(0x30 + n as u8);
        assert(out@ =~= old(out)@ + dec_digits(n as nat));
    } else {
        push_digits(out, n / 10);
        out.push(0x30 + (n % 10) as u8);
        assert(out@ =~= old(out)@ + dec_digits(n as nat));
    }
}

/// Appends the decimal digits of `n`, left-padded with zeros to `width`.
pub fn push_digits_padded(out: &mut Vec<u8>, n: u64, width: u64)
    requires
        width >= 1,
        n < pow10(width as nat),
    ensures
        final(out)@ == old(out)@ + zero_digits((width as nat - dec_digits(n as nat).len()) as nat)
            + dec_digits(n as nat),
    decreases width,
{
    proof {
        lemma_dec_digits_len(n as nat);
    }
    if width == 1 {
        assert(pow10(1) == 10) by {
            reveal_with_fuel(pow10, 2);
        }
        out.push(0x30 + n as u8);
        assert(out@ =~= old(out)@ + zero_digits((1 - dec_digits(n as nat).len()) as nat)
            + dec_digits(n as nat));
    } else {
        assert(n as nat / 10 < pow10((width - 1) as nat));
        push_digits_padded(out, n / 10, width - 1);
        out.push(0x30 + (n % 10) as u8);
        proof {
            lemma_dec_digits_len(n as nat / 10);
            if n >= 10 {
                assert(dec_digits(n as nat) == dec_digits(n as nat / 10) + seq![(0x30 + n as nat % 10) as u8]);
            } else {
                assert(dec_digits(n as nat / 10) =~= seq![0x30u8]);
                assert(zero_digits((width as nat - 1 - 1) as nat) + dec_digits(n as nat / 10)
                    =~= zero_digits((width as nat - 1) as nat));
            }
        }
        assert(out@ =~= old(out)@ + zero_digits((width as nat - dec_digits(n as nat).len()) as nat)
            + dec_digits(n as nat));
    }
}

/// Appends a rendered integer.
pub fn push_int(out: &mut Vec<u8>, v: i64)
    ensures
        final(out)@ == old(out)@ + render_int(v as int),
{
    if v >= 0 {
        push_digits(out, v as u64);
    } else {
        out.push(0x2D);
        let m: u64 = if v == i64::MIN {
            9_223_372_036_854_775_808u64
        } else {
            (-v) as u64
        };
        assert(m as nat == (0 - v as int) as nat);
        push_digits(out, m);
        assert(out@ =~= old(out)@ + render_int(v as int));
    }
}

/// Appends a rendered decimal.
pub fn push_dec(out: &mut Vec<u8>, d: &Decimal)
    requires
        dec_wf(*d),
    ensures
        final(out)@ == old(out)@ + render_dec(*d),
{
    let p = pow10_u64(d.scale);
    proof {
        lemma_pow10_pos(d.scale as nat);
    }
    if d.neg {
        out.push(0x2D);
    }
    push_digits(out, d.mantissa / p);
    out.push(0x2E);
    push_digits_padded(out, d.mantissa % p, d.scale);
    assert(out@ =~= old(out)@ + render_dec(*d));
}

/// Appends a rendered number.
pub fn push_number(out: &mut Vec<u8>, n: &Number)
    requires
        num_wf(*n),
    ensures
        final(out)@ == old(out)@ + render_number(*n),
{
    match n {
        Number::Int(v) => push_int(out, *v),
        Number::Dec(d) => push_dec(out, d),
    }
}

/// One hex digit, executable.
fn hex_digit_e(n: u8) -> (r: u8)
    requires
        n < 16,
    ensures
        r == hex_digit(n as nat),
{
    if n < 10 {
        0x30 + n
    } else {
        0x61 + (n - 10)
    }
}

/// Escaping a single byte.
pub proof fn lemma_esc_bytes_single(b: u8)
    ensures
        esc_bytes(seq![b]) == esc_byte(b),
{
    let s = seq![b];
    assert(s.len() == 1);
    assert(s[0] == b);
    assert(s.subrange(1, 1) =~= Seq::<u8>::empty());
    assert(esc_bytes(s.subrange(1, 1)) == Seq::<u8>::empty());
    assert(esc_bytes(s) == esc_byte(s[0]) + esc_bytes(s.subrange(1, s.len() as int)));
    assert(esc_byte(b) + Seq::<u8>::empty() =~= esc_byte(b));
}

/// `esc_bytes` distributes over concatenation.
pub proof fn lemma_esc_bytes_app(a: Seq<u8>, b: Seq<u8>)
    ensures
        esc_bytes(a + b) == esc_bytes(a) + esc_bytes(b),
    decreases a.len(),
{
    if a.len() == 0 {
        assert(a + b =~= b);
        assert(esc_bytes(a) + esc_bytes(b) =~= esc_bytes(b));
    } else {
        lemma_esc_bytes_app(a.subrange(1, a.len() as int), b);
        assert((a + b).subrange(1, (a + b).len() as int) =~= a.subrange(1, a.len() as int) + b);
        assert(esc_byte(a[0]) + (esc_bytes(a.subrange(1, a.len() as int)) + esc_bytes(b))
            =~= (esc_byte(a[0]) + esc_bytes(a.subrange(1, a.len() as int))) + esc_bytes(b));
    }
}

/// Appends a rendered JSON string: quote, escaped text, quote.
pub fn push_text(out: &mut Vec<u8>, t: &[u8])
    ensures
        final(out)@ == old(out)@ + render_text(t@),
{
    out.push(0x22);
    let n = t.len();
    let mut k: usize = 0;
    while k < n
        invariant
            k <= n,
            n == t@.len(),
            out@ == old(out)@ + seq![0x22u8] + esc_bytes(t@.subrange(0, k as int)),
        decreases n - k,
    {
        let b = t[k];
        if b == 0x22 {
            out.push(0x5C);
            out.push(0x22);
        } else if b == 0x5C {
            out.push(0x5C);
            out.push(0x5C);
        } else if b < 0x20 {
            out.push(0x5C);
            out.push(0x75);
            out.push(0x30);
            out.push(0x30);
            out.push(hex_digit_e(b / 16));
            out.push(hex_digit_e(b % 16));
        } else {
            out.push(b);
        }
        proof {
            lemma_esc_bytes_app(t@.subrange(0, k as int), seq![t@[k as int]]);
            lemma_esc_bytes_single(t@[k as int]);
            assert(t@.subrange(0, k as int) + seq![t@[k as int]] =~= t@.subrange(0, k as int + 1));
            assert(out@ =~= old(out)@ + seq![0x22u8] + esc_bytes(t@.subrange(0, k as int + 1)));
        }
        k = k + 1;
    }
    out.push(0x22);
    proof {
        assert(t@.subrange(0, n as int) =~= t@);
        assert(out@ =~= old(out)@ + render_text(t@));
    }
}

/// Joining one more rendered piece onto a comma-joined run.
pub proof fn lemma_join_push(items: Seq<Seq<u8>>, x: Seq<u8>)
    ensures
        items.len() == 0 ==> join_items(items.push(x)) == x,
        items.len() > 0 ==> join_items(items.push(x)) == join_items(items) + seq![0x2Cu8] + x,
    decreases items.len(),
{
    if items.len() == 0 {
        assert(join_items(items.push(x)) == x);
    } else if items.len() == 1 {
        let p = items.push(x);
        assert(p.subrange(1, p.len() as int) =~= seq![x]);
        assert(join_items(seq![x]) == x);
    } else {
        let p = items.push(x);
        lemma_join_push(items.subrange(1, items.len() as int), x);
        assert(p.subrange(1, p.len() as int) =~= items.subrange(1, items.len() as int).push(x));
        assert(items[0] + seq![0x2Cu8] + (join_items(items.subrange(1, items.len() as int))
            + seq![0x2Cu8] + x) =~= (items[0] + seq![0x2Cu8] + join_items(
            items.subrange(1, items.len() as int),
        )) + seq![0x2Cu8] + x);
    }
}

/// Appends a rendered integer pair `[a,b]`.
pub fn push_pair(out: &mut Vec<u8>, a: i64, b: i64)
    ensures
        final(out)@ == old(out)@ + render_pair((a, b)),
{
    out.push(0x5B);
    push_int(out, a);
    out.push(0x2C);
    push_int(out, b);
    out.push(0x5D);
    assert(out@ =~= old(out)@ + render_pair((a, b)));
}

/// Appends a rendered JSON value.
pub fn push_value(out: &mut Vec<u8>, v: &JsonValue)
    requires
        value_wf(v@),
    ensures
        final(out)@ == old(out)@ + render_value(v@),
{
    match v {
        JsonValue::Bool(b) => {
            if *b {
                out.push(0x74);
                out.push(0x72);
                out.push(0x75);
                out.push(0x65);
            } else {
                out.push(0x66);
                out.push(0x61);
                out.push(0x6C);
                out.push(0x73);
                out.push(0x65);
            }
            assert(out@ =~= old(out)@ + render_value(v@));
        },
        JsonValue::Num(n) => push_number(out, n),
        JsonValue::Text(t) => push_text(out, t.as_slice()),
        JsonValue::TextList(ts) => {
            let ghost pieces = ts@.map_values(|x: Vec<u8>| x@).map_values(|t: Seq<u8>| render_text(t));
            out.push(0x5B);
            let n = ts.len();
            let mut k: usize = 0;
            while k < n
                invariant
                    k <= n,
                    n == ts@.len(),
                    pieces == ts@.map_values(|x: Vec<u8>| x@).map_values(
                        |t: Seq<u8>| render_text(t),
                    ),
                    out@ == old(out)@ + seq![0x5Bu8] + join_items(pieces.subrange(0, k as int)),
                decreases n - k,
            {
                if k > 0 {
                    out.push(0x2C);
                    push_text(out, ts[k].as_slice());
                    proof {
                        lemma_join_push(pieces.subrange(0, k as int), pieces[k as int]);
                        assert(pieces.subrange(0, k as int).push(pieces[k as int]) =~= pieces.subrange(
                            0,
                            k as int + 1,
                        ));
                        assert(out@ =~= old(out)@ + seq![0x5Bu8] + join_items(
                            pieces.subrange(0, k as int + 1),
                        ));
                    }
                } else {
                    push_text(out, ts[k].as_slice());
                    proof {
                        lemma_join_push(pieces.subrange(0, 0), pieces[0]);
                        assert(pieces.subrange(0, 0).push(pieces[0]) =~= pieces.subrange(0, 1));
                        assert(out@ =~= old(out)@ + seq![0x5Bu8] + join_items(pieces.subrange(0, 1)));
                    }
                }
                k = k + 1;
            }
            out.push(0x5D);
            proof {
                assert(pieces.subrange(0, n as int) =~= pieces);
                assert(out@ =~= old(out)@ + render_value(v@));
            }
        },
        JsonValue::NumList(ns) => {
            let ghost pieces = ns@.map_values(|n: Number| render_number(n));
            out.push(0x5B);
            let n = ns.len();
            let mut k: usize = 0;
            while k < n
                invariant
                    k <= n,
                    n == ns@.len(),
                    value_wf(v@),
                    v@ == ValueModel::NumList(ns@),
                    pieces == ns@.map_values(|x: Number| render_number(x)),
                    out@ == old(out)@ + seq![0x5Bu8] + join_items(pieces.subrange(0, k as int)),
                decreases n - k,
            {
                proof {
                    assert(v@ == ValueModel::NumList(ns@));
                    assert(nums_wf(ns@));
                    assert(num_wf(ns@[k as int]));
                }
                if k > 0 {
                    out.push(0x2C);
                }
                push_number(out, &ns[k]);
                proof {
                    lemma_join_push(pieces.subrange(0, k as int), pieces[k as int]);
                    assert(pieces.subrange(0, k as int).push(pieces[k as int]) =~= pieces.subrange(
                        0,
                        k as int + 1,
                    ));
                    assert(out@ =~= old(out)@ + seq![0x5Bu8] + join_items(
                        pieces.subrange(0, k as int + 1),
                    ));
                }
                k = k + 1;
            }
            out.push(0x5D);
            proof {
                assert(pieces.subrange(0, n as int) =~= pieces);
                assert(out@ =~= old(out)@ + render_value(v@));
            }
        },
        JsonValue::PairList(ps) => {
            let ghost pieces = ps@.map_values(|p: (i64, i64)| render_pair(p));
            out.push(0x5B);
            let n = ps.len();
            let mut k: usize = 0;
            while k < n
                invariant
                    k <= n,
                    n == ps@.len(),
                    pieces == ps@.map_values(|p: (i64, i64)| render_pair(p)),
                    out@ == old(out)@ + seq![0x5Bu8] + join_items(pieces.subrange(0, k as int)),
                decreases n - k,
            {
                if k > 0 {
                    out.push(0x2C);
                }
                let (a, b) = ps[k];
                push_pair(out, a, b);
                proof {
                    lemma_join_push(pieces.subrange(0, k as int), pieces[k as int]);
                    assert(pieces.subrange(0, k as int).push(pieces[k as int]) =~= pieces.subrange(
                        0,
                        k as int + 1,
                    ));
                    assert(out@ =~= old(out)@ + seq![0x5Bu8] + join_items(
                        pieces.subrange(0, k as int + 1),
                    ));
                }
                k = k + 1;
            }
            out.push(0x5D);
            proof {
                assert(pieces.subrange(0, n as int) =~= pieces);
                assert(out@ =~= old(out)@ + render_value(v@));
            }
        },
        JsonValue::EmptyMap => {
            out.push(0x7B);
            out.push(0x7D);
            assert(out@ =~= old(out)@ + render_value(v@));
        },
    }
}

/// A whole JSON record document: one object, nothing but whitespace
/// around it.
pub open spec fn parse_document(s: Seq<u8>) -> Option<RecordModel> {
    let i0 = skip_ws(s, 0);
    if i0 < s.len() && s[i0] == 0x7B {
        let j = skip_ws(s, i0 + 1);
        if j < s.len() && s[j] == 0x7D {
            if skip_ws(s, j + 1) == s.len() {
                Some(Seq::empty())
            } else {
                None
            }
        } else {
            match parse_members(s, j) {
                Some((m, j2)) => if skip_ws(s, j2) == s.len() {
                    Some(m)
                } else {
                    None
                },
                None => None,
            }
        }
    } else {
        None
    }
}

// ---------------------------------------------------------------------
// Parsing, executable
//
// Each executable parser computes exactly what its specification
// counterpart says: the contracts equate the two on every input.
// ---------------------------------------------------------------------

/// A parsed record field: a name and its value.
#[derive(Clone, Debug, PartialEq, Eq)]
pub struct Field {
    pub name: Vec<u8>,
    pub value: JsonValue,
}

impl View for Field {
    type V = (Seq<u8>, ValueModel);

    open spec fn view(&self) -> (Seq<u8>, ValueModel) {
        (self.name@, self.value@)
    }
}

/// The model of a sequence of parsed fields.
pub open spec fn fields_view(fs: Seq<Field>) -> RecordModel {
    fs.map_values(|f: Field| f@)
}

fn is_ws_e(b: u8) -> (r: bool)
    ensures
        r == is_ws(b),
{
    b == 0x20 || b == 0x09 || b == 0x0A || b == 0x0D
}

fn is_digit_e(b: u8) -> (r: bool)
    ensures
        r == is_digit(b),
{
    0x30 <= b && b <= 0x39
}

/// Positions at or before the end never skip past the end.
pub proof fn lemma_skip_ws_bounds(s: Seq<u8>, i: int)
    requires
        0 <= i <= s.len(),
    ensures
        i <= skip_ws(s, i) <= s.len(),
    decreases s.len() - i,
{
    if i < s.len() && is_ws(s[i]) {
        lemma_skip_ws_bounds(s, i + 1);
    }
}

pub fn skip_ws_e(s: &[u8], i: usize) -> (r: usize)
    requires
        i <= s@.len(),
    ensures
        r as int == skip_ws(s@, i as int),
        i <= r <= s@.len(),
{
    let len = s.len();
    let mut r = i;
    while r < len && is_ws_e(s[r])
        invariant
            i <= r <= len,
            len == s@.len(),
            skip_ws(s@, i as int) == skip_ws(s@, r as int),
        decreases len - r,
    {
        r = r + 1;
    }
    r
}

/// Every byte of a digit run is a digit, and the run stays in bounds.
pub proof fn lemma_digit_run(s: Seq<u8>, i: int)
    requires
        0 <= i <= s.len(),
    ensures
        i <= digit_run_end(s, i) <= s.len(),
        forall|t: int| i <= t < digit_run_end(s, i) ==> is_digit(#[trigger] s[t]),
    decreases s.len() - i,
{
    if i < s.len() && is_digit(s[i]) {
        lemma_digit_run(s, i + 1);
    }
}

pub fn parse_number_e(s: &[u8], i: usize) -> (r: Option<(Number, usize)>)
    requires
        i <= s@.len(),
    ensures
        match r {
            Some((n, j)) => parse_number(s@, i as int) == Some((n, j as int)) && i <= j <= s@.len(),
            None => parse_number(s@, i as int) is None,
        },
{
    let len = s.len();
    let (neg, i1): (bool, usize) = if i < len && s[i] == 0x2D {
        (true, i + 1)
    } else {
        (false, i)
    };
    let j = digit_run_e(s, i1);
    if j == i1 {
        return None;
    }
    proof {
        lemma_digit_run(s@, i1 as int);
    }
    let (iv, iv_ovf) = digits_value_e(s, i1, j);
    if j < len && s[j] == 0x2E {
        let k = digit_run_e(s, j + 1);
        if k == j + 1 {
            return None;
        }
        proof {
            lemma_digit_run(s@, j as int + 1);
        }
        let (fv, fv_ovf) = digits_value_e(s, j + 1, k);
        let sc = k - (j + 1);
        if sc < 1 || sc > 18 {
            proof {
                lemma_pow10_pos((k - (j + 1)) as nat);
            }
            return None;
        }
        if iv_ovf || fv_ovf {
            proof {
                let scn = (k - (j + 1)) as nat;
                lemma_pow10_pos(scn);
                let ivs = digits_value(s@, i1 as int, j as int);
                let fvs = digits_value(s@, j as int + 1, k as int);
                assert(ivs * pow10(scn) >= ivs * 1) by (nonlinear_arith)
                    requires
                        pow10(scn) >= 1,
                        ivs >= 0,
                ;
            }
            return None;
        }
        let p = pow10_u64(sc as u64);
        proof {
            lemma_pow10_pos((k - (j + 1)) as nat);
        }
        let max: u64 = 0xFFFF_FFFF_FFFF_FFFF;
        if iv > max / p {
            proof {
                let ivs = iv as int;
                let pn = p as int;
                let mx = max as int;
                vstd::arithmetic::div_mod::lemma_fundamental_div_mod(mx, pn);
                vstd::arithmetic::div_mod::lemma_mod_division_less_than_divisor(mx, pn);
                assert(ivs * pn > mx) by (nonlinear_arith)
                    requires
                        pn >= 1,
                        ivs > mx / pn,
                        mx == pn * (mx / pn) + mx % pn,
                        mx % pn < pn,
                ;
            }
            return None;
        }
        proof {
            let ivs = iv as int;
            let pn = p as int;
            let mx = max as int;
            vstd::arithmetic::div_mod::lemma_fundamental_div_mod(mx, pn);
            vstd::arithmetic::div_mod::lemma_mod_division_less_than_divisor(mx, pn);
            assert(ivs * pn <= mx) by (nonlinear_arith)
                requires
                    pn >= 1,
                    ivs >= 0,
                    ivs <= mx / pn,
                    mx == pn * (mx / pn) + mx % pn,
                    mx % pn >= 0,
            ;
        }
        let t = iv * p;
        if fv > max - t {
            return None;
        }
        let m = t + fv;
        Some((Number::Dec(Decimal { neg, mantissa: m, scale: sc as u64 }), k))
    } else {
        if neg {
            if iv_ovf || iv > 0x8000_0000_0000_0000 {
                return None;
            }
            let v: i64 = if iv == 0x8000_0000_0000_0000 {
                i64::MIN
            } else {
                -(iv as i64)
            };
            assert(v as int == (0 - digits_value(s@, i1 as int, j as int)) as i64 as int);
            Some((Number::Int(v), j))
        } else {
            if iv_ovf || iv > 0x7FFF_FFFF_FFFF_FFFF {
                return None;
            }
            Some((Number::Int(iv as i64), j))
        }
    }
}

/// The end of the digit run starting at `i`, executable.
fn digit_run_e(s: &[u8], i: usize) -> (r: usize)
    requires
        i <= s@.len(),
    ensures
        r as int == digit_run_end(s@, i as int),
        i <= r <= s@.len(),
{
    let len = s.len();
    let mut r = i;
    while r < len && is_digit_e(s[r])
        invariant
            i <= r <= len,
            len == s@.len(),
            digit_run_end(s@, i as int) == digit_run_end(s@, r as int),
        decreases len - r,
    {
        r = r + 1;
    }
    r
}

/// The value of the digits in `s[i..j)`, with an overflow flag: either
/// the exact value, or the report that it exceeds the width.
fn digits_value_e(s: &[u8], i: usize, j: usize) -> (r: (u64, bool))
    requires
        i <= j <= s@.len(),
        forall|t: int| i <= t < j ==> is_digit(#[trigger] s@[t]),
    ensures
        !r.1 ==> r.0 as nat == digits_value(s@, i as int, j as int),
        r.1 ==> digits_value(s@, i as int, j as int) > 0xFFFF_FFFF_FFFF_FFFF,
{
    let max: u64 = 0xFFFF_FFFF_FFFF_FFFF;
    let mut acc: u64 = 0;
    let mut ovf = false;
    let mut k = i;
    while k < j
        invariant
            i <= k <= j <= s@.len(),
            forall|t: int| i <= t < j ==> is_digit(#[trigger] s@[t]),
            max == 0xFFFF_FFFF_FFFF_FFFF,
            !ovf ==> acc as nat == digits_value(s@, i as int, k as int),
            ovf ==> digits_value(s@, i as int, k as int) > max,
        decreases j - k,
    {
        let d = s[k] - 0x30;
        proof {
            assert(is_digit(s@[k as int]));
            assert(digits_value(s@, i as int, k as int + 1) == digits_value(s@, i as int, k as int)
                * 10 + (s@[k as int] - 0x30) as nat);
        }
        if !ovf {
            if acc > (max - d as u64) / 10 {
                proof {
                    let a = acc as nat;
                    let dd = d as nat;
                    let mx = max as nat;
                    assert(a * 10 + dd > mx) by (nonlinear_arith)
                        requires
                            a > (mx - dd) / 10,
                            dd <= mx,
                            (mx - dd) == ((mx - dd) / 10) * 10 + (mx - dd) % 10,
                            (mx - dd) % 10 < 10,
                    ;
                }
                ovf = true;
            } else {
                proof {
                    let a = acc as nat;
                    let dd = d as nat;
                    let mx = max as nat;
                    assert(a * 10 + dd <= mx) by (nonlinear_arith)
                        requires
                            a <= (mx - dd) / 10,
                            (mx - dd) == ((mx - dd) / 10) * 10 + (mx - dd) % 10,
                    ;
                }
                acc = acc * 10 + d as u64;
            }
        } else {
            proof {
                let vv = digits_value(s@, i as int, k as int);
                let dd = (s@[k as int] - 0x30) as nat;
                assert(vv * 10 + dd > max as nat) by (nonlinear_arith)
                    requires
                        vv > max as nat,
                        dd >= 0,
                ;
            }
        }
        k = k + 1;
    }
    (acc, ovf)
}

fn hex_val_e(b: u8) -> (r: Option<u8>)
    ensures
        match r {
            Some(v) => hex_val(b) == Some(v as nat) && v < 16,
            None => hex_val(b) is None,
        },
{
    if 0x30 <= b && b <= 0x39 {
        Some(b - 0x30)
    } else if 0x61 <= b && b <= 0x66 {
        Some(b - 0x61 + 10)
    } else if 0x41 <= b && b <= 0x46 {
        Some(b - 0x41 + 10)
    } else {
        None
    }
}

/// The body of a string, executable.
fn parse_text_body_e(s: &[u8], i: usize) -> (r: Option<(Vec<u8>, usize)>)
    requires
        i <= s@.len(),
    ensures
        match r {
            Some((t, j)) => parse_text_body(s@, i as int) == Some((t@, j as int)) && i <= j
                <= s@.len(),
            None => parse_text_body(s@, i as int) is None,
        },
    decreases s@.len() - i,
{
    let len = s.len();
    if i >= len {
        return None;
    }
    let b = s[i];
    if b == 0x22 {
        let t: Vec<u8> = Vec::new();
        assert(t@ =~= Seq::<u8>::empty());
        return Some((t, i + 1));
    }
    if b == 0x5C {
        if i + 1 >= len {
            return None;
        }
        let e = s[i + 1];
        if e == 0x75 {
            if len - (i + 1) < 5 {
                return None;
            }
            let h0 = hex_val_e(s[i + 2]);
            let h1 = hex_val_e(s[i + 3]);
            let h2 = hex_val_e(s[i + 4]);
            let h3 = hex_val_e(s[i + 5]);
            match (h0, h1, h2, h3) {
                (Some(a), Some(bb), Some(c), Some(d)) => {
                    let v: u64 = a as u64 * 0x1000 + bb as u64 * 0x100 + c as u64 * 0x10
                        + d as u64;
                    assert(hex_val4(s@, i as int + 2) == Some(v as nat));
                    if v > 0x7F {
                        return None;
                    }
                    match parse_text_body_e(s, i + 6) {
                        Some((mut t, j)) => {
                            let ghost t0 = t@;
                            t.insert(0, v as u8);
                            proof {
                                assert(t@ =~= seq![v as u8] + t0);
                            }
                            Some((t, j))
                        },
                        None => None,
                    }
                },
                _ => {
                    assert(hex_val4(s@, i as int + 2) is None);
                    None
                },
            }
        } else {
            let c = match e {
                0x22 => Some(0x22u8),
                0x5C => Some(0x5Cu8),
                0x2F => Some(0x2Fu8),
                0x62 => Some(0x08u8),
                0x66 => Some(0x0Cu8),
                0x6E => Some(0x0Au8),
                0x72 => Some(0x0Du8),
                0x74 => Some(0x09u8),
                _ => None,
            };
            match c {
                Some(cb) => {
                    assert(unescape(e) == Some(cb));
                    match parse_text_body_e(s, i + 2) {
                        Some((mut t, j)) => {
                            let ghost t0 = t@;
                            t.insert(0, cb);
                            proof {
                                assert(t@ =~= seq![cb] + t0);
                            }
                            Some((t, j))
                        },
                        None => None,
                    }
                },
                None => {
                    assert(unescape(e) is None);
                    None
                },
            }
        }
    } else {
        match parse_text_body_e(s, i + 1) {
            Some((mut t, j)) => {
                let ghost t0 = t@;
                t.insert(0, b);
                proof {
                    assert(t@ =~= seq![b] + t0);
                }
                Some((t, j))
            },
            None => None,
        }
    }
}

/// A string read at `i`, executable.
fn parse_text_e(s: &[u8], i: usize) -> (r: Option<(Vec<u8>, usize)>)
    requires
        i <= s@.len(),
    ensures
        match r {
            Some((t, j)) => parse_text(s@, i as int) == Some((t@, j as int)) && i < j <= s@.len(),
            None => parse_text(s@, i as int) is None,
        },
{
    if i < s.len() && s[i] == 0x22 {
        parse_text_body_e(s, i + 1)
    } else {
        None
    }
}

/// String list elements, executable.
fn parse_text_items_e(s: &[u8], i: usize) -> (r: Option<(Vec<Vec<u8>>, usize)>)
    requires
        i <= s@.len(),
    ensures
        match r {
            Some((ts, j)) => parse_text_items(s@, i as int) == Some(
                (ts@.map_values(|x: Vec<u8>| x@), j as int),
            ) && i <= j <= s@.len(),
            None => parse_text_items(s@, i as int) is None,
        },
    decreases s@.len() - i,
{
    let len = s.len();
    match parse_text_e(s, i) {
        Some((t, j)) => {
            let k = skip_ws_e(s, j);
            if k < len && s[k] == 0x5D {
                let mut ts: Vec<Vec<u8>> = Vec::new();
                let ghost tv = t@;
                ts.push(t);
                proof {
                    assert(ts@.map_values(|x: Vec<u8>| x@) =~= seq![tv]);
                }
                Some((ts, k + 1))
            } else if k < len && s[k] == 0x2C {
                let k2 = skip_ws_e(s, k + 1);
                if k2 <= i {
                    return None;
                }
                match parse_text_items_e(s, k2) {
                    Some((mut ts, j2)) => {
                        let ghost tsv = ts@;
                        let ghost tv = t@;
                        ts.insert(0, t);
                        proof {
                            assert(ts@.map_values(|x: Vec<u8>| x@) =~= seq![tv]
                                + tsv.map_values(|x: Vec<u8>| x@));
                        }
                        Some((ts, j2))
                    },
                    None => None,
                }
            } else {
                None
            }
        },
        None => None,
    }
}

/// Number list elements, executable.
fn parse_num_items_e(s: &[u8], i: usize) -> (r: Option<(Vec<Number>, usize)>)
    requires
        i <= s@.len(),
    ensures
        match r {
            Some((ns, j)) => parse_num_items(s@, i as int) == Some((ns@, j as int)) && i <= j
                <= s@.len(),
            None => parse_num_items(s@, i as int) is None,
        },
    decreases s@.len() - i,
{
    let len = s.len();
    match parse_number_e(s, i) {
        Some((n, j)) => {
            let k = skip_ws_e(s, j);
            if k < len && s[k] == 0x5D {
                let mut ns: Vec<Number> = Vec::new();
                ns.push(n);
                proof {
                    assert(ns@ =~= seq![n]);
                }
                Some((ns, k + 1))
            } else if k < len && s[k] == 0x2C {
                let k2 = skip_ws_e(s, k + 1);
                if k2 <= i {
                    return None;
                }
                match parse_num_items_e(s, k2) {
                    Some((mut ns, j2)) => {
                        let ghost nsv = ns@;
                        ns.insert(0, n);
                        proof {
                            assert(ns@ =~= seq![n] + nsv);
                        }
                        Some((ns, j2))
                    },
                    None => None,
                }
            } else {
                None
            }
        },
        None => None,
    }
}

/// A two-integer pair, executable.
fn parse_pair_e(s: &[u8], i: usize) -> (r: Option<((i64, i64), usize)>)
    requires
        i <= s@.len(),
    ensures
        match r {
            Some((p, j)) => parse_pair(s@, i as int) == Some((p, j as int)) && i <= j <= s@.len(),
            None => parse_pair(s@, i as int) is None,
        },
{
    let len = s.len();
    if !(i < len && s[i] == 0x5B) {
        return None;
    }
    let w1 = skip_ws_e(s, i + 1);
    match parse_number_e(s, w1) {
        Some((Number::Int(a), j)) => {
            let k = skip_ws_e(s, j);
            if !(k < len && s[k] == 0x2C) {
                return None;
            }
            let w2 = skip_ws_e(s, k + 1);
            match parse_number_e(s, w2) {
                Some((Number::Int(b), j2)) => {
                    let k2 = skip_ws_e(s, j2);
                    if k2 < len && s[k2] == 0x5D {
                        Some(((a, b), k2 + 1))
                    } else {
                        None
                    }
                },
                Some((Number::Dec(_), _)) => None,
                None => None,
            }
        },
        Some((Number::Dec(_), _)) => None,
        None => None,
    }
}

/// Integer pair list elements, executable.
fn parse_pair_items_e(s: &[u8], i: usize) -> (r: Option<(Vec<(i64, i64)>, usize)>)
    requires
        i <= s@.len(),
    ensures
        match r {
            Some((ps, j)) => parse_pair_items(s@, i as int) == Some((ps@, j as int)) && i <= j
                <= s@.len(),
            None => parse_pair_items(s@, i as int) is None,
        },
    decreases s@.len() - i,
{
    let len = s.len();
    match parse_pair_e(s, i) {
        Some((p, j)) => {
            let k = skip_ws_e(s, j);
            if k < len && s[k] == 0x5D {
                let mut ps: Vec<(i64, i64)> = Vec::new();
                ps.push(p);
                proof {
                    assert(ps@ =~= seq![p]);
                }
                Some((ps, k + 1))
            } else if k < len && s[k] == 0x2C {
                let k2 = skip_ws_e(s, k + 1);
                if k2 <= i {
                    return None;
                }
                match parse_pair_items_e(s, k2) {
                    Some((mut ps, j2)) => {
                        let ghost psv = ps@;
                        ps.insert(0, p);
                        proof {
                            assert(ps@ =~= seq![p] + psv);
                        }
                        Some((ps, j2))
                    },
                    None => None,
                }
            } else {
                None
            }
        },
        None => None,
    }
}

/// A list read at `i`, executable.
fn parse_list_e(s: &[u8], i: usize) -> (r: Option<(JsonValue, usize)>)
    requires
        i <= s@.len(),
    ensures
        match r {
            Some((v, j)) => parse_list(s@, i as int) == Some((v@, j as int)) && i <= j <= s@.len(),
            None => parse_list(s@, i as int) is None,
        },
{
    let len = s.len();
    if !(i < len && s[i] == 0x5B) {
        return None;
    }
    let j = skip_ws_e(s, i + 1);
    if !(j < len) {
        return None;
    }
    let b = s[j];
    if b == 0x5D {
        let ts: Vec<Vec<u8>> = Vec::new();
        proof {
            assert(ts@.map_values(|x: Vec<u8>| x@) =~= Seq::<Seq<u8>>::empty());
        }
        Some((JsonValue::TextList(ts), j + 1))
    } else if b == 0x22 {
        match parse_text_items_e(s, j) {
            Some((ts, j2)) => Some((JsonValue::TextList(ts), j2)),
            None => None,
        }
    } else if b == 0x5B {
        match parse_pair_items_e(s, j) {
            Some((ps, j2)) => Some((JsonValue::PairList(ps), j2)),
            None => None,
        }
    } else if b == 0x2D || is_digit_e(b) {
        match parse_num_items_e(s, j) {
            Some((ns, j2)) => Some((JsonValue::NumList(ns), j2)),
            None => None,
        }
    } else {
        None
    }
}

/// A value read at `i`, executable.
fn parse_value_e(s: &[u8], i: usize) -> (r: Option<(JsonValue, usize)>)
    requires
        i <= s@.len(),
    ensures
        match r {
            Some((v, j)) => parse_value(s@, i as int) == Some((v@, j as int)) && i <= j <= s@.len(),
            None => parse_value(s@, i as int) is None,
        },
{
    let len = s.len();
    let i0 = skip_ws_e(s, i);
    if !(i0 < len) {
        return None;
    }
    let b = s[i0];
    if b == 0x74 {
        if len - i0 >= 4 && s[i0 + 1] == 0x72 && s[i0 + 2] == 0x75 && s[i0 + 3] == 0x65 {
            Some((JsonValue::Bool(true), i0 + 4))
        } else {
            None
        }
    } else if b == 0x66 {
        if len - i0 >= 5 && s[i0 + 1] == 0x61 && s[i0 + 2] == 0x6C && s[i0 + 3] == 0x73 && s[i0 + 4]
            == 0x65 {
            Some((JsonValue::Bool(false), i0 + 5))
        } else {
            None
        }
    } else if b == 0x22 {
        match parse_text_e(s, i0) {
            Some((t, j)) => Some((JsonValue::Text(t), j)),
            None => None,
        }
    } else if b == 0x7B {
        let j = skip_ws_e(s, i0 + 1);
        if j < len && s[j] == 0x7D {
            Some((JsonValue::EmptyMap, j + 1))
        } else {
            None
        }
    } else if b == 0x5B {
        parse_list_e(s, i0)
    } else if b == 0x2D || is_digit_e(b) {
        match parse_number_e(s, i0) {
            Some((n, j)) => Some((JsonValue::Num(n), j)),
            None => None,
        }
    } else {
        None
    }
}

/// Record members, executable.
fn parse_members_e(s: &[u8], i: usize) -> (r: Option<(Vec<Field>, usize)>)
    requires
        i <= s@.len(),
    ensures
        match r {
            Some((fs, j)) => parse_members(s@, i as int) == Some((fields_view(fs@), j as int)) && i
                <= j <= s@.len(),
            None => parse_members(s@, i as int) is None,
        },
    decreases s@.len() - i,
{
    let len = s.len();
    match parse_text_e(s, i) {
        Some((key, j)) => {
            let k = skip_ws_e(s, j);
            if !(k < len && s[k] == 0x3A) {
                return None;
            }
            match parse_value_e(s, k + 1) {
                Some((v, j2)) => {
                    let k2 = skip_ws_e(s, j2);
                    if k2 < len && s[k2] == 0x7D {
                        let ghost kv = key@;
                        let ghost vv = v@;
                        let mut fs: Vec<Field> = Vec::new();
                        fs.push(Field { name: key, value: v });
                        proof {
                            assert(fields_view(fs@) =~= seq![(kv, vv)]);
                        }
                        Some((fs, k2 + 1))
                    } else if k2 < len && s[k2] == 0x2C {
                        let k3 = skip_ws_e(s, k2 + 1);
                        if k3 <= i {
                            return None;
                        }
                        match parse_members_e(s, k3) {
                            Some((mut fs, j3)) => {
                                let ghost fsv = fs@;
                                let ghost kv = key@;
                                let ghost vv = v@;
                                fs.insert(0, Field { name: key, value: v });
                                proof {
                                    assert(fields_view(fs@) =~= seq![(kv, vv)] + fields_view(fsv));
                                }
                                Some((fs, j3))
                            },
                            None => None,
                        }
                    } else {
                        None
                    }
                },
                None => None,
            }
        },
        None => None,
    }
}

/// A whole JSON record document, executable: one object with nothing but
/// whitespace around it.
pub fn parse_document_e(s: &[u8]) -> (r: Option<Vec<Field>>)
    ensures
        match r {
            Some(fs) => parse_document(s@) == Some(fields_view(fs@)),
            None => parse_document(s@) is None,
        },
{
    let len = s.len();
    let i0 = skip_ws_e(s, 0);
    if !(i0 < len && s[i0] == 0x7B) {
        return None;
    }
    let j = skip_ws_e(s, i0 + 1);
    if j < len && s[j] == 0x7D {
        if skip_ws_e(s, j + 1) == len {
            let fs: Vec<Field> = Vec::new();
            proof {
                assert(fields_view(fs@) =~= Seq::<(Seq<u8>, ValueModel)>::empty());
            }
            Some(fs)
        } else {
            None
        }
    } else {
        match parse_members_e(s, j) {
            Some((fs, j2)) => {
                if skip_ws_e(s, j2) == len {
                    Some(fs)
                } else {
                    None
                }
            },
            None => None,
        }
    }
}

} // verus!
