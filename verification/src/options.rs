//! The configuration record exchanged with the native toolkit: an
//! optional-field collection of named rendering and layout options.
//!
//! A field absent from the record means "use the native default"; only
//! explicitly set options are serialized, as a flat JSON object. The
//! record is a mapping from option name to value rather than a rigid
//! structure, so the schema follows the native option set as it evolves.

use vstd::prelude::*;
use crate::MarshalError;
use crate::json::{
    Field, JsonValue, ValueModel, RecordModel, fields_view, option_value, option_record,
    render_record, render_member, parse_document, parse_document_e, push_text, push_value,
    lemma_join_push, join_items, Number,
};
use crate::roundtrip::lemma_record_roundtrip;

verus! {

/// The marker for the option that carries an empty JSON object as its
/// value: a per-movement transposition table with no entries.
#[derive(Clone, Copy, Debug, PartialEq, Eq)]
pub struct TransposeMDiv {}

impl TransposeMDiv {
    /// The JSON value this marker serializes as: the empty object.
    pub fn as_value(&self) -> (r: JsonValue)
        ensures
            r@ == ValueModel::EmptyMap,
    {
        JsonValue::EmptyMap
    }
}

/// No two fields of the record share a name.
pub open spec fn keys_unique(m: RecordModel) -> bool {
    forall|i: int, j: int| 0 <= i < j < m.len() ==> (#[trigger] m[i]).0 != (#[trigger] m[j]).0
}

/// A well-formed configuration record: unique names, option-shaped
/// values.
pub open spec fn opts_wf(m: RecordModel) -> bool {
    keys_unique(m) && option_record(m)
}

/// The value of the field named `k`, if one is set.
pub open spec fn spec_get(m: RecordModel, k: Seq<u8>) -> Option<ValueModel>
    decreases m.len(),
{
    if m.len() == 0 {
        None
    } else if m[0].0 == k {
        Some(m[0].1)
    } else {
        spec_get(m.subrange(1, m.len() as int), k)
    }
}

/// The record after setting `k` to `v`: the field replaced in place if
/// the name is present, appended otherwise.
pub open spec fn spec_set(m: RecordModel, k: Seq<u8>, v: ValueModel) -> RecordModel
    decreases m.len(),
{
    if m.len() == 0 {
        seq![(k, v)]
    } else if m[0].0 == k {
        seq![(k, v)] + m.subrange(1, m.len() as int)
    } else {
        seq![m[0]] + spec_set(m.subrange(1, m.len() as int), k, v)
    }
}

/// When the name is already set, setting replaces that field in place.
proof fn lemma_spec_set_found(m: RecordModel, k: Seq<u8>, v: ValueModel, i: int)
    requires
        0 <= i < m.len(),
        m[i].0 == k,
        forall|t: int| 0 <= t < i ==> (#[trigger] m[t]).0 != k,
    ensures
        spec_set(m, k, v) == m.update(i, (k, v)),
    decreases i,
{
    let rest = m.subrange(1, m.len() as int);
    if i == 0 {
        assert(seq![(k, v)] + rest =~= m.update(0, (k, v)));
    } else {
        assert(m[0].0 != k);
        assert(forall|t: int| 0 <= t < i - 1 ==> (#[trigger] rest[t]).0 != k) by {
            assert(forall|t: int| 0 <= t < i - 1 ==> rest[t] == #[trigger] m[t + 1]);
        }
        assert(rest[i - 1] == m[i]);
        lemma_spec_set_found(rest, k, v, i - 1);
        assert(seq![m[0]] + rest.update(i - 1, (k, v)) =~= m.update(i, (k, v)));
    }
}

/// When the name is absent, setting appends the field.
proof fn lemma_spec_set_absent(m: RecordModel, k: Seq<u8>, v: ValueModel)
    requires
        forall|t: int| 0 <= t < m.len() ==> (#[trigger] m[t]).0 != k,
    ensures
        spec_set(m, k, v) == m.push((k, v)),
    decreases m.len(),
{
    if m.len() == 0 {
        assert(seq![(k, v)] =~= m.push((k, v)));
    } else {
        let rest = m.subrange(1, m.len() as int);
        assert(m[0].0 != k);
        assert(forall|t: int| 0 <= t < rest.len() ==> (#[trigger] rest[t]).0 != k) by {
            assert(forall|t: int| 0 <= t < rest.len() ==> rest[t] == #[trigger] m[t + 1]);
        }
        lemma_spec_set_absent(rest, k, v);
        assert(seq![m[0]] + rest.push((k, v)) =~= m.push((k, v)));
    }
}

/// Setting keeps the record well formed, and the name then reads back
/// as the value just set.
pub proof fn lemma_set_get(m: RecordModel, k: Seq<u8>, v: ValueModel)
    requires
        opts_wf(m),
        option_value(v),
    ensures
        opts_wf(spec_set(m, k, v)),
        spec_get(spec_set(m, k, v), k) == Some(v),
    decreases m.len(),
{
    let m1 = spec_set(m, k, v);
    let rest = m.subrange(1, m.len() as int);
    if m.len() == 0 {
        assert(m1 =~= seq![(k, v)]);
        assert(option_value(m1[0].1));
        assert(option_record(m1)) by {
            assert(forall|t: int| 0 <= t < m1.len() ==> option_value((#[trigger] m1[t]).1));
        }
    } else {
        assert(opts_wf(rest)) by {
            assert(forall|t: int| 0 <= t < rest.len() ==> rest[t] == #[trigger] m[t + 1]);
            assert(forall|a: int, b: int| 0 <= a < b < rest.len() ==> (#[trigger] rest[a]).0
                != (#[trigger] rest[b]).0) by {
                assert(forall|t: int| 0 <= t < rest.len() ==> rest[t] == #[trigger] m[t + 1]);
            }
            assert(forall|t: int| 0 <= t < rest.len() ==> option_value((#[trigger] rest[t]).1))
                by {
                assert(forall|t: int| 0 <= t < rest.len() ==> rest[t] == #[trigger] m[t + 1]);
            }
        }
        if m[0].0 == k {
            assert(m1 == seq![(k, v)] + rest);
            assert(m1[0] == (k, v));
            assert(forall|t: int| 1 <= t < m1.len() ==> #[trigger] m1[t] == rest[t - 1]);
            assert(forall|t: int| 1 <= t < m1.len() ==> (#[trigger] m1[t]).0 != k) by {
                assert(forall|t: int| 1 <= t < m1.len() ==> #[trigger] m1[t] == rest[t - 1]
                    && rest[t - 1] == m[t]);
                assert(forall|t: int| 1 <= t < m.len() ==> (#[trigger] m[t]).0 != m[0].0);
            }
            assert(keys_unique(m1)) by {
                assert(forall|a: int, b: int| 1 <= a < b < m1.len() ==> (#[trigger] m1[a]).0
                    != (#[trigger] m1[b]).0) by {
                    assert(forall|t: int| 1 <= t < m1.len() ==> #[trigger] m1[t] == rest[t - 1]
                        && rest[t - 1] == m[t]);
                }
            }
            assert(option_record(m1)) by {
                assert(forall|t: int| 1 <= t < m1.len() ==> #[trigger] m1[t] == m[t]);
            }
            assert(m1.subrange(1, m1.len() as int) =~= rest);
        } else {
            lemma_set_get(rest, k, v);
            let r1 = spec_set(rest, k, v);
            assert(m1 == seq![m[0]] + r1);
            assert(m1[0] == m[0]);
            assert(forall|t: int| 1 <= t < m1.len() ==> #[trigger] m1[t] == r1[t - 1]);
            assert(m1.subrange(1, m1.len() as int) =~= r1);
            // every name of r1 is a name of rest or is k, and neither
            // equals the head's name
            assert(forall|t: int| 0 <= t < r1.len() ==> (#[trigger] r1[t]).0 == k || (exists|u: int|
                0 <= u < rest.len() && #[trigger] rest[u] == r1[t])) by {
                lemma_set_names(rest, k, v);
            }
            assert(keys_unique(m1)) by {
                assert(forall|b: int| 1 <= b < m1.len() ==> m1[0].0 != (#[trigger] m1[b]).0) by {
                    assert forall|b: int| 1 <= b < m1.len() implies m1[0].0 != (
                    #[trigger] m1[b]).0 by {
                        let t = b - 1;
                        assert(r1[t].0 == k || (exists|u: int| 0 <= u < rest.len()
                            && #[trigger] rest[u] == r1[t]));
                        if r1[t].0 == k {
                        } else {
                            let u = choose|u: int| 0 <= u < rest.len() && #[trigger] rest[u]
                                == r1[t];
                            assert(rest[u] == m[u + 1]);
                            assert(m[0].0 != m[u + 1].0);
                        }
                    }
                }
                assert(forall|a: int, b: int| 1 <= a < b < m1.len() ==> (#[trigger] m1[a]).0
                    != (#[trigger] m1[b]).0) by {
                    assert(forall|t: int| 1 <= t < m1.len() ==> #[trigger] m1[t] == r1[t - 1]);
                }
            }
            assert(option_record(m1)) by {
                assert(forall|t: int| 1 <= t < m1.len() ==> #[trigger] m1[t] == r1[t - 1]);
                assert(option_value(m1[0].1));
            }
        }
    }
}

/// Every field after a set is the new field or one of the old fields.
proof fn lemma_set_names(m: RecordModel, k: Seq<u8>, v: ValueModel)
    ensures
        forall|t: int|
            0 <= t < spec_set(m, k, v).len() ==> (#[trigger] spec_set(m, k, v)[t]).0 == k || (
            exists|u: int| 0 <= u < m.len() && #[trigger] m[u] == spec_set(m, k, v)[t]),
    decreases m.len(),
{
    let m1 = spec_set(m, k, v);
    let rest = m.subrange(1, m.len() as int);
    if m.len() == 0 {
    } else if m[0].0 == k {
        assert forall|t: int| 0 <= t < m1.len() implies (#[trigger] m1[t]).0 == k || (exists|u: int|
            0 <= u < m.len() && #[trigger] m[u] == m1[t]) by {
            if t > 0 {
                assert(m1[t] == rest[t - 1]);
                assert(m[t] == m1[t]);
            }
        }
    } else {
        lemma_set_names(rest, k, v);
        let r1 = spec_set(rest, k, v);
        assert forall|t: int| 0 <= t < m1.len() implies (#[trigger] m1[t]).0 == k || (exists|u: int|
            0 <= u < m.len() && #[trigger] m[u] == m1[t]) by {
            if t == 0 {
                assert(m1[0] == m[0]);
            } else {
                assert(m1[t] == r1[t - 1]);
                if r1[t - 1].0 == k {
                } else {
                    let u = choose|u: int| 0 <= u < rest.len() && #[trigger] rest[u] == r1[t - 1];
                    assert(m[u + 1] == m1[t]);
                }
            }
        }
    }
}

/// What a JSON document yields as a configuration record: the parsed
/// fields, provided the names are unique and every value has an option
/// shape.
pub open spec fn spec_from_json(s: Seq<u8>) -> Option<RecordModel> {
    match parse_document(s) {
        Some(m) => if opts_wf(m) {
            Some(m)
        } else {
            None
        },
        None => None,
    }
}

/// The configuration record: named options, each set at most once, in
/// the order they were set.
#[derive(Clone, Debug, PartialEq, Eq)]
pub struct AllOptions {
    entries: Vec<Field>,
}

impl View for AllOptions {
    type V = RecordModel;

    closed spec fn view(&self) -> RecordModel {
        fields_view(self.entries@)
    }
}

/// Two byte strings are equal.
pub fn bytes_eq(a: &[u8], b: &[u8]) -> (r: bool)
    ensures
        r == (a@ == b@),
{
    if a.len() != b.len() {
        assert(a@ != b@) by {
            assert(a@.len() != b@.len());
        }
        return false;
    }
    let n = a.len();
    let mut i: usize = 0;
    while i < n
        invariant
            i <= n,
            n == a@.len() == b@.len(),
            forall|t: int| 0 <= t < i ==> a@[t] == b@[t],
        decreases n - i,
    {
        if a[i] != b[i] {
            return false;
        }
        i = i + 1;
    }
    proof {
        assert(a@ =~= b@);
    }
    true
}

impl AllOptions {
    /// An empty record: every option left to the native default.
    pub fn new() -> (r: AllOptions)
        ensures
            r@ == Seq::<(Seq<u8>, ValueModel)>::empty(),
            opts_wf(r@),
    {
        let r = AllOptions { entries: Vec::new() };
        proof {
            assert(r@ =~= Seq::<(Seq<u8>, ValueModel)>::empty());
        }
        r
    }

    /// The count of options set.
    pub fn len(&self) -> (r: usize)
        ensures
            r == self@.len(),
    {
        self.entries.len()
    }

    /// The value set under `key`, if any.
    pub fn get(&self, key: &[u8]) -> (r: Option<&JsonValue>)
        ensures
            match r {
                Some(v) => spec_get(self@, key@) == Some(v@),
                None => spec_get(self@, key@) is None,
            },
    {
        let ghost m = fields_view(self.entries@);
        let n = self.entries.len();
        let mut i: usize = 0;
        proof {
            assert(m.subrange(0, n as int) =~= m);
        }
        while i < n
            invariant
                i <= n,
                n == self.entries@.len(),
                m == fields_view(self.entries@),
                spec_get(m, key@) == spec_get(m.subrange(i as int, n as int), key@),
            decreases n - i,
        {
            proof {
                assert(m.subrange(i as int, n as int).subrange(
                    1,
                    m.subrange(i as int, n as int).len() as int,
                ) =~= m.subrange(i as int + 1, n as int));
                assert(m.subrange(i as int, n as int)[0] == m[i as int]);
            }
            if bytes_eq(self.entries[i].name.as_slice(), key) {
                return Some(&self.entries[i].value);
            }
            i = i + 1;
        }
        proof {
            assert(m.subrange(n as int, n as int) =~= Seq::<(Seq<u8>, ValueModel)>::empty());
        }
        None
    }

    /// Sets `key` to `value`: replaces the value in place if the option
    /// is already set, appends the option otherwise.
    #[verifier::loop_isolation(false)]
    pub fn set(&mut self, key: Vec<u8>, value: JsonValue)
        requires
            opts_wf(old(self)@),
            option_value(value@),
        ensures
            final(self)@ == spec_set(old(self)@, key@, value@),
            opts_wf(final(self)@),
            spec_get(final(self)@, key@) == Some(value@),
    {
        proof {
            lemma_set_get(self@, key@, value@);
        }
        let ghost m0 = fields_view(self.entries@);
        let n = self.entries.len();
        let mut i: usize = 0;
        while i < n
            invariant
                i <= n,
                n == self.entries@.len(),
                m0 == fields_view(self.entries@),
                forall|t: int| 0 <= t < i ==> (#[trigger] m0[t]).0 != key@,
            decreases n - i,
        {
            if bytes_eq(self.entries[i].name.as_slice(), key.as_slice()) {
                let ghost iv = i as int;
                let f = Field { name: key, value };
                let ghost fv = f@;
                proof {
                    assert(m0[iv].0 == fv.0);
                    lemma_spec_set_found(m0, fv.0, fv.1, iv);
                }
                self.entries.set(i, f);
                proof {
                    assert(fields_view(self.entries@) =~= m0.update(iv, fv));
                    assert((fv.0, fv.1) == fv);
                }
                return;
            }
            i = i + 1;
        }
        let f = Field { name: key, value };
        let ghost fv = f@;
        proof {
            lemma_spec_set_absent(m0, fv.0, fv.1);
        }
        self.entries.push(f);
        proof {
            assert(fields_view(self.entries@) =~= m0.push(fv));
            assert((fv.0, fv.1) == fv);
        }
    }

    /// Sets a yes/no option.
    pub fn set_bool(&mut self, key: Vec<u8>, value: bool)
        requires
            opts_wf(old(self)@),
        ensures
            final(self)@ == spec_set(old(self)@, key@, ValueModel::Bool(value)),
            opts_wf(final(self)@),
            spec_get(final(self)@, key@) == Some(ValueModel::Bool(value)),
    {
        self.set(key, JsonValue::Bool(value));
    }

    /// Sets a whole-number option.
    pub fn set_int(&mut self, key: Vec<u8>, value: i64)
        requires
            opts_wf(old(self)@),
        ensures
            final(self)@ == spec_set(old(self)@, key@, ValueModel::Num(Number::Int(value))),
            opts_wf(final(self)@),
            spec_get(final(self)@, key@) == Some(ValueModel::Num(Number::Int(value))),
    {
        self.set(key, JsonValue::Num(Number::Int(value)));
    }

    /// Sets a decimal option, kept exactly.
    pub fn set_decimal(&mut self, key: Vec<u8>, value: crate::json::Decimal)
        requires
            opts_wf(old(self)@),
            crate::json::dec_wf(value),
        ensures
            final(self)@ == spec_set(old(self)@, key@, ValueModel::Num(Number::Dec(value))),
            opts_wf(final(self)@),
            spec_get(final(self)@, key@) == Some(ValueModel::Num(Number::Dec(value))),
    {
        self.set(key, JsonValue::Num(Number::Dec(value)));
    }

    /// Sets a text option.
    pub fn set_text(&mut self, key: Vec<u8>, value: Vec<u8>)
        requires
            opts_wf(old(self)@),
        ensures
            final(self)@ == spec_set(old(self)@, key@, ValueModel::Text(value@)),
            opts_wf(final(self)@),
            spec_get(final(self)@, key@) == Some(ValueModel::Text(value@)),
    {
        self.set(key, JsonValue::Text(value));
    }

    /// Serializes the record as a JSON object holding exactly the set
    /// options, in order, and nothing else.
    pub fn to_json(&self) -> (r: Vec<u8>)
        requires
            option_record(self@),
        ensures
            r@ == render_record(self@),
    {
        let ghost m = fields_view(self.entries@);
        let ghost pieces = m.map_values(|p: (Seq<u8>, ValueModel)| render_member(p));
        let mut out: Vec<u8> = Vec::new();
        out.push(0x7B);
        let n = self.entries.len();
        let mut k: usize = 0;
        while k < n
            invariant
                k <= n,
                n == self.entries@.len(),
                m == fields_view(self.entries@),
                option_record(m),
                pieces == m.map_values(|p: (Seq<u8>, ValueModel)| render_member(p)),
                out@ == seq![0x7Bu8] + join_items(pieces.subrange(0, k as int)),
            decreases n - k,
        {
            if k > 0 {
                out.push(0x2C);
            }
            proof {
                assert(option_value((#[trigger] m[k as int]).1));
            }
            push_text(&mut out, self.entries[k].name.as_slice());
            out.push(0x3A);
            push_value(&mut out, &self.entries[k].value);
            proof {
                lemma_join_push(pieces.subrange(0, k as int), pieces[k as int]);
                assert(pieces.subrange(0, k as int).push(pieces[k as int]) =~= pieces.subrange(
                    0,
                    k as int + 1,
                ));
                assert(pieces[k as int] == render_member(m[k as int]));
                assert(out@ =~= seq![0x7Bu8] + join_items(pieces.subrange(0, k as int + 1)));
            }
            k = k + 1;
        }
        out.push(0x7D);
        proof {
            assert(pieces.subrange(0, n as int) =~= pieces);
            assert(out@ =~= render_record(m));
        }
        out
    }

    /// Reads a record back from JSON text: the parsed fields, provided
    /// the document is one flat object with unique names and
    /// option-shaped values; any other text is a `Json` failure.
    pub fn from_json(s: &[u8]) -> (r: Result<AllOptions, MarshalError>)
        ensures
            match r {
                Ok(o) => spec_from_json(s@) == Some(o@) && opts_wf(o@),
                Err(e) => spec_from_json(s@) is None && e == MarshalError::Json,
            },
    {
        let fs = match parse_document_e(s) {
            Some(fs) => fs,
            None => {
                return Err(MarshalError::Json);
            },
        };
        let ghost m = fields_view(fs@);
        let n = fs.len();
        // every value must have an option shape
        let mut k: usize = 0;
        while k < n
            invariant
                k <= n,
                n == fs@.len(),
                m == fields_view(fs@),
                parse_document(s@) == Some(m),
                forall|t: int| 0 <= t < k ==> option_value((#[trigger] m[t]).1),
            decreases n - k,
        {
            let ok = match &fs[k].value {
                JsonValue::Bool(_) => true,
                JsonValue::Num(Number::Int(_)) => true,
                JsonValue::Num(Number::Dec(d)) => 1 <= d.scale && d.scale <= 18,
                JsonValue::Text(_) => true,
                JsonValue::TextList(_) => true,
                JsonValue::NumList(_) => false,
                JsonValue::PairList(_) => false,
                JsonValue::EmptyMap => true,
            };
            if !ok {
                proof {
                    assert(!option_value(m[k as int].1));
                    assert(!option_record(m));
                }
                return Err(MarshalError::Json);
            }
            proof {
                assert(option_value(m[k as int].1));
            }
            k = k + 1;
        }
        proof {
            assert(option_record(m));
        }
        // names must be unique
        let mut i: usize = 0;
        while i < n
            invariant
                i <= n,
                n == fs@.len(),
                m == fields_view(fs@),
                parse_document(s@) == Some(m),
                option_record(m),
                forall|a: int, b: int| 0 <= a < b < n && a < i ==> (#[trigger] m[a]).0
                    != (#[trigger] m[b]).0,
            decreases n - i,
        {
            let mut j: usize = i + 1;
            while j < n
                invariant
                    i < j <= n,
                    n == fs@.len(),
                    m == fields_view(fs@),
                    parse_document(s@) == Some(m),
                    option_record(m),
                    forall|a: int, b: int| 0 <= a < b < n && a < i ==> (#[trigger] m[a]).0
                        != (#[trigger] m[b]).0,
                    forall|b: int| i < b < j ==> (#[trigger] m[b]).0 != m[i as int].0,
                decreases n - j,
            {
                if bytes_eq(fs[i].name.as_slice(), fs[j].name.as_slice()) {
                    proof {
                        assert(m[i as int].0 == m[j as int].0);
                        assert(!keys_unique(m));
                    }
                    return Err(MarshalError::Json);
                }
                j = j + 1;
            }
            i = i + 1;
        }
        proof {
            assert(keys_unique(m));
        }
        let o = AllOptions { entries: fs };
        proof {
            assert(o@ == m);
            assert(spec_from_json(s@) == Some(m));
        }
        Ok(o)
    }
}

/// The configuration round trip: a well-formed record, serialized and
/// read back, yields a record with exactly the fields that were set,
/// in order, each with its value unchanged.
pub proof fn lemma_options_roundtrip(m: RecordModel)
    requires
        opts_wf(m),
    ensures
        spec_from_json(render_record(m)) == Some(m),
{
    lemma_record_roundtrip(m);
}

} // verus!
