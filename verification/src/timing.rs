//! The element timing record: the score-time and real-time onset,
//! offset and duration of a notational element, parsed from the JSON
//! text the native toolkit reports.
//!
//! Score times are exact fractions, kept as integer pairs; real times
//! are milliseconds, kept as exact numbers rather than floating point.

use vstd::prelude::*;
use crate::MarshalError;
use crate::json::{
    JsonValue, ValueModel, RecordModel, fields_view, parse_document, parse_document_e, Number,
};

verus! {

/// The timing of one element: parallel lists of score-time fractions
/// (numerator, denominator) and real-time milliseconds, one entry per
/// note the element covers.
#[derive(Clone, Debug, PartialEq, Eq)]
pub struct ElementTime {
    pub score_time_onset: Vec<(i64, i64)>,
    pub score_time_offset: Vec<(i64, i64)>,
    pub score_time_duration: Vec<(i64, i64)>,
    pub score_time_tied_duration: Vec<(i64, i64)>,
    pub real_time_onset_milliseconds: Vec<Number>,
    pub real_time_offset_milliseconds: Vec<Number>,
}

/// The mathematical model of an `ElementTime`.
pub struct ElementTimeModel {
    pub score_time_onset: Seq<(i64, i64)>,
    pub score_time_offset: Seq<(i64, i64)>,
    pub score_time_duration: Seq<(i64, i64)>,
    pub score_time_tied_duration: Seq<(i64, i64)>,
    pub real_time_onset_milliseconds: Seq<Number>,
    pub real_time_offset_milliseconds: Seq<Number>,
}

impl View for ElementTime {
    type V = ElementTimeModel;

    open spec fn view(&self) -> ElementTimeModel {
        ElementTimeModel {
            score_time_onset: self.score_time_onset@,
            score_time_offset: self.score_time_offset@,
            score_time_duration: self.score_time_duration@,
            score_time_tied_duration: self.score_time_tied_duration@,
            real_time_onset_milliseconds: self.real_time_onset_milliseconds@,
            real_time_offset_milliseconds: self.real_time_offset_milliseconds@,
        }
    }
}

/// The empty timing record: every list empty, as for a field the native
/// layer did not report.
pub open spec fn et_empty() -> ElementTimeModel {
    ElementTimeModel {
        score_time_onset: Seq::empty(),
        score_time_offset: Seq::empty(),
        score_time_duration: Seq::empty(),
        score_time_tied_duration: Seq::empty(),
        real_time_onset_milliseconds: Seq::empty(),
        real_time_offset_milliseconds: Seq::empty(),
    }
}

// The field names the native layer uses, as byte strings.
pub open spec fn key_qfrac_on() -> Seq<u8> {
    seq![0x71u8, 0x66u8, 0x72u8, 0x61u8, 0x63u8, 0x4Fu8, 0x6Eu8]
}

pub open spec fn key_qfrac_off() -> Seq<u8> {
    seq![0x71u8, 0x66u8, 0x72u8, 0x61u8, 0x63u8, 0x4Fu8, 0x66u8, 0x66u8]
}

pub open spec fn key_qfrac_duration() -> Seq<u8> {
    seq![0x71u8, 0x66u8, 0x72u8, 0x61u8, 0x63u8, 0x44u8, 0x75u8, 0x72u8, 0x61u8, 0x74u8, 0x69u8,
        0x6Fu8, 0x6Eu8]
}

pub open spec fn key_qfrac_tied_duration() -> Seq<u8> {
    seq![0x71u8, 0x66u8, 0x72u8, 0x61u8, 0x63u8, 0x54u8, 0x69u8, 0x65u8, 0x64u8, 0x44u8, 0x75u8,
        0x72u8, 0x61u8, 0x74u8, 0x69u8, 0x6Fu8, 0x6Eu8]
}

pub open spec fn key_tstamp_on() -> Seq<u8> {
    seq![0x74u8, 0x73u8, 0x74u8, 0x61u8, 0x6Du8, 0x70u8, 0x4Fu8, 0x6Eu8]
}

pub open spec fn key_tstamp_off() -> Seq<u8> {
    seq![0x74u8, 0x73u8, 0x74u8, 0x61u8, 0x6Du8, 0x70u8, 0x4Fu8, 0x66u8, 0x66u8]
}

/// The integer pairs a value stands for: a pair list, or an empty list
/// of either reading.
pub open spec fn pairs_of(v: ValueModel) -> Option<Seq<(i64, i64)>> {
    match v {
        ValueModel::PairList(ps) => Some(ps),
        ValueModel::TextList(ts) => if ts.len() == 0 {
            Some(Seq::empty())
        } else {
            None
        },
        _ => None,
    }
}

/// The numbers a value stands for: a number list, or an empty list of
/// either reading.
pub open spec fn nums_of(v: ValueModel) -> Option<Seq<Number>> {
    match v {
        ValueModel::NumList(ns) => Some(ns),
        ValueModel::TextList(ts) => if ts.len() == 0 {
            Some(Seq::empty())
        } else {
            None
        },
        _ => None,
    }
}

/// One record field applied to the timing being built: a recognized
/// name takes the value (the last occurrence wins), an unrecognized
/// name is ignored, a recognized name with the wrong value shape fails.
pub open spec fn apply_field(acc: ElementTimeModel, k: Seq<u8>, v: ValueModel) -> Option<
    ElementTimeModel,
> {
    if k == key_qfrac_on() {
        match pairs_of(v) {
            Some(ps) => Some(ElementTimeModel { score_time_onset: ps, ..acc }),
            None => None,
        }
    } else if k == key_qfrac_off() {
        match pairs_of(v) {
            Some(ps) => Some(ElementTimeModel { score_time_offset: ps, ..acc }),
            None => None,
        }
    } else if k == key_qfrac_duration() {
        match pairs_of(v) {
            Some(ps) => Some(ElementTimeModel { score_time_duration: ps, ..acc }),
            None => None,
        }
    } else if k == key_qfrac_tied_duration() {
        match pairs_of(v) {
            Some(ps) => Some(ElementTimeModel { score_time_tied_duration: ps, ..acc }),
            None => None,
        }
    } else if k == key_tstamp_on() {
        match nums_of(v) {
            Some(ns) => Some(ElementTimeModel { real_time_onset_milliseconds: ns, ..acc }),
            None => None,
        }
    } else if k == key_tstamp_off() {
        match nums_of(v) {
            Some(ns) => Some(ElementTimeModel { real_time_offset_milliseconds: ns, ..acc }),
            None => None,
        }
    } else {
        Some(acc)
    }
}

/// The record folded into a timing, field by field, from the front.
pub open spec fn fold_fields(m: RecordModel, acc: ElementTimeModel) -> Option<ElementTimeModel>
    decreases m.len(),
{
    if m.len() == 0 {
        Some(acc)
    } else {
        match apply_field(acc, m[0].0, m[0].1) {
            Some(a2) => fold_fields(m.subrange(1, m.len() as int), a2),
            None => None,
        }
    }
}

/// What JSON text yields as a timing record.
pub open spec fn spec_parse_element_time(s: Seq<u8>) -> Option<ElementTimeModel> {
    match parse_document(s) {
        Some(m) => fold_fields(m, et_empty()),
        None => None,
    }
}

/// The integer pairs an exec value stands for.
fn as_pairs(v: JsonValue) -> (r: Result<Vec<(i64, i64)>, MarshalError>)
    ensures
        match r {
            Ok(ps) => pairs_of(v@) == Some(ps@),
            Err(e) => pairs_of(v@) is None && e == MarshalError::Json,
        },
{
    match v {
        JsonValue::PairList(ps) => Ok(ps),
        JsonValue::TextList(ts) => if ts.len() == 0 {
            let r: Vec<(i64, i64)> = Vec::new();
            proof {
                assert(r@ =~= Seq::<(i64, i64)>::empty());
            }
            Ok(r)
        } else {
            Err(MarshalError::Json)
        },
        _ => Err(MarshalError::Json),
    }
}

/// The numbers an exec value stands for.
fn as_nums(v: JsonValue) -> (r: Result<Vec<Number>, MarshalError>)
    ensures
        match r {
            Ok(ns) => nums_of(v@) == Some(ns@),
            Err(e) => nums_of(v@) is None && e == MarshalError::Json,
        },
{
    match v {
        JsonValue::NumList(ns) => Ok(ns),
        JsonValue::TextList(ts) => if ts.len() == 0 {
            let r: Vec<Number> = Vec::new();
            proof {
                assert(r@ =~= Seq::<Number>::empty());
            }
            Ok(r)
        } else {
            Err(MarshalError::Json)
        },
        _ => Err(MarshalError::Json),
    }
}

impl ElementTime {
    /// An empty timing record.
    pub fn new() -> (r: ElementTime)
        ensures
            r@ == et_empty(),
    {
        let r = ElementTime {
            score_time_onset: Vec::new(),
            score_time_offset: Vec::new(),
            score_time_duration: Vec::new(),
            score_time_tied_duration: Vec::new(),
            real_time_onset_milliseconds: Vec::new(),
            real_time_offset_milliseconds: Vec::new(),
        };
        proof {
            assert(r.score_time_onset@ =~= Seq::<(i64, i64)>::empty());
            assert(r.score_time_offset@ =~= Seq::<(i64, i64)>::empty());
            assert(r.score_time_duration@ =~= Seq::<(i64, i64)>::empty());
            assert(r.score_time_tied_duration@ =~= Seq::<(i64, i64)>::empty());
            assert(r.real_time_onset_milliseconds@ =~= Seq::<Number>::empty());
            assert(r.real_time_offset_milliseconds@ =~= Seq::<Number>::empty());
        }
        r
    }

    /// Parses the timing record the native layer reports: one flat JSON
    /// object; recognized fields take their value, unrecognized fields
    /// are ignored, a missing field leaves its list empty.
    #[verifier::loop_isolation(false)]
    pub fn from_json(s: &[u8]) -> (r: Result<ElementTime, MarshalError>)
        ensures
            match r {
                Ok(t) => spec_parse_element_time(s@) == Some(t@),
                Err(e) => spec_parse_element_time(s@) is None && e == MarshalError::Json,
            },
    {
        let mut fs = match parse_document_e(s) {
            Some(fs) => fs,
            None => {
                return Err(MarshalError::Json);
            },
        };
        let ghost m0 = fields_view(fs@);
        let mut t = ElementTime::new();
        let k_on = key_qfrac_on_e();
        let k_off = key_qfrac_off_e();
        let k_dur = key_qfrac_duration_e();
        let k_tied = key_qfrac_tied_duration_e();
        let k_ton = key_tstamp_on_e();
        let k_toff = key_tstamp_off_e();
        while fs.len() > 0
            invariant
                fold_fields(m0, et_empty()) == fold_fields(fields_view(fs@), t@),
            decreases fs@.len(),
        {
            let ghost mcur = fields_view(fs@);
            let ghost tcur = t@;
            let f = fs.remove(0);
            proof {
                assert(fields_view(fs@) =~= mcur.subrange(1, mcur.len() as int));
                assert(mcur[0] == (f.name@, f.value@));
            }
            let name = f.name;
            let value = f.value;
            if crate::options::bytes_eq(name.as_slice(), k_on.as_slice()) {
                match as_pairs(value) {
                    Ok(ps) => {
                        t.score_time_onset = ps;
                    },
                    Err(e) => {
                        return Err(e);
                    },
                }
            } else if crate::options::bytes_eq(name.as_slice(), k_off.as_slice()) {
                match as_pairs(value) {
                    Ok(ps) => {
                        t.score_time_offset = ps;
                    },
                    Err(e) => {
                        return Err(e);
                    },
                }
            } else if crate::options::bytes_eq(name.as_slice(), k_dur.as_slice()) {
                match as_pairs(value) {
                    Ok(ps) => {
                        t.score_time_duration = ps;
                    },
                    Err(e) => {
                        return Err(e);
                    },
                }
            } else if crate::options::bytes_eq(name.as_slice(), k_tied.as_slice()) {
                match as_pairs(value) {
                    Ok(ps) => {
                        t.score_time_tied_duration = ps;
                    },
                    Err(e) => {
                        return Err(e);
                    },
                }
            } else if crate::options::bytes_eq(name.as_slice(), k_ton.as_slice()) {
                match as_nums(value) {
                    Ok(ns) => {
                        t.real_time_onset_milliseconds = ns;
                    },
                    Err(e) => {
                        return Err(e);
                    },
                }
            } else if crate::options::bytes_eq(name.as_slice(), k_toff.as_slice()) {
                match as_nums(value) {
                    Ok(ns) => {
                        t.real_time_offset_milliseconds = ns;
                    },
                    Err(e) => {
                        return Err(e);
                    },
                }
            }
            proof {
                assert(apply_field(tcur, name@, value@) == Some(t@));
            }
        }
        proof {
            assert(fields_view(fs@) =~= Seq::<(Seq<u8>, ValueModel)>::empty());
        }
        Ok(t)
    }
}

// The field names, executable.
fn key_qfrac_on_e() -> (r: Vec<u8>)
    ensures
        r@ == key_qfrac_on(),
{
    let r = vec![0x71u8, 0x66u8, 0x72u8, 0x61u8, 0x63u8, 0x4Fu8, 0x6Eu8];
    proof {
        assert(r@ =~= key_qfrac_on());
    }
    r
}

fn key_qfrac_off_e() -> (r: Vec<u8>)
    ensures
        r@ == key_qfrac_off(),
{
    let r = vec![0x71u8, 0x66u8, 0x72u8, 0x61u8, 0x63u8, 0x4Fu8, 0x66u8, 0x66u8];
    proof {
        assert(r@ =~= key_qfrac_off());
    }
    r
}

fn key_qfrac_duration_e() -> (r: Vec<u8>)
    ensures
        r@ == key_qfrac_duration(),
{
    let r = vec![0x71u8, 0x66u8, 0x72u8, 0x61u8, 0x63u8, 0x44u8, 0x75u8, 0x72u8, 0x61u8, 0x74u8,
        0x69u8, 0x6Fu8, 0x6Eu8];
    proof {
        assert(r@ =~= key_qfrac_duration());
    }
    r
}

fn key_qfrac_tied_duration_e() -> (r: Vec<u8>)
    ensures
        r@ == key_qfrac_tied_duration(),
{
    let r = vec![0x71u8, 0x66u8, 0x72u8, 0x61u8, 0x63u8, 0x54u8, 0x69u8, 0x65u8, 0x64u8, 0x44u8,
        0x75u8, 0x72u8, 0x61u8, 0x74u8, 0x69u8, 0x6Fu8, 0x6Eu8];
    proof {
        assert(r@ =~= key_qfrac_tied_duration());
    }
    r
}

fn key_tstamp_on_e() -> (r: Vec<u8>)
    ensures
        r@ == key_tstamp_on(),
{
    let r = vec![0x74u8, 0x73u8, 0x74u8, 0x61u8, 0x6Du8, 0x70u8, 0x4Fu8, 0x6Eu8];
    proof {
        assert(r@ =~= key_tstamp_on());
    }
    r
}

fn key_tstamp_off_e() -> (r: Vec<u8>)
    ensures
        r@ == key_tstamp_off(),
{
    let r = vec![0x74u8, 0x73u8, 0x74u8, 0x61u8, 0x6Du8, 0x70u8, 0x4Fu8, 0x66u8, 0x66u8];
    proof {
        assert(r@ =~= key_tstamp_off());
    }
    r
}

} // verus!
