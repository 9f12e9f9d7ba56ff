use verovio::json::{Decimal, Number};
use verovio::timing::ElementTime;
use verovio::MarshalError;

#[test]
fn parses_full_timing_record() {
    let t = ElementTime::from_json(
        b"{\"qfracOn\":[[1,4],[3,8]],\"qfracOff\":[[1,2]],\"qfracDuration\":[[1,8]],\
          \"qfracTiedDuration\":[],\"tstampOn\":[0.0,125.5],\"tstampOff\":[500.0,625.5]}",
    )
    .unwrap();
    assert_eq!(t.score_time_onset, vec![(1, 4), (3, 8)]);
    assert_eq!(t.score_time_offset, vec![(1, 2)]);
    assert_eq!(t.score_time_duration, vec![(1, 8)]);
    assert_eq!(t.score_time_tied_duration, Vec::<(i64, i64)>::new());
    assert_eq!(
        t.real_time_onset_milliseconds,
        vec![
            Number::Dec(Decimal { neg: false, mantissa: 0, scale: 1 }),
            Number::Dec(Decimal { neg: false, mantissa: 1255, scale: 1 }),
        ]
    );
    assert_eq!(
        t.real_time_offset_milliseconds,
        vec![
            Number::Dec(Decimal { neg: false, mantissa: 5000, scale: 1 }),
            Number::Dec(Decimal { neg: false, mantissa: 6255, scale: 1 }),
        ]
    );
}

#[test]
fn missing_fields_are_empty_and_unknown_fields_are_ignored() {
    let t = ElementTime::from_json(b"{\"qfracOn\":[[1,4]],\"score\":\"x\",\"page\":3}").unwrap();
    assert_eq!(t.score_time_onset, vec![(1, 4)]);
    assert!(t.score_time_offset.is_empty());
    assert!(t.real_time_onset_milliseconds.is_empty());
}

#[test]
fn whole_milliseconds_parse_as_integers() {
    let t = ElementTime::from_json(b"{\"tstampOn\":[0,1500]}").unwrap();
    assert_eq!(
        t.real_time_onset_milliseconds,
        vec![Number::Int(0), Number::Int(1500)]
    );
}

#[test]
fn last_occurrence_of_a_field_wins() {
    let t = ElementTime::from_json(b"{\"qfracOn\":[[1,4]],\"qfracOn\":[[3,8]]}").unwrap();
    assert_eq!(t.score_time_onset, vec![(3, 8)]);
}

#[test]
fn wrong_shape_fails() {
    assert_eq!(
        ElementTime::from_json(b"{\"qfracOn\":\"x\"}"),
        Err(MarshalError::Json)
    );
    assert_eq!(
        ElementTime::from_json(b"{\"tstampOn\":[[1,2]]}"),
        Err(MarshalError::Json)
    );
    assert_eq!(ElementTime::from_json(b"not json"), Err(MarshalError::Json));
}

#[test]
fn empty_record_is_all_empty() {
    let t = ElementTime::from_json(b"{}").unwrap();
    assert_eq!(t, ElementTime::new());
}
