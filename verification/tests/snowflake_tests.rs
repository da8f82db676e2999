use pika::errors::PikaError;
use pika::snowflake::Snowflake;

#[test]
fn generate_snowflake() {
    // if the node_id >= 1024 it will go to 0?
    let mut sf = Snowflake::new_with_nodeid(650_153_600_000, 1023);
    let snowflake = sf.gen().unwrap();

    let deconstruct = sf.decode(snowflake.as_str()).unwrap();

    assert_eq!(deconstruct.epoch, 650_153_600_000);
    assert_eq!(deconstruct.node_id, 1023);
}

#[test]
fn generate_snowflakes() {
    let mut sf = Snowflake::new_with_nodeid(650_153_600_000, 1023);

    // when the seq is 4096, the next snowflake will be 0
    let snowflakes: Vec<String> = (0..4096).map(|_| sf.gen().unwrap()).collect();
    let last_snowflake = sf.gen().unwrap();

    for (sequence, snowflake) in snowflakes.iter().enumerate() {
        let deconstruct = sf.decode(snowflake.as_str()).unwrap();

        assert_eq!(deconstruct.seq, sequence as u64);
    }

    let deconstruct = sf.decode(last_snowflake.as_str()).unwrap();
    assert_eq!(deconstruct.seq, 0);
}

#[test]
fn exact_snowflake_value() {
    let mut sf = Snowflake::new_with_nodeid(1_650_153_600_000, 622);
    // delta 100 ms, node 622, sequence 0:
    // 100 * 2^22 + 622 * 2^12 = 419430400 + 2547712
    let id = sf.gen_with_ts(1_650_153_600_100).unwrap();
    assert_eq!(id, "421978112");

    let d = sf.decode("421978112").unwrap();
    assert_eq!(d.id, 421_978_112);
    assert_eq!(d.timestamp, 1_650_153_600_100);
    assert_eq!(d.node_id, 622);
    assert_eq!(d.seq, 0);
    assert_eq!(d.epoch, 1_650_153_600_000);
}

#[test]
fn node_id_is_reduced_modulo_1024() {
    let mut sf = Snowflake::new_with_nodeid(1_650_153_600_000, 1024 + 7);
    let id = sf.gen_with_ts(1_650_153_600_001).unwrap();
    let d = sf.decode(&id).unwrap();
    assert_eq!(d.node_id, 7);
}

#[test]
fn decode_rejects_non_decimal() {
    let sf = Snowflake::new_with_nodeid(650_153_600_000, 1);
    assert_eq!(sf.decode("abc").unwrap_err(), PikaError::MalformedPayload);
    assert_eq!(sf.decode("").unwrap_err(), PikaError::MalformedPayload);
    assert_eq!(sf.decode("12a4").unwrap_err(), PikaError::MalformedPayload);
    // one past u64::MAX
    assert_eq!(
        sf.decode("18446744073709551616").unwrap_err(),
        PikaError::MalformedPayload
    );
    // u64::MAX itself parses
    assert!(sf.decode("18446744073709551615").is_ok());
}

#[test]
fn generator_errors_before_epoch_and_past_range() {
    let mut sf = Snowflake::new_with_nodeid(1_650_153_600_000, 5);
    assert_eq!(
        sf.gen_with_ts(1_650_153_599_000),
        Err(PikaError::ClockRegression)
    );
    let too_far = 1_650_153_600_000u64 + (1u64 << 42);
    assert_eq!(sf.gen_with_ts(too_far), Err(PikaError::TimestampOverflow));
}

#[test]
fn ids_increase_with_the_clock() {
    let mut sf = Snowflake::new_with_nodeid(1_650_153_600_000, 9);
    let a: u64 = sf.gen_with_ts(1_650_153_600_010).unwrap().parse().unwrap();
    let b: u64 = sf.gen_with_ts(1_650_153_600_010).unwrap().parse().unwrap();
    let c: u64 = sf.gen_with_ts(1_650_153_600_020).unwrap().parse().unwrap();
    assert!(a < b);
    assert!(b < c);
}

#[test]
fn sequence_wraps_at_4096_with_frozen_clock() {
    let mut sf = Snowflake::new_with_nodeid(1_650_153_600_000, 3);
    let frozen = 1_650_153_600_500u64;
    for k in 0..4096u64 {
        let id = sf.gen_with_ts(frozen).unwrap();
        let d = sf.decode(&id).unwrap();
        assert_eq!(d.seq, k);
        assert_eq!(d.timestamp, frozen);
    }
    // the next call finds this millisecond exhausted: it blocks until the
    // clock passes it, then resumes at sequence 0 with a later timestamp
    let id = sf.gen_with_ts(frozen).unwrap();
    let d = sf.decode(&id).unwrap();
    assert_eq!(d.seq, 0);
    assert!(d.timestamp > frozen);
}
