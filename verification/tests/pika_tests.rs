use pika::errors::PikaError;
use pika::pika::{InitOptions, Pika, PrefixRecord};

fn plain_record(name: &str) -> PrefixRecord {
    PrefixRecord {
        prefix: name.to_string(),
        description: Some("test".to_string()),
        secure: false,
    }
}

#[test]
fn init_pika() {
    let prefixes = [PrefixRecord {
        prefix: "test".to_string(),
        description: Some("test".to_string()),
        secure: false,
    }];

    let mut pika = Pika::new(
        prefixes.to_vec(),
        &InitOptions {
            epoch: Some(1_650_153_600_000),
            node_id: None,
            disable_lowercase: Some(true),
        },
    );

    let id = pika.gen("test").unwrap();
    let deconstructed = pika.deconstruct(&id).unwrap();

    // cant statically check because mac address is per device
    assert_eq!(deconstructed.node_id, Pika::compute_node_id());
    assert_eq!(deconstructed.seq, 0);
    assert_eq!(deconstructed.version, 1);
    assert_eq!(deconstructed.epoch, 1_650_153_600_000);
}

#[test]
fn init_pika_with_nodeid() {
    let prefixes = [PrefixRecord {
        prefix: "test".to_string(),
        description: Some("test".to_string()),
        secure: false,
    }];

    let mut pika = Pika::new(
        prefixes.to_vec(),
        &InitOptions {
            epoch: Some(1_650_153_600_000),
            node_id: Some(622),
            disable_lowercase: Some(true),
        },
    );

    let id = pika.gen("test").unwrap();
    let deconstructed = pika.deconstruct(&id).unwrap();

    assert_eq!(deconstructed.node_id, 622);
    assert_eq!(deconstructed.seq, 0);
    assert_eq!(deconstructed.version, 1);
    assert_eq!(deconstructed.epoch, 1_650_153_600_000);
}

#[test]
fn frozen_clock_scenario() {
    let mut pika = Pika::new(
        vec![plain_record("test")],
        &InitOptions {
            epoch: Some(1_650_153_600_000),
            node_id: Some(622),
            disable_lowercase: None,
        },
    );

    let id = pika.gen_at("test", 1_650_153_600_100).unwrap();
    let d = pika.deconstruct(&id).unwrap();

    assert_eq!(d.prefix, "test");
    assert_eq!(d.node_id, 622);
    assert_eq!(d.seq, 0);
    assert_eq!(d.version, 1);
    assert_eq!(d.epoch, 1_650_153_600_000);
    assert_eq!(d.timestamp, 1_650_153_600_100);
}

#[test]
fn frozen_clock_secure_scenario() {
    let mut pika = Pika::new(
        vec![PrefixRecord {
            prefix: "stest".to_string(),
            description: None,
            secure: true,
        }],
        &InitOptions {
            epoch: Some(1_650_153_600_000),
            node_id: Some(622),
            disable_lowercase: None,
        },
    );

    let id0 = pika.gen_at("stest", 1_650_153_600_100).unwrap();
    let id1 = pika.gen_at("stest", 1_650_153_600_100).unwrap();
    assert_ne!(id0, id1);

    let d0 = pika.deconstruct(&id0).unwrap();
    let d1 = pika.deconstruct(&id1).unwrap();
    assert_eq!(d0.prefix, "stest");
    assert_eq!(d0.seq, 0);
    assert_eq!(d1.seq, 1);
    assert_eq!(d0.timestamp, 1_650_153_600_100);
    assert_eq!(d1.timestamp, 1_650_153_600_100);
    assert_eq!(d0.node_id, 622);
}

#[test]
fn invalid_prefix_format_cases() {
    let mut pika = Pika::new(
        vec![plain_record("test")],
        &InitOptions {
            epoch: Some(1_650_153_600_000),
            node_id: Some(1),
            disable_lowercase: None,
        },
    );

    assert_eq!(pika.gen(""), Err(PikaError::InvalidPrefixFormat));
    let long = "a".repeat(33);
    assert_eq!(pika.gen(&long), Err(PikaError::InvalidPrefixFormat));
    assert_eq!(pika.gen("ab_c"), Err(PikaError::InvalidPrefixFormat));
    assert_eq!(pika.gen("ab!"), Err(PikaError::InvalidPrefixFormat));
    assert_eq!(
        pika.register(plain_record("bad prefix")),
        Err(PikaError::InvalidPrefixFormat)
    );
    // 32 characters is still fine
    let edge = "a".repeat(32);
    assert_eq!(pika.register(plain_record(&edge)), Ok(()));
}

#[test]
fn unknown_prefix_cases() {
    let mut pika = Pika::new(
        vec![plain_record("test")],
        &InitOptions {
            epoch: Some(1_650_153_600_000),
            node_id: Some(1),
            disable_lowercase: None,
        },
    );

    assert_eq!(pika.gen("nope"), Err(PikaError::UnknownPrefix));
    assert_eq!(
        pika.deconstruct("nope_MTIz").unwrap_err(),
        PikaError::UnknownPrefix
    );
}

#[test]
fn duplicate_prefix_case() {
    let mut pika = Pika::new(
        vec![plain_record("test")],
        &InitOptions {
            epoch: Some(1_650_153_600_000),
            node_id: Some(1),
            disable_lowercase: None,
        },
    );

    assert_eq!(pika.register(plain_record("fresh")), Ok(()));
    assert_eq!(
        pika.register(plain_record("fresh")),
        Err(PikaError::DuplicatePrefix)
    );
    assert_eq!(
        pika.register(plain_record("test")),
        Err(PikaError::DuplicatePrefix)
    );
}

#[test]
fn malformed_payload_cases() {
    let mut pika = Pika::new(
        vec![
            plain_record("test"),
            PrefixRecord {
                prefix: "sec".to_string(),
                description: None,
                secure: true,
            },
        ],
        &InitOptions {
            epoch: Some(1_650_153_600_000),
            node_id: Some(1),
            disable_lowercase: None,
        },
    );

    // no separator at all
    assert_eq!(
        pika.deconstruct("test").unwrap_err(),
        PikaError::MalformedPayload
    );
    // payload is not base64
    assert_eq!(
        pika.deconstruct("test_!!!").unwrap_err(),
        PikaError::MalformedPayload
    );
    // payload decodes, but not to decimal digits
    assert_eq!(
        pika.deconstruct("test_aGk").unwrap_err(),
        PikaError::MalformedPayload
    );
    // empty payload
    assert_eq!(
        pika.deconstruct("test_").unwrap_err(),
        PikaError::MalformedPayload
    );
    // a secure payload without the three-segment shape: base64 of "123"
    assert_eq!(
        pika.deconstruct("sec_MTIz").unwrap_err(),
        PikaError::MalformedPayload
    );
    // a plain id still decodes under its own prefix
    let id = pika.gen_at("test", 1_650_153_600_001).unwrap();
    assert!(pika.deconstruct(&id).is_ok());
}

#[test]
fn clock_errors() {
    let mut pika = Pika::new(
        vec![plain_record("test")],
        &InitOptions {
            epoch: Some(1_650_153_600_000),
            node_id: Some(1),
            disable_lowercase: None,
        },
    );

    assert_eq!(
        pika.gen_at("test", 1_650_153_599_999),
        Err(PikaError::ClockRegression)
    );
    let too_far = 1_650_153_600_000u64 + (1u64 << 42);
    assert_eq!(
        pika.gen_at("test", too_far),
        Err(PikaError::TimestampOverflow)
    );
    // the largest stampable millisecond still works
    assert!(pika.gen_at("test", too_far - 1).is_ok());
}
