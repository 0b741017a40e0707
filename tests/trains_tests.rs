use trains::{
    decode, decode_fields, encode, fields_of, handle_query, load, DecodeError, ReadOutcome, Speed,
    Train, TrainFields, TrainType, TypeField,
};

fn text(s: &str) -> ReadOutcome {
    ReadOutcome::Text(s.to_string())
}

fn train(name: &str, mantissa: u64, scale: u32, type_: TrainType) -> Train {
    Train { name: name.to_string(), speed: Speed { mantissa, scale }, type_ }
}

#[test]
fn test_get_train() {
    let doc = r#"{"name": "ICE 1 - Thomas die Lokomotive", "speed": 250.0, "type_": "ICE"}"#;
    let train = load(text(doc)).unwrap();
    assert_eq!(train.name, "ICE 1 - Thomas die Lokomotive");
}

#[test]
fn render_each_category() {
    assert_eq!(TrainType::ICE.render(), "ICE");
    assert_eq!(TrainType::IC.render(), "IC");
    assert_eq!(TrainType::S.render(), "S-Bahn");
    assert_eq!(TrainType::Regional("S-7".to_string()).render(), "Regional S-7");
}

#[test]
fn render_is_repeatable_and_non_empty() {
    let all = vec![
        TrainType::ICE,
        TrainType::IC,
        TrainType::S,
        TrainType::Regional("RE 1".to_string()),
    ];
    for t in all.iter() {
        let a = t.render();
        let b = t.render();
        assert!(!a.is_empty());
        assert_eq!(a, b);
    }
}

#[test]
fn render_regional_empty_label() {
    assert_eq!(TrainType::Regional(String::new()).render(), "Regional ");
}

#[test]
fn format_ice_sentence() {
    let t = train("ICE 1", 250, 0, TrainType::ICE);
    assert_eq!(
        t.format(),
        "A train named ICE 1 has entered; its type is ICE and its speed is 250."
    );
}

#[test]
fn format_regional_sentence_holds_name() {
    let t = train("RB12", 805, 1, TrainType::Regional("S-7".to_string()));
    let s = t.format();
    assert_eq!(
        s,
        "A train named RB12 has entered; its type is Regional S-7 and its speed is 80.5."
    );
    assert!(s.contains("RB12"));
}

#[test]
fn speed_text_forms() {
    assert_eq!(Speed { mantissa: 250, scale: 0 }.to_text(), "250");
    assert_eq!(Speed { mantissa: 805, scale: 1 }.to_text(), "80.5");
    assert_eq!(Speed { mantissa: 5, scale: 2 }.to_text(), "0.05");
    assert_eq!(Speed { mantissa: 0, scale: 0 }.to_text(), "0");
    assert_eq!(Speed { mantissa: 7, scale: 21 }.to_text(), "0.000000000000000000007");
}

#[test]
fn speed_parse_forms() {
    assert_eq!(Speed::parse("250.0"), Some(Speed { mantissa: 250, scale: 0 }));
    assert_eq!(Speed::parse("80.5"), Some(Speed { mantissa: 805, scale: 1 }));
    assert_eq!(Speed::parse("0.050"), Some(Speed { mantissa: 5, scale: 2 }));
    assert_eq!(Speed::parse("250"), Some(Speed { mantissa: 250, scale: 0 }));
    assert_eq!(
        Speed::parse("18446744073709551615"),
        Some(Speed { mantissa: u64::MAX, scale: 0 })
    );
    assert_eq!(Speed::parse("18446744073709551616"), None);
    assert_eq!(Speed::parse(""), None);
    assert_eq!(Speed::parse(".5"), None);
    assert_eq!(Speed::parse("5."), None);
    assert_eq!(Speed::parse("1.2.3"), None);
    assert_eq!(Speed::parse("-5"), None);
    assert_eq!(Speed::parse("1e20"), None);
}

#[test]
fn speed_text_reads_back() {
    for s in [
        Speed { mantissa: 250, scale: 0 },
        Speed { mantissa: 805, scale: 1 },
        Speed { mantissa: 5, scale: 2 },
        Speed { mantissa: 123456789, scale: 4 },
    ] {
        assert_eq!(Speed::parse(&s.to_text()), Some(s));
    }
}

#[test]
fn load_ice_document() {
    let doc = r#"{"name": "ICE 1", "speed": 250.0, "type_": "ICE"}"#;
    let t = load(text(doc)).unwrap();
    assert_eq!(t, train("ICE 1", 250, 0, TrainType::ICE));
}

#[test]
fn load_regional_document() {
    let doc = r#"{"name": "RB12", "speed": 80.5, "type_": {"Regional": "S-7"}}"#;
    let t = load(text(doc)).unwrap();
    assert_eq!(t.type_, TrainType::Regional("S-7".to_string()));
    assert_eq!(t, train("RB12", 805, 1, TrainType::Regional("S-7".to_string())));
}

#[test]
fn load_missing_resource() {
    assert_eq!(load(ReadOutcome::NotFound), Err(DecodeError::ResourceNotFound));
}

#[test]
fn load_read_failure() {
    assert_eq!(load(ReadOutcome::Failed), Err(DecodeError::ReadFailure));
}

#[test]
fn load_truncated_document() {
    let doc = r#"{"name": "ICE 1", "speed": 25"#;
    assert_eq!(load(text(doc)), Err(DecodeError::MalformedJson));
    assert_eq!(decode(""), Err(DecodeError::MalformedJson));
}

#[test]
fn load_schema_mismatches() {
    let cases = [
        r#"{"speed": 250.0, "type_": "ICE"}"#,
        r#"{"name": "ICE 1", "type_": "ICE"}"#,
        r#"{"name": "ICE 1", "speed": "fast", "type_": "ICE"}"#,
        r#"{"name": 5, "speed": 250.0, "type_": "ICE"}"#,
        r#"{"name": "ICE 1", "speed": 250.0, "type_": "TGV"}"#,
        r#"{"name": "ICE 1", "speed": 250.0, "type_": "Regional"}"#,
        r#"{"name": "ICE 1", "speed": 250.0, "type_": {"Regional": 7}}"#,
        r#"{"name": "ICE 1", "speed": 250.0, "type_": {"Regional": "a", "S": "b"}}"#,
        r#"{"name": "ICE 1", "speed": -3.0, "type_": "ICE"}"#,
        r#"[1, 2, 3]"#,
        r#"{"name": "", "speed": 250.0, "type_": "ICE"}"#,
    ];
    for doc in cases {
        assert_eq!(decode(doc), Err(DecodeError::SchemaMismatch), "{}", doc);
    }
}

#[test]
fn decode_fields_direct() {
    let f = TrainFields {
        name: Some("IC 2".to_string()),
        speed: Some("160.0".to_string()),
        type_: TypeField::Unit("IC".to_string()),
    };
    assert_eq!(decode_fields(f), Ok(train("IC 2", 160, 0, TrainType::IC)));
    let f = TrainFields {
        name: Some("S 1".to_string()),
        speed: Some("60".to_string()),
        type_: TypeField::Unit("S".to_string()),
    };
    assert_eq!(decode_fields(f), Ok(train("S 1", 60, 0, TrainType::S)));
    let f = TrainFields {
        name: Some("RB".to_string()),
        speed: Some("60".to_string()),
        type_: TypeField::Other,
    };
    assert_eq!(decode_fields(f), Err(DecodeError::SchemaMismatch));
    let f = TrainFields {
        name: Some("RB".to_string()),
        speed: Some("60".to_string()),
        type_: TypeField::Regional("S-7".to_string()),
    };
    assert_eq!(
        decode_fields(f),
        Ok(train("RB", 60, 0, TrainType::Regional("S-7".to_string())))
    );
    let f = TrainFields {
        name: Some(String::new()),
        speed: Some("60".to_string()),
        type_: TypeField::Unit("S".to_string()),
    };
    assert_eq!(decode_fields(f), Err(DecodeError::SchemaMismatch));
    let f = TrainFields { name: None, speed: Some("60".to_string()), type_: TypeField::Other };
    assert_eq!(decode_fields(f), Err(DecodeError::SchemaMismatch));
}

#[test]
fn encode_exact_text() {
    let t = train("ICE 1", 250, 0, TrainType::ICE);
    assert_eq!(encode(&t).unwrap(), r#"{"name":"ICE 1","speed":250,"type_":"ICE"}"#);
    let t = train("RB12", 805, 1, TrainType::Regional("S-7".to_string()));
    assert_eq!(
        encode(&t).unwrap(),
        r#"{"name":"RB12","speed":80.5,"type_":{"Regional":"S-7"}}"#
    );
}

#[test]
fn encode_escapes_name() {
    let t = train("say \"hi\"", 1, 0, TrainType::S);
    assert_eq!(encode(&t).unwrap(), r#"{"name":"say \"hi\"","speed":1,"type_":"S"}"#);
}

#[test]
fn encode_then_decode_round_trip() {
    let trains = vec![
        train("ICE 1", 250, 0, TrainType::ICE),
        train("IC \"Rhein\"", 1605, 1, TrainType::IC),
        train("S 3", 5, 2, TrainType::S),
        train("RB12", 805, 1, TrainType::Regional("S-7".to_string())),
        train("RE", 0, 0, TrainType::Regional(String::new())),
        train("Zürich \\ Genève", 1, 0, TrainType::IC),
    ];
    for t in trains {
        let json = encode(&t).unwrap();
        assert_eq!(decode(&json), Ok(t));
    }
}

#[test]
fn query_success_is_decodable() {
    let t = train("ICE 1 - Thomas die Lokomotive", 250, 0, TrainType::ICE);
    let reply = handle_query(Ok(t.clone()));
    assert_eq!(reply.status, 200);
    assert_eq!(decode(&reply.body), Ok(t));
}

#[test]
fn query_errors() {
    let reply = handle_query(Err(DecodeError::ResourceNotFound));
    assert_eq!(reply.status, 404);
    assert_eq!(reply.body, "resource not found");
    let reply = handle_query(Err(DecodeError::MalformedJson));
    assert_eq!(reply.status, 500);
    assert_eq!(reply.body, "malformed JSON");
}

#[test]
fn error_messages() {
    assert_eq!(DecodeError::ReadFailure.message(), "read failure");
    assert_eq!(DecodeError::SchemaMismatch.message(), "schema mismatch");
    assert_eq!(DecodeError::SerializationFailure.message(), "serialization failure");
}

#[test]
fn fields_of_reads_members() {
    let f = fields_of(r#"{"name": "RB12", "speed": 80.5, "type_": {"Regional": "S-7"}}"#);
    assert_eq!(f.name, Some("RB12".to_string()));
    assert_eq!(f.speed, Some("80.5".to_string()));
    assert_eq!(f.type_, TypeField::Regional("S-7".to_string()));
    let f = fields_of(r#"{"name": 1, "speed": "x", "type_": "ICE"}"#);
    assert_eq!(f.name, None);
    assert_eq!(f.speed, None);
    assert_eq!(f.type_, TypeField::Unit("ICE".to_string()));
    let f = fields_of(r#"{"type_": {"Regional": "a", "IC": "b"}}"#);
    assert_eq!(f.type_, TypeField::Other);
}

#[test]
fn query_ice_body_is_exact() {
    let reply = handle_query(Ok(train("ICE 1", 250, 0, TrainType::ICE)));
    assert_eq!(reply.status, 200);
    assert_eq!(reply.body, r#"{"name":"ICE 1","speed":250,"type_":"ICE"}"#);
}

#[test]
fn speed_parse_exponent_forms() {
    assert_eq!(Speed::parse("1e16"), Some(Speed { mantissa: 10_000_000_000_000_000, scale: 0 }));
    assert_eq!(Speed::parse("1e-5"), Some(Speed { mantissa: 1, scale: 5 }));
    assert_eq!(Speed::parse("1.5e-7"), Some(Speed { mantissa: 15, scale: 8 }));
    assert_eq!(Speed::parse("2.5E+2"), Some(Speed { mantissa: 250, scale: 0 }));
    assert_eq!(Speed::parse("2.5e2"), Some(Speed { mantissa: 250, scale: 0 }));
    assert_eq!(Speed::parse("5e-324"), Some(Speed { mantissa: 5, scale: 324 }));
    assert_eq!(Speed::parse("1e"), None);
    assert_eq!(Speed::parse("1e+"), None);
    assert_eq!(Speed::parse("e5"), None);
    assert_eq!(Speed::parse("1x5"), None);
    assert_eq!(Speed::parse("1e5e5"), None);
    assert_eq!(Speed::parse("1e70000"), None);
    assert_eq!(Speed::parse("2e19"), None);
}

#[test]
fn load_exponent_speeds() {
    let t = decode(r#"{"name": "Fast", "speed": 1e16, "type_": "ICE"}"#).unwrap();
    assert_eq!(t.speed, Speed { mantissa: 10_000_000_000_000_000, scale: 0 });
    assert_eq!(t.speed.to_text(), "10000000000000000");
    let t = decode(r#"{"name": "Slow", "speed": 0.00001, "type_": "S"}"#).unwrap();
    assert_eq!(t.speed, Speed { mantissa: 1, scale: 5 });
    assert_eq!(t.speed.to_text(), "0.00001");
}
