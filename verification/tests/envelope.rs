use rust_mq::codec::{decode, encode, now_ms, stamp_of, Encoded, MessageCodecError, MessageEnvelope};

type OrderCreated = (String, u64);

fn order() -> OrderCreated {
    ("ORD-1001".to_string(), 1250)
}

#[test]
fn binary_codec_round_trip() {
    let payload = Encoded { bytes: bincode::serialize(&order()).unwrap() };
    let envelope = MessageEnvelope::new("order.created".to_string(), 1, payload);

    let encoded = encode(&envelope).expect("encode should succeed");
    let decoded = decode(&encoded).expect("decode should succeed");
    let order: OrderCreated = bincode::deserialize(&decoded.payload.bytes).expect("payload should decode");

    assert_eq!(decoded.event_type, "order.created");
    assert_eq!(decoded.schema_version, 1);
    assert_eq!(order.0, "ORD-1001");
    assert_eq!(order.1, 1250);
    assert!(decoded.created_at_ms > 0);
}

#[test]
fn binary_decode_invalid_bytes() {
    let bad = b"not-bincode";
    let result = decode(bad);
    assert!(matches!(result, Err(MessageCodecError::DecodeBinary(_))));
}

#[test]
fn binary_is_smaller_than_json_for_typical_payload() {
    let payload = Encoded { bytes: bincode::serialize(&order()).unwrap() };
    let envelope = MessageEnvelope::new("order.created".to_string(), 1, payload);
    let binary = encode(&envelope).expect("binary encode should succeed");
    let json = format!(
        "{{\"event_type\":\"order.created\",\"schema_version\":1,\"created_at_ms\":{},\"payload\":{{\"order_id\":\"ORD-1001\",\"amount_cents\":1250}}}}",
        envelope.created_at_ms
    )
    .into_bytes();
    let parsed: serde_json::Value = serde_json::from_slice(&json).expect("json should be sound");
    let json = serde_json::to_vec(&parsed).expect("json encode should succeed");
    assert!(binary.len() < json.len());
}

#[test]
fn envelope_has_the_layout_of_its_fields() {
    let payload = Encoded { bytes: bincode::serialize(&order()).unwrap() };
    let envelope = MessageEnvelope::made_at("order.created".to_string(), 258, -2, payload);
    let expected = bincode::serialize(&("order.created", 258u16, -2i64, order())).unwrap();
    assert_eq!(encode(&envelope).unwrap(), expected);
}

#[test]
fn errors_are_shown_with_their_cause() {
    let e = decode(&[1, 0, 0]).unwrap_err();
    assert!(e.to_string().starts_with("failed to decode envelope from binary: "));
    assert_eq!(
        MessageCodecError::EncodeJson("x".to_string()).to_string(),
        "failed to encode envelope to JSON: x"
    );
}

#[test]
fn clock_is_past_the_beginning() {
    assert!(now_ms() > 1_600_000_000_000);
}

#[test]
fn moments_have_their_stamps() {
    assert_eq!(stamp_of(Some(1_700_000_000_123)), 1_700_000_000_123);
    assert_eq!(stamp_of(None), 0);
    assert_eq!(stamp_of(Some(u64::MAX as u128)), -1);
}
