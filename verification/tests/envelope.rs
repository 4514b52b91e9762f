use webhook_bridge::envelope::{assemble_body, Encoding, Message, WebhookEnvelope};

fn message(topic: &str, partition: i32, offset: i64, payload: &[u8], timestamp: i64) -> Message {
    Message {
        topic: topic.to_string(),
        partition,
        offset,
        key: None,
        payload: payload.to_vec(),
        timestamp,
    }
}

#[test]
fn text_payload_is_sent_as_text() {
    let envelope = WebhookEnvelope::from_message(&message("t1", 0, 10, b"a", 1700000000000));
    assert_eq!(envelope.message, "a");
    assert_eq!(envelope.encoding, Encoding::Utf8);
    assert_eq!(
        envelope.to_json(),
        "{\"message\":\"a\",\"topic\":\"t1\",\"partition\":0,\"offset\":10,\"timestamp\":1700000000000}"
    );
}

#[test]
fn binary_payload_is_sent_as_base64() {
    let envelope = WebhookEnvelope::from_message(&message("t1", 3, 7, &[0xff, 0xfe], -5));
    assert_eq!(envelope.message, "//4=");
    assert_eq!(envelope.encoding, Encoding::Base64);
    let body = envelope.to_json();
    assert!(body.contains("\"encoding\":\"base64\",\"message\":\"//4=\""));
    assert_eq!(
        body,
        "{\"encoding\":\"base64\",\"message\":\"//4=\",\"topic\":\"t1\",\"partition\":3,\"offset\":7,\"timestamp\":-5}"
    );
    assert_eq!(envelope.payload(), Some(vec![0xff, 0xfe]));
}

#[test]
fn strings_are_escaped_in_the_body() {
    let envelope = WebhookEnvelope::from_message(&message("t\"1", 0, 1, b"a\"b\\c\n", 0));
    let body = envelope.to_json();
    assert_eq!(
        body,
        "{\"message\":\"a\\\"b\\\\c\\n\",\"topic\":\"t\\\"1\",\"partition\":0,\"offset\":1,\"timestamp\":0}"
    );
    let parsed: serde_json::Value = serde_json::from_str(&body).unwrap();
    assert_eq!(parsed.get("message").and_then(|v| v.as_str()), Some("a\"b\\c\n"));
    assert_eq!(parsed.get("topic").and_then(|v| v.as_str()), Some("t\"1"));
}

#[test]
fn the_message_field_gives_back_every_payload() {
    let mut payloads: Vec<Vec<u8>> = vec![
        vec![],
        b"plain".to_vec(),
        "gr\u{fc}\u{df}e \u{1f980}".as_bytes().to_vec(),
        vec![0xff, 0xfe],
        vec![0xc3],
        vec![0xc3, 0x28],
        vec![0xe2, 0x82],
        vec![0xed, 0xa0, 0x80],
        vec![0xf4, 0x90, 0x80, 0x80],
        vec![0xc0, 0x80],
        vec![0x00],
        b"Zm9v".to_vec(),
    ];
    for a in 0..=255u8 {
        payloads.push(vec![a]);
        payloads.push(vec![b'x', a, b'y']);
        payloads.push(vec![a, a]);
    }
    for payload in payloads {
        let envelope = WebhookEnvelope::from_message(&message("t", 0, 0, &payload, 0));
        let text = std::str::from_utf8(&payload);
        match text {
            Ok(text) => {
                assert_eq!(envelope.encoding, Encoding::Utf8);
                assert_eq!(envelope.message, text);
            }
            Err(_) => assert_eq!(envelope.encoding, Encoding::Base64),
        }
        assert_eq!(envelope.payload(), Some(payload.clone()));
        let body = envelope.to_json();
        let parsed: serde_json::Value = serde_json::from_str(&body).unwrap();
        assert_eq!(parsed.get("message").and_then(|v| v.as_str()), Some(envelope.message.as_str()));
        assert_eq!(
            parsed.get("encoding").and_then(|v| v.as_str()),
            if text.is_ok() { None } else { Some("base64") }
        );
    }
}

#[test]
fn an_envelope_that_claims_base64_and_holds_none_has_no_payload() {
    let mut envelope = WebhookEnvelope::from_message(&message("t", 0, 0, b"not base64!", 0));
    assert_eq!(envelope.payload(), Some(b"not base64!".to_vec()));
    envelope.encoding = Encoding::Base64;
    assert_eq!(envelope.payload(), None);
    envelope.message = "Zm9v".to_string();
    assert_eq!(envelope.payload(), Some(b"foo".to_vec()));
    envelope.encoding = Encoding::Utf8;
    assert_eq!(envelope.payload(), Some(b"Zm9v".to_vec()));
}

#[test]
fn the_envelope_carries_the_identity_of_the_message() {
    let source = Message {
        topic: "com.getopensocial.cms.user.login".to_string(),
        partition: 12,
        offset: 9_000_000_000,
        key: Some(b"user-1".to_vec()),
        payload: b"{\"id\":1}".to_vec(),
        timestamp: 1_700_000_000_123,
    };
    let envelope = WebhookEnvelope::from_message(&source);
    assert_eq!(envelope.topic, source.topic);
    assert_eq!(envelope.partition, 12);
    assert_eq!(envelope.offset, 9_000_000_000);
    assert_eq!(envelope.timestamp, 1_700_000_000_123);
    let parsed: serde_json::Value = serde_json::from_str(&envelope.to_json()).unwrap();
    assert_eq!(parsed.get("message").and_then(|v| v.as_str()), Some("{\"id\":1}"));
    assert_eq!(parsed.get("topic").and_then(|v| v.as_str()), Some(source.topic.as_str()));
    assert_eq!(parsed.get("partition").and_then(|v| v.as_i64()), Some(12));
    assert_eq!(parsed.get("offset").and_then(|v| v.as_i64()), Some(9_000_000_000));
    assert_eq!(parsed.get("timestamp").and_then(|v| v.as_i64()), Some(1_700_000_000_123));
    assert_eq!(parsed.as_object().map(|o| o.len()), Some(5));
}

#[test]
fn the_request_names_its_content_type_topic_and_attempt() {
    let envelope = WebhookEnvelope::from_message(&message("t1", 0, 10, b"a", 0));
    let headers: Vec<(String, String)> =
        envelope.headers(3).into_iter().map(|h| (h.name, h.value)).collect();
    assert_eq!(
        headers,
        vec![
            ("Content-Type".to_string(), "application/json".to_string()),
            ("X-Source-Topic".to_string(), "t1".to_string()),
            ("X-Attempt".to_string(), "3".to_string()),
        ]
    );
    assert_eq!(envelope.headers(u32::MAX)[2].value, "4294967295");
}

#[test]
fn the_body_is_put_together_from_its_parts() {
    assert_eq!(
        assemble_body("\"m\"", Encoding::Utf8, "\"t\"", -1, i64::MIN, i64::MAX),
        "{\"message\":\"m\",\"topic\":\"t\",\"partition\":-1,\"offset\":-9223372036854775808,\"timestamp\":9223372036854775807}"
    );
    assert_eq!(
        assemble_body("M", Encoding::Base64, "T", 0, 0, 0),
        "{\"encoding\":\"base64\",\"message\":M,\"topic\":T,\"partition\":0,\"offset\":0,\"timestamp\":0}"
    );
}
