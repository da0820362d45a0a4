use std::collections::HashSet;

use editorjs::header::HeaderData;
use editorjs::json::JsonValue;
use editorjs::paragraph::ParagraphData;
use editorjs::scheme::{Block, BlockData, Error, Scheme};

#[test]
fn generated_ids_are_ten_alphanumeric_chars_and_distinct() {
    let mut seen: HashSet<String> = HashSet::new();
    let mut i = 0;
    while i < 1000 {
        let id = Block::generate_id();
        assert_eq!(id.chars().count(), 10);
        assert!(id.chars().all(|c| c.is_ascii_alphanumeric()));
        seen.insert(id);
        i += 1;
    }
    assert_eq!(seen.len(), 1000);
}

#[test]
fn unknown_tag_is_rejected() {
    let input = r#"{"time":1,"version":"2.12.4","blocks":[{"id":"a","type":"quote","data":{"text":"x"}}]}"#;
    assert_eq!(
        Scheme::from_json(input),
        Err(Error::UnknownBlockType { index: 0 })
    );
}

#[test]
fn shape_mismatch_is_rejected() {
    let input =
        r#"{"time":1,"version":"2.12.4","blocks":[{"id":"a","type":"header","data":{"text":"x"}}]}"#;
    assert_eq!(
        Scheme::from_json(input),
        Err(Error::PayloadShapeMismatch { index: 0 })
    );
}

#[test]
fn oversized_level_is_a_shape_mismatch() {
    let input = r#"{"time":1,"version":"2.12.4","blocks":[{"id":"a","type":"header","data":{"text":"x","level":256}}]}"#;
    assert_eq!(
        Scheme::from_json(input),
        Err(Error::PayloadShapeMismatch { index: 0 })
    );
}

#[test]
fn error_carries_position_of_offending_block() {
    let input = r#"{"time":1,"version":"2.12.4","blocks":[{"id":"a","type":"paragraph","data":{"text":"x"}},{"id":"b","type":"quote","data":{}}]}"#;
    assert_eq!(
        Scheme::from_json(input),
        Err(Error::UnknownBlockType { index: 1 })
    );
}

#[test]
fn malformed_envelope_is_rejected() {
    assert_eq!(Scheme::from_json("[1,2]"), Err(Error::MalformedEnvelope));
    assert_eq!(
        Scheme::from_json(r#"{"time":1,"blocks":[]}"#),
        Err(Error::MalformedEnvelope)
    );
    assert_eq!(
        Scheme::from_json(r#"{"time":"1","version":"2.12.4","blocks":[]}"#),
        Err(Error::MalformedEnvelope)
    );
}

#[test]
fn invalid_json_is_rejected() {
    assert_eq!(Scheme::from_json("{oops"), Err(Error::InvalidJson));
    assert_eq!(Scheme::from_json(""), Err(Error::InvalidJson));
    assert_eq!(Scheme::from_json("{} trailing"), Err(Error::InvalidJson));
    assert_eq!(
        Scheme::from_json(r#"{"time":1.5,"version":"2.12.4","blocks":[]}"#),
        Err(Error::InvalidJson)
    );
}

#[test]
fn order_of_blocks_is_preserved() {
    let mut scheme = Scheme::with_time(7);
    scheme.add_block(Block::new(BlockData::Paragraph(ParagraphData::new(
        "first".to_string(),
    ))));
    scheme.add_block(Block::new(BlockData::Header(HeaderData::new(
        "second".to_string(),
        3,
    ))));
    scheme.add_block(Block::new(BlockData::Paragraph(ParagraphData::new(
        "third".to_string(),
    ))));
    let text = scheme.to_json();
    let parsed = Scheme::from_json(&text).unwrap();
    assert_eq!(parsed, scheme);
    let tags: Vec<String> = parsed.blocks().iter().map(|b| b.tag()).collect();
    assert_eq!(tags, vec!["paragraph", "header", "paragraph"]);
    assert_eq!(parsed.to_json(), text);
}

#[test]
fn round_trip_preserves_every_field() {
    let mut scheme = Scheme::with_time(1550476186479);
    scheme.add_block(Block::new(BlockData::Header(HeaderData::new(
        "quotes \" and \\ and\nnewlines\tand — dashes".to_string(),
        6,
    ))));
    scheme.add_block(Block::new(BlockData::Paragraph(ParagraphData::new(
        "control \u{1} char and \u{8} bell".to_string(),
    ))));
    let parsed = Scheme::from_json(&scheme.to_json()).unwrap();
    assert_eq!(parsed, scheme);
    assert_eq!(parsed.time(), scheme.time());
    assert_eq!(parsed.version(), scheme.version());
    for (a, b) in parsed.blocks().iter().zip(scheme.blocks().iter()) {
        assert_eq!(a.id(), b.id());
        assert_eq!(a.tag(), b.tag());
        assert_eq!(a.data(), b.data());
    }
}

#[test]
fn serialized_type_field_is_derived_from_payload() {
    let block = Block::new(BlockData::Header(HeaderData::new("t".to_string(), 1)));
    assert_eq!(block.tag(), "header");
    let mut scheme = Scheme::with_time(0);
    scheme.add_block(block);
    assert!(scheme.to_json().contains(r#""type":"header""#));
}

#[test]
fn escaping_is_applied_on_output() {
    let mut scheme = Scheme::with_time(0);
    scheme.add_block(Block::with_id(
        "x".to_string(),
        BlockData::Paragraph(ParagraphData::new("a\"b\\c\nd".to_string())),
    ));
    let expect = r#"{"time":0,"version":"2.12.4","blocks":[{"id":"x","type":"paragraph","data":{"text":"a\"b\\c\nd"}}]}"#;
    assert_eq!(scheme.to_json(), expect);
}

#[test]
fn fields_may_come_in_any_order_on_input() {
    let input = r#"{"version":"2.12.4","blocks":[{"data":{"level":2,"text":"T"},"type":"header","id":"k"}],"time":9}"#;
    let parsed = Scheme::from_json(input).unwrap();
    assert_eq!(parsed.time(), 9);
    assert_eq!(parsed.blocks()[0].id(), "k");
    match parsed.blocks()[0].data() {
        BlockData::Header(h) => {
            assert_eq!(h.text(), "T");
            assert_eq!(h.level(), 2);
        }
        _ => panic!("Expected header block"),
    }
}

#[test]
fn from_value_runs_the_same_two_phase_decode() {
    let value = JsonValue::Obj(vec![
        ("time".to_string(), JsonValue::UInt(5)),
        ("version".to_string(), JsonValue::Str("2.12.4".to_string())),
        (
            "blocks".to_string(),
            JsonValue::Arr(vec![JsonValue::Obj(vec![
                ("id".to_string(), JsonValue::Str("b1".to_string())),
                ("type".to_string(), JsonValue::Str("paragraph".to_string())),
                (
                    "data".to_string(),
                    JsonValue::Obj(vec![(
                        "text".to_string(),
                        JsonValue::Str("hello".to_string()),
                    )]),
                ),
            ])]),
        ),
    ]);
    let parsed = Scheme::from_value(value).unwrap();
    assert_eq!(parsed.time(), 5);
    assert_eq!(parsed.blocks().len(), 1);
    assert_eq!(parsed.blocks()[0].tag(), "paragraph");
}

#[test]
fn new_reads_the_clock_and_starts_empty() {
    let scheme = Scheme::new().unwrap();
    assert_eq!(scheme.version(), "2.12.4");
    assert!(scheme.blocks().is_empty());
}

#[test]
fn unicode_escapes_are_decoded() {
    let input = r#"{"time":1,"version":"2.12.4","blocks":[{"id":"a","type":"paragraph","data":{"text":"Aé\u0001"}}]}"#;
    let parsed = Scheme::from_json(input).unwrap();
    match parsed.blocks()[0].data() {
        BlockData::Paragraph(p) => assert_eq!(p.text(), "A\u{e9}\u{1}"),
        _ => panic!("Expected paragraph block"),
    }
}

#[test]
fn bad_escapes_are_rejected() {
    let bad_code = r#"{"time":1,"version":"2.12.4","blocks":[{"id":"a","type":"paragraph","data":{"text":"\q"}}]}"#;
    assert_eq!(Scheme::from_json(bad_code), Err(Error::InvalidJson));
    let surrogate = r#"{"time":1,"version":"2.12.4","blocks":[{"id":"a","type":"paragraph","data":{"text":"\ud800"}}]}"#;
    assert_eq!(Scheme::from_json(surrogate), Err(Error::InvalidJson));
}
