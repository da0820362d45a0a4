use editorjs::header::HeaderData;
use editorjs::paragraph::ParagraphData;
use editorjs::scheme::{Block, BlockData, Scheme};

const HEADER_OUTPUT_EXAMPLE: &str = r#"
    {
        "time": 1550476186479,
        "version": "2.12.4",
        "blocks": [
           {
              "id": "oUq2g_tl8y",
              "type": "header",
              "data": {
                 "text": "Editor.js",
                 "level": 2
              }
           }
        ]
    }
    "#;

const PARAGRAPH_OUTPUT_EXAMPLE: &str = r#"
    {
        "time": 1550476186479,
        "version": "2.12.4",
        "blocks": [
          {
            "id": "zbGZFPM-iI",
            "type": "paragraph",
            "data": {
               "text": "Hey. Meet the new Editor. On this page you can see it in action — try to edit this text. Source code of the page contains the example of connection and configuration."
            }
          }
        ]
    }
    "#;

#[test]
fn builds_header_from_output() {
    let block: Scheme = Scheme::from_json(HEADER_OUTPUT_EXAMPLE).unwrap();
    let header = block.blocks()[0].data().clone();

    match header {
        BlockData::Header(header) => {
            assert_eq!(header.text(), "Editor.js");
            assert_eq!(header.level(), 2);
        }
        _ => panic!("Expected header block"),
    }
}

#[test]
fn searializes_header_from_scheme() {
    let mut scheme = Scheme::new().unwrap();
    let header = HeaderData::new("Editor.js".to_string(), 2);
    let time = scheme.time();
    let block = Block::new(BlockData::Header(header));
    let expect = format!(
        r#"{{"time":{time},"version":"2.12.4","blocks":[{{"id":"{block_id}","type":"header","data":{{"text":"Editor.js","level":2}}}}]}}"#,
        block_id = block.id(),
        time = time
    );

    scheme.add_block(block);

    assert_eq!(scheme.to_json(), expect);
}

#[test]
fn builds_paragraph_from_output() {
    let block: Scheme = Scheme::from_json(PARAGRAPH_OUTPUT_EXAMPLE).unwrap();
    let paragraph = block.blocks()[0].data().clone();

    match paragraph {
        BlockData::Paragraph(paragraph) => {
            assert_eq!(
                paragraph.text(),
                "Hey. Meet the new Editor. On this page you can see it in action — try to edit this text. Source code of the page contains the example of connection and configuration."
            );
        }
        _ => panic!("Expected paragraph block"),
    }
}

#[test]
fn searializes_paragraph_from_scheme() {
    let mut scheme = Scheme::new().unwrap();
    let paragraph = ParagraphData::new("Hey. Meet the new Editor. On this page you can see it in action — try to edit this text. Source code of the page contains the example of connection and configuration.".to_string());
    let time = scheme.time();
    let block = Block::new(BlockData::Paragraph(paragraph));
    let expect = format!(
        r#"{{"time":{time},"version":"2.12.4","blocks":[{{"id":"{block_id}","type":"paragraph","data":{{"text":"Hey. Meet the new Editor. On this page you can see it in action — try to edit this text. Source code of the page contains the example of connection and configuration."}}}}]}}"#,
        block_id = block.id(),
        time = time
    );

    scheme.add_block(block);

    assert_eq!(scheme.to_json(), expect);
}

#[test]
fn literal_scenario_round_trips() {
    let input = r#"{"time":1550476186479,"version":"2.12.4","blocks":[{"id":"oUq2g_tl8y","type":"header","data":{"text":"Editor.js","level":2}}]}"#;
    let parsed = Scheme::from_json(input).unwrap();
    assert_eq!(parsed.time(), 1550476186479);
    assert_eq!(parsed.version(), "2.12.4");
    assert_eq!(parsed.blocks().len(), 1);
    match parsed.blocks()[0].data() {
        BlockData::Header(h) => {
            assert_eq!(h.text(), "Editor.js");
            assert_eq!(h.level(), 2);
        }
        _ => panic!("Expected header block"),
    }

    let mut fresh = Scheme::with_time(1550476186479);
    let block = Block::new(BlockData::Header(HeaderData::new("Editor.js".to_string(), 2)));
    let fresh_id = block.id();
    fresh.add_block(block);
    let emitted = fresh.to_json().replace(&fresh_id, "oUq2g_tl8y");
    assert_eq!(emitted, input);
}
