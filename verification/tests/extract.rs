use speak_local::analysis_extract::{extract_objects, ErrorObjectExtractor};

fn completed_objects(deltas: &[&str]) -> Vec<String> {
    let mut extractor = ErrorObjectExtractor::default();
    let mut out = Vec::new();
    for d in deltas {
        out.extend(extractor.feed(d));
    }
    out
}

#[test]
fn emits_each_object_when_closed() {
    let doc = r#"{"cefr_level":"B1","errors":[{"text":"he go","suggestion":"he goes","category":"grammar"},{"text":"discloyer","suggestion":"disclosure"}],"cefr_justification":"x"}"#;
    // Arbitrary small chunks, mimicking token streaming.
    let mut deltas = Vec::new();
    let mut rest = doc;
    while !rest.is_empty() {
        let cut = if rest.len() > 7 { 5 } else { rest.len() };
        let (head, tail) = rest.split_at(cut);
        deltas.push(head);
        rest = tail;
    }

    let objs = completed_objects(&deltas);
    // The two error objects must appear individually, in order; the
    // enclosing document object closes last.
    assert!(objs.len() >= 3, "got {objs:?}");
    assert!(objs[0].contains("he go"));
    assert!(objs[1].contains("discloyer"));
}

#[test]
fn single_delta_whole_document_yields_objects_plus_document() {
    let doc = r#"{"errors":[{"text":"a","suggestion":"b","category":"grammar","criticality":3,"context":"","explanation":""}]}"#;
    let objs = extract_objects(doc);
    // The error object plus the enclosing document object ("text" absent
    // at the top level — callers decide what parses as an error).
    assert_eq!(objs.len(), 2);
    assert!(objs[0].contains("\"a\""));
}

#[test]
fn braces_inside_strings_do_not_split_objects() {
    let doc = r#"{"errors":[{"text":"use {braces} here","suggestion":"use braces here","category":"grammar"}]}"#;
    let objs = extract_objects(doc);
    assert!(objs.iter().any(|o| o.contains("use {braces} here")));
}

#[test]
fn incomplete_document_emits_nothing_until_closed() {
    let doc = r#"{"errors":[{"text":"partia"#;
    let objs = extract_objects(doc);
    assert!(objs.is_empty());
}

#[test]
fn chunks_do_not_matter() {
    let doc = r#"{"a":[{"t":"é}"},{"t":"\"{"}]}"#;
    let whole = completed_objects(&[doc]);
    assert_eq!(
        whole,
        vec![
            r#"{"t":"é}"}"#.to_string(),
            r#"{"t":"\"{"}"#.to_string(),
            doc.to_string(),
        ]
    );
    for cut in 0..doc.len() {
        if doc.is_char_boundary(cut) {
            let (a, b) = doc.split_at(cut);
            assert_eq!(completed_objects(&[a, b]), whole);
        }
    }
}

#[test]
fn escapes_are_followed_inside_strings() {
    assert_eq!(completed_objects(&[r#"{"a":"\\"}"#]), vec![r#"{"a":"\\"}"#.to_string()]);
    assert!(completed_objects(&[r#"{"a":"\""#, "}"]).is_empty());
}

#[test]
fn equal_objects_are_handed_out_once_per_document() {
    let doc = r#"[{"x":1},{"x":1},{"x":2}]"#;
    assert_eq!(extract_objects(doc), vec![r#"{"x":1}"#.to_string(), r#"{"x":2}"#.to_string()]);
    assert_eq!(completed_objects(&[doc]).len(), 3);
}

#[test]
fn unmatched_closers_are_ignored() {
    assert_eq!(completed_objects(&["}]{\"a\":1}"]), vec!["{\"a\":1}".to_string()]);
}

#[test]
fn exactly_the_matched_braces_are_handed_out() {
    // Surplus closers, strings, nesting, and an opener that is never closed.
    let doc = r#"}] {"a":"}{","b":[{},{"c":{}}]} ] {"d": {"e":1}"#;
    let expected = ["{}", "{}", "{\"c\":{}}", r#"{"a":"}{","b":[{},{"c":{}}]}"#, r#"{"e":1}"#];
    assert_eq!(completed_objects(&[doc]), expected);
    let mut extractor = ErrorObjectExtractor::default();
    for (i, c) in doc.chars().enumerate() {
        let found = extractor.feed(&c.to_string());
        assert_eq!(extractor.read_len(), i + 1);
        if c != '}' {
            assert!(found.is_empty());
        }
    }
}
