use crosser::builder::{ArrayStream, Next};
use crosser::buildlog::{BuildLog, LogError};
use crosser::json::Json;

fn next_value(st: &mut ArrayStream) -> Json {
    match st.try_next() {
        Next::Val(j) => j,
        _ => panic!("expected a value"),
    }
}

fn obj_field<'a>(j: &'a Json, key: &[u8]) -> Option<&'a Json> {
    match j {
        Json::Obj(ms) => {
            let mut found = None;
            for (k, v) in ms.iter() {
                if k.as_slice() == key {
                    found = Some(v);
                }
            }
            found
        }
        _ => None,
    }
}

#[test]
fn chunked_objects_decode_like_whole() {
    // The two chunks cut the first object in half.
    let mut st = ArrayStream::new();
    st.extend(b"[{\"a\":1");
    assert!(matches!(st.try_next(), Next::Pending));
    st.extend(b"},{\"b\":2}]");
    let first = next_value(&mut st);
    match obj_field(&first, b"a") {
        Some(Json::Num(t)) => assert_eq!(t.as_slice(), b"1"),
        _ => panic!("first value should be an object with a number at key a"),
    }
    let second = next_value(&mut st);
    match obj_field(&second, b"b") {
        Some(Json::Num(t)) => assert_eq!(t.as_slice(), b"2"),
        _ => panic!("second value should be an object with a number at key b"),
    }
    assert!(matches!(st.try_next(), Next::Closed));

    // Decoding the whole array at once yields the same two objects.
    let mut whole = ArrayStream::new();
    whole.extend(b"[{\"a\":1},{\"b\":2}]");
    let w1 = next_value(&mut whole);
    let w2 = next_value(&mut whole);
    assert!(matches!(obj_field(&w1, b"a"), Some(Json::Num(t)) if t.as_slice() == b"1"));
    assert!(matches!(obj_field(&w2, b"b"), Some(Json::Num(t)) if t.as_slice() == b"2"));
    assert!(matches!(whole.try_next(), Next::Closed));
}

#[test]
fn byte_by_byte_chunks_decode_like_whole() {
    let text: &[u8] = b"[\"x\", true, null, [1,2], {\"k\":\"v\"}]";
    let mut st = ArrayStream::new();
    let mut values = Vec::new();
    for b in text {
        st.extend(std::slice::from_ref(b));
        loop {
            match st.try_next() {
                Next::Val(j) => values.push(j),
                _ => break,
            }
        }
    }
    assert_eq!(values.len(), 5);
    assert!(matches!(&values[0], Json::Str(t) if t.as_slice() == b"x"));
    assert!(matches!(&values[1], Json::Bool(true)));
    assert!(matches!(&values[2], Json::Null));
    match &values[3] {
        Json::Arr(items) => assert_eq!(items.len(), 2),
        _ => panic!("fourth value should be an array"),
    }
    match &values[4] {
        Json::Obj(ms) => {
            assert_eq!(ms.len(), 1);
            assert_eq!(ms[0].0.as_slice(), b"k");
        }
        _ => panic!("fifth value should be an object"),
    }
}

#[test]
fn number_waits_for_a_delimiter() {
    // The digits could continue, so nothing is yielded until the `]`.
    let mut st = ArrayStream::new();
    st.extend(b"[12");
    assert!(matches!(st.try_next(), Next::Pending));
    st.extend(b"]");
    assert!(matches!(st.try_next(), Next::Val(Json::Num(t)) if t.as_slice() == b"12"));
    assert!(matches!(st.try_next(), Next::Closed));
}

#[test]
fn stream_without_closing_bracket_keeps_yielding() {
    let mut st = ArrayStream::new();
    st.extend(b"[{\"m\":\"one\"}\n,{\"m\":\"two\"}");
    assert!(matches!(next_value(&mut st), Json::Obj(_)));
    assert!(matches!(next_value(&mut st), Json::Obj(_)));
    assert!(matches!(st.try_next(), Next::Pending));
}

#[test]
fn malformed_content_is_reported() {
    let mut st = ArrayStream::new();
    st.extend(b"[#oops]");
    assert!(matches!(st.try_next(), Next::Bad));
}

#[test]
fn string_escapes_stay_in_raw_contents() {
    let mut st = ArrayStream::new();
    st.extend(b"[\"a\\\"b\"]");
    assert!(matches!(st.try_next(), Next::Val(Json::Str(t)) if t.as_slice() == b"a\\\"b"));
}

fn apply_text(log: &mut BuildLog, text: &[u8]) {
    let mut st = ArrayStream::new();
    st.extend(text);
    loop {
        match st.try_next() {
            Next::Val(j) => {
                log.apply(&j).expect("control message should be accepted");
            }
            _ => break,
        }
    }
}

#[test]
fn verdict_is_last_success_flag() {
    let mut log = BuildLog::new();
    apply_text(
        &mut log,
        b"[{\"isSuccess\":false},{\"message\":\"x\"},{\"isSuccess\":true}]",
    );
    assert!(log.verdict());
}

#[test]
fn verdict_defaults_to_false() {
    let mut log = BuildLog::new();
    apply_text(&mut log, b"[{\"message\":\"x\"}]");
    assert!(!log.verdict());
}

#[test]
fn replace_renders_only_the_second_line() {
    let mut log = BuildLog::new();
    apply_text(&mut log, b"[{\"message\":\"a\"},{\"message\":\"b\",\"replace\":true}]");
    let lines = log.visible_lines();
    assert_eq!(lines.len(), 1);
    assert_eq!(lines[0].as_slice(), b"b");
}

#[test]
fn cursor_erase_removes_previous_line() {
    let mut log = BuildLog::new();
    apply_text(
        &mut log,
        b"[{\"message\":\"a\"},{\"message\":\"b\"},{\"resource\":\"cursor\",\"value\":\"erase\"}]",
    );
    let lines = log.visible_lines();
    assert_eq!(lines.len(), 1);
    assert_eq!(lines[0].as_slice(), b"a");
}

#[test]
fn non_object_message_is_an_error() {
    let mut log = BuildLog::new();
    let mut st = ArrayStream::new();
    st.extend(b"[42]");
    match st.try_next() {
        Next::Val(j) => assert_eq!(log.apply(&j), Err(LogError::NotObject)),
        _ => panic!("expected the number to decode"),
    }
}

#[test]
fn non_boolean_flag_is_an_error() {
    let mut log = BuildLog::new();
    let mut st = ArrayStream::new();
    st.extend(b"[{\"isSuccess\":1}]");
    match st.try_next() {
        Next::Val(j) => assert_eq!(log.apply(&j), Err(LogError::FlagNotBool)),
        _ => panic!("expected the object to decode"),
    }
}

#[test]
fn rejected_message_changes_nothing() {
    let mut log = BuildLog::new();
    apply_text(&mut log, b"[{\"message\":\"keep\"}]");
    let mut st = ArrayStream::new();
    st.extend(b"[{\"message\":7}]");
    match st.try_next() {
        Next::Val(j) => assert_eq!(log.apply(&j), Err(LogError::TextNotString)),
        _ => panic!("expected the object to decode"),
    }
    assert_eq!(log.visible_lines().len(), 1);
    assert_eq!(log.visible_lines()[0].as_slice(), b"keep");
}

#[test]
fn unescape_resolves_simple_escapes() {
    let raw = b"a\\n\\t\\\"\\\\b\\/".to_vec();
    assert_eq!(
        crosser::json::unescape(&raw),
        Some(b"a\n\t\"\\b/".to_vec())
    );
}

#[test]
fn unescape_encodes_unicode_escapes_as_utf8() {
    // One byte, two bytes, three bytes.
    assert_eq!(crosser::json::unescape(&b"\\u0041".to_vec()), Some(b"A".to_vec()));
    assert_eq!(
        crosser::json::unescape(&b"\\u00e9".to_vec()),
        Some(vec![0xC3, 0xA9])
    );
    assert_eq!(
        crosser::json::unescape(&b"\\u20ac".to_vec()),
        Some(vec![0xE2, 0x82, 0xAC])
    );
}

#[test]
fn unescape_rejects_invalid_escapes() {
    assert_eq!(crosser::json::unescape(&b"a\\q".to_vec()), None);
    assert_eq!(crosser::json::unescape(&b"end\\".to_vec()), None);
    assert_eq!(crosser::json::unescape(&b"\\u12g4".to_vec()), None);
    assert_eq!(crosser::json::unescape(&b"\\u12".to_vec()), None);
}

#[test]
fn unescape_keeps_plain_bytes() {
    let raw = b"plain text 123".to_vec();
    assert_eq!(crosser::json::unescape(&raw), Some(raw.clone()));
}

fn json_eq(a: &Json, b: &Json) -> bool {
    match (a, b) {
        (Json::Null, Json::Null) => true,
        (Json::Bool(x), Json::Bool(y)) => x == y,
        (Json::Num(x), Json::Num(y)) => x == y,
        (Json::Str(x), Json::Str(y)) => x == y,
        (Json::Arr(xs), Json::Arr(ys)) => {
            xs.len() == ys.len() && xs.iter().zip(ys.iter()).all(|(x, y)| json_eq(x, y))
        }
        (Json::Obj(xs), Json::Obj(ys)) => {
            xs.len() == ys.len()
                && xs
                    .iter()
                    .zip(ys.iter())
                    .all(|((kx, x), (ky, y))| kx == ky && json_eq(x, y))
        }
        _ => false,
    }
}

fn collect_values(chunks: &[&[u8]]) -> Vec<Json> {
    let mut st = ArrayStream::new();
    let mut values = Vec::new();
    for chunk in chunks {
        st.extend(chunk);
        loop {
            match st.try_next() {
                Next::Val(j) => values.push(j),
                _ => break,
            }
        }
    }
    values
}

#[test]
fn every_two_chunk_partition_decodes_alike() {
    let text: &[u8] = b"[{\"a\":[1,{\"b\":\"c\"}]},true,\"d\",null,-2.5e3]";
    let reference = collect_values(&[text]);
    assert_eq!(reference.len(), 5);
    for cut in 0..=text.len() {
        let values = collect_values(&[&text[..cut], &text[cut..]]);
        assert_eq!(values.len(), reference.len(), "split at {}", cut);
        for (v, r) in values.iter().zip(reference.iter()) {
            assert!(json_eq(v, r), "split at {}", cut);
        }
    }
}
