use jsonparse::framer::Framer;

fn frame_in_chunks(stream: &[u8], size: usize) -> Vec<Vec<u8>> {
    let mut framer = Framer::new();
    let mut out = Vec::new();
    for chunk in stream.chunks(size) {
        out.extend(framer.feed(chunk));
    }
    out
}

#[test]
fn frames_two_adjacent_objects() {
    let mut f = Framer::new();
    let out = f.feed(b"{\"a\":1}{\"b\":2}");
    assert_eq!(out, vec![b"{\"a\":1}".to_vec(), b"{\"b\":2}".to_vec()]);
}

#[test]
fn ignores_what_stands_between_objects() {
    let mut f = Framer::new();
    let out = f.feed(b" \n{\"a\":1} ,\r\n\t {\"b\":2}\n");
    assert_eq!(out, vec![b"{\"a\":1}".to_vec(), b"{\"b\":2}".to_vec()]);
}

#[test]
fn keeps_nested_objects_whole() {
    let mut f = Framer::new();
    let out = f.feed(b"{\"a\":{\"b\":{\"c\":1}}}{}");
    assert_eq!(out, vec![b"{\"a\":{\"b\":{\"c\":1}}}".to_vec(), b"{}".to_vec()]);
}

#[test]
fn braces_inside_strings_do_not_count() {
    let mut f = Framer::new();
    let out = f.feed(b"{\"a\":\"}{\"}{\"b\":\"{{{\"}");
    assert_eq!(out, vec![b"{\"a\":\"}{\"}".to_vec(), b"{\"b\":\"{{{\"}".to_vec()]);
}

#[test]
fn escaped_quote_does_not_end_a_string() {
    let mut f = Framer::new();
    let out = f.feed(b"{\"a\":\"x\\\"}\"}{\"b\":1}");
    assert_eq!(out, vec![b"{\"a\":\"x\\\"}\"}".to_vec(), b"{\"b\":1}".to_vec()]);
}

#[test]
fn escaped_backslash_before_quote_ends_the_string() {
    let mut f = Framer::new();
    let out = f.feed(b"{\"a\":\"x\\\\\"}{\"b\":1}");
    assert_eq!(out, vec![b"{\"a\":\"x\\\\\"}".to_vec(), b"{\"b\":1}".to_vec()]);
}

#[test]
fn unclosed_last_object_is_dropped() {
    let mut f = Framer::new();
    let out = f.feed(b"{\"a\":1}{\"b\":");
    assert_eq!(out, vec![b"{\"a\":1}".to_vec()]);
}

#[test]
fn empty_chunk_gives_nothing() {
    let mut f = Framer::new();
    assert!(f.feed(b"").is_empty());
    assert_eq!(f.feed(b"{}"), vec![b"{}".to_vec()]);
}

#[test]
fn object_split_across_chunks_is_one_record() {
    let mut object = b"{\"company\":\"".to_vec();
    for _ in 0..50 {
        object.extend_from_slice(b"a}b{c\\\"d");
    }
    object.extend_from_slice(b"\",\"note\":\"}\"}");
    assert!(object.len() > 64);
    let mut stream = object.clone();
    stream.extend_from_slice(b"\n{\"x\":1}");
    let out = frame_in_chunks(&stream, 64);
    assert_eq!(out, vec![object, b"{\"x\":1}".to_vec()]);
}

#[test]
fn object_spanning_three_chunks_comes_out_whole() {
    let mut f = Framer::new();
    assert!(f.feed(b"  {\"a\":").is_empty());
    assert!(f.feed(b"[1,2,3],").is_empty());
    let out = f.feed(b"\"b\":2} {\"c\"");
    assert_eq!(out, vec![b"{\"a\":[1,2,3],\"b\":2}".to_vec()]);
    let out = f.feed(b":3}");
    assert_eq!(out, vec![b"{\"c\":3}".to_vec()]);
}

#[test]
fn object_that_starts_at_a_chunk_start_is_carried() {
    let mut f = Framer::new();
    assert!(f.feed(b"{\"a\":1").is_empty());
    assert_eq!(f.feed(b"}"), vec![b"{\"a\":1}".to_vec()]);
}

#[test]
fn string_state_is_carried_across_chunks() {
    let mut f = Framer::new();
    assert!(f.feed(b"{\"a\":\"x\\").is_empty());
    assert!(f.feed(b"\"}").is_empty());
    assert_eq!(f.feed(b"\"}"), vec![b"{\"a\":\"x\\\"}\"}".to_vec()]);
}

#[test]
fn chunking_does_not_change_the_result() {
    let stream = b" {\"a\":\"}\\\"{\"} \n{\"b\":{\"c\":[{\"d\":\"\\\\\"}]}}{}\t{\"e\":1} {\"open\":";
    let whole = frame_in_chunks(stream, stream.len());
    assert_eq!(whole.len(), 4);
    for size in 1..stream.len() {
        assert_eq!(frame_in_chunks(stream, size), whole);
    }
}

#[test]
fn closing_brace_at_top_level_hides_what_follows_until_depth_returns() {
    let mut f = Framer::new();
    assert!(f.feed(b"} {\"a\":1}").is_empty());
    assert_eq!(f.feed(b"{{\"b\":2}"), vec![b"{\"b\":2}".to_vec()]);
}

#[test]
fn frames_k_objects_for_k_in_stream() {
    let mut stream = Vec::new();
    let mut expected = Vec::new();
    for i in 0..1000 {
        let object = format!("{{\"company\":\"c{}\",\"phones\":[\"{}\"],\"debt\":{}}}", i, i, i)
            .into_bytes();
        stream.extend_from_slice(b" \n");
        stream.extend_from_slice(&object);
        expected.push(object);
    }
    assert_eq!(frame_in_chunks(&stream, 97), expected);
}
