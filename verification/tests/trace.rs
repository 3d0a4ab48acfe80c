use n2::trace::{render_decimal, Trace};

#[test]
fn decimal_rendering() {
    assert_eq!(render_decimal(0), b"0".to_vec());
    assert_eq!(render_decimal(7), b"7".to_vec());
    assert_eq!(render_decimal(10), b"10".to_vec());
    assert_eq!(render_decimal(1234567890), b"1234567890".to_vec());
    assert_eq!(render_decimal(u64::MAX), b"18446744073709551615".to_vec());
}

#[test]
fn trace_stream_bytes() {
    let mut t = Trace::new();
    t.write_complete("load::read", 0, 12, 34);
    t.write_complete("work.run", 1, 50, 600);
    t.close(700);
    let bytes = t.into_bytes();
    let text = String::from_utf8(bytes).expect("trace is valid utf-8");
    let expected = "[\n\
        {\"pid\":0, \"name\":\"load::read\", \"ts\":12, \"tid\": 0, \"ph\":\"X\", \"dur\":34}\n\
        ,{\"pid\":0, \"name\":\"work.run\", \"ts\":50, \"tid\": 1, \"ph\":\"X\", \"dur\":600}\n\
        ,{\"pid\":0, \"name\":\"main\", \"ts\":0, \"tid\": 0, \"ph\":\"X\", \"dur\":700}\n\
        ]\n";
    assert_eq!(text, expected);
}

#[test]
fn trace_array_shape() {
    let mut t = Trace::new();
    t.close(1);
    let text = String::from_utf8(t.into_bytes()).unwrap();
    assert!(text.starts_with('['));
    assert!(text.ends_with("]\n"));
    assert_eq!(text.matches('{').count(), 1);
}

#[test]
fn event_names_are_escaped() {
    let mut t = Trace::new();
    t.write_complete("a\"b\\c\nd", 0, 0, 1);
    t.close(2);
    let text = String::from_utf8(t.into_bytes()).unwrap();
    assert!(text.contains("\"name\":\"a\\\"b\\\\c\\u000ad\""));
}
