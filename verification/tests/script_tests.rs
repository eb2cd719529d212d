use nomad_core::announce::{announce_packet, APP_NAME};
use nomad_core::cli::{log_level, LogLevel};
use nomad_core::script::{decode_field_names, engine_limits, error_page, field_name, script_response};
use rmpv::Value;

#[test]
fn error_page_text() {
    assert_eq!(
        error_page("/page/clock.mu", "boom"),
        b">Script error\n\n`[/page/clock.mu`]\n\nboom\n".to_vec()
    );
}

#[test]
fn script_responses() {
    assert_eq!(script_response("/page/x.mu", Ok(b"hi".to_vec())), b"hi".to_vec());
    assert_eq!(
        script_response("/page/x.mu", Err("bad".to_string())),
        b">Script error\n\n`[/page/x.mu`]\n\nbad\n".to_vec()
    );
}

#[test]
fn field_names() {
    assert_eq!(field_name("field_user"), "user");
    assert_eq!(field_name("user"), "user");
    assert_eq!(field_name("field_"), "");
}

#[test]
fn limits() {
    let l = engine_limits();
    assert_eq!(l.max_operations, 500_000);
    assert_eq!((l.max_expr_depth, l.max_function_expr_depth), (64, 32));
    assert_eq!((l.max_string_size, l.max_array_size, l.max_map_size), (1_000, 1_000, 1_000));
}

#[test]
fn announce_framing() {
    assert_eq!(APP_NAME, "nomadnetwork.node");
    assert_eq!(announce_packet(&[1, 2], &[3, 4, 5]), vec![1, 2, 3, 4, 5]);
    assert_eq!(announce_packet(&[], &[]), Vec::<u8>::new());
}

#[test]
fn log_levels() {
    assert_eq!(log_level(0), LogLevel::Info);
    assert_eq!(log_level(1), LogLevel::Debug);
    assert_eq!(log_level(5), LogLevel::Trace);
}

fn msgpack(value: &Value) -> Vec<u8> {
    let mut buf = Vec::new();
    rmpv::encode::write_value(&mut buf, value).unwrap();
    buf
}

#[test]
fn form_field_names() {
    assert!(decode_field_names(&[]).is_empty());
    assert!(decode_field_names(&msgpack(&Value::from(5))).is_empty());
    assert!(decode_field_names(&[0xc1]).is_empty());
    let map = Value::Map(vec![
        (Value::from("field_a"), Value::from(1)),
        (Value::from("b"), Value::from(2)),
        (Value::from(7), Value::from(3)),
        (Value::from("a"), Value::from(4)),
    ]);
    assert_eq!(
        decode_field_names(&msgpack(&map)),
        vec![("a".to_string(), 3), ("b".to_string(), 1)]
    );
    let empty = Value::Map(vec![]);
    assert!(decode_field_names(&msgpack(&empty)).is_empty());
}
