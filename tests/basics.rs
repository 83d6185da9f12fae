use infer_server::channel_id::hashed;
use infer_server::meter::Meter;
use infer_server::multipart::{as_jpeg_stream_item, parse_stream_item};
use infer_server::protocol::{FrameMsg, Protocol, StreamParams};

#[test]
fn stream_item_framing() {
    let item = as_jpeg_stream_item(&[0xff, 0xd8, 0x01]);
    let mut expected = b"--frame\r\nContent-Type: image/jpeg\r\n\r\n".to_vec();
    expected.extend_from_slice(&[0xff, 0xd8, 0x01]);
    expected.extend_from_slice(b"\r\n\r\n");
    assert_eq!(item, expected);
}

#[test]
fn stream_item_round_trip() {
    let jpeg = vec![0xffu8, 0xd8, 0xff, 0xe0, 0x00, 0x10, 0xff, 0xd9];
    let item = as_jpeg_stream_item(&jpeg);
    assert_eq!(parse_stream_item(&item), Some(jpeg));
    let empty = as_jpeg_stream_item(&[]);
    assert_eq!(parse_stream_item(&empty), Some(vec![]));
}

#[test]
fn malformed_stream_items_are_rejected() {
    assert_eq!(parse_stream_item(b"--frame\r\n"), None);
    let mut item = as_jpeg_stream_item(&[1, 2, 3]);
    item.pop();
    assert_eq!(parse_stream_item(&item), None);
    let mut item = as_jpeg_stream_item(&[1, 2, 3]);
    item[2] = b'F';
    assert_eq!(parse_stream_item(&item), None);
}

#[test]
fn channel_ids_are_stable() {
    assert_eq!(hashed("cam"), hashed("cam"));
    assert_ne!(hashed("cam"), hashed("cam2"));
    assert_ne!(hashed(""), hashed("a"));
}

#[test]
fn meter_counts_and_resets() {
    let mut m = Meter::new();
    m.tick_raw();
    m.tick_raw();
    m.tick_infered();
    assert_eq!(m.get_reset_raw(), 2);
    assert_eq!(m.get_reset_raw(), 0);
    assert_eq!(m.get_reset_infered(), 1);
    assert_eq!(m.get_reset_infered(), 0);
}

#[test]
fn protocol_names() {
    assert_eq!(Protocol::parse("tcp"), Ok(Protocol::Tcp));
    assert_eq!(Protocol::parse("Tcp"), Ok(Protocol::Tcp));
    assert_eq!("TCP".parse::<Protocol>(), Ok(Protocol::Tcp));
    assert_eq!(Protocol::parse("udp"), Err("udp".to_string()));
    assert_eq!(Protocol::parse("tCp"), Err("tCp".to_string()));
}

#[test]
fn stream_params_default_name() {
    assert_eq!(StreamParams { name: None }.channel_name(), "unknown");
    assert_eq!(StreamParams { name: Some("cam".to_string()) }.channel_name(), "cam");
}

#[test]
fn frame_msg_new() {
    let m = FrameMsg::new("bla".to_string(), vec![1, 2, 3]);
    assert_eq!(m.id, "bla");
    assert_eq!(m.data, vec![1, 2, 3]);
}
