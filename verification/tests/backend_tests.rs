use backend::board::Board;
use backend::color::Rgb;
use backend::codec::{decode_reply, encode_reply, encode_request, handle_request, Request, WireValue};
use backend::daemon::{BoardId, Daemon, DaemonDummy};
use backend::Backend;

#[test]
fn dummy_refresh_lifecycle() {
    let mut backend =
        Backend::new_dummy(vec!["Launch Lite".to_owned(), "Launch".to_owned()]).unwrap();
    let ev = backend.refresh();
    assert_eq!(ev.removed.len(), 0);
    assert_eq!(ev.added, vec![BoardId(0), BoardId(1)]);
    assert!(backend.board(BoardId(0)).is_some());
    assert!(backend.board(BoardId(1)).is_some());
    assert_eq!(backend.board(BoardId(0)).unwrap().model().as_str(), "Launch Lite");
    assert_eq!(backend.board(BoardId(1)).unwrap().model().as_str(), "Launch");

    assert!(backend.remove_dummy_board(0));
    let ev2 = backend.refresh();
    assert_eq!(ev2.added.len(), 0);
    assert_eq!(ev2.removed.len(), 1);
    assert_eq!(ev2.removed[0].board(), BoardId(0));
    assert!(backend.board(BoardId(0)).is_none());
    assert!(backend.board(BoardId(1)).is_some());
    assert_eq!(backend.board_ids(), vec![BoardId(1)]);
}

#[test]
fn dummy_refresh_lifecycle_specialized() {
    let mut backend =
        Backend::new_dummy(vec!["Launch Lite".to_owned(), "Launch".to_owned()]).unwrap();
    let ev = backend.refresh_dummy();
    assert_eq!(ev.removed.len(), 0);
    assert_eq!(ev.added, vec![BoardId(0), BoardId(1)]);
    assert!(backend.remove_dummy_board(0));
    let ev2 = backend.refresh_dummy();
    assert_eq!(ev2.added.len(), 0);
    assert_eq!(ev2.removed.len(), 1);
    assert_eq!(ev2.removed[0].board(), BoardId(0));
    assert!(backend.board(BoardId(0)).is_none());
    assert!(backend.board(BoardId(1)).is_some());
}

#[test]
fn refresh_is_stable_without_changes() {
    let mut backend = Backend::new_dummy(vec!["Launch".to_owned()]).unwrap();
    let ev = backend.refresh();
    assert_eq!(ev.added.len(), 1);
    let ev2 = backend.refresh();
    assert_eq!(ev2.added.len(), 0);
    assert_eq!(ev2.removed.len(), 0);
}

#[test]
fn remove_dummy_board_out_of_range() {
    let mut backend = Backend::new_dummy(vec!["Launch".to_owned()]).unwrap();
    assert!(!backend.remove_dummy_board(5));
}

#[test]
fn dummy_keymap_set_then_get() {
    let mut d = DaemonDummy::new(vec!["Launch".to_owned()]);
    assert_eq!(d.keymap_get(BoardId(0), 0, 1, 2).unwrap(), 0);
    d.keymap_set(BoardId(0), 0, 1, 2, 42).unwrap();
    assert_eq!(d.keymap_get(BoardId(0), 0, 1, 2).unwrap(), 42);
    d.keymap_set(BoardId(0), 0, 1, 2, 7).unwrap();
    assert_eq!(d.keymap_get(BoardId(0), 0, 1, 2).unwrap(), 7);
    assert_eq!(d.keymap_get(BoardId(0), 0, 1, 3).unwrap(), 0);
    assert!(d.keymap_set(BoardId(9), 0, 1, 2, 42).is_err());
}

#[test]
fn dummy_color_and_brightness_shadow() {
    let mut d = DaemonDummy::new(vec!["Launch".to_owned()]);
    assert_eq!(d.color(BoardId(0), 3).unwrap(), Rgb { r: 0, g: 0, b: 0 });
    d.set_color(BoardId(0), 3, Rgb { r: 1, g: 2, b: 3 }).unwrap();
    assert_eq!(d.color(BoardId(0), 3).unwrap(), Rgb { r: 1, g: 2, b: 3 });
    assert_eq!(d.max_brightness(BoardId(0)).unwrap(), 100);
    assert_eq!(d.brightness(BoardId(0), 0).unwrap(), 0);
    d.set_brightness(BoardId(0), 0, 55).unwrap();
    assert_eq!(d.brightness(BoardId(0), 0).unwrap(), 55);
    assert_eq!(d.mode(BoardId(0), 1).unwrap(), (0, 0));
    d.set_mode(BoardId(0), 1, 4, 9).unwrap();
    assert_eq!(d.mode(BoardId(0), 1).unwrap(), (4, 9));
    d.led_save(BoardId(0)).unwrap();
    assert!(d.led_save(BoardId(1)).is_err());
}

#[test]
fn dummy_model_and_version() {
    let d = DaemonDummy::new(vec!["Launch".to_owned()]);
    assert_eq!(d.model(BoardId(0)).unwrap(), "Launch");
    assert_eq!(d.version(BoardId(0)).unwrap(), "dummy");
    assert!(d.model(BoardId(1)).is_err());
    assert_eq!(d.matrix_get(BoardId(0)).unwrap(), Vec::<u8>::new());
}

#[test]
fn board_cache_write_through() {
    let mut d = DaemonDummy::new(vec!["Launch".to_owned()]);
    let mut board = Board::new(&d, BoardId(0)).unwrap();
    assert_eq!(board.board(), BoardId(0));
    assert_eq!(board.model().as_str(), "Launch");
    assert_eq!(board.version().as_str(), "dummy");
    assert_eq!(board.keymap_cached(0, 1, 2), None);
    board.keymap_set(&mut d, 0, 1, 2, 42).unwrap();
    assert_eq!(board.keymap_cached(0, 1, 2), Some(42));
    assert_eq!(d.keymap_get(BoardId(0), 0, 1, 2).unwrap(), 42);
    assert_eq!(board.keymap_get(&d, 0, 1, 2).unwrap(), 42);
    assert!(Board::new(&d, BoardId(7)).is_err());
}

#[test]
fn board_cache_unchanged_on_failed_set() {
    let mut d = DaemonDummy::new(vec!["Launch".to_owned()]);
    let mut board = Board::new(&d, BoardId(0)).unwrap();
    board.keymap_set(&mut d, 0, 1, 2, 42).unwrap();
    d.remove_board(0);
    assert!(board.keymap_set(&mut d, 0, 1, 2, 9).is_err());
    assert_eq!(board.keymap_cached(0, 1, 2), Some(42));
}

#[test]
fn subprocess_framing_request() {
    let req = Request { op: "boards".to_owned(), args: Vec::new() };
    let bytes = encode_request(&req);
    assert_eq!(bytes, b"{\"op\":\"boards\",\"args\":[]}\n".to_vec());
    assert_eq!(bytes.iter().filter(|b| **b == b'\n').count(), 1);
    assert_eq!(*bytes.last().unwrap(), b'\n');
}

#[test]
fn subprocess_framing_round_trip() {
    let mut d = DaemonDummy::new(vec!["Launch Lite".to_owned(), "Launch".to_owned()]);
    let line = "{\"op\":\"boards\",\"args\":[]}";
    let req = backend::codec::decode_request(line).unwrap();
    assert_eq!(req.op, "boards");
    assert_eq!(req.args, Vec::<u64>::new());
    let reply = handle_request(&mut d, &req);
    let bytes = encode_reply(&reply);
    assert_eq!(bytes, b"{\"ok\":[0,1]}\n".to_vec());

    let req2 =
        backend::codec::decode_request("{\"op\":\"keymap_set\",\"args\":[0,0,1,2,42]}").unwrap();
    let reply2 = handle_request(&mut d, &req2);
    assert_eq!(encode_reply(&reply2), b"{\"ok\":null}\n".to_vec());
    let req3 =
        backend::codec::decode_request("{\"op\":\"keymap_get\",\"args\":[0,0,1,2]}").unwrap();
    let reply3 = handle_request(&mut d, &req3);
    assert_eq!(encode_reply(&reply3), b"{\"ok\":42}\n".to_vec());
}

#[test]
fn subprocess_unknown_op_and_errors() {
    let mut d = DaemonDummy::new(vec!["Launch".to_owned()]);
    let req = Request { op: "frobnicate".to_owned(), args: Vec::new() };
    let reply = handle_request(&mut d, &req);
    assert_eq!(encode_reply(&reply), b"{\"err\":\"unknown operation\"}\n".to_vec());
    let req2 = Request { op: "model".to_owned(), args: Vec::new() };
    assert!(handle_request(&mut d, &req2).is_err());
    let req3 = Request { op: "model".to_owned(), args: vec![9] };
    assert!(handle_request(&mut d, &req3).is_err());
    let req4 = Request { op: "model".to_owned(), args: vec![0] };
    match handle_request(&mut d, &req4).unwrap() {
        WireValue::Str(s) => assert_eq!(s, "Launch"),
        _ => panic!("expected a string reply"),
    }
}

#[test]
fn decode_request_full_u64_range() {
    let req =
        backend::codec::decode_request("{\"op\":\"model\",\"args\":[18446744073709551615]}")
            .unwrap();
    assert_eq!(req.args, vec![u64::MAX]);
    assert!(backend::codec::decode_request(
        "{\"op\":\"model\",\"args\":[18446744073709551616]}"
    )
    .is_none());
}

#[test]
fn decode_reply_forms() {
    assert!(matches!(decode_reply("{\"ok\":null}"), Some(Ok(WireValue::Unit))));
    match decode_reply("{\"ok\":42}") {
        Some(Ok(WireValue::Num(n))) => assert_eq!(n, 42),
        _ => panic!("expected a number reply"),
    }
    match decode_reply("{\"ok\":[0,1]}") {
        Some(Ok(WireValue::Nums(ns))) => assert_eq!(ns, vec![0, 1]),
        _ => panic!("expected a number-list reply"),
    }
    match decode_reply("{\"err\":\"boom\"}") {
        Some(Err(m)) => assert_eq!(m, "boom"),
        _ => panic!("expected an error reply"),
    }
    assert!(decode_reply("{\"ok\":}").is_none());
}

#[test]
fn decode_request_rejects_malformed() {
    assert!(backend::codec::decode_request("").is_none());
    assert!(backend::codec::decode_request("boards").is_none());
    assert!(backend::codec::decode_request("{\"args\":[]}").is_none());
    assert!(backend::codec::decode_request("{\"op\":\"boards\",\"args\":[]} x").is_none());
}
