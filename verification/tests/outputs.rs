//! Output files and inbound message fields: byte and text accessors over
//! boundary-owned buffers, including the decode-failure path.

use zsb::error::Message;
use zsb::wire::{place_text, Boundary, WireMessage, WireOutputFile, WireStr};
use zsb::{BuildOptions, Context, Engine, OutputFile};

#[test]
fn contents_str_accepts_valid_utf8() {
    let mut b = Boundary::new();
    let path = place_text(&mut b, String::from("out.txt"));
    let contents = b.place_bytes(b"hello".to_vec());
    let o = OutputFile::from_wire(WireOutputFile { path, contents });
    assert_eq!(o.contents(&b), b"hello");
    assert_eq!(o.contents_str(&b), Some("hello"));
    assert_eq!(o.path(&b), "out.txt");
}

#[test]
fn contents_str_rejects_invalid_utf8() {
    let mut b = Boundary::new();
    let path = place_text(&mut b, String::from("out.bin"));
    let contents = b.place_bytes(vec![0xff, 0xfe, 0x41]);
    let o = OutputFile::from_wire(WireOutputFile { path, contents });
    assert_eq!(o.contents(&b), &[0xff, 0xfe, 0x41]);
    assert_eq!(o.contents_str(&b), None);
}

#[test]
fn empty_contents_decode_as_empty_text() {
    let mut b = Boundary::new();
    let path = place_text(&mut b, String::from("empty.txt"));
    let o = OutputFile::from_wire(WireOutputFile { path, contents: WireStr::absent() });
    assert_eq!(o.contents(&b), &[] as &[u8]);
    assert_eq!(o.contents_str(&b), Some(""));
}

#[test]
fn inbound_message_exposes_id_and_plugin_name() {
    let mut b = Boundary::new();
    let id = place_text(&mut b, String::from("TS1005"));
    let plugin_name = place_text(&mut b, String::from("linter"));
    let text = place_text(&mut b, String::from("missing semicolon"));
    let w = WireMessage {
        id,
        plugin_name,
        text,
        location: None,
        notes: WireStr::absent(),
    };
    let m = Message::from_wire(w);
    assert_eq!(m.id(&b), Some("TS1005"));
    assert_eq!(m.plugin_name(&b), Some("linter"));
    assert_eq!(m.text(&b), "missing semicolon");
    assert!(m.location().is_none());
    assert_eq!(m.notes(&b).len(), 0);
}

#[test]
fn build_without_entries_succeeds_with_no_outputs() {
    let mut e = Engine::new();
    let options = BuildOptions::new(&mut e);
    let ctx = Context::new(&mut e, &options).unwrap();
    let res = ctx.build(&mut e);
    assert!(!res.is_error(&e));
    assert_eq!(res.errors(&e).len(), 0);
    assert_eq!(res.outputs(&e).len(), 0);
    res.destroy(&mut e);
    ctx.release(&mut e);
    options.destroy(&mut e);
}
