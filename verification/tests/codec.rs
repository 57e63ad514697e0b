//! Round trips of the ownership-transfer codec: serializing a diagnostic
//! into wire shape and consuming it again reproduces the content, and the
//! projection views read the same text back.

use zsb::error::{LocationBuilder, Message, MessageBuilder, Note, NoteBuilder};
use zsb::plugin::OnStartResult;
use zsb::wire::{decompose_string, Boundary};

#[test]
fn round_trip_location() {
    let mut b = Boundary::new();
    let loc = LocationBuilder::new("src/app.js", 12, 3, 7)
        .with_namespace("file")
        .with_line_text("let x = 1;")
        .with_suggestion("use let");
    let w = loc.clone().serialize(&mut b);
    let back = LocationBuilder::consume(w, &mut b);
    let w2 = back.serialize(&mut b);
    // read the reserialized record through the wire
    assert_eq!(b.read_text(w2.file).as_str(), "src/app.js");
    assert_eq!(b.read_text(w2.namespace).as_str(), "file");
    assert_eq!(b.read_text(w2.line_text).as_str(), "let x = 1;");
    assert_eq!(b.read_text(w2.suggestion).as_str(), "use let");
    assert_eq!(w2.line, 12);
    assert_eq!(w2.column, 3);
    assert_eq!(w2.length, 7);
    let _ = LocationBuilder::consume(w2, &mut b);
}

#[test]
fn round_trip_message_with_notes() {
    let mut b = Boundary::new();
    let msg = MessageBuilder::new("something broke")
        .with_note(NoteBuilder::new("first hint"))
        .with_note(NoteBuilder::new("second hint").at(LocationBuilder::new("lib.js", 4, 1, 2)));
    let w = msg.serialize(&mut b);
    // read through the projection layer before consuming
    let view = Message::from_wire(w);
    assert_eq!(view.text(&b), "something broke");
    assert_eq!(view.id(&b), None);
    assert_eq!(view.plugin_name(&b), None);
    let notes = view.notes(&b);
    assert_eq!(notes.len(), 2);
    assert_eq!(notes[0].text(&b), "first hint");
    assert_eq!(notes[1].text(&b), "second hint");
    assert!(notes[0].location().is_none());
    let nloc = notes[1].location().unwrap();
    assert_eq!(nloc.file(&b), Some("lib.js"));
    assert_eq!(nloc.line(), 4);
    assert_eq!(nloc.column(), 1);
    assert_eq!(nloc.len(), 2);
    // the exact inverse: everything serialize allocated is freed
    let back = MessageBuilder::consume(w, &mut b);
    let w2 = back.serialize(&mut b);
    let view2 = Message::from_wire(w2);
    assert_eq!(view2.text(&b), "something broke");
    assert_eq!(view2.notes(&b).len(), 2);
    let _ = MessageBuilder::consume(w2, &mut b);
}

#[test]
fn absent_fields_are_null_with_zero_length() {
    let mut b = Boundary::new();
    let loc = LocationBuilder::new("a.js", 1, 0, 0);
    let w = loc.serialize(&mut b);
    assert_eq!(w.namespace.addr, 0);
    assert_eq!(w.namespace.len, 0);
    assert_eq!(w.line_text.addr, 0);
    assert_eq!(w.line_text.len, 0);
    assert_eq!(w.suggestion.addr, 0);
    assert_eq!(w.suggestion.len, 0);
    assert_ne!(w.file.addr, 0);
    let _ = LocationBuilder::consume(w, &mut b);
}

#[test]
fn empty_message_serializes_with_null_notes() {
    let mut b = Boundary::new();
    let w = MessageBuilder::new("plain").serialize(&mut b);
    assert_eq!(w.notes.addr, 0);
    assert_eq!(w.notes.len, 0);
    assert_eq!(w.id.addr, 0);
    assert_eq!(w.plugin_name.addr, 0);
    let back = MessageBuilder::consume(w, &mut b);
    let w2 = back.serialize(&mut b);
    assert_eq!(b.read_text(w2.text).as_str(), "plain");
    let _ = MessageBuilder::consume(w2, &mut b);
}

#[test]
fn decompose_string_records_exact_length() {
    let mut b = Boundary::new();
    let (len, addr) = decompose_string(&mut b, String::from("abcd"));
    assert_eq!(len, 4);
    assert_ne!(addr, 0);
    let (len2, addr2) = decompose_string(&mut b, String::new());
    assert_eq!(len2, 0);
    assert_ne!(addr2, 0);
    assert_ne!(addr, addr2);
}

#[test]
fn on_start_result_round_trip() {
    let mut b = Boundary::new();
    let res = OnStartResult::ok()
        .with_error(MessageBuilder::new("bad").with_note(NoteBuilder::new("why")))
        .with_warning(MessageBuilder::new("meh"));
    let w = res.serialize(&mut b);
    assert_eq!(w.errors.len(), 1);
    assert_eq!(w.warnings.len(), 1);
    let eview = Message::from_wire(w.errors[0]);
    assert_eq!(eview.text(&b), "bad");
    let wview = Message::from_wire(w.warnings[0]);
    assert_eq!(wview.text(&b), "meh");
    let back = OnStartResult::consume(w, &mut b);
    let w2 = back.serialize(&mut b);
    assert_eq!(w2.errors.len(), 1);
    let notes: Vec<Note> = Message::from_wire(w2.errors[0]).notes(&b);
    assert_eq!(notes.len(), 1);
    assert_eq!(notes[0].text(&b), "why");
    let _ = OnStartResult::consume(w2, &mut b);
}
