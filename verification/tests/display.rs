//! Rendering of diagnostics: the display form of messages, with and
//! without locations and notes, and of context error aggregates.

use zsb::engine::build;
use zsb::error::{u64_dec, Message, MessageBuilder, NoteBuilder};
use zsb::wire::{place_text, Boundary, WireLocation, WireMessage, WireStr};
use zsb::{BuildOptions, Engine};

#[test]
fn decimal_rendering() {
    assert_eq!(u64_dec(0).as_str(), "0");
    assert_eq!(u64_dec(7).as_str(), "7");
    assert_eq!(u64_dec(10).as_str(), "10");
    assert_eq!(u64_dec(409).as_str(), "409");
    assert_eq!(u64_dec(18446744073709551615).as_str(), "18446744073709551615");
}

#[test]
fn message_display_without_location() {
    let mut b = Boundary::new();
    let w = MessageBuilder::new("top level")
        .with_note(NoteBuilder::new("only note"))
        .serialize(&mut b);
    let text = Message::from_wire(w).to_text(&b);
    assert_eq!(text.as_str(), "top level (note: only note)");
    let _ = MessageBuilder::consume(w, &mut b);
}

#[test]
fn message_display_numbers_multiple_notes() {
    let mut b = Boundary::new();
    let w = MessageBuilder::new("broken")
        .with_note(NoteBuilder::new("one"))
        .with_note(NoteBuilder::new("two"))
        .serialize(&mut b);
    let text = Message::from_wire(w).to_text(&b);
    assert_eq!(text.as_str(), "broken (note 1: one) (note 2: two)");
    let _ = MessageBuilder::consume(w, &mut b);
}

#[test]
fn message_display_with_location_prefix() {
    let mut b = Boundary::new();
    let file = place_text(&mut b, String::from("src/x.js"));
    let text = place_text(&mut b, String::from("oops"));
    let w = WireMessage {
        id: WireStr::absent(),
        plugin_name: WireStr::absent(),
        text,
        location: Some(WireLocation {
            file,
            namespace: WireStr::absent(),
            line: 14,
            column: 2,
            length: 1,
            line_text: WireStr::absent(),
            suggestion: WireStr::absent(),
        }),
        notes: WireStr::absent(),
    };
    let rendered = Message::from_wire(w).to_text(&b);
    assert_eq!(rendered.as_str(), "src/x.js:14:2: oops");
}

#[test]
fn build_from_options_resolves_entries() {
    let mut e = Engine::new();
    e.add_file("main.js");
    let options = BuildOptions::new(&mut e)
        .entry_point(&mut e, "main.js", "bundle.js")
        .bundle(&mut e, true);
    let res = build(&mut e, &options);
    assert!(!res.is_error(&e));
    let outs = res.outputs(&e);
    assert_eq!(outs.len(), 1);
    assert_eq!(outs[0].path(e.heap()), "bundle.js");
    res.destroy(&mut e);
}

#[test]
fn build_reports_each_missing_entry() {
    let mut e = Engine::new();
    e.add_file("there.js");
    let options = BuildOptions::new(&mut e)
        .entry_point(&mut e, "there.js", "a.js")
        .entry_point(&mut e, "gone.js", "b.js")
        .entry_point(&mut e, "lost.js", "c.js");
    let res = build(&mut e, &options);
    assert!(res.is_error(&e));
    let errors = res.errors(&e);
    assert_eq!(errors.len(), 2);
    assert_eq!(errors[0].text(e.heap()), "Could not resolve \"gone.js\"");
    assert_eq!(errors[1].text(e.heap()), "Could not resolve \"lost.js\"");
    assert_eq!(res.outputs(&e).len(), 0);
    res.destroy(&mut e);
}
