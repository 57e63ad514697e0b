//! Diagnostics: caller-side structured values (the builders), their wire
//! serialization through the ownership-transfer codec, and the read-only
//! views over boundary-owned records (the projections).

use vstd::prelude::*;

use crate::wire::{
    Boundary,
    LocationView,
    MessageView,
    NoteView,
    WireLocation,
    WireMessage,
    WireNote,
    WireStr,
    fresh_between,
    grew_by,
    lemma_fresh_disjoint,
    lemma_grew_agrees,
    lemma_grew_trans,
    lemma_grow_then_remove,
    lemma_loc_frame,
    lemma_loc_ids_in_dom,
    lemma_msg_seq_cost_nonneg,
    lemma_msg_seq_cost_skip,
    lemma_note_frame,
    lemma_note_seq_frame,
    lemma_note_seq_member,
    lemma_note_seq_push,
    lemma_remove_keys_agrees,
    lemma_str_pair_distinct,
    lemma_text_frame,
    msg_seq_cost,
    msg_seq_ids,
    msg_seq_read,
    msg_seq_wf,
    note_seq_ids,
    note_seq_read,
    note_seq_wf,
    opt_loc_ids,
    outbound,
    outbound_seq,
    place_text,
};

verus! {

/// A source location under construction on the caller's side.
#[derive(Debug, Clone)]
pub struct LocationBuilder {
    file: String,
    namespace: Option<String>,
    line: i64,
    column: i64,
    len: i64,
    line_text: Option<String>,
    suggestion: Option<String>,
}

impl View for LocationBuilder {
    type V = LocationView;

    closed spec fn view(&self) -> LocationView {
        LocationView {
            file: self.file@,
            namespace: self.namespace.deep_view(),
            line: self.line as int,
            column: self.column as int,
            length: self.len as int,
            line_text: self.line_text.deep_view(),
            suggestion: self.suggestion.deep_view(),
        }
    }
}

impl LocationBuilder {
    pub fn new(file: &str, line: i64, column: i64, len: i64) -> (r: LocationBuilder)
        ensures
            r@ == (LocationView {
                file: file@,
                namespace: None,
                line: line as int,
                column: column as int,
                length: len as int,
                line_text: None,
                suggestion: None,
            }),
    {
        LocationBuilder {
            file: file.to_owned(),
            namespace: None,
            line,
            column,
            len,
            line_text: None,
            suggestion: None,
        }
    }

    pub fn with_namespace(self, namespace: &str) -> (r: LocationBuilder)
        ensures
            r@ == (LocationView { namespace: Some(namespace@), ..self@ }),
    {
        LocationBuilder { namespace: Some(namespace.to_owned()), ..self }
    }

    pub fn with_line_text(self, line_text: &str) -> (r: LocationBuilder)
        ensures
            r@ == (LocationView { line_text: Some(line_text@), ..self@ }),
    {
        LocationBuilder { line_text: Some(line_text.to_owned()), ..self }
    }

    pub fn with_suggestion(self, suggestion: &str) -> (r: LocationBuilder)
        ensures
            r@ == (LocationView { suggestion: Some(suggestion@), ..self@ }),
    {
        LocationBuilder { suggestion: Some(suggestion.to_owned()), ..self }
    }
}

/// A note under construction on the caller's side.
#[derive(Debug, Clone)]
pub struct NoteBuilder {
    text: String,
    location: Option<LocationBuilder>,
}

impl View for NoteBuilder {
    type V = NoteView;

    closed spec fn view(&self) -> NoteView {
        NoteView {
            text: self.text@,
            location: match self.location {
                Some(l) => Some(l@),
                None => None,
            },
        }
    }
}

impl DeepView for NoteBuilder {
    type V = NoteView;

    open spec fn deep_view(&self) -> NoteView {
        self.view()
    }
}

impl NoteBuilder {
    pub fn new(text: &str) -> (r: NoteBuilder)
        ensures
            r@ == (NoteView { text: text@, location: None }),
    {
        NoteBuilder { text: text.to_owned(), location: None }
    }

    pub fn at(self, location: LocationBuilder) -> (r: NoteBuilder)
        ensures
            r@ == (NoteView { location: Some(location@), ..self@ }),
    {
        NoteBuilder { location: Some(location), ..self }
    }
}

/// A diagnostic message under construction on the caller's side.
#[derive(Debug, Clone)]
pub struct MessageBuilder {
    id: Option<String>,
    plugin_name: Option<String>,
    text: String,
    location: Option<LocationBuilder>,
    notes: Vec<NoteBuilder>,
}

impl View for MessageBuilder {
    type V = MessageView;

    closed spec fn view(&self) -> MessageView {
        MessageView {
            id: self.id.deep_view(),
            plugin_name: self.plugin_name.deep_view(),
            text: self.text@,
            location: match self.location {
                Some(l) => Some(l@),
                None => None,
            },
            notes: self.notes.deep_view(),
        }
    }
}

impl DeepView for MessageBuilder {
    type V = MessageView;

    open spec fn deep_view(&self) -> MessageView {
        self.view()
    }
}

impl MessageBuilder {
    pub fn new(text: &str) -> (r: MessageBuilder)
        ensures
            r@ == (MessageView {
                id: None,
                plugin_name: None,
                text: text@,
                location: None,
                notes: Seq::empty(),
            }),
    {
        let r = MessageBuilder {
            id: None,
            plugin_name: None,
            text: text.to_owned(),
            location: None,
            notes: Vec::new(),
        };
        proof {
            assert(r@.notes =~= Seq::<NoteView>::empty());
        }
        r
    }

    pub fn with_note(self, note: NoteBuilder) -> (r: MessageBuilder)
        ensures
            r@ == (MessageView { notes: self@.notes.push(note@), ..self@ }),
    {
        let mut r = self;
        let ghost before = r@;
        r.notes.push(note);
        proof {
            assert(r@.notes =~= before.notes.push(note@));
        }
        r
    }

    pub fn with_id(self, id: &str) -> (r: MessageBuilder)
        ensures
            r@ == (MessageView { id: Some(id@), ..self@ }),
    {
        MessageBuilder { id: Some(id.to_owned()), ..self }
    }

    pub fn with_plugin_name(self, plugin: &str) -> (r: MessageBuilder)
        ensures
            r@ == (MessageView { plugin_name: Some(plugin@), ..self@ }),
    {
        MessageBuilder { plugin_name: Some(plugin.to_owned()), ..self }
    }
}

} // verus!

verus! {

impl LocationBuilder {
    /// Serializes this location into wire shape: one boundary allocation
    /// per present text field, null pointers for absent ones.
    pub fn serialize(self, b: &mut Boundary) -> (w: WireLocation)
        requires
            old(b).cap() + 4 <= usize::MAX as int,
        ensures
            w.wf(final(b)@),
            !w.file.is_null(),
            w.read(final(b)@) == self@,
            grew_by(old(b)@, final(b)@, w.ids()),
            fresh_between(old(b).cap(), final(b).cap(), w.ids()),
            old(b).cap() <= final(b).cap() <= old(b).cap() + 4,
    {
        let ghost m0 = b@;
        let ghost c0 = b.cap();
        let LocationBuilder { file, namespace, line, column, len, line_text, suggestion } = self;
        let wfile = place_text(b, file);
        let ghost m1 = b@;
        let ghost c1 = b.cap();
        let wnamespace = match namespace {
            Some(s) => place_text(b, s),
            None => WireStr::absent(),
        };
        let ghost m2 = b@;
        let ghost c2 = b.cap();
        let wline_text = match line_text {
            Some(s) => place_text(b, s),
            None => WireStr::absent(),
        };
        let ghost m3 = b@;
        let ghost c3 = b.cap();
        let wsuggestion = match suggestion {
            Some(s) => place_text(b, s),
            None => WireStr::absent(),
        };
        let ghost m4 = b@;
        let ghost c4 = b.cap();
        let w = WireLocation {
            file: wfile,
            namespace: wnamespace,
            line,
            column,
            length: len,
            line_text: wline_text,
            suggestion: wsuggestion,
        };
        proof {
            assert(grew_by(m1, m2, wnamespace.ids_set()));
            assert(grew_by(m2, m3, wline_text.ids_set()));
            assert(grew_by(m3, m4, wsuggestion.ids_set()));
            lemma_grew_trans(m0, m1, m2, wfile.ids_set(), wnamespace.ids_set());
            lemma_grew_trans(
                m0,
                m2,
                m3,
                wfile.ids_set() + wnamespace.ids_set(),
                wline_text.ids_set(),
            );
            lemma_grew_trans(
                m0,
                m3,
                m4,
                wfile.ids_set() + wnamespace.ids_set() + wline_text.ids_set(),
                wsuggestion.ids_set(),
            );
            assert(w.ids() =~= wfile.ids_set() + wnamespace.ids_set() + wline_text.ids_set()
                + wsuggestion.ids_set());
            assert(grew_by(m0, m4, w.ids()));
            assert(fresh_between(c0, c4, w.ids()));
            // each field's allocation survives the later ones
            lemma_grew_trans(m1, m2, m3, wnamespace.ids_set(), wline_text.ids_set());
            lemma_grew_trans(
                m1,
                m3,
                m4,
                wnamespace.ids_set() + wline_text.ids_set(),
                wsuggestion.ids_set(),
            );
            lemma_grew_trans(m2, m3, m4, wline_text.ids_set(), wsuggestion.ids_set());
            lemma_grew_agrees(
                m1,
                m4,
                wnamespace.ids_set() + wline_text.ids_set() + wsuggestion.ids_set(),
                wfile.ids_set(),
            );
            lemma_text_frame(wfile, m1, m4);
            lemma_grew_agrees(
                m2,
                m4,
                wline_text.ids_set() + wsuggestion.ids_set(),
                wnamespace.ids_set(),
            );
            lemma_text_frame(wnamespace, m2, m4);
            lemma_grew_agrees(m3, m4, wsuggestion.ids_set(), wline_text.ids_set());
            lemma_text_frame(wline_text, m3, m4);
            // pairwise disjointness from disjoint address intervals
            lemma_fresh_disjoint(c0, c1, wfile.ids_set(), c1, c2, wnamespace.ids_set());
            lemma_fresh_disjoint(c0, c1, wfile.ids_set(), c2, c3, wline_text.ids_set());
            lemma_fresh_disjoint(c0, c1, wfile.ids_set(), c3, c4, wsuggestion.ids_set());
            lemma_fresh_disjoint(c1, c2, wnamespace.ids_set(), c2, c3, wline_text.ids_set());
            lemma_fresh_disjoint(c1, c2, wnamespace.ids_set(), c3, c4, wsuggestion.ids_set());
            lemma_fresh_disjoint(c2, c3, wline_text.ids_set(), c3, c4, wsuggestion.ids_set());
            assert(w.wf(m4));
            assert(w.read(m4) == self@);
        }
        w
    }

    /// The exact inverse of `serialize`: reconstructs the location and
    /// frees every allocation the wire record owns, no more and no less.
    pub fn consume(w: WireLocation, b: &mut Boundary) -> (r: LocationBuilder)
        requires
            w.wf(old(b)@),
        ensures
            r@ == w.read(old(b)@),
            final(b)@ == old(b)@.remove_keys(w.ids()),
            final(b).cap() == old(b).cap(),
    {
        let ghost m0 = b@;
        proof {
            lemma_str_pair_distinct(w.file, w.namespace);
            lemma_str_pair_distinct(w.file, w.line_text);
            lemma_str_pair_distinct(w.file, w.suggestion);
            lemma_str_pair_distinct(w.namespace, w.line_text);
            lemma_str_pair_distinct(w.namespace, w.suggestion);
            lemma_str_pair_distinct(w.line_text, w.suggestion);
        }
        let file = if w.file.addr != 0 {
            b.take_text(w.file)
        } else {
            String::new()
        };
        let namespace = if w.namespace.addr != 0 {
            Some(b.take_text(w.namespace))
        } else {
            None
        };
        let line_text = if w.line_text.addr != 0 {
            Some(b.take_text(w.line_text))
        } else {
            None
        };
        let suggestion = if w.suggestion.addr != 0 {
            Some(b.take_text(w.suggestion))
        } else {
            None
        };
        proof {
            assert(b@ =~= m0.remove_keys(w.ids()));
        }
        LocationBuilder {
            file,
            namespace,
            line: w.line,
            column: w.column,
            len: w.length,
            line_text,
            suggestion,
        }
    }
}

} // verus!

verus! {

impl NoteBuilder {
    /// Serializes this note: the text first, then its location, if any.
    pub fn serialize(self, b: &mut Boundary) -> (w: WireNote)
        requires
            old(b).cap() + 5 <= usize::MAX as int,
        ensures
            w.wf(final(b)@),
            !w.text.is_null(),
            w.read(final(b)@) == self@,
            grew_by(old(b)@, final(b)@, w.ids()),
            fresh_between(old(b).cap(), final(b).cap(), w.ids()),
            old(b).cap() <= final(b).cap() <= old(b).cap() + 5,
    {
        let ghost m0 = b@;
        let ghost c0 = b.cap();
        let NoteBuilder { text, location } = self;
        let wtext = place_text(b, text);
        let ghost m1 = b@;
        let ghost c1 = b.cap();
        let wloc = match location {
            Some(l) => Some(l.serialize(b)),
            None => None,
        };
        let ghost m2 = b@;
        let ghost c2 = b.cap();
        let w = WireNote { text: wtext, location: wloc };
        proof {
            match wloc {
                Some(l) => {
                    assert(opt_loc_ids(wloc) =~= l.ids());
                }
                None => {
                    assert(opt_loc_ids(wloc) =~= Set::<int>::empty());
                }
            }
            assert(grew_by(m1, m2, opt_loc_ids(wloc)));
            lemma_grew_trans(m0, m1, m2, wtext.ids_set(), opt_loc_ids(wloc));
            assert(w.ids() =~= wtext.ids_set() + opt_loc_ids(wloc));
            assert(grew_by(m0, m2, w.ids()));
            assert(fresh_between(c0, c2, w.ids()));
            lemma_grew_agrees(m1, m2, opt_loc_ids(wloc), wtext.ids_set());
            lemma_text_frame(wtext, m1, m2);
            lemma_fresh_disjoint(c0, c1, wtext.ids_set(), c1, c2, opt_loc_ids(wloc));
            assert(w.wf(m2));
            assert(w.read(m2) == self@);
        }
        w
    }

    /// The exact inverse of `serialize` for a note.
    pub fn consume(w: WireNote, b: &mut Boundary) -> (r: NoteBuilder)
        requires
            w.wf(old(b)@),
        ensures
            r@ == w.read(old(b)@),
            final(b)@ == old(b)@.remove_keys(w.ids()),
            final(b).cap() == old(b).cap(),
    {
        let ghost m0 = b@;
        let text = if w.text.addr != 0 {
            b.take_text(w.text)
        } else {
            String::new()
        };
        let ghost m1 = b@;
        let location = match w.location {
            Some(l) => {
                proof {
                    lemma_loc_ids_in_dom(l, m0);
                    assert forall|k: int| l.ids().contains(k) implies m1.dom().contains(k)
                        && m1[k] == m0[k] by {
                        assert(!w.text.ids_set().contains(k));
                    }
                    lemma_loc_frame(l, m0, m1);
                }
                Some(LocationBuilder::consume(l, b))
            }
            None => None,
        };
        proof {
            assert(b@ =~= m0.remove_keys(w.ids()));
        }
        NoteBuilder { text, location }
    }
}

} // verus!

verus! {

impl MessageBuilder {
    /// Serializes this message. As on the outbound path generally, only
    /// the text, the location and the notes cross the boundary; the id and
    /// plugin name fields stay null.
    pub fn serialize(self, b: &mut Boundary) -> (w: WireMessage)
        requires
            old(b).cap() + 6 + 5 * self@.notes.len() <= usize::MAX as int,
        ensures
            w.wf(final(b)@),
            w.id.is_null(),
            w.plugin_name.is_null(),
            !w.text.is_null(),
            w.read(final(b)@) == (MessageView { id: None, plugin_name: None, ..self@ }),
            grew_by(old(b)@, final(b)@, w.ids(final(b)@)),
            fresh_between(old(b).cap(), final(b).cap(), w.ids(final(b)@)),
            old(b).cap() <= final(b).cap(),
            final(b).cap() <= old(b).cap() + 6 + 5 * self@.notes.len(),
    {
        let ghost m0 = b@;
        let ghost c0 = b.cap();
        let MessageBuilder { id: _, plugin_name: _, text, location, notes } = self;
        let ghost onotes = notes.deep_view();
        let wloc = match location {
            Some(l) => Some(l.serialize(b)),
            None => None,
        };
        let ghost m1 = b@;
        let ghost c1 = b.cap();
        let wtext = place_text(b, text);
        let ghost m2 = b@;
        let ghost c2 = b.cap();
        proof {
            match wloc {
                Some(l) => {
                    assert(opt_loc_ids(wloc) =~= l.ids());
                }
                None => {
                    assert(opt_loc_ids(wloc) =~= Set::<int>::empty());
                }
            }
            assert(grew_by(m0, m1, opt_loc_ids(wloc)));
            assert(fresh_between(c0, c1, opt_loc_ids(wloc)));
        }
        let mut rest = notes;
        let mut wnotes_vec: Vec<WireNote> = Vec::new();
        proof {
            assert(wnotes_vec@ =~= Seq::<WireNote>::empty());
            assert(note_seq_ids(wnotes_vec@) =~= Set::<int>::empty());
            assert(rest.deep_view() =~= onotes.skip(0));
            assert(note_seq_read(wnotes_vec@, b@) =~= onotes.take(0));
        }
        while rest.len() > 0
            invariant
                wnotes_vec@.len() + rest@.len() == onotes.len(),
                rest.deep_view() == onotes.skip(wnotes_vec@.len() as int),
                note_seq_wf(wnotes_vec@, b@),
                note_seq_read(wnotes_vec@, b@) == onotes.take(wnotes_vec@.len() as int),
                grew_by(m2, b@, note_seq_ids(wnotes_vec@)),
                fresh_between(c2, b.cap(), note_seq_ids(wnotes_vec@)),
                c2 <= b.cap(),
                b.cap() <= c2 + 5 * wnotes_vec@.len(),
                b.cap() + 1 + 5 * rest@.len() <= usize::MAX as int,
            decreases rest@.len(),
        {
            let ghost mi = b@;
            let ghost ci = b.cap();
            let ghost prev = wnotes_vec@;
            let ghost k = wnotes_vec@.len() as int;
            let ghost orest = rest@;
            let ghost orestv = rest.deep_view();
            let n = rest.remove(0);
            proof {
                assert(n.deep_view() == orestv[0]);
                assert(orestv == onotes.skip(k));
                assert(n.deep_view() == onotes[k]);
                assert(rest@ == orest.remove(0));
                assert forall|i: int| 0 <= i < rest@.len() implies rest@[i] == orest[i + 1] by {
                    assert(orest.remove(0)[i] == orest.subrange(1, orest.len() as int)[i]);
                }
                assert(rest.deep_view() =~= onotes.skip(k + 1)) by {
                    assert forall|i: int| 0 <= i < rest@.len() implies rest.deep_view()[i]
                        == onotes.skip(k + 1)[i] by {
                        assert(rest.deep_view()[i] == rest@[i].deep_view());
                        assert(rest@[i] == orest[i + 1]);
                        assert(orest[i + 1].deep_view() == orestv[i + 1]);
                        assert(orestv[i + 1] == onotes.skip(k)[i + 1]);
                    }
                }
            }
            let wn = n.serialize(b);
            proof {
                crate::wire::lemma_note_seq_ids_in_dom(prev, mi);
                lemma_grew_agrees(mi, b@, wn.ids(), note_seq_ids(prev));
                lemma_note_seq_frame(prev, mi, b@);
                lemma_fresh_disjoint(c2, ci, note_seq_ids(prev), ci, b.cap(), wn.ids());
                lemma_grew_trans(m2, mi, b@, note_seq_ids(prev), wn.ids());
                lemma_note_seq_push(prev, wn, b@);
            }
            wnotes_vec.push(wn);
            proof {
                assert(wnotes_vec@ == prev.push(wn));
                assert(note_seq_read(wnotes_vec@, b@) =~= onotes.take(k + 1));
                assert(fresh_between(c2, b.cap(), note_seq_ids(wnotes_vec@)));
            }
        }
        let ghost m3 = b@;
        let ghost c3 = b.cap();
        let ghost eltids = note_seq_ids(wnotes_vec@);
        let ghost wvec = wnotes_vec@;
        proof {
            assert(rest@.len() == 0);
            assert(wvec.len() == onotes.len());
            assert(note_seq_read(wvec, m3) =~= onotes);
        }
        let wnotes = if wnotes_vec.len() > 0 {
            b.place_notes(wnotes_vec)
        } else {
            WireStr::absent()
        };
        let ghost m4 = b@;
        let ghost c4 = b.cap();
        let w = WireMessage {
            id: WireStr::absent(),
            plugin_name: WireStr::absent(),
            text: wtext,
            location: wloc,
            notes: wnotes,
        };
        proof {
            assert(grew_by(m3, m4, wnotes.ids_set()));
            assert(fresh_between(c3, c4, wnotes.ids_set()));
            // the notes array and its elements survive the final allocation
            if wnotes.addr != 0 {
                assert(wnotes.notes_at(m4) == wvec);
                crate::wire::lemma_note_seq_ids_in_dom(wvec, m3);
                lemma_grew_agrees(m3, m4, wnotes.ids_set(), eltids);
                lemma_note_seq_frame(wvec, m3, m4);
            }
            // the text survives the loop and the final allocation
            lemma_grew_trans(m2, m3, m4, eltids, wnotes.ids_set());
            lemma_grew_agrees(m2, m4, eltids + wnotes.ids_set(), wtext.ids_set());
            lemma_text_frame(wtext, m2, m4);
            // the location survives everything after it
            lemma_grew_trans(m1, m2, m4, wtext.ids_set(), eltids + wnotes.ids_set());
            match wloc {
                Some(l) => {
                    crate::wire::lemma_loc_ids_in_dom(l, m1);
                    lemma_grew_agrees(
                        m1,
                        m4,
                        wtext.ids_set() + (eltids + wnotes.ids_set()),
                        l.ids(),
                    );
                    lemma_loc_frame(l, m1, m4);
                }
                None => (),
            }
            // pairwise disjointness from the address intervals
            lemma_fresh_disjoint(c0, c1, opt_loc_ids(wloc), c1, c2, wtext.ids_set());
            lemma_fresh_disjoint(c0, c1, opt_loc_ids(wloc), c2, c3, eltids);
            lemma_fresh_disjoint(c0, c1, opt_loc_ids(wloc), c3, c4, wnotes.ids_set());
            lemma_fresh_disjoint(c1, c2, wtext.ids_set(), c2, c3, eltids);
            lemma_fresh_disjoint(c1, c2, wtext.ids_set(), c3, c4, wnotes.ids_set());
            lemma_fresh_disjoint(c2, c3, eltids, c3, c4, wnotes.ids_set());
            assert(w.note_ids(m4) == if wnotes.addr != 0 { eltids } else { Set::<int>::empty() });
            assert(w.wf(m4));
            // total footprint and growth
            assert(w.ids(m4) =~= opt_loc_ids(wloc) + wtext.ids_set() + eltids + wnotes.ids_set());
            lemma_grew_trans(m0, m1, m2, opt_loc_ids(wloc), wtext.ids_set());
            lemma_grew_trans(m0, m2, m4, opt_loc_ids(wloc) + wtext.ids_set(), eltids + wnotes.ids_set());
            assert((opt_loc_ids(wloc) + wtext.ids_set()) + (eltids + wnotes.ids_set()) =~= w.ids(m4));
            assert(grew_by(m0, m4, w.ids(m4)));
            assert(fresh_between(c0, c4, w.ids(m4)));
            // read-back
            assert(w.read(m4).notes =~= onotes);
            assert(w.read(m4) == (MessageView { id: None, plugin_name: None, ..self@ }));
        }
        w
    }
}

} // verus!

verus! {

impl MessageBuilder {
    /// The exact inverse of `serialize` for a message: reads everything
    /// back and frees every allocation the wire record owns, recursively,
    /// no more and no less.
    pub fn consume(w: WireMessage, b: &mut Boundary) -> (r: MessageBuilder)
        requires
            w.wf(old(b)@),
        ensures
            r@ == w.read(old(b)@),
            final(b)@ == old(b)@.remove_keys(w.ids(old(b)@)),
            final(b).cap() == old(b).cap(),
    {
        let ghost m0 = b@;
        let ghost sid = w.id.ids_set();
        let ghost spn = w.plugin_name.ids_set();
        let ghost stx = w.text.ids_set();
        let ghost sloc = opt_loc_ids(w.location);
        let ghost ssl = w.notes.ids_set();
        let ghost selt = w.note_ids(m0);
        proof {
            crate::wire::lemma_msg_ids_in_dom(w, m0);
        }
        let id = if w.id.addr != 0 {
            Some(b.take_text(w.id))
        } else {
            None
        };
        proof {
            assert(b@ =~= m0.remove_keys(sid));
        }
        let plugin_name = if w.plugin_name.addr != 0 {
            proof {
                lemma_remove_keys_agrees(m0, sid, spn);
                lemma_text_frame(w.plugin_name, m0, b@);
            }
            Some(b.take_text(w.plugin_name))
        } else {
            None
        };
        proof {
            assert(b@ =~= m0.remove_keys(sid + spn));
        }
        let text = if w.text.addr != 0 {
            proof {
                lemma_remove_keys_agrees(m0, sid + spn, stx);
                lemma_text_frame(w.text, m0, b@);
            }
            b.take_text(w.text)
        } else {
            String::new()
        };
        proof {
            assert(b@ =~= m0.remove_keys(sid + spn + stx));
        }
        let location = match w.location {
            Some(l) => {
                proof {
                    crate::wire::lemma_loc_ids_in_dom(l, m0);
                    lemma_remove_keys_agrees(m0, sid + spn + stx, l.ids());
                    lemma_loc_frame(l, m0, b@);
                }
                Some(LocationBuilder::consume(l, b))
            }
            None => None,
        };
        proof {
            assert(b@ =~= m0.remove_keys(sid + spn + stx + sloc));
        }
        let mut notes: Vec<NoteBuilder> = Vec::new();
        if w.notes.addr != 0 {
            let ghost wvecseq = w.notes.notes_at(m0);
            proof {
                lemma_remove_keys_agrees(m0, sid + spn + stx + sloc, ssl);
                crate::wire::lemma_notes_slice_frame(w.notes, m0, b@);
            }
            let wvec = b.take_notes(w.notes);
            proof {
                assert(wvec@ == wvecseq);
                assert(b@ =~= m0.remove_keys(sid + spn + stx + sloc + ssl));
                crate::wire::lemma_note_seq_ids_in_dom(wvecseq, m0);
                assert(note_seq_ids(wvecseq.take(0)) =~= Set::<int>::empty()) by {
                    assert(wvecseq.take(0) =~= Seq::<WireNote>::empty());
                }
                assert(notes.deep_view() =~= note_seq_read(wvecseq, m0).take(0));
            }
            let mut j: usize = 0;
            while j < wvec.len()
                invariant
                    wvec@ == wvecseq,
                    j <= wvec@.len(),
                    note_seq_wf(wvecseq, m0),
                    note_seq_ids(wvecseq).subset_of(m0.dom()),
                    note_seq_ids(wvecseq).disjoint(sid + spn + stx + sloc + ssl),
                    notes@.len() == j,
                    notes.deep_view() == note_seq_read(wvecseq, m0).take(j as int),
                    b@ == m0.remove_keys(
                        sid + spn + stx + sloc + ssl + note_seq_ids(wvecseq.take(j as int)),
                    ),
                    b.cap() == old(b).cap(),
                decreases wvec@.len() - j,
            {
                let ghost freed = sid + spn + stx + sloc + ssl + note_seq_ids(
                    wvecseq.take(j as int),
                );
                let wn = wvec[j];
                proof {
                    crate::wire::lemma_note_seq_prefix_disjoint(wvecseq, m0, j as int);
                    lemma_note_seq_member(wvecseq, m0, j as int);
                    assert(wn.ids().disjoint(freed));
                    lemma_remove_keys_agrees(m0, freed, wn.ids());
                    lemma_note_frame(wn, m0, b@);
                }
                let nb = NoteBuilder::consume(wn, b);
                proof {
                    assert(wvecseq.take(j + 1) =~= wvecseq.take(j as int).push(wn));
                    lemma_note_seq_push(wvecseq.take(j as int), wn, m0);
                    assert(b@ =~= m0.remove_keys(
                        sid + spn + stx + sloc + ssl + note_seq_ids(wvecseq.take(j + 1)),
                    ));
                }
                notes.push(nb);
                proof {
                    assert(nb@ == wn.read(m0));
                    assert(notes.deep_view() =~= note_seq_read(wvecseq, m0).take(j + 1));
                }
                j = j + 1;
            }
            proof {
                assert(wvecseq.take(wvecseq.len() as int) =~= wvecseq);
                assert(notes.deep_view() =~= note_seq_read(wvecseq, m0).take(
                    wvecseq.len() as int,
                ));
                assert(note_seq_read(wvecseq, m0).take(wvecseq.len() as int) =~= note_seq_read(
                    wvecseq,
                    m0,
                ));
            }
        }
        let r = MessageBuilder { id, plugin_name, text, location, notes };
        proof {
            assert(b@ =~= m0.remove_keys(w.ids(m0)));
            assert(r@.notes =~= w.read(m0).notes);
            assert(r@ == w.read(m0));
        }
        r
    }
}

} // verus!

verus! {

/// A read-only view over a boundary-owned location record. It performs no
/// copying: every accessor borrows from the arena.
#[derive(Clone, Copy)]
pub struct Location {
    w: WireLocation,
}

impl Location {
    /// The wire record this view reads.
    pub closed spec fn wire(self) -> WireLocation {
        self.w
    }

    /// Wraps a wire location for reading.
    pub fn from_wire(w: WireLocation) -> (r: Location)
        ensures
            r.wire() == w,
    {
        Location { w }
    }

    pub fn file<'s>(&self, b: &'s Boundary) -> (r: Option<&'s str>)
        requires
            self.wire().wf(b@),
        ensures
            match r {
                Some(s) => !self.wire().file.is_null() && s@ == self.wire().file.text_at(b@),
                None => self.wire().file.is_null(),
            },
    {
        if self.w.file.addr != 0 {
            Some(b.read_text(self.w.file).as_str())
        } else {
            None
        }
    }

    pub fn namespace<'s>(&self, b: &'s Boundary) -> (r: Option<&'s str>)
        requires
            self.wire().wf(b@),
        ensures
            match r {
                Some(s) => Some(s@) == self.wire().read(b@).namespace,
                None => self.wire().read(b@).namespace is None,
            },
    {
        if self.w.namespace.addr != 0 {
            Some(b.read_text(self.w.namespace).as_str())
        } else {
            None
        }
    }

    pub fn line_text<'s>(&self, b: &'s Boundary) -> (r: &'s str)
        requires
            self.wire().wf(b@),
        ensures
            r@ == self.wire().line_text.text_or_empty(b@),
    {
        if self.w.line_text.addr != 0 {
            b.read_text(self.w.line_text).as_str()
        } else {
            proof {
                reveal_strlit("");
            }
            ""
        }
    }

    pub fn suggestion<'s>(&self, b: &'s Boundary) -> (r: Option<&'s str>)
        requires
            self.wire().wf(b@),
        ensures
            match r {
                Some(s) => Some(s@) == self.wire().read(b@).suggestion,
                None => self.wire().read(b@).suggestion is None,
            },
    {
        if self.w.suggestion.addr != 0 {
            Some(b.read_text(self.w.suggestion).as_str())
        } else {
            None
        }
    }

    pub fn line(&self) -> (r: usize)
        requires
            0 <= self.wire().line <= usize::MAX,
        ensures
            r as int == self.wire().line as int,
    {
        self.w.line as usize
    }

    pub fn column(&self) -> (r: usize)
        requires
            0 <= self.wire().column <= usize::MAX,
        ensures
            r as int == self.wire().column as int,
    {
        self.w.column as usize
    }

    pub fn len(&self) -> (r: usize)
        requires
            0 <= self.wire().length <= usize::MAX,
        ensures
            r as int == self.wire().length as int,
    {
        self.w.length as usize
    }
}

/// A read-only view over a boundary-owned note.
#[derive(Clone, Copy)]
pub struct Note {
    w: WireNote,
}

impl Note {
    pub closed spec fn wire(self) -> WireNote {
        self.w
    }

    pub fn from_wire(w: WireNote) -> (r: Note)
        ensures
            r.wire() == w,
    {
        Note { w }
    }

    pub fn text<'s>(&self, b: &'s Boundary) -> (r: &'s str)
        requires
            self.wire().wf(b@),
        ensures
            r@ == self.wire().read(b@).text,
    {
        if self.w.text.addr != 0 {
            b.read_text(self.w.text).as_str()
        } else {
            proof {
                reveal_strlit("");
            }
            ""
        }
    }

    pub fn location(&self) -> (r: Option<Location>)
        ensures
            match r {
                Some(l) => self.wire().location == Some(l.wire()),
                None => self.wire().location is None,
            },
    {
        match self.w.location {
            Some(l) => Some(Location::from_wire(l)),
            None => None,
        }
    }
}

/// A read-only view over a boundary-owned diagnostic message.
#[derive(Clone, Copy)]
pub struct Message {
    w: WireMessage,
}

impl Message {
    pub closed spec fn wire(self) -> WireMessage {
        self.w
    }

    pub fn from_wire(w: WireMessage) -> (r: Message)
        ensures
            r.wire() == w,
    {
        Message { w }
    }

    pub fn id<'s>(&self, b: &'s Boundary) -> (r: Option<&'s str>)
        requires
            self.wire().wf(b@),
        ensures
            match r {
                Some(s) => Some(s@) == self.wire().read(b@).id,
                None => self.wire().read(b@).id is None,
            },
    {
        if self.w.id.addr != 0 {
            Some(b.read_text(self.w.id).as_str())
        } else {
            None
        }
    }

    pub fn plugin_name<'s>(&self, b: &'s Boundary) -> (r: Option<&'s str>)
        requires
            self.wire().wf(b@),
        ensures
            match r {
                Some(s) => Some(s@) == self.wire().read(b@).plugin_name,
                None => self.wire().read(b@).plugin_name is None,
            },
    {
        if self.w.plugin_name.addr != 0 {
            Some(b.read_text(self.w.plugin_name).as_str())
        } else {
            None
        }
    }

    pub fn text<'s>(&self, b: &'s Boundary) -> (r: &'s str)
        requires
            self.wire().wf(b@),
        ensures
            r@ == self.wire().read(b@).text,
    {
        if self.w.text.addr != 0 {
            b.read_text(self.w.text).as_str()
        } else {
            proof {
                reveal_strlit("");
            }
            ""
        }
    }

    pub fn location(&self) -> (r: Option<Location>)
        ensures
            match r {
                Some(l) => self.wire().location == Some(l.wire()),
                None => self.wire().location is None,
            },
    {
        match self.w.location {
            Some(l) => Some(Location::from_wire(l)),
            None => None,
        }
    }

    /// The notes attached to this message, as read-only views in order.
    pub fn notes(&self, b: &Boundary) -> (r: Vec<Note>)
        requires
            self.wire().wf(b@),
        ensures
            r@.len() == self.wire().read(b@).notes.len(),
            forall|i: int|
                0 <= i < r@.len() ==> #[trigger] r@[i].wire() == self.wire().notes.notes_at(
                    b@,
                )[i],
    {
        let mut r: Vec<Note> = Vec::new();
        if self.w.notes.addr != 0 {
            let wvec = b.read_notes(self.w.notes);
            let mut j: usize = 0;
            while j < wvec.len()
                invariant
                    wvec@ == self.wire().notes.notes_at(b@),
                    j <= wvec@.len(),
                    r@.len() == j,
                    forall|i: int|
                        0 <= i < j ==> #[trigger] r@[i].wire() == self.wire().notes.notes_at(
                            b@,
                        )[i],
                decreases wvec@.len() - j,
            {
                r.push(Note::from_wire(wvec[j]));
                j = j + 1;
            }
        }
        r
    }
}

} // verus!

verus! {

/// Serializes a sequence of messages in order. Used for the error and
/// warning lists of an outbound on-start result.
pub fn serialize_messages(v: Vec<MessageBuilder>, b: &mut Boundary) -> (r: Vec<WireMessage>)
    requires
        old(b).cap() + msg_seq_cost(v.deep_view()) <= usize::MAX as int,
    ensures
        msg_seq_wf(r@, final(b)@),
        msg_seq_read(r@, final(b)@) == outbound_seq(v.deep_view()),
        grew_by(old(b)@, final(b)@, msg_seq_ids(r@, final(b)@)),
        fresh_between(old(b).cap(), final(b).cap(), msg_seq_ids(r@, final(b)@)),
        old(b).cap() <= final(b).cap(),
        final(b).cap() <= old(b).cap() + msg_seq_cost(v.deep_view()),
{
    let ghost m0 = b@;
    let ghost c0 = b.cap();
    let ghost ov = v.deep_view();
    let mut rest = v;
    let mut out: Vec<WireMessage> = Vec::new();
    proof {
        assert(out@ =~= Seq::<WireMessage>::empty());
        assert(msg_seq_ids(out@, b@) =~= Set::<int>::empty());
        assert(rest.deep_view() =~= ov.skip(0));
        assert(msg_seq_read(out@, b@) =~= outbound_seq(ov).take(0));
        lemma_msg_seq_cost_nonneg(ov);
    }
    while rest.len() > 0
        invariant
            out@.len() + rest@.len() == ov.len(),
            rest.deep_view() == ov.skip(out@.len() as int),
            msg_seq_wf(out@, b@),
            msg_seq_read(out@, b@) == outbound_seq(ov).take(out@.len() as int),
            grew_by(m0, b@, msg_seq_ids(out@, b@)),
            fresh_between(c0, b.cap(), msg_seq_ids(out@, b@)),
            c0 <= b.cap(),
            b.cap() + msg_seq_cost(rest.deep_view()) <= c0 + msg_seq_cost(ov),
            b.cap() + msg_seq_cost(rest.deep_view()) <= usize::MAX as int,
        decreases rest@.len(),
    {
        let ghost mi = b@;
        let ghost ci = b.cap();
        let ghost prev = out@;
        let ghost k = out@.len() as int;
        let ghost orest = rest@;
        let ghost orestv = rest.deep_view();
        let mb = rest.remove(0);
        proof {
            assert(mb.deep_view() == orestv[0]);
            assert(orestv == ov.skip(k));
            assert(mb.deep_view() == ov[k]);
            assert(rest@ == orest.remove(0));
            assert forall|i: int| 0 <= i < rest@.len() implies rest@[i] == orest[i + 1] by {
                assert(orest.remove(0)[i] == orest.subrange(1, orest.len() as int)[i]);
            }
            assert(rest.deep_view() =~= ov.skip(k + 1)) by {
                assert forall|i: int| 0 <= i < rest@.len() implies rest.deep_view()[i] == ov.skip(
                    k + 1,
                )[i] by {
                    assert(rest.deep_view()[i] == rest@[i].deep_view());
                    assert(rest@[i] == orest[i + 1]);
                    assert(orest[i + 1].deep_view() == orestv[i + 1]);
                    assert(orestv[i + 1] == ov.skip(k)[i + 1]);
                }
            }
            lemma_msg_seq_cost_skip(ov, k);
            lemma_msg_seq_cost_nonneg(ov.skip(k + 1));
        }
        let wm = mb.serialize(b);
        proof {
            crate::wire::lemma_msg_seq_ids_in_dom(prev, mi);
            lemma_grew_agrees(mi, b@, wm.ids(b@), msg_seq_ids(prev, mi));
            crate::wire::lemma_msg_seq_frame(prev, mi, b@);
            lemma_fresh_disjoint(c0, ci, msg_seq_ids(prev, b@), ci, b.cap(), wm.ids(b@));
            lemma_grew_trans(m0, mi, b@, msg_seq_ids(prev, b@), wm.ids(b@));
            crate::wire::lemma_msg_seq_push(prev, wm, b@);
        }
        out.push(wm);
        proof {
            assert(out@ == prev.push(wm));
            assert(msg_seq_read(out@, b@) =~= outbound_seq(ov).take(k + 1)) by {
                assert(wm.read(b@) == outbound(ov[k]));
                assert(msg_seq_read(out@, b@) == msg_seq_read(prev, b@).push(wm.read(b@)));
            }
            assert(fresh_between(c0, b.cap(), msg_seq_ids(out@, b@)));
        }
    }
    proof {
        assert(out@.len() == ov.len());
        assert(msg_seq_read(out@, b@) =~= outbound_seq(ov));
    }
    out
}

/// The exact inverse of `serialize_messages`: reconstructs the builders
/// and frees every allocation the records own.
pub fn consume_messages(v: Vec<WireMessage>, b: &mut Boundary) -> (r: Vec<MessageBuilder>)
    requires
        msg_seq_wf(v@, old(b)@),
    ensures
        r.deep_view() == msg_seq_read(v@, old(b)@),
        final(b)@ == old(b)@.remove_keys(msg_seq_ids(v@, old(b)@)),
        final(b).cap() == old(b).cap(),
{
    let ghost m0 = b@;
    let ghost vs = v@;
    proof {
        crate::wire::lemma_msg_seq_ids_in_dom(vs, m0);
        assert(msg_seq_ids(vs.take(0), m0) =~= Set::<int>::empty()) by {
            assert(vs.take(0) =~= Seq::<WireMessage>::empty());
        }
        assert(b@ =~= m0.remove_keys(msg_seq_ids(vs.take(0), m0)));
    }
    let mut r: Vec<MessageBuilder> = Vec::new();
    let mut j: usize = 0;
    proof {
        assert(r.deep_view() =~= msg_seq_read(vs, m0).take(0));
    }
    while j < v.len()
        invariant
            v@ == vs,
            j <= vs.len(),
            msg_seq_wf(vs, m0),
            msg_seq_ids(vs, m0).subset_of(m0.dom()),
            r@.len() == j,
            r.deep_view() == msg_seq_read(vs, m0).take(j as int),
            b@ == m0.remove_keys(msg_seq_ids(vs.take(j as int), m0)),
            b.cap() == old(b).cap(),
        decreases vs.len() - j,
    {
        let ghost freed = msg_seq_ids(vs.take(j as int), m0);
        let wm = v[j];
        proof {
            crate::wire::lemma_msg_seq_prefix_disjoint(vs, m0, j as int);
            crate::wire::lemma_msg_seq_member(vs, m0, j as int);
            assert(wm.ids(m0).disjoint(freed));
            lemma_remove_keys_agrees(m0, freed, wm.ids(m0));
            crate::wire::lemma_msg_frame(wm, m0, b@);
        }
        let mb = MessageBuilder::consume(wm, b);
        proof {
            assert(vs.take(j + 1) =~= vs.take(j as int).push(wm));
            crate::wire::lemma_msg_seq_push(vs.take(j as int), wm, m0);
            assert(b@ =~= m0.remove_keys(msg_seq_ids(vs.take(j + 1), m0)));
        }
        r.push(mb);
        proof {
            assert(mb@ == wm.read(m0));
            assert(r.deep_view() =~= msg_seq_read(vs, m0).take(j + 1));
        }
        j = j + 1;
    }
    proof {
        assert(vs.take(vs.len() as int) =~= vs);
        assert(r.deep_view() =~= msg_seq_read(vs, m0));
    }
    r
}

} // verus!

verus! {

/// The ownership-transfer codec as one interface: a caller-side value
/// serializes into its wire shape, and the wire shape is consumed — read
/// back and freed — exactly once.
pub trait IntoFFI: Sized {
    type FFIType;

    /// The largest number of arena allocations serializing this value
    /// can take.
    spec fn cost(self) -> int;

    /// Whether a wire record of this shape is sound against the arena.
    spec fn ffi_wf(t: Self::FFIType, m: Map<int, crate::wire::ChunkView>) -> bool;

    fn into_ffi(self, b: &mut Boundary) -> Self::FFIType
        requires
            old(b).cap() + self.cost() <= usize::MAX as int,
    ;

    fn drop_ffi(t: Self::FFIType, b: &mut Boundary)
        requires
            Self::ffi_wf(t, old(b)@),
    ;
}

impl IntoFFI for LocationBuilder {
    type FFIType = WireLocation;

    open spec fn cost(self) -> int {
        4
    }

    open spec fn ffi_wf(t: WireLocation, m: Map<int, crate::wire::ChunkView>) -> bool {
        t.wf(m)
    }

    fn into_ffi(self, b: &mut Boundary) -> WireLocation {
        self.serialize(b)
    }

    fn drop_ffi(t: WireLocation, b: &mut Boundary) {
        let _ = LocationBuilder::consume(t, b);
    }
}

impl IntoFFI for NoteBuilder {
    type FFIType = WireNote;

    open spec fn cost(self) -> int {
        5
    }

    open spec fn ffi_wf(t: WireNote, m: Map<int, crate::wire::ChunkView>) -> bool {
        t.wf(m)
    }

    fn into_ffi(self, b: &mut Boundary) -> WireNote {
        self.serialize(b)
    }

    fn drop_ffi(t: WireNote, b: &mut Boundary) {
        let _ = NoteBuilder::consume(t, b);
    }
}

impl IntoFFI for MessageBuilder {
    type FFIType = WireMessage;

    open spec fn cost(self) -> int {
        6 + 5 * (self@.notes.len() as int)
    }

    open spec fn ffi_wf(t: WireMessage, m: Map<int, crate::wire::ChunkView>) -> bool {
        t.wf(m)
    }

    fn into_ffi(self, b: &mut Boundary) -> WireMessage {
        self.serialize(b)
    }

    fn drop_ffi(t: WireMessage, b: &mut Boundary) {
        let _ = MessageBuilder::consume(t, b);
    }
}

} // verus!

verus! {

/// The decimal digit character for one value below ten.
pub open spec fn digit_char(d: nat) -> char {
    if d == 0 {
        '0'
    } else if d == 1 {
        '1'
    } else if d == 2 {
        '2'
    } else if d == 3 {
        '3'
    } else if d == 4 {
        '4'
    } else if d == 5 {
        '5'
    } else if d == 6 {
        '6'
    } else if d == 7 {
        '7'
    } else if d == 8 {
        '8'
    } else {
        '9'
    }
}

/// The decimal rendering of a natural number, most significant digit
/// first.
pub open spec fn dec_str(n: nat) -> Seq<char>
    decreases n,
{
    if n < 10 {
        seq![digit_char(n)]
    } else {
        dec_str(n / 10).push(digit_char(n % 10))
    }
}

/// The decimal rendering of an integer, with a leading minus sign when
/// negative.
pub open spec fn int_str(i: int) -> Seq<char> {
    if i < 0 {
        seq!['-'] + dec_str((-i) as nat)
    } else {
        dec_str(i as nat)
    }
}

fn digit_literal(d: u64) -> (r: &'static str)
    requires
        d < 10,
    ensures
        r@ == seq![digit_char(d as nat)],
{
    proof {
        reveal_strlit("0");
        reveal_strlit("1");
        reveal_strlit("2");
        reveal_strlit("3");
        reveal_strlit("4");
        reveal_strlit("5");
        reveal_strlit("6");
        reveal_strlit("7");
        reveal_strlit("8");
        reveal_strlit("9");
    }
    let r = match d {
        0 => "0",
        1 => "1",
        2 => "2",
        3 => "3",
        4 => "4",
        5 => "5",
        6 => "6",
        7 => "7",
        8 => "8",
        _ => "9",
    };
    proof {
        assert(r@ =~= seq![digit_char(d as nat)]);
    }
    r
}

/// Renders a natural number in decimal.
pub fn u64_dec(n: u64) -> (r: String)
    ensures
        r@ == dec_str(n as nat),
    decreases n,
{
    if n < 10 {
        digit_literal(n).to_owned()
    } else {
        let mut s = u64_dec(n / 10);
        s.append(digit_literal(n % 10));
        proof {
            assert(s@ =~= dec_str((n / 10) as nat).push(digit_char((n % 10) as nat)));
        }
        s
    }
}

/// Renders an integer in decimal, with a minus sign when negative.
pub fn i64_dec(n: i64) -> (r: String)
    ensures
        r@ == int_str(n as int),
{
    if n >= 0 {
        u64_dec(n as u64)
    } else {
        let mag: u64 = ((-(n + 1)) as u64) + 1;
        proof {
            assert(mag as nat == (-(n as int)) as nat);
        }
        let mut s = String::from_str("-");
        let d = u64_dec(mag);
        s.append(d.as_str());
        proof {
            reveal_strlit("-");
            assert(s@ =~= seq!['-'] + dec_str((-(n as int)) as nat));
        }
        s
    }
}

} // verus!

verus! {

/// The display form of one note within a message: its position is
/// numbered only when the message has more than one note.
pub open spec fn note_display(n: NoteView, idx: int, total: int) -> Seq<char> {
    " (note"@ + (if total != 1 {
        " "@ + dec_str((idx + 1) as nat)
    } else {
        Seq::empty()
    }) + ": "@ + n.text + ")"@
}

/// The display form of a message's notes from one position onward.
pub open spec fn notes_display(notes: Seq<NoteView>, from: int) -> Seq<char>
    decreases notes.len() - from,
{
    if 0 <= from < notes.len() {
        note_display(notes[from], from, notes.len() as int) + notes_display(notes, from + 1)
    } else {
        Seq::empty()
    }
}

/// The display form of a whole message: an optional file:line:column
/// prefix, the text, and the notes.
pub open spec fn message_display(v: MessageView) -> Seq<char> {
    (match v.location {
        Some(l) => l.file + ":"@ + int_str(l.line) + ":"@ + int_str(l.column) + ": "@,
        None => Seq::empty(),
    }) + v.text + notes_display(v.notes, 0)
}

impl Message {
    /// Renders this message in its display form.
    pub fn to_text(&self, b: &Boundary) -> (r: String)
        requires
            self.wire().wf(b@),
            self.wire().location matches Some(l) ==> !l.file.is_null(),
        ensures
            r@ == message_display(self.wire().read(b@)),
    {
        let ghost v = self.wire().read(b@);
        let mut s = String::new();
        proof {
            reveal_strlit(":");
            reveal_strlit(": ");
            reveal_strlit(" (note");
            reveal_strlit(" ");
            reveal_strlit(")");
        }
        match self.w.location {
            Some(l) => {
                s.append(b.read_text(l.file).as_str());
                s.append(":");
                let line = i64_dec(l.line);
                s.append(line.as_str());
                s.append(":");
                let column = i64_dec(l.column);
                s.append(column.as_str());
                s.append(": ");
            }
            None => (),
        }
        let ghost pre = s@;
        proof {
            assert(pre =~= (match v.location {
                Some(l) => l.file + ":"@ + int_str(l.line) + ":"@ + int_str(l.column) + ": "@,
                None => Seq::<char>::empty(),
            }));
        }
        if self.w.text.addr != 0 {
            s.append(b.read_text(self.w.text).as_str());
        }
        let ghost pre2 = s@;
        proof {
            assert(pre2 =~= pre + v.text);
        }
        if self.w.notes.addr != 0 {
            let wvec = b.read_notes(self.w.notes);
            let ghost nv = v.notes;
            proof {
                assert(nv == crate::wire::note_seq_read(wvec@, b@));
            }
            let total = wvec.len();
            let mut j: usize = 0;
            while j < total
                invariant
                    self.wire().wf(b@),
                    !self.wire().notes.is_null(),
                    wvec@ == self.wire().notes.notes_at(b@),
                    nv == crate::wire::note_seq_read(wvec@, b@),
                    total == wvec@.len(),
                    j <= total,
                    s@ + notes_display(nv, j as int) == pre2 + notes_display(nv, 0),
                decreases total - j,
            {
                let ghost sj = s@;
                proof {
                    reveal_strlit(":");
                    reveal_strlit(": ");
                    reveal_strlit(" (note");
                    reveal_strlit(" ");
                    reveal_strlit(")");
                    crate::wire::lemma_note_seq_member(wvec@, b@, j as int);
                }
                s.append(" (note");
                if total != 1 {
                    s.append(" ");
                    let num = u64_dec(j as u64 + 1);
                    s.append(num.as_str());
                }
                s.append(": ");
                let wn = wvec[j];
                if wn.text.addr != 0 {
                    s.append(b.read_text(wn.text).as_str());
                }
                s.append(")");
                proof {
                    assert(nv[j as int].text == wn.read(b@).text);
                    assert(s@ =~= sj + note_display(nv[j as int], j as int, total as int));
                    assert(notes_display(nv, j as int) == note_display(
                        nv[j as int],
                        j as int,
                        nv.len() as int,
                    ) + notes_display(nv, j + 1));
                    assert(s@ + notes_display(nv, j + 1) =~= pre2 + notes_display(nv, 0));
                }
                j = j + 1;
            }
            proof {
                assert(notes_display(nv, total as int) =~= Seq::<char>::empty());
                assert(s@ =~= pre2 + notes_display(nv, 0));
                assert(s@ =~= message_display(v));
            }
        } else {
            proof {
                assert(v.notes =~= Seq::<NoteView>::empty());
                assert(notes_display(v.notes, 0) =~= Seq::<char>::empty());
                assert(s@ =~= message_display(v));
            }
        }
        s
    }
}

} // verus!

verus! {

/// The round-trip law of the codec: what `serialize` allocates,
/// `consume` frees — no more and no less — so the boundary state after
/// `consume(serialize(x))` is exactly the state before. The two premises
/// are precisely the postconditions of `serialize` and `consume`.
pub proof fn lemma_message_round_trip(
    m0: Map<int, crate::wire::ChunkView>,
    m1: Map<int, crate::wire::ChunkView>,
    m2: Map<int, crate::wire::ChunkView>,
    w: WireMessage,
)
    requires
        grew_by(m0, m1, w.ids(m1)),
        m2 == m1.remove_keys(w.ids(m1)),
    ensures
        m2 == m0,
{
    crate::wire::lemma_grow_then_remove(m0, m1, w.ids(m1));
}

} // verus!
