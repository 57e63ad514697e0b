//! The boundary memory model: every variable-length value that crosses the
//! call surface lives in a `Boundary` arena, and is named on the wire by a
//! pointer+length pair (`WireStr`). A pointer is either null with length
//! zero, or names a live arena allocation whose exact length it carries —
//! never a dangling or partial pair.

use vstd::prelude::*;

verus! {

use vstd::string::StrSliceExecFns;

/// A pointer+length pair as it stands on the wire. An address of zero is
/// the null pointer; any other address names the arena allocation
/// `addr - 1`, and `len` is the exact length of that allocation.
#[derive(Clone, Copy)]
pub struct WireStr {
    pub addr: u64,
    pub len: usize,
}

impl WireStr {
    /// The null pointer: field absent, length zero.
    pub open spec fn is_null(self) -> bool {
        self.addr == 0
    }

    /// The arena allocation this pair points to.
    pub open spec fn id(self) -> int {
        self.addr - 1
    }

    /// The allocation ids this pair owns.
    pub open spec fn ids(self) -> Seq<int> {
        if self.is_null() {
            Seq::empty()
        } else {
            seq![self.id()]
        }
    }

    /// Either null with length zero, or a live text allocation of exactly
    /// `len` characters.
    pub open spec fn text_wf(self, m: Map<int, ChunkView>) -> bool {
        if self.is_null() {
            self.len == 0
        } else {
            &&& m.dom().contains(self.id())
            &&& m[self.id()] is Text
            &&& m[self.id()]->Text_0.len() == self.len as int
        }
    }

    /// Either null with length zero, or a live byte allocation of exactly
    /// `len` bytes.
    pub open spec fn bytes_wf(self, m: Map<int, ChunkView>) -> bool {
        if self.is_null() {
            self.len == 0
        } else {
            &&& m.dom().contains(self.id())
            &&& m[self.id()] is Bytes
            &&& m[self.id()]->Bytes_0.len() == self.len as int
        }
    }

    /// Either null with length zero, or a live notes allocation of exactly
    /// `len` notes.
    pub open spec fn notes_wf(self, m: Map<int, ChunkView>) -> bool {
        if self.is_null() {
            self.len == 0
        } else {
            &&& m.dom().contains(self.id())
            &&& m[self.id()] is Notes
            &&& m[self.id()]->Notes_0.len() == self.len as int
        }
    }

    /// The text behind a non-null pointer.
    pub open spec fn text_at(self, m: Map<int, ChunkView>) -> Seq<char> {
        m[self.id()]->Text_0
    }

    /// The bytes behind a non-null pointer.
    pub open spec fn bytes_at(self, m: Map<int, ChunkView>) -> Seq<u8> {
        m[self.id()]->Bytes_0
    }

    /// The notes behind a non-null pointer.
    pub open spec fn notes_at(self, m: Map<int, ChunkView>) -> Seq<WireNote> {
        m[self.id()]->Notes_0
    }

    /// The text as an optional field: null means absent.
    pub open spec fn opt_text_at(self, m: Map<int, ChunkView>) -> Option<Seq<char>> {
        if self.is_null() {
            None
        } else {
            Some(self.text_at(m))
        }
    }

    /// The text with null read as empty, as the tolerant accessors do.
    pub open spec fn text_or_empty(self, m: Map<int, ChunkView>) -> Seq<char> {
        if self.is_null() {
            Seq::empty()
        } else {
            self.text_at(m)
        }
    }
}

/// One note of a message, in wire shape: the text lives in the arena, the
/// optional location is carried with the note.
#[derive(Clone, Copy)]
pub struct WireNote {
    pub text: WireStr,
    pub location: Option<WireLocation>,
}

/// One source location, in wire shape. `file` is always present on the
/// outbound path; the other text fields may be null.
#[derive(Clone, Copy)]
pub struct WireLocation {
    pub file: WireStr,
    pub namespace: WireStr,
    pub line: i64,
    pub column: i64,
    pub length: i64,
    pub line_text: WireStr,
    pub suggestion: WireStr,
}

/// One diagnostic message, in wire shape. `notes` names an arena
/// allocation holding the flattened array of this message's notes.
#[derive(Clone, Copy)]
pub struct WireMessage {
    pub id: WireStr,
    pub plugin_name: WireStr,
    pub text: WireStr,
    pub location: Option<WireLocation>,
    pub notes: WireStr,
}

/// One boundary-owned allocation: the payload behind a single
/// pointer+length pair.
pub enum Chunk {
    /// Text of a diagnostic field.
    Text(String),
    /// Raw bytes of an output file.
    Bytes(Vec<u8>),
    /// A flattened array of notes attached to one message.
    Notes(Vec<WireNote>),
}

/// The mathematical content of a `Chunk`.
pub enum ChunkView {
    Text(Seq<char>),
    Bytes(Seq<u8>),
    Notes(Seq<WireNote>),
}

impl View for Chunk {
    type V = ChunkView;

    open spec fn view(&self) -> ChunkView {
        match self {
            Chunk::Text(s) => ChunkView::Text(s@),
            Chunk::Bytes(v) => ChunkView::Bytes(v@),
            Chunk::Notes(v) => ChunkView::Notes(v@),
        }
    }
}

/// The arena of boundary-owned allocations. Its view is the map from the
/// address of each live allocation to its content; `cap()` is the next
/// address to be handed out, so every live address lies below it.
pub struct Boundary {
    slots: Vec<Option<Chunk>>,
}

impl View for Boundary {
    type V = Map<int, ChunkView>;

    closed spec fn view(&self) -> Map<int, ChunkView> {
        Map::new(
            |i: int| 0 <= i < self.slots@.len() && self.slots@[i] is Some,
            |i: int| self.slots@[i]->0@,
        )
    }
}

impl Boundary {
    /// The next allocation id; every id in the view's domain lies below it.
    pub closed spec fn cap(self) -> int {
        self.slots@.len() as int
    }

    pub proof fn lemma_dom_below_cap(self)
        ensures
            forall|i: int| self@.dom().contains(i) ==> 0 <= i < self.cap(),
    {
    }

    pub fn new() -> (b: Boundary)
        ensures
            b@ == Map::<int, ChunkView>::empty(),
            b.cap() == 0,
    {
        let b = Boundary { slots: Vec::new() };
        proof {
            assert(b@ =~= Map::<int, ChunkView>::empty());
        }
        b
    }

    fn place(&mut self, c: Chunk) -> (id: usize)
        requires
            old(self).cap() < usize::MAX as int,
        ensures
            id as int == old(self).cap(),
            final(self).cap() == old(self).cap() + 1,
            final(self)@ == old(self)@.insert(id as int, c@),
            !old(self)@.dom().contains(id as int),
    {
        let id = self.slots.len();
        self.slots.push(Some(c));
        proof {
            assert(self@ =~= old(self)@.insert(id as int, c@));
        }
        id
    }

    fn free(&mut self, id: usize) -> (c: Chunk)
        requires
            old(self)@.dom().contains(id as int),
        ensures
            final(self)@ == old(self)@.remove(id as int),
            final(self).cap() == old(self).cap(),
            c@ == old(self)@[id as int],
    {
        let mut slot: Option<Chunk> = None;
        core::mem::swap(&mut slot, &mut self.slots[id]);
        proof {
            assert(self@ =~= old(self)@.remove(id as int));
        }
        match slot {
            Some(c) => c,
            None => vstd::pervasive::unreached(),
        }
    }

    /// Turns a non-null wire pointer into the arena index it names.
    fn idx_of(&self, w: WireStr) -> (i: usize)
        requires
            !w.is_null(),
            self@.dom().contains(w.id()),
        ensures
            i as int == w.id(),
    {
        let l = self.slots.len();
        proof {
            self.lemma_dom_below_cap();
            assert(0 <= w.id() < l as int);
        }
        (w.addr - 1) as usize
    }

    fn read(&self, id: usize) -> (c: &Chunk)
        requires
            self@.dom().contains(id as int),
        ensures
            c@ == self@[id as int],
    {
        match &self.slots[id] {
            Some(c) => c,
            None => vstd::pervasive::unreached(),
        }
    }

    /// Reads the text behind a non-null wire pointer.
    pub fn read_text(&self, w: WireStr) -> (s: &String)
        requires
            w.text_wf(self@),
            !w.is_null(),
        ensures
            s@ == w.text_at(self@),
    {
        match self.read(self.idx_of(w)) {
            Chunk::Text(s) => s,
            _ => vstd::pervasive::unreached(),
        }
    }

    /// Reads the bytes behind a non-null wire pointer.
    pub fn read_bytes(&self, w: WireStr) -> (v: &Vec<u8>)
        requires
            w.bytes_wf(self@),
            !w.is_null(),
        ensures
            v@ == w.bytes_at(self@),
    {
        match self.read(self.idx_of(w)) {
            Chunk::Bytes(v) => v,
            _ => vstd::pervasive::unreached(),
        }
    }

    /// Reads the notes array behind a non-null wire pointer.
    pub fn read_notes(&self, w: WireStr) -> (v: &Vec<WireNote>)
        requires
            w.notes_wf(self@),
            !w.is_null(),
        ensures
            v@ == w.notes_at(self@),
    {
        match self.read(self.idx_of(w)) {
            Chunk::Notes(v) => v,
            _ => vstd::pervasive::unreached(),
        }
    }

    /// Frees the text behind a non-null wire pointer, handing it back.
    pub fn take_text(&mut self, w: WireStr) -> (s: String)
        requires
            w.text_wf(old(self)@),
            !w.is_null(),
        ensures
            s@ == w.text_at(old(self)@),
            final(self)@ == old(self)@.remove(w.id()),
            final(self).cap() == old(self).cap(),
    {
        let i = self.idx_of(w);
        match self.free(i) {
            Chunk::Text(s) => s,
            _ => vstd::pervasive::unreached(),
        }
    }

    /// Frees the bytes behind a non-null wire pointer, handing them back.
    pub fn take_bytes(&mut self, w: WireStr) -> (v: Vec<u8>)
        requires
            w.bytes_wf(old(self)@),
            !w.is_null(),
        ensures
            v@ == w.bytes_at(old(self)@),
            final(self)@ == old(self)@.remove(w.id()),
            final(self).cap() == old(self).cap(),
    {
        let i = self.idx_of(w);
        match self.free(i) {
            Chunk::Bytes(v) => v,
            _ => vstd::pervasive::unreached(),
        }
    }

    /// Frees the notes array behind a non-null wire pointer, handing it back.
    pub fn take_notes(&mut self, w: WireStr) -> (v: Vec<WireNote>)
        requires
            w.notes_wf(old(self)@),
            !w.is_null(),
        ensures
            v@ == w.notes_at(old(self)@),
            final(self)@ == old(self)@.remove(w.id()),
            final(self).cap() == old(self).cap(),
    {
        let i = self.idx_of(w);
        match self.free(i) {
            Chunk::Notes(v) => v,
            _ => vstd::pervasive::unreached(),
        }
    }

    /// Allocates a byte buffer, returning its non-null wire pointer.
    pub fn place_bytes(&mut self, v: Vec<u8>) -> (w: WireStr)
        requires
            old(self).cap() + 1 <= usize::MAX as int,
        ensures
            w.bytes_wf(final(self)@),
            !w.is_null(),
            w.id() == old(self).cap(),
            final(self).cap() == old(self).cap() + 1,
            final(self)@ == old(self)@.insert(w.id(), ChunkView::Bytes(v@)),
            grew_by(old(self)@, final(self)@, w.ids_set()),
            fresh_between(old(self).cap(), final(self).cap(), w.ids_set()),
    {
        proof {
            old(self).lemma_dom_below_cap();
        }
        let len = v.len();
        let id = self.place(Chunk::Bytes(v));
        let w = WireStr { addr: id as u64 + 1, len };
        proof {
            assert(grew_by(old(self)@, self@, w.ids_set()));
        }
        w
    }

    /// Allocates a notes array, returning its non-null wire pointer.
    pub fn place_notes(&mut self, v: Vec<WireNote>) -> (w: WireStr)
        requires
            old(self).cap() + 1 <= usize::MAX as int,
        ensures
            w.notes_wf(final(self)@),
            !w.is_null(),
            w.id() == old(self).cap(),
            final(self).cap() == old(self).cap() + 1,
            final(self)@ == old(self)@.insert(w.id(), ChunkView::Notes(v@)),
            grew_by(old(self)@, final(self)@, w.ids_set()),
            fresh_between(old(self).cap(), final(self).cap(), w.ids_set()),
    {
        proof {
            old(self).lemma_dom_below_cap();
        }
        let len = v.len();
        let id = self.place(Chunk::Notes(v));
        let w = WireStr { addr: id as u64 + 1, len };
        proof {
            assert(grew_by(old(self)@, self@, w.ids_set()));
        }
        w
    }
}

impl WireStr {
    /// The null pair standing for an absent optional field.
    pub fn absent() -> (w: WireStr)
        ensures
            w.is_null(),
            w.len == 0,
            w.ids() == Seq::<int>::empty(),
    {
        WireStr { addr: 0, len: 0 }
    }
}

/// Moves a string across the boundary: allocates arena memory for it and
/// returns its exact length together with the allocation's address.
pub fn decompose_string(b: &mut Boundary, s: String) -> (r: (usize, u64))
    requires
        old(b).cap() + 1 <= usize::MAX as int,
    ensures
        r.1 != 0,
        r.1 - 1 == old(b).cap(),
        final(b).cap() == old(b).cap() + 1,
        final(b)@ == old(b)@.insert(r.1 - 1, ChunkView::Text(s@)),
        r.0 as int == s@.len(),
{
    let len = s.as_str().unicode_len();
    let id = b.place(Chunk::Text(s));
    (len, id as u64 + 1)
}

/// Allocates a string and returns its wire pointer.
pub fn place_text(b: &mut Boundary, s: String) -> (w: WireStr)
    requires
        old(b).cap() + 1 <= usize::MAX as int,
    ensures
        w.text_wf(final(b)@),
        !w.is_null(),
        w.id() == old(b).cap(),
        w.len as int == s@.len(),
        final(b).cap() == old(b).cap() + 1,
        final(b)@ == old(b)@.insert(w.id(), ChunkView::Text(s@)),
        grew_by(old(b)@, final(b)@, w.ids_set()),
        fresh_between(old(b).cap(), final(b).cap(), w.ids_set()),
{
    proof {
        old(b).lemma_dom_below_cap();
    }
    let r = decompose_string(b, s);
    let w = WireStr { addr: r.1, len: r.0 };
    proof {
        assert(grew_by(old(b)@, b@, w.ids_set()));
    }
    w
}

} // verus!

verus! {

/// One output file, in wire shape: a path and a byte buffer, both owned by
/// the boundary.
#[derive(Clone, Copy)]
pub struct WireOutputFile {
    pub path: WireStr,
    pub contents: WireStr,
}

/// The mathematical content of a location record.
pub struct LocationView {
    pub file: Seq<char>,
    pub namespace: Option<Seq<char>>,
    pub line: int,
    pub column: int,
    pub length: int,
    pub line_text: Option<Seq<char>>,
    pub suggestion: Option<Seq<char>>,
}

/// The mathematical content of a note.
pub struct NoteView {
    pub text: Seq<char>,
    pub location: Option<LocationView>,
}

/// The mathematical content of a message.
pub struct MessageView {
    pub id: Option<Seq<char>>,
    pub plugin_name: Option<Seq<char>>,
    pub text: Seq<char>,
    pub location: Option<LocationView>,
    pub notes: Seq<NoteView>,
}

/// The mathematical content of an output file.
pub struct OutputFileView {
    pub path: Seq<char>,
    pub contents: Seq<u8>,
}

impl WireStr {
    /// The allocation ids this pair owns, as a set.
    pub open spec fn ids_set(self) -> Set<int> {
        if self.is_null() {
            Set::empty()
        } else {
            set![self.id()]
        }
    }
}

/// The allocation ids owned by an optional location.
pub open spec fn opt_loc_ids(l: Option<WireLocation>) -> Set<int> {
    match l {
        Some(l) => l.ids(),
        None => Set::empty(),
    }
}

/// Well-formedness of an optional location.
pub open spec fn opt_loc_wf(l: Option<WireLocation>, m: Map<int, ChunkView>) -> bool {
    match l {
        Some(l) => l.wf(m),
        None => true,
    }
}

/// Read-back of an optional location.
pub open spec fn opt_loc_read(l: Option<WireLocation>, m: Map<int, ChunkView>) -> Option<
    LocationView,
> {
    match l {
        Some(l) => Some(l.read(m)),
        None => None,
    }
}

impl WireLocation {
    /// The allocation ids this location owns.
    pub open spec fn ids(self) -> Set<int> {
        self.file.ids_set() + self.namespace.ids_set() + self.line_text.ids_set()
            + self.suggestion.ids_set()
    }

    /// Every text field is a sound pair, and no two fields share an
    /// allocation.
    pub open spec fn wf(self, m: Map<int, ChunkView>) -> bool {
        &&& self.file.text_wf(m)
        &&& self.namespace.text_wf(m)
        &&& self.line_text.text_wf(m)
        &&& self.suggestion.text_wf(m)
        &&& self.file.ids_set().disjoint(self.namespace.ids_set())
        &&& self.file.ids_set().disjoint(self.line_text.ids_set())
        &&& self.file.ids_set().disjoint(self.suggestion.ids_set())
        &&& self.namespace.ids_set().disjoint(self.line_text.ids_set())
        &&& self.namespace.ids_set().disjoint(self.suggestion.ids_set())
        &&& self.line_text.ids_set().disjoint(self.suggestion.ids_set())
    }

    /// The content this location denotes.
    pub open spec fn read(self, m: Map<int, ChunkView>) -> LocationView {
        LocationView {
            file: self.file.text_or_empty(m),
            namespace: self.namespace.opt_text_at(m),
            line: self.line as int,
            column: self.column as int,
            length: self.length as int,
            line_text: self.line_text.opt_text_at(m),
            suggestion: self.suggestion.opt_text_at(m),
        }
    }
}

impl WireNote {
    /// The allocation ids this note owns.
    pub open spec fn ids(self) -> Set<int> {
        self.text.ids_set() + opt_loc_ids(self.location)
    }

    pub open spec fn wf(self, m: Map<int, ChunkView>) -> bool {
        &&& self.text.text_wf(m)
        &&& opt_loc_wf(self.location, m)
        &&& self.text.ids_set().disjoint(opt_loc_ids(self.location))
    }

    pub open spec fn read(self, m: Map<int, ChunkView>) -> NoteView {
        NoteView { text: self.text.text_or_empty(m), location: opt_loc_read(self.location, m) }
    }
}

/// The allocation ids owned by a sequence of notes.
pub open spec fn note_seq_ids(s: Seq<WireNote>) -> Set<int>
    decreases s.len(),
{
    if s.len() == 0 {
        Set::empty()
    } else {
        s[0].ids() + note_seq_ids(s.drop_first())
    }
}

/// Every note is well formed and no two notes share an allocation.
pub open spec fn note_seq_wf(s: Seq<WireNote>, m: Map<int, ChunkView>) -> bool
    decreases s.len(),
{
    if s.len() == 0 {
        true
    } else {
        &&& s[0].wf(m)
        &&& s[0].ids().disjoint(note_seq_ids(s.drop_first()))
        &&& note_seq_wf(s.drop_first(), m)
    }
}

/// Read-back of a sequence of notes.
pub open spec fn note_seq_read(s: Seq<WireNote>, m: Map<int, ChunkView>) -> Seq<NoteView> {
    Seq::new(s.len(), |i: int| s[i].read(m))
}

impl WireMessage {
    /// The ids owned directly by the message record, notes array included
    /// but its elements excluded.
    pub open spec fn top_ids(self) -> Set<int> {
        self.id.ids_set() + self.plugin_name.ids_set() + self.text.ids_set() + opt_loc_ids(
            self.location,
        ) + self.notes.ids_set()
    }

    /// All allocation ids this message owns, its notes' included.
    pub open spec fn ids(self, m: Map<int, ChunkView>) -> Set<int> {
        self.top_ids() + if self.notes.is_null() {
            Set::empty()
        } else {
            note_seq_ids(self.notes.notes_at(m))
        }
    }

    /// The ids owned by the elements of the notes array.
    pub open spec fn note_ids(self, m: Map<int, ChunkView>) -> Set<int> {
        if self.notes.is_null() {
            Set::empty()
        } else {
            note_seq_ids(self.notes.notes_at(m))
        }
    }

    /// Every field is a sound pair, the notes array and its notes are well
    /// formed, and no two parts share an allocation.
    pub open spec fn wf(self, m: Map<int, ChunkView>) -> bool {
        &&& self.id.text_wf(m)
        &&& self.plugin_name.text_wf(m)
        &&& self.text.text_wf(m)
        &&& opt_loc_wf(self.location, m)
        &&& self.notes.notes_wf(m)
        &&& (!self.notes.is_null() ==> note_seq_wf(self.notes.notes_at(m), m))
        &&& self.id.ids_set().disjoint(self.plugin_name.ids_set())
        &&& self.id.ids_set().disjoint(self.text.ids_set())
        &&& self.id.ids_set().disjoint(opt_loc_ids(self.location))
        &&& self.id.ids_set().disjoint(self.notes.ids_set())
        &&& self.id.ids_set().disjoint(self.note_ids(m))
        &&& self.plugin_name.ids_set().disjoint(self.text.ids_set())
        &&& self.plugin_name.ids_set().disjoint(opt_loc_ids(self.location))
        &&& self.plugin_name.ids_set().disjoint(self.notes.ids_set())
        &&& self.plugin_name.ids_set().disjoint(self.note_ids(m))
        &&& self.text.ids_set().disjoint(opt_loc_ids(self.location))
        &&& self.text.ids_set().disjoint(self.notes.ids_set())
        &&& self.text.ids_set().disjoint(self.note_ids(m))
        &&& opt_loc_ids(self.location).disjoint(self.notes.ids_set())
        &&& opt_loc_ids(self.location).disjoint(self.note_ids(m))
        &&& self.notes.ids_set().disjoint(self.note_ids(m))
    }

    /// The content this message denotes.
    pub open spec fn read(self, m: Map<int, ChunkView>) -> MessageView {
        MessageView {
            id: self.id.opt_text_at(m),
            plugin_name: self.plugin_name.opt_text_at(m),
            text: self.text.text_or_empty(m),
            location: opt_loc_read(self.location, m),
            notes: if self.notes.is_null() {
                Seq::empty()
            } else {
                note_seq_read(self.notes.notes_at(m), m)
            },
        }
    }
}

/// The allocation ids owned by a sequence of messages.
pub open spec fn msg_seq_ids(s: Seq<WireMessage>, m: Map<int, ChunkView>) -> Set<int>
    decreases s.len(),
{
    if s.len() == 0 {
        Set::empty()
    } else {
        s[0].ids(m) + msg_seq_ids(s.drop_first(), m)
    }
}

/// Every message is well formed and no two messages share an allocation.
pub open spec fn msg_seq_wf(s: Seq<WireMessage>, m: Map<int, ChunkView>) -> bool
    decreases s.len(),
{
    if s.len() == 0 {
        true
    } else {
        &&& s[0].wf(m)
        &&& s[0].ids(m).disjoint(msg_seq_ids(s.drop_first(), m))
        &&& msg_seq_wf(s.drop_first(), m)
    }
}

/// Read-back of a sequence of messages.
pub open spec fn msg_seq_read(s: Seq<WireMessage>, m: Map<int, ChunkView>) -> Seq<MessageView> {
    Seq::new(s.len(), |i: int| s[i].read(m))
}

impl WireOutputFile {
    pub open spec fn ids(self) -> Set<int> {
        self.path.ids_set() + self.contents.ids_set()
    }

    pub open spec fn wf(self, m: Map<int, ChunkView>) -> bool {
        &&& self.path.text_wf(m)
        &&& self.contents.bytes_wf(m)
        &&& self.path.ids_set().disjoint(self.contents.ids_set())
    }

    pub open spec fn read(self, m: Map<int, ChunkView>) -> OutputFileView {
        OutputFileView {
            path: self.path.text_or_empty(m),
            contents: if self.contents.is_null() {
                Seq::empty()
            } else {
                self.contents.bytes_at(m)
            },
        }
    }
}

/// The allocation ids owned by a sequence of output files.
pub open spec fn out_seq_ids(s: Seq<WireOutputFile>) -> Set<int>
    decreases s.len(),
{
    if s.len() == 0 {
        Set::empty()
    } else {
        s[0].ids() + out_seq_ids(s.drop_first())
    }
}

/// Every output file is well formed and no two share an allocation.
pub open spec fn out_seq_wf(s: Seq<WireOutputFile>, m: Map<int, ChunkView>) -> bool
    decreases s.len(),
{
    if s.len() == 0 {
        true
    } else {
        &&& s[0].wf(m)
        &&& s[0].ids().disjoint(out_seq_ids(s.drop_first()))
        &&& out_seq_wf(s.drop_first(), m)
    }
}

/// Read-back of a sequence of output files.
pub open spec fn out_seq_read(s: Seq<WireOutputFile>, m: Map<int, ChunkView>) -> Seq<
    OutputFileView,
> {
    Seq::new(s.len(), |i: int| s[i].read(m))
}

} // verus!

verus! {

/// Two arena states agree on a set of ids: both hold every id, with the
/// same content.
pub open spec fn agrees_on(m1: Map<int, ChunkView>, m2: Map<int, ChunkView>, ids: Set<int>) -> bool {
    forall|k: int|
        ids.contains(k) ==> m1.dom().contains(k) && m2.dom().contains(k) && m1[k] == m2[k]
}

pub proof fn lemma_agrees_sub(
    m1: Map<int, ChunkView>,
    m2: Map<int, ChunkView>,
    big: Set<int>,
    small: Set<int>,
)
    requires
        agrees_on(m1, m2, big),
        small.subset_of(big),
    ensures
        agrees_on(m1, m2, small),
{
}

pub proof fn lemma_text_frame(w: WireStr, m1: Map<int, ChunkView>, m2: Map<int, ChunkView>)
    requires
        w.text_wf(m1),
        agrees_on(m1, m2, w.ids_set()),
    ensures
        w.text_wf(m2),
        w.text_or_empty(m2) == w.text_or_empty(m1),
        w.opt_text_at(m2) == w.opt_text_at(m1),
    {
    if !w.is_null() {
        assert(w.ids_set().contains(w.id()));
    }
}

pub proof fn lemma_bytes_frame(w: WireStr, m1: Map<int, ChunkView>, m2: Map<int, ChunkView>)
    requires
        w.bytes_wf(m1),
        agrees_on(m1, m2, w.ids_set()),
    ensures
        w.bytes_wf(m2),
        !w.is_null() ==> w.bytes_at(m2) == w.bytes_at(m1),
{
    if !w.is_null() {
        assert(w.ids_set().contains(w.id()));
    }
}

pub proof fn lemma_notes_slice_frame(w: WireStr, m1: Map<int, ChunkView>, m2: Map<int, ChunkView>)
    requires
        w.notes_wf(m1),
        agrees_on(m1, m2, w.ids_set()),
    ensures
        w.notes_wf(m2),
        !w.is_null() ==> w.notes_at(m2) == w.notes_at(m1),
{
    if !w.is_null() {
        assert(w.ids_set().contains(w.id()));
    }
}

pub proof fn lemma_loc_frame(l: WireLocation, m1: Map<int, ChunkView>, m2: Map<int, ChunkView>)
    requires
        l.wf(m1),
        agrees_on(m1, m2, l.ids()),
    ensures
        l.wf(m2),
        l.read(m2) == l.read(m1),
{
    lemma_agrees_sub(m1, m2, l.ids(), l.file.ids_set());
    lemma_agrees_sub(m1, m2, l.ids(), l.namespace.ids_set());
    lemma_agrees_sub(m1, m2, l.ids(), l.line_text.ids_set());
    lemma_agrees_sub(m1, m2, l.ids(), l.suggestion.ids_set());
    lemma_text_frame(l.file, m1, m2);
    lemma_text_frame(l.namespace, m1, m2);
    lemma_text_frame(l.line_text, m1, m2);
    lemma_text_frame(l.suggestion, m1, m2);
}

pub proof fn lemma_opt_loc_frame(
    l: Option<WireLocation>,
    m1: Map<int, ChunkView>,
    m2: Map<int, ChunkView>,
)
    requires
        opt_loc_wf(l, m1),
        agrees_on(m1, m2, opt_loc_ids(l)),
    ensures
        opt_loc_wf(l, m2),
        opt_loc_read(l, m2) == opt_loc_read(l, m1),
{
    match l {
        Some(l) => lemma_loc_frame(l, m1, m2),
        None => (),
    }
}

pub proof fn lemma_note_frame(n: WireNote, m1: Map<int, ChunkView>, m2: Map<int, ChunkView>)
    requires
        n.wf(m1),
        agrees_on(m1, m2, n.ids()),
    ensures
        n.wf(m2),
        n.read(m2) == n.read(m1),
{
    lemma_agrees_sub(m1, m2, n.ids(), n.text.ids_set());
    lemma_agrees_sub(m1, m2, n.ids(), opt_loc_ids(n.location));
    lemma_text_frame(n.text, m1, m2);
    lemma_opt_loc_frame(n.location, m1, m2);
}

pub proof fn lemma_note_seq_frame(s: Seq<WireNote>, m1: Map<int, ChunkView>, m2: Map<int, ChunkView>)
    requires
        note_seq_wf(s, m1),
        agrees_on(m1, m2, note_seq_ids(s)),
    ensures
        note_seq_wf(s, m2),
        note_seq_read(s, m2) == note_seq_read(s, m1),
    decreases s.len(),
{
    if s.len() == 0 {
        assert(note_seq_read(s, m2) =~= note_seq_read(s, m1));
    } else {
        lemma_agrees_sub(m1, m2, note_seq_ids(s), s[0].ids());
        lemma_agrees_sub(m1, m2, note_seq_ids(s), note_seq_ids(s.drop_first()));
        lemma_note_frame(s[0], m1, m2);
        lemma_note_seq_frame(s.drop_first(), m1, m2);
        assert forall|i: int| 0 <= i < s.len() implies s[i].read(m2) == s[i].read(m1) by {
            if i > 0 {
                assert(s.drop_first()[i - 1] == s[i]);
                assert(note_seq_read(s.drop_first(), m2)[i - 1] == note_seq_read(
                    s.drop_first(),
                    m1,
                )[i - 1]);
            }
        }
        assert(note_seq_read(s, m2) =~= note_seq_read(s, m1));
    }
}

pub proof fn lemma_msg_frame(w: WireMessage, m1: Map<int, ChunkView>, m2: Map<int, ChunkView>)
    requires
        w.wf(m1),
        agrees_on(m1, m2, w.ids(m1)),
    ensures
        w.wf(m2),
        w.read(m2) == w.read(m1),
        w.ids(m2) == w.ids(m1),
{
    lemma_agrees_sub(m1, m2, w.ids(m1), w.id.ids_set());
    lemma_agrees_sub(m1, m2, w.ids(m1), w.plugin_name.ids_set());
    lemma_agrees_sub(m1, m2, w.ids(m1), w.text.ids_set());
    lemma_agrees_sub(m1, m2, w.ids(m1), opt_loc_ids(w.location));
    lemma_agrees_sub(m1, m2, w.ids(m1), w.notes.ids_set());
    lemma_text_frame(w.id, m1, m2);
    lemma_text_frame(w.plugin_name, m1, m2);
    lemma_text_frame(w.text, m1, m2);
    lemma_opt_loc_frame(w.location, m1, m2);
    lemma_notes_slice_frame(w.notes, m1, m2);
    if !w.notes.is_null() {
        lemma_agrees_sub(m1, m2, w.ids(m1), note_seq_ids(w.notes.notes_at(m1)));
        lemma_note_seq_frame(w.notes.notes_at(m1), m1, m2);
        assert(w.notes.notes_at(m2) == w.notes.notes_at(m1));
    }
    assert(w.ids(m2) =~= w.ids(m1));
}

pub proof fn lemma_msg_seq_frame(
    s: Seq<WireMessage>,
    m1: Map<int, ChunkView>,
    m2: Map<int, ChunkView>,
)
    requires
        msg_seq_wf(s, m1),
        agrees_on(m1, m2, msg_seq_ids(s, m1)),
    ensures
        msg_seq_wf(s, m2),
        msg_seq_read(s, m2) == msg_seq_read(s, m1),
        msg_seq_ids(s, m2) == msg_seq_ids(s, m1),
    decreases s.len(),
{
    if s.len() == 0 {
        assert(msg_seq_read(s, m2) =~= msg_seq_read(s, m1));
        assert(msg_seq_ids(s, m2) =~= msg_seq_ids(s, m1));
    } else {
        lemma_agrees_sub(m1, m2, msg_seq_ids(s, m1), s[0].ids(m1));
        lemma_agrees_sub(m1, m2, msg_seq_ids(s, m1), msg_seq_ids(s.drop_first(), m1));
        lemma_msg_frame(s[0], m1, m2);
        lemma_msg_seq_frame(s.drop_first(), m1, m2);
        assert forall|i: int| 0 <= i < s.len() implies s[i].read(m2) == s[i].read(m1) by {
            if i > 0 {
                assert(s.drop_first()[i - 1] == s[i]);
                assert(msg_seq_read(s.drop_first(), m2)[i - 1] == msg_seq_read(
                    s.drop_first(),
                    m1,
                )[i - 1]);
            }
        }
        assert(msg_seq_read(s, m2) =~= msg_seq_read(s, m1));
    }
}

pub proof fn lemma_out_frame(o: WireOutputFile, m1: Map<int, ChunkView>, m2: Map<int, ChunkView>)
    requires
        o.wf(m1),
        agrees_on(m1, m2, o.ids()),
    ensures
        o.wf(m2),
        o.read(m2) == o.read(m1),
{
    lemma_agrees_sub(m1, m2, o.ids(), o.path.ids_set());
    lemma_agrees_sub(m1, m2, o.ids(), o.contents.ids_set());
    lemma_text_frame(o.path, m1, m2);
    lemma_bytes_frame(o.contents, m1, m2);
}

pub proof fn lemma_out_seq_frame(
    s: Seq<WireOutputFile>,
    m1: Map<int, ChunkView>,
    m2: Map<int, ChunkView>,
)
    requires
        out_seq_wf(s, m1),
        agrees_on(m1, m2, out_seq_ids(s)),
    ensures
        out_seq_wf(s, m2),
        out_seq_read(s, m2) == out_seq_read(s, m1),
    decreases s.len(),
{
    if s.len() == 0 {
        assert(out_seq_read(s, m2) =~= out_seq_read(s, m1));
    } else {
        lemma_agrees_sub(m1, m2, out_seq_ids(s), s[0].ids());
        lemma_agrees_sub(m1, m2, out_seq_ids(s), out_seq_ids(s.drop_first()));
        lemma_out_frame(s[0], m1, m2);
        lemma_out_seq_frame(s.drop_first(), m1, m2);
        assert forall|i: int| 0 <= i < s.len() implies s[i].read(m2) == s[i].read(m1) by {
            if i > 0 {
                assert(s.drop_first()[i - 1] == s[i]);
                assert(out_seq_read(s.drop_first(), m2)[i - 1] == out_seq_read(
                    s.drop_first(),
                    m1,
                )[i - 1]);
            }
        }
        assert(out_seq_read(s, m2) =~= out_seq_read(s, m1));
    }
}

} // verus!

verus! {

pub proof fn lemma_note_seq_push(s: Seq<WireNote>, n: WireNote, m: Map<int, ChunkView>)
    ensures
        note_seq_ids(s.push(n)) == note_seq_ids(s) + n.ids(),
        (note_seq_wf(s, m) && n.wf(m) && note_seq_ids(s).disjoint(n.ids())) ==> note_seq_wf(
            s.push(n),
            m,
        ),
        note_seq_read(s.push(n), m) == note_seq_read(s, m).push(n.read(m)),
    decreases s.len(),
{
    let q = s.push(n);
    assert(q.len() == s.len() + 1);
    assert(q[0] == if s.len() == 0 { n } else { s[0] });
    if s.len() == 0 {
        assert(q.drop_first() =~= Seq::<WireNote>::empty());
        assert(note_seq_ids(q) == q[0].ids() + note_seq_ids(q.drop_first()));
        assert(note_seq_ids(q.drop_first()) == Set::<int>::empty());
        assert(note_seq_ids(q) =~= note_seq_ids(s) + n.ids());
        if note_seq_wf(s, m) && n.wf(m) && note_seq_ids(s).disjoint(n.ids()) {
            assert(note_seq_wf(q.drop_first(), m));
            assert(q[0].ids().disjoint(note_seq_ids(q.drop_first())));
            assert(note_seq_wf(q, m));
        }
    } else {
        assert(q.drop_first() =~= s.drop_first().push(n));
        lemma_note_seq_push(s.drop_first(), n, m);
        assert(note_seq_ids(q) == q[0].ids() + note_seq_ids(q.drop_first()));
        assert(note_seq_ids(q.drop_first()) == note_seq_ids(s.drop_first()) + n.ids());
        assert(note_seq_ids(q) =~= note_seq_ids(s) + n.ids());
        if note_seq_wf(s, m) && n.wf(m) && note_seq_ids(s).disjoint(n.ids()) {
            assert(note_seq_ids(s) == s[0].ids() + note_seq_ids(s.drop_first()));
            assert(note_seq_ids(s.drop_first()).disjoint(n.ids()));
            assert(note_seq_wf(q.drop_first(), m));
            assert(q[0].ids().disjoint(note_seq_ids(q.drop_first())));
            assert(note_seq_wf(q, m));
        }
    }
    assert(note_seq_read(s.push(n), m) =~= note_seq_read(s, m).push(n.read(m)));
}

pub proof fn lemma_msg_seq_push(s: Seq<WireMessage>, w: WireMessage, m: Map<int, ChunkView>)
    ensures
        msg_seq_ids(s.push(w), m) == msg_seq_ids(s, m) + w.ids(m),
        (msg_seq_wf(s, m) && w.wf(m) && msg_seq_ids(s, m).disjoint(w.ids(m))) ==> msg_seq_wf(
            s.push(w),
            m,
        ),
        msg_seq_read(s.push(w), m) == msg_seq_read(s, m).push(w.read(m)),
    decreases s.len(),
{
    let q = s.push(w);
    assert(q.len() == s.len() + 1);
    assert(q[0] == if s.len() == 0 { w } else { s[0] });
    if s.len() == 0 {
        assert(q.drop_first() =~= Seq::<WireMessage>::empty());
        assert(msg_seq_ids(q, m) == q[0].ids(m) + msg_seq_ids(q.drop_first(), m));
        assert(msg_seq_ids(q.drop_first(), m) == Set::<int>::empty());
        assert(msg_seq_ids(q, m) =~= msg_seq_ids(s, m) + w.ids(m));
        if msg_seq_wf(s, m) && w.wf(m) && msg_seq_ids(s, m).disjoint(w.ids(m)) {
            assert(msg_seq_wf(q.drop_first(), m));
            assert(q[0].ids(m).disjoint(msg_seq_ids(q.drop_first(), m)));
            assert(msg_seq_wf(q, m));
        }
    } else {
        assert(q.drop_first() =~= s.drop_first().push(w));
        lemma_msg_seq_push(s.drop_first(), w, m);
        assert(msg_seq_ids(q, m) == q[0].ids(m) + msg_seq_ids(q.drop_first(), m));
        assert(msg_seq_ids(q.drop_first(), m) == msg_seq_ids(s.drop_first(), m) + w.ids(m));
        assert(msg_seq_ids(q, m) =~= msg_seq_ids(s, m) + w.ids(m));
        if msg_seq_wf(s, m) && w.wf(m) && msg_seq_ids(s, m).disjoint(w.ids(m)) {
            assert(msg_seq_ids(s, m) == s[0].ids(m) + msg_seq_ids(s.drop_first(), m));
            assert(msg_seq_ids(s.drop_first(), m).disjoint(w.ids(m)));
            assert(msg_seq_wf(q.drop_first(), m));
            assert(q[0].ids(m).disjoint(msg_seq_ids(q.drop_first(), m)));
            assert(msg_seq_wf(q, m));
        }
    }
    assert(msg_seq_read(s.push(w), m) =~= msg_seq_read(s, m).push(w.read(m)));
}

pub proof fn lemma_out_seq_push(s: Seq<WireOutputFile>, o: WireOutputFile, m: Map<int, ChunkView>)
    ensures
        out_seq_ids(s.push(o)) == out_seq_ids(s) + o.ids(),
        (out_seq_wf(s, m) && o.wf(m) && out_seq_ids(s).disjoint(o.ids())) ==> out_seq_wf(
            s.push(o),
            m,
        ),
        out_seq_read(s.push(o), m) == out_seq_read(s, m).push(o.read(m)),
    decreases s.len(),
{
    let q = s.push(o);
    assert(q.len() == s.len() + 1);
    assert(q[0] == if s.len() == 0 { o } else { s[0] });
    if s.len() == 0 {
        assert(q.drop_first() =~= Seq::<WireOutputFile>::empty());
        assert(out_seq_ids(q) == q[0].ids() + out_seq_ids(q.drop_first()));
        assert(out_seq_ids(q.drop_first()) == Set::<int>::empty());
        assert(out_seq_ids(q) =~= out_seq_ids(s) + o.ids());
        if out_seq_wf(s, m) && o.wf(m) && out_seq_ids(s).disjoint(o.ids()) {
            assert(out_seq_wf(q.drop_first(), m));
            assert(q[0].ids().disjoint(out_seq_ids(q.drop_first())));
            assert(out_seq_wf(q, m));
        }
    } else {
        assert(q.drop_first() =~= s.drop_first().push(o));
        lemma_out_seq_push(s.drop_first(), o, m);
        assert(out_seq_ids(q) == q[0].ids() + out_seq_ids(q.drop_first()));
        assert(out_seq_ids(q.drop_first()) == out_seq_ids(s.drop_first()) + o.ids());
        assert(out_seq_ids(q) =~= out_seq_ids(s) + o.ids());
        if out_seq_wf(s, m) && o.wf(m) && out_seq_ids(s).disjoint(o.ids()) {
            assert(out_seq_ids(s) == s[0].ids() + out_seq_ids(s.drop_first()));
            assert(out_seq_ids(s.drop_first()).disjoint(o.ids()));
            assert(out_seq_wf(q.drop_first(), m));
            assert(q[0].ids().disjoint(out_seq_ids(q.drop_first())));
            assert(out_seq_wf(q, m));
        }
    }
    assert(out_seq_read(s.push(o), m) =~= out_seq_read(s, m).push(o.read(m)));
}

pub proof fn lemma_note_seq_member(s: Seq<WireNote>, m: Map<int, ChunkView>, i: int)
    requires
        note_seq_wf(s, m),
        0 <= i < s.len(),
    ensures
        s[i].wf(m),
        s[i].ids().subset_of(note_seq_ids(s)),
    decreases s.len(),
{
    if i > 0 {
        lemma_note_seq_member(s.drop_first(), m, i - 1);
        assert(s.drop_first()[i - 1] == s[i]);
    }
}

pub proof fn lemma_msg_seq_member(s: Seq<WireMessage>, m: Map<int, ChunkView>, i: int)
    requires
        msg_seq_wf(s, m),
        0 <= i < s.len(),
    ensures
        s[i].wf(m),
        s[i].ids(m).subset_of(msg_seq_ids(s, m)),
    decreases s.len(),
{
    if i > 0 {
        lemma_msg_seq_member(s.drop_first(), m, i - 1);
        assert(s.drop_first()[i - 1] == s[i]);
    }
}

pub proof fn lemma_out_seq_member(s: Seq<WireOutputFile>, m: Map<int, ChunkView>, i: int)
    requires
        out_seq_wf(s, m),
        0 <= i < s.len(),
    ensures
        s[i].wf(m),
        s[i].ids().subset_of(out_seq_ids(s)),
    decreases s.len(),
{
    if i > 0 {
        lemma_out_seq_member(s.drop_first(), m, i - 1);
        assert(s.drop_first()[i - 1] == s[i]);
    }
}

/// The composition law behind the codec's round trip: growing a state by a
/// fresh set of ids and then removing exactly that set gives back the
/// original state — nothing leaks and nothing is freed twice.
pub proof fn lemma_grow_then_remove(
    m0: Map<int, ChunkView>,
    m1: Map<int, ChunkView>,
    s: Set<int>,
)
    requires
        forall|k: int| #[trigger] m0.dom().contains(k) ==> m1.dom().contains(k) && m1[k] == m0[k],
        forall|k: int| #[trigger] m1.dom().contains(k) ==> m0.dom().contains(k) || s.contains(k),
        s.disjoint(m0.dom()),
    ensures
        m1.remove_keys(s) == m0,
{
    assert forall|k: int| m1.remove_keys(s).dom().contains(k) implies m0.dom().contains(k) by {
        assert(m1.dom().contains(k) && !s.contains(k));
        assert(m0.dom().contains(k) || s.contains(k));
    }
    assert forall|k: int| m0.dom().contains(k) implies m1.remove_keys(s).dom().contains(k) by {
        assert(m1.dom().contains(k));
        assert(!s.contains(k));
    }
    assert(m1.remove_keys(s) =~= m0);
}

} // verus!

verus! {

/// The arena grew from `m0` to `m1` by exactly the allocations in `ids`:
/// everything old is untouched, everything new is in `ids`.
pub open spec fn grew_by(m0: Map<int, ChunkView>, m1: Map<int, ChunkView>, ids: Set<int>) -> bool {
    &&& forall|k: int| #[trigger] m0.dom().contains(k) ==> m1.dom().contains(k) && m1[k] == m0[k]
    &&& forall|k: int| #[trigger] m1.dom().contains(k) ==> m0.dom().contains(k) || ids.contains(k)
    &&& ids.subset_of(m1.dom())
    &&& ids.disjoint(m0.dom())
}

/// Every id of `ids` lies in the address interval `[c0, c1)`.
pub open spec fn fresh_between(c0: int, c1: int, ids: Set<int>) -> bool {
    forall|k: int| #[trigger] ids.contains(k) ==> c0 <= k < c1
}

pub proof fn lemma_grew_trans(
    m0: Map<int, ChunkView>,
    m1: Map<int, ChunkView>,
    m2: Map<int, ChunkView>,
    s1: Set<int>,
    s2: Set<int>,
)
    requires
        grew_by(m0, m1, s1),
        grew_by(m1, m2, s2),
    ensures
        grew_by(m0, m2, s1 + s2),
{
}

/// What the arena already held is untouched by further growth.
pub proof fn lemma_grew_agrees(
    m0: Map<int, ChunkView>,
    m1: Map<int, ChunkView>,
    ids: Set<int>,
    sub: Set<int>,
)
    requires
        grew_by(m0, m1, ids),
        sub.subset_of(m0.dom()),
    ensures
        agrees_on(m0, m1, sub),
{
}

/// Sets of ids from two disjoint address intervals are disjoint.
/// Two wire pairs with disjoint id sets point at different allocations.
pub proof fn lemma_str_pair_distinct(a: WireStr, b: WireStr)
    requires
        a.ids_set().disjoint(b.ids_set()),
    ensures
        (!a.is_null() && !b.is_null()) ==> a.id() != b.id(),
{
    if !a.is_null() && !b.is_null() {
        assert(a.ids_set().contains(a.id()));
        assert(b.ids_set().contains(b.id()));
    }
}

pub proof fn lemma_fresh_disjoint(
    a: int,
    b: int,
    s1: Set<int>,
    c: int,
    d: int,
    s2: Set<int>,
)
    requires
        fresh_between(a, b, s1),
        fresh_between(c, d, s2),
        b <= c,
    ensures
        s1.disjoint(s2),
{
}

} // verus!

verus! {

pub proof fn lemma_loc_ids_in_dom(l: WireLocation, m: Map<int, ChunkView>)
    requires
        l.wf(m),
    ensures
        l.ids().subset_of(m.dom()),
{
    assert forall|k: int| l.ids().contains(k) implies m.dom().contains(k) by {
        if l.file.ids_set().contains(k) {
            assert(k == l.file.id());
        } else if l.namespace.ids_set().contains(k) {
            assert(k == l.namespace.id());
        } else if l.line_text.ids_set().contains(k) {
            assert(k == l.line_text.id());
        } else {
            assert(l.suggestion.ids_set().contains(k));
            assert(k == l.suggestion.id());
        }
    }
}

pub proof fn lemma_opt_loc_ids_in_dom(l: Option<WireLocation>, m: Map<int, ChunkView>)
    requires
        opt_loc_wf(l, m),
    ensures
        opt_loc_ids(l).subset_of(m.dom()),
{
    match l {
        Some(l) => lemma_loc_ids_in_dom(l, m),
        None => (),
    }
}

pub proof fn lemma_note_ids_in_dom(n: WireNote, m: Map<int, ChunkView>)
    requires
        n.wf(m),
    ensures
        n.ids().subset_of(m.dom()),
{
    lemma_opt_loc_ids_in_dom(n.location, m);
    assert forall|k: int| n.ids().contains(k) implies m.dom().contains(k) by {
        if n.text.ids_set().contains(k) {
            assert(k == n.text.id());
        } else {
            assert(opt_loc_ids(n.location).contains(k));
        }
    }
}

pub proof fn lemma_note_seq_ids_in_dom(s: Seq<WireNote>, m: Map<int, ChunkView>)
    requires
        note_seq_wf(s, m),
    ensures
        note_seq_ids(s).subset_of(m.dom()),
    decreases s.len(),
{
    if s.len() > 0 {
        lemma_note_ids_in_dom(s[0], m);
        lemma_note_seq_ids_in_dom(s.drop_first(), m);
    }
}

pub proof fn lemma_msg_ids_in_dom(w: WireMessage, m: Map<int, ChunkView>)
    requires
        w.wf(m),
    ensures
        w.ids(m).subset_of(m.dom()),
{
    lemma_opt_loc_ids_in_dom(w.location, m);
    if !w.notes.is_null() {
        lemma_note_seq_ids_in_dom(w.notes.notes_at(m), m);
    }
    assert forall|k: int| w.ids(m).contains(k) implies m.dom().contains(k) by {
        if w.id.ids_set().contains(k) {
            assert(k == w.id.id());
        } else if w.plugin_name.ids_set().contains(k) {
            assert(k == w.plugin_name.id());
        } else if w.text.ids_set().contains(k) {
            assert(k == w.text.id());
        } else if w.notes.ids_set().contains(k) {
            assert(k == w.notes.id());
        }
    }
}

pub proof fn lemma_msg_seq_ids_in_dom(s: Seq<WireMessage>, m: Map<int, ChunkView>)
    requires
        msg_seq_wf(s, m),
    ensures
        msg_seq_ids(s, m).subset_of(m.dom()),
    decreases s.len(),
{
    if s.len() > 0 {
        lemma_msg_ids_in_dom(s[0], m);
        lemma_msg_seq_ids_in_dom(s.drop_first(), m);
    }
}

pub proof fn lemma_out_ids_in_dom(o: WireOutputFile, m: Map<int, ChunkView>)
    requires
        o.wf(m),
    ensures
        o.ids().subset_of(m.dom()),
{
    assert forall|k: int| o.ids().contains(k) implies m.dom().contains(k) by {
        if o.path.ids_set().contains(k) {
            assert(k == o.path.id());
        } else {
            assert(o.contents.ids_set().contains(k));
            assert(k == o.contents.id());
        }
    }
}

pub proof fn lemma_out_seq_ids_in_dom(s: Seq<WireOutputFile>, m: Map<int, ChunkView>)
    requires
        out_seq_wf(s, m),
    ensures
        out_seq_ids(s).subset_of(m.dom()),
    decreases s.len(),
{
    if s.len() > 0 {
        lemma_out_ids_in_dom(s[0], m);
        lemma_out_seq_ids_in_dom(s.drop_first(), m);
    }
}

} // verus!

verus! {

/// Removing one set of keys leaves a disjoint set of ids untouched.
pub proof fn lemma_remove_keys_agrees(m0: Map<int, ChunkView>, freed: Set<int>, s: Set<int>)
    requires
        s.subset_of(m0.dom()),
        s.disjoint(freed),
    ensures
        agrees_on(m0, m0.remove_keys(freed), s),
{
}

pub proof fn lemma_note_seq_prefix_disjoint(s: Seq<WireNote>, m: Map<int, ChunkView>, j: int)
    requires
        note_seq_wf(s, m),
        0 <= j < s.len(),
    ensures
        s[j].ids().disjoint(note_seq_ids(s.take(j))),
        note_seq_ids(s.take(j)).subset_of(note_seq_ids(s)),
    decreases s.len(),
{
    if j == 0 {
        assert(s.take(0) =~= Seq::<WireNote>::empty());
        assert(note_seq_ids(s.take(0)) =~= Set::<int>::empty());
    } else {
        lemma_note_seq_prefix_disjoint(s.drop_first(), m, j - 1);
        lemma_note_seq_member(s.drop_first(), m, j - 1);
        assert(s.drop_first()[j - 1] == s[j]);
        let t = s.take(j);
        assert(t.len() == j);
        assert(t[0] == s[0]);
        assert(t.drop_first() =~= s.drop_first().take(j - 1));
        assert(note_seq_ids(t) == t[0].ids() + note_seq_ids(t.drop_first()));
    }
}

pub proof fn lemma_msg_seq_prefix_disjoint(s: Seq<WireMessage>, m: Map<int, ChunkView>, j: int)
    requires
        msg_seq_wf(s, m),
        0 <= j < s.len(),
    ensures
        s[j].ids(m).disjoint(msg_seq_ids(s.take(j), m)),
        msg_seq_ids(s.take(j), m).subset_of(msg_seq_ids(s, m)),
    decreases s.len(),
{
    if j == 0 {
        assert(s.take(0) =~= Seq::<WireMessage>::empty());
        assert(msg_seq_ids(s.take(0), m) =~= Set::<int>::empty());
    } else {
        lemma_msg_seq_prefix_disjoint(s.drop_first(), m, j - 1);
        lemma_msg_seq_member(s.drop_first(), m, j - 1);
        assert(s.drop_first()[j - 1] == s[j]);
        let t = s.take(j);
        assert(t.len() == j);
        assert(t[0] == s[0]);
        assert(t.drop_first() =~= s.drop_first().take(j - 1));
        assert(msg_seq_ids(t, m) == t[0].ids(m) + msg_seq_ids(t.drop_first(), m));
    }
}

pub proof fn lemma_out_seq_prefix_disjoint(s: Seq<WireOutputFile>, m: Map<int, ChunkView>, j: int)
    requires
        out_seq_wf(s, m),
        0 <= j < s.len(),
    ensures
        s[j].ids().disjoint(out_seq_ids(s.take(j))),
        out_seq_ids(s.take(j)).subset_of(out_seq_ids(s)),
    decreases s.len(),
{
    if j == 0 {
        assert(s.take(0) =~= Seq::<WireOutputFile>::empty());
        assert(out_seq_ids(s.take(0)) =~= Set::<int>::empty());
    } else {
        lemma_out_seq_prefix_disjoint(s.drop_first(), m, j - 1);
        lemma_out_seq_member(s.drop_first(), m, j - 1);
        assert(s.drop_first()[j - 1] == s[j]);
        let t = s.take(j);
        assert(t.len() == j);
        assert(t[0] == s[0]);
        assert(t.drop_first() =~= s.drop_first().take(j - 1));
        assert(out_seq_ids(t) == t[0].ids() + out_seq_ids(t.drop_first()));
    }
}

} // verus!

verus! {

/// What a message looks like after outbound serialization: only text,
/// location and notes cross the boundary.
pub open spec fn outbound(v: MessageView) -> MessageView {
    MessageView { id: None, plugin_name: None, ..v }
}

/// Outbound shape of a whole sequence of messages.
pub open spec fn outbound_seq(s: Seq<MessageView>) -> Seq<MessageView> {
    Seq::new(s.len(), |i: int| outbound(s[i]))
}

/// The largest number of arena allocations serializing one message can
/// take: its fields plus five per note.
pub open spec fn msg_cost(v: MessageView) -> int {
    6 + 5 * (v.notes.len() as int)
}

/// Allocation budget for a sequence of messages.
pub open spec fn msg_seq_cost(s: Seq<MessageView>) -> int
    decreases s.len(),
{
    if s.len() == 0 {
        0
    } else {
        msg_cost(s[0]) + msg_seq_cost(s.drop_first())
    }
}

pub proof fn lemma_msg_seq_cost_nonneg(s: Seq<MessageView>)
    ensures
        msg_seq_cost(s) >= 0,
    decreases s.len(),
{
    if s.len() > 0 {
        lemma_msg_seq_cost_nonneg(s.drop_first());
    }
}

/// Stepping the budget: the cost of a suffix is the head's cost plus the
/// cost of the rest.
pub proof fn lemma_msg_seq_cost_skip(s: Seq<MessageView>, k: int)
    requires
        0 <= k < s.len(),
    ensures
        msg_seq_cost(s.skip(k)) == msg_cost(s[k]) + msg_seq_cost(s.skip(k + 1)),
{
    assert(s.skip(k).len() > 0);
    assert(s.skip(k)[0] == s[k]);
    assert(s.skip(k).drop_first() =~= s.skip(k + 1));
}

} // verus!

verus! {

/// A bare message: text only, as the model boundary reports its own
/// diagnostics.
pub open spec fn plain_message(t: Seq<char>) -> MessageView {
    MessageView { id: None, plugin_name: None, text: t, location: None, notes: Seq::empty() }
}

} // verus!
