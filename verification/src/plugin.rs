//! Plugins: the outbound on-start result a hook hands back across the
//! boundary, and the descriptors and registry slots behind which the
//! caller's hooks live.

use vstd::prelude::*;

use crate::error::{consume_messages, serialize_messages, MessageBuilder};
use crate::wire::{
    fresh_between, grew_by, lemma_fresh_disjoint, lemma_grew_agrees, lemma_grew_trans,
    lemma_msg_seq_cost_nonneg, lemma_msg_seq_frame, lemma_msg_seq_ids_in_dom,
    lemma_remove_keys_agrees, msg_seq_cost, msg_seq_ids, msg_seq_read, msg_seq_wf, outbound_seq,
    Boundary, MessageView, WireMessage,
};

verus! {

/// The mathematical content of an on-start result.
pub struct OnStartResultView {
    pub errors: Seq<MessageView>,
    pub warnings: Seq<MessageView>,
}

/// An on-start result in wire shape: two flattened message arrays.
pub struct WireOnStartResult {
    pub errors: Vec<WireMessage>,
    pub warnings: Vec<WireMessage>,
}

impl WireOnStartResult {
    pub open spec fn wf(self, m: Map<int, crate::wire::ChunkView>) -> bool {
        &&& msg_seq_wf(self.errors@, m)
        &&& msg_seq_wf(self.warnings@, m)
        &&& msg_seq_ids(self.errors@, m).disjoint(msg_seq_ids(self.warnings@, m))
    }

    pub open spec fn ids(self, m: Map<int, crate::wire::ChunkView>) -> Set<int> {
        msg_seq_ids(self.errors@, m) + msg_seq_ids(self.warnings@, m)
    }

    pub open spec fn read(self, m: Map<int, crate::wire::ChunkView>) -> OnStartResultView {
        OnStartResultView {
            errors: msg_seq_read(self.errors@, m),
            warnings: msg_seq_read(self.warnings@, m),
        }
    }
}

/// What an on-start hook hands back: success, or error and warning
/// diagnostics to fold into the build's result.
#[derive(Debug, Clone)]
pub struct OnStartResult {
    errors: Vec<MessageBuilder>,
    warnings: Vec<MessageBuilder>,
}

impl View for OnStartResult {
    type V = OnStartResultView;

    closed spec fn view(&self) -> OnStartResultView {
        OnStartResultView {
            errors: self.errors.deep_view(),
            warnings: self.warnings.deep_view(),
        }
    }
}

impl OnStartResult {
    /// Success: no errors and no warnings.
    pub fn ok() -> (r: OnStartResult)
        ensures
            r@.errors.len() == 0,
            r@.warnings.len() == 0,
    {
        let r = OnStartResult { errors: Vec::new(), warnings: Vec::new() };
        proof {
            assert(r@.errors =~= Seq::<MessageView>::empty());
            assert(r@.warnings =~= Seq::<MessageView>::empty());
        }
        r
    }

    /// Failure with a single error message.
    pub fn error(message: MessageBuilder) -> (r: OnStartResult)
        ensures
            r@.errors == seq![message@],
            r@.warnings.len() == 0,
    {
        let r = OnStartResult::ok().with_error(message);
        proof {
            assert(r@.errors =~= seq![message@]);
        }
        r
    }

    pub fn with_error(self, message: MessageBuilder) -> (r: OnStartResult)
        ensures
            r@.errors == self@.errors.push(message@),
            r@.warnings == self@.warnings,
    {
        let mut r = self;
        let ghost before = r@;
        r.errors.push(message);
        proof {
            assert(r@.errors =~= before.errors.push(message@));
        }
        r
    }

    pub fn with_warning(self, message: MessageBuilder) -> (r: OnStartResult)
        ensures
            r@.warnings == self@.warnings.push(message@),
            r@.errors == self@.errors,
    {
        let mut r = self;
        let ghost before = r@;
        r.warnings.push(message);
        proof {
            assert(r@.warnings =~= before.warnings.push(message@));
        }
        r
    }

    /// Hands the collected error and warning builders out, in order.
    pub fn into_parts(self) -> (r: (Vec<MessageBuilder>, Vec<MessageBuilder>))
        ensures
            r.0.deep_view() == self@.errors,
            r.1.deep_view() == self@.warnings,
    {
        let OnStartResult { errors, warnings } = self;
        (errors, warnings)
    }

    /// Serializes this result into wire shape, as a hook does right
    /// before handing it back across the boundary.
    pub fn serialize(self, b: &mut Boundary) -> (w: WireOnStartResult)
        requires
            old(b).cap() + msg_seq_cost(self@.errors) + msg_seq_cost(self@.warnings)
                <= usize::MAX as int,
        ensures
            w.wf(final(b)@),
            w.read(final(b)@) == (OnStartResultView {
                errors: outbound_seq(self@.errors),
                warnings: outbound_seq(self@.warnings),
            }),
            grew_by(old(b)@, final(b)@, w.ids(final(b)@)),
            fresh_between(old(b).cap(), final(b).cap(), w.ids(final(b)@)),
            old(b).cap() <= final(b).cap(),
            final(b).cap() <= old(b).cap() + msg_seq_cost(self@.errors) + msg_seq_cost(
                self@.warnings,
            ),
    {
        let ghost m0 = b@;
        let ghost c0 = b.cap();
        let OnStartResult { errors, warnings } = self;
        proof {
            lemma_msg_seq_cost_nonneg(errors.deep_view());
            lemma_msg_seq_cost_nonneg(warnings.deep_view());
        }
        let werrors = serialize_messages(errors, b);
        let ghost m1 = b@;
        let ghost c1 = b.cap();
        let ghost eids = msg_seq_ids(werrors@, m1);
        let wwarnings = serialize_messages(warnings, b);
        let ghost m2 = b@;
        let ghost c2 = b.cap();
        let ghost wids = msg_seq_ids(wwarnings@, m2);
        let w = WireOnStartResult { errors: werrors, warnings: wwarnings };
        proof {
            lemma_msg_seq_ids_in_dom(werrors@, m1);
            lemma_grew_agrees(m1, m2, wids, eids);
            lemma_msg_seq_frame(werrors@, m1, m2);
            lemma_fresh_disjoint(c0, c1, eids, c1, c2, wids);
            lemma_grew_trans(m0, m1, m2, eids, wids);
            assert(w.ids(m2) =~= eids + wids);
            assert(grew_by(m0, m2, w.ids(m2)));
            assert(fresh_between(c0, c2, w.ids(m2)));
            assert(w.wf(m2));
        }
        w
    }

    /// The exact inverse of `serialize`: reconstructs the result and
    /// frees every allocation the wire record owns, as the boundary's
    /// dedicated destroy entry point does.
    pub fn consume(w: WireOnStartResult, b: &mut Boundary) -> (r: OnStartResult)
        requires
            w.wf(old(b)@),
        ensures
            r@ == w.read(old(b)@),
            final(b)@ == old(b)@.remove_keys(w.ids(old(b)@)),
            final(b).cap() == old(b).cap(),
    {
        let ghost m0 = b@;
        let ghost eids = msg_seq_ids(w.errors@, m0);
        let ghost wids = msg_seq_ids(w.warnings@, m0);
        let WireOnStartResult { errors: werrors, warnings: wwarnings } = w;
        let errors = consume_messages(werrors, b);
        let ghost m1 = b@;
        proof {
            lemma_msg_seq_ids_in_dom(wwarnings@, m0);
            lemma_remove_keys_agrees(m0, eids, wids);
            lemma_msg_seq_frame(wwarnings@, m0, m1);
        }
        let warnings = consume_messages(wwarnings, b);
        proof {
            assert(b@ =~= m0.remove_keys(eids + wids));
        }
        let r = OnStartResult { errors, warnings };
        proof {
            assert(r@ == w.read(m0));
        }
        r
    }
}

} // verus!

verus! {

/// An owned handle to one plugin descriptor: the boundary-side object
/// wrapping the caller's registered hooks.
pub struct PluginDescriptor {
    handle: u64,
}

impl PluginDescriptor {
    pub closed spec fn id(self) -> u64 {
        self.handle
    }

    pub(crate) fn from_handle(handle: u64) -> (r: PluginDescriptor)
        ensures
            r.id() == handle,
    {
        PluginDescriptor { handle }
    }

    pub(crate) fn handle(&self) -> (h: u64)
        ensures
            h == self.id(),
    {
        self.handle
    }
}

} // verus!

verus! {

/// Configures one plugin while its descriptor is being built: it counts
/// the on-start hooks the plugin asks for. The hooks' stable addresses
/// are handed out when the registrations are committed to the engine;
/// the caller's closures stay on the caller's side, keyed by address.
pub struct PluginBuilder {
    pending: usize,
}

impl PluginBuilder {
    /// How many on-start hooks have been asked for so far.
    pub closed spec fn pending_hooks(self) -> nat {
        self.pending as nat
    }

    pub(crate) fn empty() -> (r: PluginBuilder)
        ensures
            r.pending_hooks() == 0,
    {
        PluginBuilder { pending: 0 }
    }

    pub(crate) fn pending(&self) -> (n: usize)
        ensures
            n as nat == self.pending_hooks(),
    {
        self.pending
    }

    /// Asks for one on-start hook slot.
    pub fn on_start(&mut self)
        requires
            old(self).pending_hooks() < usize::MAX,
        ensures
            final(self).pending_hooks() == old(self).pending_hooks() + 1,
    {
        self.pending = self.pending + 1;
    }
}

/// A plugin: a name, and a configuration step that registers its hooks.
pub trait Plugin {
    fn name(&self) -> String;

    fn build(&self, builder: &mut PluginBuilder);
}

/// Turns a plugin into a boundary-side descriptor, registering its
/// hooks.
pub trait IntoPluginDescriptor: Sized {
    fn into_descriptor(self, e: &mut crate::engine::Engine) -> (r: PluginDescriptor)
        requires
            old(e).wf(),
        ensures
            final(e).wf(),
            crate::engine::same_files(*old(e), *final(e)),
            crate::engine::same_options(*old(e), *final(e)),
            crate::engine::same_contexts(*old(e), *final(e)),
            crate::engine::same_bridges(*old(e), *final(e)),
            crate::engine::same_jobs(*old(e), *final(e)),
            final(e).heap_view() == old(e).heap_view(),
            final(e).heap_cap() == old(e).heap_cap(),
            final(e).results_table() == old(e).results_table(),
            final(e).cerrs_table() == old(e).cerrs_table(),
            !old(e).plugin_live(r.id()),
            final(e).plugin_live(r.id()),
            forall|c: u64|
                #[trigger] old(e).cb_live(c) ==> final(e).cb_live(c) && final(e).cb_at(c)
                    == old(e).cb_at(c),
            forall|c: u64|
                #[trigger] final(e).cb_live(c) && !old(e).cb_live(c) ==> final(e).cb_at(c).plugin
                    == r.id(),
            forall|p: u64|
                p != r.id() && #[trigger] old(e).plugin_live(p) ==> final(e).plugin_live(p)
                    && final(e).plugin_at(p) == old(e).plugin_at(p),
            forall|p: u64|
                #[trigger] final(e).plugin_live(p) ==> p == r.id() || old(e).plugin_live(p),
    ;
}

impl<P: Plugin> IntoPluginDescriptor for P {
    fn into_descriptor(self, e: &mut crate::engine::Engine) -> (r: PluginDescriptor) {
        let name = self.name();
        let descriptor = PluginDescriptor::new(e, name.as_str());
        let mut builder = PluginBuilder::empty();
        self.build(&mut builder);
        let n = builder.pending();
        let mut j: usize = 0;
        let ghost e1 = *e;
        while j < n
            invariant
                e.wf(),
                e1.plugin_live(descriptor.id()),
                e.plugin_live(descriptor.id()),
                crate::engine::same_files(e1, *e),
                crate::engine::same_options(e1, *e),
                crate::engine::same_contexts(e1, *e),
                crate::engine::same_bridges(e1, *e),
                crate::engine::same_jobs(e1, *e),
                e.heap_view() == e1.heap_view(),
                e.heap_cap() == e1.heap_cap(),
                e.results_table() == e1.results_table(),
                e.cerrs_table() == e1.cerrs_table(),
                forall|c: u64|
                    #[trigger] e1.cb_live(c) ==> e.cb_live(c) && e.cb_at(c) == e1.cb_at(c),
                forall|c: u64|
                    #[trigger] e.cb_live(c) && !e1.cb_live(c) ==> e.cb_at(c).plugin
                        == descriptor.id(),
                forall|p: u64|
                    p != descriptor.id() && #[trigger] e1.plugin_live(p) ==> e.plugin_live(p)
                        && e.plugin_at(p) == e1.plugin_at(p),
                forall|p: u64| #[trigger] e.plugin_live(p) ==> p == descriptor.id() || e1.plugin_live(p),
            decreases n - j,
        {
            e.register_on_start(descriptor.handle());
            j = j + 1;
        }
        proof {
            assert forall|c: u64| #[trigger] old(e).cb_live(c) implies e.cb_live(c) && e.cb_at(c)
                == old(e).cb_at(c) by {
                assert(e1.cb_live(c));
                assert(e1.cb_at(c) == old(e).cb_at(c));
            }
            assert forall|c: u64|
                #[trigger] e.cb_live(c) && !old(e).cb_live(c) implies e.cb_at(c).plugin
                == descriptor.id() by {
                assert(!e1.cb_live(c));
            }
            assert forall|p: u64|
                p != descriptor.id() && #[trigger] old(e).plugin_live(p) implies e.plugin_live(p)
                && e.plugin_at(p) == old(e).plugin_at(p) by {
                assert(e1.plugin_live(p));
                assert(e1.plugin_at(p) == old(e).plugin_at(p));
            }
            assert forall|p: u64| #[trigger] e.plugin_live(p) implies p == descriptor.id()
                || old(e).plugin_live(p) by {
                if p != descriptor.id() {
                    assert(e1.plugin_live(p));
                }
            }
        }
        descriptor
    }
}

} // verus!

verus! {

/// The round-trip law of the codec for on-start results: what
/// `serialize` allocates, `consume` frees — no more and no less — so the
/// boundary after `consume(serialize(x))` is exactly the boundary before.
pub proof fn lemma_on_start_round_trip(
    m0: Map<int, crate::wire::ChunkView>,
    m1: Map<int, crate::wire::ChunkView>,
    m2: Map<int, crate::wire::ChunkView>,
    w: WireOnStartResult,
)
    requires
        crate::wire::grew_by(m0, m1, w.ids(m1)),
        m2 == m1.remove_keys(w.ids(m1)),
    ensures
        m2 == m0,
{
    crate::wire::lemma_grow_then_remove(m0, m1, w.ids(m1));
}

} // verus!
