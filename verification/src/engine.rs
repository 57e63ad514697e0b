//! The boundary engine: the caller-maintained table of boundary-owned
//! objects that every opaque handle indexes into. It owns the arena of
//! wire allocations, the options, plugin, callback, context, result and
//! bridge tables, and enforces the lifecycle discipline: every object is
//! created once, read only while live, and destroyed exactly once.

use vstd::prelude::*;

use crate::context::{Context, ContextError};
use crate::error::{serialize_messages, MessageBuilder};
use crate::future::BuildFutureState;
use crate::options::BuildOptions;
use crate::plugin::PluginDescriptor;
use crate::result::BuildResult;
use crate::wire::{
    msg_seq_cost, msg_seq_ids, msg_seq_read, msg_seq_wf, out_seq_ids, out_seq_read, out_seq_wf, Boundary,
    ChunkView, MessageView, OutputFileView, WireMessage, WireOutputFile,
};

verus! {

/// One entry point: an input path and the output path it builds to.
pub struct Entry {
    pub in_path: String,
    pub out_path: String,
}

impl DeepView for Entry {
    type V = (Seq<char>, Seq<char>);

    open spec fn deep_view(&self) -> (Seq<char>, Seq<char>) {
        (self.in_path@, self.out_path@)
    }
}

/// A boundary-side options object under construction.
pub struct OptionsState {
    pub entries: Vec<Entry>,
    pub plugins: Vec<u64>,
    pub bundle: bool,
}

/// A boundary-side plugin descriptor: its name and the registered
/// on-start hook slots it owns.
pub struct PluginState {
    pub name: String,
    pub hooks: Vec<u64>,
}

/// One registered hook slot: the stable address handed across the
/// boundary, owned by a plugin until that plugin's teardown.
pub struct CallbackState {
    pub plugin: u64,
}

/// A live context: a snapshot of its options, a reference count shared
/// between the caller and in-flight builds, and its cancellation tally.
pub struct ContextState {
    pub entries: Vec<Entry>,
    pub plugins: Vec<u64>,
    pub bundle: bool,
    pub refs: u64,
    pub cancels: u64,
}

/// A boundary-owned build result aggregate.
pub struct ResultState {
    pub errors: Vec<WireMessage>,
    pub warnings: Vec<WireMessage>,
    pub outputs: Vec<WireOutputFile>,
}

/// One build in flight: the context it holds a reference on, the bridge
/// it completes into (none for a blocking build), the hook slots still to
/// run, and the diagnostics collected from them so far.
pub struct JobState {
    pub context: u64,
    pub bridge: Option<u64>,
    pub hooks: Vec<u64>,
    pub next: usize,
    pub errors: Vec<MessageBuilder>,
    pub warnings: Vec<MessageBuilder>,
}

/// The caller-maintained table of boundary objects, and the arena their
/// variable-length data lives in.
pub struct Engine {
    heap: Boundary,
    files: Vec<String>,
    options: Vec<Option<OptionsState>>,
    plugins: Vec<Option<PluginState>>,
    callbacks: Vec<Option<CallbackState>>,
    contexts: Vec<Option<ContextState>>,
    results: Vec<Option<ResultState>>,
    cerrs: Vec<Option<Vec<WireMessage>>>,
    bridges: Vec<Option<BuildFutureState>>,
    jobs: Vec<Option<JobState>>,
}

impl Engine {
    pub closed spec fn heap_view(self) -> Map<int, ChunkView> {
        self.heap@
    }

    pub closed spec fn heap_cap(self) -> int {
        self.heap.cap()
    }

    /// The input paths the model resolver knows.
    pub closed spec fn files_list(self) -> Seq<Seq<char>> {
        self.files.deep_view()
    }

    pub closed spec fn options_table(self) -> Seq<Option<OptionsState>> {
        self.options@
    }

    pub closed spec fn plugins_table(self) -> Seq<Option<PluginState>> {
        self.plugins@
    }

    pub closed spec fn callbacks_table(self) -> Seq<Option<CallbackState>> {
        self.callbacks@
    }

    pub closed spec fn contexts_table(self) -> Seq<Option<ContextState>> {
        self.contexts@
    }

    pub closed spec fn results_table(self) -> Seq<Option<ResultState>> {
        self.results@
    }

    pub closed spec fn cerrs_table(self) -> Seq<Option<Vec<WireMessage>>> {
        self.cerrs@
    }

    pub closed spec fn bridges_table(self) -> Seq<Option<BuildFutureState>> {
        self.bridges@
    }

    pub closed spec fn jobs_table(self) -> Seq<Option<JobState>> {
        self.jobs@
    }

    pub open spec fn options_live(self, h: u64) -> bool {
        h < self.options_table().len() && self.options_table()[h as int] is Some
    }

    pub open spec fn options_at(self, h: u64) -> OptionsState {
        self.options_table()[h as int]->0
    }

    pub open spec fn plugin_live(self, h: u64) -> bool {
        h < self.plugins_table().len() && self.plugins_table()[h as int] is Some
    }

    pub open spec fn plugin_at(self, h: u64) -> PluginState {
        self.plugins_table()[h as int]->0
    }

    pub open spec fn cb_live(self, h: u64) -> bool {
        h < self.callbacks_table().len() && self.callbacks_table()[h as int] is Some
    }

    pub open spec fn cb_at(self, h: u64) -> CallbackState {
        self.callbacks_table()[h as int]->0
    }

    pub open spec fn ctx_live(self, h: u64) -> bool {
        h < self.contexts_table().len() && self.contexts_table()[h as int] is Some
    }

    pub open spec fn ctx_at(self, h: u64) -> ContextState {
        self.contexts_table()[h as int]->0
    }

    pub open spec fn ctx_refs(self, h: u64) -> int {
        self.ctx_at(h).refs as int
    }

    pub open spec fn ctx_cancels(self, h: u64) -> int {
        self.ctx_at(h).cancels as int
    }

    pub open spec fn res_live(self, h: u64) -> bool {
        h < self.results_table().len() && self.results_table()[h as int] is Some
    }

    pub open spec fn res_at(self, h: u64) -> ResultState {
        self.results_table()[h as int]->0
    }

    pub open spec fn cerr_live(self, h: u64) -> bool {
        h < self.cerrs_table().len() && self.cerrs_table()[h as int] is Some
    }

    pub open spec fn cerr_at(self, h: u64) -> Seq<WireMessage> {
        self.cerrs_table()[h as int]->0@
    }

    pub open spec fn bridge_live(self, h: u64) -> bool {
        h < self.bridges_table().len() && self.bridges_table()[h as int] is Some
    }

    pub open spec fn bridge_at(self, h: u64) -> BuildFutureState {
        self.bridges_table()[h as int]->0
    }

    pub open spec fn job_live(self, h: u64) -> bool {
        h < self.jobs_table().len() && self.jobs_table()[h as int] is Some
    }

    pub open spec fn job_at(self, h: u64) -> JobState {
        self.jobs_table()[h as int]->0
    }

    /// All arena ids a live result owns.
    pub open spec fn res_ids(self, h: u64) -> Set<int> {
        msg_seq_ids(self.res_at(h).errors@, self.heap_view()) + msg_seq_ids(
            self.res_at(h).warnings@,
            self.heap_view(),
        ) + out_seq_ids(self.res_at(h).outputs@)
    }

    /// Internal well-formedness of one live result.
    pub open spec fn res_wf(self, h: u64) -> bool {
        let r = self.res_at(h);
        let m = self.heap_view();
        &&& msg_seq_wf(r.errors@, m)
        &&& msg_seq_wf(r.warnings@, m)
        &&& out_seq_wf(r.outputs@, m)
        &&& msg_seq_ids(r.errors@, m).disjoint(msg_seq_ids(r.warnings@, m))
        &&& msg_seq_ids(r.errors@, m).disjoint(out_seq_ids(r.outputs@))
        &&& msg_seq_ids(r.warnings@, m).disjoint(out_seq_ids(r.outputs@))
    }

    /// All arena ids a live context error owns.
    pub open spec fn cerr_ids(self, h: u64) -> Set<int> {
        msg_seq_ids(self.cerr_at(h), self.heap_view())
    }

    pub open spec fn cerr_wf(self, h: u64) -> bool {
        msg_seq_wf(self.cerr_at(h), self.heap_view())
    }

    /// The read-back of a live result's errors.
    pub open spec fn res_errors_read(self, h: u64) -> Seq<MessageView> {
        msg_seq_read(self.res_at(h).errors@, self.heap_view())
    }

    pub open spec fn res_warnings_read(self, h: u64) -> Seq<MessageView> {
        msg_seq_read(self.res_at(h).warnings@, self.heap_view())
    }

    pub open spec fn res_outputs_read(self, h: u64) -> Seq<OutputFileView> {
        out_seq_read(self.res_at(h).outputs@, self.heap_view())
    }

    pub open spec fn cerr_read(self, h: u64) -> Seq<MessageView> {
        msg_seq_read(self.cerr_at(h), self.heap_view())
    }

    /// The whole table is sound: every live boundary-owned aggregate is
    /// well formed in the arena, no two share an allocation, and every
    /// registered hook slot is owned by the live plugin that lists it.
    pub open spec fn wf(self) -> bool {
        &&& forall|h: u64| #[trigger] self.res_live(h) ==> self.res_wf(h)
        &&& forall|h: u64| #[trigger] self.cerr_live(h) ==> self.cerr_wf(h)
        &&& forall|h1: u64, h2: u64|
            #![trigger self.res_ids(h1), self.res_ids(h2)]
            self.res_live(h1) && self.res_live(h2) && h1 != h2 ==> self.res_ids(h1).disjoint(
                self.res_ids(h2),
            )
        &&& forall|h1: u64, h2: u64|
            #![trigger self.cerr_ids(h1), self.cerr_ids(h2)]
            self.cerr_live(h1) && self.cerr_live(h2) && h1 != h2 ==> self.cerr_ids(h1).disjoint(
                self.cerr_ids(h2),
            )
        &&& forall|h1: u64, h2: u64|
            #![trigger self.res_ids(h1), self.cerr_ids(h2)]
            self.res_live(h1) && self.cerr_live(h2) ==> self.res_ids(h1).disjoint(
                self.cerr_ids(h2),
            )
        &&& forall|c: u64| #[trigger] self.cb_live(c) ==> {
            &&& self.plugin_live(self.cb_at(c).plugin)
            &&& self.plugin_at(self.cb_at(c).plugin).hooks@.contains(c)
        }
        &&& forall|p: u64, i: int|
            self.plugin_live(p) && 0 <= i < self.plugin_at(p).hooks@.len() ==> {
                &&& self.cb_live(#[trigger] self.plugin_at(p).hooks@[i])
                &&& self.cb_at(self.plugin_at(p).hooks@[i]).plugin == p
            }
    }

    /// A fresh engine: an empty arena and empty tables.
    pub fn new() -> (e: Engine)
        ensures
            e.wf(),
            e.heap_view() == Map::<int, ChunkView>::empty(),
            e.heap_cap() == 0,
            e.files_list() == Seq::<Seq<char>>::empty(),
            e.options_table() == Seq::<Option<OptionsState>>::empty(),
            e.plugins_table() == Seq::<Option<PluginState>>::empty(),
            e.callbacks_table() == Seq::<Option<CallbackState>>::empty(),
            e.contexts_table() == Seq::<Option<ContextState>>::empty(),
            e.results_table() == Seq::<Option<ResultState>>::empty(),
            e.cerrs_table() == Seq::<Option<Vec<WireMessage>>>::empty(),
            e.bridges_table() == Seq::<Option<BuildFutureState>>::empty(),
            e.jobs_table() == Seq::<Option<JobState>>::empty(),
    {
        let e = Engine {
            heap: Boundary::new(),
            files: Vec::new(),
            options: Vec::new(),
            plugins: Vec::new(),
            callbacks: Vec::new(),
            contexts: Vec::new(),
            results: Vec::new(),
            cerrs: Vec::new(),
            bridges: Vec::new(),
            jobs: Vec::new(),
        };
        proof {
            assert(e.files_list() =~= Seq::<Seq<char>>::empty());
            assert(e.options_table() =~= Seq::<Option<OptionsState>>::empty());
            assert(e.plugins_table() =~= Seq::<Option<PluginState>>::empty());
            assert(e.callbacks_table() =~= Seq::<Option<CallbackState>>::empty());
            assert(e.contexts_table() =~= Seq::<Option<ContextState>>::empty());
            assert(e.results_table() =~= Seq::<Option<ResultState>>::empty());
            assert(e.cerrs_table() =~= Seq::<Option<Vec<WireMessage>>>::empty());
            assert(e.bridges_table() =~= Seq::<Option<BuildFutureState>>::empty());
            assert(e.jobs_table() =~= Seq::<Option<JobState>>::empty());
        }
        e
    }

    /// Declares one input path resolvable by the model resolver.
    pub fn add_file(&mut self, path: &str)
        requires
            old(self).wf(),
        ensures
            final(self).wf(),
            final(self).files_list() == old(self).files_list().push(path@),
            final(self).heap_view() == old(self).heap_view(),
            final(self).heap_cap() == old(self).heap_cap(),
            final(self).options_table() == old(self).options_table(),
            final(self).plugins_table() == old(self).plugins_table(),
            final(self).callbacks_table() == old(self).callbacks_table(),
            final(self).contexts_table() == old(self).contexts_table(),
            final(self).results_table() == old(self).results_table(),
            final(self).cerrs_table() == old(self).cerrs_table(),
            final(self).bridges_table() == old(self).bridges_table(),
            final(self).jobs_table() == old(self).jobs_table(),
    {
        self.files.push(path.to_owned());
        proof {
            assert(self.files_list() =~= old(self).files_list().push(path@));
            Engine::lemma_wf_preserved(*old(self), *self);
        }
    }

    /// A read-only borrow of the arena, for the projection views.
    pub fn heap(&self) -> (b: &Boundary)
        ensures
            b@ == self.heap_view(),
            b.cap() == self.heap_cap(),
    {
        &self.heap
    }
}

} // verus!

verus! {

impl Engine {
    /// Well-formedness depends only on the arena and on the tables of
    /// heap-owning aggregates and hook slots; any change elsewhere keeps
    /// it.
    pub proof fn lemma_wf_preserved(a: Engine, b: Engine)
        requires
            a.wf(),
            b.heap_view() == a.heap_view(),
            b.results_table() == a.results_table(),
            b.cerrs_table() == a.cerrs_table(),
            b.callbacks_table() == a.callbacks_table(),
            b.plugins_table() == a.plugins_table(),
        ensures
            b.wf(),
    {
        assert forall|h: u64| #[trigger] b.res_live(h) implies b.res_wf(h) by {
            assert(a.res_live(h));
            assert(a.res_wf(h));
        }
        assert forall|h: u64| #[trigger] b.cerr_live(h) implies b.cerr_wf(h) by {
            assert(a.cerr_live(h));
            assert(a.cerr_wf(h));
        }
        assert forall|h1: u64, h2: u64|
            b.res_live(h1) && b.res_live(h2) && h1 != h2 implies b.res_ids(h1).disjoint(
            b.res_ids(h2),
        ) by {
            assert(a.res_live(h1) && a.res_live(h2));
            assert(a.res_ids(h1).disjoint(a.res_ids(h2)));
        }
        assert forall|h1: u64, h2: u64|
            b.cerr_live(h1) && b.cerr_live(h2) && h1 != h2 implies b.cerr_ids(h1).disjoint(
            b.cerr_ids(h2),
        ) by {
            assert(a.cerr_live(h1) && a.cerr_live(h2));
            assert(a.cerr_ids(h1).disjoint(a.cerr_ids(h2)));
        }
        assert forall|h1: u64, h2: u64|
            b.res_live(h1) && b.cerr_live(h2) implies b.res_ids(h1).disjoint(b.cerr_ids(h2)) by {
            assert(a.res_live(h1) && a.cerr_live(h2));
            assert(a.res_ids(h1).disjoint(a.cerr_ids(h2)));
        }
        assert forall|c: u64| #[trigger] b.cb_live(c) implies {
            &&& b.plugin_live(b.cb_at(c).plugin)
            &&& b.plugin_at(b.cb_at(c).plugin).hooks@.contains(c)
        } by {
            assert(a.cb_live(c));
        }
        assert forall|p: u64, i: int|
            b.plugin_live(p) && 0 <= i < b.plugin_at(p).hooks@.len() implies {
            &&& b.cb_live(#[trigger] b.plugin_at(p).hooks@[i])
            &&& b.cb_at(b.plugin_at(p).hooks@[i]).plugin == p
        } by {
            assert(a.plugin_live(p));
            assert(a.cb_live(a.plugin_at(p).hooks@[i]));
        }
    }
}

} // verus!

verus! {

/// The part of the engine that well-formedness depends on is unchanged.
pub open spec fn same_core(a: Engine, b: Engine) -> bool {
    &&& b.heap_view() == a.heap_view()
    &&& b.heap_cap() == a.heap_cap()
    &&& b.results_table() == a.results_table()
    &&& b.cerrs_table() == a.cerrs_table()
    &&& b.callbacks_table() == a.callbacks_table()
    &&& b.plugins_table() == a.plugins_table()
}

pub open spec fn same_files(a: Engine, b: Engine) -> bool {
    b.files_list() == a.files_list()
}

pub open spec fn same_options(a: Engine, b: Engine) -> bool {
    b.options_table() == a.options_table()
}

pub open spec fn same_contexts(a: Engine, b: Engine) -> bool {
    b.contexts_table() == a.contexts_table()
}

pub open spec fn same_bridges(a: Engine, b: Engine) -> bool {
    b.bridges_table() == a.bridges_table()
}

pub open spec fn same_jobs(a: Engine, b: Engine) -> bool {
    b.jobs_table() == a.jobs_table()
}

/// Takes the live object out of a table slot.
fn table_take<T>(v: &mut Vec<Option<T>>, i: usize) -> (r: T)
    requires
        i < old(v)@.len(),
        old(v)@[i as int] is Some,
    ensures
        final(v)@ == old(v)@.update(i as int, None::<T>),
        r == old(v)@[i as int]->0,
{
    let mut slot: Option<T> = None;
    core::mem::swap(&mut slot, &mut v[i]);
    match slot {
        Some(t) => t,
        None => vstd::pervasive::unreached(),
    }
}

/// Puts an object into a table slot.
fn table_put<T>(v: &mut Vec<Option<T>>, i: usize, t: T)
    requires
        i < old(v)@.len(),
    ensures
        final(v)@ == old(v)@.update(i as int, Some(t)),
{
    v.set(i, Some(t));
}

impl BuildOptions {
    /// Creates a fresh, empty options object.
    pub fn new(e: &mut Engine) -> (r: BuildOptions)
        requires
            old(e).wf(),
        ensures
            final(e).wf(),
            same_core(*old(e), *final(e)),
            same_files(*old(e), *final(e)),
            same_contexts(*old(e), *final(e)),
            same_bridges(*old(e), *final(e)),
            same_jobs(*old(e), *final(e)),
            !old(e).options_live(r.id()),
            final(e).options_live(r.id()),
            r.id() as int == old(e).options_table().len(),
            final(e).options_table().len() == old(e).options_table().len() + 1,
            forall|i: int|
                0 <= i < old(e).options_table().len()
                    ==> final(e).options_table()[i] == old(e).options_table()[i],
            final(e).options_at(r.id()).entries.deep_view() == Seq::<(Seq<char>, Seq<char>)>::empty(),
            final(e).options_at(r.id()).plugins@ == Seq::<u64>::empty(),
            !final(e).options_at(r.id()).bundle,
    {
        let h = e.options.len();
        e.options.push(
            Some(OptionsState { entries: Vec::new(), plugins: Vec::new(), bundle: false }),
        );
        let r = BuildOptions::from_handle(h as u64);
        proof {
            Engine::lemma_wf_preserved(*old(e), *e);
            assert(final(e).options_at(r.id()).entries.deep_view() =~= Seq::<
                (Seq<char>, Seq<char>),
            >::empty());
            assert(final(e).options_at(r.id()).plugins@ =~= Seq::<u64>::empty());
        }
        r
    }

    /// Appends one entry point to this options object.
    pub fn entry_point(self, e: &mut Engine, in_path: &str, out_path: &str) -> (r: BuildOptions)
        requires
            old(e).wf(),
            old(e).options_live(self.id()),
        ensures
            final(e).wf(),
            same_core(*old(e), *final(e)),
            same_files(*old(e), *final(e)),
            same_contexts(*old(e), *final(e)),
            same_bridges(*old(e), *final(e)),
            same_jobs(*old(e), *final(e)),
            r.id() == self.id(),
            final(e).options_live(self.id()),
            final(e).options_at(self.id()).entries.deep_view() == old(e).options_at(
                self.id(),
            ).entries.deep_view().push((in_path@, out_path@)),
            final(e).options_at(self.id()).plugins@ == old(e).options_at(self.id()).plugins@,
            final(e).options_at(self.id()).bundle == old(e).options_at(self.id()).bundle,
            forall|i: int|
                0 <= i < old(e).options_table().len() && i != self.id()
                    ==> final(e).options_table()[i] == old(e).options_table()[i],
            final(e).options_table().len() == old(e).options_table().len(),
    {
        let h = self.handle();
        let n = e.options.len();
        let i = h as usize;
        let mut st = table_take(&mut e.options, i);
        let ghost before = st.entries.deep_view();
        st.entries.push(Entry { in_path: in_path.to_owned(), out_path: out_path.to_owned() });
        proof {
            assert(st.entries.deep_view() =~= before.push((in_path@, out_path@)));
        }
        table_put(&mut e.options, i, st);
        proof {
            Engine::lemma_wf_preserved(*old(e), *e);
        }
        self
    }

    /// Sets the bundling toggle.
    pub fn bundle(self, e: &mut Engine, enable: bool) -> (r: BuildOptions)
        requires
            old(e).wf(),
            old(e).options_live(self.id()),
        ensures
            final(e).wf(),
            same_core(*old(e), *final(e)),
            same_files(*old(e), *final(e)),
            same_contexts(*old(e), *final(e)),
            same_bridges(*old(e), *final(e)),
            same_jobs(*old(e), *final(e)),
            r.id() == self.id(),
            final(e).options_live(self.id()),
            final(e).options_at(self.id()).entries == old(e).options_at(self.id()).entries,
            final(e).options_at(self.id()).plugins@ == old(e).options_at(self.id()).plugins@,
            final(e).options_at(self.id()).bundle == enable,
            forall|i: int|
                0 <= i < old(e).options_table().len() && i != self.id()
                    ==> final(e).options_table()[i] == old(e).options_table()[i],
            final(e).options_table().len() == old(e).options_table().len(),
    {
        let h = self.handle();
        let _n = e.options.len();
        let i = h as usize;
        let mut st = table_take(&mut e.options, i);
        st.bundle = enable;
        table_put(&mut e.options, i, st);
        proof {
            Engine::lemma_wf_preserved(*old(e), *e);
        }
        self
    }
}

} // verus!

verus! {

impl Engine {
    /// Growing the arena by fresh allocations leaves every live
    /// aggregate well formed, with the same footprint and content.
    pub proof fn lemma_wf_after_grow(a: Engine, b: Engine, newids: Set<int>)
        requires
            a.wf(),
            crate::wire::grew_by(a.heap_view(), b.heap_view(), newids),
            b.results_table() == a.results_table(),
            b.cerrs_table() == a.cerrs_table(),
            b.callbacks_table() == a.callbacks_table(),
            b.plugins_table() == a.plugins_table(),
        ensures
            forall|h: u64| #[trigger] a.res_live(h) ==> {
                &&& b.res_wf(h)
                &&& b.res_ids(h) == a.res_ids(h)
                &&& a.res_ids(h).subset_of(a.heap_view().dom())
                &&& b.res_errors_read(h) == a.res_errors_read(h)
                &&& b.res_warnings_read(h) == a.res_warnings_read(h)
                &&& b.res_outputs_read(h) == a.res_outputs_read(h)
            },
            forall|h: u64| #[trigger] a.cerr_live(h) ==> {
                &&& b.cerr_wf(h)
                &&& b.cerr_ids(h) == a.cerr_ids(h)
                &&& a.cerr_ids(h).subset_of(a.heap_view().dom())
                &&& b.cerr_read(h) == a.cerr_read(h)
            },
            forall|c: u64| #[trigger] b.cb_live(c) ==> {
                &&& b.plugin_live(b.cb_at(c).plugin)
                &&& b.plugin_at(b.cb_at(c).plugin).hooks@.contains(c)
            },
            forall|p: u64, i: int|
                b.plugin_live(p) && 0 <= i < b.plugin_at(p).hooks@.len() ==> {
                    &&& b.cb_live(#[trigger] b.plugin_at(p).hooks@[i])
                    &&& b.cb_at(b.plugin_at(p).hooks@[i]).plugin == p
                },
    {
        let ma = a.heap_view();
        let mb = b.heap_view();
        assert forall|h: u64| #[trigger] a.res_live(h) implies {
            &&& b.res_wf(h)
            &&& b.res_ids(h) == a.res_ids(h)
            &&& a.res_ids(h).subset_of(ma.dom())
            &&& b.res_errors_read(h) == a.res_errors_read(h)
            &&& b.res_warnings_read(h) == a.res_warnings_read(h)
            &&& b.res_outputs_read(h) == a.res_outputs_read(h)
        } by {
            assert(a.res_wf(h));
            let r = a.res_at(h);
            crate::wire::lemma_msg_seq_ids_in_dom(r.errors@, ma);
            crate::wire::lemma_msg_seq_ids_in_dom(r.warnings@, ma);
            crate::wire::lemma_out_seq_ids_in_dom(r.outputs@, ma);
            crate::wire::lemma_grew_agrees(ma, mb, newids, msg_seq_ids(r.errors@, ma));
            crate::wire::lemma_msg_seq_frame(r.errors@, ma, mb);
            crate::wire::lemma_grew_agrees(ma, mb, newids, msg_seq_ids(r.warnings@, ma));
            crate::wire::lemma_msg_seq_frame(r.warnings@, ma, mb);
            crate::wire::lemma_grew_agrees(ma, mb, newids, out_seq_ids(r.outputs@));
            crate::wire::lemma_out_seq_frame(r.outputs@, ma, mb);
        }
        assert forall|h: u64| #[trigger] a.cerr_live(h) implies {
            &&& b.cerr_wf(h)
            &&& b.cerr_ids(h) == a.cerr_ids(h)
            &&& a.cerr_ids(h).subset_of(ma.dom())
            &&& b.cerr_read(h) == a.cerr_read(h)
        } by {
            assert(a.cerr_wf(h));
            crate::wire::lemma_msg_seq_ids_in_dom(a.cerr_at(h), ma);
            crate::wire::lemma_grew_agrees(ma, mb, newids, msg_seq_ids(a.cerr_at(h), ma));
            crate::wire::lemma_msg_seq_frame(a.cerr_at(h), ma, mb);
        }
        assert forall|c: u64| #[trigger] b.cb_live(c) implies {
            &&& b.plugin_live(b.cb_at(c).plugin)
            &&& b.plugin_at(b.cb_at(c).plugin).hooks@.contains(c)
        } by {
            assert(a.cb_live(c));
        }
        assert forall|p: u64, i: int|
            b.plugin_live(p) && 0 <= i < b.plugin_at(p).hooks@.len() implies {
            &&& b.cb_live(#[trigger] b.plugin_at(p).hooks@[i])
            &&& b.cb_at(b.plugin_at(p).hooks@[i]).plugin == p
        } by {
            assert(a.plugin_live(p));
            assert(a.cb_live(a.plugin_at(p).hooks@[i]));
        }
    }
}

} // verus!

verus! {

/// Every entry point names a non-empty input path.
pub open spec fn valid_entries(s: Seq<(Seq<char>, Seq<char>)>) -> bool {
    forall|i: int| 0 <= i < s.len() ==> (#[trigger] s[i]).0.len() > 0
}

/// The diagnostic text of a structurally invalid options object.
pub open spec fn invalid_entry_text() -> Seq<char> {
    "Invalid entry point"@
}

fn entries_valid(v: &Vec<Entry>) -> (r: bool)
    ensures
        r == valid_entries(v.deep_view()),
{
    let mut i: usize = 0;
    while i < v.len()
        invariant
            i <= v@.len(),
            forall|j: int| 0 <= j < i ==> (#[trigger] v.deep_view()[j]).0.len() > 0,
        decreases v@.len() - i,
    {
        if v[i].in_path.as_str().is_empty() {
            proof {
                assert(v.deep_view()[i as int].0.len() == 0);
            }
            return false;
        }
        i = i + 1;
    }
    true
}

/// Deep copy of an entry list, as the boundary snapshots options into a
/// new context.
fn copy_entries(v: &Vec<Entry>) -> (r: Vec<Entry>)
    ensures
        r.deep_view() == v.deep_view(),
{
    let mut r: Vec<Entry> = Vec::new();
    let mut i: usize = 0;
    while i < v.len()
        invariant
            i <= v@.len(),
            r@.len() == i,
            forall|j: int| 0 <= j < i ==> (#[trigger] r@[j]).deep_view() == v.deep_view()[j],
        decreases v@.len() - i,
    {
        let ghost prev = r@;
        let c_in = v[i].in_path.clone();
        let c_out = v[i].out_path.clone();
        let entry = Entry { in_path: c_in, out_path: c_out };
        proof {
            assert(entry.deep_view() =~= v.deep_view()[i as int]);
        }
        r.push(entry);
        proof {
            assert forall|j: int| 0 <= j < i + 1 implies (#[trigger] r@[j]).deep_view()
                == v.deep_view()[j] by {
                if j < i {
                    assert(r@[j] == prev[j]);
                    assert(prev[j].deep_view() == v.deep_view()[j]);
                } else {
                    assert(r@[j] == entry);
                }
            }
        }
        i = i + 1;
    }
    proof {
        assert(r.deep_view() =~= v.deep_view());
    }
    r
}

fn copy_handles(v: &Vec<u64>) -> (r: Vec<u64>)
    ensures
        r@ == v@,
{
    let mut r: Vec<u64> = Vec::new();
    let mut i: usize = 0;
    while i < v.len()
        invariant
            i <= v@.len(),
            r@ == v@.take(i as int),
        decreases v@.len() - i,
    {
        r.push(v[i]);
        proof {
            assert(v@.take(i + 1) =~= v@.take(i as int).push(v@[i as int]));
        }
        i = i + 1;
    }
    proof {
        assert(v@.take(v@.len() as int) =~= v@);
    }
    r
}

impl Context {
    /// Creates a context from an options object, snapshotting it. Fails,
    /// with an owned error aggregate, exactly when the options are
    /// structurally invalid: some entry point has an empty input path.
    pub fn new(e: &mut Engine, options: &BuildOptions) -> (r: Result<Context, ContextError>)
        requires
            old(e).wf(),
            old(e).options_live(options.id()),
            old(e).heap_cap() + 6 <= usize::MAX as int,
        ensures
            final(e).wf(),
            same_files(*old(e), *final(e)),
            same_options(*old(e), *final(e)),
            same_bridges(*old(e), *final(e)),
            same_jobs(*old(e), *final(e)),
            final(e).results_table() == old(e).results_table(),
            final(e).callbacks_table() == old(e).callbacks_table(),
            final(e).plugins_table() == old(e).plugins_table(),
            match r {
                Ok(c) => {
                    &&& valid_entries(old(e).options_at(options.id()).entries.deep_view())
                    &&& !old(e).ctx_live(c.id())
                    &&& final(e).ctx_live(c.id())
                    &&& c.id() as int == old(e).contexts_table().len()
                    &&& final(e).ctx_at(c.id()).entries.deep_view() == old(e).options_at(
                        options.id(),
                    ).entries.deep_view()
                    &&& final(e).ctx_at(c.id()).plugins@ == old(e).options_at(
                        options.id(),
                    ).plugins@
                    &&& final(e).ctx_at(c.id()).bundle == old(e).options_at(options.id()).bundle
                    &&& final(e).ctx_refs(c.id()) == 1
                    &&& final(e).ctx_cancels(c.id()) == 0
                    &&& forall|i: int|
                        0 <= i < old(e).contexts_table().len()
                            ==> final(e).contexts_table()[i] == old(e).contexts_table()[i]
                    &&& final(e).heap_view() == old(e).heap_view()
                    &&& final(e).heap_cap() == old(e).heap_cap()
                    &&& final(e).cerrs_table() == old(e).cerrs_table()
                },
                Err(err) => {
                    &&& !valid_entries(old(e).options_at(options.id()).entries.deep_view())
                    &&& !old(e).cerr_live(err.id())
                    &&& final(e).cerr_live(err.id())
                    &&& final(e).cerr_read(err.id()) == seq![
                        crate::wire::plain_message(invalid_entry_text()),
                    ]
                    &&& same_contexts(*old(e), *final(e))
                    &&& forall|i: int|
                        0 <= i < old(e).cerrs_table().len()
                            ==> final(e).cerrs_table()[i] == old(e).cerrs_table()[i]
                    &&& crate::wire::grew_by(
                        old(e).heap_view(),
                        final(e).heap_view(),
                        final(e).cerr_ids(err.id()),
                    )
                    &&& old(e).heap_cap() <= final(e).heap_cap() <= old(e).heap_cap() + 6
                },
            },
    {
        let ghost e0 = *e;
        let h = options.handle();
        let _n = e.options.len();
        let i = h as usize;
        let valid = match &e.options[i] {
            Some(st) => entries_valid(&st.entries),
            None => vstd::pervasive::unreached(),
        };
        if valid {
            let (entries, plugins, bundle) = match &e.options[i] {
                Some(st) => (copy_entries(&st.entries), copy_handles(&st.plugins), st.bundle),
                None => vstd::pervasive::unreached(),
            };
            let ch = e.contexts.len();
            e.contexts.push(
                Some(ContextState { entries, plugins, bundle, refs: 1, cancels: 0 }),
            );
            proof {
                Engine::lemma_wf_preserved(e0, *e);
            }
            Ok(Context::from_handle(ch as u64))
        } else {
            let mb = MessageBuilder::new("Invalid entry point");
            let ghost mv = mb@;
            let wm = mb.serialize(&mut e.heap);
            let ghost m1 = e.heap@;
            let mut msgs: Vec<WireMessage> = Vec::new();
            msgs.push(wm);
            let ghost wset = wm.ids(m1);
            proof {
                assert(msgs@ =~= seq![wm]);
                assert(msgs@.len() == 1);
                assert(msgs@[0] == wm);
                assert(msgs@.drop_first() =~= Seq::<WireMessage>::empty());
                assert(msg_seq_ids(msgs@.drop_first(), m1) == Set::<int>::empty());
                assert(msg_seq_ids(msgs@, m1) == wm.ids(m1) + msg_seq_ids(msgs@.drop_first(), m1));
                assert(msg_seq_ids(msgs@, m1) =~= wset);
                assert(msg_seq_wf(msgs@.drop_first(), m1));
                assert(wm.ids(m1).disjoint(msg_seq_ids(msgs@.drop_first(), m1)));
                assert(msg_seq_wf(msgs@, m1));
                assert(msg_seq_read(msgs@, m1) =~= seq![wm.read(m1)]);
                assert(wm.read(m1).notes =~= Seq::<crate::wire::NoteView>::empty());
                assert(wm.read(m1) == crate::wire::plain_message(invalid_entry_text()));
            }
            let ghost emid = *e;
            let eh = e.cerrs.len();
            e.cerrs.push(Some(msgs));
            proof {
                Engine::lemma_wf_after_grow(e0, emid, wset);
                assert(e.heap_view() == emid.heap_view());
                assert(e.cerr_live(eh as u64));
                assert(e.cerr_at(eh as u64) == msgs@);
                assert(e.cerr_ids(eh as u64) == wset);
                assert(e.cerr_wf(eh as u64));
                assert forall|h2: u64| #[trigger] e.res_live(h2) implies e.res_wf(h2) by {
                    assert(e0.res_live(h2));
                    assert(emid.res_wf(h2));
                }
                assert forall|h2: u64| #[trigger] e.cerr_live(h2) implies e.cerr_wf(h2) by {
                    if h2 != eh as u64 {
                        assert(e0.cerr_live(h2));
                        assert(emid.cerr_wf(h2));
                    }
                }
                assert forall|h1: u64, h2: u64|
                    e.res_live(h1) && e.res_live(h2) && h1 != h2 implies e.res_ids(h1).disjoint(
                    e.res_ids(h2),
                ) by {
                    assert(e0.res_live(h1) && e0.res_live(h2));
                    assert(e0.res_ids(h1).disjoint(e0.res_ids(h2)));
                    assert(emid.res_ids(h1) == e0.res_ids(h1));
                    assert(emid.res_ids(h2) == e0.res_ids(h2));
                }
                assert forall|h1: u64, h2: u64|
                    e.cerr_live(h1) && e.cerr_live(h2) && h1 != h2 implies e.cerr_ids(
                    h1,
                ).disjoint(e.cerr_ids(h2)) by {
                    if h1 != eh as u64 && h2 != eh as u64 {
                        assert(e0.cerr_live(h1) && e0.cerr_live(h2));
                        assert(e0.cerr_ids(h1).disjoint(e0.cerr_ids(h2)));
                        assert(emid.cerr_ids(h1) == e0.cerr_ids(h1));
                        assert(emid.cerr_ids(h2) == e0.cerr_ids(h2));
                    } else if h1 == eh as u64 {
                        assert(e0.cerr_live(h2));
                        assert(e0.cerr_ids(h2).subset_of(e0.heap_view().dom()));
                        assert(emid.cerr_ids(h2) == e0.cerr_ids(h2));
                    } else {
                        assert(e0.cerr_live(h1));
                        assert(e0.cerr_ids(h1).subset_of(e0.heap_view().dom()));
                        assert(emid.cerr_ids(h1) == e0.cerr_ids(h1));
                    }
                }
                assert forall|h1: u64, h2: u64|
                    e.res_live(h1) && e.cerr_live(h2) implies e.res_ids(h1).disjoint(
                    e.cerr_ids(h2),
                ) by {
                    assert(e0.res_live(h1));
                    assert(emid.res_ids(h1) == e0.res_ids(h1));
                    if h2 != eh as u64 {
                        assert(e0.cerr_live(h2));
                        assert(e0.res_ids(h1).disjoint(e0.cerr_ids(h2)));
                        assert(emid.cerr_ids(h2) == e0.cerr_ids(h2));
                    } else {
                        assert(e0.res_ids(h1).subset_of(e0.heap_view().dom()));
                    }
                }
                assert forall|c: u64| #[trigger] e.cb_live(c) implies {
                    &&& e.plugin_live(e.cb_at(c).plugin)
                    &&& e.plugin_at(e.cb_at(c).plugin).hooks@.contains(c)
                } by {
                    assert(e0.cb_live(c));
                }
                assert forall|p: u64, i2: int|
                    e.plugin_live(p) && 0 <= i2 < e.plugin_at(p).hooks@.len() implies {
                    &&& e.cb_live(#[trigger] e.plugin_at(p).hooks@[i2])
                    &&& e.cb_at(e.plugin_at(p).hooks@[i2]).plugin == p
                } by {
                    assert(e0.plugin_live(p));
                    assert(e0.cb_live(e0.plugin_at(p).hooks@[i2]));
                }
                assert(e.wf());
            }
            Err(ContextError::from_handle(eh as u64))
        }
    }
}

} // verus!

verus! {

impl Context {
    /// Takes one more shared reference on this context, as an in-flight
    /// asynchronous build does before returning control to the caller.
    pub fn clone_ref(&self, e: &mut Engine) -> (r: Context)
        requires
            old(e).wf(),
            old(e).ctx_live(self.id()),
            old(e).ctx_refs(self.id()) < u64::MAX as int,
        ensures
            final(e).wf(),
            same_core(*old(e), *final(e)),
            same_files(*old(e), *final(e)),
            same_options(*old(e), *final(e)),
            same_bridges(*old(e), *final(e)),
            same_jobs(*old(e), *final(e)),
            r.id() == self.id(),
            final(e).ctx_live(self.id()),
            final(e).ctx_refs(self.id()) == old(e).ctx_refs(self.id()) + 1,
            final(e).ctx_cancels(self.id()) == old(e).ctx_cancels(self.id()),
            final(e).ctx_at(self.id()).entries == old(e).ctx_at(self.id()).entries,
            final(e).ctx_at(self.id()).plugins@ == old(e).ctx_at(self.id()).plugins@,
            final(e).ctx_at(self.id()).bundle == old(e).ctx_at(self.id()).bundle,
            final(e).contexts_table().len() == old(e).contexts_table().len(),
            forall|i: int|
                0 <= i < old(e).contexts_table().len() && i != self.id()
                    ==> final(e).contexts_table()[i] == old(e).contexts_table()[i],
    {
        let h = self.handle();
        let n = e.contexts.len();
        let i = h as usize;
        let mut st = table_take(&mut e.contexts, i);
        st.refs = st.refs + 1;
        table_put(&mut e.contexts, i, st);
        proof {
            Engine::lemma_wf_preserved(*old(e), *e);
        }
        Context::from_handle(h)
    }

    /// Releases one shared reference. The last release destroys the
    /// underlying context: the slot is gone and every later use of the
    /// handle is refused, so the destroy fires exactly once.
    pub fn release(self, e: &mut Engine)
        requires
            old(e).wf(),
            old(e).ctx_live(self.id()),
            old(e).ctx_refs(self.id()) >= 1,
        ensures
            final(e).wf(),
            same_core(*old(e), *final(e)),
            same_files(*old(e), *final(e)),
            same_options(*old(e), *final(e)),
            same_bridges(*old(e), *final(e)),
            same_jobs(*old(e), *final(e)),
            old(e).ctx_refs(self.id()) > 1 ==> {
                &&& final(e).ctx_live(self.id())
                &&& final(e).ctx_refs(self.id()) == old(e).ctx_refs(self.id()) - 1
                &&& final(e).ctx_cancels(self.id()) == old(e).ctx_cancels(self.id())
                &&& final(e).ctx_at(self.id()).entries == old(e).ctx_at(self.id()).entries
                &&& final(e).ctx_at(self.id()).plugins@ == old(e).ctx_at(self.id()).plugins@
                &&& final(e).ctx_at(self.id()).bundle == old(e).ctx_at(self.id()).bundle
            },
            old(e).ctx_refs(self.id()) == 1 ==> !final(e).ctx_live(self.id()),
            final(e).contexts_table().len() == old(e).contexts_table().len(),
            forall|i: int|
                0 <= i < old(e).contexts_table().len() && i != self.id()
                    ==> final(e).contexts_table()[i] == old(e).contexts_table()[i],
    {
        let h = self.handle();
        let n = e.contexts.len();
        let i = h as usize;
        let mut st = table_take(&mut e.contexts, i);
        if st.refs > 1 {
            st.refs = st.refs - 1;
            table_put(&mut e.contexts, i, st);
        }
        proof {
            Engine::lemma_wf_preserved(*old(e), *e);
        }
    }

    /// Signals a best-effort cancellation of any in-flight build of this
    /// context. Safe to call repeatedly; the handle stays valid.
    pub fn cancel_all(&self, e: &mut Engine)
        requires
            old(e).wf(),
            old(e).ctx_live(self.id()),
            old(e).ctx_cancels(self.id()) < u64::MAX as int,
        ensures
            final(e).wf(),
            same_core(*old(e), *final(e)),
            same_files(*old(e), *final(e)),
            same_options(*old(e), *final(e)),
            same_bridges(*old(e), *final(e)),
            same_jobs(*old(e), *final(e)),
            final(e).ctx_live(self.id()),
            final(e).ctx_cancels(self.id()) == old(e).ctx_cancels(self.id()) + 1,
            final(e).ctx_refs(self.id()) == old(e).ctx_refs(self.id()),
            final(e).ctx_at(self.id()).entries == old(e).ctx_at(self.id()).entries,
            final(e).ctx_at(self.id()).plugins@ == old(e).ctx_at(self.id()).plugins@,
            final(e).ctx_at(self.id()).bundle == old(e).ctx_at(self.id()).bundle,
            final(e).contexts_table().len() == old(e).contexts_table().len(),
            forall|i: int|
                0 <= i < old(e).contexts_table().len() && i != self.id()
                    ==> final(e).contexts_table()[i] == old(e).contexts_table()[i],
    {
        let h = self.handle();
        let _n = e.contexts.len();
        let i = h as usize;
        let mut st = table_take(&mut e.contexts, i);
        st.cancels = st.cancels + 1;
        table_put(&mut e.contexts, i, st);
        proof {
            Engine::lemma_wf_preserved(*old(e), *e);
        }
    }
}

} // verus!

verus! {

impl PluginDescriptor {
    /// Creates a boundary-side plugin descriptor with no hooks yet.
    pub fn new(e: &mut Engine, name: &str) -> (r: PluginDescriptor)
        requires
            old(e).wf(),
        ensures
            final(e).wf(),
            same_files(*old(e), *final(e)),
            same_options(*old(e), *final(e)),
            same_contexts(*old(e), *final(e)),
            same_bridges(*old(e), *final(e)),
            same_jobs(*old(e), *final(e)),
            final(e).heap_view() == old(e).heap_view(),
            final(e).heap_cap() == old(e).heap_cap(),
            final(e).results_table() == old(e).results_table(),
            final(e).cerrs_table() == old(e).cerrs_table(),
            final(e).callbacks_table() == old(e).callbacks_table(),
            !old(e).plugin_live(r.id()),
            final(e).plugin_live(r.id()),
            r.id() as int == old(e).plugins_table().len(),
            final(e).plugin_at(r.id()).name@ == name@,
            final(e).plugin_at(r.id()).hooks@ == Seq::<u64>::empty(),
            final(e).plugins_table().len() == old(e).plugins_table().len() + 1,
            forall|i: int|
                0 <= i < old(e).plugins_table().len() ==> final(e).plugins_table()[i] == old(e).plugins_table()[i],
    {
        let h = e.plugins.len();
        e.plugins.push(Some(PluginState { name: name.to_owned(), hooks: Vec::new() }));
        proof {
            assert(e.plugin_at(h as u64).hooks@ =~= Seq::<u64>::empty());
            assert forall|h2: u64| #[trigger] e.res_live(h2) implies e.res_wf(h2) by {
                assert(old(e).res_live(h2));
            }
            assert forall|h2: u64| #[trigger] e.cerr_live(h2) implies e.cerr_wf(h2) by {
                assert(old(e).cerr_live(h2));
            }
            assert forall|h1: u64, h2: u64|
                e.res_live(h1) && e.res_live(h2) && h1 != h2 implies e.res_ids(h1).disjoint(
                e.res_ids(h2),
            ) by {
                assert(old(e).res_ids(h1).disjoint(old(e).res_ids(h2)));
            }
            assert forall|h1: u64, h2: u64|
                e.cerr_live(h1) && e.cerr_live(h2) && h1 != h2 implies e.cerr_ids(h1).disjoint(
                e.cerr_ids(h2),
            ) by {
                assert(old(e).cerr_ids(h1).disjoint(old(e).cerr_ids(h2)));
            }
            assert forall|h1: u64, h2: u64|
                e.res_live(h1) && e.cerr_live(h2) implies e.res_ids(h1).disjoint(
                e.cerr_ids(h2),
            ) by {
                assert(old(e).res_ids(h1).disjoint(old(e).cerr_ids(h2)));
            }
            assert forall|c: u64| #[trigger] e.cb_live(c) implies {
                &&& e.plugin_live(e.cb_at(c).plugin)
                &&& e.plugin_at(e.cb_at(c).plugin).hooks@.contains(c)
            } by {
                assert(old(e).cb_live(c));
                assert(old(e).plugin_live(old(e).cb_at(c).plugin));
            }
            assert forall|p: u64, i2: int|
                e.plugin_live(p) && 0 <= i2 < e.plugin_at(p).hooks@.len() implies {
                &&& e.cb_live(#[trigger] e.plugin_at(p).hooks@[i2])
                &&& e.cb_at(e.plugin_at(p).hooks@[i2]).plugin == p
            } by {
                if p != h as u64 {
                    assert(old(e).plugin_live(p));
                    assert(old(e).cb_live(old(e).plugin_at(p).hooks@[i2]));
                }
            }
            assert(e.wf());
        }
        PluginDescriptor::from_handle(h as u64)
    }
}

impl Engine {
    /// Registers one on-start hook slot for a live plugin and returns
    /// its stable address — the value the boundary would later hand to
    /// the dispatch trampoline.
    pub fn register_on_start(&mut self, p: u64) -> (id: u64)
        requires
            old(self).wf(),
            old(self).plugin_live(p),
        ensures
            final(self).wf(),
            same_files(*old(self), *final(self)),
            same_options(*old(self), *final(self)),
            same_contexts(*old(self), *final(self)),
            same_bridges(*old(self), *final(self)),
            same_jobs(*old(self), *final(self)),
            final(self).heap_view() == old(self).heap_view(),
            final(self).heap_cap() == old(self).heap_cap(),
            final(self).results_table() == old(self).results_table(),
            final(self).cerrs_table() == old(self).cerrs_table(),
            !old(self).cb_live(id),
            final(self).cb_live(id),
            final(self).cb_at(id).plugin == p,
            final(self).plugin_live(p),
            final(self).plugin_at(p).name@ == old(self).plugin_at(p).name@,
            final(self).plugin_at(p).hooks@ == old(self).plugin_at(p).hooks@.push(id),
            forall|c: u64|
                #[trigger] old(self).cb_live(c) ==> final(self).cb_live(c) && final(self).cb_at(c)
                    == old(self).cb_at(c),
            forall|c: u64|
                #[trigger] final(self).cb_live(c) ==> c == id || old(self).cb_live(c),
            forall|q: u64|
                q != p && #[trigger] old(self).plugin_live(q) ==> final(self).plugin_live(q)
                    && final(self).plugin_at(q) == old(self).plugin_at(q),
            forall|q: u64|
                #[trigger] final(self).plugin_live(q) ==> old(self).plugin_live(q),
    {
        let id = self.callbacks.len();
        self.callbacks.push(Some(CallbackState { plugin: p }));
        let _n = self.plugins.len();
        let i = p as usize;
        let mut st = table_take(&mut self.plugins, i);
        st.hooks.push(id as u64);
        table_put(&mut self.plugins, i, st);
        proof {
            let a = *old(self);
            let b = *self;
            assert(b.plugin_at(p).hooks@ == a.plugin_at(p).hooks@.push(id as u64));
            assert forall|h2: u64| #[trigger] b.res_live(h2) implies b.res_wf(h2) by {
                assert(a.res_live(h2));
            }
            assert forall|h2: u64| #[trigger] b.cerr_live(h2) implies b.cerr_wf(h2) by {
                assert(a.cerr_live(h2));
            }
            assert forall|h1: u64, h2: u64|
                b.res_live(h1) && b.res_live(h2) && h1 != h2 implies b.res_ids(h1).disjoint(
                b.res_ids(h2),
            ) by {
                assert(a.res_ids(h1).disjoint(a.res_ids(h2)));
            }
            assert forall|h1: u64, h2: u64|
                b.cerr_live(h1) && b.cerr_live(h2) && h1 != h2 implies b.cerr_ids(h1).disjoint(
                b.cerr_ids(h2),
            ) by {
                assert(a.cerr_ids(h1).disjoint(a.cerr_ids(h2)));
            }
            assert forall|h1: u64, h2: u64|
                b.res_live(h1) && b.cerr_live(h2) implies b.res_ids(h1).disjoint(
                b.cerr_ids(h2),
            ) by {
                assert(a.res_ids(h1).disjoint(a.cerr_ids(h2)));
            }
            assert forall|c: u64| #[trigger] b.cb_live(c) implies {
                &&& b.plugin_live(b.cb_at(c).plugin)
                &&& b.plugin_at(b.cb_at(c).plugin).hooks@.contains(c)
            } by {
                if c == id as u64 {
                    assert(b.plugin_at(p).hooks@.last() == id as u64);
                } else {
                    assert(a.cb_live(c));
                    assert(a.plugin_at(a.cb_at(c).plugin).hooks@.contains(c));
                    let q = a.cb_at(c).plugin;
                    if q == p {
                        let k = choose|k: int|
                            0 <= k < a.plugin_at(p).hooks@.len() && #[trigger] a.plugin_at(
                                p,
                            ).hooks@[k] == c;
                        assert(b.plugin_at(p).hooks@[k] == c);
                    }
                }
            }
            assert forall|q: u64, i2: int|
                b.plugin_live(q) && 0 <= i2 < b.plugin_at(q).hooks@.len() implies {
                &&& b.cb_live(#[trigger] b.plugin_at(q).hooks@[i2])
                &&& b.cb_at(b.plugin_at(q).hooks@[i2]).plugin == q
            } by {
                assert(a.plugin_live(q));
                if q == p && i2 == a.plugin_at(p).hooks@.len() {
                } else {
                    assert(a.cb_live(a.plugin_at(q).hooks@[i2]));
                }
            }
            assert(b.wf());
        }
        id as u64
    }
}

} // verus!

verus! {

impl BuildOptions {
    /// Adds a plugin descriptor to this options object.
    pub fn plugin(self, e: &mut Engine, p: &PluginDescriptor) -> (r: BuildOptions)
        requires
            old(e).wf(),
            old(e).options_live(self.id()),
            old(e).plugin_live(p.id()),
        ensures
            final(e).wf(),
            same_core(*old(e), *final(e)),
            same_files(*old(e), *final(e)),
            same_contexts(*old(e), *final(e)),
            same_bridges(*old(e), *final(e)),
            same_jobs(*old(e), *final(e)),
            r.id() == self.id(),
            final(e).options_live(self.id()),
            final(e).options_at(self.id()).entries == old(e).options_at(self.id()).entries,
            final(e).options_at(self.id()).plugins@ == old(e).options_at(
                self.id(),
            ).plugins@.push(p.id()),
            final(e).options_at(self.id()).bundle == old(e).options_at(self.id()).bundle,
            final(e).options_table().len() == old(e).options_table().len(),
            forall|i: int|
                0 <= i < old(e).options_table().len() && i != self.id()
                    ==> final(e).options_table()[i] == old(e).options_table()[i],
    {
        let h = self.handle();
        let n = e.options.len();
        let i = h as usize;
        let mut st = table_take(&mut e.options, i);
        st.plugins.push(p.handle());
        table_put(&mut e.options, i, st);
        proof {
            Engine::lemma_wf_preserved(*old(e), *e);
        }
        self
    }
}

impl Engine {
    /// The boundary-side teardown signal for one plugin descriptor: the
    /// descriptor and every hook slot it owns are freed, exactly once.
    /// The caller-side state keyed by those addresses is thereby
    /// released; a disposed slot is never dispatched again.
    pub fn dispose_plugin(&mut self, p: u64)
        requires
            old(self).wf(),
            old(self).plugin_live(p),
        ensures
            final(self).wf(),
            same_files(*old(self), *final(self)),
            same_options(*old(self), *final(self)),
            same_contexts(*old(self), *final(self)),
            same_bridges(*old(self), *final(self)),
            same_jobs(*old(self), *final(self)),
            final(self).heap_view() == old(self).heap_view(),
            final(self).heap_cap() == old(self).heap_cap(),
            final(self).results_table() == old(self).results_table(),
            final(self).cerrs_table() == old(self).cerrs_table(),
            !final(self).plugin_live(p),
            forall|q: u64|
                q != p && #[trigger] old(self).plugin_live(q) ==> final(self).plugin_live(q)
                    && final(self).plugin_at(q) == old(self).plugin_at(q),
            forall|q: u64|
                #[trigger] final(self).plugin_live(q) ==> q != p && old(self).plugin_live(q),
            forall|c: u64|
                #[trigger] final(self).cb_live(c) <==> (old(self).cb_live(c) && old(self).cb_at(
                    c,
                ).plugin != p),
            forall|c: u64|
                #[trigger] final(self).cb_live(c) ==> final(self).cb_at(c) == old(self).cb_at(c),
    {
        let ghost a = *old(self);
        let _n = self.plugins.len();
        let i = p as usize;
        let st = table_take(&mut self.plugins, i);
        let hooks = st.hooks;
        let ghost hs = hooks@;
        proof {
            assert(hs == a.plugin_at(p).hooks@);
            assert(hs.take(0) =~= Seq::<u64>::empty());
        }
        let mut k: usize = 0;
        while k < hooks.len()
            invariant
                hooks@ == hs,
                k <= hs.len(),
                a.wf(),
                a.plugin_live(p),
                hs == a.plugin_at(p).hooks@,
                !self.plugin_live(p),
                self.plugins_table().len() == a.plugins_table().len(),
                forall|q: u64|
                    q != p && #[trigger] a.plugin_live(q) ==> self.plugin_live(q)
                        && self.plugin_at(q) == a.plugin_at(q),
                forall|q: u64| #[trigger] self.plugin_live(q) ==> q != p && a.plugin_live(q),
                self.callbacks_table().len() == a.callbacks_table().len(),
                forall|c: u64|
                    #[trigger] self.cb_live(c) <==> (a.cb_live(c) && !hs.take(k as int).contains(
                        c,
                    )),
                forall|c: u64| #[trigger] self.cb_live(c) ==> self.cb_at(c) == a.cb_at(c),
                self.heap_view() == a.heap_view(),
                self.heap_cap() == a.heap_cap(),
                self.results_table() == a.results_table(),
                self.cerrs_table() == a.cerrs_table(),
                same_files(a, *self),
                same_options(a, *self),
                same_contexts(a, *self),
                same_bridges(a, *self),
                same_jobs(a, *self),
            decreases hs.len() - k,
        {
            let c = hooks[k];
            let ghost sprev = *self;
            proof {
                assert(a.cb_live(c));
            }
            let _cn = self.callbacks.len();
            let ci = c as usize;
            if match &self.callbacks[ci] {
                Some(_) => true,
                None => false,
            } {
                self.callbacks.set(ci, None);
            }
            proof {
                assert(hs.take(k + 1) =~= hs.take(k as int).push(c));
                assert forall|q: u64|
                    q != p && #[trigger] a.plugin_live(q) implies self.plugin_live(q)
                    && self.plugin_at(q) == a.plugin_at(q) by {
                    assert(sprev.plugin_live(q) && sprev.plugin_at(q) == a.plugin_at(q));
                }
                assert forall|q: u64| #[trigger] self.plugin_live(q) implies q != p
                    && a.plugin_live(q) by {
                    assert(sprev.plugin_live(q));
                }
                assert forall|c2: u64|
                    #[trigger] self.cb_live(c2) <==> (a.cb_live(c2) && !hs.take(
                        k + 1,
                    ).contains(c2)) by {
                    assert(sprev.cb_live(c2) <==> (a.cb_live(c2) && !hs.take(k as int).contains(
                        c2,
                    )));
                    if c2 == c {
                        assert(hs.take(k + 1).contains(c)) by {
                            assert(hs.take(k + 1).last() == c);
                        }
                        assert(!self.cb_live(c2));
                    } else {
                        assert(hs.take(k + 1).contains(c2) == hs.take(k as int).contains(c2)) by {
                            if hs.take(k + 1).contains(c2) {
                                let ix = choose|ix: int|
                                    0 <= ix < hs.take(k + 1).len() && #[trigger] hs.take(
                                        k + 1,
                                    )[ix] == c2;
                                assert(hs.take(k as int)[ix] == c2);
                            } else if hs.take(k as int).contains(c2) {
                                let ix = choose|ix: int|
                                    0 <= ix < hs.take(k as int).len() && #[trigger] hs.take(
                                        k as int,
                                    )[ix] == c2;
                                assert(hs.take(k + 1)[ix] == c2);
                            }
                        }
                        assert(self.cb_live(c2) == sprev.cb_live(c2));
                    }
                }
                assert forall|c2: u64| #[trigger] self.cb_live(c2) implies self.cb_at(c2)
                    == a.cb_at(c2) by {
                    if c2 != c {
                        assert(sprev.cb_live(c2));
                    }
                }
            }
            k = k + 1;
        }
        proof {
            let b = *self;
            assert forall|c: u64|
                #[trigger] b.cb_live(c) <==> (a.cb_live(c) && a.cb_at(c).plugin != p) by {
                if a.cb_live(c) && a.cb_at(c).plugin == p {
                    assert(a.plugin_at(p).hooks@.contains(c));
                    assert(hs.take(hs.len() as int) =~= hs);
                    assert(!b.cb_live(c));
                } else if a.cb_live(c) && a.cb_at(c).plugin != p {
                    assert(!hs.contains(c)) by {
                        if hs.contains(c) {
                            let ix = choose|ix: int| 0 <= ix < hs.len() && #[trigger] hs[ix] == c;
                            assert(a.cb_live(a.plugin_at(p).hooks@[ix]));
                            assert(a.cb_at(c).plugin == p);
                        }
                    }
                    assert(hs.take(hs.len() as int) =~= hs);
                    assert(b.cb_live(c));
                }
            }
            assert forall|h2: u64| #[trigger] b.res_live(h2) implies b.res_wf(h2) by {
                assert(a.res_live(h2));
            }
            assert forall|h2: u64| #[trigger] b.cerr_live(h2) implies b.cerr_wf(h2) by {
                assert(a.cerr_live(h2));
            }
            assert forall|h1: u64, h2: u64|
                b.res_live(h1) && b.res_live(h2) && h1 != h2 implies b.res_ids(h1).disjoint(
                b.res_ids(h2),
            ) by {
                assert(a.res_ids(h1).disjoint(a.res_ids(h2)));
            }
            assert forall|h1: u64, h2: u64|
                b.cerr_live(h1) && b.cerr_live(h2) && h1 != h2 implies b.cerr_ids(h1).disjoint(
                b.cerr_ids(h2),
            ) by {
                assert(a.cerr_ids(h1).disjoint(a.cerr_ids(h2)));
            }
            assert forall|h1: u64, h2: u64|
                b.res_live(h1) && b.cerr_live(h2) implies b.res_ids(h1).disjoint(
                b.cerr_ids(h2),
            ) by {
                assert(a.res_ids(h1).disjoint(a.cerr_ids(h2)));
            }
            assert forall|c: u64| #[trigger] b.cb_live(c) implies {
                &&& b.plugin_live(b.cb_at(c).plugin)
                &&& b.plugin_at(b.cb_at(c).plugin).hooks@.contains(c)
            } by {
                assert(a.cb_live(c) && a.cb_at(c).plugin != p);
                assert(a.plugin_live(a.cb_at(c).plugin));
                assert(a.plugin_at(a.cb_at(c).plugin).hooks@.contains(c));
            }
            assert forall|q: u64, i2: int|
                b.plugin_live(q) && 0 <= i2 < b.plugin_at(q).hooks@.len() implies {
                &&& b.cb_live(#[trigger] b.plugin_at(q).hooks@[i2])
                &&& b.cb_at(b.plugin_at(q).hooks@[i2]).plugin == q
            } by {
                assert(q != p && a.plugin_live(q));
                assert(a.cb_live(a.plugin_at(q).hooks@[i2]));
                assert(a.cb_at(a.plugin_at(q).hooks@[i2]).plugin == q);
            }
            assert(b.wf());
        }
    }
}

} // verus!

verus! {

/// Frees a sequence of output files: both allocations of each record.
fn free_outputs(v: Vec<WireOutputFile>, b: &mut Boundary) -> (r: ())
    requires
        out_seq_wf(v@, old(b)@),
    ensures
        final(b)@ == old(b)@.remove_keys(out_seq_ids(v@)),
        final(b).cap() == old(b).cap(),
{
    let ghost m0 = b@;
    let ghost vs = v@;
    proof {
        crate::wire::lemma_out_seq_ids_in_dom(vs, m0);
        assert(vs.take(0) =~= Seq::<WireOutputFile>::empty());
        assert(out_seq_ids(vs.take(0)) =~= Set::<int>::empty());
        assert(b@ =~= m0.remove_keys(out_seq_ids(vs.take(0))));
    }
    let mut j: usize = 0;
    while j < v.len()
        invariant
            v@ == vs,
            j <= vs.len(),
            out_seq_wf(vs, m0),
            out_seq_ids(vs).subset_of(m0.dom()),
            b@ == m0.remove_keys(out_seq_ids(vs.take(j as int))),
            b.cap() == old(b).cap(),
        decreases vs.len() - j,
    {
        let ghost freed = out_seq_ids(vs.take(j as int));
        let o = v[j];
        proof {
            crate::wire::lemma_out_seq_prefix_disjoint(vs, m0, j as int);
            crate::wire::lemma_out_seq_member(vs, m0, j as int);
            assert(o.ids().disjoint(freed));
            crate::wire::lemma_remove_keys_agrees(m0, freed, o.ids());
            crate::wire::lemma_out_frame(o, m0, b@);
            crate::wire::lemma_str_pair_distinct(o.path, o.contents);
        }
        if o.path.addr != 0 {
            let _ = b.take_text(o.path);
        }
        if o.contents.addr != 0 {
            let _ = b.take_bytes(o.contents);
        }
        proof {
            assert(vs.take(j + 1) =~= vs.take(j as int).push(o));
            crate::wire::lemma_out_seq_push(vs.take(j as int), o, m0);
            assert(b@ =~= m0.remove_keys(out_seq_ids(vs.take(j + 1))));
        }
        j = j + 1;
    }
    proof {
        assert(vs.take(vs.len() as int) =~= vs);
    }
}

impl BuildResult {
    /// Whether the build failed: true exactly when the error list is
    /// non-empty. A result with zero errors reports success, and its
    /// views are empty rather than invalid.
    pub fn is_error(&self, e: &Engine) -> (r: bool)
        requires
            e.res_live(self.handle),
        ensures
            r == (e.res_errors_read(self.handle).len() > 0),
    {
        let n = e.results.len();
        let i = self.handle as usize;
        match &e.results[i] {
            Some(st) => st.errors.len() > 0,
            None => vstd::pervasive::unreached(),
        }
    }

    /// The error messages of this result, as read-only views in order.
    pub fn errors(&self, e: &Engine) -> (r: Vec<crate::error::Message>)
        requires
            e.wf(),
            e.res_live(self.handle),
        ensures
            r@.len() == e.res_errors_read(self.handle).len(),
            forall|i: int| 0 <= i < r@.len() ==> {
                &&& (#[trigger] r@[i]).wire() == e.res_at(self.handle).errors@[i]
                &&& r@[i].wire().wf(e.heap_view())
                &&& r@[i].wire().read(e.heap_view()) == e.res_errors_read(self.handle)[i]
            },
    {
        let n = e.results.len();
        let i = self.handle as usize;
        let msgs = match &e.results[i] {
            Some(st) => &st.errors,
            None => vstd::pervasive::unreached(),
        };
        let mut r: Vec<crate::error::Message> = Vec::new();
        let mut j: usize = 0;
        while j < msgs.len()
            invariant
                msgs@ == e.res_at(self.handle).errors@,
                e.res_live(self.handle),
                e.wf(),
                msg_seq_wf(msgs@, e.heap_view()),
                j <= msgs@.len(),
                r@.len() == j,
                forall|i2: int| 0 <= i2 < j ==> {
                    &&& (#[trigger] r@[i2]).wire() == msgs@[i2]
                    &&& r@[i2].wire().wf(e.heap_view())
                },
            decreases msgs@.len() - j,
        {
            proof {
                crate::wire::lemma_msg_seq_member(msgs@, e.heap_view(), j as int);
            }
            r.push(crate::error::Message::from_wire(msgs[j]));
            j = j + 1;
        }
        r
    }

    /// The warning messages of this result, as read-only views in order.
    pub fn warnings(&self, e: &Engine) -> (r: Vec<crate::error::Message>)
        requires
            e.wf(),
            e.res_live(self.handle),
        ensures
            r@.len() == e.res_warnings_read(self.handle).len(),
            forall|i: int| 0 <= i < r@.len() ==> {
                &&& (#[trigger] r@[i]).wire() == e.res_at(self.handle).warnings@[i]
                &&& r@[i].wire().wf(e.heap_view())
                &&& r@[i].wire().read(e.heap_view()) == e.res_warnings_read(self.handle)[i]
            },
    {
        let n = e.results.len();
        let i = self.handle as usize;
        let msgs = match &e.results[i] {
            Some(st) => &st.warnings,
            None => vstd::pervasive::unreached(),
        };
        let mut r: Vec<crate::error::Message> = Vec::new();
        let mut j: usize = 0;
        while j < msgs.len()
            invariant
                msgs@ == e.res_at(self.handle).warnings@,
                e.res_live(self.handle),
                e.wf(),
                msg_seq_wf(msgs@, e.heap_view()),
                j <= msgs@.len(),
                r@.len() == j,
                forall|i2: int| 0 <= i2 < j ==> {
                    &&& (#[trigger] r@[i2]).wire() == msgs@[i2]
                    &&& r@[i2].wire().wf(e.heap_view())
                },
            decreases msgs@.len() - j,
        {
            proof {
                crate::wire::lemma_msg_seq_member(msgs@, e.heap_view(), j as int);
            }
            r.push(crate::error::Message::from_wire(msgs[j]));
            j = j + 1;
        }
        r
    }

    /// The output files of this result, as read-only views in order.
    pub fn outputs(&self, e: &Engine) -> (r: Vec<crate::result::OutputFile>)
        requires
            e.wf(),
            e.res_live(self.handle),
        ensures
            r@.len() == e.res_outputs_read(self.handle).len(),
            forall|i: int| 0 <= i < r@.len() ==> {
                &&& (#[trigger] r@[i]).wire() == e.res_at(self.handle).outputs@[i]
                &&& r@[i].wire().wf(e.heap_view())
                &&& r@[i].wire().read(e.heap_view()) == e.res_outputs_read(self.handle)[i]
            },
    {
        let n = e.results.len();
        let i = self.handle as usize;
        let outs = match &e.results[i] {
            Some(st) => &st.outputs,
            None => vstd::pervasive::unreached(),
        };
        let mut r: Vec<crate::result::OutputFile> = Vec::new();
        let mut j: usize = 0;
        while j < outs.len()
            invariant
                outs@ == e.res_at(self.handle).outputs@,
                e.res_live(self.handle),
                e.wf(),
                out_seq_wf(outs@, e.heap_view()),
                j <= outs@.len(),
                r@.len() == j,
                forall|i2: int| 0 <= i2 < j ==> {
                    &&& (#[trigger] r@[i2]).wire() == outs@[i2]
                    &&& r@[i2].wire().wf(e.heap_view())
                },
            decreases outs@.len() - j,
        {
            proof {
                crate::wire::lemma_out_seq_member(outs@, e.heap_view(), j as int);
            }
            r.push(crate::result::OutputFile::from_wire(outs[j]));
            j = j + 1;
        }
        r
    }

    /// Destroys this result exactly once: every wire diagnostic and
    /// output buffer it owns is freed, recursively, and nothing else.
    pub fn destroy(self, e: &mut Engine)
        requires
            old(e).wf(),
            old(e).res_live(self.handle),
        ensures
            final(e).wf(),
            same_files(*old(e), *final(e)),
            same_options(*old(e), *final(e)),
            same_contexts(*old(e), *final(e)),
            same_bridges(*old(e), *final(e)),
            same_jobs(*old(e), *final(e)),
            final(e).plugins_table() == old(e).plugins_table(),
            final(e).callbacks_table() == old(e).callbacks_table(),
            final(e).cerrs_table() == old(e).cerrs_table(),
            final(e).heap_view() == old(e).heap_view().remove_keys(old(e).res_ids(self.handle)),
            final(e).heap_cap() == old(e).heap_cap(),
            !final(e).res_live(self.handle),
            final(e).results_table().len() == old(e).results_table().len(),
            forall|i: int|
                0 <= i < old(e).results_table().len() && i != self.handle
                    ==> final(e).results_table()[i] == old(e).results_table()[i],
    {
        let ghost a = *old(e);
        let ghost m0 = a.heap_view();
        let ghost rid = a.res_ids(self.handle);
        let _n = e.results.len();
        let i = self.handle as usize;
        let st = table_take(&mut e.results, i);
        let ResultState { errors, warnings, outputs } = st;
        let ghost eids = msg_seq_ids(errors@, m0);
        let ghost wids = msg_seq_ids(warnings@, m0);
        let ghost oids = out_seq_ids(outputs@);
        proof {
            assert(a.res_wf(self.handle));
            crate::wire::lemma_msg_seq_ids_in_dom(errors@, m0);
            crate::wire::lemma_msg_seq_ids_in_dom(warnings@, m0);
            crate::wire::lemma_out_seq_ids_in_dom(outputs@, m0);
        }
        let _ = consume_messages_free(errors, &mut e.heap);
        proof {
            crate::wire::lemma_remove_keys_agrees(m0, eids, wids);
            crate::wire::lemma_msg_seq_frame(warnings@, m0, e.heap@);
        }
        let _ = consume_messages_free(warnings, &mut e.heap);
        proof {
            crate::wire::lemma_remove_keys_agrees(m0, eids + wids, oids);
            crate::wire::lemma_out_seq_frame(outputs@, m0, e.heap@);
        }
        free_outputs(outputs, &mut e.heap);
        proof {
            assert(e.heap@ =~= m0.remove_keys(rid));
            let b = *e;
            assert forall|h2: u64| #[trigger] b.res_live(h2) implies b.res_wf(h2) by {
                assert(a.res_live(h2) && h2 != self.handle);
                assert(a.res_wf(h2));
                assert(a.res_ids(h2).disjoint(a.res_ids(self.handle)));
                let r2 = a.res_at(h2);
                crate::wire::lemma_msg_seq_ids_in_dom(r2.errors@, m0);
                crate::wire::lemma_msg_seq_ids_in_dom(r2.warnings@, m0);
                crate::wire::lemma_out_seq_ids_in_dom(r2.outputs@, m0);
                crate::wire::lemma_remove_keys_agrees(m0, rid, msg_seq_ids(r2.errors@, m0));
                crate::wire::lemma_msg_seq_frame(r2.errors@, m0, b.heap_view());
                crate::wire::lemma_remove_keys_agrees(m0, rid, msg_seq_ids(r2.warnings@, m0));
                crate::wire::lemma_msg_seq_frame(r2.warnings@, m0, b.heap_view());
                crate::wire::lemma_remove_keys_agrees(m0, rid, out_seq_ids(r2.outputs@));
                crate::wire::lemma_out_seq_frame(r2.outputs@, m0, b.heap_view());
            }
            assert forall|h2: u64| #[trigger] b.cerr_live(h2) implies b.cerr_wf(h2) by {
                assert(a.cerr_live(h2));
                assert(a.cerr_wf(h2));
                assert(a.res_ids(self.handle).disjoint(a.cerr_ids(h2)));
                crate::wire::lemma_msg_seq_ids_in_dom(a.cerr_at(h2), m0);
                crate::wire::lemma_remove_keys_agrees(m0, rid, msg_seq_ids(a.cerr_at(h2), m0));
                crate::wire::lemma_msg_seq_frame(a.cerr_at(h2), m0, b.heap_view());
            }
            assert forall|h1: u64, h2: u64|
                b.res_live(h1) && b.res_live(h2) && h1 != h2 implies b.res_ids(h1).disjoint(
                b.res_ids(h2),
            ) by {
                assert(a.res_live(h1) && a.res_live(h2));
                assert(a.res_ids(h1).disjoint(a.res_ids(h2)));
                assert(a.res_ids(h1).disjoint(a.res_ids(self.handle)));
                let r1 = a.res_at(h1);
                crate::wire::lemma_msg_seq_ids_in_dom(r1.errors@, m0);
                crate::wire::lemma_msg_seq_ids_in_dom(r1.warnings@, m0);
                crate::wire::lemma_out_seq_ids_in_dom(r1.outputs@, m0);
                crate::wire::lemma_remove_keys_agrees(m0, rid, msg_seq_ids(r1.errors@, m0));
                crate::wire::lemma_msg_seq_frame(r1.errors@, m0, b.heap_view());
                crate::wire::lemma_remove_keys_agrees(m0, rid, msg_seq_ids(r1.warnings@, m0));
                crate::wire::lemma_msg_seq_frame(r1.warnings@, m0, b.heap_view());
                let r2 = a.res_at(h2);
                crate::wire::lemma_msg_seq_ids_in_dom(r2.errors@, m0);
                crate::wire::lemma_msg_seq_ids_in_dom(r2.warnings@, m0);
                crate::wire::lemma_out_seq_ids_in_dom(r2.outputs@, m0);
                crate::wire::lemma_remove_keys_agrees(m0, rid, msg_seq_ids(r2.errors@, m0));
                crate::wire::lemma_msg_seq_frame(r2.errors@, m0, b.heap_view());
                crate::wire::lemma_remove_keys_agrees(m0, rid, msg_seq_ids(r2.warnings@, m0));
                crate::wire::lemma_msg_seq_frame(r2.warnings@, m0, b.heap_view());
            }
            assert forall|h1: u64, h2: u64|
                b.cerr_live(h1) && b.cerr_live(h2) && h1 != h2 implies b.cerr_ids(h1).disjoint(
                b.cerr_ids(h2),
            ) by {
                assert(a.cerr_live(h1) && a.cerr_live(h2));
                assert(a.cerr_ids(h1).disjoint(a.cerr_ids(h2)));
                crate::wire::lemma_msg_seq_ids_in_dom(a.cerr_at(h1), m0);
                assert(a.res_ids(self.handle).disjoint(a.cerr_ids(h1)));
                crate::wire::lemma_remove_keys_agrees(m0, rid, msg_seq_ids(a.cerr_at(h1), m0));
                crate::wire::lemma_msg_seq_frame(a.cerr_at(h1), m0, b.heap_view());
                crate::wire::lemma_msg_seq_ids_in_dom(a.cerr_at(h2), m0);
                assert(a.res_ids(self.handle).disjoint(a.cerr_ids(h2)));
                crate::wire::lemma_remove_keys_agrees(m0, rid, msg_seq_ids(a.cerr_at(h2), m0));
                crate::wire::lemma_msg_seq_frame(a.cerr_at(h2), m0, b.heap_view());
            }
            assert forall|h1: u64, h2: u64|
                b.res_live(h1) && b.cerr_live(h2) implies b.res_ids(h1).disjoint(
                b.cerr_ids(h2),
            ) by {
                assert(a.res_live(h1) && a.cerr_live(h2));
                assert(a.res_ids(h1).disjoint(a.cerr_ids(h2)));
                assert(a.res_ids(h1).disjoint(a.res_ids(self.handle)));
                let r1 = a.res_at(h1);
                crate::wire::lemma_msg_seq_ids_in_dom(r1.errors@, m0);
                crate::wire::lemma_msg_seq_ids_in_dom(r1.warnings@, m0);
                crate::wire::lemma_out_seq_ids_in_dom(r1.outputs@, m0);
                crate::wire::lemma_remove_keys_agrees(m0, rid, msg_seq_ids(r1.errors@, m0));
                crate::wire::lemma_msg_seq_frame(r1.errors@, m0, b.heap_view());
                crate::wire::lemma_remove_keys_agrees(m0, rid, msg_seq_ids(r1.warnings@, m0));
                crate::wire::lemma_msg_seq_frame(r1.warnings@, m0, b.heap_view());
                assert(a.res_ids(self.handle).disjoint(a.cerr_ids(h2)));
                crate::wire::lemma_msg_seq_ids_in_dom(a.cerr_at(h2), m0);
                crate::wire::lemma_remove_keys_agrees(m0, rid, msg_seq_ids(a.cerr_at(h2), m0));
                crate::wire::lemma_msg_seq_frame(a.cerr_at(h2), m0, b.heap_view());
            }
            assert forall|c: u64| #[trigger] b.cb_live(c) implies {
                &&& b.plugin_live(b.cb_at(c).plugin)
                &&& b.plugin_at(b.cb_at(c).plugin).hooks@.contains(c)
            } by {
                assert(a.cb_live(c));
            }
            assert forall|p: u64, i2: int|
                b.plugin_live(p) && 0 <= i2 < b.plugin_at(p).hooks@.len() implies {
                &&& b.cb_live(#[trigger] b.plugin_at(p).hooks@[i2])
                &&& b.cb_at(b.plugin_at(p).hooks@[i2]).plugin == p
            } by {
                assert(a.plugin_live(p));
                assert(a.cb_live(a.plugin_at(p).hooks@[i2]));
            }
            assert(b.wf());
        }
    }
}

/// Frees a message list and discards the rebuilt builders.
fn consume_messages_free(v: Vec<WireMessage>, b: &mut Boundary)
    requires
        msg_seq_wf(v@, old(b)@),
    ensures
        final(b)@ == old(b)@.remove_keys(msg_seq_ids(v@, old(b)@)),
        final(b).cap() == old(b).cap(),
{
    let _ = crate::error::consume_messages(v, b);
}

} // verus!

verus! {

/// The text the model resolver reports for an input path it cannot find.
pub open spec fn resolve_error_text(p: Seq<char>) -> Seq<char> {
    "Could not resolve \""@ + p + "\""@
}

/// The resolution errors a build reports: one per entry point whose
/// input path is not among the known files, in entry order.
pub open spec fn resolve_errors(
    files: Seq<Seq<char>>,
    entries: Seq<(Seq<char>, Seq<char>)>,
) -> Seq<MessageView>
    decreases entries.len(),
{
    if entries.len() == 0 {
        Seq::empty()
    } else {
        (if files.contains(entries[0].0) {
            Seq::<MessageView>::empty()
        } else {
            seq![crate::wire::plain_message(resolve_error_text(entries[0].0))]
        }) + resolve_errors(files, entries.drop_first())
    }
}

/// The outputs of a successful build: one file per entry point, at its
/// output path, with empty contents in the model.
pub open spec fn output_views(entries: Seq<(Seq<char>, Seq<char>)>) -> Seq<OutputFileView> {
    Seq::new(entries.len(), |i: int| (OutputFileView { path: entries[i].1, contents: Seq::empty() }))
}

pub proof fn lemma_resolve_push(
    files: Seq<Seq<char>>,
    s: Seq<(Seq<char>, Seq<char>)>,
    x: (Seq<char>, Seq<char>),
)
    ensures
        resolve_errors(files, s.push(x)) == resolve_errors(files, s) + (if files.contains(x.0) {
            Seq::<MessageView>::empty()
        } else {
            seq![crate::wire::plain_message(resolve_error_text(x.0))]
        }),
    decreases s.len(),
{
    let step = if files.contains(x.0) {
        Seq::<MessageView>::empty()
    } else {
        seq![crate::wire::plain_message(resolve_error_text(x.0))]
    };
    let q = s.push(x);
    assert(q.len() == s.len() + 1);
    if s.len() == 0 {
        assert(q[0] == x);
        assert(q.drop_first() =~= Seq::<(Seq<char>, Seq<char>)>::empty());
        assert(resolve_errors(files, q) == (if files.contains(q[0].0) {
            Seq::<MessageView>::empty()
        } else {
            seq![crate::wire::plain_message(resolve_error_text(q[0].0))]
        }) + resolve_errors(files, q.drop_first()));
        assert(resolve_errors(files, q.drop_first()) == Seq::<MessageView>::empty());
        assert(resolve_errors(files, s) == Seq::<MessageView>::empty());
        assert(resolve_errors(files, q) =~= resolve_errors(files, s) + step);
    } else {
        assert(q[0] == s[0]);
        assert(q.drop_first() =~= s.drop_first().push(x));
        lemma_resolve_push(files, s.drop_first(), x);
        assert(resolve_errors(files, q) == (if files.contains(q[0].0) {
            Seq::<MessageView>::empty()
        } else {
            seq![crate::wire::plain_message(resolve_error_text(q[0].0))]
        }) + resolve_errors(files, q.drop_first()));
        assert(resolve_errors(files, s) == (if files.contains(s[0].0) {
            Seq::<MessageView>::empty()
        } else {
            seq![crate::wire::plain_message(resolve_error_text(s[0].0))]
        }) + resolve_errors(files, s.drop_first()));
        assert(resolve_errors(files, q) =~= resolve_errors(files, s) + step);
    }
}

/// Whether the model resolver knows this input path.
fn resolves(files: &Vec<String>, p: &String) -> (r: bool)
    ensures
        r == files.deep_view().contains(p@),
{
    let mut i: usize = 0;
    while i < files.len()
        invariant
            i <= files@.len(),
            forall|j: int| 0 <= j < i ==> #[trigger] files.deep_view()[j] != p@,
        decreases files@.len() - i,
    {
        if files[i].eq(p) {
            proof {
                assert(files.deep_view()[i as int] == p@);
            }
            return true;
        }
        i = i + 1;
    }
    proof {
        if files.deep_view().contains(p@) {
            let j = choose|j: int|
                0 <= j < files.deep_view().len() && #[trigger] files.deep_view()[j] == p@;
            assert(false);
        }
    }
    false
}

/// The message text for one unresolved input path.
fn resolve_error_message(p: &String) -> (r: MessageBuilder)
    ensures
        r@ == crate::wire::plain_message(resolve_error_text(p@)),
{
    let mut t = String::from_str("Could not resolve \"");
    t.append(p.as_str());
    t.append("\"");
    let r = MessageBuilder::new(t.as_str());
    proof {
        assert(r@.notes =~= Seq::<crate::wire::NoteView>::empty());
    }
    r
}

/// The resolution pass: the error messages for every entry point whose
/// input path is unknown, in order.
fn resolution_builders(files: &Vec<String>, entries: &Vec<Entry>) -> (r: Vec<MessageBuilder>)
    ensures
        r.deep_view() == resolve_errors(files.deep_view(), entries.deep_view()),
{
    let ghost fv = files.deep_view();
    let ghost ev = entries.deep_view();
    let mut r: Vec<MessageBuilder> = Vec::new();
    proof {
        assert(ev.take(0) =~= Seq::<(Seq<char>, Seq<char>)>::empty());
        assert(r.deep_view() =~= resolve_errors(fv, ev.take(0)));
    }
    let mut i: usize = 0;
    while i < entries.len()
        invariant
            entries.deep_view() == ev,
            files.deep_view() == fv,
            i <= ev.len(),
            r.deep_view() == resolve_errors(fv, ev.take(i as int)),
        decreases ev.len() - i,
    {
        let ghost prevv = r.deep_view();
        if !resolves(files, &entries[i].in_path) {
            let mb = resolve_error_message(&entries[i].in_path);
            r.push(mb);
            proof {
                assert(r.deep_view() =~= prevv.push(mb@));
            }
        }
        proof {
            assert(ev.take(i + 1) =~= ev.take(i as int).push(ev[i as int]));
            lemma_resolve_push(fv, ev.take(i as int), ev[i as int]);
            assert(ev[i as int].0 == entries@[i as int].in_path@);
            assert(r.deep_view() =~= resolve_errors(fv, ev.take(i + 1)));
        }
        i = i + 1;
    }
    proof {
        assert(ev.take(ev.len() as int) =~= ev);
    }
    r
}

/// Builds the output-file records of a successful build: one per entry
/// point, with its output path and an empty byte buffer.
fn make_outputs(entries: &Vec<Entry>, b: &mut Boundary) -> (r: Vec<WireOutputFile>)
    requires
        old(b).cap() + 2 * entries.deep_view().len() <= usize::MAX as int,
    ensures
        out_seq_wf(r@, final(b)@),
        out_seq_read(r@, final(b)@) == output_views(entries.deep_view()),
        crate::wire::grew_by(old(b)@, final(b)@, out_seq_ids(r@)),
        crate::wire::fresh_between(old(b).cap(), final(b).cap(), out_seq_ids(r@)),
        old(b).cap() <= final(b).cap(),
        final(b).cap() <= old(b).cap() + 2 * entries.deep_view().len(),
{
    let ghost m0 = b@;
    let ghost c0 = b.cap();
    let ghost ev = entries.deep_view();
    let mut r: Vec<WireOutputFile> = Vec::new();
    proof {
        assert(r@ =~= Seq::<WireOutputFile>::empty());
        assert(out_seq_ids(r@) =~= Set::<int>::empty());
        assert(out_seq_read(r@, b@) =~= output_views(ev).take(0));
    }
    let mut i: usize = 0;
    while i < entries.len()
        invariant
            entries.deep_view() == ev,
            i <= ev.len(),
            r@.len() == i,
            out_seq_wf(r@, b@),
            out_seq_read(r@, b@) == output_views(ev).take(i as int),
            crate::wire::grew_by(m0, b@, out_seq_ids(r@)),
            crate::wire::fresh_between(c0, b.cap(), out_seq_ids(r@)),
            c0 <= b.cap(),
            b.cap() <= c0 + 2 * i,
            b.cap() + 2 * (ev.len() - i) <= usize::MAX as int,
        decreases ev.len() - i,
    {
        let ghost mi = b@;
        let ghost ci = b.cap();
        let ghost prev = r@;
        let path = crate::wire::place_text(b, entries[i].out_path.clone());
        let ghost mj = b@;
        let contents = b.place_bytes(Vec::new());
        let o = WireOutputFile { path, contents };
        proof {
            assert(crate::wire::grew_by(mi, b@, o.ids())) by {
                assert(o.ids() =~= path.ids_set() + contents.ids_set());
                crate::wire::lemma_grew_trans(mi, mj, b@, path.ids_set(), contents.ids_set());
            }
            crate::wire::lemma_text_frame(path, mj, b@);
            assert(o.wf(b@));
            crate::wire::lemma_out_seq_ids_in_dom(prev, mi);
            crate::wire::lemma_grew_agrees(mi, b@, o.ids(), out_seq_ids(prev));
            crate::wire::lemma_out_seq_frame(prev, mi, b@);
            crate::wire::lemma_fresh_disjoint(c0, ci, out_seq_ids(prev), ci, b.cap(), o.ids());
            crate::wire::lemma_grew_trans(m0, mi, b@, out_seq_ids(prev), o.ids());
            crate::wire::lemma_out_seq_push(prev, o, b@);
        }
        r.push(o);
        proof {
            assert(o.read(b@) == output_views(ev)[i as int]);
            assert(out_seq_read(r@, b@) =~= output_views(ev).take(i + 1));
            assert(crate::wire::fresh_between(c0, b.cap(), out_seq_ids(r@)));
        }
        i = i + 1;
    }
    proof {
        assert(output_views(ev).take(ev.len() as int) =~= output_views(ev));
    }
    r
}

} // verus!

verus! {

pub proof fn lemma_outbound_concat(a: Seq<MessageView>, b2: Seq<MessageView>)
    ensures
        crate::wire::outbound_seq(a + b2) == crate::wire::outbound_seq(a)
            + crate::wire::outbound_seq(b2),
{
    assert(crate::wire::outbound_seq(a + b2) =~= crate::wire::outbound_seq(a)
        + crate::wire::outbound_seq(b2));
}

pub proof fn lemma_msg_seq_cost_concat(a: Seq<MessageView>, b2: Seq<MessageView>)
    ensures
        msg_seq_cost(a + b2) == msg_seq_cost(a) + msg_seq_cost(b2),
    decreases a.len(),
{
    if a.len() == 0 {
        assert(a + b2 =~= b2);
    } else {
        assert((a + b2)[0] == a[0]);
        assert((a + b2).drop_first() =~= a.drop_first() + b2);
        lemma_msg_seq_cost_concat(a.drop_first(), b2);
    }
}

/// Every resolution error is a bare message of cost six, and outbound
/// serialization leaves it unchanged.
pub proof fn lemma_resolve_shape(files: Seq<Seq<char>>, entries: Seq<(Seq<char>, Seq<char>)>)
    ensures
        crate::wire::outbound_seq(resolve_errors(files, entries)) == resolve_errors(
            files,
            entries,
        ),
        msg_seq_cost(resolve_errors(files, entries)) <= 6 * entries.len(),
        resolve_errors(files, entries).len() <= entries.len(),
    decreases entries.len(),
{
    if entries.len() == 0 {
        assert(crate::wire::outbound_seq(resolve_errors(files, entries)) =~= resolve_errors(
            files,
            entries,
        ));
    } else {
        let step = if files.contains(entries[0].0) {
            Seq::<MessageView>::empty()
        } else {
            seq![crate::wire::plain_message(resolve_error_text(entries[0].0))]
        };
        let rest = resolve_errors(files, entries.drop_first());
        lemma_resolve_shape(files, entries.drop_first());
        assert(resolve_errors(files, entries) == step + rest);
        lemma_msg_seq_cost_concat(step, rest);
        if !files.contains(entries[0].0) {
            assert(step.len() == 1);
            assert(step[0] == crate::wire::plain_message(resolve_error_text(entries[0].0)));
            assert(step[0].notes.len() == 0);
            assert(crate::wire::msg_cost(step[0]) == 6);
            assert(step.drop_first() =~= Seq::<MessageView>::empty());
            assert(msg_seq_cost(step.drop_first()) == 0);
            assert(msg_seq_cost(step) == 6);
        } else {
            assert(msg_seq_cost(step) == 0);
        }
        assert(crate::wire::outbound_seq(step + rest) =~= step + rest) by {
            assert forall|i: int| 0 <= i < (step + rest).len() implies crate::wire::outbound_seq(
                step + rest,
            )[i] == (step + rest)[i] by {
                if i < step.len() {
                    assert((step + rest)[i] == step[i]);
                } else {
                    assert((step + rest)[i] == rest[i - step.len()]);
                    assert(crate::wire::outbound_seq(rest)[i - step.len()] == rest[i
                        - step.len()]);
                }
            }
        }
    }
}

} // verus!

verus! {

/// Completes one build against a live context: releases the build's
/// reference, runs the model resolution pass over the context's entry
/// points, and installs the boundary-owned result aggregate.
fn finish_result(
    e: &mut Engine,
    context: u64,
    errors: Vec<MessageBuilder>,
    warnings: Vec<MessageBuilder>,
) -> (r: BuildResult)
    requires
        old(e).wf(),
        old(e).ctx_live(context),
        old(e).ctx_refs(context) >= 1,
        old(e).heap_cap() + msg_seq_cost(errors.deep_view()) + msg_seq_cost(warnings.deep_view())
            + 8 * old(e).ctx_at(context).entries.deep_view().len() <= usize::MAX as int,
    ensures
        final(e).wf(),
        same_files(*old(e), *final(e)),
        same_options(*old(e), *final(e)),
        same_bridges(*old(e), *final(e)),
        same_jobs(*old(e), *final(e)),
        final(e).plugins_table() == old(e).plugins_table(),
        final(e).callbacks_table() == old(e).callbacks_table(),
        final(e).cerrs_table() == old(e).cerrs_table(),
        !old(e).res_live(r.handle),
        final(e).res_live(r.handle),
        r.handle as int == old(e).results_table().len(),
        final(e).results_table().len() == old(e).results_table().len() + 1,
        forall|i: int|
            0 <= i < old(e).results_table().len()
                ==> final(e).results_table()[i] == old(e).results_table()[i],
        final(e).res_errors_read(r.handle) == crate::wire::outbound_seq(errors.deep_view())
            + resolve_errors(
            old(e).files_list(),
            old(e).ctx_at(context).entries.deep_view(),
        ),
        final(e).res_warnings_read(r.handle) == crate::wire::outbound_seq(warnings.deep_view()),
        final(e).res_outputs_read(r.handle) == (if final(e).res_errors_read(r.handle).len() == 0 {
            output_views(old(e).ctx_at(context).entries.deep_view())
        } else {
            Seq::<OutputFileView>::empty()
        }),
        crate::wire::grew_by(
            old(e).heap_view(),
            final(e).heap_view(),
            final(e).res_ids(r.handle),
        ),
        old(e).ctx_refs(context) > 1 ==> {
            &&& final(e).ctx_live(context)
            &&& final(e).ctx_refs(context) == old(e).ctx_refs(context) - 1
            &&& final(e).ctx_cancels(context) == old(e).ctx_cancels(context)
            &&& final(e).ctx_at(context).entries == old(e).ctx_at(context).entries
            &&& final(e).ctx_at(context).plugins@ == old(e).ctx_at(context).plugins@
            &&& final(e).ctx_at(context).bundle == old(e).ctx_at(context).bundle
        },
        old(e).ctx_refs(context) == 1 ==> !final(e).ctx_live(context),
        final(e).contexts_table().len() == old(e).contexts_table().len(),
        forall|i: int|
            0 <= i < old(e).contexts_table().len() && i != context
                ==> final(e).contexts_table()[i] == old(e).contexts_table()[i],
{
    let ghost a = *old(e);
    let ghost ev = a.ctx_at(context).entries.deep_view();
    let ghost fv = a.files_list();
    let _nc = e.contexts.len();
    let ic = context as usize;
    let entries_copy = match &e.contexts[ic] {
        Some(st) => copy_entries(&st.entries),
        None => vstd::pervasive::unreached(),
    };
    Context::from_handle(context).release(e);
    let mut all_errors = errors;
    let ghost errv = all_errors.deep_view();
    let mut resolution = resolution_builders(&e.files, &entries_copy);
    proof {
        lemma_resolve_shape(fv, ev);
        crate::wire::lemma_msg_seq_cost_nonneg(errv);
        crate::wire::lemma_msg_seq_cost_nonneg(warnings.deep_view());
        crate::wire::lemma_msg_seq_cost_nonneg(resolve_errors(fv, ev));
    }
    all_errors.append(&mut resolution);
    proof {
        assert(all_errors.deep_view() =~= errv + resolve_errors(fv, ev)) by {
            assert forall|i: int| 0 <= i < all_errors@.len() implies all_errors.deep_view()[i]
                == (errv + resolve_errors(fv, ev))[i] by {
            }
        }
        lemma_msg_seq_cost_concat(errv, resolve_errors(fv, ev));
    }
    let ghost m0 = e.heap@;
    let ghost c0 = e.heap.cap();
    let werrs = serialize_messages(all_errors, &mut e.heap);
    let ghost m1 = e.heap@;
    let ghost c1 = e.heap.cap();
    let ghost eids = msg_seq_ids(werrs@, m1);
    let wwarns = serialize_messages(warnings, &mut e.heap);
    let ghost m2 = e.heap@;
    let ghost c2 = e.heap.cap();
    let ghost wids = msg_seq_ids(wwarns@, m2);
    proof {
        crate::wire::lemma_msg_seq_ids_in_dom(werrs@, m1);
        crate::wire::lemma_grew_agrees(m1, m2, wids, eids);
        crate::wire::lemma_msg_seq_frame(werrs@, m1, m2);
    }
    let outs = if werrs.len() == 0 {
        make_outputs(&entries_copy, &mut e.heap)
    } else {
        Vec::new()
    };
    let ghost m3 = e.heap@;
    let ghost c3 = e.heap.cap();
    let ghost oids = out_seq_ids(outs@);
    proof {
        if werrs.len() > 0 {
            assert(outs@ =~= Seq::<WireOutputFile>::empty());
            assert(oids =~= Set::<int>::empty());
            assert(out_seq_read(outs@, m3) =~= Seq::<OutputFileView>::empty());
            assert(crate::wire::grew_by(m2, m3, oids));
            assert(crate::wire::fresh_between(c2, c3, oids));
        }
        // the message arrays survive the outputs' allocations
        crate::wire::lemma_msg_seq_ids_in_dom(werrs@, m2);
        crate::wire::lemma_grew_agrees(m2, m3, oids, msg_seq_ids(werrs@, m2));
        crate::wire::lemma_msg_seq_frame(werrs@, m2, m3);
        crate::wire::lemma_msg_seq_ids_in_dom(wwarns@, m2);
        crate::wire::lemma_grew_agrees(m2, m3, oids, wids);
        crate::wire::lemma_msg_seq_frame(wwarns@, m2, m3);
        // pairwise disjointness of the three parts
        crate::wire::lemma_fresh_disjoint(c0, c1, eids, c1, c2, wids);
        crate::wire::lemma_fresh_disjoint(c0, c1, eids, c2, c3, oids);
        crate::wire::lemma_fresh_disjoint(c1, c2, wids, c2, c3, oids);
    }
    let ghost emid = *e;
    let rh = e.results.len();
    e.results.push(Some(ResultState { errors: werrs, warnings: wwarns, outputs: outs }));
    let r = BuildResult { handle: rh as u64 };
    proof {
        let b = *e;
        let rid = b.res_ids(r.handle);
        assert(b.res_at(r.handle).errors@ == werrs@);
        assert(b.res_at(r.handle).warnings@ == wwarns@);
        assert(b.res_at(r.handle).outputs@ == outs@);
        crate::wire::lemma_grew_trans(m0, m1, m2, eids, wids);
        crate::wire::lemma_grew_trans(m0, m2, m3, eids + wids, oids);
        assert(rid =~= (eids + wids) + oids);
        assert(crate::wire::grew_by(m0, m3, rid));
        assert(crate::wire::fresh_between(c0, c3, rid));
        assert(b.res_wf(r.handle));
        Engine::lemma_wf_after_grow(a, emid, rid);
        assert forall|h2: u64| #[trigger] b.res_live(h2) implies b.res_wf(h2) by {
            if h2 != r.handle {
                assert(a.res_live(h2));
                assert(emid.res_wf(h2));
            }
        }
        assert forall|h2: u64| #[trigger] b.cerr_live(h2) implies b.cerr_wf(h2) by {
            assert(a.cerr_live(h2));
            assert(emid.cerr_wf(h2));
        }
        assert forall|h1: u64, h2: u64|
            b.res_live(h1) && b.res_live(h2) && h1 != h2 implies b.res_ids(h1).disjoint(
            b.res_ids(h2),
        ) by {
            if h1 != r.handle && h2 != r.handle {
                assert(a.res_live(h1) && a.res_live(h2));
                assert(a.res_ids(h1).disjoint(a.res_ids(h2)));
                assert(emid.res_ids(h1) == a.res_ids(h1));
                assert(emid.res_ids(h2) == a.res_ids(h2));
            } else if h1 == r.handle {
                assert(a.res_live(h2));
                assert(a.res_ids(h2).subset_of(a.heap_view().dom()));
                assert(emid.res_ids(h2) == a.res_ids(h2));
            } else {
                assert(a.res_live(h1));
                assert(a.res_ids(h1).subset_of(a.heap_view().dom()));
                assert(emid.res_ids(h1) == a.res_ids(h1));
            }
        }
        assert forall|h1: u64, h2: u64|
            b.cerr_live(h1) && b.cerr_live(h2) && h1 != h2 implies b.cerr_ids(h1).disjoint(
            b.cerr_ids(h2),
        ) by {
            assert(a.cerr_live(h1) && a.cerr_live(h2));
            assert(a.cerr_ids(h1).disjoint(a.cerr_ids(h2)));
            assert(emid.cerr_ids(h1) == a.cerr_ids(h1));
            assert(emid.cerr_ids(h2) == a.cerr_ids(h2));
        }
        assert forall|h1: u64, h2: u64|
            b.res_live(h1) && b.cerr_live(h2) implies b.res_ids(h1).disjoint(
            b.cerr_ids(h2),
        ) by {
            assert(a.cerr_live(h2));
            assert(emid.cerr_ids(h2) == a.cerr_ids(h2));
            assert(a.cerr_ids(h2).subset_of(a.heap_view().dom()));
            if h1 != r.handle {
                assert(a.res_live(h1));
                assert(a.res_ids(h1).disjoint(a.cerr_ids(h2)));
                assert(emid.res_ids(h1) == a.res_ids(h1));
            }
        }
        assert forall|c: u64| #[trigger] b.cb_live(c) implies {
            &&& b.plugin_live(b.cb_at(c).plugin)
            &&& b.plugin_at(b.cb_at(c).plugin).hooks@.contains(c)
        } by {
            assert(a.cb_live(c));
        }
        assert forall|p: u64, i2: int|
            b.plugin_live(p) && 0 <= i2 < b.plugin_at(p).hooks@.len() implies {
            &&& b.cb_live(#[trigger] b.plugin_at(p).hooks@[i2])
            &&& b.cb_at(b.plugin_at(p).hooks@[i2]).plugin == p
        } by {
            assert(a.plugin_live(p));
            assert(a.cb_live(a.plugin_at(p).hooks@[i2]));
        }
        assert(b.wf());
        // read-back composition
        assert(b.res_errors_read(r.handle) == crate::wire::outbound_seq(errv) + resolve_errors(
            fv,
            ev,
        )) by {
            assert(msg_seq_read(werrs@, m3) == msg_seq_read(werrs@, m1));
            assert(msg_seq_read(werrs@, m1) == crate::wire::outbound_seq(errv + resolve_errors(
                fv,
                ev,
            )));
            lemma_outbound_concat(errv, resolve_errors(fv, ev));
            assert(crate::wire::outbound_seq(resolve_errors(fv, ev)) == resolve_errors(fv, ev));
        }
        assert(b.res_warnings_read(r.handle) == crate::wire::outbound_seq(warnings.deep_view()))
            by {
            assert(msg_seq_read(wwarns@, m3) == msg_seq_read(wwarns@, m2));
        }
        assert(b.res_errors_read(r.handle).len() == 0 <==> werrs@.len() == 0);
        if werrs.len() == 0 {
            assert(b.res_outputs_read(r.handle) == output_views(ev));
        } else {
            assert(b.res_outputs_read(r.handle) =~= Seq::<OutputFileView>::empty());
        }
    }
    r
}

} // verus!

verus! {

/// The hook slots a build dispatches: those of the context's plugins, in
/// registration order, plugin by plugin.
pub open spec fn hooks_concat(e: Engine, ps: Seq<u64>) -> Seq<u64>
    decreases ps.len(),
{
    if ps.len() == 0 {
        Seq::empty()
    } else {
        hooks_concat(e, ps.drop_last()) + (if e.plugin_live(ps.last()) {
            e.plugin_at(ps.last()).hooks@
        } else {
            Seq::empty()
        })
    }
}

impl Engine {
    /// Collects the hook slots of the given plugins, in order.
    fn collect_hooks(&self, ps: &Vec<u64>) -> (r: Vec<u64>)
        ensures
            r@ == hooks_concat(*self, ps@),
    {
        let mut r: Vec<u64> = Vec::new();
        let mut i: usize = 0;
        proof {
            assert(ps@.take(0) =~= Seq::<u64>::empty());
            assert(r@ =~= hooks_concat(*self, ps@.take(0)));
        }
        while i < ps.len()
            invariant
                i <= ps@.len(),
                r@ == hooks_concat(*self, ps@.take(i as int)),
            decreases ps@.len() - i,
        {
            let ghost prev = r@;
            let p = ps[i];
            let n = self.plugins.len();
            if p < n as u64 {
                match &self.plugins[p as usize] {
                    Some(st) => {
                        let mut hs = copy_handles(&st.hooks);
                        r.append(&mut hs);
                    }
                    None => (),
                }
            }
            proof {
                assert(ps@.take(i + 1).drop_last() =~= ps@.take(i as int));
                assert(ps@.take(i + 1).last() == ps@[i as int]);
                if self.plugin_live(p) {
                    assert(r@ =~= prev + self.plugin_at(p).hooks@);
                } else {
                    assert(r@ =~= prev + Seq::<u64>::empty());
                }
                assert(r@ == hooks_concat(*self, ps@.take(i + 1)));
            }
            i = i + 1;
        }
        proof {
            assert(ps@.take(ps@.len() as int) =~= ps@);
        }
        r
    }

    /// How many build jobs have been created so far; the newest job's
    /// handle is one less than this.
    pub fn jobs_len(&self) -> (n: usize)
        ensures
            n as int == self.jobs_table().len(),
    {
        self.jobs.len()
    }
}

impl Context {
    /// Starts one build of this context: takes a reference for the
    /// build's lifetime and records the hook slots still to run. The
    /// caller then drives the job and finally completes it.
    pub fn build_begin(&self, e: &mut Engine) -> (r: crate::result::BuildJob)
        requires
            old(e).wf(),
            old(e).ctx_live(self.id()),
            old(e).ctx_refs(self.id()) < u64::MAX as int,
        ensures
            final(e).wf(),
            same_core(*old(e), *final(e)),
            same_files(*old(e), *final(e)),
            same_options(*old(e), *final(e)),
            same_bridges(*old(e), *final(e)),
            !old(e).job_live(r.id()),
            final(e).job_live(r.id()),
            r.id() as int == old(e).jobs_table().len(),
            final(e).jobs_table().len() == old(e).jobs_table().len() + 1,
            forall|i: int|
                0 <= i < old(e).jobs_table().len() ==> final(e).jobs_table()[i] == old(e).jobs_table()[i],
            final(e).job_at(r.id()).context == self.id(),
            final(e).job_at(r.id()).bridge is None,
            final(e).job_at(r.id()).hooks@ == hooks_concat(
                *old(e),
                old(e).ctx_at(self.id()).plugins@,
            ),
            final(e).job_at(r.id()).next == 0,
            final(e).job_at(r.id()).errors.deep_view() == Seq::<MessageView>::empty(),
            final(e).job_at(r.id()).warnings.deep_view() == Seq::<MessageView>::empty(),
            final(e).ctx_live(self.id()),
            final(e).ctx_refs(self.id()) == old(e).ctx_refs(self.id()) + 1,
            final(e).ctx_cancels(self.id()) == old(e).ctx_cancels(self.id()),
            final(e).ctx_at(self.id()).entries == old(e).ctx_at(self.id()).entries,
            final(e).ctx_at(self.id()).plugins@ == old(e).ctx_at(self.id()).plugins@,
            final(e).contexts_table().len() == old(e).contexts_table().len(),
            forall|i: int|
                0 <= i < old(e).contexts_table().len() && i != self.id()
                    ==> final(e).contexts_table()[i] == old(e).contexts_table()[i],
    {
        let h = self.handle();
        let _nc = e.contexts.len();
        let hooks = match &e.contexts[h as usize] {
            Some(st) => e.collect_hooks(&st.plugins),
            None => vstd::pervasive::unreached(),
        };
        let _held = self.clone_ref(e);
        let jh = e.jobs.len();
        e.jobs.push(
            Some(
                JobState {
                    context: h,
                    bridge: None,
                    hooks,
                    next: 0,
                    errors: Vec::new(),
                    warnings: Vec::new(),
                },
            ),
        );
        proof {
            Engine::lemma_wf_preserved(*old(e), *e);
            assert(e.job_at(jh as u64).errors.deep_view() =~= Seq::<MessageView>::empty());
            assert(e.job_at(jh as u64).warnings.deep_view() =~= Seq::<MessageView>::empty());
        }
        crate::result::BuildJob::of(jh as u64)
    }
}

impl crate::result::BuildJob {
    /// The hook slot the boundary would dispatch next, if any is left.
    pub fn next_hook(&self, e: &Engine) -> (r: Option<u64>)
        requires
            e.job_live(self.id()),
        ensures
            match r {
                Some(c) => {
                    &&& e.job_at(self.id()).next < e.job_at(self.id()).hooks@.len()
                    &&& c == e.job_at(self.id()).hooks@[e.job_at(self.id()).next as int]
                },
                None => e.job_at(self.id()).next >= e.job_at(self.id()).hooks@.len(),
            },
    {
        let _n = e.jobs.len();
        match &e.jobs[self.handle() as usize] {
            Some(st) => {
                if st.next < st.hooks.len() {
                    Some(st.hooks[st.next])
                } else {
                    None
                }
            }
            None => vstd::pervasive::unreached(),
        }
    }

    /// Hands one hook's outcome back to the build. The result crosses
    /// the boundary through the codec — serialized by the hook, read and
    /// torn down by the receiver — so the arena is left exactly as it
    /// was, and the diagnostics are folded into the build.
    pub fn deliver(&self, e: &mut Engine, res: crate::plugin::OnStartResult)
        requires
            old(e).wf(),
            old(e).job_live(self.id()),
            old(e).job_at(self.id()).next < old(e).job_at(self.id()).hooks@.len(),
            old(e).heap_cap() + msg_seq_cost(res@.errors) + msg_seq_cost(res@.warnings)
                <= usize::MAX as int,
        ensures
            final(e).wf(),
            final(e).heap_view() == old(e).heap_view(),
            old(e).heap_cap() <= final(e).heap_cap(),
            final(e).results_table() == old(e).results_table(),
            final(e).cerrs_table() == old(e).cerrs_table(),
            final(e).callbacks_table() == old(e).callbacks_table(),
            final(e).plugins_table() == old(e).plugins_table(),
            same_files(*old(e), *final(e)),
            same_options(*old(e), *final(e)),
            same_contexts(*old(e), *final(e)),
            same_bridges(*old(e), *final(e)),
            final(e).job_live(self.id()),
            final(e).job_at(self.id()).context == old(e).job_at(self.id()).context,
            final(e).job_at(self.id()).bridge == old(e).job_at(self.id()).bridge,
            final(e).job_at(self.id()).hooks@ == old(e).job_at(self.id()).hooks@,
            final(e).job_at(self.id()).next == old(e).job_at(self.id()).next + 1,
            final(e).job_at(self.id()).errors.deep_view() == old(e).job_at(
                self.id(),
            ).errors.deep_view() + crate::wire::outbound_seq(res@.errors),
            final(e).job_at(self.id()).warnings.deep_view() == old(e).job_at(
                self.id(),
            ).warnings.deep_view() + crate::wire::outbound_seq(res@.warnings),
            final(e).jobs_table().len() == old(e).jobs_table().len(),
            forall|i: int|
                0 <= i < old(e).jobs_table().len() && i != self.id() ==> final(e).jobs_table()[i] == old(e).jobs_table()[i],
    {
        let ghost m0 = e.heap@;
        let w = res.serialize(&mut e.heap);
        let ghost m1 = e.heap@;
        let ghost wids = w.ids(m1);
        let back = crate::plugin::OnStartResult::consume(w, &mut e.heap);
        proof {
            crate::wire::lemma_grow_then_remove(m0, m1, wids);
            assert(e.heap@ == m0);
        }
        let (mut errs, mut warns) = back.into_parts();
        let _nj = e.jobs.len();
        let i = self.handle() as usize;
        let mut st = table_take(&mut e.jobs, i);
        let ghost ev = st.errors.deep_view();
        let ghost wv = st.warnings.deep_view();
        st.errors.append(&mut errs);
        st.warnings.append(&mut warns);
        let _hl = st.hooks.len();
        st.next = st.next + 1;
        proof {
            assert(st.errors.deep_view() =~= ev + crate::wire::outbound_seq(res@.errors)) by {
                assert forall|k: int| 0 <= k < st.errors@.len() implies st.errors.deep_view()[k]
                    == (ev + crate::wire::outbound_seq(res@.errors))[k] by {
                }
            }
            assert(st.warnings.deep_view() =~= wv + crate::wire::outbound_seq(res@.warnings))
                by {
                assert forall|k: int| 0 <= k < st.warnings@.len() implies st.warnings.deep_view()[k]
                    == (wv + crate::wire::outbound_seq(res@.warnings))[k] by {
                }
            }
        }
        table_put(&mut e.jobs, i, st);
        proof {
            Engine::lemma_wf_preserved(*old(e), *e);
        }
    }

    /// Completes a blocking build: every hook has been run, the model
    /// resolution pass decides the outcome, and the build's reference on
    /// the context is released.
    pub fn finish(self, e: &mut Engine) -> (r: BuildResult)
        requires
            old(e).wf(),
            old(e).job_live(self.id()),
            old(e).job_at(self.id()).bridge is None,
            old(e).job_at(self.id()).next >= old(e).job_at(self.id()).hooks@.len(),
            old(e).ctx_live(old(e).job_at(self.id()).context),
            old(e).ctx_refs(old(e).job_at(self.id()).context) >= 1,
            old(e).heap_cap() + msg_seq_cost(old(e).job_at(self.id()).errors.deep_view())
                + msg_seq_cost(old(e).job_at(self.id()).warnings.deep_view()) + 8 * old(e).ctx_at(
                old(e).job_at(self.id()).context,
            ).entries.deep_view().len() <= usize::MAX as int,
        ensures
            final(e).wf(),
            same_files(*old(e), *final(e)),
            same_options(*old(e), *final(e)),
            same_bridges(*old(e), *final(e)),
            final(e).plugins_table() == old(e).plugins_table(),
            final(e).callbacks_table() == old(e).callbacks_table(),
            final(e).cerrs_table() == old(e).cerrs_table(),
            !final(e).job_live(self.id()),
            final(e).jobs_table().len() == old(e).jobs_table().len(),
            forall|i: int|
                0 <= i < old(e).jobs_table().len() && i != self.id() ==> final(e).jobs_table()[i] == old(e).jobs_table()[i],
            !old(e).res_live(r.handle),
            final(e).res_live(r.handle),
            final(e).res_errors_read(r.handle) == crate::wire::outbound_seq(
                old(e).job_at(self.id()).errors.deep_view(),
            ) + resolve_errors(
                old(e).files_list(),
                old(e).ctx_at(old(e).job_at(self.id()).context).entries.deep_view(),
            ),
            final(e).res_warnings_read(r.handle) == crate::wire::outbound_seq(
                old(e).job_at(self.id()).warnings.deep_view(),
            ),
            final(e).res_outputs_read(r.handle) == (if final(e).res_errors_read(
                r.handle,
            ).len() == 0 {
                output_views(old(e).ctx_at(old(e).job_at(self.id()).context).entries.deep_view())
            } else {
                Seq::<OutputFileView>::empty()
            }),
            old(e).ctx_refs(old(e).job_at(self.id()).context) > 1 ==> {
                &&& final(e).ctx_live(old(e).job_at(self.id()).context)
                &&& final(e).ctx_refs(old(e).job_at(self.id()).context) == old(e).ctx_refs(
                    old(e).job_at(self.id()).context,
                ) - 1
                &&& final(e).ctx_cancels(old(e).job_at(self.id()).context) == old(e).ctx_cancels(
                    old(e).job_at(self.id()).context,
                )
                &&& final(e).ctx_at(old(e).job_at(self.id()).context).entries == old(e).ctx_at(
                    old(e).job_at(self.id()).context,
                ).entries
                &&& final(e).ctx_at(old(e).job_at(self.id()).context).plugins@ == old(e).ctx_at(
                    old(e).job_at(self.id()).context,
                ).plugins@
                &&& final(e).ctx_at(old(e).job_at(self.id()).context).bundle == old(e).ctx_at(
                    old(e).job_at(self.id()).context,
                ).bundle
            },
            old(e).ctx_refs(old(e).job_at(self.id()).context) == 1 ==> !final(e).ctx_live(
                old(e).job_at(self.id()).context,
            ),
            final(e).contexts_table().len() == old(e).contexts_table().len(),
            forall|i: int|
                0 <= i < old(e).contexts_table().len() && i != old(e).job_at(self.id()).context
                    ==> final(e).contexts_table()[i] == old(e).contexts_table()[i],
    {
        let _nj = e.jobs.len();
        let i = self.handle() as usize;
        let st = table_take(&mut e.jobs, i);
        proof {
            Engine::lemma_wf_preserved(*old(e), *e);
        }
        let JobState { context, bridge: _, hooks: _, next: _, errors, warnings } = st;
        finish_result(e, context, errors, warnings)
    }
}

} // verus!

verus! {

impl Context {
    /// One blocking build of this context. The stepped job interface is
    /// for contexts with registered hooks; this convenience runs a build
    /// that has none to dispatch.
    pub fn build(&self, e: &mut Engine) -> (r: BuildResult)
        requires
            old(e).wf(),
            old(e).ctx_live(self.id()),
            1 <= old(e).ctx_refs(self.id()) < u64::MAX as int,
            hooks_concat(*old(e), old(e).ctx_at(self.id()).plugins@).len() == 0,
            old(e).heap_cap() + 8 * old(e).ctx_at(self.id()).entries.deep_view().len()
                <= usize::MAX as int,
        ensures
            final(e).wf(),
            same_files(*old(e), *final(e)),
            same_options(*old(e), *final(e)),
            same_bridges(*old(e), *final(e)),
            final(e).plugins_table() == old(e).plugins_table(),
            final(e).callbacks_table() == old(e).callbacks_table(),
            final(e).cerrs_table() == old(e).cerrs_table(),
            !old(e).res_live(r.handle),
            final(e).res_live(r.handle),
            final(e).res_errors_read(r.handle) == resolve_errors(
                old(e).files_list(),
                old(e).ctx_at(self.id()).entries.deep_view(),
            ),
            final(e).res_warnings_read(r.handle) == Seq::<MessageView>::empty(),
            final(e).res_outputs_read(r.handle) == (if final(e).res_errors_read(
                r.handle,
            ).len() == 0 {
                output_views(old(e).ctx_at(self.id()).entries.deep_view())
            } else {
                Seq::<OutputFileView>::empty()
            }),
            final(e).ctx_live(self.id()),
            final(e).ctx_refs(self.id()) == old(e).ctx_refs(self.id()),
            final(e).ctx_cancels(self.id()) == old(e).ctx_cancels(self.id()),
            final(e).ctx_at(self.id()).entries == old(e).ctx_at(self.id()).entries,
            final(e).ctx_at(self.id()).plugins@ == old(e).ctx_at(self.id()).plugins@,
            final(e).contexts_table().len() == old(e).contexts_table().len(),
            forall|i: int|
                0 <= i < old(e).contexts_table().len() && i != self.id()
                    ==> final(e).contexts_table()[i] == old(e).contexts_table()[i],
    {
        let job = self.build_begin(e);
        proof {
            crate::wire::lemma_msg_seq_cost_nonneg(Seq::<MessageView>::empty());
            assert(msg_seq_cost(e.job_at(job.id()).errors.deep_view()) == 0);
            assert(msg_seq_cost(e.job_at(job.id()).warnings.deep_view()) == 0);
        }
        let r = job.finish(e);
        proof {
            assert(crate::wire::outbound_seq(Seq::<MessageView>::empty()) =~= Seq::<
                MessageView,
            >::empty());
        }
        r
    }
}

/// One blocking build straight from an options object: a context is
/// created, built once, and released.
pub fn build(e: &mut Engine, options: &BuildOptions) -> (r: BuildResult)
    requires
        old(e).wf(),
        old(e).options_live(options.id()),
        valid_entries(old(e).options_at(options.id()).entries.deep_view()),
        hooks_concat(*old(e), old(e).options_at(options.id()).plugins@).len() == 0,
        old(e).heap_cap() + 8 * old(e).options_at(options.id()).entries.deep_view().len() + 6
            <= usize::MAX as int,
    ensures
        final(e).wf(),
        same_files(*old(e), *final(e)),
        same_options(*old(e), *final(e)),
        same_bridges(*old(e), *final(e)),
        final(e).plugins_table() == old(e).plugins_table(),
        final(e).callbacks_table() == old(e).callbacks_table(),
        final(e).cerrs_table() == old(e).cerrs_table(),
        final(e).res_live(r.handle),
        final(e).res_errors_read(r.handle) == resolve_errors(
            old(e).files_list(),
            old(e).options_at(options.id()).entries.deep_view(),
        ),
        final(e).res_warnings_read(r.handle) == Seq::<MessageView>::empty(),
        final(e).res_outputs_read(r.handle) == (if final(e).res_errors_read(r.handle).len()
            == 0 {
            output_views(old(e).options_at(options.id()).entries.deep_view())
        } else {
            Seq::<OutputFileView>::empty()
        }),
{
    let ctx = match Context::new(e, options) {
        Ok(c) => c,
        Err(_) => vstd::pervasive::unreached(),
    };
    proof {
        assert(hooks_concat(*e, e.ctx_at(ctx.id()).plugins@) == hooks_concat(
            *old(e),
            old(e).options_at(options.id()).plugins@,
        )) by {
            Engine::lemma_hooks_concat_same(*old(e), *e, e.ctx_at(ctx.id()).plugins@);
        }
    }
    let r = ctx.build(e);
    ctx.release(e);
    r
}

impl Engine {
    /// The hook slots a plugin list yields depend only on the plugin and
    /// callback tables.
    pub proof fn lemma_hooks_concat_same(a: Engine, b: Engine, ps: Seq<u64>)
        requires
            b.plugins_table() == a.plugins_table(),
        ensures
            hooks_concat(b, ps) == hooks_concat(a, ps),
        decreases ps.len(),
    {
        if ps.len() > 0 {
            Engine::lemma_hooks_concat_same(a, b, ps.drop_last());
        }
    }
}

impl ContextError {
    /// The error messages of this creation failure, as read-only views.
    pub fn messages(&self, e: &Engine) -> (r: Vec<crate::error::Message>)
        requires
            e.wf(),
            e.cerr_live(self.id()),
        ensures
            r@.len() == e.cerr_read(self.id()).len(),
            forall|i: int| 0 <= i < r@.len() ==> {
                &&& (#[trigger] r@[i]).wire() == e.cerr_at(self.id())[i]
                &&& r@[i].wire().wf(e.heap_view())
                &&& r@[i].wire().read(e.heap_view()) == e.cerr_read(self.id())[i]
            },
    {
        let n = e.cerrs.len();
        let i = self.handle() as usize;
        let msgs = match &e.cerrs[i] {
            Some(v) => v,
            None => vstd::pervasive::unreached(),
        };
        let mut r: Vec<crate::error::Message> = Vec::new();
        let mut j: usize = 0;
        while j < msgs.len()
            invariant
                msgs@ == e.cerr_at(self.id()),
                e.cerr_live(self.id()),
                e.wf(),
                msg_seq_wf(msgs@, e.heap_view()),
                j <= msgs@.len(),
                r@.len() == j,
                forall|i2: int| 0 <= i2 < j ==> {
                    &&& (#[trigger] r@[i2]).wire() == msgs@[i2]
                    &&& r@[i2].wire().wf(e.heap_view())
                },
            decreases msgs@.len() - j,
        {
            proof {
                crate::wire::lemma_msg_seq_member(msgs@, e.heap_view(), j as int);
            }
            r.push(crate::error::Message::from_wire(msgs[j]));
            j = j + 1;
        }
        r
    }

    /// Destroys this error aggregate exactly once, freeing its wire
    /// messages.
    pub fn destroy(self, e: &mut Engine)
        requires
            old(e).wf(),
            old(e).cerr_live(self.id()),
        ensures
            final(e).wf(),
            same_files(*old(e), *final(e)),
            same_options(*old(e), *final(e)),
            same_contexts(*old(e), *final(e)),
            same_bridges(*old(e), *final(e)),
            same_jobs(*old(e), *final(e)),
            final(e).plugins_table() == old(e).plugins_table(),
            final(e).callbacks_table() == old(e).callbacks_table(),
            final(e).results_table() == old(e).results_table(),
            final(e).heap_view() == old(e).heap_view().remove_keys(old(e).cerr_ids(self.id())),
            final(e).heap_cap() == old(e).heap_cap(),
            !final(e).cerr_live(self.id()),
            final(e).cerrs_table().len() == old(e).cerrs_table().len(),
            forall|i: int|
                0 <= i < old(e).cerrs_table().len() && i != self.id()
                    ==> final(e).cerrs_table()[i] == old(e).cerrs_table()[i],
    {
        let ghost a = *old(e);
        let ghost m0 = a.heap_view();
        let ghost rid = a.cerr_ids(self.id());
        let _n = e.cerrs.len();
        let i = self.handle() as usize;
        let msgs = table_take(&mut e.cerrs, i);
        let _ = consume_messages_free(msgs, &mut e.heap);
        proof {
            let b = *e;
            assert(b.heap_view() =~= m0.remove_keys(rid));
            assert forall|h2: u64| #[trigger] b.res_live(h2) implies b.res_wf(h2) by {
                assert(a.res_live(h2));
                assert(a.res_wf(h2));
                assert(a.res_ids(h2).disjoint(a.cerr_ids(self.id())));
                let r2 = a.res_at(h2);
                crate::wire::lemma_msg_seq_ids_in_dom(r2.errors@, m0);
                crate::wire::lemma_msg_seq_ids_in_dom(r2.warnings@, m0);
                crate::wire::lemma_out_seq_ids_in_dom(r2.outputs@, m0);
                crate::wire::lemma_remove_keys_agrees(m0, rid, msg_seq_ids(r2.errors@, m0));
                crate::wire::lemma_msg_seq_frame(r2.errors@, m0, b.heap_view());
                crate::wire::lemma_remove_keys_agrees(m0, rid, msg_seq_ids(r2.warnings@, m0));
                crate::wire::lemma_msg_seq_frame(r2.warnings@, m0, b.heap_view());
                crate::wire::lemma_remove_keys_agrees(m0, rid, out_seq_ids(r2.outputs@));
                crate::wire::lemma_out_seq_frame(r2.outputs@, m0, b.heap_view());
            }
            assert forall|h2: u64| #[trigger] b.cerr_live(h2) implies b.cerr_wf(h2) by {
                assert(a.cerr_live(h2) && h2 != self.id());
                assert(a.cerr_wf(h2));
                assert(a.cerr_ids(h2).disjoint(a.cerr_ids(self.id())));
                crate::wire::lemma_msg_seq_ids_in_dom(a.cerr_at(h2), m0);
                crate::wire::lemma_remove_keys_agrees(m0, rid, msg_seq_ids(a.cerr_at(h2), m0));
                crate::wire::lemma_msg_seq_frame(a.cerr_at(h2), m0, b.heap_view());
            }
            assert forall|h1: u64, h2: u64|
                b.res_live(h1) && b.res_live(h2) && h1 != h2 implies b.res_ids(h1).disjoint(
                b.res_ids(h2),
            ) by {
                assert(a.res_live(h1) && a.res_live(h2));
                assert(a.res_ids(h1).disjoint(a.res_ids(h2)));
                assert(a.res_ids(h1).disjoint(a.cerr_ids(self.id())));
                assert(a.res_ids(h2).disjoint(a.cerr_ids(self.id())));
                let r1 = a.res_at(h1);
                crate::wire::lemma_msg_seq_ids_in_dom(r1.errors@, m0);
                crate::wire::lemma_msg_seq_ids_in_dom(r1.warnings@, m0);
                crate::wire::lemma_out_seq_ids_in_dom(r1.outputs@, m0);
                crate::wire::lemma_remove_keys_agrees(m0, rid, msg_seq_ids(r1.errors@, m0));
                crate::wire::lemma_msg_seq_frame(r1.errors@, m0, b.heap_view());
                crate::wire::lemma_remove_keys_agrees(m0, rid, msg_seq_ids(r1.warnings@, m0));
                crate::wire::lemma_msg_seq_frame(r1.warnings@, m0, b.heap_view());
                let r2 = a.res_at(h2);
                crate::wire::lemma_msg_seq_ids_in_dom(r2.errors@, m0);
                crate::wire::lemma_msg_seq_ids_in_dom(r2.warnings@, m0);
                crate::wire::lemma_out_seq_ids_in_dom(r2.outputs@, m0);
                crate::wire::lemma_remove_keys_agrees(m0, rid, msg_seq_ids(r2.errors@, m0));
                crate::wire::lemma_msg_seq_frame(r2.errors@, m0, b.heap_view());
                crate::wire::lemma_remove_keys_agrees(m0, rid, msg_seq_ids(r2.warnings@, m0));
                crate::wire::lemma_msg_seq_frame(r2.warnings@, m0, b.heap_view());
            }
            assert forall|h1: u64, h2: u64|
                b.cerr_live(h1) && b.cerr_live(h2) && h1 != h2 implies b.cerr_ids(h1).disjoint(
                b.cerr_ids(h2),
            ) by {
                assert(a.cerr_live(h1) && a.cerr_live(h2));
                assert(a.cerr_ids(h1).disjoint(a.cerr_ids(h2)));
                assert(a.cerr_ids(h1).disjoint(a.cerr_ids(self.id())));
                assert(a.cerr_ids(h2).disjoint(a.cerr_ids(self.id())));
                crate::wire::lemma_msg_seq_ids_in_dom(a.cerr_at(h1), m0);
                crate::wire::lemma_remove_keys_agrees(m0, rid, msg_seq_ids(a.cerr_at(h1), m0));
                crate::wire::lemma_msg_seq_frame(a.cerr_at(h1), m0, b.heap_view());
                crate::wire::lemma_msg_seq_ids_in_dom(a.cerr_at(h2), m0);
                crate::wire::lemma_remove_keys_agrees(m0, rid, msg_seq_ids(a.cerr_at(h2), m0));
                crate::wire::lemma_msg_seq_frame(a.cerr_at(h2), m0, b.heap_view());
            }
            assert forall|h1: u64, h2: u64|
                b.res_live(h1) && b.cerr_live(h2) implies b.res_ids(h1).disjoint(
                b.cerr_ids(h2),
            ) by {
                assert(a.res_live(h1) && a.cerr_live(h2));
                assert(a.res_ids(h1).disjoint(a.cerr_ids(h2)));
                assert(a.res_ids(h1).disjoint(a.cerr_ids(self.id())));
                assert(a.cerr_ids(h2).disjoint(a.cerr_ids(self.id())));
                let r1 = a.res_at(h1);
                crate::wire::lemma_msg_seq_ids_in_dom(r1.errors@, m0);
                crate::wire::lemma_msg_seq_ids_in_dom(r1.warnings@, m0);
                crate::wire::lemma_out_seq_ids_in_dom(r1.outputs@, m0);
                crate::wire::lemma_remove_keys_agrees(m0, rid, msg_seq_ids(r1.errors@, m0));
                crate::wire::lemma_msg_seq_frame(r1.errors@, m0, b.heap_view());
                crate::wire::lemma_remove_keys_agrees(m0, rid, msg_seq_ids(r1.warnings@, m0));
                crate::wire::lemma_msg_seq_frame(r1.warnings@, m0, b.heap_view());
                crate::wire::lemma_msg_seq_ids_in_dom(a.cerr_at(h2), m0);
                crate::wire::lemma_remove_keys_agrees(m0, rid, msg_seq_ids(a.cerr_at(h2), m0));
                crate::wire::lemma_msg_seq_frame(a.cerr_at(h2), m0, b.heap_view());
            }
            assert forall|c: u64| #[trigger] b.cb_live(c) implies {
                &&& b.plugin_live(b.cb_at(c).plugin)
                &&& b.plugin_at(b.cb_at(c).plugin).hooks@.contains(c)
            } by {
                assert(a.cb_live(c));
            }
            assert forall|p: u64, i2: int|
                b.plugin_live(p) && 0 <= i2 < b.plugin_at(p).hooks@.len() implies {
                &&& b.cb_live(#[trigger] b.plugin_at(p).hooks@[i2])
                &&& b.cb_at(b.plugin_at(p).hooks@[i2]).plugin == p
            } by {
                assert(a.plugin_live(p));
                assert(a.cb_live(a.plugin_at(p).hooks@[i2]));
            }
            assert(b.wf());
        }
    }
}

} // verus!

verus! {

impl Context {
    /// Starts an asynchronous build: a fresh Pending bridge, and a job
    /// that holds its own reference on this context until it completes.
    /// The returned future consumes the bridge; the caller (standing in
    /// for the boundary's worker) drives the job and completes it.
    pub fn build_async(&self, e: &mut Engine) -> (r: crate::future::BuildFuture)
        requires
            old(e).wf(),
            old(e).ctx_live(self.id()),
            old(e).ctx_refs(self.id()) < u64::MAX as int,
        ensures
            final(e).wf(),
            same_core(*old(e), *final(e)),
            same_files(*old(e), *final(e)),
            same_options(*old(e), *final(e)),
            r.context_of() == Some(self.id()),
            !r.is_cancellable(),
            !old(e).bridge_live(r.bridge_id()),
            final(e).bridge_live(r.bridge_id()),
            r.bridge_id() as int == old(e).bridges_table().len(),
            final(e).bridges_table().len() == old(e).bridges_table().len() + 1,
            forall|i: int|
                0 <= i < old(e).bridges_table().len() ==> final(e).bridges_table()[i] == old(e).bridges_table()[i],
            !final(e).bridge_at(r.bridge_id()).completed,
            !final(e).bridge_at(r.bridge_id()).abandoned,
            final(e).bridge_at(r.bridge_id()).result is None,
            final(e).bridge_at(r.bridge_id()).waker is None,
            final(e).jobs_table().len() == old(e).jobs_table().len() + 1,
            forall|i: int|
                0 <= i < old(e).jobs_table().len() ==> final(e).jobs_table()[i] == old(e).jobs_table()[i],
            final(e).job_live((old(e).jobs_table().len()) as u64),
            final(e).job_at((old(e).jobs_table().len()) as u64).context == self.id(),
            final(e).job_at((old(e).jobs_table().len()) as u64).bridge == Some(r.bridge_id()),
            final(e).job_at((old(e).jobs_table().len()) as u64).hooks@ == hooks_concat(
                *old(e),
                old(e).ctx_at(self.id()).plugins@,
            ),
            final(e).job_at((old(e).jobs_table().len()) as u64).next == 0,
            final(e).job_at((old(e).jobs_table().len()) as u64).errors.deep_view() == Seq::<
                MessageView,
            >::empty(),
            final(e).job_at((old(e).jobs_table().len()) as u64).warnings.deep_view() == Seq::<
                MessageView,
            >::empty(),
            final(e).ctx_live(self.id()),
            final(e).ctx_refs(self.id()) == old(e).ctx_refs(self.id()) + 1,
            final(e).ctx_cancels(self.id()) == old(e).ctx_cancels(self.id()),
            final(e).ctx_at(self.id()).entries == old(e).ctx_at(self.id()).entries,
            final(e).ctx_at(self.id()).plugins@ == old(e).ctx_at(self.id()).plugins@,
            final(e).contexts_table().len() == old(e).contexts_table().len(),
            forall|i: int|
                0 <= i < old(e).contexts_table().len() && i != self.id()
                    ==> final(e).contexts_table()[i] == old(e).contexts_table()[i],
    {
        let h = self.handle();
        let _nc = e.contexts.len();
        let hooks = match &e.contexts[h as usize] {
            Some(st) => e.collect_hooks(&st.plugins),
            None => vstd::pervasive::unreached(),
        };
        let _held = self.clone_ref(e);
        let bh = e.bridges.len();
        e.bridges.push(Some(crate::future::BuildFutureState::new()));
        let jh = e.jobs.len();
        e.jobs.push(
            Some(
                JobState {
                    context: h,
                    bridge: Some(bh as u64),
                    hooks,
                    next: 0,
                    errors: Vec::new(),
                    warnings: Vec::new(),
                },
            ),
        );
        proof {
            Engine::lemma_wf_preserved(*old(e), *e);
            assert(e.job_at(jh as u64).errors.deep_view() =~= Seq::<MessageView>::empty());
            assert(e.job_at(jh as u64).warnings.deep_view() =~= Seq::<MessageView>::empty());
        }
        crate::future::BuildFuture::new(bh as u64, Some(h))
    }
}

impl crate::result::BuildJob {
    /// The one-shot completion of an asynchronous build: the result is
    /// built and delivered to the bridge, and the job's reference on the
    /// context is released. If the consumer still waits, its resumption
    /// token comes back. If the bridge was abandoned, or had somehow
    /// already completed, the late result is torn down on the spot and
    /// the arena is left exactly as it was.
    pub fn complete(self, e: &mut Engine) -> (waker: Option<u64>)
        requires
            old(e).wf(),
            old(e).job_live(self.id()),
            old(e).job_at(self.id()).bridge matches Some(bh) && old(e).bridge_live(bh),
            old(e).job_at(self.id()).next >= old(e).job_at(self.id()).hooks@.len(),
            old(e).ctx_live(old(e).job_at(self.id()).context),
            old(e).ctx_refs(old(e).job_at(self.id()).context) >= 1,
            old(e).heap_cap() + msg_seq_cost(old(e).job_at(self.id()).errors.deep_view())
                + msg_seq_cost(old(e).job_at(self.id()).warnings.deep_view()) + 8 * old(e).ctx_at(
                old(e).job_at(self.id()).context,
            ).entries.deep_view().len() <= usize::MAX as int,
        ensures
            final(e).wf(),
            same_files(*old(e), *final(e)),
            same_options(*old(e), *final(e)),
            final(e).plugins_table() == old(e).plugins_table(),
            final(e).callbacks_table() == old(e).callbacks_table(),
            final(e).cerrs_table() == old(e).cerrs_table(),
            !final(e).job_live(self.id()),
            forall|i: int|
                0 <= i < old(e).jobs_table().len() && i != self.id() ==> final(e).jobs_table()[i] == old(e).jobs_table()[i],
            old(e).ctx_refs(old(e).job_at(self.id()).context) > 1 ==> final(e).ctx_live(
                old(e).job_at(self.id()).context,
            ) && final(e).ctx_refs(old(e).job_at(self.id()).context) == old(e).ctx_refs(
                old(e).job_at(self.id()).context,
            ) - 1,
            old(e).ctx_refs(old(e).job_at(self.id()).context) == 1 ==> !final(e).ctx_live(
                old(e).job_at(self.id()).context,
            ),
            forall|i: int|
                0 <= i < old(e).bridges_table().len() && i != old(e).job_at(self.id()).bridge->0
                    ==> final(e).bridges_table()[i] == old(e).bridges_table()[i],
            final(e).bridges_table().len() == old(e).bridges_table().len(),
            ({
                let bh = old(e).job_at(self.id()).bridge->0;
                let b0 = old(e).bridge_at(bh);
                if !b0.completed && !b0.abandoned {
                    &&& final(e).bridge_live(bh)
                    &&& final(e).bridge_at(bh).completed
                    &&& !final(e).bridge_at(bh).abandoned
                    &&& final(e).bridge_at(bh).waker is None
                    &&& waker == b0.waker
                    &&& final(e).bridge_at(bh).result matches Some(br) && {
                        &&& br.handle as int == old(e).results_table().len()
                        &&& final(e).res_live(br.handle)
                        &&& final(e).res_errors_read(br.handle) == crate::wire::outbound_seq(
                            old(e).job_at(self.id()).errors.deep_view(),
                        ) + resolve_errors(
                            old(e).files_list(),
                            old(e).ctx_at(old(e).job_at(self.id()).context).entries.deep_view(),
                        )
                        &&& final(e).res_warnings_read(br.handle) == crate::wire::outbound_seq(
                            old(e).job_at(self.id()).warnings.deep_view(),
                        )
                        &&& final(e).res_outputs_read(br.handle) == (
                        if final(e).res_errors_read(br.handle).len() == 0 {
                            output_views(
                                old(e).ctx_at(
                                    old(e).job_at(self.id()).context,
                                ).entries.deep_view(),
                            )
                        } else {
                            Seq::<OutputFileView>::empty()
                        })
                    }
                } else {
                    &&& final(e).bridge_live(bh)
                    &&& final(e).bridge_at(bh) == b0
                    &&& waker is None
                    &&& final(e).heap_view() == old(e).heap_view()
                    &&& forall|h2: u64|
                        #[trigger] final(e).res_live(h2) <==> old(e).res_live(h2)
                    &&& forall|h2: u64|
                        #[trigger] old(e).res_live(h2) ==> final(e).res_at(h2) == old(e).res_at(
                            h2,
                        )
                }
            }),
    {
        let _nj = e.jobs.len();
        let i = self.handle() as usize;
        let st = table_take(&mut e.jobs, i);
        proof {
            Engine::lemma_wf_preserved(*old(e), *e);
        }
        let JobState { context, bridge, hooks: _, next: _, errors, warnings } = st;
        let bh = match bridge {
            Some(bh) => bh,
            None => vstd::pervasive::unreached(),
        };
        let r = finish_result(e, context, errors, warnings);
        let ghost e1 = *e;
        let _nb = e.bridges.len();
        let bi = bh as usize;
        let mut bst = table_take(&mut e.bridges, bi);
        if bst.abandoned {
            table_put(&mut e.bridges, bi, bst);
            proof {
                Engine::lemma_wf_preserved(e1, *e);
            }
            r.destroy(e);
            proof {
                crate::wire::lemma_grow_then_remove(
                    old(e).heap_view(),
                    e1.heap_view(),
                    e1.res_ids(r.handle),
                );
            }
            None
        } else {
            let wr = bst.set_and_wake(r);
            table_put(&mut e.bridges, bi, bst);
            proof {
                Engine::lemma_wf_preserved(e1, *e);
            }
            let (waker, rejected) = wr;
            match rejected {
                Some(rr) => {
                    rr.destroy(e);
                    proof {
                        crate::wire::lemma_grow_then_remove(
                            old(e).heap_view(),
                            e1.heap_view(),
                            e1.res_ids(rr.handle),
                        );
                    }
                    None
                }
                None => waker,
            }
        }
    }
}

impl crate::future::BuildFuture {
    /// One poll of this future: takes the stored result if the build has
    /// completed, else records the resumption token and stays pending.
    pub fn poll(&self, e: &mut Engine, waker: u64) -> (r: Option<BuildResult>)
        requires
            old(e).wf(),
            old(e).bridge_live(self.bridge_id()),
        ensures
            final(e).wf(),
            same_core(*old(e), *final(e)),
            same_files(*old(e), *final(e)),
            same_options(*old(e), *final(e)),
            same_contexts(*old(e), *final(e)),
            same_jobs(*old(e), *final(e)),
            final(e).bridges_table().len() == old(e).bridges_table().len(),
            forall|i: int|
                0 <= i < old(e).bridges_table().len() && i != self.bridge_id()
                    ==> final(e).bridges_table()[i] == old(e).bridges_table()[i],
            final(e).bridge_live(self.bridge_id()),
            old(e).bridge_at(self.bridge_id()).result is Some ==> {
                &&& r == old(e).bridge_at(self.bridge_id()).result
                &&& final(e).bridge_at(self.bridge_id()).result is None
                &&& final(e).bridge_at(self.bridge_id()).completed == old(e).bridge_at(
                    self.bridge_id(),
                ).completed
            },
            old(e).bridge_at(self.bridge_id()).result is None ==> {
                &&& r is None
                &&& final(e).bridge_at(self.bridge_id()).result is None
                &&& final(e).bridge_at(self.bridge_id()).waker == Some(waker)
                &&& final(e).bridge_at(self.bridge_id()).completed == old(e).bridge_at(
                    self.bridge_id(),
                ).completed
            },
    {
        let nb = e.bridges.len();
        let bi = self.bridge_id_exec() as usize;
        let mut bst = table_take(&mut e.bridges, bi);
        let r = bst.poll_take(waker);
        table_put(&mut e.bridges, bi, bst);
        proof {
            Engine::lemma_wf_preserved(*old(e), *e);
        }
        r
    }

    /// Discards this future before consuming its result. A cancellable
    /// future signals exactly one cancellation to its context; the
    /// bridge is marked abandoned, so a completion arriving later is
    /// torn down instead of dereferenced, and a result already stored is
    /// torn down here.
    pub fn dispose(self, e: &mut Engine)
        requires
            old(e).wf(),
            old(e).bridge_live(self.bridge_id()),
            old(e).bridge_at(self.bridge_id()).result matches Some(br) ==> old(e).res_live(
                br.handle,
            ),
            (self.is_cancellable() && self.context_of() is Some) ==> {
                &&& old(e).ctx_live(self.context_of()->0)
                &&& old(e).ctx_cancels(self.context_of()->0) < u64::MAX as int
            },
        ensures
            final(e).wf(),
            same_files(*old(e), *final(e)),
            same_options(*old(e), *final(e)),
            same_jobs(*old(e), *final(e)),
            final(e).plugins_table() == old(e).plugins_table(),
            final(e).callbacks_table() == old(e).callbacks_table(),
            final(e).cerrs_table() == old(e).cerrs_table(),
            final(e).bridge_live(self.bridge_id()),
            final(e).bridge_at(self.bridge_id()).abandoned,
            final(e).bridge_at(self.bridge_id()).result is None,
            (self.is_cancellable() && self.context_of() is Some) ==> final(e).ctx_cancels(
                self.context_of()->0,
            ) == old(e).ctx_cancels(self.context_of()->0) + 1,
            (!(self.is_cancellable() && self.context_of() is Some)) ==> same_contexts(
                *old(e),
                *final(e),
            ),
    {
        if self.cancellable_exec() {
            match self.context_exec() {
                Some(c) => {
                    let ctx = Context::from_handle(c);
                    ctx.cancel_all(e);
                }
                None => (),
            }
        }
        let ghost e1 = *e;
        let _nb = e.bridges.len();
        let bi = self.bridge_id_exec() as usize;
        let mut bst = table_take(&mut e.bridges, bi);
        let stored = bst.abandon();
        table_put(&mut e.bridges, bi, bst);
        proof {
            Engine::lemma_wf_preserved(e1, *e);
        }
        match stored {
            Some(r) => {
                r.destroy(e);
            }
            None => (),
        }
    }
}

} // verus!

verus! {

/// The display form of an error list: a single message stands alone;
/// several are numbered, one per line.
pub open spec fn numbered_display(msgs: Seq<MessageView>, from: int) -> Seq<char>
    decreases msgs.len() - from,
{
    if 0 <= from < msgs.len() {
        crate::error::dec_str((from + 1) as nat) + ". "@ + crate::error::message_display(
            msgs[from],
        ) + (if from != msgs.len() - 1 {
            seq!['\n']
        } else {
            Seq::empty()
        }) + numbered_display(msgs, from + 1)
    } else {
        Seq::empty()
    }
}

pub open spec fn error_list_display(msgs: Seq<MessageView>) -> Seq<char> {
    if msgs.len() == 1 {
        crate::error::message_display(msgs[0])
    } else {
        numbered_display(msgs, 0)
    }
}

impl ContextError {
    /// Renders this error aggregate in its display form.
    pub fn to_text(&self, e: &Engine) -> (r: String)
        requires
            e.wf(),
            e.cerr_live(self.id()),
            forall|i: int|
                0 <= i < e.cerr_at(self.id()).len() ==> ((#[trigger] e.cerr_at(
                    self.id(),
                )[i]).location matches Some(l) ==> !l.file.is_null()),
        ensures
            r@ == error_list_display(e.cerr_read(self.id())),
    {
        let msgs = self.messages(e);
        let ghost mv = e.cerr_read(self.id());
        if msgs.len() == 1 {
            let r = msgs[0].to_text(e.heap());
            proof {
                assert(r@ == error_list_display(mv));
            }
            r
        } else {
            let mut s = String::new();
            let total = msgs.len();
            let mut j: usize = 0;
            proof {
                reveal_strlit(". ");
                reveal_strlit("\n");
            }
            while j < total
                invariant
                    e.wf(),
                    e.cerr_live(self.id()),
                    mv == e.cerr_read(self.id()),
                    forall|i: int|
                        0 <= i < e.cerr_at(self.id()).len() ==> ((#[trigger] e.cerr_at(
                            self.id(),
                        )[i]).location matches Some(l) ==> !l.file.is_null()),
                    msgs@.len() == total,
                    total == mv.len(),
                    total != 1,
                    forall|i2: int| 0 <= i2 < total ==> {
                        &&& (#[trigger] msgs@[i2]).wire() == e.cerr_at(self.id())[i2]
                        &&& msgs@[i2].wire().wf(e.heap_view())
                        &&& msgs@[i2].wire().read(e.heap_view()) == mv[i2]
                    },
                    j <= total,
                    s@ + numbered_display(mv, j as int) == numbered_display(mv, 0),
                decreases total - j,
            {
                let ghost sj = s@;
                proof {
                    reveal_strlit(". ");
                    reveal_strlit("\n");
                }
                let num = crate::error::u64_dec(j as u64 + 1);
                s.append(num.as_str());
                s.append(". ");
                let t = msgs[j].to_text(e.heap());
                s.append(t.as_str());
                if j != total - 1 {
                    s.append("\n");
                }
                proof {
                    assert("\n"@ =~= seq!['\n']);
                    assert(s@ =~= sj + (crate::error::dec_str((j + 1) as nat) + ". "@
                        + crate::error::message_display(mv[j as int]) + (if j != total - 1 {
                        seq!['\n']
                    } else {
                        Seq::<char>::empty()
                    })));
                    assert(numbered_display(mv, j as int) == crate::error::dec_str((j + 1) as nat)
                        + ". "@ + crate::error::message_display(mv[j as int]) + (if j as int
                        != mv.len() - 1 {
                        seq!['\n']
                    } else {
                        Seq::<char>::empty()
                    }) + numbered_display(mv, j + 1));
                    assert(s@ + numbered_display(mv, j + 1) =~= numbered_display(mv, 0));
                }
                j = j + 1;
            }
            proof {
                assert(numbered_display(mv, total as int) =~= Seq::<char>::empty());
                assert(s@ =~= numbered_display(mv, 0));
            }
            s
        }
    }
}

} // verus!

verus! {

impl Engine {
    /// How many shared owners the context currently has.
    pub fn reference_count(&self, ctx: &Context) -> (n: u64)
        requires
            self.ctx_live(ctx.id()),
        ensures
            n as int == self.ctx_refs(ctx.id()),
    {
        let nc = self.contexts.len();
        match &self.contexts[ctx.handle() as usize] {
            Some(st) => st.refs,
            None => vstd::pervasive::unreached(),
        }
    }

    /// How many cancellation signals the context has received.
    pub fn cancel_signals(&self, ctx: &Context) -> (n: u64)
        requires
            self.ctx_live(ctx.id()),
        ensures
            n as int == self.ctx_cancels(ctx.id()),
    {
        let _nc = self.contexts.len();
        match &self.contexts[ctx.handle() as usize] {
            Some(st) => st.cancels,
            None => vstd::pervasive::unreached(),
        }
    }

    /// Whether the context behind this handle is still alive.
    pub fn context_alive(&self, ctx: &Context) -> (r: bool)
        ensures
            r == self.ctx_live(ctx.id()),
    {
        let n = self.contexts.len();
        let h = ctx.handle();
        if h < n as u64 {
            match &self.contexts[h as usize] {
                Some(_) => true,
                None => false,
            }
        } else {
            false
        }
    }
}

} // verus!

verus! {

impl BuildOptions {
    /// Destroys this options object exactly once; contexts already
    /// created from it carry their own snapshot and stay valid.
    pub fn destroy(self, e: &mut Engine)
        requires
            old(e).wf(),
            old(e).options_live(self.id()),
        ensures
            final(e).wf(),
            same_core(*old(e), *final(e)),
            same_files(*old(e), *final(e)),
            same_contexts(*old(e), *final(e)),
            same_bridges(*old(e), *final(e)),
            same_jobs(*old(e), *final(e)),
            !final(e).options_live(self.id()),
            final(e).options_table().len() == old(e).options_table().len(),
            forall|i: int|
                0 <= i < old(e).options_table().len() && i != self.id()
                    ==> final(e).options_table()[i] == old(e).options_table()[i],
    {
        let h = self.handle();
        let _n = e.options.len();
        let i = h as usize;
        let _ = table_take(&mut e.options, i);
        proof {
            Engine::lemma_wf_preserved(*old(e), *e);
        }
    }
}

} // verus!

verus! {

impl Engine {
    /// Whether a hook slot is still registered.
    pub fn hook_alive(&self, id: u64) -> (r: bool)
        ensures
            r == self.cb_live(id),
    {
        let n = self.callbacks.len();
        if id < n as u64 {
            match &self.callbacks[id as usize] {
                Some(_) => true,
                None => false,
            }
        } else {
            false
        }
    }
}

impl PluginDescriptor {
    /// Tears this descriptor down, on the boundary's signal: the plugin
    /// and every hook slot it owns are freed, exactly once. The
    /// caller-side state keyed by those hook addresses is released; a
    /// torn-down slot is never dispatched again.
    pub fn destroy(self, e: &mut Engine)
        requires
            old(e).wf(),
            old(e).plugin_live(self.id()),
        ensures
            final(e).wf(),
            same_files(*old(e), *final(e)),
            same_options(*old(e), *final(e)),
            same_contexts(*old(e), *final(e)),
            same_bridges(*old(e), *final(e)),
            same_jobs(*old(e), *final(e)),
            final(e).heap_view() == old(e).heap_view(),
            final(e).heap_cap() == old(e).heap_cap(),
            final(e).results_table() == old(e).results_table(),
            final(e).cerrs_table() == old(e).cerrs_table(),
            !final(e).plugin_live(self.id()),
            forall|q: u64|
                q != self.id() && #[trigger] old(e).plugin_live(q) ==> final(e).plugin_live(q)
                    && final(e).plugin_at(q) == old(e).plugin_at(q),
            forall|c: u64|
                #[trigger] final(e).cb_live(c) <==> (old(e).cb_live(c) && old(e).cb_at(c).plugin
                    != self.id()),
    {
        let h = self.handle();
        e.dispose_plugin(h);
    }
}

} // verus!
