//! The lifecycle laws, exercised on concrete runs: reference counting
//! across in-flight builds, the single-fire completion bridge, empty
//! result views, cancellation on drop, and destroy-exactly-once paths.

use zsb::{
    BuildFutureState, BuildJob, BuildOptions, BuildResult, Context, ContextError, Engine,
    IntoPluginDescriptor, OnStartResult, Plugin, PluginBuilder,
};

pub struct HookedPlugin;

impl Plugin for HookedPlugin {
    fn name(&self) -> String {
        String::from("hooked")
    }

    fn build(&self, builder: &mut PluginBuilder) {
        builder.on_start();
        builder.on_start();
    }
}

fn simple_context(e: &mut Engine, entry: &str) -> Context {
    let options = BuildOptions::new(e).entry_point(e, entry, "out.js").bundle(e, true);
    Context::new(e, &options).unwrap()
}

#[test]
fn reference_counting_outlives_caller_release() {
    let mut e = Engine::new();
    e.add_file("test/main.js");
    let ctx = simple_context(&mut e, "test/main.js");
    // a probe owner, so liveness stays observable after the caller lets go
    let probe = ctx.clone_ref(&mut e);
    assert_eq!(e.reference_count(&probe), 2);
    let f1 = ctx.build_async(&mut e);
    let j1 = BuildJob::of(e.jobs_len() as u64 - 1);
    let f2 = ctx.build_async(&mut e);
    let j2 = BuildJob::of(e.jobs_len() as u64 - 1);
    assert_eq!(e.reference_count(&probe), 4);
    // the caller's own reference goes away before any build completes
    ctx.release(&mut e);
    assert_eq!(e.reference_count(&probe), 3);
    assert!(e.context_alive(&probe));
    let _ = j1.complete(&mut e);
    assert_eq!(e.reference_count(&probe), 2);
    assert!(e.context_alive(&probe));
    let _ = j2.complete(&mut e);
    assert_eq!(e.reference_count(&probe), 1);
    assert!(e.context_alive(&probe));
    let r1 = f1.poll(&mut e, 1).unwrap();
    let r2 = f2.poll(&mut e, 2).unwrap();
    assert!(!r1.is_error(&e));
    assert!(!r2.is_error(&e));
    r1.destroy(&mut e);
    r2.destroy(&mut e);
    // the last owner's release destroys the handle
    probe.release(&mut e);
}

#[test]
fn single_fire_bridge_drops_second_completion() {
    let mut st = BuildFutureState::new();
    assert!(!st.completed);
    let first = BuildResult { handle: 11 };
    let (waker, rejected) = st.set_and_wake(first);
    assert_eq!(waker, None);
    assert!(rejected.is_none());
    assert!(st.completed);
    // a second synthetic completion must not corrupt the stored result
    let second = BuildResult { handle: 99 };
    let (waker2, rejected2) = st.set_and_wake(second);
    assert_eq!(waker2, None);
    assert_eq!(rejected2.map(|r| r.handle), Some(99));
    assert_eq!(st.result.as_ref().map(|r| r.handle), Some(11));
    // consumption takes the stored result exactly once
    let taken = st.poll_take(5);
    assert_eq!(taken.map(|r| r.handle), Some(11));
    assert!(st.result.is_none());
}

#[test]
fn empty_result_reports_no_error() {
    let mut e = Engine::new();
    e.add_file("ok.js");
    let ctx = simple_context(&mut e, "ok.js");
    let res = ctx.build(&mut e);
    assert!(!res.is_error(&e));
    assert_eq!(res.errors(&e).len(), 0);
    assert_eq!(res.warnings(&e).len(), 0);
    let outs = res.outputs(&e);
    assert_eq!(outs.len(), 1);
    assert_eq!(outs[0].path(e.heap()), "out.js");
    assert_eq!(outs[0].contents(e.heap()), &[] as &[u8]);
    res.destroy(&mut e);
    ctx.release(&mut e);
}

#[test]
fn cancellation_fires_exactly_once_on_drop() {
    let mut e = Engine::new();
    e.add_file("test/main.js");
    let ctx = simple_context(&mut e, "test/main.js");
    let fut = ctx.build_async(&mut e).cancellable();
    let job = BuildJob::of(e.jobs_len() as u64 - 1);
    assert_eq!(e.cancel_signals(&ctx), 0);
    // dropping the cancellable future before completion signals once
    fut.dispose(&mut e);
    assert_eq!(e.cancel_signals(&ctx), 1);
    // a completion racing in after the drop is torn down, not dereferenced
    let waker = job.complete(&mut e);
    assert_eq!(waker, None);
    assert_eq!(e.cancel_signals(&ctx), 1);
    ctx.release(&mut e);
}

#[test]
fn plain_future_drop_does_not_cancel() {
    let mut e = Engine::new();
    e.add_file("test/main.js");
    let ctx = simple_context(&mut e, "test/main.js");
    let fut = ctx.build_async(&mut e);
    let job = BuildJob::of(e.jobs_len() as u64 - 1);
    fut.dispose(&mut e);
    assert_eq!(e.cancel_signals(&ctx), 0);
    let _ = job.complete(&mut e);
    ctx.release(&mut e);
}

#[test]
fn late_result_of_disposed_future_is_torn_down_after_storage() {
    let mut e = Engine::new();
    e.add_file("test/main.js");
    let ctx = simple_context(&mut e, "test/main.js");
    let fut = ctx.build_async(&mut e).cancellable();
    let job = BuildJob::of(e.jobs_len() as u64 - 1);
    // completion arrives first; the result sits in the bridge
    let _ = job.complete(&mut e);
    // the drop then takes the stored result down the teardown path
    fut.dispose(&mut e);
    assert_eq!(e.cancel_signals(&ctx), 1);
    ctx.release(&mut e);
}

#[test]
fn invalid_entry_point_yields_context_error() {
    let mut e = Engine::new();
    let options = BuildOptions::new(&mut e).entry_point(&mut e, "", "out.js").bundle(&mut e, true);
    let err: ContextError = match Context::new(&mut e, &options) {
        Ok(_) => panic!("creation must fail on an empty input path"),
        Err(err) => err,
    };
    let messages = err.messages(&e);
    assert_eq!(messages.len(), 1);
    assert_eq!(messages[0].text(e.heap()), "Invalid entry point");
    assert_eq!(err.to_text(&e), "Invalid entry point");
    err.destroy(&mut e);
}

#[test]
fn cancel_all_is_safe_to_repeat() {
    let mut e = Engine::new();
    e.add_file("a.js");
    let ctx = simple_context(&mut e, "a.js");
    ctx.cancel_all(&mut e);
    ctx.cancel_all(&mut e);
    assert_eq!(e.cancel_signals(&ctx), 2);
    assert!(e.context_alive(&ctx));
    ctx.release(&mut e);
}

#[test]
fn plugin_teardown_frees_its_hook_slots() {
    let mut e = Engine::new();
    e.add_file("in.js");
    let descriptor = HookedPlugin.into_descriptor(&mut e);
    let options = BuildOptions::new(&mut e)
        .entry_point(&mut e, "in.js", "out.js")
        .plugin(&mut e, &descriptor);
    let ctx = Context::new(&mut e, &options).unwrap();
    let job = ctx.build_begin(&mut e);
    let mut hooks: Vec<u64> = Vec::new();
    while let Some(hook) = job.next_hook(&e) {
        hooks.push(hook);
        job.deliver(&mut e, OnStartResult::ok());
    }
    assert_eq!(hooks.len(), 2);
    let res = job.finish(&mut e);
    assert!(!res.is_error(&e));
    assert!(e.hook_alive(hooks[0]));
    assert!(e.hook_alive(hooks[1]));
    // the boundary signals the descriptor's teardown once
    descriptor.destroy(&mut e);
    assert!(!e.hook_alive(hooks[0]));
    assert!(!e.hook_alive(hooks[1]));
}
