//! End-to-end scenarios through the engine: the caller builds options,
//! creates a context, and drives builds, standing in for the boundary's
//! worker thread where hooks and completions are involved.

use std::sync::Arc;

use zsb::{
    BuildJob, BuildOptions, Context, Engine, IntoPluginDescriptor, MessageBuilder, NoteBuilder,
    OnStartResult, Plugin, PluginBuilder,
};

pub struct TestPlugin {
    pub the_number: Arc<usize>,
}

impl TestPlugin {
    pub fn new(the_number: usize) -> Self {
        Self { the_number: Arc::new(the_number) }
    }
}

impl Plugin for TestPlugin {
    fn name(&self) -> String {
        String::from("test")
    }

    fn build(&self, builder: &mut PluginBuilder) {
        builder.on_start();
    }
}

fn drive_hooks(job: &BuildJob, e: &mut Engine, the_number: usize) {
    while let Some(_hook) = job.next_hook(e) {
        let res = if the_number != 42 {
            OnStartResult::error(MessageBuilder::new("test error").with_note(NoteBuilder::new(
                "test note",
            )))
        } else {
            OnStartResult::ok()
        };
        job.deliver(e, res);
    }
}

#[test]
fn test() {
    let mut e = Engine::new();
    e.add_file("test/main.js");
    let plugin = TestPlugin::new(42);
    let number = *plugin.the_number;
    let descriptor = plugin.into_descriptor(&mut e);
    let options = BuildOptions::new(&mut e)
        .entry_point(&mut e, "test/main.js", "out.js")
        .plugin(&mut e, &descriptor)
        .bundle(&mut e, true);
    let ctx = match Context::new(&mut e, &options) {
        Ok(ctx) => ctx,
        Err(_) => panic!("error creating context"),
    };
    let job = ctx.build_begin(&mut e);
    drive_hooks(&job, &mut e, number);
    let res = job.finish(&mut e);
    if res.is_error(&e) {
        panic!("{}", res.errors(&e)[0].to_text(e.heap()));
    }
}

#[test]
fn test_plugin_on_start_error() {
    let mut e = Engine::new();
    e.add_file("test/main.js");
    let plugin = TestPlugin::new(7216);
    let number = *plugin.the_number;
    let descriptor = plugin.into_descriptor(&mut e);
    let options = BuildOptions::new(&mut e)
        .entry_point(&mut e, "test/main.js", "out.js")
        .plugin(&mut e, &descriptor)
        .bundle(&mut e, true);
    let ctx = match Context::new(&mut e, &options) {
        Ok(ctx) => ctx,
        Err(_) => panic!("error creating context"),
    };
    let job = ctx.build_begin(&mut e);
    drive_hooks(&job, &mut e, number);
    let res = job.finish(&mut e);
    assert!(res.is_error(&e));
    let errors = res.errors(&e);
    assert_eq!(errors[0].text(e.heap()), "test error");
    let notes = errors[0].notes(e.heap());
    assert_eq!(notes[0].text(e.heap()), "test note");
}

#[test]
fn test_bad() {
    let mut e = Engine::new();
    e.add_file("test/main.js");
    let options = BuildOptions::new(&mut e)
        .entry_point(&mut e, "test/not_exist.js", "out.js")
        .bundle(&mut e, true);
    let context = Context::new(&mut e, &options).unwrap();

    let res = context.build(&mut e);
    assert!(res.is_error(&e));
    let errors = res.errors(&e);
    assert_eq!(errors.len(), 1);
    assert_eq!(errors[0].text(e.heap()), "Could not resolve \"test/not_exist.js\"");
}

#[test]
fn test_async() {
    let mut e = Engine::new();
    e.add_file("test/main.js");
    let plugin = TestPlugin::new(42);
    let number = *plugin.the_number;
    let descriptor = plugin.into_descriptor(&mut e);
    let options = BuildOptions::new(&mut e)
        .entry_point(&mut e, "test/main.js", "out.js")
        .plugin(&mut e, &descriptor)
        .bundle(&mut e, true);
    let ctx = match Context::new(&mut e, &options) {
        Ok(ctx) => ctx,
        Err(_) => panic!("error creating context"),
    };
    let fut = ctx.build_async(&mut e);
    let job = BuildJob::of(e.jobs_len() as u64 - 1);
    // a first poll before completion suspends the consumer
    assert!(fut.poll(&mut e, 7).is_none());
    drive_hooks(&job, &mut e, number);
    // completing the build wakes the suspended consumer
    let waker = job.complete(&mut e);
    assert_eq!(waker, Some(7));
    let res = fut.poll(&mut e, 7).expect("completed build must yield its result");
    if res.is_error(&e) {
        panic!("{}", res.errors(&e)[0].to_text(e.heap()));
    }
}

pub struct WarningPlugin;

impl Plugin for WarningPlugin {
    fn name(&self) -> String {
        String::from("warn")
    }

    fn build(&self, builder: &mut PluginBuilder) {
        builder.on_start();
    }
}

#[test]
fn hook_warnings_reach_the_result() {
    let mut e = Engine::new();
    e.add_file("test/main.js");
    let descriptor = WarningPlugin.into_descriptor(&mut e);
    let options = BuildOptions::new(&mut e)
        .entry_point(&mut e, "test/main.js", "out.js")
        .plugin(&mut e, &descriptor)
        .bundle(&mut e, true);
    let ctx = Context::new(&mut e, &options).unwrap();
    let job = ctx.build_begin(&mut e);
    while let Some(_hook) = job.next_hook(&e) {
        job.deliver(&mut e, OnStartResult::ok().with_warning(MessageBuilder::new("heads up")));
    }
    let res = job.finish(&mut e);
    assert!(!res.is_error(&e));
    let warnings = res.warnings(&e);
    assert_eq!(warnings.len(), 1);
    assert_eq!(warnings[0].text(e.heap()), "heads up");
    assert_eq!(res.outputs(&e).len(), 1);
}

#[test]
fn two_plugins_dispatch_in_registration_order() {
    let mut e = Engine::new();
    e.add_file("test/main.js");
    let first = TestPlugin::new(1).into_descriptor(&mut e);
    let second = TestPlugin::new(2).into_descriptor(&mut e);
    let options = BuildOptions::new(&mut e)
        .entry_point(&mut e, "test/main.js", "out.js")
        .plugin(&mut e, &first)
        .plugin(&mut e, &second)
        .bundle(&mut e, true);
    let ctx = Context::new(&mut e, &options).unwrap();
    let job = ctx.build_begin(&mut e);
    let mut calls: usize = 0;
    while let Some(_hook) = job.next_hook(&e) {
        calls += 1;
        let text = format!("error {}", calls);
        job.deliver(&mut e, OnStartResult::error(MessageBuilder::new(text.as_str())));
    }
    assert_eq!(calls, 2);
    let res = job.finish(&mut e);
    let errors = res.errors(&e);
    assert_eq!(errors.len(), 2);
    assert_eq!(errors[0].text(e.heap()), "error 1");
    assert_eq!(errors[1].text(e.heap()), "error 2");
}
