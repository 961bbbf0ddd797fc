use flame::{Context, Registry};

#[test]
fn clock_never_runs_backwards() {
    let mut ctx = Context::new();
    flame::start(&mut ctx, "a");
    flame::start(&mut ctx, "b");
    let b = flame::end(&mut ctx, "b").unwrap();
    let a = flame::end(&mut ctx, "a").unwrap();
    assert!(b <= a);
    let spans = flame::spans(&ctx);
    let outer = &spans[0];
    let inner = &outer.children[0];
    assert!(outer.start_ns <= inner.start_ns);
    assert!(inner.start_ns <= inner.end_ns);
    assert!(inner.end_ns <= outer.end_ns);
    assert_eq!(outer.delta, outer.end_ns - outer.start_ns);
    assert_eq!(inner.delta, b);
    assert_eq!(outer.delta, a);
}

#[test]
fn clock_moves() {
    let mut ctx = Context::new();
    flame::start(&mut ctx, "a");
    let mut waited = 0u64;
    while ctx.current().latest() == 0 && waited < 10_000_000 {
        flame::note(&mut ctx, "tick", None).unwrap();
        waited += 1;
    }
    assert!(ctx.current().latest() > 0);
}

#[test]
fn span_of_returns_the_result() {
    let mut ctx = Context::new();
    let r = flame::span_of(&mut ctx, "work", || 6 * 7);
    assert_eq!(r, 42);
    let spans = flame::spans(&ctx);
    assert_eq!(spans.len(), 1);
    assert_eq!(spans[0].name, "work");
    assert!(spans[0].children.is_empty());
    assert_eq!(ctx.current().open_count(), 0);
}

#[test]
fn guard_closes_collapsible() {
    let mut ctx = Context::new();
    flame::start(&mut ctx, "loop");
    for _ in 0..3 {
        let g = flame::start_guard(&mut ctx, "item");
        g.end_collapse(&mut ctx).unwrap();
    }
    flame::end(&mut ctx, "loop").unwrap();
    let spans = flame::spans(&ctx);
    assert_eq!(spans[0].children.len(), 1);
    assert!(spans[0].children[0].collapsable);
}

#[test]
fn guard_closed_out_of_order_is_refused() {
    let mut ctx = Context::new();
    let outer = flame::start_guard(&mut ctx, "outer");
    let inner = flame::start_guard(&mut ctx, "inner");
    assert!(outer.end(&mut ctx).is_err());
    assert!(inner.end(&mut ctx).is_ok());
}

#[test]
fn clear_forgets_everything() {
    let mut ctx = Context::new();
    flame::start(&mut ctx, "a");
    flame::end(&mut ctx, "a").unwrap();
    flame::next_frame(&mut ctx);
    flame::start(&mut ctx, "b");
    flame::clear(&mut ctx);
    assert!(flame::spans(&ctx).is_empty());
    assert!(flame::frames(&ctx).is_empty());
    assert_eq!(ctx.current().open_count(), 0);
    assert!(ctx.has_room());
}

#[test]
fn frames_keep_their_order() {
    let mut ctx = Context::new();
    for name in ["one", "two", "three"] {
        flame::start(&mut ctx, name);
        flame::end(&mut ctx, name).unwrap();
        flame::next_frame(&mut ctx);
        assert!(flame::spans(&ctx).is_empty());
    }
    let frames = flame::frames(&ctx);
    assert_eq!(frames.len(), 3);
    assert_eq!(frames[0].roots[0].name, "one");
    assert_eq!(frames[1].roots[0].name, "two");
    assert_eq!(frames[2].roots[0].name, "three");
}

#[test]
fn ten_committed_threads() {
    let mut registry = Registry::new();
    for i in 0..10usize {
        let mut worker = Context::new();
        let name = format!("span {}", i);
        flame::start(&mut worker, &name);
        flame::end(&mut worker, &name).unwrap();
        flame::commit_as(&mut registry, &mut worker, i, Some(format!("worker {}", i)));
        assert!(flame::spans(&worker).is_empty());
    }
    assert_eq!(registry.len(), 10);
    let own = Context::new();
    let threads = flame::threads_as(&registry, &own, 99, None);
    assert_eq!(threads.len(), 11);
    assert_eq!(threads[0].id, 99);
    assert_eq!(threads[0].name, None);
    assert!(threads[0].spans.is_empty());
    for i in 0..10usize {
        let t = &threads[i + 1];
        assert_eq!(t.id, i);
        assert_eq!(t.name, Some(format!("worker {}", i)));
        assert_eq!(t.spans.len(), 1);
        assert_eq!(t.spans[0].name, format!("span {}", i));
    }
}

#[test]
fn commit_current_thread_uses_one_identity() {
    let mut registry = Registry::new();
    let mut ctx = Context::new();
    flame::start(&mut ctx, "a");
    flame::end(&mut ctx, "a").unwrap();
    flame::commit_current_thread(&mut registry, &mut ctx, Some("me".to_string()));
    flame::start(&mut ctx, "b");
    flame::end(&mut ctx, "b").unwrap();
    let threads = flame::threads(&registry, &ctx, None);
    assert_eq!(threads.len(), 2);
    assert_eq!(threads[0].spans[0].name, "b");
    assert_eq!(threads[1].spans[0].name, "a");
    assert_eq!(threads[1].name.as_deref(), Some("me"));
    // Both were taken on this thread.
    assert_eq!(threads[0].id, threads[1].id);

    flame::clear_all(&mut registry, &mut ctx);
    assert_eq!(registry.len(), 0);
    assert_eq!(flame::threads(&registry, &ctx, None).len(), 1);
}
