use flame::{Context, Error, Recording, Registry};

#[test]
fn implicit_guarded_event() {
    let mut ctx = Context::new();
    flame::clear(&mut ctx);
    flame::start_guard(&mut ctx, "foo");
}

#[test]
fn named_guarded_event() {
    let mut ctx = Context::new();
    flame::clear(&mut ctx);
    let _name = flame::start_guard(&mut ctx, "foo");
}

#[test]
fn dropped_guarded_event() {
    let mut ctx = Context::new();
    flame::clear(&mut ctx);
    let name = flame::start_guard(&mut ctx, "foo");
    assert!(name.end(&mut ctx).is_ok());
    let spans = flame::spans(&ctx);
    assert_eq!(spans.len(), 1);
    assert_eq!(spans[0].name, "foo");
}

#[test]
fn multiple_guard_early_return() {
    let mut ctx = Context::new();
    flame::clear(&mut ctx);
    let _first = flame::start_guard(&mut ctx, "foo");
    let _second = flame::start_guard(&mut ctx, "bar");
}

#[test]
fn single_event() {
    let mut ctx = Context::new();
    flame::clear(&mut ctx);
    flame::start(&mut ctx, "event1");
    flame::end(&mut ctx, "event1").unwrap();

    let spans = flame::spans(&ctx);
    assert!(spans.len() == 1);
    assert!(spans[0].name == "event1");
}

#[test]
fn single_nested() {
    let mut ctx = Context::new();
    flame::clear(&mut ctx);
    flame::start(&mut ctx, "event1");
    flame::start(&mut ctx, "event2");
    flame::end(&mut ctx, "event2").unwrap();
    flame::end(&mut ctx, "event1").unwrap();

    let spans = flame::spans(&ctx);
    assert!(spans.len() == 1);
    assert!(spans[0].name == "event1");
    assert!(spans[0].depth == 0);

    let first = &spans[0];
    assert!(first.children.len() == 1);
    assert!(first.children[0].name == "event2");
    assert!(first.children[0].depth == 1);
}

#[test]
fn double_nested() {
    let mut ctx = Context::new();
    flame::clear(&mut ctx);
    flame::start(&mut ctx, "event1");
    flame::start(&mut ctx, "event2");
    flame::end(&mut ctx, "event2").unwrap();
    flame::start(&mut ctx, "event3");
    flame::end(&mut ctx, "event3").unwrap();
    flame::end(&mut ctx, "event1").unwrap();

    let spans = flame::spans(&ctx);
    assert!(spans.len() == 1);
    assert!(spans[0].name == "event1");
    assert!(spans[0].depth == 0);

    let first = &spans[0];
    assert!(first.children.len() == 2);
    assert!(first.children[0].name == "event2");
    assert!(first.children[1].name == "event3");
    assert!(first.children[0].depth == 1);
    assert!(first.children[1].depth == 1);
}

#[test]
fn threads() {
    let mut registry = Registry::new();
    let mut main = Context::new();
    flame::clear_all(&mut registry, &mut main);
    flame::start(&mut main, "main thread");

    for i in 0..10 {
        let mut worker = Context::new();
        if i % 2 == 0 {
            let s = format!("thread {}", i);
            flame::start(&mut worker, &s);
            flame::end(&mut worker, &s).unwrap();
        }
        flame::commit_as(&mut registry, &mut worker, 100 + i, None);
    }

    flame::end(&mut main, "main thread").unwrap();

    let threads = flame::threads(&registry, &main, Some("main".to_string()));
    assert_eq!(threads.len(), 11);
    let threads = threads.into_iter().filter(|t| {
        t.spans.len() == 1
            && (t.spans[0].name.starts_with("thread ")
                || t.spans[0].name.starts_with("main thread"))
    });

    assert_eq!(threads.count(), 6);
}

#[test]
#[should_panic]
fn wrong_name() {
    let mut ctx = Context::new();
    flame::clear(&mut ctx);
    flame::start(&mut ctx, "a");
    flame::end(&mut ctx, "b").unwrap();
}

#[test]
#[should_panic]
fn cant_note() {
    let mut ctx = Context::new();
    flame::clear(&mut ctx);
    flame::note(&mut ctx, "hi", None).unwrap();
}

#[test]
fn end_with() {
    fn _inner() -> u32 {
        let mut ctx = Context::new();
        flame::clear(&mut ctx);
        flame::start(&mut ctx, "w");
        flame::end_with(&mut ctx, "w", 1).unwrap()
    }
    assert_eq!(1, _inner());
}

#[test]
fn wrong_name_is_a_protocol_violation() {
    let mut ctx = Context::new();
    flame::start(&mut ctx, "a");
    assert_eq!(flame::end(&mut ctx, "b"), Err(Error::ProtocolViolation));
    assert_eq!(flame::end_collapse(&mut ctx, "b"), Err(Error::ProtocolViolation));
    assert_eq!(flame::end_with(&mut ctx, "b", 7), Err(Error::ProtocolViolation));
    // Nothing has changed: the span can still be closed under its own name.
    assert_eq!(ctx.current().open_count(), 1);
    assert!(flame::end(&mut ctx, "a").is_ok());
    assert_eq!(flame::spans(&ctx).len(), 1);
}

#[test]
fn nothing_open_is_a_protocol_violation() {
    let mut ctx = Context::new();
    assert_eq!(flame::end(&mut ctx, "a"), Err(Error::ProtocolViolation));
    assert_eq!(flame::end_collapse(&mut ctx, "a"), Err(Error::ProtocolViolation));
    assert_eq!(flame::note(&mut ctx, "hi", None), Err(Error::ProtocolViolation));
    let mut rec = Recording::new();
    assert_eq!(rec.end_at("a", 5, false), Err(Error::ProtocolViolation));
    assert_eq!(rec.note_at("hi", Some("there"), 5), Err(Error::ProtocolViolation));
    assert_eq!(rec.latest(), 0);
}

#[test]
fn exact_times_and_durations() {
    let mut rec = Recording::new();
    rec.start_at("outer", 10);
    rec.start_at("inner", 15);
    assert_eq!(rec.end_at("inner", 40, false), Ok(25));
    assert_eq!(rec.end_at("outer", 100, false), Ok(90));
    assert_eq!(rec.latest(), 100);

    let spans = rec.spans();
    assert_eq!(spans.len(), 1);
    let outer = &spans[0];
    assert_eq!(outer.name, "outer");
    assert_eq!((outer.start_ns, outer.end_ns, outer.delta, outer.depth), (10, 100, 90, 0));
    assert!(!outer.collapsable);
    assert_eq!(outer.children.len(), 1);
    let inner = &outer.children[0];
    assert_eq!(inner.name, "inner");
    assert_eq!((inner.start_ns, inner.end_ns, inner.delta, inner.depth), (15, 40, 25, 1));
    assert!(inner.children.is_empty());
}

#[test]
fn roots_come_in_call_order() {
    let mut rec = Recording::new();
    let names = ["a", "b", "c", "d"];
    let mut t = 0;
    for n in names {
        rec.start_at(n, t);
        rec.start_at("child", t + 1);
        rec.start_at("grandchild", t + 2);
        rec.end_at("grandchild", t + 3, false).unwrap();
        rec.end_at("child", t + 4, false).unwrap();
        rec.end_at(n, t + 5, false).unwrap();
        t += 10;
    }
    let spans = rec.spans();
    assert_eq!(spans.len(), 4);
    for (k, s) in spans.iter().enumerate() {
        assert_eq!(s.name, names[k]);
        assert_eq!(s.depth, 0);
        assert_eq!(s.children.len(), 1);
        assert_eq!(s.children[0].depth, 1);
        assert_eq!(s.children[0].children.len(), 1);
        assert_eq!(s.children[0].children[0].depth, 2);
        assert_eq!(s.children[0].children[0].name, "grandchild");
    }
}

#[test]
fn open_event_gives_no_span() {
    let mut rec = Recording::new();
    rec.start_at("done", 1);
    rec.end_at("done", 2, false).unwrap();
    rec.start_at("open root", 3);
    rec.start_at("closed child", 4);
    rec.end_at("closed child", 5, false).unwrap();
    rec.start_at("open child", 6);

    let spans = rec.spans();
    assert_eq!(spans.len(), 1);
    assert_eq!(spans[0].name, "done");

    // Once the open events are closed, their spans appear.
    rec.end_at("open child", 7, false).unwrap();
    assert_eq!(rec.spans().len(), 1);
    rec.end_at("open root", 8, false).unwrap();
    let spans = rec.spans();
    assert_eq!(spans.len(), 2);
    assert_eq!(spans[1].name, "open root");
    assert_eq!(spans[1].children.len(), 2);
    assert_eq!(spans[1].children[0].name, "closed child");
    assert_eq!(spans[1].children[1].name, "open child");
}

#[test]
fn collapsing_merges_adjacent_leaves() {
    let mut rec = Recording::new();
    rec.start_at("loop", 0);
    rec.start_at("item", 10);
    assert_eq!(rec.end_at("item", 14, true), Ok(4));
    rec.start_at("item", 20);
    assert_eq!(rec.end_at("item", 27, true), Ok(7));
    rec.start_at("item", 30);
    assert_eq!(rec.end_at("item", 31, true), Ok(1));
    rec.end_at("loop", 50, false).unwrap();

    let spans = rec.spans();
    assert_eq!(spans.len(), 1);
    let kids = &spans[0].children;
    assert_eq!(kids.len(), 1);
    assert_eq!(kids[0].name, "item");
    assert_eq!(kids[0].start_ns, 10);
    assert_eq!(kids[0].end_ns, 31);
    assert_eq!(kids[0].delta, 12);
    assert_eq!(kids[0].depth, 1);
}

#[test]
fn collapsing_needs_the_same_name() {
    let mut rec = Recording::new();
    rec.start_at("loop", 0);
    rec.start_at("item", 10);
    rec.end_at("item", 14, true).unwrap();
    rec.start_at("other", 20);
    rec.end_at("other", 27, true).unwrap();
    rec.start_at("item", 30);
    rec.end_at("item", 31, true).unwrap();
    rec.end_at("loop", 50, false).unwrap();

    let spans = rec.spans();
    let kids = &spans[0].children;
    assert_eq!(kids.len(), 3);
    assert_eq!(kids[0].name, "item");
    assert_eq!(kids[1].name, "other");
    assert_eq!(kids[2].name, "item");
    assert_eq!((kids[0].end_ns, kids[0].delta), (14, 4));
    assert_eq!((kids[2].end_ns, kids[2].delta), (31, 1));
}

#[test]
fn collapsing_needs_a_leaf_closed_as_collapsible() {
    let mut rec = Recording::new();
    rec.start_at("loop", 0);
    rec.start_at("item", 10);
    rec.end_at("item", 14, true).unwrap();
    // Same name, but closed with a plain end.
    rec.start_at("item", 20);
    rec.end_at("item", 27, false).unwrap();
    // Same name and collapsible, but not a leaf.
    rec.start_at("item", 30);
    rec.start_at("inside", 31);
    rec.end_at("inside", 32, false).unwrap();
    rec.end_at("item", 33, true).unwrap();
    rec.end_at("loop", 50, false).unwrap();

    let spans = rec.spans();
    let kids = &spans[0].children;
    assert_eq!(kids.len(), 3);
    assert_eq!(kids[2].children.len(), 1);
}

#[test]
fn roots_are_never_merged() {
    let mut rec = Recording::new();
    rec.start_at("item", 10);
    rec.end_at("item", 14, true).unwrap();
    rec.start_at("item", 20);
    rec.end_at("item", 27, true).unwrap();
    let spans = rec.spans();
    assert_eq!(spans.len(), 2);
    assert_eq!(spans[0].delta, 4);
    assert_eq!(spans[1].delta, 7);
}

#[test]
fn notes_go_to_the_innermost_open_span() {
    let mut rec = Recording::new();
    rec.start_at("outer", 0);
    rec.note_at("first", None, 1).unwrap();
    rec.start_at("inner", 2);
    rec.note_at("second", Some("with a description"), 3).unwrap();
    rec.end_at("inner", 4, false).unwrap();
    rec.note_at("third", None, 5).unwrap();
    rec.end_at("outer", 6, false).unwrap();

    let spans = rec.spans();
    let outer = &spans[0];
    assert_eq!(outer.notes.len(), 2);
    assert_eq!(outer.notes[0].name, "first");
    assert_eq!(outer.notes[0].description, None);
    assert_eq!(outer.notes[0].instant, 1);
    assert_eq!(outer.notes[1].name, "third");
    assert_eq!(outer.notes[1].instant, 5);
    let inner = &outer.children[0];
    assert_eq!(inner.notes.len(), 1);
    assert_eq!(inner.notes[0].name, "second");
    assert_eq!(inner.notes[0].description.as_deref(), Some("with a description"));
    assert_eq!(inner.notes[0].instant, 3);
}

#[test]
fn rebuilding_gives_the_same_trees() {
    let mut rec = Recording::new();
    rec.start_at("a", 0);
    rec.start_at("b", 1);
    rec.end_at("b", 2, true).unwrap();
    rec.start_at("b", 3);
    rec.end_at("b", 4, true).unwrap();
    rec.end_at("a", 5, false).unwrap();
    rec.start_at("c", 6);
    rec.end_at("c", 7, false).unwrap();
    let first = format!("{:?}", rec.spans());
    let second = format!("{:?}", rec.spans());
    assert_eq!(first, second);
}
