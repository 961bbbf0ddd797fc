use flame::bounds::DumpContext;
use flame::clock::{no_earlier_than, to_timestamp};
use flame::{Frame, Recording, Span};

fn leaf(name: &str, start_ns: u64, end_ns: u64, depth: u16) -> Span {
    Span {
        name: name.to_string(),
        start_ns,
        end_ns,
        delta: end_ns - start_ns,
        depth,
        children: Vec::new(),
        notes: Vec::new(),
        collapsable: false,
    }
}

#[test]
fn no_frames_no_bounds() {
    assert!(DumpContext::new(&[]).is_none());
}

#[test]
fn empty_first_or_last_frame_no_bounds() {
    let full = || Frame { roots: vec![leaf("a", 1, 2, 0)] };
    let empty = || Frame { roots: Vec::new() };
    assert!(DumpContext::new(&[empty()]).is_none());
    assert!(DumpContext::new(&[empty(), full()]).is_none());
    assert!(DumpContext::new(&[full(), empty()]).is_none());
    assert!(DumpContext::new(&[full(), empty(), full()]).is_some());
}

#[test]
fn bounds_of_built_frames() {
    let mut first = Recording::new();
    first.start_at("a", 5);
    first.start_at("b", 6);
    first.start_at("c", 7);
    first.end_at("c", 8, false).unwrap();
    first.end_at("b", 9, false).unwrap();
    first.end_at("a", 10, false).unwrap();
    let mut second = Recording::new();
    second.start_at("d", 20);
    second.end_at("d", 30, false).unwrap();
    second.start_at("e", 31);
    second.start_at("f", 32);
    second.end_at("f", 33, false).unwrap();
    second.end_at("e", 47, false).unwrap();

    let frames = vec![Frame { roots: first.spans() }, Frame { roots: second.spans() }];
    let ctx = DumpContext::new(&frames).unwrap();
    assert_eq!(ctx.min_timestamp, 5);
    assert_eq!(ctx.max_timestamp, 47);
    assert_eq!(ctx.max_depth, 2);
    assert_eq!(ctx.id, 0);
}

#[test]
fn get_depth_raises_only() {
    let mut tree = leaf("root", 0, 10, 0);
    let mut mid = leaf("mid", 1, 9, 1);
    mid.children.push(leaf("low", 2, 3, 2));
    mid.children.push(leaf("low", 4, 5, 2));
    tree.children.push(leaf("side", 0, 1, 1));
    tree.children.push(mid);

    let mut max = 0;
    DumpContext::get_depth(&tree, &mut max);
    assert_eq!(max, 2);

    let mut max = 7;
    DumpContext::get_depth(&tree, &mut max);
    assert_eq!(max, 7);

    let mut max = 1;
    DumpContext::get_depth(&tree.children[0], &mut max);
    assert_eq!(max, 1);
}

#[test]
fn timestamps_saturate() {
    assert_eq!(to_timestamp(0), 0);
    assert_eq!(to_timestamp(1_500_000_000), 1_500_000_000);
    assert_eq!(to_timestamp(u64::MAX as u128), u64::MAX);
    assert_eq!(to_timestamp(u64::MAX as u128 + 1), u64::MAX);
    assert_eq!(to_timestamp(u128::MAX), u64::MAX);
}

#[test]
fn readings_never_go_back() {
    assert_eq!(no_earlier_than(10, 12), 12);
    assert_eq!(no_earlier_than(10, 10), 10);
    assert_eq!(no_earlier_than(10, 3), 10);
    assert_eq!(no_earlier_than(0, 0), 0);
}

#[test]
fn copies_are_deep() {
    let mut rec = Recording::new();
    rec.start_at("a", 1);
    rec.note_at("n", Some("d"), 2).unwrap();
    rec.start_at("b", 3);
    rec.end_at("b", 4, true).unwrap();
    rec.end_at("a", 5, false).unwrap();
    let spans = rec.spans();
    let copy = spans[0].clone();
    assert_eq!(format!("{:?}", copy), format!("{:?}", spans[0]));
    let frame = Frame { roots: spans };
    let again = frame.clone();
    assert_eq!(format!("{:?}", again), format!("{:?}", frame));
    let thread = flame::Thread { id: 3, name: Some("t".to_string()), spans: again.roots };
    assert_eq!(format!("{:?}", thread.clone()), format!("{:?}", thread));
}
