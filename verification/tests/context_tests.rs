use reactive_core::context::ContextTree;
use reactive_core::runtime::DrainStep;
use reactive_core::runtime::Runtime;

const COUNT_KEY: u64 = 1;

#[test]
fn lookup_unprovided_key_fails() {
    let mut tree = ContextTree::new();
    let root = tree.create_scope(None);
    let child = tree.create_scope(Some(root));
    assert_eq!(tree.lookup(root, COUNT_KEY), None);
    assert_eq!(tree.lookup(child, COUNT_KEY), None);
    // Deterministic: asking again gives the same answer.
    assert_eq!(tree.lookup(child, COUNT_KEY), None);
}

#[test]
fn lookup_returns_nearest_provider() {
    let mut tree = ContextTree::new();
    let root = tree.create_scope(None);
    let child = tree.create_scope(Some(root));
    let grandchild = tree.create_scope(Some(child));
    let sibling = tree.create_scope(Some(root));
    tree.provide(root, COUNT_KEY, 10);
    tree.provide(child, COUNT_KEY, 20);
    assert_eq!(tree.lookup(grandchild, COUNT_KEY), Some(20));
    assert_eq!(tree.lookup(child, COUNT_KEY), Some(20));
    assert_eq!(tree.lookup(root, COUNT_KEY), Some(10));
    assert_eq!(tree.lookup(sibling, COUNT_KEY), Some(10));
}

#[test]
fn provide_latest_value_wins() {
    let mut tree = ContextTree::new();
    let root = tree.create_scope(None);
    let child = tree.create_scope(Some(root));
    tree.provide(root, COUNT_KEY, 1);
    tree.provide(root, COUNT_KEY, 2);
    assert_eq!(tree.lookup(child, COUNT_KEY), Some(2));
}

#[test]
fn shared_signal_through_context() {
    // A provider scope shares a counter signal through context; one
    // descendant increments it twice in one turn; a sibling descendant
    // that also reads the counter is re-evaluated once and sees 2.
    let mut rt = Runtime::new(8);
    let mut tree = ContextTree::new();
    let provider = tree.create_scope(None);
    let incrementer = tree.create_scope(Some(provider));
    let display = tree.create_scope(Some(provider));

    let count = rt.create_signal(0);
    tree.provide(provider, COUNT_KEY, count as u64);

    let inc_consumer = rt.create_consumer();
    let show_consumer = rt.create_consumer();

    // Both descendants find the same signal through context and read it.
    let s_inc = tree.lookup(incrementer, COUNT_KEY).expect("provided") as usize;
    let s_show = tree.lookup(display, COUNT_KEY).expect("provided") as usize;
    assert_eq!(s_inc, count);
    assert_eq!(s_show, count);
    assert_eq!(rt.read(s_inc, inc_consumer), 0);
    assert_eq!(rt.read(s_show, show_consumer), 0);

    // An event handler on the incrementing descendant bumps the counter
    // twice within one turn.
    let v = rt.peek(s_inc);
    rt.write(s_inc, v + 1);
    let v = rt.peek(s_inc);
    rt.write(s_inc, v + 1);

    let mut show_evals = 0;
    let mut shown = -1;
    loop {
        match rt.next_dirty() {
            DrainStep::Evaluate(who) => {
                if who == show_consumer {
                    show_evals += 1;
                    shown = rt.read(s_show, who);
                } else {
                    rt.read(s_inc, who);
                }
            }
            DrainStep::Done => break,
            DrainStep::RenderLoop => panic!("unexpected render loop"),
        }
    }
    assert_eq!(show_evals, 1);
    assert_eq!(shown, 2);
}
