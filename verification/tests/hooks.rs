use lumindd::hooks::{HookFn, HookInfo, HookRegistry, HookType};
use std::sync::atomic::{AtomicUsize, Ordering};
use std::sync::Arc;

#[test]
fn register_and_fire() {
    let counter = Arc::new(AtomicUsize::new(0));
    let c = counter.clone();

    let mut reg: HookRegistry<HookFn> = HookRegistry::new();
    reg.register(
        HookType::PreReorder,
        Box::new(move |_info| {
            c.fetch_add(1, Ordering::Relaxed);
        }),
    );

    let info = HookInfo {
        hook_type: HookType::PreReorder,
        num_nodes: 100,
        num_vars: 4,
    };
    reg.fire(&info);
    reg.fire(&info);

    assert_eq!(counter.load(Ordering::Relaxed), 2);
}

#[test]
fn fire_wrong_type_is_noop() {
    let counter = Arc::new(AtomicUsize::new(0));
    let c = counter.clone();

    let mut reg: HookRegistry<HookFn> = HookRegistry::new();
    reg.register(
        HookType::PreReorder,
        Box::new(move |_| {
            c.fetch_add(1, Ordering::Relaxed);
        }),
    );

    let info = HookInfo {
        hook_type: HookType::PostReorder,
        num_nodes: 0,
        num_vars: 0,
    };
    reg.fire(&info);

    assert_eq!(counter.load(Ordering::Relaxed), 0);
}

#[test]
fn unregister_all() {
    let mut reg: HookRegistry<HookFn> = HookRegistry::new();
    reg.register(HookType::PreGarbageCollect, Box::new(|_| {}));
    reg.register(HookType::PreGarbageCollect, Box::new(|_| {}));
    assert_eq!(reg.hook_count(HookType::PreGarbageCollect), 2);

    reg.unregister_all(HookType::PreGarbageCollect);
    assert_eq!(reg.hook_count(HookType::PreGarbageCollect), 0);
    assert!(!reg.has_hooks(HookType::PreGarbageCollect));
}

#[test]
fn multiple_hooks_fire_in_order() {
    let log = Arc::new(std::sync::Mutex::new(Vec::new()));

    let mut reg: HookRegistry<HookFn> = HookRegistry::new();
    let l1 = log.clone();
    reg.register(
        HookType::PostGarbageCollect,
        Box::new(move |_| l1.lock().unwrap().push(1)),
    );
    let l2 = log.clone();
    reg.register(
        HookType::PostGarbageCollect,
        Box::new(move |_| l2.lock().unwrap().push(2)),
    );
    let l3 = log.clone();
    reg.register(
        HookType::PostGarbageCollect,
        Box::new(move |_| l3.lock().unwrap().push(3)),
    );

    let info = HookInfo {
        hook_type: HookType::PostGarbageCollect,
        num_nodes: 50,
        num_vars: 2,
    };
    reg.fire(&info);

    assert_eq!(*log.lock().unwrap(), vec![1, 2, 3]);
}

#[test]
fn clear_removes_all() {
    let mut reg: HookRegistry<HookFn> = HookRegistry::new();
    reg.register(HookType::PreReorder, Box::new(|_| {}));
    reg.register(HookType::PostReorder, Box::new(|_| {}));
    reg.register(HookType::PreGarbageCollect, Box::new(|_| {}));
    reg.clear();
    assert!(!reg.has_hooks(HookType::PreReorder));
    assert!(!reg.has_hooks(HookType::PostReorder));
    assert!(!reg.has_hooks(HookType::PreGarbageCollect));
}

#[test]
fn hooks_other_types_untouched() {
    let mut reg: HookRegistry<HookFn> = HookRegistry::default();
    reg.register(HookType::PreReorder, Box::new(|_| {}));
    reg.register(HookType::PostReorder, Box::new(|_| {}));
    reg.unregister_all(HookType::PreReorder);
    assert_eq!(reg.hook_count(HookType::PreReorder), 0);
    assert_eq!(reg.hook_count(HookType::PostReorder), 1);
    assert!(reg.has_hooks(HookType::PostReorder));
}

#[test]
fn hooks_receive_info() {
    let seen = Arc::new(AtomicUsize::new(0));
    let s = seen.clone();
    let mut reg: HookRegistry<HookFn> = HookRegistry::new();
    reg.register(
        HookType::PostGarbageCollect,
        Box::new(move |info: &HookInfo| {
            s.store(info.num_nodes + info.num_vars as usize, Ordering::Relaxed);
        }),
    );
    reg.fire(&HookInfo {
        hook_type: HookType::PostGarbageCollect,
        num_nodes: 40,
        num_vars: 2,
    });
    assert_eq!(seen.load(Ordering::Relaxed), 42);
}
