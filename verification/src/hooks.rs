//! Hook/callback registry for manager-level events.
//!
//! Callbacks are registered per event type and fired synchronously, in
//! registration order, when the event occurs.
use vstd::prelude::*;

verus! {

/// Types of hooks that can be registered.
#[derive(Clone, Copy, Debug, PartialEq, Eq, Hash, Structural)]
pub enum HookType {
    /// Fired immediately before variable reordering begins.
    PreReorder,
    /// Fired immediately after variable reordering completes.
    PostReorder,
    /// Fired immediately before garbage collection begins.
    PreGarbageCollect,
    /// Fired immediately after garbage collection completes.
    PostGarbageCollect,
}

/// The bucket number of a hook type.
pub open spec fn hook_slot(t: HookType) -> int {
    match t {
        HookType::PreReorder => 0,
        HookType::PostReorder => 1,
        HookType::PreGarbageCollect => 2,
        HookType::PostGarbageCollect => 3,
    }
}

impl HookType {
    /// The bucket number of this hook type.
    fn slot(self) -> (r: usize)
        ensures
            r == hook_slot(self),
    {
        match self {
            HookType::PreReorder => 0,
            HookType::PostReorder => 1,
            HookType::PreGarbageCollect => 2,
            HookType::PostGarbageCollect => 3,
        }
    }
}

/// Information passed to hook callbacks when a hook fires.
#[derive(Clone, Debug)]
pub struct HookInfo {
    /// Which hook event triggered the callback.
    pub hook_type: HookType,
    /// The number of nodes in the arena at the time of the event.
    pub num_nodes: usize,
    /// The number of variables at the time of the event.
    pub num_vars: u16,
}

/// A registry that stores hook callbacks of type `F` keyed by [`HookType`].
pub struct HookRegistry<F> {
    hooks: Vec<Vec<F>>,
}

impl<F> HookRegistry<F> {
    /// The callbacks registered for `t`, in registration order.
    pub closed spec fn callbacks(&self, t: HookType) -> Seq<F> {
        self.hooks@[hook_slot(t)]@
    }

    /// One bucket per hook type.
    pub closed spec fn wf(&self) -> bool {
        self.hooks@.len() == 4
    }

    /// Create an empty hook registry.
    pub fn new() -> (r: HookRegistry<F>)
        ensures
            r.wf(),
            forall|t: HookType| #[trigger] r.callbacks(t) == Seq::<F>::empty(),
    {
        let mut hooks: Vec<Vec<F>> = Vec::new();
        hooks.push(Vec::new());
        hooks.push(Vec::new());
        hooks.push(Vec::new());
        hooks.push(Vec::new());
        let r = HookRegistry { hooks };
        proof {
            assert forall|t: HookType| #[trigger] r.callbacks(t) == Seq::<F>::empty() by {
                assert(r.hooks@[hook_slot(t)]@ =~= Seq::<F>::empty());
            }
        }
        r
    }

    /// Register a callback for the given hook type, after those already there.
    pub fn register(&mut self, hook_type: HookType, callback: F)
        requires
            old(self).wf(),
        ensures
            final(self).wf(),
            final(self).callbacks(hook_type) == old(self).callbacks(hook_type).push(callback),
            forall|t: HookType| t != hook_type ==> #[trigger] final(self).callbacks(t) == old(self).callbacks(t),
    {
        let s = hook_type.slot();
        let mut bucket: Vec<F> = Vec::new();
        std::mem::swap(&mut bucket, &mut self.hooks[s]);
        bucket.push(callback);
        std::mem::swap(&mut bucket, &mut self.hooks[s]);
    }

    /// Remove all callbacks registered for the given hook type.
    pub fn unregister_all(&mut self, hook_type: HookType)
        requires
            old(self).wf(),
        ensures
            final(self).wf(),
            final(self).callbacks(hook_type) == Seq::<F>::empty(),
            forall|t: HookType| t != hook_type ==> #[trigger] final(self).callbacks(t) == old(self).callbacks(t),
    {
        let s = hook_type.slot();
        let mut bucket: Vec<F> = Vec::new();
        std::mem::swap(&mut bucket, &mut self.hooks[s]);
    }

    /// Whether any callback is registered for the given type.
    pub fn has_hooks(&self, hook_type: HookType) -> (r: bool)
        requires
            self.wf(),
        ensures
            r == (self.callbacks(hook_type).len() > 0),
    {
        self.hooks[hook_type.slot()].len() > 0
    }

    /// The number of callbacks registered for the given type.
    pub fn hook_count(&self, hook_type: HookType) -> (r: usize)
        requires
            self.wf(),
        ensures
            r == self.callbacks(hook_type).len(),
    {
        self.hooks[hook_type.slot()].len()
    }

    /// Remove all callbacks for every hook type.
    pub fn clear(&mut self)
        requires
            old(self).wf(),
        ensures
            final(self).wf(),
            forall|t: HookType| #[trigger] final(self).callbacks(t) == Seq::<F>::empty(),
    {
        let mut i: usize = 0;
        while i < 4
            invariant
                self.hooks@.len() == 4,
                i <= 4,
                forall|k: int| 0 <= k < i ==> (#[trigger] self.hooks@[k])@ == Seq::<F>::empty(),
            decreases 4 - i,
        {
            let mut bucket: Vec<F> = Vec::new();
            std::mem::swap(&mut bucket, &mut self.hooks[i]);
            i += 1;
        }
    }
}

impl<F: Fn(&HookInfo)> HookRegistry<F> {
    /// Fire all callbacks registered for `info.hook_type`, synchronously
    /// and in registration order; a no-op when there are none.
    pub fn fire(&self, info: &HookInfo)
        requires
            self.wf(),
            forall|i: int|
                0 <= i < self.callbacks(info.hook_type).len() ==> call_requires(
                    #[trigger] self.callbacks(info.hook_type)[i],
                    (info,),
                ),
    {
        let s = info.hook_type.slot();
        let callbacks = &self.hooks[s];
        assert forall|k: int| 0 <= k < callbacks@.len() implies call_requires(#[trigger] callbacks@[k], (info,)) by {
            assert(callbacks@[k] == self.callbacks(info.hook_type)[k]);
        }
        let mut i: usize = 0;
        while i < callbacks.len()
            invariant
                callbacks@ == self.callbacks(info.hook_type),
                i <= callbacks@.len(),
                forall|k: int|
                    0 <= k < callbacks@.len() ==> call_requires(#[trigger] callbacks@[k], (info,)),
            decreases callbacks@.len() - i,
        {
            let cb = &callbacks[i];
            cb(info);
            i += 1;
        }
    }
}

impl<F> Default for HookRegistry<F> {
    /// An empty registry.
    fn default() -> (r: HookRegistry<F>)
        ensures
            r.wf(),
            forall|t: HookType| #[trigger] r.callbacks(t) == Seq::<F>::empty(),
    {
        HookRegistry::new()
    }
}

/// A boxed hook callback.
pub type HookFn = Box<dyn Fn(&HookInfo) + Send>;

/// A call on a hook registry, as a history records it.
pub enum HookStep<F> {
    /// `register(hook_type, callback)`.
    Register(HookType, F),
    /// `unregister_all(hook_type)`.
    UnregisterAll(HookType),
    /// `clear()`.
    Clear,
}

/// The callbacks of type `t` after the calls `ss`, from none: what the
/// contracts of `register`, `unregister_all` and `clear` make of them.
pub open spec fn callbacks_after<F>(ss: Seq<HookStep<F>>, t: HookType) -> Seq<F>
    decreases ss.len(),
{
    if ss.len() == 0 {
        Seq::empty()
    } else {
        let c = callbacks_after(ss.drop_last(), t);
        match ss.last() {
            HookStep::Register(t2, cb) => if t2 == t {
                c.push(cb)
            } else {
                c
            },
            HookStep::UnregisterAll(t2) => if t2 == t {
                Seq::empty()
            } else {
                c
            },
            HookStep::Clear => Seq::empty(),
        }
    }
}

/// How many callbacks of type `t` were registered among `ss` after both the
/// last `clear` and the last `unregister_all(t)`.
pub open spec fn registered_since<F>(ss: Seq<HookStep<F>>, t: HookType) -> nat
    decreases ss.len(),
{
    if ss.len() == 0 {
        0
    } else {
        match ss.last() {
            HookStep::Register(t2, _) => registered_since(ss.drop_last(), t) + if t2 == t {
                1nat
            } else {
                0nat
            },
            HookStep::UnregisterAll(t2) => if t2 == t {
                0
            } else {
                registered_since(ss.drop_last(), t)
            },
            HookStep::Clear => 0,
        }
    }
}

/// From a new registry, the number of callbacks of a type after a history
/// of calls (what `hook_count` gives, and `has_hooks` tests against zero)
/// is the number registered since the last `clear` and the last
/// `unregister_all` of that type.
pub proof fn lemma_hook_count_history<F>(ss: Seq<HookStep<F>>, t: HookType)
    ensures
        callbacks_after(ss, t).len() == registered_since(ss, t),
    decreases ss.len(),
{
    if ss.len() > 0 {
        lemma_hook_count_history(ss.drop_last(), t);
    }
}

} // verus!
