use vstd::prelude::*;
use std::collections::HashMap;
use crate::id_map::{ids_below, call_all, law_fresh_insert_then_remove};
use crate::state::{StateAccessor, IdCounter, id_effect};

verus! {

broadcast use vstd::std_specs::hash::group_hash_axioms;

/// What `key` stands for in `contexts`: the value in the innermost (last)
/// context that has one.
pub open spec fn lookup<V>(contexts: Seq<Map<usize, V>>, key: usize) -> Option<V>
    decreases contexts.len(),
{
    if contexts.len() == 0 {
        None
    } else {
        let top = contexts.last();
        if top.contains_key(key) {
            Some(top[key])
        } else {
            lookup(contexts.drop_last(), key)
        }
    }
}

/// A value inserted into the innermost context is the one found under its
/// key, whatever the outer contexts hold.
pub proof fn law_inner_context_shadows<V>(contexts: Seq<Map<usize, V>>, ctx: Map<usize, V>, key: usize, value: V)
    ensures
        lookup(contexts.push(ctx.insert(key, value)), key) == Some(value),
{
    let all = contexts.push(ctx.insert(key, value));
    assert(all.last() == ctx.insert(key, value));
}

/// A key that the innermost context lacks is looked up in the outer ones.
pub proof fn law_outer_context_visible<V>(contexts: Seq<Map<usize, V>>, ctx: Map<usize, V>, key: usize)
    requires
        !ctx.contains_key(key),
    ensures
        lookup(contexts.push(ctx), key) == lookup(contexts, key),
{
    assert(contexts.push(ctx).drop_last() =~= contexts);
}

/// The app data in effect: a stack of contexts, each mapping type keys to
/// values. Inner contexts shadow outer ones.
pub struct AppDataStack<V> {
    stack: Vec<HashMap<usize, V>>,
}

/// A context being put together, to be put in effect by `with_data`.
pub struct AppDataBuilder<V> {
    ctx: HashMap<usize, V>,
}

/// An empty context to fill with `insert`.
pub fn appdata<V>() -> (b: AppDataBuilder<V>)
    ensures
        b.entries() == Map::<usize, V>::empty(),
{
    AppDataBuilder { ctx: HashMap::new() }
}

impl<V> AppDataBuilder<V> {
    pub closed spec fn entries(&self) -> Map<usize, V> {
        self.ctx@
    }

    /// Adds `value` under the type key `key` (replacing one already there).
    pub fn insert(self, key: usize, value: V) -> (b: Self)
        ensures
            b.entries() == self.entries().insert(key, value),
    {
        let mut b = self;
        b.ctx.insert(key, value);
        b
    }

    /// Runs `f` with this context in effect on top of `stack`, then takes it
    /// off again.
    pub fn with_data<F: FnOnce(&AppDataStack<V>) -> R, R>(self, stack: &mut AppDataStack<V>, f: F) -> (r: R)
        requires
            forall|s: AppDataStack<V>| s.contexts() == old(stack).contexts().push(self.entries()) ==> f.requires((&s,)),
        ensures
            final(stack).contexts() == old(stack).contexts(),
            exists|s: AppDataStack<V>|
                s.contexts() == old(stack).contexts().push(self.entries()) && f.ensures((&s,), r),
    {
        stack.enter(self);
        let r = f(&*stack);
        let _ = stack.leave();
        r
    }
}

impl<V> AppDataStack<V> {
    pub closed spec fn contexts(&self) -> Seq<Map<usize, V>> {
        self.stack@.map_values(|c: HashMap<usize, V>| c@)
    }

    pub fn new() -> (s: Self)
        ensures
            s.contexts().len() == 0,
    {
        AppDataStack { stack: Vec::new() }
    }

    /// Puts the context of `builder` in effect, innermost.
    pub fn enter(&mut self, builder: AppDataBuilder<V>)
        ensures
            final(self).contexts() == old(self).contexts().push(builder.entries()),
    {
        self.stack.push(builder.ctx);
        proof {
            assert(self.contexts() =~= old(self).contexts().push(builder.entries()));
        }
    }

    /// Takes the innermost context off, if there is one.
    pub fn leave(&mut self) -> (b: Option<AppDataBuilder<V>>)
        ensures
            old(self).contexts().len() == 0 ==> b is None && final(self).contexts() == old(self).contexts(),
            old(self).contexts().len() > 0 ==> {
                &&& b matches Some(ctx) && ctx.entries() == old(self).contexts().last()
                &&& final(self).contexts() == old(self).contexts().drop_last()
            },
    {
        match self.stack.pop() {
            Some(ctx) => {
                proof {
                    assert(self.contexts() =~= old(self).contexts().drop_last());
                }
                Some(AppDataBuilder { ctx })
            },
            None => None,
        }
    }
}

/// Whether some context in effect has a value under `key`.
pub fn has_appdata<V>(stack: &AppDataStack<V>, key: usize) -> (b: bool)
    ensures
        b == lookup(stack.contexts(), key) is Some,
{
    get_appdata_opt(stack, key).is_some()
}

/// The value under `key` in the innermost context that has one.
pub fn get_appdata<V>(stack: &AppDataStack<V>, key: usize) -> (v: &V)
    requires
        lookup(stack.contexts(), key) is Some,
    ensures
        *v == lookup(stack.contexts(), key)->0,
{
    get_appdata_opt(stack, key).unwrap()
}

fn get_appdata_opt<V>(stack: &AppDataStack<V>, key: usize) -> (v: Option<&V>)
    ensures
        match v {
            Some(x) => lookup(stack.contexts(), key) == Some(*x),
            None => lookup(stack.contexts(), key) is None,
        },
{
    let mut i = stack.stack.len();
    proof {
        assert(stack.contexts().subrange(0, i as int) =~= stack.contexts());
    }
    while i > 0
        invariant
            i <= stack.stack@.len(),
            lookup(stack.contexts(), key) == lookup(stack.contexts().subrange(0, i as int), key),
        decreases i,
    {
        let k = i - 1;
        let ghost sub = stack.contexts().subrange(0, i as int);
        proof {
            assert(sub.drop_last() =~= stack.contexts().subrange(0, k as int));
            assert(sub.last() == stack.stack@[k as int]@);
        }
        match stack.stack[k].get(&key) {
            Some(x) => {
                return Some(x);
            },
            None => {},
        }
        i = k;
    }
    None
}

/// A fresh id for a field subscription.
pub fn next_id(counter: &mut IdCounter) -> (id: usize)
    requires
        old(counter).next() < usize::MAX,
    ensures
        id_effect(*old(counter), *final(counter), id),
{
    counter.next_id()
}

/// A value that tells its subscribers whenever it is set or edited.
pub struct Field<T, C> {
    data: StateAccessor<T>,
    subscribers: HashMap<usize, C>,
    ids: IdCounter,
}

/// Names a subscription to a field; ending it unregisters the subscriber.
pub struct FieldSubscription {
    pub id: usize,
}

impl<T, C> Field<T, C> {
    pub closed spec fn value(&self) -> T {
        self.data.value()
    }

    pub closed spec fn subscribers(&self) -> Map<usize, C> {
        self.subscribers@
    }

    /// The id the next subscriber gets.
    pub closed spec fn next_subscription(&self) -> usize {
        self.ids.next()
    }

    /// Subscriber ids are below the next one handed out.
    pub open spec fn wf(&self) -> bool {
        ids_below(self.subscribers(), self.next_subscription() as int)
    }

    /// Whether another subscriber can be given an id.
    pub fn can_subscribe(&self) -> (b: bool)
        ensures
            b == (self.next_subscription() < usize::MAX),
    {
        self.ids.can_issue()
    }

    /// Whether every subscriber accepts being called with `v`.
    pub open spec fn subscribers_accept(&self, v: T) -> bool
        where
            C: Fn(&T),
    {
        forall|id: usize| #[trigger] self.subscribers().contains_key(id) ==> self.subscribers()[id].requires((&v,))
    }

    /// Whether every subscriber was called with the current value (and
    /// returned): what a subscriber is told of a change.
    pub open spec fn subscribers_told(&self) -> bool
        where
            C: Fn(&T),
    {
        forall|id: usize|
            #[trigger] self.subscribers().contains_key(id) ==> self.subscribers()[id].ensures((&self.value(),), ())
    }

    pub fn new(data: T) -> (f: Self)
        ensures
            f.wf(),
            f.value() == data,
            f.subscribers() == Map::<usize, C>::empty(),
            f.next_subscription() == 0,
    {
        Field { data: StateAccessor::new(data), subscribers: HashMap::new(), ids: IdCounter::new() }
    }

    /// Sets the value and calls every subscriber with it.
    pub fn set(&mut self, data: T)
        where
            C: Fn(&T),
        requires
            old(self).wf(),
            old(self).subscribers_accept(data),
        ensures
            final(self).wf(),
            final(self).value() == data,
            final(self).subscribers() == old(self).subscribers(),
            final(self).subscribers_told(),
            final(self).next_subscription() == old(self).next_subscription(),
    {
        self.data.set(data);
        self.notify();
    }

    /// Replaces the value with what `f` makes of it and calls every subscriber with it.
    pub fn edit<W: FnOnce(&T) -> T>(&mut self, f: W)
        where
            C: Fn(&T),
        requires
            old(self).wf(),
            f.requires((&old(self).value(),)),
            forall|v: T| f.ensures((&old(self).value(),), v) ==> old(self).subscribers_accept(v),
        ensures
            final(self).wf(),
            f.ensures((&old(self).value(),), final(self).value()),
            final(self).subscribers() == old(self).subscribers(),
            final(self).subscribers_told(),
            final(self).next_subscription() == old(self).next_subscription(),
    {
        self.data.update(f);
        assert(old(self).subscribers_accept(self.value()));
        assert(self.subscribers() == old(self).subscribers());
        self.notify();
    }

    /// Calls `f` with the value and returns what it returns.
    pub fn with<F: FnOnce(&T) -> R, R>(&self, f: F) -> (r: R)
        requires
            f.requires((&self.value(),)),
        ensures
            f.ensures((&self.value(),), r),
    {
        self.data.with(f)
    }

    fn notify(&self)
        where
            C: Fn(&T),
        requires
            self.subscribers_accept(self.value()),
        ensures
            self.subscribers_told(),
    {
        let v = self.data.borrow();
        assert forall|id: usize| #[trigger] self.subscribers@.contains_key(id) implies self.subscribers@[id].requires(
            (v,),
        ) by {
            assert(self.subscribers().contains_key(id));
        }
        call_all(&self.subscribers, v);
    }

    /// Registers `subscriber` under a fresh id.
    pub fn subscribe(&mut self, subscriber: C) -> (s: FieldSubscription)
        requires
            old(self).wf(),
            old(self).next_subscription() < usize::MAX,
        ensures
            final(self).wf(),
            s.id == old(self).next_subscription(),
            !old(self).subscribers().contains_key(s.id),
            final(self).next_subscription() == old(self).next_subscription() + 1,
            final(self).subscribers() == old(self).subscribers().insert(s.id, subscriber),
            final(self).value() == old(self).value(),
    {
        let id = next_id(&mut self.ids);
        self.subscribers.insert(id, subscriber);
        FieldSubscription { id }
    }

    /// Ends `subscription`: its subscriber is no longer called.
    pub fn unsubscribe(&mut self, subscription: FieldSubscription)
        requires
            old(self).wf(),
        ensures
            final(self).wf(),
            final(self).subscribers() == old(self).subscribers().remove(subscription.id),
            final(self).value() == old(self).value(),
            final(self).next_subscription() == old(self).next_subscription(),
    {
        let _ = self.subscribers.remove(&subscription.id);
    }
}

/// A subscriber is told of every change while its subscription lasts and
/// is gone once it ends. Say `f1` is `f0` after `subscribe(c)` returned `sub`,
/// and `f2` is `f1` after any number of `set` and `edit` calls (they keep the
/// subscribers and tell them all). Then `c` was called with `f2`'s value,
/// `sub`'s id is none of the ids already there, and unsubscribing `sub`
/// leaves exactly the subscribers of `f0`.
pub proof fn law_field_subscriber_is_told<T, C: Fn(&T)>(
    f0: Field<T, C>,
    f1: Field<T, C>,
    f2: Field<T, C>,
    sub: FieldSubscription,
    c: C,
)
    requires
        f0.wf(),
        sub.id == f0.next_subscription(),
        f1.subscribers() == f0.subscribers().insert(sub.id, c),
        f2.subscribers() == f1.subscribers(),
        f2.subscribers_told(),
    ensures
        c.ensures((&f2.value(),), ()),
        !f0.subscribers().contains_key(sub.id),
        f2.subscribers().remove(sub.id) == f0.subscribers(),
{
    assert(f2.subscribers().contains_key(sub.id));
    law_fresh_insert_then_remove(f0.subscribers(), sub.id, c, f0.next_subscription() as int);
}

} // verus!
