use vstd::prelude::*;
use crate::arrangement::{Arrangement, Bound};
use crate::collection::CollectionTraces;
use crate::manager::TraceManager;

verus! {

/// Binding the by-self arrangement of a name a second time replaces the first
/// binding: the name then holds the second trace and the second callback only,
/// so the first callback is no longer held and has been released, and nothing
/// else changed.
pub proof fn rebind_by_self_replaces<S, V, C>(
    m0: TraceManager<S, V, C>,
    m1: TraceManager<S, V, C>,
    m2: TraceManager<S, V, C>,
    name: Seq<char>,
    first: S,
    first_callback: Option<C>,
    second: S,
    second_callback: Option<C>,
)
    requires
        m0.wf(),
        TraceManager::set_by_self_post(m0, m1, name, first, first_callback),
        TraceManager::set_by_self_post(m1, m2, name, second, second_callback),
    ensures
        m2.self_entry(name) matches Some(b) && b.is_fresh(second, second_callback),
        m2.keyed_entries(name) == m0.keyed_entries(name),
        m2.view().dom() == m0.view().dom().insert(name),
        forall|n: Seq<char>| n != name && #[trigger] m0.view().contains_key(n) ==> m2.view()[n] == m0.view()[n],
{
    assert(m2.view().dom() =~= m0.view().dom().insert(name));
}

/// Binding under the same key projection of a name a second time replaces the
/// first binding: the projection then holds the second trace and callback only,
/// and every other binding is as it was.
pub proof fn rebind_by_keys_replaces<S, V, C>(
    m0: TraceManager<S, V, C>,
    m1: TraceManager<S, V, C>,
    m2: TraceManager<S, V, C>,
    name: Seq<char>,
    keys: Seq<usize>,
    first: V,
    first_callback: Option<C>,
    second: V,
    second_callback: Option<C>,
)
    requires
        m0.wf(),
        TraceManager::set_by_keys_post(m0, m1, name, keys, first, first_callback),
        TraceManager::set_by_keys_post(m1, m2, name, keys, second, second_callback),
    ensures
        m2.keyed_entries(name).contains_key(keys),
        m2.keyed_entries(name)[keys].is_fresh(second, second_callback),
        m2.keyed_entries(name).dom() == m0.keyed_entries(name).dom().insert(keys),
        forall|k: Seq<usize>| k != keys && #[trigger] m0.keyed_entries(name).contains_key(k)
            ==> m2.keyed_entries(name)[k] == m0.keyed_entries(name)[k],
        m2.self_entry(name) == m0.self_entry(name),
        m2.view().dom() == m0.view().dom().insert(name),
        forall|n: Seq<char>| n != name && #[trigger] m0.view().contains_key(n) ==> m2.view()[n] == m0.view()[n],
{
    assert(m2.keyed_entries(name).dom() =~= m0.keyed_entries(name).dom().insert(keys));
    assert(m2.view().dom() =~= m0.view().dom().insert(name));
}

/// Removing a name that is not registered changes nothing, and removing a
/// name twice is the same as removing it once.
pub proof fn del_trace_idempotent<S, V, C>(
    m0: TraceManager<S, V, C>,
    m1: TraceManager<S, V, C>,
    m2: TraceManager<S, V, C>,
    name: Seq<char>,
)
    requires
        m0.wf(),
        TraceManager::del_trace_post(m0, m1, name),
        TraceManager::del_trace_post(m1, m2, name),
    ensures
        !m0.view().contains_key(name) ==> m1.view() == m0.view(),
        m2.view() == m1.view(),
        m2.self_entry(name) is None,
        m2.keyed_entries(name) == Map::<Seq<usize>, Bound<V, C>>::empty(),
{
    assert(!m0.view().contains_key(name) ==> m1.view() =~= m0.view());
    assert(m2.view() =~= m1.view());
}

/// Arrangements of one name under two different key projections are
/// independent: each projection finds its own trace.
pub proof fn distinct_projections_independent<S, V, C>(
    m0: TraceManager<S, V, C>,
    m1: TraceManager<S, V, C>,
    m2: TraceManager<S, V, C>,
    name: Seq<char>,
    keys_a: Seq<usize>,
    trace_a: V,
    callback_a: Option<C>,
    keys_b: Seq<usize>,
    trace_b: V,
    callback_b: Option<C>,
)
    requires
        m0.wf(),
        keys_a != keys_b,
        TraceManager::set_by_keys_post(m0, m1, name, keys_a, trace_a, callback_a),
        TraceManager::set_by_keys_post(m1, m2, name, keys_b, trace_b, callback_b),
    ensures
        m2.keyed_entries(name).contains_key(keys_a),
        m2.keyed_entries(name).contains_key(keys_b),
        m2.keyed_entries(name)[keys_a].is_fresh(trace_a, callback_a),
        m2.keyed_entries(name)[keys_b].is_fresh(trace_b, callback_b),
{
    assert(m1.keyed_entries(name).contains_key(keys_a));
}

/// Allowing compaction only commits the logical frontier: every trace of the
/// name is advanced to it while its physical frontier stays as it was. The
/// next maintenance then distinguishes each trace anew, from a fresh
/// accumulator, while the logical frontier committed before it is kept, so
/// the physical merge is the first to take that frontier into account.
pub proof fn logical_before_physical<S: Arrangement, V: Arrangement, C>(
    m0: TraceManager<S, V, C>,
    m1: TraceManager<S, V, C>,
    m2: TraceManager<S, V, C>,
    name: Seq<char>,
    frontier: Seq<u64>,
)
    requires
        m0.wf(),
        m0.view().contains_key(name),
        TraceManager::allow_compaction_post(m0, m1, name, frontier),
        TraceManager::maintenance_post(m1, m2),
    ensures
        m1.view()[name].merged_logically_from(m0.view()[name], frontier),
        m2.view()[name].merged_physically_from(m1.view()[name], Seq::<u64>::empty()),
        m2.view()[name].by_self is Some == m0.view()[name].by_self is Some,
        m2.view()[name].by_self matches Some(b) ==> b.trace.advance_frontier() == frontier,
        m2.view()[name].by_keys@.len() == m0.view()[name].by_keys@.len(),
        forall|j: int| 0 <= j < m2.view()[name].by_keys@.len()
            ==> (#[trigger] m2.view()[name].by_keys@[j]).1.trace.advance_frontier() == frontier,
        forall|j: int| 0 <= j < m2.view()[name].by_keys@.len()
            ==> (#[trigger] m2.view()[name].by_keys@[j]).0@ == m0.view()[name].by_keys@[j].0@,
{
    assert(m1.view().contains_key(name));
    assert(m2.view().contains_key(name));
    let c1 = m1.view()[name];
    let c2 = m2.view()[name];
    assert forall|j: int| 0 <= j < c2.by_keys@.len()
        implies (#[trigger] c2.by_keys@[j]).1.trace.advance_frontier() == frontier by {
        assert(c1.by_keys@[j].1.trace.advance_frontier() == frontier);
    }
    assert forall|j: int| 0 <= j < c2.by_keys@.len()
        implies (#[trigger] c2.by_keys@[j]).0@ == m0.view()[name].by_keys@[j].0@ by {
        assert(c1.by_keys@[j].0@ == m0.view()[name].by_keys@[j].0@);
    }
}

/// After every trace is removed, no name has a by-self or keyed arrangement,
/// so every callback has been released.
pub proof fn full_teardown<S, V, C>(m: TraceManager<S, V, C>, name: Seq<char>, keys: Seq<usize>)
    requires
        TraceManager::del_all_traces_post(m),
    ensures
        m.self_entry(name) is None,
        !m.keyed_entries(name).contains_key(keys),
        m.traces@.len() == 0,
{
    if m.traces@.len() > 0 {
        m.lemma_view_at(0);
    }
}

} // verus!
