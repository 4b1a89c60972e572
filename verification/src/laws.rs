//! Laws of the registry model: properties that hold of every input,
//! stated over the same spec functions the executable contracts use.

use vstd::prelude::*;

use crate::packet::AnswerModel;
use crate::packet::spec_parse;
use crate::registry::a_pass;
use crate::registry::a_step;
use crate::registry::spec_add_address;
use crate::registry::spec_evict;
use crate::registry::spec_handle_datagram;
use crate::registry::spec_process_answers;
use crate::registry::spec_upsert;
use crate::registry::srv_matches;
use crate::registry::srv_pass;
use crate::registry::srv_step;
use crate::registry::stale;

verus! {

/// An upsert never moves a service's last-seen time backwards: after
/// any upsert, the entry is present and its time is at least what it
/// was.
pub proof fn lemma_upsert_monotone(
    m: Map<(Seq<u8>, u16), (u64, Seq<u32>)>,
    k: (Seq<u8>, u16),
    now: u64,
)
    requires
        m.dom().contains(k),
    ensures
        spec_upsert(m, k, now).dom().contains(k),
        spec_upsert(m, k, now)[k].0 >= m[k].0,
{
}

/// An entry not refreshed for the liveness window or longer is absent
/// after an eviction pass at `now`.
pub proof fn lemma_stale_entry_evicted(
    m: Map<(Seq<u8>, u16), (u64, Seq<u32>)>,
    k: (Seq<u8>, u16),
    now: u64,
)
    requires
        m.dom().contains(k),
        stale(m[k].0, now),
    ensures
        !spec_evict(m, now).dom().contains(k),
{
}

/// An entry refreshed within the liveness window survives an eviction
/// pass unchanged.
pub proof fn lemma_fresh_entry_kept(
    m: Map<(Seq<u8>, u16), (u64, Seq<u32>)>,
    k: (Seq<u8>, u16),
    now: u64,
)
    requires
        m.dom().contains(k),
        !stale(m[k].0, now),
    ensures
        spec_evict(m, now).dom().contains(k),
        spec_evict(m, now)[k] == m[k],
{
}

/// One polling cycle as the discovery loop runs it for a service that
/// answers every query: its entry is upserted, then the eviction pass
/// runs, both at that cycle's time.
pub open spec fn run_cycles(
    m: Map<(Seq<u8>, u16), (u64, Seq<u32>)>,
    k: (Seq<u8>, u16),
    times: Seq<u64>,
) -> Map<(Seq<u8>, u16), (u64, Seq<u32>)>
    decreases times.len(),
{
    if times.len() == 0 {
        m
    } else {
        spec_evict(
            spec_upsert(run_cycles(m, k, times.drop_last()), k, times.last()),
            times.last(),
        )
    }
}

/// A service refreshed in every cycle is never evicted: however many
/// cycles run, and whatever else the registry holds, its entry is
/// present after the last cycle. A refresh precedes the eviction pass
/// of its own cycle, so the entry's last-seen time is never behind the
/// clock the pass uses.
pub proof fn lemma_refreshed_never_evicted(
    m: Map<(Seq<u8>, u16), (u64, Seq<u32>)>,
    k: (Seq<u8>, u16),
    times: Seq<u64>,
)
    requires
        times.len() > 0,
    ensures
        run_cycles(m, k, times).dom().contains(k),
{
    let prev = run_cycles(m, k, times.drop_last());
    let t = times.last();
    let u = spec_upsert(prev, k, t);
    assert(u.dom().contains(k));
    assert(u[k].0 >= t);
    assert(!stale(u[k].0, t));
}

/// An entry refreshed at `t` survives an eviction pass at any `now`
/// within the liveness window after `t`, whatever the registry held
/// before.
pub proof fn lemma_recent_refresh_survives(
    m: Map<(Seq<u8>, u16), (u64, Seq<u32>)>,
    k: (Seq<u8>, u16),
    t: u64,
    now: u64,
)
    requires
        now < t + crate::registry::TTL_MS,
    ensures
        spec_evict(spec_upsert(m, k, t), now).dom().contains(k),
{
    let u = spec_upsert(m, k, t);
    assert(u[k].0 >= t);
    assert(!stale(u[k].0, now));
}

/// The SRV pass never loses an entry, and never moves a last-seen
/// time backwards: however many answers a response carries, a known
/// service stays known and its time only grows.
pub proof fn lemma_srv_pass_monotone(
    m: Map<(Seq<u8>, u16), (u64, Seq<u32>)>,
    answers: Seq<AnswerModel>,
    service: Seq<u8>,
    now: u64,
    k: (Seq<u8>, u16),
)
    requires
        m.dom().contains(k),
    ensures
        srv_pass(m, answers, service, now).dom().contains(k),
        srv_pass(m, answers, service, now)[k].0 >= m[k].0,
    decreases answers.len(),
{
    if answers.len() > 0 {
        lemma_srv_pass_monotone(m, answers.drop_last(), service, now, k);
    }
}

/// The A pass keeps every entry and leaves every last-seen time as it
/// was: address records only extend address sets.
pub proof fn lemma_a_pass_keeps_last_seen(
    m: Map<(Seq<u8>, u16), (u64, Seq<u32>)>,
    answers: Seq<AnswerModel>,
    k: (Seq<u8>, u16),
)
    requires
        m.dom().contains(k),
    ensures
        a_pass(m, answers).dom().contains(k),
        a_pass(m, answers)[k].0 == m[k].0,
    decreases answers.len(),
{
    if answers.len() > 0 {
        lemma_a_pass_keeps_last_seen(m, answers.drop_last(), k);
    }
}

/// Processing a response never loses a known service and never moves
/// its last-seen time backwards, whatever the response holds.
pub proof fn lemma_process_monotone(
    m: Map<(Seq<u8>, u16), (u64, Seq<u32>)>,
    answers: Seq<AnswerModel>,
    service: Seq<u8>,
    now: u64,
    k: (Seq<u8>, u16),
)
    requires
        m.dom().contains(k),
    ensures
        spec_process_answers(m, answers, service, now).dom().contains(k),
        spec_process_answers(m, answers, service, now)[k].0 >= m[k].0,
{
    lemma_srv_pass_monotone(m, answers, service, now, k);
    lemma_a_pass_keeps_last_seen(srv_pass(m, answers, service, now), answers, k);
}

/// Handling a datagram that is malformed, or whose header marks it a
/// query rather than a response, changes nothing.
pub proof fn lemma_query_no_mutation(
    m: Map<(Seq<u8>, u16), (u64, Seq<u32>)>,
    bytes: Seq<u8>,
    service: Seq<u8>,
    now: u64,
)
    requires
        match spec_parse(bytes) {
            Some(p) => p.0,
            None => true,
        },
    ensures
        spec_handle_datagram(m, bytes, service, now) == m,
{
}

/// The SRV pass does nothing when no SRV record's name matches the
/// target service.
pub proof fn lemma_srv_pass_unmatched(
    m: Map<(Seq<u8>, u16), (u64, Seq<u32>)>,
    answers: Seq<AnswerModel>,
    service: Seq<u8>,
    now: u64,
)
    requires
        forall|j: int| 0 <= j < answers.len() ==> !srv_matches(#[trigger] answers[j], service),
    ensures
        srv_pass(m, answers, service, now) == m,
    decreases answers.len(),
{
    if answers.len() > 0 {
        assert forall|j: int| 0 <= j < answers.drop_last().len() implies !srv_matches(
            #[trigger] answers.drop_last()[j],
            service,
        ) by {
            assert(answers.drop_last()[j] == answers[j]);
        }
        lemma_srv_pass_unmatched(m, answers.drop_last(), service, now);
        assert(!srv_matches(answers[answers.len() - 1], service));
        assert(srv_step(m, answers.last(), service, now) == m);
    }
}

/// The A pass never creates or removes an entry: address records only
/// decorate services that are already known.
pub proof fn lemma_a_pass_creates_no_entry(
    m: Map<(Seq<u8>, u16), (u64, Seq<u32>)>,
    answers: Seq<AnswerModel>,
)
    ensures
        a_pass(m, answers).dom() == m.dom(),
    decreases answers.len(),
{
    if answers.len() > 0 {
        lemma_a_pass_creates_no_entry(m, answers.drop_last());
        let prev = a_pass(m, answers.drop_last());
        match answers.last() {
            AnswerModel::Addr { name, addr } => {
                assert(spec_add_address(prev, name, addr).dom() =~= prev.dom());
            }
            _ => {}
        }
        assert(a_step(prev, answers.last()).dom() =~= prev.dom());
    }
}

/// A response whose SRV records all concern some other service creates
/// no entry and removes none: the key set is exactly what it was.
pub proof fn lemma_unrelated_srv_creates_no_entry(
    m: Map<(Seq<u8>, u16), (u64, Seq<u32>)>,
    answers: Seq<AnswerModel>,
    service: Seq<u8>,
    now: u64,
)
    requires
        forall|j: int| 0 <= j < answers.len() ==> !srv_matches(#[trigger] answers[j], service),
    ensures
        spec_process_answers(m, answers, service, now).dom() == m.dom(),
{
    lemma_srv_pass_unmatched(m, answers, service, now);
    lemma_a_pass_creates_no_entry(m, answers);
}

/// An A record whose name is no known service's host is a no-op: the
/// registry it leaves is the registry it found.
pub proof fn lemma_a_record_unknown_host_noop(
    m: Map<(Seq<u8>, u16), (u64, Seq<u32>)>,
    name: Seq<u8>,
    addr: u32,
)
    requires
        forall|k: (Seq<u8>, u16)| m.dom().contains(k) ==> (#[trigger] k.0) != name,
    ensures
        spec_add_address(m, name, addr) == m,
{
    assert(spec_add_address(m, name, addr) =~= m);
}

} // verus!
