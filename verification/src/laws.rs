use vstd::prelude::*;
use crate::address::Address;
use crate::ban::{
    ban_active, ban_lookup, elapsed_since, lemma_without_lookup, record_active,
    BanRecord, BAN_LIMIT_SECS,
};
use crate::registry::{
    clients_without, connected_bans, connected_clients, delivery_targets, lemma_filter_in_orig,
    lemma_without_unique, live_has, live_unique, step_bans, step_clients, ClientEntry, Event,
};

verus! {

/// The live table after a whole trace of events, the k-th consumed at
/// time `times[k]`.
pub open spec fn run_clients(
    cs: Seq<ClientEntry>,
    bs: Seq<BanRecord>,
    events: Seq<Event>,
    times: Seq<u64>,
) -> Seq<ClientEntry>
    recommends
        events.len() == times.len(),
    decreases events.len(),
{
    if events.len() == 0 {
        cs
    } else {
        run_clients(
            step_clients(cs, bs, events.first(), times.first()),
            step_bans(bs, events.first(), times.first()),
            events.drop_first(),
            times.drop_first(),
        )
    }
}

/// The ban table after a whole trace of events.
pub open spec fn run_bans(bs: Seq<BanRecord>, events: Seq<Event>, times: Seq<u64>) -> Seq<BanRecord>
    recommends
        events.len() == times.len(),
    decreases events.len(),
{
    if events.len() == 0 {
        bs
    } else {
        run_bans(step_bans(bs, events.first(), times.first()), events.drop_first(), times.drop_first())
    }
}

/// The clock reading once a trace is done: the last event's time, or
/// the starting instant for an empty trace.
pub open spec fn end_time(t0: u64, times: Seq<u64>) -> u64 {
    if times.len() == 0 {
        t0
    } else {
        times.last()
    }
}

/// Event times never run backwards: each is at least `t0` and they
/// are nondecreasing along the trace.
pub open spec fn times_ordered(t0: u64, times: Seq<u64>) -> bool {
    &&& forall|k: int| 0 <= k < times.len() ==> t0 <= #[trigger] times[k]
    &&& forall|k: int, l: int| 0 <= k < l < times.len() ==> #[trigger] times[k] <= #[trigger] times[l]
}

/// One event keeps the live table's addresses unique.
pub proof fn lemma_step_preserves_unique(
    cs: Seq<ClientEntry>,
    bs: Seq<BanRecord>,
    e: Event,
    now: u64,
)
    requires
        live_unique(cs),
    ensures
        live_unique(step_clients(cs, bs, e, now)),
{
    match e {
        Event::Connected { addr } => {
            if !ban_active(bs, addr.ip, now) {
                lemma_without_unique(cs, addr);
                let sub = clients_without(cs, addr);
                assert forall|k: int| 0 <= k < sub.len() implies sub[k].addr != addr by {
                    cs.lemma_filter_pred(|x: ClientEntry| x.addr != addr, k);
                }
                assert(live_unique(
                    sub.push(ClientEntry { addr, last_message: now, strike_count: 0 }),
                ));
            }
        },
        Event::Disconnected { addr } => {
            lemma_without_unique(cs, addr);
        },
        Event::Message { .. } => {},
    }
}

/// At-most-one entry per address: over any trace of events, the live
/// table never comes to hold two entries with the same address, so a
/// reconnect is possible only once the prior entry is gone.
pub proof fn lemma_trace_preserves_unique(
    cs: Seq<ClientEntry>,
    bs: Seq<BanRecord>,
    events: Seq<Event>,
    times: Seq<u64>,
)
    requires
        live_unique(cs),
        events.len() == times.len(),
    ensures
        live_unique(run_clients(cs, bs, events, times)),
    decreases events.len(),
{
    if events.len() > 0 {
        lemma_step_preserves_unique(cs, bs, events.first(), times.first());
        lemma_trace_preserves_unique(
            step_clients(cs, bs, events.first(), times.first()),
            step_bans(bs, events.first(), times.first()),
            events.drop_first(),
            times.drop_first(),
        );
    }
}

/// Two live entries with one address are one entry: the direct reading
/// of at-most-one-per-address for a table whose addresses are unique.
pub proof fn lemma_at_most_one_entry(cs: Seq<ClientEntry>, a: Address, i: int, j: int)
    requires
        live_unique(cs),
        0 <= i < cs.len(),
        0 <= j < cs.len(),
        cs[i].addr == a,
        cs[j].addr == a,
    ensures
        i == j,
{
}

/// No self-delivery: whatever the live table holds, the delivery
/// targets of a message never include its author, so a connection
/// never receives its own bytes back.
pub proof fn lemma_no_self_delivery(cs: Seq<ClientEntry>, author: Address, k: int)
    requires
        0 <= k < delivery_targets(cs, author).len(),
    ensures
        delivery_targets(cs, author)[k] != author,
{
    cs.lemma_filter_pred(|e: ClientEntry| e.addr != author, k);
}

/// The exclusion invariant at one instant: no live address's IP has an
/// unexpired record in the ban table.
pub open spec fn excluded(cs: Seq<ClientEntry>, bs: Seq<BanRecord>, now: u64) -> bool {
    forall|i: int, j: int|
        (0 <= i < cs.len() && 0 <= j < bs.len() && (#[trigger] bs[j]).ip == (
        #[trigger] cs[i]).addr.ip) ==> !record_active(bs[j], now)
}

/// One event at a later instant keeps the exclusion invariant: an
/// admission removes the IP's record outright, a rejection keeps the
/// address out of the live table, and elapsed time only grows.
pub proof fn lemma_step_preserves_excluded(
    cs: Seq<ClientEntry>,
    bs: Seq<BanRecord>,
    e: Event,
    t0: u64,
    t: u64,
)
    requires
        excluded(cs, bs, t0),
        t0 <= t,
    ensures
        excluded(step_clients(cs, bs, e, t), step_bans(bs, e, t), t),
{
    assert(excluded(cs, bs, t));
    match e {
        Event::Connected { addr } => {
            if !ban_active(bs, addr.ip, t) {
                let cs2 = step_clients(cs, bs, e, t);
                let bs2 = step_bans(bs, e, t);
                let cpred = |x: ClientEntry| x.addr != addr;
                let bpred = |r: BanRecord| r.ip != addr.ip;
                assert forall|i: int, j: int|
                    (0 <= i < cs2.len() && 0 <= j < bs2.len() && (#[trigger] bs2[j]).ip == (
                    #[trigger] cs2[i]).addr.ip) implies !record_active(bs2[j], t) by {
                    bs.lemma_filter_pred(bpred, j);
                    lemma_filter_in_orig(bs, bpred, j);
                    let j2 = choose|j2: int| 0 <= j2 < bs.len() && bs[j2] == bs2[j];
                    if i < cs2.len() - 1 {
                        lemma_filter_in_orig(cs, cpred, i);
                        let i2 = choose|i2: int|
                            0 <= i2 < cs.len() && cs[i2] == clients_without(cs, addr)[i];
                        assert(cs2[i] == clients_without(cs, addr)[i]);
                        assert(!record_active(bs[j2], t));
                    } else {
                        assert(cs2[i].addr == addr);
                        assert(false);
                    }
                }
            }
        },
        Event::Disconnected { addr } => {
            let cs2 = step_clients(cs, bs, e, t);
            let cpred = |x: ClientEntry| x.addr != addr;
            assert forall|i: int, j: int|
                (0 <= i < cs2.len() && 0 <= j < bs.len() && (#[trigger] bs[j]).ip == (
                #[trigger] cs2[i]).addr.ip) implies !record_active(bs[j], t) by {
                lemma_filter_in_orig(cs, cpred, i);
                let i2 = choose|i2: int| 0 <= i2 < cs.len() && cs[i2] == cs2[i];
                assert(!record_active(bs[j], t));
            }
        },
        Event::Message { .. } => {},
    }
}

/// Exclusion invariant: a state where no live address's IP is under an
/// unexpired ban (for one, any state whose bans were seeded before any
/// client connected) stays that way through any trace of events whose
/// times never run backwards.
pub proof fn lemma_trace_preserves_excluded(
    cs: Seq<ClientEntry>,
    bs: Seq<BanRecord>,
    events: Seq<Event>,
    times: Seq<u64>,
    t0: u64,
)
    requires
        excluded(cs, bs, t0),
        events.len() == times.len(),
        times_ordered(t0, times),
    ensures
        excluded(
            run_clients(cs, bs, events, times),
            run_bans(bs, events, times),
            end_time(t0, times),
        ),
    decreases events.len(),
{
    if events.len() > 0 {
        lemma_step_preserves_excluded(cs, bs, events.first(), t0, times.first());
        assert(times_ordered(times.first(), times.drop_first())) by {
            assert(forall|k: int|
                0 <= k < times.drop_first().len() ==> #[trigger] times.drop_first()[k]
                    == times[k + 1]);
        }
        lemma_trace_preserves_excluded(
            step_clients(cs, bs, events.first(), times.first()),
            step_bans(bs, events.first(), times.first()),
            events.drop_first(),
            times.drop_first(),
            times.first(),
        );
        assert(end_time(times.first(), times.drop_first()) == end_time(t0, times));
    }
}

/// A ban that is over stays over: elapsed time only grows, so an IP
/// that is not banned at one instant is not banned at any later one.
pub proof fn lemma_inactive_stays_inactive(bans: Seq<BanRecord>, ip: u128, t1: u64, t2: u64)
    requires
        !ban_active(bans, ip, t1),
        t1 <= t2,
    ensures
        !ban_active(bans, ip, t2),
{
}

/// Ban expiry monotonicity: once an IP's record has fully elapsed, a
/// Connected event from that IP is admitted — the address enters the
/// live table — and the stale record is gone from the ban table
/// afterward, not merely ignored.
pub proof fn lemma_ban_expiry(cs: Seq<ClientEntry>, bs: Seq<BanRecord>, a: Address, now: u64)
    requires
        ban_lookup(bs, a.ip) is Some,
        elapsed_since(ban_lookup(bs, a.ip).unwrap().banned_at, now) >= BAN_LIMIT_SECS,
    ensures
        !ban_active(bs, a.ip, now),
        live_has(connected_clients(cs, bs, a, now), a),
        ban_lookup(connected_bans(bs, a.ip, now), a.ip) is None,
{
    lemma_without_lookup(bs, a.ip);
    let cs2 = connected_clients(cs, bs, a, now);
    assert(cs2[cs2.len() - 1].addr == a);
}

/// Every element of a sequence that `pred` accepts throughout is kept:
/// such a filter changes nothing.
pub proof fn lemma_filter_all<A>(s: Seq<A>, pred: spec_fn(A) -> bool)
    requires
        forall|k: int| 0 <= k < s.len() ==> pred(#[trigger] s[k]),
    ensures
        s.filter(pred) =~= s,
    decreases s.len(),
{
    reveal(Seq::filter);
    if s.len() > 0 {
        lemma_filter_all(s.drop_last(), pred);
    }
}

/// Disconnect idempotence: removing an address from the live table a
/// second time changes nothing — two Disconnected events in a row for
/// one address act as one, and neither is an error.
pub proof fn lemma_disconnect_idempotent(cs: Seq<ClientEntry>, a: Address)
    ensures
        clients_without(clients_without(cs, a), a) =~= clients_without(cs, a),
{
    let pred = |e: ClientEntry| e.addr != a;
    let once = clients_without(cs, a);
    assert forall|k: int| 0 <= k < once.len() implies pred(once[k]) by {
        cs.lemma_filter_pred(pred, k);
    }
    lemma_filter_all(once, pred);
}

} // verus!
