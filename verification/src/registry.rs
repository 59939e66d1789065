use vstd::prelude::*;
use crate::address::Address;
use crate::ban::{
    ban_active, ban_remaining, bans_without, check_ban, BanCheck, BanRecord,
};

verus! {

/// One live connection, keyed by its peer address. `last_message` is
/// the time the entry was admitted; together with `strike_count` it is
/// reserved for a future flood-control policy and drives no decision
/// yet (`strike_count` stays zero).
#[derive(Clone, Copy, PartialEq, Eq, Structural, Debug)]
pub struct ClientEntry {
    pub addr: Address,
    pub last_message: u64,
    pub strike_count: i64,
}

/// A lifecycle notification from one connection's handler, consumed
/// serially by the registry.
#[derive(Debug, PartialEq, Eq)]
pub enum Event {
    Connected { addr: Address },
    Disconnected { addr: Address },
    Message { addr: Address, bytes: Vec<u8> },
}

/// What the registry asks its caller to do after consuming one event.
/// The caller owns the transports: it registers a write handle on
/// `Admitted`, writes a ban notice and closes on `Rejected`, drops the
/// handle on `Departed`, and writes `bytes` to each target's handle on
/// `Deliver` (best effort, one failed write must not stop the rest).
#[derive(Debug, PartialEq, Eq)]
pub enum Effect {
    Admitted,
    Rejected { remaining: u64 },
    Departed,
    Deliver { targets: Vec<Address>, bytes: Vec<u8> },
}

/// No two live entries share an address.
pub open spec fn live_unique(cs: Seq<ClientEntry>) -> bool {
    forall|i: int, j: int| 0 <= i < j < cs.len() ==> cs[i].addr != cs[j].addr
}

/// No two ban records share an IP.
pub open spec fn bans_unique(bs: Seq<BanRecord>) -> bool {
    forall|i: int, j: int| 0 <= i < j < bs.len() ==> bs[i].ip != bs[j].ip
}

/// Some live entry has address `a`.
pub open spec fn live_has(cs: Seq<ClientEntry>, a: Address) -> bool {
    exists|i: int| 0 <= i < cs.len() && cs[i].addr == a
}

/// The live table with every entry for `a` removed.
pub open spec fn clients_without(cs: Seq<ClientEntry>, a: Address) -> Seq<ClientEntry> {
    cs.filter(|e: ClientEntry| e.addr != a)
}

/// The addresses a message from `author` is delivered to: every live
/// entry but the author's own, in table order.
pub open spec fn delivery_targets(cs: Seq<ClientEntry>, author: Address) -> Seq<Address> {
    clients_without(cs, author).map_values(|e: ClientEntry| e.addr)
}

/// The live table after a `Connected` event from `a` at time `now`:
/// unchanged while `a`'s IP is banned; otherwise `a` is (re)admitted
/// with a fresh entry, any prior entry for `a` replaced.
pub open spec fn connected_clients(
    cs: Seq<ClientEntry>,
    bs: Seq<BanRecord>,
    a: Address,
    now: u64,
) -> Seq<ClientEntry> {
    if ban_active(bs, a.ip, now) {
        cs
    } else {
        clients_without(cs, a).push(ClientEntry { addr: a, last_message: now, strike_count: 0 })
    }
}

/// The ban table after a `Connected` event from `ip` at `now`: an
/// active record is kept; a stale one is discarded, not merely ignored.
pub open spec fn connected_bans(bs: Seq<BanRecord>, ip: u128, now: u64) -> Seq<BanRecord> {
    if ban_active(bs, ip, now) {
        bs
    } else {
        bans_without(bs, ip)
    }
}

/// The live table after one event.
pub open spec fn step_clients(
    cs: Seq<ClientEntry>,
    bs: Seq<BanRecord>,
    e: Event,
    now: u64,
) -> Seq<ClientEntry> {
    match e {
        Event::Connected { addr } => connected_clients(cs, bs, addr, now),
        Event::Disconnected { addr } => clients_without(cs, addr),
        Event::Message { .. } => cs,
    }
}

/// The ban table after one event: only `Connected` touches it.
pub open spec fn step_bans(bs: Seq<BanRecord>, e: Event, now: u64) -> Seq<BanRecord> {
    match e {
        Event::Connected { addr } => connected_bans(bs, addr.ip, now),
        Event::Disconnected { .. } => bs,
        Event::Message { .. } => bs,
    }
}

/// Every element of a filtered sequence is an element of the original:
/// `filter` selects, it never invents.
pub proof fn lemma_filter_in_orig<A>(s: Seq<A>, pred: spec_fn(A) -> bool, i: int)
    requires
        0 <= i < s.filter(pred).len(),
    ensures
        s.contains(s.filter(pred)[i]),
    decreases s.len(),
{
    reveal(Seq::filter);
    if s.len() > 0 {
        let head = s.drop_last();
        let sub = head.filter(pred);
        if pred(s.last()) && i == sub.len() {
            assert(s[s.len() - 1] == s.filter(pred)[i]);
        } else {
            lemma_filter_in_orig(head, pred, i);
            let j = choose|j: int| 0 <= j < head.len() && head[j] == sub[i];
            assert(s[j] == s.filter(pred)[i]);
        }
    }
}

/// Removing one address keeps the live table's addresses unique.
pub proof fn lemma_without_unique(cs: Seq<ClientEntry>, a: Address)
    requires
        live_unique(cs),
    ensures
        live_unique(clients_without(cs, a)),
    decreases cs.len(),
{
    reveal(Seq::filter);
    let pred = |e: ClientEntry| e.addr != a;
    if cs.len() > 0 {
        let head = cs.drop_last();
        assert(live_unique(head));
        lemma_without_unique(head, a);
        let sub = head.filter(pred);
        if pred(cs.last()) {
            assert forall|k: int| 0 <= k < sub.len() implies sub[k].addr != cs.last().addr by {
                lemma_filter_in_orig(head, pred, k);
                let m = choose|m: int| 0 <= m < head.len() && head[m] == sub[k];
                assert(cs[m].addr != cs[cs.len() - 1].addr);
            }
            assert(live_unique(sub.push(cs.last())));
        }
    }
}

/// Removing one IP keeps the ban table's IPs unique.
pub proof fn lemma_bans_without_unique(bs: Seq<BanRecord>, ip: u128)
    requires
        bans_unique(bs),
    ensures
        bans_unique(bans_without(bs, ip)),
    decreases bs.len(),
{
    reveal(Seq::filter);
    let pred = |r: BanRecord| r.ip != ip;
    if bs.len() > 0 {
        let head = bs.drop_last();
        assert(bans_unique(head));
        lemma_bans_without_unique(head, ip);
        let sub = head.filter(pred);
        if pred(bs.last()) {
            assert forall|k: int| 0 <= k < sub.len() implies sub[k].ip != bs.last().ip by {
                lemma_filter_in_orig(head, pred, k);
                let m = choose|m: int| 0 <= m < head.len() && head[m] == sub[k];
                assert(bs[m].ip != bs[bs.len() - 1].ip);
            }
            assert(bans_unique(sub.push(bs.last())));
        }
    }
}

/// A copy of the live table without the entries for `a`.
fn without_addr(cs: &Vec<ClientEntry>, a: Address) -> (r: Vec<ClientEntry>)
    ensures
        r@ =~= clients_without(cs@, a),
{
    let mut kept: Vec<ClientEntry> = Vec::new();
    let n = cs.len();
    let mut i: usize = 0;
    proof {
        reveal(Seq::filter);
        assert(cs@.take(0) =~= Seq::<ClientEntry>::empty());
    }
    while i < n
        invariant
            n == cs@.len(),
            i <= n,
            kept@ =~= clients_without(cs@.take(i as int), a),
        decreases n - i,
    {
        let e = cs[i];
        proof {
            reveal(Seq::filter);
            assert(cs@.take(i as int + 1).drop_last() =~= cs@.take(i as int));
            assert(cs@.take(i as int + 1).last() == cs@[i as int]);
        }
        if e.addr != a {
            kept.push(e);
        }
        i = i + 1;
    }
    proof {
        assert(cs@.take(n as int) =~= cs@);
    }
    kept
}

/// A copy of the ban table without the records for `ip`.
fn without_ip(bs: &Vec<BanRecord>, ip: u128) -> (r: Vec<BanRecord>)
    ensures
        r@ =~= bans_without(bs@, ip),
{
    let mut kept: Vec<BanRecord> = Vec::new();
    let n = bs.len();
    let mut i: usize = 0;
    proof {
        reveal(Seq::filter);
        assert(bs@.take(0) =~= Seq::<BanRecord>::empty());
    }
    while i < n
        invariant
            n == bs@.len(),
            i <= n,
            kept@ =~= bans_without(bs@.take(i as int), ip),
        decreases n - i,
    {
        let rec = bs[i];
        proof {
            reveal(Seq::filter);
            assert(bs@.take(i as int + 1).drop_last() =~= bs@.take(i as int));
            assert(bs@.take(i as int + 1).last() == bs@[i as int]);
        }
        if rec.ip != ip {
            kept.push(rec);
        }
        i = i + 1;
    }
    proof {
        assert(bs@.take(n as int) =~= bs@);
    }
    kept
}

/// The single owner of all mutable relay state: the live-connection
/// table and the ban table. Every mutation happens through its methods,
/// one event at a time; callers hold no lock and share no state.
pub struct Registry {
    pub clients: Vec<ClientEntry>,
    pub bans: Vec<BanRecord>,
}

impl Registry {
    /// Both tables are keyed: at most one live entry per address, at
    /// most one ban record per IP.
    pub open spec fn wf(self) -> bool {
        live_unique(self.clients@) && bans_unique(self.bans@)
    }

    /// An empty registry: no live connections, no bans.
    pub fn new() -> (r: Registry)
        ensures
            r.clients@ =~= Seq::<ClientEntry>::empty(),
            r.bans@ =~= Seq::<BanRecord>::empty(),
            r.wf(),
    {
        Registry { clients: Vec::new(), bans: Vec::new() }
    }

    /// A `Connected` event from `a` at time `now`. While `a`'s IP is
    /// banned the attempt is rejected with the seconds left and nothing
    /// changes; otherwise any stale ban record for the IP is discarded
    /// and `a` enters the live table with a fresh entry.
    pub fn on_connected(&mut self, a: Address, now: u64) -> (r: Effect)
        ensures
            final(self).clients@ =~= connected_clients(old(self).clients@, old(self).bans@, a, now),
            final(self).bans@ =~= connected_bans(old(self).bans@, a.ip, now),
            r is Rejected <==> ban_active(old(self).bans@, a.ip, now),
            r matches Effect::Rejected { remaining } ==> remaining == ban_remaining(
                old(self).bans@,
                a.ip,
                now,
            ),
            !ban_active(old(self).bans@, a.ip, now) ==> r == Effect::Admitted,
            old(self).wf() ==> final(self).wf(),
    {
        match check_ban(&self.bans, a.ip, now) {
            BanCheck::Active { remaining } => Effect::Rejected { remaining },
            BanCheck::Expired | BanCheck::Clear => {
                let cleaned_bans = without_ip(&self.bans, a.ip);
                self.bans = cleaned_bans;
                let kept = without_addr(&self.clients, a);
                self.clients = kept;
                self.clients.push(ClientEntry { addr: a, last_message: now, strike_count: 0 });
                proof {
                    if old(self).wf() {
                        lemma_bans_without_unique(old(self).bans@, a.ip);
                        lemma_without_unique(old(self).clients@, a);
                        let sub = clients_without(old(self).clients@, a);
                        assert forall|k: int| 0 <= k < sub.len() implies sub[k].addr != a by {
                            old(self).clients@.lemma_filter_pred(|e: ClientEntry| e.addr != a, k);
                        }
                    }
                }
                Effect::Admitted
            },
        }
    }

    /// A `Disconnected` event: the address leaves the live table
    /// unconditionally, a no-op when it is already absent. The ban
    /// table is untouched.
    pub fn on_disconnected(&mut self, a: Address) -> (r: Effect)
        ensures
            final(self).clients@ =~= clients_without(old(self).clients@, a),
            final(self).bans@ == old(self).bans@,
            r == Effect::Departed,
            old(self).wf() ==> final(self).wf(),
    {
        let kept = without_addr(&self.clients, a);
        self.clients = kept;
        proof {
            if old(self).wf() {
                lemma_without_unique(old(self).clients@, a);
            }
        }
        Effect::Departed
    }

    /// A `Message` event: nothing changes; the result lists every live
    /// address but the author's own, in table order, for the caller to
    /// write the bytes to.
    pub fn on_message(&self, author: Address) -> (r: Vec<Address>)
        ensures
            r@ =~= delivery_targets(self.clients@, author),
    {
        let mut targets: Vec<Address> = Vec::new();
        let n = self.clients.len();
        let mut i: usize = 0;
        proof {
            reveal(Seq::filter);
            assert(self.clients@.take(0) =~= Seq::<ClientEntry>::empty());
        }
        while i < n
            invariant
                n == self.clients@.len(),
                i <= n,
                targets@ =~= delivery_targets(self.clients@.take(i as int), author),
            decreases n - i,
        {
            let e = self.clients[i];
            proof {
                reveal(Seq::filter);
                let pre = self.clients@.take(i as int);
                let cur = self.clients@.take(i as int + 1);
                assert(cur.drop_last() =~= pre);
                assert(cur.last() == self.clients@[i as int]);
                if e.addr != author {
                    assert(clients_without(pre, author).push(e).map_values(
                        |x: ClientEntry| x.addr,
                    ) =~= delivery_targets(pre, author).push(e.addr));
                }
            }
            if e.addr != author {
                targets.push(e.addr);
            }
            i = i + 1;
        }
        proof {
            assert(self.clients@.take(n as int) =~= self.clients@);
        }
        targets
    }

    /// Consume one event at time `now` and answer with the effect the
    /// caller must carry out. Events are consumed one at a time, so
    /// every transition is atomic with respect to every other.
    pub fn handle_event(&mut self, e: Event, now: u64) -> (r: Effect)
        ensures
            final(self).clients@ =~= step_clients(old(self).clients@, old(self).bans@, e, now),
            final(self).bans@ =~= step_bans(old(self).bans@, e, now),
            old(self).wf() ==> final(self).wf(),
            match e {
                Event::Connected { addr } => {
                    &&& r is Rejected <==> ban_active(old(self).bans@, addr.ip, now)
                    &&& r matches Effect::Rejected { remaining } ==> remaining == ban_remaining(
                        old(self).bans@,
                        addr.ip,
                        now,
                    )
                    &&& !ban_active(old(self).bans@, addr.ip, now) ==> r == Effect::Admitted
                },
                Event::Disconnected { .. } => r == Effect::Departed,
                Event::Message { addr, bytes } => r matches Effect::Deliver {
                    targets,
                    bytes: body,
                } && targets@ =~= delivery_targets(old(self).clients@, addr) && body@ == bytes@,
            },
    {
        match e {
            Event::Connected { addr } => self.on_connected(addr, now),
            Event::Disconnected { addr } => self.on_disconnected(addr),
            Event::Message { addr, bytes } => {
                let targets = self.on_message(addr);
                Effect::Deliver { targets, bytes }
            },
        }
    }

    /// The policy hook that populates the ban table: record that `ip`
    /// is banned as of `banned_at`, replacing any earlier record for
    /// it. No reachable transition calls this by itself; a flood
    /// policy, or pre-seeding at start, drives it. The live table is
    /// untouched.
    pub fn record_ban(&mut self, ip: u128, banned_at: u64)
        ensures
            final(self).bans@ =~= bans_without(old(self).bans@, ip).push(
                BanRecord { ip, banned_at },
            ),
            final(self).clients@ == old(self).clients@,
            old(self).wf() ==> final(self).wf(),
    {
        let cleaned = without_ip(&self.bans, ip);
        self.bans = cleaned;
        self.bans.push(BanRecord { ip, banned_at });
        proof {
            if old(self).wf() {
                lemma_bans_without_unique(old(self).bans@, ip);
                let sub = bans_without(old(self).bans@, ip);
                assert forall|k: int| 0 <= k < sub.len() implies sub[k].ip != ip by {
                    old(self).bans@.lemma_filter_pred(|r: BanRecord| r.ip != ip, k);
                }
            }
        }
    }
}

} // verus!
