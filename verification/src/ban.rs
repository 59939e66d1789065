use vstd::prelude::*;

verus! {

/// Length of the ban window in seconds: a banned IP is refused
/// admission while fewer than this many seconds have elapsed since the
/// ban was recorded (ten minutes).
pub const BAN_LIMIT_SECS: u64 = 600;

/// One entry of the ban table: `ip` has been banned since `banned_at`
/// (a timestamp in whole seconds).
#[derive(Clone, Copy, PartialEq, Eq, Structural, Debug)]
pub struct BanRecord {
    pub ip: u128,
    pub banned_at: u64,
}

/// The first record for `ip` in the table, front to back; `None` when
/// the table holds no record for it.
pub open spec fn ban_lookup(bans: Seq<BanRecord>, ip: u128) -> Option<BanRecord>
    decreases bans.len(),
{
    if bans.len() == 0 {
        None
    } else if bans.first().ip == ip {
        Some(bans.first())
    } else {
        ban_lookup(bans.drop_first(), ip)
    }
}

/// Whole seconds elapsed since `banned_at`, clamped at zero for a
/// record dated after `now`.
pub open spec fn elapsed_since(banned_at: u64, now: u64) -> u64 {
    if now >= banned_at {
        (now - banned_at) as u64
    } else {
        0
    }
}

/// A record still bans its IP while its window has not fully elapsed.
pub open spec fn record_active(rec: BanRecord, now: u64) -> bool {
    elapsed_since(rec.banned_at, now) < BAN_LIMIT_SECS
}

/// The table currently bans `ip`: it holds a record for it whose
/// window has not yet elapsed.
pub open spec fn ban_active(bans: Seq<BanRecord>, ip: u128, now: u64) -> bool {
    match ban_lookup(bans, ip) {
        Some(rec) => record_active(rec, now),
        None => false,
    }
}

/// Whole seconds left of an active ban.
pub open spec fn ban_remaining(bans: Seq<BanRecord>, ip: u128, now: u64) -> u64
    recommends
        ban_active(bans, ip, now),
{
    (BAN_LIMIT_SECS - elapsed_since(ban_lookup(bans, ip).unwrap().banned_at, now)) as u64
}

/// The table with every record for `ip` removed.
pub open spec fn bans_without(bans: Seq<BanRecord>, ip: u128) -> Seq<BanRecord> {
    bans.filter(|rec: BanRecord| rec.ip != ip)
}

/// What a lookup in the ban table found for a connecting IP.
#[derive(Clone, Copy, PartialEq, Eq, Debug)]
pub enum BanCheck {
    /// No record: the IP is free to connect.
    Clear,
    /// A record exists but its window has elapsed: the caller should
    /// discard the stale record, then admit.
    Expired,
    /// The IP is banned for `remaining` more whole seconds.
    Active { remaining: u64 },
}

/// The pure ban policy: decide from the table alone whether `ip` may
/// connect at time `now`. Never mutates anything; an `Expired` result
/// signals the caller to remove the stale record itself.
pub fn check_ban(bans: &Vec<BanRecord>, ip: u128, now: u64) -> (r: BanCheck)
    ensures
        r is Active <==> ban_active(bans@, ip, now),
        r matches BanCheck::Active { remaining } ==> remaining == ban_remaining(
            bans@,
            ip,
            now,
        ) && 0 < remaining <= BAN_LIMIT_SECS,
        r is Clear <==> ban_lookup(bans@, ip) is None,
        r is Expired <==> (ban_lookup(bans@, ip) is Some && !ban_active(bans@, ip, now)),
{
    let n = bans.len();
    let mut i: usize = 0;
    proof {
        assert(bans@.skip(0) =~= bans@);
    }
    while i < n
        invariant
            n == bans@.len(),
            i <= n,
            ban_lookup(bans@, ip) == ban_lookup(bans@.skip(i as int), ip),
        decreases n - i,
    {
        let rec = bans[i];
        proof {
            assert(bans@.skip(i as int).first() == bans@[i as int]);
            assert(bans@.skip(i as int).drop_first() =~= bans@.skip(i as int + 1));
        }
        if rec.ip == ip {
            let elapsed = if now >= rec.banned_at {
                now - rec.banned_at
            } else {
                0
            };
            if elapsed < BAN_LIMIT_SECS {
                return BanCheck::Active { remaining: BAN_LIMIT_SECS - elapsed };
            } else {
                return BanCheck::Expired;
            }
        }
        i = i + 1;
    }
    proof {
        assert(bans@.skip(n as int) =~= Seq::<BanRecord>::empty());
    }
    BanCheck::Clear
}

/// What `ban_lookup` answers about the table as a whole: `None` means
/// no record carries the IP, `Some` returns a record of the table that
/// carries it.
pub proof fn lemma_lookup_props(bans: Seq<BanRecord>, ip: u128)
    ensures
        ban_lookup(bans, ip) is None ==> forall|j: int|
            0 <= j < bans.len() ==> bans[j].ip != ip,
        ban_lookup(bans, ip) matches Some(rec) ==> rec.ip == ip && bans.contains(rec),
    decreases bans.len(),
{
    if bans.len() > 0 {
        if bans.first().ip != ip {
            lemma_lookup_props(bans.drop_first(), ip);
            if ban_lookup(bans, ip) is None {
                assert forall|j: int| 0 <= j < bans.len() implies bans[j].ip != ip by {
                    if j > 0 {
                        assert(bans.drop_first()[j - 1] == bans[j]);
                    }
                }
            }
            if ban_lookup(bans, ip) is Some {
                let rec = ban_lookup(bans, ip).unwrap();
                assert(bans.drop_first().contains(rec));
                let j = choose|j: int|
                    0 <= j < bans.drop_first().len() && bans.drop_first()[j] == rec;
                assert(bans[j + 1] == rec);
            }
        } else {
            assert(bans.contains(bans.first()));
        }
    }
}

/// Removing an IP from the table removes it for lookup too.
pub proof fn lemma_without_lookup(bans: Seq<BanRecord>, ip: u128)
    ensures
        ban_lookup(bans_without(bans, ip), ip) is None,
{
    broadcast use vstd::seq_lib::group_filter_ensures;

    let cleaned = bans_without(bans, ip);
    lemma_lookup_props(cleaned, ip);
    if ban_lookup(cleaned, ip) is Some {
        let rec = ban_lookup(cleaned, ip).unwrap();
        let j = choose|j: int| 0 <= j < cleaned.len() && cleaned[j] == rec;
        assert(cleaned[j].ip != ip);
        assert(false);
    }
}

} // verus!
