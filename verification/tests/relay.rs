use chat_relay::address::Address;
use chat_relay::ban::{check_ban, BanCheck, BanRecord, BAN_LIMIT_SECS};
use chat_relay::registry::{Effect, Event, Registry};

fn addr(ip: u128, port: u16) -> Address {
    Address { ip, port }
}

#[test]
fn message_delivered_to_other_client_only() {
    // Client A connects and sends "hi"; B (already connected) receives
    // exactly "hi"; A receives nothing.
    let mut reg = Registry::new();
    let a = addr(10, 1000);
    let b = addr(20, 2000);
    assert_eq!(reg.handle_event(Event::Connected { addr: b }, 1), Effect::Admitted);
    assert_eq!(reg.handle_event(Event::Connected { addr: a }, 2), Effect::Admitted);
    let eff = reg.handle_event(Event::Message { addr: a, bytes: b"hi".to_vec() }, 3);
    match eff {
        Effect::Deliver { targets, bytes } => {
            assert_eq!(targets, vec![b]);
            assert_eq!(bytes, b"hi".to_vec());
            assert!(!targets.contains(&a));
        }
        other => panic!("expected Deliver, got {:?}", other),
    }
}

#[test]
fn banned_reconnect_rejected_with_remaining() {
    // IP banned at T0; an attempt at T0 + 1s is rejected with 599s left
    // and the address never enters the live table.
    let t0: u64 = 5_000;
    let mut reg = Registry::new();
    reg.record_ban(42, t0);
    let eff = reg.handle_event(Event::Connected { addr: addr(42, 7) }, t0 + 1);
    assert_eq!(eff, Effect::Rejected { remaining: 599 });
    assert_eq!(reg.clients.len(), 0);
    assert_eq!(reg.bans.len(), 1);
}

#[test]
fn expired_ban_admitted_and_record_discarded() {
    // bannedAt = T0; an attempt at T0 + 601s (past the 10-minute limit)
    // is admitted normally, and the stale record is removed.
    let t0: u64 = 5_000;
    let mut reg = Registry::new();
    reg.record_ban(42, t0);
    let eff = reg.handle_event(Event::Connected { addr: addr(42, 7) }, t0 + 601);
    assert_eq!(eff, Effect::Admitted);
    assert_eq!(reg.clients.len(), 1);
    assert_eq!(reg.clients[0].addr, addr(42, 7));
    assert_eq!(reg.bans.len(), 0);
}

#[test]
fn ban_boundary_is_exactly_the_limit() {
    // elapsed == BAN_LIMIT is no longer banned; one second earlier is.
    let t0: u64 = 100;
    let mut reg = Registry::new();
    reg.record_ban(9, t0);
    let still = reg.handle_event(Event::Connected { addr: addr(9, 1) }, t0 + BAN_LIMIT_SECS - 1);
    assert_eq!(still, Effect::Rejected { remaining: 1 });
    let free = reg.handle_event(Event::Connected { addr: addr(9, 1) }, t0 + BAN_LIMIT_SECS);
    assert_eq!(free, Effect::Admitted);
}

#[test]
fn disconnect_then_message_skips_the_gone_client() {
    // A, B, C connected; A disconnects; a message from B reaches C
    // only, and A's stale reference causes no error.
    let mut reg = Registry::new();
    let a = addr(1, 1);
    let b = addr(2, 2);
    let c = addr(3, 3);
    reg.handle_event(Event::Connected { addr: a }, 1);
    reg.handle_event(Event::Connected { addr: b }, 2);
    reg.handle_event(Event::Connected { addr: c }, 3);
    assert_eq!(reg.handle_event(Event::Disconnected { addr: a }, 4), Effect::Departed);
    let eff = reg.handle_event(Event::Message { addr: b, bytes: b"x".to_vec() }, 5);
    match eff {
        Effect::Deliver { targets, bytes } => {
            assert_eq!(targets, vec![c]);
            assert_eq!(bytes, b"x".to_vec());
        }
        other => panic!("expected Deliver, got {:?}", other),
    }
}

#[test]
fn disconnect_twice_is_a_no_op() {
    // Two Disconnected events in a row for one address: the second
    // changes nothing and raises no error.
    let mut reg = Registry::new();
    let a = addr(1, 1);
    let b = addr(2, 2);
    reg.handle_event(Event::Connected { addr: a }, 1);
    reg.handle_event(Event::Connected { addr: b }, 2);
    assert_eq!(reg.handle_event(Event::Disconnected { addr: b }, 3), Effect::Departed);
    assert_eq!(reg.clients.len(), 1);
    assert_eq!(reg.handle_event(Event::Disconnected { addr: b }, 4), Effect::Departed);
    assert_eq!(reg.clients.len(), 1);
    assert_eq!(reg.clients[0].addr, a);
}

#[test]
fn reconnect_keeps_one_entry_per_address() {
    // A second Connected event for the same address replaces the prior
    // entry: the live table never holds two entries for one address.
    let mut reg = Registry::new();
    let a = addr(5, 50);
    reg.handle_event(Event::Connected { addr: a }, 10);
    reg.handle_event(Event::Connected { addr: a }, 20);
    assert_eq!(reg.clients.len(), 1);
    assert_eq!(reg.clients[0].addr, a);
    assert_eq!(reg.clients[0].last_message, 20);
    assert_eq!(reg.clients[0].strike_count, 0);
}

#[test]
fn no_client_receives_its_own_bytes() {
    let mut reg = Registry::new();
    let all = [addr(1, 1), addr(2, 2), addr(3, 3)];
    for (k, a) in all.iter().enumerate() {
        reg.handle_event(Event::Connected { addr: *a }, k as u64);
    }
    for a in all.iter() {
        let targets = reg.on_message(*a);
        assert_eq!(targets.len(), 2);
        assert!(!targets.contains(a));
    }
}

#[test]
fn same_ip_different_ports_are_distinct_clients() {
    // The live table is keyed by the full address; the ban table by
    // the bare IP alone.
    let mut reg = Registry::new();
    let a1 = addr(7, 100);
    let a2 = addr(7, 200);
    reg.handle_event(Event::Connected { addr: a1 }, 1);
    reg.handle_event(Event::Connected { addr: a2 }, 2);
    assert_eq!(reg.clients.len(), 2);
    reg.record_ban(7, 10);
    let eff = reg.handle_event(Event::Connected { addr: addr(7, 300) }, 11);
    assert_eq!(eff, Effect::Rejected { remaining: 599 });
}

#[test]
fn check_ban_clear_expired_active() {
    let table = vec![BanRecord { ip: 4, banned_at: 1_000 }];
    assert_eq!(check_ban(&table, 5, 1_000), BanCheck::Clear);
    assert_eq!(check_ban(&table, 4, 1_100), BanCheck::Active { remaining: 500 });
    assert_eq!(check_ban(&table, 4, 1_600), BanCheck::Expired);
    assert_eq!(check_ban(&table, 4, 2_000), BanCheck::Expired);
}

#[test]
fn check_ban_future_record_counts_from_zero() {
    // A record dated after `now` has elapsed zero seconds: the full
    // window is still ahead.
    let table = vec![BanRecord { ip: 4, banned_at: 1_000 }];
    assert_eq!(check_ban(&table, 4, 900), BanCheck::Active { remaining: BAN_LIMIT_SECS });
}

#[test]
fn record_ban_replaces_earlier_record() {
    let mut reg = Registry::new();
    reg.record_ban(8, 100);
    reg.record_ban(8, 900);
    assert_eq!(reg.bans.len(), 1);
    assert_eq!(reg.bans[0], BanRecord { ip: 8, banned_at: 900 });
    // the fresh record counts from its own start
    let eff = reg.handle_event(Event::Connected { addr: addr(8, 1) }, 901);
    assert_eq!(eff, Effect::Rejected { remaining: 599 });
}
