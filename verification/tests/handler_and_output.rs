use chat_relay::address::Address;
use chat_relay::handler::{copy_prefix, handler_step, ReadOutcome};
use chat_relay::registry::Event;
use chat_relay::sensitive::display_sensitive;

fn addr(ip: u128, port: u16) -> Address {
    Address { ip, port }
}

#[test]
fn clean_close_emits_one_disconnect_and_stops() {
    let buffer = [0u8; 512];
    let step = handler_step(addr(1, 1), &buffer, ReadOutcome::Closed);
    assert_eq!(step.event, Event::Disconnected { addr: addr(1, 1) });
    assert!(step.done);
}

#[test]
fn read_error_emits_one_disconnect_and_stops() {
    let buffer = [0u8; 512];
    let step = handler_step(addr(1, 1), &buffer, ReadOutcome::Failed);
    assert_eq!(step.event, Event::Disconnected { addr: addr(1, 1) });
    assert!(step.done);
}

#[test]
fn received_bytes_become_a_verbatim_message_and_reading_goes_on() {
    let mut buffer = [0u8; 512];
    buffer[0] = b'h';
    buffer[1] = b'i';
    buffer[2] = b'!';
    let step = handler_step(addr(9, 9), &buffer, ReadOutcome::Received { count: 2 });
    assert_eq!(
        step.event,
        Event::Message { addr: addr(9, 9), bytes: b"hi".to_vec() }
    );
    assert!(!step.done);
}

#[test]
fn copy_prefix_takes_exactly_the_first_count_bytes() {
    let buffer = [5u8, 6, 7, 8];
    assert_eq!(copy_prefix(&buffer, 0), Vec::<u8>::new());
    assert_eq!(copy_prefix(&buffer, 3), vec![5, 6, 7]);
    assert_eq!(copy_prefix(&buffer, 4), vec![5, 6, 7, 8]);
}

#[test]
fn safe_mode_redacts_printed_text() {
    assert_eq!(display_sensitive(true, "127.0.0.1:6969"), "[REDACTED]");
    assert_eq!(display_sensitive(false, "127.0.0.1:6969"), "127.0.0.1:6969");
}
