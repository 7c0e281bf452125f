use tun_rs::device::{
    generate_packet_information, payload_sent, should_drop_cleanup, trigger_step, write_result, write_step,
    TriggerStep, WriteNext, WriteOutcome, WriteProgress,
};

#[test]
fn should_drop_cleanup_matches_ownership() {
    assert!(should_drop_cleanup(1, false));
    assert!(!should_drop_cleanup(1, true));
    assert!(!should_drop_cleanup(-1, false));
}

#[test]
fn trigger_refuses_zero_and_fires_once() {
    assert_eq!(trigger_step(0, 0), TriggerStep::Refused);
    assert_eq!(trigger_step(0, 7), TriggerStep::Signal { state: 7 });
    assert_eq!(trigger_step(7, 3), TriggerStep::AlreadyTriggered);
    assert_eq!(trigger_step(7, 0), TriggerStep::Refused);
}

#[test]
fn batch_writes_total_and_keep_the_last_error() {
    let mut p = WriteProgress { total: 0, last_error: None };
    let outcomes = [
        WriteOutcome::Written { len: 100 },
        WriteOutcome::Failed { fatal: false },
        WriteOutcome::Written { len: 50 },
        WriteOutcome::Failed { fatal: false },
    ];
    for (k, o) in outcomes.iter().enumerate() {
        match write_step(p, k, *o) {
            WriteNext::Continue { progress } => p = progress,
            WriteNext::Stop => panic!("no fatal error here"),
        }
    }
    assert_eq!(p.total, 150);
    assert_eq!(write_result(p), Err(3));
    let ok = WriteProgress { total: 42, last_error: None };
    assert_eq!(write_result(ok), Ok(42));
    assert_eq!(write_step(ok, 0, WriteOutcome::Failed { fatal: true }), WriteNext::Stop);
}

#[test]
fn packet_information_header() {
    assert_eq!(generate_packet_information(false, 2, 30), [0, 0, 0, 2]);
    assert_eq!(generate_packet_information(true, 2, 30), [0, 0, 0, 30]);
    assert_eq!(generate_packet_information(true, 2, 0x0102_0304), [1, 2, 3, 4]);
    assert_eq!(payload_sent(104), 100);
    assert_eq!(payload_sent(3), 0);
}
