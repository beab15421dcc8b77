use network_inventory::capture::{
    check_datalink, plan_capture, CapStats, CaptureAction, CaptureEvent, CapturePlan,
    CaptureSession, SocketStats, PROGRESS_INTERVAL,
};
use network_inventory::inventory::{handle_packet, DeviceStats, Inventory};

fn frame(n: u8) -> Vec<u8> {
    let mut frame = vec![0u8; 20];
    frame[5] = n;
    frame[11] = 0xEE;
    frame
}

#[test]
fn plans() {
    assert_eq!(plan_capture(true, false, 8), CapturePlan::File);
    assert_eq!(plan_capture(true, true, 8), CapturePlan::File);
    assert_eq!(plan_capture(false, true, 0), CapturePlan::Live);
    assert_eq!(plan_capture(false, true, 1), CapturePlan::Live);
    assert_eq!(plan_capture(false, true, 2), CapturePlan::LiveFanout(2));
    assert_eq!(plan_capture(false, false, 4), CapturePlan::Nothing);
}

#[test]
fn only_ethernet() {
    assert_eq!(check_datalink(1, "EN10MB"), Ok(()));
    assert_eq!(
        check_datalink(113, "LINUX_SLL"),
        Err("Datalink no soportado: LINUX_SLL (esperado Ethernet, LINKTYPE_ETHERNET=1).\n\
             Esta herramienta lee las MACs de la cabecera Ethernet. Capturas con 'tcpdump -i any' \
             (LINUX_SLL) o sin capa 2 (RAW) no sirven; capturá sobre una interfaz Ethernet concreta."
            .to_string())
    );
    assert!(check_datalink(0, "NULL").is_err());
    assert!(check_datalink(101, "RAW").is_err());
    assert!(check_datalink(-1, "").is_err());
}

#[test]
fn events_and_actions() {
    let mut session = CaptureSession::new(false, true);
    let data = frame(1);
    assert_eq!(session.step(CaptureEvent::Timeout), CaptureAction::Continue);
    assert_eq!(session.step(CaptureEvent::Packet(&data)), CaptureAction::Continue);
    assert_eq!(session.step(CaptureEvent::Packet(&data)), CaptureAction::Continue);
    assert_eq!(session.step(CaptureEvent::EndOfCapture), CaptureAction::Finish);
    assert_eq!(session.step(CaptureEvent::StopRequested), CaptureAction::Finish);
    assert_eq!(session.step(CaptureEvent::Failed), CaptureAction::Abort);
    assert_eq!(session.packets, 2);
    assert_eq!(session.inventory.len(), 2);
    assert_eq!(
        session.inventory[&[0, 0, 0, 0, 0, 1]],
        DeviceStats { src_count: 0, dst_count: 2 }
    );
}

#[test]
fn nothing_is_lost_when_a_capture_ends() {
    let frames = [frame(1), frame(2), frame(3), frame(1)];
    let mut expected = Inventory::default();
    for f in &frames {
        handle_packet(f, &mut expected, false);
    }
    for end in [CaptureEvent::StopRequested, CaptureEvent::EndOfCapture, CaptureEvent::Failed] {
        let mut session = CaptureSession::new(false, false);
        for f in &frames {
            session.step(CaptureEvent::Packet(f));
            session.step(CaptureEvent::Timeout);
        }
        let action = session.step(end);
        assert!(action == CaptureAction::Finish || action == CaptureAction::Abort);
        assert_eq!(session.inventory, expected);
        assert_eq!(session.packets, 4);
    }
}

#[test]
fn timeouts_change_nothing() {
    let frames = [frame(1), frame(2), frame(1)];
    let mut plain = CaptureSession::new(false, false);
    let mut slow = CaptureSession::new(false, false);
    for f in &frames {
        let action = plain.step(CaptureEvent::Packet(f));
        assert_eq!(slow.step(CaptureEvent::Timeout), CaptureAction::Continue);
        assert_eq!(slow.step(CaptureEvent::Timeout), CaptureAction::Continue);
        assert_eq!(slow.step(CaptureEvent::Packet(f)), action);
    }
    slow.step(CaptureEvent::Timeout);
    assert_eq!(slow.inventory, plain.inventory);
    assert_eq!(slow.packets, plain.packets);
}

#[test]
fn captures_add_to_what_was_counted_before() {
    let mut session = CaptureSession::new(false, true);
    session.inventory.insert([0, 0, 0, 0, 0, 1], DeviceStats { src_count: 70, dst_count: 80 });
    session.step(CaptureEvent::Packet(&frame(1)));
    assert_eq!(session.packets, 1);
    assert_eq!(
        session.inventory[&[0, 0, 0, 0, 0, 1]],
        DeviceStats { src_count: 70, dst_count: 81 }
    );
}

#[test]
fn short_frames_count_as_packets() {
    let mut session = CaptureSession::new(true, true);
    session.step(CaptureEvent::Packet(&[1, 2, 3]));
    assert_eq!(session.packets, 1);
    assert!(session.inventory.is_empty());
}

#[test]
fn progress_every_half_million() {
    let data = frame(1);
    for quiet in [false, true] {
        let mut session = CaptureSession::new(false, quiet);
        session.packets = PROGRESS_INTERVAL - 2;
        assert_eq!(session.step(CaptureEvent::Packet(&data)), CaptureAction::Continue);
        let expected = if quiet {
            CaptureAction::Continue
        } else {
            CaptureAction::Progress(500_000)
        };
        assert_eq!(session.step(CaptureEvent::Packet(&data)), expected);
        assert_eq!(session.step(CaptureEvent::Packet(&data)), CaptureAction::Continue);
        session.packets = 2 * PROGRESS_INTERVAL;
        assert_eq!(session.step(CaptureEvent::Timeout), CaptureAction::Continue);
    }
}

#[test]
fn statistics_add_up() {
    let mut totals = CapStats::default();
    assert_eq!(totals, CapStats { received: 0, dropped: 0, if_dropped: 0 });
    assert!(!totals.lost_packets());
    totals.add_socket(&SocketStats { received: u32::MAX, dropped: 0, if_dropped: 0 });
    totals.add_socket(&SocketStats { received: 1, dropped: 0, if_dropped: 0 });
    assert_eq!(totals, CapStats { received: 1 << 32, dropped: 0, if_dropped: 0 });
    assert!(!totals.lost_packets());
    totals.add_socket(&SocketStats { received: 0, dropped: 2, if_dropped: 0 });
    assert!(totals.lost_packets());
    let mut other = CapStats::default();
    other.add_socket(&SocketStats { received: 0, dropped: 0, if_dropped: 3 });
    assert_eq!(other.if_dropped, 3);
    assert!(other.lost_packets());
}
