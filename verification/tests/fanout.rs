use network_inventory::capture::{CapStats, SocketStats};
use network_inventory::fanout::{
    absorb_worker, fanout_argument, fanout_group, fanout_type, FanoutError, FanoutMode,
    WorkerOutcome, PACKET_FANOUT,
};
use network_inventory::inventory::{handle_packet, DeviceStats, Inventory};

fn frame(n: u8) -> Vec<u8> {
    let mut frame = vec![0u8; 20];
    frame[5] = n % 5;
    frame[11] = n % 3;
    frame
}

fn count(frames: &[Vec<u8>]) -> Inventory {
    let mut inventory = Inventory::default();
    for f in frames {
        handle_packet(f, &mut inventory, false);
    }
    inventory
}

#[test]
fn kernel_numbers() {
    assert_eq!(PACKET_FANOUT, 18);
    assert_eq!(fanout_type(FanoutMode::Hash), 0);
    assert_eq!(fanout_type(FanoutMode::Lb), 1);
    assert_eq!(fanout_type(FanoutMode::Cpu), 2);
}

#[test]
fn argument_of_the_socket_option() {
    assert_eq!(fanout_argument(0x1234, 2), 0x0002_1234);
    assert_eq!(fanout_argument(0xFFFF, 0), 0x0000_FFFF);
    assert_eq!(fanout_argument(0, 0x5_0001), 0x0001_0000);
    let arg = fanout_argument(0xBEEF, 1);
    assert_eq!((arg >> 16, arg & 0xFFFF), (1, 0xBEEF));
}

#[test]
fn group_of_a_process() {
    assert_eq!(fanout_group(4242), 4242);
    assert_eq!(fanout_group(0x0012_3456), 0x3456);
    assert_eq!(fanout_group(0x0001_0000), 0);
}

#[test]
fn sockets_count_like_one() {
    let frames: Vec<Vec<u8>> = (0..60).map(frame).collect();
    for sockets in 1..6 {
        let mut inventory = Inventory::default();
        let mut totals = CapStats::default();
        for s in 0..sockets {
            let part: Vec<Vec<u8>> =
                frames.iter().skip(s).step_by(sockets).cloned().collect();
            let stats = SocketStats { received: part.len() as u32, dropped: 1, if_dropped: 0 };
            let outcome: WorkerOutcome<String> =
                WorkerOutcome::Finished(count(&part), Some(stats));
            assert_eq!(absorb_worker(&mut inventory, &mut totals, outcome), Ok(()));
        }
        assert_eq!(inventory, count(&frames));
        assert_eq!(totals, CapStats { received: 60, dropped: sockets as u64, if_dropped: 0 });
    }
}

#[test]
fn merged_counters_are_sums() {
    let mac = [0, 0, 0, 0, 0, 1];
    let mut inventory = Inventory::default();
    let mut totals = CapStats::default();
    for n in 1..=4u64 {
        let mut part = Inventory::default();
        part.insert(mac, DeviceStats { src_count: n, dst_count: 10 * n });
        part.insert([n as u8 * 2, 0, 0, 0, 0, 0], DeviceStats { src_count: n, dst_count: 0 });
        let outcome: WorkerOutcome<String> = WorkerOutcome::Finished(part, None);
        assert_eq!(absorb_worker(&mut inventory, &mut totals, outcome), Ok(()));
    }
    assert_eq!(inventory.len(), 5);
    assert_eq!(inventory[&mac], DeviceStats { src_count: 10, dst_count: 100 });
    assert_eq!(
        inventory[&[6, 0, 0, 0, 0, 0]],
        DeviceStats { src_count: 3, dst_count: 0 }
    );
}

#[test]
fn missing_statistics_add_nothing() {
    let mut inventory = count(&[frame(1)]);
    let mut totals = CapStats { received: 7, dropped: 8, if_dropped: 9 };
    let outcome: WorkerOutcome<String> = WorkerOutcome::Finished(count(&[frame(1)]), None);
    assert_eq!(absorb_worker(&mut inventory, &mut totals, outcome), Ok(()));
    assert_eq!(totals, CapStats { received: 7, dropped: 8, if_dropped: 9 });
    assert_eq!(
        inventory[&[0, 0, 0, 0, 0, 1]],
        DeviceStats { src_count: 2, dst_count: 2 }
    );
}

#[test]
fn failures_are_passed_on() {
    let mut inventory = count(&[frame(1)]);
    let mut totals = CapStats { received: 1, dropped: 0, if_dropped: 0 };
    assert_eq!(
        absorb_worker(&mut inventory, &mut totals, WorkerOutcome::Failed("no device")),
        Err(FanoutError::Worker("no device"))
    );
    assert_eq!(
        absorb_worker::<&str>(&mut inventory, &mut totals, WorkerOutcome::Panicked),
        Err(FanoutError::Panicked)
    );
    assert_eq!(inventory, count(&[frame(1)]));
    assert_eq!(totals, CapStats { received: 1, dropped: 0, if_dropped: 0 });
}
