use hyper_fs::{ChunkStream, Delivery, Pump, PumpStep};

#[test]
fn full_channel_keeps_the_item_without_reading_again() {
    let mut p = Pump::new(ChunkStream::whole(10, 4));
    assert_eq!(p.next(), PumpStep::Read(0, 4));
    p.delivered(Delivery::Full);
    assert_eq!(p.next(), PumpStep::Send);
    p.delivered(Delivery::Sent);
    assert_eq!(p.next(), PumpStep::Read(4, 4));
    p.delivered(Delivery::Sent);
    assert_eq!(p.next(), PumpStep::Read(8, 2));
    p.delivered(Delivery::Sent);
    assert_eq!(p.next(), PumpStep::Finish);
    assert_eq!(p.next(), PumpStep::Finish);
}

#[test]
fn closed_channel_stops_reading() {
    let mut p = Pump::new(ChunkStream::ranges(vec![(0, 9), (20, 29)], 5));
    assert_eq!(p.next(), PumpStep::Read(0, 5));
    p.delivered(Delivery::Closed);
    assert_eq!(p.next(), PumpStep::Finish);
    assert!(p.closed);
}

#[test]
fn read_error_is_the_last_item() {
    let mut p = Pump::new(ChunkStream::whole(100, 10));
    assert_eq!(p.next(), PumpStep::Read(0, 10));
    p.failed();
    assert_eq!(p.next(), PumpStep::Send);
    p.delivered(Delivery::Sent);
    assert_eq!(p.next(), PumpStep::Finish);
}

#[test]
fn range_reads_follow_request_order() {
    let mut s = ChunkStream::ranges(vec![(5, 5), (0, 0), (3, 7)], 3);
    let mut reads = vec![];
    while let Some(r) = s.next_read() {
        reads.push(r);
    }
    assert_eq!(reads, vec![(5, 1), (0, 1), (3, 3), (6, 2)]);
}

#[test]
fn closed_channel_drops_the_held_item() {
    let mut p = Pump::new(ChunkStream::whole(8, 4));
    assert_eq!(p.next(), PumpStep::Read(0, 4));
    p.delivered(Delivery::Closed);
    assert!(!p.holding);
    assert_eq!(p.next(), PumpStep::Finish);
}
