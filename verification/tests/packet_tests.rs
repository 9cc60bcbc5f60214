use stubborn::packet::{Packet, CAPACITY};

#[test]
fn packet_iterator_test() {
    let mut packet = Packet::new();
    println!("{:?}", packet.get(1000));
    let mut len = 0;
    while let Some(x) = packet.next() {
        if x {
            len = len + 1;
        }
    }
    assert_eq!(len, 0);
}

#[test]
fn packet_reads_capacity_bits_then_stops() {
    let mut packet = Packet::new();
    assert_eq!(packet.get(1000), None);
    assert_eq!(packet.get(CAPACITY - 1), Some(false));
    assert_eq!(packet.get(CAPACITY), None);
    let mut count = 0;
    while packet.next().is_some() {
        count += 1;
    }
    assert_eq!(count, CAPACITY);
    assert_eq!(packet.next(), None);
}
