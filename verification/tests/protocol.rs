use rdma_rpc::error::Error;
use rdma_rpc::messages::QPInfo;
use rdma_rpc::packet::Packet;
use rdma_rpc::session::Session;
use rdma_rpc::transport::{Transport, MAX_DATA_BYTES};

fn test_qp_info(n: u32) -> QPInfo {
    QPInfo { lid: n, gid_subnet_prefix: 1, gid_interface_id: 2, qp_num: n, qkey: 7 }
}

fn new_two_transport() -> (Transport, Transport) {
    Transport::new_pair(test_qp_info(1), test_qp_info(2))
}

fn new_random_data(n_bytes: usize) -> Vec<u8> {
    let mut data = Vec::with_capacity(n_bytes);
    let mut i = 0;
    while i < n_bytes {
        data.push(rand::random::<u8>());
        i += 1;
    }
    data
}

fn send_value(session: &mut Session, value: &Vec<u8>) {
    session.send(bincode::serialize(value).unwrap()).unwrap();
}

fn recv_value(session: &mut Session) -> Vec<u8> {
    let payload = session.recv().unwrap();
    bincode::deserialize(&payload).unwrap()
}

#[test]
fn it_works() {
    let (mut tp1, mut tp2) = new_two_transport();

    let data = new_random_data(MAX_DATA_BYTES);
    let packet = Packet::new(0, 0, data.clone());
    tp1.send_burst(vec![packet]).unwrap();

    let mut received_packet = tp2.recv().unwrap();

    assert_eq!(data, received_packet.remove(0).into_data());
}

#[test]
fn try_recv() {
    let (mut tp1, mut tp2) = new_two_transport();

    let packet = Packet::new(0, 0, new_random_data(64));
    let data = packet.clone().into_data();
    tp1.send_burst(vec![packet]).unwrap();

    let mut received_packet = tp2.recv().unwrap();

    assert_eq!(data, received_packet.remove(0).into_data());
}

#[test]
fn try_recv_not_block() {
    let (mut tp1, mut tp2) = new_two_transport();

    let packet = Packet::new(0, 0, new_random_data(64));
    let data = packet.clone().into_data();

    assert!(tp2.try_recv().unwrap().is_empty());

    tp1.send_burst(vec![packet]).unwrap();

    let mut received_packet = tp2.recv().unwrap();

    assert_eq!(data, received_packet.remove(0).into_data());
}

#[test]
fn session_works() {
    let (tp1, tp2) = new_two_transport();
    let (mut s1, mut s2) = (Session::new(0, tp1), Session::new(0, tp2));

    let bytes1 = new_random_data(64);
    let bytes1_c = bytes1.clone();
    let bytes2 = new_random_data(64);
    let bytes2_c = bytes2.clone();

    crossbeam::scope(|scope| {
        let s1_handle = scope.spawn(move |_| {
            s1.send_bytes(bytes1.clone()).unwrap();
            assert_eq!(recv_value(&mut s1), bytes2);
        });

        let s2_handle = scope.spawn(move |_| {
            assert_eq!(s2.recv_bytes().unwrap(), bytes1_c);
            send_value(&mut s2, &bytes2_c);
        });

        s1_handle.join().unwrap();
        s2_handle.join().unwrap();
    })
    .unwrap();
}

#[test]
// test whether the data will be successfully divided into small packets and received correctly by the remote
fn send_bytes_huge() {
    let (tp1, tp2) = new_two_transport();
    let (mut s1, mut s2) = (Session::new(0, tp1), Session::new(0, tp2));

    let huge_bytes = new_random_data(4 * 1024 * 1024); // 4MB
    let huge_bytes_c = huge_bytes.clone(); // 4MB

    crossbeam::scope(|scope| {
        let s1_handle = scope.spawn(move |_| {
            s1.send_bytes(huge_bytes).unwrap();
        });

        let s2_handle = scope.spawn(move |_| {
            let mut buffer = vec![];
            while buffer.len() != huge_bytes_c.len() {
                let mut bytes = s2.recv_bytes().unwrap();
                buffer.append(&mut bytes);
            }
            assert_eq!(buffer, huge_bytes_c);
        });

        s1_handle.join().unwrap();
        s2_handle.join().unwrap();
    })
    .unwrap();
}

#[test]
// test whether the data will be successfully divided into small packets and received correctly by the remote
fn send_huge() {
    let (tp1, tp2) = new_two_transport();
    let (mut s1, mut s2) = (Session::new(0, tp1), Session::new(0, tp2));

    let huge_bytes = new_random_data(4 * 1024 * 1024); // 4MB
    let huge_bytes_c = huge_bytes.clone(); // 4MB

    crossbeam::scope(|scope| {
        let s1_handle = scope.spawn(move |_| {
            send_value(&mut s1, &huge_bytes);
        });

        let s2_handle = scope.spawn(move |_| {
            assert_eq!(recv_value(&mut s2), huge_bytes_c);
        });

        s1_handle.join().unwrap();
        s2_handle.join().unwrap();
    })
    .unwrap();
}

#[test]
// send 1000 small packets
fn send_small_packets() {
    const N_PACKETS: usize = 1000;
    let (tp1, tp2) = new_two_transport();
    let (mut s1, mut s2) = (Session::new(0, tp1), Session::new(0, tp2));

    let bytes = new_random_data(64);

    crossbeam::scope(|scope| {
        let s1_handle = scope.spawn(move |_| {
            for _ in 0..N_PACKETS {
                s1.send_bytes(bytes.clone()).unwrap();
            }
        });

        let s2_handle = scope.spawn(move |_| {
            let mut total = 0;
            while total < N_PACKETS * 64 {
                total += s2.recv_bytes().unwrap().len();
            }
            assert_eq!(total, N_PACKETS * 64);
        });

        s1_handle.join().unwrap();
        s2_handle.join().unwrap();
    })
    .unwrap();
}

#[test]
// duplicated and reordered datagrams change nothing: the session delivers
// each payload once, in sequence order
fn duplicates_and_reorder_tolerated() {
    let (mut injector, tp2) = new_two_transport();
    let mut receiver = Session::new(9, tp2);

    let first = Packet::new(0, 9, vec![1u8, 2, 3]);
    let second = Packet::new(1, 9, vec![4u8, 5]);

    // deliver out of order, with duplicates of both fragments
    injector
        .send_burst(vec![
            second.clone(),
            first.clone(),
            second.clone(),
            first.clone(),
            first.clone(),
        ])
        .unwrap();

    assert_eq!(receiver.recv_bytes().unwrap(), vec![1u8, 2, 3, 4, 5]);

    // a late duplicate of an already delivered fragment is dropped,
    // and fresh data still comes through unharmed
    let third = Packet::new(2, 9, vec![6u8]);
    injector.send_burst(vec![first.clone(), third]).unwrap();
    assert_eq!(receiver.recv_bytes().unwrap(), vec![6u8]);
}

#[test]
// a session id other than the receiver's own is fatal
fn session_id_mismatch_is_fatal() {
    let (mut injector, tp2) = new_two_transport();
    let mut receiver = Session::new(9, tp2);

    let stray = Packet::new(0, 8, vec![1u8]);
    injector.send_burst(vec![stray]).unwrap();

    assert!(matches!(receiver.recv_bytes(), Err(Error::Internal(_))));
}

#[test]
// a datagram that is not a packet image surfaces as a codec error from
// the transport, and the receive buffer is re-posted so later traffic
// still flows
fn malformed_datagram_is_rejected() {
    let (tx, rx) = rdma_rpc::wire::wire_pair();
    let (spare_tx, _spare_rx) = rdma_rpc::wire::wire_pair();
    let mut transport = Transport::new(spare_tx, rx, test_qp_info(3));

    assert!(rdma_rpc::wire::wire_send(&tx, vec![1u8, 2, 3]));
    assert!(matches!(transport.recv(), Err(Error::DecodeEncode(_))));

    let probe = Packet::new(0, 0, vec![9u8]);
    let bytes = rdma_rpc::packet::encode_packet(&probe);
    assert!(rdma_rpc::wire::wire_send(&tx, bytes));
    let mut received = transport.recv().unwrap();
    assert_eq!(received.remove(0).into_data(), vec![9u8]);
}

#[test]
// a closed inbound wire surfaces as a receive error
fn closed_wire_is_a_receive_error() {
    let (tx, rx) = rdma_rpc::wire::wire_pair();
    let (spare_tx, _spare_rx) = rdma_rpc::wire::wire_pair();
    let mut transport = Transport::new(spare_tx, rx, test_qp_info(4));

    drop(tx);
    assert!(matches!(transport.recv(), Err(Error::Receive)));
}

#[test]
// a framed message may carry an empty payload: the frame alone crosses
// the wire and an empty byte run comes back out
fn empty_message_round_trips() {
    let (mut injector, tp2) = new_two_transport();
    let mut receiver = Session::new(9, tp2);

    let empty_frame = Packet::new(0, 9, vec![0u8; 8]);
    injector.send_burst(vec![empty_frame]).unwrap();

    assert_eq!(receiver.recv().unwrap(), Vec::<u8>::new());
}

#[test]
// a length prefix no message could satisfy is rejected instead of
// driving the reassembly loop into the ground
fn absurd_length_prefix_is_rejected() {
    let (mut injector, tp2) = new_two_transport();
    let mut receiver = Session::new(9, tp2);

    let bogus_frame = Packet::new(0, 9, vec![0xFFu8; 8]);
    injector.send_burst(vec![bogus_frame]).unwrap();

    assert!(matches!(receiver.recv(), Err(Error::DecodeEncode(_))));
}

#[test]
fn session_reports_its_id() {
    let (tp1, _tp2) = new_two_transport();
    let session = Session::new(42, tp1);
    assert_eq!(session.id(), 42);
}

#[test]
fn transport_reports_its_endpoint() {
    let (tp1, tp2) = new_two_transport();
    assert_eq!(tp1.qp_info(), test_qp_info(1));
    assert_eq!(tp2.qp_info(), test_qp_info(2));
}
