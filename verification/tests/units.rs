use rdma_rpc::bytes_buf::{BufferError, BytesMut};
use rdma_rpc::error::Error;
use rdma_rpc::frame::{frame_message, u64_from_be_bytes, u64_to_be_bytes};
use rdma_rpc::messages::{
    decode_qp_info, decode_session_info, encode_qp_info, encode_session_info, QPInfo, SessionInfo,
};
use rdma_rpc::packet::{decode_packet, encode_packet, Packet, PACKET_HEADER_BYTES};
use rdma_rpc::pool::BufferPool;
use rdma_rpc::tcp_types::{assemble_cur_buffer, build_u32_from_u8, Message, Response};
use rdma_rpc::SlidingWindow;

#[test]
fn sliding_window_walks_the_slice() {
    let data = [1, 2, 3];
    let mut window = SlidingWindow::new(data.as_slice(), 2);
    assert_eq!(&[1, 2], window.get());
    assert_eq!(*window.first(), 1);
    assert_eq!(*window.last(), 2);
    window.slide();
    assert_eq!(&[2, 3], window.get());
    window.slide();
    assert_eq!(&[3], window.get());
    assert_eq!(*window.first(), 3);
    assert_eq!(*window.last(), 3);
    window.slide();
    assert!(window.is_closed());
}

#[test]
fn sliding_window_capacity_may_exceed_the_slice() {
    let data = [7, 8, 9];
    let window = SlidingWindow::new(data.as_slice(), 10);
    assert_eq!(&[7, 8, 9], window.get());
    assert_eq!(*window.last(), 9);
}

#[test]
fn buffer_pool_conserves_ids() {
    let mut pool = BufferPool::new(4);

    let a = pool.acquire_free().unwrap();
    let b = pool.acquire_free().unwrap();
    let c = pool.acquire_free().unwrap();
    let d = pool.acquire_free().unwrap();
    assert_eq!(vec![a, b, c, d], vec![0, 1, 2, 3]);
    assert!(pool.acquire_free().is_none());

    pool.mark_free(a).unwrap();
    assert_eq!(pool.acquire_free(), Some(a));

    assert!(matches!(pool.mark_free(9999), Err(Error::Unknown(9999))));
}

#[test]
fn buffer_pool_stores_and_reads_back() {
    let mut pool = BufferPool::new(2);
    let id = pool.acquire_free().unwrap();
    pool.store(id, vec![7u8, 8, 9]);
    assert_eq!(pool.get(id).unwrap(), &vec![7u8, 8, 9]);
    assert!(matches!(pool.get(2), Err(Error::Unknown(2))));
}

#[test]
fn packet_codec_round_trips() {
    let packet = Packet::new(3, 17, vec![10u8, 20, 30, 40]);
    let bytes = encode_packet(&packet);
    assert_eq!(bytes.len(), PACKET_HEADER_BYTES + 4);

    let decoded = decode_packet(bytes.as_slice()).unwrap();
    assert!(!decoded.is_ack());
    assert_eq!(decoded.seq(), 3);
    assert_eq!(decoded.session_id(), 17);
    assert_eq!(decoded.ack(), 0);
    assert_eq!(decoded.into_data(), vec![10u8, 20, 30, 40]);
}

#[test]
fn ack_packet_codec_round_trips() {
    let packet = Packet::new_ack(99, 5);
    let bytes = encode_packet(&packet);
    assert_eq!(bytes.len(), PACKET_HEADER_BYTES);

    let decoded = decode_packet(bytes.as_slice()).unwrap();
    assert!(decoded.is_ack());
    assert_eq!(decoded.ack(), 99);
    assert_eq!(decoded.session_id(), 5);
    assert!(decoded.into_data().is_empty());
}

#[test]
fn packet_codec_layout_is_fixed() {
    let packet = Packet::new(2, 3, vec![0xAAu8]);
    let bytes = encode_packet(&packet);
    let mut expected = vec![0u8]; // data packet flag
    expected.extend_from_slice(&[0; 8]); // ack word
    expected.extend_from_slice(&[2, 0, 0, 0, 0, 0, 0, 0]); // sequence word
    expected.extend_from_slice(&[3, 0, 0, 0, 0, 0, 0, 0]); // session word
    expected.extend_from_slice(&[1, 0, 0, 0, 0, 0, 0, 0]); // payload length
    expected.push(0xAA);
    assert_eq!(bytes, expected);
}

#[test]
fn packet_codec_rejects_malformed_input() {
    // too short for a header
    assert!(decode_packet(&[0u8; 10]).is_none());
    // a flag byte that is neither data nor acknowledgement
    let packet = Packet::new_ack(1, 1);
    let mut bytes = encode_packet(&packet);
    bytes[0] = 2;
    assert!(decode_packet(bytes.as_slice()).is_none());
    // a payload length that disagrees with the actual length
    let mut bytes = encode_packet(&Packet::new(0, 0, vec![5u8, 6]));
    bytes.truncate(bytes.len() - 1);
    assert!(decode_packet(bytes.as_slice()).is_none());
}

#[test]
fn big_endian_words_round_trip() {
    let bytes = u64_to_be_bytes(0x0102_0304_0506_0708);
    assert_eq!(bytes, vec![1u8, 2, 3, 4, 5, 6, 7, 8]);
    assert_eq!(u64_from_be_bytes(bytes.as_slice()), 0x0102_0304_0506_0708);
}

#[test]
fn frame_prefixes_the_length() {
    let framed = frame_message(vec![0xAu8, 0xB, 0xC]);
    assert_eq!(framed, vec![0u8, 0, 0, 0, 0, 0, 0, 3, 0xA, 0xB, 0xC]);
}

#[test]
fn qp_info_codec_round_trips() {
    let info = QPInfo {
        lid: 7,
        gid_subnet_prefix: 0xFE80_0000_0000_0000,
        gid_interface_id: 0x1234,
        qp_num: 88,
        qkey: 0x1111,
    };
    let bytes = encode_qp_info(&info);
    assert_eq!(bytes.len(), 28);
    assert_eq!(decode_qp_info(bytes.as_slice()), Some(info));
    assert_eq!(decode_qp_info(&bytes[1..]), None);
}

#[test]
fn session_info_codec_round_trips() {
    let info = SessionInfo {
        qp_info: QPInfo {
            lid: 1,
            gid_subnet_prefix: 2,
            gid_interface_id: 3,
            qp_num: 4,
            qkey: 5,
        },
        session_id: 0xDEAD_BEEF,
    };
    let bytes = encode_session_info(&info);
    assert_eq!(bytes.len(), 36);
    assert_eq!(decode_session_info(bytes.as_slice()), Some(info));
    assert_eq!(decode_session_info(&bytes[..35]), None);
}

#[test]
fn response_checksum_is_exact() {
    let resp = Response::new(0, 0);
    assert_eq!(resp.check_sum, 0xFFFF_FFFF);
    assert!(resp.check_checksum());

    let mut forged = Response::new(4, 9);
    assert!(forged.check_checksum());
    forged.seq_num = 5;
    assert!(!forged.check_checksum());
    forged.set_checksum();
    assert!(forged.check_checksum());
}

#[test]
fn message_checksum_covers_the_payload() {
    let msg = Message::new(0, 0, [0, 0, 0, 0]);
    assert_eq!(msg.check_sum, 0xFFFF_FFFF);
    assert!(msg.check_checksum());

    let mut tampered = Message::new(3, 1, [9, 8, 7, 6]);
    assert!(tampered.check_checksum());
    tampered.content[0] = 0;
    assert!(!tampered.check_checksum());
}

#[test]
fn build_u32_reads_big_endian() {
    assert_eq!(build_u32_from_u8(&[1, 2, 3, 4]), Ok(0x0102_0304));
    assert_eq!(build_u32_from_u8(&[1, 2, 3, 4, 5]), Ok(0x0102_0304));
    assert_eq!(build_u32_from_u8(&[1, 2, 3]), Err(()));
}

#[test]
fn assemble_overwrites_only_the_target_range() {
    let mut buffer = [0u8; 8];
    assemble_cur_buffer(&mut buffer, &[1, 2, 3], 2);
    assert_eq!(buffer, [0, 0, 1, 2, 3, 0, 0, 0]);
}

#[test]
fn bytes_mut_respects_its_capacity() {
    let mut buf = BytesMut::with_capacity(4).unwrap();
    buf.write(&[1, 2, 3]).unwrap();
    assert_eq!(buf.as_slice(), &[1, 2, 3]);

    assert!(matches!(buf.write(&[4, 5]), Err(BufferError::NoSpace)));
    assert_eq!(buf.as_slice(), &[1, 2, 3]);

    buf.write(&[4]).unwrap();
    assert_eq!(buf.as_slice(), &[1, 2, 3, 4]);

    assert!(matches!(buf.resize(5), Err(BufferError::NoSpace)));
    buf.resize(2).unwrap();
    assert_eq!(buf.as_slice(), &[1, 2]);
    buf.resize(4).unwrap();
    assert_eq!(buf.as_slice(), &[1, 2, 0, 0]);
}
