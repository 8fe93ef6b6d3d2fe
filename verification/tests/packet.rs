use rtpbin2::packet::{classify, read_rtp, Datagram, RtpPacket};

#[test]
fn rtp_header_fields_are_read() {
    let data: [u8; 16] = [
        0x80, 0x60, 0x01, 0x02, 0x03, 0x04, 0x05, 0x06, 0x07, 0x08, 0x09, 0x10, 0xaa, 0xbb, 0xcc,
        0xdd,
    ];
    let expected = RtpPacket {
        payload_type: 96,
        sequence_number: 0x0102,
        timestamp: 0x0304_0506,
        ssrc: 0x0708_0910,
        payload_len: 4,
    };
    assert_eq!(read_rtp(&data), Some(expected));
    assert_eq!(classify(&data), Datagram::Rtp(expected));
}

#[test]
fn marker_bit_is_not_part_of_the_payload_type() {
    let data: [u8; 12] = [0x80, 0xe0, 0, 1, 0, 0, 0, 2, 0, 0, 0, 3];
    let packet = read_rtp(&data).unwrap();
    assert_eq!(packet.payload_type, 96);
    assert_eq!(packet.sequence_number, 1);
    assert_eq!(packet.timestamp, 2);
    assert_eq!(packet.ssrc, 3);
    assert_eq!(packet.payload_len, 0);
}

#[test]
fn csrc_extension_and_padding_are_not_payload() {
    // One contributing source, an extension of one word, two bytes of
    // payload and two bytes of padding.
    let data: [u8; 28] = [
        0xb1, 0x08, 0x00, 0x07, 0x00, 0x00, 0x00, 0x64, 0x11, 0x22, 0x33, 0x44, // header
        0x55, 0x66, 0x77, 0x88, // csrc
        0xbe, 0xde, 0x00, 0x01, 0x01, 0x02, 0x03, 0x04, // extension
        0xf0, 0xf1, // payload
        0x00, 0x02, // padding
    ];
    let packet = read_rtp(&data).unwrap();
    assert_eq!(packet.payload_type, 8);
    assert_eq!(packet.sequence_number, 7);
    assert_eq!(packet.timestamp, 100);
    assert_eq!(packet.ssrc, 0x1122_3344);
    assert_eq!(packet.payload_len, 2);
}

#[test]
fn truncated_datagram_is_malformed() {
    let data: [u8; 11] = [0x80, 0x60, 0x01, 0x02, 0x03, 0x04, 0x05, 0x06, 0x07, 0x08, 0x09];
    assert_eq!(read_rtp(&data), None);
    assert_eq!(classify(&data), Datagram::Malformed);
    assert_eq!(classify(&[]), Datagram::Malformed);
}

#[test]
fn wrong_version_is_malformed() {
    let data: [u8; 12] = [0x40, 0x60, 0, 1, 0, 0, 0, 2, 0, 0, 0, 3];
    assert_eq!(read_rtp(&data), None);
    assert_eq!(classify(&data), Datagram::Malformed);
}

#[test]
fn zero_padding_is_malformed() {
    let data: [u8; 13] = [0xa0, 0x60, 0, 1, 0, 0, 0, 2, 0, 0, 0, 3, 0];
    assert_eq!(read_rtp(&data), None);
}

#[test]
fn padding_longer_than_the_packet_is_malformed() {
    let data: [u8; 13] = [0xa0, 0x60, 0, 1, 0, 0, 0, 2, 0, 0, 0, 3, 2];
    assert_eq!(read_rtp(&data), None);
    let data: [u8; 13] = [0xa0, 0x60, 0, 1, 0, 0, 0, 2, 0, 0, 0, 3, 1];
    assert_eq!(read_rtp(&data).unwrap().payload_len, 0);
}

#[test]
fn missing_csrc_is_malformed() {
    let data: [u8; 14] = [0x81, 0x60, 0, 1, 0, 0, 0, 2, 0, 0, 0, 3, 0, 0];
    assert_eq!(read_rtp(&data), None);
}

#[test]
fn rtcp_on_the_rtp_path_is_recognised() {
    // A receiver report without report blocks, 8 bytes. As RTP it would
    // need 12 bytes, so it is no RTP packet.
    let data: [u8; 8] = [0x80, 201, 0x00, 0x01, 0x12, 0x34, 0x56, 0x78];
    assert_eq!(read_rtp(&data), None);
    assert_eq!(classify(&data), Datagram::Rtcp);
}

#[test]
fn rtcp_with_wrong_length_is_malformed() {
    // The length field announces three words, the datagram holds two.
    let data: [u8; 8] = [0x80, 201, 0x00, 0x02, 0x12, 0x34, 0x56, 0x78];
    assert_eq!(classify(&data), Datagram::Malformed);
}
