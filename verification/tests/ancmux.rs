use rtpbin2::ancmux::{
    frame_duration, gap_duration, is_for_later, line_runs, merge, next_position, verdict, window,
    Placed, Verdict, Window,
};

const MS: u64 = 1_000_000;

fn placed(line: u16, offset: u16, count: u16, token: usize) -> Placed {
    Placed { line, offset, count, token }
}

#[test]
fn frame_duration_is_rounded() {
    assert_eq!(frame_duration(25, 1), Some(40 * MS));
    assert_eq!(frame_duration(30000, 1001), Some(33_366_667));
    assert_eq!(frame_duration(60000, 1001), Some(16_683_333));
    assert_eq!(frame_duration(3, 1), Some(333_333_333));
    assert_eq!(frame_duration(1, i32::MAX), Some(2_147_483_647_000_000_000));
    assert_eq!(frame_duration(0, 1), None);
    assert_eq!(frame_duration(-25, 1), None);
    assert_eq!(frame_duration(25, 0), None);
}

#[test]
fn window_starts_at_the_position() {
    assert_eq!(window(None, 100, 40), Window { start: 100, end: 140, duration: 40 });
    assert_eq!(window(Some(50), 100, 40), Window { start: 100, end: 140, duration: 40 });
    assert_eq!(window(Some(500), 100, 40), Window { start: 500, end: 540, duration: 40 });
    assert_eq!(window(Some(500), 100, 0), Window { start: 500, end: 500, duration: 0 });
    assert_eq!(
        window(Some(u64::MAX - 1), 0, 40),
        Window { start: u64::MAX - 1, end: u64::MAX, duration: 40 }
    );
}

#[test]
fn packets_at_the_end_of_a_frame_are_for_the_next() {
    let w = window(Some(100), 0, 40);
    assert!(!is_for_later(&w, 100));
    assert!(!is_for_later(&w, 139));
    assert!(is_for_later(&w, 140));
    assert!(is_for_later(&w, 141));
    assert!(!is_for_later(&w, 50));
    // Without a frame rate a packet at the position goes out.
    let w = window(Some(100), 0, 0);
    assert!(!is_for_later(&w, 100));
    assert!(is_for_later(&w, 101));
}

#[test]
fn waiting_ending_and_output() {
    assert_eq!(verdict(false, false, false), Verdict::NeedData);
    assert_eq!(verdict(false, true, false), Verdict::NeedData);
    assert_eq!(verdict(true, true, false), Verdict::Eos);
    assert_eq!(verdict(false, true, true), Verdict::Eos);
    assert_eq!(verdict(true, false, false), Verdict::Output);
    assert_eq!(verdict(false, false, true), Verdict::Output);
}

#[test]
fn gap_and_next_position() {
    let framed = window(Some(100), 0, 40);
    assert_eq!(gap_duration(&framed, Some(500)), 40);
    assert_eq!(gap_duration(&framed, None), 40);
    assert_eq!(next_position(&framed, Some(500), Some(100)), Some(140));
    let free = window(Some(100), 0, 0);
    assert_eq!(gap_duration(&free, Some(500)), 400);
    assert_eq!(gap_duration(&free, None), 0);
    assert_eq!(next_position(&free, Some(500), Some(100)), Some(500));
    assert_eq!(next_position(&free, None, Some(100)), Some(100 + 40 * MS));
    assert_eq!(next_position(&free, None, None), None);
    assert_eq!(next_position(&free, None, Some(u64::MAX)), Some(u64::MAX));
}

#[test]
fn first_offer_wins_where_packets_overlap() {
    let offers = vec![
        placed(9, 10, 5, 0),
        placed(9, 12, 5, 1),  // starts inside token 0
        placed(9, 5, 6, 2),   // ends inside token 0
        placed(9, 15, 3, 3),  // right behind token 0
        placed(9, 5, 5, 4),   // right in front of token 0
        placed(8, 10, 5, 5),  // another line
        placed(9, 0, 100, 6), // around everything
    ];
    let out = merge(&offers);
    assert_eq!(
        out,
        vec![placed(8, 10, 5, 5), placed(9, 5, 5, 4), placed(9, 10, 5, 0), placed(9, 15, 3, 3)]
    );
}

#[test]
fn empty_packets_share_no_words() {
    // An empty packet inside another one starts within it.
    assert_eq!(merge(&vec![placed(1, 0, 10, 0), placed(1, 5, 0, 1)]), vec![placed(1, 0, 10, 0)]);
    // At the end of another one it does not.
    assert_eq!(
        merge(&vec![placed(1, 0, 10, 0), placed(1, 10, 0, 1)]),
        vec![placed(1, 0, 10, 0), placed(1, 10, 0, 1)]
    );
    // Of two empty packets at one place the later offer stays.
    assert_eq!(merge(&vec![placed(1, 5, 0, 0), placed(1, 5, 0, 1)]), vec![placed(1, 5, 0, 1)]);
    // A packet that starts where an empty one stands holds its place.
    assert_eq!(merge(&vec![placed(1, 5, 0, 0), placed(1, 5, 3, 1)]), vec![placed(1, 5, 0, 0)]);
    assert!(merge(&vec![]).is_empty());
}

#[test]
fn packets_at_the_end_of_the_line_do_not_wrap() {
    let out = merge(&vec![placed(1, 65535, 65535, 0), placed(1, 0, 4, 1)]);
    assert_eq!(out, vec![placed(1, 0, 4, 1), placed(1, 65535, 65535, 0)]);
}

#[test]
fn lines_are_found_in_the_output() {
    let out = merge(&vec![
        placed(9, 10, 5, 0),
        placed(7, 0, 1, 1),
        placed(9, 20, 5, 2),
        placed(9, 0, 5, 3),
        placed(12, 3, 1, 4),
    ]);
    assert_eq!(line_runs(&out), vec![(0, 1), (1, 3), (4, 1)]);
    assert!(line_runs(&vec![]).is_empty());
}

#[test]
fn header_fields_are_read_bit_by_bit() {
    // Line 9, offset 0, DID 0x61, SDID 0x01, two user data words.
    let data: [u8; 12] = [0x00, 0x02, 0x40, 0x01, 0x61, 0x80, 0x50, 0x2f, 0xfc, 0x00, 0xaa, 0xbf];
    let header = rtpbin2::ancmux::parse_header(&data).unwrap();
    assert!(!header.c_not_y_channel_flag);
    assert_eq!(header.line_number, 9);
    assert_eq!(header.horizontal_offset, 0);
    assert_eq!(header.did, 0x61);
    assert_eq!(header.sdid, 0x01);
    assert_eq!(header.data_count, 2);
    // One byte short of the checksum.
    assert_eq!(rtpbin2::ancmux::parse_header(&data[..11]), None);
}

#[test]
fn header_with_largest_fields() {
    let data: [u8; 9] = [0x03, 0x19, 0x7f, 0xff, 0xff, 0x00, 0x00, 0x00, 0x00];
    let header = rtpbin2::ancmux::parse_header(&data).unwrap();
    assert!(header.c_not_y_channel_flag);
    assert_eq!(header.line_number, 1125);
    assert_eq!(header.horizontal_offset, 4095);
    assert_eq!(header.did, 0xff);
    assert_eq!(header.sdid, 0);
    assert_eq!(header.data_count, 0);
}

#[test]
fn data_that_is_no_ancillary_packet() {
    assert_eq!(rtpbin2::ancmux::parse_header(&[]), None);
    assert_eq!(rtpbin2::ancmux::parse_header(&[0; 7]), None);
    // Eight bytes hold 64 bits, a packet has at least 70.
    assert_eq!(rtpbin2::ancmux::parse_header(&[0; 8]), None);
    assert!(rtpbin2::ancmux::parse_header(&[0; 9]).is_some());
    // The first six bits are not zero.
    assert_eq!(rtpbin2::ancmux::parse_header(&[0x04, 0, 0, 0, 0, 0, 0, 0, 0]), None);
    // 255 user data words need 2620 bits.
    let mut data = vec![0u8; 327];
    data[6] = 0x0f;
    data[7] = 0xf0;
    assert_eq!(rtpbin2::ancmux::parse_header(&data), None);
    data.push(0);
    assert_eq!(rtpbin2::ancmux::parse_header(&data).unwrap().data_count, 255);
}
