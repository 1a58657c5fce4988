use traffic_sim::wire::{encode_frame, parse_lane_pairs, FrameRecord};

#[test]
fn parses_one_pair() {
    assert_eq!(parse_lane_pairs("0:0"), Some(vec![(0, 0)]));
}

#[test]
fn parses_several_pairs_in_order() {
    assert_eq!(parse_lane_pairs("0:1;1:2;12:255"), Some(vec![(0, 1), (1, 2), (12, 255)]));
    assert_eq!(parse_lane_pairs("007:01"), Some(vec![(7, 1)]));
}

#[test]
fn does_not_read_beyond_a_second_colon() {
    assert_eq!(parse_lane_pairs("1:2:x;3:4"), Some(vec![(1, 2), (3, 4)]));
}

#[test]
fn rejects_malformed_pairs() {
    assert_eq!(parse_lane_pairs(""), None);
    assert_eq!(parse_lane_pairs("1"), None);
    assert_eq!(parse_lane_pairs("1:"), None);
    assert_eq!(parse_lane_pairs(":1"), None);
    assert_eq!(parse_lane_pairs("1:2;"), None);
    assert_eq!(parse_lane_pairs(";1:2"), None);
    assert_eq!(parse_lane_pairs("a:b"), None);
    assert_eq!(parse_lane_pairs("1:-2"), None);
    assert_eq!(parse_lane_pairs("1: 2"), None);
    assert_eq!(parse_lane_pairs("1:256"), None);
    assert_eq!(parse_lane_pairs("1:99999999999999999999999"), None);
}

#[test]
fn an_empty_frame_is_code_step_and_end_mark() {
    let mut out = vec![];
    encode_frame(&mut out, 7, &vec![]);
    assert_eq!(out, vec![0, 0, 0, 1, 0, 0, 0, 7, 255, 255, 255, 255]);
}

#[test]
fn a_frame_writes_each_field_most_significant_byte_first() {
    let mut out = vec![9];
    let records = vec![
        FrameRecord {
            user_id: 0x0102_0304,
            link: 5,
            pos: 0x42c8_0000,
            vel: 0x4120_0000,
            lat: 0xbf80_0000,
            dlat: 0,
        },
        FrameRecord { user_id: 6, link: 0xffff_ffff, pos: 1, vel: 2, lat: 3, dlat: 0x8000_0000 },
    ];
    encode_frame(&mut out, 0x0001_0000, &records);
    let want: Vec<u8> = vec![
        9, 0, 0, 0, 1, 0, 1, 0, 0, 1, 2, 3, 4, 0, 0, 0, 5, 0x42, 0xc8, 0, 0, 0x41, 0x20, 0, 0, 0xbf,
        0x80, 0, 0, 0, 0, 0, 0, 0, 0, 0, 6, 255, 255, 255, 255, 0, 0, 0, 1, 0, 0, 0, 2, 0, 0, 0, 3, 0x80,
        0, 0, 0, 255, 255, 255, 255,
    ];
    assert_eq!(out, want);
}

#[test]
fn frames_follow_one_another_in_the_buffer() {
    let mut out = vec![];
    encode_frame(&mut out, 1, &vec![]);
    encode_frame(&mut out, 2, &vec![]);
    assert_eq!(out.len(), 24);
    assert_eq!(&out[12..20], &[0, 0, 0, 1, 0, 0, 0, 2]);
}
