use lib::{
    FrameComponentHeader, HuffmanTableData, JFIFImage, JFIFUnits, JFIFVersion,
    ScanComponentHeader, ScanComponentPlan, SegmentEvent,
};

fn header() -> Vec<u8> {
    vec![
        0xff, 0xd8, 0xff, 0xe0, 0x00, 0x10, b'J', b'F', b'I', b'F', 0x00, 0x01, 0x01, 0x02,
        0x00, 0x48, 0x01, 0x2c, 0x04, 0x03,
    ]
}

fn quantization_segment(slot: u8, first: u8) -> Vec<u8> {
    let mut v = vec![0xff, 0xdb, 0x00, 0x43, slot];
    v.extend((0..64u8).map(|k| first.wrapping_add(k)));
    v
}

fn frame_segment() -> Vec<u8> {
    vec![
        0xff, 0xc0, 0x00, 0x11, 0x08, 0x00, 0x10, 0x00, 0x08, 0x03, 0x01, 0x22, 0x00, 0x02, 0x11,
        0x00, 0x03, 0x11, 0x00,
    ]
}

fn huffman_segment(class_and_slot: u8) -> Vec<u8> {
    let counts = [0u8, 1, 5, 1, 1, 1, 1, 1, 1, 0, 0, 0, 0, 0, 0, 0];
    let mut v = vec![0xff, 0xc4, 0x00, 31, class_and_slot];
    v.extend_from_slice(&counts);
    v.extend(0..12u8);
    v
}

fn scan_segment() -> Vec<u8> {
    vec![
        0xff, 0xda, 0x00, 0x0c, 0x03, 0x01, 0x00, 0x02, 0x00, 0x03, 0x00, 0x00, 0x3f, 0x00,
    ]
}

fn baseline_file() -> Vec<u8> {
    let mut v = header();
    v.extend(quantization_segment(0, 1));
    v.extend(frame_segment());
    v.extend(huffman_segment(0x00));
    v.extend(huffman_segment(0x10));
    v.extend(scan_segment());
    v.extend([0x12, 0x34, 0x56]);
    v
}

#[test]
fn parse_rejects_short_input() {
    let r = JFIFImage::parse(vec![0xff, 0xd8, 0xff]);
    assert_eq!(r.err(), Some("input is too short".to_string()));
    let r = JFIFImage::parse(vec![0; 10]);
    assert_eq!(r.err(), Some("input is too short".to_string()));
}

#[test]
fn parse_rejects_a_header_mismatch() {
    let mut v = header();
    v[7] = b'X';
    assert_eq!(JFIFImage::parse(v).err(), Some("Header mismatch".to_string()));
    let mut v = header();
    v[1] = 0xd9;
    v.truncate(11);
    assert_eq!(JFIFImage::parse(v).err(), Some("Header mismatch".to_string()));
}

#[test]
fn parse_rejects_an_unknown_version() {
    let mut v = header();
    v[12] = 3;
    assert_eq!(
        JFIFImage::parse(v).err(),
        Some("Illegal version: (1, 3)".to_string())
    );
    let mut v = header();
    v[11] = 2;
    v[12] = 0;
    v.truncate(13);
    assert_eq!(
        JFIFImage::parse(v).err(),
        Some("Illegal version: (2, 0)".to_string())
    );
}

#[test]
fn parse_of_a_bare_header() {
    let img = JFIFImage::parse(header()).unwrap();
    assert_eq!(img.version(), JFIFVersion::V1_01);
    assert_eq!(img.units(), JFIFUnits::DotsPerInch);
    assert_eq!(img.dimensions(), (0x48, 0x012c));
    assert_eq!(img.thumbnail_dimensions(), (4, 3));
    assert_eq!(img.comment(), &None);
    for slot in 0..4 {
        assert_eq!(img.huffman_ac_table(slot), &None);
        assert_eq!(img.huffman_dc_table(slot), &None);
        assert_eq!(img.quantization_table(slot), &None);
    }
    assert!(img.frame_header().is_none());
}

#[test]
fn parse_segments_cannot_go_through_a_truncated_header() {
    let mut v = header();
    v.truncate(12);
    assert!(JFIFImage::parse_segments(&v).is_none());
    let mut v = header();
    v.truncate(19);
    assert!(JFIFImage::parse_segments(&v).is_none());
}

#[test]
fn parse_of_a_baseline_file() {
    let img = JFIFImage::parse(baseline_file()).unwrap();
    assert_eq!(img.version(), JFIFVersion::V1_01);
    let q: Vec<u8> = (1..65).collect();
    assert_eq!(img.quantization_table(0), &Some(q));
    assert_eq!(img.quantization_table(1), &None);
    let table = HuffmanTableData {
        counts: vec![0, 1, 5, 1, 1, 1, 1, 1, 1, 0, 0, 0, 0, 0, 0, 0],
        values: (0..12).collect(),
    };
    assert_eq!(img.huffman_dc_table(0), &Some(table.clone()));
    assert_eq!(img.huffman_ac_table(0), &Some(table));
    assert_eq!(img.huffman_dc_table(1), &None);
    let frame = img.frame_header().as_ref().unwrap();
    assert_eq!(frame.sample_precision, 8);
    assert_eq!(frame.num_lines, 16);
    assert_eq!(frame.samples_per_line, 8);
    assert_eq!(frame.image_components, 3);
    assert_eq!(
        frame.frame_components[0],
        FrameComponentHeader {
            component_id: 1,
            horizontal_sampling_factor: 2,
            vertical_sampling_factor: 2,
            quantization_selector: 0
        }
    );
    assert_eq!(frame.frame_components[2].component_id, 3);
}

#[test]
fn parse_segments_reports_the_scan() {
    let (_, events) = JFIFImage::parse_segments(&baseline_file()).unwrap().unwrap();
    assert_eq!(events.len(), 1);
    match &events[0] {
        SegmentEvent::Scan(plan) => {
            // the scan segment starts at 20 + 69 + 19 + 33 + 33 = 174
            assert_eq!(plan.data_start, 174 + 2 * 3 + 8);
            assert_eq!(plan.header.num_components, 3);
            assert_eq!(plan.header.end_spectral_selection, 0x3f);
            assert_eq!(
                plan.header.scan_components[1],
                ScanComponentHeader {
                    scan_component_selector: 2,
                    dc_table_selector: 0,
                    ac_table_selector: 0
                }
            );
            let table = HuffmanTableData {
                counts: vec![0, 1, 5, 1, 1, 1, 1, 1, 1, 0, 0, 0, 0, 0, 0, 0],
                values: (0..12).collect(),
            };
            let q: Vec<u8> = (1..65).collect();
            let expected: Vec<ScanComponentPlan> = (0..3)
                .map(|k| ScanComponentPlan {
                    block_list: k,
                    ac_table: table.clone(),
                    dc_table: table.clone(),
                    quantization_table: q.clone(),
                })
                .collect();
            assert_eq!(plan.components, expected);
        }
        other => panic!("unexpected event {:?}", other),
    }
}

#[test]
fn a_scan_without_its_tables_cannot_be_read() {
    let mut v = header();
    v.extend(quantization_segment(0, 1));
    v.extend(frame_segment());
    v.extend(huffman_segment(0x00));
    v.extend(scan_segment());
    v.extend([0, 0, 0]);
    assert!(JFIFImage::parse_segments(&v).is_none());
}

#[test]
fn a_scan_without_a_frame_cannot_be_read() {
    let mut v = header();
    v.extend(quantization_segment(0, 1));
    v.extend(huffman_segment(0x00));
    v.extend(huffman_segment(0x10));
    v.extend(scan_segment());
    v.extend([0, 0, 0]);
    assert!(JFIFImage::parse_segments(&v).is_none());
}

#[test]
fn a_later_quantization_table_replaces_an_earlier_one() {
    let mut v = header();
    v.extend(quantization_segment(2, 10));
    v.extend(quantization_segment(2, 100));
    let img = JFIFImage::parse(v).unwrap();
    let q: Vec<u8> = (100..164).collect();
    assert_eq!(img.quantization_table(2), &Some(q));
}

#[test]
fn a_quantization_table_may_end_with_the_data() {
    let mut v = header();
    v.extend([0xff, 0xdb, 0x00, 0x43, 0x03, 7, 8, 9]);
    let img = JFIFImage::parse(v).unwrap();
    assert_eq!(img.quantization_table(3), &Some(vec![7, 8, 9]));
}

#[test]
fn a_quantization_slot_from_four_on_cannot_be_read() {
    let mut v = header();
    v.extend(quantization_segment(4, 0));
    assert!(JFIFImage::parse_segments(&v).is_none());
}

#[test]
fn huffman_counts_over_255_cannot_be_read() {
    let mut v = header();
    v.extend([0xff, 0xc4, 0x00, 0x20, 0x00]);
    v.extend([255u8, 1, 0, 0, 0, 0, 0, 0, 0, 0, 0, 0, 0, 0, 0, 0]);
    v.extend(vec![0u8; 256]);
    assert!(JFIFImage::parse_segments(&v).is_none());
}

#[test]
fn an_unknown_marker_stops_the_reader() {
    let mut v = header();
    v.extend([0xff, 0xe1, 0x00, 0x04, 0xaa, 0xbb]);
    v.extend([0xff, 0xdd, 0x00, 0x04]);
    let (img, events) = JFIFImage::parse_segments(&v).unwrap().unwrap();
    assert!(img.frame_header().is_none());
    assert_eq!(
        events,
        vec![SegmentEvent::UnhandledMarker { position: 20, data_length: 2 }]
    );
}

#[test]
fn a_restart_interval_cannot_be_read() {
    let mut v = header();
    v.extend([0xff, 0xdd, 0x00, 0x04, 0x00, 0x10]);
    assert!(JFIFImage::parse_segments(&v).is_none());
}

#[test]
fn comments_and_application_segments_are_passed_over() {
    let mut v = header();
    v.extend([0xff, 0xfe, 0x00, 0x05, b'a', b'b', b'c']);
    v.extend([0xff, 0xec, 0x00, 0x03, 0x01]);
    v.extend([0xff, 0xee, 0x00, 0x02]);
    v.extend(quantization_segment(1, 0));
    let (img, events) = JFIFImage::parse_segments(&v).unwrap().unwrap();
    assert_eq!(events, vec![SegmentEvent::Comment { start: 24, length: 3 }]);
    assert_eq!(img.comment(), &None);
    assert!(img.quantization_table(1).is_some());
}

#[test]
fn a_comment_past_the_end_cannot_be_read() {
    let mut v = header();
    v.extend([0xff, 0xfe, 0x00, 0x09, b'a', b'b']);
    assert!(JFIFImage::parse_segments(&v).is_none());
}

#[test]
fn a_segment_length_below_two_cannot_be_read() {
    let mut v = header();
    v.extend([0xff, 0xec, 0x00, 0x01]);
    assert!(JFIFImage::parse_segments(&v).is_none());
}

#[test]
fn a_segment_cut_before_its_length_cannot_be_read() {
    let mut v = header();
    v.extend([0xff, 0xec, 0x00]);
    assert!(JFIFImage::parse_segments(&v).is_none());
}

#[test]
fn a_frame_that_does_not_fit_cannot_be_read() {
    let mut v = header();
    let mut f = frame_segment();
    f.truncate(17);
    v.extend(f);
    assert!(JFIFImage::parse_segments(&v).is_none());
}

#[test]
fn huffman_segment_extent_ends_at_its_position_plus_length() {
    // Two tables in one segment whose length covers both: the reader stops reading tables
    // at the segment position plus the announced length, so the second is read as well
    // only when it starts before that point.
    let counts = [1u8, 0, 0, 0, 0, 0, 0, 0, 0, 0, 0, 0, 0, 0, 0, 0];
    let mut v = header();
    v.extend([0xff, 0xc4, 0x00, 2 + 18 + 18, 0x01]);
    v.extend_from_slice(&counts);
    v.push(7);
    v.push(0x11);
    v.extend_from_slice(&counts);
    v.push(8);
    let img = JFIFImage::parse(v).unwrap();
    assert_eq!(
        img.huffman_dc_table(1),
        &Some(HuffmanTableData { counts: counts.to_vec(), values: vec![7] })
    );
    assert_eq!(
        img.huffman_ac_table(1),
        &Some(HuffmanTableData { counts: counts.to_vec(), values: vec![8] })
    );
}

#[test]
fn a_scan_uses_the_tables_defined_before_it() {
    let mut v = header();
    v.extend(quantization_segment(0, 1));
    v.extend(frame_segment());
    v.extend(huffman_segment(0x00));
    v.extend(huffman_segment(0x10));
    let mut scan = scan_segment();
    // the component 2 entry selects itself twice: once at position 1, once at 2
    scan[9] = 0x02;
    v.extend(scan);
    // after a scan the reader moves on by the scan header and by the announced length,
    // which counts the scan header too: the next segment starts 14 bytes after the scan
    v.extend([0u8; 14]);
    // a later quantization table for slot 0 does not change the scan's plan
    v.extend(quantization_segment(0, 200));
    let (img, events) = JFIFImage::parse_segments(&v).unwrap().unwrap();
    let later: Vec<u8> = (0..64u8).map(|k| 200u8.wrapping_add(k)).collect();
    assert_eq!(img.quantization_table(0), &Some(later));
    match &events[0] {
        SegmentEvent::Scan(plan) => {
            let q: Vec<u8> = (1..65).collect();
            assert_eq!(plan.components[0].quantization_table, q);
            assert_eq!(plan.components[1].block_list, 1);
            assert_eq!(plan.components[2].block_list, 1);
        }
        other => panic!("unexpected event {:?}", other),
    }
}

#[test]
fn within_one_quantization_segment_the_last_entry_for_a_slot_wins() {
    let mut v = header();
    let mut seg = vec![0xff, 0xdb, 0x00, 2 + 3 * 65];
    for (slot, first) in [(1u8, 10u8), (0x12, 50), (1, 90)] {
        seg.push(slot);
        seg.extend((0..64u8).map(|k| first.wrapping_add(k)));
    }
    v.extend(seg);
    let img = JFIFImage::parse(v).unwrap();
    assert_eq!(img.quantization_table(1), &Some((90..154).collect::<Vec<u8>>()));
    assert_eq!(img.quantization_table(2), &Some((50..114).collect::<Vec<u8>>()));
    assert_eq!(img.quantization_table(0), &None);
}

#[test]
fn within_one_huffman_segment_the_last_table_for_a_class_and_slot_wins() {
    let counts = [2u8, 0, 0, 0, 0, 0, 0, 0, 0, 0, 0, 0, 0, 0, 0, 0];
    let mut v = header();
    v.extend([0xff, 0xc4, 0x00, 2 + 3 * 19]);
    for (class_and_slot, a, b) in [(0x03u8, 1u8, 2u8), (0x13, 3, 4), (0x03, 5, 6)] {
        v.push(class_and_slot);
        v.extend_from_slice(&counts);
        v.extend([a, b]);
    }
    let img = JFIFImage::parse(v).unwrap();
    assert_eq!(
        img.huffman_dc_table(3),
        &Some(HuffmanTableData { counts: counts.to_vec(), values: vec![5, 6] })
    );
    assert_eq!(
        img.huffman_ac_table(3),
        &Some(HuffmanTableData { counts: counts.to_vec(), values: vec![3, 4] })
    );
}

#[test]
fn application_and_comment_segments_can_be_dropped() {
    let mut rest = quantization_segment(1, 7);
    rest.extend(frame_segment());
    for seg in [
        vec![0xff, 0xec, 0x00, 0x04, 1, 2],
        vec![0xff, 0xee, 0x00, 0x02],
        vec![0xff, 0xfe, 0x00, 0x05, 0xc3, 0x28, 0x41],
    ] {
        let mut with = header();
        with.extend(seg);
        with.extend(rest.clone());
        let mut without = header();
        without.extend(rest.clone());
        let a = JFIFImage::parse(with).unwrap();
        let b = JFIFImage::parse(without).unwrap();
        assert_eq!(a.quantization_table(1), b.quantization_table(1));
        assert_eq!(a.frame_header(), b.frame_header());
        assert_eq!(a.comment(), &None);
    }
}

#[test]
fn an_unknown_marker_keeps_what_was_read_before_it() {
    let mut v = header();
    v.extend(quantization_segment(3, 20));
    v.extend([0x12, 0x34, 0x00, 0x02, 0xff, 0xdd, 0x00]);
    let (img, events) = JFIFImage::parse_segments(&v).unwrap().unwrap();
    assert_eq!(img.quantization_table(3), &Some((20..84).collect::<Vec<u8>>()));
    assert_eq!(
        events,
        vec![SegmentEvent::UnhandledMarker { position: 20 + 69, data_length: 0 }]
    );
}
