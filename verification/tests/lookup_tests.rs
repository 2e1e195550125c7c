use lib::{FrameComponentHeader, FrameHeader, ScanComponentHeader, ScanHeader};

fn frame() -> FrameHeader {
    let comp = |id: u8, q: u8| FrameComponentHeader {
        component_id: id,
        horizontal_sampling_factor: 1,
        vertical_sampling_factor: 1,
        quantization_selector: q,
    };
    FrameHeader {
        sample_precision: 8,
        num_lines: 16,
        samples_per_line: 8,
        image_components: 3,
        frame_components: vec![comp(1, 0), comp(2, 1), comp(1, 3)],
    }
}

fn scan() -> ScanHeader {
    let comp = |id: u8, dc: u8, ac: u8| ScanComponentHeader {
        scan_component_selector: id,
        dc_table_selector: dc,
        ac_table_selector: ac,
    };
    ScanHeader {
        num_components: 3,
        scan_components: vec![comp(5, 0, 1), comp(6, 2, 3), comp(5, 1, 1)],
        start_spectral_selection: 0,
        end_spectral_selection: 63,
        successive_approximation_bit_pos_high: 0,
        successive_approximation_bit_pos_low: 0,
    }
}

#[test]
fn quantization_table_id_takes_the_first_matching_component() {
    let f = frame();
    assert_eq!(f.quantization_table_id(1), Some(0));
    assert_eq!(f.quantization_table_id(2), Some(1));
}

#[test]
fn quantization_table_id_of_an_absent_component_is_none() {
    let f = frame();
    assert_eq!(f.quantization_table_id(3), None);
    let empty = FrameHeader {
        sample_precision: 8,
        num_lines: 0,
        samples_per_line: 0,
        image_components: 0,
        frame_components: vec![],
    };
    assert_eq!(empty.quantization_table_id(1), None);
}

#[test]
fn scan_component_header_takes_the_first_matching_component() {
    let s = scan();
    assert_eq!(
        s.scan_component_header(5),
        Some(ScanComponentHeader {
            scan_component_selector: 5,
            dc_table_selector: 0,
            ac_table_selector: 1
        })
    );
    assert_eq!(
        s.scan_component_header(6),
        Some(ScanComponentHeader {
            scan_component_selector: 6,
            dc_table_selector: 2,
            ac_table_selector: 3
        })
    );
    assert_eq!(s.scan_component_header(7), None);
}
