//! What reading a JFIF file gives, as a function of its bytes.
//!
//! After the fixed 20-byte APP0 header, a file is a run of segments. Each starts with a
//! two-byte marker and a two-byte big-endian length that counts itself, and the reader
//! acts on the markers it knows (JPEG B.2). `spec_parse` is `None` exactly on the files
//! that the reader cannot go through: those whose segments point past the end of the
//! data, select a table slot that does not exist, or use a feature it does not support.
use vstd::prelude::*;
use crate::header::{
    be_u16, illegal_version_message, spec_units, spec_version, JFIFUnits, JFIFVersion,
};
use crate::frame::{
    component_selectors, first_index_of, lemma_first_index_of, spec_quantization_table_id,
    FrameComponentHeader, FrameHeaderModel, ScanComponentHeader, ScanHeaderModel,
};

verus! {

/// A Huffman table specification (JPEG B.2.4.2): the number of codes of each length
/// from 1 to 16, and the values of the codes in order.
pub struct HuffmanTableModel {
    pub counts: Seq<u8>,
    pub values: Seq<u8>,
}

/// How one component of a scan is decoded: the list of decoded blocks it adds to (the
/// position of the first scan component that selects the same frame component), and the
/// tables it is decoded with, as they stand when the scan is met.
pub struct ComponentPlanModel {
    pub block_list: int,
    pub ac_table: HuffmanTableModel,
    pub dc_table: HuffmanTableModel,
    pub quantization_table: Seq<u8>,
}

/// What the reader met on its way through the segments, besides the tables and the frame.
pub enum EventModel {
    /// A comment of `length` bytes at position `start`.
    Comment { start: int, length: int },
    /// A scan, whose entropy-coded data starts at `data_start`.
    Scan { header: ScanHeaderModel, data_start: int, components: Seq<ComponentPlanModel> },
    /// A marker the reader does not know, at `position`; the reader stops there.
    UnhandledMarker { position: int, data_length: int },
}

/// The tables, frame header and events gathered so far.
pub struct ParseModel {
    pub ac_tables: Seq<Option<HuffmanTableModel>>,
    pub dc_tables: Seq<Option<HuffmanTableModel>>,
    pub quantization_tables: Seq<Option<Seq<u8>>>,
    pub frame_header: Option<FrameHeaderModel>,
    pub events: Seq<EventModel>,
}

/// A JFIF image: its header fields and the tables and frame header of its segments.
pub struct ImageModel {
    pub version: JFIFVersion,
    pub units: JFIFUnits,
    pub dimensions: (u16, u16),
    pub thumbnail_dimensions: (u8, u8),
    pub comment: Option<Seq<char>>,
    pub huffman_ac_tables: Seq<Option<HuffmanTableModel>>,
    pub huffman_dc_tables: Seq<Option<HuffmanTableModel>>,
    pub quantization_tables: Seq<Option<Seq<u8>>>,
    pub frame_header: Option<FrameHeaderModel>,
}

/// The number of table slots of each kind.
pub open spec fn num_table_slots() -> nat {
    4
}

/// Nothing read yet: four empty slots of each kind of table, no frame, no events.
pub open spec fn initial_model() -> ParseModel {
    ParseModel {
        ac_tables: Seq::new(num_table_slots(), |k: int| None),
        dc_tables: Seq::new(num_table_slots(), |k: int| None),
        quantization_tables: Seq::new(num_table_slots(), |k: int| None),
        frame_header: None,
        events: Seq::empty(),
    }
}

/// The sum of a sequence of bytes.
pub open spec fn byte_sum(s: Seq<u8>) -> nat
    decreases s.len(),
{
    if s.len() == 0 {
        0
    } else {
        byte_sum(s.drop_last()) + s.last() as nat
    }
}

/// The table entries of a quantization segment (JPEG B.2.4.1) from `index` to `end`:
/// each entry is a byte whose low four bits name the slot, followed by 64 table bytes
/// (fewer where the data ends). `None` where an entry starts past the end of the data or
/// names a slot from 4 on.
pub open spec fn quantization_segment(
    s: Seq<u8>,
    index: int,
    end: int,
    tables: Seq<Option<Seq<u8>>>,
) -> Option<Seq<Option<Seq<u8>>>>
    decreases end - index,
{
    if index >= end {
        Some(tables)
    } else if index < 0 || index >= s.len() {
        None
    } else if s[index] % 16 >= num_table_slots() {
        None
    } else {
        let last = if index + 65 < s.len() { index + 65 } else { s.len() as int };
        let tables2 = tables.update((s[index] % 16) as int, Some(s.subrange(index + 1, last)));
        if index + 65 >= end {
            Some(tables2)
        } else {
            quantization_segment(s, index + 65, end, tables2)
        }
    }
}

/// The frame component described by the three bytes at `p`.
pub open spec fn frame_component_at(s: Seq<u8>, p: int) -> FrameComponentHeader {
    FrameComponentHeader {
        component_id: s[p],
        horizontal_sampling_factor: s[p + 1] / 16,
        vertical_sampling_factor: s[p + 1] % 16,
        quantization_selector: s[p + 2],
    }
}

/// The frame header of a baseline frame segment (JPEG B.2.2) at `i`, if its component
/// list ends within the data.
pub open spec fn frame_segment(s: Seq<u8>, i: int) -> Option<FrameHeaderModel> {
    if i + 10 > s.len() || i + 10 + 3 * s[i + 9] > s.len() {
        None
    } else {
        Some(
            FrameHeaderModel {
                sample_precision: s[i + 4],
                num_lines: be_u16(s[i + 5], s[i + 6]) as u16,
                samples_per_line: be_u16(s[i + 7], s[i + 8]) as u16,
                image_components: s[i + 9],
                frame_components: Seq::new(
                    s[i + 9] as nat,
                    |c: int| frame_component_at(s, i + 10 + 3 * c),
                ),
            },
        )
    }
}

/// The tables of a Huffman segment (JPEG B.2.4.2) from `index` to `end`: each table is
/// a byte holding its class (high four bits: 0 for DC, else AC) and slot (low four bits),
/// 16 code counts, and as many values as the counts add up to. `None` where a table does
/// not fit in the data, its counts add up to more than 255, or it names a slot from 4 on.
pub open spec fn huffman_segment(
    s: Seq<u8>,
    index: int,
    end: int,
    ac: Seq<Option<HuffmanTableModel>>,
    dc: Seq<Option<HuffmanTableModel>>,
) -> Option<(Seq<Option<HuffmanTableModel>>, Seq<Option<HuffmanTableModel>>)>
    decreases end - index,
{
    if index >= end {
        Some((ac, dc))
    } else if index < 0 || index + 17 > s.len() {
        None
    } else {
        let counts = s.subrange(index + 1, index + 17);
        let total = byte_sum(counts);
        if total > 255 || index + 17 + total > s.len() || s[index] % 16 >= num_table_slots() {
            None
        } else {
            let table = HuffmanTableModel {
                counts,
                values: s.subrange(index + 17, index + 17 + total),
            };
            let slot = (s[index] % 16) as int;
            let (ac2, dc2) = if s[index] / 16 == 0 {
                (ac, dc.update(slot, Some(table)))
            } else {
                (ac.update(slot, Some(table)), dc)
            };
            let next = index + 17 + total;
            if next >= end {
                Some((ac2, dc2))
            } else {
                huffman_segment(s, next, end, ac2, dc2)
            }
        }
    }
}

/// The scan component described by the two bytes at `p`.
pub open spec fn scan_component_at(s: Seq<u8>, p: int) -> ScanComponentHeader {
    ScanComponentHeader {
        scan_component_selector: s[p],
        dc_table_selector: s[p + 1] / 16,
        ac_table_selector: s[p + 1] % 16,
    }
}

/// The header of the scan segment (JPEG B.2.3) at `i`; its `n` components take two
/// bytes each.
pub open spec fn scan_header_at(s: Seq<u8>, i: int) -> ScanHeaderModel {
    let n = s[i + 4];
    let j = i + 2 * n;
    ScanHeaderModel {
        num_components: n,
        scan_components: Seq::new(n as nat, |k: int| scan_component_at(s, i + 5 + 2 * k)),
        start_spectral_selection: s[j + 5],
        end_spectral_selection: s[j + 6],
        successive_approximation_bit_pos_high: s[j + 7] / 16,
        successive_approximation_bit_pos_low: s[j + 7] % 16,
    }
}

/// The position of the first component of `comps` that selects the same frame component
/// as component `k`.
pub open spec fn block_list_of(comps: Seq<ScanComponentHeader>, k: int) -> int {
    first_index_of(component_selectors(comps), comps[k].scan_component_selector).unwrap()
}

/// Whether scan component `k` can be decoded with what `st` holds: the scan component
/// found for its frame component names AC and DC table slots that are filled, and the
/// frame header gives that frame component a quantization table slot that is filled.
pub open spec fn component_decodable(comps: Seq<ScanComponentHeader>, k: int, st: ParseModel) -> bool {
    let head = comps[block_list_of(comps, k)];
    &&& head.ac_table_selector < num_table_slots()
    &&& st.ac_tables[head.ac_table_selector as int] is Some
    &&& head.dc_table_selector < num_table_slots()
    &&& st.dc_tables[head.dc_table_selector as int] is Some
    &&& st.frame_header matches Some(f) && spec_quantization_table_id(
        f,
        comps[k].scan_component_selector,
    ) matches Some(q) && q < num_table_slots() && st.quantization_tables[q as int] is Some
}

/// How scan component `k` is decoded.
pub open spec fn component_plan(comps: Seq<ScanComponentHeader>, k: int, st: ParseModel) -> ComponentPlanModel {
    let m = block_list_of(comps, k);
    let q = spec_quantization_table_id(
        st.frame_header.unwrap(),
        comps[k].scan_component_selector,
    ).unwrap();
    ComponentPlanModel {
        block_list: m,
        ac_table: st.ac_tables[comps[m].ac_table_selector as int].unwrap(),
        dc_table: st.dc_tables[comps[m].dc_table_selector as int].unwrap(),
        quantization_table: st.quantization_tables[q as int].unwrap(),
    }
}

/// The scan at `i`, if its header ends within the data and each of its components can
/// be decoded with what `st` holds.
pub open spec fn scan_segment(s: Seq<u8>, i: int, st: ParseModel) -> Option<EventModel> {
    if i + 5 > s.len() || i + 2 * s[i + 4] + 8 > s.len() {
        None
    } else {
        let header = scan_header_at(s, i);
        let comps = header.scan_components;
        if forall|k: int| 0 <= k < comps.len() ==> #[trigger] component_decodable(comps, k, st) {
            Some(
                EventModel::Scan {
                    header,
                    data_start: i + 2 * s[i + 4] + 8,
                    components: Seq::new(comps.len(), |k: int| component_plan(comps, k, st)),
                },
            )
        } else {
            None
        }
    }
}

/// The outcome of one segment: the new state, how many bytes beyond the segment's
/// announced extent the reader moves, and whether it stops.
pub struct SegmentStep {
    pub state: ParseModel,
    pub skip: nat,
    pub stop: bool,
}

/// `st` with `e` added to its events.
pub open spec fn with_event(st: ParseModel, e: EventModel) -> ParseModel {
    ParseModel { events: st.events.push(e), ..st }
}

/// The segment at `i`, whose length field announces `dl` bytes after itself.
pub open spec fn segment(s: Seq<u8>, i: int, dl: int, st: ParseModel) -> Option<SegmentStep> {
    let unhandled = SegmentStep {
        state: with_event(st, EventModel::UnhandledMarker { position: i, data_length: dl }),
        skip: 0,
        stop: true,
    };
    if s[i] != 0xff {
        Some(unhandled)
    } else if s[i + 1] == 0xfe {
        // Comment
        if i + 4 + dl > s.len() {
            None
        } else {
            Some(
                SegmentStep {
                    state: with_event(st, EventModel::Comment { start: i + 4, length: dl }),
                    skip: 0,
                    stop: false,
                },
            )
        }
    } else if s[i + 1] == 0xdb {
        // Quantization tables
        match quantization_segment(s, i + 4, i + 4 + dl, st.quantization_tables) {
            Some(q) => Some(
                SegmentStep { state: ParseModel { quantization_tables: q, ..st }, skip: 0, stop: false },
            ),
            None => None,
        }
    } else if s[i + 1] == 0xc0 {
        // Baseline DCT frame
        match frame_segment(s, i) {
            Some(f) => Some(
                SegmentStep { state: ParseModel { frame_header: Some(f), ..st }, skip: 0, stop: false },
            ),
            None => None,
        }
    } else if s[i + 1] == 0xc4 {
        // Huffman tables; their extent ends at `i + dl`
        match huffman_segment(s, i + 4, i + dl, st.ac_tables, st.dc_tables) {
            Some((ac, dc)) => Some(
                SegmentStep {
                    state: ParseModel { ac_tables: ac, dc_tables: dc, ..st },
                    skip: 0,
                    stop: false,
                },
            ),
            None => None,
        }
    } else if s[i + 1] == 0xda {
        // Start of scan; the reader moves on by the scan header as well
        match scan_segment(s, i, st) {
            Some(e) => Some(
                SegmentStep { state: with_event(st, e), skip: (2 * s[i + 4] + 8) as nat, stop: false },
            ),
            None => None,
        }
    } else if s[i + 1] == 0xdd {
        // Restart interval definitions are not supported
        None
    } else if s[i + 1] == 0xec || s[i + 1] == 0xee {
        // Application segments 12 and 14 are passed over
        Some(SegmentStep { state: st, skip: 0, stop: false })
    } else {
        Some(unhandled)
    }
}

/// The state after reading the segments from `i` on, starting from `st`.
pub open spec fn walk(s: Seq<u8>, i: int, st: ParseModel) -> Option<ParseModel>
    decreases s.len() - i,
{
    if i < 0 || i >= s.len() {
        Some(st)
    } else if i + 4 > s.len() || be_u16(s[i + 2], s[i + 3]) < 2 {
        None
    } else {
        let dl = be_u16(s[i + 2], s[i + 3]) - 2;
        match segment(s, i, dl, st) {
            None => None,
            Some(step) => {
                let next = i + 4 + dl + step.skip;
                if step.stop || next >= s.len() {
                    Some(step.state)
                } else {
                    walk(s, next, step.state)
                }
            },
        }
    }
}

/// Whether the first 11 bytes are those of a JFIF file: start of image, APP0, two length
/// bytes, and the identifier "JFIF" with its terminating zero.
pub open spec fn header_matches(s: Seq<u8>) -> bool {
    &&& s[0] == 0xff
    &&& s[1] == 0xd8
    &&& s[2] == 0xff
    &&& s[3] == 0xe0
    &&& s[6] == 0x4a
    &&& s[7] == 0x46
    &&& s[8] == 0x49
    &&& s[9] == 0x46
    &&& s[10] == 0x00
}

/// The image made of the header of `s`, with version `v`, and the state `st` its
/// segments leave.
pub open spec fn image_model(s: Seq<u8>, v: JFIFVersion, st: ParseModel) -> ImageModel {
    ImageModel {
        version: v,
        units: spec_units(s[13]),
        dimensions: (be_u16(s[14], s[15]) as u16, be_u16(s[16], s[17]) as u16),
        thumbnail_dimensions: (s[18], s[19]),
        comment: None,
        huffman_ac_tables: st.ac_tables,
        huffman_dc_tables: st.dc_tables,
        quantization_tables: st.quantization_tables,
        frame_header: st.frame_header,
    }
}

/// What reading `s` gives: `None` where the reader cannot go through it, else the
/// image and the events met in its segments, or an error message.
pub open spec fn spec_parse(s: Seq<u8>) -> Option<Result<(ImageModel, Seq<EventModel>), Seq<char>>> {
    if s.len() < 11 {
        Some(Err("input is too short"@))
    } else if !header_matches(s) {
        Some(Err("Header mismatch"@))
    } else if s.len() < 13 {
        None
    } else {
        match spec_version(s[11], s[12]) {
            None => Some(Err(illegal_version_message(s[11], s[12]))),
            Some(v) => if s.len() < 20 {
                None
            } else {
                match walk(s, 20, initial_model()) {
                    None => None,
                    Some(st) => Some(Ok((image_model(s, v, st), st.events))),
                }
            },
        }
    }
}

/// Whether the reader goes through `s` to an image or an error message.
pub open spec fn parse_defined(s: Seq<u8>) -> bool {
    spec_parse(s) is Some
}

/// A Huffman table has 16 code counts adding up to at most 255, and one value per code.
pub open spec fn huffman_table_wf(t: HuffmanTableModel) -> bool {
    &&& t.counts.len() == 16
    &&& byte_sum(t.counts) <= 255
    &&& t.values.len() == byte_sum(t.counts)
}

/// Four Huffman table slots, each empty or holding a well-formed table.
pub open spec fn huffman_slots_wf(v: Seq<Option<HuffmanTableModel>>) -> bool {
    &&& v.len() == num_table_slots()
    &&& forall|k: int| 0 <= k < v.len() ==> (#[trigger] v[k] matches Some(t) ==> huffman_table_wf(t))
}

/// Four quantization table slots, each empty or holding at most 64 entries.
pub open spec fn quantization_slots_wf(v: Seq<Option<Seq<u8>>>) -> bool {
    &&& v.len() == num_table_slots()
    &&& forall|k: int| 0 <= k < v.len() ==> (#[trigger] v[k] matches Some(q) ==> q.len() <= 64)
}

/// A frame header lists as many components as it announces.
pub open spec fn frame_wf(f: Option<FrameHeaderModel>) -> bool {
    f matches Some(h) ==> h.frame_components.len() == h.image_components
}

/// A scan lists as many components, and as many component plans, as it announces; each
/// plan adds to the block list of an earlier or the same component, and its tables are
/// well formed.
pub open spec fn event_wf(e: EventModel) -> bool {
    match e {
        EventModel::Scan { header, data_start, components } => {
            &&& header.scan_components.len() == header.num_components
            &&& components.len() == header.num_components
            &&& forall|k: int|
                0 <= k < components.len() ==> {
                    &&& 0 <= #[trigger] components[k].block_list <= k
                    &&& huffman_table_wf(components[k].ac_table)
                    &&& huffman_table_wf(components[k].dc_table)
                    &&& components[k].quantization_table.len() <= 64
                }
        },
        EventModel::Comment { start, length } => 0 <= start && 0 <= length,
        EventModel::UnhandledMarker { position, data_length } => 0 <= position && 0 <= data_length,
    }
}

/// Every part of the reader's state is well formed.
pub open spec fn model_wf(st: ParseModel) -> bool {
    &&& huffman_slots_wf(st.ac_tables)
    &&& huffman_slots_wf(st.dc_tables)
    &&& quantization_slots_wf(st.quantization_tables)
    &&& frame_wf(st.frame_header)
    &&& forall|k: int| 0 <= k < st.events.len() ==> event_wf(#[trigger] st.events[k])
}

/// Every part of an image is well formed.
pub open spec fn image_wf(img: ImageModel) -> bool {
    &&& huffman_slots_wf(img.huffman_ac_tables)
    &&& huffman_slots_wf(img.huffman_dc_tables)
    &&& quantization_slots_wf(img.quantization_tables)
    &&& frame_wf(img.frame_header)
}

proof fn lemma_quantization_segment_wf(
    s: Seq<u8>,
    index: int,
    end: int,
    tables: Seq<Option<Seq<u8>>>,
)
    requires
        quantization_slots_wf(tables),
    ensures
        quantization_segment(s, index, end, tables) matches Some(t) ==> quantization_slots_wf(t),
    decreases end - index,
{
    if index < end && 0 <= index < s.len() && s[index] % 16 < num_table_slots() {
        let last = if index + 65 < s.len() { index + 65 } else { s.len() as int };
        let tables2 = tables.update((s[index] % 16) as int, Some(s.subrange(index + 1, last)));
        assert(quantization_slots_wf(tables2));
        if index + 65 < end {
            lemma_quantization_segment_wf(s, index + 65, end, tables2);
        }
    }
}

proof fn lemma_huffman_segment_wf(
    s: Seq<u8>,
    index: int,
    end: int,
    ac: Seq<Option<HuffmanTableModel>>,
    dc: Seq<Option<HuffmanTableModel>>,
)
    requires
        huffman_slots_wf(ac),
        huffman_slots_wf(dc),
    ensures
        huffman_segment(s, index, end, ac, dc) matches Some((ac2, dc2)) ==> huffman_slots_wf(ac2)
            && huffman_slots_wf(dc2),
    decreases end - index,
{
    if index < end && 0 <= index && index + 17 <= s.len() {
        let counts = s.subrange(index + 1, index + 17);
        let total = byte_sum(counts);
        if !(total > 255 || index + 17 + total > s.len() || s[index] % 16 >= num_table_slots()) {
            let table = HuffmanTableModel {
                counts,
                values: s.subrange(index + 17, index + 17 + total),
            };
            assert(huffman_table_wf(table));
            let slot = (s[index] % 16) as int;
            let (ac2, dc2) = if s[index] / 16 == 0 {
                (ac, dc.update(slot, Some(table)))
            } else {
                (ac.update(slot, Some(table)), dc)
            };
            assert(huffman_slots_wf(ac2) && huffman_slots_wf(dc2));
            let next = index + 17 + total;
            if next < end {
                lemma_huffman_segment_wf(s, next, end, ac2, dc2);
            }
        }
    }
}

/// A key at position `k` has a first position, at or before `k`.
pub proof fn lemma_first_index_exists(keys: Seq<u8>, key: u8, k: int)
    requires
        0 <= k < keys.len(),
        keys[k] == key,
    ensures
        first_index_of(keys, key) matches Some(m) && 0 <= m <= k,
    decreases k,
{
    if exists|j: int| 0 <= j < k && keys[j] == key {
        let j = choose|j: int| 0 <= j < k && keys[j] == key;
        lemma_first_index_exists(keys, key, j);
    } else {
        lemma_first_index_of(keys, key, k);
    }
}

proof fn lemma_scan_segment_wf(s: Seq<u8>, i: int, st: ParseModel)
    requires
        model_wf(st),
    ensures
        scan_segment(s, i, st) matches Some(e) ==> event_wf(e),
{
    if let Some(e) = scan_segment(s, i, st) {
        let header = scan_header_at(s, i);
        let comps = header.scan_components;
        let components = Seq::new(comps.len(), |k: int| component_plan(comps, k, st));
        assert forall|k: int| 0 <= k < components.len() implies {
            &&& 0 <= #[trigger] components[k].block_list <= k
            &&& huffman_table_wf(components[k].ac_table)
            &&& huffman_table_wf(components[k].dc_table)
            &&& components[k].quantization_table.len() <= 64
        } by {
            assert(component_decodable(comps, k, st));
            assert(component_selectors(comps)[k] == comps[k].scan_component_selector);
            lemma_first_index_exists(component_selectors(comps), comps[k].scan_component_selector, k);
            let m = block_list_of(comps, k);
            let q = spec_quantization_table_id(
                st.frame_header.unwrap(),
                comps[k].scan_component_selector,
            ).unwrap();
            assert(st.ac_tables[comps[m].ac_table_selector as int] is Some);
            assert(st.dc_tables[comps[m].dc_table_selector as int] is Some);
            assert(st.quantization_tables[q as int] is Some);
        }
    }
}

proof fn lemma_segment_wf(s: Seq<u8>, i: int, dl: int, st: ParseModel)
    requires
        model_wf(st),
        0 <= i,
        0 <= dl,
    ensures
        segment(s, i, dl, st) matches Some(step) ==> model_wf(step.state),
{
    lemma_quantization_segment_wf(s, i + 4, i + 4 + dl, st.quantization_tables);
    lemma_huffman_segment_wf(s, i + 4, i + dl, st.ac_tables, st.dc_tables);
    lemma_scan_segment_wf(s, i, st);
    if let Some(step) = segment(s, i, dl, st) {
        let n = step.state.events.len();
        if n == st.events.len() + 1 {
            assert forall|k: int| 0 <= k < n implies event_wf(#[trigger] step.state.events[k]) by {
                if k < st.events.len() {
                    assert(step.state.events[k] == st.events[k]);
                }
            }
        }
    }
}

proof fn lemma_walk_wf(s: Seq<u8>, i: int, st: ParseModel)
    requires
        model_wf(st),
    ensures
        walk(s, i, st) matches Some(st2) ==> model_wf(st2),
    decreases s.len() - i,
{
    if 0 <= i < s.len() && i + 4 <= s.len() && be_u16(s[i + 2], s[i + 3]) >= 2 {
        let dl = be_u16(s[i + 2], s[i + 3]) - 2;
        lemma_segment_wf(s, i, dl, st);
        if let Some(step) = segment(s, i, dl, st) {
            let next = i + 4 + dl + step.skip;
            if !step.stop && next < s.len() {
                lemma_walk_wf(s, next, step.state);
            }
        }
    }
}

/// Everything that reading a file gives is well formed: four slots of each kind of
/// table; Huffman tables with 16 code counts and one value per code; quantization tables
/// of at most 64 entries; frame headers and scans that list as many components as they
/// announce; and scan plans whose block list is that of an earlier or the same component.
pub proof fn lemma_parse_well_formed(s: Seq<u8>)
    ensures
        spec_parse(s) matches Some(Ok((img, events))) ==> image_wf(img) && forall|k: int|
            0 <= k < events.len() ==> event_wf(#[trigger] events[k]),
{
    assert(model_wf(initial_model()));
    lemma_walk_wf(s, 20, initial_model());
}

} // verus!
