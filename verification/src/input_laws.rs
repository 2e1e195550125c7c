//! Laws that tie what the reader gives to the bytes of its input: header fields, the
//! frame header, the tables in the slots and the tables each scan component is decoded
//! with all come from the bytes where the JFIF and JPEG layouts put them.
use vstd::prelude::*;
use crate::header::{be_u16, JFIFUnits, JFIFVersion};
use crate::frame::{component_selectors, first_index_of, is_first_index_of, FrameHeaderModel};
use crate::model::{
    block_list_of, byte_sum, component_decodable, component_plan, frame_segment,
    huffman_segment, initial_model, lemma_first_index_exists, quantization_segment,
    scan_header_at, scan_segment, segment, spec_parse, walk, EventModel, HuffmanTableModel,
    ParseModel,
};

verus! {

/// Reading a file that the reader goes through gives the header fields stored in bytes
/// 11 to 19: version 1.01 or 1.02 from bytes 11 and 12, the units named by byte 13
/// (1: none, 2: dots per inch, 3: dots per centimetre, anything else: none), the
/// horizontal and vertical densities as big-endian pairs at 14 and 16, and the thumbnail
/// size from bytes 18 and 19.
pub proof fn lemma_parse_header_fields(s: Seq<u8>)
    ensures
        spec_parse(s) matches Some(Ok((img, _))) ==> {
            &&& s.len() >= 20
            &&& s[11] == 1
            &&& (s[12] == 1 ==> img.version == JFIFVersion::V1_01)
            &&& (s[12] == 2 ==> img.version == JFIFVersion::V1_02)
            &&& (s[12] == 1 || s[12] == 2)
            &&& (s[13] == 2 ==> img.units == JFIFUnits::DotsPerInch)
            &&& (s[13] == 3 ==> img.units == JFIFUnits::DotsPerCm)
            &&& (s[13] != 2 && s[13] != 3 ==> img.units == JFIFUnits::NoUnits)
            &&& img.dimensions.0 == s[14] * 256 + s[15]
            &&& img.dimensions.1 == s[16] * 256 + s[17]
            &&& img.thumbnail_dimensions == (s[18], s[19])
            &&& img.comment is None
        },
{
}

/// `f` is the frame header of the baseline frame segment at `i`: precision at `i + 4`,
/// lines and samples per line as big-endian pairs at `i + 5` and `i + 7`, the number of
/// components at `i + 9`, then three bytes per component: id, sampling factors (high and
/// low four bits) and quantization table selector.
pub open spec fn frame_read_at(s: Seq<u8>, i: int, f: FrameHeaderModel) -> bool {
    &&& 0 <= i
    &&& i + 10 + 3 * s[i + 9] <= s.len()
    &&& s[i] == 0xff
    &&& s[i + 1] == 0xc0
    &&& f.sample_precision == s[i + 4]
    &&& f.num_lines == s[i + 5] * 256 + s[i + 6]
    &&& f.samples_per_line == s[i + 7] * 256 + s[i + 8]
    &&& f.image_components == s[i + 9]
    &&& f.frame_components.len() == s[i + 9]
    &&& forall|c: int|
        0 <= c < f.frame_components.len() ==> {
            &&& (#[trigger] f.frame_components[c]).component_id == s[i + 10 + 3 * c]
            &&& f.frame_components[c].horizontal_sampling_factor == s[i + 11 + 3 * c] / 16
            &&& f.frame_components[c].vertical_sampling_factor == s[i + 11 + 3 * c] % 16
            &&& f.frame_components[c].quantization_selector == s[i + 12 + 3 * c]
        }
}

/// `t` is the Huffman table at `p`, of class `dc` (class 0) or not, naming slot `slot`:
/// 16 counts after the class and slot byte, then the values.
pub open spec fn huffman_table_read_at(
    s: Seq<u8>,
    p: int,
    dc: bool,
    slot: int,
    t: HuffmanTableModel,
) -> bool {
    &&& 0 <= p
    &&& p + 17 + t.values.len() <= s.len()
    &&& (s[p] / 16 == 0) == dc
    &&& s[p] % 16 == slot
    &&& t.counts == s.subrange(p + 1, p + 17)
    &&& t.values == s.subrange(p + 17, p + 17 + t.values.len())
}

/// `q` is the quantization table of the entry at `p`, naming slot `slot`: the 64 bytes
/// after the entry's first byte, or as many as the data holds.
pub open spec fn quantization_table_read_at(s: Seq<u8>, p: int, slot: int, q: Seq<u8>) -> bool {
    &&& 0 <= p < s.len()
    &&& s[p] % 16 == slot
    &&& q.len() == (if p + 65 <= s.len() { 64 } else { s.len() - p - 1 })
    &&& q == s.subrange(p + 1, p + 1 + q.len())
}

/// Four Huffman slots of class `dc`; each filled one holds a table read from the data for that slot.
pub open spec fn huffman_slots_read(s: Seq<u8>, slots: Seq<Option<HuffmanTableModel>>, dc: bool) -> bool {
    &&& slots.len() == 4
    &&& forall|t: int|
        0 <= t < slots.len() && (#[trigger] slots[t]) is Some ==> exists|p: int|
            huffman_table_read_at(s, p, dc, t, slots[t].unwrap())
}

/// Four quantization slots; each filled one holds a table read from the data for that slot.
pub open spec fn quantization_slots_read(s: Seq<u8>, slots: Seq<Option<Seq<u8>>>) -> bool {
    &&& slots.len() == 4
    &&& forall|t: int|
        0 <= t < slots.len() && (#[trigger] slots[t]) is Some ==> exists|p: int|
            quantization_table_read_at(s, p, t, slots[t].unwrap())
}

/// A comment event is the data of a comment segment (marker 0xFF 0xFE) whose length field
/// announces it; an unknown-marker event is at a marker the reader does not act on, with
/// the data length its length field announces. A scan event comes from the scan segment
/// that ends `data_start`: its header is read
/// from the bytes of that segment, and each component `k` is decoded with a DC table of
/// class 0 and an AC table of the other class, each read from the data for the slot that
/// the first component selecting the same frame component names, and with a quantization
/// table read from the data.
pub open spec fn event_read(s: Seq<u8>, e: EventModel) -> bool {
    match e {
        EventModel::Scan { header, data_start, components } => {
            let n = header.num_components;
            let i = data_start - 2 * n - 8;
            let comps = header.scan_components;
            &&& 0 <= i
            &&& data_start <= s.len()
            &&& s[i] == 0xff
            &&& s[i + 1] == 0xda
            &&& n == s[i + 4]
            &&& comps.len() == n
            &&& components.len() == n
            &&& header.start_spectral_selection == s[i + 2 * n + 5]
            &&& header.end_spectral_selection == s[i + 2 * n + 6]
            &&& header.successive_approximation_bit_pos_high == s[i + 2 * n + 7] / 16
            &&& header.successive_approximation_bit_pos_low == s[i + 2 * n + 7] % 16
            &&& forall|c: int|
                0 <= c < n ==> {
                    &&& (#[trigger] comps[c]).scan_component_selector == s[i + 5 + 2 * c]
                    &&& comps[c].dc_table_selector == s[i + 6 + 2 * c] / 16
                    &&& comps[c].ac_table_selector == s[i + 6 + 2 * c] % 16
                }
            &&& forall|k: int|
                0 <= k < n ==> {
                    let m = (#[trigger] components[k]).block_list;
                    &&& 0 <= m <= k
                    &&& comps[m].scan_component_selector == comps[k].scan_component_selector
                    &&& forall|j: int|
                        0 <= j < m ==> comps[j].scan_component_selector
                            != comps[k].scan_component_selector
                    &&& exists|p: int|
                        huffman_table_read_at(
                            s,
                            p,
                            true,
                            comps[m].dc_table_selector as int,
                            components[k].dc_table,
                        )
                    &&& exists|p: int|
                        huffman_table_read_at(
                            s,
                            p,
                            false,
                            comps[m].ac_table_selector as int,
                            components[k].ac_table,
                        )
                    &&& exists|p: int, t: int|
                        quantization_table_read_at(s, p, t, components[k].quantization_table)
                }
        },
        EventModel::Comment { start, length } => {
            &&& 4 <= start
            &&& start + length <= s.len()
            &&& s[start - 4] == 0xff
            &&& s[start - 3] == 0xfe
            &&& s[start - 2] * 256 + s[start - 1] == length + 2
        },
        EventModel::UnhandledMarker { position, data_length } => {
            &&& 0 <= position
            &&& position + 4 <= s.len()
            &&& s[position + 2] * 256 + s[position + 3] == data_length + 2
            &&& !(s[position] == 0xff && (s[position + 1] == 0xfe || s[position + 1] == 0xdb
                || s[position + 1] == 0xc0 || s[position + 1] == 0xc4 || s[position + 1] == 0xda
                || s[position + 1] == 0xdd || s[position + 1] == 0xec || s[position + 1] == 0xee))
        },
    }
}

/// Everything the reader holds was read from the data.
pub open spec fn state_read(s: Seq<u8>, st: ParseModel) -> bool {
    &&& huffman_slots_read(s, st.ac_tables, false)
    &&& huffman_slots_read(s, st.dc_tables, true)
    &&& quantization_slots_read(s, st.quantization_tables)
    &&& (st.frame_header matches Some(f) ==> exists|i: int| frame_read_at(s, i, f))
    &&& forall|k: int| 0 <= k < st.events.len() ==> event_read(s, #[trigger] st.events[k])
}

proof fn lemma_frame_segment_read(s: Seq<u8>, i: int)
    requires
        0 <= i,
        i + 4 <= s.len(),
        s[i] == 0xff,
        s[i + 1] == 0xc0,
    ensures
        frame_segment(s, i) matches Some(f) ==> frame_read_at(s, i, f),
{
}

/// At a baseline frame segment whose components lie within the data, the reader moves on
/// past the segment holding the frame header read from its bytes.
pub proof fn lemma_walk_frame_segment(s: Seq<u8>, i: int, st: ParseModel)
    requires
        0 <= i,
        i + 10 <= s.len(),
        i + 10 + 3 * s[i + 9] <= s.len(),
        s[i] == 0xff,
        s[i + 1] == 0xc0,
        be_u16(s[i + 2], s[i + 3]) >= 2,
    ensures
        exists|f: FrameHeaderModel|
            {
                let next = i + 4 + be_u16(s[i + 2], s[i + 3]) - 2;
                let st2 = ParseModel { frame_header: Some(f), ..st };
                &&& #[trigger] frame_read_at(s, i, f)
                &&& walk(s, i, st) == if next >= s.len() {
                    Some(st2)
                } else {
                    walk(s, next, st2)
                }
            },
{
    lemma_frame_segment_read(s, i);
    let f = frame_segment(s, i).unwrap();
    assert(frame_read_at(s, i, f));
}

proof fn lemma_quantization_segment_read(
    s: Seq<u8>,
    index: int,
    end: int,
    tables: Seq<Option<Seq<u8>>>,
)
    requires
        quantization_slots_read(s, tables),
    ensures
        quantization_segment(s, index, end, tables) matches Some(t2) ==> quantization_slots_read(
            s,
            t2,
        ),
    decreases end - index,
{
    if index < end && 0 <= index < s.len() && s[index] % 16 < 4 {
        let last = if index + 65 < s.len() { index + 65 } else { s.len() as int };
        let slot = (s[index] % 16) as int;
        let table = s.subrange(index + 1, last);
        let tables2 = tables.update(slot, Some(table));
        assert(quantization_table_read_at(s, index, slot, table));
        assert forall|t: int| 0 <= t < tables2.len() && (#[trigger] tables2[t]) is Some implies exists|
            p: int,
        | quantization_table_read_at(s, p, t, tables2[t].unwrap()) by {
            if t == slot {
                assert(tables2[t] == Some(table));
                assert(quantization_table_read_at(s, index, t, tables2[t].unwrap()));
            } else {
                assert(tables2[t] == tables[t]);
                assert(tables[t] is Some);
                let w = choose|p: int| quantization_table_read_at(s, p, t, tables[t].unwrap());
                assert(quantization_table_read_at(s, w, t, tables2[t].unwrap()));
            }
        }
        if index + 65 < end {
            lemma_quantization_segment_read(s, index + 65, end, tables2);
        }
    }
}

proof fn lemma_huffman_segment_read(
    s: Seq<u8>,
    index: int,
    end: int,
    ac: Seq<Option<HuffmanTableModel>>,
    dc: Seq<Option<HuffmanTableModel>>,
)
    requires
        huffman_slots_read(s, ac, false),
        huffman_slots_read(s, dc, true),
    ensures
        huffman_segment(s, index, end, ac, dc) matches Some((ac2, dc2)) ==> huffman_slots_read(
            s,
            ac2,
            false,
        ) && huffman_slots_read(s, dc2, true),
    decreases end - index,
{
    if index < end && 0 <= index && index + 17 <= s.len() {
        let counts = s.subrange(index + 1, index + 17);
        let total = byte_sum(counts);
        if !(total > 255 || index + 17 + total > s.len() || s[index] % 16 >= 4) {
            let table = HuffmanTableModel {
                counts,
                values: s.subrange(index + 17, index + 17 + total),
            };
            let slot = (s[index] % 16) as int;
            let is_dc = s[index] / 16 == 0;
            assert(huffman_table_read_at(s, index, is_dc, slot, table));
            let (ac2, dc2) = if is_dc {
                (ac, dc.update(slot, Some(table)))
            } else {
                (ac.update(slot, Some(table)), dc)
            };
            assert forall|t: int| 0 <= t < ac2.len() && (#[trigger] ac2[t]) is Some implies exists|
                p: int,
            | huffman_table_read_at(s, p, false, t, ac2[t].unwrap()) by {
                if t == slot && !is_dc {
                    assert(ac2[t] == Some(table));
                    assert(huffman_table_read_at(s, index, false, t, ac2[t].unwrap()));
                } else {
                    assert(ac2[t] == ac[t]);
                    assert(ac[t] is Some);
                    let w = choose|p: int| huffman_table_read_at(s, p, false, t, ac[t].unwrap());
                    assert(huffman_table_read_at(s, w, false, t, ac2[t].unwrap()));
                }
            }
            assert forall|t: int| 0 <= t < dc2.len() && (#[trigger] dc2[t]) is Some implies exists|
                p: int,
            | huffman_table_read_at(s, p, true, t, dc2[t].unwrap()) by {
                if t == slot && is_dc {
                    assert(dc2[t] == Some(table));
                    assert(huffman_table_read_at(s, index, true, t, dc2[t].unwrap()));
                } else {
                    assert(dc2[t] == dc[t]);
                    assert(dc[t] is Some);
                    let w = choose|p: int| huffman_table_read_at(s, p, true, t, dc[t].unwrap());
                    assert(huffman_table_read_at(s, w, true, t, dc2[t].unwrap()));
                }
            }
            if index + 17 + total < end {
                lemma_huffman_segment_read(s, index + 17 + total, end, ac2, dc2);
            }
        }
    }
}

proof fn lemma_scan_segment_read(s: Seq<u8>, i: int, st: ParseModel)
    requires
        0 <= i,
        i + 2 <= s.len(),
        s[i] == 0xff,
        s[i + 1] == 0xda,
        state_read(s, st),
    ensures
        scan_segment(s, i, st) matches Some(e) ==> event_read(s, e),
{
    if let Some(e) = scan_segment(s, i, st) {
        let header = scan_header_at(s, i);
        let comps = header.scan_components;
        let n = header.num_components;
        let components = Seq::new(comps.len(), |k: int| component_plan(comps, k, st));
        assert forall|k: int| 0 <= k < n implies {
            let m = (#[trigger] components[k]).block_list;
            &&& 0 <= m <= k
            &&& comps[m].scan_component_selector == comps[k].scan_component_selector
            &&& forall|j: int|
                0 <= j < m ==> comps[j].scan_component_selector != comps[k].scan_component_selector
            &&& exists|p: int|
                huffman_table_read_at(
                    s,
                    p,
                    true,
                    comps[m].dc_table_selector as int,
                    components[k].dc_table,
                )
            &&& exists|p: int|
                huffman_table_read_at(
                    s,
                    p,
                    false,
                    comps[m].ac_table_selector as int,
                    components[k].ac_table,
                )
            &&& exists|p: int, t: int|
                quantization_table_read_at(s, p, t, components[k].quantization_table)
        } by {
            let keys = component_selectors(comps);
            let key = comps[k].scan_component_selector;
            assert(keys[k] == key);
            lemma_first_index_exists(keys, key, k);
            assert(exists|x: int| is_first_index_of(keys, key, x));
            let m = block_list_of(comps, k);
            assert(is_first_index_of(keys, key, m));
            assert forall|j: int| 0 <= j < m implies comps[j].scan_component_selector != key by {
                assert(keys[j] != key);
            }
            assert(component_decodable(comps, k, st));
            let dsel = comps[m].dc_table_selector as int;
            let asel = comps[m].ac_table_selector as int;
            assert(st.dc_tables[dsel] is Some);
            assert(st.ac_tables[asel] is Some);
            assert(components[k] == component_plan(comps, k, st));
            assert(components[k].block_list as int == m);
            let dp = choose|p: int| huffman_table_read_at(s, p, true, dsel, st.dc_tables[dsel].unwrap());
            assert(huffman_table_read_at(s, dp, true, dsel, components[k].dc_table));
            let ap = choose|p: int| huffman_table_read_at(s, p, false, asel, st.ac_tables[asel].unwrap());
            assert(huffman_table_read_at(s, ap, false, asel, components[k].ac_table));
            let q = match st.frame_header {
                Some(f) => crate::frame::spec_quantization_table_id(f, key).unwrap() as int,
                None => 0,
            };
            assert(st.quantization_tables[q] is Some);
            let qp = choose|p: int|
                quantization_table_read_at(s, p, q, st.quantization_tables[q].unwrap());
            assert(quantization_table_read_at(s, qp, q, components[k].quantization_table));
        }
    }
}

proof fn lemma_segment_read(s: Seq<u8>, i: int, dl: int, st: ParseModel)
    requires
        0 <= i,
        i + 4 <= s.len(),
        dl == be_u16(s[i + 2], s[i + 3]) - 2,
        state_read(s, st),
    ensures
        segment(s, i, dl, st) matches Some(step) ==> state_read(s, step.state),
{
    lemma_quantization_segment_read(s, i + 4, i + 4 + dl, st.quantization_tables);
    lemma_huffman_segment_read(s, i + 4, i + dl, st.ac_tables, st.dc_tables);
    if s[i] == 0xff && s[i + 1] == 0xc0 {
        lemma_frame_segment_read(s, i);
        if let Some(f) = frame_segment(s, i) {
            assert(frame_read_at(s, i, f));
        }
    }
    if s[i] == 0xff && s[i + 1] == 0xda {
        lemma_scan_segment_read(s, i, st);
    }
    if let Some(step) = segment(s, i, dl, st) {
        let n = step.state.events.len();
        if n == st.events.len() + 1 {
            assert forall|k: int| 0 <= k < n implies event_read(s, #[trigger] step.state.events[k]) by {
                if k < st.events.len() {
                    assert(step.state.events[k] == st.events[k]);
                }
            }
        }
    }
}

proof fn lemma_walk_read(s: Seq<u8>, i: int, st: ParseModel)
    requires
        state_read(s, st),
    ensures
        walk(s, i, st) matches Some(st2) ==> state_read(s, st2),
    decreases s.len() - i,
{
    if 0 <= i < s.len() && i + 4 <= s.len() && be_u16(s[i + 2], s[i + 3]) >= 2 {
        let dl = be_u16(s[i + 2], s[i + 3]) - 2;
        lemma_segment_read(s, i, dl, st);
        if let Some(step) = segment(s, i, dl, st) {
            let next = i + 4 + dl + step.skip;
            if !step.stop && next < s.len() {
                lemma_walk_read(s, next, step.state);
            }
        }
    }
}

/// Reading a file is refused with "input is too short" exactly below 11 bytes, and with
/// "Header mismatch" where the first 11 bytes are not start of image, APP0, two length
/// bytes, "JFIF" and a zero.
pub proof fn lemma_parse_rejections(s: Seq<u8>)
    ensures
        s.len() < 11 <==> spec_parse(s) == Some(
            Err::<(crate::model::ImageModel, Seq<EventModel>), Seq<char>>("input is too short"@),
        ),
        s.len() >= 11 && !(s[0] == 0xff && s[1] == 0xd8 && s[2] == 0xff && s[3] == 0xe0 && s[6]
            == 0x4a && s[7] == 0x46 && s[8] == 0x49 && s[9] == 0x46 && s[10] == 0) ==> spec_parse(s)
            == Some(
            Err::<(crate::model::ImageModel, Seq<EventModel>), Seq<char>>("Header mismatch"@),
        ),
{
    reveal_strlit("input is too short");
    reveal_strlit("Header mismatch");
    reveal_strlit("Illegal version: (");
    if s.len() >= 13 {
        let m = crate::header::illegal_version_message(s[11], s[12]);
        assert(m[0] == 'I');
        assert("input is too short"@[0] == 'i');
        assert(m != "input is too short"@);
    }
    assert("Header mismatch"@[0] != "input is too short"@[0]);
}

/// Everything that reading a file gives was read from its bytes: each filled Huffman slot
/// holds a table of the matching class read from a Huffman segment entry naming that slot;
/// each filled quantization slot holds the table of an entry naming it; the frame header
/// is the one of a baseline frame segment, with its big-endian line and sample counts;
/// and each scan is read from a scan segment, with each component decoded with a DC table
/// of class 0 and an AC table of the other class, for the slots its header names.
pub proof fn lemma_parse_reads_from_input(s: Seq<u8>)
    ensures
        spec_parse(s) matches Some(Ok((img, events))) ==> {
            &&& huffman_slots_read(s, img.huffman_ac_tables, false)
            &&& huffman_slots_read(s, img.huffman_dc_tables, true)
            &&& quantization_slots_read(s, img.quantization_tables)
            &&& (img.frame_header matches Some(f) ==> exists|i: int| frame_read_at(s, i, f))
            &&& forall|k: int| 0 <= k < events.len() ==> event_read(s, #[trigger] events[k])
        },
{
    assert(state_read(s, initial_model()));
    lemma_walk_read(s, 20, initial_model());
}

} // verus!
