//! Reading a JFIF file: the header, then the segments with their tables and headers.
use vstd::prelude::*;
use crate::header::{u8s_to_u16, JFIFUnits, JFIFVersion};
use crate::frame::{
    component_selectors, first_index_of, lemma_first_index_of, FrameComponentHeader,
    FrameHeader, FrameHeaderModel, ScanComponentHeader, ScanHeader,
};
use crate::model::{
    block_list_of, byte_sum, component_decodable, component_plan, frame_component_at,
    frame_segment, huffman_segment, initial_model, parse_defined, quantization_segment,
    scan_component_at, scan_header_at, scan_segment, spec_parse, walk, ComponentPlanModel,
    EventModel, HuffmanTableModel, ImageModel, ParseModel,
};

verus! {

/// The bytes `s[a..b]`, copied.
fn copy_range(s: &[u8], a: usize, b: usize) -> (r: Vec<u8>)
    requires
        a <= b <= s@.len(),
    ensures
        r@ == s@.subrange(a as int, b as int),
{
    let mut r: Vec<u8> = Vec::with_capacity(b - a);
    let mut k = a;
    while k < b
        invariant
            a <= k <= b <= s@.len(),
            r@ == s@.subrange(a as int, k as int),
        decreases b - k,
    {
        r.push(s[k]);
        k = k + 1;
        assert(r@ =~= s@.subrange(a as int, k as int));
    }
    r
}

/// The sum of at most 16 bytes.
fn sum_bytes(v: &Vec<u8>) -> (t: usize)
    requires
        v@.len() <= 16,
    ensures
        t == byte_sum(v@),
{
    let mut t: usize = 0;
    let mut k: usize = 0;
    while k < v.len()
        invariant
            k <= v@.len() <= 16,
            t == byte_sum(v@.subrange(0, k as int)),
            t <= 255 * k,
        decreases v@.len() - k,
    {
        assert(v@.subrange(0, k as int + 1).drop_last() =~= v@.subrange(0, k as int));
        t = t + v[k] as usize;
        k = k + 1;
    }
    assert(v@.subrange(0, v@.len() as int) =~= v@);
    t
}

/// A Huffman table specification as read from a segment: the number of codes of each
/// length from 1 to 16, and the code values.
#[derive(Debug, Clone, PartialEq, Eq)]
pub struct HuffmanTableData {
    pub counts: Vec<u8>,
    pub values: Vec<u8>,
}

impl View for HuffmanTableData {
    type V = HuffmanTableModel;

    open spec fn view(&self) -> HuffmanTableModel {
        HuffmanTableModel { counts: self.counts@, values: self.values@ }
    }
}

/// The Huffman table slots, as models.
pub open spec fn huffman_slots_view(v: Seq<Option<HuffmanTableData>>) -> Seq<Option<HuffmanTableModel>> {
    v.map_values(
        |o: Option<HuffmanTableData>|
            match o {
                Some(t) => Some(t@),
                None => None,
            },
    )
}

/// The quantization table slots, as sequences.
pub open spec fn quantization_slots_view(v: Seq<Option<Vec<u8>>>) -> Seq<Option<Seq<u8>>> {
    v.map_values(
        |o: Option<Vec<u8>>|
            match o {
                Some(t) => Some(t@),
                None => None,
            },
    )
}

/// The frame header, as a model.
pub open spec fn frame_view(f: Option<FrameHeader>) -> Option<FrameHeaderModel> {
    match f {
        Some(h) => Some(h@),
        None => None,
    }
}

/// Reads the entries of a quantization segment whose entries start at `start` and
/// extend `dl` bytes, into `quant`.
fn read_quantization_tables(
    s: &[u8],
    start: usize,
    dl: usize,
    quant: &mut Vec<Option<Vec<u8>>>,
) -> (ok: bool)
    requires
        start <= s@.len(),
        old(quant)@.len() == 4,
    ensures
        final(quant)@.len() == 4,
        ok == quantization_segment(
            s@,
            start as int,
            start + dl,
            quantization_slots_view(old(quant)@),
        ) is Some,
        ok ==> quantization_segment(
            s@,
            start as int,
            start + dl,
            quantization_slots_view(old(quant)@),
        ) == Some(quantization_slots_view(final(quant)@)),
{
    let ghost goal = quantization_segment(
        s@,
        start as int,
        start + dl,
        quantization_slots_view(quant@),
    );
    let len = s.len();
    let mut index = start;
    let mut remaining = dl;
    while remaining > 0
        invariant
            len == s@.len(),
            index <= len,
            quant@.len() == 4,
            goal == quantization_segment(
                s@,
                start as int,
                start + dl,
                quantization_slots_view(old(quant)@),
            ),
            quantization_segment(s@, index as int, index + remaining, quantization_slots_view(quant@))
                == goal,
        decreases remaining,
    {
        if index >= len {
            return false;
        }
        let slot = s[index] % 16;
        if slot >= 4 {
            return false;
        }
        let last = if len - index > 65 {
            index + 65
        } else {
            len
        };
        let table = copy_range(s, index + 1, last);
        let ghost before = quantization_slots_view(quant@);
        quant.set(slot as usize, Some(table));
        assert(quantization_slots_view(quant@) =~= before.update(slot as int, Some(table@)));
        if remaining <= 65 {
            remaining = 0;
        } else {
            if len - index <= 65 {
                assert(quantization_segment(
                    s@,
                    index + 65,
                    index + remaining,
                    quantization_slots_view(quant@),
                ) is None);
                return false;
            }
            remaining = remaining - 65;
            index = index + 65;
        }
    }
    true
}

/// Reads the tables of a Huffman segment that starts at `i` and announces `dl` bytes,
/// into `ac` and `dc`.
fn read_huffman_tables(
    s: &[u8],
    i: usize,
    dl: usize,
    ac: &mut Vec<Option<HuffmanTableData>>,
    dc: &mut Vec<Option<HuffmanTableData>>,
) -> (ok: bool)
    requires
        i + 4 <= s@.len(),
        old(ac)@.len() == 4,
        old(dc)@.len() == 4,
    ensures
        final(ac)@.len() == 4,
        final(dc)@.len() == 4,
        ok == huffman_segment(
            s@,
            i + 4,
            i + dl,
            huffman_slots_view(old(ac)@),
            huffman_slots_view(old(dc)@),
        ) is Some,
        ok ==> huffman_segment(
            s@,
            i + 4,
            i + dl,
            huffman_slots_view(old(ac)@),
            huffman_slots_view(old(dc)@),
        ) == Some((huffman_slots_view(final(ac)@), huffman_slots_view(final(dc)@))),
{
    let ghost goal = huffman_segment(
        s@,
        i + 4,
        i + dl,
        huffman_slots_view(ac@),
        huffman_slots_view(dc@),
    );
    let len = s.len();
    let mut index = i + 4;
    let mut remaining: usize = if dl > 4 {
        dl - 4
    } else {
        0
    };
    while remaining > 0
        invariant
            len == s@.len(),
            index <= len,
            ac@.len() == 4,
            dc@.len() == 4,
            goal == huffman_segment(
                s@,
                i + 4,
                i + dl,
                huffman_slots_view(old(ac)@),
                huffman_slots_view(old(dc)@),
            ),
            remaining > 0 ==> index + remaining == i + dl,
            huffman_segment(
                s@,
                index as int,
                index + remaining,
                huffman_slots_view(ac@),
                huffman_slots_view(dc@),
            ) == goal,
        decreases remaining,
    {
        if len - index < 17 {
            return false;
        }
        let counts = copy_range(s, index + 1, index + 17);
        let total = sum_bytes(&counts);
        if total > 255 || len - index - 17 < total {
            return false;
        }
        let slot = s[index] % 16;
        if slot >= 4 {
            return false;
        }
        let values = copy_range(s, index + 17, index + 17 + total);
        let table = HuffmanTableData { counts, values };
        let ghost ac_before = huffman_slots_view(ac@);
        let ghost dc_before = huffman_slots_view(dc@);
        if s[index] / 16 == 0 {
            dc.set(slot as usize, Some(table));
            assert(huffman_slots_view(dc@) =~= dc_before.update(slot as int, Some(table@)));
        } else {
            ac.set(slot as usize, Some(table));
            assert(huffman_slots_view(ac@) =~= ac_before.update(slot as int, Some(table@)));
        }
        let step = 17 + total;
        if step >= remaining {
            remaining = 0;
        } else {
            remaining = remaining - step;
            index = index + step;
        }
    }
    proof {
        if dl <= 4 {
            assert(goal == Some((huffman_slots_view(ac@), huffman_slots_view(dc@))));
        }
    }
    true
}

/// Reads the baseline frame header of the segment at `i`.
fn read_frame_header(s: &[u8], i: usize) -> (r: Option<FrameHeader>)
    requires
        i <= s@.len(),
    ensures
        frame_view(r) == frame_segment(s@, i as int),
{
    let len = s.len();
    if len - i < 10 {
        return None;
    }
    let image_components = s[i + 9];
    if len - i - 10 < 3 * image_components as usize {
        return None;
    }
    let sample_precision = s[i + 4];
    let num_lines = u8s_to_u16(&s[i + 5..i + 7]);
    let samples_per_line = u8s_to_u16(&s[i + 7..i + 9]);
    let mut frame_components: Vec<FrameComponentHeader> = Vec::with_capacity(
        image_components as usize,
    );
    let mut index = i + 10;
    let mut component: u8 = 0;
    while component < image_components
        invariant
            len == s@.len(),
            i + 10 + 3 * image_components <= len,
            image_components == s@[i + 9],
            component <= image_components,
            index == i + 10 + 3 * component,
            frame_components@ =~= Seq::new(
                component as nat,
                |c: int| frame_component_at(s@, i + 10 + 3 * c),
            ),
        decreases image_components - component,
    {
        frame_components.push(
            FrameComponentHeader {
                component_id: s[index],
                horizontal_sampling_factor: s[index + 1] / 16,
                vertical_sampling_factor: s[index + 1] % 16,
                quantization_selector: s[index + 2],
            },
        );
        index = index + 3;
        component = component + 1;
    }
    Some(
        FrameHeader {
            sample_precision,
            num_lines,
            samples_per_line,
            image_components,
            frame_components,
        },
    )
}

/// How one component of a scan is decoded: the list of decoded blocks it adds to (the
/// position of the first scan component that selects the same frame component), and the
/// tables it is decoded with, as they stood when the scan was met.
#[derive(Debug, Clone, PartialEq, Eq)]
pub struct ScanComponentPlan {
    pub block_list: usize,
    pub ac_table: HuffmanTableData,
    pub dc_table: HuffmanTableData,
    pub quantization_table: Vec<u8>,
}

impl View for ScanComponentPlan {
    type V = ComponentPlanModel;

    open spec fn view(&self) -> ComponentPlanModel {
        ComponentPlanModel {
            block_list: self.block_list as int,
            ac_table: self.ac_table@,
            dc_table: self.dc_table@,
            quantization_table: self.quantization_table@,
        }
    }
}

/// A copy of `v`.
fn copy_bytes(v: &Vec<u8>) -> (r: Vec<u8>)
    ensures
        r@ == v@,
{
    let r = copy_range(v.as_slice(), 0, v.len());
    assert(v@.subrange(0, v@.len() as int) =~= v@);
    r
}

/// A copy of `t`.
fn copy_table(t: &HuffmanTableData) -> (r: HuffmanTableData)
    ensures
        r@ == t@,
{
    HuffmanTableData { counts: copy_bytes(&t.counts), values: copy_bytes(&t.values) }
}

/// A scan met while reading: its header, where its entropy-coded data starts, and how
/// each of its components is decoded.
#[derive(Debug, PartialEq, Eq)]
pub struct ScanPlan {
    pub header: ScanHeader,
    pub data_start: usize,
    pub components: Vec<ScanComponentPlan>,
}

/// What the reader met on its way through the segments, besides tables and frames.
#[derive(Debug, PartialEq, Eq)]
pub enum SegmentEvent {
    /// A comment of `length` bytes at position `start`.
    Comment { start: usize, length: usize },
    /// A scan.
    Scan(ScanPlan),
    /// A marker the reader does not know; it stopped there.
    UnhandledMarker { position: usize, data_length: usize },
}

impl View for SegmentEvent {
    type V = EventModel;

    open spec fn view(&self) -> EventModel {
        match self {
            SegmentEvent::Comment { start, length } => EventModel::Comment {
                start: *start as int,
                length: *length as int,
            },
            SegmentEvent::Scan(p) => EventModel::Scan {
                header: p.header@,
                data_start: p.data_start as int,
                components: p.components@.map_values(|c: ScanComponentPlan| c@),
            },
            SegmentEvent::UnhandledMarker { position, data_length } => EventModel::UnhandledMarker {
                position: *position as int,
                data_length: *data_length as int,
            },
        }
    }
}

/// The events, as models.
pub open spec fn events_view(v: Seq<SegmentEvent>) -> Seq<EventModel> {
    v.map_values(|e: SegmentEvent| e@)
}

/// The position of the first scan component that selects frame component `id`, which
/// some component selects.
fn component_index(comps: &Vec<ScanComponentHeader>, id: u8) -> (m: usize)
    requires
        exists|j: int| 0 <= j < comps@.len() && comps@[j].scan_component_selector == id,
    ensures
        first_index_of(component_selectors(comps@), id) == Some(m as int),
{
    let ghost keys = component_selectors(comps@);
    let mut i: usize = 0;
    loop
        invariant
            i <= comps@.len(),
            keys == component_selectors(comps@),
            forall|j: int| 0 <= j < i ==> keys[j] != id,
            exists|j: int| i <= j < comps@.len() && comps@[j].scan_component_selector == id,
        decreases comps@.len() - i,
    {
        proof {
            let j = choose|j: int| i <= j < comps@.len() && comps@[j].scan_component_selector == id;
            assert(i < comps@.len());
        }
        if comps[i].scan_component_selector == id {
            proof {
                lemma_first_index_of(keys, id, i as int);
            }
            return i;
        }
        proof {
            assert(keys[i as int] != id);
        }
        assert(i < comps.len());
        i = i + 1;
    }
}

/// Reads the scan header of the segment at `i`, and how each of its components is
/// decoded with the tables and frame header read so far.
fn read_scan(
    s: &[u8],
    i: usize,
    ac: &Vec<Option<HuffmanTableData>>,
    dc: &Vec<Option<HuffmanTableData>>,
    quant: &Vec<Option<Vec<u8>>>,
    frame: &Option<FrameHeader>,
    Ghost(st): Ghost<ParseModel>,
) -> (r: Option<ScanPlan>)
    requires
        i <= s@.len(),
        ac@.len() == 4,
        dc@.len() == 4,
        quant@.len() == 4,
        st.ac_tables == huffman_slots_view(ac@),
        st.dc_tables == huffman_slots_view(dc@),
        st.quantization_tables == quantization_slots_view(quant@),
        st.frame_header == frame_view(*frame),
    ensures
        match scan_segment(s@, i as int, st) {
            None => r is None,
            Some(e) => r matches Some(p) && SegmentEvent::Scan(p)@ == e,
        },
{
    let len = s.len();
    if len - i < 5 {
        return None;
    }
    let num_components = s[i + 4];
    if len - i - 5 < 2 * num_components as usize + 3 {
        return None;
    }
    let mut scan_components: Vec<ScanComponentHeader> = Vec::new();
    let mut component: u8 = 0;
    while component < num_components
        invariant
            len == s@.len(),
            i + 2 * num_components + 8 <= len,
            num_components == s@[i + 4],
            component <= num_components,
            scan_components@ =~= Seq::new(
                component as nat,
                |k: int| scan_component_at(s@, i + 5 + 2 * k),
            ),
        decreases num_components - component,
    {
        let p = i + 5 + 2 * component as usize;
        scan_components.push(
            ScanComponentHeader {
                scan_component_selector: s[p],
                dc_table_selector: s[p + 1] / 16,
                ac_table_selector: s[p + 1] % 16,
            },
        );
        component = component + 1;
    }
    let j = i + 2 * num_components as usize;
    let header = ScanHeader {
        num_components,
        scan_components,
        start_spectral_selection: s[j + 5],
        end_spectral_selection: s[j + 6],
        successive_approximation_bit_pos_high: s[j + 7] / 16,
        successive_approximation_bit_pos_low: s[j + 7] % 16,
    };
    assert(header@ == scan_header_at(s@, i as int));
    let ghost comps = header@.scan_components;
    let mut components: Vec<ScanComponentPlan> = Vec::new();
    let mut k: usize = 0;
    while k < header.scan_components.len()
        invariant
            comps == header@.scan_components,
            header@ == scan_header_at(s@, i as int),
            i + 5 <= s@.len(),
            i + 2 * s@[i + 4] + 8 <= s@.len(),
            j == i + 2 * s@[i + 4],
            ac@.len() == 4,
            dc@.len() == 4,
            quant@.len() == 4,
            st.ac_tables == huffman_slots_view(ac@),
            st.dc_tables == huffman_slots_view(dc@),
            st.quantization_tables == quantization_slots_view(quant@),
            st.frame_header == frame_view(*frame),
            k <= comps.len(),
            forall|k2: int| 0 <= k2 < k ==> #[trigger] component_decodable(comps, k2, st),
            components@.map_values(|c: ScanComponentPlan| c@) =~= Seq::new(
                k as nat,
                |k2: int| component_plan(comps, k2, st),
            ),
        decreases comps.len() - k,
    {
        let id = header.scan_components[k].scan_component_selector;
        assert(comps[k as int].scan_component_selector == id);
        let m = component_index(&header.scan_components, id);
        assert(block_list_of(comps, k as int) == m);
        let head = header.scan_components[m];
        let ac_slot = head.ac_table_selector;
        if ac_slot >= 4 {
            assert(!component_decodable(comps, k as int, st));
            return None;
        }
        let ac_table = match &ac[ac_slot as usize] {
            Some(t) => copy_table(t),
            None => {
                assert(!component_decodable(comps, k as int, st));
                return None;
            },
        };
        let dc_slot = head.dc_table_selector;
        if dc_slot >= 4 {
            assert(!component_decodable(comps, k as int, st));
            return None;
        }
        let dc_table = match &dc[dc_slot as usize] {
            Some(t) => copy_table(t),
            None => {
                assert(!component_decodable(comps, k as int, st));
                return None;
            },
        };
        let quantization_slot = match frame {
            None => {
                assert(!component_decodable(comps, k as int, st));
                return None;
            },
            Some(f) => match f.quantization_table_id(id) {
                None => {
                    assert(!component_decodable(comps, k as int, st));
                    return None;
                },
                Some(q) => q,
            },
        };
        if quantization_slot >= 4 {
            assert(!component_decodable(comps, k as int, st));
            return None;
        }
        let quantization_table = match &quant[quantization_slot as usize] {
            Some(q) => copy_bytes(q),
            None => {
                assert(!component_decodable(comps, k as int, st));
                return None;
            },
        };
        assert(component_decodable(comps, k as int, st));
        let plan = ScanComponentPlan { block_list: m, ac_table, dc_table, quantization_table };
        assert(plan@ == component_plan(comps, k as int, st));
        let ghost before = components@.map_values(|c: ScanComponentPlan| c@);
        components.push(plan);
        assert(components@.map_values(|c: ScanComponentPlan| c@) =~= before.push(
            component_plan(comps, k as int, st),
        ));
        k = k + 1;
    }
    Some(ScanPlan { header, data_start: j + 8, components })
}

/// A JFIF image: the fields of its header, and the Huffman tables, quantization tables
/// and frame header that its segments define.
#[derive(Debug)]
pub struct JFIFImage {
    version: JFIFVersion,
    units: JFIFUnits,
    dimensions: (u16, u16),
    thumbnail_dimensions: (u8, u8),
    comment: Option<String>,
    huffman_ac_tables: Vec<Option<HuffmanTableData>>,
    huffman_dc_tables: Vec<Option<HuffmanTableData>>,
    quantization_tables: Vec<Option<Vec<u8>>>,
    frame_header: Option<FrameHeader>,
}

impl View for JFIFImage {
    type V = ImageModel;

    closed spec fn view(&self) -> ImageModel {
        ImageModel {
            version: self.version,
            units: self.units,
            dimensions: self.dimensions,
            thumbnail_dimensions: self.thumbnail_dimensions,
            comment: match self.comment {
                Some(c) => Some(c@),
                None => None,
            },
            huffman_ac_tables: huffman_slots_view(self.huffman_ac_tables@),
            huffman_dc_tables: huffman_slots_view(self.huffman_dc_tables@),
            quantization_tables: quantization_slots_view(self.quantization_tables@),
            frame_header: frame_view(self.frame_header),
        }
    }
}

/// The state of the reader as a model.
spec fn state_model(
    ac: Seq<Option<HuffmanTableData>>,
    dc: Seq<Option<HuffmanTableData>>,
    quant: Seq<Option<Vec<u8>>>,
    frame: Option<FrameHeader>,
    events: Seq<SegmentEvent>,
) -> ParseModel {
    ParseModel {
        ac_tables: huffman_slots_view(ac),
        dc_tables: huffman_slots_view(dc),
        quantization_tables: quantization_slots_view(quant),
        frame_header: frame_view(frame),
        events: events_view(events),
    }
}

impl JFIFImage {
    #[verifier::type_invariant]
    spec fn slots_wf(self) -> bool {
        &&& self.huffman_ac_tables@.len() == 4
        &&& self.huffman_dc_tables@.len() == 4
        &&& self.quantization_tables@.len() == 4
    }

    /// Reads a JFIF file. `None` exactly where the reader cannot go through the file;
    /// otherwise the image with the events met in its segments, or the error message.
    pub fn parse_segments(s: &[u8]) -> (r: Option<Result<(JFIFImage, Vec<SegmentEvent>), String>>)
        ensures
            match spec_parse(s@) {
                None => r is None,
                Some(Err(m)) => r matches Some(Err(e)) && e@ == m,
                Some(Ok((img, evs))) => r matches Some(Ok((image, events))) && image@ == img
                    && events_view(events@) == evs,
            },
    {
        let len = s.len();
        if len < 11 {
            return Some(Err(String::from_str("input is too short")));
        }
        if s[0] != 0xff || s[1] != 0xd8 || s[2] != 0xff || s[3] != 0xe0 || s[6] != 0x4a || s[7]
            != 0x46 || s[8] != 0x49 || s[9] != 0x46 || s[10] != 0x00 {
            return Some(Err(String::from_str("Header mismatch")));
        }
        if len < 13 {
            return None;
        }
        let version = match JFIFVersion::from_bytes(s[11], s[12]) {
            Ok(v) => v,
            Err(e) => {
                return Some(Err(e));
            },
        };
        if len < 20 {
            return None;
        }
        let units = match JFIFUnits::from_u8(s[13]) {
            Ok(u) => u,
            Err(e) => {
                return Some(Err(e));
            },
        };
        let x_density = u8s_to_u16(&s[14..16]);
        let y_density = u8s_to_u16(&s[16..18]);
        let thumbnail_dimensions = (s[18], s[19]);

        let mut ac: Vec<Option<HuffmanTableData>> = Vec::new();
        let mut dc: Vec<Option<HuffmanTableData>> = Vec::new();
        let mut quant: Vec<Option<Vec<u8>>> = Vec::new();
        let mut n: usize = 0;
        while n < 4
            invariant
                n <= 4,
                ac@.len() == n,
                dc@.len() == n,
                quant@.len() == n,
                forall|k: int| 0 <= k < n ==> ac@[k] is None && dc@[k] is None && quant@[k] is None,
            decreases 4 - n,
        {
            ac.push(None);
            dc.push(None);
            quant.push(None);
            n = n + 1;
        }
        let mut frame: Option<FrameHeader> = None;
        let mut events: Vec<SegmentEvent> = Vec::new();
        assert(huffman_slots_view(ac@) =~= initial_model().ac_tables);
        assert(huffman_slots_view(dc@) =~= initial_model().dc_tables);
        assert(quantization_slots_view(quant@) =~= initial_model().quantization_tables);
        assert(events_view(events@) =~= initial_model().events);
        assert(state_model(ac@, dc@, quant@, frame, events@) == initial_model());
        let ghost goal = walk(s@, 20, initial_model());
        assert(goal is None ==> spec_parse(s@) is None);

        let mut i: usize = 20;
        while i < len
            invariant
                len == s@.len(),
                ac@.len() == 4,
                dc@.len() == 4,
                quant@.len() == 4,
                goal == walk(s@, 20, initial_model()),
                goal is None ==> spec_parse(s@) is None,
                i <= len,
                walk(s@, i as int, state_model(ac@, dc@, quant@, frame, events@)) == goal,
            decreases len - i,
        {
            let ghost st = state_model(ac@, dc@, quant@, frame, events@);
            if len - i < 4 {
                return None;
            }
            let raw = u8s_to_u16(&s[i + 2..i + 4]) as usize;
            if raw < 2 {
                return None;
            }
            let dl = raw - 2;
            let kind = s[i + 1];
            let mut skip: usize = 0;
            let mut stop = false;
            if s[i] != 0xff || !(kind == 0xfe || kind == 0xdb || kind == 0xc0 || kind == 0xc4
                || kind == 0xda || kind == 0xdd || kind == 0xec || kind == 0xee) {
                events.push(SegmentEvent::UnhandledMarker { position: i, data_length: dl });
                assert(events_view(events@) =~= st.events.push(
                    EventModel::UnhandledMarker { position: i as int, data_length: dl as int },
                ));
                stop = true;
            } else if kind == 0xfe {
                if len - i - 4 < dl {
                    return None;
                }
                events.push(SegmentEvent::Comment { start: i + 4, length: dl });
                assert(events_view(events@) =~= st.events.push(
                    EventModel::Comment { start: i + 4, length: dl as int },
                ));
            } else if kind == 0xdb {
                if !read_quantization_tables(s, i + 4, dl, &mut quant) {
                    return None;
                }
            } else if kind == 0xc0 {
                match read_frame_header(s, i) {
                    None => {
                        return None;
                    },
                    Some(f) => {
                        frame = Some(f);
                    },
                }
            } else if kind == 0xc4 {
                if !read_huffman_tables(s, i, dl, &mut ac, &mut dc) {
                    return None;
                }
            } else if kind == 0xda {
                match read_scan(s, i, &ac, &dc, &quant, &frame, Ghost(st)) {
                    None => {
                        return None;
                    },
                    Some(p) => {
                        skip = 2 * s[i + 4] as usize + 8;
                        let ghost e = SegmentEvent::Scan(p)@;
                        events.push(SegmentEvent::Scan(p));
                        assert(events_view(events@) =~= st.events.push(e));
                    },
                }
            } else if kind == 0xdd {
                return None;
            }
            let rest = len - i - 4;
            if stop || dl >= rest || skip >= rest - dl {
                i = len;
            } else {
                i = i + 4 + dl + skip;
            }
        }
        let image = JFIFImage {
            version,
            units,
            dimensions: (x_density, y_density),
            thumbnail_dimensions,
            comment: None,
            huffman_ac_tables: ac,
            huffman_dc_tables: dc,
            quantization_tables: quant,
            frame_header: frame,
        };
        Some(Ok((image, events)))
    }

    /// Reads a JFIF file that the reader can go through: the image, or the error message
    /// for a file that is too short to hold a header, does not start like a JFIF file, or
    /// has a version that cannot be read.
    pub fn parse(vec: Vec<u8>) -> (r: Result<JFIFImage, String>)
        requires
            parse_defined(vec@),
        ensures
            match spec_parse(vec@) {
                Some(Ok((img, _))) => r matches Ok(image) && image@ == img,
                Some(Err(m)) => r matches Err(e) && e@ == m,
                None => false,
            },
    {
        match JFIFImage::parse_segments(vec.as_slice()) {
            Some(Ok((image, _))) => Ok(image),
            Some(Err(e)) => Err(e),
            None => {
                proof {
                    assert(false);
                }
                Err(String::new())
            },
        }
    }

    /// The version of the file.
    pub fn version(&self) -> (r: JFIFVersion)
        ensures
            r == self@.version,
    {
        self.version
    }

    /// The units of the pixel densities.
    pub fn units(&self) -> (r: JFIFUnits)
        ensures
            r == self@.units,
    {
        self.units
    }

    /// The horizontal and vertical pixel densities.
    pub fn dimensions(&self) -> (r: (u16, u16))
        ensures
            r == self@.dimensions,
    {
        self.dimensions
    }

    /// The width and height of the thumbnail.
    pub fn thumbnail_dimensions(&self) -> (r: (u8, u8))
        ensures
            r == self@.thumbnail_dimensions,
    {
        self.thumbnail_dimensions
    }

    /// The comment of the image.
    pub fn comment(&self) -> (r: &Option<String>)
        ensures
            self@.comment == match *r {
                Some(c) => Some(c@),
                None => None,
            },
    {
        &self.comment
    }

    /// The AC Huffman table in slot `slot`.
    pub fn huffman_ac_table(&self, slot: usize) -> (r: &Option<HuffmanTableData>)
        requires
            slot < 4,
        ensures
            self@.huffman_ac_tables[slot as int] == match *r {
                Some(t) => Some(t@),
                None => None,
            },
    {
        proof {
            use_type_invariant(self);
        }
        &self.huffman_ac_tables[slot]
    }

    /// The DC Huffman table in slot `slot`.
    pub fn huffman_dc_table(&self, slot: usize) -> (r: &Option<HuffmanTableData>)
        requires
            slot < 4,
        ensures
            self@.huffman_dc_tables[slot as int] == match *r {
                Some(t) => Some(t@),
                None => None,
            },
    {
        proof {
            use_type_invariant(self);
        }
        &self.huffman_dc_tables[slot]
    }

    /// The quantization table in slot `slot`.
    pub fn quantization_table(&self, slot: usize) -> (r: &Option<Vec<u8>>)
        requires
            slot < 4,
        ensures
            self@.quantization_tables[slot as int] == match *r {
                Some(t) => Some(t@),
                None => None,
            },
    {
        proof {
            use_type_invariant(self);
        }
        &self.quantization_tables[slot]
    }

    /// The frame header, if a baseline frame segment was read.
    pub fn frame_header(&self) -> (r: &Option<FrameHeader>)
        ensures
            self@.frame_header == frame_view(*r),
    {
        &self.frame_header
    }
}

} // verus!
