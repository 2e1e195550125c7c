//! Frame and scan headers, and the lookups of a component in them.
use vstd::prelude::*;

verus! {

/// Whether `i` is the first position of `key` in `keys`.
pub open spec fn is_first_index_of(keys: Seq<u8>, key: u8, i: int) -> bool {
    &&& 0 <= i < keys.len()
    &&& keys[i] == key
    &&& forall|j: int| 0 <= j < i ==> keys[j] != key
}

/// The first position of `key` in `keys`, if it occurs there.
pub open spec fn first_index_of(keys: Seq<u8>, key: u8) -> Option<int> {
    if exists|i: int| is_first_index_of(keys, key, i) {
        Some(choose|i: int| is_first_index_of(keys, key, i))
    } else {
        None
    }
}

/// A first position is the first position.
pub proof fn lemma_first_index_of(keys: Seq<u8>, key: u8, i: int)
    requires
        is_first_index_of(keys, key, i),
    ensures
        first_index_of(keys, key) == Some(i),
{
    let k = choose|k: int| is_first_index_of(keys, key, k);
    assert(is_first_index_of(keys, key, k));
    if k < i {
        assert(keys[k] != key);
    } else if i < k {
        assert(keys[i] != key);
    }
}

/// A key that does not occur has no first position.
pub proof fn lemma_first_index_of_absent(keys: Seq<u8>, key: u8)
    requires
        forall|j: int| 0 <= j < keys.len() ==> keys[j] != key,
    ensures
        first_index_of(keys, key) is None,
{
}

/// One component of a frame (JPEG B.2.2).
#[derive(Debug, Clone, Copy, PartialEq, Eq, Structural)]
pub struct FrameComponentHeader {
    /// Component id
    pub component_id: u8,
    /// Relationship between component horizontal dimension and maximum image dimension
    pub horizontal_sampling_factor: u8,
    /// Relationship between component vertical dimension and maximum image dimension
    pub vertical_sampling_factor: u8,
    /// Selector for this component's quantization table
    pub quantization_selector: u8,
}

/// A frame header (JPEG B.2.2).
#[derive(Debug, PartialEq, Eq)]
pub struct FrameHeader {
    /// Bits per sample of each component in the frame
    pub sample_precision: u8,
    /// The maximum number of lines in the source image
    pub num_lines: u16,
    /// The maximum number of samples per line in the source image
    pub samples_per_line: u16,
    /// Number of image components in the frame
    pub image_components: u8,
    /// Headers for each component
    pub frame_components: Vec<FrameComponentHeader>,
}

/// A frame header, with its components as a sequence.
pub struct FrameHeaderModel {
    pub sample_precision: u8,
    pub num_lines: u16,
    pub samples_per_line: u16,
    pub image_components: u8,
    pub frame_components: Seq<FrameComponentHeader>,
}

impl View for FrameHeader {
    type V = FrameHeaderModel;

    open spec fn view(&self) -> FrameHeaderModel {
        FrameHeaderModel {
            sample_precision: self.sample_precision,
            num_lines: self.num_lines,
            samples_per_line: self.samples_per_line,
            image_components: self.image_components,
            frame_components: self.frame_components@,
        }
    }
}

/// The ids of the components of a frame, in order.
pub open spec fn component_ids(comps: Seq<FrameComponentHeader>) -> Seq<u8> {
    comps.map_values(|c: FrameComponentHeader| c.component_id)
}

/// The quantization table selector of the first component of `frame` with id `component`.
pub open spec fn spec_quantization_table_id(frame: FrameHeaderModel, component: u8) -> Option<u8> {
    match first_index_of(component_ids(frame.frame_components), component) {
        Some(i) => Some(frame.frame_components[i].quantization_selector),
        None => None,
    }
}

impl FrameHeader {
    /// The quantization table selector of the first component with id `component`, if
    /// the frame has such a component.
    pub fn quantization_table_id(&self, component: u8) -> (r: Option<u8>)
        ensures
            r == spec_quantization_table_id(self@, component),
            r is None <==> forall|j: int|
                0 <= j < self.frame_components@.len()
                    ==> #[trigger] self.frame_components@[j].component_id != component,
            r matches Some(q) ==> exists|i: int|
                0 <= i < self.frame_components@.len() && #[trigger] self.frame_components@[i].component_id
                    == component && self.frame_components@[i].quantization_selector == q
                    && forall|j: int|
                    0 <= j < i ==> self.frame_components@[j].component_id != component,
    {
        let ghost keys = component_ids(self.frame_components@);
        let mut i: usize = 0;
        while i < self.frame_components.len()
            invariant
                i <= self.frame_components@.len(),
                keys == component_ids(self.frame_components@),
                forall|j: int| 0 <= j < i ==> keys[j] != component,
            decreases self.frame_components@.len() - i,
        {
            if self.frame_components[i].component_id == component {
                proof {
                    lemma_first_index_of(keys, component, i as int);
                    assert forall|j: int| 0 <= j < i implies self.frame_components@[j].component_id
                        != component by {
                        assert(keys[j] != component);
                    }
                }
                return Some(self.frame_components[i].quantization_selector);
            }
            i = i + 1;
        }
        proof {
            lemma_first_index_of_absent(keys, component);
            assert forall|j: int| 0 <= j < self.frame_components@.len() implies #[trigger] self.frame_components@[j].component_id
                != component by {
                assert(keys[j] != component);
            }
        }
        None
    }
}

/// One component of a scan (JPEG B.2.3).
#[derive(Debug, Clone, Copy, PartialEq, Eq, Structural)]
pub struct ScanComponentHeader {
    /// The id of the frame component that this scan component codes
    pub scan_component_selector: u8,
    /// The DC Huffman table of this component
    pub dc_table_selector: u8,
    /// The AC Huffman table of this component
    pub ac_table_selector: u8,
}

/// A scan header (JPEG B.2.3).
#[derive(Debug, PartialEq, Eq)]
pub struct ScanHeader {
    /// Number of components in the scan.
    pub num_components: u8,
    /// Headers for each component
    pub scan_components: Vec<ScanComponentHeader>,
    /// Start of spectral selection (zero for sequential DCT)
    pub start_spectral_selection: u8,
    /// End of spectral selection (63 for sequential DCT)
    pub end_spectral_selection: u8,
    /// Successive approximation bit position high
    pub successive_approximation_bit_pos_high: u8,
    /// Successive approximation bit position low
    pub successive_approximation_bit_pos_low: u8,
}

/// A scan header, with its components as a sequence.
pub struct ScanHeaderModel {
    pub num_components: u8,
    pub scan_components: Seq<ScanComponentHeader>,
    pub start_spectral_selection: u8,
    pub end_spectral_selection: u8,
    pub successive_approximation_bit_pos_high: u8,
    pub successive_approximation_bit_pos_low: u8,
}

impl View for ScanHeader {
    type V = ScanHeaderModel;

    open spec fn view(&self) -> ScanHeaderModel {
        ScanHeaderModel {
            num_components: self.num_components,
            scan_components: self.scan_components@,
            start_spectral_selection: self.start_spectral_selection,
            end_spectral_selection: self.end_spectral_selection,
            successive_approximation_bit_pos_high: self.successive_approximation_bit_pos_high,
            successive_approximation_bit_pos_low: self.successive_approximation_bit_pos_low,
        }
    }
}

/// The frame component ids that the components of a scan select, in order.
pub open spec fn component_selectors(comps: Seq<ScanComponentHeader>) -> Seq<u8> {
    comps.map_values(|c: ScanComponentHeader| c.scan_component_selector)
}

/// The first component of `scan` that selects frame component `component`.
pub open spec fn spec_scan_component_header(scan: ScanHeaderModel, component: u8) -> Option<
    ScanComponentHeader,
> {
    match first_index_of(component_selectors(scan.scan_components), component) {
        Some(i) => Some(scan.scan_components[i]),
        None => None,
    }
}

impl ScanHeader {
    /// The first component of the scan that selects frame component `component`, if any.
    pub fn scan_component_header(&self, component: u8) -> (r: Option<ScanComponentHeader>)
        ensures
            r == spec_scan_component_header(self@, component),
            r is None <==> forall|j: int|
                0 <= j < self.scan_components@.len()
                    ==> #[trigger] self.scan_components@[j].scan_component_selector != component,
            r matches Some(h) ==> exists|i: int|
                0 <= i < self.scan_components@.len() && #[trigger] self.scan_components@[i] == h
                    && h.scan_component_selector == component && forall|j: int|
                    0 <= j < i ==> self.scan_components@[j].scan_component_selector != component,
    {
        let ghost keys = component_selectors(self.scan_components@);
        let mut i: usize = 0;
        while i < self.scan_components.len()
            invariant
                i <= self.scan_components@.len(),
                keys == component_selectors(self.scan_components@),
                forall|j: int| 0 <= j < i ==> keys[j] != component,
            decreases self.scan_components@.len() - i,
        {
            if self.scan_components[i].scan_component_selector == component {
                proof {
                    lemma_first_index_of(keys, component, i as int);
                    assert forall|j: int| 0 <= j < i implies self.scan_components@[j].scan_component_selector
                        != component by {
                        assert(keys[j] != component);
                    }
                }
                return Some(self.scan_components[i]);
            }
            i = i + 1;
        }
        proof {
            lemma_first_index_of_absent(keys, component);
            assert forall|j: int| 0 <= j < self.scan_components@.len() implies #[trigger] self.scan_components@[j].scan_component_selector
                != component by {
                assert(keys[j] != component);
            }
        }
        None
    }
}

} // verus!
