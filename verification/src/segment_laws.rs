//! Laws of the segment reader: what a run of tables in one segment leaves in the table
//! slots, which segments can be dropped without changing the tables and frame read, and
//! where the reader stops.
use vstd::prelude::*;
use crate::header::be_u16;
use crate::model::{
    byte_sum, component_decodable, frame_segment, huffman_segment, num_table_slots, quantization_segment,
    initial_model, scan_header_at, scan_segment, segment, spec_parse, walk, with_event,
    EventModel, HuffmanTableModel, ParseModel,
};

verus! {

/// The slot named by entry `j` of the run of 65-byte quantization entries at `index`.
pub open spec fn quantization_entry_slot(s: Seq<u8>, index: int, j: int) -> int {
    (s[index + 65 * j] % 16) as int
}

/// Among the first `m` entries of the run at `index`, the last that names slot `t`.
pub open spec fn last_quantization_entry(s: Seq<u8>, index: int, m: nat, t: int) -> Option<int>
    decreases m,
{
    if m == 0 {
        None
    } else if quantization_entry_slot(s, index, m - 1) == t {
        Some(m - 1)
    } else {
        last_quantization_entry(s, index, (m - 1) as nat, t)
    }
}

/// The quantization table slots after reading the first `m` entries of the run at
/// `index`: each slot holds the 64 table bytes of the last entry that names it, or what
/// it held before.
pub open spec fn quantization_tables_after(
    s: Seq<u8>,
    index: int,
    m: nat,
    tables: Seq<Option<Seq<u8>>>,
) -> Seq<Option<Seq<u8>>> {
    Seq::new(
        tables.len(),
        |t: int|
            match last_quantization_entry(s, index, m, t) {
                Some(j) => Some(s.subrange(index + 65 * j + 1, index + 65 * j + 65)),
                None => tables[t],
            },
    )
}

proof fn lemma_last_quantization_entry_shift(s: Seq<u8>, index: int, m: nat, t: int)
    requires
        m >= 1,
    ensures
        last_quantization_entry(s, index, m, t) == match last_quantization_entry(
            s,
            index + 65,
            (m - 1) as nat,
            t,
        ) {
            Some(j) => Some(j + 1),
            None => if quantization_entry_slot(s, index, 0) == t {
                Some(0int)
            } else {
                None
            },
        },
    decreases m,
{
    assert(quantization_entry_slot(s, index, m - 1) == quantization_entry_slot(
        s,
        index + 65,
        m - 2,
    ));
    if m > 1 {
        lemma_last_quantization_entry_shift(s, index, (m - 1) as nat, t);
    }
}

/// A run of `m` full quantization entries leaves each slot with the table of the last
/// entry that names it: a later table replaces an earlier one.
pub proof fn lemma_quantization_last_entry_wins(
    s: Seq<u8>,
    index: int,
    m: nat,
    tables: Seq<Option<Seq<u8>>>,
)
    requires
        0 <= index,
        m >= 1,
        index + 65 * m <= s.len(),
        tables.len() == num_table_slots(),
        forall|j: int| 0 <= j < m ==> #[trigger] quantization_entry_slot(s, index, j) < 4,
    ensures
        quantization_segment(s, index, index + 65 * m, tables) == Some(
            quantization_tables_after(s, index, m, tables),
        ),
    decreases m,
{
    let end = index + 65 * m;
    assert(quantization_entry_slot(s, index, 0) < 4);
    let slot = (s[index] % 16) as int;
    let tables2 = tables.update(slot, Some(s.subrange(index + 1, index + 65)));
    assert forall|t: int| 0 <= t < tables.len() implies #[trigger] quantization_tables_after(
        s,
        index + 65,
        (m - 1) as nat,
        tables2,
    )[t] == quantization_tables_after(s, index, m, tables)[t] by {
        lemma_last_quantization_entry_shift(s, index, m, t);
        if let Some(j) = last_quantization_entry(s, index + 65, (m - 1) as nat, t) {
            assert(index + 65 + 65 * j == index + 65 * (j + 1));
        }
    }
    if m == 1 {
        assert forall|t: int| 0 <= t < tables.len() implies #[trigger] quantization_tables_after(
            s,
            index,
            m,
            tables,
        )[t] == tables2[t] by {
            assert(last_quantization_entry(s, index, 0, t) is None);
            assert(index + 65 * 0 == index);
        }
        assert(quantization_tables_after(s, index, m, tables) =~= tables2);
    } else {
        assert forall|j: int| 0 <= j < m - 1 implies #[trigger] quantization_entry_slot(
            s,
            index + 65,
            j,
        ) < 4 by {
            assert(quantization_entry_slot(s, index + 65, j) == quantization_entry_slot(
                s,
                index,
                j + 1,
            ));
        }
        lemma_quantization_last_entry_wins(s, index + 65, (m - 1) as nat, tables2);
        assert(quantization_tables_after(s, index + 65, (m - 1) as nat, tables2)
            =~= quantization_tables_after(s, index, m, tables));
    }
}

/// At a quantization segment holding `m` full entries, the reader moves on past it with
/// each quantization table slot holding the table of the last entry that names it.
pub proof fn lemma_walk_quantization_segment(s: Seq<u8>, i: int, m: nat, st: ParseModel)
    requires
        0 <= i,
        m >= 1,
        i + 4 + 65 * m <= s.len(),
        s[i] == 0xff,
        s[i + 1] == 0xdb,
        be_u16(s[i + 2], s[i + 3]) == 65 * m + 2,
        st.quantization_tables.len() == num_table_slots(),
        forall|j: int| 0 <= j < m ==> #[trigger] quantization_entry_slot(s, i + 4, j) < 4,
    ensures
        ({
            let st2 = ParseModel {
                quantization_tables: quantization_tables_after(s, i + 4, m, st.quantization_tables),
                ..st
            };
            walk(s, i, st) == if i + 4 + 65 * m >= s.len() {
                Some(st2)
            } else {
                walk(s, i + 4 + 65 * m, st2)
            }
        }),
{
    lemma_quantization_last_entry_wins(s, i + 4, m, st.quantization_tables);
}

/// The position just after the Huffman table that starts at `p`: one class and slot
/// byte, 16 code counts, and as many values as the counts add up to.
pub open spec fn huffman_table_end(s: Seq<u8>, p: int) -> int {
    p + 17 + byte_sum(s.subrange(p + 1, p + 17))
}

/// Where table `j` of the run of Huffman tables at `index` starts.
pub open spec fn huffman_table_start(s: Seq<u8>, index: int, j: nat) -> int
    decreases j,
{
    if j == 0 {
        index
    } else {
        huffman_table_end(s, huffman_table_start(s, index, (j - 1) as nat))
    }
}

/// The Huffman table at `p` lies within the data, its counts add up to at most 255, and
/// it names a slot below 4.
pub open spec fn huffman_table_fits(s: Seq<u8>, p: int) -> bool {
    &&& 0 <= p
    &&& p + 17 <= s.len()
    &&& byte_sum(s.subrange(p + 1, p + 17)) <= 255
    &&& huffman_table_end(s, p) <= s.len()
    &&& s[p] % 16 < num_table_slots()
}

/// The Huffman table at `p`.
pub open spec fn huffman_table_at(s: Seq<u8>, p: int) -> HuffmanTableModel {
    HuffmanTableModel {
        counts: s.subrange(p + 1, p + 17),
        values: s.subrange(p + 17, huffman_table_end(s, p)),
    }
}

/// Whether the Huffman table at `p` is of the DC class (`dc`) or the AC class (`!dc`),
/// and names slot `t`.
pub open spec fn huffman_table_names(s: Seq<u8>, p: int, dc: bool, t: int) -> bool {
    (s[p] / 16 == 0) == dc && s[p] % 16 == t
}

/// Among the first `m` tables of the run at `index`, where the last of class `dc` that
/// names slot `t` starts.
pub open spec fn last_huffman_table(s: Seq<u8>, index: int, m: nat, dc: bool, t: int) -> Option<
    int,
>
    decreases m,
{
    if m == 0 {
        None
    } else if huffman_table_names(s, huffman_table_start(s, index, (m - 1) as nat), dc, t) {
        Some(huffman_table_start(s, index, (m - 1) as nat))
    } else {
        last_huffman_table(s, index, (m - 1) as nat, dc, t)
    }
}

/// The slots of class `dc` after reading the first `m` tables of the run at `index`: each
/// slot holds the last table of that class that names it, or what it held before.
pub open spec fn huffman_tables_after(
    s: Seq<u8>,
    index: int,
    m: nat,
    dc: bool,
    tables: Seq<Option<HuffmanTableModel>>,
) -> Seq<Option<HuffmanTableModel>> {
    Seq::new(
        tables.len(),
        |t: int|
            match last_huffman_table(s, index, m, dc, t) {
                Some(p) => Some(huffman_table_at(s, p)),
                None => tables[t],
            },
    )
}

proof fn lemma_huffman_table_start_shift(s: Seq<u8>, index: int, j: nat)
    ensures
        huffman_table_start(s, index, j + 1) == huffman_table_start(
            s,
            huffman_table_end(s, index),
            j,
        ),
    decreases j,
{
    let e = huffman_table_end(s, index);
    assert(huffman_table_start(s, index, 0) == index);
    assert(huffman_table_start(s, index, j + 1) == huffman_table_end(
        s,
        huffman_table_start(s, index, j),
    ));
    if j > 0 {
        lemma_huffman_table_start_shift(s, index, (j - 1) as nat);
        assert(huffman_table_start(s, e, j) == huffman_table_end(
            s,
            huffman_table_start(s, e, (j - 1) as nat),
        ));
    } else {
        assert(huffman_table_start(s, e, 0) == e);
    }
}

proof fn lemma_huffman_table_start_grows(s: Seq<u8>, index: int, j1: nat, j2: nat)
    requires
        j1 < j2,
    ensures
        huffman_table_start(s, index, j1) < huffman_table_start(s, index, j2),
    decreases j2,
{
    if j1 < j2 - 1 {
        lemma_huffman_table_start_grows(s, index, j1, (j2 - 1) as nat);
    }
}

proof fn lemma_last_huffman_table_shift(s: Seq<u8>, index: int, m: nat, dc: bool, t: int)
    requires
        m >= 1,
    ensures
        last_huffman_table(s, index, m, dc, t) == match last_huffman_table(
            s,
            huffman_table_end(s, index),
            (m - 1) as nat,
            dc,
            t,
        ) {
            Some(p) => Some(p),
            None => if huffman_table_names(s, index, dc, t) {
                Some(index)
            } else {
                None
            },
        },
    decreases m,
{
    let e = huffman_table_end(s, index);
    if m > 1 {
        lemma_huffman_table_start_shift(s, index, (m - 2) as nat);
        assert(huffman_table_start(s, index, (m - 1) as nat) == huffman_table_start(
            s,
            e,
            (m - 2) as nat,
        ));
        lemma_last_huffman_table_shift(s, index, (m - 1) as nat, dc, t);
    } else {
        assert(huffman_table_start(s, index, 0) == index);
        assert(last_huffman_table(s, e, 0, dc, t) is None);
        assert(last_huffman_table(s, index, 0, dc, t) is None);
    }
}

/// A run of `m` Huffman tables, all within the data, with the segment's extent ending
/// after the start of the last table and no later than its end, leaves each slot of each
/// class with the last table of that class that names it: a later table replaces an
/// earlier one.
pub proof fn lemma_huffman_last_table_wins(
    s: Seq<u8>,
    index: int,
    end: int,
    m: nat,
    ac: Seq<Option<HuffmanTableModel>>,
    dc: Seq<Option<HuffmanTableModel>>,
)
    requires
        m >= 1,
        forall|j: nat| j < m ==> huffman_table_fits(s, #[trigger] huffman_table_start(s, index, j)),
        huffman_table_start(s, index, (m - 1) as nat) < end <= huffman_table_start(s, index, m),
        ac.len() == num_table_slots(),
        dc.len() == num_table_slots(),
    ensures
        huffman_segment(s, index, end, ac, dc) == Some(
            (huffman_tables_after(s, index, m, false, ac), huffman_tables_after(s, index, m, true, dc)),
        ),
    decreases m,
{
    assert(huffman_table_fits(s, huffman_table_start(s, index, 0)));
    let next = huffman_table_end(s, index);
    let table = huffman_table_at(s, index);
    let slot = (s[index] % 16) as int;
    let ac2 = if s[index] / 16 == 0 { ac } else { ac.update(slot, Some(table)) };
    let dc2 = if s[index] / 16 == 0 { dc.update(slot, Some(table)) } else { dc };
    if m > 1 {
        lemma_huffman_table_start_grows(s, index, 0, (m - 1) as nat);
    }
    assert forall|t: int| 0 <= t < ac.len() implies #[trigger] huffman_tables_after(
        s,
        next,
        (m - 1) as nat,
        false,
        ac2,
    )[t] == huffman_tables_after(s, index, m, false, ac)[t] by {
        lemma_last_huffman_table_shift(s, index, m, false, t);
    }
    assert forall|t: int| 0 <= t < dc.len() implies #[trigger] huffman_tables_after(
        s,
        next,
        (m - 1) as nat,
        true,
        dc2,
    )[t] == huffman_tables_after(s, index, m, true, dc)[t] by {
        lemma_last_huffman_table_shift(s, index, m, true, t);
    }
    if m == 1 {
        assert(huffman_tables_after(s, index, m, false, ac) =~= ac2) by {
            assert forall|t: int| 0 <= t < ac.len() implies #[trigger] huffman_tables_after(
                s,
                index,
                m,
                false,
                ac,
            )[t] == ac2[t] by {
                assert(last_huffman_table(s, index, 0, false, t) is None);
            }
        }
        assert(huffman_tables_after(s, index, m, true, dc) =~= dc2) by {
            assert forall|t: int| 0 <= t < dc.len() implies #[trigger] huffman_tables_after(
                s,
                index,
                m,
                true,
                dc,
            )[t] == dc2[t] by {
                assert(last_huffman_table(s, index, 0, true, t) is None);
            }
        }
    } else {
        assert forall|j: nat| j < m - 1 implies huffman_table_fits(
            s,
            #[trigger] huffman_table_start(s, next, j),
        ) by {
            lemma_huffman_table_start_shift(s, index, j);
            assert(huffman_table_fits(s, huffman_table_start(s, index, j + 1)));
        }
        lemma_huffman_table_start_shift(s, index, (m - 2) as nat);
        lemma_huffman_table_start_shift(s, index, (m - 1) as nat);
        lemma_huffman_last_table_wins(s, next, end, (m - 1) as nat, ac2, dc2);
        assert(huffman_tables_after(s, next, (m - 1) as nat, false, ac2)
            =~= huffman_tables_after(s, index, m, false, ac));
        assert(huffman_tables_after(s, next, (m - 1) as nat, true, dc2)
            =~= huffman_tables_after(s, index, m, true, dc));
    }
}

/// At a Huffman segment whose tables run from after its length field to past its extent
/// (the segment's position plus the announced length), the reader moves on past the
/// segment with each slot of each class holding the last table of that class that names
/// it.
pub proof fn lemma_walk_huffman_segment(s: Seq<u8>, i: int, m: nat, st: ParseModel)
    requires
        0 <= i,
        m >= 1,
        i + 4 <= s.len(),
        s[i] == 0xff,
        s[i + 1] == 0xc4,
        be_u16(s[i + 2], s[i + 3]) >= 2,
        forall|j: nat|
            j < m ==> huffman_table_fits(s, #[trigger] huffman_table_start(s, i + 4, j)),
        huffman_table_start(s, i + 4, (m - 1) as nat) < i + be_u16(s[i + 2], s[i + 3]) - 2
            <= huffman_table_start(s, i + 4, m),
        st.ac_tables.len() == num_table_slots(),
        st.dc_tables.len() == num_table_slots(),
    ensures
        ({
            let dl = be_u16(s[i + 2], s[i + 3]) - 2;
            let st2 = ParseModel {
                ac_tables: huffman_tables_after(s, i + 4, m, false, st.ac_tables),
                dc_tables: huffman_tables_after(s, i + 4, m, true, st.dc_tables),
                ..st
            };
            walk(s, i, st) == if i + 4 + dl >= s.len() {
                Some(st2)
            } else {
                walk(s, i + 4 + dl, st2)
            }
        }),
{
    let dl = be_u16(s[i + 2], s[i + 3]) - 2;
    lemma_huffman_last_table_wins(s, i + 4, i + dl, m, st.ac_tables, st.dc_tables);
}

/// Whether the reader met a marker it does not know at `i`: anything but 0xFF followed
/// by one of the markers it acts on.
pub open spec fn unknown_marker_at(s: Seq<u8>, i: int) -> bool {
    !(s[i] == 0xff && (s[i + 1] == 0xfe || s[i + 1] == 0xdb || s[i + 1] == 0xc0 || s[i + 1]
        == 0xc4 || s[i + 1] == 0xda || s[i + 1] == 0xdd || s[i + 1] == 0xec || s[i + 1] == 0xee))
}

/// At a marker it does not know, with a length field of at least 2, the reader stops: it
/// keeps the tables and frame built so far and notes the marker; no byte after the length
/// field matters.
pub proof fn lemma_walk_stops_at_unknown_marker(s: Seq<u8>, i: int, st: ParseModel)
    requires
        0 <= i,
        i + 4 <= s.len(),
        be_u16(s[i + 2], s[i + 3]) >= 2,
        unknown_marker_at(s, i),
    ensures
        walk(s, i, st) == Some(
            with_event(
                st,
                EventModel::UnhandledMarker {
                    position: i,
                    data_length: be_u16(s[i + 2], s[i + 3]) - 2,
                },
            ),
        ),
{
}

/// Two reader states that hold the same tables and frame header.
pub open spec fn same_reading(a: ParseModel, b: ParseModel) -> bool {
    &&& a.ac_tables == b.ac_tables
    &&& a.dc_tables == b.dc_tables
    &&& a.quantization_tables == b.quantization_tables
    &&& a.frame_header == b.frame_header
}

proof fn lemma_quantization_segment_skip(
    x: Seq<u8>,
    k: int,
    a: int,
    e: int,
    q: Seq<Option<Seq<u8>>>,
)
    requires
        0 <= k <= a,
        k <= x.len(),
    ensures
        quantization_segment(x, a, e, q) == quantization_segment(x.skip(k), a - k, e - k, q),
    decreases e - a,
{
    let y = x.skip(k);
    if a < e && a < x.len() {
        assert(y[a - k] == x[a]);
        let last = if a + 65 < x.len() { a + 65 } else { x.len() as int };
        assert(y.subrange(a - k + 1, last - k) =~= x.subrange(a + 1, last));
        if a + 65 < e {
            lemma_quantization_segment_skip(
                x,
                k,
                a + 65,
                e,
                q.update((x[a] % 16) as int, Some(x.subrange(a + 1, last))),
            );
        }
    }
}

proof fn lemma_huffman_segment_skip(
    x: Seq<u8>,
    k: int,
    a: int,
    e: int,
    ac: Seq<Option<HuffmanTableModel>>,
    dc: Seq<Option<HuffmanTableModel>>,
)
    requires
        0 <= k <= a,
        k <= x.len(),
    ensures
        huffman_segment(x, a, e, ac, dc) == huffman_segment(x.skip(k), a - k, e - k, ac, dc),
    decreases e - a,
{
    let y = x.skip(k);
    if a < e && a + 17 <= x.len() {
        assert(y[a - k] == x[a]);
        let counts = x.subrange(a + 1, a + 17);
        assert(y.subrange(a - k + 1, a - k + 17) =~= counts);
        let total = byte_sum(counts);
        if !(total > 255 || a + 17 + total > x.len() || x[a] % 16 >= num_table_slots()) {
            assert(y.subrange(a - k + 17, a - k + 17 + total) =~= x.subrange(a + 17, a + 17 + total));
            let table = HuffmanTableModel { counts, values: x.subrange(a + 17, a + 17 + total) };
            let slot = (x[a] % 16) as int;
            let (ac2, dc2) = if x[a] / 16 == 0 {
                (ac, dc.update(slot, Some(table)))
            } else {
                (ac.update(slot, Some(table)), dc)
            };
            if a + 17 + total < e {
                lemma_huffman_segment_skip(x, k, a + 17 + total, e, ac2, dc2);
            }
        }
    }
}

proof fn lemma_frame_segment_skip(x: Seq<u8>, k: int, i: int)
    requires
        0 <= k <= i,
        k <= x.len(),
    ensures
        frame_segment(x, i) == frame_segment(x.skip(k), i - k),
{
    let y = x.skip(k);
    if i + 10 <= x.len() {
        assert(y[i - k + 9] == x[i + 9]);
        if i + 10 + 3 * x[i + 9] <= x.len() {
            assert(y[i - k + 4] == x[i + 4]);
            assert(y[i - k + 5] == x[i + 5]);
            assert(y[i - k + 6] == x[i + 6]);
            assert(y[i - k + 7] == x[i + 7]);
            assert(y[i - k + 8] == x[i + 8]);
            let fx = frame_segment(x, i).unwrap();
            let fy = frame_segment(y, i - k).unwrap();
            assert forall|c: int| 0 <= c < x[i + 9] implies #[trigger] fy.frame_components[c]
                == fx.frame_components[c] by {
                assert(y[i - k + 10 + 3 * c] == x[i + 10 + 3 * c]);
                assert(y[i - k + 10 + 3 * c + 1] == x[i + 10 + 3 * c + 1]);
                assert(y[i - k + 10 + 3 * c + 2] == x[i + 10 + 3 * c + 2]);
            }
            assert(fy.frame_components =~= fx.frame_components);
        }
    }
}

proof fn lemma_scan_segment_skip(x: Seq<u8>, k: int, i: int, st1: ParseModel, st2: ParseModel)
    requires
        0 <= k <= i,
        k <= x.len(),
        same_reading(st1, st2),
    ensures
        (scan_segment(x, i, st1) is Some) == (scan_segment(x.skip(k), i - k, st2) is Some),
{
    let y = x.skip(k);
    if i + 5 <= x.len() {
        assert(y[i - k + 4] == x[i + 4]);
        let n = x[i + 4];
        if i + 2 * n + 8 <= x.len() {
            let j = i + 2 * n;
            assert(y[i - k + 2 * n + 5] == x[j + 5]);
            assert(y[i - k + 2 * n + 6] == x[j + 6]);
            assert(y[i - k + 2 * n + 7] == x[j + 7]);
            let hx = scan_header_at(x, i);
            let hy = scan_header_at(y, i - k);
            assert forall|c: int| 0 <= c < n implies #[trigger] hy.scan_components[c]
                == hx.scan_components[c] by {
                assert(y[i - k + 5 + 2 * c] == x[i + 5 + 2 * c]);
                assert(y[i - k + 5 + 2 * c + 1] == x[i + 5 + 2 * c + 1]);
            }
            assert(hy.scan_components =~= hx.scan_components);
            assert(hy == hx);
            assert forall|c: int| 0 <= c < hx.scan_components.len() implies #[trigger] component_decodable(
                hx.scan_components,
                c,
                st1,
            ) == component_decodable(hx.scan_components, c, st2) by {}
            if scan_segment(x, i, st1) is Some {
                assert forall|c: int| 0 <= c < hy.scan_components.len() implies #[trigger] component_decodable(
                    hy.scan_components,
                    c,
                    st2,
                ) by {
                    assert(component_decodable(hx.scan_components, c, st1));
                }
            }
            if scan_segment(y, i - k, st2) is Some {
                assert forall|c: int| 0 <= c < hx.scan_components.len() implies #[trigger] component_decodable(
                    hx.scan_components,
                    c,
                    st1,
                ) by {
                    assert(component_decodable(hy.scan_components, c, st2));
                }
            }
        }
    }
}

proof fn lemma_segment_skip(x: Seq<u8>, k: int, i: int, dl: int, st1: ParseModel, st2: ParseModel)
    requires
        0 <= k <= i,
        i + 4 <= x.len(),
        0 <= dl,
        same_reading(st1, st2),
    ensures
        ({
            let a = segment(x, i, dl, st1);
            let b = segment(x.skip(k), i - k, dl, st2);
            &&& (a is None) == (b is None)
            &&& a matches Some(sa) ==> b matches Some(sb) && sa.stop == sb.stop && sa.skip
                == sb.skip && same_reading(sa.state, sb.state)
        }),
{
    let y = x.skip(k);
    assert(y[i - k] == x[i]);
    assert(y[i - k + 1] == x[i + 1]);
    if i + 4 < x.len() {
        assert(y[i - k + 4] == x[i + 4]);
    }
    lemma_quantization_segment_skip(x, k, i + 4, i + 4 + dl, st1.quantization_tables);
    lemma_huffman_segment_skip(x, k, i + 4, i + dl, st1.ac_tables, st1.dc_tables);
    lemma_frame_segment_skip(x, k, i);
    lemma_scan_segment_skip(x, k, i, st1, st2);
}

/// What the reader makes of the segments from `i` on depends only on the bytes from `i`
/// on and on the tables and frame it holds: dropping the first `k` bytes, with `k` at most
/// `i`, changes neither whether it goes through nor the tables and frame it ends with.
pub proof fn lemma_walk_skip(x: Seq<u8>, k: int, i: int, st1: ParseModel, st2: ParseModel)
    requires
        0 <= k <= i,
        k <= x.len(),
        same_reading(st1, st2),
    ensures
        ({
            let a = walk(x, i, st1);
            let b = walk(x.skip(k), i - k, st2);
            &&& (a is None) == (b is None)
            &&& a matches Some(sa) ==> b matches Some(sb) && same_reading(sa, sb)
        }),
    decreases x.len() - i,
{
    let y = x.skip(k);
    if i < x.len() && i + 4 <= x.len() {
        assert(y[i - k + 2] == x[i + 2]);
        assert(y[i - k + 3] == x[i + 3]);
        if be_u16(x[i + 2], x[i + 3]) >= 2 {
            let dl = be_u16(x[i + 2], x[i + 3]) - 2;
            lemma_segment_skip(x, k, i, dl, st1, st2);
            if let Some(sa) = segment(x, i, dl, st1) {
                let sb = segment(y, i - k, dl, st2).unwrap();
                let next = i + 4 + dl + sa.skip;
                if !sa.stop && next < x.len() {
                    lemma_walk_skip(x, k, next, sa.state, sb.state);
                }
            }
        }
    }
}

/// A comment segment, or an application segment 12 or 14, can be dropped: with or
/// without it, the reader at that point goes through or not alike, and ends with the same
/// tables and frame header (a comment only adds its event).
pub proof fn lemma_skippable_segment_can_be_dropped(
    p: Seq<u8>,
    seg: Seq<u8>,
    r: Seq<u8>,
    st: ParseModel,
)
    requires
        seg.len() >= 4,
        seg[0] == 0xff,
        seg[1] == 0xec || seg[1] == 0xee || seg[1] == 0xfe,
        be_u16(seg[2], seg[3]) == seg.len() - 2,
    ensures
        ({
            let a = walk(p + seg + r, p.len() as int, st);
            let b = walk(p + r, p.len() as int, st);
            &&& (a is None) == (b is None)
            &&& a matches Some(sa) ==> b matches Some(sb) && same_reading(sa, sb)
        }),
{
    let x = p + seg + r;
    let y = p + r;
    let i = p.len() as int;
    let next = i + seg.len();
    assert(x[i] == seg[0]);
    assert(x[i + 1] == seg[1]);
    assert(x[i + 2] == seg[2]);
    assert(x[i + 3] == seg[3]);
    let dl = be_u16(seg[2], seg[3]) - 2;
    let st1 = match segment(x, i, dl, st) {
        Some(step) => step.state,
        None => st,
    };
    assert(segment(x, i, dl, st) is Some);
    assert(same_reading(st1, st));
    if next < x.len() {
        lemma_walk_skip(x, next, next, st1, st);
        assert(x.skip(next) =~= r);
        lemma_walk_skip(y, i, i, st, st);
        assert(y.skip(i) =~= r);
    }
}

/// Reading a file gives the same outcome, and the same image, with or without a comment
/// or application segment 12 or 14 right after the 20-byte header.
pub proof fn lemma_parse_drops_skippable_segment(h: Seq<u8>, seg: Seq<u8>, r: Seq<u8>)
    requires
        h.len() == 20,
        seg.len() >= 4,
        seg[0] == 0xff,
        seg[1] == 0xec || seg[1] == 0xee || seg[1] == 0xfe,
        be_u16(seg[2], seg[3]) == seg.len() - 2,
    ensures
        match (spec_parse(h + seg + r), spec_parse(h + r)) {
            (None, None) => true,
            (Some(Err(a)), Some(Err(b))) => a == b,
            (Some(Ok((ia, _))), Some(Ok((ib, _)))) => ia == ib,
            _ => false,
        },
{
    let x = h + seg + r;
    let y = h + r;
    assert forall|k: int| 0 <= k < 20 implies #[trigger] x[k] == y[k] by {
        assert(x[k] == h[k]);
        assert(y[k] == h[k]);
    }
    lemma_skippable_segment_can_be_dropped(h, seg, r, initial_model());
}

} // verus!
