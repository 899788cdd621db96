//! The segment scanner: walks a file buffer as a sequence of marker
//! segments, classifies each by its tag byte, and extracts the fields
//! of the known segment kinds.

use vstd::prelude::*;

use crate::errors::ParserError;
use crate::huffman::{DHTType, HuffmanTable, HuffmanTableView};

verus! {

/// One record per marker segment, in file order.
#[derive(Debug, PartialEq, Eq)]
pub enum Marker {
    Other(SomeMarker),
    DHT(Vec<HuffmanTable>),
    DQT(QuantizationTable),
    Image(ImageStream),
}

/// A marker the scanner does not interpret: its tag byte, its payload
/// length, and the raw payload.
#[derive(Debug, PartialEq, Eq)]
pub struct SomeMarker {
    pub tag: u8,
    pub length: u16,
    pub data: Vec<u8>,
}

/// The start-of-scan segment: its fixed-format metadata and the raw
/// compressed payload up to the end-of-image terminator.
#[derive(Debug, PartialEq, Eq)]
pub struct ImageStream {
    pub metadata: StartOfStreamMetaData,
    pub data: Vec<u8>,
}

/// A quantization-table segment: the table id and its 64 coefficients.
#[derive(Debug, PartialEq, Eq)]
pub struct QuantizationTable {
    pub id: u64,
    pub data: Vec<u8>,
}

/// The fixed-format fields of a start-of-scan segment.
#[derive(Debug, PartialEq, Eq)]
pub struct StartOfStreamMetaData {
    pub precision: u64,
    pub height: u64,
    pub width: u64,
    pub component_metadata: Vec<ColorComponentMetaData>,
}

/// One per-component descriptor of a start-of-scan segment.
#[derive(Debug, PartialEq, Eq, Structural, Clone, Copy)]
pub struct ColorComponentMetaData {
    pub id: u64,
    pub sampling_resolution: u64,
    pub quantization_table: u64,
}

/// Mathematical image of a `SomeMarker`.
pub struct SomeMarkerView {
    pub tag: u8,
    pub length: u16,
    pub data: Seq<u8>,
}

/// Mathematical image of a `QuantizationTable`.
pub struct QuantizationTableView {
    pub id: u64,
    pub data: Seq<u8>,
}

/// Mathematical image of a `ColorComponentMetaData`.
pub struct ColorComponentView {
    pub id: u64,
    pub sampling_resolution: u64,
    pub quantization_table: u64,
}

/// Mathematical image of a `StartOfStreamMetaData`.
pub struct StartOfStreamMetaDataView {
    pub precision: u64,
    pub height: u64,
    pub width: u64,
    pub component_metadata: Seq<ColorComponentView>,
}

/// Mathematical image of an `ImageStream`.
pub struct ImageStreamView {
    pub metadata: StartOfStreamMetaDataView,
    pub data: Seq<u8>,
}

/// Mathematical image of a `Marker`.
pub enum MarkerView {
    Other(SomeMarkerView),
    DHT(Seq<HuffmanTableView>),
    DQT(QuantizationTableView),
    Image(ImageStreamView),
}

impl View for SomeMarker {
    type V = SomeMarkerView;

    open spec fn view(&self) -> SomeMarkerView {
        SomeMarkerView { tag: self.tag, length: self.length, data: self.data@ }
    }
}

impl View for QuantizationTable {
    type V = QuantizationTableView;

    open spec fn view(&self) -> QuantizationTableView {
        QuantizationTableView { id: self.id, data: self.data@ }
    }
}

impl View for ColorComponentMetaData {
    type V = ColorComponentView;

    open spec fn view(&self) -> ColorComponentView {
        ColorComponentView {
            id: self.id,
            sampling_resolution: self.sampling_resolution,
            quantization_table: self.quantization_table,
        }
    }
}

impl View for StartOfStreamMetaData {
    type V = StartOfStreamMetaDataView;

    open spec fn view(&self) -> StartOfStreamMetaDataView {
        StartOfStreamMetaDataView {
            precision: self.precision,
            height: self.height,
            width: self.width,
            component_metadata: Seq::new(
                self.component_metadata@.len(),
                |i: int| self.component_metadata@[i]@,
            ),
        }
    }
}

impl View for ImageStream {
    type V = ImageStreamView;

    open spec fn view(&self) -> ImageStreamView {
        ImageStreamView { metadata: self.metadata@, data: self.data@ }
    }
}

/// The views of a sequence of parsed Huffman tables, in order.
pub open spec fn tables_view(v: Seq<HuffmanTable>) -> Seq<HuffmanTableView> {
    Seq::new(v.len(), |i: int| v[i]@)
}

/// The views of a sequence of markers, in order.
pub open spec fn markers_view(v: Seq<Marker>) -> Seq<MarkerView> {
    Seq::new(v.len(), |i: int| v[i]@)
}

impl View for Marker {
    type V = MarkerView;

    open spec fn view(&self) -> MarkerView {
        match self {
            Marker::Other(m) => MarkerView::Other(m@),
            Marker::DHT(ts) => MarkerView::DHT(tables_view(ts@)),
            Marker::DQT(q) => MarkerView::DQT(q@),
            Marker::Image(s) => MarkerView::Image(s@),
        }
    }
}

/// The big-endian value of the two bytes at `pos`.
pub open spec fn be16(s: Seq<u8>, pos: int) -> int {
    s[pos] * 256 + s[pos + 1]
}

/// The table identity a class/id byte declares: class nibble high, id
/// nibble low, with only the four known pairings accepted.
pub open spec fn class_of(c: u8) -> Option<DHTType> {
    if c == 0x00 {
        Some(DHTType::LuminanceDC)
    } else if c == 0x01 {
        Some(DHTType::LuminanceAC)
    } else if c == 0x10 {
        Some(DHTType::ChrominanceDC)
    } else if c == 0x11 {
        Some(DHTType::ChrominanceAC)
    } else {
        None
    }
}

/// The sum of the `i` count bytes starting at `base`.
pub open spec fn counts_sum(s: Seq<u8>, base: int, i: int) -> int
    decreases i,
{
    if i <= 0 {
        0
    } else {
        counts_sum(s, base, i - 1) + s[base + i - 1]
    }
}

/// The position of the first end-of-image byte pair at or after `from`,
/// `None` where none remains.
pub open spec fn find_terminator(s: Seq<u8>, from: int) -> Option<int>
    decreases s.len() - from,
{
    if from < 0 || from + 2 > s.len() {
        None
    } else if s[from] == 0xFF && s[from + 1] == 0xD9 {
        Some(from)
    } else {
        find_terminator(s, from + 1)
    }
}

/// A generic marker at `pos`: tag byte, a declared big-endian length
/// that counts itself, and the remaining payload. `None` where the
/// declared length is below two or overruns the buffer.
pub open spec fn spec_other_marker(s: Seq<u8>, pos: int) -> Option<(SomeMarkerView, int)> {
    if pos + 4 <= s.len() {
        let l = be16(s, pos + 2);
        if l >= 2 && pos + 2 + l <= s.len() {
            Some(
                (
                    SomeMarkerView {
                        tag: s[pos + 1],
                        length: (l - 2) as u16,
                        data: s.subrange(pos + 4, pos + 2 + l),
                    },
                    2 + l,
                ),
            )
        } else {
            None
        }
    } else {
        None
    }
}

/// A quantization-table marker at `pos`: the declared length is skipped,
/// one id byte and exactly 64 coefficient bytes follow.
pub open spec fn spec_dqt_marker(s: Seq<u8>, pos: int) -> Option<(QuantizationTableView, int)> {
    if pos + 69 <= s.len() {
        Some(
            (
                QuantizationTableView { id: s[pos + 4] as u64, data: s.subrange(pos + 5, pos + 69) },
                69,
            ),
        )
    } else {
        None
    }
}

/// A start-of-scan marker at `pos`: the declared length is skipped, the
/// fixed metadata and the declared number of three-byte component
/// descriptors follow, and everything up to (not including) the next
/// end-of-image byte pair is the raw compressed payload.
pub open spec fn spec_sos_marker(s: Seq<u8>, pos: int) -> Option<(ImageStreamView, int)> {
    if pos + 10 <= s.len() {
        let nc = s[pos + 9] as int;
        if pos + 10 + 3 * nc <= s.len() {
            let comps = Seq::new(
                nc as nat,
                |i: int|
                    ColorComponentView {
                        id: s[pos + 10 + 3 * i] as u64,
                        sampling_resolution: s[pos + 10 + 3 * i + 1] as u64,
                        quantization_table: s[pos + 10 + 3 * i + 2] as u64,
                    },
            );
            match find_terminator(s, pos + 10 + 3 * nc) {
                Some(j) => Some(
                    (
                        ImageStreamView {
                            metadata: StartOfStreamMetaDataView {
                                precision: s[pos + 4] as u64,
                                height: be16(s, pos + 5) as u64,
                                width: be16(s, pos + 7) as u64,
                                component_metadata: comps,
                            },
                            data: s.subrange(pos + 10 + 3 * nc, j),
                        },
                        j - pos,
                    ),
                ),
                None => None,
            }
        } else {
            None
        }
    } else {
        None
    }
}

/// One Huffman-table definition inside a segment that ends at `end`:
/// a class/id byte, sixteen per-length counts, then that many symbol
/// bytes consumed in length order.
pub open spec fn spec_one_table(s: Seq<u8>, from: int, end: int) -> Option<(HuffmanTableView, int)> {
    if from + 17 <= end {
        match class_of(s[from]) {
            Some(cls) => {
                let total = counts_sum(s, from + 1, 16);
                if from + 17 + total <= end {
                    Some(
                        (
                            HuffmanTableView {
                                class: cls,
                                symbols: Seq::new(
                                    16,
                                    |i: int|
                                        s.subrange(
                                            from + 17 + counts_sum(s, from + 1, i),
                                            from + 17 + counts_sum(s, from + 1, i + 1),
                                        ),
                                ),
                            },
                            17 + total,
                        ),
                    )
                } else {
                    None
                }
            },
            None => None,
        }
    } else {
        None
    }
}

/// The table definitions packed back-to-back in `from..end`: the region
/// must be exhausted exactly, with no byte left over.
pub open spec fn spec_tables(s: Seq<u8>, from: int, end: int) -> Option<Seq<HuffmanTableView>>
    decreases end - from,
{
    if from >= end {
        Some(Seq::<HuffmanTableView>::empty())
    } else {
        match spec_one_table(s, from, end) {
            Some((t, n)) => if 1 <= n && from + n <= end {
                match spec_tables(s, from + n, end) {
                    Some(rest) => Some(seq![t] + rest),
                    None => None,
                }
            } else {
                None
            },
            None => None,
        }
    }
}

/// A define-Huffman-table marker at `pos`: a declared length that counts
/// itself, then one or more table definitions that exhaust it.
pub open spec fn spec_dht_marker(s: Seq<u8>, pos: int) -> Option<(Seq<HuffmanTableView>, int)> {
    if pos + 4 <= s.len() {
        let l = be16(s, pos + 2);
        if l >= 19 && pos + 2 + l <= s.len() {
            match spec_tables(s, pos + 4, pos + 2 + l) {
                Some(ts) => Some((ts, 2 + l)),
                None => None,
            }
        } else {
            None
        }
    } else {
        None
    }
}

/// The marker record starting at `pos` and the count of bytes it spans:
/// the tag byte after the 0xFF prefix selects the segment kind.
pub open spec fn spec_one_marker(s: Seq<u8>, pos: int) -> Option<(MarkerView, int)> {
    if pos + 2 <= s.len() && s[pos] == 0xFF {
        if s[pos + 1] == 0xDA {
            match spec_sos_marker(s, pos) {
                Some((v, n)) => Some((MarkerView::Image(v), n)),
                None => None,
            }
        } else if s[pos + 1] == 0xC4 {
            match spec_dht_marker(s, pos) {
                Some((ts, n)) => Some((MarkerView::DHT(ts), n)),
                None => None,
            }
        } else if s[pos + 1] == 0xDB {
            match spec_dqt_marker(s, pos) {
                Some((q, n)) => Some((MarkerView::DQT(q), n)),
                None => None,
            }
        } else {
            match spec_other_marker(s, pos) {
                Some((m, n)) => Some((MarkerView::Other(m), n)),
                None => None,
            }
        }
    } else {
        None
    }
}

/// The marker records from `pos` up to the end-of-image terminator, in
/// file order; `None` where any segment is malformed or the input runs
/// out before the terminator.
pub open spec fn spec_markers(s: Seq<u8>, pos: int) -> Option<Seq<MarkerView>>
    decreases s.len() - pos,
{
    if pos + 2 <= s.len() && s[pos] == 0xFF && s[pos + 1] == 0xD9 {
        Some(Seq::<MarkerView>::empty())
    } else if 0 <= pos <= s.len() {
        match spec_one_marker(s, pos) {
            Some((m, n)) => if 1 <= n && pos + n <= s.len() {
                match spec_markers(s, pos + n) {
                    Some(rest) => Some(seq![m] + rest),
                    None => None,
                }
            } else {
                None
            },
            None => None,
        }
    } else {
        None
    }
}

/// The full file: a start-of-image prefix, then the marker records up to
/// the end-of-image terminator.
pub open spec fn spec_jpeg(s: Seq<u8>) -> Option<Seq<MarkerView>> {
    if s.len() >= 2 && s[0] == 0xFF && s[1] == 0xD8 {
        spec_markers(s, 2)
    } else {
        None
    }
}

/// Reads the big-endian two-byte value at `pos`.
fn read_be16(s: &[u8], pos: usize) -> (r: u16)
    requires
        pos + 2 <= s@.len(),
    ensures
        r as int == be16(s@, pos as int),
{
    (s[pos] as u16) * 256 + (s[pos + 1] as u16)
}

/// Copies the bytes in `from..to` into a fresh buffer.
fn copy_range(s: &[u8], from: usize, to: usize) -> (r: Vec<u8>)
    requires
        from <= to <= s@.len(),
    ensures
        r@ == s@.subrange(from as int, to as int),
{
    let sub = vstd::slice::slice_subrange(s, from, to);
    vstd::slice::slice_to_vec(sub)
}

/// Scans forward for the first end-of-image byte pair at or after
/// `from`.
fn find_eoi(s: &[u8], from: usize) -> (r: Option<usize>)
    requires
        from <= s@.len(),
    ensures
        match r {
            Some(j) => find_terminator(s@, from as int) == Some(j as int) && from <= j && j + 2
                <= s@.len(),
            None => find_terminator(s@, from as int) is None,
        },
{
    let mut i = from;
    while s.len() - i >= 2
        invariant
            from <= i <= s@.len(),
            find_terminator(s@, from as int) == find_terminator(s@, i as int),
        decreases s@.len() - i,
    {
        if s[i] == 0xFF && s[i + 1] == 0xD9 {
            return Some(i);
        }
        i = i + 1;
    }
    None
}

/// A partial count sum never exceeds a longer one: count bytes are
/// non-negative.
proof fn lemma_counts_sum_monotone(s: Seq<u8>, base: int, i: int, j: int)
    requires
        0 <= i <= j,
    ensures
        counts_sum(s, base, i) <= counts_sum(s, base, j),
    decreases j - i,
{
    if i < j {
        lemma_counts_sum_monotone(s, base, i, j - 1);
    }
}

/// Parses a generic marker at `pos`.
fn parse_other(s: &[u8], pos: usize) -> (r: Result<(SomeMarker, usize), ParserError>)
    requires
        pos + 2 <= s@.len(),
    ensures
        match r {
            Ok((m, n)) => spec_other_marker(s@, pos as int) == Some((m@, n as int)) && 2 <= n && pos
                + n <= s@.len(),
            Err(_) => spec_other_marker(s@, pos as int) is None,
        },
{
    if s.len() - pos < 4 {
        return Err(ParserError::new("truncated marker: length field missing"));
    }
    let l = read_be16(s, pos + 2);
    if l < 2 {
        return Err(ParserError::new("declared segment length below minimum"));
    }
    if (l as usize) - 2 > s.len() - (pos + 4) {
        return Err(ParserError::new("truncated segment: declared length exceeds buffer"));
    }
    let tag = s[pos + 1];
    let data = copy_range(s, pos + 4, pos + 2 + (l as usize));
    Ok((SomeMarker { tag, length: l - 2, data }, 2 + (l as usize)))
}

/// Parses a quantization-table marker at `pos`.
fn parse_dqt(s: &[u8], pos: usize) -> (r: Result<(QuantizationTable, usize), ParserError>)
    requires
        pos <= s@.len(),
    ensures
        match r {
            Ok((q, n)) => spec_dqt_marker(s@, pos as int) == Some((q@, n as int)) && 2 <= n && pos
                + n <= s@.len(),
            Err(_) => spec_dqt_marker(s@, pos as int) is None,
        },
{
    if s.len() - pos < 69 {
        return Err(ParserError::new("truncated quantization table segment"));
    }
    let id = s[pos + 4];
    let data = copy_range(s, pos + 5, pos + 69);
    Ok((QuantizationTable { id: id as u64, data }, 69))
}

/// Parses `nc` three-byte component descriptors starting at `base`.
fn parse_components(s: &[u8], base: usize, nc: usize) -> (r: Vec<ColorComponentMetaData>)
    requires
        nc <= 255,
        base + 3 * nc <= s@.len(),
    ensures
        r@.len() == nc,
        forall|i: int|
            0 <= i < nc ==> (#[trigger] r@[i])@ == (ColorComponentView {
                id: s@[base + 3 * i] as u64,
                sampling_resolution: s@[base + 3 * i + 1] as u64,
                quantization_table: s@[base + 3 * i + 2] as u64,
            }),
{
    let slen = s.len();
    let mut r: Vec<ColorComponentMetaData> = Vec::new();
    let mut k: usize = 0;
    while k < nc
        invariant
            k <= nc <= 255,
            base + 3 * nc <= s@.len(),
            s@.len() == slen,
            r@.len() == k,
            forall|i: int|
                0 <= i < k ==> (#[trigger] r@[i])@ == (ColorComponentView {
                    id: s@[base + 3 * i] as u64,
                    sampling_resolution: s@[base + 3 * i + 1] as u64,
                    quantization_table: s@[base + 3 * i + 2] as u64,
                }),
        decreases nc - k,
    {
        let c = ColorComponentMetaData {
            id: s[base + 3 * k] as u64,
            sampling_resolution: s[base + 3 * k + 1] as u64,
            quantization_table: s[base + 3 * k + 2] as u64,
        };
        r.push(c);
        k = k + 1;
    }
    r
}

/// Parses a start-of-scan marker at `pos`.
fn parse_sos(s: &[u8], pos: usize) -> (r: Result<(ImageStream, usize), ParserError>)
    requires
        pos <= s@.len(),
    ensures
        match r {
            Ok((m, n)) => spec_sos_marker(s@, pos as int) == Some((m@, n as int)) && 2 <= n && pos
                + n <= s@.len(),
            Err(_) => spec_sos_marker(s@, pos as int) is None,
        },
{
    if s.len() - pos < 10 {
        return Err(ParserError::new("truncated scan header"));
    }
    let precision = s[pos + 4];
    let height = read_be16(s, pos + 5);
    let width = read_be16(s, pos + 7);
    let nc = s[pos + 9] as usize;
    if 3 * nc > s.len() - (pos + 10) {
        return Err(ParserError::new("truncated scan component list"));
    }
    let comps = parse_components(s, pos + 10, nc);
    let meta_end = pos + 10 + 3 * nc;
    match find_eoi(s, meta_end) {
        Some(j) => {
            let data = copy_range(s, meta_end, j);
            let m = ImageStream {
                metadata: StartOfStreamMetaData {
                    precision: precision as u64,
                    height: height as u64,
                    width: width as u64,
                    component_metadata: comps,
                },
                data,
            };
            proof {
                let nci = s@[pos as int + 9] as int;
                assert(m@.metadata.component_metadata =~= Seq::new(
                    nci as nat,
                    |i: int|
                        ColorComponentView {
                            id: s@[pos + 10 + 3 * i] as u64,
                            sampling_resolution: s@[pos + 10 + 3 * i + 1] as u64,
                            quantization_table: s@[pos + 10 + 3 * i + 2] as u64,
                        },
                ));
            }
            Ok((m, j - pos))
        },
        None => Err(ParserError::new("scan payload missing end-of-image terminator")),
    }
}

/// Parses one Huffman-table definition inside a segment ending at
/// `end`.
fn parse_one_table(s: &[u8], from: usize, end: usize) -> (r: Result<
    (HuffmanTable, usize),
    ParserError,
>)
    requires
        from <= end <= s@.len(),
    ensures
        match r {
            Ok((t, n)) => spec_one_table(s@, from as int, end as int) == Some((t@, n as int)) && 17
                <= n && from + n <= end,
            Err(_) => spec_one_table(s@, from as int, end as int) is None,
        },
{
    if end - from < 17 {
        return Err(ParserError::new("truncated huffman table definition"));
    }
    let cls_byte = s[from];
    let cls = if cls_byte == 0x00 {
        DHTType::LuminanceDC
    } else if cls_byte == 0x01 {
        DHTType::LuminanceAC
    } else if cls_byte == 0x10 {
        DHTType::ChrominanceDC
    } else if cls_byte == 0x11 {
        DHTType::ChrominanceAC
    } else {
        return Err(ParserError::new("unrecognized huffman table class/id pair"));
    };
    let mut buckets: Vec<Vec<u8>> = Vec::new();
    let mut cur = from + 17;
    let mut i: usize = 0;
    while i < 16
        invariant
            i <= 16,
            from + 17 <= end <= s@.len(),
            cur == from + 17 + counts_sum(s@, from as int + 1, i as int),
            from + 17 <= cur <= end,
            buckets@.len() == i,
            class_of(s@[from as int]) == Some(cls),
            forall|k: int|
                0 <= k < i ==> (#[trigger] buckets@[k])@ == s@.subrange(
                    from + 17 + counts_sum(s@, from as int + 1, k),
                    from + 17 + counts_sum(s@, from as int + 1, k + 1),
                ),
        decreases 16 - i,
    {
        proof {
            lemma_counts_sum_monotone(s@, from as int + 1, 0, i as int);
        }
        let cnt = s[from + 1 + i] as usize;
        if cnt > end - cur {
            proof {
                lemma_counts_sum_monotone(s@, from as int + 1, i as int + 1, 16);
            }
            return Err(ParserError::new("truncated huffman table: counts exceed segment"));
        }
        let bucket = copy_range(s, cur, cur + cnt);
        buckets.push(bucket);
        cur = cur + cnt;
        i = i + 1;
    }
    let t = HuffmanTable { class: cls, symbols: buckets };
    proof {
        lemma_counts_sum_monotone(s@, from as int + 1, 0, 16);
        assert(t@.symbols =~= Seq::new(
            16,
            |i: int|
                s@.subrange(
                    from + 17 + counts_sum(s@, from as int + 1, i),
                    from + 17 + counts_sum(s@, from as int + 1, i + 1),
                ),
        ));
    }
    Ok((t, cur - from))
}

/// Parses the table definitions that exactly fill `from..end`.
fn parse_tables(s: &[u8], from: usize, end: usize) -> (r: Result<Vec<HuffmanTable>, ParserError>)
    requires
        from <= end <= s@.len(),
    ensures
        match r {
            Ok(ts) => spec_tables(s@, from as int, end as int) == Some(tables_view(ts@)),
            Err(_) => spec_tables(s@, from as int, end as int) is None,
        },
{
    let mut ts: Vec<HuffmanTable> = Vec::new();
    let mut cur = from;
    while cur < end
        invariant
            from <= cur <= end <= s@.len(),
            match spec_tables(s@, cur as int, end as int) {
                Some(rest) => spec_tables(s@, from as int, end as int) == Some(
                    tables_view(ts@) + rest,
                ),
                None => spec_tables(s@, from as int, end as int) is None,
            },
        decreases end - cur,
    {
        match parse_one_table(s, cur, end) {
            Ok((t, n)) => {
                let ghost prev = ts@;
                ts.push(t);
                cur = cur + n;
                proof {
                    assert(tables_view(ts@) =~= tables_view(prev) + seq![t@]);
                    match spec_tables(s@, cur as int, end as int) {
                        Some(rest) => {
                            assert(tables_view(prev) + (seq![t@] + rest) =~= tables_view(ts@)
                                + rest);
                        },
                        None => {},
                    }
                }
            },
            Err(e) => {
                return Err(e);
            },
        }
    }
    proof {
        assert(tables_view(ts@) + Seq::<HuffmanTableView>::empty() =~= tables_view(ts@));
    }
    Ok(ts)
}

/// Parses a define-Huffman-table marker at `pos`.
fn parse_dht(s: &[u8], pos: usize) -> (r: Result<(Vec<HuffmanTable>, usize), ParserError>)
    requires
        pos <= s@.len(),
    ensures
        match r {
            Ok((ts, n)) => spec_dht_marker(s@, pos as int) == Some((tables_view(ts@), n as int))
                && 2 <= n && pos + n <= s@.len(),
            Err(_) => spec_dht_marker(s@, pos as int) is None,
        },
{
    if s.len() - pos < 4 {
        return Err(ParserError::new("truncated marker: length field missing"));
    }
    let l = read_be16(s, pos + 2) as usize;
    if l < 19 {
        return Err(ParserError::new("huffman segment length below minimum"));
    }
    if l - 2 > s.len() - (pos + 4) {
        return Err(ParserError::new("truncated huffman segment"));
    }
    match parse_tables(s, pos + 4, pos + 2 + l) {
        Ok(ts) => Ok((ts, 2 + l)),
        Err(e) => Err(e),
    }
}

/// Parses one complete define-Huffman-table segment placed at the start
/// of the buffer: the 0xFF 0xC4 tag pair, the declared length, and the
/// table definitions that exhaust it. Returns the tables in definition
/// order together with the count of bytes the segment spans.
pub fn huffman_tables(s: &[u8]) -> (r: Result<(Vec<HuffmanTable>, usize), ParserError>)
    ensures
        match r {
            Ok((ts, n)) => s@.len() >= 2 && s@[0] == 0xFF && s@[1] == 0xC4 && spec_dht_marker(s@, 0)
                == Some((tables_view(ts@), n as int)),
            Err(_) => s@.len() < 2 || s@[0] != 0xFF || s@[1] != 0xC4 || spec_dht_marker(s@, 0)
                is None,
        },
{
    if s.len() < 2 {
        return Err(ParserError::new("input exhausted while expecting a marker"));
    }
    if s[0] != 0xFF || s[1] != 0xC4 {
        return Err(ParserError::new("expected a define-huffman-table marker"));
    }
    parse_dht(s, 0)
}

/// Parses the one marker segment starting at `pos`.
fn parse_one_marker(s: &[u8], pos: usize) -> (r: Result<(Marker, usize), ParserError>)
    requires
        pos <= s@.len(),
    ensures
        match r {
            Ok((m, n)) => spec_one_marker(s@, pos as int) == Some((m@, n as int)) && 2 <= n && pos
                + n <= s@.len(),
            Err(_) => spec_one_marker(s@, pos as int) is None,
        },
{
    if s.len() - pos < 2 {
        return Err(ParserError::new("input exhausted while expecting a marker"));
    }
    if s[pos] != 0xFF {
        return Err(ParserError::new("expected marker prefix byte"));
    }
    let tag = s[pos + 1];
    if tag == 0xDA {
        match parse_sos(s, pos) {
            Ok((m, n)) => Ok((Marker::Image(m), n)),
            Err(e) => Err(e),
        }
    } else if tag == 0xC4 {
        match parse_dht(s, pos) {
            Ok((ts, n)) => Ok((Marker::DHT(ts), n)),
            Err(e) => Err(e),
        }
    } else if tag == 0xDB {
        match parse_dqt(s, pos) {
            Ok((q, n)) => Ok((Marker::DQT(q), n)),
            Err(e) => Err(e),
        }
    } else {
        match parse_other(s, pos) {
            Ok((m, n)) => Ok((Marker::Other(m), n)),
            Err(e) => Err(e),
        }
    }
}

/// Scans a complete file buffer: after the start-of-image prefix, one
/// record per marker segment in file order, stopping exactly at the
/// end-of-image terminator.
///
/// Returns the full marker list, or an error if the prefix is missing,
/// any segment is malformed or truncated, or the input runs out before
/// the terminator; no partial list is returned.
pub fn decode(jpeg_file: &[u8]) -> (r: Result<Vec<Marker>, ParserError>)
    ensures
        match r {
            Ok(v) => spec_jpeg(jpeg_file@) == Some(markers_view(v@)),
            Err(_) => spec_jpeg(jpeg_file@) is None,
        },
{
    let s = jpeg_file;
    if s.len() < 2 {
        return Err(ParserError::new("input does not begin with a start-of-image marker"));
    }
    if s[0] != 0xFF || s[1] != 0xD8 {
        return Err(ParserError::new("input does not begin with a start-of-image marker"));
    }
    let mut markers: Vec<Marker> = Vec::new();
    let mut pos: usize = 2;
    proof {
        match spec_markers(s@, 2) {
            Some(rest) => {
                assert(markers_view(markers@) + rest =~= rest);
            },
            None => {},
        }
    }
    loop
        invariant
            2 <= pos <= s@.len(),
            s == jpeg_file,
            s@.len() >= 2 && s@[0] == 0xFF && s@[1] == 0xD8,
            match spec_markers(s@, pos as int) {
                Some(rest) => spec_jpeg(s@) == Some(markers_view(markers@) + rest),
                None => spec_jpeg(s@) is None,
            },
        decreases s@.len() - pos,
    {
        if s.len() - pos >= 2 {
            if s[pos] == 0xFF && s[pos + 1] == 0xD9 {
                proof {
                    assert(spec_markers(s@, pos as int) == Some(Seq::<MarkerView>::empty()));
                    assert(markers_view(markers@) + Seq::<MarkerView>::empty() =~= markers_view(
                        markers@,
                    ));
                }
                return Ok(markers);
            }
        }
        match parse_one_marker(s, pos) {
            Ok((m, n)) => {
                let ghost prev = markers@;
                markers.push(m);
                pos = pos + n;
                proof {
                    assert(markers_view(markers@) =~= markers_view(prev) + seq![m@]);
                    match spec_markers(s@, pos as int) {
                        Some(rest) => {
                            assert(markers_view(prev) + (seq![m@] + rest) =~= markers_view(
                                markers@,
                            ) + rest);
                        },
                        None => {},
                    }
                }
            },
            Err(e) => {
                return Err(e);
            },
        }
    }
}

} // verus!
