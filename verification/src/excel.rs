//! Report-table assembly: generic labelled tables (headers and typed cells)
//! built from one or many measurement files, the ragged cross-file pivots,
//! and inference of a shared sample identifier across a batch of filenames.
//!
//! Summary statistics are floating-point work and are computed by the caller;
//! the contracts here say exactly where every computed cell lands.

use vstd::prelude::*;
use vstd::seq_lib::*;
use vstd::string::*;

use crate::data::{InputFile, InputLine, SampleOrder, canonical_order, label_seq};
use crate::strutil::{contains_sub, has_numeric, split_tokens, split_tokens_spec, str_contains,
    str_has_numeric, strs_view};
use crate::table::{aligned_fill, fill_file_rows, lemma_aligned_fill_cells, lemma_aligned_step,
    lemma_fill_step, pad_to, repeat_val};

verus! {

/// One table cell.
#[derive(Clone, Debug, PartialEq)]
pub enum DataVal {
    String(String),
    Integer(i32),
    /// The IEEE-754 bit pattern of a 32-bit floating-point value; the
    /// rendering layer interprets the bits, this crate only moves them.
    Float(u32),
}

/// The mathematical value of a cell.
#[verifier::ext_equal]
pub ghost enum CellView {
    Str(Seq<char>),
    Int(int),
    Float(u32),
}

impl View for DataVal {
    type V = CellView;

    open spec fn view(&self) -> CellView {
        match self {
            DataVal::String(s) => CellView::Str(s@),
            DataVal::Integer(i) => CellView::Int(*i as int),
            DataVal::Float(b) => CellView::Float(*b),
        }
    }
}

impl DataVal {
    /// A string cell.
    pub fn str(s: &str) -> (r: DataVal)
        ensures
            r@ == CellView::Str(s@),
    {
        DataVal::String(String::from_str(s))
    }
}

/// Chooses which numeric field of a record feeds an aggregation.
#[derive(Clone, Copy, Debug, PartialEq, Eq, Structural, PartialOrd, Ord, Hash)]
pub enum OutputVal {
    KernelArea,
    EndospermArea,
    PercentArea,
}

/// A generic report table.  Each header carries the column name, the number
/// of decimal places to display, and whether the column holds percentages.
/// Rows may be ragged (of unequal length); that is intentional.
#[derive(Clone, Debug, PartialEq)]
pub struct DataChunk {
    pub headers: Vec<(String, usize, bool)>,
    pub rows: Vec<Vec<DataVal>>,
}

/// The mathematical value of a header triple.
pub open spec fn header_view(h: (String, usize, bool)) -> (Seq<char>, nat, bool) {
    (h.0@, h.1 as nat, h.2)
}

/// The mathematical value of a header row.
pub open spec fn headers_view(hs: Seq<(String, usize, bool)>) -> Seq<(Seq<char>, nat, bool)> {
    hs.map_values(|h: (String, usize, bool)| header_view(h))
}

/// The mathematical value of one row of cells.
pub open spec fn row_cells(row: Seq<DataVal>) -> Seq<CellView> {
    row.map_values(|c: DataVal| c@)
}

/// The mathematical value of a table body.
pub open spec fn cells_view(rows: Seq<Vec<DataVal>>) -> Seq<Seq<CellView>> {
    rows.map_values(|v: Vec<DataVal>| row_cells(v@))
}

impl DataChunk {
    /// An empty table.
    pub fn new() -> (r: DataChunk)
        ensures
            r.headers@.len() == 0,
            r.rows@.len() == 0,
    {
        DataChunk { headers: Vec::new(), rows: Vec::new() }
    }
}

/// Appends a header triple.
fn push_header(chunk: &mut DataChunk, name: &str, decimals: usize, percent: bool)
    ensures
        headers_view(final(chunk).headers@) == headers_view(old(chunk).headers@).push(
            (name@, decimals as nat, percent),
        ),
        final(chunk).rows == old(chunk).rows,
{
    chunk.headers.push((String::from_str(name), decimals, percent));
    proof {
        assert(headers_view(chunk.headers@) =~= headers_view(old(chunk).headers@).push(
            (name@, decimals as nat, percent),
        ));
    }
}

/// Appends one cell to row `i` of a table body.
fn chunk_push_cell(rows: &mut Vec<Vec<DataVal>>, i: usize, cell: DataVal)
    requires
        i < old(rows)@.len(),
    ensures
        cells_view(final(rows)@) == cells_view(old(rows)@).update(
            i as int,
            row_cells(old(rows)@[i as int]@).push(cell@),
        ),
{
    let ghost c = cell@;
    crate::table::push_cell(rows, i, cell);
    proof {
        let ro = old(rows)@;
        let target = cells_view(ro).update(i as int, row_cells(ro[i as int]@).push(c));
        assert(crate::table::rows_view(rows@).len() == crate::table::rows_view(ro).len());
        assert forall|k: int| 0 <= k < rows@.len() implies cells_view(rows@)[k] == target[k] by {
            assert(crate::table::rows_view(rows@)[k] == rows@[k]@);
            assert(crate::table::rows_view(ro)[k] == ro[k]@);
            if k == i {
                assert(rows@[k]@ == ro[k]@.push(cell));
                assert(row_cells(rows@[k]@) =~= row_cells(ro[k]@).push(c));
            } else {
                assert(rows@[k]@ == ro[k]@);
            }
        }
        assert(cells_view(rows@) =~= target);
    }
}

/// Appends several cells to row `i` of a table body.
fn chunk_append_cells(rows: &mut Vec<Vec<DataVal>>, i: usize, cells: Vec<DataVal>)
    requires
        i < old(rows)@.len(),
    ensures
        cells_view(final(rows)@) == cells_view(old(rows)@).update(
            i as int,
            row_cells(old(rows)@[i as int]@) + row_cells(cells@),
        ),
{
    let ghost cs = row_cells(cells@);
    let ghost cv = cells@;
    crate::table::append_cells(rows, i, cells);
    proof {
        let ro = old(rows)@;
        let target = cells_view(ro).update(i as int, row_cells(ro[i as int]@) + cs);
        assert(crate::table::rows_view(rows@).len() == crate::table::rows_view(ro).len());
        assert forall|k: int| 0 <= k < rows@.len() implies cells_view(rows@)[k] == target[k] by {
            assert(crate::table::rows_view(rows@)[k] == rows@[k]@);
            assert(crate::table::rows_view(ro)[k] == ro[k]@);
            if k == i {
                assert(rows@[k]@ == ro[k]@ + cv);
                assert(row_cells(rows@[k]@) =~= row_cells(ro[k]@) + cs);
            } else {
                assert(rows@[k]@ == ro[k]@);
            }
        }
        assert(cells_view(rows@) =~= target);
    }
}

/// A row of `n` placeholder cells, used to pad rows created out of order.
fn placeholder_cells(n: usize) -> (r: Vec<DataVal>)
    ensures
        row_cells(r@) == repeat_val(CellView::Str("??"@), n as nat),
{
    let mut r: Vec<DataVal> = Vec::new();
    let mut i: usize = 0;
    while i < n
        invariant
            i <= n,
            r@.len() == i,
            row_cells(r@) == repeat_val(CellView::Str("??"@), i as nat),
        decreases n - i,
    {
        let cell = DataVal::str("??");
        proof {
            let rv = r@.push(cell);
            assert forall|k: int| 0 <= k < i + 1 implies row_cells(rv)[k] == repeat_val(
                CellView::Str("??"@),
                (i + 1) as nat,
            )[k] by {
                assert(row_cells(rv)[k] == rv[k]@);
                if k < i {
                    assert(rv[k] == r@[k]);
                    assert(row_cells(r@)[k] == r@[k]@);
                    assert(row_cells(r@)[k] == repeat_val(CellView::Str("??"@), i as nat)[k]);
                }
            }
            assert(row_cells(rv) =~= repeat_val(CellView::Str("??"@), (i + 1) as nat));
        }
        r.push(cell);
        i += 1;
    }
    r
}

/// The headers of a per-file detail table.
pub open spec fn labelled_headers() -> Seq<(Seq<char>, nat, bool)> {
    seq![
        ("Sample"@, 0 as nat, false),
        ("FileID"@, 0 as nat, false),
        ("GridIdx"@, 0 as nat, false),
        ("Area1"@, 0 as nat, false),
        ("Area2"@, 0 as nat, false),
        ("%Area2"@, 1 as nat, false),
    ]
}

/// Row `i` of a per-file detail table: the label of position `i` in the
/// file's own (raw) ordering, or `???` past the label sequence, followed by
/// the file identifier and the record's numeric fields.
pub open spec fn labelled_row(file: InputFile, i: int) -> Seq<CellView> {
    let labels = label_seq(file.sample_ordering);
    let lbl = if 0 <= i < labels.len() {
        labels[i]
    } else {
        "???"@
    };
    let line = file.input_lines@[i];
    seq![
        CellView::Str(lbl),
        CellView::Str(file.file_id@),
        CellView::Int(line.grid_idx as int),
        CellView::Int(line.area1 as int),
        CellView::Int(line.area2 as int),
        CellView::Float(line.perc_area2),
    ]
}

fn labelled_chunk(file: &InputFile) -> (r: DataChunk)
    ensures
        headers_view(r.headers@) == labelled_headers(),
        cells_view(r.rows@).len() == file.input_lines@.len(),
        forall|i: int|
            0 <= i < file.input_lines@.len() ==> cells_view(r.rows@)[i] == labelled_row(*file, i),
{
    let mut chunk = DataChunk::new();
    push_header(&mut chunk, "Sample", 0, false);
    push_header(&mut chunk, "FileID", 0, false);
    push_header(&mut chunk, "GridIdx", 0, false);
    push_header(&mut chunk, "Area1", 0, false);
    push_header(&mut chunk, "Area2", 0, false);
    push_header(&mut chunk, "%Area2", 1, false);
    proof {
        assert(headers_view(chunk.headers@) =~= labelled_headers());
    }

    let sample_labels = file.sample_ordering.get_labels();
    let mut i: usize = 0;
    while i < file.input_lines.len()
        invariant
            i <= file.input_lines@.len(),
            strs_view(sample_labels@) == label_seq(file.sample_ordering),
            headers_view(chunk.headers@) == labelled_headers(),
            chunk.rows@.len() == i,
            forall|k: int| 0 <= k < i ==> cells_view(chunk.rows@)[k] == labelled_row(*file, k),
        decreases file.input_lines@.len() - i,
    {
        let label: &str = if i < sample_labels.len() {
            sample_labels[i]
        } else {
            "???"
        };
        let line = file.input_lines[i];
        let row: Vec<DataVal> = vec![
            DataVal::str(label),
            DataVal::String(file.file_id.clone()),
            DataVal::Integer(line.grid_idx),
            DataVal::Integer(line.area1),
            DataVal::Integer(line.area2),
            DataVal::Float(line.perc_area2),
        ];
        proof {
            assert(row_cells(row@) =~= labelled_row(*file, i as int));
            assert(cells_view(chunk.rows@.push(row)) =~= cells_view(chunk.rows@).push(row_cells(
                row@,
            )));
        }
        chunk.rows.push(row);
        i += 1;
    }
    chunk
}

/// Builds one per-file detail table for each file: one row per record, with
/// the file's own labels, no canonical reordering.
pub fn extract_labelled_chunks(data: &Vec<InputFile>) -> (r: Vec<DataChunk>)
    ensures
        r@.len() == data@.len(),
        forall|j: int|
            0 <= j < data@.len() ==> {
                &&& headers_view(#[trigger] r@[j].headers@) == labelled_headers()
                &&& cells_view(r@[j].rows@).len() == data@[j].input_lines@.len()
                &&& forall|i: int|
                    0 <= i < data@[j].input_lines@.len() ==> cells_view(r@[j].rows@)[i]
                        == labelled_row(data@[j], i)
            },
{
    let mut chunks: Vec<DataChunk> = Vec::new();
    let mut j: usize = 0;
    while j < data.len()
        invariant
            j <= data@.len(),
            chunks@.len() == j,
            forall|m: int|
                0 <= m < j ==> {
                    &&& headers_view(#[trigger] chunks@[m].headers@) == labelled_headers()
                    &&& cells_view(chunks@[m].rows@).len() == data@[m].input_lines@.len()
                    &&& forall|i: int|
                        0 <= i < data@[m].input_lines@.len() ==> cells_view(chunks@[m].rows@)[i]
                            == labelled_row(data@[m], i)
                },
        decreases data@.len() - j,
    {
        let chunk = labelled_chunk(&data[j]);
        chunks.push(chunk);
        j += 1;
    }
    chunks
}

/// The canonical row order of every cross-file pivot: the ascending
/// interleaved label sequence.
pub open spec fn canonical_labels() -> Seq<Seq<char>> {
    label_seq(SampleOrder::AB15)
}

/// The initial body of a pivot table: one single-cell row per canonical label.
pub open spec fn label_rows_init() -> Seq<Seq<CellView>> {
    canonical_labels().map_values(|l: Seq<char>| seq![CellView::Str(l)])
}

/// The metric cell of a record: `1` selects the first area, `2` the second,
/// `0` the percentage; anything else is a marker cell.
pub open spec fn metric_cell(line: InputLine, metric: int) -> CellView {
    if metric == 1 {
        CellView::Int(line.area1 as int)
    } else if metric == 2 {
        CellView::Int(line.area2 as int)
    } else if metric == 0 {
        CellView::Float(line.perc_area2)
    } else {
        CellView::Str("????"@)
    }
}

/// The column label of a metric.
pub open spec fn metric_label(metric: int) -> Seq<char> {
    if metric == 1 {
        "Area1"@
    } else if metric == 2 {
        "Area2"@
    } else if metric == 0 {
        "%Area2"@
    } else {
        "Unknown"@
    }
}

fn i_to_val(input: &InputLine, idx: i32) -> (r: DataVal)
    ensures
        r@ == metric_cell(*input, idx as int),
{
    match idx {
        1 => DataVal::Integer(input.area1),
        2 => DataVal::Integer(input.area2),
        0 => DataVal::Float(input.perc_area2),
        _ => DataVal::str("????"),
    }
}

fn i_to_label(idx: i32) -> (r: String)
    ensures
        r@ == metric_label(idx as int),
{
    match idx {
        1 => String::from_str("Area1"),
        2 => String::from_str("Area2"),
        0 => String::from_str("%Area2"),
        _ => String::from_str("Unknown"),
    }
}

/// One single-cell block per canonical record, holding the selected metric.
pub open spec fn metric_blocks(lines: Seq<InputLine>, metric: int) -> Seq<Seq<CellView>> {
    lines.map_values(|l: InputLine| seq![metric_cell(l, metric)])
}

/// The canonical record sequence of a file.
pub open spec fn canonical_lines(file: InputFile) -> Seq<InputLine> {
    canonical_order(file.sample_ordering, file.input_lines@)
}

/// The body of a single-metric pivot after the first `k` files have been
/// folded in.  File `k - 1` owns column `k` (one column per file after the
/// label): a row it reaches is padded with placeholder cells up to that
/// column before its value is appended, and a row created past the table's
/// current height starts as placeholder cells, one per column already
/// contributed — so column alignment holds across the whole table.
pub open spec fn sorted2_rows_after(files: Seq<InputFile>, metric: int, k: int) -> Seq<
    Seq<CellView>,
>
    decreases k,
{
    if k <= 0 {
        label_rows_init()
    } else {
        aligned_fill(
            sorted2_rows_after(files, metric, k - 1),
            metric_blocks(canonical_lines(files[k - 1]), metric),
            k,
            CellView::Str("??"@),
            repeat_val(CellView::Str("??"@), k as nat),
        )
    }
}

/// The trailer row naming the first `k` files.
pub open spec fn file_id_trailer(files: Seq<InputFile>, k: int) -> Seq<CellView>
    decreases k,
{
    if k <= 0 {
        seq![CellView::Str("FileID"@)]
    } else {
        file_id_trailer(files, k - 1).push(CellView::Str(files[k - 1].file_id@))
    }
}

/// The headers of a single-metric pivot over `n` files.
pub open spec fn sorted2_headers(n: nat, metric: int) -> Seq<(Seq<char>, nat, bool)> {
    seq![("Sample"@, 0 as nat, false)] + repeat_val((metric_label(metric), 1 as nat, false), n)
}

proof fn lemma_label_rows_width()
    ensures
        forall|r: int|
            0 <= r < label_rows_init().len() ==> #[trigger] label_rows_init()[r].len() == 1,
{
    assert forall|r: int|
        0 <= r < label_rows_init().len() implies #[trigger] label_rows_init()[r].len() == 1 by {
        assert(label_rows_init()[r] == seq![CellView::Str(canonical_labels()[r])]);
    }
}

proof fn lemma_sorted2_width(files: Seq<InputFile>, metric: int, k: int)
    requires
        0 <= k <= files.len(),
    ensures
        forall|r: int|
            0 <= r < sorted2_rows_after(files, metric, k).len() ==> #[trigger] sorted2_rows_after(
                files,
                metric,
                k,
            )[r].len() <= 1 + k,
    decreases k,
{
    if k <= 0 {
        lemma_label_rows_width();
    } else {
        lemma_sorted2_width(files, metric, k - 1);
        let prev = sorted2_rows_after(files, metric, k - 1);
        let blocks = metric_blocks(canonical_lines(files[k - 1]), metric);
        let padc = CellView::Str("??"@);
        let prefix = repeat_val(padc, k as nat);
        lemma_aligned_fill_cells(prev, blocks, k, padc, prefix);
        let out = sorted2_rows_after(files, metric, k);
        assert forall|r: int| 0 <= r < out.len() implies #[trigger] out[r].len() <= 1 + k by {
            if r < blocks.len() {
                assert(blocks[r] == seq![
                    metric_cell(canonical_lines(files[k - 1])[r], metric),
                ]);
                assert(out[r].len() == k + 1);
            } else {
                assert(out[r] == prev[r]);
            }
        }
    }
}

/// Column alignment of the single-metric pivots: after any number `k` of
/// files, the value file `j` contributes at canonical position `r` stands
/// in file `j`'s own column, `1 + j` — one column per file after the label,
/// whatever the record counts of the files around it.
pub proof fn lemma_sorted2_value_column(files: Seq<InputFile>, metric: int, k: int, j: int, r: int)
    requires
        0 <= j < k <= files.len(),
        0 <= r < canonical_lines(files[j]).len(),
    ensures
        r < sorted2_rows_after(files, metric, k).len(),
        1 + j < sorted2_rows_after(files, metric, k)[r].len(),
        sorted2_rows_after(files, metric, k)[r][1 + j] == metric_cell(
            canonical_lines(files[j])[r],
            metric,
        ),
    decreases k,
{
    let prev = sorted2_rows_after(files, metric, k - 1);
    let blocks = metric_blocks(canonical_lines(files[k - 1]), metric);
    let padc = CellView::Str("??"@);
    let prefix = repeat_val(padc, k as nat);
    lemma_sorted2_width(files, metric, k - 1);
    lemma_aligned_fill_cells(prev, blocks, k, padc, prefix);
    let out = sorted2_rows_after(files, metric, k);
    if j == k - 1 {
        assert(blocks[r] == seq![metric_cell(canonical_lines(files[j])[r], metric)]);
        assert(out[r].len() == k + 1);
        assert(out[r][k + 0] == blocks[r][0]);
    } else {
        lemma_sorted2_value_column(files, metric, k - 1, j, r);
        if r < blocks.len() {
            assert(blocks[r] == seq![metric_cell(canonical_lines(files[k - 1])[r], metric)]);
            assert(out[r].len() == k + 1);
            assert(out[r][1 + j] == prev[r][1 + j]);
        } else {
            assert(out[r] == prev[r]);
        }
    }
}

/// The full contract of one single-metric pivot table.
pub open spec fn sorted2_chunk_ok(c: DataChunk, files: Seq<InputFile>, metric: int) -> bool {
    &&& headers_view(c.headers@) == sorted2_headers(files.len(), metric)
    &&& cells_view(c.rows@) == sorted2_rows_after(files, metric, files.len() as int).push(
        file_id_trailer(files, files.len() as int),
    )
}

/// Pushes the ten canonical label rows into an empty table body.
fn push_label_rows(chunk: &mut DataChunk)
    requires
        old(chunk).rows@.len() == 0,
    ensures
        final(chunk).headers == old(chunk).headers,
        cells_view(final(chunk).rows@) == label_rows_init(),
{
    let labels = (SampleOrder::AB15).get_labels();
    let mut li: usize = 0;
    while li < labels.len()
        invariant
            li <= labels@.len(),
            strs_view(labels@) == canonical_labels(),
            chunk.headers == old(chunk).headers,
            chunk.rows@.len() == li,
            forall|k: int|
                0 <= k < li ==> cells_view(chunk.rows@)[k] == seq![
                    CellView::Str(canonical_labels()[k]),
                ],
        decreases labels@.len() - li,
    {
        let row: Vec<DataVal> = vec![DataVal::str(labels[li])];
        proof {
            assert(row_cells(row@) =~= seq![CellView::Str(canonical_labels()[li as int])]);
            assert(cells_view(chunk.rows@.push(row)) =~= cells_view(chunk.rows@).push(row_cells(
                row@,
            )));
        }
        chunk.rows.push(row);
        li += 1;
    }
    proof {
        assert(cells_view(chunk.rows@) =~= label_rows_init());
    }
}

/// Folds one file's single-cell metric blocks into a pivot body: a reached
/// row is padded with placeholder cells up to `target` (the full width
/// already contributed) before the value is appended, and a newly created
/// row starts as `target` placeholder cells.
fn fill_metric_column(
    rows: &mut Vec<Vec<DataVal>>,
    canon: &Vec<InputLine>,
    idx: i32,
    target: usize,
)
    ensures
        cells_view(final(rows)@) == aligned_fill(
            cells_view(old(rows)@),
            metric_blocks(canon@, idx as int),
            target as int,
            CellView::Str("??"@),
            repeat_val(CellView::Str("??"@), target as nat),
        ),
{
    let ghost prev = cells_view(old(rows)@);
    let ghost blocks = metric_blocks(canon@, idx as int);
    let ghost padc = CellView::Str("??"@);
    let ghost prefix = repeat_val(CellView::Str("??"@), target as nat);
    let mut li: usize = 0;
    proof {
        assert(blocks.take(0) =~= Seq::<Seq<CellView>>::empty());
        assert(aligned_fill(prev, blocks.take(0), target as int, padc, prefix) =~= prev);
    }
    while li < canon.len()
        invariant
            li <= canon@.len(),
            blocks == metric_blocks(canon@, idx as int),
            padc == CellView::Str("??"@),
            prefix == repeat_val(CellView::Str("??"@), target as nat),
            blocks.len() == canon@.len(),
            cells_view(rows@) == aligned_fill(prev, blocks.take(li as int), target as int, padc, prefix),
            rows@.len() == if prev.len() >= li as nat { prev.len() } else { li as nat },
        decreases canon@.len() - li,
    {
        let val = i_to_val(&canon[li], idx);
        proof {
            lemma_aligned_step(prev, blocks, target as int, padc, prefix, li as int);
            assert(blocks[li as int] == seq![metric_cell(canon@[li as int], idx as int)]);
        }
        if li < rows.len() {
            let cur_len = rows[li].len();
            proof {
                assert(li < prev.len());
                assert(cells_view(rows@)[li as int] == prev[li as int]);
                assert(cells_view(rows@)[li as int] == row_cells(rows@[li as int]@));
                assert(prev[li as int].len() == cur_len);
            }
            let mut cells: Vec<DataVal> = if cur_len < target {
                placeholder_cells(target - cur_len)
            } else {
                Vec::new()
            };
            let ghost base = row_cells(cells@);
            cells.push(val);
            proof {
                assert(row_cells(cells@) =~= base.push(val@));
                assert(prev[li as int] + row_cells(cells@) =~= pad_to(
                    prev[li as int],
                    target as int,
                    padc,
                ) + blocks[li as int]);
            }
            chunk_append_cells(rows, li, cells);
            proof {
                assert(cells_view(rows@) =~= aligned_fill(
                    prev,
                    blocks.take(li + 1),
                    target as int,
                    padc,
                    prefix,
                ));
            }
        } else {
            proof {
                assert(li >= prev.len());
                assert(rows@.len() == li);
            }
            let pad_row = placeholder_cells(target);
            proof {
                assert(cells_view(rows@.push(pad_row)) =~= cells_view(rows@).push(row_cells(
                    pad_row@,
                )));
            }
            rows.push(pad_row);
            chunk_push_cell(rows, li, val);
            proof {
                assert(prefix.push(val@) =~= prefix + blocks[li as int]);
                assert(cells_view(rows@) =~= aligned_fill(
                    prev,
                    blocks.take(li + 1),
                    target as int,
                    padc,
                    prefix,
                ));
            }
        }
        li += 1;
    }
    proof {
        assert(blocks.take(canon@.len() as int) =~= blocks);
    }
}

fn sorted2_chunk(data: &Vec<InputFile>, idx: i32) -> (r: DataChunk)
    ensures
        sorted2_chunk_ok(r, data@, idx as int),
{
    let mut chunk = DataChunk::new();
    push_header(&mut chunk, "Sample", 0, false);
    let mut h: usize = 0;
    proof {
        assert(headers_view(chunk.headers@) =~= seq![("Sample"@, 0 as nat, false)] + repeat_val(
            (metric_label(idx as int), 1 as nat, false),
            0,
        ));
    }
    while h < data.len()
        invariant
            h <= data@.len(),
            chunk.rows@.len() == 0,
            headers_view(chunk.headers@) == seq![("Sample"@, 0 as nat, false)] + repeat_val(
                (metric_label(idx as int), 1 as nat, false),
                h as nat,
            ),
        decreases data@.len() - h,
    {
        let name = i_to_label(idx);
        push_header(&mut chunk, name.as_str(), 1, false);
        proof {
            assert(headers_view(chunk.headers@) =~= seq![("Sample"@, 0 as nat, false)]
                + repeat_val((metric_label(idx as int), 1 as nat, false), (h + 1) as nat));
        }
        h += 1;
    }

    push_label_rows(&mut chunk);

    let mut j: usize = 0;
    while j < data.len()
        invariant
            j <= data@.len(),
            headers_view(chunk.headers@) == sorted2_headers(data@.len(), idx as int),
            cells_view(chunk.rows@) == sorted2_rows_after(data@, idx as int, j as int),
        decreases data@.len() - j,
    {
        let file = &data[j];
        let canon = InputFile::get_ab15_order(file.sample_ordering, &file.input_lines);
        fill_metric_column(&mut chunk.rows, &canon, idx, j + 1);
        proof {
            assert(canon@ == canonical_lines(data@[j as int]));
        }
        j += 1;
    }

    let mut last_line: Vec<DataVal> = vec![DataVal::str("FileID")];
    proof {
        assert(row_cells(last_line@) =~= file_id_trailer(data@, 0));
    }
    let mut t: usize = 0;
    while t < data.len()
        invariant
            t <= data@.len(),
            headers_view(chunk.headers@) == sorted2_headers(data@.len(), idx as int),
            cells_view(chunk.rows@) == sorted2_rows_after(data@, idx as int, data@.len() as int),
            row_cells(last_line@) == file_id_trailer(data@, t as int),
        decreases data@.len() - t,
    {
        let cell = DataVal::String(data[t].file_id.clone());
        proof {
            assert(row_cells(last_line@.push(cell)) =~= row_cells(last_line@).push(cell@));
        }
        last_line.push(cell);
        t += 1;
    }
    proof {
        assert(cells_view(chunk.rows@.push(last_line)) =~= cells_view(chunk.rows@).push(row_cells(
            last_line@,
        )));
    }
    chunk.rows.push(last_line);
    chunk
}

/// Builds three cross-file pivot tables, one per metric: the percentage
/// table first, then the two area tables, each with rows in canonical label
/// order, one column per file in file order, placeholder padding keeping
/// every value in its own file's column, and a trailer row naming the
/// files; see [`lemma_sorted2_value_column`] for the alignment law.
pub fn extract_sorted_chunks_2(data: &Vec<InputFile>) -> (r: Vec<DataChunk>)
    ensures
        r@.len() == 3,
        forall|m: int| 0 <= m < 3 ==> sorted2_chunk_ok(#[trigger] r@[m], data@, m),
{
    let mut chunks: Vec<DataChunk> = Vec::new();
    chunks.push(sorted2_chunk(data, 0));
    chunks.push(sorted2_chunk(data, 1));
    chunks.push(sorted2_chunk(data, 2));
    chunks
}

/// One single-cell block per value, holding a floating-point cell.
pub open spec fn float_blocks(vals: Seq<u32>) -> Seq<Seq<CellView>> {
    vals.map_values(|v: u32| seq![CellView::Float(v)])
}

/// The body of the sum table after the first `k` value columns have been
/// folded in; column `k` belongs to column source `k - 1`, with placeholder
/// padding keeping the alignment, as in [`sorted2_rows_after`].
pub open spec fn sum_rows_after(values: Seq<Seq<u32>>, k: int) -> Seq<Seq<CellView>>
    decreases k,
{
    if k <= 0 {
        label_rows_init()
    } else {
        aligned_fill(
            sum_rows_after(values, k - 1),
            float_blocks(values[k - 1]),
            k,
            CellView::Str("??"@),
            repeat_val(CellView::Str("??"@), k as nat),
        )
    }
}

proof fn lemma_sum_width(values: Seq<Seq<u32>>, k: int)
    requires
        0 <= k <= values.len(),
    ensures
        forall|r: int|
            0 <= r < sum_rows_after(values, k).len() ==> #[trigger] sum_rows_after(
                values,
                k,
            )[r].len() <= 1 + k,
    decreases k,
{
    if k <= 0 {
        lemma_label_rows_width();
    } else {
        lemma_sum_width(values, k - 1);
        let prev = sum_rows_after(values, k - 1);
        let blocks = float_blocks(values[k - 1]);
        let padc = CellView::Str("??"@);
        let prefix = repeat_val(padc, k as nat);
        lemma_aligned_fill_cells(prev, blocks, k, padc, prefix);
        let out = sum_rows_after(values, k);
        assert forall|r: int| 0 <= r < out.len() implies #[trigger] out[r].len() <= 1 + k by {
            if r < blocks.len() {
                assert(blocks[r] == seq![CellView::Float(values[k - 1][r])]);
                assert(out[r].len() == k + 1);
            } else {
                assert(out[r] == prev[r]);
            }
        }
    }
}

/// Column alignment of the sum table: after any number `k` of value
/// columns, the value column `j` contributes at canonical position `r`
/// stands in column `1 + j` — one column per file after the label, whatever
/// the lengths of the columns around it.
pub proof fn lemma_sum_value_column(values: Seq<Seq<u32>>, k: int, j: int, r: int)
    requires
        0 <= j < k <= values.len(),
        0 <= r < values[j].len(),
    ensures
        r < sum_rows_after(values, k).len(),
        1 + j < sum_rows_after(values, k)[r].len(),
        sum_rows_after(values, k)[r][1 + j] == CellView::Float(values[j][r]),
    decreases k,
{
    let prev = sum_rows_after(values, k - 1);
    let blocks = float_blocks(values[k - 1]);
    let padc = CellView::Str("??"@);
    let prefix = repeat_val(padc, k as nat);
    lemma_sum_width(values, k - 1);
    lemma_aligned_fill_cells(prev, blocks, k, padc, prefix);
    let out = sum_rows_after(values, k);
    if j == k - 1 {
        assert(blocks[r] == seq![CellView::Float(values[j][r])]);
        assert(out[r].len() == k + 1);
        assert(out[r][k + 0] == blocks[r][0]);
    } else {
        lemma_sum_value_column(values, k - 1, j, r);
        if r < blocks.len() {
            assert(blocks[r] == seq![CellView::Float(values[k - 1][r])]);
            assert(out[r].len() == k + 1);
            assert(out[r][1 + j] == prev[r][1 + j]);
        } else {
            assert(out[r] == prev[r]);
        }
    }
}

/// The headers of the sum table over `n` files: one percentage column per
/// file, then a spacer and the three summary columns.
pub open spec fn sum_headers(n: nat) -> Seq<(Seq<char>, nat, bool)> {
    seq![("Sample"@, 0 as nat, false)] + repeat_val(("%Area2"@, 1 as nat, false), n) + seq![
        (""@, 0 as nat, false),
        ("Avg"@, 1 as nat, false),
        ("Std"@, 2 as nat, false),
        ("CV"@, 2 as nat, true),
    ]
}

/// Folds one file's float column into a pivot body: a reached row is padded
/// with placeholder cells up to `target` before the value is appended, and
/// a newly created row starts as `target` placeholder cells.
fn fill_float_column(rows: &mut Vec<Vec<DataVal>>, vals: &Vec<u32>, target: usize)
    ensures
        cells_view(final(rows)@) == aligned_fill(
            cells_view(old(rows)@),
            float_blocks(vals@),
            target as int,
            CellView::Str("??"@),
            repeat_val(CellView::Str("??"@), target as nat),
        ),
{
    let ghost prev = cells_view(old(rows)@);
    let ghost blocks = float_blocks(vals@);
    let ghost padc = CellView::Str("??"@);
    let ghost prefix = repeat_val(CellView::Str("??"@), target as nat);
    let mut li: usize = 0;
    proof {
        assert(blocks.take(0) =~= Seq::<Seq<CellView>>::empty());
        assert(aligned_fill(prev, blocks.take(0), target as int, padc, prefix) =~= prev);
    }
    while li < vals.len()
        invariant
            li <= vals@.len(),
            blocks == float_blocks(vals@),
            padc == CellView::Str("??"@),
            prefix == repeat_val(CellView::Str("??"@), target as nat),
            blocks.len() == vals@.len(),
            cells_view(rows@) == aligned_fill(prev, blocks.take(li as int), target as int, padc, prefix),
            rows@.len() == if prev.len() >= li as nat { prev.len() } else { li as nat },
        decreases vals@.len() - li,
    {
        let val = DataVal::Float(vals[li]);
        proof {
            lemma_aligned_step(prev, blocks, target as int, padc, prefix, li as int);
            assert(blocks[li as int] == seq![CellView::Float(vals@[li as int])]);
        }
        if li < rows.len() {
            let cur_len = rows[li].len();
            proof {
                assert(li < prev.len());
                assert(cells_view(rows@)[li as int] == prev[li as int]);
                assert(cells_view(rows@)[li as int] == row_cells(rows@[li as int]@));
                assert(prev[li as int].len() == cur_len);
            }
            let mut cells: Vec<DataVal> = if cur_len < target {
                placeholder_cells(target - cur_len)
            } else {
                Vec::new()
            };
            let ghost base = row_cells(cells@);
            cells.push(val);
            proof {
                assert(row_cells(cells@) =~= base.push(val@));
                assert(prev[li as int] + row_cells(cells@) =~= pad_to(
                    prev[li as int],
                    target as int,
                    padc,
                ) + blocks[li as int]);
            }
            chunk_append_cells(rows, li, cells);
            proof {
                assert(cells_view(rows@) =~= aligned_fill(
                    prev,
                    blocks.take(li + 1),
                    target as int,
                    padc,
                    prefix,
                ));
            }
        } else {
            proof {
                assert(li >= prev.len());
                assert(rows@.len() == li);
            }
            let pad_row = placeholder_cells(target);
            proof {
                assert(cells_view(rows@.push(pad_row)) =~= cells_view(rows@).push(row_cells(
                    pad_row@,
                )));
            }
            rows.push(pad_row);
            chunk_push_cell(rows, li, val);
            proof {
                assert(prefix.push(val@) =~= prefix + blocks[li as int]);
                assert(cells_view(rows@) =~= aligned_fill(
                    prev,
                    blocks.take(li + 1),
                    target as int,
                    padc,
                    prefix,
                ));
            }
        }
        li += 1;
    }
    proof {
        assert(blocks.take(vals@.len() as int) =~= blocks);
    }
}

/// Builds the value part of a sum table from per-file canonical value
/// columns (already selected and converted to bit patterns by the caller):
/// canonical label rows, one float column per file with placeholder padding
/// keeping every value in its own column ([`lemma_sum_value_column`]), and
/// the summary headers.  The summary cells themselves are appended through
/// [`append_row_stats`] once the caller has computed them; the string
/// placeholders never feed those statistics.
pub fn extract_sum_chunk_values(values: &Vec<Vec<u32>>) -> (r: DataChunk)
    ensures
        headers_view(r.headers@) == sum_headers(values@.len()),
        cells_view(r.rows@) == sum_rows_after(
            crate::table::rows_view(values@),
            values@.len() as int,
        ),
{
    let ghost vv = crate::table::rows_view(values@);
    let mut chunk = DataChunk::new();
    push_header(&mut chunk, "Sample", 0, false);
    let mut h: usize = 0;
    proof {
        assert(headers_view(chunk.headers@) =~= seq![("Sample"@, 0 as nat, false)] + repeat_val(
            ("%Area2"@, 1 as nat, false),
            0,
        ));
    }
    while h < values.len()
        invariant
            h <= values@.len(),
            chunk.rows@.len() == 0,
            headers_view(chunk.headers@) == seq![("Sample"@, 0 as nat, false)] + repeat_val(
                ("%Area2"@, 1 as nat, false),
                h as nat,
            ),
        decreases values@.len() - h,
    {
        push_header(&mut chunk, "%Area2", 1, false);
        proof {
            assert(headers_view(chunk.headers@) =~= seq![("Sample"@, 0 as nat, false)]
                + repeat_val(("%Area2"@, 1 as nat, false), (h + 1) as nat));
        }
        h += 1;
    }
    push_header(&mut chunk, "", 0, false);
    push_header(&mut chunk, "Avg", 1, false);
    push_header(&mut chunk, "Std", 2, false);
    push_header(&mut chunk, "CV", 2, true);
    proof {
        assert(headers_view(chunk.headers@) =~= sum_headers(values@.len()));
    }

    push_label_rows(&mut chunk);

    let mut j: usize = 0;
    while j < values.len()
        invariant
            j <= values@.len(),
            vv == crate::table::rows_view(values@),
            headers_view(chunk.headers@) == sum_headers(values@.len()),
            cells_view(chunk.rows@) == sum_rows_after(vv, j as int),
        decreases values@.len() - j,
    {
        fill_float_column(&mut chunk.rows, &values[j], j + 1);
        proof {
            assert(values@[j as int]@ == vv[j as int]);
        }
        j += 1;
    }
    chunk
}

/// The bit patterns of the floating-point cells of a row, first cell
/// excluded.
pub open spec fn float_cells_spec(cells: Seq<CellView>) -> Seq<u32>
    decreases cells.len(),
{
    if cells.len() == 0 {
        Seq::empty()
    } else {
        let rest = float_cells_spec(cells.drop_last());
        match cells.last() {
            CellView::Float(b) => rest.push(b),
            _ => rest,
        }
    }
}

/// The float bits of a row past its first (label) cell.
pub open spec fn row_float_bits(cells: Seq<CellView>) -> Seq<u32> {
    if cells.len() == 0 {
        Seq::empty()
    } else {
        float_cells_spec(cells.skip(1))
    }
}

proof fn lemma_float_cells_step(cells: Seq<CellView>, i: int)
    requires
        0 <= i < cells.len(),
    ensures
        float_cells_spec(cells.take(i + 1)) == (match cells[i] {
            CellView::Float(b) => float_cells_spec(cells.take(i)).push(b),
            _ => float_cells_spec(cells.take(i)),
        }),
{
    assert(cells.take(i + 1).drop_last() =~= cells.take(i));
    assert(cells.take(i + 1).last() == cells[i]);
}

/// Collects the floating-point cells of a row past the first cell, as bit
/// patterns, in order.  This is the numeric vector a summary statistic is
/// computed over.
pub fn float_cells_after_first(row: &Vec<DataVal>) -> (r: Vec<u32>)
    ensures
        r@ == row_float_bits(row_cells(row@)),
{
    let ghost cv = row_cells(row@);
    let mut r: Vec<u32> = Vec::new();
    if row.len() == 0 {
        return r;
    }
    let ghost tail = cv.skip(1);
    let mut i: usize = 1;
    proof {
        assert(tail.take(0) =~= Seq::<CellView>::empty());
        assert(r@ =~= float_cells_spec(tail.take(0)));
    }
    while i < row.len()
        invariant
            1 <= i <= row@.len(),
            cv == row_cells(row@),
            tail == cv.skip(1),
            tail.len() == cv.len() - 1,
            cv.len() == row@.len(),
            r@ == float_cells_spec(tail.take(i - 1)),
        decreases row@.len() - i,
    {
        proof {
            lemma_float_cells_step(tail, i - 1);
            assert(tail[i - 1] == cv[i as int]);
            assert(cv[i as int] == row@[i as int]@);
        }
        match &row[i] {
            DataVal::Float(b) => {
                r.push(*b);
            },
            _ => {},
        }
        i += 1;
    }
    proof {
        assert(tail.take(row@.len() - 1) =~= tail);
    }
    r
}

/// The spacer and three summary cells appended to a row of the sum table.
pub open spec fn sum_stat_cells(s: (u32, u32, u32)) -> Seq<CellView> {
    seq![
        CellView::Str(""@),
        CellView::Float(s.0),
        CellView::Float(s.1),
        CellView::Float(s.2),
    ]
}

/// Appends a spacer and the computed average, standard deviation and
/// coefficient of variation (as bit patterns) to each row of a table.
pub fn append_row_stats(chunk: &mut DataChunk, stats: &Vec<(u32, u32, u32)>)
    requires
        stats@.len() == old(chunk).rows@.len(),
    ensures
        final(chunk).headers == old(chunk).headers,
        cells_view(final(chunk).rows@).len() == cells_view(old(chunk).rows@).len(),
        forall|r: int|
            0 <= r < old(chunk).rows@.len() ==> cells_view(final(chunk).rows@)[r] == cells_view(
                old(chunk).rows@,
            )[r] + sum_stat_cells(stats@[r]),
{
    let mut i: usize = 0;
    while i < stats.len()
        invariant
            i <= stats@.len(),
            stats@.len() == chunk.rows@.len(),
            chunk.headers == old(chunk).headers,
            chunk.rows@.len() == old(chunk).rows@.len(),
            forall|r: int|
                0 <= r < i ==> cells_view(chunk.rows@)[r] == cells_view(old(chunk).rows@)[r]
                    + sum_stat_cells(stats@[r]),
            forall|r: int|
                i <= r < chunk.rows@.len() ==> cells_view(chunk.rows@)[r] == cells_view(
                    old(chunk).rows@,
                )[r],
        decreases stats@.len() - i,
    {
        let s = stats[i];
        let cells: Vec<DataVal> = vec![
            DataVal::str(""),
            DataVal::Float(s.0),
            DataVal::Float(s.1),
            DataVal::Float(s.2),
        ];
        proof {
            assert(row_cells(cells@) =~= sum_stat_cells(stats@[i as int]));
            assert(cells_view(chunk.rows@)[i as int] == row_cells(chunk.rows@[i as int]@));
        }
        chunk_append_cells(&mut chunk.rows, i, cells);
        proof {
            assert(cells_view(chunk.rows@).len() == chunk.rows@.len());
            assert(cells_view(old(chunk).rows@).len() == old(chunk).rows@.len());
        }
        i += 1;
    }
}

/// The bit pattern of the placeholder value (negative one) padded into
/// ragged per-sample value rows; it deliberately flows into the statistics
/// of rows that some file does not reach.
pub const SPLIT_PAD_BITS: u32 = 0xBF80_0000;

/// One single-value block per value.
pub open spec fn u32_blocks(vals: Seq<u32>) -> Seq<Seq<u32>> {
    vals.map_values(|v: u32| seq![v])
}

/// The per-sample value rows after the first `k` value columns have been
/// folded in: row `r` holds, for each file reaching position `r`, that
/// file's value, and rows created late are padded with the placeholder bit
/// pattern, one cell per file already processed.
pub open spec fn stats_value_rows_after(values: Seq<Seq<u32>>, k: int) -> Seq<Seq<u32>>
    decreases k,
{
    if k <= 0 {
        Seq::empty()
    } else {
        fill_file_rows(
            stats_value_rows_after(values, k - 1),
            u32_blocks(values[k - 1]),
            repeat_val(SPLIT_PAD_BITS, (k - 1) as nat),
        )
    }
}

/// Folds one value column into the per-sample value rows.
fn fill_u32_column(rows: &mut Vec<Vec<u32>>, vals: &Vec<u32>, pad_len: usize)
    ensures
        crate::table::rows_view(final(rows)@) == fill_file_rows(
            crate::table::rows_view(old(rows)@),
            u32_blocks(vals@),
            repeat_val(SPLIT_PAD_BITS, pad_len as nat),
        ),
{
    let ghost prev = crate::table::rows_view(old(rows)@);
    let ghost blocks = u32_blocks(vals@);
    let ghost pad = repeat_val(SPLIT_PAD_BITS, pad_len as nat);
    let mut li: usize = 0;
    proof {
        assert(blocks.take(0) =~= Seq::<Seq<u32>>::empty());
        assert(fill_file_rows(prev, blocks.take(0), pad) =~= prev);
    }
    while li < vals.len()
        invariant
            li <= vals@.len(),
            blocks == u32_blocks(vals@),
            pad == repeat_val(SPLIT_PAD_BITS, pad_len as nat),
            blocks.len() == vals@.len(),
            crate::table::rows_view(rows@) == fill_file_rows(prev, blocks.take(li as int), pad),
            rows@.len() == if prev.len() >= li as nat {
                prev.len()
            } else {
                li as nat
            },
        decreases vals@.len() - li,
    {
        let val = vals[li];
        proof {
            lemma_fill_step(prev, blocks, pad, li as int);
            assert(blocks[li as int] == seq![vals@[li as int]]);
        }
        if li < rows.len() {
            proof {
                assert(li < prev.len());
                assert(crate::table::rows_view(rows@)[li as int] == rows@[li as int]@);
                assert(crate::table::rows_view(rows@)[li as int] == prev[li as int]);
                assert(prev[li as int].push(val) =~= prev[li as int] + blocks[li as int]);
            }
            crate::table::push_cell(rows, li, val);
            proof {
                assert(crate::table::rows_view(rows@) =~= fill_file_rows(
                    prev,
                    blocks.take(li + 1),
                    pad,
                ));
            }
        } else {
            proof {
                assert(li >= prev.len());
                assert(rows@.len() == li);
            }
            let pad_row = crate::table::vec_repeat(SPLIT_PAD_BITS, pad_len);
            proof {
                assert(crate::table::rows_view(rows@.push(pad_row)) =~= crate::table::rows_view(
                    rows@,
                ).push(pad_row@));
            }
            rows.push(pad_row);
            proof {
                assert(crate::table::rows_view(rows@)[li as int] == rows@[li as int]@);
            }
            crate::table::push_cell(rows, li, val);
            proof {
                assert(pad.push(val) =~= pad + blocks[li as int]);
                assert(crate::table::rows_view(rows@) =~= fill_file_rows(
                    prev,
                    blocks.take(li + 1),
                    pad,
                ));
            }
        }
        li += 1;
    }
    proof {
        assert(blocks.take(vals@.len() as int) =~= blocks);
    }
}

/// Builds the ragged per-sample value rows from per-file canonical value
/// columns: row `r` collects, across files, the value at canonical position
/// `r`, with placeholder padding for files that do not reach a row created
/// later.
pub fn stats_value_rows(values: &Vec<Vec<u32>>) -> (r: Vec<Vec<u32>>)
    ensures
        crate::table::rows_view(r@) == stats_value_rows_after(
            crate::table::rows_view(values@),
            values@.len() as int,
        ),
{
    let ghost vv = crate::table::rows_view(values@);
    let mut rows: Vec<Vec<u32>> = Vec::new();
    proof {
        assert(crate::table::rows_view(rows@) =~= stats_value_rows_after(vv, 0));
    }
    let mut j: usize = 0;
    while j < values.len()
        invariant
            j <= values@.len(),
            vv == crate::table::rows_view(values@),
            crate::table::rows_view(rows@) == stats_value_rows_after(vv, j as int),
        decreases values@.len() - j,
    {
        fill_u32_column(&mut rows, &values[j], j);
        proof {
            assert(values@[j as int]@ == vv[j as int]);
        }
        j += 1;
    }
    rows
}

/// The views of a sequence of strings.
pub open spec fn strings_view(v: Seq<String>) -> Seq<Seq<char>> {
    v.map_values(|s: String| s@)
}

/// The label prefix of the per-sample statistics table: the inferred shared
/// sample identifier followed by a dash, or nothing when inference yields
/// nothing or an empty identifier.
pub open spec fn stats_label_prefix(names: Seq<Seq<char>>) -> Seq<char> {
    match guess_spec(names) {
        Some(s) => if s.len() > 0 {
            s + "-"@
        } else {
            s
        },
        None => Seq::empty(),
    }
}

/// The headers of the per-sample statistics table.
pub open spec fn stats_headers() -> Seq<(Seq<char>, nat, bool)> {
    seq![
        ("Sample"@, 1 as nat, false),
        ("Avg"@, 1 as nat, false),
        ("Std"@, 1 as nat, false),
        ("CV"@, 1 as nat, true),
        (""@, 1 as nat, false),
        ("Split Diff"@, 1 as nat, false),
        ("Split Std"@, 1 as nat, false),
        ("Split Avg"@, 1 as nat, false),
        ("Split CV"@, 1 as nat, true),
    ]
}

/// The initial body of the statistics table: one row per canonical label,
/// each label carrying the inferred sample-identifier prefix.
pub open spec fn stats_label_rows(names: Seq<Seq<char>>) -> Seq<Seq<CellView>> {
    canonical_labels().map_values(
        |l: Seq<char>| seq![CellView::Str(stats_label_prefix(names) + l)],
    )
}

fn strs_of(ids: &Vec<String>) -> (r: Vec<&str>)
    ensures
        strs_view(r@) == strings_view(ids@),
{
    let mut r: Vec<&str> = Vec::new();
    let mut i: usize = 0;
    while i < ids.len()
        invariant
            i <= ids@.len(),
            r@.len() == i,
            forall|k: int| 0 <= k < i ==> r@[k]@ == ids@[k]@,
        decreases ids@.len() - i,
    {
        r.push(ids[i].as_str());
        i += 1;
    }
    proof {
        assert(strs_view(r@) =~= strings_view(ids@));
    }
    r
}

/// Builds the fixed part of the per-sample statistics table: its headers and
/// the canonical label rows, each label prefixed with the sample identifier
/// inferred from the batch of file identifiers.  The computed statistics are
/// appended through [`append_stats_cells`].
pub fn extract_stats_chunk_base(file_ids: &Vec<String>) -> (r: DataChunk)
    ensures
        headers_view(r.headers@) == stats_headers(),
        cells_view(r.rows@) == stats_label_rows(strings_view(file_ids@)),
{
    let ghost names = strings_view(file_ids@);
    let mut chunk = DataChunk::new();
    push_header(&mut chunk, "Sample", 1, false);
    push_header(&mut chunk, "Avg", 1, false);
    push_header(&mut chunk, "Std", 1, false);
    push_header(&mut chunk, "CV", 1, true);
    push_header(&mut chunk, "", 1, false);
    push_header(&mut chunk, "Split Diff", 1, false);
    push_header(&mut chunk, "Split Std", 1, false);
    push_header(&mut chunk, "Split Avg", 1, false);
    push_header(&mut chunk, "Split CV", 1, true);
    proof {
        assert(headers_view(chunk.headers@) =~= stats_headers());
    }

    let filenames = strs_of(file_ids);
    let guessed = guess_sample_id(&filenames);
    let mut common: String = match guessed {
        Some(s) => s,
        None => String::new(),
    };
    if !common.as_str().is_empty() {
        common.append("-");
    }
    proof {
        assert(common@ == stats_label_prefix(names));
    }

    let labels = (SampleOrder::AB15).get_labels();
    let mut li: usize = 0;
    while li < labels.len()
        invariant
            li <= labels@.len(),
            strs_view(labels@) == canonical_labels(),
            common@ == stats_label_prefix(names),
            headers_view(chunk.headers@) == stats_headers(),
            chunk.rows@.len() == li,
            forall|k: int|
                0 <= k < li ==> cells_view(chunk.rows@)[k] == seq![
                    CellView::Str(stats_label_prefix(names) + canonical_labels()[k]),
                ],
        decreases labels@.len() - li,
    {
        let mut cell_str = common.clone();
        cell_str.append(labels[li]);
        let row: Vec<DataVal> = vec![DataVal::String(cell_str)];
        proof {
            assert(row_cells(row@) =~= seq![
                CellView::Str(stats_label_prefix(names) + canonical_labels()[li as int]),
            ]);
            assert(cells_view(chunk.rows@.push(row)) =~= cells_view(chunk.rows@).push(row_cells(
                row@,
            )));
        }
        chunk.rows.push(row);
        li += 1;
    }
    proof {
        assert(cells_view(chunk.rows@) =~= stats_label_rows(names));
    }
    chunk
}

/// The cells appended to row `i` of the statistics table: the three per-row
/// statistics and a spacer; even rows additionally carry the four split
/// statistics of the pair `(i, i + 1)` when the `b` half exists, and four
/// blank cells when it does not.
pub open spec fn stats_row_cells(
    i: int,
    n: int,
    row_stats: Seq<(u32, u32, u32)>,
    pair_stats: Seq<(u32, u32, u32, u32)>,
) -> Seq<CellView> {
    let base = seq![
        CellView::Float(row_stats[i].0),
        CellView::Float(row_stats[i].1),
        CellView::Float(row_stats[i].2),
        CellView::Str(""@),
    ];
    if i % 2 == 0 {
        if i + 1 < n {
            let p = pair_stats[i / 2];
            base + seq![
                CellView::Float(p.0),
                CellView::Float(p.1),
                CellView::Float(p.2),
                CellView::Float(p.3),
            ]
        } else {
            base + seq![
                CellView::Str(""@),
                CellView::Str(""@),
                CellView::Str(""@),
                CellView::Str(""@),
            ]
        }
    } else {
        base
    }
}

/// The statistics table body once the first `i` of `n` per-sample rows have
/// received their cells; rows the table does not have yet are created padded
/// with one placeholder cell more than their index.
pub open spec fn stats_fill_partial(
    rows: Seq<Seq<CellView>>,
    i: int,
    n: int,
    row_stats: Seq<(u32, u32, u32)>,
    pair_stats: Seq<(u32, u32, u32, u32)>,
) -> Seq<Seq<CellView>> {
    Seq::new(
        if rows.len() >= i {
            rows.len()
        } else {
            i as nat
        },
        |r: int|
            if r < i {
                (if r < rows.len() {
                    rows[r]
                } else {
                    repeat_val(CellView::Str("??"@), (r + 1) as nat)
                }) + stats_row_cells(r, n, row_stats, pair_stats)
            } else {
                rows[r]
            },
    )
}

proof fn lemma_stats_fill_step(
    rows: Seq<Seq<CellView>>,
    i: int,
    n: int,
    row_stats: Seq<(u32, u32, u32)>,
    pair_stats: Seq<(u32, u32, u32, u32)>,
)
    requires
        0 <= i,
    ensures
        i < rows.len() ==> stats_fill_partial(rows, i + 1, n, row_stats, pair_stats)
            == stats_fill_partial(rows, i, n, row_stats, pair_stats).update(
            i,
            rows[i] + stats_row_cells(i, n, row_stats, pair_stats),
        ),
        i >= rows.len() ==> stats_fill_partial(rows, i + 1, n, row_stats, pair_stats)
            == stats_fill_partial(rows, i, n, row_stats, pair_stats).push(
            repeat_val(CellView::Str("??"@), (i + 1) as nat) + stats_row_cells(
                i,
                n,
                row_stats,
                pair_stats,
            ),
        ),
{
    if i < rows.len() {
        assert(stats_fill_partial(rows, i + 1, n, row_stats, pair_stats) =~= stats_fill_partial(
            rows,
            i,
            n,
            row_stats,
            pair_stats,
        ).update(i, rows[i] + stats_row_cells(i, n, row_stats, pair_stats)));
    } else {
        assert(stats_fill_partial(rows, i + 1, n, row_stats, pair_stats) =~= stats_fill_partial(
            rows,
            i,
            n,
            row_stats,
            pair_stats,
        ).push(
            repeat_val(CellView::Str("??"@), (i + 1) as nat) + stats_row_cells(
                i,
                n,
                row_stats,
                pair_stats,
            ),
        ));
    }
}

/// Appends the computed per-row and split statistics (as bit patterns) to
/// the statistics table: row `i` of the `n` per-sample rows gains its three
/// statistics and a spacer, and even rows gain the split statistics of their
/// pair, or blanks when the pair is incomplete.  `pair_stats[i / 2]` is the
/// split data of the complete pair starting at even row `i`.
pub fn append_stats_cells(
    chunk: &mut DataChunk,
    row_stats: &Vec<(u32, u32, u32)>,
    pair_stats: &Vec<(u32, u32, u32, u32)>,
)
    requires
        pair_stats@.len() == row_stats@.len() / 2,
    ensures
        final(chunk).headers == old(chunk).headers,
        cells_view(final(chunk).rows@) == stats_fill_partial(
            cells_view(old(chunk).rows@),
            row_stats@.len() as int,
            row_stats@.len() as int,
            row_stats@,
            pair_stats@,
        ),
{
    let n = row_stats.len();
    let ghost prev = cells_view(old(chunk).rows@);
    let ghost rs = row_stats@;
    let ghost ps = pair_stats@;
    let mut i: usize = 0;
    proof {
        assert(cells_view(chunk.rows@) =~= stats_fill_partial(prev, 0, n as int, rs, ps));
    }
    while i < n
        invariant
            i <= n,
            n == rs.len(),
            rs == row_stats@,
            ps == pair_stats@,
            ps.len() == rs.len() / 2,
            chunk.headers == old(chunk).headers,
            prev == cells_view(old(chunk).rows@),
            cells_view(chunk.rows@) == stats_fill_partial(prev, i as int, n as int, rs, ps),
            chunk.rows@.len() == if prev.len() >= i as nat {
                prev.len()
            } else {
                i as nat
            },
        decreases n - i,
    {
        let s = row_stats[i];
        let mut cells: Vec<DataVal> = vec![
            DataVal::Float(s.0),
            DataVal::Float(s.1),
            DataVal::Float(s.2),
            DataVal::str(""),
        ];
        if i % 2 == 0 {
            if i + 1 < n {
                let p = pair_stats[i / 2];
                cells.push(DataVal::Float(p.0));
                cells.push(DataVal::Float(p.1));
                cells.push(DataVal::Float(p.2));
                cells.push(DataVal::Float(p.3));
            } else {
                cells.push(DataVal::str(""));
                cells.push(DataVal::str(""));
                cells.push(DataVal::str(""));
                cells.push(DataVal::str(""));
            }
        }
        proof {
            assert(row_cells(cells@) =~= stats_row_cells(i as int, n as int, rs, ps));
            lemma_stats_fill_step(prev, i as int, n as int, rs, ps);
        }
        if i < chunk.rows.len() {
            proof {
                assert(i < prev.len());
                assert(cells_view(chunk.rows@)[i as int] == prev[i as int]);
                assert(cells_view(chunk.rows@)[i as int] == row_cells(chunk.rows@[i as int]@));
            }
            chunk_append_cells(&mut chunk.rows, i, cells);
            proof {
                assert(cells_view(chunk.rows@) =~= stats_fill_partial(
                    prev,
                    i + 1,
                    n as int,
                    rs,
                    ps,
                ));
            }
        } else {
            proof {
                assert(i >= prev.len());
                assert(chunk.rows@.len() == i);
            }
            let pad_row = placeholder_cells(i + 1);
            proof {
                assert(cells_view(chunk.rows@.push(pad_row)) =~= cells_view(chunk.rows@).push(
                    row_cells(pad_row@),
                ));
            }
            chunk.rows.push(pad_row);
            proof {
                assert(cells_view(chunk.rows@)[i as int] == row_cells(chunk.rows@[i as int]@));
            }
            chunk_append_cells(&mut chunk.rows, i, cells);
            proof {
                assert(cells_view(chunk.rows@) =~= stats_fill_partial(
                    prev,
                    i + 1,
                    n as int,
                    rs,
                    ps,
                ));
            }
        }
        i += 1;
    }
}

/// The four-cell block a record contributes to its ordering group's table:
/// a spacer and the three numeric fields.
pub open spec fn line_block(l: InputLine) -> Seq<CellView> {
    seq![
        CellView::Str(""@),
        CellView::Int(l.area1 as int),
        CellView::Int(l.area2 as int),
        CellView::Float(l.perc_area2),
    ]
}

/// One four-cell block per canonical record.
pub open spec fn line_blocks(lines: Seq<InputLine>) -> Seq<Seq<CellView>> {
    lines.map_values(|l: InputLine| line_block(l))
}

/// The per-file header block of an ordering group's table, repeated `k`
/// times.
pub open spec fn sorted1_file_headers(k: nat) -> Seq<(Seq<char>, nat, bool)>
    decreases k,
{
    if k == 0 {
        Seq::empty()
    } else {
        sorted1_file_headers((k - 1) as nat) + seq![
            (""@, 0 as nat, false),
            ("Area1"@, 0 as nat, false),
            ("Area2"@, 0 as nat, false),
            ("%Area2"@, 1 as nat, false),
        ]
    }
}

/// The body of an ordering group's table after the first `k` files.  File
/// `k - 1` owns the four columns starting at `1 + 4 * (k - 1)`: a row it
/// reaches is padded with placeholder cells up to that offset before its
/// block is appended, and a row created past the canonical labels starts
/// with a marker cell in the label column and one placeholder per column
/// already contributed — so column alignment holds across the whole table.
pub open spec fn sorted1_rows_after(files: Seq<InputFile>, k: int) -> Seq<Seq<CellView>>
    decreases k,
{
    if k <= 0 {
        label_rows_init()
    } else {
        aligned_fill(
            sorted1_rows_after(files, k - 1),
            line_blocks(canonical_lines(files[k - 1])),
            1 + 4 * (k - 1),
            CellView::Str("??"@),
            seq![CellView::Str("?"@)] + repeat_val(CellView::Str("??"@), (4 * (k - 1)) as nat),
        )
    }
}

proof fn lemma_sorted1_width(files: Seq<InputFile>, k: int)
    requires
        0 <= k <= files.len(),
    ensures
        forall|r: int|
            0 <= r < sorted1_rows_after(files, k).len() ==> #[trigger] sorted1_rows_after(
                files,
                k,
            )[r].len() <= 1 + 4 * k,
    decreases k,
{
    if k <= 0 {
        lemma_label_rows_width();
    } else {
        lemma_sorted1_width(files, k - 1);
        let prev = sorted1_rows_after(files, k - 1);
        let blocks = line_blocks(canonical_lines(files[k - 1]));
        let padc = CellView::Str("??"@);
        let prefix = seq![CellView::Str("?"@)] + repeat_val(padc, (4 * (k - 1)) as nat);
        lemma_aligned_fill_cells(prev, blocks, 1 + 4 * (k - 1), padc, prefix);
        let out = sorted1_rows_after(files, k);
        assert forall|r: int| 0 <= r < out.len() implies #[trigger] out[r].len() <= 1 + 4 * k by {
            if r < blocks.len() {
                assert(blocks[r] == line_block(canonical_lines(files[k - 1])[r]));
                assert(out[r].len() == 1 + 4 * (k - 1) + 4);
            } else {
                assert(out[r] == prev[r]);
            }
        }
    }
}

/// Column alignment of an ordering group's table: after any number `k` of
/// files, the four-cell block file `j` contributes at canonical position
/// `r` stands at its own column offset, `1 + 4 * j`, whatever the record
/// counts of the files around it.
pub proof fn lemma_sorted1_block_columns(files: Seq<InputFile>, k: int, j: int, r: int)
    requires
        0 <= j < k <= files.len(),
        0 <= r < canonical_lines(files[j]).len(),
    ensures
        r < sorted1_rows_after(files, k).len(),
        1 + 4 * j + 4 <= sorted1_rows_after(files, k)[r].len(),
        forall|t: int|
            0 <= t < 4 ==> sorted1_rows_after(files, k)[r][1 + 4 * j + t] == line_block(
                canonical_lines(files[j])[r],
            )[t],
    decreases k,
{
    let prev = sorted1_rows_after(files, k - 1);
    let blocks = line_blocks(canonical_lines(files[k - 1]));
    let padc = CellView::Str("??"@);
    let prefix = seq![CellView::Str("?"@)] + repeat_val(padc, (4 * (k - 1)) as nat);
    lemma_sorted1_width(files, k - 1);
    lemma_aligned_fill_cells(prev, blocks, 1 + 4 * (k - 1), padc, prefix);
    let out = sorted1_rows_after(files, k);
    if j == k - 1 {
        assert(blocks[r] == line_block(canonical_lines(files[j])[r]));
        assert(out[r].len() == 1 + 4 * (k - 1) + 4);
        assert forall|t: int|
            0 <= t < 4 implies out[r][1 + 4 * j + t] == line_block(
                canonical_lines(files[j])[r],
            )[t] by {
            assert(out[r][(1 + 4 * (k - 1)) + t] == blocks[r][t]);
        }
    } else {
        lemma_sorted1_block_columns(files, k - 1, j, r);
        if r < blocks.len() {
            assert(blocks[r] == line_block(canonical_lines(files[k - 1])[r]));
            assert(out[r].len() == 1 + 4 * (k - 1) + 4);
            assert forall|t: int|
                0 <= t < 4 implies out[r][1 + 4 * j + t] == line_block(
                    canonical_lines(files[j])[r],
                )[t] by {
                assert(out[r][1 + 4 * j + t] == prev[r][1 + 4 * j + t]);
            }
        } else {
            assert(out[r] == prev[r]);
        }
    }
}

/// The trailer row of an ordering group's table: each file's identifier in
/// the third cell of its block.
pub open spec fn sorted1_trailer(files: Seq<InputFile>, k: int) -> Seq<CellView>
    decreases k,
{
    if k <= 0 {
        seq![CellView::Str("FileID"@)]
    } else {
        sorted1_trailer(files, k - 1) + seq![
            CellView::Str(""@),
            CellView::Str(""@),
            CellView::Str(files[k - 1].file_id@),
            CellView::Str(""@),
        ]
    }
}

proof fn lemma_sorted1_file_headers_len(k: nat)
    ensures
        sorted1_file_headers(k).len() == 4 * k,
    decreases k,
{
    if k > 0 {
        lemma_sorted1_file_headers_len((k - 1) as nat);
    }
}

/// The full contract of one ordering group's table.
pub open spec fn sorted1_chunk_ok(c: DataChunk, files: Seq<InputFile>) -> bool {
    &&& headers_view(c.headers@) == seq![("Sample"@, 0 as nat, false)] + sorted1_file_headers(
        files.len(),
    )
    &&& cells_view(c.rows@) == sorted1_rows_after(files, files.len() as int).push(
        sorted1_trailer(files, files.len() as int),
    )
}

/// Every ordering variant, in its fixed comparison order.
pub open spec fn all_orderings() -> Seq<SampleOrder> {
    seq![
        SampleOrder::AB51,
        SampleOrder::BA15,
        SampleOrder::AB15,
        SampleOrder::BA51,
        SampleOrder::AB110,
        SampleOrder::BA101,
        SampleOrder::Unknown,
    ]
}

/// Some file of the batch has this ordering.
pub open spec fn has_ordering(files: Seq<InputFile>, o: SampleOrder) -> bool {
    exists|i: int| 0 <= i < files.len() && #[trigger] files[i].sample_ordering == o
}

/// The files of the batch with this ordering, in batch order.
pub open spec fn files_with(files: Seq<InputFile>, o: SampleOrder) -> Seq<InputFile>
    decreases files.len(),
{
    if files.len() == 0 {
        Seq::empty()
    } else {
        let rest = files_with(files.drop_last(), o);
        if files.last().sample_ordering == o {
            rest.push(files.last())
        } else {
            rest
        }
    }
}

/// The variants of `list` for which the batch has a file, in list order.
pub open spec fn present_from(list: Seq<SampleOrder>, files: Seq<InputFile>) -> Seq<SampleOrder>
    decreases list.len(),
{
    if list.len() == 0 {
        Seq::empty()
    } else {
        let rest = present_from(list.drop_last(), files);
        if has_ordering(files, list.last()) {
            rest.push(list.last())
        } else {
            rest
        }
    }
}

/// The distinct orderings present in the batch, in their fixed comparison
/// order.
pub open spec fn present_orderings(files: Seq<InputFile>) -> Seq<SampleOrder> {
    present_from(all_orderings(), files)
}

/// The values behind a sequence of file references.
pub open spec fn derefs(v: Seq<&InputFile>) -> Seq<InputFile> {
    v.map_values(|f: &InputFile| *f)
}

proof fn lemma_files_with_step(files: Seq<InputFile>, o: SampleOrder, i: int)
    requires
        0 <= i < files.len(),
    ensures
        files_with(files.take(i + 1), o) == if files[i].sample_ordering == o {
            files_with(files.take(i), o).push(files[i])
        } else {
            files_with(files.take(i), o)
        },
{
    assert(files.take(i + 1).drop_last() =~= files.take(i));
    assert(files.take(i + 1).last() == files[i]);
}

proof fn lemma_present_step(list: Seq<SampleOrder>, files: Seq<InputFile>, i: int)
    requires
        0 <= i < list.len(),
    ensures
        present_from(list.take(i + 1), files) == if has_ordering(files, list[i]) {
            present_from(list.take(i), files).push(list[i])
        } else {
            present_from(list.take(i), files)
        },
{
    assert(list.take(i + 1).drop_last() =~= list.take(i));
    assert(list.take(i + 1).last() == list[i]);
}

proof fn lemma_files_with_present(files: Seq<InputFile>, o: SampleOrder)
    ensures
        files_with(files, o).len() > 0 <==> has_ordering(files, o),
    decreases files.len(),
{
    if files.len() == 0 {
    } else {
        lemma_files_with_present(files.drop_last(), o);
        if files.last().sample_ordering == o {
            assert(files[files.len() - 1].sample_ordering == o);
        } else {
            assert(has_ordering(files.drop_last(), o) <==> has_ordering(files, o)) by {
                if has_ordering(files, o) {
                    let w = choose|i: int|
                        0 <= i < files.len() && #[trigger] files[i].sample_ordering == o;
                    assert(files.drop_last()[w] == files[w]);
                }
            }
        }
    }
}

fn files_with_ordering<'a>(data: &'a Vec<InputFile>, o: SampleOrder) -> (r: Vec<&'a InputFile>)
    ensures
        derefs(r@) == files_with(data@, o),
{
    let mut r: Vec<&InputFile> = Vec::new();
    let mut i: usize = 0;
    proof {
        assert(data@.take(0) =~= Seq::<InputFile>::empty());
        assert(derefs(r@) =~= files_with(data@.take(0), o));
    }
    while i < data.len()
        invariant
            i <= data@.len(),
            derefs(r@) == files_with(data@.take(i as int), o),
        decreases data@.len() - i,
    {
        let f: &InputFile = &data[i];
        proof {
            lemma_files_with_step(data@, o, i as int);
            if f.sample_ordering == o {
                assert(derefs(r@.push(f)) =~= derefs(r@).push(*f));
            }
        }
        if f.sample_ordering == o {
            r.push(f);
        }
        i += 1;
    }
    proof {
        assert(data@.take(data@.len() as int) =~= data@);
    }
    r
}

/// Folds one file's four-cell blocks into an ordering group's table body: a
/// reached row is padded with placeholder cells up to `target` (the full
/// width already contributed) before the block is appended, and a newly
/// created row starts with a marker cell in the label column followed by
/// `target - 1` placeholder cells.
fn fill_line_blocks(rows: &mut Vec<Vec<DataVal>>, canon: &Vec<InputLine>, target: usize)
    requires
        target >= 1,
    ensures
        cells_view(final(rows)@) == aligned_fill(
            cells_view(old(rows)@),
            line_blocks(canon@),
            target as int,
            CellView::Str("??"@),
            seq![CellView::Str("?"@)] + repeat_val(CellView::Str("??"@), (target - 1) as nat),
        ),
{
    let ghost prev = cells_view(old(rows)@);
    let ghost blocks = line_blocks(canon@);
    let ghost padc = CellView::Str("??"@);
    let ghost prefix = seq![CellView::Str("?"@)] + repeat_val(
        CellView::Str("??"@),
        (target - 1) as nat,
    );
    let mut li: usize = 0;
    proof {
        assert(blocks.take(0) =~= Seq::<Seq<CellView>>::empty());
        assert(aligned_fill(prev, blocks.take(0), target as int, padc, prefix) =~= prev);
    }
    while li < canon.len()
        invariant
            target >= 1,
            li <= canon@.len(),
            blocks == line_blocks(canon@),
            padc == CellView::Str("??"@),
            prefix == seq![CellView::Str("?"@)] + repeat_val(
                CellView::Str("??"@),
                (target - 1) as nat,
            ),
            blocks.len() == canon@.len(),
            cells_view(rows@) == aligned_fill(prev, blocks.take(li as int), target as int, padc, prefix),
            rows@.len() == if prev.len() >= li as nat {
                prev.len()
            } else {
                li as nat
            },
        decreases canon@.len() - li,
    {
        let line = canon[li];
        let block: Vec<DataVal> = vec![
            DataVal::str(""),
            DataVal::Integer(line.area1),
            DataVal::Integer(line.area2),
            DataVal::Float(line.perc_area2),
        ];
        proof {
            lemma_aligned_step(prev, blocks, target as int, padc, prefix, li as int);
            assert(row_cells(block@) =~= line_block(canon@[li as int]));
            assert(blocks[li as int] == line_block(canon@[li as int]));
        }
        if li < rows.len() {
            let cur_len = rows[li].len();
            proof {
                assert(li < prev.len());
                assert(cells_view(rows@)[li as int] == prev[li as int]);
                assert(cells_view(rows@)[li as int] == row_cells(rows@[li as int]@));
                assert(prev[li as int].len() == cur_len);
            }
            let mut cells: Vec<DataVal> = if cur_len < target {
                placeholder_cells(target - cur_len)
            } else {
                Vec::new()
            };
            let ghost base = row_cells(cells@);
            let mut blk = block;
            let ghost bv = blk@;
            cells.append(&mut blk);
            proof {
                assert(row_cells(cells@) =~= base + row_cells(bv));
                assert(prev[li as int] + row_cells(cells@) =~= pad_to(
                    prev[li as int],
                    target as int,
                    padc,
                ) + blocks[li as int]);
            }
            chunk_append_cells(rows, li, cells);
            proof {
                assert(cells_view(rows@) =~= aligned_fill(
                    prev,
                    blocks.take(li + 1),
                    target as int,
                    padc,
                    prefix,
                ));
            }
        } else {
            proof {
                assert(li >= prev.len());
                assert(rows@.len() == li);
            }
            let mut pad_row: Vec<DataVal> = vec![DataVal::str("?")];
            let mut pads = placeholder_cells(target - 1);
            let ghost pv = pads@;
            pad_row.append(&mut pads);
            proof {
                assert(row_cells(pad_row@) =~= seq![CellView::Str("?"@)] + row_cells(pv));
                assert(row_cells(pad_row@) =~= prefix);
                assert(cells_view(rows@.push(pad_row)) =~= cells_view(rows@).push(row_cells(
                    pad_row@,
                )));
            }
            rows.push(pad_row);
            proof {
                assert(cells_view(rows@)[li as int] == row_cells(rows@[li as int]@));
            }
            chunk_append_cells(rows, li, block);
            proof {
                assert(cells_view(rows@) =~= aligned_fill(
                    prev,
                    blocks.take(li + 1),
                    target as int,
                    padc,
                    prefix,
                ));
            }
        }
        li += 1;
    }
    proof {
        assert(blocks.take(canon@.len() as int) =~= blocks);
    }
}

fn sorted1_chunk(files: &Vec<&InputFile>) -> (r: DataChunk)
    ensures
        sorted1_chunk_ok(r, derefs(files@)),
{
    let ghost fs = derefs(files@);
    let mut chunk = DataChunk::new();
    push_header(&mut chunk, "Sample", 0, false);
    let mut h: usize = 0;
    proof {
        assert(headers_view(chunk.headers@) =~= seq![("Sample"@, 0 as nat, false)]
            + sorted1_file_headers(0));
    }
    while h < files.len()
        invariant
            h <= files@.len(),
            chunk.rows@.len() == 0,
            headers_view(chunk.headers@) == seq![("Sample"@, 0 as nat, false)]
                + sorted1_file_headers(h as nat),
        decreases files@.len() - h,
    {
        push_header(&mut chunk, "", 0, false);
        push_header(&mut chunk, "Area1", 0, false);
        push_header(&mut chunk, "Area2", 0, false);
        push_header(&mut chunk, "%Area2", 1, false);
        proof {
            assert(headers_view(chunk.headers@) =~= seq![("Sample"@, 0 as nat, false)]
                + sorted1_file_headers((h + 1) as nat));
        }
        h += 1;
    }
    proof {
        assert(fs.len() == files@.len());
    }

    push_label_rows(&mut chunk);

    let header_count = chunk.headers.len();
    proof {
        lemma_sorted1_file_headers_len(files@.len() as nat);
        assert(headers_view(chunk.headers@).len() == chunk.headers@.len());
        assert(header_count as int == 1 + 4 * files@.len());
    }
    let mut j: usize = 0;
    while j < files.len()
        invariant
            j <= files@.len(),
            fs == derefs(files@),
            header_count as int == 1 + 4 * files@.len(),
            headers_view(chunk.headers@) == seq![("Sample"@, 0 as nat, false)]
                + sorted1_file_headers(files@.len() as nat),
            cells_view(chunk.rows@) == sorted1_rows_after(fs, j as int),
        decreases files@.len() - j,
    {
        let file: &InputFile = files[j];
        let canon = InputFile::get_ab15_order(file.sample_ordering, &file.input_lines);
        proof {
            assert(fs[j as int] == *file);
            assert(4 * (j as int) < header_count as int);
        }
        let target: usize = 1 + 4 * j;
        fill_line_blocks(&mut chunk.rows, &canon, target);
        proof {
            assert(canon@ == canonical_lines(fs[j as int]));
            assert(target as int == 1 + 4 * (j as int));
            assert((target - 1) as nat == (4 * (j as int)) as nat);
        }
        j += 1;
    }

    let mut last_line: Vec<DataVal> = vec![DataVal::str("FileID")];
    proof {
        assert(row_cells(last_line@) =~= sorted1_trailer(fs, 0));
    }
    let mut t: usize = 0;
    while t < files.len()
        invariant
            t <= files@.len(),
            fs == derefs(files@),
            headers_view(chunk.headers@) == seq![("Sample"@, 0 as nat, false)]
                + sorted1_file_headers(files@.len() as nat),
            cells_view(chunk.rows@) == sorted1_rows_after(fs, fs.len() as int),
            row_cells(last_line@) == sorted1_trailer(fs, t as int),
        decreases files@.len() - t,
    {
        let file: &InputFile = files[t];
        let mut block: Vec<DataVal> = vec![
            DataVal::str(""),
            DataVal::str(""),
            DataVal::String(file.file_id.clone()),
            DataVal::str(""),
        ];
        proof {
            assert(fs[t as int] == *file);
            assert(row_cells(last_line@ + block@) =~= row_cells(last_line@) + row_cells(block@));
            assert(row_cells(block@) =~= seq![
                CellView::Str(""@),
                CellView::Str(""@),
                CellView::Str(fs[t as int].file_id@),
                CellView::Str(""@),
            ]);
        }
        last_line.append(&mut block);
        t += 1;
    }
    proof {
        assert(cells_view(chunk.rows@.push(last_line)) =~= cells_view(chunk.rows@).push(row_cells(
            last_line@,
        )));
        assert(fs.len() == files@.len());
    }
    chunk.rows.push(last_line);
    chunk
}

/// Builds one table per ordering present in the batch, in the fixed
/// comparison order of the orderings: each table gathers the group's files,
/// lays their canonical rows out as four-cell column blocks at fixed
/// per-file offsets ([`lemma_sorted1_block_columns`]), and ends with a
/// trailer row naming the files.
pub fn extract_sorted_chunks_1(data: &Vec<InputFile>) -> (r: Vec<DataChunk>)
    ensures
        r@.len() == present_orderings(data@).len(),
        forall|k: int|
            0 <= k < r@.len() ==> sorted1_chunk_ok(
                #[trigger] r@[k],
                files_with(data@, present_orderings(data@)[k]),
            ),
{
    let order_list: Vec<SampleOrder> = vec![
        SampleOrder::AB51,
        SampleOrder::BA15,
        SampleOrder::AB15,
        SampleOrder::BA51,
        SampleOrder::AB110,
        SampleOrder::BA101,
        SampleOrder::Unknown,
    ];
    let ghost ol = all_orderings();
    proof {
        assert(order_list@ =~= ol);
    }
    let mut chunks: Vec<DataChunk> = Vec::new();
    let mut v: usize = 0;
    proof {
        assert(ol.take(0) =~= Seq::<SampleOrder>::empty());
        assert(present_from(ol.take(0), data@) =~= Seq::<SampleOrder>::empty());
    }
    while v < order_list.len()
        invariant
            v <= order_list@.len(),
            order_list@ == ol,
            ol == all_orderings(),
            chunks@.len() == present_from(ol.take(v as int), data@).len(),
            forall|k: int|
                0 <= k < chunks@.len() ==> sorted1_chunk_ok(
                    #[trigger] chunks@[k],
                    files_with(data@, present_from(ol.take(v as int), data@)[k]),
                ),
        decreases order_list@.len() - v,
    {
        let o = order_list[v];
        let group = files_with_ordering(data, o);
        proof {
            lemma_present_step(ol, data@, v as int);
            lemma_files_with_present(data@, o);
        }
        if group.len() > 0 {
            let chunk = sorted1_chunk(&group);
            proof {
                assert(has_ordering(data@, o));
                assert(derefs(group@).len() == group@.len());
            }
            chunks.push(chunk);
        } else {
            proof {
                assert(derefs(group@).len() == group@.len());
                assert(!has_ordering(data@, o));
            }
        }
        v += 1;
    }
    proof {
        assert(ol.take(order_list@.len() as int) =~= ol);
    }
    chunks
}

/// A token that occurs, as a substring, in every filename of the batch.
pub open spec fn is_full_match(t: Seq<char>, names: Seq<Seq<char>>) -> bool {
    forall|k: int| 0 <= k < names.len() ==> contains_sub(#[trigger] names[k], t)
}

/// The tokens of `toks` that occur in every filename, in token order.
pub open spec fn full_match_tokens(toks: Seq<Seq<char>>, names: Seq<Seq<char>>) -> Seq<Seq<char>>
    decreases toks.len(),
{
    if toks.len() == 0 {
        Seq::empty()
    } else {
        let rest = full_match_tokens(toks.drop_last(), names);
        if is_full_match(toks.last(), names) {
            rest.push(toks.last())
        } else {
            rest
        }
    }
}

/// The tokens holding at least one numeric character, in order.
pub open spec fn numeric_tokens(toks: Seq<Seq<char>>) -> Seq<Seq<char>>
    decreases toks.len(),
{
    if toks.len() == 0 {
        Seq::empty()
    } else {
        let rest = numeric_tokens(toks.drop_last());
        if has_numeric(toks.last()) {
            rest.push(toks.last())
        } else {
            rest
        }
    }
}

/// The tokens joined with `-`, in their original order.
pub open spec fn join_dash(toks: Seq<Seq<char>>) -> Seq<char>
    decreases toks.len(),
{
    if toks.len() == 0 {
        Seq::empty()
    } else if toks.len() == 1 {
        toks[0]
    } else {
        join_dash(toks.drop_last()) + "-"@ + toks.last()
    }
}

/// Sample-id inference: tokenize the first filename; keep the tokens that
/// occur as a substring of every filename.  No match yields nothing; a single
/// match is returned as it stands; among several matches a unique token with
/// a numeric character wins, and otherwise all matches are joined with `-`.
pub open spec fn guess_spec(names: Seq<Seq<char>>) -> Option<Seq<char>> {
    if names.len() == 0 {
        None
    } else {
        let fm = full_match_tokens(split_tokens_spec(names[0]), names);
        if fm.len() == 0 {
            None
        } else if fm.len() == 1 {
            Some(fm[0])
        } else {
            let nm = numeric_tokens(fm);
            if nm.len() == 1 {
                Some(nm[0])
            } else {
                Some(join_dash(fm))
            }
        }
    }
}

proof fn lemma_full_match_step(toks: Seq<Seq<char>>, names: Seq<Seq<char>>, i: int)
    requires
        0 <= i < toks.len(),
    ensures
        full_match_tokens(toks.take(i + 1), names) == if is_full_match(toks[i], names) {
            full_match_tokens(toks.take(i), names).push(toks[i])
        } else {
            full_match_tokens(toks.take(i), names)
        },
{
    assert(toks.take(i + 1).drop_last() =~= toks.take(i));
    assert(toks.take(i + 1).last() == toks[i]);
}

proof fn lemma_numeric_step(toks: Seq<Seq<char>>, i: int)
    requires
        0 <= i < toks.len(),
    ensures
        numeric_tokens(toks.take(i + 1)) == if has_numeric(toks[i]) {
            numeric_tokens(toks.take(i)).push(toks[i])
        } else {
            numeric_tokens(toks.take(i))
        },
{
    assert(toks.take(i + 1).drop_last() =~= toks.take(i));
    assert(toks.take(i + 1).last() == toks[i]);
}

fn token_matches_all(t: &str, filenames: &Vec<&str>) -> (r: bool)
    ensures
        r == is_full_match(t@, strs_view(filenames@)),
{
    let ghost names = strs_view(filenames@);
    let mut k: usize = 0;
    while k < filenames.len()
        invariant
            k <= filenames.len(),
            names == strs_view(filenames@),
            forall|m: int| 0 <= m < k ==> contains_sub(#[trigger] names[m], t@),
        decreases filenames.len() - k,
    {
        if !str_contains(filenames[k], t) {
            proof {
                assert(!contains_sub(names[k as int], t@));
            }
            return false;
        }
        k += 1;
    }
    true
}

/// Infers a shared sample identifier across a batch of filenames.  An empty
/// batch yields nothing; see [`guess_spec`] for the resolution rules.
pub fn guess_sample_id(filenames: &Vec<&str>) -> (r: Option<String>)
    ensures
        match r {
            Option::None => guess_spec(strs_view(filenames@)) is None,
            Option::Some(s) => guess_spec(strs_view(filenames@)) == Some(s@),
        },
{
    let ghost names = strs_view(filenames@);
    if filenames.len() < 1 {
        return None;
    }
    let first: &str = filenames[0];
    let toks = split_tokens(first);
    let ghost tv = strs_view(toks@);
    proof {
        assert(names[0] == first@);
    }

    let mut matches: Vec<&str> = Vec::new();
    let mut i: usize = 0;
    proof {
        assert(tv.take(0) =~= Seq::<Seq<char>>::empty());
        assert(strs_view(matches@) =~= full_match_tokens(tv.take(0), names));
    }
    while i < toks.len()
        invariant
            i <= toks.len(),
            tv == strs_view(toks@),
            names == strs_view(filenames@),
            strs_view(matches@) == full_match_tokens(tv.take(i as int), names),
        decreases toks.len() - i,
    {
        let t: &str = toks[i];
        let m = token_matches_all(t, filenames);
        proof {
            lemma_full_match_step(tv, names, i as int);
            if m {
                assert(strs_view(matches@.push(t)) =~= strs_view(matches@).push(t@));
            }
        }
        if m {
            matches.push(t);
        }
        i += 1;
    }
    proof {
        assert(tv.take(toks@.len() as int) =~= tv);
        assert(strs_view(matches@) == full_match_tokens(split_tokens_spec(names[0]), names));
    }

    let ghost fm = full_match_tokens(split_tokens_spec(names[0]), names);
    if matches.len() == 0 {
        return None;
    }
    if matches.len() == 1 {
        proof {
            assert(strs_view(matches@)[0] == fm[0]);
        }
        return Some(String::from_str(matches[0]));
    }

    let mut num_matches: Vec<&str> = Vec::new();
    let ghost mv = strs_view(matches@);
    let mut j: usize = 0;
    proof {
        assert(mv.take(0) =~= Seq::<Seq<char>>::empty());
        assert(strs_view(num_matches@) =~= numeric_tokens(mv.take(0)));
    }
    while j < matches.len()
        invariant
            j <= matches.len(),
            mv == strs_view(matches@),
            strs_view(num_matches@) == numeric_tokens(mv.take(j as int)),
        decreases matches.len() - j,
    {
        let t: &str = matches[j];
        let n = str_has_numeric(t);
        proof {
            lemma_numeric_step(mv, j as int);
            if n {
                assert(strs_view(num_matches@.push(t)) =~= strs_view(num_matches@).push(t@));
            }
        }
        if n {
            num_matches.push(t);
        }
        j += 1;
    }
    proof {
        assert(mv.take(matches@.len() as int) =~= mv);
        assert(strs_view(num_matches@) == numeric_tokens(fm));
    }

    if num_matches.len() == 1 {
        proof {
            assert(strs_view(num_matches@)[0] == numeric_tokens(fm)[0]);
        }
        return Some(String::from_str(num_matches[0]));
    }

    let mut acc = String::from_str(matches[0]);
    let mut k: usize = 1;
    proof {
        assert(mv.take(1) =~= seq![mv[0]]);
        assert(acc@ == join_dash(mv.take(1)));
    }
    while k < matches.len()
        invariant
            1 <= k <= matches.len(),
            mv == strs_view(matches@),
            acc@ == join_dash(mv.take(k as int)),
        decreases matches.len() - k,
    {
        proof {
            assert(mv.take(k + 1 as int).drop_last() =~= mv.take(k as int));
            assert(mv.take(k + 1 as int).last() == mv[k as int]);
        }
        acc.append("-");
        acc.append(matches[k]);
        k += 1;
    }
    proof {
        assert(mv.take(matches@.len() as int) =~= mv);
    }
    Some(acc)
}

} // verus!
