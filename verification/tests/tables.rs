//! Table assembly: detail tables, cross-file pivots, sum and statistics
//! tables, and the ragged padding rules.

use milo_excel_helper::data::{InputFile, InputLine};
use milo_excel_helper::excel::{
    append_row_stats, append_stats_cells, extract_labelled_chunks, extract_sorted_chunks_1,
    extract_sorted_chunks_2, extract_stats_chunk_base, extract_sum_chunk_values,
    float_cells_after_first, stats_value_rows, DataChunk, DataVal, SPLIT_PAD_BITS,
};

fn s(x: &str) -> DataVal {
    DataVal::String(x.to_string())
}

fn iv(x: i32) -> DataVal {
    DataVal::Integer(x)
}

fn fv(x: f32) -> DataVal {
    DataVal::Float(x.to_bits())
}

fn line(grid_idx: i32, area1: i32, area2: i32, perc: f32) -> InputLine {
    InputLine {
        grid_idx,
        area1,
        area2,
        perc_area2: perc.to_bits(),
    }
}

fn file(id: &str, n: i32) -> InputFile {
    let lines: Vec<InputLine> = (0..n).map(|i| line(i, i + 100, i + 200, i as f32)).collect();
    InputFile::new(id, lines)
}

fn header_names(c: &DataChunk) -> Vec<String> {
    c.headers.iter().map(|h| h.0.clone()).collect()
}

#[test]
fn labelled_chunk_per_file_detail() {
    let data = vec![file("a-ab15", 2)];
    let chunks = extract_labelled_chunks(&data);
    assert_eq!(chunks.len(), 1);
    let c = &chunks[0];
    assert_eq!(
        header_names(c),
        vec!["Sample", "FileID", "GridIdx", "Area1", "Area2", "%Area2"]
    );
    assert_eq!(
        c.headers.iter().map(|h| h.1).collect::<Vec<usize>>(),
        vec![0, 0, 0, 0, 0, 1]
    );
    assert_eq!(c.rows.len(), 2);
    assert_eq!(
        c.rows[0],
        vec![s("1a"), s("a-ab15"), iv(0), iv(100), iv(200), fv(0.0)]
    );
    assert_eq!(
        c.rows[1],
        vec![s("1b"), s("a-ab15"), iv(1), iv(101), iv(201), fv(1.0)]
    );
}

#[test]
fn labelled_chunk_uses_raw_ordering_labels() {
    let data = vec![file("a-ba51", 1)];
    let chunks = extract_labelled_chunks(&data);
    // The detail table keeps the file's own labels, unreordered.
    assert_eq!(chunks[0].rows[0][0], s("5b"));
}

#[test]
fn labelled_chunk_marks_records_past_the_labels() {
    let data = vec![file("a-ab15", 11)];
    let chunks = extract_labelled_chunks(&data);
    assert_eq!(chunks[0].rows[9][0], s("5b"));
    assert_eq!(chunks[0].rows[10][0], s("???"));
}

#[test]
fn sorted_1_groups_by_ordering_in_fixed_order() {
    let data = vec![file("a-ab15", 1), file("b-ba51", 1), file("c-ab15", 1)];
    let chunks = extract_sorted_chunks_1(&data);
    // AB15 stands before BA51 in the fixed comparison order.
    assert_eq!(chunks.len(), 2);
    let ab15 = &chunks[0];
    assert_eq!(
        header_names(ab15),
        vec!["Sample", "", "Area1", "Area2", "%Area2", "", "Area1", "Area2", "%Area2"]
    );
    // Ten label rows and the trailer.
    assert_eq!(ab15.rows.len(), 11);
    assert_eq!(
        ab15.rows[0],
        vec![s("1a"), s(""), iv(100), iv(200), fv(0.0), s(""), iv(100), iv(200), fv(0.0)]
    );
    assert_eq!(ab15.rows[1], vec![s("1b")]);
    assert_eq!(
        ab15.rows[10],
        vec![s("FileID"), s(""), s(""), s("a-ab15"), s(""), s(""), s(""), s("c-ab15"), s("")]
    );
    let ba51 = &chunks[1];
    assert_eq!(header_names(ba51), vec!["Sample", "", "Area1", "Area2", "%Area2"]);
    assert_eq!(
        ba51.rows[10],
        vec![s("FileID"), s(""), s(""), s("b-ba51"), s("")]
    );
}

#[test]
fn sorted_1_reorders_rows_canonically() {
    // Two records under BA51 arrive reversed: the table shows them ascending.
    let data = vec![file("b-ba51", 2)];
    let chunks = extract_sorted_chunks_1(&data);
    let c = &chunks[0];
    assert_eq!(c.rows[0], vec![s("1a"), s(""), iv(101), iv(201), fv(1.0)]);
    assert_eq!(c.rows[1], vec![s("1b"), s(""), iv(100), iv(200), fv(0.0)]);
}

#[test]
fn sorted_1_marks_rows_past_the_labels() {
    let data = vec![file("a-ab15", 11)];
    let chunks = extract_sorted_chunks_1(&data);
    let c = &chunks[0];
    assert_eq!(c.rows.len(), 12);
    assert_eq!(
        c.rows[10],
        vec![s("?"), s(""), iv(110), iv(210), fv(10.0)]
    );
}

#[test]
fn sorted_1_pads_short_rows_to_keep_alignment() {
    // The first file reaches only row 0: row 1 holds placeholders across
    // its whole four-column block, and the second file's block stands at
    // its own offset.
    let data = vec![file("a-ab15", 1), file("c-ab15", 2)];
    let chunks = extract_sorted_chunks_1(&data);
    let c = &chunks[0];
    assert_eq!(
        c.rows[1],
        vec![s("1b"), s("??"), s("??"), s("??"), s("??"), s(""), iv(101), iv(201), fv(1.0)]
    );
    assert_eq!(c.rows[2], vec![s("2a")]);
}

#[test]
fn sorted_1_pads_created_rows_per_contributed_column() {
    // A row created past the labels by the second file carries the label
    // marker and one placeholder per column of the first file's block.
    let data = vec![file("a-ab15", 1), file("c-ab15", 11)];
    let chunks = extract_sorted_chunks_1(&data);
    let c = &chunks[0];
    assert_eq!(c.rows.len(), 12);
    assert_eq!(
        c.rows[10],
        vec![s("?"), s("??"), s("??"), s("??"), s("??"), s(""), iv(110), iv(210), fv(10.0)]
    );
}

#[test]
fn sorted_2_builds_one_pivot_per_metric() {
    let data = vec![file("a-ab15", 2), file("b-ab15", 3)];
    let chunks = extract_sorted_chunks_2(&data);
    assert_eq!(chunks.len(), 3);
    // Metric order: the percentage first, then the two areas.
    assert_eq!(header_names(&chunks[0]), vec!["Sample", "%Area2", "%Area2"]);
    assert_eq!(header_names(&chunks[1]), vec!["Sample", "Area1", "Area1"]);
    assert_eq!(header_names(&chunks[2]), vec!["Sample", "Area2", "Area2"]);
    let c = &chunks[1];
    assert_eq!(c.rows.len(), 11);
    assert_eq!(c.rows[0], vec![s("1a"), iv(100), iv(100)]);
    assert_eq!(c.rows[1], vec![s("1b"), iv(101), iv(101)]);
    // The shorter file's column gets a placeholder, keeping the second
    // file's value in its own column.
    assert_eq!(c.rows[2], vec![s("2a"), s("??"), iv(102)]);
    // A row no file reaches is not padded.
    assert_eq!(c.rows[5], vec![s("3b")]);
    assert_eq!(c.rows[10], vec![s("FileID"), s("a-ab15"), s("b-ab15")]);
}

#[test]
fn sorted_2_pads_short_rows_to_keep_alignment() {
    // Files with record counts [2, 5]: rows 2 to 4 hold a placeholder cell
    // in the first file's column block and real data in the second's.
    let data = vec![file("a-ab15", 2), file("b-ab15", 5)];
    let chunks = extract_sorted_chunks_2(&data);
    let c = &chunks[1];
    assert_eq!(c.rows[2], vec![s("2a"), s("??"), iv(102)]);
    assert_eq!(c.rows[3], vec![s("2b"), s("??"), iv(103)]);
    assert_eq!(c.rows[4], vec![s("3a"), s("??"), iv(104)]);
    assert_eq!(c.rows[5], vec![s("3b")]);
}

#[test]
fn sorted_2_pads_rows_created_past_the_labels() {
    let data = vec![file("a-ab15", 2), file("b-ab15", 12)];
    let chunks = extract_sorted_chunks_2(&data);
    let c = &chunks[1];
    assert_eq!(c.rows.len(), 13);
    // Rows 10 and 11 exist only for the second file: one placeholder per
    // column already present (label and first file), then the value.
    assert_eq!(c.rows[10], vec![s("??"), s("??"), iv(110)]);
    assert_eq!(c.rows[11], vec![s("??"), s("??"), iv(111)]);
    // A label row the first file does not reach is padded the same way.
    assert_eq!(c.rows[2], vec![s("2a"), s("??"), iv(102)]);
}

#[test]
fn sum_chunk_lays_out_value_columns_and_summary_headers() {
    let values = vec![
        vec![2.0f32.to_bits(), 1.0f32.to_bits()],
        vec![6.0f32.to_bits(), 3.0f32.to_bits(), 9.0f32.to_bits()],
    ];
    let c = extract_sum_chunk_values(&values);
    assert_eq!(
        header_names(&c),
        vec!["Sample", "%Area2", "%Area2", "", "Avg", "Std", "CV"]
    );
    assert_eq!(
        c.headers.iter().map(|h| (h.1, h.2)).collect::<Vec<(usize, bool)>>(),
        vec![(0, false), (1, false), (1, false), (0, false), (1, false), (2, false), (2, true)]
    );
    assert_eq!(c.rows.len(), 10);
    assert_eq!(c.rows[0], vec![s("1a"), fv(2.0), fv(6.0)]);
    assert_eq!(c.rows[1], vec![s("1b"), fv(1.0), fv(3.0)]);
    // The shorter column's cell is a placeholder, keeping alignment; the
    // placeholder is a string, so it never feeds the row statistics.
    assert_eq!(c.rows[2], vec![s("2a"), s("??"), fv(9.0)]);
    assert_eq!(c.rows[3], vec![s("2b")]);
}

#[test]
fn sum_chunk_pads_rows_created_past_the_labels() {
    let first: Vec<u32> = (0..2).map(|i| (i as f32).to_bits()).collect();
    let second: Vec<u32> = (0..12).map(|i| (i as f32).to_bits()).collect();
    let c = extract_sum_chunk_values(&vec![first, second]);
    assert_eq!(c.rows.len(), 12);
    assert_eq!(c.rows[10], vec![s("??"), s("??"), fv(10.0)]);
    assert_eq!(c.rows[11], vec![s("??"), s("??"), fv(11.0)]);
}

#[test]
fn float_cells_skip_the_label_and_non_float_cells() {
    let row = vec![s("1a"), fv(2.5), iv(7), fv(3.5), s("x")];
    assert_eq!(
        float_cells_after_first(&row),
        vec![2.5f32.to_bits(), 3.5f32.to_bits()]
    );
    assert_eq!(float_cells_after_first(&vec![fv(9.0)]), Vec::<u32>::new());
    assert_eq!(float_cells_after_first(&Vec::new()), Vec::<u32>::new());
}

#[test]
fn append_row_stats_extends_every_row() {
    let values = vec![vec![2.0f32.to_bits(), 4.0f32.to_bits()]];
    let mut c = extract_sum_chunk_values(&values);
    let mut stats: Vec<(u32, u32, u32)> = Vec::new();
    for row in c.rows.iter() {
        let bits = float_cells_after_first(row);
        let xs: Vec<f32> = bits.iter().map(|b| f32::from_bits(*b)).collect();
        let n = xs.len() as f32;
        let avg = xs.iter().sum::<f32>() / n;
        let var = xs.iter().map(|x| (avg - x) * (avg - x)).sum::<f32>() / n;
        let std = var.sqrt();
        stats.push((avg.to_bits(), std.to_bits(), (std / avg).to_bits()));
    }
    append_row_stats(&mut c, &stats);
    assert_eq!(
        c.rows[0],
        vec![s("1a"), fv(2.0), s(""), fv(2.0), fv(0.0), fv(0.0)]
    );
    assert_eq!(
        c.rows[1],
        vec![s("1b"), fv(4.0), s(""), fv(4.0), fv(0.0), fv(0.0)]
    );
    // A row no file reaches gets statistics of an empty vector: the bit
    // patterns the caller computed, carried through unchanged.
    assert_eq!(c.rows[2].len(), 5);
    assert_eq!(c.rows[2][0], s("2a"));
}

#[test]
fn stats_value_rows_pad_the_first_file_block() {
    // Files with record counts [2, 5]: rows 2 to 4 hold a placeholder in
    // the first file's column block and real data in the second's.
    let a = 10.0f32.to_bits();
    let b = 11.0f32.to_bits();
    let c1 = 1.0f32.to_bits();
    let c2 = 2.0f32.to_bits();
    let c3 = 3.0f32.to_bits();
    let c4 = 4.0f32.to_bits();
    let c5 = 5.0f32.to_bits();
    let rows = stats_value_rows(&vec![vec![a, b], vec![c1, c2, c3, c4, c5]]);
    assert_eq!(rows.len(), 5);
    assert_eq!(rows[0], vec![a, c1]);
    assert_eq!(rows[1], vec![b, c2]);
    assert_eq!(rows[2], vec![SPLIT_PAD_BITS, c3]);
    assert_eq!(rows[3], vec![SPLIT_PAD_BITS, c4]);
    assert_eq!(rows[4], vec![SPLIT_PAD_BITS, c5]);
    assert_eq!(f32::from_bits(SPLIT_PAD_BITS), -1.0);
}

#[test]
fn stats_chunk_base_prefixes_labels_with_the_inferred_id() {
    let ids = vec![
        "ns-ag05-ab15.tif".to_string(),
        "ns-ag05-ba51".to_string(),
        "ns-ag05-ab15".to_string(),
    ];
    let c = extract_stats_chunk_base(&ids);
    assert_eq!(
        header_names(&c),
        vec!["Sample", "Avg", "Std", "CV", "", "Split Diff", "Split Std", "Split Avg", "Split CV"]
    );
    assert_eq!(
        c.headers.iter().map(|h| (h.1, h.2)).collect::<Vec<(usize, bool)>>(),
        vec![
            (1, false),
            (1, false),
            (1, false),
            (1, true),
            (1, false),
            (1, false),
            (1, false),
            (1, false),
            (1, true)
        ]
    );
    assert_eq!(c.rows.len(), 10);
    assert_eq!(c.rows[0], vec![s("ag05-1a")]);
    assert_eq!(c.rows[9], vec![s("ag05-5b")]);
}

#[test]
fn stats_chunk_base_without_an_id_keeps_bare_labels() {
    let ids = vec!["abc".to_string(), "xyz".to_string()];
    let c = extract_stats_chunk_base(&ids);
    assert_eq!(c.rows[0], vec![s("1a")]);
}

#[test]
fn append_stats_cells_fills_pairs_and_blanks() {
    let ids = vec!["abc".to_string(), "xyz".to_string()];
    let mut c = extract_stats_chunk_base(&ids);
    let row_stats = vec![
        (1.0f32.to_bits(), 2.0f32.to_bits(), 3.0f32.to_bits()),
        (4.0f32.to_bits(), 5.0f32.to_bits(), 6.0f32.to_bits()),
        (7.0f32.to_bits(), 8.0f32.to_bits(), 9.0f32.to_bits()),
    ];
    let pair_stats = vec![(0.5f32.to_bits(), 1.5f32.to_bits(), 2.5f32.to_bits(), 3.5f32.to_bits())];
    append_stats_cells(&mut c, &row_stats, &pair_stats);
    // Even row with a complete pair: statistics, spacer, split statistics.
    assert_eq!(
        c.rows[0],
        vec![s("1a"), fv(1.0), fv(2.0), fv(3.0), s(""), fv(0.5), fv(1.5), fv(2.5), fv(3.5)]
    );
    // Odd row: statistics and spacer only.
    assert_eq!(c.rows[1], vec![s("1b"), fv(4.0), fv(5.0), fv(6.0), s("")]);
    // Even row whose `b` half does not exist: four blank cells.
    assert_eq!(
        c.rows[2],
        vec![s("2a"), fv(7.0), fv(8.0), fv(9.0), s(""), s(""), s(""), s(""), s("")]
    );
    // Label rows past the data stay bare.
    assert_eq!(c.rows[3], vec![s("2b")]);
    assert_eq!(c.rows.len(), 10);
}

#[test]
fn append_stats_cells_pads_rows_past_the_labels() {
    let ids = vec!["abc".to_string(), "xyz".to_string()];
    let mut c = extract_stats_chunk_base(&ids);
    let mut row_stats: Vec<(u32, u32, u32)> = Vec::new();
    for i in 0..12 {
        let b = (i as f32).to_bits();
        row_stats.push((b, b, b));
    }
    let pair_stats: Vec<(u32, u32, u32, u32)> = (0..6)
        .map(|i| {
            let b = (i as f32).to_bits();
            (b, b, b, b)
        })
        .collect();
    append_stats_cells(&mut c, &row_stats, &pair_stats);
    assert_eq!(c.rows.len(), 12);
    // Row 10 was created with eleven placeholder cells, then its statistics
    // and the split statistics of the pair (10, 11).
    let mut expected: Vec<DataVal> = (0..11).map(|_| s("??")).collect();
    expected.extend(vec![fv(10.0), fv(10.0), fv(10.0), s("")]);
    expected.extend(vec![fv(5.0), fv(5.0), fv(5.0), fv(5.0)]);
    assert_eq!(c.rows[10], expected);
    let mut expected11: Vec<DataVal> = (0..12).map(|_| s("??")).collect();
    expected11.extend(vec![fv(11.0), fv(11.0), fv(11.0), s("")]);
    assert_eq!(c.rows[11], expected11);
}

#[test]
fn empty_batch_builds_empty_tables() {
    let data: Vec<InputFile> = Vec::new();
    assert!(extract_labelled_chunks(&data).is_empty());
    assert!(extract_sorted_chunks_1(&data).is_empty());
    let chunks = extract_sorted_chunks_2(&data);
    assert_eq!(chunks.len(), 3);
    assert_eq!(chunks[0].rows.len(), 11);
    assert_eq!(chunks[0].rows[10], vec![s("FileID")]);
    let c = extract_sum_chunk_values(&Vec::new());
    assert_eq!(c.rows.len(), 10);
    assert_eq!(header_names(&c), vec!["Sample", "", "Avg", "Std", "CV"]);
}

#[test]
fn data_chunk_new_is_empty() {
    let c = DataChunk::new();
    assert!(c.headers.is_empty());
    assert!(c.rows.is_empty());
    assert_eq!(DataVal::str("x"), s("x"));
}
