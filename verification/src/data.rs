//! The data model: one measured record, one measurement file, and the closed
//! set of sample orderings with classification from the file identifier and
//! permutation into the canonical ascending interleaved layout.

use vstd::prelude::*;
use vstd::seq_lib::*;
use vstd::string::*;

use crate::strutil::{split_tokens, split_tokens_spec, strs_view};

verus! {

/// One measured region within one file.  Numeric fields that failed to parse
/// carry the sentinel `-2`; `perc_area2` holds the IEEE-754 bit pattern of the
/// 32-bit percentage value, so no floating-point arithmetic happens here.
#[derive(Clone, Copy, PartialEq, Eq, Structural, Debug, Default)]
pub struct InputLine {
    pub grid_idx: i32,
    pub area1: i32,
    pub area2: i32,
    pub perc_area2: u32,
}

/// The closed set of row orderings a file can arrive in, each named by the
/// indicator tokens of its file identifier.
#[derive(Clone, Copy, PartialEq, Eq, Structural, PartialOrd, Ord, Debug)]
#[non_exhaustive]
pub enum SampleOrder {
    AB51,
    BA15,
    AB15,
    BA51,
    /// AB 1-10
    AB110,
    /// BA 10-1
    BA101,
    Unknown,
}

/// Indicator tokens for the `AB51` ordering.
pub open spec fn ab51_indicators() -> Seq<Seq<char>> {
    seq!["up"@, "uc"@, "51ab"@, "ab51"@, "51AB"@, "AB51"@]
}

/// Indicator tokens for the `BA15` ordering.
pub open spec fn ba15_indicators() -> Seq<Seq<char>> {
    seq!["dn"@, "dc"@, "15ba"@, "ba15"@, "15BA"@, "BA15"@]
}

/// Indicator tokens for the `AB15` ordering.
pub open spec fn ab15_indicators() -> Seq<Seq<char>> {
    seq!["UP"@, "ab15"@, "15ab"@, "AB15"@, "15AB"@, "top"@]
}

/// Indicator tokens for the `BA51` ordering.
pub open spec fn ba51_indicators() -> Seq<Seq<char>> {
    seq!["DN"@, "ba51"@, "51ba"@, "BA51"@, "51BA"@, "btm"@]
}

/// Indicator tokens for the `AB110` ordering.
pub open spec fn ab110_indicators() -> Seq<Seq<char>> {
    seq!["ab110"@, "AB110"@, "ab1_10"@, "AB1_10"@]
}

/// Indicator tokens for the `BA101` ordering.
pub open spec fn ba101_indicators() -> Seq<Seq<char>> {
    seq!["ba101"@, "BA101"@, "ba10_1"@, "BA10_1"@]
}

/// Some token of `toks` is one of the given indicator tokens.
pub open spec fn indicator_present(toks: Seq<Seq<char>>, indicators: Seq<Seq<char>>) -> bool {
    exists|i: int| 0 <= i < toks.len() && indicators.contains(#[trigger] toks[i])
}

/// Classification of a file identifier: split into tokens, then resolve by
/// fixed precedence, first hit wins.  The precedence is a deliberately ordered
/// priority list, not alphabetic.
pub open spec fn classify(file_id: Seq<char>) -> SampleOrder {
    let toks = split_tokens_spec(file_id);
    if indicator_present(toks, ab15_indicators()) {
        SampleOrder::AB15
    } else if indicator_present(toks, ba51_indicators()) {
        SampleOrder::BA51
    } else if indicator_present(toks, ab110_indicators()) {
        SampleOrder::AB110
    } else if indicator_present(toks, ba101_indicators()) {
        SampleOrder::BA101
    } else if indicator_present(toks, ab51_indicators()) {
        SampleOrder::AB51
    } else if indicator_present(toks, ba15_indicators()) {
        SampleOrder::BA15
    } else {
        SampleOrder::Unknown
    }
}

/// The fixed label sequence of each ordering.
pub open spec fn label_seq(order: SampleOrder) -> Seq<Seq<char>> {
    match order {
        SampleOrder::AB51 => seq!["5a"@, "5b"@, "4a"@, "4b"@, "3a"@, "3b"@, "2a"@, "2b"@, "1a"@, "1b"@],
        SampleOrder::BA15 => seq!["1b"@, "1a"@, "2b"@, "2a"@, "3b"@, "3a"@, "4b"@, "4a"@, "5b"@, "5a"@],
        SampleOrder::AB15 => seq!["1a"@, "1b"@, "2a"@, "2b"@, "3a"@, "3b"@, "4a"@, "4b"@, "5a"@, "5b"@],
        SampleOrder::BA51 => seq!["5b"@, "5a"@, "4b"@, "4a"@, "3b"@, "3a"@, "2b"@, "2a"@, "1b"@, "1a"@],
        SampleOrder::AB110 => seq![
            "1a"@, "1b"@, "2a"@, "2b"@, "3a"@, "3b"@, "4a"@, "4b"@, "5a"@, "5b"@,
            "6a"@, "6b"@, "7a"@, "7b"@, "8a"@, "8b"@, "9a"@, "9b"@, "10a"@, "10b"@,
        ],
        SampleOrder::BA101 => seq![
            "10b"@, "10a"@, "9b"@, "9a"@, "8b"@, "8a"@, "7b"@, "7a"@, "6b"@, "6a"@,
            "5b"@, "5a"@, "4b"@, "4a"@, "3b"@, "3a"@, "2b"@, "2a"@, "1b"@, "1a"@,
        ],
        SampleOrder::Unknown => seq!["??"@, "??"@, "??"@, "??"@, "??"@, "??"@, "??"@, "??"@, "??"@, "??"@],
    }
}

fn any_indicator(toks: &Vec<&str>, indicators: &Vec<&str>) -> (r: bool)
    ensures
        r == indicator_present(strs_view(toks@), strs_view(indicators@)),
{
    let ghost tv = strs_view(toks@);
    let ghost iv = strs_view(indicators@);
    let mut i: usize = 0;
    while i < toks.len()
        invariant
            i <= toks.len(),
            tv == strs_view(toks@),
            iv == strs_view(indicators@),
            forall|k: int| 0 <= k < i ==> !iv.contains(#[trigger] tv[k]),
        decreases toks.len() - i,
    {
        let mut j: usize = 0;
        while j < indicators.len()
            invariant
                i < toks.len(),
                j <= indicators.len(),
                tv == strs_view(toks@),
                iv == strs_view(indicators@),
                forall|k: int| 0 <= k < j ==> iv[k] != tv[i as int],
            decreases indicators.len() - j,
        {
            if crate::strutil::str_eq(toks[i], indicators[j]) {
                proof {
                    assert(iv[j as int] == tv[i as int]);
                    assert(iv.contains(tv[i as int]));
                }
                return true;
            }
            j += 1;
        }
        proof {
            assert(!iv.contains(tv[i as int]));
        }
        i += 1;
    }
    false
}

impl SampleOrder {
    /// Classifies a file identifier into its sample ordering.
    pub fn from_file_id(file_id: &str) -> (r: SampleOrder)
        ensures
            r == classify(file_id@),
    {
        let toks = split_tokens(file_id);

        let ab51_indic: Vec<&str> = vec!["up", "uc", "51ab", "ab51", "51AB", "AB51"];
        let ba15_indic: Vec<&str> = vec!["dn", "dc", "15ba", "ba15", "15BA", "BA15"];
        let ab15_indic: Vec<&str> = vec!["UP", "ab15", "15ab", "AB15", "15AB", "top"];
        let ba51_indic: Vec<&str> = vec!["DN", "ba51", "51ba", "BA51", "51BA", "btm"];
        let ab110_indic: Vec<&str> = vec!["ab110", "AB110", "ab1_10", "AB1_10"];
        let ba101_indic: Vec<&str> = vec!["ba101", "BA101", "ba10_1", "BA10_1"];
        proof {
            assert(strs_view(ab51_indic@) =~= ab51_indicators());
            assert(strs_view(ba15_indic@) =~= ba15_indicators());
            assert(strs_view(ab15_indic@) =~= ab15_indicators());
            assert(strs_view(ba51_indic@) =~= ba51_indicators());
            assert(strs_view(ab110_indic@) =~= ab110_indicators());
            assert(strs_view(ba101_indic@) =~= ba101_indicators());
        }

        let found_ab51 = any_indicator(&toks, &ab51_indic);
        let found_ba15 = any_indicator(&toks, &ba15_indic);
        let found_ab15 = any_indicator(&toks, &ab15_indic);
        let found_ba51 = any_indicator(&toks, &ba51_indic);
        let found_ab110 = any_indicator(&toks, &ab110_indic);
        let found_ba101 = any_indicator(&toks, &ba101_indic);

        if found_ab15 {
            SampleOrder::AB15
        } else if found_ba51 {
            SampleOrder::BA51
        } else if found_ab110 {
            SampleOrder::AB110
        } else if found_ba101 {
            SampleOrder::BA101
        } else if found_ab51 {
            SampleOrder::AB51
        } else if found_ba15 {
            SampleOrder::BA15
        } else {
            SampleOrder::Unknown
        }
    }

    /// The human-readable position labels of this ordering, in file row order.
    pub fn get_labels(&self) -> (r: Vec<&str>)
        ensures
            strs_view(r@) == label_seq(*self),
    {
        let r: Vec<&str> = match self {
            SampleOrder::AB51 => vec!["5a", "5b", "4a", "4b", "3a", "3b", "2a", "2b", "1a", "1b"],
            SampleOrder::BA15 => vec!["1b", "1a", "2b", "2a", "3b", "3a", "4b", "4a", "5b", "5a"],
            SampleOrder::AB15 => vec!["1a", "1b", "2a", "2b", "3a", "3b", "4a", "4b", "5a", "5b"],
            SampleOrder::BA51 => vec!["5b", "5a", "4b", "4a", "3b", "3a", "2b", "2a", "1b", "1a"],
            SampleOrder::AB110 => vec![
                "1a", "1b", "2a", "2b", "3a", "3b", "4a", "4b", "5a", "5b",
                "6a", "6b", "7a", "7b", "8a", "8b", "9a", "9b", "10a", "10b",
            ],
            SampleOrder::BA101 => vec![
                "10b", "10a", "9b", "9a", "8b", "8a", "7b", "7a", "6b", "6a",
                "5b", "5a", "4b", "4a", "3b", "3a", "2b", "2a", "1b", "1a",
            ],
            SampleOrder::Unknown => vec!["??", "??", "??", "??", "??", "??", "??", "??", "??", "??"],
        };
        proof {
            assert(strs_view(r@) =~= label_seq(*self));
        }
        r
    }
}

/// Adjacent-pair swap: records are taken two at a time `(i, i + 1)` and
/// emitted `(i + 1, i)`; a trailing unpaired record is dropped.
pub open spec fn pair_swapped(s: Seq<InputLine>) -> Seq<InputLine> {
    Seq::new(
        2 * (s.len() / 2),
        |k: int| if k % 2 == 0 {
            s[k + 1]
        } else {
            s[k - 1]
        },
    )
}

/// The permutation from a file's native row order into the canonical
/// ascending interleaved (`AB15`/`AB110`) layout.
///
/// Note the deliberate asymmetry between the `AB51` and `BA15` branches: only
/// `BA15` reverses after the pair swap.  Applying the unreversed pair swap to
/// rows labelled `5a,5b,4a,4b,…` yields the `5b,5a,4b,4a,…` order, not the
/// ascending one; this behaviour is part of the interface and is kept as it
/// stands rather than silently corrected.
pub open spec fn canonical_order(order: SampleOrder, lines: Seq<InputLine>) -> Seq<InputLine> {
    match order {
        SampleOrder::AB15 | SampleOrder::AB110 | SampleOrder::Unknown => lines,
        SampleOrder::BA51 | SampleOrder::BA101 => lines.reverse(),
        SampleOrder::AB51 => pair_swapped(lines),
        SampleOrder::BA15 => pair_swapped(lines).reverse(),
    }
}

fn copy_lines(lines: &Vec<InputLine>) -> (r: Vec<InputLine>)
    ensures
        r@ == lines@,
{
    let mut r: Vec<InputLine> = Vec::new();
    let mut i: usize = 0;
    while i < lines.len()
        invariant
            i <= lines.len(),
            r@ == lines@.take(i as int),
        decreases lines.len() - i,
    {
        proof {
            assert(lines@.take(i + 1 as int) =~= lines@.take(i as int).push(lines@[i as int]));
        }
        r.push(lines[i]);
        i += 1;
    }
    proof {
        assert(lines@.take(lines@.len() as int) =~= lines@);
    }
    r
}

fn reverse_lines(lines: &Vec<InputLine>) -> (r: Vec<InputLine>)
    ensures
        r@ == lines@.reverse(),
{
    let mut r: Vec<InputLine> = Vec::new();
    let mut i: usize = 0;
    while i < lines.len()
        invariant
            i <= lines.len(),
            r@.len() == i,
            forall|k: int| 0 <= k < i ==> r@[k] == lines@[lines@.len() - 1 - k],
        decreases lines.len() - i,
    {
        r.push(lines[lines.len() - 1 - i]);
        i += 1;
    }
    proof {
        assert(r@ =~= lines@.reverse());
    }
    r
}

fn pair_swap_lines(lines: &Vec<InputLine>) -> (r: Vec<InputLine>)
    ensures
        r@ == pair_swapped(lines@),
{
    let mut r: Vec<InputLine> = Vec::new();
    let mut i: usize = 0;
    while i + 1 < lines.len()
        invariant
            i % 2 == 0,
            i <= lines.len(),
            r@.len() == i,
            forall|k: int|
                0 <= k < i ==> r@[k] == (if k % 2 == 0 {
                    lines@[k + 1]
                } else {
                    lines@[k - 1]
                }),
        decreases lines.len() - i,
    {
        r.push(lines[i + 1]);
        r.push(lines[i]);
        i += 2;
    }
    proof {
        assert(i >= lines@.len() - 1 && i <= lines@.len() && i % 2 == 0);
        assert(i == 2 * (lines@.len() / 2)) by (nonlinear_arith)
            requires
                i >= lines@.len() - 1 && i <= lines@.len() && i % 2 == 0,
        ;
        assert(r@ =~= pair_swapped(lines@));
    }
    r
}

/// One measurement file: its identifier, its records in native row order, and
/// the ordering derived once from the identifier at construction.
#[derive(Clone, PartialEq, Debug)]
pub struct InputFile {
    pub file_id: String,
    pub input_lines: Vec<InputLine>,
    pub sample_ordering: SampleOrder,
}

impl InputFile {
    /// Builds a file, deriving its ordering from the identifier.
    pub fn new(file_id: &str, input_lines: Vec<InputLine>) -> (r: InputFile)
        ensures
            r.file_id@ == file_id@,
            r.input_lines == input_lines,
            r.sample_ordering == classify(file_id@),
    {
        InputFile {
            file_id: String::from_str(file_id),
            sample_ordering: SampleOrder::from_file_id(file_id),
            input_lines,
        }
    }

    /// Reorders a file's records into the canonical ascending interleaved
    /// layout according to its classified ordering.
    pub fn get_ab15_order(cur_order: SampleOrder, lines: &Vec<InputLine>) -> (r: Vec<InputLine>)
        ensures
            r@ == canonical_order(cur_order, lines@),
    {
        match cur_order {
            SampleOrder::AB15 | SampleOrder::AB110 | SampleOrder::Unknown => copy_lines(lines),
            SampleOrder::BA51 | SampleOrder::BA101 => reverse_lines(lines),
            SampleOrder::AB51 => pair_swap_lines(lines),
            SampleOrder::BA15 => {
                let swapped = pair_swap_lines(lines);
                reverse_lines(&swapped)
            },
        }
    }
}

/// The view of parsed rows: each row's file identifier and record.
pub open spec fn pairs_view(rows: Seq<(String, InputLine)>) -> Seq<(Seq<char>, InputLine)> {
    rows.map_values(|p: (String, InputLine)| (p.0@, p.1))
}

/// Maximal runs of consecutive rows sharing a file identifier: each run
/// becomes one group carrying the identifier and the records in row order.
/// An identifier that reappears later starts a fresh group.
pub open spec fn grouped_runs(rows: Seq<(Seq<char>, InputLine)>) -> Seq<(Seq<char>, Seq<InputLine>)>
    decreases rows.len(),
{
    if rows.len() == 0 {
        Seq::empty()
    } else {
        let rest = grouped_runs(rows.drop_last());
        let last = rows.last();
        if rest.len() > 0 && rest.last().0 == last.0 {
            rest.update(rest.len() - 1, (last.0, rest.last().1.push(last.1)))
        } else {
            rest.push((last.0, seq![last.1]))
        }
    }
}

proof fn lemma_grouped_step(rows: Seq<(Seq<char>, InputLine)>, i: int)
    requires
        0 <= i < rows.len(),
    ensures
        grouped_runs(rows.take(i + 1)) == {
            let rest = grouped_runs(rows.take(i));
            if rest.len() > 0 && rest.last().0 == rows[i].0 {
                rest.update(rest.len() - 1, (rows[i].0, rest.last().1.push(rows[i].1)))
            } else {
                rest.push((rows[i].0, seq![rows[i].1]))
            }
        },
{
    assert(rows.take(i + 1).drop_last() =~= rows.take(i));
    assert(rows.take(i + 1).last() == rows[i]);
}

/// The groups named by a sequence of files.
pub open spec fn file_groups(files: Seq<InputFile>) -> Seq<(Seq<char>, Seq<InputLine>)> {
    files.map_values(|f: InputFile| (f.file_id@, f.input_lines@))
}

/// Groups consecutive parsed rows sharing a file identifier into files, one
/// file per maximal run, each classified from its identifier.
pub fn group_records(rows: Vec<(String, InputLine)>) -> (r: Vec<InputFile>)
    ensures
        file_groups(r@) == grouped_runs(pairs_view(rows@)),
        forall|k: int|
            0 <= k < r@.len() ==> #[trigger] r@[k].sample_ordering == classify(r@[k].file_id@),
{
    let ghost pv = pairs_view(rows@);
    let mut result: Vec<InputFile> = Vec::new();
    let mut pending_id = String::new();
    let mut pending_lines: Vec<InputLine> = Vec::new();
    let mut have_pending = false;
    let mut i: usize = 0;
    proof {
        assert(pv.take(0) =~= Seq::<(Seq<char>, InputLine)>::empty());
        assert(file_groups(result@) =~= Seq::<(Seq<char>, Seq<InputLine>)>::empty());
    }
    while i < rows.len()
        invariant
            i <= rows@.len(),
            pv == pairs_view(rows@),
            pv.len() == rows@.len(),
            !have_pending ==> i == 0 && result@.len() == 0 && grouped_runs(pv.take(i as int))
                =~= Seq::<(Seq<char>, Seq<InputLine>)>::empty(),
            have_pending ==> grouped_runs(pv.take(i as int)) == file_groups(result@).push(
                (pending_id@, pending_lines@),
            ),
            have_pending ==> pending_lines@.len() > 0,
            forall|k: int|
                0 <= k < result@.len() ==> #[trigger] result@[k].sample_ordering == classify(
                    result@[k].file_id@,
                ),
        decreases rows@.len() - i,
    {
        let row_id: &String = &rows[i].0;
        let line: InputLine = rows[i].1;
        proof {
            lemma_grouped_step(pv, i as int);
            assert(pv[i as int] == (rows@[i as int].0@, rows@[i as int].1));
        }
        if !have_pending {
            pending_id = row_id.clone();
            pending_lines = Vec::new();
            pending_lines.push(line);
            have_pending = true;
            proof {
                assert(pending_lines@ =~= seq![line]);
                assert(grouped_runs(pv.take(i + 1)) =~= file_groups(result@).push(
                    (pending_id@, pending_lines@),
                ));
            }
        } else if crate::strutil::str_eq(row_id.as_str(), pending_id.as_str()) {
            proof {
                let rest = grouped_runs(pv.take(i as int));
                assert(rest.len() > 0);
                assert(rest.last() == (pending_id@, pending_lines@));
                assert(rest.update(rest.len() - 1, (pv[i as int].0, rest.last().1.push(line)))
                    =~= file_groups(result@).push((pv[i as int].0, pending_lines@.push(line))));
            }
            pending_lines.push(line);
            proof {
                assert(pending_id@ == pv[i as int].0);
                assert(grouped_runs(pv.take(i + 1)) == file_groups(result@).push(
                    (pending_id@, pending_lines@),
                ));
            }
        } else {
            let finished = InputFile::new(pending_id.as_str(), pending_lines);
            proof {
                let rest = grouped_runs(pv.take(i as int));
                assert(rest.len() > 0);
                assert(rest.last() == (pending_id@, finished.input_lines@));
                assert(file_groups(result@.push(finished)) =~= file_groups(result@).push(
                    (finished.file_id@, finished.input_lines@),
                ));
            }
            result.push(finished);
            pending_id = row_id.clone();
            pending_lines = Vec::new();
            pending_lines.push(line);
            proof {
                assert(pending_lines@ =~= seq![line]);
                assert(grouped_runs(pv.take(i + 1)) == file_groups(result@).push(
                    (pending_id@, pending_lines@),
                ));
            }
        }
        i += 1;
    }
    proof {
        assert(pv.take(rows@.len() as int) =~= pv);
    }
    if have_pending {
        let finished = InputFile::new(pending_id.as_str(), pending_lines);
        proof {
            assert(file_groups(result@.push(finished)) =~= file_groups(result@).push(
                (finished.file_id@, finished.input_lines@),
            ));
        }
        result.push(finished);
    } else {
        proof {
            assert(file_groups(result@) =~= grouped_runs(pv));
        }
    }
    result
}

/// An `Unknown` classification leaves the records untouched, and every one of
/// its labels is the placeholder.
pub proof fn lemma_unknown_order_is_identity(lines: Seq<InputLine>)
    ensures
        canonical_order(SampleOrder::Unknown, lines) == lines,
        forall|i: int|
            0 <= i < label_seq(SampleOrder::Unknown).len()
                ==> #[trigger] label_seq(SampleOrder::Unknown)[i] == "??"@,
{
}

/// Precedence: a file identifier holding an `AB15` indicator token classifies
/// as `AB15`, whatever other indicators (such as `BA51`) it also holds.
pub proof fn lemma_ab15_takes_precedence(file_id: Seq<char>)
    requires
        indicator_present(split_tokens_spec(file_id), ab15_indicators()),
    ensures
        classify(file_id) == SampleOrder::AB15,
{
}

/// Precedence: with only `AB51` and `BA15` indicators present, `AB51` wins,
/// because it stands earlier in the priority list.
pub proof fn lemma_ab51_beats_ba15(file_id: Seq<char>)
    requires
        indicator_present(split_tokens_spec(file_id), ab51_indicators()),
        !indicator_present(split_tokens_spec(file_id), ab15_indicators()),
        !indicator_present(split_tokens_spec(file_id), ba51_indicators()),
        !indicator_present(split_tokens_spec(file_id), ab110_indicators()),
        !indicator_present(split_tokens_spec(file_id), ba101_indicators()),
    ensures
        classify(file_id) == SampleOrder::AB51,
{
}

/// Running an identity branch (`AB15`, `AB110`, `Unknown`) twice is a no-op.
pub proof fn lemma_identity_branch_idempotent(order: SampleOrder, lines: Seq<InputLine>)
    requires
        order == SampleOrder::AB15 || order == SampleOrder::AB110 || order == SampleOrder::Unknown,
    ensures
        canonical_order(order, canonical_order(order, lines)) == canonical_order(order, lines),
        canonical_order(order, lines) == lines,
{
}

/// Running a reversal branch (`BA51`, `BA101`) twice returns the original
/// record order.
pub proof fn lemma_reversal_branch_involutive(order: SampleOrder, lines: Seq<InputLine>)
    requires
        order == SampleOrder::BA51 || order == SampleOrder::BA101,
    ensures
        canonical_order(order, canonical_order(order, lines)) == lines,
{
    assert(lines.reverse().reverse() =~= lines);
}

} // verus!
