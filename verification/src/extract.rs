//! The record extractor: outage blocks, labelled field rows, and the fixed
//! label vocabulary that maps a row to a record field.

use vstd::prelude::*;
use crate::dates::{spec_time_value, lemma_time_value_wf, zt_wf, TimeError, ZonedTime};
use crate::dates::parse_time;
use crate::text::{spec_locations, split_locations};

verus! {

/// One reported outage. Every field is optional: absence means the block
/// had no row with that label.
#[derive(Debug, Clone, PartialEq, Eq)]
pub struct Outage {
    pub outage_type: Option<String>,
    pub locations: Option<Vec<String>>,
    pub estimated_start_time: Option<ZonedTime>,
    pub estimated_restore_time: Option<ZonedTime>,
    pub cause: Option<String>,
    pub customers_affected: Option<String>,
    pub crew_status: Option<String>,
}

/// The mathematical shadow of an `Outage`.
pub struct OutageView {
    pub outage_type: Option<Seq<char>>,
    pub locations: Option<Seq<Seq<char>>>,
    pub estimated_start_time: Option<ZonedTime>,
    pub estimated_restore_time: Option<ZonedTime>,
    pub cause: Option<Seq<char>>,
    pub customers_affected: Option<Seq<char>>,
    pub crew_status: Option<Seq<char>>,
}

impl View for Outage {
    type V = OutageView;

    open spec fn view(&self) -> OutageView {
        OutageView {
            outage_type: match self.outage_type {
                Some(s) => Some(s@),
                None => None,
            },
            locations: match self.locations {
                Some(v) => Some(v.deep_view()),
                None => None,
            },
            estimated_start_time: self.estimated_start_time,
            estimated_restore_time: self.estimated_restore_time,
            cause: match self.cause {
                Some(s) => Some(s@),
                None => None,
            },
            customers_affected: match self.customers_affected {
                Some(s) => Some(s@),
                None => None,
            },
            crew_status: match self.crew_status {
                Some(s) => Some(s@),
                None => None,
            },
        }
    }
}

impl DeepView for Outage {
    type V = OutageView;

    open spec fn deep_view(&self) -> OutageView {
        self.view()
    }
}

/// Why a run was abandoned with no output.
#[derive(Debug, Clone, PartialEq, Eq)]
pub enum ExtractError {
    /// A field row with fewer than two cells: its value is missing.
    MissingValueCell,
    /// A row whose label is outside the fixed vocabulary.
    UnknownLabel(String),
    /// A date-time value cell that cannot be read.
    BadTime(TimeError),
}

pub enum ExtractErrorV {
    MissingValueCell,
    UnknownLabel(Seq<char>),
    BadTime(TimeError),
}

impl View for ExtractError {
    type V = ExtractErrorV;

    open spec fn view(&self) -> ExtractErrorV {
        match self {
            ExtractError::MissingValueCell => ExtractErrorV::MissingValueCell,
            ExtractError::UnknownLabel(s) => ExtractErrorV::UnknownLabel(s@),
            ExtractError::BadTime(e) => ExtractErrorV::BadTime(*e),
        }
    }
}

/// The record with no field observed yet.
pub open spec fn empty_outage() -> OutageView {
    OutageView {
        outage_type: None,
        locations: None,
        estimated_start_time: None,
        estimated_restore_time: None,
        cause: None,
        customers_affected: None,
        crew_status: None,
    }
}

/// One field row applied to a record under construction: the first cell is
/// the label, the second the value, and the label picks the destination
/// field from the fixed vocabulary. A short row or an unknown label
/// abandons the whole run.
pub open spec fn spec_apply_row(o: OutageView, row: Seq<Seq<char>>) -> Result<
    OutageView,
    ExtractErrorV,
> {
    if row.len() < 2 {
        Err(ExtractErrorV::MissingValueCell)
    } else {
        let label = row[0];
        let value = row[1];
        if label == "Outage Type:"@ {
            Ok(OutageView { outage_type: Some(value), ..o })
        } else if label == "Location:"@ {
            Ok(OutageView { locations: Some(spec_locations(value)), ..o })
        } else if label == "Est. Start:"@ {
            match spec_time_value(value) {
                Ok(t) => Ok(OutageView { estimated_start_time: t, ..o }),
                Err(e) => Err(ExtractErrorV::BadTime(e)),
            }
        } else if label == "Est. Restore:"@ {
            match spec_time_value(value) {
                Ok(t) => Ok(OutageView { estimated_restore_time: t, ..o }),
                Err(e) => Err(ExtractErrorV::BadTime(e)),
            }
        } else if label == "Cause:"@ {
            Ok(OutageView { cause: Some(value), ..o })
        } else if label == "Cust. Affected:"@ {
            Ok(OutageView { customers_affected: Some(value), ..o })
        } else if label == "Crew Status:"@ {
            Ok(OutageView { crew_status: Some(value), ..o })
        } else {
            Err(ExtractErrorV::UnknownLabel(label))
        }
    }
}

/// A whole block folded row by row, starting from the empty record. The
/// earliest failing row decides the error.
pub open spec fn spec_block_outage(rows: Seq<Seq<Seq<char>>>) -> Result<
    OutageView,
    ExtractErrorV,
>
    decreases rows.len(),
{
    if rows.len() == 0 {
        Ok(empty_outage())
    } else {
        match spec_block_outage(rows.drop_last()) {
            Err(e) => Err(e),
            Ok(o) => spec_apply_row(o, rows.last()),
        }
    }
}

/// All blocks folded in document order.
pub open spec fn spec_extract(blocks: Seq<Seq<Seq<Seq<char>>>>) -> Result<
    Seq<OutageView>,
    ExtractErrorV,
>
    decreases blocks.len(),
{
    if blocks.len() == 0 {
        Ok(Seq::empty())
    } else {
        match spec_extract(blocks.drop_last()) {
            Err(e) => Err(e),
            Ok(os) => match spec_block_outage(blocks.last()) {
                Ok(o) => Ok(os.push(o)),
                Err(e) => Err(e),
            },
        }
    }
}

proof fn lemma_block_err_extends(rows: Seq<Seq<Seq<char>>>, j: int)
    requires
        0 <= j <= rows.len(),
        spec_block_outage(rows.take(j)) is Err,
    ensures
        spec_block_outage(rows) == spec_block_outage(rows.take(j)),
    decreases rows.len() - j,
{
    if j < rows.len() {
        assert(rows.take(j + 1).drop_last() =~= rows.take(j));
        lemma_block_err_extends(rows, j + 1);
    } else {
        assert(rows.take(j) =~= rows);
    }
}

proof fn lemma_extract_err_extends(blocks: Seq<Seq<Seq<Seq<char>>>>, j: int)
    requires
        0 <= j <= blocks.len(),
        spec_extract(blocks.take(j)) is Err,
    ensures
        spec_extract(blocks) == spec_extract(blocks.take(j)),
    decreases blocks.len() - j,
{
    if j < blocks.len() {
        assert(blocks.take(j + 1).drop_last() =~= blocks.take(j));
        lemma_extract_err_extends(blocks, j + 1);
    } else {
        assert(blocks.take(j) =~= blocks);
    }
}

fn label_is(s: &String, lit: &str) -> (r: bool)
    ensures
        r == (s@ == lit@),
{
    s.eq(&lit.to_owned())
}

fn apply_row(o: Outage, row: &Vec<String>) -> (r: Result<Outage, ExtractError>)
    ensures
        (match r {
            Ok(o2) => spec_apply_row(o@, row.deep_view()) == Ok::<OutageView, ExtractErrorV>(o2@),
            Err(e) => spec_apply_row(o@, row.deep_view()) == Err::<OutageView, ExtractErrorV>(e@),
        }),
{
    proof {
        if row@.len() >= 2 {
            assert(row.deep_view()[0] == row@[0]@);
            assert(row.deep_view()[1] == row@[1]@);
        }
    }
    if row.len() < 2 {
        return Err(ExtractError::MissingValueCell);
    }
    let label = &row[0];
    let value = &row[1];
    if label_is(label, "Outage Type:") {
        Ok(Outage { outage_type: Some(value.clone()), ..o })
    } else if label_is(label, "Location:") {
        Ok(Outage { locations: Some(split_locations(value.as_str())), ..o })
    } else if label_is(label, "Est. Start:") {
        match parse_time(value.as_str()) {
            Ok(t) => Ok(Outage { estimated_start_time: t, ..o }),
            Err(e) => Err(ExtractError::BadTime(e)),
        }
    } else if label_is(label, "Est. Restore:") {
        match parse_time(value.as_str()) {
            Ok(t) => Ok(Outage { estimated_restore_time: t, ..o }),
            Err(e) => Err(ExtractError::BadTime(e)),
        }
    } else if label_is(label, "Cause:") {
        Ok(Outage { cause: Some(value.clone()), ..o })
    } else if label_is(label, "Cust. Affected:") {
        Ok(Outage { customers_affected: Some(value.clone()), ..o })
    } else if label_is(label, "Crew Status:") {
        Ok(Outage { crew_status: Some(value.clone()), ..o })
    } else {
        Err(ExtractError::UnknownLabel(label.clone()))
    }
}

/// Builds one outage from the rows of one block.
pub fn block_outage(rows: &Vec<Vec<String>>) -> (r: Result<Outage, ExtractError>)
    ensures
        (match r {
            Ok(o) => spec_block_outage(rows.deep_view()) == Ok::<OutageView, ExtractErrorV>(o@),
            Err(e) => spec_block_outage(rows.deep_view()) == Err::<OutageView, ExtractErrorV>(
                e@,
            ),
        }),
{
    let mut o = Outage {
        outage_type: None,
        locations: None,
        estimated_start_time: None,
        estimated_restore_time: None,
        cause: None,
        customers_affected: None,
        crew_status: None,
    };
    let rv = Ghost(rows.deep_view());
    proof {
        assert(rv@.take(0) =~= Seq::<Seq<Seq<char>>>::empty());
    }
    let mut i: usize = 0;
    while i < rows.len()
        invariant
            i <= rows.len(),
            rv@ == rows.deep_view(),
            rv@.len() == rows@.len(),
            spec_block_outage(rv@.take(i as int)) == Ok::<OutageView, ExtractErrorV>(o@),
        decreases rows.len() - i,
    {
        proof {
            assert(rv@[i as int] == rows@[i as int].deep_view());
        }
        match apply_row(o, &rows[i]) {
            Ok(o2) => {
                o = o2;
            },
            Err(e) => {
                proof {
                    assert(rv@.take(i as int + 1).drop_last() =~= rv@.take(i as int));
                    assert(rv@.take(i as int + 1).last() == rv@[i as int]);
                    assert(spec_block_outage(rv@.take(i as int + 1)) == Err::<
                        OutageView,
                        ExtractErrorV,
                    >(e@));
                    lemma_block_err_extends(rv@, i as int + 1);
                }
                return Err(e);
            },
        }
        i = i + 1;
        proof {
            assert(rv@.take(i as int).drop_last() =~= rv@.take(i as int - 1));
            assert(rv@.take(i as int).last() == rv@[i as int - 1]);
        }
    }
    proof {
        assert(rv@.take(rows@.len() as int) =~= rv@);
    }
    Ok(o)
}

/// What an `Outage` may be rendered from: any present time is well-formed.
pub open spec fn outage_wf(o: OutageView) -> bool {
    &&& (match o.estimated_start_time {
        Some(t) => zt_wf(t),
        None => true,
    })
    &&& (match o.estimated_restore_time {
        Some(t) => zt_wf(t),
        None => true,
    })
}

/// A fold that succeeds only builds records whose times are well-formed.
pub proof fn lemma_block_outage_wf(rows: Seq<Seq<Seq<char>>>)
    ensures
        spec_block_outage(rows) matches Ok(o) ==> outage_wf(o),
    decreases rows.len(),
{
    if rows.len() > 0 {
        lemma_block_outage_wf(rows.drop_last());
        if spec_block_outage(rows.drop_last()) matches Ok(prev) {
            let row = rows.last();
            if row.len() >= 2 {
                lemma_time_value_wf(row[1]);
            }
        }
    }
}

pub proof fn lemma_extract_wf(blocks: Seq<Seq<Seq<Seq<char>>>>, os: Seq<OutageView>)
    requires
        spec_extract(blocks) == Ok::<Seq<OutageView>, ExtractErrorV>(os),
    ensures
        forall|i: int| 0 <= i < os.len() ==> outage_wf(#[trigger] os[i]),
    decreases blocks.len(),
{
    if blocks.len() > 0 {
        match spec_extract(blocks.drop_last()) {
            Ok(os0) => {
                lemma_extract_wf(blocks.drop_last(), os0);
                lemma_block_outage_wf(blocks.last());
            },
            Err(_) => {},
        }
    }
}

/// A row that any record under construction accepts: two cells, a known
/// label, and a readable time value where the label asks for one.
pub open spec fn row_ok(row: Seq<Seq<char>>) -> bool {
    spec_apply_row(empty_outage(), row) is Ok
}

/// Whether a row applies cleanly does not depend on the record it lands on.
proof fn lemma_apply_row_ok_any(o: OutageView, row: Seq<Seq<char>>)
    ensures
        spec_apply_row(o, row) is Ok <==> row_ok(row),
{
}

/// No two rows carry the same label.
pub open spec fn labels_distinct(rows: Seq<Seq<Seq<char>>>) -> bool {
    forall|i: int, j: int|
        #![trigger rows[i], rows[j]]
        0 <= i < j < rows.len() ==> rows[i][0] != rows[j][0]
}

/// The value of the last row bearing a label, if any.
pub open spec fn last_with_label(rows: Seq<Seq<Seq<char>>>, label: Seq<char>) -> Option<Seq<char>>
    decreases rows.len(),
{
    if rows.len() == 0 {
        None
    } else if rows.last()[0] == label {
        Some(rows.last()[1])
    } else {
        last_with_label(rows.drop_last(), label)
    }
}

pub open spec fn time_of_value(v: Option<Seq<char>>) -> Option<ZonedTime> {
    match v {
        Some(s) => match spec_time_value(s) {
            Ok(t) => t,
            Err(_) => None,
        },
        None => None,
    }
}

/// The record a block determines, read field by field: each field is the
/// transform of the value of the last row bearing its label.
pub open spec fn outage_of_rows(rows: Seq<Seq<Seq<char>>>) -> OutageView {
    OutageView {
        outage_type: last_with_label(rows, "Outage Type:"@),
        locations: match last_with_label(rows, "Location:"@) {
            Some(s) => Some(spec_locations(s)),
            None => None,
        },
        estimated_start_time: time_of_value(last_with_label(rows, "Est. Start:"@)),
        estimated_restore_time: time_of_value(last_with_label(rows, "Est. Restore:"@)),
        cause: last_with_label(rows, "Cause:"@),
        customers_affected: last_with_label(rows, "Cust. Affected:"@),
        crew_status: last_with_label(rows, "Crew Status:"@),
    }
}

proof fn lemma_lookup_skip(rows: Seq<Seq<Seq<char>>>, label: Seq<char>)
    requires
        rows.len() > 0,
        rows.last()[0] != label,
    ensures
        last_with_label(rows, label) == last_with_label(rows.drop_last(), label),
{
}

/// The seven labels are pairwise distinct text.
proof fn lemma_labels_differ()
    ensures
        "Outage Type:"@ != "Location:"@,
        "Outage Type:"@ != "Est. Start:"@,
        "Outage Type:"@ != "Est. Restore:"@,
        "Outage Type:"@ != "Cause:"@,
        "Outage Type:"@ != "Cust. Affected:"@,
        "Outage Type:"@ != "Crew Status:"@,
        "Location:"@ != "Est. Start:"@,
        "Location:"@ != "Est. Restore:"@,
        "Location:"@ != "Cause:"@,
        "Location:"@ != "Cust. Affected:"@,
        "Location:"@ != "Crew Status:"@,
        "Est. Start:"@ != "Est. Restore:"@,
        "Est. Start:"@ != "Cause:"@,
        "Est. Start:"@ != "Cust. Affected:"@,
        "Est. Start:"@ != "Crew Status:"@,
        "Est. Restore:"@ != "Cause:"@,
        "Est. Restore:"@ != "Cust. Affected:"@,
        "Est. Restore:"@ != "Crew Status:"@,
        "Cause:"@ != "Cust. Affected:"@,
        "Cause:"@ != "Crew Status:"@,
        "Cust. Affected:"@ != "Crew Status:"@,
{
    reveal_strlit("Outage Type:");
    reveal_strlit("Location:");
    reveal_strlit("Est. Start:");
    reveal_strlit("Est. Restore:");
    reveal_strlit("Cause:");
    reveal_strlit("Cust. Affected:");
    reveal_strlit("Crew Status:");
    assert("Outage Type:"@.len() == 12 && "Location:"@.len() == 9 && "Est. Start:"@.len() == 11
        && "Est. Restore:"@.len() == 13 && "Cause:"@.len() == 6 && "Cust. Affected:"@.len() == 15
        && "Crew Status:"@.len() == 12);
    assert("Outage Type:"@[0] == 'O' && "Crew Status:"@[0] == 'C');
}

/// One acceptable row moves the by-label read exactly as the fold does.
#[verifier::rlimit(100)]
proof fn lemma_outage_of_rows_step(rows: Seq<Seq<Seq<char>>>)
    requires
        rows.len() > 0,
        row_ok(rows.last()),
    ensures
        spec_apply_row(outage_of_rows(rows.drop_last()), rows.last()) == Ok::<
            OutageView,
            ExtractErrorV,
        >(outage_of_rows(rows)),
{
    lemma_labels_differ();
    let prev = outage_of_rows(rows.drop_last());
    let last = rows.last();
    lemma_apply_row_ok_any(prev, last);
    let cur = match spec_apply_row(prev, last) {
        Ok(o) => o,
        Err(_) => prev,
    };
    let l0 = last[0];
    if l0 == "Outage Type:"@ {
        lemma_lookup_skip(rows, "Location:"@);
        lemma_lookup_skip(rows, "Est. Start:"@);
        lemma_lookup_skip(rows, "Est. Restore:"@);
        lemma_lookup_skip(rows, "Cause:"@);
        lemma_lookup_skip(rows, "Cust. Affected:"@);
        lemma_lookup_skip(rows, "Crew Status:"@);
        assert(outage_of_rows(rows) == cur);
    } else if l0 == "Location:"@ {
        lemma_lookup_skip(rows, "Outage Type:"@);
        lemma_lookup_skip(rows, "Est. Start:"@);
        lemma_lookup_skip(rows, "Est. Restore:"@);
        lemma_lookup_skip(rows, "Cause:"@);
        lemma_lookup_skip(rows, "Cust. Affected:"@);
        lemma_lookup_skip(rows, "Crew Status:"@);
        assert(outage_of_rows(rows) == cur);
    } else if l0 == "Est. Start:"@ {
        lemma_lookup_skip(rows, "Outage Type:"@);
        lemma_lookup_skip(rows, "Location:"@);
        lemma_lookup_skip(rows, "Est. Restore:"@);
        lemma_lookup_skip(rows, "Cause:"@);
        lemma_lookup_skip(rows, "Cust. Affected:"@);
        lemma_lookup_skip(rows, "Crew Status:"@);
        assert(outage_of_rows(rows) == cur);
    } else if l0 == "Est. Restore:"@ {
        lemma_lookup_skip(rows, "Outage Type:"@);
        lemma_lookup_skip(rows, "Location:"@);
        lemma_lookup_skip(rows, "Est. Start:"@);
        lemma_lookup_skip(rows, "Cause:"@);
        lemma_lookup_skip(rows, "Cust. Affected:"@);
        lemma_lookup_skip(rows, "Crew Status:"@);
        assert(outage_of_rows(rows) == cur);
    } else if l0 == "Cause:"@ {
        lemma_lookup_skip(rows, "Outage Type:"@);
        lemma_lookup_skip(rows, "Location:"@);
        lemma_lookup_skip(rows, "Est. Start:"@);
        lemma_lookup_skip(rows, "Est. Restore:"@);
        lemma_lookup_skip(rows, "Cust. Affected:"@);
        lemma_lookup_skip(rows, "Crew Status:"@);
        assert(outage_of_rows(rows) == cur);
    } else if l0 == "Cust. Affected:"@ {
        lemma_lookup_skip(rows, "Outage Type:"@);
        lemma_lookup_skip(rows, "Location:"@);
        lemma_lookup_skip(rows, "Est. Start:"@);
        lemma_lookup_skip(rows, "Est. Restore:"@);
        lemma_lookup_skip(rows, "Cause:"@);
        lemma_lookup_skip(rows, "Crew Status:"@);
        assert(outage_of_rows(rows) == cur);
    } else {
        assert(l0 == "Crew Status:"@);
        lemma_lookup_skip(rows, "Outage Type:"@);
        lemma_lookup_skip(rows, "Location:"@);
        lemma_lookup_skip(rows, "Est. Start:"@);
        lemma_lookup_skip(rows, "Est. Restore:"@);
        lemma_lookup_skip(rows, "Cause:"@);
        lemma_lookup_skip(rows, "Cust. Affected:"@);
        assert(outage_of_rows(rows) == cur);
    }
}

/// With every row acceptable, the fold computes exactly the by-label read:
/// dispatch goes by label content, not by position.
pub proof fn lemma_block_outage_by_labels(rows: Seq<Seq<Seq<char>>>)
    requires
        forall|i: int| 0 <= i < rows.len() ==> row_ok(#[trigger] rows[i]),
    ensures
        spec_block_outage(rows) == Ok::<OutageView, ExtractErrorV>(outage_of_rows(rows)),
    decreases rows.len(),
{
    if rows.len() > 0 {
        assert(forall|i: int|
            0 <= i < rows.drop_last().len() ==> row_ok(#[trigger] rows.drop_last()[i]));
        lemma_block_outage_by_labels(rows.drop_last());
        assert(row_ok(rows[rows.len() - 1]));
        lemma_outage_of_rows_step(rows);
    }
}

proof fn lemma_last_with_label_witness(rows: Seq<Seq<Seq<char>>>, label: Seq<char>)
    requires
        last_with_label(rows, label) is Some,
    ensures
        exists|row: Seq<Seq<char>>|
            #[trigger] rows.contains(row) && row[0] == label && Some(row[1]) == last_with_label(
                rows,
                label,
            ),
    decreases rows.len(),
{
    if rows.last()[0] == label {
        let row = rows.last();
        assert(rows[rows.len() - 1] == row);
        assert(rows.contains(row));
    } else {
        lemma_last_with_label_witness(rows.drop_last(), label);
        let row = choose|row: Seq<Seq<char>>|
            #[trigger] rows.drop_last().contains(row) && row[0] == label && Some(row[1])
                == last_with_label(rows.drop_last(), label);
        let i = choose|i: int| 0 <= i < rows.drop_last().len() && rows.drop_last()[i] == row;
        assert(rows[i] == row);
        assert(rows.contains(row));
    }
}

proof fn lemma_last_with_label_of_contained(
    rows: Seq<Seq<Seq<char>>>,
    row: Seq<Seq<char>>,
    label: Seq<char>,
)
    requires
        labels_distinct(rows),
        rows.contains(row),
        row[0] == label,
    ensures
        last_with_label(rows, label) == Some(row[1]),
    decreases rows.len(),
{
    let i = choose|i: int| 0 <= i < rows.len() && rows[i] == row;
    if rows.last()[0] == label {
        if i < rows.len() - 1 {
            assert(rows[i][0] != rows[rows.len() - 1][0]);
            assert(false);
        }
    } else {
        assert(i != rows.len() - 1);
        assert(rows.drop_last()[i] == rows[i]);
        assert(rows.drop_last().contains(row));
        assert(labels_distinct(rows.drop_last())) by {
            assert(forall|a: int, b: int|
                #![trigger rows.drop_last()[a], rows.drop_last()[b]]
                0 <= a < b < rows.drop_last().len() ==> rows.drop_last()[a] == rows[a]
                    && rows.drop_last()[b] == rows[b]);
        }
        lemma_last_with_label_of_contained(rows.drop_last(), row, label);
    }
}

proof fn lemma_lookup_agrees(
    rows1: Seq<Seq<Seq<char>>>,
    rows2: Seq<Seq<Seq<char>>>,
    label: Seq<char>,
)
    requires
        rows1.to_multiset() == rows2.to_multiset(),
        labels_distinct(rows1),
        labels_distinct(rows2),
    ensures
        last_with_label(rows1, label) == last_with_label(rows2, label),
{
    broadcast use vstd::seq_lib::group_to_multiset_ensures;

    if last_with_label(rows1, label) is Some {
        lemma_last_with_label_witness(rows1, label);
        let row = choose|row: Seq<Seq<char>>|
            #[trigger] rows1.contains(row) && row[0] == label && Some(row[1]) == last_with_label(
                rows1,
                label,
            );
        assert(rows1.to_multiset().count(row) > 0);
        assert(rows2.contains(row));
        lemma_last_with_label_of_contained(rows2, row, label);
    } else if last_with_label(rows2, label) is Some {
        lemma_last_with_label_witness(rows2, label);
        let row = choose|row: Seq<Seq<char>>|
            #[trigger] rows2.contains(row) && row[0] == label && Some(row[1]) == last_with_label(
                rows2,
                label,
            );
        assert(rows2.to_multiset().count(row) > 0);
        assert(rows1.contains(row));
        lemma_last_with_label_of_contained(rows1, row, label);
        assert(false);
    }
}

/// Rows may come in any order within a block: two blocks holding the same
/// rows, with pairwise distinct labels and every row acceptable, build the
/// same record. (Where a label repeats, the later row wins, so order does
/// matter: such blocks are out of scope here.)
pub proof fn lemma_row_order_irrelevant(rows1: Seq<Seq<Seq<char>>>, rows2: Seq<Seq<Seq<char>>>)
    requires
        rows1.to_multiset() == rows2.to_multiset(),
        labels_distinct(rows1),
        forall|i: int| 0 <= i < rows1.len() ==> row_ok(#[trigger] rows1[i]),
    ensures
        spec_block_outage(rows1) == spec_block_outage(rows2),
{
    broadcast use vstd::seq_lib::group_to_multiset_ensures;

    assert(rows1.no_duplicates()) by {
        assert forall|i: int, j: int|
            0 <= i < rows1.len() && 0 <= j < rows1.len() && i != j implies rows1[i] != rows1[j] by {
            if i < j {
                assert(rows1[i][0] != rows1[j][0]);
            } else {
                assert(rows1[j][0] != rows1[i][0]);
            }
        }
    }
    rows1.lemma_multiset_has_no_duplicates();
    rows2.lemma_multiset_has_no_duplicates_conv();
    assert forall|i: int| 0 <= i < rows2.len() implies row_ok(#[trigger] rows2[i]) by {
        assert(rows2.to_multiset().count(rows2[i]) > 0);
        assert(rows1.contains(rows2[i]));
        let j = choose|j: int| 0 <= j < rows1.len() && rows1[j] == rows2[i];
        assert(row_ok(rows1[j]));
    }
    assert(labels_distinct(rows2)) by {
        assert forall|i: int, j: int|
            #![trigger rows2[i], rows2[j]]
            0 <= i < j < rows2.len() implies rows2[i][0] != rows2[j][0] by {
            if rows2[i][0] == rows2[j][0] {
                assert(rows2[i] != rows2[j]);
                assert(rows2.to_multiset().count(rows2[i]) > 0);
                assert(rows2.to_multiset().count(rows2[j]) > 0);
                assert(rows1.contains(rows2[i]));
                assert(rows1.contains(rows2[j]));
                let a = choose|a: int| 0 <= a < rows1.len() && rows1[a] == rows2[i];
                let b = choose|b: int| 0 <= b < rows1.len() && rows1[b] == rows2[j];
                assert(a != b);
                if a < b {
                    assert(rows1[a][0] != rows1[b][0]);
                } else {
                    assert(rows1[b][0] != rows1[a][0]);
                }
                assert(false);
            }
        }
    }
    lemma_block_outage_by_labels(rows1);
    lemma_block_outage_by_labels(rows2);
    lemma_lookup_agrees(rows1, rows2, "Outage Type:"@);
    lemma_lookup_agrees(rows1, rows2, "Location:"@);
    lemma_lookup_agrees(rows1, rows2, "Est. Start:"@);
    lemma_lookup_agrees(rows1, rows2, "Est. Restore:"@);
    lemma_lookup_agrees(rows1, rows2, "Cause:"@);
    lemma_lookup_agrees(rows1, rows2, "Cust. Affected:"@);
    lemma_lookup_agrees(rows1, rows2, "Crew Status:"@);
}

/// The blocks of an HTML document: for each element of class
/// `info-content`, in document order, for each descendant of class `row`
/// within it, the text of each immediate `div` child, the cell's text
/// nodes joined by single spaces. Lenient, browser-grade HTML parsing
/// makes this a function of the document text alone.
pub uninterp spec fn blocks_of(html: Seq<char>) -> Seq<Seq<Seq<Seq<char>>>>;

/// Relies on scraper's `Html::parse_document`, `Selector` matching and
/// `ElementRef::text` to walk the document as `blocks_of` describes.
#[verifier::external_body]
fn html_block_cells(html: &str) -> (r: Vec<Vec<Vec<String>>>)
    ensures
        r.deep_view() == blocks_of(html@),
{
    let block_sel = scraper::Selector::parse(".info-content").unwrap();
    let row_sel = scraper::Selector::parse(".row").unwrap();
    let cell_sel = scraper::Selector::parse(":scope > div").unwrap();
    let doc = scraper::Html::parse_document(html);
    doc.select(&block_sel).map(|b| {
        b.select(&row_sel).map(|row| {
            row.select(&cell_sel)
                .map(|c| c.text().collect::<Vec<&str>>().join(" "))
                .collect()
        }).collect()
    }).collect()
}

/// Extracts every outage block of an HTML document, in document order.
#[verifier::rlimit(50)]
pub fn extract_outages(html: &str) -> (r: Result<Vec<Outage>, ExtractError>)
    ensures
        (match r {
            Ok(v) => spec_extract(blocks_of(html@)) == Ok::<Seq<OutageView>, ExtractErrorV>(
                v.deep_view(),
            ),
            Err(e) => spec_extract(blocks_of(html@)) == Err::<Seq<OutageView>, ExtractErrorV>(
                e@,
            ),
        }),
{
    let blocks = html_block_cells(html);
    let bv = Ghost(blocks.deep_view());
    let mut out: Vec<Outage> = Vec::new();
    proof {
        assert(bv@.take(0) =~= Seq::<Seq<Seq<Seq<char>>>>::empty());
        assert(Seq::<OutageView>::empty() =~= out.deep_view());
    }
    let mut i: usize = 0;
    while i < blocks.len()
        invariant
            i <= blocks.len(),
            bv@ == blocks.deep_view(),
            bv@ == blocks_of(html@),
            bv@.len() == blocks@.len(),
            spec_extract(bv@.take(i as int)) == Ok::<Seq<OutageView>, ExtractErrorV>(
                out.deep_view(),
            ),
        decreases blocks.len() - i,
    {
        proof {
            assert(bv@[i as int] == blocks@[i as int].deep_view());
        }
        match block_outage(&blocks[i]) {
            Ok(o) => {
                let ghost prev = out.deep_view();
                let ghost ov = o@;
                out.push(o);
                i = i + 1;
                proof {
                    assert(out.deep_view() =~= prev.push(ov));
                    assert(bv@.take(i as int).drop_last() =~= bv@.take(i as int - 1));
                    assert(bv@.take(i as int).last() == bv@[i as int - 1]);
                }
            },
            Err(e) => {
                proof {
                    assert(bv@.take(i as int + 1).drop_last() =~= bv@.take(i as int));
                    assert(bv@.take(i as int + 1).last() == bv@[i as int]);
                    lemma_extract_err_extends(bv@, i as int + 1);
                }
                return Err(e);
            },
        }
    }
    proof {
        assert(bv@.take(blocks@.len() as int) =~= bv@);
    }
    Ok(out)
}

} // verus!
