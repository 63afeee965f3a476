//! Report rendering: turns the grouped report into the printed text, one
//! styled table per revision, through the comfy_table crate.
//!
//! The text inside a table is comfy_table's to draw (it styles cells
//! depending on whether standard output is a terminal), so nothing is
//! claimed of it; what IS verified is which cells go into each table - the
//! workload names and formatted statistics, in report order - and the exact
//! scaffolding around the tables, including the explicit text shown when
//! there are no results at all.

use vstd::prelude::*;

verus! {

use crate::format::{format_number, spec_formatted};
use crate::report::{Report, ReportRow, RevisionSection};

/// comfy_table's table type, opaque to the verifier.
#[verifier::external_type_specification]
#[verifier::external_body]
pub struct ExTable(comfy_table::Table);

/// The header cells a table was given.
pub uninterp spec fn table_header(t: &comfy_table::Table) -> Seq<Seq<char>>;

/// The rows a table holds: for each row, its cell texts in order.
pub uninterp spec fn table_rows(t: &comfy_table::Table) -> Seq<Seq<Seq<char>>>;

/// Relies on comfy_table's Table::new: a fresh table has no header and no
/// rows.
#[verifier::external_body]
fn new_table() -> (t: comfy_table::Table)
    ensures
        table_header(&t) == Seq::<Seq<char>>::empty(),
        table_rows(&t) == Seq::<Seq<Seq<char>>>::empty(),
{
    comfy_table::Table::new()
}

/// Relies on comfy_table's Table::load_style (with the UTF8_FULL preset,
/// rounded corners): it replaces the border style only, leaving header and
/// rows as they are.
#[verifier::external_body]
fn style_table(t: &mut comfy_table::Table)
    ensures
        table_header(final(t)) == table_header(old(t)),
        table_rows(final(t)) == table_rows(old(t)),
{
    t.load_style(comfy_table::presets::UTF8_FULL.with_rounded_corners());
}

/// Relies on comfy_table's Table::set_header and Cell::new / Cell::fg: it
/// stores the given texts as the header cells (here with a fixed color per
/// column) and does not touch the rows.
#[verifier::external_body]
fn set_table_header(t: &mut comfy_table::Table, names: &Vec<String>)
    ensures
        table_header(final(t)) == names@.map_values(|n: String| n@),
        table_rows(final(t)) == table_rows(old(t)),
{
    let colors = [
        comfy_table::Color::Cyan,
        comfy_table::Color::Green,
        comfy_table::Color::Red,
        comfy_table::Color::Yellow,
        comfy_table::Color::Blue,
    ];
    let cells: Vec<comfy_table::Cell> = names
        .iter()
        .zip(colors.iter().cycle())
        .map(|(n, c)| comfy_table::Cell::new(n).fg(*c))
        .collect();
    t.set_header(cells);
}

/// Relies on comfy_table's Table::add_row and Cell::new: it appends one row
/// holding exactly the given cell texts and leaves the header alone.
#[verifier::external_body]
fn add_table_row(t: &mut comfy_table::Table, cells: &Vec<String>)
    ensures
        table_header(final(t)) == table_header(old(t)),
        table_rows(final(t)) == table_rows(old(t)).push(cells@.map_values(|c: String| c@)),
{
    let row: Vec<comfy_table::Cell> = cells.iter().map(comfy_table::Cell::new).collect();
    t.add_row(row);
}

/// Relies on comfy_table's Display for Table. The drawn text depends on the
/// style and on whether standard output is a terminal, so nothing is
/// promised of it beyond being some text.
#[verifier::external_body]
fn render_table(t: &comfy_table::Table) -> (r: String)
    ensures
        r@.len() >= 0,
{
    format!("{}", t)
}

/// The column headers of every revision's table.
pub open spec fn header_texts() -> Seq<Seq<char>> {
    seq!["Benchmark"@, "Best (ns)"@, "Worst (ns)"@, "Median (ns)"@, "Avg (ns)"@]
}

/// The cell texts of one report row: the workload name and the four
/// statistics with digit grouping.
pub open spec fn row_cells(row: ReportRow) -> Seq<Seq<char>> {
    seq![
        row.workload@,
        spec_formatted(row.best),
        spec_formatted(row.worst),
        spec_formatted(row.median),
        spec_formatted(row.average),
    ]
}

/// The text shown in place of a table when a run produced no results.
pub open spec fn empty_report_text() -> Seq<char> {
    "\nNo results to display.\n"@
}

/// The scaffolding of a report around its drawn tables: for each section
/// in order, a title line naming the revision, that section's table text,
/// and a blank separator line.
pub open spec fn report_text(secs: Seq<RevisionSection>, ts: Seq<Seq<char>>) -> Seq<char>
    decreases secs.len(),
{
    if secs.len() == 0 {
        Seq::empty()
    } else {
        report_text(secs.drop_last(), ts.drop_last()) + "Commit: "@ + secs.last().revision@
            + "\n"@ + ts.last() + "\n\n"@
    }
}

/// Builds the table of one revision section: the fixed header, then one
/// row per report row, in order, each holding the workload name and the
/// four formatted statistics.
pub fn build_section_table(sec: &RevisionSection) -> (t: comfy_table::Table)
    ensures
        table_header(&t) == header_texts(),
        table_rows(&t) == sec.rows@.map_values(|row: ReportRow| row_cells(row)),
{
    let mut t = new_table();
    style_table(&mut t);
    let mut names: Vec<String> = Vec::new();
    names.push("Benchmark".to_owned());
    names.push("Best (ns)".to_owned());
    names.push("Worst (ns)".to_owned());
    names.push("Median (ns)".to_owned());
    names.push("Avg (ns)".to_owned());
    set_table_header(&mut t, &names);
    proof {
        assert(names@.map_values(|n: String| n@) =~= header_texts());
    }
    let mut ri: usize = 0;
    while ri < sec.rows.len()
        invariant
            0 <= ri <= sec.rows@.len(),
            table_header(&t) == header_texts(),
            table_rows(&t) == sec.rows@.take(ri as int).map_values(
                |row: ReportRow| row_cells(row),
            ),
        decreases sec.rows@.len() - ri,
    {
        let row = &sec.rows[ri];
        let mut cells: Vec<String> = Vec::new();
        cells.push(row.workload.clone());
        cells.push(format_number(row.best));
        cells.push(format_number(row.worst));
        cells.push(format_number(row.median));
        cells.push(format_number(row.average));
        add_table_row(&mut t, &cells);
        proof {
            assert(cells@.map_values(|c: String| c@) =~= row_cells(sec.rows@[ri as int]));
            assert(sec.rows@.take(ri + 1 as int).map_values(|row: ReportRow| row_cells(row))
                =~= sec.rows@.take(ri as int).map_values(|row: ReportRow| row_cells(row)).push(
                row_cells(sec.rows@[ri as int]),
            ));
        }
        ri += 1;
    }
    proof {
        assert(sec.rows@.take(sec.rows@.len() as int) =~= sec.rows@);
    }
    t
}

/// Renders the whole report: an explicit notice when there are no results,
/// otherwise one titled table per revision, in report order. The table
/// texts themselves are comfy_table's, so they stand existentially; the
/// scaffolding around them is exact.
pub fn render_report(rep: &Report) -> (out: String)
    ensures
        rep.sections@.len() == 0 ==> out@ == empty_report_text(),
        rep.sections@.len() > 0 ==> exists|ts: Seq<Seq<char>>|
            ts.len() == rep.sections@.len() && out@ == "\n\n"@ + report_text(rep.sections@, ts),
        rep.sections@.len() > 0 ==> out@ != empty_report_text(),
        out@.len() > 0,
{
    let mut out = String::new();
    if rep.sections.len() == 0 {
        out.push_str("\nNo results to display.\n");
        proof {
            assert(Seq::<char>::empty() + "\nNo results to display.\n"@ =~= empty_report_text());
            reveal_strlit("\nNo results to display.\n");
        }
        return out;
    }
    out.push_str("\n\n");
    let ghost mut ts = Seq::<Seq<char>>::empty();
    proof {
        reveal_strlit("\n\n");
        assert((Seq::<char>::empty() + "\n\n"@)[1] == '\n');
        assert(out@ =~= "\n\n"@ + report_text(rep.sections@.take(0), ts));
    }
    let mut si: usize = 0;
    while si < rep.sections.len()
        invariant
            0 <= si <= rep.sections@.len(),
            ts.len() == si,
            out@ == "\n\n"@ + report_text(rep.sections@.take(si as int), ts),
            out@.len() >= 2,
            out@[1] == '\n',
        decreases rep.sections@.len() - si,
    {
        let ghost ts0 = ts;
        let sec = &rep.sections[si];
        out.push_str("Commit: ");
        out.push_str(sec.revision.as_str());
        out.push_str("\n");
        let table = build_section_table(sec);
        let text = render_table(&table);
        out.push_str(text.as_str());
        out.push_str("\n\n");
        proof {
            ts = ts.push(text@);
            let taken = rep.sections@.take(si + 1 as int);
            assert(taken.drop_last() =~= rep.sections@.take(si as int));
            assert(ts.drop_last() =~= ts0);
            assert(taken.last() == rep.sections@[si as int]);
            assert(report_text(taken, ts) == report_text(rep.sections@.take(si as int), ts0)
                + "Commit: "@ + sec.revision@ + "\n"@ + text@ + "\n\n"@);
            assert(out@ =~= "\n\n"@ + report_text(taken, ts));
        }
        si += 1;
    }
    proof {
        assert(rep.sections@.take(rep.sections@.len() as int) =~= rep.sections@);
        assert(ts.len() == rep.sections@.len() && out@ == "\n\n"@ + report_text(
            rep.sections@,
            ts,
        ));
        reveal_strlit("\nNo results to display.\n");
        assert(empty_report_text()[1] == 'N');
        assert(out@[1] != empty_report_text()[1]);
    }
    out
}

} // verus!
