//! CMU DSL-StrongPasswordData.csv (Killourhy & Maxion): one fixed password
//! typed many times, with keydown-keydown (`DD.*.*`) times in seconds.
use vstd::prelude::*;
use crate::import::{column_index, header_names, last_header, lemma_last_header};
use crate::import::formats::{csv_table_of, read_csv, records_view, strings_view};
use crate::text::{chars_of, string_from};

verus! {

/// The fixed password in the CMU DSL strong-password dataset.
pub const PHRASE: &'static str = ".tie5Roanl";

/// The adjacent-digraph `DD` columns used, in order, one per digraph of
/// `PHRASE` (the final `DD.l.Return` column is left out, since `PHRASE` does
/// not include Return).
pub open spec fn dd_column_names() -> Seq<Seq<char>> {
    seq![
        "DD.period.t"@,
        "DD.t.i"@,
        "DD.i.e"@,
        "DD.e.five"@,
        "DD.five.Shift.r"@,
        "DD.Shift.r.o"@,
        "DD.o.a"@,
        "DD.a.n"@,
        "DD.n.l"@,
    ]
}

/// The `DD` columns give one time per digraph of `PHRASE`: there is one
/// column fewer than the phrase has characters.
pub proof fn dd_columns_fit_phrase()
    ensures
        dd_column_names().len() + 1 == PHRASE@.len(),
{
    reveal_strlit(".tie5Roanl");
}

/// The required columns that the header row lacks, in order.
pub open spec fn missing_columns(headers: Seq<Seq<char>>, names: Seq<Seq<char>>) -> Seq<Seq<char>>
    decreases names.len(),
{
    if names.len() == 0 {
        Seq::empty()
    } else {
        let prev = missing_columns(headers, names.drop_last());
        if last_header(headers, names.last()) is None {
            prev.push(names.last())
        } else {
            prev
        }
    }
}

fn dd_column_name(i: usize) -> (r: &'static str)
    requires
        i < 9,
    ensures
        r@ == dd_column_names()[i as int],
{
    if i == 0 {
        "DD.period.t"
    } else if i == 1 {
        "DD.t.i"
    } else if i == 2 {
        "DD.i.e"
    } else if i == 3 {
        "DD.e.five"
    } else if i == 4 {
        "DD.five.Shift.r"
    } else if i == 5 {
        "DD.Shift.r.o"
    } else if i == 6 {
        "DD.o.a"
    } else if i == 7 {
        "DD.a.n"
    } else {
        "DD.n.l"
    }
}

/// Locate the `DD` columns in the header row: their positions in order, or
/// the names of those that are missing. A name that occurs twice is taken
/// from its last occurrence.
pub fn dd_columns(headers: &[String]) -> (r: Result<Vec<usize>, Vec<String>>)
    ensures
        ({
            let hv = header_names(headers@, false);
            let missing = missing_columns(hv, dd_column_names());
            &&& missing.len() > 0 ==> (r matches Err(m) && m@.map_values(|s: String| s@)
                == missing)
            &&& missing.len() == 0 ==> (r matches Ok(idx) && idx@.len() == 9 && forall|i: int|
                0 <= i < 9 ==> last_header(hv, dd_column_names()[i]) == Some(
                    #[trigger] idx@[i] as int,
                ))
        }),
{
    let ghost hv = header_names(headers@, false);
    let ghost names = dd_column_names();
    let mut idx: Vec<usize> = Vec::new();
    let mut missing: Vec<String> = Vec::new();
    for i in 0..9
        invariant
            hv == header_names(headers@, false),
            names == dd_column_names(),
            missing@.map_values(|s: String| s@) == missing_columns(hv, names.take(i as int)),
            missing@.len() == 0 ==> idx@.len() == i && forall|j: int|
                0 <= j < i ==> last_header(hv, names[j]) == Some(#[trigger] idx@[j] as int),
    {
        assert(names.take(i + 1).drop_last() =~= names.take(i as int));
        let name = dd_column_name(i);
        let nc = chars_of(name);
        match column_index(headers, nc.as_slice(), false) {
            Some(k) => {
                if missing.len() == 0 {
                    idx.push(k);
                }
            },
            None => {
                let ghost old_missing = missing@;
                missing.push(string_from(nc.as_slice()));
                assert(missing@.map_values(|s: String| s@) =~= old_missing.map_values(
                    |s: String| s@,
                ).push(names[i as int]));
            },
        }
    }
    assert(names.take(9) =~= names);
    if missing.len() > 0 {
        Err(missing)
    } else {
        Ok(idx)
    }
}


/// Why the `DD` cells of a CMU table could not be read.
#[derive(Debug)]
pub enum CmuDslError {
    /// The data is not a CSV table.
    Csv(csv::Error),
    /// The header row lacks these `DD` columns.
    MissingColumns(Vec<String>),
}

/// The `DD` cells of a table: for each record, its fields in the columns
/// named by `dd_column_names()`, in that order.
pub open spec fn dd_cells_spec(hs: Seq<Seq<char>>, recs: Seq<Seq<Seq<char>>>) -> Seq<Seq<Seq<char>>> {
    recs.map_values(
        |rec: Seq<Seq<char>>|
            Seq::new(
                9,
                |j: int|
                    match last_header(hs, dd_column_names()[j]) {
                        Some(c) => rec[c],
                        None => Seq::empty(),
                    },
            ),
    )
}

/// Read the CMU CSV table and take the `DD` cells of every record (times in
/// seconds, as written); the caller parses the numbers.
pub fn dd_cells(bytes: &[u8]) -> (r: Result<Vec<Vec<String>>, CmuDslError>)
    ensures
        match csv_table_of(bytes@) {
            None => r matches Err(CmuDslError::Csv(_)),
            Some((hs, recs)) => {
                let missing = missing_columns(hs, dd_column_names());
                &&& missing.len() > 0 ==> (r matches Err(CmuDslError::MissingColumns(m))
                    && strings_view(m@) == missing)
                &&& missing.len() == 0 ==> (r matches Ok(cells) && records_view(cells@)
                    == dd_cells_spec(hs, recs))
            },
        },
{
    let (headers, records) = match read_csv(bytes) {
        Ok(t) => t,
        Err(e) => {
            return Err(CmuDslError::Csv(e));
        },
    };
    let ghost hs = strings_view(headers@);
    let ghost recs = records_view(records@);
    assert(header_names(headers@, false) =~= hs);
    let cols = match dd_columns(headers.as_slice()) {
        Ok(c) => c,
        Err(m) => {
            return Err(CmuDslError::MissingColumns(m));
        },
    };
    let ghost names = dd_column_names();
    assert forall|j: int| 0 <= j < 9 implies #[trigger] cols@[j] < headers@.len() by {
        lemma_last_header(hs, names[j]);
    }
    let mut out: Vec<Vec<String>> = Vec::new();
    for i in 0..records.len()
        invariant
            hs == strings_view(headers@),
            recs == records_view(records@),
            names == dd_column_names(),
            cols@.len() == 9,
            forall|j: int| 0 <= j < 9 ==> last_header(hs, names[j]) == Some(#[trigger] cols@[j] as int),
            forall|j: int| 0 <= j < 9 ==> #[trigger] cols@[j] < headers@.len(),
            forall|m: int| 0 <= m < records@.len() ==> (#[trigger] records@[m])@.len() == headers@.len(),
            records_view(out@) == dd_cells_spec(hs, recs).take(i as int),
    {
        let rec = &records[i];
        let mut cells: Vec<String> = Vec::new();
        for j in 0..9
            invariant
                rec@.len() == headers@.len(),
                cols@.len() == 9,
                forall|j: int| 0 <= j < 9 ==> #[trigger] cols@[j] < headers@.len(),
                cells@.len() == j,
                forall|m: int| 0 <= m < j ==> (#[trigger] cells@[m])@ == rec@[cols@[m] as int]@,
        {
            cells.push(rec[cols[j]].clone());
        }
        let ghost row = dd_cells_spec(hs, recs)[i as int];
        assert(strings_view(cells@) =~= row) by {
            assert(recs[i as int] == strings_view(rec@));
            assert forall|j: int| 0 <= j < 9 implies strings_view(cells@)[j] == row[j] by {
                assert(last_header(hs, names[j]) == Some(cols@[j] as int));
            }
        }
        let ghost prev = out@;
        out.push(cells);
        assert(records_view(out@) =~= records_view(prev).push(row));
        assert(dd_cells_spec(hs, recs).take(i + 1) =~= dd_cells_spec(hs, recs).take(i as int).push(row));
    }
    assert(dd_cells_spec(hs, recs).take(records@.len() as int) =~= dd_cells_spec(hs, recs));
    Ok(out)
}

} // verus!
