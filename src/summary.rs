//! Rows of the summary view, whose columns the schema owns, as ordered mappings
//! from column name to a dynamically typed value.
use vstd::prelude::*;
use crate::store::DatabaseClient;

verus! {

/// A value of the summary view.
#[derive(Debug)]
pub enum SummaryValue {
    Null,
    Integer(i64),
    /// A number that is not an integer, in decimal notation.
    Number(String),
    Text(String),
    Boolean(bool),
    /// Milliseconds since the Unix epoch.
    Timestamp(i64),
    /// A structured value, as JSON text.
    Structured(String),
}

/// One column of a row as read from the view: `None` where the value could not
/// be decoded.
#[derive(Debug)]
pub struct SummaryCell {
    pub column: String,
    pub value: Option<SummaryValue>,
}

/// One column of a summary mapping.
#[derive(Debug)]
pub struct SummaryEntry {
    pub column: String,
    pub value: SummaryValue,
}

impl SummaryValue {
    /// An exact copy of this value.
    pub fn duplicate(&self) -> (r: SummaryValue)
        ensures
            r == *self,
    {
        match self {
            SummaryValue::Null => SummaryValue::Null,
            SummaryValue::Integer(i) => SummaryValue::Integer(*i),
            SummaryValue::Number(s) => SummaryValue::Number(s.clone()),
            SummaryValue::Text(s) => SummaryValue::Text(s.clone()),
            SummaryValue::Boolean(b) => SummaryValue::Boolean(*b),
            SummaryValue::Timestamp(t) => SummaryValue::Timestamp(*t),
            SummaryValue::Structured(s) => SummaryValue::Structured(s.clone()),
        }
    }
}

/// The value a cell contributes: null where it could not be decoded.
pub open spec fn cell_value(c: SummaryCell) -> SummaryValue {
    match c.value {
        Some(v) => v,
        None => SummaryValue::Null,
    }
}

/// The value of the last cell named `column`.
pub open spec fn latest_value(cells: Seq<SummaryCell>, column: Seq<char>) -> SummaryValue
    decreases cells.len(),
{
    if cells.len() == 0 {
        SummaryValue::Null
    } else if cells.last().column@ == column {
        cell_value(cells.last())
    } else {
        latest_value(cells.drop_last(), column)
    }
}

/// `entries` maps each column name of `cells`, once, to the value of its last
/// cell.
#[verifier::opaque]
pub open spec fn is_row_mapping(cells: Seq<SummaryCell>, entries: Seq<SummaryEntry>) -> bool {
    &&& forall|i: int, j: int|
        0 <= i < j < entries.len() ==> (#[trigger] entries[i]).column@ != (#[trigger] entries[j]).column@
    &&& forall|j: int|
        0 <= j < entries.len() ==> exists|m: int|
            0 <= m < cells.len() && (#[trigger] cells[m]).column@ == (#[trigger] entries[j]).column@
    &&& forall|m: int|
        0 <= m < cells.len() ==> exists|j: int|
            0 <= j < entries.len() && (#[trigger] entries[j]).column@ == (#[trigger] cells[m]).column@
    &&& forall|j: int|
        0 <= j < entries.len() ==> (#[trigger] entries[j]).value == latest_value(cells, entries[j].column@)
}

/// `out` holds one mapping per row of `rows`, in the same order.
pub open spec fn is_summary(rows: Seq<Vec<SummaryCell>>, out: Seq<Vec<SummaryEntry>>) -> bool {
    &&& out.len() == rows.len()
    &&& forall|i: int| 0 <= i < rows.len() ==> is_row_mapping(#[trigger] rows[i]@, out[i]@)
}

/// A cell whose column is already mapped replaces that column's value.
proof fn lemma_replace(
    pre: Seq<SummaryCell>,
    cell: SummaryCell,
    entries: Seq<SummaryEntry>,
    j: int,
    value: SummaryValue,
)
    requires
        is_row_mapping(pre, entries),
        value == cell_value(cell),
        0 <= j < entries.len(),
        entries[j].column@ == cell.column@,
    ensures
        is_row_mapping(pre.push(cell), entries.update(j, SummaryEntry { column: entries[j].column, value })),
{
    reveal(is_row_mapping);
    let post = pre.push(cell);
    let ne = SummaryEntry { column: entries[j].column, value };
    let e = entries.update(j, ne);
    assert(post.drop_last() =~= pre);
    assert(e.len() == entries.len());
    assert(e[j] == ne);
    assert(forall|t: int| 0 <= t < e.len() && t != j ==> e[t] == entries[t]);
    assert(forall|t: int| 0 <= t < e.len() ==> (#[trigger] e[t]).column == entries[t].column);
    assert(forall|q: int| 0 <= q < pre.len() ==> #[trigger] post[q] == pre[q]);
    assert forall|a: int, b: int| 0 <= a < b < e.len() implies (#[trigger] e[a]).column@
        != (#[trigger] e[b]).column@ by {
        assert(entries[a].column@ != entries[b].column@);
    }
    assert forall|t: int| 0 <= t < e.len() implies exists|q: int|
        0 <= q < post.len() && (#[trigger] post[q]).column@ == (#[trigger] e[t]).column@ by {
        let q = choose|q: int| 0 <= q < pre.len() && (#[trigger] pre[q]).column@ == entries[t].column@;
        assert(post[q] == pre[q]);
    }
    assert forall|t: int| 0 <= t < e.len() implies (#[trigger] e[t]).value == latest_value(post, e[t].column@) by {
        if t != j {
            assert(entries[t].column@ != entries[j].column@);
        }
    }
}

/// A cell of a column not yet mapped adds that column at the end.
proof fn lemma_append(pre: Seq<SummaryCell>, cell: SummaryCell, entries: Seq<SummaryEntry>, value: SummaryValue)
    requires
        is_row_mapping(pre, entries),
        value == cell_value(cell),
        forall|t: int| 0 <= t < entries.len() ==> (#[trigger] entries[t]).column@ != cell.column@,
    ensures
        is_row_mapping(pre.push(cell), entries.push(SummaryEntry { column: cell.column, value })),
{
    reveal(is_row_mapping);
    let post = pre.push(cell);
    let e = entries.push(SummaryEntry { column: cell.column, value });
    let n = entries.len() as int;
    assert(post.drop_last() =~= pre);
    assert forall|a: int, b: int| 0 <= a < b < e.len() implies (#[trigger] e[a]).column@
        != (#[trigger] e[b]).column@ by {
        if b < n {
            assert(entries[a].column@ != entries[b].column@);
        }
    }
    assert forall|t: int| 0 <= t < e.len() implies exists|q: int|
        0 <= q < post.len() && (#[trigger] post[q]).column@ == (#[trigger] e[t]).column@ by {
        if t < n {
            let q = choose|q: int| 0 <= q < pre.len() && (#[trigger] pre[q]).column@ == entries[t].column@;
            assert(post[q] == pre[q]);
        } else {
            assert(post[pre.len() as int] == cell);
        }
    }
    assert forall|q: int| 0 <= q < post.len() implies exists|t: int|
        0 <= t < e.len() && (#[trigger] e[t]).column@ == (#[trigger] post[q]).column@ by {
        if q < pre.len() {
            assert(post[q] == pre[q]);
            let t = choose|t: int| 0 <= t < entries.len() && (#[trigger] entries[t]).column@ == pre[q].column@;
            assert(e[t] == entries[t]);
        } else {
            assert(e[n].column@ == post[q].column@);
        }
    }
    assert forall|t: int| 0 <= t < e.len() implies (#[trigger] e[t]).value == latest_value(post, e[t].column@) by {
        if t < n {
            assert(e[t] == entries[t]);
        }
    }
}

/// No later cell of `cells` has the column of cell `m`.
pub open spec fn last_of_column(cells: Seq<SummaryCell>, m: int) -> bool {
    forall|q: int| m < q < cells.len() ==> (#[trigger] cells[q]).column@ != cells[m].column@
}

/// The last cell of a column decides that column's value.
proof fn lemma_last_occurrence(cells: Seq<SummaryCell>, m: int)
    requires
        0 <= m < cells.len(),
        last_of_column(cells, m),
    ensures
        latest_value(cells, cells[m].column@) == cell_value(cells[m]),
    decreases cells.len(),
{
    if m < cells.len() - 1 {
        let rest = cells.drop_last();
        assert(cells.last() == cells[cells.len() - 1]);
        assert forall|q: int| m < q < rest.len() implies (#[trigger] rest[q]).column@ != rest[m].column@ by {
            assert(rest[q] == cells[q]);
        }
        lemma_last_occurrence(rest, m);
    }
}

/// Each row of the summary maps the columns of the row read from the view, and
/// nothing else, once each: a column's value is that of its last cell, which is
/// null where that cell could not be decoded.
pub proof fn lemma_row_mapping(cells: Seq<SummaryCell>, entries: Seq<SummaryEntry>)
    requires
        is_row_mapping(cells, entries),
    ensures
        forall|i: int, j: int|
            0 <= i < j < entries.len() ==> (#[trigger] entries[i]).column@ != (#[trigger] entries[j]).column@,
        forall|j: int|
            0 <= j < entries.len() ==> exists|m: int|
                0 <= m < cells.len() && (#[trigger] cells[m]).column@ == (#[trigger] entries[j]).column@,
        forall|m: int|
            0 <= m < cells.len() && #[trigger] last_of_column(cells, m) ==> exists|j: int|
                0 <= j < entries.len() && (#[trigger] entries[j]).column@ == cells[m].column@
                    && entries[j].value == cell_value(cells[m]),
{
    reveal(is_row_mapping);
    assert forall|m: int| 0 <= m < cells.len() && #[trigger] last_of_column(cells, m) implies exists|j: int|
        0 <= j < entries.len() && (#[trigger] entries[j]).column@ == cells[m].column@
            && entries[j].value == cell_value(cells[m]) by {
        lemma_last_occurrence(cells, m);
        let j = choose|j: int| 0 <= j < entries.len() && (#[trigger] entries[j]).column@ == (#[trigger] cells[m]).column@;
        assert(entries[j].value == latest_value(cells, entries[j].column@));
    }
}

/// The mapping of one row of the view.
pub fn row_mapping(cells: &Vec<SummaryCell>) -> (r: Vec<SummaryEntry>)
    ensures
        is_row_mapping(cells@, r@),
{
    let n = cells.len();
    let mut entries: Vec<SummaryEntry> = Vec::new();
    let mut m: usize = 0;
    proof {
        reveal(is_row_mapping);
    }
    while m < n
        invariant
            n == cells.len(),
            m <= n,
            is_row_mapping(cells@.subrange(0, m as int), entries@),
        decreases n - m,
    {
        let ghost pre = cells@.subrange(0, m as int);
        let ghost post = cells@.subrange(0, m as int + 1);
        let ghost old_entries = entries@;
        let cell = &cells[m];
        let value = match &cell.value {
            Some(v) => v.duplicate(),
            None => SummaryValue::Null,
        };
        proof {
            assert(value == cell_value(cells@[m as int]));
        }
        let k = entries.len();
        let mut j: usize = 0;
        let mut found = false;
        while j < k
            invariant
                k == entries.len(),
                entries@ == old_entries,
                j <= k,
                !found ==> forall|t: int| 0 <= t < j ==> (#[trigger] entries@[t]).column@ != cell.column@,
                found ==> j < k && entries@[j as int].column@ == cell.column@,
            ensures
                !found ==> forall|t: int| 0 <= t < k ==> (#[trigger] entries@[t]).column@ != cell.column@,
                found ==> j < k && entries@[j as int].column@ == cell.column@,
            decreases k - j,
        {
            if entries[j].column == cell.column {
                found = true;
                break;
            }
            j = j + 1;
        }
        if found {
            let column = entries[j].column.clone();
            entries.set(j, SummaryEntry { column, value });
        } else {
            entries.push(SummaryEntry { column: cell.column.clone(), value });
        }
        proof {
            assert(post =~= pre.push(cells@[m as int]));
            if found {
                lemma_replace(pre, cells@[m as int], old_entries, j as int, value);
            } else {
                lemma_append(pre, cells@[m as int], old_entries, value);
            }
        }
        m = m + 1;
    }
    proof {
        assert(cells@.subrange(0, n as int) =~= cells@);
    }
    entries
}

impl DatabaseClient {
    /// The summary: one mapping per row read from the view, in the order read.
    pub fn get_cluster_summary(rows: &Vec<Vec<SummaryCell>>) -> (r: Vec<Vec<SummaryEntry>>)
        ensures
            is_summary(rows@, r@),
    {
        let n = rows.len();
        let mut out: Vec<Vec<SummaryEntry>> = Vec::new();
        let mut i: usize = 0;
        while i < n
            invariant
                n == rows.len(),
                i <= n,
                out.len() == i,
                forall|t: int| 0 <= t < i ==> is_row_mapping(#[trigger] rows@[t]@, out@[t]@),
            decreases n - i,
        {
            let mapping = row_mapping(&rows[i]);
            out.push(mapping);
            i = i + 1;
        }
        out
    }
}

} // verus!
