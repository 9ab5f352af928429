//! `INSERT`, `UPDATE` and `DELETE` on in-memory tables.
//!
//! A statement is worked out as a whole before a row is touched, so one that fails changes
//! nothing. Expressions are evaluated batch by batch.

use crate::catalog::{
    column_named, field_index, files_of, mem_table_names, names_of_views, no_column_named, row_fits, row_vals,
    table_names, table_rows, writable, Catalog, MemTable,
};
use crate::ddl::{
    all_fit, cast_result, cast_value, count_result, eval_value_strict, only_catalog, query_failed, reports, rows_read, run_query_to_rows,
    session_ok, strict_value, Cell, Query,
};
use crate::error::{Code, Error};
use crate::exec::meaning::gave;
use crate::exec::{build_fault, flat, Chunk, ExecContext, Look};
use crate::expr::{
    holds_of, opt_prog, program_keep, program_value, programs_run_row_by_row, ColV, Program, ProgramV, Vm,
};
use crate::format::CodecHook;
use crate::plan::{Node, NodeV};
use crate::vector::{
    dup_fields, fields_of, kept, lemma_kept_step, name_bytes, Batch, Field, FieldV, Ty, Val, Value, Vector, BATCH_SIZE,
};
use vstd::prelude::*;

verus! {

// --- Rows of a table ----------------------------------------------------------------------

/// The rows of one table are replaced, and nothing else.
pub open spec fn rows_set(before: Catalog, after: Catalog, idx: int, rows: Seq<Seq<Val>>) -> bool {
    &&& 0 <= idx < before.mem@.len()
    &&& after.mem@ == before.mem@.update(idx, after.mem@[idx])
    &&& after.mem@[idx].name == before.mem@[idx].name
    &&& after.mem@[idx].schema == before.mem@[idx].schema
    &&& table_rows(after.mem@[idx].rows@) == rows
    &&& after.tables == before.tables
    &&& after.views == before.views
}

/// The rows of a table.
pub open spec fn rows_at(c: Catalog, idx: int) -> Seq<Seq<Val>> {
    table_rows(c.mem@[idx].rows@)
}

pub open spec fn schema_at(c: Catalog, idx: int) -> Seq<FieldV> {
    fields_of(c.mem@[idx].schema@)
}

fn set_rows(ctx: &mut ExecContext, idx: usize, rows: Vec<Vec<Value>>)
    requires
        session_ok(*old(ctx)),
        idx < old(ctx).catalog.mem@.len(),
        all_fit(table_rows(rows@), schema_at(old(ctx).catalog, idx as int)),
    ensures
        session_ok(*final(ctx)),
        only_catalog(*old(ctx), *final(ctx)),
        rows_set(old(ctx).catalog, final(ctx).catalog, idx as int, table_rows(rows@)),
        final(ctx).io == old(ctx).io,
        final(ctx).codec == old(ctx).codec,
{
    let ghost before = ctx.catalog;
    assert(before.mem@[idx as int].wf());
    if let Some(t) = ctx.catalog.mem_get_mut(idx) {
        t.rows = rows;
    }
    proof {
        let t = ctx.catalog.mem@[idx as int];
        assert(t.wf());
        assert forall|k: int| 0 <= k < ctx.catalog.mem@.len() implies (#[trigger] ctx.catalog.mem@[k]).wf() by {
            assert(before.mem@[k].wf());
        }
        assert(mem_table_names(ctx.catalog) =~= mem_table_names(before));
        assert(table_names(ctx.catalog) == table_names(before));
        assert(names_of_views(ctx.catalog) == names_of_views(before));
    }
}

fn dup_row(row: &Vec<Value>) -> (r: Vec<Value>)
    ensures
        row_vals(r@) == row_vals(row@),
        r@.len() == row@.len(),
{
    let mut r: Vec<Value> = Vec::new();
    let mut i: usize = 0;
    while i < row.len()
        invariant
            i <= row@.len(),
            r@.len() == i,
            forall|k: int| 0 <= k < i ==> (#[trigger] r@[k])@ == row@[k]@,
        decreases row@.len() - i,
    {
        r.push(row[i].dup());
        i = i + 1;
    }
    assert(row_vals(r@) =~= row_vals(row@));
    r
}

// --- INSERT -------------------------------------------------------------------------------

/// Which columns are filled: those named, in that order, or all of them.
pub open spec fn targets(schema: Seq<FieldV>, columns: Seq<String>, out: Seq<usize>) -> bool {
    if columns.len() == 0 {
        out == Seq::new(schema.len(), |i: int| i as usize)
    } else {
        &&& out.len() == columns.len()
        &&& forall|k: int|
            0 <= k < columns.len() ==> column_named(schema, name_bytes((#[trigger] columns[k])@), out[k] as int)
    }
}

pub open spec fn some_missing(schema: Seq<FieldV>, columns: Seq<String>) -> bool {
    exists|k: int| 0 <= k < columns.len() && no_column_named(schema, name_bytes((#[trigger] columns[k])@))
}

/// Finds the columns to be filled.
pub fn resolve_insert_columns(schema: &Vec<Field>, columns: &Vec<String>) -> (r: Result<Vec<usize>, Error>)
    ensures
        match r {
            Ok(out) => {
                &&& targets(fields_of(schema@), columns@, out@)
                &&& forall|k: int| 0 <= k < out@.len() ==> #[trigger] out@[k] < schema@.len()
            },
            Err(e) => some_missing(fields_of(schema@), columns@) && e.code == Code::ColumnNotFound,
        },
        r is Ok ==> !some_missing(fields_of(schema@), columns@),
{
    let mut out: Vec<usize> = Vec::new();
    let mut i: usize = 0;
    if columns.len() == 0 {
        while i < schema.len()
            invariant
                i <= schema@.len(),
                out@.len() == i,
                forall|k: int| 0 <= k < i ==> #[trigger] out@[k] == k,
            decreases schema@.len() - i,
        {
            out.push(i);
            i = i + 1;
        }
        assert(out@ =~= Seq::new(fields_of(schema@).len(), |i: int| i as usize));
        return Ok(out);
    }
    while i < columns.len()
        invariant
            i <= columns@.len(),
            out@.len() == i,
            forall|k: int|
                0 <= k < i ==> column_named(
                    fields_of(schema@),
                    name_bytes((#[trigger] columns@[k])@),
                    out@[k] as int,
                ),
            forall|k: int| 0 <= k < i ==> #[trigger] out@[k] < schema@.len(),
        decreases columns@.len() - i,
    {
        match field_index(schema.as_slice(), columns[i].as_str()) {
            Some(c) => {
                out.push(c);
            },
            None => {
                assert(no_column_named(fields_of(schema@), name_bytes(columns@[i as int]@)));
                return Err(Error::new(Code::ColumnNotFound));
            },
        }
        i = i + 1;
    }
    proof {
        if some_missing(fields_of(schema@), columns@) {
            let k = choose|k: int|
                0 <= k < columns@.len() && no_column_named(
                    fields_of(schema@),
                    name_bytes((#[trigger] columns@[k])@),
                );
            assert(column_named(fields_of(schema@), name_bytes(columns@[k]@), out@[k] as int));
            assert(fields_of(schema@)[out@[k] as int].name == fields_of(schema@)[out@[k] as int].name);
        }
    }
    Ok(out)
}

/// Whether a column that cannot be NULL is.
pub open spec fn null_misplaced(schema: Seq<FieldV>, row: Seq<Val>) -> bool {
    exists|c: int| 0 <= c < row.len() && !schema[c].nullable && (#[trigger] row[c]) is Null
}

/// Checks a whole row for NULLs in columns that cannot be NULL.
pub fn check_not_null(schema: &Vec<Field>, row: &Vec<Value>) -> (r: Result<(), Error>)
    requires
        row@.len() == schema@.len(),
    ensures
        match r {
            Ok(()) => !null_misplaced(fields_of(schema@), row_vals(row@)),
            Err(e) => null_misplaced(fields_of(schema@), row_vals(row@)) && e.code == Code::TypeMismatch,
        },
{
    let mut c: usize = 0;
    while c < row.len()
        invariant
            row@.len() == schema@.len(),
            c <= row@.len(),
            forall|k: int|
                0 <= k < c ==> fields_of(schema@)[k].nullable || !((#[trigger] row_vals(row@)[k]) is Null),
        decreases row@.len() - c,
    {
        if !schema[c].nullable && row[c].is_null() {
            assert(row_vals(row@)[c as int] is Null);
            assert(!fields_of(schema@)[c as int].nullable);
            return Err(Error::new(Code::TypeMismatch));
        }
        c = c + 1;
    }
    Ok(())
}

/// A row of NULLs.
pub open spec fn null_row(n: nat) -> Seq<Val> {
    Seq::new(n, |i: int| Val::Null)
}

fn nulls(n: usize) -> (r: Vec<Value>)
    ensures
        row_vals(r@) == null_row(n as nat),
        r@.len() == n,
{
    let mut r: Vec<Value> = Vec::new();
    let mut i: usize = 0;
    while i < n
        invariant
            i <= n,
            r@.len() == i,
            forall|k: int| 0 <= k < i ==> (#[trigger] r@[k])@ is Null,
        decreases n - i,
    {
        r.push(Value::Null);
        i = i + 1;
    }
    assert(row_vals(r@) =~= null_row(n as nat));
    r
}

/// A row to be inserted, with the first `k` values put in place. The columns that are not
/// filled are NULL.
pub open spec fn row_filled(
    schema: Seq<FieldV>,
    idx: Seq<usize>,
    vals: spec_fn(int) -> Result<Val, Code>,
    k: int,
) -> Result<
    Seq<Val>,
    Code,
>
    decreases k,
{
    if k <= 0 {
        Ok(null_row(schema.len()))
    } else {
        match row_filled(schema, idx, vals, k - 1) {
            Err(e) => Err(e),
            Ok(row) => match vals(k - 1) {
                Err(e) => Err(e),
                Ok(v) => Ok(row.update(idx[k - 1] as int, v)),
            },
        }
    }
}

proof fn lemma_fill_stays_failed(
    schema: Seq<FieldV>,
    idx: Seq<usize>,
    vals: spec_fn(int) -> Result<Val, Code>,
    k: int,
    n: int,
)
    requires
        0 <= k <= n,
        row_filled(schema, idx, vals, k) is Err,
    ensures
        row_filled(schema, idx, vals, n) == row_filled(schema, idx, vals, k),
    decreases n - k,
{
    if k < n {
        lemma_fill_stays_failed(schema, idx, vals, k + 1, n);
    }
}

/// A whole row to be inserted.
pub open spec fn row_made(schema: Seq<FieldV>, idx: Seq<usize>, vals: spec_fn(int) -> Result<Val, Code>) -> Result<
    Seq<Val>,
    Code,
> {
    match row_filled(schema, idx, vals, idx.len() as int) {
        Err(e) => Err(e),
        Ok(row) => if null_misplaced(schema, row) {
            Err(Code::TypeMismatch)
        } else {
            Ok(row)
        },
    }
}

/// The values of a list of constant expressions in the columns to be filled.
pub open spec fn constants(
    schema: Seq<FieldV>,
    idx: Seq<usize>,
    cells: Seq<Cell>,
) -> spec_fn(int) -> Result<Val, Code> {
    |k: int| strict_value(cells[k], schema[idx[k] as int].ty)
}

/// A row of `VALUES` for a table.
pub open spec fn values_row(schema: Seq<FieldV>, idx: Seq<usize>, cells: Seq<Cell>) -> Result<Seq<Val>, Code> {
    if cells.len() != idx.len() {
        Err(Code::ColumnCountMismatch)
    } else {
        row_made(schema, idx, constants(schema, idx, cells))
    }
}

fn make_values_row(vm: &Vm, schema: &Vec<Field>, idx: &Vec<usize>, cells: &Vec<Cell>) -> (r: Result<Vec<Value>, Error>)
    requires
        forall|k: int| 0 <= k < idx@.len() ==> #[trigger] idx@[k] < schema@.len(),
    ensures
        match r {
            Ok(row) => values_row(fields_of(schema@), idx@, cells@) == Ok::<Seq<Val>, Code>(row_vals(row@)) && row_fits(
                row_vals(row@),
                fields_of(schema@),
            ),
            Err(e) => values_row(fields_of(schema@), idx@, cells@) == Err::<Seq<Val>, Code>(e.code),
        },
{
    if cells.len() != idx.len() {
        return Err(Error::new(Code::ColumnCountMismatch));
    }
    let ghost fields = fields_of(schema@);
    let ghost vals = constants(fields, idx@, cells@);
    let mut row = nulls(schema.len());
    let mut k: usize = 0;
    while k < idx.len()
        invariant
            k <= idx@.len(),
            idx@.len() == cells@.len(),
            fields == fields_of(schema@),
            vals == constants(fields, idx@, cells@),
            forall|k: int| 0 <= k < idx@.len() ==> #[trigger] idx@[k] < schema@.len(),
            row@.len() == schema@.len(),
            row_filled(fields, idx@, vals, k as int) == Ok::<Seq<Val>, Code>(row_vals(row@)),
            row_fits(row_vals(row@), fields),
        decreases idx@.len() - k,
    {
        let slot: usize = idx[k];
        match eval_value_strict(vm, &cells[k], schema[slot].ty) {
            Ok(v) => {
                let ghost before = row_vals(row@);
                row.set(slot, v);
                assert(row_vals(row@) =~= before.update(slot as int, v@));
            },
            Err(e) => {
                proof {
                    assert(vals(k as int) == Err::<Val, Code>(e.code));
                    lemma_fill_stays_failed(fields, idx@, vals, k as int + 1, idx@.len() as int);
                }
                return Err(e);
            },
        }
        k = k + 1;
    }
    match check_not_null(schema, &row) {
        Ok(()) => Ok(row),
        Err(e) => Err(e),
    }
}

/// The first `n` rows of `VALUES` for a table.
pub open spec fn values_rows(schema: Seq<FieldV>, idx: Seq<usize>, rows: Seq<Vec<Cell>>, n: int) -> Result<
    Seq<Seq<Val>>,
    Code,
>
    decreases n,
{
    if n <= 0 {
        Ok(Seq::empty())
    } else {
        match values_rows(schema, idx, rows, n - 1) {
            Err(e) => Err(e),
            Ok(done) => match values_row(schema, idx, rows[n - 1]@) {
                Err(e) => Err(e),
                Ok(row) => Ok(done.push(row)),
            },
        }
    }
}

proof fn lemma_values_stay_failed(schema: Seq<FieldV>, idx: Seq<usize>, rows: Seq<Vec<Cell>>, k: int, n: int)
    requires
        0 <= k <= n,
        values_rows(schema, idx, rows, k) is Err,
    ensures
        values_rows(schema, idx, rows, n) == values_rows(schema, idx, rows, k),
    decreases n - k,
{
    if k < n {
        lemma_values_stay_failed(schema, idx, rows, k + 1, n);
    }
}

/// Works out the rows of `VALUES`.
pub fn make_values_rows(vm: &Vm, schema: &Vec<Field>, idx: &Vec<usize>, rows: &Vec<Vec<Cell>>) -> (r: Result<
    Vec<Vec<Value>>,
    Error,
>)
    requires
        forall|k: int| 0 <= k < idx@.len() ==> #[trigger] idx@[k] < schema@.len(),
    ensures
        match r {
            Ok(out) => {
                &&& values_rows(fields_of(schema@), idx@, rows@, rows@.len() as int) == Ok::<Seq<Seq<Val>>, Code>(
                    table_rows(out@),
                )
                &&& all_fit(table_rows(out@), fields_of(schema@))
            },
            Err(e) => values_rows(fields_of(schema@), idx@, rows@, rows@.len() as int) == Err::<Seq<Seq<Val>>, Code>(
                e.code,
            ),
        },
{
    let ghost fields = fields_of(schema@);
    let mut out: Vec<Vec<Value>> = Vec::new();
    let mut i: usize = 0;
    assert(table_rows(out@) =~= Seq::empty());
    while i < rows.len()
        invariant
            i <= rows@.len(),
            fields == fields_of(schema@),
            forall|k: int| 0 <= k < idx@.len() ==> #[trigger] idx@[k] < schema@.len(),
            values_rows(fields, idx@, rows@, i as int) == Ok::<Seq<Seq<Val>>, Code>(table_rows(out@)),
            all_fit(table_rows(out@), fields),
        decreases rows@.len() - i,
    {
        match make_values_row(vm, schema, idx, &rows[i]) {
            Ok(row) => {
                let ghost before = out@;
                out.push(row);
                proof {
                    lemma_rows_push(before, row, out@, fields);
                }
            },
            Err(e) => {
                proof {
                    lemma_values_stay_failed(fields, idx@, rows@, i as int + 1, rows@.len() as int);
                }
                return Err(e);
            },
        }
        i = i + 1;
    }
    Ok(out)
}

proof fn lemma_rows_push(before: Seq<Vec<Value>>, row: Vec<Value>, after: Seq<Vec<Value>>, schema: Seq<FieldV>)
    requires
        after == before.push(row),
        all_fit(table_rows(before), schema),
        row_fits(row_vals(row@), schema),
    ensures
        table_rows(after) == table_rows(before).push(row_vals(row@)),
        all_fit(table_rows(after), schema),
{
    assert(table_rows(after) =~= table_rows(before).push(row_vals(row@)));
    assert forall|r: int| 0 <= r < table_rows(after).len() implies row_fits(#[trigger] table_rows(after)[r], schema) by {
        if r < before.len() {
            assert(table_rows(after)[r] == table_rows(before)[r]);
        }
    }
}

/// The values of a source row, converted for the columns to be filled.
pub open spec fn conversions(
    schema: Seq<FieldV>,
    idx: Seq<usize>,
    casts: Seq<Program>,
    src: Seq<FieldV>,
    row: Seq<Val>,
) -> spec_fn(int) -> Result<Val, Code> {
    |k: int| cast_result(casts[k]@, row[k], src[k].ty, schema[idx[k] as int].ty)
}

/// The first `n` rows of a query's result for a table.
pub open spec fn converted_rows(
    schema: Seq<FieldV>,
    idx: Seq<usize>,
    casts: Seq<Program>,
    src: Seq<FieldV>,
    rows: Seq<Seq<Val>>,
    n: int,
) -> Result<Seq<Seq<Val>>, Code>
    decreases n,
{
    if n <= 0 {
        Ok(Seq::empty())
    } else {
        match converted_rows(schema, idx, casts, src, rows, n - 1) {
            Err(e) => Err(e),
            Ok(done) => match row_made(schema, idx, conversions(schema, idx, casts, src, rows[n - 1])) {
                Err(e) => Err(e),
                Ok(row) => Ok(done.push(row)),
            },
        }
    }
}

proof fn lemma_converted_stay_failed(
    schema: Seq<FieldV>,
    idx: Seq<usize>,
    casts: Seq<Program>,
    src: Seq<FieldV>,
    rows: Seq<Seq<Val>>,
    k: int,
    n: int,
)
    requires
        0 <= k <= n,
        converted_rows(schema, idx, casts, src, rows, k) is Err,
    ensures
        converted_rows(schema, idx, casts, src, rows, n) == converted_rows(schema, idx, casts, src, rows, k),
    decreases n - k,
{
    if k < n {
        lemma_converted_stay_failed(schema, idx, casts, src, rows, k + 1, n);
    }
}

fn make_converted_row(
    vm: &Vm,
    schema: &Vec<Field>,
    idx: &Vec<usize>,
    casts: &Vec<Program>,
    src: &Vec<Field>,
    given: &Vec<Value>,
) -> (r: Result<Vec<Value>, Error>)
    requires
        forall|k: int| 0 <= k < idx@.len() ==> #[trigger] idx@[k] < schema@.len(),
        casts@.len() == idx@.len(),
        src@.len() == idx@.len(),
        row_fits(row_vals(given@), fields_of(src@)),
    ensures
        ({
            let vals = conversions(fields_of(schema@), idx@, casts@, fields_of(src@), row_vals(given@));
            match r {
                Ok(row) => row_made(fields_of(schema@), idx@, vals) == Ok::<Seq<Val>, Code>(row_vals(row@)) && row_fits(
                    row_vals(row@),
                    fields_of(schema@),
                ),
                Err(e) => row_made(fields_of(schema@), idx@, vals) == Err::<Seq<Val>, Code>(e.code),
            }
        }),
{
    let ghost fields = fields_of(schema@);
    let ghost vals = conversions(fields, idx@, casts@, fields_of(src@), row_vals(given@));
    let mut row = nulls(schema.len());
    let mut k: usize = 0;
    while k < idx.len()
        invariant
            k <= idx@.len(),
            idx@.len() == casts@.len(),
            src@.len() == idx@.len(),
            row_fits(row_vals(given@), fields_of(src@)),
            fields == fields_of(schema@),
            vals == conversions(fields, idx@, casts@, fields_of(src@), row_vals(given@)),
            forall|k: int| 0 <= k < idx@.len() ==> #[trigger] idx@[k] < schema@.len(),
            row@.len() == schema@.len(),
            row_filled(fields, idx@, vals, k as int) == Ok::<Seq<Val>, Code>(row_vals(row@)),
            row_fits(row_vals(row@), fields),
        decreases idx@.len() - k,
    {
        let slot: usize = idx[k];
        assert(row_vals(given@)[k as int].fits(fields_of(src@)[k as int].ty.phys()));
        match cast_value(vm, &casts[k], given[k].dup(), src[k].ty, schema[slot].ty) {
            Ok(v) => {
                let ghost before = row_vals(row@);
                row.set(slot, v);
                assert(row_vals(row@) =~= before.update(slot as int, v@));
            },
            Err(e) => {
                proof {
                    assert(vals(k as int) == Err::<Val, Code>(e.code));
                    lemma_fill_stays_failed(fields, idx@, vals, k as int + 1, idx@.len() as int);
                }
                return Err(e);
            },
        }
        k = k + 1;
    }
    match check_not_null(schema, &row) {
        Ok(()) => Ok(row),
        Err(e) => Err(e),
    }
}

/// Works out the rows that a query's result becomes.
pub fn make_converted_rows(
    vm: &Vm,
    schema: &Vec<Field>,
    idx: &Vec<usize>,
    casts: &Vec<Program>,
    src: &Vec<Field>,
    rows: &Vec<Vec<Value>>,
) -> (r: Result<Vec<Vec<Value>>, Error>)
    requires
        forall|k: int| 0 <= k < idx@.len() ==> #[trigger] idx@[k] < schema@.len(),
        casts@.len() == idx@.len(),
        src@.len() == idx@.len(),
        all_fit(table_rows(rows@), fields_of(src@)),
    ensures
        ({
            let want = converted_rows(
                fields_of(schema@),
                idx@,
                casts@,
                fields_of(src@),
                table_rows(rows@),
                rows@.len() as int,
            );
            match r {
                Ok(out) => want == Ok::<Seq<Seq<Val>>, Code>(table_rows(out@)) && all_fit(
                    table_rows(out@),
                    fields_of(schema@),
                ),
                Err(e) => want == Err::<Seq<Seq<Val>>, Code>(e.code),
            }
        }),
{
    let ghost fields = fields_of(schema@);
    let ghost given = table_rows(rows@);
    let mut out: Vec<Vec<Value>> = Vec::new();
    let mut i: usize = 0;
    assert(table_rows(out@) =~= Seq::empty());
    while i < rows.len()
        invariant
            i <= rows@.len(),
            fields == fields_of(schema@),
            given == table_rows(rows@),
            forall|k: int| 0 <= k < idx@.len() ==> #[trigger] idx@[k] < schema@.len(),
            casts@.len() == idx@.len(),
            src@.len() == idx@.len(),
            all_fit(given, fields_of(src@)),
            converted_rows(fields, idx@, casts@, fields_of(src@), given, i as int) == Ok::<Seq<Seq<Val>>, Code>(
                table_rows(out@),
            ),
            all_fit(table_rows(out@), fields),
        decreases rows@.len() - i,
    {
        assert(row_fits(given[i as int], fields_of(src@)));
        match make_converted_row(vm, schema, idx, casts, src, &rows[i]) {
            Ok(row) => {
                let ghost before = out@;
                out.push(row);
                proof {
                    lemma_rows_push(before, row, out@, fields);
                }
            },
            Err(e) => {
                proof {
                    lemma_converted_stay_failed(
                        fields,
                        idx@,
                        casts@,
                        fields_of(src@),
                        given,
                        i as int + 1,
                        rows@.len() as int,
                    );
                }
                return Err(e);
            },
        }
        i = i + 1;
    }
    Ok(out)
}

/// Where the rows to be inserted come from.
pub enum InsertSource {
    /// Constant expressions, row by row.
    Values(Vec<Vec<Cell>>),
    /// A query, and for each of its columns what converts it.
    Query(Node, Vec<Program>),
}

/// The rows that a source gives for a table, or why it gives none. A query may turn the catalog into
/// another.
pub open spec fn source_rows(
    hook: Option<Box<dyn CodecHook>>,
    from: Catalog,
    to: Catalog,
    schema: Seq<FieldV>,
    idx: Seq<usize>,
    source: InsertSource,
    r: Result<Seq<Seq<Val>>, Code>,
) -> bool {
    match source {
        InsertSource::Values(rows) => to == from && r == values_rows(schema, idx, rows@, rows@.len() as int),
        InsertSource::Query(plan, casts) => {
            let src = fields_of(plan.schema_spec());
            match r {
                Ok(out) => src.len() == idx.len() && casts@.len() == idx.len() && exists|rows: Seq<Seq<Val>>| #[trigger]
                    rows_read(hook, from, to, plan, rows) && converted_rows(
                        schema,
                        idx,
                        casts@,
                        src,
                        rows,
                        rows.len() as int,
                    ) == r,
                Err(code) => {
                    ||| to == from && build_fault(plan, false) == Some(code)
                    ||| query_failed(hook, from, to, plan, src, code)
                    ||| src.len() != idx.len() && code == Code::ColumnCountMismatch && exists|rows: Seq<Seq<Val>>| #[trigger]
                        rows_read(hook, from, to, plan, rows)
                    ||| src.len() == idx.len() && casts@.len() != idx.len() && code == Code::Internal && exists|
                        rows: Seq<Seq<Val>>,
                    | #[trigger] rows_read(hook, from, to, plan, rows)
                    ||| src.len() == idx.len() && casts@.len() == idx.len() && exists|rows: Seq<Seq<Val>>| #[trigger]
                        rows_read(hook, from, to, plan, rows) && converted_rows(
                            schema,
                            idx,
                            casts@,
                            src,
                            rows,
                            rows.len() as int,
                        ) == r
                },
            }
        },
    }
}

fn append_rows(rows: &mut Vec<Vec<Value>>, more: Vec<Vec<Value>>)
    ensures
        final(rows)@ == old(rows)@ + more@,
{
    let mut more = more;
    rows.append(&mut more);
}

/// What `INSERT` does: the rows that the source gives for the columns to be filled are put
/// behind those of the table.
pub open spec fn inserted(
    hook: Option<Box<dyn CodecHook>>,
    before: Catalog,
    after: Catalog,
    table: Seq<char>,
    columns: Seq<String>,
    source: InsertSource,
    q: Query,
    i: usize,
    idx: Seq<usize>,
    new: Seq<Seq<Val>>,
) -> bool {
    &&& writable(before, table, Ok(i))
    &&& targets(schema_at(before, i as int), columns, idx)
    &&& source_rows(
        hook,
        before,
        Catalog { mem: before.mem, ..after },
        schema_at(before, i as int),
        idx,
        source,
        Ok(new),
    )
    &&& after.mem@ == before.mem@.update(i as int, after.mem@[i as int])
    &&& after.mem@[i as int].name == before.mem@[i as int].name
    &&& after.mem@[i as int].schema == before.mem@[i as int].schema
    &&& rows_at(after, i as int) == rows_at(before, i as int) + new
    &&& after.views == before.views
    &&& files_of(after) == files_of(before)
    &&& reports(q, new.len() as int)
}

/// `INSERT`.
pub fn insert(
    ctx: &mut ExecContext,
    table: &str,
    columns: &Vec<String>,
    source: InsertSource,
) -> (r: Result<Query, Error>)
    requires
        session_ok(*old(ctx)),
    ensures
        session_ok(*final(ctx)),
        final(ctx).hook == old(ctx).hook,
        match r {
            Ok(q) => exists|i: usize, idx: Seq<usize>, new: Seq<Seq<Val>>| #[trigger]
                inserted(old(ctx).hook, old(ctx).catalog, final(ctx).catalog, table@, columns@, source, q, i, idx, new),
            Err(e) => {
                &&& final(ctx).same_data(*old(ctx))
                &&& {
                    ||| writable(old(ctx).catalog, table@, Err(e))
                    ||| exists|i: usize| #[trigger]
                        writable(old(ctx).catalog, table@, Ok(i)) && insert_refused(
                            old(ctx).hook,
                            old(ctx).catalog,
                            final(ctx).catalog,
                            schema_at(old(ctx).catalog, i as int),
                            columns@,
                            source,
                            e.code,
                        )
                }
            },
        },
{
    let i: usize = match ctx.catalog.mem_index_writable(table) {
        Ok(i) => i,
        Err(e) => {
            return Err(e);
        },
    };
    let ghost before = *ctx;
    assert(before.catalog.mem@[i as int].wf());
    let schema: Vec<Field> = match ctx.catalog.mem_get(i) {
        Some(t) => dup_fields(t.schema.as_slice()),
        None => {
            return Err(Error::new(Code::Internal));
        },
    };
    let ghost fields = fields_of(schema@);
    let idx = match resolve_insert_columns(&schema, columns) {
        Ok(x) => x,
        Err(e) => {
            assert(insert_refused(before.hook, before.catalog, ctx.catalog, fields, columns@, source, e.code));
            return Err(e);
        },
    };
    let ghost src_given = source;
    let new: Vec<Vec<Value>> = match source {
        InsertSource::Values(rows) => match make_values_rows(&ctx.vm, &schema, &idx, &rows) {
            Ok(out) => out,
            Err(e) => {
                assert(targets(fields, columns@, idx@));
                assert(source_rows(before.hook, before.catalog, ctx.catalog, fields, idx@, src_given, Err(e.code)));
                assert(insert_refused(before.hook, before.catalog, ctx.catalog, fields, columns@, src_given, e.code));
                return Err(e);
            },
        },
        InsertSource::Query(plan, casts) => {
            let src = dup_fields(plan.schema());
            let rows = match run_query_to_rows(ctx, &plan, &src) {
                Ok(rows) => rows,
                Err(e) => {
                    assert(targets(fields, columns@, idx@));
                    assert(source_rows(before.hook, before.catalog, ctx.catalog, fields, idx@, src_given, Err(e.code)));
                    assert(insert_refused(before.hook, before.catalog, ctx.catalog, fields, columns@, src_given, e.code));
                    return Err(e);
                },
            };
            if src.len() != idx.len() {
                let e = Error::new(Code::ColumnCountMismatch);
                assert(targets(fields, columns@, idx@));
                assert(source_rows(before.hook, before.catalog, ctx.catalog, fields, idx@, src_given, Err(e.code)));
                assert(insert_refused(before.hook, before.catalog, ctx.catalog, fields, columns@, src_given, e.code));
                return Err(e);
            }
            if casts.len() != idx.len() {
                let e = Error::new(Code::Internal);
                assert(targets(fields, columns@, idx@));
                assert(source_rows(before.hook, before.catalog, ctx.catalog, fields, idx@, src_given, Err(e.code)));
                assert(insert_refused(before.hook, before.catalog, ctx.catalog, fields, columns@, src_given, e.code));
                return Err(e);
            }
            assert(fields_of(src@).len() == src@.len());
            match make_converted_rows(&ctx.vm, &schema, &idx, &casts, &src, &rows) {
                Ok(out) => out,
                Err(e) => {
                    assert(targets(fields, columns@, idx@));
                    assert(source_rows(before.hook, before.catalog, ctx.catalog, fields, idx@, src_given, Err(e.code)));
                    assert(insert_refused(before.hook, before.catalog, ctx.catalog, fields, columns@, src_given, e.code));
                    return Err(e);
                },
            }
        },
    };
    let n: usize = new.len();
    let ghost added = table_rows(new@);
    let ghost mid = *ctx;
    assert(mid.catalog.mem == before.catalog.mem);
    if let Some(t) = ctx.catalog.mem_get_mut(i) {
        append_rows(&mut t.rows, new);
    }
    proof {
        let t0 = mid.catalog.mem@[i as int];
        let t = ctx.catalog.mem@[i as int];
        assert(table_rows(t.rows@) =~= table_rows(t0.rows@) + added);
        assert(t.wf()) by {
            assert forall|k: int| 0 <= k < t.rows@.len() implies row_fits(#[trigger] table_rows(t.rows@)[k], fields) by {
                if k < t0.rows@.len() {
                    assert(row_fits(table_rows(t0.rows@)[k], fields));
                } else {
                    assert(row_fits(added[k - t0.rows@.len()], fields));
                }
            }
        }
        assert forall|k: int| 0 <= k < ctx.catalog.mem@.len() implies (#[trigger] ctx.catalog.mem@[k]).wf() by {
            assert(mid.catalog.mem@[k].wf());
        }
        assert(mem_table_names(ctx.catalog) =~= mem_table_names(mid.catalog));
        assert(table_names(ctx.catalog) == table_names(mid.catalog));
        assert(names_of_views(ctx.catalog) == names_of_views(mid.catalog));
        assert(targets(fields, columns@, idx@));
        assert(source_rows(before.hook, before.catalog, mid.catalog, fields, idx@, src_given, Ok(added)));
        assert(mid.catalog == (Catalog { mem: before.catalog.mem, ..ctx.catalog }));
        assert(added.len() == n);
    }
    let q = count_result(n);
    assert(inserted(old(ctx).hook, old(ctx).catalog, ctx.catalog, table@, columns@, src_given, q, i, idx@, added));
    Ok(q)
}

/// Why rows cannot be inserted: a column is not there, or the source gives no rows for the
/// columns to be filled.
pub open spec fn insert_refused(
    hook: Option<Box<dyn CodecHook>>,
    from: Catalog,
    to: Catalog,
    schema: Seq<FieldV>,
    columns: Seq<String>,
    source: InsertSource,
    code: Code,
) -> bool {
    ||| to == from && some_missing(schema, columns) && code == Code::ColumnNotFound
    ||| exists|idx: Seq<usize>| #[trigger] targets(schema, columns, idx) && source_rows(
        hook,
        from,
        to,
        schema,
        idx,
        source,
        Err(code),
    )
}

/// What `INSERT` puts into a table is read from it afterwards, behind the rows that it held.
pub proof fn inserted_rows_are_read(
    hook: Option<Box<dyn CodecHook>>,
    before: Catalog,
    after: Catalog,
    table: Seq<char>,
    columns: Seq<String>,
    source: InsertSource,
    q: Query,
    i: usize,
    idx: Seq<usize>,
    new: Seq<Seq<Val>>,
    looked: Seq<Look>,
    out: Seq<Chunk>,
)
    requires
        inserted(hook, before, after, table, columns, source, q, i, idx, new),
        gave(NodeV::MemScan { table: i }, after.mem@, looked, out, true),
    ensures
        flat(out) == rows_at(before, i as int) + new,
{
    reveal_with_fuel(gave, 1);
}

// --- UPDATE and DELETE --------------------------------------------------------------------

/// Whether a row is meant: a condition that is not there holds of every row, and NULL is no
/// truth.
pub open spec fn meant(filter: Option<ProgramV>, tys: Seq<Ty>, row: Seq<Val>) -> bool {
    match filter {
        Some(p) => holds_of(p, tys, row),
        None => true,
    }
}

/// What is wrong with a condition, if anything. It is not looked at if there are no rows.
pub open spec fn filter_fault(filter: Option<ProgramV>, tys: Seq<Ty>, rows: Seq<Seq<Val>>) -> Option<Code> {
    match filter {
        Some(p) => if rows.len() > 0 {
            match program_keep(p, tys, rows) {
                Err(c) => Some(c),
                Ok(_) => None,
            }
        } else {
            None
        },
        None => None,
    }
}

pub open spec fn field_types(schema: Seq<FieldV>) -> Seq<Ty> {
    Seq::new(schema.len(), |c: int| schema[c].ty)
}

/// Evaluates a condition on some rows of a table.
fn mask(
    vm: &Vm,
    filter: &Option<Program>,
    batch: &Batch,
    Ghost(rows): Ghost<Seq<Seq<Val>>>,
    Ghost(from): Ghost<int>,
) -> (r: Result<
    Vec<bool>,
    Error,
>)
    requires
        batch.wf(),
        batch.sel is None,
        0 <= from,
        from + batch.rows().len() <= rows.len(),
        batch.rows().len() > 0,
        batch.rows() == rows.subrange(from, from + batch.rows().len()),
    ensures
        match r {
            Ok(flags) => {
                &&& filter_fault(opt_prog(*filter), batch.types(), rows) is None
                &&& flags@.len() == batch.rows().len()
                &&& forall|k: int|
                    0 <= k < flags@.len() ==> (#[trigger] flags@[k]) == meant(
                        opt_prog(*filter),
                        batch.types(),
                        rows[from + k],
                    )
            },
            Err(e) => filter_fault(opt_prog(*filter), batch.types(), rows) == Some(e.code),
        },
{
    match filter {
        Some(p) => match vm.eval_flags(p, batch) {
            Ok(flags) => {
                proof {
                    programs_run_row_by_row(p@, batch.types(), batch.rows(), 0);
                    programs_run_row_by_row(p@, batch.types(), rows, from);
                    assert(batch.rows()[0] == rows[from]);
                    assert forall|k: int| 0 <= k < flags@.len() implies (#[trigger] flags@[k]) == holds_of(
                        p@,
                        batch.types(),
                        rows[from + k],
                    ) by {
                        programs_run_row_by_row(p@, batch.types(), batch.rows(), k);
                        assert(batch.rows()[k] == rows[from + k]);
                    }
                }
                Ok(flags)
            },
            Err(e) => {
                proof {
                    programs_run_row_by_row(p@, batch.types(), batch.rows(), 0);
                    programs_run_row_by_row(p@, batch.types(), rows, from);
                    assert(batch.rows()[0] == rows[from]);
                }
                Err(e)
            },
        },
        None => {
            let n: usize = batch.num_rows();
            let mut flags: Vec<bool> = Vec::new();
            let mut i: usize = 0;
            while i < n
                invariant
                    i <= n,
                    flags@.len() == i,
                    forall|k: int| 0 <= k < i ==> #[trigger] flags@[k],
                decreases n - i,
            {
                flags.push(true);
                i = i + 1;
            }
            Ok(flags)
        },
    }
}

/// The rows that stay when those meant are deleted.
pub open spec fn rows_left(filter: Option<ProgramV>, tys: Seq<Ty>, rows: Seq<Seq<Val>>) -> Seq<Seq<Val>> {
    kept(rows, Seq::new(rows.len(), |i: int| !meant(filter, tys, rows[i])))
}

/// After a delete no row is meant any more: deleting again deletes nothing.
pub proof fn deleting_twice_is_deleting_once(filter: Option<ProgramV>, tys: Seq<Ty>, rows: Seq<Seq<Val>>)
    ensures
        rows_left(filter, tys, rows_left(filter, tys, rows)) == rows_left(filter, tys, rows),
{
    let keep = Seq::new(rows.len(), |i: int| !meant(filter, tys, rows[i]));
    let left = kept(rows, keep);
    lemma_none_meant(filter, tys, rows, keep);
    let again = Seq::new(left.len(), |i: int| !meant(filter, tys, left[i]));
    assert forall|i: int| 0 <= i < left.len() implies #[trigger] again[i] by {}
    crate::vector::lemma_kept_all(left, again);
}

proof fn lemma_none_meant(filter: Option<ProgramV>, tys: Seq<Ty>, rows: Seq<Seq<Val>>, keep: Seq<bool>)
    requires
        keep.len() == rows.len(),
        forall|i: int| 0 <= i < rows.len() ==> (#[trigger] keep[i]) == !meant(filter, tys, rows[i]),
    ensures
        forall|i: int| 0 <= i < kept(rows, keep).len() ==> !meant(filter, tys, #[trigger] kept(rows, keep)[i]),
    decreases rows.len(),
{
    if rows.len() > 0 {
        lemma_none_meant(filter, tys, rows.drop_last(), keep.drop_last());
        let before = kept(rows.drop_last(), keep.drop_last());
        let now = kept(rows, keep);
        assert forall|i: int| 0 <= i < now.len() implies !meant(filter, tys, #[trigger] now[i]) by {
            if i < before.len() {
                assert(now[i] == before[i]);
            } else {
                assert(keep[rows.len() - 1] == !meant(filter, tys, rows[rows.len() - 1]));
            }
        }
    }
}

/// `DELETE`. The rows that stay keep their order.
pub fn delete(ctx: &mut ExecContext, table: &str, filter: Option<Program>) -> (r: Result<Query, Error>)
    requires
        session_ok(*old(ctx)),
    ensures
        session_ok(*final(ctx)),
        only_catalog(*old(ctx), *final(ctx)),
        match r {
            Ok(q) => exists|i: usize|
                {
                    let rows = rows_at(old(ctx).catalog, i as int);
                    let tys = field_types(schema_at(old(ctx).catalog, i as int));
                    let left = rows_left(opt_prog(filter), tys, rows);
                    &&& #[trigger] writable(old(ctx).catalog, table@, Ok(i))
                    &&& filter_fault(opt_prog(filter), tys, rows) is None
                    &&& rows_set(old(ctx).catalog, final(ctx).catalog, i as int, left)
                    &&& reports(q, rows.len() - left.len())
                },
            Err(e) => {
                &&& *final(ctx) == *old(ctx)
                &&& {
                    ||| writable(old(ctx).catalog, table@, Err(e))
                    ||| exists|i: usize| #[trigger]
                        writable(old(ctx).catalog, table@, Ok(i)) && filter_fault(
                            opt_prog(filter),
                            field_types(schema_at(old(ctx).catalog, i as int)),
                            rows_at(old(ctx).catalog, i as int),
                        ) == Some(e.code)
                }
            },
        },
{
    let i: usize = match ctx.catalog.mem_index_writable(table) {
        Ok(i) => i,
        Err(e) => {
            return Err(e);
        },
    };
    let ghost rows = rows_at(ctx.catalog, i as int);
    let ghost fields = schema_at(ctx.catalog, i as int);
    let ghost tys = field_types(fields);
    let ghost keep = Seq::new(rows.len(), |k: int| !meant(opt_prog(filter), tys, rows[k]));
    let mut left: Vec<Vec<Value>> = Vec::new();
    let total: usize = ctx.catalog.mem[i].rows.len();
    let mut deleted: usize = 0;
    let mut pos: usize = 0;
    proof {
        assert(ctx.catalog.mem@[i as int].wf());
        assert(table_rows(left@) =~= Seq::empty());
        assert(rows.take(0) =~= Seq::empty());
        assert(rows.len() == total);
    }
    while pos < total
        invariant
            *ctx == *old(ctx),
            session_ok(*ctx),
            i < ctx.catalog.mem@.len(),
            ctx.catalog.mem@[i as int].wf(),
            writable(ctx.catalog, table@, Ok(i)),
            rows == rows_at(ctx.catalog, i as int),
            fields == schema_at(ctx.catalog, i as int),
            tys == field_types(fields),
            rows.len() == total,
            keep == Seq::new(rows.len(), |k: int| !meant(opt_prog(filter), tys, rows[k])),
            pos <= total,
            pos > 0 ==> filter_fault(opt_prog(filter), tys, rows) is None,
            table_rows(left@) == kept(rows.take(pos as int), keep.take(pos as int)),
            all_fit(table_rows(left@), fields),
            deleted + left@.len() == pos,
        decreases total - pos,
    {
        let end: usize = if total - pos < BATCH_SIZE {
            total
        } else {
            pos + BATCH_SIZE
        };
        let batch = ctx.catalog.mem[i].batch(pos, end);
        proof {
            assert(batch.types() =~= tys);
        }
        let flags = match mask(&ctx.vm, &filter, &batch, Ghost(rows), Ghost(pos as int)) {
            Ok(f) => f,
            Err(e) => {
                return Err(e);
            },
        };
        let start: usize = pos;
        while pos < end
            invariant
                *ctx == *old(ctx),
                i < ctx.catalog.mem@.len(),
                ctx.catalog.mem@[i as int].wf(),
                rows == rows_at(ctx.catalog, i as int),
                fields == schema_at(ctx.catalog, i as int),
                rows.len() == total,
                keep == Seq::new(rows.len(), |k: int| !meant(opt_prog(filter), tys, rows[k])),
                start <= pos <= end <= total,
                flags@.len() == end - start,
                forall|k: int|
                    0 <= k < flags@.len() ==> (#[trigger] flags@[k]) == meant(opt_prog(filter), tys, rows[start + k]),
                table_rows(left@) == kept(rows.take(pos as int), keep.take(pos as int)),
                all_fit(table_rows(left@), fields),
                deleted + left@.len() == pos,
            decreases end - pos,
        {
            proof {
                lemma_kept_step(rows, keep, pos as int);
                assert(flags@[pos - start] == meant(opt_prog(filter), tys, rows[pos as int]));
            }
            if flags[pos - start] {
                deleted = deleted + 1;
            } else {
                let ghost before = left@;
                let row = dup_row(&ctx.catalog.mem[i].rows[pos]);
                left.push(row);
                proof {
                    assert(row_vals(row@) == rows[pos as int]);
                    assert(row_fits(rows[pos as int], fields));
                    lemma_rows_push(before, row, left@, fields);
                }
            }
            pos = pos + 1;
        }
    }
    proof {
        assert(rows.take(total as int) =~= rows);
        assert(keep.take(total as int) =~= keep);
        if total == 0 {
            assert(filter_fault(opt_prog(filter), tys, rows) is None);
        }
        assert(table_rows(left@).len() == left@.len());
    }
    set_rows(ctx, i, left);
    Ok(count_result(deleted))
}

/// `SET column = expression`.
pub struct Assignment {
    pub column: String,
    /// The expression, on the columns of the table.
    pub value: Program,
    /// What turns such a value, given as the only column, into the column's type.
    pub cast: Program,
}

/// The columns assigned to.
pub open spec fn assigned(schema: Seq<FieldV>, sets: Seq<Assignment>, out: Seq<usize>) -> bool {
    &&& out.len() == sets.len()
    &&& forall|k: int| 0 <= k < sets.len() ==> column_named(schema, name_bytes((#[trigger] sets[k]).column@), out[k] as int)
}

pub open spec fn some_unknown(schema: Seq<FieldV>, sets: Seq<Assignment>) -> bool {
    exists|k: int| 0 <= k < sets.len() && no_column_named(schema, name_bytes((#[trigger] sets[k]).column@))
}

fn resolve_assignments(schema: &Vec<Field>, sets: &Vec<Assignment>) -> (r: Result<Vec<usize>, Error>)
    ensures
        match r {
            Ok(out) => {
                &&& assigned(fields_of(schema@), sets@, out@)
                &&& forall|k: int| 0 <= k < out@.len() ==> #[trigger] out@[k] < schema@.len()
            },
            Err(e) => some_unknown(fields_of(schema@), sets@) && e.code == Code::ColumnNotFound,
        },
{
    let mut out: Vec<usize> = Vec::new();
    let mut i: usize = 0;
    while i < sets.len()
        invariant
            i <= sets@.len(),
            out@.len() == i,
            forall|k: int|
                0 <= k < i ==> column_named(
                    fields_of(schema@),
                    name_bytes((#[trigger] sets@[k]).column@),
                    out@[k] as int,
                ),
            forall|k: int| 0 <= k < i ==> #[trigger] out@[k] < schema@.len(),
        decreases sets@.len() - i,
    {
        match field_index(schema.as_slice(), sets[i].column.as_str()) {
            Some(c) => {
                out.push(c);
            },
            None => {
                assert(no_column_named(fields_of(schema@), name_bytes(sets@[i as int].column@)));
                return Err(Error::new(Code::ColumnNotFound));
            },
        }
        i = i + 1;
    }
    Ok(out)
}

/// The first expression that cannot be evaluated on the table, if any.
pub open spec fn set_fault(sets: Seq<Assignment>, tys: Seq<Ty>, rows: Seq<Seq<Val>>, k: int) -> Option<Code>
    decreases k,
{
    if k <= 0 || rows.len() == 0 {
        None
    } else {
        match set_fault(sets, tys, rows, k - 1) {
            Some(c) => Some(c),
            None => match program_value(sets[k - 1].value@, tys, rows) {
                Err(c) => Some(c),
                Ok(_) => None,
            },
        }
    }
}

proof fn lemma_set_fault_stays(sets: Seq<Assignment>, tys: Seq<Ty>, rows: Seq<Seq<Val>>, k: int, n: int)
    requires
        0 <= k <= n,
        set_fault(sets, tys, rows, k) is Some,
    ensures
        set_fault(sets, tys, rows, n) == set_fault(sets, tys, rows, k),
    decreases n - k,
{
    if k < n {
        lemma_set_fault_stays(sets, tys, rows, k + 1, n);
    }
}

/// What an assignment puts into a row. The expression sees the row as it was.
pub open spec fn set_value(a: Assignment, tys: Seq<Ty>, row: Seq<Val>, dst: FieldV) -> Result<Val, Code> {
    match program_value(a.value@, tys, seq![row]) {
        Err(c) => Err(c),
        Ok(col) => match cast_result(a.cast@, col.cells[0], col.ty, dst.ty) {
            Err(c) => Err(c),
            Ok(v) => if !dst.nullable && v is Null {
                Err(Code::TypeMismatch)
            } else {
                Ok(v)
            },
        },
    }
}

/// A row after the first `k` assignments.
pub open spec fn row_assigned(
    schema: Seq<FieldV>,
    sets: Seq<Assignment>,
    cols: Seq<usize>,
    row: Seq<Val>,
    k: int,
) -> Result<Seq<Val>, Code>
    decreases k,
{
    if k <= 0 {
        Ok(row)
    } else {
        match row_assigned(schema, sets, cols, row, k - 1) {
            Err(e) => Err(e),
            Ok(done) => match set_value(sets[k - 1], field_types(schema), row, schema[cols[k - 1] as int]) {
                Err(e) => Err(e),
                Ok(v) => Ok(done.update(cols[k - 1] as int, v)),
            },
        }
    }
}

proof fn lemma_assigned_stays_failed(
    schema: Seq<FieldV>,
    sets: Seq<Assignment>,
    cols: Seq<usize>,
    row: Seq<Val>,
    k: int,
    n: int,
)
    requires
        0 <= k <= n,
        row_assigned(schema, sets, cols, row, k) is Err,
    ensures
        row_assigned(schema, sets, cols, row, n) == row_assigned(schema, sets, cols, row, k),
    decreases n - k,
{
    if k < n {
        lemma_assigned_stays_failed(schema, sets, cols, row, k + 1, n);
    }
}

/// The first `n` rows after an update: those meant are assigned to, the others stay.
pub open spec fn rows_updated(
    schema: Seq<FieldV>,
    sets: Seq<Assignment>,
    cols: Seq<usize>,
    filter: Option<ProgramV>,
    rows: Seq<Seq<Val>>,
    n: int,
) -> Result<Seq<Seq<Val>>, Code>
    decreases n,
{
    if n <= 0 {
        Ok(Seq::empty())
    } else {
        match rows_updated(schema, sets, cols, filter, rows, n - 1) {
            Err(e) => Err(e),
            Ok(done) => if meant(filter, field_types(schema), rows[n - 1]) {
                match row_assigned(schema, sets, cols, rows[n - 1], sets.len() as int) {
                    Err(e) => Err(e),
                    Ok(row) => Ok(done.push(row)),
                }
            } else {
                Ok(done.push(rows[n - 1]))
            },
        }
    }
}

proof fn lemma_updated_stays_failed(
    schema: Seq<FieldV>,
    sets: Seq<Assignment>,
    cols: Seq<usize>,
    filter: Option<ProgramV>,
    rows: Seq<Seq<Val>>,
    k: int,
    n: int,
)
    requires
        0 <= k <= n,
        rows_updated(schema, sets, cols, filter, rows, k) is Err,
    ensures
        rows_updated(schema, sets, cols, filter, rows, n) == rows_updated(schema, sets, cols, filter, rows, k),
    decreases n - k,
{
    if k < n {
        lemma_updated_stays_failed(schema, sets, cols, filter, rows, k + 1, n);
    }
}

/// How many of the first `n` rows are meant.
pub open spec fn meant_count(filter: Option<ProgramV>, tys: Seq<Ty>, rows: Seq<Seq<Val>>, n: int) -> int
    decreases n,
{
    if n <= 0 {
        0
    } else {
        meant_count(filter, tys, rows, n - 1) + if meant(filter, tys, rows[n - 1]) {
            1int
        } else {
            0
        }
    }
}

/// What an update comes to: the rows after it, or what is wrong with the condition, an
/// expression, or a value.
pub open spec fn update_outcome(
    schema: Seq<FieldV>,
    sets: Seq<Assignment>,
    cols: Seq<usize>,
    filter: Option<ProgramV>,
    rows: Seq<Seq<Val>>,
) -> Result<Seq<Seq<Val>>, Code> {
    let tys = field_types(schema);
    match filter_fault(filter, tys, rows) {
        Some(c) => Err(c),
        None => match set_fault(sets, tys, rows, sets.len() as int) {
            Some(c) => Err(c),
            None => rows_updated(schema, sets, cols, filter, rows, rows.len() as int),
        },
    }
}

/// Evaluates the expressions of assignments on some rows of a table.
fn eval_sets(
    vm: &Vm,
    sets: &Vec<Assignment>,
    batch: &Batch,
    Ghost(rows): Ghost<Seq<Seq<Val>>>,
    Ghost(from): Ghost<int>,
) -> (r: Result<Vec<Vector>, Error>)
    requires
        batch.wf(),
        0 <= from,
        from + batch.rows().len() <= rows.len(),
        batch.rows().len() > 0,
        batch.rows() == rows.subrange(from, from + batch.rows().len()),
    ensures
        match r {
            Ok(cols) => {
                &&& set_fault(sets@, batch.types(), rows, sets@.len() as int) is None
                &&& cols@.len() == sets@.len()
                &&& forall|k: int|
                    0 <= k < cols@.len() ==> (#[trigger] cols@[k]).wf() && cols@[k]@.len() == batch.rows().len()
                        && program_value(sets@[k].value@, batch.types(), batch.rows()) == Ok::<ColV, Code>(
                        crate::expr::col_of(cols@[k]),
                    )
            },
            Err(e) => set_fault(sets@, batch.types(), rows, sets@.len() as int) == Some(e.code),
        },
{
    let mut cols: Vec<Vector> = Vec::new();
    let mut k: usize = 0;
    while k < sets.len()
        invariant
            batch.wf(),
            0 <= from,
            from + batch.rows().len() <= rows.len(),
            batch.rows().len() > 0,
            batch.rows() == rows.subrange(from, from + batch.rows().len()),
            k <= sets@.len(),
            cols@.len() == k,
            set_fault(sets@, batch.types(), rows, k as int) is None,
            forall|j: int|
                0 <= j < k ==> (#[trigger] cols@[j]).wf() && cols@[j]@.len() == batch.rows().len() && program_value(
                    sets@[j].value@,
                    batch.types(),
                    batch.rows(),
                ) == Ok::<ColV, Code>(crate::expr::col_of(cols@[j])),
        decreases sets@.len() - k,
    {
        let got = vm.eval(&sets[k].value, batch);
        proof {
            programs_run_row_by_row(sets@[k as int].value@, batch.types(), batch.rows(), 0);
            programs_run_row_by_row(sets@[k as int].value@, batch.types(), rows, from);
            assert(batch.rows()[0] == rows[from]);
        }
        match got {
            Ok(v) => {
                cols.push(v);
            },
            Err(e) => {
                proof {
                    lemma_set_fault_stays(sets@, batch.types(), rows, k as int + 1, sets@.len() as int);
                }
                return Err(e);
            },
        }
        k = k + 1;
    }
    Ok(cols)
}

/// Carries out the assignments on one row.
fn assign_row(
    vm: &Vm,
    schema: &Vec<Field>,
    sets: &Vec<Assignment>,
    slots: &Vec<usize>,
    cols: &Vec<Vector>,
    batch: &Batch,
    local: usize,
    given: &Vec<Value>,
) -> (r: Result<Vec<Value>, Error>)
    requires
        batch.wf(),
        batch.types() == field_types(fields_of(schema@)),
        local < batch.rows().len(),
        row_vals(given@) == batch.rows()[local as int],
        row_fits(row_vals(given@), fields_of(schema@)),
        slots@.len() == sets@.len(),
        cols@.len() == sets@.len(),
        forall|k: int| 0 <= k < slots@.len() ==> #[trigger] slots@[k] < schema@.len(),
        forall|k: int|
            0 <= k < cols@.len() ==> (#[trigger] cols@[k]).wf() && cols@[k]@.len() == batch.rows().len() && program_value(
                sets@[k].value@,
                batch.types(),
                batch.rows(),
            ) == Ok::<ColV, Code>(crate::expr::col_of(cols@[k])),
    ensures
        ({
            let want = row_assigned(
                fields_of(schema@),
                sets@,
                slots@,
                row_vals(given@),
                sets@.len() as int,
            );
            match r {
                Ok(row) => want == Ok::<Seq<Val>, Code>(row_vals(row@)) && row_fits(row_vals(row@), fields_of(schema@)),
                Err(e) => want == Err::<Seq<Val>, Code>(e.code),
            }
        }),
{
    let ghost fields = fields_of(schema@);
    let ghost row0 = row_vals(given@);
    let mut row = dup_row(given);
    let mut k: usize = 0;
    while k < sets.len()
        invariant
            batch.wf(),
            fields == fields_of(schema@),
            row0 == row_vals(given@),
            row0 == batch.rows()[local as int],
            batch.types() == field_types(fields),
            local < batch.rows().len(),
            slots@.len() == sets@.len(),
            cols@.len() == sets@.len(),
            forall|k: int| 0 <= k < slots@.len() ==> #[trigger] slots@[k] < schema@.len(),
            forall|k: int|
                0 <= k < cols@.len() ==> (#[trigger] cols@[k]).wf() && cols@[k]@.len() == batch.rows().len()
                    && program_value(sets@[k].value@, batch.types(), batch.rows()) == Ok::<ColV, Code>(
                    crate::expr::col_of(cols@[k]),
                ),
            k <= sets@.len(),
            row@.len() == schema@.len(),
            row_assigned(fields, sets@, slots@, row0, k as int) == Ok::<Seq<Val>, Code>(row_vals(row@)),
            row_fits(row_vals(row@), fields),
        decreases sets@.len() - k,
    {
        let slot: usize = slots[k];
        let ghost dst = fields[slot as int];
        proof {
            programs_run_row_by_row(sets@[k as int].value@, batch.types(), batch.rows(), local as int);
            assert(cols@[k as int]@[local as int].fits(cols@[k as int].ty().phys()));
            assert(dst == schema@[slot as int]@);
        }
        let v = match cast_value(vm, &sets[k].cast, cols[k].value_at(local), cols[k].ty(), schema[slot].ty) {
            Ok(v) => v,
            Err(e) => {
                proof {
                    assert(set_value(sets@[k as int], field_types(fields), row0, dst) == Err::<Val, Code>(e.code));
                    lemma_assigned_stays_failed(fields, sets@, slots@, row0, k as int + 1, sets@.len() as int);
                }
                return Err(e);
            },
        };
        if !schema[slot].nullable && v.is_null() {
            let e = Error::new(Code::TypeMismatch);
            proof {
                assert(set_value(sets@[k as int], field_types(fields), row0, dst) == Err::<Val, Code>(e.code));
                lemma_assigned_stays_failed(fields, sets@, slots@, row0, k as int + 1, sets@.len() as int);
            }
            return Err(e);
        }
        let ghost before = row_vals(row@);
        row.set(slot, v);
        assert(row_vals(row@) =~= before.update(slot as int, v@));
        k = k + 1;
    }
    Ok(row)
}

/// Assignments to different columns do not see each other: each column assigned to gets the
/// value that its expression has on the row as it was, and the other columns stay.
pub proof fn assignments_are_simultaneous(
    schema: Seq<FieldV>,
    sets: Seq<Assignment>,
    cols: Seq<usize>,
    row: Seq<Val>,
    n: int,
    c: int,
)
    requires
        0 <= n <= sets.len(),
        cols.len() == sets.len(),
        row.len() == schema.len(),
        0 <= c < row.len(),
        forall|k: int| 0 <= k < cols.len() ==> #[trigger] cols[k] < schema.len(),
        forall|j: int, k: int| 0 <= j < k < cols.len() ==> #[trigger] cols[j] != #[trigger] cols[k],
    ensures
        row_assigned(schema, sets, cols, row, n) matches Ok(out) ==> {
            &&& out.len() == row.len()
            &&& forall|k: int|
                0 <= k < n && #[trigger] cols[k] == c ==> set_value(sets[k], field_types(schema), row, schema[c]) == Ok::<
                    Val,
                    Code,
                >(out[c])
            &&& (forall|k: int| 0 <= k < n ==> #[trigger] cols[k] != c) ==> out[c] == row[c]
        },
    decreases n,
{
    if n > 0 {
        assignments_are_simultaneous(schema, sets, cols, row, n - 1, c);
        if row_assigned(schema, sets, cols, row, n) is Ok {
            let done = row_assigned(schema, sets, cols, row, n - 1)->Ok_0;
            let out = row_assigned(schema, sets, cols, row, n)->Ok_0;
            if cols[n - 1] == c {
                assert forall|k: int| 0 <= k < n && #[trigger] cols[k] == c implies set_value(
                    sets[k],
                    field_types(schema),
                    row,
                    schema[c],
                ) == Ok::<Val, Code>(out[c]) by {
                    if k < n - 1 {
                        assert(cols[k] != cols[n - 1]);
                    }
                }
            } else {
                assert(out[c] == done[c]);
            }
        }
    }
}

/// What `UPDATE` does.
pub open spec fn updated(
    before: Catalog,
    after: Catalog,
    table: Seq<char>,
    sets: Seq<Assignment>,
    filter: Option<ProgramV>,
    q: Query,
    i: usize,
    cols: Seq<usize>,
) -> bool {
    let schema = schema_at(before, i as int);
    let rows = rows_at(before, i as int);
    &&& writable(before, table, Ok(i))
    &&& assigned(schema, sets, cols)
    &&& update_outcome(schema, sets, cols, filter, rows) matches Ok(out) && rows_set(before, after, i as int, out)
    &&& reports(q, meant_count(filter, field_types(schema), rows, rows.len() as int))
}

/// What `UPDATE` and `DELETE` leave in a table is read from it afterwards, and from every other
/// table what was read before.
pub proof fn changed_rows_are_read(
    before: Catalog,
    after: Catalog,
    i: usize,
    rows: Seq<Seq<Val>>,
    table: usize,
    looked: Seq<Look>,
    out: Seq<Chunk>,
)
    requires
        rows_set(before, after, i as int, rows),
        gave(NodeV::MemScan { table }, after.mem@, looked, out, true),
    ensures
        table == i ==> flat(out) == rows,
        table != i ==> gave(NodeV::MemScan { table }, before.mem@, looked, out, true),
{
    reveal_with_fuel(gave, 1);
}

/// Why a table is not updated.
pub open spec fn update_refused(
    schema: Seq<FieldV>,
    rows: Seq<Seq<Val>>,
    sets: Seq<Assignment>,
    filter: Option<ProgramV>,
    code: Code,
) -> bool {
    ||| some_unknown(schema, sets) && code == Code::ColumnNotFound
    ||| exists|cols: Seq<usize>| #[trigger]
        assigned(schema, sets, cols) && update_outcome(schema, sets, cols, filter, rows) == Err::<
            Seq<Seq<Val>>,
            Code,
        >(code)
}

/// `UPDATE`. All assignments to a row see the row as it was.
pub fn update(
    ctx: &mut ExecContext,
    table: &str,
    sets: &Vec<Assignment>,
    filter: Option<Program>,
) -> (r: Result<Query, Error>)
    requires
        session_ok(*old(ctx)),
    ensures
        session_ok(*final(ctx)),
        only_catalog(*old(ctx), *final(ctx)),
        match r {
            Ok(q) => exists|i: usize, cols: Seq<usize>| #[trigger]
                updated(old(ctx).catalog, final(ctx).catalog, table@, sets@, opt_prog(filter), q, i, cols),
            Err(e) => {
                &&& *final(ctx) == *old(ctx)
                &&& {
                    ||| writable(old(ctx).catalog, table@, Err(e))
                    ||| exists|i: usize| #[trigger]
                        writable(old(ctx).catalog, table@, Ok(i)) && update_refused(
                            schema_at(old(ctx).catalog, i as int),
                            rows_at(old(ctx).catalog, i as int),
                            sets@,
                            opt_prog(filter),
                            e.code,
                        )
                }
            },
        },
{
    let i: usize = match ctx.catalog.mem_index_writable(table) {
        Ok(i) => i,
        Err(e) => {
            return Err(e);
        },
    };
    let ghost rows = rows_at(ctx.catalog, i as int);
    let ghost fields = schema_at(ctx.catalog, i as int);
    let ghost tys = field_types(fields);
    let ghost f = opt_prog(filter);
    let schema: Vec<Field> = dup_fields(ctx.catalog.mem[i].schema.as_slice());
    let slots = match resolve_assignments(&schema, sets) {
        Ok(s) => s,
        Err(e) => {
            assert(update_refused(fields, rows, sets@, f, e.code));
            return Err(e);
        },
    };
    let total: usize = ctx.catalog.mem[i].rows.len();
    let mut out: Vec<Vec<Value>> = Vec::new();
    let mut count: usize = 0;
    let mut pos: usize = 0;
    proof {
        assert(ctx.catalog.mem@[i as int].wf());
        assert(table_rows(out@) =~= Seq::empty());
        assert(rows.len() == total);
        assert(assigned(fields, sets@, slots@));
    }
    while pos < total
        invariant
            *ctx == *old(ctx),
            session_ok(*ctx),
            i < ctx.catalog.mem@.len(),
            ctx.catalog.mem@[i as int].wf(),
            writable(ctx.catalog, table@, Ok(i)),
            rows == rows_at(ctx.catalog, i as int),
            fields == schema_at(ctx.catalog, i as int),
            fields == fields_of(schema@),
            tys == field_types(fields),
            f == opt_prog(filter),
            rows.len() == total,
            assigned(fields, sets@, slots@),
            forall|k: int| 0 <= k < slots@.len() ==> #[trigger] slots@[k] < schema@.len(),
            pos <= total,
            pos > 0 ==> filter_fault(f, tys, rows) is None && set_fault(sets@, tys, rows, sets@.len() as int) is None,
            rows_updated(fields, sets@, slots@, f, rows, pos as int) == Ok::<Seq<Seq<Val>>, Code>(table_rows(out@)),
            all_fit(table_rows(out@), fields),
            count == meant_count(f, tys, rows, pos as int),
            count <= pos,
        decreases total - pos,
    {
        let end: usize = if total - pos < BATCH_SIZE {
            total
        } else {
            pos + BATCH_SIZE
        };
        let batch = ctx.catalog.mem[i].batch(pos, end);
        proof {
            assert(batch.types() =~= tys);
        }
        let flags = match mask(&ctx.vm, &filter, &batch, Ghost(rows), Ghost(pos as int)) {
            Ok(x) => x,
            Err(e) => {
                assert(update_outcome(fields, sets@, slots@, f, rows) == Err::<Seq<Seq<Val>>, Code>(e.code));
                assert(update_refused(fields, rows, sets@, f, e.code));
                return Err(e);
            },
        };
        let cols = match eval_sets(&ctx.vm, sets, &batch, Ghost(rows), Ghost(pos as int)) {
            Ok(x) => x,
            Err(e) => {
                assert(update_outcome(fields, sets@, slots@, f, rows) == Err::<Seq<Seq<Val>>, Code>(e.code));
                assert(update_refused(fields, rows, sets@, f, e.code));
                return Err(e);
            },
        };
        let start: usize = pos;
        while pos < end
            invariant
                *ctx == *old(ctx),
                session_ok(*ctx),
                i < ctx.catalog.mem@.len(),
                ctx.catalog.mem@[i as int].wf(),
                writable(ctx.catalog, table@, Ok(i)),
                rows == rows_at(ctx.catalog, i as int),
                fields == schema_at(ctx.catalog, i as int),
                fields == fields_of(schema@),
                tys == field_types(fields),
                f == opt_prog(filter),
                rows.len() == total,
                assigned(fields, sets@, slots@),
                forall|k: int| 0 <= k < slots@.len() ==> #[trigger] slots@[k] < schema@.len(),
                start <= pos <= end <= total,
                batch.wf(),
                batch.types() == tys,
                batch.rows() == rows.subrange(start as int, end as int),
                filter_fault(f, tys, rows) is None,
                set_fault(sets@, tys, rows, sets@.len() as int) is None,
                cols@.len() == sets@.len(),
                forall|k: int|
                    0 <= k < cols@.len() ==> (#[trigger] cols@[k]).wf() && cols@[k]@.len() == batch.rows().len()
                        && program_value(sets@[k].value@, batch.types(), batch.rows()) == Ok::<ColV, Code>(
                        crate::expr::col_of(cols@[k]),
                    ),
                flags@.len() == end - start,
                forall|k: int| 0 <= k < flags@.len() ==> (#[trigger] flags@[k]) == meant(f, tys, rows[start + k]),
                rows_updated(fields, sets@, slots@, f, rows, pos as int) == Ok::<Seq<Seq<Val>>, Code>(
                    table_rows(out@),
                ),
                all_fit(table_rows(out@), fields),
                count == meant_count(f, tys, rows, pos as int),
                count <= pos,
            decreases end - pos,
        {
            proof {
                assert(flags@[pos - start] == meant(f, tys, rows[pos as int]));
                assert(row_fits(rows[pos as int], fields));
                assert(batch.rows()[pos - start] == rows[pos as int]);
                assert(rows[pos as int] == row_vals(ctx.catalog.mem@[i as int].rows@[pos as int]@));
            }
            let given = &ctx.catalog.mem[i].rows[pos];
            let row: Vec<Value>;
            if flags[pos - start] {
                match assign_row(&ctx.vm, &schema, sets, &slots, &cols, &batch, pos - start, given) {
                    Ok(x) => {
                        row = x;
                    },
                    Err(e) => {
                        proof {
                            lemma_updated_stays_failed(
                                fields,
                                sets@,
                                slots@,
                                f,
                                rows,
                                pos as int + 1,
                                total as int,
                            );
                            assert(update_outcome(fields, sets@, slots@, f, rows) == Err::<Seq<Seq<Val>>, Code>(
                                e.code,
                            ));
                            assert(update_refused(fields, rows, sets@, f, e.code));
                        }
                        return Err(e);
                    },
                }
                count = count + 1;
            } else {
                row = dup_row(given);
            }
            let ghost before = out@;
            out.push(row);
            proof {
                lemma_rows_push(before, row, out@, fields);
            }
            pos = pos + 1;
        }
    }
    proof {
        if total == 0 {
            assert(set_fault(sets@, tys, rows, sets@.len() as int) is None);
            assert(filter_fault(f, tys, rows) is None);
        }
        assert(update_outcome(fields, sets@, slots@, f, rows) == Ok::<Seq<Seq<Val>>, Code>(table_rows(out@)));
    }
    set_rows(ctx, i, out);
    let q = count_result(count);
    assert(updated(old(ctx).catalog, ctx.catalog, table@, sets@, f, q, i, slots@));
    Ok(q)
}

} // verus!
