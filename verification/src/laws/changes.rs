//! What statements do to the rows of a table, and what conversions do to values.

use crate::dml::{Assignment, meant, null_misplaced, row_assigned, row_filled, row_made, rows_left, rows_updated};
use crate::error::Code;
use crate::exec::join::join_keys;
use crate::exec::window::adapted;
use crate::expr::{holds_of, program_value, ColV, ProgramV};
use crate::laws::aggregates::places;
use crate::plan::{aggregate_ty, AggKind};
use crate::vector::{kept, FieldV, PhysType, Ty, Val};
use vstd::prelude::*;

verus! {

// --- Conditions ------------------------------------------------------------------------------------

/// A condition holds of a row exactly if it is true of it: not if it is false, and not if it is
/// NULL.
pub proof fn conditions_hold_where_they_are_true(p: ProgramV, tys: Seq<Ty>, row: Seq<Val>)
    ensures
        holds_of(p, tys, row) <==> (program_value(p, tys, seq![row]) matches Ok(col) && col.ty is Boolean && col.cells[0]
            == Val::Bool(true)),
{
}

// --- Deleting ------------------------------------------------------------------------------------------

/// How often a row occurs.
pub open spec fn times(rows: Seq<Seq<Val>>, row: Seq<Val>) -> int
    decreases rows.len(),
{
    if rows.len() == 0 {
        0
    } else {
        times(rows.drop_last(), row) + if rows.last() == row {
            1int
        } else {
            0
        }
    }
}

proof fn lemma_times_kept(rows: Seq<Seq<Val>>, keep: Seq<bool>, row: Seq<Val>, stays: bool)
    requires
        keep.len() == rows.len(),
        forall|i: int| 0 <= i < rows.len() && #[trigger] rows[i] == row ==> keep[i] == stays,
    ensures
        times(kept(rows, keep), row) == if stays {
            times(rows, row)
        } else {
            0
        },
    decreases rows.len(),
{
    if rows.len() > 0 {
        let r = rows.drop_last();
        let k = keep.drop_last();
        assert forall|i: int| 0 <= i < r.len() && #[trigger] r[i] == row implies k[i] == stays by {
            assert(rows[i] == row);
        }
        lemma_times_kept(r, k, row, stays);
        let f = kept(r, k);
        assert(rows[rows.len() - 1] == rows.last());
        assert(f.push(rows.last()).drop_last() =~= f);
    }
}

/// Deleting leaves every row that the condition does not hold of, as often as it was there, and
/// no other.
pub proof fn deleting_leaves_the_other_rows(filter: Option<ProgramV>, tys: Seq<Ty>, rows: Seq<Seq<Val>>, row: Seq<Val>)
    ensures
        times(rows_left(filter, tys, rows), row) == if meant(filter, tys, row) {
            0
        } else {
            times(rows, row)
        },
        filter is None ==> meant(filter, tys, row),
        filter matches Some(p) ==> (meant(filter, tys, row) <==> (program_value(p, tys, seq![row]) matches Ok(col) && col.ty
            is Boolean && col.cells[0] == Val::Bool(true))),
{
    let keep = Seq::new(rows.len(), |i: int| !meant(filter, tys, rows[i]));
    lemma_times_kept(rows, keep, row, !meant(filter, tys, row));
}

// --- Updating ----------------------------------------------------------------------------------------------

/// Updating keeps the rows in their places: a row that the condition does not hold of stays as it
/// is, any other becomes what the assignments make of it.
pub proof fn updating_keeps_rows_in_their_places(
    schema: Seq<FieldV>,
    sets: Seq<Assignment>,
    cols: Seq<usize>,
    filter: Option<ProgramV>,
    rows: Seq<Seq<Val>>,
    n: int,
    i: int,
)
    requires
        0 <= n <= rows.len(),
    ensures
        rows_updated(schema, sets, cols, filter, rows, n) matches Ok(out) ==> {
            &&& out.len() == n
            &&& 0 <= i < n && !meant(filter, crate::dml::field_types(schema), rows[i]) ==> out[i] == rows[i]
            &&& 0 <= i < n && meant(filter, crate::dml::field_types(schema), rows[i]) ==> row_assigned(
                schema,
                sets,
                cols,
                rows[i],
                sets.len() as int,
            ) == Ok::<Seq<Val>, Code>(out[i])
        },
    decreases n,
{
    if n > 0 {
        updating_keeps_rows_in_their_places(schema, sets, cols, filter, rows, n - 1, i);
    }
}

// --- Inserting ---------------------------------------------------------------------------------------------

proof fn lemma_filled(schema: Seq<FieldV>, idx: Seq<usize>, vals: spec_fn(int) -> Result<Val, Code>, k: int, c: int)
    requires
        0 <= k <= idx.len(),
        forall|j: int| 0 <= j < idx.len() ==> #[trigger] idx[j] < schema.len(),
        forall|i: int, j: int| 0 <= i < j < idx.len() ==> #[trigger] idx[i] != #[trigger] idx[j],
        0 <= c < schema.len(),
    ensures
        row_filled(schema, idx, vals, k) matches Ok(row) ==> {
            &&& row.len() == schema.len()
            &&& forall|j: int| 0 <= j < k && #[trigger] idx[j] == c ==> vals(j) == Ok::<Val, Code>(row[c])
            &&& (forall|j: int| 0 <= j < k ==> #[trigger] idx[j] != c) ==> row[c] is Null
        },
    decreases k,
{
    if k > 0 {
        lemma_filled(schema, idx, vals, k - 1, c);
        if row_filled(schema, idx, vals, k) is Ok {
            let before = row_filled(schema, idx, vals, k - 1)->Ok_0;
            let row = row_filled(schema, idx, vals, k)->Ok_0;
            if idx[k - 1] == c {
                assert forall|j: int| 0 <= j < k && #[trigger] idx[j] == c implies vals(j) == Ok::<Val, Code>(row[c]) by {
                    if j < k - 1 {
                        assert(idx[j] != idx[k - 1]);
                    }
                }
            } else {
                assert(row[c] == before[c]);
            }
        }
    }
}

/// A new row has the given values in the columns that are named and NULL in the others; it is
/// refused where a column that takes no NULL would hold one.
pub proof fn inserting_fills_the_columns_named(
    schema: Seq<FieldV>,
    idx: Seq<usize>,
    vals: spec_fn(int) -> Result<Val, Code>,
    c: int,
)
    requires
        forall|j: int| 0 <= j < idx.len() ==> #[trigger] idx[j] < schema.len(),
        forall|i: int, j: int| 0 <= i < j < idx.len() ==> #[trigger] idx[i] != #[trigger] idx[j],
        0 <= c < schema.len(),
    ensures
        row_made(schema, idx, vals) matches Ok(row) ==> {
            &&& row.len() == schema.len()
            &&& forall|j: int| 0 <= j < idx.len() && #[trigger] idx[j] == c ==> vals(j) == Ok::<Val, Code>(row[c])
            &&& (forall|j: int| 0 <= j < idx.len() ==> #[trigger] idx[j] != c) ==> row[c] is Null
            &&& !schema[c].nullable ==> !(row[c] is Null)
        },
{
    lemma_filled(schema, idx, vals, idx.len() as int, c);
    if row_made(schema, idx, vals) is Ok {
        let row = row_made(schema, idx, vals)->Ok_0;
        if !schema[c].nullable && row[c] is Null {
            assert(null_misplaced(schema, row));
        }
    }
}

// --- Join keys ------------------------------------------------------------------------------------------------

/// A row has a join key exactly if none of its key cells is NULL: NULL matches nothing, not even
/// NULL.
pub proof fn null_matches_nothing(cols: Seq<ColV>, n: nat, i: int)
    requires
        0 <= i < n,
    ensures
        join_keys(cols, n)[i] is None <==> exists|c: int| 0 <= c < cols.len() && (#[trigger] cols[c]).cells[i] is Null,
{
}

// --- Conversions -------------------------------------------------------------------------------------------------

/// The whole number that a truth value or a number stands for.
pub open spec fn number_in(v: Val) -> Option<int> {
    match v {
        Val::Bool(b) => Some(
            if b {
                1
            } else {
                0
            },
        ),
        _ => v.as_int(),
    }
}

/// Adapting a value to a column of whole numbers keeps the number, or refuses it where the column
/// cannot hold it; NULL stays NULL, and a value of the column's own storage stays as it is.
pub proof fn adapting_keeps_the_number(ty: Ty, v: Val)
    ensures
        v is Null ==> adapted(ty, v) == Ok::<Val, Code>(Val::Null),
        v.phys() == Some(ty.phys()) ==> adapted(ty, v) == Ok::<Val, Code>(v),
        adapted(ty, v) matches Ok(x) ==> x.fits(ty.phys()),
        number_in(v) matches Some(k) ==> (adapted(ty, v) matches Ok(x) ==> !(ty.phys() is F64) ==> number_in(x) == Some(k)),
        number_in(v) is Some && (ty.phys() is I32 || ty.phys() is I64 || ty.phys() is I128) && adapted(ty, v) is Err
            ==> ty.phys() is I32 && !(i32::MIN <= number_in(v)->0 <= i32::MAX) || ty.phys() is I64 && !(i64::MIN <= number_in(
            v,
        )->0 <= i64::MAX),
{
}

// --- The types of aggregates -----------------------------------------------------------------------------------------

/// What aggregates give is of a type that says so: counts are whole numbers, averages and the
/// like doubles, a sum has the digits behind the point that the values have, and what picks a
/// value has its type.
pub proof fn aggregates_have_the_type_of_what_they_give(kind: AggKind, ty: Ty)
    ensures
        kind is Count || kind is CountStar || kind is CountIf || kind is ApproxCountDistinct ==> aggregate_ty(kind, ty) == Some(
            Ty::BigInt,
        ),
        kind is Min || kind is Max || kind is Mode || kind is AnyValue || kind is Last ==> aggregate_ty(kind, ty) == Some(ty),
        (kind is Avg || kind is StdDev || kind is Variance || kind is Median || kind is Product) && aggregate_ty(kind, ty)
            is Some ==> aggregate_ty(kind, ty) == Some(Ty::Double),
        kind is Sum && aggregate_ty(kind, ty) is Some ==> {
            let t = aggregate_ty(kind, ty)->0;
            &&& places(t) == places(ty)
            &&& ty.phys() == PhysType::F64 <==> t is Double
            &&& ty.phys() != PhysType::F64 ==> t.phys() == PhysType::I128
        },
        (kind is Sum || kind is Avg || kind is StdDev || kind is Variance || kind is Median || kind is Product) && (ty is Varchar
            || ty is Blob || ty is Json || ty is Boolean || ty is Date || ty is Time || ty is Timestamp || ty is Timestamptz
            || ty is Interval || ty is Uuid || ty is Null) ==> aggregate_ty(kind, ty) is None,
        (kind is Sum || kind is Avg || kind is StdDev || kind is Variance || kind is Median || kind is Product) && !(ty is Varchar
            || ty is Blob || ty is Json || ty is Boolean || ty is Date || ty is Time || ty is Timestamp || ty is Timestamptz
            || ty is Interval || ty is Uuid || ty is Null) ==> aggregate_ty(kind, ty) is Some,
{
}

} // verus!
