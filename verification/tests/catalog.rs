//! Byte sources, tables and the catalog.

use ahiru_core::abi::State;
use ahiru_core::catalog::{Catalog, Source, TablePart};
use ahiru_core::error::Error;
use ahiru_core::exec::{ExecContext, Operator, Scan, Step};
use ahiru_core::format::{CodecTask, Pruner, ResolveStep, TableFormat};
use ahiru_core::plan::ScanSpec;
use ahiru_core::vector::{dup_fields, Field, Ty, Value, Vector};
use ahiru_core::wire::{decode_multi_files, put_u32, put_u64};

#[test]
fn in_memory_source_serves_any_range() {
    let s = Source::from_bytes((0u8..=255).collect());
    assert_eq!(s.get(0, 4), Some(&[0u8, 1, 2, 3][..]));
    assert_eq!(s.get(250, 6), Some(&[250u8, 251, 252, 253, 254, 255][..]));
    assert_eq!(s.get(250, 7), None);
    assert!(s.is_complete());
}

#[test]
fn decompressed_pages_are_counted_once_each() {
    let mut s = Source::remote(100);
    assert_eq!(s.decoded_bytes(), 0);
    s.insert_decoded(0, 4, vec![1; 3]);
    s.insert_decoded(4, 4, vec![2; 9]);
    assert_eq!(s.decoded_bytes(), 12);
    // A page that comes again takes the place of the first one.
    s.insert_decoded(0, 4, vec![3; 5]);
    assert_eq!(s.decoded_bytes(), 14);
    assert_eq!(s.decoded_page(0, 4), Some(&[3u8; 5][..]));
    s.insert(0, vec![0; 10]);
    assert_eq!(s.decoded_bytes(), 14);
}

#[test]
fn an_empty_file_is_complete_once_it_is_there() {
    assert!(!Source::remote(0).is_complete());
    assert!(Source::from_bytes(Vec::new()).is_complete());
}

#[test]
fn a_scan_asks_for_bytes_and_then_returns_its_splits() {
    let schema = vec![Field::new("id", Ty::BigInt, false)];
    let mut c = Catalog::new();
    let format = MockFormat::new(dup_fields(&schema), 100, 2, 4);
    c.register("t", Source::remote(100), Box::new(format)).unwrap();
    let mut ctx = ExecContext::new(c);
    let spec = ScanSpec { table: 0, columns: vec![0], pruners: Vec::new(), schema };
    let mut scan = Scan::new(spec);
    for asked in 1..3 {
        assert!(matches!(scan.next(&mut ctx), Ok(Step::NeedIo)));
        assert_eq!(ctx.io.len(), asked);
        let last = &ctx.io[asked - 1];
        assert_eq!((last.table, last.part, last.offset, last.len), (0, 0, 0, 100));
    }
    ctx.catalog.get_mut(0).unwrap().parts[0].source.insert(0, vec![0; 100]);
    for _ in 0..2 {
        match scan.next(&mut ctx) {
            Ok(Step::Ready(b)) => assert_eq!(b.num_rows(), 4),
            _ => panic!("expected a batch"),
        }
    }
    assert!(matches!(scan.next(&mut ctx), Ok(Step::Done)));
    assert_eq!(ctx.io.len(), 2);
}

#[test]
fn a_scan_returns_the_splits_of_every_part_in_order() {
    let schema = vec![Field::new("id", Ty::BigInt, false)];
    let part = |path: &str, splits: usize, rows: u64| -> TablePart {
        TablePart {
            path: path.into(),
            source: Source::from_bytes(vec![0; 10]),
            format: Box::new(MockFormat::new(vec![Field::new("id", Ty::BigInt, false)], 10, splits, rows)),
        }
    };
    let mut c = Catalog::new();
    c.register_multi("t", vec![part("a", 2, 3), part("b", 0, 9), part("c", 1, 2)]).unwrap();
    let mut ctx = ExecContext::new(c);
    let mut scan = Scan::new(ScanSpec { table: 0, columns: vec![0], pruners: Vec::new(), schema });
    let mut sizes = Vec::new();
    while let Step::Ready(b) = scan.next(&mut ctx).unwrap() {
        sizes.push(b.num_rows());
    }
    assert_eq!(sizes, vec![3, 3, 2]);
    // The files are still there, with their bytes.
    let t = ctx.catalog.get_mut(0).unwrap();
    assert_eq!(t.parts.iter().map(|p| p.path.as_str()).collect::<Vec<_>>(), vec!["a", "b", "c"]);
    assert!(t.parts.iter().all(|p| p.source.is_complete()));
}

#[test]
fn remote_source_reports_missing_then_serves() {
    let mut s = Source::remote(1000);
    assert_eq!(s.missing(100, 50), Some((100, 50)));
    s.insert(100, vec![7u8; 50]);
    assert_eq!(s.missing(100, 50), None);
    assert_eq!(s.get(120, 10), Some(&[7u8; 10][..]));
    // No other range exists yet.
    assert_eq!(s.missing(300, 10), Some((300, 10)));
}

#[test]
fn adjacent_ranges_merge() {
    let mut s = Source::remote(300);
    s.insert(100, vec![1u8; 50]);
    s.insert(150, vec![2u8; 50]);
    // Coalesced, so it can be taken as a single slice.
    let got = s.get(140, 20).unwrap();
    assert_eq!(&got[..10], &[1u8; 10]);
    assert_eq!(&got[10..], &[2u8; 10]);
}

#[test]
fn overlapping_ranges_merge_without_duplication() {
    let mut s = Source::remote(300);
    s.insert(0, vec![1u8; 100]);
    s.insert(50, vec![2u8; 100]);
    assert_eq!(s.get(0, 150).unwrap().len(), 150);
    // The overlapping part keeps whichever arrived first, and only the non-overlapping remainder is added.
    assert_eq!(s.get(0, 150).unwrap()[99], 1);
    assert_eq!(s.get(0, 150).unwrap()[100], 2);
}

#[test]
fn missing_range_is_clamped_to_file_length() {
    let s = Source::remote(120);
    assert_eq!(s.missing(100, 500), Some((100, 20)));
}

#[test]
fn register_replaces_same_name_case_insensitively() {
    let mut c = Catalog::new();
    let a = c.register("Trips", Source::from_bytes(vec![1]), mock_format()).unwrap();
    let b = c.register("trips", Source::from_bytes(vec![2]), mock_format()).unwrap();
    assert_eq!(a, b);
    assert_eq!(c.len(), 1);
    assert_eq!(c.index_of("TRIPS"), Some(0));
}

// --- A mock TableFormat for multi-file tests ------------------------------
//
// We want to unit-test only how several parts are bundled, without dragging in the
// real Parquet/CSV parsers. So this defines a minimal format: "there are `total`
// bytes in all, and until they are present it requests `(0, total)`".

struct MockFormat {
    schema: Vec<Field>,
    total: u64,
    resolved: bool,
    rows_per_split: u64,
    splits: usize,
}

impl MockFormat {
    fn new(schema: Vec<Field>, total: u64, splits: usize, rows_per_split: u64) -> Self {
        MockFormat { schema, total, resolved: false, rows_per_split, splits }
    }
}

impl TableFormat for MockFormat {
    fn resolve(&mut self, src: &Source) -> Result<ResolveStep, Error> {
        if self.resolved {
            return Ok(Ok(()));
        }
        if src.get(0, self.total as usize).is_none() {
            return Ok(Err((0, self.total)));
        }
        self.resolved = true;
        Ok(Ok(()))
    }

    fn is_resolved(&self) -> bool {
        self.resolved
    }

    fn schema(&self) -> &[Field] {
        &self.schema
    }

    fn num_splits(&self) -> usize {
        self.splits
    }

    fn split_rows(&self, _split: usize) -> Option<u64> {
        Some(self.rows_per_split)
    }

    fn split_ranges(
        &self,
        _split: usize,
        _projection: &[usize],
    ) -> Result<Vec<(u64, u64)>, Error> {
        Ok(vec![(0, self.total)])
    }

    fn codec_tasks(
        &self,
        _src: &Source,
        _split: usize,
        _projection: &[usize],
    ) -> Result<Vec<CodecTask>, Error> {
        Ok(Vec::new())
    }

    fn may_match(&self, _split: usize, _pruners: &[Pruner], _projection: &[usize]) -> bool {
        true
    }

    fn index_ranges(
        &self,
        _split: usize,
        _pruners: &[Pruner],
        _projection: &[usize],
    ) -> Result<Vec<(u64, u64)>, Error> {
        Ok(Vec::new())
    }

    fn refine_with_index(
        &mut self,
        _src: &Source,
        _split: usize,
        _pruners: &[Pruner],
        _projection: &[usize],
    ) -> Result<bool, Error> {
        Ok(true)
    }

    fn read_split(
        &self,
        _src: &Source,
        _split: usize,
        projection: &[usize],
    ) -> Result<Vec<Vector>, Error> {
        let n = self.rows_per_split as usize;
        Ok(projection
            .iter()
            .map(|&c| {
                let mut v = Vector::with_capacity(self.schema[c].ty, n);
                for i in 0..n {
                    v.push_value(&Value::I64(i as i64));
                }
                v
            })
            .collect())
    }
}

fn mock_format() -> Box<dyn TableFormat> {
    Box::new(MockFormat::new(vec![Field::new("id", Ty::BigInt, false)], 1, 1, 4))
}

fn mock_part(path: &str, schema: Vec<Field>, total: u64) -> TablePart {
    TablePart {
        path: path.into(),
        source: Source::remote(total),
        format: Box::new(MockFormat::new(schema, total, 1, 4)),
    }
}

#[test]
fn resolve_unions_needio_across_parts() {
    let schema = vec![Field::new("id", Ty::BigInt, false)];
    let parts = vec![
        mock_part("a.parquet", dup_fields(&schema), 100),
        mock_part("b.parquet", dup_fields(&schema), 200),
        mock_part("c.parquet", schema, 300),
    ];
    let mut c = Catalog::new();
    let i = c.register_multi("t", parts).unwrap();
    let t = c.get_mut(i).unwrap();

    // No part has any bytes yet, so requests for all three come back together.
    let need = match t.resolve().unwrap() {
        Err(need) => need,
        Ok(()) => panic!("expected NeedIo"),
    };
    assert_eq!(need.len(), 3);
    let mut sorted = need.clone();
    sorted.sort_by_key(|(p, _, _)| *p);
    assert_eq!(sorted, vec![(0, 0, 100), (1, 0, 200), (2, 0, 300)]);
    assert!(!t.is_resolved());
}

#[test]
fn resolve_progresses_as_parts_arrive_incrementally() {
    let schema = vec![Field::new("id", Ty::BigInt, false)];
    let parts =
        vec![mock_part("a.parquet", dup_fields(&schema), 100), mock_part("b.parquet", schema, 200)];
    let mut c = Catalog::new();
    let i = c.register_multi("t", parts).unwrap();

    // Deliver only the first part.
    {
        let t = c.get_mut(i).unwrap();
        t.parts[0].source.insert(0, vec![0u8; 100]);
        let need = match t.resolve().unwrap() {
            Err(need) => need,
            Ok(()) => panic!("expected NeedIo"),
        };
        // Only the second part is still needed.
        assert_eq!(need, vec![(1, 0, 200)]);
    }

    // Deliver the second part too.
    {
        let t = c.get_mut(i).unwrap();
        t.parts[1].source.insert(0, vec![0u8; 200]);
        assert!(t.resolve().unwrap().is_ok());
        assert!(t.is_resolved());
        assert_eq!(t.schema().len(), 1);
    }
}

#[test]
fn schema_mismatch_across_parts_is_rejected() {
    let a_schema = vec![Field::new("id", Ty::BigInt, false)];
    let b_schema =
        vec![Field::new("id", Ty::Varchar, false), Field::new("extra", Ty::Int, true)];
    let mut c = Catalog::new();
    let i = c
        .register_multi(
            "t",
            vec![mock_part("a.parquet", a_schema, 10), mock_part("b.parquet", b_schema, 10)],
        )
        .unwrap();
    let t = c.get_mut(i).unwrap();
    for p in &mut t.parts {
        p.source.insert(0, vec![0u8; 10]);
    }
    // Different column counts, hence TypeMismatch.
    assert!(t.resolve().is_err());
}

#[test]
fn schema_type_mismatch_is_rejected_when_unify_fails() {
    // VARCHAR and INTEGER are a combination that cannot be unified.
    let a_schema = vec![Field::new("id", Ty::Varchar, false)];
    let b_schema = vec![Field::new("id", Ty::Int, false)];
    let mut c = Catalog::new();
    let i = c
        .register_multi(
            "t",
            vec![mock_part("a.parquet", a_schema, 10), mock_part("b.parquet", b_schema, 10)],
        )
        .unwrap();
    let t = c.get_mut(i).unwrap();
    for p in &mut t.parts {
        p.source.insert(0, vec![0u8; 10]);
    }
    assert!(t.resolve().is_err());
}

#[test]
fn nullable_widens_and_type_unifies_across_parts() {
    // INT and BIGINT widen to BIGINT, and NOT NULL with NULL widens to nullable.
    let a_schema = vec![Field::new("id", Ty::Int, false)];
    let b_schema = vec![Field::new("id", Ty::BigInt, true)];
    let mut c = Catalog::new();
    let i = c
        .register_multi(
            "t",
            vec![mock_part("a.parquet", a_schema, 10), mock_part("b.parquet", b_schema, 10)],
        )
        .unwrap();
    let t = c.get_mut(i).unwrap();
    for p in &mut t.parts {
        p.source.insert(0, vec![0u8; 10]);
    }
    assert!(t.resolve().unwrap().is_ok());
    let s = t.schema();
    assert_eq!(s.len(), 1);
    assert_eq!(s[0].ty, Ty::BigInt);
    assert!(s[0].nullable);
    // Column names follow the first part.
    assert_eq!(s[0].name, "id");
}

#[test]
fn columns_swapped_across_parts_are_rejected_even_when_types_would_unify() {
    // a.parquet: (id INT, region VARCHAR) / b.parquet: (region VARCHAR, id INT).
    // Aligning by position alone would still be noticed here, since INT<->VARCHAR
    // cannot be unified, but for a combination where the types happen to be
    // compatible (both VARCHAR, say), aligning by position without looking at names
    // would silently merge columns of different meaning. Requiring the names to line
    // up positionally rejects that.
    let a_schema =
        vec![Field::new("id", Ty::Varchar, false), Field::new("region", Ty::Varchar, false)];
    let b_schema =
        vec![Field::new("region", Ty::Varchar, false), Field::new("id", Ty::Varchar, false)];
    let mut c = Catalog::new();
    let i = c
        .register_multi(
            "t",
            vec![mock_part("a.parquet", a_schema, 10), mock_part("b.parquet", b_schema, 10)],
        )
        .unwrap();
    let t = c.get_mut(i).unwrap();
    for p in &mut t.parts {
        p.source.insert(0, vec![0u8; 10]);
    }
    assert!(t.resolve().is_err(), "parts with a different column order must be rejected even when the types are compatible");
}

#[test]
fn column_name_case_differs_across_parts_still_unifies() {
    // Column name comparison ignores case (the same convention as the other name
    // comparisons in this file, such as `index_of`).
    let a_schema = vec![Field::new("ID", Ty::Int, false)];
    let b_schema = vec![Field::new("id", Ty::Int, false)];
    let mut c = Catalog::new();
    let i = c
        .register_multi(
            "t",
            vec![mock_part("a.parquet", a_schema, 10), mock_part("b.parquet", b_schema, 10)],
        )
        .unwrap();
    let t = c.get_mut(i).unwrap();
    for p in &mut t.parts {
        p.source.insert(0, vec![0u8; 10]);
    }
    assert!(t.resolve().unwrap().is_ok());
}

// CSV is used as the fixture, so `csv` is required (resolving `mock_format()`
// gives UnsupportedFeature without it).
#[test]
fn single_part_register_is_unchanged() {
    let mut c = Catalog::new();
    let i = c.register("t", Source::from_bytes(vec![1, 2, 3]), mock_format()).unwrap();
    let t = c.get(i).unwrap();
    assert_eq!(t.parts.len(), 1);
    assert_eq!(t.parts[0].path, "t");
}

// --- Direct unit tests of MemTable (`ddl`) --------------------------------
//
// The ADD/DROP/RENAME COLUMN tests up to here all went through `ddl.rs` or the
// integration tests (by throwing SQL strings at it). These call the `Catalog::mem_*`
// methods themselves and check the invariant that the schema and every row's length stay equal.

fn mem_catalog_with_two_rows() -> (Catalog, usize) {
    let mut c = Catalog::new();
    let i = c
        .mem_create(
            "t",
            vec![Field::new("a", Ty::Int, false), Field::new("b", Ty::Varchar, true)],
            false,
        )
        .unwrap();
    c.mem_get_mut(i).unwrap().rows = vec![
        vec![Value::I32(1), Value::Bytes(b"x".to_vec())],
        vec![Value::I32(2), Value::Bytes(b"y".to_vec())],
    ];
    (c, i)
}

fn assert_schema_and_rows_stay_in_sync(c: &Catalog, i: usize) {
    let mt = c.mem_get(i).unwrap();
    for (r, row) in mt.rows.iter().enumerate() {
        assert_eq!(
            row.len(),
            mt.schema.len(),
            "row {r} has length {} but the schema has {} columns",
            row.len(),
            mt.schema.len()
        );
    }
}

#[test]
fn mem_add_column_backfills_existing_rows_and_rejects_duplicate_name() {
    let (mut c, i) = mem_catalog_with_two_rows();
    c.mem_add_column(i, Field::new("c", Ty::Boolean, true), Value::Bool(true)).unwrap();
    let mt = c.mem_get(i).unwrap();
    assert_eq!(mt.schema.len(), 3);
    assert_eq!(mt.rows[0][2], Value::Bool(true));
    assert_eq!(mt.rows[1][2], Value::Bool(true));
    assert_schema_and_rows_stay_in_sync(&c, i);

    // A collision with an existing column name (ignoring case) is rejected.
    let r = c.mem_add_column(i, Field::new("A", Ty::Int, true), Value::Null);
    assert!(r.is_err());
}

#[test]
fn mem_drop_column_removes_slot_from_every_row_down_to_zero_columns() {
    let (mut c, i) = mem_catalog_with_two_rows();
    c.mem_drop_column(i, "b").unwrap();
    assert_eq!(c.mem_get(i).unwrap().schema.len(), 1);
    assert_schema_and_rows_stay_in_sync(&c, i);

    // Even the last remaining column can be dropped (unlike DuckDB, no constraint is
    // imposed, since this is not columnar).
    c.mem_drop_column(i, "a").unwrap();
    let mt = c.mem_get(i).unwrap();
    assert_eq!(mt.schema.len(), 0);
    assert!(mt.rows.iter().all(|r| r.is_empty()));
    assert_schema_and_rows_stay_in_sync(&c, i);

    // A column that does not exist.
    assert!(c.mem_drop_column(i, "nope").is_err());
}

#[test]
fn mem_rename_column_updates_name_without_touching_data() {
    let (mut c, i) = mem_catalog_with_two_rows();
    c.mem_rename_column(i, "a", "a2").unwrap();
    let mt = c.mem_get(i).unwrap();
    assert_eq!(mt.schema[0].name, "a2");
    assert_eq!(mt.rows[0][0], Value::I32(1), "the data is unchanged");

    // An old name that does not exist.
    assert!(c.mem_rename_column(i, "nope", "x").is_err());
    // A collision with another existing column name.
    assert!(c.mem_rename_column(i, "a2", "b").is_err());
}

// CSV is used as the fixture, so `csv` is required (resolving `mock_format()`
// gives UnsupportedFeature without it).
#[test]
fn mem_rename_table_allows_case_only_change_but_rejects_real_collisions() {
    let (mut c, i) = mem_catalog_with_two_rows();
    // A change of case only (renaming to itself) is allowed.
    c.mem_rename_table(i, "T").unwrap();
    assert_eq!(c.mem_get(i).unwrap().name, "T");

    // Collisions with another in-memory table or a file-backed table are rejected.
    c.mem_create("other", vec![Field::new("x", Ty::Int, true)], false).unwrap();
    assert!(c.mem_rename_table(i, "other").is_err());
    c.register("filetable", Source::from_bytes(vec![1]), mock_format()).unwrap();
    assert!(c.mem_rename_table(i, "filetable").is_err());
}

#[test]
fn mem_schema_row_length_invariant_survives_add_drop_rename_sequence() {
    let (mut c, i) = mem_catalog_with_two_rows();
    c.mem_add_column(i, Field::new("c", Ty::Boolean, true), Value::Null).unwrap();
    assert_schema_and_rows_stay_in_sync(&c, i);
    c.mem_rename_column(i, "b", "b2").unwrap();
    assert_schema_and_rows_stay_in_sync(&c, i);
    c.mem_drop_column(i, "a").unwrap();
    assert_schema_and_rows_stay_in_sync(&c, i);
    c.mem_add_column(i, Field::new("d", Ty::Varchar, true), Value::Bytes(b"z".to_vec()))
        .unwrap();
    assert_schema_and_rows_stay_in_sync(&c, i);
    let mt = c.mem_get(i).unwrap();
    assert_eq!(mt.schema.len(), 3);
    assert_eq!(mt.schema[0].name, "b2");
    assert_eq!(mt.schema[1].name, "c");
    assert_eq!(mt.schema[2].name, "d");
}

// --- A table of several files, listed as bytes ------------------------------

/// Registers the files that `files` lists with the catalog behind a handle; -1 if that fails.
fn register_listed(state: &mut State<Catalog, i32>, h: i32, name: &str, files: &[u8]) -> i32 {
    state.clear_error();
    let listed = match decode_multi_files(files) {
        Ok(listed) => listed,
        Err(e) => {
            state.fail(e.code);
            return -1;
        }
    };
    let parts = listed.iter().map(|(path, len)| TablePart::new(path, Source::remote(*len), mock_format())).collect();
    let i = state.sessions.find(h).unwrap();
    match state.sessions.slots[i].as_mut().unwrap().register_multi(name, parts) {
        Ok(t) => t as i32,
        Err(e) => {
            state.fail(e.code);
            -1
        }
    }
}

#[test]
fn ahiru_register_multi_registers_all_parts() {
    let mut state: State<Catalog, i32> = State::new();
    let h = state.sessions.open(Catalog::new());
    let mut files = Vec::new();
    put_u32(&mut files, 2);
    for (path, len) in [("data/year=2024/month=01/a.parquet", 100), ("data/year=2024/month=02/b.parquet", 200)] {
        put_u32(&mut files, path.len() as u32);
        files.extend_from_slice(path.as_bytes());
        put_u64(&mut files, len);
    }
    let idx = register_listed(&mut state, h, "t", &files);
    assert!(idx >= 0, "register_multi failed: last_error={}", state.last_error);

    let s = state.sessions.find(h).unwrap();
    let c = state.sessions.slots[s].as_ref().unwrap();
    let t = c.get(idx as usize).unwrap();
    assert_eq!(t.parts.len(), 2);
    assert_eq!(t.parts[0].path, "data/year=2024/month=01/a.parquet");
}

#[test]
fn ahiru_register_multi_rejects_garbage_wire_data() {
    let mut state: State<Catalog, i32> = State::new();
    let h = state.sessions.open(Catalog::new());
    let garbage = [0xFFu8; 3]; // too short to even read the count field
    let idx = register_listed(&mut state, h, "t", &garbage);
    assert_eq!(idx, -1);
    assert_ne!(state.last_error, 0);
}
