//! Handles, the tables behind them, and what is exchanged as bytes.

use ahiru_core::abi::{
    format_kind, make_query_handle, split_query_handle, Prepared, QueryStep, State, QUERY_GENERATIONS, QUERY_SLOTS,
    STATUS_BATCH_READY, STATUS_DONE, STATUS_ERROR, STATUS_NEED_CODEC, STATUS_NEED_IO,
};
use ahiru_core::error::{code_of, Code, Error};
use ahiru_core::exec::{CodecRequest, IoRequest};
use ahiru_core::format::{Compression, FormatKind};
use ahiru_core::vector::{Batch, Field, Ty, Value, Vector};
use ahiru_core::wire::{
    decode_multi_files, decode_params, encode_batch, encode_codec, encode_io, encode_schema, put_le, put_u32, put_u64,
    ty_code, RESULT_MAGIC,
};

/// The inverse of `decode_multi_files`.
fn encode_multi_files(files: &[(&str, u64)]) -> Vec<u8> {
    let mut out = Vec::new();
    put_u32(&mut out, files.len() as u32);
    for (path, total_len) in files {
        put_u32(&mut out, path.len() as u32);
        out.extend_from_slice(path.as_bytes());
        put_u64(&mut out, *total_len);
    }
    out
}

#[test]
fn multi_files_wire_format_round_trips() {
    let files = [("a.parquet", 100u64), ("year=2024/b.parquet", 200), ("", 0)];
    let buf = encode_multi_files(&files);
    let decoded = decode_multi_files(&buf).unwrap();
    assert_eq!(decoded.len(), 3);
    assert_eq!(decoded[0], ("a.parquet".to_string(), 100));
    assert_eq!(decoded[1], ("year=2024/b.parquet".to_string(), 200));
    assert_eq!(decoded[2], ("".to_string(), 0));
}

#[test]
fn multi_files_empty_list_round_trips() {
    let buf = encode_multi_files(&[]);
    assert_eq!(decode_multi_files(&buf).unwrap(), Vec::new());
}

#[test]
fn multi_files_truncated_buffer_is_rejected() {
    let mut buf = encode_multi_files(&[("a.parquet", 100)]);
    buf.truncate(buf.len() - 1);
    assert!(decode_multi_files(&buf).is_err());
}

#[test]
fn every_cut_of_a_file_list_is_noticed() {
    let buf = encode_multi_files(&[("a.parquet", 100), ("d\u{e9}j\u{e0}.csv", 7), ("", 0)]);
    for n in 0..buf.len() {
        assert_eq!(code_of(decode_multi_files(&buf[..n])), Some(Code::UnexpectedEof));
    }
}

#[test]
fn messages_tell_codes_apart() {
    let codes = [
        Code::UnexpectedEof,
        Code::BadMagic,
        Code::BadThrift,
        Code::BadVarint,
        Code::NestingTooDeep,
        Code::BadPageHeader,
        Code::BadCompressedData,
        Code::ChecksumMismatch,
        Code::UnsupportedEncoding,
        Code::UnsupportedCodec,
        Code::UnsupportedType,
        Code::UnsupportedNested,
        Code::EncryptionUnsupported,
        Code::SyntaxError,
        Code::UnexpectedToken,
        Code::UnterminatedString,
        Code::NumberOverflow,
        Code::ExpressionTooDeep,
        Code::TableNotFound,
        Code::ColumnNotFound,
        Code::AmbiguousColumn,
        Code::FunctionNotFound,
        Code::TypeMismatch,
        Code::InvalidCast,
        Code::WrongArgCount,
        Code::NotAggregate,
        Code::NotGrouped,
        Code::UnsupportedFeature,
        Code::DuplicateTable,
        Code::ColumnCountMismatch,
        Code::ReadOnlyTable,
        Code::DuplicateColumn,
        Code::Oom,
        Code::LimitExceeded,
        Code::DivideByZero,
        Code::ValueOutOfRange,
        Code::IoFailed,
        Code::RecursionLimitExceeded,
        Code::MultipleRowsSubquery,
        Code::Internal,
    ];
    for (i, a) in codes.iter().enumerate() {
        for b in &codes[..i] {
            assert_ne!(Error::new(*a).message(), Error::new(*b).message());
        }
    }
    assert_eq!(Error::new(Code::Oom).message(), "out of memory");
}

#[test]
fn multi_files_are_utf8_and_not_too_many() {
    let buf = encode_multi_files(&[("d\u{e9}j\u{e0}/\u{1f986}.csv", 7)]);
    assert_eq!(decode_multi_files(&buf).unwrap(), vec![("d\u{e9}j\u{e0}/\u{1f986}.csv".to_string(), 7)]);
    let mut bad = encode_multi_files(&[("abc", 7)]);
    bad[9] = 0xff;
    assert_eq!(code_of(decode_multi_files(&bad)), Some(Code::Internal));
    assert_eq!(code_of(decode_multi_files(&4097u32.to_le_bytes())), Some(Code::LimitExceeded));
    assert_eq!(code_of(decode_multi_files(&[0, 0, 0])), Some(Code::UnexpectedEof));
    assert_eq!(code_of(decode_multi_files(&[1, 0, 0, 0, 9, 0, 0, 0, b'a'])), Some(Code::UnexpectedEof));
}

#[test]
fn query_handle_round_trips_through_pack_and_split() {
    let last_slot = QUERY_SLOTS - 1;
    let last_generation = QUERY_GENERATIONS - 1;
    assert_eq!(split_query_handle(make_query_handle(0, 0)), Some((0, 0)));
    assert_eq!(split_query_handle(make_query_handle(7, 3)), Some((7, 3)));
    assert_eq!(
        split_query_handle(make_query_handle(last_slot, last_generation)),
        Some((last_slot, last_generation))
    );
    // The sign bit must never be set for a valid handle: it is reserved
    // for the -1/-2 error and NEED_IO sentinels.
    assert!(make_query_handle(last_slot, last_generation) >= 0);
    // Negative values (the sentinels) never decode to a slot.
    assert_eq!(split_query_handle(-1), None);
    assert_eq!(split_query_handle(-2), None);
}

// --- Queries ----------------------------------------------------------------

/// The state of a module whose queries are numbers that count down.
type Module = State<(), i32>;

fn start_query(m: &mut Module, h: i32, rows: i32) -> i32 {
    m.clear_error();
    let s = m.sessions.find(h).unwrap();
    let q = m.query_prepared(s, Ok(Prepared::Ready(rows)));
    assert!(q >= 0, "query_start failed: last_error={}", m.last_error);
    q
}

fn step_query(m: &mut Module, q: i32) -> i32 {
    m.clear_error();
    let Some((at, mut slot)) = m.take_query(q) else { return STATUS_ERROR };
    let r = if slot.query > 0 {
        slot.query -= 1;
        Ok(QueryStep::Batch(Batch::rows_only(3)))
    } else {
        Ok(QueryStep::Done)
    };
    m.query_stepped(at, slot, r)
}

#[test]
fn query_slot_is_reused_and_vec_does_not_grow_across_cycles() {
    let mut m = Module::new();
    let h = m.sessions.open(());
    for _ in 0..50 {
        let q = start_query(&mut m, h, 1);
        // One live query: never more than one slot in use.
        assert_eq!(m.queries.slots.len(), 1);
        m.queries.close(q);
        // Closing the only open query also takes away the now-empty tail.
        assert_eq!(m.queries.slots.len(), 0);
    }
    m.sessions.free(h);
}

#[test]
fn stale_handle_is_rejected_after_its_slot_is_reused() {
    let mut m = Module::new();
    let h = m.sessions.open(());
    let q1 = start_query(&mut m, h, 1);
    m.queries.close(q1);

    let q2 = start_query(&mut m, h, 1);
    // The closed slot's index was reused for the new query...
    assert_eq!(
        split_query_handle(q1).unwrap().0,
        split_query_handle(q2).unwrap().0,
        "test assumes the slot was reused"
    );
    // ...but the generation bump means the two handles differ.
    assert_ne!(q1, q2);

    // The stale handle must not be able to step or close the new query.
    assert_eq!(step_query(&mut m, q1), STATUS_ERROR);
    m.queries.close(q1);
    assert_ne!(
        step_query(&mut m, q2),
        STATUS_ERROR,
        "the live query must be unaffected by operations on the stale handle"
    );

    m.queries.close(q2);
    m.sessions.free(h);
}

#[test]
fn a_slot_is_not_opened_again_once_its_generations_are_used_up() {
    let mut m = Module::new();
    let h = m.sessions.open(());
    let first = start_query(&mut m, h, 1);
    m.queries.close(first);
    for _ in 1..QUERY_GENERATIONS {
        let q = start_query(&mut m, h, 1);
        m.queries.close(q);
    }
    let s = m.sessions.find(h).unwrap();
    assert_eq!(m.query_prepared(s, Ok(Prepared::Ready(1))), -1);
    assert_eq!(m.last_error, 501);
    assert_eq!(step_query(&mut m, first), STATUS_ERROR);
}

#[test]
fn a_query_ends_with_its_session() {
    let mut m = Module::new();
    let h = m.sessions.open(());
    let other = m.sessions.open(());
    assert_eq!((h, other), (0, 1));
    let q = start_query(&mut m, h, 2);
    let p = start_query(&mut m, other, 2);
    m.sessions.free(h);
    assert_eq!(step_query(&mut m, q), STATUS_ERROR);
    assert_eq!(step_query(&mut m, p), STATUS_BATCH_READY);
    assert_eq!(m.sessions.find(h), None);
    assert_eq!(m.sessions.find(-1), None);
    // The number is used again.
    assert_eq!(m.sessions.open(()), h);
    m.sessions.free(other);
    m.sessions.free(h);
    assert!(m.sessions.slots.is_empty());
}

#[test]
fn a_step_leaves_its_answer_for_the_host() {
    let mut m = Module::new();
    let h = m.sessions.open(());
    let q = start_query(&mut m, h, 1);
    assert_eq!(step_query(&mut m, q), STATUS_BATCH_READY);
    let mut header = Vec::new();
    put_u32(&mut header, RESULT_MAGIC);
    put_u32(&mut header, 0);
    put_u32(&mut header, 3);
    assert_eq!(m.out, header);
    assert_eq!(step_query(&mut m, q), STATUS_DONE);
    assert_eq!(m.out, header);

    let io = vec![IoRequest { table: 1, part: 2, offset: 3, len: 4 }];
    let (at, slot) = m.take_query(q).unwrap();
    assert_eq!(m.query_stepped(at, slot, Ok(QueryStep::NeedIo(io.clone()))), STATUS_NEED_IO);
    assert_eq!(m.out, encode_io(&io));
    let (at, slot) = m.take_query(q).unwrap();
    assert_eq!(m.query_stepped(at, slot, Ok(QueryStep::NeedCodec(Vec::new()))), STATUS_NEED_CODEC);
    assert_eq!(m.out, vec![0, 0, 0, 0]);
    let (at, slot) = m.take_query(q).unwrap();
    assert_eq!(m.query_stepped(at, slot, Err(Error::new(Code::DivideByZero))), STATUS_ERROR);
    assert_eq!(m.last_error, 502);

    let s = m.sessions.find(h).unwrap();
    assert_eq!(m.query_prepared(s, Ok(Prepared::NeedIo(io.clone()))), -2);
    assert_eq!(m.out, encode_io(&io));
    assert_eq!(m.query_prepared(s, Err(Error::new(Code::SyntaxError))), -1);
    assert_eq!(m.last_error, 300);
}

// --- Bytes ------------------------------------------------------------------

#[test]
fn numbers_are_little_endian() {
    let mut out = Vec::new();
    put_le(&mut out, -2, 4);
    put_le(&mut out, i128::MIN, 16);
    put_u32(&mut out, 0x0102_0304);
    put_u64(&mut out, 0x0102_0304_0506_0708);
    let mut expected = (-2i32).to_le_bytes().to_vec();
    expected.extend_from_slice(&i128::MIN.to_le_bytes());
    expected.extend_from_slice(&0x0102_0304u32.to_le_bytes());
    expected.extend_from_slice(&0x0102_0304_0506_0708u64.to_le_bytes());
    assert_eq!(out, expected);
}

#[test]
fn requests_are_written_field_by_field() {
    let io = vec![
        IoRequest { table: 1, part: 2, offset: 3, len: 4 },
        IoRequest { table: 5, part: 6, offset: u64::MAX, len: 8 },
    ];
    let mut expected = Vec::new();
    for x in [2u32, 1, 2] {
        expected.extend_from_slice(&x.to_le_bytes());
    }
    for x in [3u64, 4] {
        expected.extend_from_slice(&x.to_le_bytes());
    }
    for x in [5u32, 6] {
        expected.extend_from_slice(&x.to_le_bytes());
    }
    for x in [u64::MAX, 8] {
        expected.extend_from_slice(&x.to_le_bytes());
    }
    assert_eq!(encode_io(&io), expected);

    let codec = vec![CodecRequest { table: 1, part: 2, codec: Compression::Zstd, offset: 3, len: 4, out_len: 5 }];
    let mut expected = Vec::new();
    for x in [1u32, 1, 2, 6] {
        expected.extend_from_slice(&x.to_le_bytes());
    }
    expected.extend_from_slice(&3u64.to_le_bytes());
    for x in [4u32, 5] {
        expected.extend_from_slice(&x.to_le_bytes());
    }
    assert_eq!(encode_codec(&codec), expected);
}

#[test]
fn schemas_carry_types_names_and_decimal_parts() {
    let fields = vec![Field::new("n", Ty::Decimal { precision: 18, scale: 3 }, true), Field::new("\u{e9}", Ty::Timestamptz, true)];
    let mut expected = Vec::new();
    for x in [2u32, 13, 2, 18, 3, 1] {
        expected.extend_from_slice(&x.to_le_bytes());
    }
    // The second column starts behind the first one's name.
    expected.push(b'n');
    for x in [22u32, 2, 0, 0, 2] {
        expected.extend_from_slice(&x.to_le_bytes());
    }
    expected.extend_from_slice("\u{e9}".as_bytes());
    assert_eq!(encode_schema(&fields), expected);
    assert_eq!(ty_code(Ty::Null), 0);
    assert_eq!(ty_code(Ty::Uuid), 21);
}

#[test]
fn batches_are_written_column_by_column() {
    let mut a = Vector::new(Ty::Int);
    let mut b = Vector::new(Ty::Varchar);
    let mut c = Vector::new(Ty::Boolean);
    for i in 0..3 {
        if i == 1 {
            a.push_null();
        } else {
            a.push_value(&Value::I32(i - 5));
        }
        b.push_value(&Value::Bytes(vec![b'x'; i as usize]));
        c.push_value(&Value::Bool(i != 1));
    }
    let mut expected = Vec::new();
    for x in [RESULT_MAGIC, 3, 3] {
        expected.extend_from_slice(&x.to_le_bytes());
    }
    // INTEGER: the validity bitmap, then the numbers, with a zero for NULL.
    for x in [1u32, 8] {
        expected.extend_from_slice(&x.to_le_bytes());
    }
    expected.extend_from_slice(&0b101u64.to_le_bytes());
    expected.extend_from_slice(&12u32.to_le_bytes());
    for x in [-5i32, 0, -3] {
        expected.extend_from_slice(&x.to_le_bytes());
    }
    // VARCHAR: no validity, offsets, bytes.
    for x in [5u32, 0, 16, 0, 0, 1, 3, 3] {
        expected.extend_from_slice(&x.to_le_bytes());
    }
    expected.extend_from_slice(b"xxx");
    // BOOLEAN: no validity, a bitmap.
    for x in [0u32, 0, 8] {
        expected.extend_from_slice(&x.to_le_bytes());
    }
    expected.extend_from_slice(&0b101u64.to_le_bytes());
    assert_eq!(encode_batch(&Batch::new(vec![a, b, c])), expected);
}

#[test]
fn wide_numbers_keep_their_width() {
    let mut a = Vector::new(Ty::HugeInt);
    a.push_value(&Value::I128(-1));
    let mut b = Vector::new(Ty::Double);
    b.push_value(&Value::F64((-0.5f64).to_bits()));
    let mut c = Vector::new(Ty::BigInt);
    c.push_value(&Value::I64(i64::MIN));
    let mut expected = Vec::new();
    for x in [RESULT_MAGIC, 3, 1, 4, 0, 16] {
        expected.extend_from_slice(&x.to_le_bytes());
    }
    expected.extend_from_slice(&(-1i128).to_le_bytes());
    for x in [3u32, 0, 8] {
        expected.extend_from_slice(&x.to_le_bytes());
    }
    expected.extend_from_slice(&(-0.5f64).to_le_bytes());
    for x in [2u32, 0, 8] {
        expected.extend_from_slice(&x.to_le_bytes());
    }
    expected.extend_from_slice(&i64::MIN.to_le_bytes());
    assert_eq!(encode_batch(&Batch::new(vec![a, b, c])), expected);
}

#[test]
fn parameters_are_read_by_their_tags() {
    let mut buf = Vec::new();
    put_u32(&mut buf, 5);
    buf.push(0);
    buf.extend_from_slice(&[1, 7]);
    buf.push(2);
    buf.extend_from_slice(&(-9i64).to_le_bytes());
    buf.push(3);
    buf.extend_from_slice(&2.5f64.to_le_bytes());
    buf.push(4);
    buf.extend_from_slice(&3u32.to_le_bytes());
    buf.extend_from_slice(b"abc");
    let got = decode_params(&buf).unwrap();
    assert_eq!(
        got,
        vec![
            Value::Null,
            Value::Bool(true),
            Value::I64(-9),
            Value::F64(2.5f64.to_bits()),
            Value::Bytes(b"abc".to_vec()),
        ]
    );
    // Every cut is noticed.
    for n in 1..buf.len() {
        assert_eq!(code_of(decode_params(&buf[..n])), Some(Code::UnexpectedEof));
    }
    assert!(decode_params(&[]).unwrap().is_empty());
    assert_eq!(code_of(decode_params(&[1, 0, 0, 0, 5])), Some(Code::BadThrift));
    assert_eq!(code_of(decode_params(&4097u32.to_le_bytes())), Some(Code::LimitExceeded));
}

#[test]
fn formats_have_numbers() {
    assert_eq!(format_kind(0).unwrap(), FormatKind::Auto);
    assert_eq!(format_kind(1).unwrap(), FormatKind::Parquet);
    assert_eq!(format_kind(2).unwrap(), FormatKind::Csv);
    assert_eq!(format_kind(3).unwrap(), FormatKind::Tsv);
    assert_eq!(format_kind(4).unwrap(), FormatKind::Jsonl);
    assert_eq!(code_of(format_kind(5)), Some(Code::UnsupportedFeature));
}
