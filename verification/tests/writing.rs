//! Tests for the columnar writer: codec selection, the full-pipeline
//! round trip, the empty file, and the failure path.
use std::io;
use std::io::Write;
use std::sync::Arc;
use std::sync::Mutex;

use arrow::array::StringArray;
use arrow::array::UInt64Array;
use parquet::arrow::arrow_reader::ParquetRecordBatchReaderBuilder;

use rs_wikix2parquet::IxError;
use rs_wikix2parquet::ix::IndexEntry;
use rs_wikix2parquet::ix::lines2entries;
use rs_wikix2parquet::rows2batches::IndexBatchIter;
use rs_wikix2parquet::wtr::Codec;
use rs_wikix2parquet::wtr::EntriesToParquet;
use rs_wikix2parquet::wtr::iter2wtr;
use rs_wikix2parquet::wtr::str2comp;

/// An owned sink whose bytes stay reachable after the writer consumed it.
#[derive(Clone)]
struct SharedBuf(Arc<Mutex<Vec<u8>>>);

impl SharedBuf {
    fn new() -> SharedBuf {
        SharedBuf(Arc::new(Mutex::new(Vec::new())))
    }

    fn bytes(&self) -> Vec<u8> {
        self.0.lock().unwrap().clone()
    }
}

impl Write for SharedBuf {
    fn write(&mut self, buf: &[u8]) -> io::Result<usize> {
        self.0.lock().unwrap().extend_from_slice(buf);
        Ok(buf.len())
    }

    fn flush(&mut self) -> io::Result<()> {
        Ok(())
    }
}

/// A sink that accepts only `budget` bytes, then fails every write.
struct FailingSink {
    out: SharedBuf,
    budget: usize,
}

impl Write for FailingSink {
    fn write(&mut self, buf: &[u8]) -> io::Result<usize> {
        if buf.len() > self.budget {
            return Err(io::Error::other("sink is full"));
        }
        self.budget -= buf.len();
        self.out.write(buf)
    }

    fn flush(&mut self) -> io::Result<()> {
        Ok(())
    }
}

#[test]
fn ordinary_batches_fit_the_column_limits() {
    let items = vec![
        IndexEntry::from_str("5:6:seven"),
        IndexEntry::from_str(&format!("8:9:{}", "t".repeat(4096))),
    ];
    let mut it = IndexBatchIter::new(items, 8);
    let batch = it.next().unwrap().unwrap();
    assert!(rs_wikix2parquet::wtr::batch_fits_columns(&batch));
}

#[test]
fn str2comp_maps_the_known_names() {
    assert_eq!(str2comp("raw").unwrap(), Codec::Uncompressed);
    assert_eq!(str2comp("snappy").unwrap(), Codec::Snappy);
    assert_eq!(str2comp("lzo").unwrap(), Codec::Lzo);
    assert_eq!(str2comp("lz4").unwrap(), Codec::Lz4);
}

#[test]
fn str2comp_rejects_unknown_names() {
    assert_eq!(str2comp("zstd").unwrap_err(), IxError::BadCodec);
    assert_eq!(str2comp("Raw").unwrap_err(), IxError::BadCodec);
    assert_eq!(str2comp("").unwrap_err(), IxError::BadCodec);
}

#[test]
fn round_trip_preserves_entries_order_and_boundaries() {
    let lines: Vec<Result<String, IxError>> = vec![
        Ok("0:10:Alpha".to_string()),
        Ok("57:11:Beta: The Return".to_string()),
        Ok("123:12:Gamma".to_string()),
        Ok("999::".to_string()),
        Ok("18446744073709551615:14:Ωmega".to_string()),
    ];
    let items = lines2entries(lines);
    let it = IndexBatchIter::new(items, 2);
    let sink = SharedBuf::new();
    let schema = Arc::new(IndexEntry::schema());
    iter2wtr(it, sink.clone(), Codec::Uncompressed, schema).unwrap();

    let bytes = bytes::Bytes::from(sink.bytes());
    let builder = ParquetRecordBatchReaderBuilder::try_new(bytes).unwrap();
    let meta = builder.metadata().clone();
    // One row group per batch, matching the batch boundaries.
    assert_eq!(meta.num_row_groups(), 3);
    assert_eq!(meta.row_group(0).num_rows(), 2);
    assert_eq!(meta.row_group(1).num_rows(), 2);
    assert_eq!(meta.row_group(2).num_rows(), 1);

    let reader = builder.build().unwrap();
    let mut offsets: Vec<u64> = Vec::new();
    let mut ids: Vec<String> = Vec::new();
    let mut titles: Vec<String> = Vec::new();
    for batch in reader {
        let batch = batch.unwrap();
        let offs = batch.column(0).as_any().downcast_ref::<UInt64Array>().unwrap();
        let aids = batch.column(1).as_any().downcast_ref::<StringArray>().unwrap();
        let tls = batch.column(2).as_any().downcast_ref::<StringArray>().unwrap();
        for i in 0..batch.num_rows() {
            offsets.push(offs.value(i));
            ids.push(aids.value(i).to_string());
            titles.push(tls.value(i).to_string());
        }
    }
    assert_eq!(offsets, vec![0, 57, 123, 999, u64::MAX]);
    assert_eq!(
        ids,
        vec![
            "10".to_string(),
            "11".to_string(),
            "12".to_string(),
            "".to_string(),
            "14".to_string()
        ]
    );
    assert_eq!(
        titles,
        vec![
            "Alpha".to_string(),
            "Beta: The Return".to_string(),
            "Gamma".to_string(),
            "".to_string(),
            "Ωmega".to_string()
        ]
    );
}

fn one_round_trip_with(codec: Codec) {
    let items = vec![
        IndexEntry::from_str("10:100:one"),
        IndexEntry::from_str("20:200:two: and more"),
        IndexEntry::from_str("30:300:three"),
    ];
    let it = IndexBatchIter::new(items, 2);
    let sink = SharedBuf::new();
    let schema = Arc::new(IndexEntry::schema());
    iter2wtr(it, sink.clone(), codec, schema).unwrap();

    let bytes = bytes::Bytes::from(sink.bytes());
    let builder = ParquetRecordBatchReaderBuilder::try_new(bytes).unwrap();
    assert_eq!(builder.metadata().num_row_groups(), 2);
    let reader = builder.build().unwrap();
    let mut offsets: Vec<u64> = Vec::new();
    for batch in reader {
        let batch = batch.unwrap();
        let offs = batch.column(0).as_any().downcast_ref::<UInt64Array>().unwrap();
        for i in 0..batch.num_rows() {
            offsets.push(offs.value(i));
        }
    }
    assert_eq!(offsets, vec![10, 20, 30]);
}

#[test]
fn round_trip_with_snappy_compression() {
    one_round_trip_with(Codec::Snappy);
}

#[test]
fn round_trip_with_lz4_compression() {
    one_round_trip_with(Codec::Lz4);
}

#[test]
fn zero_input_lines_give_a_validly_closed_empty_file() {
    let it = IndexBatchIter::new(vec![], 1024);
    let sink = SharedBuf::new();
    let schema = Arc::new(IndexEntry::schema());
    iter2wtr(it, sink.clone(), Codec::Uncompressed, schema).unwrap();

    let bytes = bytes::Bytes::from(sink.bytes());
    let builder = ParquetRecordBatchReaderBuilder::try_new(bytes).unwrap();
    let meta = builder.metadata().clone();
    assert_eq!(meta.num_row_groups(), 0);
    assert_eq!(meta.file_metadata().num_rows(), 0);
    let names: Vec<String> =
        builder.schema().fields().iter().map(|f| f.name().clone()).collect();
    assert_eq!(
        names,
        vec!["byte_offset".to_string(), "article_id".to_string(), "title".to_string()]
    );
    let mut reader = builder.build().unwrap();
    assert!(reader.next().is_none());
}

#[test]
fn write_batch_appends_one_row_group() {
    let items = vec![IndexEntry::from_str("5:6:seven")];
    let mut it = IndexBatchIter::new(items, 8);
    let batch = it.next().unwrap().unwrap();
    let sink = SharedBuf::new();
    let schema = Arc::new(IndexEntry::schema());
    let mut etp = EntriesToParquet::from_wtr(sink.clone(), Codec::Uncompressed, schema).unwrap();
    etp.write_batch(&batch).unwrap();
    etp.close().unwrap();

    let bytes = bytes::Bytes::from(sink.bytes());
    let builder = ParquetRecordBatchReaderBuilder::try_new(bytes).unwrap();
    let meta = builder.metadata().clone();
    assert_eq!(meta.num_row_groups(), 1);
    assert_eq!(meta.row_group(0).num_rows(), 1);
}

#[test]
fn mismatched_schema_is_a_schema_error() {
    let items = vec![IndexEntry::from_str("5:6:seven")];
    let mut it = IndexBatchIter::new(items, 8);
    let batch = it.next().unwrap().unwrap();
    // A writer declared with a single-column schema cannot take the
    // three-column batches this library builds.
    let wrong = Arc::new(arrow::datatypes::Schema::new(vec![arrow::datatypes::Field::new(
        "byte_offset",
        arrow::datatypes::DataType::UInt64,
        false,
    )]));
    let sink = SharedBuf::new();
    let mut etp = EntriesToParquet::from_wtr(sink, Codec::Uncompressed, wrong).unwrap();
    let res = etp.write_batch(&batch);
    assert!(matches!(res, Err(IxError::Schema(_))));
}

#[test]
fn close_failure_is_reported_as_a_close_error() {
    // A sink that takes nothing: the small row group stays in internal
    // buffers, so the failure only surfaces when closing the file.
    let items = vec![IndexEntry::from_str("5:6:seven")];
    let it = IndexBatchIter::new(items, 8);
    let out = SharedBuf::new();
    let sink = FailingSink { out, budget: 0 };
    let schema = Arc::new(IndexEntry::schema());
    let res = iter2wtr(it, sink, Codec::Uncompressed, schema);
    assert!(matches!(res, Err(IxError::Close(_))));
}

#[test]
fn write_failure_leaves_an_unclosed_invalid_file() {
    // Titles bigger than the writer's internal buffering, so row-group
    // bytes reach the sink as they are cut; the second row group
    // overruns the sink's budget, and close is then never reached, so
    // no footer is written.
    let big = "t".repeat(12 * 1024);
    let items = vec![
        IndexEntry::from_str(&format!("0:a:{big}")),
        IndexEntry::from_str(&format!("1:b:{big}")),
        IndexEntry::from_str(&format!("2:c:{big}")),
    ];
    let it = IndexBatchIter::new(items, 1);
    let out = SharedBuf::new();
    let sink = FailingSink { out: out.clone(), budget: 16000 };
    let schema = Arc::new(IndexEntry::schema());
    let res = iter2wtr(it, sink, Codec::Uncompressed, schema);
    assert!(matches!(res, Err(IxError::Write(_))));

    // Whatever bytes reached the sink are not a valid columnar file:
    // the footer is absent, and a reader must refuse to open them.
    let bytes = bytes::Bytes::from(out.bytes());
    assert!(ParquetRecordBatchReaderBuilder::try_new(bytes).is_err());
}
