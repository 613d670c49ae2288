//! The columnar writer: appends each batch as one row group of a
//! Parquet file and writes the closing footer only on the success path.
//!
//! The file's encoding is delegated to the arrow and parquet crates;
//! what crosses that boundary -- three non-nullable columns in a fixed
//! order, one row group per batch, finalize once and only on success --
//! is stated on the trusted items below and proved of everything around
//! them.
use std::io::Write;
use std::sync::Arc;

use vstd::prelude::*;

use crate::EntryV;
use crate::IxError;
use crate::rows2batches::IndexBatch;
use crate::rows2batches::IndexBatchIter;
use crate::rows2batches::batches_spec;
use crate::rows2batches::ok_views;

verus! {

/// The compression codec applied uniformly to every row group of the
/// output file, selected once per run.
#[derive(Clone, Copy, Debug, PartialEq, Eq, Structural)]
pub enum Codec {
    /// No compression.
    Uncompressed,
    /// Snappy compression.
    Snappy,
    /// LZO compression.
    Lzo,
    /// LZ4 compression.
    Lz4,
}

/// Which codec a configuration name denotes: exactly `raw`, `snappy`,
/// `lzo` or `lz4`; any other name is a configuration error.
pub open spec fn codec_of_name(s: Seq<char>) -> Result<Codec, IxError> {
    if s == "raw"@ {
        Ok(Codec::Uncompressed)
    } else if s == "snappy"@ {
        Ok(Codec::Snappy)
    } else if s == "lzo"@ {
        Ok(Codec::Lzo)
    } else if s == "lz4"@ {
        Ok(Codec::Lz4)
    } else {
        Err(IxError::BadCodec)
    }
}

/// Character-by-character string comparison.
fn str_eq(a: &str, b: &str) -> (r: bool)
    ensures
        r == (a@ == b@),
{
    let n = a.unicode_len();
    let m = b.unicode_len();
    if n != m {
        return false;
    }
    let mut i: usize = 0;
    while i < n
        invariant
            i <= n,
            n == a@.len(),
            n == b@.len(),
            forall|k: int| 0 <= k < i ==> a@[k] == b@[k],
        decreases n - i,
    {
        if a.get_char(i) != b.get_char(i) {
            return false;
        }
        i = i + 1;
    }
    proof {
        assert(a@ =~= b@);
    }
    true
}

/// Maps a codec configuration name to the codec it denotes.
pub fn str2comp(s: &str) -> (r: Result<Codec, IxError>)
    ensures
        r == codec_of_name(s@),
{
    if str_eq(s, "raw") {
        Ok(Codec::Uncompressed)
    } else if str_eq(s, "snappy") {
        Ok(Codec::Snappy)
    } else if str_eq(s, "lzo") {
        Ok(Codec::Lzo)
    } else if str_eq(s, "lz4") {
        Ok(Codec::Lz4)
    } else {
        Err(IxError::BadCodec)
    }
}

/// Arrow's schema type, opaque here.
#[verifier::external_type_specification]
#[verifier::external_body]
pub struct ExSchema(arrow::datatypes::Schema);

/// Summed character count of a batch's article-id column.
pub open spec fn id_chars(rows: Seq<EntryV>) -> nat
    decreases rows.len(),
{
    if rows.len() == 0 {
        0
    } else {
        id_chars(rows.drop_last()) + rows.last().article_id.len()
    }
}

/// Summed character count of a batch's title column.
pub open spec fn title_chars(rows: Seq<EntryV>) -> nat
    decreases rows.len(),
{
    if rows.len() == 0 {
        0
    } else {
        title_chars(rows.drop_last()) + rows.last().title.len()
    }
}

/// The batch's text columns fit arrow's 32-bit string-array offsets:
/// UTF-8 spends at most 4 bytes per character, so 4 times the character
/// count bounds each column's byte size. Arrow aborts (rather than
/// erring) on a string column of more than `i32::MAX` bytes, so this
/// bound is a precondition of writing.
pub open spec fn fits_string_columns(rows: Seq<EntryV>) -> bool {
    &&& 4 * id_chars(rows) <= 0x7fff_ffff
    &&& 4 * title_chars(rows) <= 0x7fff_ffff
}

/// A longer id column never shrinks its character count.
proof fn lemma_id_chars_prefix(rows: Seq<EntryV>, k: int)
    requires
        0 <= k <= rows.len(),
    ensures
        id_chars(rows.take(k)) <= id_chars(rows),
    decreases rows.len() - k,
{
    if k < rows.len() {
        assert(rows.take(k + 1).drop_last() =~= rows.take(k));
        assert(id_chars(rows.take(k)) <= id_chars(rows.take(k + 1)));
        lemma_id_chars_prefix(rows, k + 1);
    } else {
        assert(rows.take(k) =~= rows);
    }
}

/// A longer title column never shrinks its character count.
proof fn lemma_title_chars_prefix(rows: Seq<EntryV>, k: int)
    requires
        0 <= k <= rows.len(),
    ensures
        title_chars(rows.take(k)) <= title_chars(rows),
    decreases rows.len() - k,
{
    if k < rows.len() {
        assert(rows.take(k + 1).drop_last() =~= rows.take(k));
        assert(title_chars(rows.take(k)) <= title_chars(rows.take(k + 1)));
        lemma_title_chars_prefix(rows, k + 1);
    } else {
        assert(rows.take(k) =~= rows);
    }
}

/// The column-limit test, executable: whether a batch's text columns
/// stay within the columnar format's string-offset limits. Checked
/// before a write, it turns oversized input into a clean error instead
/// of an abort inside the columnar library.
#[verifier::loop_isolation(false)]
pub fn batch_fits_columns(b: &IndexBatch) -> (r: bool)
    requires
        b.wf(),
    ensures
        r == fits_string_columns(b@),
{
    let rows = b.byte_offsets.len();
    let mut acc_id: u64 = 0;
    let mut acc_title: u64 = 0;
    let mut i: usize = 0;
    while i < rows
        invariant
            i <= rows,
            acc_id == id_chars(b@.take(i as int)),
            acc_title == title_chars(b@.take(i as int)),
            acc_id <= 0x1fff_ffff,
            acc_title <= 0x1fff_ffff,
        decreases rows - i,
    {
        let ni = b.article_ids[i].as_str().unicode_len();
        let nt = b.titles[i].as_str().unicode_len();
        proof {
            assert(b@.take(i + 1).drop_last() =~= b@.take(i as int));
            assert(b@.take(i + 1).last() == b@[i as int]);
            assert(b@[i as int].article_id == b.article_ids@[i as int]@);
            assert(b@[i as int].title == b.titles@[i as int]@);
        }
        acc_id = match acc_id.checked_add(ni as u64) {
            Some(v) => v,
            None => {
                proof {
                    lemma_id_chars_prefix(b@, i + 1);
                }
                return false;
            },
        };
        if acc_id > 0x1fff_ffff {
            proof {
                lemma_id_chars_prefix(b@, i + 1);
            }
            return false;
        }
        acc_title = match acc_title.checked_add(nt as u64) {
            Some(v) => v,
            None => {
                proof {
                    lemma_title_chars_prefix(b@, i + 1);
                }
                return false;
            },
        };
        if acc_title > 0x1fff_ffff {
            proof {
                lemma_title_chars_prefix(b@, i + 1);
            }
            return false;
        }
        i = i + 1;
    }
    proof {
        assert(b@.take(rows as int) =~= b@);
    }
    true
}

/// Holds parquet's streaming Arrow writer over a boxed sink, opaque to
/// the verifier (declaring the writer type itself is refused over its
/// `Write` bound); what it has written is modelled by the ghost fields
/// of [`EntriesToParquet`].
#[verifier::external_body]
struct SinkWriter {
    inner: parquet::arrow::arrow_writer::ArrowWriter<Box<dyn Write + Send>>,
}

/// Streams batches into one Parquet file: each batch becomes exactly
/// one row group, and the closing footer is written by [`Self::close`]
/// alone, on the success path alone.
///
/// The ghost fields model the writer's externally visible state: the
/// row groups fully appended so far, and the rows handed over but not
/// yet cut into a row group.
pub struct EntriesToParquet {
    /// The open Arrow-to-Parquet writer.
    writer: SinkWriter,
    /// The schema every appended batch must match.
    schema: Arc<arrow::datatypes::Schema>,
    /// Model: the row groups appended so far, each a sequence of rows.
    groups: Ghost<Seq<Seq<EntryV>>>,
    /// Model: rows buffered in the writer, not yet cut into a row group.
    buffered: Ghost<Seq<EntryV>>,
}

impl EntriesToParquet {
    /// The row groups appended so far, each a sequence of rows.
    pub closed spec fn groups(self) -> Seq<Seq<EntryV>> {
        self.groups@
    }

    /// Rows handed to the writer but not yet cut into a row group.
    pub closed spec fn buffered(self) -> Seq<EntryV> {
        self.buffered@
    }

    /// Between operations no rows sit in the writer's buffer: every
    /// batch cuts its own row group at once.
    pub open spec fn inv(self) -> bool {
        self.buffered().len() == 0
    }

    /// Relies on parquet's `WriterProperties` builder and
    /// `ArrowWriter::try_new`: opens a writer over the sink that tags
    /// the file with the given schema and applies the codec to every
    /// row group. The automatic row-group row limit is lifted, so only
    /// this library's explicit flushes cut row groups. Opening writes
    /// the file header; it fails when the sink fails or the schema
    /// cannot be represented, and every failure is a `Write` error.
    #[verifier::external_body]
    fn open_writer<W: Write + Send + 'static>(
        w: W,
        c: Codec,
        s: &Arc<arrow::datatypes::Schema>,
    ) -> (r: Result<SinkWriter, IxError>)
        ensures
            r matches Err(e) ==> e is Write,
    {
        let comp = match c {
            Codec::Uncompressed => parquet::basic::Compression::UNCOMPRESSED,
            Codec::Snappy => parquet::basic::Compression::SNAPPY,
            Codec::Lzo => parquet::basic::Compression::LZO,
            Codec::Lz4 => parquet::basic::Compression::LZ4_RAW,
        };
        let props = parquet::file::properties::WriterProperties::builder().set_compression(
            comp,
        ).set_max_row_group_row_count(None).build();
        let sink: Box<dyn Write + Send> = Box::new(w);
        parquet::arrow::arrow_writer::ArrowWriter::try_new(sink, s.clone(), Some(props)).map(
            |inner| SinkWriter { inner },
        ).map_err(|e| IxError::Write(format!("{e}")))
    }

    /// Relies on arrow's `UInt64Array` and `StringArray` conversions,
    /// `RecordBatch::try_new` and `ArrowWriter::write`: packs the
    /// batch's three columns, in schema order, into one record batch
    /// and hands it to the writer, which buffers exactly the batch's
    /// rows behind those already buffered, cutting no row group (the
    /// row limit was lifted at `open_writer`). Arrow's string arrays
    /// index their bytes with `i32` offsets and abort on overflow, so
    /// each text column must stay under `i32::MAX` bytes; the
    /// `requires` bounds that conservatively at 4 bytes per character,
    /// over columns of equal length (`wf`, so the bound covers every
    /// column in full). Fails with a `Schema` error when the columns do
    /// not fit the schema and a `Write` error when the sink fails; a
    /// failure cuts no row group (with the limits lifted, `write` never
    /// flushes), and the rows then buffered are unknown.
    #[verifier::external_body]
    fn buffer_batch(&mut self, b: &IndexBatch) -> (r: Result<(), IxError>)
        requires
            b.wf(),
            fits_string_columns(b@),
        ensures
            r is Ok ==> final(self).groups@ == old(self).groups@ && final(self).buffered@ == old(
                self,
            ).buffered@ + b@,
            r matches Err(e) ==> (e is Write || e is Schema) && final(self).groups@ == old(
                self,
            ).groups@,
    {
        let offs = arrow::array::UInt64Array::from(b.byte_offsets.clone());
        let ids = arrow::array::StringArray::from(b.article_ids.clone());
        let titles = arrow::array::StringArray::from(b.titles.clone());
        let rb = arrow::record_batch::RecordBatch::try_new(
            self.schema.clone(),
            vec![Arc::new(offs), Arc::new(ids), Arc::new(titles)],
        ).map_err(|e| IxError::Schema(format!("{e}")))?;
        self.writer.inner.write(&rb).map_err(|e| IxError::Write(format!("{e}")))
    }

    /// Relies on `ArrowWriter::flush`: cuts the buffered rows into
    /// exactly one new row group, or -- deterministically, without
    /// touching the sink -- succeeds as a no-op when none are buffered.
    /// A failure is a `Write` error; it empties the buffer (the
    /// in-progress group is taken before anything can fail) and either
    /// cut no row group or cut exactly the one being flushed.
    #[verifier::external_body]
    fn flush_group(&mut self) -> (r: Result<(), IxError>)
        ensures
            r is Ok ==> final(self).buffered@.len() == 0 && final(self).groups@ == (if old(
                self,
            ).buffered@.len() > 0 {
                old(self).groups@.push(old(self).buffered@)
            } else {
                old(self).groups@
            }),
            old(self).buffered@.len() == 0 ==> r is Ok && final(self).groups@ == old(self).groups@
                && final(self).buffered@ == old(self).buffered@,
            r matches Err(e) ==> e is Write && final(self).buffered@.len() == 0 && (
            final(self).groups@ == old(self).groups@ || final(self).groups@ == old(
                self,
            ).groups@.push(old(self).buffered@)),
    {
        self.writer.inner.flush().map_err(|e| IxError::Write(format!("{e}")))
    }

    /// Relies on `ArrowWriter::close`: writes the file's trailing
    /// footer (row-group offsets, schema, statistics) and finalizes it.
    /// Consuming the writer makes any further operation impossible;
    /// a file that was never closed is not a valid columnar file. With
    /// nothing buffered, closing appends no further row group. A
    /// failure is a `Close` error.
    #[verifier::external_body]
    pub fn close(self) -> (r: Result<(), IxError>)
        requires
            self.inv(),
        ensures
            r matches Err(e) ==> e is Close,
    {
        self.writer.inner.close().map(|_| ()).map_err(|e| IxError::Close(format!("{e}")))
    }

    /// Opens a writer over `w` that will tag the file with schema `s`
    /// and compress every row group with `c`. Nothing has been appended
    /// yet: a run with no batches, finalized by `close`, yields a
    /// validly closed file with zero row groups.
    pub fn from_wtr<W: Write + Send + 'static>(
        w: W,
        c: Codec,
        s: Arc<arrow::datatypes::Schema>,
    ) -> (r: Result<Self, IxError>)
        ensures
            r matches Ok(etp) ==> etp.inv() && etp.groups() == Seq::<Seq<EntryV>>::empty(),
            r matches Err(e) ==> e is Write,
    {
        let writer = match Self::open_writer(w, c, &s) {
            Ok(wr) => wr,
            Err(e) => {
                return Err(e);
            },
        };
        Ok(
            EntriesToParquet {
                writer,
                schema: s,
                groups: Ghost(Seq::<Seq<EntryV>>::empty()),
                buffered: Ghost(Seq::<EntryV>::empty()),
            },
        )
    }

    /// Appends one non-empty batch as exactly one new row group holding
    /// exactly the batch's rows. A failure -- the batch does not fit
    /// the schema, or the sink fails -- is fatal for the run and
    /// appends at most the row group of this very batch, never anything
    /// else.
    pub fn write_batch(&mut self, b: &IndexBatch) -> (r: Result<(), IxError>)
        requires
            old(self).inv(),
            b.wf(),
            b@.len() > 0,
            fits_string_columns(b@),
        ensures
            r is Ok ==> final(self).inv() && final(self).groups() == old(self).groups().push(b@),
            r matches Err(e) ==> (e is Write || e is Schema) && (final(self).groups() == old(
                self,
            ).groups() || final(self).groups() == old(self).groups().push(b@)),
    {
        match self.buffer_batch(b) {
            Ok(()) => {},
            Err(e) => {
                return Err(e);
            },
        }
        proof {
            assert(self.buffered@ =~= b@);
        }
        match self.flush_group() {
            Ok(()) => {},
            Err(e) => {
                return Err(e);
            },
        }
        Ok(())
    }

    /// Pulls batches off the assembler one at a time and appends each
    /// as one row group, in order, stopping at the first failure --
    /// whether the assembler surfaced an error or a write failed --
    /// without pulling past it or appending further row groups; at the
    /// end the writer's buffer is flushed (a no-op under this type's
    /// invariant, so an exhausted stream always succeeds). On success
    /// the stream held no error, it was wholly consumed, and exactly
    /// its batches were appended, in order. On failure either the
    /// stream's first error is returned unchanged, with exactly the
    /// batches before it appended, or a write failed (`Write` or
    /// `Schema`) on some batch, with none pulled after it.
    #[verifier::loop_isolation(false)]
    pub fn write_all(&mut self, batches: &mut IndexBatchIter) -> (r: Result<(), IxError>)
        requires
            old(self).inv(),
            old(batches).wf(),
            forall|k: int|
                0 <= k < batches_spec(old(batches).remaining(), old(batches).bsize()).len() && (
                #[trigger] batches_spec(old(batches).remaining(), old(batches).bsize())[k]) is Ok
                    ==> fits_string_columns(
                    batches_spec(old(batches).remaining(), old(batches).bsize())[k]->Ok_0,
                ),
        ensures
            final(batches).wf() && final(batches).bsize() == old(batches).bsize(),
            old(batches).remaining().len() == 0 ==> r is Ok,
            r is Ok ==> ({
                let bs = batches_spec(old(batches).remaining(), old(batches).bsize());
                &&& final(self).inv()
                &&& forall|k: int| 0 <= k < bs.len() ==> bs[k] is Ok
                &&& final(self).groups() == old(self).groups() + ok_views(bs)
                &&& final(batches).remaining().len() == 0
            }),
            r matches Err(e) ==> ({
                let bs = batches_spec(old(batches).remaining(), old(batches).bsize());
                ||| exists|n: int|
                    {
                        &&& 0 <= n < bs.len()
                        &&& bs[n] == Err::<Seq<EntryV>, IxError>(e)
                        &&& (forall|m: int| 0 <= m < n ==> bs[m] is Ok)
                        &&& final(self).groups() == old(self).groups() + ok_views(
                            #[trigger] bs.take(n),
                        )
                        &&& batches_spec(final(batches).remaining(), old(batches).bsize())
                            == bs.skip(n + 1)
                    }
                ||| ((e is Write || e is Schema) && exists|n: int|
                    {
                        &&& 0 <= n < bs.len()
                        &&& (forall|m: int| 0 <= m <= n ==> bs[m] is Ok)
                        &&& (final(self).groups() == old(self).groups() + ok_views(
                            #[trigger] bs.take(n),
                        ) || final(self).groups() == old(self).groups() + ok_views(
                            bs.take(n + 1),
                        ))
                        &&& batches_spec(final(batches).remaining(), old(batches).bsize())
                            == bs.skip(n + 1)
                    })
            }),
    {
        let ghost items0 = batches.remaining();
        let ghost b0 = batches.bsize();
        let ghost groups0 = self.groups();
        let ghost mut done: Seq<Result<Seq<EntryV>, IxError>> = Seq::empty();
        loop
            invariant
                self.inv(),
                batches.wf(),
                batches.bsize() == b0,
                forall|k: int| 0 <= k < done.len() ==> done[k] is Ok,
                batches_spec(items0, b0) == done + batches_spec(batches.remaining(), b0),
                self.groups() == groups0 + ok_views(done),
            decreases batches.remaining().len(),
        {
            match batches.next() {
                None => {
                    match self.flush_group() {
                        Ok(()) => {},
                        Err(e) => {
                            return Err(e);
                        },
                    }
                    proof {
                        assert(batches_spec(batches.remaining(), b0) =~= Seq::<
                            Result<Seq<EntryV>, IxError>,
                        >::empty());
                        assert(batches_spec(items0, b0) =~= done);
                    }
                    return Ok(());
                },
                Some(Ok(batch)) => {
                    let ghost bview = batch@;
                    proof {
                        let bs = batches_spec(items0, b0);
                        let n = done.len() as int;
                        assert(bs == done + (seq![Ok::<Seq<EntryV>, IxError>(bview)]
                            + batches_spec(batches.remaining(), b0)));
                        assert(bs[n] == Ok::<Seq<EntryV>, IxError>(bview));
                        assert(fits_string_columns(bview));
                    }
                    match self.write_batch(&batch) {
                        Ok(()) => {},
                        Err(e) => {
                            proof {
                                let bs = batches_spec(items0, b0);
                                let n = done.len() as int;
                                assert(bs[n] == Ok::<Seq<EntryV>, IxError>(bview));
                                assert(forall|m: int| 0 <= m <= n ==> bs[m] is Ok);
                                assert(bs.skip(n + 1) =~= batches_spec(
                                    batches.remaining(),
                                    b0,
                                ));
                                assert(bs.take(n) =~= done);
                                assert(bs.take(n + 1) =~= done.push(
                                    Ok::<Seq<EntryV>, IxError>(bview),
                                ));
                                assert(ok_views(bs.take(n)) =~= ok_views(done));
                                assert(ok_views(bs.take(n + 1)) =~= ok_views(done).push(bview));
                                assert((groups0 + ok_views(done)).push(bview) =~= groups0
                                    + ok_views(done).push(bview));
                                assert(items0.len() > 0) by {
                                    if items0.len() == 0 {
                                        assert(batches_spec(items0, b0) =~= Seq::<
                                            Result<Seq<EntryV>, IxError>,
                                        >::empty());
                                    }
                                }
                            }
                            return Err(e);
                        },
                    }
                    proof {
                        let done2 = done.push(Ok(bview));
                        assert(done + seq![Ok::<Seq<EntryV>, IxError>(bview)] =~= done2);
                        assert(done + (seq![Ok::<Seq<EntryV>, IxError>(bview)] + batches_spec(
                            batches.remaining(),
                            b0,
                        )) =~= done2 + batches_spec(batches.remaining(), b0));
                        assert(ok_views(done2) =~= ok_views(done).push(bview));
                        assert((groups0 + ok_views(done)).push(bview) =~= groups0 + ok_views(
                            done2,
                        ));
                        done = done2;
                    }
                },
                Some(Err(e)) => {
                    proof {
                        let bs = batches_spec(items0, b0);
                        let n = done.len() as int;
                        assert(bs == done + (seq![Err::<Seq<EntryV>, IxError>(e)]
                            + batches_spec(batches.remaining(), b0)));
                        assert(bs.take(n) =~= done);
                        assert(bs[n] == Err::<Seq<EntryV>, IxError>(e));
                        assert(forall|m: int| 0 <= m < n ==> bs[m] is Ok);
                        assert(ok_views(bs.take(n)) =~= ok_views(done));
                        assert(bs.skip(n + 1) =~= batches_spec(batches.remaining(), b0));
                        assert(self.groups() == groups0 + ok_views(bs.take(n)));
                        assert(items0.len() > 0) by {
                            if items0.len() == 0 {
                                assert(batches_spec(items0, b0) =~= Seq::<
                                    Result<Seq<EntryV>, IxError>,
                                >::empty());
                            }
                        }
                    }
                    return Err(e);
                },
            }
        }
    }
}

/// Runs the downstream pipeline: opens a writer over `w`, appends every
/// batch the assembler yields as one row group, and -- only when every
/// batch was produced and appended -- closes the file, writing its
/// footer. On any failure the file is never closed and must not be
/// treated as a valid columnar file. Success says the whole input
/// stream was assembled without error, and carries, as a ghost value,
/// the row groups of the closed file: one per assembled batch, in
/// order. A failure that is not an outside one (`Write`, `Schema` on
/// the sink and encoding, `Close` on the footer) is the stream's first
/// error, returned unchanged.
pub fn iter2wtr<W: Write + Send + 'static>(
    i: IndexBatchIter,
    w: W,
    c: Codec,
    s: Arc<arrow::datatypes::Schema>,
) -> (r: Result<Ghost<Seq<Seq<EntryV>>>, IxError>)
    requires
        i.wf(),
        forall|k: int|
            0 <= k < batches_spec(i.remaining(), i.bsize()).len() && (#[trigger] batches_spec(
                i.remaining(),
                i.bsize(),
            )[k]) is Ok ==> fits_string_columns(batches_spec(i.remaining(), i.bsize())[k]->Ok_0),
    ensures
        r matches Ok(g) ==> ({
            let bs = batches_spec(i.remaining(), i.bsize());
            &&& forall|k: int| 0 <= k < bs.len() ==> bs[k] is Ok
            &&& g@ == ok_views(bs)
        }),
        r matches Err(e) ==> (!(e is Write) && !(e is Schema) && !(e is Close) ==> ({
            let bs = batches_spec(i.remaining(), i.bsize());
            exists|n: int|
                {
                    &&& 0 <= n < bs.len()
                    &&& #[trigger] bs[n] == Err::<Seq<EntryV>, IxError>(e)
                    &&& (forall|m: int| 0 <= m < n ==> bs[m] is Ok)
                }
        })),
        r matches Err(e) ==> (e is Close ==> ({
            // Closing fails only after every batch was appended -- or
            // the stream itself carried this error.
            let bs = batches_spec(i.remaining(), i.bsize());
            ||| forall|k: int| 0 <= k < bs.len() ==> bs[k] is Ok
            ||| exists|n: int|
                {
                    &&& 0 <= n < bs.len()
                    &&& #[trigger] bs[n] == Err::<Seq<EntryV>, IxError>(e)
                    &&& (forall|m: int| 0 <= m < n ==> bs[m] is Ok)
                }
        })),
{
    let mut etp = match EntriesToParquet::from_wtr(w, c, s) {
        Ok(x) => x,
        Err(e) => {
            return Err(e);
        },
    };
    let mut it = i;
    match etp.write_all(&mut it) {
        Ok(()) => {},
        Err(e) => {
            return Err(e);
        },
    }
    let ghost gs = etp.groups();
    proof {
        assert(Seq::<Seq<EntryV>>::empty() + ok_views(batches_spec(i.remaining(), i.bsize()))
            =~= ok_views(batches_spec(i.remaining(), i.bsize())));
    }
    match etp.close() {
        Ok(()) => Ok(Ghost(gs)),
        Err(e) => Err(e),
    }
}

} // verus!
