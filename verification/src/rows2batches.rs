//! The batch assembler: groups a sequence of parsed entries (or errors)
//! into bounded columnar batches.
//!
//! A batch is atomic: while a batch is being filled, the first error
//! discards the entries accumulated so far and is surfaced instead; a
//! batch boundary never splits an entry; the final batch may be smaller
//! than the configured size, and no empty batch is ever produced.
use vstd::arithmetic::div_mod::lemma_basic_div;
use vstd::arithmetic::div_mod::lemma_div_plus_one;
use vstd::prelude::*;

use crate::EntryV;
use crate::IxError;
use crate::ix::IndexEntry;

verus! {

/// One element of the parsed stream: a valid entry or the error that
/// took its place.
pub type PipeItem = Result<IndexEntry, IxError>;

/// The columnar image of three parallel columns of equal length.
pub open spec fn columns_view(offs: Seq<u64>, ids: Seq<String>, titles: Seq<String>) -> Seq<
    EntryV,
> {
    Seq::new(
        offs.len(),
        |i: int| EntryV { byte_offset: offs[i], article_id: ids[i]@, title: titles[i]@ },
    )
}

/// A bounded columnar batch: one column per schema field, columns always
/// of equal length, at most `batch_size` rows.
#[derive(Debug)]
pub struct IndexBatch {
    /// The byte-offset column.
    pub byte_offsets: Vec<u64>,
    /// The article-id column.
    pub article_ids: Vec<String>,
    /// The title column.
    pub titles: Vec<String>,
}

impl IndexBatch {
    /// The three columns have the same length.
    pub open spec fn wf(&self) -> bool {
        &&& self.article_ids@.len() == self.byte_offsets@.len()
        &&& self.titles@.len() == self.byte_offsets@.len()
    }

    /// The number of rows.
    pub fn len(&self) -> (n: usize)
        ensures
            n == self@.len(),
    {
        self.byte_offsets.len()
    }
}

impl View for IndexBatch {
    type V = Seq<EntryV>;

    open spec fn view(&self) -> Seq<EntryV> {
        columns_view(self.byte_offsets@, self.article_ids@, self.titles@)
    }
}

/// The entries of a stream with no errors in it.
pub open spec fn entries_of(items: Seq<PipeItem>) -> Seq<EntryV> {
    items.map_values(|it: PipeItem| it->Ok_0@)
}

/// What assembling yields, one pulled item at a time, with `acc` the
/// entries of the batch being filled: an error emits itself and discards
/// `acc`; an entry joins `acc`, and a full batch is emitted; at the end
/// of the stream a non-empty `acc` is emitted as the final short batch.
pub open spec fn batches_go(items: Seq<PipeItem>, b: nat, acc: Seq<EntryV>) -> Seq<
    Result<Seq<EntryV>, IxError>,
>
    decreases items.len(),
{
    if items.len() == 0 {
        if acc.len() == 0 {
            Seq::empty()
        } else {
            seq![Ok(acc)]
        }
    } else {
        match items[0] {
            Err(e) => seq![Err(e)] + batches_go(items.drop_first(), b, Seq::<EntryV>::empty()),
            Ok(entry) => {
                let acc2 = acc.push(entry@);
                if acc2.len() >= b {
                    seq![Ok(acc2)] + batches_go(items.drop_first(), b, Seq::<EntryV>::empty())
                } else {
                    batches_go(items.drop_first(), b, acc2)
                }
            },
        }
    }
}

/// The sequence of batches (or errors) that assembling `items` with
/// batch size `b` yields, in order.
pub open spec fn batches_spec(items: Seq<PipeItem>, b: nat) -> Seq<Result<Seq<EntryV>, IxError>> {
    batches_go(items, b, Seq::<EntryV>::empty())
}

/// A step result, with the batch replaced by its mathematical image.
pub open spec fn batch_result_view(r: Result<IndexBatch, IxError>) -> Result<
    Seq<EntryV>,
    IxError,
> {
    match r {
        Ok(batch) => Ok(batch@),
        Err(e) => Err(e),
    }
}

/// The batches of an assembling run known to hold no error.
pub open spec fn ok_views(bs: Seq<Result<Seq<EntryV>, IxError>>) -> Seq<Seq<EntryV>> {
    bs.map_values(|r: Result<Seq<EntryV>, IxError>| r->Ok_0)
}

/// Filling: when the next `m` items are valid entries and they complete
/// the batch being accumulated, the assembler emits exactly that batch
/// and continues after them with an empty accumulator.
proof fn lemma_go_fills(items: Seq<PipeItem>, b: nat, acc: Seq<EntryV>, m: int)
    requires
        1 <= b,
        1 <= m <= items.len(),
        acc.len() + m == b,
        forall|i: int| 0 <= i < m ==> items[i] is Ok,
    ensures
        batches_go(items, b, acc) == seq![
            Ok::<Seq<EntryV>, IxError>(acc + entries_of(items.take(m))),
        ] + batches_go(items.skip(m), b, Seq::<EntryV>::empty()),
    decreases m,
{
    let e0 = items[0]->Ok_0;
    let acc2 = acc.push(e0@);
    if m == 1 {
        assert(acc2 =~= acc + entries_of(items.take(1)));
        assert(items.drop_first() =~= items.skip(1));
    } else {
        lemma_go_fills(items.drop_first(), b, acc2, m - 1);
        assert(acc2 + entries_of(items.drop_first().take(m - 1)) =~= acc + entries_of(
            items.take(m),
        ));
        assert(items.drop_first().skip(m - 1) =~= items.skip(m));
    }
}

/// Law: with batch size `b`, when the first `b` items are valid entries
/// and the item after them is an error, the assembler first emits the
/// full batch of those `b` entries, then surfaces exactly that error,
/// and goes on after it: no batch is dropped or duplicated.
pub proof fn lemma_error_after_full_batch(items: Seq<PipeItem>, b: nat)
    requires
        1 <= b,
        b < items.len(),
        forall|i: int| 0 <= i < b ==> items[i] is Ok,
        items[b as int] is Err,
    ensures
        batches_spec(items, b).len() >= 2,
        batches_spec(items, b)[0] == Ok::<Seq<EntryV>, IxError>(
            entries_of(items.take(b as int)),
        ),
        batches_spec(items, b)[1] == Err::<Seq<EntryV>, IxError>(items[b as int]->Err_0),
        batches_spec(items, b).skip(2) == batches_spec(items.skip(b as int + 1), b),
{
    lemma_go_fills(items, b, Seq::<EntryV>::empty(), b as int);
    assert(Seq::<EntryV>::empty() + entries_of(items.take(b as int)) =~= entries_of(
        items.take(b as int),
    ));
    let rest = items.skip(b as int);
    assert(rest[0] == items[b as int]);
    assert(batches_go(rest, b, Seq::<EntryV>::empty()) == seq![
        Err::<Seq<EntryV>, IxError>(rest[0]->Err_0),
    ] + batches_go(rest.drop_first(), b, Seq::<EntryV>::empty()));
    assert(rest.drop_first() =~= items.skip(b as int + 1));
    assert(batches_spec(items, b).skip(2) =~= batches_spec(items.skip(b as int + 1), b));
}

/// All-valid runs: with no error among the items, every emitted element
/// is a batch, there are exactly `ceil((acc + items) / b)` of them,
/// every batch but the last holds `b` entries, the last holds the
/// remainder and is never empty, and their concatenation is the
/// accumulator followed by every input entry, in order.
proof fn lemma_go_all_ok(items: Seq<PipeItem>, b: nat, acc: Seq<EntryV>)
    requires
        1 <= b,
        acc.len() < b,
        forall|i: int| 0 <= i < items.len() ==> items[i] is Ok,
    ensures
        ({
            let bs = batches_go(items, b, acc);
            let total = acc.len() + items.len();
            &&& bs.len() == (total + b - 1) / (b as int)
            &&& forall|i: int| 0 <= i < bs.len() ==> bs[i] is Ok
            &&& forall|i: int| 0 <= i < bs.len() - 1 ==> bs[i]->Ok_0.len() == b
            &&& bs.len() > 0 ==> bs.last()->Ok_0.len() == total - (bs.len() - 1) * b
            &&& bs.len() > 0 ==> 0 < bs.last()->Ok_0.len() <= b
            &&& ok_views(bs).flatten() == acc + entries_of(items)
        }),
    decreases items.len(),
{
    let bs = batches_go(items, b, acc);
    let total = acc.len() + items.len();
    if items.len() == 0 {
        if acc.len() == 0 {
            assert(bs.len() == 0);
            assert((total + b - 1) / (b as int) == 0) by {
                lemma_basic_div((b - 1) as int, b as int);
            }
            assert(ok_views(bs).flatten() =~= acc + entries_of(items));
        } else {
            assert(bs == seq![Ok::<Seq<EntryV>, IxError>(acc)]);
            assert((total + b - 1) / (b as int) == 1) by {
                lemma_basic_div((total - 1) as int, b as int);
                lemma_div_plus_one((total - 1) as int, b as int);
            }
            assert(ok_views(bs) =~= seq![acc]);
            assert(ok_views(bs).flatten() == acc + ok_views(bs).drop_first().flatten());
            assert(ok_views(bs).drop_first().flatten() =~= Seq::<EntryV>::empty());
            assert(ok_views(bs).flatten() =~= acc + entries_of(items));
        }
    } else {
        let e0 = items[0]->Ok_0;
        let acc2 = acc.push(e0@);
        let rest = items.drop_first();
        assert(acc2 + entries_of(rest) =~= acc + entries_of(items));
        if acc2.len() >= b {
            lemma_go_all_ok(rest, b, Seq::<EntryV>::empty());
            let bs2 = batches_go(rest, b, Seq::<EntryV>::empty());
            assert(bs == seq![Ok::<Seq<EntryV>, IxError>(acc2)] + bs2);
            assert(bs.len() == 1 + bs2.len());
            assert(bs.len() == (total + b - 1) / (b as int)) by {
                lemma_div_plus_one((rest.len() + b - 1) as int, b as int);
            }
            assert(forall|i: int| 0 <= i < bs2.len() ==> bs[i + 1] == bs2[i]);
            if bs2.len() == 0 {
                assert(bs.last() == bs[0]);
                assert(bs.last()->Ok_0.len() == total - (bs.len() - 1) * b);
            } else {
                assert(bs.last() == bs2.last());
                assert(bs2.last()->Ok_0.len() == rest.len() - (bs2.len() - 1) * b);
                assert(rest.len() - (bs2.len() - 1) * b == total - (bs.len() - 1) * b) by {
                    assert((bs2.len() as int) * b == (bs2.len() - 1) * b + b)
                        by (nonlinear_arith);
                }
            }
            let ov = ok_views(bs);
            assert(ov.first() == acc2);
            assert(ov.drop_first() =~= ok_views(bs2));
            assert(ov.flatten() == acc2 + ok_views(bs2).flatten());
            assert(ov.flatten() =~= acc + entries_of(items));
        } else {
            lemma_go_all_ok(rest, b, acc2);
            assert(bs == batches_go(rest, b, acc2));
            assert(acc2.len() + rest.len() == total);
            assert(ok_views(bs).flatten() =~= acc + entries_of(items));
        }
    }
}

/// Law: batching `n` valid entries with batch size `b >= 1` yields
/// `ceil(n / b)` batches -- none at all for an empty input -- each of
/// size `b` except possibly the last, which holds the remainder (and
/// exactly `b` when `b` divides `n`); no batch is empty and no trailing
/// empty batch appears.
pub proof fn lemma_batch_counts(items: Seq<PipeItem>, b: nat)
    requires
        1 <= b,
        forall|i: int| 0 <= i < items.len() ==> items[i] is Ok,
    ensures
        ({
            let bs = batches_spec(items, b);
            &&& bs.len() == (items.len() + b - 1) / (b as int)
            &&& items.len() == 0 ==> bs.len() == 0
            &&& forall|i: int| 0 <= i < bs.len() ==> bs[i] is Ok
            &&& forall|i: int| 0 <= i < bs.len() - 1 ==> bs[i]->Ok_0.len() == b
            &&& bs.len() > 0 ==> bs.last()->Ok_0.len() == items.len() - (bs.len() - 1) * b
            &&& bs.len() > 0 ==> 0 < bs.last()->Ok_0.len() <= b
        }),
{
    lemma_go_all_ok(items, b, Seq::<EntryV>::empty());
    if items.len() == 0 {
        lemma_basic_div((b - 1) as int, b as int);
    }
}

/// Law: batching loses, reorders and duplicates nothing -- with no
/// error among the items, the concatenation of all emitted batches is
/// exactly the sequence of input entries.
pub proof fn lemma_batches_preserve_entries(items: Seq<PipeItem>, b: nat)
    requires
        1 <= b,
        forall|i: int| 0 <= i < items.len() ==> items[i] is Ok,
    ensures
        ok_views(batches_spec(items, b)).flatten() == entries_of(items),
{
    lemma_go_all_ok(items, b, Seq::<EntryV>::empty());
    assert(Seq::<EntryV>::empty() + entries_of(items) =~= entries_of(items));
}

/// Law: feeding items one at a time assembles exactly as assembling
/// the whole stream does: each fed item advances `batches_go` by one
/// definitional step, so a caller that reads its input incrementally
/// emits the same batch sequence as one that holds it whole.
pub proof fn lemma_assemble_step(item: PipeItem, rest: Seq<PipeItem>, b: nat, acc: Seq<EntryV>)
    requires
        1 <= b,
        acc.len() < b,
    ensures
        item is Err ==> batches_go(seq![item] + rest, b, acc) == seq![
            Err::<Seq<EntryV>, IxError>(item->Err_0),
        ] + batches_go(rest, b, Seq::<EntryV>::empty()),
        item is Ok && acc.len() + 1 == b ==> batches_go(seq![item] + rest, b, acc) == seq![
            Ok::<Seq<EntryV>, IxError>(acc.push(item->Ok_0@)),
        ] + batches_go(rest, b, Seq::<EntryV>::empty()),
        item is Ok && acc.len() + 1 < b ==> batches_go(seq![item] + rest, b, acc) == batches_go(
            rest,
            b,
            acc.push(item->Ok_0@),
        ),
{
    let items = seq![item] + rest;
    assert(items[0] == item);
    assert(items.drop_first() =~= rest);
}

/// Assembles entries one fed item at a time, holding only the batch in
/// progress: the push face of the assembler, for callers that read
/// their input incrementally -- memory stays bounded by the batch
/// size, however long the stream.
pub struct BatchAssembler {
    /// The byte-offset column of the batch in progress.
    offs: Vec<u64>,
    /// The article-id column of the batch in progress.
    ids: Vec<String>,
    /// The title column of the batch in progress.
    titles: Vec<String>,
    /// The maximum number of entries per batch, at least 1.
    batch_size: usize,
}

impl BatchAssembler {
    /// The entries of the batch in progress.
    pub closed spec fn acc(self) -> Seq<EntryV> {
        columns_view(self.offs@, self.ids@, self.titles@)
    }

    /// The configured batch size.
    pub closed spec fn bsize(self) -> nat {
        self.batch_size as nat
    }

    /// The batch size is positive, the columns in progress are of equal
    /// length, and they are strictly shorter than a full batch.
    pub closed spec fn wf(self) -> bool {
        &&& self.batch_size >= 1
        &&& self.ids@.len() == self.offs@.len()
        &&& self.titles@.len() == self.offs@.len()
        &&& self.offs@.len() < self.batch_size
    }

    /// An assembler with nothing in progress.
    pub fn new(batch_size: usize) -> (r: BatchAssembler)
        requires
            batch_size >= 1,
        ensures
            r.wf(),
            r.bsize() == batch_size,
            r.acc() == Seq::<EntryV>::empty(),
    {
        let r = BatchAssembler {
            offs: Vec::new(),
            ids: Vec::new(),
            titles: Vec::new(),
            batch_size,
        };
        proof {
            assert(r.acc() =~= Seq::<EntryV>::empty());
        }
        r
    }

    /// Takes the three columns in progress, leaving empty ones behind.
    fn take_batch(&mut self) -> (r: IndexBatch)
        requires
            old(self).ids@.len() == old(self).offs@.len(),
            old(self).titles@.len() == old(self).offs@.len(),
        ensures
            r.wf(),
            r@ == old(self).acc(),
            final(self).acc() == Seq::<EntryV>::empty(),
            final(self).bsize() == old(self).bsize(),
            final(self).offs@.len() == 0,
            final(self).ids@.len() == 0,
            final(self).titles@.len() == 0,
    {
        let mut offs: Vec<u64> = Vec::new();
        let mut ids: Vec<String> = Vec::new();
        let mut titles: Vec<String> = Vec::new();
        core::mem::swap(&mut offs, &mut self.offs);
        core::mem::swap(&mut ids, &mut self.ids);
        core::mem::swap(&mut titles, &mut self.titles);
        proof {
            assert(self.acc() =~= Seq::<EntryV>::empty());
        }
        IndexBatch { byte_offsets: offs, article_ids: ids, titles: titles }
    }

    /// One fed item, treated as the assembling of a whole stream treats
    /// it: an error discards the batch in progress and surfaces itself
    /// unchanged; an entry joins the batch in progress and, when it is
    /// the `batch_size`-th, completes exactly that batch. No empty
    /// batch is ever handed out, and a batch boundary never splits an
    /// entry.
    pub fn feed(&mut self, item: PipeItem) -> (r: Option<Result<IndexBatch, IxError>>)
        requires
            old(self).wf(),
        ensures
            final(self).wf(),
            final(self).bsize() == old(self).bsize(),
            match r {
                None => item is Ok && final(self).acc() == old(self).acc().push(item->Ok_0@)
                    && old(self).acc().len() + 1 < old(self).bsize(),
                Some(step) => final(self).acc() == Seq::<EntryV>::empty() && match step {
                    Ok(batch) => {
                        &&& item is Ok
                        &&& batch.wf()
                        &&& batch@ == old(self).acc().push(item->Ok_0@)
                        &&& batch@.len() == old(self).bsize()
                    },
                    Err(e) => item == Err::<IndexEntry, IxError>(e),
                },
            },
    {
        match item {
            Err(e) => {
                let _ = self.take_batch();
                Some(Err(e))
            },
            Ok(entry) => {
                let ghost acc0 = self.acc();
                let ghost ev = entry@;
                let IndexEntry { byte_offset, article_id, title } = entry;
                self.offs.push(byte_offset);
                self.ids.push(article_id);
                self.titles.push(title);
                proof {
                    assert(self.acc() =~= acc0.push(ev));
                }
                if self.offs.len() == self.batch_size {
                    let batch = self.take_batch();
                    Some(Ok(batch))
                } else {
                    None
                }
            },
        }
    }

    /// End of input: hands out the final, shorter batch, or nothing
    /// when no entry is in progress; the assembler is left empty.
    pub fn finish(&mut self) -> (r: Option<IndexBatch>)
        requires
            old(self).wf(),
        ensures
            final(self).wf(),
            final(self).bsize() == old(self).bsize(),
            final(self).acc() == Seq::<EntryV>::empty(),
            match r {
                None => old(self).acc() == Seq::<EntryV>::empty(),
                Some(batch) => batch.wf() && batch@ == old(self).acc() && 0 < batch@.len() < old(
                    self,
                ).bsize(),
            },
    {
        if self.offs.len() == 0 {
            proof {
                assert(self.acc() =~= Seq::<EntryV>::empty());
            }
            return None;
        }
        let batch = self.take_batch();
        Some(batch)
    }
}

/// Pulls entries off a stream of parsed items and hands out one batch
/// (or one error) per call, holding its position in the stream between
/// calls.
pub struct IndexBatchIter {
    /// The items not yet consumed, next item last.
    inner: Vec<PipeItem>,
    /// The maximum number of entries per batch, at least 1.
    batch_size: usize,
}

impl IndexBatchIter {
    /// The items not yet consumed, in the order they will be pulled.
    pub closed spec fn remaining(self) -> Seq<PipeItem> {
        self.inner@.reverse()
    }

    /// The configured batch size.
    pub closed spec fn bsize(self) -> nat {
        self.batch_size as nat
    }

    /// The batch size is positive: with size zero every pull would yield
    /// an empty batch forever.
    pub open spec fn wf(self) -> bool {
        self.bsize() >= 1
    }

    /// Takes the stream of parsed items to assemble, in order.
    #[verifier::loop_isolation(false)]
    pub fn new(items: Vec<PipeItem>, batch_size: usize) -> (r: IndexBatchIter)
        requires
            batch_size >= 1,
        ensures
            r.wf(),
            r.bsize() == batch_size,
            r.remaining() == items@,
    {
        let ghost all = items@;
        let mut src = items;
        let mut inner: Vec<PipeItem> = Vec::new();
        while src.len() > 0
            invariant
                src@.len() <= all.len(),
                src@ =~= all.take(src@.len() as int),
                inner@ =~= all.skip(src@.len() as int).reverse(),
            decreases src@.len(),
        {
            let ghost k = src@.len() as int;
            let it = src.pop().unwrap();
            inner.push(it);
            proof {
                assert(it == all.take(k)[k - 1]);
                assert(src@ =~= all.take(k - 1));
                assert(inner@ =~= all.skip(k - 1).reverse());
            }
        }
        proof {
            assert(inner@.reverse() =~= all);
        }
        IndexBatchIter { inner, batch_size }
    }

    /// The number of items not yet consumed.
    pub fn remaining_len(&self) -> (n: usize)
        ensures
            n == self.remaining().len(),
    {
        self.inner.len()
    }

    /// The configured batch size.
    pub fn batch_size(&self) -> (b: usize)
        ensures
            b == self.bsize(),
    {
        self.batch_size
    }

    /// One pull: up to `batch_size` items are consumed. The first error
    /// among them is surfaced (the partial batch is discarded); otherwise
    /// the consumed entries form the next batch; an exhausted stream ends
    /// the sequence. The result is exactly the head of `batches_spec` of
    /// the items that were remaining, and the items still remaining carry
    /// its tail.
    #[verifier::loop_isolation(false)]
    pub fn next(&mut self) -> (r: Option<Result<IndexBatch, IxError>>)
        requires
            old(self).wf(),
        ensures
            final(self).wf(),
            final(self).bsize() == old(self).bsize(),
            match r {
                None => old(self).remaining().len() == 0 && final(self).remaining().len() == 0,
                Some(step) => {
                    &&& final(self).remaining().len() < old(self).remaining().len()
                    &&& batches_spec(old(self).remaining(), old(self).bsize()) == seq![
                        batch_result_view(step),
                    ] + batches_spec(final(self).remaining(), final(self).bsize())
                    &&& (step matches Ok(batch) ==> {
                        let k = batch@.len() as int;
                        &&& batch.wf()
                        &&& 0 < k <= old(self).bsize()
                        &&& k <= old(self).remaining().len()
                        &&& (forall|m: int| 0 <= m < k ==> old(self).remaining()[m] is Ok)
                        &&& batch@ == entries_of(old(self).remaining().take(k))
                        &&& final(self).remaining() == old(self).remaining().skip(k)
                        &&& (k == old(self).bsize() || final(self).remaining().len() == 0)
                    })
                    &&& (step matches Err(e) ==> exists|k: int|
                        {
                            &&& 0 < k <= old(self).bsize()
                            &&& k <= old(self).remaining().len()
                            &&& old(self).remaining()[k - 1] == Err::<IndexEntry, IxError>(e)
                            &&& (forall|m: int| 0 <= m < k - 1 ==> old(self).remaining()[m] is Ok)
                            &&& final(self).remaining() == #[trigger] old(self).remaining().skip(k)
                        })
                },
            },
    {
        let ghost items0 = self.remaining();
        let ghost b = self.bsize();
        let mut offs: Vec<u64> = Vec::new();
        let mut ids: Vec<String> = Vec::new();
        let mut titles: Vec<String> = Vec::new();
        let mut count: usize = 0;
        proof {
            assert(columns_view(offs@, ids@, titles@) =~= Seq::<EntryV>::empty());
            assert(items0.skip(0) =~= items0);
            assert(entries_of(items0.take(0)) =~= Seq::<EntryV>::empty());
        }
        while count < self.batch_size && self.inner.len() > 0
            invariant
                self.wf(),
                self.bsize() == b,
                count < b,
                offs@.len() == count,
                ids@.len() == count,
                titles@.len() == count,
                self.remaining() =~= items0.skip(count as int),
                count <= items0.len(),
                forall|m: int| 0 <= m < count ==> items0[m] is Ok,
                columns_view(offs@, ids@, titles@) =~= entries_of(items0.take(count as int)),
                batches_go(items0, b, Seq::<EntryV>::empty()) == batches_go(
                    self.remaining(),
                    b,
                    columns_view(offs@, ids@, titles@),
                ),
            decreases self.inner@.len(),
        {
            let ghost rem0 = self.remaining();
            let ghost acc0 = columns_view(offs@, ids@, titles@);
            let it = self.inner.pop().unwrap();
            proof {
                assert(it == rem0[0]);
                assert(self.inner@.reverse() =~= rem0.drop_first());
                assert(rem0.drop_first() =~= items0.skip(count + 1));
            }
            match it {
                Err(e) => {
                    proof {
                        assert(batches_go(rem0, b, acc0) == seq![
                            Err::<Seq<EntryV>, IxError>(e),
                        ] + batches_go(rem0.drop_first(), b, Seq::<EntryV>::empty()));
                        assert(items0[count as int] == Err::<IndexEntry, IxError>(e));
                        assert(self.remaining() == items0.skip(count + 1));
                    }
                    return Some(Err(e));
                },
                Ok(entry) => {
                    let ghost ev = entry@;
                    let IndexEntry { byte_offset, article_id, title } = entry;
                    offs.push(byte_offset);
                    ids.push(article_id);
                    titles.push(title);
                    count = count + 1;
                    proof {
                        assert(columns_view(offs@, ids@, titles@) =~= acc0.push(ev));
                        assert(items0[count - 1] == rem0[0] && items0[count - 1] is Ok);
                        assert(items0[count - 1]->Ok_0@ == ev);
                        assert(items0.take(count as int) =~= items0.take(count - 1).push(
                            items0[count - 1],
                        ));
                        assert(entries_of(items0.take(count as int)) =~= entries_of(
                            items0.take(count - 1),
                        ).push(ev));
                    }
                    if count == self.batch_size {
                        proof {
                            assert(batches_go(rem0, b, acc0) == seq![
                                Ok::<Seq<EntryV>, IxError>(acc0.push(ev)),
                            ] + batches_go(rem0.drop_first(), b, Seq::<EntryV>::empty()));
                            assert(self.remaining() == items0.skip(count as int));
                        }
                        let batch = IndexBatch {
                            byte_offsets: offs,
                            article_ids: ids,
                            titles: titles,
                        };
                        return Some(Ok(batch));
                    }
                    proof {
                        assert(batches_go(rem0, b, acc0) == batches_go(
                            rem0.drop_first(),
                            b,
                            acc0.push(ev),
                        ));
                    }
                },
            }
        }
        // The stream is exhausted (a full batch returns from inside the
        // loop), so what was accumulated is the final, possibly short,
        // batch -- or the end of the sequence if nothing was.
        proof {
            assert(self.remaining().len() == 0);
        }
        if count == 0 {
            proof {
                assert(items0.skip(0) =~= items0);
            }
            return None;
        }
        proof {
            assert(self.remaining() == items0.skip(count as int));
        }
        let batch = IndexBatch { byte_offsets: offs, article_ids: ids, titles: titles };
        proof {
            assert(batches_go(self.remaining(), b, batch@) == seq![
                Ok::<Seq<EntryV>, IxError>(batch@),
            ]);
            assert(seq![Ok::<Seq<EntryV>, IxError>(batch@)] =~= seq![
                Ok::<Seq<EntryV>, IxError>(batch@),
            ] + batches_spec(self.remaining(), b));
        }
        Some(Ok(batch))
    }
}

} // verus!
