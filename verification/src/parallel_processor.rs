//! The work on the pages of a document, batch by batch.

use crate::chunking::{record_views, ChunkMetadata, ChunkMetadataView, TextChunker};
use crate::error::ProcessingError;
use vstd::prelude::*;
use vstd::seq_lib::{to_multiset_build, to_multiset_insert};

verus! {

/// The fewest pages of a batch.
pub const MIN_BATCH_SIZE: usize = 8;

/// A page as plain values: its index and its text.
pub open spec fn page_views(pages: Seq<(usize, String)>) -> Seq<(usize, Seq<char>)> {
    pages.map_values(|p: (usize, String)| (p.0, p.1@))
}

/// The records of one page, whose number is its index and one; none where
/// the page cannot be cut or has no number.
pub open spec fn page_records(chunker: &TextChunker, page: (usize, Seq<char>), source: Seq<char>) -> Option<Seq<ChunkMetadataView>> {
    if page.0 == usize::MAX {
        None
    } else {
        chunker.chunk_page_spec((page.0 + 1) as usize, page.1, source)
    }
}

/// The records of the pages of a batch, page after page; a page that
/// cannot be cut gives none.
pub open spec fn batch_records(chunker: &TextChunker, pages: Seq<(usize, Seq<char>)>, source: Seq<char>) -> Seq<ChunkMetadataView>
    decreases pages.len(),
{
    if pages.len() == 0 {
        Seq::empty()
    } else {
        batch_records(chunker, pages.drop_last(), source) + (match page_records(chunker, pages.last(), source) {
            Some(records) => records,
            None => Seq::empty(),
        })
    }
}

/// A record comes before another, or with it: by the page, and on one page
/// by the id.
pub open spec fn in_order(a: ChunkMetadataView, b: ChunkMetadataView) -> bool {
    a.page < b.page || (a.page == b.page && a.chunk_id <= b.chunk_id)
}

/// Every record comes before or with every later one.
pub open spec fn records_sorted(records: Seq<ChunkMetadataView>) -> bool {
    forall|i: int, j: int| 0 <= i < j < records.len() ==> in_order(records[i], records[j])
}

/// Where a record goes into a list: behind the last record that comes
/// before or with it.
pub open spec fn place_of(records: Seq<ChunkMetadataView>, record: ChunkMetadataView) -> int
    decreases records.len(),
{
    if records.len() == 0 {
        0
    } else if in_order(records.last(), record) {
        records.len() as int
    } else {
        place_of(records.drop_last(), record)
    }
}

/// The records by page and id; records of one page and id keep their
/// order.
pub open spec fn ordered_records(records: Seq<ChunkMetadataView>) -> Seq<ChunkMetadataView>
    decreases records.len(),
{
    if records.len() == 0 {
        Seq::empty()
    } else {
        let sorted = ordered_records(records.drop_last());
        sorted.insert(place_of(sorted, records.last()), records.last())
    }
}

/// The place of a record lies in the list; every record from there on
/// comes after it, and the record before it comes before or with it.
pub proof fn lemma_place_of(records: Seq<ChunkMetadataView>, record: ChunkMetadataView)
    ensures
        0 <= place_of(records, record) <= records.len(),
        forall|i: int| place_of(records, record) <= i < records.len() ==> !in_order(#[trigger] records[i], record),
        place_of(records, record) > 0 ==> in_order(records[place_of(records, record) - 1], record),
    decreases records.len(),
{
    if records.len() > 0 && !in_order(records.last(), record) {
        lemma_place_of(records.drop_last(), record);
        assert forall|i: int| place_of(records, record) <= i < records.len() implies !in_order(
            #[trigger] records[i],
            record,
        ) by {
            if i < records.len() - 1 {
                assert(records.drop_last()[i] == records[i]);
            }
        }
        if place_of(records, record) > 0 {
            assert(records.drop_last()[place_of(records, record) - 1] == records[place_of(records, record) - 1]);
        }
    }
}

/// Ordering records gives the same records, each as often as before, by
/// page and, on one page, by id.
pub proof fn law_ordered_records(records: Seq<ChunkMetadataView>)
    ensures
        records_sorted(ordered_records(records)),
        ordered_records(records).len() == records.len(),
        ordered_records(records).to_multiset() == records.to_multiset(),
    decreases records.len(),
{
    if records.len() == 0 {
        assert(records =~= Seq::empty());
    } else {
        let sorted = ordered_records(records.drop_last());
        let record = records.last();
        let place = place_of(sorted, record);
        law_ordered_records(records.drop_last());
        lemma_place_of(sorted, record);
        let after = sorted.insert(place, record);
        sorted.insert_ensures(place, record);
        assert forall|i: int, j: int| 0 <= i < j < after.len() implies in_order(after[i], after[j]) by {
            let i0 = if i < place { i } else { i - 1 };
            let j0 = if j < place { j } else { j - 1 };
            if i == place {
                assert(after[j] == sorted[j0]);
                assert(!in_order(sorted[j0], record));
            } else if j == place {
                assert(after[i] == sorted[i0]);
                if i0 < place - 1 {
                    assert(in_order(sorted[i0], sorted[place - 1]));
                }
            } else {
                assert(after[i] == sorted[i0] && after[j] == sorted[j0]);
            }
        }
        to_multiset_insert(sorted, place, record);
        to_multiset_build(records.drop_last(), record);
        assert(records.drop_last().push(record) =~= records);
    }
}

/// A copy of a record.
fn copy_record(record: &ChunkMetadata) -> (r: ChunkMetadata)
    ensures
        r@ == record@,
{
    ChunkMetadata {
        page: record.page,
        chunk_id: record.chunk_id,
        text: record.text.clone(),
        source: record.source.clone(),
        token_count: record.token_count,
    }
}

/// Puts the records of a document in order: by page and, on one page, by
/// id. Records of one page and id keep their order.
pub fn order_chunks(chunks: Vec<ChunkMetadata>) -> (r: Vec<ChunkMetadata>)
    ensures
        record_views(r@) == ordered_records(record_views(chunks@)),
{
    let ghost views = record_views(chunks@);
    let mut sorted: Vec<ChunkMetadata> = Vec::new();
    let mut i: usize = 0;
    assert(views.subrange(0, 0) =~= Seq::empty());
    assert(record_views(sorted@) =~= Seq::empty());
    while i < chunks.len()
        invariant
            i <= chunks.len(),
            views == record_views(chunks@),
            record_views(sorted@) == ordered_records(views.subrange(0, i as int)),
        decreases chunks.len() - i,
    {
        let record = copy_record(&chunks[i]);
        let ghost upto = views.subrange(0, i + 1);
        assert(upto.drop_last() =~= views.subrange(0, i as int));
        assert(upto.last() == record@);
        let ghost before = record_views(sorted@);
        let mut place: usize = sorted.len();
        assert(before.subrange(0, place as int) =~= before);
        while place > 0 && !(sorted[place - 1].page < record.page || (sorted[place - 1].page == record.page
            && sorted[place - 1].chunk_id <= record.chunk_id))
            invariant
                place <= sorted.len(),
                before == record_views(sorted@),
                place_of(before, record@) == place_of(before.subrange(0, place as int), record@),
            decreases place,
        {
            let ghost start = before.subrange(0, place as int);
            assert(start.last() == sorted@[place - 1]@);
            assert(start.drop_last() =~= before.subrange(0, place - 1));
            place -= 1;
        }
        proof {
            let start = before.subrange(0, place as int);
            if place > 0 {
                assert(start.last() == sorted@[place - 1]@);
            }
            assert(place_of(before, record@) == place);
        }
        let ghost added = record@;
        sorted.insert(place, record);
        assert(record_views(sorted@) =~= before.insert(place as int, added));
        i += 1;
    }
    assert(views.subrange(0, chunks.len() as int) =~= views);
    sorted
}

/// Plans the work on the pages of a document by the number of cores.
pub struct ParallelProcessor {
    batch_size: usize,
    max_parallelism: usize,
}

impl ParallelProcessor {
    /// The number of pages of a batch.
    pub closed spec fn batch(&self) -> usize {
        self.batch_size
    }

    /// The most threads that work at once.
    pub closed spec fn parallelism(&self) -> usize {
        self.max_parallelism
    }

    /// A plan for a number of cores: batches of twice as many pages, and of
    /// eight at least; as many threads as cores.
    pub fn new(logical_cores: usize) -> (r: Self)
        requires
            logical_cores * 2 <= usize::MAX,
        ensures
            r.batch() == (if logical_cores * 2 >= MIN_BATCH_SIZE {
                logical_cores * 2
            } else {
                MIN_BATCH_SIZE as int
            }),
            r.parallelism() == logical_cores,
    {
        let doubled: usize = logical_cores * 2;
        let batch_size: usize = if doubled >= MIN_BATCH_SIZE {
            doubled
        } else {
            MIN_BATCH_SIZE
        };
        ParallelProcessor { batch_size, max_parallelism: logical_cores }
    }

    /// The number of pages of a batch.
    pub fn batch_size(&self) -> (r: usize)
        ensures
            r == self.batch(),
    {
        self.batch_size
    }

    /// The most threads that work at once.
    pub fn max_parallelism(&self) -> (r: usize)
        ensures
            r == self.parallelism(),
    {
        self.max_parallelism
    }

    /// Cuts the pages of a batch into chunks, page after page. A page that
    /// cannot be cut is left out and the work goes on.
    pub fn process_text_batch(&self, page_texts: &[(usize, String)], source: &str, text_chunker: &TextChunker) -> (r: Result<Vec<ChunkMetadata>, ProcessingError>)
        ensures
            r is Ok,
            record_views(r->Ok_0@) == batch_records(text_chunker, page_views(page_texts@), source@),
    {
        let ghost pages = page_views(page_texts@);
        let mut batch_chunks: Vec<ChunkMetadata> = Vec::new();
        let mut i: usize = 0;
        assert(pages.subrange(0, 0) =~= Seq::empty());
        assert(record_views(batch_chunks@) =~= Seq::empty());
        while i < page_texts.len()
            invariant
                i <= page_texts.len(),
                pages == page_views(page_texts@),
                record_views(batch_chunks@) == batch_records(text_chunker, pages.subrange(0, i as int), source@),
            decreases page_texts.len() - i,
        {
            let ghost upto = pages.subrange(0, i + 1);
            assert(upto.drop_last() =~= pages.subrange(0, i as int));
            assert(upto.last() == (page_texts@[i as int].0, page_texts@[i as int].1@));
            let ghost before = record_views(batch_chunks@);
            match self.process_single_page_text(page_texts[i].0, page_texts[i].1.as_str(), source, text_chunker) {
                Ok(mut page_chunks) => {
                    let ghost added = record_views(page_chunks@);
                    batch_chunks.append(&mut page_chunks);
                    assert(record_views(batch_chunks@) =~= before + added);
                },
                Err(_) => {
                    assert(before + Seq::<ChunkMetadataView>::empty() =~= before);
                },
            }
            i += 1;
        }
        assert(pages.subrange(0, page_texts.len() as int) =~= pages);
        Ok(batch_chunks)
    }

    /// Cuts the text of one page into chunks under its number, which is its
    /// index and one.
    pub fn process_single_page_text(&self, page_idx: usize, text: &str, source: &str, text_chunker: &TextChunker) -> (r: Result<Vec<ChunkMetadata>, ProcessingError>)
        ensures
            r is Ok <==> page_records(text_chunker, (page_idx, text@), source@) is Some,
            r is Ok ==> record_views(r->Ok_0@) == page_records(text_chunker, (page_idx, text@), source@)->Some_0,
            r is Err ==> r->Err_0 is ChunkingError,
    {
        if page_idx == usize::MAX {
            return Err(ProcessingError::ChunkingError("Page number out of range".to_owned()));
        }
        text_chunker.chunk_page_text(page_idx + 1, text, source)
    }
}

} // verus!
