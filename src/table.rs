use vstd::arithmetic::div_mod::{lemma_basic_div, lemma_hoist_over_denominator};
use vstd::pervasive::unreached;
use vstd::prelude::*;

use crate::codec::{csv_records, csv_text, read_records, rows_of, write_records};

verus! {

/// Declared so that load-time timestamps can be carried through the table
/// unchanged; nothing here looks inside one.
#[verifier::external_type_specification]
#[verifier::external_body]
pub struct ExSystemTime(std::time::SystemTime);

/// A half-open range `[start, end)` of row indices.
#[derive(Clone, Copy, Debug, PartialEq, Eq, Structural)]
pub struct Page {
    pub start: usize,
    pub end: usize,
}

/// Which index of a mutation fell outside the table.
#[derive(Clone, Copy, Debug, PartialEq, Eq, Structural)]
pub enum Bound {
    Row,
    Field,
}

/// The failures of loading, editing and writing a table.
#[derive(Clone, Copy, Debug, PartialEq, Eq, Structural)]
pub enum TableError {
    /// The source could not be opened or is not well-formed delimited text.
    SourceUnreadable,
    /// The source's size or timestamps could not be retrieved.
    MetadataUnavailable,
    /// A row or field index outside the table.
    IndexOutOfBounds(Bound),
    /// The destination of the written rows could not be written.
    DestinationUnwritable,
}

/// A table of text fields, with its logical dimensions, its current pages
/// and where it came from.
///
/// `records` and `fields` start out as measured from the loaded rows but may
/// be overridden; they are not checked against `data` afterwards.
pub struct CSVData {
    pub data: Vec<Vec<String>>,
    pub records: usize,
    pub fields: usize,
    pub pages: Vec<Page>,
    pub file_name: String,
    pub creation_date: std::time::SystemTime,
    pub last_modified_date: std::time::SystemTime,
    pub file_size: u64,
}

/// The field count measured from loaded rows: that of the first row, or
/// zero where there is none.
pub open spec fn first_row_len(rows: Seq<Seq<Seq<char>>>) -> int {
    if rows.len() == 0 {
        0
    } else {
        rows[0].len() as int
    }
}

/// A row of `n` empty fields.
pub open spec fn blank_row(n: int) -> Seq<Seq<char>> {
    Seq::new(n as nat, |j: int| Seq::<char>::empty())
}

/// The page size actually used for a requested one: zero stands for ten.
pub open spec fn page_size(records_per_page: usize) -> int {
    if records_per_page == 0 {
        10
    } else {
        records_per_page as int
    }
}

/// The pages `[start, min(start + size, count))`, `[end, ...)`, ... up to
/// `count`.
pub open spec fn pages_from(start: int, count: int, size: int) -> Seq<(int, int)>
    decreases count - start,
{
    if size <= 0 || start >= count {
        Seq::empty()
    } else {
        let end = if start + size < count {
            start + size
        } else {
            count
        };
        seq![(start, end)] + pages_from(end, count, size)
    }
}

/// The pages that cover `[0, count)` in runs of `size` rows.
pub open spec fn paging(count: int, size: int) -> Seq<(int, int)> {
    pages_from(0, count, size)
}

impl CSVData {
    /// The rows as sequences of field texts.
    pub open spec fn rows(&self) -> Seq<Seq<Seq<char>>> {
        rows_of(self.data@)
    }

    /// The pages as `(start, end)` pairs.
    pub open spec fn page_view(&self) -> Seq<(int, int)> {
        self.pages@.map_values(|p: Page| (p.start as int, p.end as int))
    }

    /// `self` and `other` agree in everything but their pages.
    pub open spec fn same_but_pages(&self, other: &CSVData) -> bool {
        &&& self.data == other.data
        &&& self.same_dims_and_origin(other)
    }

    /// `self` and `other` agree in their dimensions and provenance.
    pub open spec fn same_dims_and_origin(&self, other: &CSVData) -> bool {
        &&& self.records == other.records
        &&& self.fields == other.fields
        &&& self.file_name == other.file_name
        &&& self.creation_date == other.creation_date
        &&& self.last_modified_date == other.last_modified_date
        &&& self.file_size == other.file_size
    }

    /// Replaces the pages with `[0, n)`, `[n, 2n)`, ... covering
    /// `[0, records)`, the last one possibly shorter, where `n` is
    /// `records_per_page`, or ten when that is zero.
    pub fn create_pages(&mut self, records_per_page: usize)
        ensures
            final(self).page_view() == paging(
                old(self).records as int,
                page_size(records_per_page),
            ),
            final(self).same_but_pages(old(self)),
    {
        let size: usize = if records_per_page == 0 {
            10
        } else {
            records_per_page
        };
        self.pages.clear();
        let mut start: usize = 0;
        while start < self.records
            invariant
                start <= self.records,
                size as int == page_size(records_per_page),
                self.same_but_pages(old(self)),
                self.page_view() + pages_from(start as int, self.records as int, size as int)
                    == paging(self.records as int, size as int),
            decreases self.records - start,
        {
            let end: usize = if self.records - start <= size {
                self.records
            } else {
                start + size
            };
            let ghost before = self.page_view();
            self.pages.push(Page { start, end });
            assert(self.page_view() =~= before.push((start as int, end as int)));
            assert(before.push((start as int, end as int)) + pages_from(
                end as int,
                self.records as int,
                size as int,
            ) =~= before + pages_from(start as int, self.records as int, size as int));
            start = end;
        }
        assert(self.page_view() + pages_from(start as int, self.records as int, size as int)
            =~= self.page_view());
    }

    /// Builds a table from the text of `source`, every record of it kept as a
    /// row in order, with `records` the number of rows and `fields` the
    /// length of the first row (zero without rows), and no pages. Fails with
    /// `SourceUnreadable` exactly where the codec does not accept the text.
    pub fn from_source(
        file_name: &str,
        source: &[u8],
        file_size: u64,
        creation_date: std::time::SystemTime,
        last_modified_date: std::time::SystemTime,
    ) -> (r: Result<CSVData, TableError>)
        ensures
            match r {
                Ok(t) => {
                    &&& csv_records(source@) == Some(t.rows())
                    &&& t.records == t.data@.len()
                    &&& t.fields == first_row_len(t.rows())
                    &&& t.pages@.len() == 0
                    &&& t.file_name@ == file_name@
                    &&& t.file_size == file_size
                    &&& t.creation_date == creation_date
                    &&& t.last_modified_date == last_modified_date
                },
                Err(e) => {
                    &&& e == TableError::SourceUnreadable
                    &&& csv_records(source@) is None
                },
            },
    {
        match read_records(source) {
            Ok(data) => {
                let records = data.len();
                let fields: usize = if data.len() == 0 {
                    0
                } else {
                    data[0].len()
                };
                Ok(CSVData {
                    data,
                    records,
                    fields,
                    pages: Vec::new(),
                    file_name: file_name.to_owned(),
                    creation_date,
                    last_modified_date,
                    file_size,
                })
            },
            Err(_) => Err(TableError::SourceUnreadable),
        }
    }

    /// The rows encoded by the codec, in order and as stored, ragged or
    /// blanked rows included.
    pub fn to_csv(&self) -> (r: Vec<u8>)
        ensures
            r@ == csv_text(self.rows()),
    {
        match write_records(&self.data) {
            Ok(bytes) => bytes,
            Err(_) => unreached(),
        }
    }

    /// Copies of the stored rows `start..end`; `IndexOutOfBounds(Row)` where
    /// that is not a range of stored rows.
    pub fn paginate(&self, start: usize, end: usize) -> (r: Result<Vec<Vec<String>>, TableError>)
        ensures
            r is Ok <==> start <= end <= self.data@.len(),
            match r {
                Ok(rows) => rows_of(rows@) == self.rows().subrange(start as int, end as int),
                Err(e) => e == TableError::IndexOutOfBounds(Bound::Row),
            },
    {
        if start > end || end > self.data.len() {
            return Err(TableError::IndexOutOfBounds(Bound::Row));
        }
        let mut out: Vec<Vec<String>> = Vec::new();
        let mut i: usize = start;
        while i < end
            invariant
                start <= i <= end <= self.data@.len(),
                rows_of(out@) == self.rows().subrange(start as int, i as int),
            decreases end - i,
        {
            let row = copy_row(&self.data[i]);
            let ghost before = out@;
            out.push(row);
            assert(rows_of(out@) =~= rows_of(before).push(self.rows()[i as int]));
            assert(self.rows().subrange(start as int, i + 1) =~= self.rows().subrange(
                start as int,
                i as int,
            ).push(self.rows()[i as int]));
            i = i + 1;
        }
        Ok(out)
    }

    /// Shape-preserving deletion: row `index` becomes `fields` empty fields;
    /// the number of stored rows, every other row, the dimensions and the
    /// pages stay as they are. Fails with `IndexOutOfBounds(Row)`, changing
    /// nothing, unless `index` is below both `records` and the number of
    /// stored rows.
    pub fn delete_row(&mut self, index: usize) -> (r: Result<(), TableError>)
        ensures
            r is Ok <==> index < old(self).records && index < old(self).data@.len(),
            match r {
                Ok(()) => {
                    &&& final(self).rows() == old(self).rows().update(
                        index as int,
                        blank_row(old(self).fields as int),
                    )
                    &&& final(self).pages == old(self).pages
                    &&& final(self).same_dims_and_origin(old(self))
                },
                Err(e) => {
                    &&& e == TableError::IndexOutOfBounds(Bound::Row)
                    &&& *final(self) == *old(self)
                },
            },
    {
        if index >= self.records || index >= self.data.len() {
            return Err(TableError::IndexOutOfBounds(Bound::Row));
        }
        let mut empty_row: Vec<String> = Vec::new();
        let mut j: usize = 0;
        while j < self.fields
            invariant
                j <= self.fields,
                empty_row@.len() == j,
                forall|k: int| 0 <= k < j ==> (#[trigger] empty_row@[k])@ == Seq::<char>::empty(),
            decreases self.fields - j,
        {
            empty_row.push(String::new());
            j = j + 1;
        }
        let ghost before = self.data@;
        assert(empty_row@.map_values(|f: String| f@) =~= blank_row(self.fields as int));
        self.data.set(index, empty_row);
        assert(self.rows() =~= rows_of(before).update(index as int, blank_row(self.fields as int)));
        Ok(())
    }

    /// Replaces the text of field `field` of row `row` with `value`, and
    /// nothing else. Fails, changing nothing, with `IndexOutOfBounds(Row)`
    /// unless `row` is below both `records` and the number of stored rows,
    /// and else with `IndexOutOfBounds(Field)` unless `field` is below that
    /// row's own length.
    pub fn modify_field(&mut self, row: usize, field: usize, value: &str) -> (r: Result<
        (),
        TableError,
    >)
        ensures
            r is Ok <==> (row < old(self).records && row < old(self).data@.len() && field
                < old(self).data@[row as int]@.len()),
            r == Err::<(), TableError>(TableError::IndexOutOfBounds(Bound::Row)) <==> !(row
                < old(self).records && row < old(self).data@.len()),
            r == Err::<(), TableError>(TableError::IndexOutOfBounds(Bound::Field)) <==> (row
                < old(self).records && row < old(self).data@.len() && field
                >= old(self).data@[row as int]@.len()),
            match r {
                Ok(()) => {
                    &&& final(self).rows() == old(self).rows().update(
                        row as int,
                        old(self).rows()[row as int].update(field as int, value@),
                    )
                    &&& final(self).pages == old(self).pages
                    &&& final(self).same_dims_and_origin(old(self))
                },
                Err(_) => *final(self) == *old(self),
            },
    {
        if row >= self.records || row >= self.data.len() {
            return Err(TableError::IndexOutOfBounds(Bound::Row));
        }
        if field >= self.data[row].len() {
            return Err(TableError::IndexOutOfBounds(Bound::Field));
        }
        let ghost before = self.data@;
        let mut new_row = copy_row(&self.data[row]);
        new_row.set(field, value.to_owned());
        self.data.set(row, new_row);
        assert(self.rows()[row as int] =~= rows_of(before)[row as int].update(field as int, value@));
        assert(self.rows() =~= rows_of(before).update(
            row as int,
            rows_of(before)[row as int].update(field as int, value@),
        ));
        Ok(())
    }
}

proof fn lemma_pages_from(start: int, count: int, size: int)
    requires
        0 <= start <= count,
        size > 0,
    ensures
        pages_from(start, count, size).len() == (count - start + size - 1) / size,
        forall|i: int|
            0 <= i < pages_from(start, count, size).len() ==> {
                let p = #[trigger] pages_from(start, count, size)[i];
                start <= p.0 < p.1 <= count && p.1 - p.0 <= size
            },
        forall|i: int|
            0 <= i < pages_from(start, count, size).len() - 1 ==> (#[trigger] pages_from(
                start,
                count,
                size,
            )[i]).1 == pages_from(start, count, size)[i + 1].0,
        pages_from(start, count, size).len() > 0 ==> pages_from(start, count, size)[0].0 == start
            && pages_from(start, count, size).last().1 == count,
    decreases count - start,
{
    lemma_basic_div(size - 1, size);
    if start < count {
        let end = if start + size < count {
            start + size
        } else {
            count
        };
        lemma_pages_from(end, count, size);
        let rest = pages_from(end, count, size);
        let all = pages_from(start, count, size);
        assert(all == seq![(start, end)] + rest);
        lemma_hoist_over_denominator(count - end + size - 1, 1, size as nat);
        if end == count {
            lemma_basic_div(count - start - 1, size);
            lemma_hoist_over_denominator(count - start - 1, 1, size as nat);
        }
        assert forall|i: int| 0 <= i < all.len() - 1 implies (#[trigger] all[i]).1 == all[i
            + 1].0 by {
            if i > 0 {
                assert(all[i] == rest[i - 1]);
            }
        }
    }
}

/// With a positive page size, pagination yields `ceil(count / size)` pages,
/// each `[start, end)` with `0 <= start < end <= count` and at most `size`
/// rows, each starting where the one before ends, the first at 0 and the
/// last ending at `count`.
pub proof fn lemma_paging_shape(count: int, size: int)
    requires
        count >= 0,
        size > 0,
    ensures
        paging(count, size).len() == (count + size - 1) / size,
        forall|i: int|
            0 <= i < paging(count, size).len() ==> {
                let p = #[trigger] paging(count, size)[i];
                0 <= p.0 < p.1 <= count && p.1 - p.0 <= size
            },
        forall|i: int|
            0 <= i < paging(count, size).len() - 1 ==> (#[trigger] paging(count, size)[i]).1
                == paging(count, size)[i + 1].0,
        paging(count, size).len() > 0 ==> paging(count, size)[0].0 == 0 && paging(
            count,
            size,
        ).last().1 == count,
{
    lemma_pages_from(0, count, size);
}

/// A requested page size of zero paginates exactly as a page size of ten.
pub proof fn lemma_zero_page_size_is_ten(count: int)
    ensures
        paging(count, page_size(0)) == paging(count, page_size(10)),
{
}

/// A table without rows has no pages, whatever the page size.
pub proof fn lemma_no_rows_no_pages(size: int)
    ensures
        paging(0, size).len() == 0,
{
}

/// Paginating again with the same page size, after a first pagination
/// (`first` from `start`, `second` from `first`, each as `create_pages`
/// promises), gives the same pages.
pub proof fn lemma_create_pages_idempotent(
    start: CSVData,
    first: CSVData,
    second: CSVData,
    records_per_page: usize,
)
    requires
        first.page_view() == paging(start.records as int, page_size(records_per_page)),
        first.same_but_pages(&start),
        second.page_view() == paging(first.records as int, page_size(records_per_page)),
        second.same_but_pages(&first),
    ensures
        second.pages@ == first.pages@,
        second.same_but_pages(&first),
{
    assert(second.page_view().len() == second.pages@.len());
    assert forall|i: int| 0 <= i < second.pages@.len() implies second.pages@[i]
        == first.pages@[i] by {
        assert(second.page_view()[i] == first.page_view()[i]);
    }
    assert(second.pages@ =~= first.pages@);
}

/// A field edit as `modify_field` states it changes that one field: the
/// number of rows, each row's length and every other field stay as they
/// were.
pub proof fn lemma_modify_one_field(
    rows: Seq<Seq<Seq<char>>>,
    row: int,
    field: int,
    value: Seq<char>,
)
    requires
        0 <= row < rows.len(),
        0 <= field < rows[row].len(),
    ensures
        ({
            let after = rows.update(row, rows[row].update(field, value));
            &&& after.len() == rows.len()
            &&& forall|i: int| 0 <= i < rows.len() ==> (#[trigger] after[i]).len() == rows[i].len()
            &&& after[row][field] == value
            &&& forall|i: int, j: int|
                0 <= i < rows.len() && 0 <= j < rows[i].len() && (i != row || j != field)
                    ==> #[trigger] after[i][j] == rows[i][j]
        }),
{
}

/// Shape-preserving deletion as `delete_row` states it, on a row of
/// `fields` fields: the number of rows and that row's length stay, each of
/// its fields becomes empty, and the other rows are untouched.
pub proof fn lemma_delete_blanks_row(rows: Seq<Seq<Seq<char>>>, index: int, fields: int)
    requires
        0 <= index < rows.len(),
        rows[index].len() == fields,
    ensures
        ({
            let after = rows.update(index, blank_row(fields));
            &&& after.len() == rows.len()
            &&& after[index].len() == rows[index].len()
            &&& forall|j: int| 0 <= j < fields ==> #[trigger] after[index][j] == Seq::<char>::empty()
            &&& forall|i: int| 0 <= i < rows.len() && i != index ==> #[trigger] after[i] == rows[i]
        }),
{
}

/// A field-by-field copy of `row`.
fn copy_row(row: &Vec<String>) -> (r: Vec<String>)
    ensures
        r@ == row@,
{
    let mut out: Vec<String> = Vec::new();
    let mut j: usize = 0;
    while j < row.len()
        invariant
            j <= row@.len(),
            out@ == row@.subrange(0, j as int),
        decreases row@.len() - j,
    {
        out.push(row[j].clone());
        assert(out@ =~= row@.subrange(0, j + 1));
        j = j + 1;
    }
    assert(out@ =~= row@);
    out
}

} // verus!
