//! The column store: an index file that keeps rows in natural order, and a
//! data file that holds each distinct byte string once.
//!
//! The index links its rows into a tree and walks it with the order that
//! `IdxBinary::cmp` gives. What the index asks of the column while it
//! searches, inserts and deletes is answered here: the value of a row, the
//! address for a value that no row holds yet, and what is freed when a row
//! leaves.

use std::cmp::Ordering;
use std::num::NonZeroU32;
use vstd::prelude::*;

use idx_file::IdxFile;
use various_data_file::{DataAddress, VariousDataFile};

use crate::compare::{compare, lemma_equal_iff_identical, natural_order};

verus! {

/// The index file of `idx_file`: one slot per row, linked into a tree.
#[verifier::external_type_specification]
#[verifier::external_body]
#[verifier::reject_recursive_types(T)]
#[verifier::reject_recursive_types(I)]
pub struct ExIdxFile<T, I: ?Sized>(IdxFile<T, I>);

/// The data file of `various_data_file`.
#[verifier::external_type_specification]
#[verifier::external_body]
pub struct ExVariousDataFile(VariousDataFile);

/// The place of a byte string in the data file.
#[verifier::external_type_specification]
#[verifier::external_body]
pub struct ExDataAddress(DataAddress);

/// The number of rows that the index records in its head.
pub uninterp spec fn index_rows_count(index: IdxFile<DataAddress, [u8]>) -> u32;

/// The number of row slots that the index file holds.
pub uninterp spec fn index_slots(index: IdxFile<DataAddress, [u8]>) -> u32;

/// The rows of the index that hold a value, each with the address it holds.
pub uninterp spec fn index_entries(index: IdxFile<DataAddress, [u8]>) -> Map<u32, DataAddress>;

/// What the index reports of a row that holds a value: that no other row
/// holds an equal one.
pub uninterp spec fn index_unique(index: IdxFile<DataAddress, [u8]>, row: u32) -> bool;

/// The bytes that the data file resolves the address to.
pub uninterp spec fn file_bytes(file: VariousDataFile, address: DataAddress) -> Seq<u8>;

/// The address lies within the mapped data file.
pub uninterp spec fn file_covers(file: VariousDataFile, address: DataAddress) -> bool;

/// The bytes at the address are in use: the data file handed the address out
/// and has not freed it since.
pub uninterp spec fn file_live(file: VariousDataFile, address: DataAddress) -> bool;

/// `Avltriee::rows_count`: the row count in the head of the index.
#[verifier::external_body]
fn rows_count(index: &IdxFile<DataAddress, [u8]>) -> (n: u32)
    ensures
        n == index_rows_count(*index),
{
    index.rows_count()
}

/// `Avltriee::node`: the address that the row holds, if it holds one. The
/// slot is read straight from the mapped file, so the row must lie
/// within the slots of the file. Row 0 is the head and holds no value.
#[verifier::external_body]
fn entry(index: &IdxFile<DataAddress, [u8]>, row: u32) -> (found: Option<DataAddress>)
    requires
        row <= index_slots(*index),
    ensures
        found.is_some() ==> 1 <= row <= index_slots(*index),
        match found {
            Some(address) => index_entries(*index).contains_key(row) && index_entries(
                *index,
            )[row] == address,
            None => !index_entries(*index).contains_key(row),
        },
{
    NonZeroU32::new(row).and_then(|r| index.node(r)).map(|node| (**node).clone())
}

/// `Avltriee::is_unique`: for a row that holds a value, the address it holds
/// and whether the index reports the row as the only holder of its value.
/// The slot is read as `Avltriee::node` reads it.
#[verifier::external_body]
fn unique_entry(index: &IdxFile<DataAddress, [u8]>, row: u32) -> (found: Option<
    (bool, DataAddress),
>)
    requires
        row <= index_slots(*index),
    ensures
        found.is_some() ==> 1 <= row <= index_slots(*index),
        match found {
            Some((unique, address)) => index_entries(*index).contains_key(row) && index_entries(
                *index,
            )[row] == address && unique == index_unique(*index, row),
            None => !index_entries(*index).contains_key(row),
        },
{
    NonZeroU32::new(row).and_then(|r| index.is_unique(r)).map(|(u, node)| (u, (**node).clone()))
}

/// `VariousDataFile::bytes`: the bytes at the address. They are read from the
/// mapped file as it is, so the address must lie within the file.
#[verifier::external_body]
fn resolve<'a>(file: &'a VariousDataFile, address: &DataAddress) -> (bytes: &'a [u8])
    requires
        file_covers(*file, *address),
    ensures
        bytes@ == file_bytes(*file, *address),
{
    file.bytes(address)
}

/// `VariousDataFile::insert`: writes the bytes into a freed place or at the
/// end of the file and returns their address, which then resolves to those
/// bytes. The file does not shrink, and bytes in use are not written over.
#[verifier::external_body]
fn store(file: &mut VariousDataFile, bytes: &[u8]) -> (address: DataAddress)
    ensures
        file_covers(*final(file), address),
        file_live(*final(file), address),
        file_bytes(*final(file), address) == bytes@,
        forall|other: DataAddress| #[trigger]
            file_covers(*old(file), other) ==> file_covers(*final(file), other),
        forall|other: DataAddress| #[trigger]
            file_live(*old(file), other) ==> file_live(*final(file), other) && file_bytes(
                *final(file),
                other,
            ) == file_bytes(*old(file), other),
{
    file.insert(bytes).into_address()
}

/// `VariousDataFile::delete`: overwrites the bytes at the address with zeros
/// and records the place as free. The file does not shrink, and the bytes in
/// use at other addresses are left alone. An address is freed once.
#[verifier::external_body]
fn release(file: &mut VariousDataFile, address: DataAddress)
    requires
        file_covers(*old(file), address),
        file_live(*old(file), address),
    ensures
        file_bytes(*final(file), address) == blank(file_bytes(*old(file), address).len()),
        forall|other: DataAddress| #[trigger]
            file_covers(*old(file), other) ==> file_covers(*final(file), other),
        forall|other: DataAddress| #[trigger]
            file_live(*old(file), other) && other != address ==> file_live(*final(file), other)
                && file_bytes(*final(file), other) == file_bytes(*old(file), other),
{
    file.delete(address)
}

/// A byte string of `len` zeros: what a freed place resolves to.
pub open spec fn blank(len: nat) -> Seq<u8> {
    Seq::new(len, |i: int| 0u8)
}

fn same_order(x: Ordering, y: Ordering) -> (same: bool)
    ensures
        same == (x == y),
{
    match (x, y) {
        (Ordering::Less, Ordering::Less) => true,
        (Ordering::Equal, Ordering::Equal) => true,
        (Ordering::Greater, Ordering::Greater) => true,
        _ => false,
    }
}

/// What `row_or_insert` did with a byte string.
pub enum Placement {
    /// A row already holds the bytes: nothing was written.
    Existing { row: u32 },
    /// The bytes were written at `address`; `row` is the first row past those
    /// counted, and waits to be linked into the index.
    Fresh { row: u32, address: DataAddress },
    /// The index has no row number left.
    Full,
}

/// An index file together with the data file that its rows point into.
///
/// The two files belong together: the addresses in the index are addresses
/// of this data file (`wf`), and between two operations on the index they
/// are addresses of bytes in use (`intact`). An index file that the index
/// wrote has a slot for each row it counts (`counted`). Nothing here can tell
/// whether files found on disk are of that kind; the one who opens them
/// answers for it.
pub struct IdxBinary {
    pub index: IdxFile<DataAddress, [u8]>,
    pub data_file: VariousDataFile,
}

impl IdxBinary {
    /// Every address that a row holds lies within the data file.
    pub open spec fn wf(&self) -> bool {
        forall|row: u32| #[trigger]
            index_entries(self.index).contains_key(row) ==> file_covers(
                self.data_file,
                index_entries(self.index)[row],
            )
    }

    /// The rows that the index has counted have their slots in the file.
    pub open spec fn counted(&self) -> bool {
        index_rows_count(self.index) <= index_slots(self.index)
    }

    /// No row points at freed bytes: every address that a row holds is in use.
    pub open spec fn intact(&self) -> bool {
        forall|row: u32| #[trigger]
            index_entries(self.index).contains_key(row) ==> file_live(
                self.data_file,
                index_entries(self.index)[row],
            )
    }

    /// The index file has a slot for `row`.
    pub open spec fn has_slot(&self, row: u32) -> bool {
        row <= index_slots(self.index)
    }

    /// The address that `row` holds, if it holds a value.
    pub open spec fn binding(&self, row: u32) -> Option<DataAddress> {
        if index_entries(self.index).contains_key(row) {
            Some(index_entries(self.index)[row])
        } else {
            None
        }
    }

    /// The address whose bytes go when `row` is deleted: the one that the row
    /// holds, if the index reports the row as its only holder.
    pub open spec fn sole_binding(&self, row: u32) -> Option<DataAddress> {
        if index_unique(self.index, row) {
            self.binding(row)
        } else {
            None
        }
    }

    /// The value of `row`, if it holds one.
    pub open spec fn value_of(&self, row: u32) -> Option<Seq<u8>> {
        match self.binding(row) {
            Some(address) => Some(file_bytes(self.data_file, address)),
            None => None,
        }
    }

    /// `row` holds a value, and the value is `bytes`.
    pub open spec fn holds(&self, row: u32, bytes: Seq<u8>) -> bool {
        self.value_of(row) == Some(bytes)
    }

    /// Every row has in `after` the value that it has in `before`.
    pub open spec fn same_values(before: IdxBinary, after: IdxBinary) -> bool {
        forall|row: u32| #[trigger] after.value_of(row) == before.value_of(row)
    }

    /// The bytes at `address` are blank in `after`, and every row that
    /// `before` binds to other bytes in use has them in `after` as well.
    pub open spec fn freed(before: IdxBinary, after: IdxBinary, address: DataAddress) -> bool {
        &&& file_bytes(after.data_file, address) == blank(
            file_bytes(before.data_file, address).len(),
        )
        &&& forall|row: u32| #[trigger]
            before.binding(row).is_some() && before.binding(row).unwrap() != address
                && file_live(before.data_file, before.binding(row).unwrap()) ==> {
                &&& after.value_of(row) == before.value_of(row)
                &&& file_live(after.data_file, before.binding(row).unwrap())
            }
    }

    /// A search for `content` may have ended at this edge: the row it names
    /// holds a value, and `edge_order` is the order of that value against
    /// `content`. An edge without a row is what a search of an empty index
    /// gives.
    pub open spec fn edge_fits(
        &self,
        content: Seq<u8>,
        edge_row: Option<u32>,
        edge_order: Ordering,
    ) -> bool {
        match edge_row {
            Some(row) => match self.value_of(row) {
                Some(bytes) => edge_order == natural_order(bytes, content),
                None => false,
            },
            None => true,
        }
    }

    /// The edge names a row, and the row lies within the counted rows.
    pub open spec fn edge_counted(&self, edge_row: Option<u32>) -> bool {
        match edge_row {
            Some(row) => row <= index_rows_count(self.index),
            None => true,
        }
    }

    /// The edge names a row whose value equals `content`.
    pub open spec fn edge_hits(edge_row: Option<u32>, edge_order: Ordering) -> bool {
        edge_row.is_some() && edge_order == Ordering::Equal
    }

    /// What `row_or_insert` gives for an edge that fits, and how it leaves
    /// the column.
    pub open spec fn placed(
        before: IdxBinary,
        after: IdxBinary,
        content: Seq<u8>,
        edge_row: Option<u32>,
        edge_order: Ordering,
        p: Placement,
    ) -> bool {
        &&& after.index == before.index
        &&& if Self::edge_hits(edge_row, edge_order) {
            &&& p == (Placement::Existing { row: edge_row.unwrap() })
            &&& after.data_file == before.data_file
            &&& after.holds(edge_row.unwrap(), content)
        } else if index_rows_count(before.index) == u32::MAX {
            &&& p == Placement::Full
            &&& after.data_file == before.data_file
        } else {
            &&& p matches Placement::Fresh { row, address }
            &&& row == index_rows_count(before.index) + 1
            &&& file_covers(after.data_file, address)
            &&& file_live(after.data_file, address)
            &&& file_bytes(after.data_file, address) == content
            &&& before.intact() ==> after.intact() && Self::same_values(before, after)
        }
    }

    /// The order in which the index keeps its values.
    pub fn cmp(left: &[u8], right: &[u8]) -> (o: Ordering)
        ensures
            o == natural_order(left@, right@),
    {
        compare(left, right)
    }

    /// The bytes at an address of the data file.
    pub fn bytes_at(&self, address: &DataAddress) -> (bytes: &[u8])
        requires
            file_covers(self.data_file, *address),
        ensures
            bytes@ == file_bytes(self.data_file, *address),
    {
        resolve(&self.data_file, address)
    }

    /// The value of `row`, or `None` if the row holds none. The row must have
    /// a slot in the index file.
    pub fn value(&self, row: u32) -> (v: Option<&[u8]>)
        requires
            self.wf(),
            self.has_slot(row),
        ensures
            match self.value_of(row) {
                Some(bytes) => v.is_some() && v.unwrap()@ == bytes,
                None => v.is_none(),
            },
    {
        match entry(&self.index, row) {
            Some(address) => Some(resolve(&self.data_file, &address)),
            None => None,
        }
    }

    /// The value of `row` for a row of any number: `None` if the row lies
    /// past the counted rows or holds no value.
    pub fn lookup(&self, row: u32) -> (v: Option<&[u8]>)
        requires
            self.wf(),
            self.counted(),
        ensures
            match self.value_of(row) {
                Some(bytes) if row <= index_rows_count(self.index) => v.is_some() && v.unwrap()@
                    == bytes,
                _ => v.is_none(),
            },
    {
        if row > rows_count(&self.index) {
            None
        } else {
            self.value(row)
        }
    }

    /// Writes a value that no row holds yet and returns its address. The
    /// rows keep their values.
    pub fn convert_on_insert_unique(&mut self, input: &[u8]) -> (address: DataAddress)
        ensures
            final(self).index == old(self).index,
            old(self).wf() ==> final(self).wf(),
            old(self).intact() ==> final(self).intact() && Self::same_values(
                *old(self),
                *final(self),
            ),
            file_covers(final(self).data_file, address),
            file_live(final(self).data_file, address),
            file_bytes(final(self).data_file, address) == input@,
    {
        store(&mut self.data_file, input)
    }

    /// Tells whether a search for `content` may have ended at the edge, for a
    /// row within the counted rows.
    pub fn edge_holds(&self, content: &[u8], edge_row: Option<u32>, edge_order: Ordering) -> (ok:
        bool)
        requires
            self.wf(),
            self.counted(),
        ensures
            ok == (self.edge_counted(edge_row) && self.edge_fits(content@, edge_row, edge_order)),
    {
        match edge_row {
            Some(row) => match self.lookup(row) {
                Some(bytes) => same_order(compare(bytes, content), edge_order),
                None => false,
            },
            None => true,
        }
    }

    /// Finds the row for `content` from the edge at which a search for it
    /// ended. If the edge names a row with an equal value, that row is the
    /// answer and nothing is written. Otherwise the bytes are written to the
    /// data file and the next row number is chosen for them; the index itself
    /// is left as it was.
    pub fn row_or_insert(&mut self, content: &[u8], edge_row: Option<u32>, edge_order: Ordering) -> (p:
        Placement)
        requires
            old(self).wf(),
            old(self).edge_fits(content@, edge_row, edge_order),
        ensures
            final(self).wf(),
            Self::placed(*old(self), *final(self), content@, edge_row, edge_order, p),
    {
        match (edge_row, edge_order) {
            (Some(row), Ordering::Equal) => {
                proof {
                    lemma_equal_iff_identical(self.value_of(row).unwrap(), content@);
                }
                Placement::Existing { row }
            },
            _ => {
                let count: u32 = rows_count(&self.index);
                if count == u32::MAX {
                    Placement::Full
                } else {
                    let address = store(&mut self.data_file, content);
                    Placement::Fresh { row: count + 1, address }
                }
            },
        }
    }

    /// As `row_or_insert`, for an edge of any origin: `None`, with nothing
    /// changed, if the edge names a row past the counted rows or if no search
    /// for `content` can have ended at it.
    pub fn row_or_insert_checked(
        &mut self,
        content: &[u8],
        edge_row: Option<u32>,
        edge_order: Ordering,
    ) -> (p: Option<Placement>)
        requires
            old(self).wf(),
            old(self).counted(),
        ensures
            final(self).wf(),
            p.is_some() == (old(self).edge_counted(edge_row) && old(self).edge_fits(
                content@,
                edge_row,
                edge_order,
            )),
            match p {
                Some(placement) => Self::placed(
                    *old(self),
                    *final(self),
                    content@,
                    edge_row,
                    edge_order,
                    placement,
                ),
                None => *final(self) == *old(self),
            },
    {
        if self.edge_holds(content, edge_row, edge_order) {
            Some(self.row_or_insert(content, edge_row, edge_order))
        } else {
            None
        }
    }

    /// Frees the bytes at the address of a row that is about to leave the
    /// index, if the index reported the row as the only holder of its value.
    /// `found` is what the index said of the row: nothing if the row holds no
    /// value, else whether it is the only holder, and its address.
    pub fn free_if_unique(&mut self, found: Option<(bool, DataAddress)>)
        requires
            found matches Some((unique, address)) ==> unique ==> file_covers(
                old(self).data_file,
                address,
            ) && file_live(old(self).data_file, address),
        ensures
            final(self).index == old(self).index,
            old(self).wf() ==> final(self).wf(),
            match found {
                Some((unique, address)) if unique => Self::freed(
                    *old(self),
                    *final(self),
                    address,
                ),
                _ => final(self).data_file == old(self).data_file,
            },
    {
        match found {
            Some((true, address)) => {
                release(&mut self.data_file, address);
            },
            _ => {},
        }
    }

    /// Frees the bytes of `row` before the row leaves the index, if no other
    /// row shares them; rows that hold other bytes keep their values. The row
    /// must have a slot in the index file.
    pub fn on_delete(&mut self, row: u32)
        requires
            old(self).wf(),
            old(self).intact(),
            old(self).has_slot(row),
        ensures
            final(self).index == old(self).index,
            final(self).wf(),
            match old(self).sole_binding(row) {
                Some(address) => Self::freed(*old(self), *final(self), address),
                None => final(self).data_file == old(self).data_file,
            },
    {
        let found = unique_entry(&self.index, row);
        self.free_if_unique(found);
    }
}

/// A value that was written is found again: a row that the index binds to
/// the address at which `content` lies holds `content`, and a search for
/// `content` that ends at the row with equal order is one that
/// `row_or_insert` answers with that row, writing nothing.
pub proof fn lemma_written_value_is_found(
    column: IdxBinary,
    row: u32,
    address: DataAddress,
    content: Seq<u8>,
)
    requires
        column.binding(row) == Some(address),
        file_bytes(column.data_file, address) == content,
    ensures
        column.value_of(row) == Some(content),
        column.holds(row, content),
        column.edge_fits(content, Some(row), Ordering::Equal),
        IdxBinary::edge_hits(Some(row), Ordering::Equal),
{
    lemma_equal_iff_identical(content, content);
}

} // verus!
