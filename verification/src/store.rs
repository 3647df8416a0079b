use vstd::prelude::*;

use core::marker::PhantomData;

use crate::codec::{written, Packed, ReadError};
use crate::name::Name;
use crate::tables::Table;

verus! {

/// A change to the chain's key-value store, for the host to carry out.
#[derive(Debug, Clone)]
pub enum DbOp {
    /// Store `data` under `id` in the table `table` of scope `scope`, billed to `payer`.
    Store { scope: u64, table: Name, payer: Name, id: u64, data: Vec<u8> },
    /// Replace the row at iterator `itr` with `data`; a zero payer keeps the payer.
    Update { itr: i32, payer: Name, data: Vec<u8> },
    /// Remove the row at iterator `itr`.
    Remove { itr: i32 },
}

/// A change to one row, decided by contract logic.
#[derive(Debug, Clone, Copy, PartialEq, Eq, Structural)]
pub enum RowWrite<R> {
    /// Store a new row, billed to `payer`.
    Insert { payer: Name, row: R },
    /// Replace the found row; a zero payer keeps the payer.
    Update { payer: Name, row: R },
    /// Remove the found row.
    Remove,
}

/// The row that stands after a write to a table row that held `before`:
/// an insert or update leaves its row, a removal leaves none, and no write
/// leaves the row as it was.
pub open spec fn row_after<R>(before: Option<R>, w: Option<RowWrite<R>>) -> Option<R> {
    match w {
        None => before,
        Some(RowWrite::Insert { row, .. }) => Some(row),
        Some(RowWrite::Update { row, .. }) => Some(row),
        Some(RowWrite::Remove) => None,
    }
}

/// Who pays for the storage of a modified row.
#[derive(Debug, Clone, Copy, PartialEq, Eq, Structural)]
pub enum Payer {
    /// The account that paid before.
    Same,
    /// Another account.
    New(Name),
}

/// The account billed when a row is modified: zero keeps the payer.
pub fn payer_name(payer: Payer) -> (r: Name)
    ensures
        r == match payer {
            Payer::Same => Name(0),
            Payer::New(n) => n,
        },
{
    match payer {
        Payer::Same => Name(0),
        Payer::New(n) => n,
    }
}

/// The encoding of a row in a fresh buffer of exactly its length.
pub fn encode_row<T: Table>(row: &T::Row) -> (r: Vec<u8>)
    ensures
        r@ == row.packed(),
{
    proof {
        T::lemma_row_size(*row);
    }
    let n = row.num_bytes();
    let mut buf: Vec<u8> = Vec::new();
    let mut i: usize = 0;
    while i < n
        invariant
            i <= n,
            buf@.len() == i,
        decreases n - i,
    {
        buf.push(0u8);
        i = i + 1;
    }
    let mut pos: usize = 0;
    let ghost before = buf@;
    let _ = row.write(buf.as_mut_slice(), &mut pos);
    assert(buf@ =~= written(before, 0, row.packed()));
    assert(buf@ =~= row.packed());
    buf
}

/// Why a row could not be had from a table.
#[derive(Debug, Clone, Copy, PartialEq, Eq, Structural)]
pub enum TableError {
    /// Nothing is stored under the key.
    Missing,
    /// The stored bytes do not hold a row.
    Unreadable,
}

/// The definition of a table: its name.
pub struct MultiIndexDefinition<T: Table> {
    pub table: Name,
    pub _data: PhantomData<T>,
}

impl<T: Table> MultiIndexDefinition<T> {
    /// The table of the given name.
    pub fn new(table: Name) -> (r: Self)
        ensures
            r.table == table,
    {
        MultiIndexDefinition { table, _data: PhantomData }
    }

    /// The table of this name owned by `code`, in scope `scope`.
    pub fn index(&self, code: Name, scope: u64) -> (r: MultiIndex<T>)
        ensures
            r.code == code,
            r.scope == scope,
            r.table == self.table,
    {
        MultiIndex::new(code, scope, self.table)
    }
}

/// A table owned by a contract, in one scope.
pub struct MultiIndex<T: Table> {
    pub code: Name,
    pub scope: u64,
    pub table: Name,
    pub _data: PhantomData<T>,
}

/// A row found in a table, with the host's iterator to it.
pub struct Item<T: Table> {
    pub primary_itr: i32,
    pub inner: T::Row,
}

impl<T: Table> Item<T> {
    /// The row `inner`, found at iterator `primary_itr`.
    pub fn new(primary_itr: i32, inner: T::Row) -> (r: Self)
        ensures
            r.primary_itr == primary_itr,
            r.inner == inner,
    {
        Item { primary_itr, inner }
    }
}

/// The result of a lookup: a row, or the end of the table.
pub struct ConstIterator<T: Table> {
    pub code: Name,
    pub scope: u64,
    pub table: Name,
    pub item: Option<Item<T>>,
}

impl<T: Table> ConstIterator<T> {
    /// A lookup result in the given table.
    pub fn new(idx: &MultiIndex<T>, item: Option<Item<T>>) -> (r: Self)
        ensures
            r.code == idx.code,
            r.scope == idx.scope,
            r.table == idx.table,
            r.item == item,
    {
        ConstIterator { code: idx.code, scope: idx.scope, table: idx.table, item }
    }

    /// Whether this is the end of the table, that is, nothing was found.
    pub fn is_end(&self) -> (r: bool)
        ensures
            r == self.item.is_none(),
    {
        self.item.is_none()
    }

    /// The row found; the lookup must have found one.
    pub fn value(&self) -> (r: T::Row)
        requires
            self.item.is_some(),
        ensures
            r == self.item.unwrap().inner,
    {
        match &self.item {
            Some(it) => it.inner,
            None => vstd::pervasive::unreached(),
        }
    }
}

impl<T: Table> MultiIndex<T> {
    /// The table `table` of contract `code`, in scope `scope`.
    pub fn new(code: Name, scope: u64, table: Name) -> (r: Self)
        ensures
            r.code == code,
            r.scope == scope,
            r.table == table,
    {
        MultiIndex { code, scope, table, _data: PhantomData }
    }

    /// The end of the table: the result of a lookup that found nothing.
    pub fn end(&self) -> (r: ConstIterator<T>)
        ensures
            r.code == self.code,
            r.scope == self.scope,
            r.table == self.table,
            r.item.is_none(),
    {
        ConstIterator::new(self, None)
    }

    /// The result of looking up a key, given what the host answered: the
    /// iterator it returned (negative when nothing is stored under the key) and
    /// the bytes stored there. Fails when the bytes do not start with a row.
    pub fn find(&self, itr: i32, stored: &[u8]) -> (r: Result<ConstIterator<T>, ReadError>)
        ensures
            match r {
                Ok(it) => it.code == self.code && it.scope == self.scope && it.table == self.table
                    && if itr < 0 {
                    it.item.is_none()
                } else {
                    it.item matches Some(item) && item.primary_itr == itr
                        && crate::codec::prefix_at(item.inner.packed(), stored@, 0)
                },
                Err(e) => itr >= 0 && forall|v: T::Row|
                    !crate::codec::prefix_at(#[trigger] v.packed(), stored@, 0),
            },
    {
        if itr < 0 {
            return Ok(self.end());
        }
        let mut pos: usize = 0;
        match <T::Row as Packed>::read(stored, &mut pos) {
            Ok(row) => Ok(ConstIterator::new(self, Some(Item::new(itr, row)))),
            Err(e) => Err(e),
        }
    }

    /// The result of looking up a key that must be present, given what the
    /// host answered; `Missing` when nothing is stored under the key.
    pub fn get(&self, itr: i32, stored: &[u8]) -> (r: Result<ConstIterator<T>, TableError>)
        ensures
            match r {
                Ok(it) => itr >= 0 && (it.item matches Some(item) && item.primary_itr == itr
                    && crate::codec::prefix_at(item.inner.packed(), stored@, 0)),
                Err(TableError::Missing) => itr < 0,
                Err(TableError::Unreadable) => itr >= 0 && forall|v: T::Row|
                    !crate::codec::prefix_at(#[trigger] v.packed(), stored@, 0),
            },
    {
        match self.find(itr, stored) {
            Err(_) => Err(TableError::Unreadable),
            Ok(it) => {
                if it.is_end() {
                    Err(TableError::Missing)
                } else {
                    Ok(it)
                }
            },
        }
    }

    /// The request to store a new row, billed to `payer`, under its primary key.
    pub fn emplace(&self, payer: Name, item: &T::Row) -> (r: DbOp)
        ensures
            r matches DbOp::Store { scope, table, payer: p, id, data } && scope == self.scope
                && table == self.table && p == payer && id == T::spec_primary_key(*item) && data@
                == item.packed(),
    {
        let id = T::primary_key(item);
        let data = encode_row::<T>(item);
        DbOp::Store { scope: self.scope, table: self.table, payer, id, data }
    }

    /// The request to replace the row found by `item` with `row`.
    pub fn modify(&self, item: &ConstIterator<T>, payer: Payer, row: &T::Row) -> (r: DbOp)
        requires
            item.item.is_some(),
        ensures
            r matches DbOp::Update { itr, payer: p, data } && itr == item.item.unwrap().primary_itr
                && p == (match payer {
                Payer::Same => Name(0),
                Payer::New(n) => n,
            }) && data@ == row.packed(),
    {
        let itr = match &item.item {
            Some(it) => it.primary_itr,
            None => 0,
        };
        let data = encode_row::<T>(row);
        DbOp::Update { itr, payer: payer_name(payer), data }
    }

    /// The request to remove the row found by `item`.
    pub fn erase(&self, item: &ConstIterator<T>) -> (r: DbOp)
        requires
            item.item.is_some(),
        ensures
            r matches DbOp::Remove { itr } && itr == item.item.unwrap().primary_itr,
    {
        let itr = match &item.item {
            Some(it) => it.primary_itr,
            None => 0,
        };
        DbOp::Remove { itr }
    }

    /// The request that carries out `w` on this table, where `found` is the
    /// lookup of the row concerned; an update or removal needs a found row.
    pub fn apply(&self, found: &ConstIterator<T>, w: &RowWrite<T::Row>) -> (r: DbOp)
        requires
            !(w is Insert) ==> found.item.is_some(),
        ensures
            match *w {
                RowWrite::Insert { payer, row } => r matches DbOp::Store {
                    scope,
                    table,
                    payer: p,
                    id,
                    data,
                } && scope == self.scope && table == self.table && p == payer && id
                    == T::spec_primary_key(row) && data@ == row.packed(),
                RowWrite::Update { payer, row } => r matches DbOp::Update { itr, payer: p, data }
                    && itr == found.item.unwrap().primary_itr && p == payer && data@
                    == row.packed(),
                RowWrite::Remove => r matches DbOp::Remove { itr } && itr
                    == found.item.unwrap().primary_itr,
            },
    {
        match w {
            RowWrite::Insert { payer, row } => self.emplace(*payer, row),
            RowWrite::Update { payer, row } => {
                let p = if payer.0 == 0 {
                    Payer::Same
                } else {
                    Payer::New(*payer)
                };
                self.modify(found, p, row)
            },
            RowWrite::Remove => self.erase(found),
        }
    }
}

/// A table of rows of `T`, by contract and scope.
pub struct PrimaryTableIndex<T: Table> {
    pub code: Name,
    pub scope: Name,
    pub _data: PhantomData<T>,
}

/// A position in a table, as the host hands it out.
pub struct PrimaryTableCursor<T: Table> {
    pub value: i32,
    pub code: Name,
    pub scope: Name,
    pub _data: PhantomData<T>,
}

/// A walk over a table, from a position to its end.
pub struct PrimaryTableIterator<T: Table> {
    pub value: i32,
    pub code: Name,
    pub scope: Name,
    pub _data: PhantomData<T>,
}

impl<T: Table> PrimaryTableIndex<T> {
    /// The table of contract `code` in scope `scope`.
    pub fn new(code: Name, scope: Name) -> (r: Self)
        ensures
            r.code == code,
            r.scope == scope,
    {
        PrimaryTableIndex { code, scope, _data: PhantomData }
    }

    /// The cursor at the row the host found, or none when its iterator is negative.
    pub fn find(&self, itr: i32) -> (r: Option<PrimaryTableCursor<T>>)
        ensures
            itr >= 0 ==> (r matches Some(c) && c.value == itr && c.code == self.code && c.scope
                == self.scope),
            itr < 0 ==> r.is_none(),
    {
        if itr >= 0 {
            Some(PrimaryTableCursor { value: itr, code: self.code, scope: self.scope, _data: PhantomData })
        } else {
            None
        }
    }

    /// The request to store a new row in the table named `table`, billed to `payer`.
    pub fn emplace(&self, table: Name, payer: Name, item: &T::Row) -> (r: DbOp)
        ensures
            r matches DbOp::Store { scope, table: t, payer: p, id, data } && scope == self.scope.0
                && t == table && p == payer && id == T::spec_primary_key(*item) && data@
                == item.packed(),
    {
        let id = T::primary_key(item);
        let data = encode_row::<T>(item);
        DbOp::Store { scope: self.scope.0, table, payer, id, data }
    }
}

/// A position in a table at which a row can be read, removed or replaced.
pub trait TableCursor<T: Table> {
    /// The host's iterator at this position.
    spec fn spec_position(&self) -> i32;

    /// The row at this position, read from the bytes stored there.
    fn get(&self, stored: &[u8]) -> (r: Result<T::Row, ReadError>)
        ensures
            match r {
                Ok(v) => crate::codec::prefix_at(v.packed(), stored@, 0),
                Err(e) => forall|v: T::Row| !crate::codec::prefix_at(#[trigger] v.packed(), stored@, 0),
            },
    ;

    /// The row at this position, read from the bytes stored there, and the
    /// request to remove it.
    fn erase(&self, stored: &[u8]) -> (r: Result<(T::Row, DbOp), ReadError>)
        ensures
            match r {
                Ok((v, op)) => crate::codec::prefix_at(v.packed(), stored@, 0) && op
                    == DbOp::Remove { itr: self.spec_position() },
                Err(e) => forall|v: T::Row| !crate::codec::prefix_at(#[trigger] v.packed(), stored@, 0),
            },
    ;

    /// The request to replace the row at this position with `item`, and the
    /// length of its encoding.
    fn modify(&self, item: &T::Row, payer: Payer) -> (r: (usize, DbOp))
        ensures
            r.0 == item.packed().len(),
            r.1 matches DbOp::Update { itr, payer: p, data } && itr == self.spec_position() && p == (
            match payer {
                Payer::Same => Name(0),
                Payer::New(n) => n,
            }) && data@ == item.packed(),
    ;
}

impl<T: Table> TableCursor<T> for PrimaryTableCursor<T> {
    open spec fn spec_position(&self) -> i32 {
        self.value
    }

    fn get(&self, stored: &[u8]) -> (r: Result<T::Row, ReadError>) {
        let mut pos: usize = 0;
        <T::Row as Packed>::read(stored, &mut pos)
    }

    fn erase(&self, stored: &[u8]) -> (r: Result<(T::Row, DbOp), ReadError>) {
        match self.get(stored) {
            Ok(v) => Ok((v, DbOp::Remove { itr: self.value })),
            Err(e) => Err(e),
        }
    }

    fn modify(&self, item: &T::Row, payer: Payer) -> (r: (usize, DbOp)) {
        let data = encode_row::<T>(item);
        let n = data.len();
        (n, DbOp::Update { itr: self.value, payer: payer_name(payer), data })
    }
}

impl<T: Table> PrimaryTableCursor<T> {
    /// A walk over the table from this position.
    pub fn into_iter(self) -> (r: PrimaryTableIterator<T>)
        ensures
            r.value == self.value,
            r.code == self.code,
            r.scope == self.scope,
    {
        PrimaryTableIterator { value: self.value, code: self.code, scope: self.scope, _data: PhantomData }
    }
}

impl<T: Table> PrimaryTableIterator<T> {
    /// The cursor at the current position, if the walk has not ended, moving
    /// on to `next_itr`, the host's iterator after it.
    pub fn next(&mut self, next_itr: i32) -> (r: Option<PrimaryTableCursor<T>>)
        ensures
            old(self).value == -1 ==> r.is_none() && *final(self) == *old(self),
            old(self).value != -1 ==> (r matches Some(c) && c.value == old(self).value && c.code
                == old(self).code && c.scope == old(self).scope) && final(self).value == next_itr
                && final(self).code == old(self).code && final(self).scope == old(self).scope,
    {
        if self.value == -1 {
            return None;
        }
        let cursor = PrimaryTableCursor { value: self.value, code: self.code, scope: self.scope, _data: PhantomData };
        self.value = next_itr;
        Some(cursor)
    }
}

/// The definition of a table meant to hold one row: the row is looked up
/// under the table's own name, while a new row is stored under the row's own
/// primary key (`Table::primary_key`), which for most singleton rows is not
/// that name.
pub struct SingletonDefinition<T: Table> {
    pub singleton_name: Name,
    pub _marker: PhantomData<T>,
}

impl<T: Table> SingletonDefinition<T> {
    /// The singleton of the given name.
    pub fn new(singleton_name: Name) -> (r: Self)
        ensures
            r.singleton_name == singleton_name,
    {
        SingletonDefinition { singleton_name, _marker: PhantomData }
    }

    /// The singleton of this name owned by `code`, in scope `scope`.
    pub fn get_instance(&self, code: Name, scope: u64) -> (r: Singleton<T>)
        ensures
            r.pk_value == self.singleton_name.0,
            r.table.code == code,
            r.table.scope == scope,
            r.table.table == self.singleton_name,
    {
        Singleton::new(self, code, scope)
    }
}

/// A table meant to hold one row. Its row is looked up under `pk_value`, the
/// table's own name; `set` and `get_or_create` store a new row under the row's
/// primary key, so a row whose key differs from the name is not found again by
/// a later lookup.
pub struct Singleton<T: Table> {
    pub pk_value: u64,
    pub table: MultiIndex<T>,
}

/// Why a singleton could not be read.
#[derive(Debug, Clone, Copy, PartialEq, Eq, Structural)]
pub enum SingletonError {
    /// No row is stored.
    Missing,
}

impl SingletonError {
    /// The text of the message, as a sequence of characters.
    pub open spec fn spec_message(&self) -> Seq<char> {
        "singleton does not exist"@
    }

    /// The message with which the read aborts.
    pub fn message(&self) -> (r: &'static str)
        ensures
            r@ == self.spec_message(),
    {
        "singleton does not exist"
    }
}

impl<T: Table> Singleton<T> {
    /// The singleton defined by `def`, owned by `code`, in scope `scope`.
    pub fn new(def: &SingletonDefinition<T>, code: Name, scope: u64) -> (r: Self)
        ensures
            r.pk_value == def.singleton_name.0,
            r.table.code == code,
            r.table.scope == scope,
            r.table.table == def.singleton_name,
    {
        Singleton {
            pk_value: def.singleton_name.raw(),
            table: MultiIndexDefinition::new(def.singleton_name).index(code, scope),
        }
    }

    /// Whether the lookup of the singleton's key found its row.
    pub fn row_exists(&self, found: &ConstIterator<T>) -> (r: bool)
        ensures
            r == found.item.is_some(),
    {
        !found.is_end()
    }

    /// The stored row, given the lookup of the singleton's key.
    pub fn get(&self, found: &ConstIterator<T>) -> (r: Result<T::Row, SingletonError>)
        ensures
            match found.item {
                Some(it) => r == Ok::<T::Row, SingletonError>(it.inner),
                None => r == Err::<T::Row, SingletonError>(SingletonError::Missing),
            },
    {
        match &found.item {
            Some(it) => Ok(it.inner),
            None => Err(SingletonError::Missing),
        }
    }

    /// The stored row, or `def` when there is none.
    pub fn get_or_default(&self, found: &ConstIterator<T>, def: T::Row) -> (r: T::Row)
        ensures
            r == match found.item {
                Some(it) => it.inner,
                None => def,
            },
    {
        match &found.item {
            Some(it) => it.inner,
            None => def,
        }
    }

    /// The stored row; when there is none, `def`, with the request to store it
    /// billed to `bill_to_account`.
    pub fn get_or_create(&self, found: &ConstIterator<T>, bill_to_account: Name, def: T::Row) -> (r: (
        T::Row,
        Option<DbOp>,
    ))
        ensures
            match found.item {
                Some(it) => r.0 == it.inner && r.1.is_none(),
                None => r.0 == def && (r.1 matches Some(DbOp::Store { scope, table, payer, id, data })
                    && scope == self.table.scope && table == self.table.table && payer
                    == bill_to_account && id == T::spec_primary_key(def) && data@ == def.packed()),
            },
    {
        match &found.item {
            Some(it) => (it.inner, None),
            None => (def, Some(self.table.emplace(bill_to_account, &def))),
        }
    }

    /// The request that makes `value` the stored row: a replacement billed to
    /// `bill_to_account` when a row is stored, else a new row billed to it.
    pub fn set(&self, found: &ConstIterator<T>, value: T::Row, bill_to_account: Name) -> (r: DbOp)
        ensures
            match found.item {
                Some(it) => r matches DbOp::Update { itr, payer, data } && itr == it.primary_itr
                    && payer == bill_to_account && data@ == value.packed(),
                None => r matches DbOp::Store { scope, table, payer, id, data } && scope
                    == self.table.scope && table == self.table.table && payer == bill_to_account
                    && id == T::spec_primary_key(value) && data@ == value.packed(),
            },
    {
        if !found.is_end() {
            self.table.modify(found, Payer::New(bill_to_account), &value)
        } else {
            self.table.emplace(bill_to_account, &value)
        }
    }

    /// The request that removes the stored row, if there is one.
    pub fn remove(&self, found: &ConstIterator<T>) -> (r: Option<DbOp>)
        ensures
            match found.item {
                Some(it) => r matches Some(DbOp::Remove { itr }) && itr == it.primary_itr,
                None => r.is_none(),
            },
    {
        if !found.is_end() {
            Some(self.table.erase(found))
        } else {
            None
        }
    }
}


/// One table as the host keeps it: for each primary key, the iterator the
/// host hands out for its row and the row's bytes. After the host carries out
/// `op`, a new row getting the iterator `new_itr`: a store puts its bytes
/// under its key, an update replaces the bytes at its iterator, and a removal
/// takes away the row at its iterator.
pub open spec fn host_apply(t: Map<u64, (i32, Seq<u8>)>, op: DbOp, new_itr: i32) -> Map<
    u64,
    (i32, Seq<u8>),
> {
    match op {
        DbOp::Store { id, data, .. } => t.insert(id, (new_itr, data@)),
        DbOp::Update { itr, data, .. } => Map::new(
            |k: u64| t.contains_key(k),
            |k: u64|
                if t[k].0 == itr {
                    (itr, data@)
                } else {
                    t[k]
                },
        ),
        DbOp::Remove { itr } => Map::new(|k: u64| t.contains_key(k) && t[k].0 != itr, |k: u64| t[k]),
    }
}

/// A row stored by `emplace` is found again: once the host has carried out
/// the store request (`op`, as `emplace` gives it for `row`) on a table with
/// no row under the row's primary key, the bytes under that key are the
/// row's encoding, so a lookup of the key decodes to the same row (any row
/// whose encoding starts there is the same value), and no other key's row
/// changes.
pub proof fn lemma_find_after_emplace<T: Table>(
    row: T::Row,
    op: DbOp,
    t: Map<u64, (i32, Seq<u8>)>,
    new_itr: i32,
)
    requires
        op matches DbOp::Store { id, data, .. } && id == T::spec_primary_key(row) && data@
            == row.packed(),
        !t.contains_key(T::spec_primary_key(row)),
    ensures
        host_apply(t, op, new_itr).contains_key(T::spec_primary_key(row)),
        host_apply(t, op, new_itr)[T::spec_primary_key(row)].0 == new_itr,
        crate::codec::prefix_at(row.packed(), host_apply(t, op, new_itr)[T::spec_primary_key(row)].1, 0),
        forall|w: T::Row|
            crate::codec::prefix_at(
                #[trigger] w.packed(),
                host_apply(t, op, new_itr)[T::spec_primary_key(row)].1,
                0,
            ) ==> w.same_value(&row),
        forall|k: u64|
            k != T::spec_primary_key(row) ==> (#[trigger] host_apply(t, op, new_itr).contains_key(k)
                == t.contains_key(k) && (t.contains_key(k) ==> host_apply(t, op, new_itr)[k] == t[k])),
{
    let a = host_apply(t, op, new_itr);
    let k = T::spec_primary_key(row);
    let bytes = a[k].1;
    assert(bytes == row.packed());
    assert(bytes.subrange(0, bytes.len() as int) =~= bytes);
    assert forall|w: T::Row| crate::codec::prefix_at(#[trigger] w.packed(), bytes, 0) implies w.same_value(&row) by {
        <T::Row as Packed>::lemma_unique(w, row, bytes, 0);
        <T::Row as Packed>::lemma_injective(w, row);
    }
}

/// A row removed by `erase` is gone: once the host has carried out the
/// removal request (`op`, as `erase` gives it for the row found under `k`) on
/// a table whose rows have distinct iterators, a lookup of `k` finds nothing,
/// and every other key's row is unchanged.
pub proof fn lemma_find_after_erase(t: Map<u64, (i32, Seq<u8>)>, k: u64, op: DbOp, new_itr: i32)
    requires
        t.contains_key(k),
        op matches DbOp::Remove { itr } && itr == t[k].0,
        forall|k1: u64, k2: u64|
            t.contains_key(k1) && t.contains_key(k2) && k1 != k2 ==> #[trigger] t[k1].0 != #[trigger] t[k2].0,
    ensures
        !host_apply(t, op, new_itr).contains_key(k),
        forall|k2: u64|
            k2 != k ==> (#[trigger] host_apply(t, op, new_itr).contains_key(k2) == t.contains_key(k2)
                && (t.contains_key(k2) ==> host_apply(t, op, new_itr)[k2] == t[k2])),
{
}

} // verus!
