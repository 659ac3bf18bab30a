use crate::error::Error;
use vstd::prelude::*;

verus! {

/// A copy of a byte vector.
pub fn copy_bytes(v: &Vec<u8>) -> (r: Vec<u8>)
    ensures
        r@ == v@,
{
    vstd::slice::slice_to_vec(v.as_slice())
}

/// Whether two byte sequences are equal.
pub fn bytes_equal(a: &[u8], b: &[u8]) -> (r: bool)
    ensures
        r == (a@ == b@),
{
    if a.len() != b.len() {
        return false;
    }
    let mut i: usize = 0;
    while i < a.len()
        invariant
            a@.len() == b@.len(),
            i <= a@.len(),
            forall|j: int| 0 <= j < i ==> a@[j] == b@[j],
        decreases a@.len() - i,
    {
        if a[i] != b[i] {
            return false;
        }
        i = i + 1;
    }
    assert(a@ =~= b@);
    true
}

/// Replaces the row that `same` matches with `row`, or appends `row`.
pub open spec fn upserted<R>(rows: Seq<R>, row: R, same: spec_fn(R, R) -> bool) -> Seq<R> {
    if exists|i: int| 0 <= i < rows.len() && same(rows[i], row) {
        rows.update(choose|i: int| 0 <= i < rows.len() && same(rows[i], row), row)
    } else {
        rows.push(row)
    }
}

/// The upserted rows hold the new row.
pub proof fn lemma_upserted_contains<R>(rows: Seq<R>, row: R, same: spec_fn(R, R) -> bool)
    ensures
        upserted(rows, row, same).contains(row),
{
    let out = upserted(rows, row, same);
    if exists|i: int| 0 <= i < rows.len() && same(rows[i], row) {
        let j = choose|i: int| 0 <= i < rows.len() && same(rows[i], row);
        assert(out[j] == row);
    } else {
        assert(out[rows.len() as int] == row);
    }
}

/// No two rows have the same key.
pub open spec fn unique_by<R>(rows: Seq<R>, same: spec_fn(R, R) -> bool) -> bool {
    forall|i: int, j: int| 0 <= i < rows.len() && 0 <= j < rows.len() && i != j ==> !same(rows[i], rows[j])
}

/// Some row has the key of `row`.
pub open spec fn has_key<R>(rows: Seq<R>, row: R, same: spec_fn(R, R) -> bool) -> bool {
    exists|i: int| 0 <= i < rows.len() && same(rows[i], row)
}

/// With unique keys, the row that `choose` finds for a key is the one at `j`.
proof fn lemma_choose_unique<R>(rows: Seq<R>, row: R, same: spec_fn(R, R) -> bool, j: int)
    requires
        unique_by(rows, same),
        0 <= j < rows.len(),
        same(rows[j], row),
        forall|a: R, b: R, c: R| #![trigger same(a, c), same(b, c)] same(a, c) && same(b, c) ==> same(a, b),
    ensures
        (choose|i: int| 0 <= i < rows.len() && same(rows[i], row)) == j,
{
    let i = choose|i: int| 0 <= i < rows.len() && same(rows[i], row);
    assert(same(rows[i], rows[j]));
}

/// `same` is an equivalence.
pub open spec fn equivalence<R>(same: spec_fn(R, R) -> bool) -> bool {
    &&& forall|a: R| #[trigger] same(a, a)
    &&& forall|a: R, b: R| #[trigger] same(a, b) ==> same(b, a)
    &&& forall|a: R, b: R, c: R| #![trigger same(a, b), same(b, c)] same(a, b) && same(b, c) ==> same(a, c)
}

/// Upserting by `key` keeps `key` unique, and keeps `other` unique when the
/// only row that shares `other` with the new row is the one it replaces.
proof fn lemma_upserted_unique<R>(
    rows: Seq<R>,
    row: R,
    key: spec_fn(R, R) -> bool,
    other: spec_fn(R, R) -> bool,
)
    requires
        equivalence(key),
        equivalence(other),
        unique_by(rows, key),
        unique_by(rows, other),
        forall|i: int| 0 <= i < rows.len() && #[trigger] other(rows[i], row) ==> key(rows[i], row),
    ensures
        unique_by(upserted(rows, row, key), key),
        unique_by(upserted(rows, row, key), other),
{
    let out = upserted(rows, row, key);
    if has_key(rows, row, key) {
        let j = choose|i: int| 0 <= i < rows.len() && key(rows[i], row);
        assert forall|a: int, b: int|
            0 <= a < out.len() && 0 <= b < out.len() && a != b implies !key(out[a], out[b]) && !other(
                out[a],
                out[b],
            ) by {
            if a == j {
                assert(!key(rows[b], rows[j]));
                if key(out[a], out[b]) {
                    assert(key(rows[b], row));
                }
                if other(out[a], out[b]) {
                    assert(other(rows[b], row));
                    assert(key(rows[b], row));
                }
            } else if b == j {
                assert(!key(rows[a], rows[j]));
                if key(out[a], out[b]) {
                    assert(key(rows[a], row));
                }
                if other(out[a], out[b]) {
                    assert(key(rows[a], row));
                }
            }
        }
    } else {
        assert forall|a: int, b: int|
            0 <= a < out.len() && 0 <= b < out.len() && a != b implies !key(out[a], out[b]) && !other(
                out[a],
                out[b],
            ) by {
            if a == rows.len() {
                if key(out[a], out[b]) {
                    assert(key(rows[b], row));
                }
                if other(out[a], out[b]) {
                    assert(other(rows[b], row));
                }
            } else if b == rows.len() {
                if key(out[a], out[b]) {
                    assert(key(rows[a], row));
                }
                if other(out[a], out[b]) {
                    assert(other(rows[a], row));
                }
            }
        }
    }
}

/// A stored user: name, salt and the sealed validation marker.
pub struct UserRow {
    pub username: String,
    pub salt: Vec<u8>,
    pub validation_data: Vec<u8>,
    pub validation_nonce: Vec<u8>,
}

pub struct UserRowView {
    pub username: Seq<char>,
    pub salt: Seq<u8>,
    pub validation_data: Seq<u8>,
    pub validation_nonce: Seq<u8>,
}

impl View for UserRow {
    type V = UserRowView;

    open spec fn view(&self) -> UserRowView {
        UserRowView {
            username: self.username@,
            salt: self.salt@,
            validation_data: self.validation_data@,
            validation_nonce: self.validation_nonce@,
        }
    }
}

/// A stored lot: identifier and name.
pub struct LotRow {
    pub id: String,
    pub name: String,
}

pub struct LotRowView {
    pub id: Seq<char>,
    pub name: Seq<char>,
}

impl View for LotRow {
    type V = LotRowView;

    open spec fn view(&self) -> LotRowView {
        LotRowView { id: self.id@, name: self.name@ }
    }
}

/// A lot key sealed under a user's key.
pub struct WrappedKeyRow {
    pub username: String,
    pub lot_id: String,
    pub data: Vec<u8>,
    pub nonce: Vec<u8>,
}

pub struct WrappedKeyRowView {
    pub username: Seq<char>,
    pub lot_id: Seq<char>,
    pub data: Seq<u8>,
    pub nonce: Seq<u8>,
}

impl View for WrappedKeyRow {
    type V = WrappedKeyRowView;

    open spec fn view(&self) -> WrappedKeyRowView {
        WrappedKeyRowView {
            username: self.username@,
            lot_id: self.lot_id@,
            data: self.data@,
            nonce: self.nonce@,
        }
    }
}

/// A record's sealed payload.
pub struct RecordRow {
    pub lot_id: String,
    pub id: String,
    pub data: Vec<u8>,
    pub nonce: Vec<u8>,
}

pub struct RecordRowView {
    pub lot_id: Seq<char>,
    pub id: Seq<char>,
    pub data: Seq<u8>,
    pub nonce: Seq<u8>,
}

impl View for RecordRow {
    type V = RecordRowView;

    open spec fn view(&self) -> RecordRowView {
        RecordRowView { lot_id: self.lot_id@, id: self.id@, data: self.data@, nonce: self.nonce@ }
    }
}

pub open spec fn same_user() -> spec_fn(UserRowView, UserRowView) -> bool {
    |a: UserRowView, b: UserRowView| a.username == b.username
}

pub open spec fn same_lot() -> spec_fn(LotRowView, LotRowView) -> bool {
    |a: LotRowView, b: LotRowView| a.id == b.id
}

pub open spec fn same_lot_name() -> spec_fn(LotRowView, LotRowView) -> bool {
    |a: LotRowView, b: LotRowView| a.name == b.name
}

pub open spec fn same_wrapping() -> spec_fn(WrappedKeyRowView, WrappedKeyRowView) -> bool {
    |a: WrappedKeyRowView, b: WrappedKeyRowView| a.username == b.username && a.lot_id == b.lot_id
}

pub open spec fn same_record() -> spec_fn(RecordRowView, RecordRowView) -> bool {
    |a: RecordRowView, b: RecordRowView| a.id == b.id
}

/// The tables of the store, as sequences of row values.
pub struct StoreView {
    pub users: Seq<UserRowView>,
    pub lots: Seq<LotRowView>,
    pub wrapped_keys: Seq<WrappedKeyRowView>,
    pub records: Seq<RecordRowView>,
}

impl StoreView {
    /// Every uniqueness rule of the store holds.
    pub open spec fn wf(self) -> bool {
        &&& unique_by(self.users, same_user())
        &&& unique_by(self.lots, same_lot())
        &&& unique_by(self.lots, same_lot_name())
        &&& unique_by(self.wrapped_keys, same_wrapping())
        &&& unique_by(self.records, same_record())
    }
}

/// An in-memory relational store with keyed upsert and select operations.
///
/// Usernames, lot identifiers, lot names, (user, lot) wrapping pairs and
/// record identifiers are each unique. Every byte column is opaque to it.
pub struct Store {
    users: Vec<UserRow>,
    lots: Vec<LotRow>,
    wrapped_keys: Vec<WrappedKeyRow>,
    records: Vec<RecordRow>,
}

impl View for Store {
    type V = StoreView;

    closed spec fn view(&self) -> StoreView {
        StoreView {
            users: self.users@.map_values(|r: UserRow| r@),
            lots: self.lots@.map_values(|r: LotRow| r@),
            wrapped_keys: self.wrapped_keys@.map_values(|r: WrappedKeyRow| r@),
            records: self.records@.map_values(|r: RecordRow| r@),
        }
    }
}

impl Store {
    /// An empty store.
    pub fn new() -> (r: Self)
        ensures
            r@.users.len() == 0,
            r@.lots.len() == 0,
            r@.wrapped_keys.len() == 0,
            r@.records.len() == 0,
            r@.wf(),
    {
        Store { users: Vec::new(), lots: Vec::new(), wrapped_keys: Vec::new(), records: Vec::new() }
    }

    /// Every user row, in table order.
    pub fn user_rows(&self) -> (r: &[UserRow])
        ensures
            r@.map_values(|x: UserRow| x@) == self@.users,
    {
        self.users.as_slice()
    }

    /// Every lot row, in table order.
    pub fn lot_rows(&self) -> (r: &[LotRow])
        ensures
            r@.map_values(|x: LotRow| x@) == self@.lots,
    {
        self.lots.as_slice()
    }

    /// Every wrapping row, in table order.
    pub fn wrapped_key_rows(&self) -> (r: &[WrappedKeyRow])
        ensures
            r@.map_values(|x: WrappedKeyRow| x@) == self@.wrapped_keys,
    {
        self.wrapped_keys.as_slice()
    }

    /// Every record row, in table order.
    pub fn record_rows(&self) -> (r: &[RecordRow])
        ensures
            r@.map_values(|x: RecordRow| x@) == self@.records,
    {
        self.records.as_slice()
    }

    /// The user row with this username.
    pub fn select_user(&self, username: &str) -> (r: Option<&UserRow>)
        ensures
            match r {
                Some(row) => self@.users.contains(row@) && row.username@ == username@,
                None => forall|i: int| 0 <= i < self@.users.len() ==> self@.users[i].username != username@,
            },
    {
        let key = username.to_owned();
        let mut i: usize = 0;
        while i < self.users.len()
            invariant
                i <= self.users@.len(),
                key@ == username@,
                forall|j: int| 0 <= j < i ==> self@.users[j].username != username@,
            decreases self.users@.len() - i,
        {
            if self.users[i].username == key {
                assert(self@.users[i as int] == self.users@[i as int]@);
                return Some(&self.users[i]);
            }
            i = i + 1;
        }
        None
    }

    /// Adds a user; a taken username is refused.
    pub fn insert_user(&mut self, row: UserRow) -> (r: Result<(), Error>)
        requires
            old(self)@.wf(),
        ensures
            final(self)@.wf(),
            has_key(old(self)@.users, row@, same_user()) ==> r == Err::<(), Error>(Error::AlreadyExists)
                && final(self)@ == old(self)@,
            !has_key(old(self)@.users, row@, same_user()) ==> r is Ok && final(self)@ == (StoreView {
                users: old(self)@.users.push(row@),
                ..old(self)@
            }),
    {
        match self.select_user(row.username.as_str()) {
            Some(_) => {
                Err(Error::AlreadyExists)
            },
            None => {
                let ghost v = row@;
                self.users.push(row);
                assert(self.users@.map_values(|r: UserRow| r@) =~= old(self)@.users.push(v));
                Ok(())
            },
        }
    }

    /// Adds or updates a lot by identifier. A name that another lot holds
    /// is refused.
    pub fn upsert_lot(&mut self, row: LotRow) -> (r: Result<(), Error>)
        requires
            old(self)@.wf(),
        ensures
            final(self)@.wf(),
            name_taken(old(self)@.lots, row@) ==> r == Err::<(), Error>(Error::AlreadyExists)
                && final(self)@ == old(self)@,
            !name_taken(old(self)@.lots, row@) ==> r is Ok && final(self)@ == (StoreView {
                lots: upserted(old(self)@.lots, row@, same_lot()),
                ..old(self)@
            }),
    {
        let ghost rows = old(self)@.lots;
        let mut found: Option<usize> = None;
        let mut i: usize = 0;
        while i < self.lots.len()
            invariant
                rows == self@.lots,
                self@ == old(self)@,
                old(self)@.wf(),
                i <= rows.len(),
                forall|k: int| 0 <= k < i ==> !(rows[k].name == row@.name && rows[k].id != row@.id),
                match found {
                    Some(j) => j < i && rows[j as int].id == row@.id,
                    None => forall|k: int| 0 <= k < i ==> rows[k].id != row@.id,
                },
            decreases rows.len() - i,
        {
            let same_id = self.lots[i].id == row.id;
            let same_name = self.lots[i].name == row.name;
            assert(rows[i as int] == self.lots@[i as int]@);
            if same_name && !same_id {
                assert(name_taken(rows, row@));
                return Err(Error::AlreadyExists);
            }
            if same_id {
                found = Some(i);
            }
            i = i + 1;
        }
        let ghost v = row@;
        proof {
            lemma_upserted_unique(rows, v, same_lot(), same_lot_name());
        }
        match found {
            Some(j) => {
                proof {
                    lemma_choose_unique(rows, v, same_lot(), j as int);
                }
                self.lots.set(j, row);
            },
            None => {
                self.lots.push(row);
            },
        }
        assert(self.lots@.map_values(|r: LotRow| r@) =~= upserted(rows, v, same_lot()));
        Ok(())
    }

    /// The lot row with this name.
    pub fn select_lot_by_name(&self, name: &str) -> (r: Option<&LotRow>)
        ensures
            match r {
                Some(row) => self@.lots.contains(row@) && row.name@ == name@,
                None => forall|i: int| 0 <= i < self@.lots.len() ==> self@.lots[i].name != name@,
            },
    {
        let key = name.to_owned();
        let mut i: usize = 0;
        while i < self.lots.len()
            invariant
                i <= self.lots@.len(),
                key@ == name@,
                forall|j: int| 0 <= j < i ==> self@.lots[j].name != name@,
            decreases self.lots@.len() - i,
        {
            if self.lots[i].name == key {
                assert(self@.lots[i as int] == self.lots@[i as int]@);
                return Some(&self.lots[i]);
            }
            i = i + 1;
        }
        None
    }

    /// The lot row with this identifier.
    pub fn select_lot_by_id(&self, id: &str) -> (r: Option<&LotRow>)
        ensures
            match r {
                Some(row) => self@.lots.contains(row@) && row.id@ == id@,
                None => forall|i: int| 0 <= i < self@.lots.len() ==> self@.lots[i].id != id@,
            },
    {
        let key = id.to_owned();
        let mut i: usize = 0;
        while i < self.lots.len()
            invariant
                i <= self.lots@.len(),
                key@ == id@,
                forall|j: int| 0 <= j < i ==> self@.lots[j].id != id@,
            decreases self.lots@.len() - i,
        {
            if self.lots[i].id == key {
                assert(self@.lots[i as int] == self.lots@[i as int]@);
                return Some(&self.lots[i]);
            }
            i = i + 1;
        }
        None
    }

    /// Adds or replaces the wrapped key of a (user, lot) pair.
    pub fn upsert_wrapped_key(&mut self, row: WrappedKeyRow)
        requires
            old(self)@.wf(),
        ensures
            final(self)@.wf(),
            final(self)@ == (StoreView {
                wrapped_keys: upserted(old(self)@.wrapped_keys, row@, same_wrapping()),
                ..old(self)@
            }),
    {
        let ghost rows = old(self)@.wrapped_keys;
        let mut found: Option<usize> = None;
        let mut i: usize = 0;
        while i < self.wrapped_keys.len()
            invariant
                rows == self@.wrapped_keys,
                self@ == old(self)@,
                i <= rows.len(),
                match found {
                    Some(j) => j < i && same_wrapping()(rows[j as int], row@),
                    None => forall|k: int| 0 <= k < i ==> !same_wrapping()(rows[k], row@),
                },
            decreases rows.len() - i,
        {
            if self.wrapped_keys[i].username == row.username && self.wrapped_keys[i].lot_id
                == row.lot_id {
                found = Some(i);
            }
            i = i + 1;
        }
        let ghost v = row@;
        proof {
            lemma_upserted_unique(rows, v, same_wrapping(), same_wrapping());
        }
        match found {
            Some(j) => {
                proof {
                    lemma_choose_unique(rows, v, same_wrapping(), j as int);
                }
                self.wrapped_keys.set(j, row);
            },
            None => {
                self.wrapped_keys.push(row);
            },
        }
        assert(self.wrapped_keys@.map_values(|r: WrappedKeyRow| r@) =~= upserted(
            rows,
            v,
            same_wrapping(),
        ));
    }

    /// The wrapped key that this user holds for this lot.
    pub fn select_wrapped_key(&self, username: &str, lot_id: &str) -> (r: Option<&WrappedKeyRow>)
        ensures
            match r {
                Some(row) => self@.wrapped_keys.contains(row@) && row.username@ == username@
                    && row.lot_id@ == lot_id@,
                None => forall|i: int|
                    0 <= i < self@.wrapped_keys.len() ==> !(self@.wrapped_keys[i].username
                        == username@ && self@.wrapped_keys[i].lot_id == lot_id@),
            },
    {
        let user = username.to_owned();
        let lot = lot_id.to_owned();
        let mut i: usize = 0;
        while i < self.wrapped_keys.len()
            invariant
                i <= self.wrapped_keys@.len(),
                user@ == username@,
                lot@ == lot_id@,
                forall|j: int|
                    0 <= j < i ==> !(self@.wrapped_keys[j].username == username@
                        && self@.wrapped_keys[j].lot_id == lot_id@),
            decreases self.wrapped_keys@.len() - i,
        {
            if self.wrapped_keys[i].username == user && self.wrapped_keys[i].lot_id == lot {
                assert(self@.wrapped_keys[i as int] == self.wrapped_keys@[i as int]@);
                return Some(&self.wrapped_keys[i]);
            }
            i = i + 1;
        }
        None
    }

    /// Every wrapped key that this user holds, in table order.
    pub fn select_all_wrapped_keys(&self, username: &str) -> (r: Vec<&WrappedKeyRow>)
        ensures
            r@.map_values(|x: &WrappedKeyRow| x@) == wrapped_of(self@.wrapped_keys, username@),
    {
        let key = username.to_owned();
        let mut out: Vec<&WrappedKeyRow> = Vec::new();
        let mut i: usize = 0;
        while i < self.wrapped_keys.len()
            invariant
                i <= self.wrapped_keys@.len(),
                key@ == username@,
                out@.map_values(|x: &WrappedKeyRow| x@) == wrapped_of(
                    self@.wrapped_keys.take(i as int),
                    username@,
                ),
            decreases self.wrapped_keys@.len() - i,
        {
            assert(self@.wrapped_keys.take(i + 1).drop_last() =~= self@.wrapped_keys.take(i as int));
            if self.wrapped_keys[i].username == key {
                out.push(&self.wrapped_keys[i]);
            }
            i = i + 1;
            assert(out@.map_values(|x: &WrappedKeyRow| x@) =~= wrapped_of(
                self@.wrapped_keys.take(i as int),
                username@,
            ));
        }
        assert(self@.wrapped_keys.take(i as int) =~= self@.wrapped_keys);
        out
    }

    /// Adds or replaces a record row by identifier.
    pub fn upsert_record(&mut self, row: RecordRow)
        requires
            old(self)@.wf(),
        ensures
            final(self)@.wf(),
            final(self)@ == (StoreView {
                records: upserted(old(self)@.records, row@, same_record()),
                ..old(self)@
            }),
    {
        let ghost rows = old(self)@.records;
        let mut found: Option<usize> = None;
        let mut i: usize = 0;
        while i < self.records.len()
            invariant
                rows == self@.records,
                self@ == old(self)@,
                i <= rows.len(),
                match found {
                    Some(j) => j < i && rows[j as int].id == row@.id,
                    None => forall|k: int| 0 <= k < i ==> rows[k].id != row@.id,
                },
            decreases rows.len() - i,
        {
            if self.records[i].id == row.id {
                found = Some(i);
            }
            i = i + 1;
        }
        let ghost v = row@;
        proof {
            lemma_upserted_unique(rows, v, same_record(), same_record());
        }
        match found {
            Some(j) => {
                proof {
                    lemma_choose_unique(rows, v, same_record(), j as int);
                }
                self.records.set(j, row);
            },
            None => {
                self.records.push(row);
            },
        }
        assert(self.records@.map_values(|r: RecordRow| r@) =~= upserted(rows, v, same_record()));
    }

    /// The record rows of a lot, in the order they were first stored.
    pub fn select_records_by_lot(&self, lot_id: &str) -> (r: Vec<&RecordRow>)
        ensures
            r@.map_values(|x: &RecordRow| x@) == records_of(self@.records, lot_id@),
    {
        let key = lot_id.to_owned();
        let mut out: Vec<&RecordRow> = Vec::new();
        let mut i: usize = 0;
        while i < self.records.len()
            invariant
                i <= self.records@.len(),
                key@ == lot_id@,
                out@.map_values(|x: &RecordRow| x@) == records_of(self@.records.take(i as int), lot_id@),
            decreases self.records@.len() - i,
        {
            assert(self@.records.take(i + 1).drop_last() =~= self@.records.take(i as int));
            if self.records[i].lot_id == key {
                out.push(&self.records[i]);
            }
            i = i + 1;
            assert(out@.map_values(|x: &RecordRow| x@) =~= records_of(
                self@.records.take(i as int),
                lot_id@,
            ));
        }
        assert(self@.records.take(i as int) =~= self@.records);
        out
    }
}

/// The wrapping rows of a user, in table order.
pub open spec fn wrapped_of(rows: Seq<WrappedKeyRowView>, username: Seq<char>) -> Seq<WrappedKeyRowView>
    decreases rows.len(),
{
    if rows.len() == 0 {
        Seq::empty()
    } else if rows.last().username == username {
        wrapped_of(rows.drop_last(), username).push(rows.last())
    } else {
        wrapped_of(rows.drop_last(), username)
    }
}

/// Every row that `records_of` keeps is a row of the table.
pub proof fn lemma_records_of_within(rows: Seq<RecordRowView>, lot_id: Seq<char>, k: int)
    requires
        0 <= k < records_of(rows, lot_id).len(),
    ensures
        rows.contains(records_of(rows, lot_id)[k]),
        records_of(rows, lot_id)[k].lot_id == lot_id,
    decreases rows.len(),
{
    let prev = rows.drop_last();
    if rows.last().lot_id == lot_id && k == records_of(prev, lot_id).len() {
        assert(rows[rows.len() - 1] == rows.last());
    } else {
        lemma_records_of_within(prev, lot_id, k);
        let i = choose|i: int| 0 <= i < prev.len() && prev[i] == records_of(prev, lot_id)[k];
        assert(rows[i] == prev[i]);
    }
}

/// A row of the table that belongs to the lot is among the lot's rows.
pub proof fn lemma_records_of_has(rows: Seq<RecordRowView>, lot_id: Seq<char>, row: RecordRowView)
    requires
        rows.contains(row),
        row.lot_id == lot_id,
    ensures
        records_of(rows, lot_id).contains(row),
    decreases rows.len(),
{
    let prev = rows.drop_last();
    let i = choose|i: int| 0 <= i < rows.len() && rows[i] == row;
    let sub = records_of(prev, lot_id);
    if i == rows.len() - 1 {
        assert(records_of(rows, lot_id) == sub.push(row));
        assert(records_of(rows, lot_id)[sub.len() as int] == row);
    } else {
        assert(prev[i] == row);
        lemma_records_of_has(prev, lot_id, row);
        let j = choose|j: int| 0 <= j < sub.len() && sub[j] == row;
        if rows.last().lot_id == lot_id {
            assert(records_of(rows, lot_id)[j] == row);
        } else {
            assert(records_of(rows, lot_id)[j] == row);
        }
    }
}

/// Upserting rows one after the other keeps record identifiers unique.
pub proof fn lemma_upsert_all_unique(rows: Seq<RecordRowView>, new_rows: Seq<RecordRowView>)
    requires
        unique_by(rows, same_record()),
    ensures
        unique_by(upsert_all(rows, new_rows), same_record()),
    decreases new_rows.len(),
{
    if new_rows.len() > 0 {
        lemma_upsert_all_unique(rows, new_rows.drop_last());
        lemma_upserted_unique(upsert_all(rows, new_rows.drop_last()), new_rows.last(), same_record(), same_record());
    }
}

/// A row after a series of upserts is one of the upserted rows, or an old
/// row whose identifier none of them has.
pub proof fn lemma_upsert_all_member(rows: Seq<RecordRowView>, new_rows: Seq<RecordRowView>, row: RecordRowView)
    requires
        unique_by(rows, same_record()),
        upsert_all(rows, new_rows).contains(row),
    ensures
        new_rows.contains(row) || (rows.contains(row) && forall|i: int|
            0 <= i < new_rows.len() ==> new_rows[i].id != row.id),
    decreases new_rows.len(),
{
    if new_rows.len() > 0 {
        let prev = new_rows.drop_last();
        let last = new_rows.last();
        let base = upsert_all(rows, prev);
        let out = upserted(base, last, same_record());
        lemma_upsert_all_unique(rows, prev);
        let m = choose|m: int| 0 <= m < out.len() && out[m] == row;
        if row == last {
            assert(new_rows[new_rows.len() - 1] == row);
        } else {
            if exists|i: int| 0 <= i < base.len() && same_record()(base[i], last) {
                let c = choose|i: int| 0 <= i < base.len() && same_record()(base[i], last);
                assert(m != c);
                assert(base[m] == row);
                assert(!same_record()(base[m], base[c]));
            } else {
                assert(m < base.len());
                assert(base[m] == row);
                assert(!same_record()(base[m], last));
            }
            assert(base.contains(row));
            lemma_upsert_all_member(rows, prev, row);
            if prev.contains(row) {
                let q = choose|q: int| 0 <= q < prev.len() && prev[q] == row;
                assert(new_rows[q] == row);
            } else {
                assert forall|i: int| 0 <= i < new_rows.len() implies new_rows[i].id != row.id by {
                    if i < prev.len() {
                        assert(new_rows[i] == prev[i]);
                    }
                }
            }
        }
    }
}

/// The rows of a lot keep the table's unique record identifiers.
pub proof fn lemma_records_of_unique(rows: Seq<RecordRowView>, lot_id: Seq<char>)
    requires
        unique_by(rows, same_record()),
    ensures
        unique_by(records_of(rows, lot_id), same_record()),
    decreases rows.len(),
{
    if rows.len() > 0 {
        let prev = rows.drop_last();
        assert forall|i: int, j: int| 0 <= i < prev.len() && 0 <= j < prev.len() && i != j implies !same_record()(prev[i], prev[j]) by {
            assert(prev[i] == rows[i] && prev[j] == rows[j]);
        }
        lemma_records_of_unique(prev, lot_id);
        if rows.last().lot_id == lot_id {
            let sub = records_of(prev, lot_id);
            let out = records_of(rows, lot_id);
            assert forall|i: int, j: int| 0 <= i < out.len() && 0 <= j < out.len() && i != j implies !same_record()(out[i], out[j]) by {
                if i == sub.len() || j == sub.len() {
                    let o = if i == sub.len() { j } else { i };
                    lemma_records_of_within(prev, lot_id, o);
                    let m = choose|m: int| 0 <= m < prev.len() && prev[m] == sub[o];
                    assert(rows[m] == prev[m]);
                    assert(!same_record()(rows[m], rows[rows.len() - 1]));
                }
            }
        }
    }
}

/// The record table after upserting each of `new_rows` in order.
pub open spec fn upsert_all(rows: Seq<RecordRowView>, new_rows: Seq<RecordRowView>) -> Seq<RecordRowView>
    decreases new_rows.len(),
{
    if new_rows.len() == 0 {
        rows
    } else {
        upserted(upsert_all(rows, new_rows.drop_last()), new_rows.last(), same_record())
    }
}

/// Some other lot already has this lot's name.
pub open spec fn name_taken(rows: Seq<LotRowView>, row: LotRowView) -> bool {
    exists|i: int| 0 <= i < rows.len() && rows[i].name == row.name && rows[i].id != row.id
}

/// The rows that belong to a lot, in table order.
pub open spec fn records_of(rows: Seq<RecordRowView>, lot_id: Seq<char>) -> Seq<RecordRowView>
    decreases rows.len(),
{
    if rows.len() == 0 {
        Seq::empty()
    } else if rows.last().lot_id == lot_id {
        records_of(rows.drop_last(), lot_id).push(rows.last())
    } else {
        records_of(rows.drop_last(), lot_id)
    }
}

} // verus!
