use crate::error::Error;
use crate::id::{uuid_parse, uuid_text, LotTag, Uuid};
use crate::key::{opened_bytes, sealed, unwraps_to, Encrypted, Key, KEY_LEN};
use crate::record::{packed, row_holds, row_readable};
use crate::record::{
    ids_distinct, lemma_record_stored_kept, record_stored, row_opens, rows_readable, Record, RecordView,
};
use crate::store::{
    copy_bytes, lemma_upserted_contains, name_taken, records_of, same_lot, upsert_all, upserted,
    wrapped_of, LotRow, LotRowView, RecordRowView, Store, StoreView, WrappedKeyRow,
    WrappedKeyRowView,
};
use crate::user::User;
use vstd::prelude::*;

verus! {

/// The name of the lot that a new user starts with.
pub const DEFAULT_LOT: &'static str = "main";

/// The store holds this user's wrapped copy of `lot_key` for the lot whose
/// identifier reads `lot_id`.
pub open spec fn wrapped_for(store: StoreView, username: Seq<char>, lot_id: Seq<char>, user_key: Seq<u8>, lot_key: Seq<u8>) -> bool {
    exists|w: int|
        0 <= w < store.wrapped_keys.len() && store.wrapped_keys[w].username == username
            && store.wrapped_keys[w].lot_id == lot_id && #[trigger] sealed(
            user_key,
            store.wrapped_keys[w].nonce,
            store.wrapped_keys[w].data,
            lot_key,
        )
}

/// What a completed `Lot::save` leaves in the store: the lot row, the lot key
/// wrapped under the user's key, and every record sealed under the lot key.
pub open spec fn lot_saved(store: StoreView, lot: Lot, user: User) -> bool {
    &&& uuid_parse(uuid_text(lot.spec_id())) == Some(lot.spec_id())
    &&& store.lots.contains(LotRowView { id: uuid_text(lot.spec_id()), name: lot.spec_name() })
    &&& wrapped_for(store, user.spec_username(), uuid_text(lot.spec_id()), user.spec_key(), lot.spec_key())
    &&& forall|i: int| 0 <= i < lot.spec_records().len() ==> #[trigger] record_stored(
        store,
        lot.spec_key(),
        lot.spec_records()[i],
    )
}

/// A lot built from a lot row and a wrapping row: the row's name and
/// identifier, the lot key that the wrapping row opens to under the user's
/// key, and each record row of the lot opened under that key, in table order.
pub open spec fn built_from(store: StoreView, user: User, lot_row: LotRowView, wrap_row: WrappedKeyRowView, lot: Lot) -> bool {
    &&& lot_row.name == lot.spec_name()
    &&& uuid_parse(lot_row.id) == Some(lot.spec_id())
    &&& opened_bytes(user.spec_key(), wrap_row.nonce, wrap_row.data) == Some(lot.spec_key())
    &&& forall|k: Seq<u8>| #[trigger] sealed(user.spec_key(), wrap_row.nonce, wrap_row.data, k) ==> lot.spec_key() == k
    &&& records_of(store.records, uuid_text(lot.spec_id())).len() == lot.spec_records().len()
    &&& forall|i: int| 0 <= i < lot.spec_records().len() ==> #[trigger] row_opens(
        records_of(store.records, uuid_text(lot.spec_id()))[i],
        lot.spec_key(),
        lot.spec_id(),
        lot.spec_records()[i],
    )
}

/// The wrapping row unwraps, under the user's key, to a whole lot key.
pub open spec fn unwraps_key(user_key: Seq<u8>, wrap_row: WrappedKeyRowView) -> bool {
    exists|k: Seq<u8>| k.len() == KEY_LEN && #[trigger] unwraps_to(user_key, wrap_row.nonce, wrap_row.data, k)
}

/// A lot row and a wrapping row from which a lot can be built: the wrapping
/// row unwraps to a whole key, the lot's identifier parses, and every record
/// row of the lot is readable under that key.
pub open spec fn buildable(store: StoreView, user_key: Seq<u8>, lot_row: LotRowView, wrap_row: WrappedKeyRowView) -> bool {
    match uuid_parse(lot_row.id) {
        Some(id) => exists|k: Seq<u8>|
            k.len() == KEY_LEN && #[trigger] unwraps_to(user_key, wrap_row.nonce, wrap_row.data, k)
                && rows_readable(records_of(store.records, uuid_text(id)), k),
        None => false,
    }
}

/// The lot that a wrapping row names has a row, and can be built.
pub open spec fn lot_available(store: StoreView, user_key: Seq<u8>, wrap_row: WrappedKeyRowView) -> bool {
    exists|k: int|
        0 <= k < store.lots.len() && store.lots[k].id == wrap_row.lot_id && #[trigger] buildable(
            store,
            user_key,
            store.lots[k],
            wrap_row,
        )
}

/// The lot of this name exists, this user holds a wrapping row for it, and
/// it can be built from the two.
pub open spec fn lot_readable(store: StoreView, user: User, name: Seq<char>) -> bool {
    exists|k: int, w: int| {
        &&& 0 <= k < store.lots.len()
        &&& 0 <= w < store.wrapped_keys.len()
        &&& store.lots[k].name == name
        &&& store.wrapped_keys[w].username == user.spec_username()
        &&& store.wrapped_keys[w].lot_id == store.lots[k].id
        &&& #[trigger] buildable(store, user.spec_key(), store.lots[k], store.wrapped_keys[w])
    }
}

/// Every lot that the user holds a wrapping row for is available.
pub open spec fn all_lots_available(store: StoreView, user: User) -> bool {
    forall|i: int|
        0 <= i < wrapped_of(store.wrapped_keys, user.spec_username()).len() ==> #[trigger] lot_available(
            store,
            user.spec_key(),
            wrapped_of(store.wrapped_keys, user.spec_username())[i],
        )
}

/// A lot that `Lot::load_all` built from a wrapping row of the user.
pub open spec fn loaded_via(store: StoreView, user: User, wrap_row: WrappedKeyRowView, lot: Lot) -> bool {
    &&& lot.wf()
    &&& exists|k: int|
        0 <= k < store.lots.len() && store.lots[k].id == wrap_row.lot_id && #[trigger] built_from(
            store,
            user,
            store.lots[k],
            wrap_row,
            lot,
        )
}

/// The store after `Lot::save`, from the store before it: the user table
/// as it was, the lot row upserted, the wrapping row `wrap` upserted, and the
/// rows `rows`, one per record of the lot and in its order, upserted into the
/// record table. Nothing else changes.
pub open spec fn saved_as(
    old: StoreView,
    new: StoreView,
    lot: Lot,
    user: User,
    wrap: WrappedKeyRowView,
    rows: Seq<RecordRowView>,
) -> bool {
    &&& new.users == old.users
    &&& new.lots == upserted(old.lots, LotRowView { id: uuid_text(lot.spec_id()), name: lot.spec_name() }, same_lot())
    &&& wrap.username == user.spec_username()
    &&& wrap.lot_id == uuid_text(lot.spec_id())
    &&& sealed(user.spec_key(), wrap.nonce, wrap.data, lot.spec_key())
    &&& new.wrapped_keys == upserted(old.wrapped_keys, wrap, crate::store::same_wrapping())
    &&& rows.len() == lot.spec_records().len()
    &&& forall|i: int| 0 <= i < rows.len() ==> #[trigger] row_holds(rows[i], lot.spec_key(), lot.spec_records()[i])
    &&& new.records == upsert_all(old.records, rows)
}

/// Some wrapping row and record rows make `new` what `Lot::save` leaves.
pub open spec fn lot_save_result(old: StoreView, new: StoreView, lot: Lot, user: User) -> bool {
    exists|wrap: WrappedKeyRowView, rows: Seq<RecordRowView>| #[trigger] saved_as(old, new, lot, user, wrap, rows)
}

/// What `Lot::load` read: the lot row of the lot's name, and this user's
/// wrapping row for it.
pub open spec fn lot_loaded(store: StoreView, user: User, lot: Lot) -> bool {
    exists|k: int, w: int| {
        &&& 0 <= k < store.lots.len()
        &&& 0 <= w < store.wrapped_keys.len()
        &&& #[trigger] store.wrapped_keys[w].username == user.spec_username()
        &&& store.wrapped_keys[w].lot_id == store.lots[k].id
        &&& #[trigger] built_from(store, user, store.lots[k], store.wrapped_keys[w], lot)
    }
}

/// A named collection of records, sealed under a key of its own.
///
/// The lot key is stored only wrapped under a user's key. Rotating it is
/// replacing it and saving again: the save re-wraps the key and reseals
/// every record.
#[derive(PartialEq, Eq)]
pub struct Lot {
    uuid: Uuid<LotTag>,
    name: String,
    records: Vec<Record>,
    key: Key<LotTag>,
}

impl Lot {
    pub closed spec fn spec_id(&self) -> u128 {
        self.uuid@
    }

    pub closed spec fn spec_name(&self) -> Seq<char> {
        self.name@
    }

    pub closed spec fn spec_records(&self) -> Seq<RecordView> {
        self.records@.map_values(|r: Record| r@)
    }

    pub closed spec fn spec_key(&self) -> Seq<u8> {
        self.key@
    }

    /// The key is whole, every record belongs to this lot and has unique
    /// attribute names, and no two records share an identifier.
    pub open spec fn wf(&self) -> bool {
        &&& self.spec_key().len() == KEY_LEN
        &&& forall|i: int| 0 <= i < self.spec_records().len() ==> (#[trigger] self.spec_records()[i]).lot == self.spec_id()
            && self.spec_records()[i].data.wf()
        &&& ids_distinct(self.spec_records())
    }

    /// An empty lot with a fresh identifier and a fresh random key.
    pub fn new(name: &str) -> (r: Result<Self, Error>)
        ensures
            r matches Ok(lot) ==> lot.wf() && lot.spec_name() == name@ && lot.spec_records().len() == 0,
            r matches Err(e) ==> e == Error::EntropyUnavailable,
    {
        let uuid = match Uuid::<LotTag>::now() {
            Ok(u) => u,
            Err(e) => return Err(e),
        };
        let key = match Key::<LotTag>::new() {
            Ok(k) => k,
            Err(e) => return Err(e),
        };
        let lot = Lot { uuid, name: name.to_string(), records: Vec::new(), key };
        assert(lot.spec_records() =~= Seq::<RecordView>::empty());
        Ok(lot)
    }

    pub fn uuid(&self) -> (r: &Uuid<LotTag>)
        ensures
            r@ == self.spec_id(),
    {
        &self.uuid
    }

    pub fn name(&self) -> (r: &str)
        ensures
            r@ == self.spec_name(),
    {
        self.name.as_str()
    }

    pub fn key(&self) -> (r: &Key<LotTag>)
        requires
            self.wf(),
        ensures
            r@ == self.spec_key(),
            r.wf(),
    {
        &self.key
    }

    pub fn records(&self) -> (r: &[Record])
        ensures
            r@.map_values(|x: Record| x@) == self.spec_records(),
    {
        self.records.as_slice()
    }

    /// The first record of the lot with this label.
    pub fn find_label(&self, label: &str) -> (r: Option<&Record>)
        ensures
            match r {
                Some(rec) => exists|i: int|
                    0 <= i < self.spec_records().len() && self.spec_records()[i] == rec@
                        && rec@.data.label() == label@ && forall|j: int|
                        0 <= j < i ==> self.spec_records()[j].data.label() != label@,
                None => forall|i: int|
                    0 <= i < self.spec_records().len() ==> self.spec_records()[i].data.label() != label@,
            },
    {
        let wanted = label.to_owned();
        let mut i: usize = 0;
        while i < self.records.len()
            invariant
                i <= self.records@.len(),
                wanted@ == label@,
                forall|j: int| 0 <= j < i ==> self.spec_records()[j].data.label() != label@,
            decreases self.records@.len() - i,
        {
            let found = self.records[i].data().label().to_owned();
            assert(self.spec_records()[i as int] == self.records@[i as int]@);
            if found == wanted {
                return Some(&self.records[i]);
            }
            i = i + 1;
        }
        None
    }

    /// Replaces the lot key. The next save wraps the new key and reseals
    /// every record under it.
    pub fn set_key(&mut self, key: Key<LotTag>)
        requires
            old(self).wf(),
            key.wf(),
        ensures
            final(self).wf(),
            final(self).spec_key() == key@,
            final(self).spec_id() == old(self).spec_id(),
            final(self).spec_name() == old(self).spec_name(),
            final(self).spec_records() == old(self).spec_records(),
    {
        self.key = key;
    }

    /// Whether the lot holds a record with this identifier.
    pub fn holds_id(&self, id: u128) -> (r: bool)
        ensures
            r == exists|i: int| 0 <= i < self.spec_records().len() && self.spec_records()[i].id == id,
    {
        let r = crate::record::holds_record_id(&self.records, id);
        proof {
            if r {
                let i = choose|i: int| 0 <= i < self.records@.len() && self.records@[i]@.id == id;
                assert(self.spec_records()[i].id == id);
            } else {
                assert forall|i: int| 0 <= i < self.spec_records().len() implies self.spec_records()[i].id != id by {
                    assert(self.spec_records()[i] == self.records@[i]@);
                }
            }
        }
        r
    }

    /// Appends a record of this lot without storing it; the next save
    /// stores it. A record whose identifier the lot holds is refused.
    pub fn add_record(&mut self, record: Record) -> (r: Result<(), Error>)
        requires
            old(self).wf(),
            record@.lot == old(self).spec_id(),
            record@.data.wf(),
        ensures
            final(self).wf(),
            final(self).spec_id() == old(self).spec_id(),
            final(self).spec_name() == old(self).spec_name(),
            final(self).spec_key() == old(self).spec_key(),
            match r {
                Ok(()) => final(self).spec_records() == old(self).spec_records().push(record@),
                Err(e) => e == Error::AlreadyExists && final(self).spec_records() == old(self).spec_records(),
            },
            r is Err <==> exists|i: int| 0 <= i < old(self).spec_records().len() && old(self).spec_records()[i].id == record@.id,
    {
        if self.holds_id(record.uuid().as_u128()) {
            return Err(Error::AlreadyExists);
        }
        self.push_record(record);
        Ok(())
    }

    pub(crate) fn push_record(&mut self, record: Record)
        requires
            old(self).wf(),
            record@.lot == old(self).spec_id(),
            record@.data.wf(),
            forall|i: int| 0 <= i < old(self).spec_records().len() ==> old(self).spec_records()[i].id != record@.id,
        ensures
            final(self).wf(),
            final(self).spec_id() == old(self).spec_id(),
            final(self).spec_name() == old(self).spec_name(),
            final(self).spec_key() == old(self).spec_key(),
            final(self).spec_records() == old(self).spec_records().push(record@),
    {
        let ghost v = record@;
        self.records.push(record);
        assert(self.spec_records() =~= old(self).spec_records().push(v));
    }

    /// Stores the lot: its row, its key wrapped under the user's key, and
    /// every record sealed under its current key.
    ///
    /// A name that another lot holds is refused before anything is written.
    pub fn save(&self, store: &mut Store, user: &User) -> (r: Result<Uuid<LotTag>, Error>)
        requires
            self.wf(),
            user.wf(),
            old(store)@.wf(),
        ensures
            final(store)@.wf(),
            match r {
                Ok(id) => id@ == self.spec_id() && lot_saved(final(store)@, *self, *user)
                    && lot_save_result(old(store)@, final(store)@, *self, *user),
                Err(e) => e == Error::AlreadyExists || e == Error::EncryptionFailed || e
                    == Error::EntropyUnavailable || e is Pipeline,
            },
            name_taken(old(store)@.lots, LotRowView { id: uuid_text(self.spec_id()), name: self.spec_name() })
                <==> r == Err::<Uuid<LotTag>, Error>(Error::AlreadyExists),
    {
        let lot_id = self.uuid.to_text();
        let lot_row = LotRow { id: lot_id.clone(), name: self.name.clone() };
        let ghost lot_view = lot_row@;
        assert(lot_view == LotRowView { id: uuid_text(self.spec_id()), name: self.spec_name() });
        match store.upsert_lot(lot_row) {
            Ok(()) => {},
            Err(e) => return Err(e),
        }
        proof {
            lemma_upserted_contains(old(store)@.lots, lot_view, same_lot());
        }
        let wrapped = match user.key().encrypt(self.key.as_bytes()) {
            Ok(c) => c,
            Err(e) => return Err(e),
        };
        let wrap_row = WrappedKeyRow {
            username: user.username().to_string(),
            lot_id: lot_id.clone(),
            data: wrapped.data,
            nonce: wrapped.nonce,
        };
        let ghost wrap_view = wrap_row@;
        let ghost before_wrap = store@.wrapped_keys;
        store.upsert_wrapped_key(wrap_row);
        let ghost after_wrap = store@;
        let ghost mut saved: Seq<crate::store::RecordRowView> = Seq::empty();
        assert(upsert_all(old(store)@.records, saved) == old(store)@.records);
        proof {
            lemma_upserted_contains(before_wrap, wrap_view, crate::store::same_wrapping());
            let w = choose|w: int| 0 <= w < store@.wrapped_keys.len() && store@.wrapped_keys[w] == wrap_view;
            assert(sealed(user.spec_key(), store@.wrapped_keys[w].nonce, store@.wrapped_keys[w].data, self.spec_key()));
        }
        let mut i: usize = 0;
        while i < self.records.len()
            invariant
                self.wf(),
                store@.wf(),
                i <= self.records@.len(),
                store@.lots.contains(lot_view),
                !name_taken(old(store)@.lots, lot_view),
                lot_view == (LotRowView { id: uuid_text(self.spec_id()), name: self.spec_name() }),
                wrapped_for(store@, user.spec_username(), uuid_text(self.spec_id()), user.spec_key(), self.spec_key()),
                forall|j: int| 0 <= j < i ==> #[trigger] record_stored(store@, self.spec_key(), self.spec_records()[j]),
                after_wrap.users == old(store)@.users,
                after_wrap.lots == upserted(old(store)@.lots, lot_view, same_lot()),
                after_wrap.wrapped_keys == upserted(old(store)@.wrapped_keys, wrap_view, crate::store::same_wrapping()),
                wrap_view.username == user.spec_username(),
                wrap_view.lot_id == uuid_text(self.spec_id()),
                sealed(user.spec_key(), wrap_view.nonce, wrap_view.data, self.spec_key()),
                saved.len() == i,
                forall|j: int| 0 <= j < i ==> #[trigger] row_holds(saved[j], self.spec_key(), self.spec_records()[j]),
                store@ == (StoreView { records: upsert_all(old(store)@.records, saved), ..after_wrap }),
            decreases self.records@.len() - i,
        {
            let ghost before = store@;
            let ghost rec = self.records@[i as int]@;
            assert(self.spec_records()[i as int] == rec);
            match self.records[i].save(store, self) {
                Ok(_) => {},
                Err(e) => return Err(e),
            }
            proof {
                let row = choose|row: crate::store::RecordRowView|
                    #[trigger] crate::record::row_holds(row, self.spec_key(), rec) && store@ == (StoreView {
                        records: upserted(before.records, row, crate::store::same_record()),
                        ..before
                    });
                assert forall|j: int| 0 <= j < i implies #[trigger] record_stored(store@, self.spec_key(), self.spec_records()[j]) by {
                    assert(self.spec_records()[j].id != rec.id);
                    lemma_record_stored_kept(before, self.spec_key(), self.spec_records()[j], row, rec.id);
                }
                lemma_upserted_contains(before.records, row, crate::store::same_record());
                let k = choose|k: int| 0 <= k < store@.records.len() && store@.records[k] == row;
                assert(crate::record::row_holds(store@.records[k], self.spec_key(), rec));
                let w = choose|w: int|
                    0 <= w < before.wrapped_keys.len() && before.wrapped_keys[w].username == user.spec_username()
                        && before.wrapped_keys[w].lot_id == uuid_text(self.spec_id()) && #[trigger] sealed(
                        user.spec_key(),
                        before.wrapped_keys[w].nonce,
                        before.wrapped_keys[w].data,
                        self.spec_key(),
                    );
                assert(sealed(user.spec_key(), store@.wrapped_keys[w].nonce, store@.wrapped_keys[w].data, self.spec_key()));
                let grown = saved.push(row);
                assert(grown.drop_last() =~= saved);
                assert(upsert_all(old(store)@.records, grown) == upserted(before.records, row, crate::store::same_record()));
                assert forall|j: int| 0 <= j < i + 1 implies #[trigger] row_holds(grown[j], self.spec_key(), self.spec_records()[j]) by {
                    if j < i {
                        assert(grown[j] == saved[j]);
                    }
                }
                saved = grown;
            }
            i = i + 1;
        }
        proof {
            assert(saved_as(old(store)@, store@, *self, *user, wrap_view, saved));
        }
        Ok(self.uuid.duplicate())
    }

    /// Builds a lot from its row and a wrapping row: unwraps the lot key
    /// with the user's key and opens every record of the lot.
    pub fn decrypt_and_build(store: &Store, user: &User, lot_row: &LotRow, wrap_row: &WrappedKeyRow) -> (r: Result<Self, Error>)
        requires
            user.wf(),
        ensures
            match r {
                Ok(lot) => lot.wf() && built_from(store@, *user, lot_row@, wrap_row@, lot),
                Err(e) => e == Error::DecryptionFailed || e == Error::MalformedIdentifier || e is Pipeline,
            },
            buildable(store@, user.spec_key(), lot_row@, wrap_row@) ==> r is Ok,
            unwraps_key(user.spec_key(), wrap_row@) && uuid_parse(lot_row@.id) is None ==> r
                == Err::<Self, Error>(Error::MalformedIdentifier),
    {
        let ghost ukey = user.spec_key();
        let wrapped = Encrypted { data: copy_bytes(&wrap_row.data), nonce: copy_bytes(&wrap_row.nonce) };
        let key_bytes = match user.key().decrypt(&wrapped) {
            Ok(b) => b,
            Err(e) => {
                proof {
                    if unwraps_key(ukey, wrap_row@) {
                        let k = choose|k: Seq<u8>| k.len() == KEY_LEN && #[trigger] unwraps_to(ukey, wrap_row@.nonce, wrap_row@.data, k);
                        if sealed(ukey, wrap_row@.nonce, wrap_row@.data, k) {
                            assert(wrapped.seals(ukey, k));
                        }
                    }
                    if buildable(store@, ukey, lot_row@, wrap_row@) {
                        let k = choose|k: Seq<u8>| k.len() == KEY_LEN && #[trigger] unwraps_to(ukey, wrap_row@.nonce, wrap_row@.data, k)
                            && rows_readable(records_of(store@.records, uuid_text(uuid_parse(lot_row@.id)->Some_0)), k);
                        if sealed(ukey, wrap_row@.nonce, wrap_row@.data, k) {
                            assert(wrapped.seals(ukey, k));
                        }
                    }
                }
                return Err(e);
            },
        };
        proof {
            assert forall|k: Seq<u8>| #[trigger] unwraps_to(ukey, wrap_row@.nonce, wrap_row@.data, k) implies key_bytes@ == k by {
                if sealed(ukey, wrap_row@.nonce, wrap_row@.data, k) {
                    assert(wrapped.seals(ukey, k));
                }
            }
        }
        proof {
            assert forall|k: Seq<u8>| #[trigger] sealed(ukey, wrap_row@.nonce, wrap_row@.data, k) implies key_bytes@ == k by {
                assert(unwraps_to(ukey, wrap_row@.nonce, wrap_row@.data, k));
            }
        }
        if key_bytes.len() != KEY_LEN {
            return Err(Error::DecryptionFailed);
        }
        let uuid = match Uuid::<LotTag>::parse(lot_row.id.as_str()) {
            Ok(u) => u,
            Err(e) => return Err(e),
        };
        let mut lot = Lot {
            uuid,
            name: lot_row.name.clone(),
            records: Vec::new(),
            key: Key::from_bytes(key_bytes.as_slice()),
        };
        assert(lot.spec_records() =~= Seq::<RecordView>::empty());
        let records = match Record::load_all(store, &lot) {
            Ok(recs) => recs,
            Err(e) => return Err(e),
        };
        let ghost lot_key = lot.spec_key();
        let ghost lot_uuid = lot.spec_id();
        let ghost rows = records_of(store@.records, uuid_text(lot_uuid));
        assert(forall|i: int| 0 <= i < rows.len() ==> #[trigger] row_opens(rows[i], lot_key, lot_uuid, records@[i]@));
        assert(records@.len() == rows.len());
        lot.records = records;
        assert(lot.spec_key() == lot_key && lot.spec_id() == lot_uuid);
        proof {
            assert(lot.spec_records() == records@.map_values(|x: Record| x@));
            assert forall|i: int| 0 <= i < lot.spec_records().len() implies #[trigger] row_opens(
                rows[i],
                lot.spec_key(),
                lot.spec_id(),
                lot.spec_records()[i],
            ) by {
                assert(lot.spec_records()[i] == records@[i]@);
                assert(row_opens(rows[i], lot.spec_key(), lot.spec_id(), records@[i]@));
            }
            assert forall|i: int| 0 <= i < lot.spec_records().len() implies (#[trigger] lot.spec_records()[i]).lot == lot.spec_id()
                && lot.spec_records()[i].data.wf() by {
                assert(row_opens(rows[i], lot.spec_key(), lot.spec_id(), lot.spec_records()[i]));
            }
        }
        Ok(lot)
    }

    /// Loads a user's lot by name: finds the lot row, unwraps the lot key
    /// with the user's key, and opens every record of the lot.
    ///
    /// No lot of that name is `NotFound`; a lot for which this user holds no
    /// wrapped key is `NotAuthorized`. Any failure to open is fatal: no lot
    /// with records left out is returned.
    pub fn load(store: &Store, name: &str, user: &User) -> (r: Result<Self, Error>)
        requires
            user.wf(),
            store@.wf(),
        ensures
            match r {
                Ok(lot) => lot.wf() && lot.spec_name() == name@ && lot_loaded(store@, *user, lot),
                Err(e) => e == Error::NotFound || e == Error::NotAuthorized || e == Error::DecryptionFailed
                    || e == Error::MalformedIdentifier || e is Pipeline,
            },
            (forall|i: int| 0 <= i < store@.lots.len() ==> store@.lots[i].name != name@) <==> r
                == Err::<Self, Error>(Error::NotFound),
            (exists|i: int| 0 <= i < store@.lots.len() && store@.lots[i].name == name@
                && forall|w: int| 0 <= w < store@.wrapped_keys.len() ==> !(store@.wrapped_keys[w].username
                    == user.spec_username() && store@.wrapped_keys[w].lot_id == store@.lots[i].id))
                <==> r == Err::<Self, Error>(Error::NotAuthorized),
            lot_readable(store@, *user, name@) ==> r is Ok,
    {
        let lot_row = match store.select_lot_by_name(name) {
            Some(row) => row,
            None => {
                proof {
                    if lot_readable(store@, *user, name@) {
                        let (k, w) = choose|k: int, w: int| {
                            &&& 0 <= k < store@.lots.len()
                            &&& 0 <= w < store@.wrapped_keys.len()
                            &&& store@.lots[k].name == name@
                            &&& store@.wrapped_keys[w].username == user.spec_username()
                            &&& store@.wrapped_keys[w].lot_id == store@.lots[k].id
                            &&& #[trigger] buildable(store@, user.spec_key(), store@.lots[k], store@.wrapped_keys[w])
                        };
                        assert(store@.lots[k].name == name@);
                    }
                }
                return Err(Error::NotFound);
            },
        };
        let ghost kr = choose|k: int| 0 <= k < store@.lots.len() && store@.lots[k] == lot_row@;
        proof {
            if lot_readable(store@, *user, name@) {
                let (k, w) = choose|k: int, w: int| {
                    &&& 0 <= k < store@.lots.len()
                    &&& 0 <= w < store@.wrapped_keys.len()
                    &&& store@.lots[k].name == name@
                    &&& store@.wrapped_keys[w].username == user.spec_username()
                    &&& store@.wrapped_keys[w].lot_id == store@.lots[k].id
                    &&& #[trigger] buildable(store@, user.spec_key(), store@.lots[k], store@.wrapped_keys[w])
                };
                if k != kr {
                    assert(!crate::store::same_lot_name()(store@.lots[k], store@.lots[kr]));
                }
                assert(store@.lots[k] == lot_row@);
                assert(store@.wrapped_keys[w].lot_id == lot_row@.id);
            }
        }
        let wrap_row = match store.select_wrapped_key(user.username(), lot_row.id.as_str()) {
            Some(row) => row,
            None => return Err(Error::NotAuthorized),
        };
        proof {
            let k = choose|k: int| 0 <= k < store@.lots.len() && store@.lots[k] == lot_row@;
            let w = choose|w: int| 0 <= w < store@.wrapped_keys.len() && store@.wrapped_keys[w] == wrap_row@;
            assert forall|i: int| 0 <= i < store@.lots.len() && store@.lots[i].name == name@ implies !(forall|v: int|
                0 <= v < store@.wrapped_keys.len() ==> !(store@.wrapped_keys[v].username
                    == user.spec_username() && store@.wrapped_keys[v].lot_id == store@.lots[i].id)) by {
                if i != k {
                    assert(!crate::store::same_lot_name()(store@.lots[i], store@.lots[k]));
                }
                assert(store@.wrapped_keys[w].lot_id == store@.lots[i].id);
            }
        }
        let r = Self::decrypt_and_build(store, user, lot_row, wrap_row);
        proof {
            if lot_readable(store@, *user, name@) {
                let (k, w) = choose|k: int, w: int| {
                    &&& 0 <= k < store@.lots.len()
                    &&& 0 <= w < store@.wrapped_keys.len()
                    &&& store@.lots[k].name == name@
                    &&& store@.wrapped_keys[w].username == user.spec_username()
                    &&& store@.wrapped_keys[w].lot_id == store@.lots[k].id
                    &&& #[trigger] buildable(store@, user.spec_key(), store@.lots[k], store@.wrapped_keys[w])
                };
                if k != kr {
                    assert(!crate::store::same_lot_name()(store@.lots[k], store@.lots[kr]));
                }
                let wr = choose|v: int| 0 <= v < store@.wrapped_keys.len() && store@.wrapped_keys[v] == wrap_row@;
                if w != wr {
                    assert(!crate::store::same_wrapping()(store@.wrapped_keys[w], store@.wrapped_keys[wr]));
                }
                assert(buildable(store@, user.spec_key(), lot_row@, wrap_row@));
            }
            if r is Ok {
                let lot = r->Ok_0;
                let k = choose|k: int| 0 <= k < store@.lots.len() && store@.lots[k] == lot_row@;
                let w = choose|w: int| 0 <= w < store@.wrapped_keys.len() && store@.wrapped_keys[w] == wrap_row@;
                assert(built_from(store@, *user, store@.lots[k], store@.wrapped_keys[w], lot));
                assert(store@.wrapped_keys[w].username == user.spec_username());
            }
        }
        r
    }

    /// Loads every lot that this user holds a wrapped key for, in the order
    /// of the wrapping rows.
    pub fn load_all(store: &Store, user: &User) -> (r: Result<Vec<Self>, Error>)
        requires
            user.wf(),
            store@.wf(),
        ensures
            match r {
                Ok(lots) => {
                    let rows = wrapped_of(store@.wrapped_keys, user.spec_username());
                    &&& lots@.len() == rows.len()
                    &&& forall|i: int| 0 <= i < rows.len() ==> #[trigger] loaded_via(store@, *user, rows[i], lots@[i])
                },
                Err(e) => e == Error::NotFound || e == Error::DecryptionFailed
                    || e == Error::MalformedIdentifier || e is Pipeline,
            },
            all_lots_available(store@, *user) ==> r is Ok,
    {
        let rows = store.select_all_wrapped_keys(user.username());
        let ghost expected = wrapped_of(store@.wrapped_keys, user.spec_username());
        let mut lots: Vec<Lot> = Vec::new();
        let mut i: usize = 0;
        while i < rows.len()
            invariant
                user.wf(),
                store@.wf(),
                expected == wrapped_of(store@.wrapped_keys, user.spec_username()),
                rows@.map_values(|x: &WrappedKeyRow| x@) == expected,
                i <= rows@.len(),
                lots@.len() == i,
                forall|j: int| 0 <= j < i ==> #[trigger] loaded_via(store@, *user, expected[j], lots@[j]),
            decreases rows@.len() - i,
        {
            let wrap_row = rows[i];
            assert(wrap_row@ == expected[i as int]);
            let lot_row = match store.select_lot_by_id(wrap_row.lot_id.as_str()) {
                Some(row) => row,
                None => {
                    proof {
                        if all_lots_available(store@, *user) {
                            assert(lot_available(store@, user.spec_key(), expected[i as int]));
                        }
                    }
                    return Err(Error::NotFound);
                },
            };
            let lot = match Self::decrypt_and_build(store, user, lot_row, wrap_row) {
                Ok(lot) => lot,
                Err(e) => {
                    proof {
                        if all_lots_available(store@, *user) {
                            assert(lot_available(store@, user.spec_key(), expected[i as int]));
                            let k = choose|k: int|
                                0 <= k < store@.lots.len() && store@.lots[k].id == expected[i as int].lot_id
                                    && #[trigger] buildable(store@, user.spec_key(), store@.lots[k], expected[i as int]);
                            let kr = choose|k: int| 0 <= k < store@.lots.len() && store@.lots[k] == lot_row@;
                            if k != kr {
                                assert(!crate::store::same_lot()(store@.lots[k], store@.lots[kr]));
                            }
                        }
                    }
                    return Err(e);
                },
            };
            let ghost prev = lots@;
            proof {
                let k = choose|k: int| 0 <= k < store@.lots.len() && store@.lots[k] == lot_row@;
                assert(store@.lots[k].id == expected[i as int].lot_id);
                assert(built_from(store@, *user, store@.lots[k], expected[i as int], lot));
                assert(loaded_via(store@, *user, expected[i as int], lot));
            }
            lots.push(lot);
            proof {
                assert forall|j: int| 0 <= j < i + 1 implies #[trigger] loaded_via(store@, *user, expected[j], lots@[j]) by {
                    if j < i {
                        assert(lots@[j] == prev[j]);
                        assert(loaded_via(store@, *user, expected[j], prev[j]));
                    }
                }
            }
            i = i + 1;
        }
        Ok(lots)
    }
}

/// The row is the row of one of these records.
pub open spec fn row_owned(row: RecordRowView, key: Seq<u8>, records: Seq<RecordView>) -> bool {
    exists|j: int| 0 <= j < records.len() && #[trigger] row_holds(row, key, records[j])
}

/// Every record row that the store holds for the lot is the row of one of
/// the lot's records.
pub open spec fn rows_all_owned(store: StoreView, lot: Lot) -> bool {
    forall|k: int|
        0 <= k < records_of(store.records, uuid_text(lot.spec_id())).len() ==> #[trigger] row_owned(
            records_of(store.records, uuid_text(lot.spec_id()))[k],
            lot.spec_key(),
            lot.spec_records(),
        )
}

/// A lot that `save` stored can be loaded back by its name by the same user,
/// when every record row the store holds for it belongs to one of its
/// records (as after saving a lot that holds all its records, also after a
/// key rotation).
pub proof fn lemma_saved_lot_readable(store: StoreView, lot: Lot, user: User)
    requires
        store.wf(),
        lot.wf(),
        lot_saved(store, lot, user),
        rows_all_owned(store, lot),
    ensures
        lot_readable(store, user, lot.spec_name()),
{
    let id = lot.spec_id();
    let text = uuid_text(id);
    let key = lot.spec_key();
    let lot_row = LotRowView { id: text, name: lot.spec_name() };
    let k = choose|k: int| 0 <= k < store.lots.len() && store.lots[k] == lot_row;
    let w = choose|w: int|
        0 <= w < store.wrapped_keys.len() && store.wrapped_keys[w].username == user.spec_username()
            && store.wrapped_keys[w].lot_id == text && #[trigger] sealed(
            user.spec_key(),
            store.wrapped_keys[w].nonce,
            store.wrapped_keys[w].data,
            key,
        );
    let wrap = store.wrapped_keys[w];
    assert(unwraps_to(user.spec_key(), wrap.nonce, wrap.data, key));
    let rows = records_of(store.records, text);
    assert forall|i: int| 0 <= i < rows.len() implies #[trigger] row_readable(rows[i], key) by {
        assert(row_owned(rows[i], key, lot.spec_records()));
        let j = choose|j: int| 0 <= j < lot.spec_records().len() && #[trigger] row_holds(rows[i], key, lot.spec_records()[j]);
        let rec = lot.spec_records()[j];
        assert(rec.data.wf());
        assert(sealed(key, rows[i].nonce, rows[i].data, packed(rec.data)));
    }
    crate::store::lemma_records_of_unique(store.records, text);
    assert forall|a: int, b: int| 0 <= a < rows.len() && 0 <= b < rows.len() && a != b implies uuid_parse(
        #[trigger] rows[a].id,
    ) != uuid_parse(#[trigger] rows[b].id) by {
        assert(row_owned(rows[a], key, lot.spec_records()));
        assert(row_owned(rows[b], key, lot.spec_records()));
        let ja = choose|j: int| 0 <= j < lot.spec_records().len() && #[trigger] row_holds(rows[a], key, lot.spec_records()[j]);
        let jb = choose|j: int| 0 <= j < lot.spec_records().len() && #[trigger] row_holds(rows[b], key, lot.spec_records()[j]);
        if ja != jb {
            assert(lot.spec_records()[ja].id != lot.spec_records()[jb].id);
        } else {
            assert(!crate::store::same_record()(rows[a], rows[b]));
        }
    }
    assert(rows_readable(rows, key));
    assert(buildable(store, user.spec_key(), store.lots[k], wrap));
}

/// The text is the identifier of one of these records.
pub open spec fn id_of_record(id: Seq<char>, records: Seq<RecordView>) -> bool {
    exists|j: int| 0 <= j < records.len() && id == uuid_text(#[trigger] records[j].id)
}

/// Every record row that the store holds for the lot carries the identifier
/// of one of the lot's records: there are none yet, or they are the rows of
/// the same records, sealed under an earlier key.
pub open spec fn rows_of_records(store: StoreView, lot: Lot) -> bool {
    forall|k: int|
        0 <= k < records_of(store.records, uuid_text(lot.spec_id())).len() ==> #[trigger] id_of_record(
            records_of(store.records, uuid_text(lot.spec_id()))[k].id,
            lot.spec_records(),
        )
}

/// After `Lot::save`, a lot whose stored record rows all carried identifiers
/// of its records can be loaded back by its name by the same user: every
/// record row of the lot is then a row that save wrote under the current key
/// (this covers a first save, and a save after a key rotation).
pub proof fn lemma_saved_lot_loads(old: StoreView, new: StoreView, lot: Lot, user: User)
    requires
        old.wf(),
        new.wf(),
        lot.wf(),
        lot_save_result(old, new, lot, user),
        lot_saved(new, lot, user),
        rows_of_records(old, lot),
    ensures
        rows_all_owned(new, lot),
        lot_readable(new, user, lot.spec_name()),
{
    let (wrap, rows) = choose|wrap: WrappedKeyRowView, rows: Seq<RecordRowView>| #[trigger] saved_as(old, new, lot, user, wrap, rows);
    let text = uuid_text(lot.spec_id());
    let key = lot.spec_key();
    let recs = lot.spec_records();
    assert forall|k: int| 0 <= k < records_of(new.records, text).len() implies #[trigger] row_owned(
        records_of(new.records, text)[k],
        key,
        recs,
    ) by {
        let e = records_of(new.records, text)[k];
        crate::store::lemma_records_of_within(new.records, text, k);
        crate::store::lemma_upsert_all_member(old.records, rows, e);
        if rows.contains(e) {
            let m = choose|m: int| 0 <= m < rows.len() && rows[m] == e;
            assert(row_holds(rows[m], key, recs[m]));
        } else {
            crate::store::lemma_records_of_has(old.records, text, e);
            let k2 = choose|k2: int| 0 <= k2 < records_of(old.records, text).len() && records_of(old.records, text)[k2] == e;
            assert(id_of_record(records_of(old.records, text)[k2].id, recs));
            let j = choose|j: int| 0 <= j < recs.len() && e.id == uuid_text(#[trigger] recs[j].id);
            assert(row_holds(rows[j], key, recs[j]));
            assert(rows[j].id == e.id);
        }
    }
    lemma_saved_lot_readable(new, lot, user);
}

} // verus!
