use crate::error::{Error, Stage};
use crate::id::{uuid_parse, uuid_text, LotTag, RecordTag, Uuid};
use crate::lot::Lot;
use crate::store::{copy_bytes, records_of, same_record, upserted, RecordRow, RecordRowView, Store, StoreView};
use crate::key::{opened_bytes, sealed, Encrypted, Key, PLAINTEXT_MAX};
use crate::payload::{
    attr_names_sorted, attrs_view, decode_view, encode_view, lemma_decode_encode, read_attr_list,
    read_text, read_u64, write_attrs, write_field, write_u64, AttrsView, PayloadView, DOMAIN_TAG,
    PLAIN_TAG, keys_unique, lemma_name_order, name_less, name_lt, sorted_names,
};
use std::io::Read;
use vstd::prelude::*;
use vstd::string::{StrSliceExecFns, StringExecFns};

verus! {

/// The Snappy frame format of a byte sequence, as snap writes it.
pub uninterp spec fn snap_frames(data: Seq<u8>) -> Seq<u8>;

/// What snap's frame decoder reads from a byte sequence: the bytes, or
/// nothing when the frames or their checksums are wrong.
pub uninterp spec fn snap_unframe(data: Seq<u8>) -> Option<Seq<u8>>;

/// Frames that `snap_frames` wrote for `p` read back as `p`.
pub open spec fn unframes_back(r: Option<Vec<u8>>, data: Seq<u8>, p: Seq<u8>) -> bool {
    data == snap_frames(p) ==> (r matches Some(v) && v@ == p)
}

/// Relies on `snap::read::FrameEncoder` (snap), copied out with
/// `std::io::copy`: the Snappy frame format of the bytes. Reading from a
/// slice and writing to a `Vec` cannot fail, and the encoder splits its
/// input into blocks it can always compress.
#[verifier::external_body]
fn snap_compress(data: &[u8]) -> (r: Option<Vec<u8>>)
    ensures
        r is Some,
        r matches Some(c) ==> c@ == snap_frames(data@),
{
    let mut out = Vec::new();
    std::io::copy(&mut snap::read::FrameEncoder::new(data), &mut out).ok()?;
    Some(out)
}

/// Relies on `snap::read::FrameDecoder` (snap): it reads the frame format
/// back, checking the checksum of every frame, and so inverts the encoder.
#[verifier::external_body]
fn snap_decompress(data: &[u8]) -> (r: Option<Vec<u8>>)
    ensures
        r matches Some(p) ==> snap_unframe(data@) == Some(p@),
        r is None ==> snap_unframe(data@) is None,
        forall|p: Seq<u8>| #[trigger] unframes_back(r, data@, p),
{
    let mut out = Vec::new();
    snap::read::FrameDecoder::new(data).read_to_end(&mut out).ok()?;
    Some(out)
}

/// How many attributes have names that sort before `name`.
pub open spec fn rank(attrs: AttrsView, name: Seq<char>) -> int
    decreases attrs.len(),
{
    if attrs.len() == 0 {
        0
    } else {
        rank(attrs.drop_last(), name) + (if name_lt(attrs.last().0, name) {
            1int
        } else {
            0int
        })
    }
}

/// Puts an attribute in its sorted place, replacing the value of an
/// attribute of that name.
pub open spec fn put_sorted(attrs: AttrsView, name: Seq<char>, value: Seq<char>) -> AttrsView {
    if exists|i: int| 0 <= i < attrs.len() && attrs[i].0 == name {
        let i = choose|i: int| 0 <= i < attrs.len() && attrs[i].0 == name;
        attrs.update(i, (name, value))
    } else {
        attrs.insert(rank(attrs, name), (name, value))
    }
}

/// The attributes that a list of pairs defines, sorted by name: a name
/// given more than once keeps its last value, as in a map built from the
/// pairs.
pub open spec fn collect_sorted(pairs: AttrsView) -> AttrsView
    decreases pairs.len(),
{
    if pairs.len() == 0 {
        Seq::empty()
    } else {
        put_sorted(collect_sorted(pairs.drop_last()), pairs.last().0, pairs.last().1)
    }
}

/// Sorted names are unique.
proof fn lemma_sorted_unique(attrs: AttrsView)
    requires
        sorted_names(attrs),
    ensures
        keys_unique(attrs),
{
    assert forall|i: int, j: int| 0 <= i < j < attrs.len() implies attrs[i].0 != attrs[j].0 by {
        assert(name_lt(attrs[i].0, attrs[j].0));
        lemma_name_order(attrs[i].0, attrs[j].0, attrs[j].0);
    }
}

/// In sorted attributes, the names before `name` form a prefix of length
/// `p`: their count is `p`.
proof fn lemma_rank_prefix(attrs: AttrsView, name: Seq<char>, p: int)
    requires
        0 <= p <= attrs.len(),
        forall|q: int| 0 <= q < p ==> name_lt(#[trigger] attrs[q].0, name),
        forall|q: int| p <= q < attrs.len() ==> !name_lt(#[trigger] attrs[q].0, name),
    ensures
        rank(attrs, name) == p,
    decreases attrs.len(),
{
    if attrs.len() > 0 {
        let prev = attrs.drop_last();
        if p == attrs.len() {
            assert forall|q: int| 0 <= q < p - 1 implies name_lt(#[trigger] prev[q].0, name) by {
                assert(prev[q] == attrs[q]);
            }
            lemma_rank_prefix(prev, name, p - 1);
            assert(name_lt(attrs[attrs.len() - 1].0, name));
        } else {
            assert forall|q: int| 0 <= q < p implies name_lt(#[trigger] prev[q].0, name) by {
                assert(prev[q] == attrs[q]);
            }
            assert forall|q: int| p <= q < prev.len() implies !name_lt(#[trigger] prev[q].0, name) by {
                assert(prev[q] == attrs[q]);
            }
            lemma_rank_prefix(prev, name, p);
            assert(!name_lt(attrs[attrs.len() - 1].0, name));
        }
    }
}

/// The payload that compressed bytes hold, if they hold one.
pub open spec fn unpack(data: Seq<u8>) -> Option<PayloadView> {
    match snap_unframe(data) {
        Some(q) => decode_view(q),
        None => None,
    }
}

/// The payload that sealed bytes hold under `key`, if they hold one.
pub open spec fn open_payload_bytes(key: Seq<u8>, nonce: Seq<u8>, data: Seq<u8>) -> Option<PayloadView> {
    match opened_bytes(key, nonce, data) {
        Some(b) => unpack(b),
        None => None,
    }
}

/// The payload that a ciphertext holds under `key`, if it holds one.
pub open spec fn open_payload(key: Seq<u8>, c: Encrypted) -> Option<PayloadView> {
    open_payload_bytes(key, c.nonce@, c.data@)
}

/// The stored form of a payload before encryption.
pub open spec fn packed(p: PayloadView) -> Seq<u8> {
    snap_frames(encode_view(p))
}

/// The outcome of `RecordData::compress`: always the packed payload.
pub open spec fn compress_outcome(p: PayloadView, r: Result<Vec<u8>, Error>) -> bool {
    r matches Ok(c) && c@ == packed(p) && p.fits()
}

/// The outcome of `RecordData::decompress`.
pub open spec fn decompress_outcome(data: Seq<u8>, r: Result<RecordData, Error>) -> bool {
    &&& match r {
        Ok(d) => unpack(data) == Some(d@) && d@.wf(),
        Err(e) => unpack(data) is None && e == (if snap_unframe(data) is None {
            Error::Pipeline(Stage::Decompression)
        } else {
            Error::Pipeline(Stage::Decoding)
        }),
    }
    &&& forall|p: PayloadView|
        p.wf() && p.fits() && data == #[trigger] packed(p) ==> (r matches Ok(d) && d@ == p)
}

/// Every outcome that `RecordData::encrypt` may have.
pub open spec fn seal_outcome(key: Seq<u8>, p: PayloadView, r: Result<Encrypted, Error>) -> bool {
    match r {
        Ok(c) => c.seals(key, packed(p)) && p.fits(),
        Err(e) => e == Error::Pipeline(Stage::Encryption) || e == Error::EntropyUnavailable,
    }
}

/// The outcome of `RecordData::decrypt`.
pub open spec fn open_outcome(key: Seq<u8>, c: Encrypted, r: Result<RecordData, Error>) -> bool {
    &&& match r {
        Ok(d) => open_payload(key, c) == Some(d@) && d@.wf(),
        Err(e) => open_payload(key, c) is None && e == (if c.opened(key) is None {
            Error::Pipeline(Stage::Decryption)
        } else if snap_unframe(c.opened(key)->Some_0) is None {
            Error::Pipeline(Stage::Decompression)
        } else {
            Error::Pipeline(Stage::Decoding)
        }),
    }
    &&& forall|p: PayloadView|
        p.wf() && p.fits() && #[trigger] c.seals(key, packed(p)) ==> (r matches Ok(d) && d@ == p)
}

/// The content of a record: one labelled value, or a label with named
/// attributes.
#[derive(Debug, PartialEq, Eq)]
pub enum RecordData {
    Domain(String, Vec<(String, String)>),
    Plain(String, String),
}

impl View for RecordData {
    type V = PayloadView;

    open spec fn view(&self) -> PayloadView {
        match self {
            RecordData::Domain(l, attrs) => PayloadView::Domain(l@, attrs_view(attrs@)),
            RecordData::Plain(l, v) => PayloadView::Plain(l@, v@),
        }
    }
}

/// The attributes as text: `name: value` pairs joined by `, `.
pub open spec fn attrs_text(attrs: AttrsView) -> Seq<char>
    decreases attrs.len(),
{
    if attrs.len() == 0 {
        Seq::empty()
    } else if attrs.len() == 1 {
        attrs[0].0 + seq![':', ' '] + attrs[0].1
    } else {
        attrs_text(attrs.drop_last()) + seq![',', ' '] + attrs.last().0 + seq![':', ' '] + attrs.last().1
    }
}

/// How a payload reads: `label: value`, with the value on its own lines
/// when it spans several; `label: { name: value, ... }` for attributes.
pub open spec fn payload_text(p: PayloadView) -> Seq<char> {
    match p {
        PayloadView::Plain(l, v) => if v.contains('\n') {
            l + seq![':', '\n'] + v
        } else {
            l + seq![':', ' '] + v
        },
        PayloadView::Domain(l, attrs) => l + seq![':', ' ', '{', ' '] + attrs_text(attrs) + seq![' ', '}'],
    }
}

/// Whether the text holds a line break.
fn has_newline(text: &str) -> (r: bool)
    ensures
        r == text@.contains('\n'),
{
    let n = text.unicode_len();
    let mut i: usize = 0;
    while i < n
        invariant
            n == text@.len(),
            i <= n,
            forall|j: int| 0 <= j < i ==> text@[j] != '\n',
        decreases n - i,
    {
        if text.get_char(i) == '\n' {
            return true;
        }
        i = i + 1;
    }
    false
}

/// With unique names, the place of a name is the one that `choose` finds.
proof fn lemma_unique_place(attrs: AttrsView, j: int, name: Seq<char>)
    requires
        keys_unique(attrs),
        0 <= j < attrs.len(),
        attrs[j].0 == name,
    ensures
        (choose|i: int| 0 <= i < attrs.len() && attrs[i].0 == name) == j,
{
    let i = choose|i: int| 0 <= i < attrs.len() && attrs[i].0 == name;
    if i != j {
        if i < j {
            assert(attrs[i].0 != attrs[j].0);
        } else {
            assert(attrs[j].0 != attrs[i].0);
        }
    }
}

impl RecordData {
    /// A labelled set of attributes, sorted by name. A name given twice
    /// keeps its last value, as a map built from the pairs would; the order
    /// the pairs come in does not matter.
    #[verifier::spinoff_prover]
    pub fn domain(label: &str, values: Vec<(String, String)>) -> (r: Self)
        ensures
            r@ == PayloadView::Domain(label@, collect_sorted(attrs_view(values@))),
            r@.wf(),
    {
        let ghost input = attrs_view(values@);
        let mut out: Vec<(String, String)> = Vec::new();
        let mut i: usize = 0;
        while i < values.len()
            invariant
                input == attrs_view(values@),
                i <= values@.len(),
                attrs_view(out@) == collect_sorted(input.take(i as int)),
                sorted_names(attrs_view(out@)),
            decreases values@.len() - i,
        {
            let name = values[i].0.clone();
            let value = values[i].1.clone();
            let ghost before = attrs_view(out@);
            assert(input.take(i + 1).drop_last() =~= input.take(i as int));
            assert(input.take(i + 1).last() == (name@, value@));
            let mut p: usize = 0;
            while p < out.len() && name_less(out[p].0.as_str(), name.as_str())
                invariant
                    before == attrs_view(out@),
                    p <= out@.len(),
                    forall|q: int| 0 <= q < p ==> name_lt(#[trigger] before[q].0, name@),
                decreases out@.len() - p,
            {
                p = p + 1;
            }
            proof {
                assert forall|q: int| p <= q < before.len() implies !name_lt(#[trigger] before[q].0, name@) by {
                    if q > p && name_lt(before[q].0, name@) {
                        assert(name_lt(before[p as int].0, before[q].0));
                        lemma_name_order(before[p as int].0, before[q].0, name@);
                    }
                }
                lemma_rank_prefix(before, name@, p as int);
                lemma_sorted_unique(before);
            }
            if p < out.len() && out[p].0 == name {
                proof {
                    lemma_unique_place(before, p as int, name@);
                    assert(before[p as int].0 == name@);
                    assert(exists|q: int| 0 <= q < before.len() && before[q].0 == name@);
                }
                out.set(p, (name, value));
                assert(attrs_view(out@) =~= put_sorted(before, name@, value@));
            } else {
                proof {
                    assert forall|q: int| 0 <= q < before.len() implies before[q].0 != name@ by {
                        if q < p {
                            lemma_name_order(before[q].0, name@, name@);
                        } else if q > p {
                            assert(name_lt(before[p as int].0, before[q].0));
                            if before[q].0 == name@ {
                                assert(name_lt(before[p as int].0, name@));
                            }
                        }
                    }
                    assert forall|q: int| p <= q < before.len() implies name_lt(name@, #[trigger] before[q].0) by {
                        lemma_name_order(name@, before[q].0, name@);
                    }
                    assert(!(exists|q: int| 0 <= q < before.len() && before[q].0 == name@));
                    assert(rank(before, name@) == p);
                }
                out.insert(p, (name, value));
                assert(attrs_view(out@) =~= put_sorted(before, name@, value@));
                proof {
                    let a = attrs_view(out@);
                    assert forall|x: int, y: int| 0 <= x < y < a.len() implies #[trigger] name_lt(a[x].0, a[y].0) by {
                        if y < p {
                            assert(a[x] == before[x] && a[y] == before[y]);
                        } else if y == p {
                            assert(a[x] == before[x]);
                        } else if x < p {
                            assert(a[x] == before[x] && a[y] == before[y - 1]);
                            assert(name_lt(before[x].0, name@));
                            lemma_name_order(before[x].0, name@, before[y - 1].0);
                        } else if x == p {
                            assert(a[y] == before[y - 1]);
                        } else {
                            assert(a[x] == before[x - 1] && a[y] == before[y - 1]);
                        }
                    }
                }
            }
            i = i + 1;
        }
        assert(input.take(i as int) =~= input);
        RecordData::Domain(label.to_string(), out)
    }

    /// A single labelled value.
    pub fn plain(label: &str, value: &str) -> (r: Self)
        ensures
            r@ == PayloadView::Plain(label@, value@),
    {
        RecordData::Plain(label.to_string(), value.to_string())
    }

    /// The label of the payload, its key inside a lot.
    pub fn label(&self) -> (r: &str)
        ensures
            r@ == self@.label(),
    {
        match self {
            RecordData::Domain(l, _) => l.as_str(),
            RecordData::Plain(l, _) => l.as_str(),
        }
    }

    /// The payload as a person reads it.
    pub fn to_text(&self) -> (r: String)
        ensures
            r@ == payload_text(self@),
    {
        match self {
            RecordData::Plain(l, v) => {
                let mut text = l.clone();
                if has_newline(v.as_str()) {
                    proof {
                        reveal_strlit(":\n");
                    }
                    text.append(":\n");
                } else {
                    proof {
                        reveal_strlit(": ");
                    }
                    text.append(": ");
                }
                text.append(v.as_str());
                text
            },
            RecordData::Domain(l, attrs) => {
                proof {
                    reveal_strlit(": { ");
                    reveal_strlit(": ");
                    reveal_strlit(", ");
                    reveal_strlit(" }");
                }
                let ghost all = attrs_view(attrs@);
                let mut text = l.clone();
                text.append(": { ");
                let ghost head = text@;
                let mut i: usize = 0;
                while i < attrs.len()
                    invariant
                        all == attrs_view(attrs@),
                        i <= attrs@.len(),
                        text@ == head + attrs_text(all.take(i as int)),
                        ": "@ == seq![':', ' '],
                        ", "@ == seq![',', ' '],
                    decreases attrs@.len() - i,
                {
                    if i > 0 {
                        text.append(", ");
                    }
                    text.append(attrs[i].0.as_str());
                    text.append(": ");
                    text.append(attrs[i].1.as_str());
                    proof {
                        let t = all.take(i + 1);
                        assert(t.drop_last() =~= all.take(i as int));
                        assert(t.last() == (attrs@[i as int].0@, attrs@[i as int].1@));
                        if i == 0 {
                            assert(all.take(0) =~= Seq::<(Seq<char>, Seq<char>)>::empty());
                        }
                    }
                    i = i + 1;
                    assert(text@ =~= head + attrs_text(all.take(i as int)));
                }
                assert(all.take(i as int) =~= all);
                text.append(" }");
                text
            },
        }
    }

    /// The binary encoding of the payload.
    pub fn encode(&self) -> (r: Vec<u8>)
        ensures
            r@ == encode_view(self@),
            self@.fits(),
    {
        let mut out: Vec<u8> = Vec::new();
        match self {
            RecordData::Domain(l, attrs) => {
                out.push(DOMAIN_TAG);
                write_field(&mut out, l.as_str());
                write_u64(&mut out, attrs.len() as u64);
                write_attrs(&mut out, attrs);
            },
            RecordData::Plain(l, v) => {
                out.push(PLAIN_TAG);
                write_field(&mut out, l.as_str());
                write_field(&mut out, v.as_str());
            },
        }
        assert(out@ =~= encode_view(self@));
        out
    }

    /// Reads a payload from its binary encoding.
    pub fn decode(buf: &[u8]) -> (r: Result<Self, Error>)
        ensures
            match r {
                Ok(d) => decode_view(buf@) == Some(d@) && d@.wf(),
                Err(e) => decode_view(buf@) is None && e == Error::Pipeline(Stage::Decoding),
            },
    {
        let fail = Err(Error::Pipeline(Stage::Decoding));
        if buf.len() == 0 {
            return fail;
        }
        if buf[0] == PLAIN_TAG {
            let (label, p1) = match read_text(buf, 1) {
                Some(x) => x,
                None => return fail,
            };
            let (value, p2) = match read_text(buf, p1) {
                Some(x) => x,
                None => return fail,
            };
            if p2 != buf.len() {
                return fail;
            }
            Ok(RecordData::Plain(label, value))
        } else if buf[0] == DOMAIN_TAG {
            let (label, p1) = match read_text(buf, 1) {
                Some(x) => x,
                None => return fail,
            };
            if buf.len() - p1 < 8 {
                return fail;
            }
            let count = read_u64(buf, p1);
            let (attrs, p3) = match read_attr_list(buf, p1 + 8, count) {
                Some(x) => x,
                None => return fail,
            };
            if p3 != buf.len() || !attr_names_sorted(&attrs) {
                return fail;
            }
            Ok(RecordData::Domain(label, attrs))
        } else {
            fail
        }
    }

    /// The encoded payload, compressed with Snappy's frame format.
    pub fn compress(&self) -> (r: Result<Vec<u8>, Error>)
        ensures
            compress_outcome(self@, r),
    {
        let encoded = self.encode();
        match snap_compress(encoded.as_slice()) {
            Some(c) => Ok(c),
            None => Err(Error::Pipeline(Stage::Compression)),
        }
    }

    /// Decompresses and decodes a payload.
    pub fn decompress(buf: &[u8]) -> (r: Result<Self, Error>)
        ensures
            decompress_outcome(buf@, r),
    {
        let raw = snap_decompress(buf);
        proof {
            assert forall|p: PayloadView|
                p.wf() && p.fits() && buf@ == #[trigger] packed(p) implies raw matches Some(v) && v@
                == encode_view(p) by {
                assert(unframes_back(raw, buf@, encode_view(p)));
            }
        }
        let decoded = match raw {
            Some(d) => d,
            None => return Err(Error::Pipeline(Stage::Decompression)),
        };
        let r = Self::decode(decoded.as_slice());
        proof {
            assert forall|p: PayloadView|
                p.wf() && p.fits() && buf@ == #[trigger] packed(p) implies r matches Ok(d) && d@
                == p by {
                lemma_decode_encode(p);
            }
        }
        r
    }

    /// Seals the compressed payload under a lot key.
    ///
    /// Only a payload with unique attribute names is sealed: nothing else
    /// would decode again.
    pub fn encrypt(&self, key: &Key<LotTag>) -> (r: Result<Encrypted, Error>)
        requires
            key.wf(),
            self@.wf(),
        ensures
            seal_outcome(key@, self@, r),
    {
        let compressed = match self.compress() {
            Ok(c) => c,
            Err(_) => return Err(Error::Pipeline(Stage::Compression)),
        };
        if compressed.len() as u64 > PLAINTEXT_MAX {
            return Err(Error::Pipeline(Stage::Encryption));
        }
        match key.encrypt(compressed.as_slice()) {
            Ok(c) => Ok(c),
            Err(Error::EntropyUnavailable) => Err(Error::EntropyUnavailable),
            Err(_) => Err(Error::Pipeline(Stage::Encryption)),
        }
    }

    /// Opens a sealed payload with a lot key: decrypt, decompress, decode.
    pub fn decrypt(buf: &Encrypted, key: &Key<LotTag>) -> (r: Result<Self, Error>)
        requires
            key.wf(),
        ensures
            open_outcome(key@, *buf, r),
    {
        let opened = key.decrypt(buf);
        let plain = match opened {
            Ok(p) => p,
            Err(_) => return Err(Error::Pipeline(Stage::Decryption)),
        };
        let r = Self::decompress(plain.as_slice());
        proof {
            assert forall|p: PayloadView|
                p.wf() && p.fits() && #[trigger] buf.seals(key@, packed(p)) implies r matches Ok(d)
                && d@ == p by {
                assert(plain@ == packed(p));
            }
        }
        r
    }
}

/// Compressing and then decompressing a well-formed payload gives it back.
pub proof fn lemma_decompress_compress(
    p: PayloadView,
    packed_bytes: Result<Vec<u8>, Error>,
    unpacked: Result<RecordData, Error>,
)
    requires
        p.wf(),
        compress_outcome(p, packed_bytes),
        packed_bytes is Ok,
        decompress_outcome(packed_bytes->Ok_0@, unpacked),
    ensures
        unpacked matches Ok(d) && d@ == p,
{
    assert(packed_bytes->Ok_0@ == packed(p));
}

/// Decrypting what `RecordData::encrypt` sealed under the same lot key gives
/// the payload back.
pub proof fn lemma_payload_round_trip(
    key: Seq<u8>,
    p: PayloadView,
    sealed: Result<Encrypted, Error>,
    opened: Result<RecordData, Error>,
)
    requires
        p.wf(),
        seal_outcome(key, p, sealed),
        sealed is Ok,
        open_outcome(key, sealed->Ok_0, opened),
    ensures
        opened matches Ok(d) && d@ == p,
{
    assert(sealed->Ok_0.seals(key, packed(p)));
}

/// A record, as values: its lot, its identifier and its payload.
pub struct RecordView {
    pub lot: u128,
    pub id: u128,
    pub data: PayloadView,
}

/// No two records share an identifier.
pub open spec fn ids_distinct(records: Seq<RecordView>) -> bool {
    forall|i: int, j: int| 0 <= i < records.len() && 0 <= j < records.len() && i != j ==> records[i].id != records[j].id
}

/// A stored row is the record, sealed under `key`.
pub open spec fn row_holds(row: RecordRowView, key: Seq<u8>, rec: RecordView) -> bool {
    &&& row.id == uuid_text(rec.id)
    &&& rec.data.fits()
    &&& uuid_parse(row.id) == Some(rec.id)
    &&& uuid_parse(row.lot_id) == Some(rec.lot)
    &&& sealed(key, row.nonce, row.data, packed(rec.data))
}

/// The store holds a row that is the record, sealed under `key`.
pub open spec fn record_stored(store: StoreView, key: Seq<u8>, rec: RecordView) -> bool {
    exists|k: int| 0 <= k < store.records.len() && #[trigger] row_holds(store.records[k], key, rec)
}

/// A stored row opens, under `key`, to the record of lot `lot`.
pub open spec fn row_opens(row: RecordRowView, key: Seq<u8>, lot: u128, rec: RecordView) -> bool {
    &&& uuid_parse(row.id) == Some(rec.id)
    &&& rec.lot == lot
    &&& open_payload_bytes(key, row.nonce, row.data) == Some(rec.data)
    &&& rec.data.wf()
    &&& forall|p: PayloadView|
        p.wf() && p.fits() && #[trigger] sealed(key, row.nonce, row.data, packed(p)) ==> rec.data == p
}

/// A stored row's identifier parses, and its payload opens under `key`: it
/// is known to, or the row holds a well-formed payload sealed under `key`.
pub open spec fn row_readable(row: RecordRowView, key: Seq<u8>) -> bool {
    &&& uuid_parse(row.id) is Some
    &&& (open_payload_bytes(key, row.nonce, row.data) is Some || exists|p: PayloadView|
        p.wf() && p.fits() && #[trigger] sealed(key, row.nonce, row.data, packed(p)))
}

/// Every row is readable under `key`, and no two identifiers parse to the
/// same bits.
pub open spec fn rows_readable(rows: Seq<RecordRowView>, key: Seq<u8>) -> bool {
    &&& forall|i: int| 0 <= i < rows.len() ==> #[trigger] row_readable(rows[i], key)
    &&& forall|i: int, j: int|
        0 <= i < rows.len() && 0 <= j < rows.len() && i != j ==> uuid_parse(#[trigger] rows[i].id)
            != uuid_parse(#[trigger] rows[j].id)
}

/// Upserting the row of another record keeps a stored record.
pub proof fn lemma_record_stored_kept(
    store: StoreView,
    key: Seq<u8>,
    rec: RecordView,
    row: RecordRowView,
    other: u128,
)
    requires
        record_stored(store, key, rec),
        uuid_parse(row.id) == Some(other),
        other != rec.id,
    ensures
        record_stored(StoreView { records: upserted(store.records, row, same_record()), ..store }, key, rec),
{
    let k = choose|k: int| 0 <= k < store.records.len() && #[trigger] row_holds(store.records[k], key, rec);
    let out = upserted(store.records, row, same_record());
    let after = StoreView { records: out, ..store };
    assert(after.records == out);
    if exists|i: int| 0 <= i < store.records.len() && same_record()(store.records[i], row) {
        let j = choose|i: int| 0 <= i < store.records.len() && same_record()(store.records[i], row);
        assert(j != k);
        assert(out[k] == store.records[k]);
        assert(row_holds(after.records[k], key, rec));
    } else {
        assert(out[k] == store.records[k]);
        assert(row_holds(after.records[k], key, rec));
    }
}

/// A record: a payload, its identifier and the identifier of its lot.
#[derive(Debug, PartialEq, Eq)]
pub struct Record {
    lot: Uuid<LotTag>,
    uuid: Uuid<RecordTag>,
    data: RecordData,
}

impl View for Record {
    type V = RecordView;

    closed spec fn view(&self) -> RecordView {
        RecordView { lot: self.lot@, id: self.uuid@, data: self.data@ }
    }
}

impl Record {
    /// A new record of the lot, with a fresh identifier.
    pub fn new(lot: &Lot, data: RecordData) -> (r: Result<Self, Error>)
        requires
            data@.wf(),
        ensures
            r matches Ok(rec) ==> rec@.lot == lot.spec_id() && rec@.data == data@,
            r matches Err(e) ==> e == Error::EntropyUnavailable,
    {
        let uuid = match Uuid::<RecordTag>::now() {
            Ok(u) => u,
            Err(e) => return Err(e),
        };
        Ok(Record { lot: lot.uuid().duplicate(), uuid, data })
    }

    /// A record made of its parts.
    pub fn from_parts(lot: Uuid<LotTag>, uuid: Uuid<RecordTag>, data: RecordData) -> (r: Self)
        requires
            data@.wf(),
        ensures
            r@ == (RecordView { lot: lot@, id: uuid@, data: data@ }),
    {
        Record { lot, uuid, data }
    }

    pub fn uuid(&self) -> (r: &Uuid<RecordTag>)
        ensures
            r@ == self@.id,
    {
        &self.uuid
    }

    pub fn lot(&self) -> (r: &Uuid<LotTag>)
        ensures
            r@ == self@.lot,
    {
        &self.lot
    }

    pub fn data(&self) -> (r: &RecordData)
        ensures
            r@ == self@.data,
    {
        &self.data
    }

    /// Seals the payload under the lot key.
    pub fn encrypt(&self, key: &Key<LotTag>) -> (r: Result<Encrypted, Error>)
        requires
            key.wf(),
            self@.data.wf(),
        ensures
            seal_outcome(key@, self@.data, r),
    {
        self.data.encrypt(key)
    }

    /// The record as a person reads it: its payload's text.
    pub fn to_text(&self) -> (r: String)
        ensures
            r@ == payload_text(self@.data),
    {
        self.data.to_text()
    }

    /// The row that stores this record with its sealed payload.
    pub fn row_from_sealed(&self, sealed: Encrypted) -> (r: RecordRow)
        ensures
            r@.id == uuid_text(self@.id),
            r@.lot_id == uuid_text(self@.lot),
            r@.data == sealed.data@,
            r@.nonce == sealed.nonce@,
            uuid_parse(r@.id) == Some(self@.id),
            uuid_parse(r@.lot_id) == Some(self@.lot),
    {
        RecordRow {
            lot_id: self.lot.to_text(),
            id: self.uuid.to_text(),
            data: sealed.data,
            nonce: sealed.nonce,
        }
    }

    /// The row that stores this record, sealed under `key`.
    pub fn to_row(&self, key: &Key<LotTag>) -> (r: Result<RecordRow, Error>)
        requires
            key.wf(),
            self@.data.wf(),
        ensures
            r matches Ok(row) ==> row_holds(row@, key@, self@),
            r matches Err(e) ==> e == Error::Pipeline(Stage::Encryption) || e == Error::EntropyUnavailable,
    {
        let sealed = match self.data.encrypt(key) {
            Ok(c) => c,
            Err(e) => return Err(e),
        };
        Ok(self.row_from_sealed(sealed))
    }

    /// Stores this record, sealed under the lot's current key.
    pub fn save(&self, store: &mut Store, lot: &Lot) -> (r: Result<Uuid<RecordTag>, Error>)
        requires
            old(store)@.wf(),
            lot.wf(),
            self@.data.wf(),
        ensures
            final(store)@.wf(),
            match r {
                Ok(id) => id@ == self@.id && exists|row: RecordRowView|
                    #[trigger] row_holds(row, lot.spec_key(), self@) && final(store)@ == (StoreView {
                        records: upserted(old(store)@.records, row, same_record()),
                        ..old(store)@
                    }),
                Err(e) => final(store)@ == old(store)@ && (e == Error::Pipeline(Stage::Encryption) || e
                    == Error::EntropyUnavailable),
            },
    {
        let row = match self.to_row(lot.key()) {
            Ok(row) => row,
            Err(e) => return Err(e),
        };
        let ghost v = row@;
        store.upsert_record(row);
        assert(row_holds(v, lot.spec_key(), self@));
        Ok(self.uuid.duplicate())
    }

    /// Stores this record and appends it to its lot.
    ///
    /// A record whose identifier the lot already holds is refused.
    pub fn insert(self, store: &mut Store, lot: &mut Lot) -> (r: Result<Uuid<RecordTag>, Error>)
        requires
            old(store)@.wf(),
            old(lot).wf(),
            self@.lot == old(lot).spec_id(),
            self@.data.wf(),
        ensures
            final(store)@.wf(),
            final(lot).wf(),
            final(lot).spec_id() == old(lot).spec_id(),
            final(lot).spec_name() == old(lot).spec_name(),
            final(lot).spec_key() == old(lot).spec_key(),
            match r {
                Ok(id) => id@ == self@.id && final(lot).spec_records() == old(lot).spec_records().push(
                    self@,
                ) && record_stored(final(store)@, old(lot).spec_key(), self@) && exists|row: RecordRowView|
                    #[trigger] row_holds(row, old(lot).spec_key(), self@) && final(store)@ == (StoreView {
                        records: upserted(old(store)@.records, row, same_record()),
                        ..old(store)@
                    }),
                Err(e) => final(lot).spec_records() == old(lot).spec_records() && final(store)@ == old(
                    store,
                )@ && (e == Error::AlreadyExists || e == Error::Pipeline(Stage::Encryption) || e
                    == Error::EntropyUnavailable),
            },
            r == Err::<Uuid<RecordTag>, Error>(Error::AlreadyExists) <==> exists|i: int|
                0 <= i < old(lot).spec_records().len() && old(lot).spec_records()[i].id == self@.id,
    {
        if lot.holds_id(self.uuid.as_u128()) {
            return Err(Error::AlreadyExists);
        }
        let id = match self.save(store, lot) {
            Ok(id) => id,
            Err(e) => return Err(e),
        };
        proof {
            let row = choose|row: RecordRowView|
                #[trigger] row_holds(row, lot.spec_key(), self@) && store@ == (StoreView {
                    records: upserted(old(store)@.records, row, same_record()),
                    ..old(store)@
                });
            crate::store::lemma_upserted_contains(old(store)@.records, row, same_record());
        }
        lot.push_record(self);
        Ok(id)
    }

    /// Reads back every record of a lot, opening each under the lot key.
    ///
    /// A row that does not open is an error for the whole read: no record
    /// is left out.
    pub fn load_all(store: &Store, lot: &Lot) -> (r: Result<Vec<Record>, Error>)
        requires
            lot.wf(),
        ensures
            match r {
                Ok(recs) => {
                    let rows = records_of(store@.records, uuid_text(lot.spec_id()));
                    &&& recs@.len() == rows.len()
                    &&& forall|i: int| 0 <= i < rows.len() ==> #[trigger] row_opens(
                        rows[i],
                        lot.spec_key(),
                        lot.spec_id(),
                        recs@[i]@,
                    )
                    &&& ids_distinct(recs@.map_values(|x: Record| x@))
                },
                Err(e) => e == Error::MalformedIdentifier || e is Pipeline,
            },
            rows_readable(records_of(store@.records, uuid_text(lot.spec_id())), lot.spec_key())
                ==> r is Ok,
    {
        let lot_id = lot.uuid().to_text();
        let rows = store.select_records_by_lot(lot_id.as_str());
        let ghost expected = records_of(store@.records, lot_id@);
        let ghost key = lot.spec_key();
        let mut out: Vec<Record> = Vec::new();
        let mut i: usize = 0;
        while i < rows.len()
            invariant
                lot.wf(),
                key == lot.spec_key(),
                expected == records_of(store@.records, uuid_text(lot.spec_id())),
                rows@.map_values(|x: &RecordRow| x@) == expected,
                i <= rows@.len(),
                out@.len() == i,
                forall|j: int| 0 <= j < i ==> #[trigger] row_opens(
                    expected[j],
                    lot.spec_key(),
                    lot.spec_id(),
                    out@[j]@,
                ),
                ids_distinct(out@.map_values(|x: Record| x@)),
            decreases rows@.len() - i,
        {
            let row = rows[i];
            assert(row@ == expected[i as int]);
            let cipher = Encrypted { data: copy_bytes(&row.data), nonce: copy_bytes(&row.nonce) };
            let data = match RecordData::decrypt(&cipher, lot.key()) {
                Ok(d) => d,
                Err(e) => {
                    proof {
                        if rows_readable(expected, key) {
                            assert(row_readable(expected[i as int], key));
                            if !(open_payload_bytes(key, row@.nonce, row@.data) is Some) {
                                let p = choose|p: PayloadView|
                                    p.wf() && p.fits() && #[trigger] sealed(key, row@.nonce, row@.data, packed(p));
                                assert(cipher.seals(key, packed(p)));
                            }
                        }
                    }
                    return Err(e);
                },
            };
            proof {
                assert forall|p: PayloadView|
                    p.wf() && p.fits() && #[trigger] sealed(key, row@.nonce, row@.data, packed(p)) implies data@
                    == p by {
                    assert(cipher.seals(key, packed(p)));
                }
            }
            let uuid = match Uuid::<RecordTag>::parse(row.id.as_str()) {
                Ok(u) => u,
                Err(e) => {
                    proof {
                        if rows_readable(expected, key) {
                            assert(row_readable(expected[i as int], key));
                        }
                    }
                    return Err(e);
                },
            };
            if holds_record_id(&out, uuid.as_u128()) {
                proof {
                    if rows_readable(expected, key) {
                        let j = choose|j: int| 0 <= j < out@.len() && out@[j]@.id == uuid@;
                        assert(row_opens(expected[j], key, lot.spec_id(), out@[j]@));
                        assert(uuid_parse(expected[j].id) == uuid_parse(expected[i as int].id));
                    }
                }
                return Err(Error::MalformedIdentifier);
            }
            let ghost before = out@.map_values(|x: Record| x@);
            let rec = Record::from_parts(lot.uuid().duplicate(), uuid, data);
            out.push(rec);
            assert(out@.map_values(|x: Record| x@) =~= before.push(rec@));
            i = i + 1;
        }
        Ok(out)
    }
}

/// Whether some record of the list has this identifier.
pub fn holds_record_id(records: &Vec<Record>, id: u128) -> (r: bool)
    ensures
        r == exists|i: int| 0 <= i < records@.len() && records@[i]@.id == id,
{
    let mut i: usize = 0;
    while i < records.len()
        invariant
            i <= records@.len(),
            forall|j: int| 0 <= j < i ==> records@[j]@.id != id,
        decreases records@.len() - i,
    {
        if records[i].uuid().as_u128() == id {
            return true;
        }
        i = i + 1;
    }
    false
}

} // verus!
