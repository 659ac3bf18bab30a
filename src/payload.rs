use crate::error::{Error, Stage};
use vstd::prelude::*;
use vstd::utf8::{decode_utf8, encode_utf8, valid_utf8};

verus! {

broadcast use {vstd::utf8::encode_utf8_valid_utf8, vstd::utf8::encode_utf8_decode_utf8};

/// First byte of an encoded `Domain` payload.
pub const DOMAIN_TAG: u8 = 0;

/// First byte of an encoded `Plain` payload.
pub const PLAIN_TAG: u8 = 1;

/// Attribute names and values, as text.
pub type AttrsView = Seq<(Seq<char>, Seq<char>)>;

/// The content of a record, as mathematical values.
pub enum PayloadView {
    Domain(Seq<char>, AttrsView),
    Plain(Seq<char>, Seq<char>),
}

/// `a` sorts before `b` in byte order, looking from position `i` on.
pub open spec fn bytes_lt_from(a: Seq<u8>, b: Seq<u8>, i: int) -> bool
    decreases a.len() - i,
{
    if i >= a.len() {
        i < b.len()
    } else if i >= b.len() {
        false
    } else if a[i] != b[i] {
        a[i] < b[i]
    } else {
        bytes_lt_from(a, b, i + 1)
    }
}

/// One attribute name sorts before another: byte order of their UTF-8 forms.
pub open spec fn name_lt(x: Seq<char>, y: Seq<char>) -> bool {
    bytes_lt_from(encode_utf8(x), encode_utf8(y), 0)
}

/// The byte order is a strict order.
pub proof fn lemma_bytes_lt_strict(a: Seq<u8>, b: Seq<u8>, i: int)
    requires
        0 <= i,
    ensures
        !bytes_lt_from(a, a, i),
        bytes_lt_from(a, b, i) ==> !bytes_lt_from(b, a, i),
    decreases a.len() - i,
{
    if i < a.len() && i < b.len() && a[i] == b[i] {
        lemma_bytes_lt_strict(a, b, i + 1);
    } else if i < a.len() {
        lemma_bytes_lt_strict(a, a, i + 1);
    }
}

/// The byte order is transitive.
pub proof fn lemma_bytes_lt_transitive(a: Seq<u8>, b: Seq<u8>, c: Seq<u8>, i: int)
    requires
        0 <= i,
        bytes_lt_from(a, b, i),
        bytes_lt_from(b, c, i),
    ensures
        bytes_lt_from(a, c, i),
    decreases a.len() - i,
{
    if i < a.len() && i < b.len() && i < c.len() && a[i] == b[i] && b[i] == c[i] {
        lemma_bytes_lt_transitive(a, b, c, i + 1);
    }
}

/// Two different byte sequences are ordered one way or the other.
pub proof fn lemma_bytes_lt_total(a: Seq<u8>, b: Seq<u8>, i: int)
    requires
        0 <= i <= a.len(),
        i <= b.len(),
        a.subrange(i, a.len() as int) != b.subrange(i, b.len() as int),
    ensures
        bytes_lt_from(a, b, i) || bytes_lt_from(b, a, i),
    decreases a.len() - i,
{
    if i < a.len() && i < b.len() && a[i] == b[i] {
        if a.subrange(i + 1, a.len() as int) == b.subrange(i + 1, b.len() as int) {
            assert(a.subrange(i, a.len() as int) =~= seq![a[i]] + a.subrange(i + 1, a.len() as int));
            assert(b.subrange(i, b.len() as int) =~= seq![b[i]] + b.subrange(i + 1, b.len() as int));
        }
        lemma_bytes_lt_total(a, b, i + 1);
    } else if i == a.len() && i == b.len() {
        assert(a.subrange(i, a.len() as int) =~= b.subrange(i, b.len() as int));
    }
}

/// The name order is a strict total order.
pub proof fn lemma_name_order(x: Seq<char>, y: Seq<char>, z: Seq<char>)
    ensures
        !name_lt(x, x),
        name_lt(x, y) ==> !name_lt(y, x),
        name_lt(x, y) && name_lt(y, z) ==> name_lt(x, z),
        x != y ==> name_lt(x, y) || name_lt(y, x),
{
    let (a, b, c) = (encode_utf8(x), encode_utf8(y), encode_utf8(z));
    lemma_bytes_lt_strict(a, b, 0);
    if name_lt(x, y) && name_lt(y, z) {
        lemma_bytes_lt_transitive(a, b, c, 0);
    }
    if x != y {
        assert(decode_utf8(a) == x && decode_utf8(b) == y);
        assert(a.subrange(0, a.len() as int) =~= a);
        assert(b.subrange(0, b.len() as int) =~= b);
        lemma_bytes_lt_total(a, b, 0);
    }
}

/// Attribute names are in strictly increasing order.
pub open spec fn sorted_names(attrs: AttrsView) -> bool {
    forall|i: int, j: int| 0 <= i < j < attrs.len() ==> #[trigger] name_lt(attrs[i].0, attrs[j].0)
}

/// No two attributes share a name.
pub open spec fn keys_unique(attrs: AttrsView) -> bool {
    forall|i: int, j: int| 0 <= i < j < attrs.len() ==> attrs[i].0 != attrs[j].0
}

impl PayloadView {
    /// The label under which a lot looks the payload up.
    pub open spec fn label(self) -> Seq<char> {
        match self {
            PayloadView::Domain(l, _) => l,
            PayloadView::Plain(l, _) => l,
        }
    }

    /// Attribute names are in increasing order, so unique, and a payload
    /// has one form whatever order its attributes were given in.
    pub open spec fn wf(self) -> bool {
        match self {
            PayloadView::Domain(_, attrs) => sorted_names(attrs),
            PayloadView::Plain(_, _) => true,
        }
    }

    /// Every length that the encoding writes fits its 64-bit field.
    pub open spec fn fits(self) -> bool {
        match self {
            PayloadView::Domain(l, attrs) => {
                &&& fits_u64(l)
                &&& attrs.len() <= u64::MAX
                &&& attrs_fit(attrs)
            },
            PayloadView::Plain(l, v) => fits_u64(l) && fits_u64(v),
        }
    }
}

/// Every attribute name and value fits its 64-bit length field.
pub open spec fn attrs_fit(attrs: AttrsView) -> bool {
    forall|i: int| 0 <= i < attrs.len() ==> #[trigger] pair_fits(attrs[i])
}

/// An attribute's name and value fit their 64-bit length fields.
pub open spec fn pair_fits(pair: (Seq<char>, Seq<char>)) -> bool {
    fits_u64(pair.0) && fits_u64(pair.1)
}

/// The UTF-8 form of a text has a length that fits in 64 bits.
pub open spec fn fits_u64(s: Seq<char>) -> bool {
    encode_utf8(s).len() <= u64::MAX
}

// ---------------------------------------------------------------------------
// The binary format.
//
// A payload is one tag byte followed by its fields. A text field is its UTF-8
// length as 8 little-endian bytes, then its UTF-8 bytes. A `Plain` payload is
// label and value; a `Domain` payload is the label, the number of attributes
// as 8 little-endian bytes, then name and value of each attribute in order.
// ---------------------------------------------------------------------------

/// `n` as 8 little-endian bytes.
pub open spec fn u64_le(n: u64) -> Seq<u8> {
    seq![
        (n & 0xff) as u8,
        ((n >> 8u64) & 0xff) as u8,
        ((n >> 16u64) & 0xff) as u8,
        ((n >> 24u64) & 0xff) as u8,
        ((n >> 32u64) & 0xff) as u8,
        ((n >> 40u64) & 0xff) as u8,
        ((n >> 48u64) & 0xff) as u8,
        ((n >> 56u64) & 0xff) as u8,
    ]
}

/// The number that 8 little-endian bytes, starting at `pos`, stand for.
pub open spec fn le_u64_at(b: Seq<u8>, pos: int) -> u64 {
    (b[pos] as u64) | ((b[pos + 1] as u64) << 8u64) | ((b[pos + 2] as u64) << 16u64) | ((b[pos
        + 3] as u64) << 24u64) | ((b[pos + 4] as u64) << 32u64) | ((b[pos + 5] as u64) << 40u64)
        | ((b[pos + 6] as u64) << 48u64) | ((b[pos + 7] as u64) << 56u64)
}

/// A text field: length, then UTF-8 bytes.
pub open spec fn field_bytes(s: Seq<char>) -> Seq<u8> {
    u64_le(encode_utf8(s).len() as u64) + encode_utf8(s)
}

/// The attributes, each as name field then value field.
pub open spec fn attrs_bytes(attrs: AttrsView) -> Seq<u8>
    decreases attrs.len(),
{
    if attrs.len() == 0 {
        Seq::empty()
    } else {
        attrs_bytes(attrs.drop_last()) + field_bytes(attrs.last().0) + field_bytes(attrs.last().1)
    }
}

/// The encoding of a payload.
pub open spec fn encode_view(p: PayloadView) -> Seq<u8> {
    match p {
        PayloadView::Domain(l, attrs) => seq![DOMAIN_TAG] + field_bytes(l) + u64_le(
            attrs.len() as u64,
        ) + attrs_bytes(attrs),
        PayloadView::Plain(l, v) => seq![PLAIN_TAG] + field_bytes(l) + field_bytes(v),
    }
}

/// Reads a text field at `pos`: the text and the position after it.
pub open spec fn read_field(b: Seq<u8>, pos: int) -> Option<(Seq<char>, int)> {
    if 0 <= pos && pos + 8 <= b.len() {
        let n = le_u64_at(b, pos) as int;
        let start = pos + 8;
        if start + n <= b.len() && valid_utf8(b.subrange(start, start + n)) {
            Some((decode_utf8(b.subrange(start, start + n)), start + n))
        } else {
            None
        }
    } else {
        None
    }
}

/// Reads `count` attributes at `pos`: the attributes and the position after
/// them.
pub open spec fn read_attrs(b: Seq<u8>, pos: int, count: nat) -> Option<(AttrsView, int)>
    decreases count,
{
    if count == 0 {
        Some((Seq::empty(), pos))
    } else {
        match read_attrs(b, pos, (count - 1) as nat) {
            Some((prev, p1)) => match read_field(b, p1) {
                Some((k, p2)) => match read_field(b, p2) {
                    Some((v, p3)) => Some((prev.push((k, v)), p3)),
                    None => None,
                },
                None => None,
            },
            None => None,
        }
    }
}

/// Decodes a whole byte sequence into a payload; nothing when the bytes are
/// not exactly one encoded payload with attribute names in order.
pub open spec fn decode_view(b: Seq<u8>) -> Option<PayloadView> {
    if b.len() == 0 {
        None
    } else if b[0] == PLAIN_TAG {
        match read_field(b, 1) {
            Some((l, p1)) => match read_field(b, p1) {
                Some((v, p2)) => if p2 == b.len() {
                    Some(PayloadView::Plain(l, v))
                } else {
                    None
                },
                None => None,
            },
            None => None,
        }
    } else if b[0] == DOMAIN_TAG {
        match read_field(b, 1) {
            Some((l, p1)) => if p1 + 8 <= b.len() {
                match read_attrs(b, p1 + 8, le_u64_at(b, p1) as nat) {
                    Some((attrs, p3)) => if p3 == b.len() && sorted_names(attrs) {
                        Some(PayloadView::Domain(l, attrs))
                    } else {
                        None
                    },
                    None => None,
                }
            } else {
                None
            },
            None => None,
        }
    } else {
        None
    }
}

// ---------------------------------------------------------------------------
// The round trip.
// ---------------------------------------------------------------------------

/// Reading back the 8 bytes of `u64_le(n)` gives `n`.
pub proof fn lemma_le_round_trip(b: Seq<u8>, pos: int, n: u64)
    requires
        0 <= pos,
        pos + 8 <= b.len(),
        b.subrange(pos, pos + 8) == u64_le(n),
    ensures
        le_u64_at(b, pos) == n,
{
    assert(b[pos] == b.subrange(pos, pos + 8)[0]);
    assert(b[pos + 1] == b.subrange(pos, pos + 8)[1]);
    assert(b[pos + 2] == b.subrange(pos, pos + 8)[2]);
    assert(b[pos + 3] == b.subrange(pos, pos + 8)[3]);
    assert(b[pos + 4] == b.subrange(pos, pos + 8)[4]);
    assert(b[pos + 5] == b.subrange(pos, pos + 8)[5]);
    assert(b[pos + 6] == b.subrange(pos, pos + 8)[6]);
    assert(b[pos + 7] == b.subrange(pos, pos + 8)[7]);
    let b0 = b[pos];
    let b1 = b[pos + 1];
    let b2 = b[pos + 2];
    let b3 = b[pos + 3];
    let b4 = b[pos + 4];
    let b5 = b[pos + 5];
    let b6 = b[pos + 6];
    let b7 = b[pos + 7];
    assert(b0 == (n & 0xff) as u8 && b1 == ((n >> 8u64) & 0xff) as u8 && b2 == ((n >> 16u64)
        & 0xff) as u8 && b3 == ((n >> 24u64) & 0xff) as u8 && b4 == ((n >> 32u64) & 0xff) as u8
        && b5 == ((n >> 40u64) & 0xff) as u8 && b6 == ((n >> 48u64) & 0xff) as u8 && b7 == ((n
        >> 56u64) & 0xff) as u8 ==> (b0 as u64) | ((b1 as u64) << 8u64) | ((b2 as u64) << 16u64)
        | ((b3 as u64) << 24u64) | ((b4 as u64) << 32u64) | ((b5 as u64) << 40u64) | ((b6 as u64)
        << 48u64) | ((b7 as u64) << 56u64) == n) by (bit_vector);
}

/// A text field written at `pos` reads back as that text.
pub proof fn lemma_read_field(b: Seq<u8>, pos: int, s: Seq<char>)
    requires
        0 <= pos,
        fits_u64(s),
        pos + field_bytes(s).len() <= b.len(),
        b.subrange(pos, pos + field_bytes(s).len()) == field_bytes(s),
    ensures
        read_field(b, pos) == Some((s, pos + field_bytes(s).len())),
{
    let f = field_bytes(s);
    let n = encode_utf8(s).len();
    assert(b.subrange(pos, pos + 8) == f.subrange(0, 8));
    assert(f.subrange(0, 8) == u64_le(n as u64));
    lemma_le_round_trip(b, pos, n as u64);
    assert(b.subrange(pos + 8, pos + 8 + n) == f.subrange(8, 8 + n as int));
    assert(f.subrange(8, 8 + n as int) == encode_utf8(s));
}

/// Attributes written at `pos` read back as those attributes.
#[verifier::spinoff_prover]
pub proof fn lemma_read_attrs(b: Seq<u8>, pos: int, attrs: AttrsView)
    requires
        0 <= pos,
        attrs_fit(attrs),
        pos + attrs_bytes(attrs).len() <= b.len(),
        b.subrange(pos, pos + attrs_bytes(attrs).len()) == attrs_bytes(attrs),
    ensures
        read_attrs(b, pos, attrs.len()) == Some((attrs, pos + attrs_bytes(attrs).len())),
    decreases attrs.len(),
{
    if attrs.len() > 0 {
        let prev = attrs.drop_last();
        let (k, v) = attrs.last();
        let all = attrs_bytes(attrs);
        let pb = attrs_bytes(prev);
        let kb = field_bytes(k);
        let vb = field_bytes(v);
        assert(all == pb + kb + vb);
        assert forall|i: int| 0 <= i < prev.len() implies #[trigger] pair_fits(prev[i]) by {
            assert(prev[i] == attrs[i]);
        }
        assert(b.subrange(pos, pos + pb.len()) =~= all.subrange(0, pb.len() as int));
        assert(all.subrange(0, pb.len() as int) =~= pb);
        lemma_read_attrs(b, pos, prev);
        let p1 = pos + pb.len();
        assert(pair_fits(attrs[attrs.len() - 1]));
        assert(b.subrange(p1, p1 + kb.len()) =~= all.subrange(pb.len() as int, pb.len() + kb.len() as int));
        assert(all.subrange(pb.len() as int, pb.len() + kb.len() as int) =~= kb);
        lemma_read_field(b, p1, k);
        let p2 = p1 + kb.len();
        assert(b.subrange(p2, p2 + vb.len()) =~= all.subrange(
            pb.len() + kb.len() as int,
            pb.len() + kb.len() + vb.len() as int,
        ));
        assert(all.subrange(pb.len() + kb.len() as int, pb.len() + kb.len() + vb.len() as int) =~= vb);
        lemma_read_field(b, p2, v);
        assert(prev.push((k, v)) == attrs);
        assert((attrs.len() - 1) as nat == prev.len());
    } else {
        assert(attrs == Seq::<(Seq<char>, Seq<char>)>::empty());
    }
}

/// Decoding the encoding of a well-formed payload gives the payload back.
pub proof fn lemma_decode_encode(p: PayloadView)
    requires
        p.wf(),
        p.fits(),
    ensures
        decode_view(encode_view(p)) == Some(p),
{
    let b = encode_view(p);
    match p {
        PayloadView::Plain(l, v) => {
            let lb = field_bytes(l);
            let vb = field_bytes(v);
            assert(b == seq![PLAIN_TAG] + lb + vb);
            let p1: int = 1 + lb.len() as int;
            assert(b.subrange(1, p1) == lb);
            lemma_read_field(b, 1, l);
            assert(b.subrange(p1, p1 + vb.len()) == vb);
            lemma_read_field(b, p1, v);
        },
        PayloadView::Domain(l, attrs) => {
            let lb = field_bytes(l);
            let cb = u64_le(attrs.len() as u64);
            let ab = attrs_bytes(attrs);
            assert(b == seq![DOMAIN_TAG] + lb + cb + ab);
            let p1: int = 1 + lb.len() as int;
            assert(b.subrange(1, p1) == lb);
            lemma_read_field(b, 1, l);
            assert(b.subrange(p1, p1 + 8) == cb);
            lemma_le_round_trip(b, p1, attrs.len() as u64);
            assert(b.subrange(p1 + 8, p1 + 8 + ab.len()) == ab);
            lemma_read_attrs(b, p1 + 8, attrs);
        },
    }
}

/// Reading attributes fails for every count past the first that fails.
pub proof fn lemma_read_attrs_fails_on(b: Seq<u8>, pos: int, failed: nat, count: nat)
    requires
        failed <= count,
        read_attrs(b, pos, failed) is None,
    ensures
        read_attrs(b, pos, count) is None,
    decreases count - failed,
{
    if failed < count {
        lemma_read_attrs_fails_on(b, pos, failed, (count - 1) as nat);
    }
}

/// Attribute names and values of a vector of pairs, as text.
pub open spec fn attrs_view(attrs: Seq<(String, String)>) -> AttrsView {
    Seq::new(attrs.len(), |i: int| (attrs[i].0@, attrs[i].1@))
}

/// Relies on `std::str::from_utf8` (std): it accepts exactly the valid UTF-8
/// byte sequences, and gives the text that they encode.
#[verifier::external_body]
fn utf8_text(bytes: &[u8]) -> (r: Option<String>)
    ensures
        r is Some <==> valid_utf8(bytes@),
        r matches Some(s) ==> s@ == decode_utf8(bytes@),
{
    std::str::from_utf8(bytes).ok().map(|s| s.to_string())
}

/// Appends `n` as 8 little-endian bytes.
pub fn write_u64(out: &mut Vec<u8>, n: u64)
    ensures
        final(out)@ == old(out)@ + u64_le(n),
{
    out.push((n & 0xff) as u8);
    out.push(((n >> 8u64) & 0xff) as u8);
    out.push(((n >> 16u64) & 0xff) as u8);
    out.push(((n >> 24u64) & 0xff) as u8);
    out.push(((n >> 32u64) & 0xff) as u8);
    out.push(((n >> 40u64) & 0xff) as u8);
    out.push(((n >> 48u64) & 0xff) as u8);
    out.push(((n >> 56u64) & 0xff) as u8);
    assert(final(out)@ =~= old(out)@ + u64_le(n));
}

/// Appends a text field.
pub fn write_field(out: &mut Vec<u8>, text: &str)
    ensures
        final(out)@ == old(out)@ + field_bytes(text@),
        fits_u64(text@),
{
    let bytes = text.as_bytes();
    write_u64(out, bytes.len() as u64);
    let ghost mid = out@;
    let mut i: usize = 0;
    while i < bytes.len()
        invariant
            bytes@ == encode_utf8(text@),
            out@ == mid + bytes@.subrange(0, i as int),
            i <= bytes@.len(),
        decreases bytes@.len() - i,
    {
        out.push(bytes[i]);
        i = i + 1;
        assert(out@ =~= mid + bytes@.subrange(0, i as int));
    }
    assert(bytes@.subrange(0, i as int) =~= bytes@);
    assert(final(out)@ =~= old(out)@ + field_bytes(text@));
}

/// Appends each attribute, name then value.
#[verifier::spinoff_prover]
pub fn write_attrs(out: &mut Vec<u8>, attrs: &Vec<(String, String)>)
    ensures
        final(out)@ == old(out)@ + attrs_bytes(attrs_view(attrs@)),
        attrs_fit(attrs_view(attrs@)),
{
    let ghost start = out@;
    let ghost all = attrs_view(attrs@);
    let mut i: usize = 0;
    while i < attrs.len()
        invariant
            all == attrs_view(attrs@),
            all.len() == attrs@.len(),
            i <= attrs@.len(),
            out@ == start + attrs_bytes(all.take(i as int)),
            attrs_fit(all.take(i as int)),
        decreases attrs@.len() - i,
    {
        let ghost prefix = all.take(i as int);
        let ghost entry = all[i as int];
        assert(attrs_fit(prefix));
        let name = attrs[i].0.as_str();
        let value = attrs[i].1.as_str();
        assert(entry == (name@, value@));
        write_field(out, name);
        write_field(out, value);
        let ghost next = all.take(i + 1);
        proof {
            assert(next.drop_last() =~= prefix);
            assert(next.last() == entry);
            assert(next =~= prefix.push(entry));
            assert forall|j: int| 0 <= j < next.len() implies #[trigger] pair_fits(next[j]) by {
                if j < prefix.len() {
                    assert(next[j] == prefix[j]);
                    assert(pair_fits(prefix[j]));
                } else {
                    assert(next[j] == entry);
                }
            }
            assert(attrs_fit(next));
        }
        i = i + 1;
        assert(all.take(i as int) == next);
        assert(out@ =~= start + attrs_bytes(next));
    }
    assert(all.take(i as int) =~= all);
}

/// Reads 8 little-endian bytes at `pos`.
pub fn read_u64(b: &[u8], pos: usize) -> (r: u64)
    requires
        pos + 8 <= b@.len(),
    ensures
        r == le_u64_at(b@, pos as int),
{
    (b[pos] as u64) | ((b[pos + 1] as u64) << 8u64) | ((b[pos + 2] as u64) << 16u64) | ((b[pos
        + 3] as u64) << 24u64) | ((b[pos + 4] as u64) << 32u64) | ((b[pos + 5] as u64) << 40u64)
        | ((b[pos + 6] as u64) << 48u64) | ((b[pos + 7] as u64) << 56u64)
}

/// Reads a text field at `pos`.
pub fn read_text(b: &[u8], pos: usize) -> (r: Option<(String, usize)>)
    ensures
        match r {
            Some((s, p)) => read_field(b@, pos as int) == Some((s@, p as int)) && p <= b@.len(),
            None => read_field(b@, pos as int) is None,
        },
{
    if pos > b.len() || b.len() - pos < 8 {
        return None;
    }
    let n = read_u64(b, pos);
    let start = pos + 8;
    if n > (b.len() - start) as u64 {
        return None;
    }
    let end = start + n as usize;
    match utf8_text(&b[start..end]) {
        Some(s) => Some((s, end)),
        None => None,
    }
}

/// Reads `count` attributes at `pos`.
pub fn read_attr_list(b: &[u8], pos: usize, count: u64) -> (r: Option<(Vec<(String, String)>, usize)>)
    requires
        pos <= b@.len(),
    ensures
        match r {
            Some((attrs, p)) => read_attrs(b@, pos as int, count as nat) == Some(
                (attrs_view(attrs@), p as int),
            ) && p <= b@.len(),
            None => read_attrs(b@, pos as int, count as nat) is None,
        },
{
    let mut attrs: Vec<(String, String)> = Vec::new();
    let mut at: usize = pos;
    let mut i: u64 = 0;
    while i < count
        invariant
            i <= count,
            at <= b@.len(),
            read_attrs(b@, pos as int, i as nat) == Some((attrs_view(attrs@), at as int)),
        decreases count - i,
    {
        let ghost prev = attrs_view(attrs@);
        match read_text(b, at) {
            Some((k, p2)) => match read_text(b, p2) {
                Some((v, p3)) => {
                    attrs.push((k, v));
                    at = p3;
                    assert(attrs_view(attrs@) =~= prev.push((k@, v@)));
                },
                None => {
                    proof {
                        lemma_read_attrs_fails_on(b@, pos as int, (i + 1) as nat, count as nat);
                    }
                    return None;
                },
            },
            None => {
                proof {
                    lemma_read_attrs_fails_on(b@, pos as int, (i + 1) as nat, count as nat);
                }
                return None;
            },
        }
        i = i + 1;
    }
    Some((attrs, at))
}

/// Whether one name sorts before another.
pub fn name_less(a: &str, b: &str) -> (r: bool)
    ensures
        r == name_lt(a@, b@),
{
    let x = a.as_bytes();
    let y = b.as_bytes();
    let mut i: usize = 0;
    while i < x.len() && i < y.len() && x[i] == y[i]
        invariant
            x@ == encode_utf8(a@),
            y@ == encode_utf8(b@),
            i <= x@.len(),
            i <= y@.len(),
            bytes_lt_from(x@, y@, 0) == bytes_lt_from(x@, y@, i as int),
        decreases x@.len() - i,
    {
        i = i + 1;
    }
    if i < x.len() && i < y.len() {
        x[i] < y[i]
    } else {
        i == x.len() && i < y.len()
    }
}

/// Whether the attribute names are in increasing order.
pub fn attr_names_sorted(attrs: &Vec<(String, String)>) -> (r: bool)
    ensures
        r == sorted_names(attrs_view(attrs@)),
{
    let ghost a = attrs_view(attrs@);
    let mut j: usize = 1;
    while j < attrs.len()
        invariant
            a == attrs_view(attrs@),
            1 <= j,
            forall|p: int, q: int| 0 <= p < q < j && q < a.len() ==> #[trigger] name_lt(a[p].0, a[q].0),
        decreases attrs@.len() - j,
    {
        let mut i: usize = 0;
        while i < j
            invariant
                a == attrs_view(attrs@),
                1 <= j < attrs@.len(),
                i <= j,
                forall|p: int, q: int| 0 <= p < q < j ==> #[trigger] name_lt(a[p].0, a[q].0),
                forall|p: int| 0 <= p < i ==> #[trigger] name_lt(a[p].0, a[j as int].0),
            decreases j - i,
        {
            if !name_less(attrs[i].0.as_str(), attrs[j].0.as_str()) {
                assert(!name_lt(a[i as int].0, a[j as int].0));
                return false;
            }
            i = i + 1;
        }
        j = j + 1;
    }
    true
}

} // verus!
