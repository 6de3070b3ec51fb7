//! The binary frame of a write batch. Every count and byte length is a
//! little-endian `u64`; strings are UTF-8; a value starts with one byte
//! that names its variant.
use vstd::prelude::*;
use vstd::slice::slice_subrange;
use vstd::utf8::{decode_utf8, encode_utf8, encode_utf8_decode_utf8, encode_utf8_valid_utf8, valid_utf8};
use crate::wal::{
    fields_view, EntryModel, FieldModel, FieldValue, Row, TableBatchModel, TableWriteBatch, ValueModel,
    WireValue, WriteBufferBatch, WriteBufferEntry,
};

verus! {

broadcast use vstd::slice::group_slice_axioms;

/// The eight little-endian bytes of `v`.
pub open spec fn u64_le(v: u64) -> Seq<u8> {
    seq![
        (v & 0xff) as u8,
        ((v >> 8u64) & 0xff) as u8,
        ((v >> 16u64) & 0xff) as u8,
        ((v >> 24u64) & 0xff) as u8,
        ((v >> 32u64) & 0xff) as u8,
        ((v >> 40u64) & 0xff) as u8,
        ((v >> 48u64) & 0xff) as u8,
        ((v >> 56u64) & 0xff) as u8,
    ]
}

/// The `u64` whose little-endian bytes start at `pos`.
pub open spec fn u64_at(b: Seq<u8>, pos: int) -> u64 {
    (b[pos] as u64) | ((b[pos + 1] as u64) << 8u64) | ((b[pos + 2] as u64) << 16u64) | ((b[pos + 3] as u64)
        << 24u64) | ((b[pos + 4] as u64) << 32u64) | ((b[pos + 5] as u64) << 40u64) | ((b[pos + 6] as u64)
        << 48u64) | ((b[pos + 7] as u64) << 56u64)
}

/// `x` occurs in `b` at `pos`.
pub open spec fn occurs_at(b: Seq<u8>, pos: int, x: Seq<u8>) -> bool {
    0 <= pos && pos + x.len() <= b.len() && b.subrange(pos, pos + x.len()) == x
}

/// Reading back the bytes of `v` gives `v`.
pub proof fn lemma_u64_le(b: Seq<u8>, pos: int, v: u64)
    requires
        occurs_at(b, pos, u64_le(v)),
    ensures
        u64_at(b, pos) == v,
{
    assert(b[pos] == u64_le(v)[0]);
    assert(b[pos + 1] == u64_le(v)[1]);
    assert(b[pos + 2] == u64_le(v)[2]);
    assert(b[pos + 3] == u64_le(v)[3]);
    assert(b[pos + 4] == u64_le(v)[4]);
    assert(b[pos + 5] == u64_le(v)[5]);
    assert(b[pos + 6] == u64_le(v)[6]);
    assert(b[pos + 7] == u64_le(v)[7]);
    let b0 = b[pos];
    let b1 = b[pos + 1];
    let b2 = b[pos + 2];
    let b3 = b[pos + 3];
    let b4 = b[pos + 4];
    let b5 = b[pos + 5];
    let b6 = b[pos + 6];
    let b7 = b[pos + 7];
    assert(b0 == (v & 0xff) as u8 && b1 == ((v >> 8u64) & 0xff) as u8 && b2 == ((v >> 16u64) & 0xff) as u8
        && b3 == ((v >> 24u64) & 0xff) as u8 && b4 == ((v >> 32u64) & 0xff) as u8 && b5 == ((v >> 40u64)
        & 0xff) as u8 && b6 == ((v >> 48u64) & 0xff) as u8 && b7 == ((v >> 56u64) & 0xff) as u8 ==> (b0 as u64)
        | ((b1 as u64) << 8u64) | ((b2 as u64) << 16u64) | ((b3 as u64) << 24u64) | ((b4 as u64) << 32u64)
        | ((b5 as u64) << 40u64) | ((b6 as u64) << 48u64) | ((b7 as u64) << 56u64) == v) by (bit_vector);
}

/// A signed value survives the trip through its unsigned bit pattern.
pub proof fn lemma_i64_bits(v: i64)
    ensures
        (v as u64) as i64 == v,
{
    assert((v as u64) as i64 == v) by (bit_vector);
}

/// Appends the little-endian bytes of `v`.
fn put_u64(out: &mut Vec<u8>, v: u64)
    ensures
        final(out)@ == old(out)@ + u64_le(v),
{
    out.push((v & 0xff) as u8);
    out.push(((v >> 8u64) & 0xff) as u8);
    out.push(((v >> 16u64) & 0xff) as u8);
    out.push(((v >> 24u64) & 0xff) as u8);
    out.push(((v >> 32u64) & 0xff) as u8);
    out.push(((v >> 40u64) & 0xff) as u8);
    out.push(((v >> 48u64) & 0xff) as u8);
    out.push(((v >> 56u64) & 0xff) as u8);
    assert(final(out)@ =~= old(out)@ + u64_le(v));
}

/// Reads the `u64` at `pos`, if eight bytes remain.
fn get_u64(b: &[u8], pos: usize) -> (r: Option<(u64, usize)>)
    ensures
        r == parse_u64(b@, pos as int),
{
    if pos > b.len() || b.len() - pos < 8 {
        return None;
    }
    let v = (b[pos] as u64) | ((b[pos + 1] as u64) << 8u64) | ((b[pos + 2] as u64) << 16u64) | ((b[pos
        + 3] as u64) << 24u64) | ((b[pos + 4] as u64) << 32u64) | ((b[pos + 5] as u64) << 40u64) | ((b[pos
        + 6] as u64) << 48u64) | ((b[pos + 7] as u64) << 56u64);
    Some((v, pos + 8))
}

/// The `u64` at `pos` and the position after it.
pub open spec fn parse_u64(b: Seq<u8>, pos: int) -> Option<(u64, usize)> {
    if 0 <= pos && pos + 8 <= b.len() && pos + 8 <= usize::MAX {
        Some((u64_at(b, pos), (pos + 8) as usize))
    } else {
        None
    }
}

/// A length as eight bytes.
pub open spec fn len_le(n: nat) -> Seq<u8> {
    u64_le(n as u64)
}

/// A string: its byte length, then its UTF-8 bytes.
pub open spec fn enc_str(s: Seq<char>) -> Seq<u8> {
    len_le(encode_utf8(s).len()) + encode_utf8(s)
}

/// The string at `pos` and the position after it.
pub open spec fn parse_str(b: Seq<u8>, pos: int) -> Option<(Seq<char>, usize)> {
    match parse_u64(b, pos) {
        None => None,
        Some((n, p)) => if p + n <= b.len() && valid_utf8(b.subrange(p as int, p + n)) {
            Some((decode_utf8(b.subrange(p as int, p + n)), (p + n) as usize))
        } else {
            None
        },
    }
}

/// Relies on std::str::from_utf8, which accepts exactly the valid UTF-8
/// byte strings, and String's conversion from the accepted `&str`.
#[verifier::external_body]
fn string_from_utf8(b: &[u8]) -> (r: Option<String>)
    ensures
        r is Some <==> valid_utf8(b@),
        r matches Some(s) ==> s@ == decode_utf8(b@),
{
    match std::str::from_utf8(b) {
        Ok(s) => Some(s.to_owned()),
        Err(_) => None,
    }
}

/// Appends a string.
fn put_str(out: &mut Vec<u8>, s: &str)
    ensures
        final(out)@ == old(out)@ + enc_str(s@),
        str_fits(s@),
{
    let bytes = s.as_bytes();
    put_u64(out, bytes.len() as u64);
    let ghost mid = out@;
    let mut i: usize = 0;
    while i < bytes.len()
        invariant
            bytes@ == encode_utf8(s@),
            i <= bytes@.len(),
            out@ == mid + bytes@.subrange(0, i as int),
        decreases bytes.len() - i,
    {
        out.push(bytes[i]);
        assert(bytes@.subrange(0, i + 1) == bytes@.subrange(0, i as int).push(bytes@[i as int]));
        i = i + 1;
    }
    assert(bytes@.subrange(0, bytes@.len() as int) == bytes@);
    assert(out@ =~= old(out)@ + enc_str(s@));
}

/// Reads a string at `pos`.
fn get_str(b: &[u8], pos: usize) -> (r: Option<(String, usize)>)
    ensures
        match r {
            Some((s, p)) => parse_str(b@, pos as int) == Some((s@, p)),
            None => parse_str(b@, pos as int) is None,
        },
{
    let (n, p) = match get_u64(b, pos) {
        Some(x) => x,
        None => {
            return None;
        },
    };
    let rest: u64 = (b.len() - p) as u64;
    if rest < n {
        return None;
    }
    let end = p + n as usize;
    let sub = slice_subrange(b, p, end);
    match string_from_utf8(sub) {
        Some(s) => Some((s, end)),
        None => None,
    }
}

/// `x + y` occurs at `pos` exactly when `x` does and `y` follows it.
pub proof fn lemma_occurs_split(b: Seq<u8>, pos: int, x: Seq<u8>, y: Seq<u8>)
    requires
        occurs_at(b, pos, x + y),
    ensures
        occurs_at(b, pos, x),
        occurs_at(b, pos + x.len(), y),
{
    let w = b.subrange(pos, pos + x.len() + y.len());
    assert(w == x + y);
    assert(b.subrange(pos, pos + x.len()) =~= w.subrange(0, x.len() as int));
    assert(w.subrange(0, x.len() as int) =~= x);
    assert(b.subrange(pos + x.len(), pos + x.len() + y.len()) =~= w.subrange(
        x.len() as int,
        (x.len() + y.len()) as int,
    ));
    assert(w.subrange(x.len() as int, (x.len() + y.len()) as int) =~= y);
}

/// The string fits the frame: its byte length is a `u64`.
pub open spec fn str_fits(s: Seq<char>) -> bool {
    encode_utf8(s).len() <= u64::MAX
}

/// A string reads back as itself.
pub proof fn lemma_str(b: Seq<u8>, pos: int, s: Seq<char>)
    requires
        occurs_at(b, pos, enc_str(s)),
        b.len() <= usize::MAX,
        str_fits(s),
    ensures
        parse_str(b, pos) == Some((s, (pos + enc_str(s).len()) as usize)),
{
    let e = encode_utf8(s);
    lemma_occurs_split(b, pos, len_le(e.len()), e);
    lemma_u64_le(b, pos, e.len() as u64);
    encode_utf8_valid_utf8(s);
    encode_utf8_decode_utf8(s);
}

/// A value: one byte for the variant, then the payload.
pub open spec fn enc_value(v: ValueModel) -> Seq<u8> {
    match v {
        ValueModel::Tag(s) => seq![0u8] + enc_str(s),
        ValueModel::I64(x) => seq![1u8] + u64_le(x as u64),
        ValueModel::F64(x) => seq![2u8] + u64_le(x),
        ValueModel::Bool(x) => seq![3u8, if x { 1u8 } else { 0u8 }],
        ValueModel::String(s) => seq![4u8] + enc_str(s),
        ValueModel::Time(x) => seq![5u8] + u64_le(x as u64),
    }
}

/// The value fits the frame.
pub open spec fn value_fits(v: ValueModel) -> bool {
    match v {
        ValueModel::Tag(s) => str_fits(s),
        ValueModel::String(s) => str_fits(s),
        _ => true,
    }
}

/// The value at `pos` and the position after it.
pub open spec fn parse_value(b: Seq<u8>, pos: int) -> Option<(ValueModel, usize)> {
    if pos < 0 || pos + 1 > b.len() {
        None
    } else {
        let t = b[pos];
        let p = pos + 1;
        if t == 0 {
            match parse_str(b, p) {
                Some((s, q)) => Some((ValueModel::Tag(s), q)),
                None => None,
            }
        } else if t == 1 {
            match parse_u64(b, p) {
                Some((x, q)) => Some((ValueModel::I64(x as i64), q)),
                None => None,
            }
        } else if t == 2 {
            match parse_u64(b, p) {
                Some((x, q)) => Some((ValueModel::F64(x), q)),
                None => None,
            }
        } else if t == 3 {
            if p + 1 <= b.len() && b[p] == 0 {
                Some((ValueModel::Bool(false), (p + 1) as usize))
            } else if p + 1 <= b.len() && b[p] == 1 {
                Some((ValueModel::Bool(true), (p + 1) as usize))
            } else {
                None
            }
        } else if t == 4 {
            match parse_str(b, p) {
                Some((s, q)) => Some((ValueModel::String(s), q)),
                None => None,
            }
        } else if t == 5 {
            match parse_u64(b, p) {
                Some((x, q)) => Some((ValueModel::Time(x as i64), q)),
                None => None,
            }
        } else {
            None
        }
    }
}

/// A value reads back as itself.
pub proof fn lemma_value(b: Seq<u8>, pos: int, v: ValueModel)
    requires
        occurs_at(b, pos, enc_value(v)),
        b.len() <= usize::MAX,
        value_fits(v),
    ensures
        parse_value(b, pos) == Some((v, (pos + enc_value(v).len()) as usize)),
{
    assert(b[pos] == enc_value(v)[0]);
    match v {
        ValueModel::Tag(s) => {
            lemma_occurs_split(b, pos, seq![0u8], enc_str(s));
            lemma_str(b, pos + 1, s);
        },
        ValueModel::I64(x) => {
            lemma_occurs_split(b, pos, seq![1u8], u64_le(x as u64));
            lemma_u64_le(b, pos + 1, x as u64);
            lemma_i64_bits(x);
        },
        ValueModel::F64(x) => {
            lemma_occurs_split(b, pos, seq![2u8], u64_le(x));
            lemma_u64_le(b, pos + 1, x);
        },
        ValueModel::Bool(x) => {
            assert(b[pos + 1] == enc_value(v)[1]);
        },
        ValueModel::String(s) => {
            lemma_occurs_split(b, pos, seq![4u8], enc_str(s));
            lemma_str(b, pos + 1, s);
        },
        ValueModel::Time(x) => {
            lemma_occurs_split(b, pos, seq![5u8], u64_le(x as u64));
            lemma_u64_le(b, pos + 1, x as u64);
            lemma_i64_bits(x);
        },
    }
}

/// Appends a value.
fn put_value(out: &mut Vec<u8>, v: &WireValue)
    ensures
        final(out)@ == old(out)@ + enc_value(v@),
        value_fits(v@),
{
    let ghost o = out@;
    match v {
        WireValue::Tag(s) => {
            out.push(0u8);
            put_str(out, s.as_str());
        },
        WireValue::I64(x) => {
            out.push(1u8);
            put_u64(out, *x as u64);
        },
        WireValue::F64(x) => {
            out.push(2u8);
            put_u64(out, *x);
        },
        WireValue::Bool(x) => {
            out.push(3u8);
            out.push(if *x { 1u8 } else { 0u8 });
        },
        WireValue::String(s) => {
            out.push(4u8);
            put_str(out, s.as_str());
        },
        WireValue::Time(x) => {
            out.push(5u8);
            put_u64(out, *x as u64);
        },
    }
    assert(out@ =~= o + enc_value(v@));
}

/// Reads a value at `pos`.
fn get_value(b: &[u8], pos: usize) -> (r: Option<(WireValue, usize)>)
    ensures
        match r {
            Some((v, p)) => parse_value(b@, pos as int) == Some((v@, p)),
            None => parse_value(b@, pos as int) is None,
        },
{
    if pos >= b.len() {
        return None;
    }
    let t = b[pos];
    let p = pos + 1;
    if t == 0 {
        match get_str(b, p) {
            Some((s, q)) => Some((WireValue::Tag(s), q)),
            None => None,
        }
    } else if t == 1 {
        match get_u64(b, p) {
            Some((x, q)) => Some((WireValue::I64(x as i64), q)),
            None => None,
        }
    } else if t == 2 {
        match get_u64(b, p) {
            Some((x, q)) => Some((WireValue::F64(x), q)),
            None => None,
        }
    } else if t == 3 {
        if p < b.len() && b[p] == 0 {
            Some((WireValue::Bool(false), p + 1))
        } else if p < b.len() && b[p] == 1 {
            Some((WireValue::Bool(true), p + 1))
        } else {
            None
        }
    } else if t == 4 {
        match get_str(b, p) {
            Some((s, q)) => Some((WireValue::String(s), q)),
            None => None,
        }
    } else if t == 5 {
        match get_u64(b, p) {
            Some((x, q)) => Some((WireValue::Time(x as i64), q)),
            None => None,
        }
    } else {
        None
    }
}

/// A field: its name, then its value.
pub open spec fn enc_field(f: FieldModel) -> Seq<u8> {
    enc_str(f.name) + enc_value(f.value)
}

/// The field fits the frame.
pub open spec fn field_fits(f: FieldModel) -> bool {
    str_fits(f.name) && value_fits(f.value)
}

/// The field at `pos` and the position after it.
pub open spec fn parse_field(b: Seq<u8>, pos: int) -> Option<(FieldModel, usize)> {
    match parse_str(b, pos) {
        None => None,
        Some((name, p)) => match parse_value(b, p as int) {
            None => None,
            Some((value, q)) => Some((FieldModel { name, value }, q)),
        },
    }
}

/// A field reads back as itself.
pub proof fn lemma_field(b: Seq<u8>, pos: int, f: FieldModel)
    requires
        occurs_at(b, pos, enc_field(f)),
        b.len() <= usize::MAX,
        field_fits(f),
    ensures
        parse_field(b, pos) == Some((f, (pos + enc_field(f).len()) as usize)),
{
    lemma_occurs_split(b, pos, enc_str(f.name), enc_value(f.value));
    lemma_str(b, pos, f.name);
    lemma_value(b, pos + enc_str(f.name).len(), f.value);
}

/// Appends a field.
fn put_field(out: &mut Vec<u8>, f: &FieldValue)
    ensures
        final(out)@ == old(out)@ + enc_field(f@),
        field_fits(f@),
{
    let ghost o = out@;
    put_str(out, f.name.as_str());
    put_value(out, &f.value);
    assert(out@ =~= o + enc_field(f@));
}

/// Reads a field at `pos`.
fn get_field(b: &[u8], pos: usize) -> (r: Option<(FieldValue, usize)>)
    ensures
        match r {
            Some((f, p)) => parse_field(b@, pos as int) == Some((f@, p)),
            None => parse_field(b@, pos as int) is None,
        },
{
    let (name, p) = match get_str(b, pos) {
        Some(x) => x,
        None => {
            return None;
        },
    };
    match get_value(b, p) {
        Some((value, q)) => Some((FieldValue { name, value }, q)),
        None => None,
    }
}

/// The elements of a list one after another.
pub open spec fn enc_list<A>(xs: Seq<A>, enc: spec_fn(A) -> Seq<u8>) -> Seq<u8>
    decreases xs.len(),
{
    if xs.len() == 0 {
        Seq::<u8>::empty()
    } else {
        enc_list(xs.drop_last(), enc) + enc(xs.last())
    }
}

/// `n` elements read one after another from `pos`, and the position after
/// them.
pub open spec fn parse_list<A>(
    b: Seq<u8>,
    pos: int,
    n: nat,
    parse: spec_fn(Seq<u8>, int) -> Option<(A, usize)>,
) -> Option<(Seq<A>, usize)>
    decreases n,
{
    if n == 0 {
        if 0 <= pos <= usize::MAX {
            Some((Seq::<A>::empty(), pos as usize))
        } else {
            None
        }
    } else {
        match parse_list(b, pos, (n - 1) as nat, parse) {
            None => None,
            Some((xs, p)) => match parse(b, p as int) {
                None => None,
                Some((x, q)) => Some((xs.push(x), q)),
            },
        }
    }
}

/// Once reading fails, reading more fails too.
pub proof fn lemma_parse_list_none<A>(
    b: Seq<u8>,
    pos: int,
    i: nat,
    n: nat,
    parse: spec_fn(Seq<u8>, int) -> Option<(A, usize)>,
)
    requires
        i <= n,
        parse_list(b, pos, i, parse) is None,
    ensures
        parse_list(b, pos, n, parse) is None,
    decreases n - i,
{
    if i < n {
        lemma_parse_list_none(b, pos, i, (n - 1) as nat, parse);
    }
}

/// A list reads back as itself when each of its elements does.
pub proof fn lemma_list<A>(
    b: Seq<u8>,
    pos: int,
    xs: Seq<A>,
    enc: spec_fn(A) -> Seq<u8>,
    parse: spec_fn(Seq<u8>, int) -> Option<(A, usize)>,
    fits: spec_fn(A) -> bool,
)
    requires
        occurs_at(b, pos, enc_list(xs, enc)),
        b.len() <= usize::MAX,
        forall|i: int| 0 <= i < xs.len() ==> fits(#[trigger] xs[i]),
        forall|p: int, x: A|
            occurs_at(b, p, #[trigger] enc(x)) && fits(x) ==> #[trigger] parse(b, p) == Some(
                (x, (p + enc(x).len()) as usize),
            ),
    ensures
        parse_list(b, pos, xs.len(), parse) == Some((xs, (pos + enc_list(xs, enc).len()) as usize)),
    decreases xs.len(),
{
    if xs.len() > 0 {
        let d = xs.drop_last();
        lemma_occurs_split(b, pos, enc_list(d, enc), enc(xs.last()));
        assert forall|i: int| 0 <= i < d.len() implies fits(#[trigger] d[i]) by {
            assert(d[i] == xs[i]);
        }
        lemma_list(b, pos, d, enc, parse, fits);
        assert(fits(xs[xs.len() - 1]));
        assert(d.push(xs.last()) =~= xs);
    } else {
        assert(b.subrange(pos, pos) =~= Seq::<u8>::empty());
    }
}

/// Encodes one field.
pub open spec fn field_encoder() -> spec_fn(FieldModel) -> Seq<u8> {
    |f: FieldModel| enc_field(f)
}

/// Reads one field.
pub open spec fn field_parser() -> spec_fn(Seq<u8>, int) -> Option<(FieldModel, usize)> {
    |b: Seq<u8>, p: int| parse_field(b, p)
}

/// A row: its field count, then its fields.
pub open spec fn enc_row(fs: Seq<FieldModel>) -> Seq<u8> {
    len_le(fs.len()) + enc_list(fs, field_encoder())
}

/// The row fits the frame.
pub open spec fn row_fits(fs: Seq<FieldModel>) -> bool {
    fs.len() <= u64::MAX && forall|i: int| 0 <= i < fs.len() ==> field_fits(#[trigger] fs[i])
}

/// `n` fields from `pos`.
pub open spec fn parse_fields(b: Seq<u8>, pos: int, n: nat) -> Option<(Seq<FieldModel>, usize)> {
    parse_list(b, pos, n, field_parser())
}

/// The row at `pos` and the position after it.
pub open spec fn parse_row(b: Seq<u8>, pos: int) -> Option<(Seq<FieldModel>, usize)> {
    match parse_u64(b, pos) {
        None => None,
        Some((n, p)) => parse_fields(b, p as int, n as nat),
    }
}

/// A row reads back as itself.
pub proof fn lemma_row(b: Seq<u8>, pos: int, fs: Seq<FieldModel>)
    requires
        occurs_at(b, pos, enc_row(fs)),
        b.len() <= usize::MAX,
        row_fits(fs),
    ensures
        parse_row(b, pos) == Some((fs, (pos + enc_row(fs).len()) as usize)),
{
    let enc = field_encoder();
    let parse = field_parser();
    let fits = |f: FieldModel| field_fits(f);
    lemma_occurs_split(b, pos, len_le(fs.len()), enc_list(fs, enc));
    lemma_u64_le(b, pos, fs.len() as u64);
    assert forall|p: int, x: FieldModel|
        occurs_at(b, p, #[trigger] enc(x)) && fits(x) implies #[trigger] parse(b, p) == Some(
            (x, (p + enc(x).len()) as usize),
        ) by {
        lemma_field(b, p, x);
    }
    lemma_list(b, pos + 8, fs, enc, parse, fits);
}

/// Appends a row.
fn put_row(out: &mut Vec<u8>, row: &Row)
    ensures
        final(out)@ == old(out)@ + enc_row(row@),
        row_fits(row@),
{
    let ghost o = out@;
    put_u64(out, row.values.len() as u64);
    let ghost mid = out@;
    let mut i: usize = 0;
    while i < row.values.len()
        invariant
            i <= row.values@.len(),
            out@ == mid + enc_list(row@.take(i as int), field_encoder()),
            forall|j: int| 0 <= j < i ==> field_fits(#[trigger] row@[j]),
        decreases row.values.len() - i,
    {
        put_field(out, &row.values[i]);
        assert(row@.take(i + 1).drop_last() =~= row@.take(i as int));
        i = i + 1;
    }
    assert(row@.take(row.values@.len() as int) =~= row@);
    assert(out@ =~= o + enc_row(row@));
}

/// Reads a row at `pos`.
#[verifier::loop_isolation(false)]
fn get_row(b: &[u8], pos: usize) -> (r: Option<(Row, usize)>)
    ensures
        match r {
            Some((row, p)) => parse_row(b@, pos as int) == Some((row@, p)),
            None => parse_row(b@, pos as int) is None,
        },
{
    let (n, mut p) = match get_u64(b, pos) {
        Some(x) => x,
        None => {
            return None;
        },
    };
    let ghost start = p;
    assert(parse_u64(b@, pos as int) == Some((n, start)));
    let mut values: Vec<FieldValue> = Vec::new();
    let mut i: u64 = 0;
    while i < n
        invariant
            i <= n,
            parse_fields(b@, start as int, i as nat) == Some((fields_view(values@), p)),
        decreases n - i,
    {
        match get_field(b, p) {
            Some((f, q)) => {
                values.push(f);
                p = q;
            },
            None => {
                proof {
                    assert(parse_list(b@, start as int, (i + 1) as nat, field_parser()) is None);
                    lemma_parse_list_none(b@, start as int, (i + 1) as nat, n as nat, field_parser());
                }
                return None;
            },
        }
        assert(fields_view(values@) =~= fields_view(values@.drop_last()).push(values@.last()@));
        i = i + 1;
    }
    Some((Row { values }, p))
}

/// Encodes one row of a table batch.
pub open spec fn row_encoder() -> spec_fn(Seq<FieldModel>) -> Seq<u8> {
    |x: Seq<FieldModel>| enc_row(x)
}

/// Reads one row of a table batch.
pub open spec fn row_parser() -> spec_fn(Seq<u8>, int) -> Option<(Seq<FieldModel>, usize)> {
    |b: Seq<u8>, p: int| parse_row(b, p)
}

/// A table batch: its table name, its row count, then its rows.
pub open spec fn enc_table(t: TableBatchModel) -> Seq<u8> {
    enc_str(t.table) + len_le(t.rows.len()) + enc_list(t.rows, row_encoder())
}

/// The table batch fits the frame.
pub open spec fn table_fits(t: TableBatchModel) -> bool {
    str_fits(t.table) && t.rows.len() <= u64::MAX && forall|i: int|
        0 <= i < t.rows.len() ==> row_fits(#[trigger] t.rows[i])
}

/// `n` rows from `pos`.
pub open spec fn parse_rows(b: Seq<u8>, pos: int, n: nat) -> Option<(Seq<Seq<FieldModel>>, usize)> {
    parse_list(b, pos, n, row_parser())
}

/// The table batch at `pos` and the position after it.
pub open spec fn parse_table(b: Seq<u8>, pos: int) -> Option<(TableBatchModel, usize)> {
    match parse_str(b, pos) {
        None => None,
        Some((name, p)) => match parse_u64(b, p as int) {
            None => None,
            Some((n, q)) => match parse_rows(b, q as int, n as nat) {
                None => None,
                Some((xs, r)) => Some((TableBatchModel { table: name, rows: xs }, r)),
            },
        },
    }
}

/// A table batch reads back as itself.
pub proof fn lemma_table(b: Seq<u8>, pos: int, t: TableBatchModel)
    requires
        occurs_at(b, pos, enc_table(t)),
        b.len() <= usize::MAX,
        table_fits(t),
    ensures
        parse_table(b, pos) == Some((t, (pos + enc_table(t).len()) as usize)),
{
    let enc = row_encoder();
    let parse = row_parser();
    let fits = |x: Seq<FieldModel>| row_fits(x);
    let name = enc_str(t.table);
    let count = len_le(t.rows.len());
    let body = enc_list(t.rows, enc);
    assert(enc_table(t) == name + count + body);
    lemma_occurs_split(b, pos, name + count, body);
    lemma_occurs_split(b, pos, name, count);
    lemma_str(b, pos, t.table);
    lemma_u64_le(b, pos + name.len(), t.rows.len() as u64);
    assert forall|p: int, x: Seq<FieldModel>|
        occurs_at(b, p, #[trigger] enc(x)) && fits(x) implies #[trigger] parse(b, p) == Some(
            (x, (p + enc(x).len()) as usize),
        ) by {
        lemma_row(b, p, x);
    }
    assert forall|i: int| 0 <= i < t.rows.len() implies fits(#[trigger] t.rows[i]) by {}
    lemma_list(b, pos + name.len() + 8, t.rows, enc, parse, fits);
}

/// Appends a table batch.
fn put_table(out: &mut Vec<u8>, t: &TableWriteBatch)
    ensures
        final(out)@ == old(out)@ + enc_table(t@),
        table_fits(t@),
{
    let ghost o = out@;
    put_str(out, t.table.as_str());
    put_u64(out, t.rows.len() as u64);
    let ghost mid = out@;
    let mut i: usize = 0;
    while i < t.rows.len()
        invariant
            i <= t.rows@.len(),
            out@ == mid + enc_list(t@.rows.take(i as int), row_encoder()),
            forall|j: int| 0 <= j < i ==> row_fits(#[trigger] t@.rows[j]),
        decreases t.rows.len() - i,
    {
        put_row(out, &t.rows[i]);
        assert(t@.rows.take(i + 1).drop_last() =~= t@.rows.take(i as int));
        i = i + 1;
    }
    assert(t@.rows.take(t.rows@.len() as int) =~= t@.rows);
    assert(out@ =~= o + enc_table(t@));
}

/// Reads a table batch at `pos`.
#[verifier::loop_isolation(false)]
fn get_table(b: &[u8], pos: usize) -> (r: Option<(TableWriteBatch, usize)>)
    ensures
        match r {
            Some((t, p)) => parse_table(b@, pos as int) == Some((t@, p)),
            None => parse_table(b@, pos as int) is None,
        },
{
    let (name, p0) = match get_str(b, pos) {
        Some(x) => x,
        None => {
            return None;
        },
    };
    let (n, mut p) = match get_u64(b, p0) {
        Some(x) => x,
        None => {
            return None;
        },
    };
    let ghost start = p;
    let mut xs: Vec<Row> = Vec::new();
    let mut i: u64 = 0;
    while i < n
        invariant
            i <= n,
            parse_rows(b@, start as int, i as nat) == Some((xs@.map_values(|x: Row| x@), p)),
        decreases n - i,
    {
        match get_row(b, p) {
            Some((x, q)) => {
                xs.push(x);
                p = q;
            },
            None => {
                proof {
                    assert(parse_list(b@, start as int, (i + 1) as nat, row_parser()) is None);
                    lemma_parse_list_none(b@, start as int, (i + 1) as nat, n as nat, row_parser());
                }
                return None;
            },
        }
        assert(xs@.map_values(|x: Row| x@) =~= xs@.drop_last().map_values(|x: Row| x@).push(xs@.last()@));
        i = i + 1;
    }
    let t = TableWriteBatch { table: name, rows: xs };
    assert(t@.rows =~= xs@.map_values(|x: Row| x@));
    Some((t, p))
}

/// Encodes one table batch of an entry.
pub open spec fn table_encoder() -> spec_fn(TableBatchModel) -> Seq<u8> {
    |x: TableBatchModel| enc_table(x)
}

/// Reads one table batch of an entry.
pub open spec fn table_parser() -> spec_fn(Seq<u8>, int) -> Option<(TableBatchModel, usize)> {
    |b: Seq<u8>, p: int| parse_table(b, p)
}

/// An entry: its partition key, its table batch count, then its table
/// batches.
pub open spec fn enc_entry(t: EntryModel) -> Seq<u8> {
    enc_str(t.partition_key) + len_le(t.table_batches.len()) + enc_list(t.table_batches, table_encoder())
}

/// The entry fits the frame.
pub open spec fn entry_fits(t: EntryModel) -> bool {
    str_fits(t.partition_key) && t.table_batches.len() <= u64::MAX && forall|i: int|
        0 <= i < t.table_batches.len() ==> table_fits(#[trigger] t.table_batches[i])
}

/// `n` table batches from `pos`.
pub open spec fn parse_tables(b: Seq<u8>, pos: int, n: nat) -> Option<(Seq<TableBatchModel>, usize)> {
    parse_list(b, pos, n, table_parser())
}

/// The entry at `pos` and the position after it.
pub open spec fn parse_entry(b: Seq<u8>, pos: int) -> Option<(EntryModel, usize)> {
    match parse_str(b, pos) {
        None => None,
        Some((name, p)) => match parse_u64(b, p as int) {
            None => None,
            Some((n, q)) => match parse_tables(b, q as int, n as nat) {
                None => None,
                Some((xs, r)) => Some((EntryModel { partition_key: name, table_batches: xs }, r)),
            },
        },
    }
}

/// An entry reads back as itself.
pub proof fn lemma_entry(b: Seq<u8>, pos: int, t: EntryModel)
    requires
        occurs_at(b, pos, enc_entry(t)),
        b.len() <= usize::MAX,
        entry_fits(t),
    ensures
        parse_entry(b, pos) == Some((t, (pos + enc_entry(t).len()) as usize)),
{
    let enc = table_encoder();
    let parse = table_parser();
    let fits = |x: TableBatchModel| table_fits(x);
    let name = enc_str(t.partition_key);
    let count = len_le(t.table_batches.len());
    let body = enc_list(t.table_batches, enc);
    assert(enc_entry(t) == name + count + body);
    lemma_occurs_split(b, pos, name + count, body);
    lemma_occurs_split(b, pos, name, count);
    lemma_str(b, pos, t.partition_key);
    lemma_u64_le(b, pos + name.len(), t.table_batches.len() as u64);
    assert forall|p: int, x: TableBatchModel|
        occurs_at(b, p, #[trigger] enc(x)) && fits(x) implies #[trigger] parse(b, p) == Some(
            (x, (p + enc(x).len()) as usize),
        ) by {
        lemma_table(b, p, x);
    }
    assert forall|i: int| 0 <= i < t.table_batches.len() implies fits(#[trigger] t.table_batches[i]) by {}
    lemma_list(b, pos + name.len() + 8, t.table_batches, enc, parse, fits);
}

/// Appends an entry.
fn put_entry(out: &mut Vec<u8>, t: &WriteBufferEntry)
    ensures
        final(out)@ == old(out)@ + enc_entry(t@),
        entry_fits(t@),
{
    let ghost o = out@;
    put_str(out, t.partition_key.as_str());
    put_u64(out, t.table_batches.len() as u64);
    let ghost mid = out@;
    let mut i: usize = 0;
    while i < t.table_batches.len()
        invariant
            i <= t.table_batches@.len(),
            out@ == mid + enc_list(t@.table_batches.take(i as int), table_encoder()),
            forall|j: int| 0 <= j < i ==> table_fits(#[trigger] t@.table_batches[j]),
        decreases t.table_batches.len() - i,
    {
        put_table(out, &t.table_batches[i]);
        assert(t@.table_batches.take(i + 1).drop_last() =~= t@.table_batches.take(i as int));
        i = i + 1;
    }
    assert(t@.table_batches.take(t.table_batches@.len() as int) =~= t@.table_batches);
    assert(out@ =~= o + enc_entry(t@));
}

/// Reads an entry at `pos`.
#[verifier::loop_isolation(false)]
fn get_entry(b: &[u8], pos: usize) -> (r: Option<(WriteBufferEntry, usize)>)
    ensures
        match r {
            Some((t, p)) => parse_entry(b@, pos as int) == Some((t@, p)),
            None => parse_entry(b@, pos as int) is None,
        },
{
    let (name, p0) = match get_str(b, pos) {
        Some(x) => x,
        None => {
            return None;
        },
    };
    let (n, mut p) = match get_u64(b, p0) {
        Some(x) => x,
        None => {
            return None;
        },
    };
    let ghost start = p;
    let mut xs: Vec<TableWriteBatch> = Vec::new();
    let mut i: u64 = 0;
    while i < n
        invariant
            i <= n,
            parse_tables(b@, start as int, i as nat) == Some((xs@.map_values(|x: TableWriteBatch| x@), p)),
        decreases n - i,
    {
        match get_table(b, p) {
            Some((x, q)) => {
                xs.push(x);
                p = q;
            },
            None => {
                proof {
                    assert(parse_list(b@, start as int, (i + 1) as nat, table_parser()) is None);
                    lemma_parse_list_none(b@, start as int, (i + 1) as nat, n as nat, table_parser());
                }
                return None;
            },
        }
        assert(xs@.map_values(|x: TableWriteBatch| x@) =~= xs@.drop_last().map_values(|x: TableWriteBatch| x@).push(xs@.last()@));
        i = i + 1;
    }
    let t = WriteBufferEntry { partition_key: name, table_batches: xs };
    assert(t@.table_batches =~= xs@.map_values(|x: TableWriteBatch| x@));
    Some((t, p))
}

/// Encodes one entry of a batch.
pub open spec fn entry_encoder() -> spec_fn(EntryModel) -> Seq<u8> {
    |x: EntryModel| enc_entry(x)
}

/// Reads one entry of a batch.
pub open spec fn entry_parser() -> spec_fn(Seq<u8>, int) -> Option<(EntryModel, usize)> {
    |b: Seq<u8>, p: int| parse_entry(b, p)
}

/// A batch: its entry count, then its entries.
pub open spec fn enc_batch(es: Seq<EntryModel>) -> Seq<u8> {
    len_le(es.len()) + enc_list(es, entry_encoder())
}

/// The batch fits the frame.
pub open spec fn batch_fits(es: Seq<EntryModel>) -> bool {
    es.len() <= u64::MAX && forall|i: int| 0 <= i < es.len() ==> entry_fits(#[trigger] es[i])
}

/// The batch that the whole of `b` encodes, if any.
pub open spec fn decode_spec(b: Seq<u8>) -> Option<Seq<EntryModel>> {
    match parse_u64(b, 0) {
        None => None,
        Some((n, p)) => match parse_list(b, p as int, n as nat, entry_parser()) {
            None => None,
            Some((es, q)) => if q == b.len() {
                Some(es)
            } else {
                None
            },
        },
    }
}

/// Decoding an encoded batch gives the batch back.
pub proof fn lemma_decode_encode(es: Seq<EntryModel>)
    requires
        batch_fits(es),
        enc_batch(es).len() <= usize::MAX,
    ensures
        decode_spec(enc_batch(es)) == Some(es),
{
    let b = enc_batch(es);
    let enc = entry_encoder();
    let parse = entry_parser();
    let fits = |x: EntryModel| entry_fits(x);
    assert(b.subrange(0, b.len() as int) =~= b);
    lemma_occurs_split(b, 0, len_le(es.len()), enc_list(es, enc));
    lemma_u64_le(b, 0, es.len() as u64);
    assert forall|p: int, x: EntryModel|
        occurs_at(b, p, #[trigger] enc(x)) && fits(x) implies #[trigger] parse(b, p) == Some(
            (x, (p + enc(x).len()) as usize),
        ) by {
        lemma_entry(b, p, x);
    }
    assert forall|i: int| 0 <= i < es.len() implies fits(#[trigger] es[i]) by {}
    lemma_list(b, 8, es, enc, parse, fits);
}

/// The frame of a batch. It always decodes back to the batch.
pub fn encode_batch(batch: &WriteBufferBatch) -> (r: Vec<u8>)
    ensures
        r@ == enc_batch(batch@),
        batch_fits(batch@),
        decode_spec(r@) == Some(batch@),
{
    let mut out: Vec<u8> = Vec::new();
    put_u64(&mut out, batch.entries.len() as u64);
    let ghost mid = out@;
    let mut i: usize = 0;
    while i < batch.entries.len()
        invariant
            i <= batch.entries@.len(),
            out@ == mid + enc_list(batch@.take(i as int), entry_encoder()),
            mid == len_le(batch@.len()),
            forall|j: int| 0 <= j < i ==> entry_fits(#[trigger] batch@[j]),
        decreases batch.entries.len() - i,
    {
        put_entry(&mut out, &batch.entries[i]);
        assert(batch@.take(i + 1).drop_last() =~= batch@.take(i as int));
        i = i + 1;
    }
    assert(batch@.take(batch.entries@.len() as int) =~= batch@);
    assert(out@ =~= enc_batch(batch@));
    let total = out.len();
    assert(total == out@.len());
    proof {
        lemma_decode_encode(batch@);
    }
    out
}

/// The batch that the whole of `bytes` encodes, or `None` if the bytes are
/// not exactly one encoded batch.
#[verifier::loop_isolation(false)]
pub fn decode_batch(bytes: &[u8]) -> (r: Option<WriteBufferBatch>)
    ensures
        match r {
            Some(b) => decode_spec(bytes@) == Some(b@),
            None => decode_spec(bytes@) is None,
        },
{
    let (n, mut p) = match get_u64(bytes, 0) {
        Some(x) => x,
        None => {
            return None;
        },
    };
    let ghost start = p;
    let mut xs: Vec<WriteBufferEntry> = Vec::new();
    let mut i: u64 = 0;
    while i < n
        invariant
            i <= n,
            parse_list(bytes@, start as int, i as nat, entry_parser()) == Some(
                (xs@.map_values(|x: WriteBufferEntry| x@), p),
            ),
        decreases n - i,
    {
        match get_entry(bytes, p) {
            Some((x, q)) => {
                xs.push(x);
                p = q;
            },
            None => {
                proof {
                    assert(parse_list(bytes@, start as int, (i + 1) as nat, entry_parser()) is None);
                    lemma_parse_list_none(bytes@, start as int, (i + 1) as nat, n as nat, entry_parser());
                }
                return None;
            },
        }
        assert(xs@.map_values(|x: WriteBufferEntry| x@) =~= xs@.drop_last().map_values(
            |x: WriteBufferEntry| x@,
        ).push(xs@.last()@));
        i = i + 1;
    }
    if p != bytes.len() {
        return None;
    }
    let b = WriteBufferBatch { entries: xs };
    assert(b@ =~= xs@.map_values(|x: WriteBufferEntry| x@));
    Some(b)
}

/// One log record: the frame's byte length, then the frame.
pub open spec fn enc_record(frame: Seq<u8>) -> Seq<u8> {
    len_le(frame.len()) + frame
}

/// Records one after another.
pub open spec fn enc_records(frames: Seq<Seq<u8>>) -> Seq<u8>
    decreases frames.len(),
{
    if frames.len() == 0 {
        Seq::<u8>::empty()
    } else {
        enc_record(frames[0]) + enc_records(frames.drop_first())
    }
}

/// The frames of the complete records from `pos` on; an incomplete record
/// at the end is left out.
pub open spec fn parse_records(b: Seq<u8>, pos: int) -> Seq<Seq<u8>>
    decreases b.len() - pos,
{
    if pos < 0 || pos + 8 > b.len() {
        Seq::<Seq<u8>>::empty()
    } else {
        let n = u64_at(b, pos);
        if pos + 8 + n > b.len() {
            Seq::<Seq<u8>>::empty()
        } else {
            seq![b.subrange(pos + 8, pos + 8 + n)] + parse_records(b, pos + 8 + n)
        }
    }
}

/// Reading back a sequence of records gives its frames, whatever
/// incomplete record follows them.
pub proof fn lemma_records(b: Seq<u8>, pos: int, frames: Seq<Seq<u8>>)
    requires
        0 <= pos <= b.len(),
        b.subrange(pos, pos + enc_records(frames).len()) == enc_records(frames),
        pos + enc_records(frames).len() <= b.len(),
        forall|i: int| 0 <= i < frames.len() ==> (#[trigger] frames[i]).len() <= u64::MAX,
        parse_records(b, pos + enc_records(frames).len()) == Seq::<Seq<u8>>::empty(),
    ensures
        parse_records(b, pos) == frames,
    decreases frames.len(),
{
    if frames.len() > 0 {
        let f = frames[0];
        let rest = frames.drop_first();
        assert(enc_records(frames) == enc_record(f) + enc_records(rest));
        assert(occurs_at(b, pos, enc_record(f) + enc_records(rest)));
        lemma_occurs_split(b, pos, enc_record(f), enc_records(rest));
        lemma_occurs_split(b, pos, len_le(f.len()), f);
        assert(frames[0].len() <= u64::MAX);
        lemma_u64_le(b, pos, f.len() as u64);
        assert forall|i: int| 0 <= i < rest.len() implies (#[trigger] rest[i]).len() <= u64::MAX by {
            assert(rest[i] == frames[i + 1]);
        }
        lemma_records(b, pos + 8 + f.len(), rest);
        assert(seq![f] + rest =~= frames);
    } else {
        assert(pos + enc_records(frames).len() == pos);
    }
}

/// The log record of a frame.
pub fn frame_record(frame: &Vec<u8>) -> (r: Vec<u8>)
    ensures
        r@ == enc_record(frame@),
{
    let mut out: Vec<u8> = Vec::new();
    put_u64(&mut out, frame.len() as u64);
    let ghost mid = out@;
    let mut i: usize = 0;
    while i < frame.len()
        invariant
            i <= frame@.len(),
            out@ == mid + frame@.subrange(0, i as int),
            mid == len_le(frame@.len()),
        decreases frame.len() - i,
    {
        out.push(frame[i]);
        assert(frame@.subrange(0, i + 1) == frame@.subrange(0, i as int).push(frame@[i as int]));
        i = i + 1;
    }
    assert(frame@.subrange(0, frame@.len() as int) == frame@);
    out
}

/// The frames of the complete records in `bytes`, oldest first; an
/// incomplete record at the end, left by an interrupted append, is
/// ignored.
pub fn split_frames(bytes: &[u8]) -> (r: Vec<Vec<u8>>)
    ensures
        r@.map_values(|v: Vec<u8>| v@) == parse_records(bytes@, 0),
{
    let mut out: Vec<Vec<u8>> = Vec::new();
    let mut pos: usize = 0;
    assert(out@.map_values(|v: Vec<u8>| v@) + parse_records(bytes@, 0) =~= parse_records(bytes@, 0));
    while pos <= bytes.len()
        invariant
            pos <= bytes@.len(),
            out@.map_values(|v: Vec<u8>| v@) + parse_records(bytes@, pos as int) == parse_records(bytes@, 0),
        decreases bytes.len() + 1 - pos,
    {
        let (n, p) = match get_u64(bytes, pos) {
            Some(x) => x,
            None => {
                assert(parse_records(bytes@, pos as int) == Seq::<Seq<u8>>::empty());
                assert(out@.map_values(|v: Vec<u8>| v@) + Seq::<Seq<u8>>::empty() =~= out@.map_values(|v: Vec<u8>| v@));
                return out;
            },
        };
        let rest: u64 = (bytes.len() - p) as u64;
        if rest < n {
            assert(parse_records(bytes@, pos as int) == Seq::<Seq<u8>>::empty());
            assert(out@.map_values(|v: Vec<u8>| v@) + Seq::<Seq<u8>>::empty() =~= out@.map_values(|v: Vec<u8>| v@));
            return out;
        }
        let end = p + n as usize;
        let frame = slice_subrange(bytes, p, end);
        let v = vstd::slice::slice_to_vec(frame);
        let ghost before = out@.map_values(|v: Vec<u8>| v@);
        let ghost fv = v@;
        assert(fv == bytes@.subrange(p as int, end as int));
        out.push(v);
        assert(out@.map_values(|v: Vec<u8>| v@) =~= before.push(fv));
        assert(parse_records(bytes@, pos as int) == seq![fv] + parse_records(bytes@, end as int));
        assert(before.push(fv) + parse_records(bytes@, end as int) =~= before + (seq![fv] + parse_records(bytes@, end as int)));
        pos = end;
    }
    out
}

} // verus!
