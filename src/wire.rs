use crate::block::{
    AssetModel, Block, BlockModel, Body, BodyModel, Header, HeaderModel, Input, InputModel, MintGroup,
    MintGroupModel, Output, Transaction, TransactionModel, Asset, HASH_LEN, POLICY_ID_LEN, views,
};
use vstd::prelude::*;

verus! {

/// Why a byte sequence is not the encoding of a block.
#[derive(Clone, Copy, Debug, PartialEq, Eq, Structural)]
pub enum DecodeError {
    /// The input ends in the middle of a field.
    Truncated,
    /// A digest does not have its fixed length.
    BadDigestLength,
    /// A presence marker is neither 0 nor 1.
    BadPresenceFlag,
    /// Bytes remain after the block.
    TrailingBytes,
}

/// The eight big-endian bytes of `x`.
pub open spec fn u64_bytes(x: u64) -> Seq<u8> {
    seq![
        ((x >> 56u64) & 0xffu64) as u8,
        ((x >> 48u64) & 0xffu64) as u8,
        ((x >> 40u64) & 0xffu64) as u8,
        ((x >> 32u64) & 0xffu64) as u8,
        ((x >> 24u64) & 0xffu64) as u8,
        ((x >> 16u64) & 0xffu64) as u8,
        ((x >> 8u64) & 0xffu64) as u8,
        (x & 0xffu64) as u8,
    ]
}

/// The integer whose big-endian bytes begin `s`.
pub open spec fn u64_from(s: Seq<u8>) -> u64
    recommends
        s.len() >= 8,
{
    (s[0] as u64) << 56u64 | (s[1] as u64) << 48u64 | (s[2] as u64) << 40u64 | (s[3] as u64)
        << 32u64 | (s[4] as u64) << 24u64 | (s[5] as u64) << 16u64 | (s[6] as u64) << 8u64
        | (s[7] as u64)
}

pub open spec fn parse_u64(s: Seq<u8>) -> Result<(u64, nat), DecodeError> {
    if s.len() < 8 {
        Err(DecodeError::Truncated)
    } else {
        Ok((u64_from(s), 8))
    }
}

proof fn lemma_u64_bytes(x: u64)
    ensures
        u64_from(u64_bytes(x)) == x,
{
    assert(
        (((((x >> 56u64) & 0xffu64) as u8) as u64) << 56u64)
            | (((((x >> 48u64) & 0xffu64) as u8) as u64) << 48u64)
            | (((((x >> 40u64) & 0xffu64) as u8) as u64) << 40u64)
            | (((((x >> 32u64) & 0xffu64) as u8) as u64) << 32u64)
            | (((((x >> 24u64) & 0xffu64) as u8) as u64) << 24u64)
            | (((((x >> 16u64) & 0xffu64) as u8) as u64) << 16u64)
            | (((((x >> 8u64) & 0xffu64) as u8) as u64) << 8u64)
            | (((x & 0xffu64) as u8) as u64)
            == x
    )
        by (bit_vector);
}

/// Round trip of one integer, whatever follows it.
pub proof fn lemma_parse_u64(x: u64, rest: Seq<u8>)
    ensures
        parse_u64(u64_bytes(x) + rest) == Ok::<(u64, nat), DecodeError>((x, 8)),
{
    lemma_u64_bytes(x);
    let s = u64_bytes(x) + rest;
    assert(s.subrange(0, 8) =~= u64_bytes(x));
    assert(u64_from(s) == u64_from(u64_bytes(x)));
}

proof fn lemma_i64_cast(q: i64)
    ensures
        (q as u64) as i64 == q,
{
    assert((q as u64) as i64 == q) by (bit_vector);
}


/// A length-prefixed byte string.
pub open spec fn bytes_encoding(b: Seq<u8>) -> Seq<u8> {
    u64_bytes(b.len() as u64) + b
}

pub open spec fn parse_bytes(s: Seq<u8>) -> Result<(Seq<u8>, nat), DecodeError> {
    match parse_u64(s) {
        Err(e) => Err(e),
        Ok((len, n)) => if s.len() - 8 < len {
            Err(DecodeError::Truncated)
        } else {
            Ok((s.subrange(8, 8 + len as int), 8 + len as nat))
        },
    }
}

/// A byte string that must hold exactly `len` bytes.
pub open spec fn parse_digest(s: Seq<u8>, len: nat) -> Result<(Seq<u8>, nat), DecodeError> {
    match parse_bytes(s) {
        Err(e) => Err(e),
        Ok((d, n)) => if d.len() != len {
            Err(DecodeError::BadDigestLength)
        } else {
            Ok((d, n))
        },
    }
}

pub proof fn lemma_parse_bytes(b: Seq<u8>, rest: Seq<u8>)
    requires
        b.len() <= u64::MAX,
    ensures
        parse_bytes(bytes_encoding(b) + rest) == Ok::<(Seq<u8>, nat), DecodeError>(
            (b, bytes_encoding(b).len()),
        ),
{
    let s = bytes_encoding(b) + rest;
    assert(s =~= u64_bytes(b.len() as u64) + (b + rest));
    lemma_parse_u64(b.len() as u64, b + rest);
    assert(s.subrange(8, 8 + b.len() as int) =~= b);
}

proof fn lemma_u64_from_bytes(s: Seq<u8>)
    requires
        s.len() >= 8,
    ensures
        u64_bytes(u64_from(s)) == s.take(8),
{
    let b0 = s[0];
    let b1 = s[1];
    let b2 = s[2];
    let b3 = s[3];
    let b4 = s[4];
    let b5 = s[5];
    let b6 = s[6];
    let b7 = s[7];
    let x = u64_from(s);
    assert(((x >> 56u64) & 0xffu64) as u8 == b0 && ((x >> 48u64) & 0xffu64) as u8 == b1 && ((x
        >> 40u64) & 0xffu64) as u8 == b2 && ((x >> 32u64) & 0xffu64) as u8 == b3 && ((x >> 24u64)
        & 0xffu64) as u8 == b4 && ((x >> 16u64) & 0xffu64) as u8 == b5 && ((x >> 8u64) & 0xffu64) as u8
        == b6 && (x & 0xffu64) as u8 == b7) by (bit_vector)
        requires
            x == ((b0 as u64) << 56u64 | (b1 as u64) << 48u64 | (b2 as u64) << 40u64 | (b3 as u64)
                << 32u64 | (b4 as u64) << 24u64 | (b5 as u64) << 16u64 | (b6 as u64) << 8u64
                | (b7 as u64)),
    ;
    assert(u64_bytes(x) =~= s.take(8));
}

proof fn lemma_u64_cast(x: u64)
    ensures
        (x as i64) as u64 == x,
{
    assert((x as i64) as u64 == x) by (bit_vector);
}

proof fn lemma_parse_u64_sound(s: Seq<u8>)
    ensures
        parse_u64(s) matches Ok((x, n)) ==> n == 8 && n <= s.len() && s.take(8) == u64_bytes(x),
{
    if s.len() >= 8 {
        lemma_u64_from_bytes(s);
    }
}

proof fn lemma_parse_bytes_sound(s: Seq<u8>)
    ensures
        parse_bytes(s) matches Ok((d, n)) ==> n <= s.len() && d.len() <= u64::MAX && s.take(
            n as int,
        ) == bytes_encoding(d),
{
    lemma_parse_u64_sound(s);
    if let Ok((d, n)) = parse_bytes(s) {
        let len = u64_from(s);
        assert(d.len() == len);
        assert(s.take(n as int) =~= s.take(8) + d);
    }
}

proof fn lemma_take_split(s: Seq<u8>, a: int, b: int)
    requires
        0 <= a,
        0 <= b,
        a + b <= s.len(),
    ensures
        s.take(a + b) == s.take(a) + s.skip(a).take(b),
{
    assert(s.take(a + b) =~= s.take(a) + s.skip(a).take(b));
}

/// Whether an executable parse result agrees with a parse of the model.
pub open spec fn decoded<T: View>(
    r: Result<(T, usize), DecodeError>,
    pos: usize,
    sp: Result<(T::V, nat), DecodeError>,
) -> bool {
    match sp {
        Ok((m, n)) => r matches Ok((v, p)) && v@ == m && p == pos + n,
        Err(e) => r matches Err(e2) && e2 == e,
    }
}

fn write_u64(out: &mut Vec<u8>, x: u64)
    ensures
        final(out)@ == old(out)@ + u64_bytes(x),
{
    out.push(((x >> 56u64) & 0xffu64) as u8);
    out.push(((x >> 48u64) & 0xffu64) as u8);
    out.push(((x >> 40u64) & 0xffu64) as u8);
    out.push(((x >> 32u64) & 0xffu64) as u8);
    out.push(((x >> 24u64) & 0xffu64) as u8);
    out.push(((x >> 16u64) & 0xffu64) as u8);
    out.push(((x >> 8u64) & 0xffu64) as u8);
    out.push((x & 0xffu64) as u8);
    assert(out@ =~= old(out)@ + u64_bytes(x));
}

fn read_u64(s: &[u8], pos: usize) -> (r: Result<(u64, usize), DecodeError>)
    requires
        pos <= s@.len(),
    ensures
        match parse_u64(s@.skip(pos as int)) {
            Ok((x, n)) => r matches Ok((v, p)) && v == x && p == pos + n,
            Err(e) => r matches Err(e2) && e2 == e,
        },
        r matches Ok((_, p)) ==> p <= s@.len(),
{
    if s.len() - pos < 8 {
        return Err(DecodeError::Truncated);
    }
    let x = (s[pos] as u64) << 56u64 | (s[pos + 1] as u64) << 48u64 | (s[pos + 2] as u64) << 40u64
        | (s[pos + 3] as u64) << 32u64 | (s[pos + 4] as u64) << 24u64 | (s[pos + 5] as u64)
        << 16u64 | (s[pos + 6] as u64) << 8u64 | (s[pos + 7] as u64);
    Ok((x, pos + 8))
}

fn write_bytes(out: &mut Vec<u8>, b: &Vec<u8>)
    ensures
        final(out)@ == old(out)@ + bytes_encoding(b@),
{
    write_u64(out, b.len() as u64);
    let ghost start = out@;
    let mut i: usize = 0;
    while i < b.len()
        invariant
            i <= b@.len(),
            out@ == start + b@.take(i as int),
            start == old(out)@ + u64_bytes(b@.len() as u64),
        decreases b@.len() - i,
    {
        out.push(b[i]);
        i = i + 1;
        assert(out@ =~= start + b@.take(i as int));
    }
    assert(b@.take(i as int) =~= b@);
    assert(out@ =~= old(out)@ + bytes_encoding(b@));
}

fn read_bytes(s: &[u8], pos: usize) -> (r: Result<(Vec<u8>, usize), DecodeError>)
    requires
        pos <= s@.len(),
    ensures
        decoded(r, pos, parse_bytes(s@.skip(pos as int))),
        r matches Ok((_, p)) ==> p <= s@.len(),
{
    let (len, p) = match read_u64(s, pos) {
        Ok(v) => v,
        Err(e) => {
            return Err(e);
        },
    };
    if len > (s.len() - p) as u64 {
        return Err(DecodeError::Truncated);
    }
    let end = p + len as usize;
    let mut v: Vec<u8> = Vec::new();
    let mut i: usize = p;
    while i < end
        invariant
            p <= i <= end <= s@.len(),
            v@ == s@.subrange(p as int, i as int),
        decreases end - i,
    {
        v.push(s[i]);
        i = i + 1;
        assert(v@ =~= s@.subrange(p as int, i as int));
    }
    assert(s@.skip(pos as int).subrange(8, 8 + len as int) =~= s@.subrange(p as int, end as int));
    Ok((v, end))
}

fn read_digest(s: &[u8], pos: usize, len: usize) -> (r: Result<(Vec<u8>, usize), DecodeError>)
    requires
        pos <= s@.len(),
    ensures
        decoded(r, pos, parse_digest(s@.skip(pos as int), len as nat)),
        r matches Ok((_, p)) ==> p <= s@.len(),
{
    let (d, p) = match read_bytes(s, pos) {
        Ok(v) => v,
        Err(e) => {
            return Err(e);
        },
    };
    if d.len() != len {
        return Err(DecodeError::BadDigestLength);
    }
    Ok((d, p))
}


/// A part of a block with a canonical binary encoding.
pub trait Wire: View + Sized {
    /// Every length in the value fits in a 64-bit length prefix.
    spec fn fits(m: Self::V) -> bool;

    /// Every digest in the value has its fixed length.
    spec fn well_formed(m: Self::V) -> bool;

    spec fn encoding(m: Self::V) -> Seq<u8>;

    /// Reads one value from the front of `s`, with the number of bytes used.
    spec fn parse(s: Seq<u8>) -> Result<(Self::V, nat), DecodeError>;

    proof fn lemma_round_trip(m: Self::V, rest: Seq<u8>)
        requires
            Self::fits(m),
            Self::well_formed(m),
        ensures
            Self::parse(Self::encoding(m) + rest) == Ok::<(Self::V, nat), DecodeError>(
                (m, Self::encoding(m).len()),
            ),
    ;

    /// What a successful parse reads is exactly the encoding of a valid value.
    proof fn lemma_parse_sound(s: Seq<u8>)
        ensures
            Self::parse(s) matches Ok((m, n)) ==> n <= s.len() && Self::fits(m) && Self::well_formed(
                m,
            ) && s.take(n as int) == Self::encoding(m),
    ;

    fn encode_into(&self, out: &mut Vec<u8>)
        requires
            Self::fits(self@),
        ensures
            final(out)@ == old(out)@ + Self::encoding(self@),
    ;

    fn decode_at(s: &[u8], pos: usize) -> (r: Result<(Self, usize), DecodeError>)
        requires
            pos <= s@.len(),
        ensures
            decoded(r, pos, Self::parse(s@.skip(pos as int))),
            r matches Ok((_, p)) ==> p <= s@.len(),
    ;
}

pub open spec fn all_fit<T: Wire>(ms: Seq<T::V>) -> bool {
    &&& ms.len() <= u64::MAX
    &&& forall|i: int| 0 <= i < ms.len() ==> T::fits(#[trigger] ms[i])
}

pub open spec fn all_well_formed<T: Wire>(ms: Seq<T::V>) -> bool {
    forall|i: int| 0 <= i < ms.len() ==> T::well_formed(#[trigger] ms[i])
}

/// The encodings of the items, one after the other.
pub open spec fn items_encoding<T: Wire>(ms: Seq<T::V>) -> Seq<u8>
    decreases ms.len(),
{
    if ms.len() == 0 {
        Seq::empty()
    } else {
        T::encoding(ms[0]) + items_encoding::<T>(ms.drop_first())
    }
}

/// A count, then the items.
#[verifier::opaque]
pub open spec fn list_encoding<T: Wire>(ms: Seq<T::V>) -> Seq<u8> {
    u64_bytes(ms.len() as u64) + items_encoding::<T>(ms)
}

/// Reads `count` items from the front of `s`.
pub open spec fn parse_items<T: Wire>(s: Seq<u8>, count: nat) -> Result<
    (Seq<T::V>, nat),
    DecodeError,
>
    decreases count,
{
    if count == 0 {
        Ok((Seq::empty(), 0))
    } else {
        match T::parse(s) {
            Err(e) => Err(e),
            Ok((m, n)) => match parse_items::<T>(s.skip(n as int), (count - 1) as nat) {
                Err(e) => Err(e),
                Ok((ms, k)) => Ok((seq![m] + ms, n + k)),
            },
        }
    }
}

#[verifier::opaque]
pub open spec fn parse_list<T: Wire>(s: Seq<u8>) -> Result<(Seq<T::V>, nat), DecodeError> {
    match parse_u64(s) {
        Err(e) => Err(e),
        Ok((count, _)) => match parse_items::<T>(s.skip(8), count as nat) {
            Err(e) => Err(e),
            Ok((ms, k)) => Ok((ms, 8 + k)),
        },
    }
}

/// A presence marker, then the value if present.
pub open spec fn option_encoding<T: Wire>(m: Option<T::V>) -> Seq<u8> {
    match m {
        None => seq![0u8],
        Some(v) => seq![1u8] + T::encoding(v),
    }
}

pub open spec fn parse_option<T: Wire>(s: Seq<u8>) -> Result<(Option<T::V>, nat), DecodeError> {
    if s.len() == 0 {
        Err(DecodeError::Truncated)
    } else if s[0] == 0 {
        Ok((None, 1))
    } else if s[0] == 1 {
        match T::parse(s.skip(1)) {
            Err(e) => Err(e),
            Ok((m, n)) => Ok((Some(m), 1 + n)),
        }
    } else {
        Err(DecodeError::BadPresenceFlag)
    }
}

proof fn lemma_items_encoding_push<T: Wire>(ms: Seq<T::V>, m: T::V)
    ensures
        items_encoding::<T>(ms.push(m)) == items_encoding::<T>(ms) + T::encoding(m),
    decreases ms.len(),
{
    if ms.len() == 0 {
        assert(ms.push(m).drop_first() =~= Seq::<T::V>::empty());
        assert(items_encoding::<T>(Seq::<T::V>::empty()) == Seq::<u8>::empty());
        assert(ms.push(m)[0] == m);
        assert(items_encoding::<T>(ms) == Seq::<u8>::empty());
        assert(items_encoding::<T>(ms.push(m)) =~= T::encoding(m));
    } else {
        assert(ms.push(m).drop_first() =~= ms.drop_first().push(m));
        lemma_items_encoding_push::<T>(ms.drop_first(), m);
        assert(items_encoding::<T>(ms.push(m)) =~= items_encoding::<T>(ms) + T::encoding(m));
    }
}

pub proof fn lemma_items_round_trip<T: Wire>(ms: Seq<T::V>, rest: Seq<u8>)
    requires
        all_fit::<T>(ms),
        all_well_formed::<T>(ms),
    ensures
        parse_items::<T>(items_encoding::<T>(ms) + rest, ms.len()) == Ok::<
            (Seq<T::V>, nat),
            DecodeError,
        >((ms, items_encoding::<T>(ms).len())),
    decreases ms.len(),
{
    if ms.len() == 0 {
        assert(items_encoding::<T>(ms) + rest =~= rest);
        assert(ms =~= Seq::<T::V>::empty());
    } else {
        let m = ms[0];
        let tl = ms.drop_first();
        let tail = items_encoding::<T>(tl) + rest;
        assert(items_encoding::<T>(ms) + rest =~= T::encoding(m) + tail);
        T::lemma_round_trip(m, tail);
        assert((T::encoding(m) + tail).skip(T::encoding(m).len() as int) =~= tail);
        assert forall|i: int| 0 <= i < tl.len() implies T::fits(#[trigger] tl[i]) && T::well_formed(
            tl[i],
        ) by {
            assert(tl[i] == ms[i + 1]);
        }
        lemma_items_round_trip::<T>(tl, rest);
        assert(seq![m] + tl =~= ms);
    }
}

/// Round trip of a counted list of values, whatever follows it.
pub proof fn lemma_list_round_trip<T: Wire>(ms: Seq<T::V>, rest: Seq<u8>)
    requires
        all_fit::<T>(ms),
        all_well_formed::<T>(ms),
    ensures
        parse_list::<T>(list_encoding::<T>(ms) + rest) == Ok::<(Seq<T::V>, nat), DecodeError>(
            (ms, list_encoding::<T>(ms).len()),
        ),
{
    reveal(list_encoding);
    reveal(parse_list);
    let tail = items_encoding::<T>(ms) + rest;
    assert(list_encoding::<T>(ms) + rest =~= u64_bytes(ms.len() as u64) + tail);
    lemma_parse_u64(ms.len() as u64, tail);
    assert((u64_bytes(ms.len() as u64) + tail).skip(8) =~= tail);
    lemma_items_round_trip::<T>(ms, rest);
}

/// Round trip of an optional value, whatever follows it.
pub proof fn lemma_option_round_trip<T: Wire>(m: Option<T::V>, rest: Seq<u8>)
    requires
        m matches Some(v) ==> T::fits(v) && T::well_formed(v),
    ensures
        parse_option::<T>(option_encoding::<T>(m) + rest) == Ok::<
            (Option<T::V>, nat),
            DecodeError,
        >((m, option_encoding::<T>(m).len())),
{
    let s = option_encoding::<T>(m) + rest;
    if let Some(v) = m {
        T::lemma_round_trip(v, rest);
        assert(s.skip(1) =~= T::encoding(v) + rest);
    }
}

proof fn lemma_items_sound<T: Wire>(s: Seq<u8>, count: nat)
    ensures
        parse_items::<T>(s, count) matches Ok((ms, n)) ==> n <= s.len() && ms.len() == count
            && (forall|i: int| 0 <= i < ms.len() ==> T::fits(#[trigger] ms[i]))
            && all_well_formed::<T>(ms) && s.take(n as int) == items_encoding::<T>(ms),
    decreases count,
{
    if count == 0 {
        assert(s.take(0) =~= Seq::<u8>::empty());
    } else {
        T::lemma_parse_sound(s);
        if let Ok((m, n)) = T::parse(s) {
            let t = s.skip(n as int);
            lemma_items_sound::<T>(t, (count - 1) as nat);
            if let Ok((ms2, k)) = parse_items::<T>(t, (count - 1) as nat) {
                let ms = seq![m] + ms2;
                lemma_take_split(s, n as int, k as int);
                assert(ms[0] == m);
                assert(ms.drop_first() =~= ms2);
                assert forall|i: int| 0 <= i < ms.len() implies T::fits(#[trigger] ms[i])
                    && T::well_formed(ms[i]) by {
                    if i > 0 {
                        assert(ms[i] == ms2[i - 1]);
                    }
                }
            }
        }
    }
}

proof fn lemma_list_sound<T: Wire>(s: Seq<u8>)
    ensures
        parse_list::<T>(s) matches Ok((ms, n)) ==> n <= s.len() && all_fit::<T>(ms)
            && all_well_formed::<T>(ms) && s.take(n as int) == list_encoding::<T>(ms),
{
    reveal(parse_list);
    reveal(list_encoding);
    lemma_parse_u64_sound(s);
    if let Ok((count, _)) = parse_u64(s) {
        lemma_items_sound::<T>(s.skip(8), count as nat);
        if let Ok((ms, k)) = parse_items::<T>(s.skip(8), count as nat) {
            lemma_take_split(s, 8, k as int);
        }
    }
}

proof fn lemma_option_sound<T: Wire>(s: Seq<u8>)
    ensures
        parse_option::<T>(s) matches Ok((m, n)) ==> n <= s.len() && (m matches Some(v) ==> T::fits(
            v,
        ) && T::well_formed(v)) && s.take(n as int) == option_encoding::<T>(m),
{
    if s.len() > 0 {
        if s[0] == 0 {
            assert(s.take(1) =~= seq![0u8]);
        } else if s[0] == 1 {
            T::lemma_parse_sound(s.skip(1));
            if let Ok((v, n)) = T::parse(s.skip(1)) {
                lemma_take_split(s, 1, n as int);
                assert(s.take(1) =~= seq![1u8]);
            }
        }
    }
}

fn encode_list<T: Wire>(items: &Vec<T>, out: &mut Vec<u8>)
    requires
        all_fit::<T>(views(items@)),
    ensures
        final(out)@ == old(out)@ + list_encoding::<T>(views(items@)),
{
    reveal(list_encoding);
    let ghost ms = views(items@);
    write_u64(out, items.len() as u64);
    let ghost start = out@;
    let mut i: usize = 0;
    while i < items.len()
        invariant
            ms == views(items@),
            all_fit::<T>(ms),
            i <= items@.len(),
            start == old(out)@ + u64_bytes(ms.len() as u64),
            out@ == start + items_encoding::<T>(ms.take(i as int)),
        decreases items@.len() - i,
    {
        assert(T::fits(ms[i as int]));
        items[i].encode_into(out);
        proof {
            assert(ms.take(i + 1) =~= ms.take(i as int).push(ms[i as int]));
            lemma_items_encoding_push::<T>(ms.take(i as int), ms[i as int]);
        }
        i = i + 1;
        assert(out@ =~= start + items_encoding::<T>(ms.take(i as int)));
    }
    assert(ms.take(i as int) =~= ms);
    assert(out@ =~= old(out)@ + list_encoding::<T>(ms));
}

fn decode_items<T: Wire>(s: &[u8], pos: usize, count: u64) -> (r: Result<(Vec<T>, usize), DecodeError>)
    requires
        pos <= s@.len(),
    ensures
        match parse_items::<T>(s@.skip(pos as int), count as nat) {
            Ok((ms, n)) => r matches Ok((v, p)) && views(v@) == ms && p == pos + n,
            Err(e) => r matches Err(e2) && e2 == e,
        },
        r matches Ok((_, p)) ==> p <= s@.len(),
{
    let mut v: Vec<T> = Vec::new();
    let mut p: usize = pos;
    let mut i: u64 = 0;
    while i < count
        invariant
            pos <= p <= s@.len(),
            i <= count,
            parse_items::<T>(s@.skip(pos as int), count as nat) == match parse_items::<T>(
                s@.skip(p as int),
                (count - i) as nat,
            ) {
                Err(e) => Err(e),
                Ok((ms, k)) => Ok((views(v@) + ms, ((p - pos) + k) as nat)),
            },
        decreases count - i,
    {
        match T::decode_at(s, p) {
            Err(e) => {
                return Err(e);
            },
            Ok((t, q)) => {
                proof {
                    assert(s@.skip(p as int).skip(q - p) =~= s@.skip(q as int));
                }
                let ghost old_views = views(v@);
                v.push(t);
                assert(views(v@) =~= old_views.push(t@));
                proof {
                    let rest = parse_items::<T>(s@.skip(q as int), (count - i - 1) as nat);
                    if let Ok((ms, k)) = rest {
                        assert(old_views + (seq![t@] + ms) =~= views(v@) + ms);
                    }
                }
                p = q;
                i = i + 1;
            },
        }
    }
    assert(views(v@) + Seq::<T::V>::empty() =~= views(v@));
    Ok((v, p))
}

fn decode_list<T: Wire>(s: &[u8], pos: usize) -> (r: Result<(Vec<T>, usize), DecodeError>)
    requires
        pos <= s@.len(),
    ensures
        match parse_list::<T>(s@.skip(pos as int)) {
            Ok((ms, n)) => r matches Ok((v, p)) && views(v@) == ms && p == pos + n,
            Err(e) => r matches Err(e2) && e2 == e,
        },
        r matches Ok((_, p)) ==> p <= s@.len(),
{
    reveal(parse_list);
    let (count, p) = match read_u64(s, pos) {
        Ok(v) => v,
        Err(e) => {
            return Err(e);
        },
    };
    assert(s@.skip(pos as int).skip(8) =~= s@.skip(p as int));
    decode_items::<T>(s, p, count)
}

fn encode_option<T: Wire>(v: &Option<T>, out: &mut Vec<u8>)
    requires
        v matches Some(t) ==> T::fits(t@),
    ensures
        final(out)@ == old(out)@ + option_encoding::<T>(
            match v {
                Some(t) => Some(t@),
                None => None,
            },
        ),
{
    match v {
        None => {
            out.push(0u8);
            assert(out@ =~= old(out)@ + seq![0u8]);
        },
        Some(t) => {
            out.push(1u8);
            t.encode_into(out);
            assert(out@ =~= old(out)@ + (seq![1u8] + T::encoding(t@)));
        },
    }
}

fn decode_option<T: Wire>(s: &[u8], pos: usize) -> (r: Result<(Option<T>, usize), DecodeError>)
    requires
        pos <= s@.len(),
    ensures
        match parse_option::<T>(s@.skip(pos as int)) {
            Ok((m, n)) => r matches Ok((v, p)) && p == pos + n && match v {
                Some(t) => m == Some(t@),
                None => m is None,
            },
            Err(e) => r matches Err(e2) && e2 == e,
        },
        r matches Ok((_, p)) ==> p <= s@.len(),
{
    if pos >= s.len() {
        return Err(DecodeError::Truncated);
    }
    let flag = s[pos];
    if flag == 0 {
        Ok((None, pos + 1))
    } else if flag == 1 {
        assert(s@.skip(pos as int).skip(1) =~= s@.skip(pos + 1));
        match T::decode_at(s, pos + 1) {
            Err(e) => Err(e),
            Ok((t, p)) => Ok((Some(t), p)),
        }
    } else {
        Err(DecodeError::BadPresenceFlag)
    }
}


proof fn lemma_skip_append(a: Seq<u8>, b: Seq<u8>)
    ensures
        (a + b).skip(a.len() as int) == b,
{
    assert((a + b).skip(a.len() as int) =~= b);
}

proof fn lemma_skip_skip(s: Seq<u8>, a: int, b: int)
    requires
        0 <= a <= b <= s.len(),
    ensures
        s.skip(a).skip(b - a) == s.skip(b),
{
    assert(s.skip(a).skip(b - a) =~= s.skip(b));
}

impl Wire for Output {
    proof fn lemma_parse_sound(s: Seq<u8>) {
        lemma_parse_u64_sound(s);
    }

    open spec fn fits(m: Output) -> bool {
        true
    }

    open spec fn well_formed(m: Output) -> bool {
        true
    }

    open spec fn encoding(m: Output) -> Seq<u8> {
        u64_bytes(m.coin)
    }

    open spec fn parse(s: Seq<u8>) -> Result<(Output, nat), DecodeError> {
        match parse_u64(s) {
            Err(e) => Err(e),
            Ok((x, n)) => Ok((Output { coin: x }, n)),
        }
    }

    proof fn lemma_round_trip(m: Output, rest: Seq<u8>) {
        lemma_parse_u64(m.coin, rest);
    }

    fn encode_into(&self, out: &mut Vec<u8>) {
        write_u64(out, self.coin);
    }

    fn decode_at(s: &[u8], pos: usize) -> (r: Result<(Output, usize), DecodeError>) {
        match read_u64(s, pos) {
            Err(e) => Err(e),
            Ok((x, p)) => Ok((Output { coin: x }, p)),
        }
    }
}

impl Wire for Input {
    proof fn lemma_parse_sound(s: Seq<u8>) {
        lemma_parse_bytes_sound(s);
        if let Ok((h, n)) = parse_digest(s, HASH_LEN as nat) {
            lemma_parse_u64_sound(s.skip(n as int));
            if let Ok((x, k)) = parse_u64(s.skip(n as int)) {
                lemma_take_split(s, n as int, k as int);
            }
        }
    }

    open spec fn fits(m: InputModel) -> bool {
        m.tx_hash.len() <= u64::MAX
    }

    open spec fn well_formed(m: InputModel) -> bool {
        m.valid()
    }

    open spec fn encoding(m: InputModel) -> Seq<u8> {
        bytes_encoding(m.tx_hash) + u64_bytes(m.index)
    }

    open spec fn parse(s: Seq<u8>) -> Result<(InputModel, nat), DecodeError> {
        match parse_digest(s, HASH_LEN as nat) {
            Err(e) => Err(e),
            Ok((h, n)) => match parse_u64(s.skip(n as int)) {
                Err(e) => Err(e),
                Ok((x, k)) => Ok((InputModel { tx_hash: h, index: x }, n + k)),
            },
        }
    }

    proof fn lemma_round_trip(m: InputModel, rest: Seq<u8>) {
        let tail = u64_bytes(m.index) + rest;
        assert(Self::encoding(m) + rest =~= bytes_encoding(m.tx_hash) + tail);
        lemma_parse_bytes(m.tx_hash, tail);
        assert((bytes_encoding(m.tx_hash) + tail).skip(bytes_encoding(m.tx_hash).len() as int)
            =~= tail);
        lemma_parse_u64(m.index, rest);
    }

    fn encode_into(&self, out: &mut Vec<u8>) {
        write_bytes(out, &self.tx_hash);
        write_u64(out, self.index);
        assert(out@ =~= old(out)@ + Self::encoding(self@));
    }

    fn decode_at(s: &[u8], pos: usize) -> (r: Result<(Input, usize), DecodeError>) {
        let (tx_hash, p) = match read_digest(s, pos, HASH_LEN) {
            Ok(v) => v,
            Err(e) => {
                return Err(e);
            },
        };
        proof {
            lemma_skip_skip(s@, pos as int, p as int);
        }
        let (index, q) = match read_u64(s, p) {
            Ok(v) => v,
            Err(e) => {
                return Err(e);
            },
        };
        Ok((Input { tx_hash, index }, q))
    }
}

impl Wire for Asset {
    proof fn lemma_parse_sound(s: Seq<u8>) {
        lemma_parse_bytes_sound(s);
        if let Ok((name, n)) = parse_bytes(s) {
            lemma_parse_u64_sound(s.skip(n as int));
            if let Ok((x, k)) = parse_u64(s.skip(n as int)) {
                lemma_take_split(s, n as int, k as int);
                lemma_u64_cast(x);
            }
        }
    }

    open spec fn fits(m: AssetModel) -> bool {
        m.name.len() <= u64::MAX
    }

    open spec fn well_formed(m: AssetModel) -> bool {
        true
    }

    open spec fn encoding(m: AssetModel) -> Seq<u8> {
        bytes_encoding(m.name) + u64_bytes(m.mint_coin as u64)
    }

    open spec fn parse(s: Seq<u8>) -> Result<(AssetModel, nat), DecodeError> {
        match parse_bytes(s) {
            Err(e) => Err(e),
            Ok((name, n)) => match parse_u64(s.skip(n as int)) {
                Err(e) => Err(e),
                Ok((x, k)) => Ok((AssetModel { name, mint_coin: x as i64 }, n + k)),
            },
        }
    }

    proof fn lemma_round_trip(m: AssetModel, rest: Seq<u8>) {
        let tail = u64_bytes(m.mint_coin as u64) + rest;
        assert(Self::encoding(m) + rest =~= bytes_encoding(m.name) + tail);
        lemma_parse_bytes(m.name, tail);
        assert((bytes_encoding(m.name) + tail).skip(bytes_encoding(m.name).len() as int) =~= tail);
        lemma_parse_u64(m.mint_coin as u64, rest);
        lemma_i64_cast(m.mint_coin);
    }

    fn encode_into(&self, out: &mut Vec<u8>) {
        write_bytes(out, &self.name);
        write_u64(out, self.mint_coin as u64);
        assert(out@ =~= old(out)@ + Self::encoding(self@));
    }

    fn decode_at(s: &[u8], pos: usize) -> (r: Result<(Asset, usize), DecodeError>) {
        let (name, p) = match read_bytes(s, pos) {
            Ok(v) => v,
            Err(e) => {
                return Err(e);
            },
        };
        proof {
            lemma_skip_skip(s@, pos as int, p as int);
        }
        let (x, q) = match read_u64(s, p) {
            Ok(v) => v,
            Err(e) => {
                return Err(e);
            },
        };
        Ok((Asset { name, mint_coin: x as i64 }, q))
    }
}


impl Wire for MintGroup {
    proof fn lemma_parse_sound(s: Seq<u8>) {
        lemma_parse_bytes_sound(s);
        if let Ok((p, n)) = parse_digest(s, POLICY_ID_LEN as nat) {
            lemma_list_sound::<Asset>(s.skip(n as int));
            if let Ok((assets, k)) = parse_list::<Asset>(s.skip(n as int)) {
                lemma_take_split(s, n as int, k as int);
            }
        }
    }

    open spec fn fits(m: MintGroupModel) -> bool {
        m.policy_id.len() <= u64::MAX && all_fit::<Asset>(m.assets)
    }

    open spec fn well_formed(m: MintGroupModel) -> bool {
        m.valid()
    }

    open spec fn encoding(m: MintGroupModel) -> Seq<u8> {
        bytes_encoding(m.policy_id) + list_encoding::<Asset>(m.assets)
    }

    open spec fn parse(s: Seq<u8>) -> Result<(MintGroupModel, nat), DecodeError> {
        match parse_digest(s, POLICY_ID_LEN as nat) {
            Err(e) => Err(e),
            Ok((policy_id, n)) => match parse_list::<Asset>(s.skip(n as int)) {
                Err(e) => Err(e),
                Ok((assets, k)) => Ok((MintGroupModel { policy_id, assets }, n + k)),
            },
        }
    }

    proof fn lemma_round_trip(m: MintGroupModel, rest: Seq<u8>) {
        let tail = list_encoding::<Asset>(m.assets) + rest;
        assert(Self::encoding(m) + rest =~= bytes_encoding(m.policy_id) + tail);
        lemma_parse_bytes(m.policy_id, tail);
        assert((bytes_encoding(m.policy_id) + tail).skip(bytes_encoding(m.policy_id).len() as int)
            =~= tail);
        lemma_list_round_trip::<Asset>(m.assets, rest);
    }

    fn encode_into(&self, out: &mut Vec<u8>) {
        write_bytes(out, &self.policy_id);
        encode_list(&self.assets, out);
        assert(out@ =~= old(out)@ + Self::encoding(self@));
    }

    fn decode_at(s: &[u8], pos: usize) -> (r: Result<(MintGroup, usize), DecodeError>) {
        let (policy_id, p) = match read_digest(s, pos, POLICY_ID_LEN) {
            Ok(v) => v,
            Err(e) => {
                return Err(e);
            },
        };
        proof {
            lemma_skip_skip(s@, pos as int, p as int);
        }
        let (assets, q) = match decode_list::<Asset>(s, p) {
            Ok(v) => v,
            Err(e) => {
                return Err(e);
            },
        };
        Ok((MintGroup { policy_id, assets }, q))
    }
}

impl Wire for Transaction {
    #[verifier::rlimit(40)]
    proof fn lemma_parse_sound(s: Seq<u8>) {
        lemma_list_sound::<Input>(s);
        if let Ok((inputs, n1)) = parse_list::<Input>(s) {
            lemma_list_sound::<Output>(s.skip(n1 as int));
            if let Ok((outputs, n2)) = parse_list::<Output>(s.skip(n1 as int)) {
                lemma_take_split(s, n1 as int, n2 as int);
                lemma_parse_u64_sound(s.skip((n1 + n2) as int));
                if let Ok((fee, n3)) = parse_u64(s.skip((n1 + n2) as int)) {
                    lemma_take_split(s, (n1 + n2) as int, n3 as int);
                    lemma_list_sound::<MintGroup>(s.skip((n1 + n2 + n3) as int));
                    if let Ok((mint, n4)) = parse_list::<MintGroup>(s.skip((n1 + n2 + n3) as int)) {
                        lemma_take_split(s, (n1 + n2 + n3) as int, n4 as int);
                        let m = TransactionModel { inputs, outputs, fee, mint };
                        assert forall|i: int| 0 <= i < inputs.len() implies (
                        #[trigger] inputs[i]).valid() by {
                            assert(Input::well_formed(inputs[i]));
                        }
                        assert forall|i: int| 0 <= i < mint.len() implies (
                        #[trigger] mint[i]).valid() by {
                            assert(MintGroup::well_formed(mint[i]));
                        }
                        assert(m.valid());
                    }
                }
            }
        }
    }

    open spec fn fits(m: TransactionModel) -> bool {
        &&& all_fit::<Input>(m.inputs)
        &&& all_fit::<Output>(m.outputs)
        &&& all_fit::<MintGroup>(m.mint)
    }

    open spec fn well_formed(m: TransactionModel) -> bool {
        m.valid()
    }

    open spec fn encoding(m: TransactionModel) -> Seq<u8> {
        list_encoding::<Input>(m.inputs) + list_encoding::<Output>(m.outputs) + u64_bytes(m.fee)
            + list_encoding::<MintGroup>(m.mint)
    }

    open spec fn parse(s: Seq<u8>) -> Result<(TransactionModel, nat), DecodeError> {
        match parse_list::<Input>(s) {
            Err(e) => Err(e),
            Ok((inputs, n1)) => match parse_list::<Output>(s.skip(n1 as int)) {
                Err(e) => Err(e),
                Ok((outputs, n2)) => match parse_u64(s.skip((n1 + n2) as int)) {
                    Err(e) => Err(e),
                    Ok((fee, n3)) => match parse_list::<MintGroup>(s.skip((n1 + n2 + n3) as int)) {
                        Err(e) => Err(e),
                        Ok((mint, n4)) => Ok(
                            (TransactionModel { inputs, outputs, fee, mint }, n1 + n2 + n3 + n4),
                        ),
                    },
                },
            },
        }
    }

    proof fn lemma_round_trip(m: TransactionModel, rest: Seq<u8>) {
        let e1 = list_encoding::<Input>(m.inputs);
        let e2 = list_encoding::<Output>(m.outputs);
        let e3 = u64_bytes(m.fee);
        let e4 = list_encoding::<MintGroup>(m.mint);
        let t3 = e4 + rest;
        let t2 = e3 + t3;
        let t1 = e2 + t2;
        let s = Self::encoding(m) + rest;
        assert(s =~= e1 + t1);
        assert(all_well_formed::<Input>(m.inputs)) by {
            assert forall|i: int| 0 <= i < m.inputs.len() implies Input::well_formed(
                #[trigger] m.inputs[i],
            ) by {
                assert(m.inputs[i].valid());
            }
        }
        assert(all_well_formed::<MintGroup>(m.mint)) by {
            assert forall|i: int| 0 <= i < m.mint.len() implies MintGroup::well_formed(
                #[trigger] m.mint[i],
            ) by {
                assert(m.mint[i].valid());
            }
        }
        lemma_list_round_trip::<Input>(m.inputs, t1);
        lemma_skip_append(e1, t1);
        lemma_list_round_trip::<Output>(m.outputs, t2);
        lemma_skip_append(e1 + e2, t2);
        assert(s =~= (e1 + e2) + t2);
        lemma_parse_u64(m.fee, t3);
        lemma_skip_append(e1 + e2 + e3, t3);
        assert(s =~= (e1 + e2 + e3) + t3);
        lemma_list_round_trip::<MintGroup>(m.mint, rest);
    }

    #[verifier::rlimit(40)]
    fn encode_into(&self, out: &mut Vec<u8>) {
        let ghost m = self@;
        encode_list(&self.inputs, out);
        encode_list(&self.outputs, out);
        write_u64(out, self.fee);
        encode_list(&self.mint, out);
        assert(out@ =~= old(out)@ + Self::encoding(m));
    }

    #[verifier::rlimit(40)]
    fn decode_at(s: &[u8], pos: usize) -> (r: Result<(Transaction, usize), DecodeError>) {
        let (inputs, p1) = match decode_list::<Input>(s, pos) {
            Ok(v) => v,
            Err(e) => {
                return Err(e);
            },
        };
        proof {
            lemma_skip_skip(s@, pos as int, p1 as int);
        }
        let (outputs, p2) = match decode_list::<Output>(s, p1) {
            Ok(v) => v,
            Err(e) => {
                return Err(e);
            },
        };
        proof {
            lemma_skip_skip(s@, pos as int, p2 as int);
        }
        let (fee, p3) = match read_u64(s, p2) {
            Ok(v) => v,
            Err(e) => {
                return Err(e);
            },
        };
        proof {
            lemma_skip_skip(s@, pos as int, p3 as int);
        }
        let (mint, p4) = match decode_list::<MintGroup>(s, p3) {
            Ok(v) => v,
            Err(e) => {
                return Err(e);
            },
        };
        Ok((Transaction { inputs, outputs, fee, mint }, p4))
    }
}

impl Wire for Body {
    proof fn lemma_parse_sound(s: Seq<u8>) {
        lemma_list_sound::<Transaction>(s);
        if let Ok((tx, n)) = parse_list::<Transaction>(s) {
            assert forall|i: int| 0 <= i < tx.len() implies (#[trigger] tx[i]).valid() by {
                assert(Transaction::well_formed(tx[i]));
            }
        }
    }

    open spec fn fits(m: BodyModel) -> bool {
        all_fit::<Transaction>(m.tx)
    }

    open spec fn well_formed(m: BodyModel) -> bool {
        m.valid()
    }

    open spec fn encoding(m: BodyModel) -> Seq<u8> {
        list_encoding::<Transaction>(m.tx)
    }

    open spec fn parse(s: Seq<u8>) -> Result<(BodyModel, nat), DecodeError> {
        match parse_list::<Transaction>(s) {
            Err(e) => Err(e),
            Ok((tx, n)) => Ok((BodyModel { tx }, n)),
        }
    }

    proof fn lemma_round_trip(m: BodyModel, rest: Seq<u8>) {
        assert(all_well_formed::<Transaction>(m.tx));
        lemma_list_round_trip::<Transaction>(m.tx, rest);
    }

    fn encode_into(&self, out: &mut Vec<u8>) {
        encode_list(&self.tx, out);
    }

    fn decode_at(s: &[u8], pos: usize) -> (r: Result<(Body, usize), DecodeError>) {
        match decode_list::<Transaction>(s, pos) {
            Err(e) => Err(e),
            Ok((tx, p)) => Ok((Body { tx }, p)),
        }
    }
}

impl Wire for Header {
    proof fn lemma_parse_sound(s: Seq<u8>) {
        lemma_parse_u64_sound(s);
        if let Ok((slot, n)) = parse_u64(s) {
            lemma_parse_bytes_sound(s.skip(n as int));
            if let Ok((hash, k)) = parse_digest(s.skip(n as int), HASH_LEN as nat) {
                lemma_take_split(s, n as int, k as int);
            }
        }
    }

    open spec fn fits(m: HeaderModel) -> bool {
        m.hash.len() <= u64::MAX
    }

    open spec fn well_formed(m: HeaderModel) -> bool {
        m.valid()
    }

    open spec fn encoding(m: HeaderModel) -> Seq<u8> {
        u64_bytes(m.slot) + bytes_encoding(m.hash)
    }

    open spec fn parse(s: Seq<u8>) -> Result<(HeaderModel, nat), DecodeError> {
        match parse_u64(s) {
            Err(e) => Err(e),
            Ok((slot, n)) => match parse_digest(s.skip(n as int), HASH_LEN as nat) {
                Err(e) => Err(e),
                Ok((hash, k)) => Ok((HeaderModel { slot, hash }, n + k)),
            },
        }
    }

    proof fn lemma_round_trip(m: HeaderModel, rest: Seq<u8>) {
        let tail = bytes_encoding(m.hash) + rest;
        assert(Self::encoding(m) + rest =~= u64_bytes(m.slot) + tail);
        lemma_parse_u64(m.slot, tail);
        assert((u64_bytes(m.slot) + tail).skip(8) =~= tail);
        lemma_parse_bytes(m.hash, rest);
    }

    fn encode_into(&self, out: &mut Vec<u8>) {
        write_u64(out, self.slot);
        write_bytes(out, &self.hash);
        assert(out@ =~= old(out)@ + Self::encoding(self@));
    }

    fn decode_at(s: &[u8], pos: usize) -> (r: Result<(Header, usize), DecodeError>) {
        let (slot, p) = match read_u64(s, pos) {
            Ok(v) => v,
            Err(e) => {
                return Err(e);
            },
        };
        proof {
            lemma_skip_skip(s@, pos as int, p as int);
        }
        let (hash, q) = match read_digest(s, p, HASH_LEN) {
            Ok(v) => v,
            Err(e) => {
                return Err(e);
            },
        };
        Ok((Header { slot, hash }, q))
    }
}


impl Wire for Block {
    proof fn lemma_parse_sound(s: Seq<u8>) {
        lemma_option_sound::<Header>(s);
        if let Ok((header, n1)) = parse_option::<Header>(s) {
            lemma_option_sound::<Body>(s.skip(n1 as int));
            if let Ok((body, n2)) = parse_option::<Body>(s.skip(n1 as int)) {
                lemma_take_split(s, n1 as int, n2 as int);
                lemma_parse_u64_sound(s.skip((n1 + n2) as int));
                if let Ok((timestamp, n3)) = parse_u64(s.skip((n1 + n2) as int)) {
                    lemma_take_split(s, (n1 + n2) as int, n3 as int);
                }
            }
        }
    }

    open spec fn fits(m: BlockModel) -> bool {
        &&& (m.header matches Some(h) ==> Header::fits(h))
        &&& (m.body matches Some(b) ==> Body::fits(b))
    }

    open spec fn well_formed(m: BlockModel) -> bool {
        m.valid()
    }

    open spec fn encoding(m: BlockModel) -> Seq<u8> {
        option_encoding::<Header>(m.header) + option_encoding::<Body>(m.body) + u64_bytes(
            m.timestamp,
        )
    }

    open spec fn parse(s: Seq<u8>) -> Result<(BlockModel, nat), DecodeError> {
        match parse_option::<Header>(s) {
            Err(e) => Err(e),
            Ok((header, n1)) => match parse_option::<Body>(s.skip(n1 as int)) {
                Err(e) => Err(e),
                Ok((body, n2)) => match parse_u64(s.skip((n1 + n2) as int)) {
                    Err(e) => Err(e),
                    Ok((timestamp, n3)) => Ok((BlockModel { header, body, timestamp }, n1 + n2 + n3)),
                },
            },
        }
    }

    proof fn lemma_round_trip(m: BlockModel, rest: Seq<u8>) {
        let e1 = option_encoding::<Header>(m.header);
        let e2 = option_encoding::<Body>(m.body);
        let e3 = u64_bytes(m.timestamp);
        let t2 = e3 + rest;
        let t1 = e2 + t2;
        let s = Self::encoding(m) + rest;
        assert(s =~= e1 + t1);
        lemma_option_round_trip::<Header>(m.header, t1);
        lemma_skip_append(e1, t1);
        lemma_option_round_trip::<Body>(m.body, t2);
        assert(s =~= (e1 + e2) + t2);
        lemma_skip_append(e1 + e2, t2);
        lemma_parse_u64(m.timestamp, rest);
    }

    fn encode_into(&self, out: &mut Vec<u8>) {
        encode_option(&self.header, out);
        encode_option(&self.body, out);
        write_u64(out, self.timestamp);
        assert(out@ =~= old(out)@ + Self::encoding(self@));
    }

    fn decode_at(s: &[u8], pos: usize) -> (r: Result<(Block, usize), DecodeError>) {
        let (header, p1) = match decode_option::<Header>(s, pos) {
            Ok(v) => v,
            Err(e) => {
                return Err(e);
            },
        };
        proof {
            lemma_skip_skip(s@, pos as int, p1 as int);
        }
        let (body, p2) = match decode_option::<Body>(s, p1) {
            Ok(v) => v,
            Err(e) => {
                return Err(e);
            },
        };
        proof {
            lemma_skip_skip(s@, pos as int, p2 as int);
        }
        let (timestamp, p3) = match read_u64(s, p2) {
            Ok(v) => v,
            Err(e) => {
                return Err(e);
            },
        };
        Ok((Block { header, body, timestamp }, p3))
    }
}

/// The block that `s` encodes, with no bytes left over.
pub open spec fn decode_spec(s: Seq<u8>) -> Result<BlockModel, DecodeError> {
    match Block::parse(s) {
        Err(e) => Err(e),
        Ok((m, n)) => if n < s.len() {
            Err(DecodeError::TrailingBytes)
        } else {
            Ok(m)
        },
    }
}

/// The canonical encoding of a block.
pub fn encode(block: &Block) -> (r: Vec<u8>)
    requires
        Block::fits(block@),
    ensures
        r@ == Block::encoding(block@),
{
    let mut out: Vec<u8> = Vec::new();
    block.encode_into(&mut out);
    assert(out@ =~= Block::encoding(block@));
    out
}

/// Reads a block from its encoding; fails on malformed input without
/// producing any part of a block.
pub fn decode(bytes: &[u8]) -> (r: Result<Block, DecodeError>)
    ensures
        match decode_spec(bytes@) {
            Ok(m) => r matches Ok(b) && b@ == m,
            Err(e) => r matches Err(e2) && e2 == e,
        },
        r matches Ok(b) ==> b@.valid() && Block::fits(b@) && Block::encoding(b@) == bytes@,
{
    assert(bytes@.skip(0) =~= bytes@);
    proof {
        Block::lemma_parse_sound(bytes@);
        if let Ok((m, n)) = Block::parse(bytes@) {
            if n == bytes@.len() {
                assert(bytes@.take(n as int) =~= bytes@);
            }
        }
    }
    match Block::decode_at(bytes, 0) {
        Err(e) => Err(e),
        Ok((b, p)) => if p < bytes.len() {
            Err(DecodeError::TrailingBytes)
        } else {
            Ok(b)
        },
    }
}

/// Decoding the encoding of a valid block gives back that block, field for
/// field.
pub proof fn lemma_decode_encode(b: BlockModel)
    requires
        Block::fits(b),
        b.valid(),
    ensures
        decode_spec(Block::encoding(b)) == Ok::<BlockModel, DecodeError>(b),
{
    Block::lemma_round_trip(b, Seq::empty());
    assert(Block::encoding(b) + Seq::<u8>::empty() =~= Block::encoding(b));
}


/// A byte sequence decodes exactly when it is the encoding of a valid block,
/// and then to that block.
pub proof fn lemma_decode_exact(s: Seq<u8>)
    ensures
        decode_spec(s) matches Ok(m) ==> m.valid() && Block::fits(m) && Block::encoding(m) == s,
        forall|b: BlockModel|
            Block::fits(b) && b.valid() && #[trigger] Block::encoding(b) == s ==> decode_spec(s)
                == Ok::<BlockModel, DecodeError>(b),
{
    Block::lemma_parse_sound(s);
    if let Ok((m, n)) = Block::parse(s) {
        if n == s.len() {
            assert(s.take(n as int) =~= s);
        }
    }
    assert forall|b: BlockModel|
        Block::fits(b) && b.valid() && #[trigger] Block::encoding(b) == s implies decode_spec(s)
            == Ok::<BlockModel, DecodeError>(b) by {
        lemma_decode_encode(b);
    }
}

} // verus!
