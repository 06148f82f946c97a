//! The binary on-disk format of the quality map: an 8-byte magic constant,
//! a little-endian entry count, then per entry a length-prefixed name,
//! a length-prefixed barcode quality, a one-byte UMI-presence flag, and,
//! where the flag is 1, a length-prefixed UMI quality.  The entry count must
//! equal exactly the number of entries that follow.  Decoding stops with a
//! fatal error on a wrong magic, a truncated stream, a name that is not
//! valid UTF-8, or bytes left over after the promised entries.
use crate::qmap::{lemma_map_of_push, map_of, BqQuals, BqView, QualityMap};
use crate::text::bytes_valid_utf8;
use vstd::bytes::{
    lemma_auto_spec_u64_to_from_le_bytes, spec_u64_from_le_bytes, spec_u64_to_le_bytes,
};
use vstd::prelude::*;
use vstd::utf8::valid_utf8;

verus! {

/// Why a cache stream could not be decoded.
#[derive(Debug, PartialEq, Eq, Clone, Copy)]
pub enum CacheError {
    /// The stream does not open with the magic constant.
    BadMagic,
    /// The stream ended before a field it promised.
    Truncated,
    /// An entry's name bytes are not valid UTF-8.
    NameNotUtf8,
    /// The stream holds bytes beyond the promised entries: the entry count
    /// does not match the content.
    TrailingBytes,
}

/// The magic constant `TBQMAP01` that opens every cache stream.
pub open spec fn cache_magic() -> Seq<u8> {
    seq![84u8, 66u8, 81u8, 77u8, 65u8, 80u8, 48u8, 49u8]
}

/// Reading a little-endian u64 at `pos`: the value and the position after
/// it, or nothing where fewer than eight bytes remain.
pub open spec fn spec_read_u64(b: Seq<u8>, pos: int) -> Option<(u64, int)> {
    if 0 <= pos && pos + 8 <= b.len() {
        Some((spec_u64_from_le_bytes(b.subrange(pos, pos + 8)), pos + 8))
    } else {
        None
    }
}

/// Reading one byte at `pos`.
pub open spec fn spec_read_u8(b: Seq<u8>, pos: int) -> Option<(u8, int)> {
    if 0 <= pos && pos + 1 <= b.len() {
        Some((b[pos], pos + 1))
    } else {
        None
    }
}

/// Reading a length-prefixed byte string at `pos`.
pub open spec fn spec_read_bytes(b: Seq<u8>, pos: int) -> Option<(Seq<u8>, int)> {
    match spec_read_u64(b, pos) {
        None => None,
        Some((len, p)) => if p + len <= b.len() {
            Some((b.subrange(p, p + len), p + len))
        } else {
            None
        },
    }
}

/// Reading one cache entry at `pos`: name, barcode quality, flag, and
/// optional UMI quality, with truncation checked before the name's UTF-8
/// validity.
pub open spec fn spec_read_entry(b: Seq<u8>, pos: int) -> Result<
    ((Seq<u8>, BqView), int),
    CacheError,
> {
    match spec_read_bytes(b, pos) {
        None => Err(CacheError::Truncated),
        Some((name, p1)) => match spec_read_bytes(b, p1) {
            None => Err(CacheError::Truncated),
            Some((cb, p2)) => match spec_read_u8(b, p2) {
                None => Err(CacheError::Truncated),
                Some((flag, p3)) => if flag == 1 {
                    match spec_read_bytes(b, p3) {
                        None => Err(CacheError::Truncated),
                        Some((u, p4)) => if valid_utf8(name) {
                            Ok(((name, BqView { cb, umi: Some(u) }), p4))
                        } else {
                            Err(CacheError::NameNotUtf8)
                        },
                    }
                } else {
                    if valid_utf8(name) {
                        Ok(((name, BqView { cb, umi: None }), p3))
                    } else {
                        Err(CacheError::NameNotUtf8)
                    }
                },
            },
        },
    }
}

/// Reading `n` cache entries in sequence from `pos`.
pub open spec fn spec_read_entries(b: Seq<u8>, pos: int, n: nat) -> Result<
    (Seq<(Seq<u8>, BqView)>, int),
    CacheError,
>
    decreases n,
{
    if n == 0 {
        Ok((Seq::empty(), pos))
    } else {
        match spec_read_entry(b, pos) {
            Err(e) => Err(e),
            Ok((e, p)) => match spec_read_entries(b, p, (n - 1) as nat) {
                Err(e2) => Err(e2),
                Ok((rest, pf)) => Ok((seq![e] + rest, pf)),
            },
        }
    }
}

/// What a whole cache stream decodes to: its entry list in stream order.
/// The promised entries must use up the stream exactly; bytes left over are
/// a count/content mismatch and fatal.
pub open spec fn spec_parse_cache(b: Seq<u8>) -> Result<Seq<(Seq<u8>, BqView)>, CacheError> {
    if b.len() < 8 {
        Err(CacheError::Truncated)
    } else if b.subrange(0, 8) != cache_magic() {
        Err(CacheError::BadMagic)
    } else {
        match spec_read_u64(b, 8) {
            None => Err(CacheError::Truncated),
            Some((count, p)) => match spec_read_entries(b, p, count as nat) {
                Err(e) => Err(e),
                Ok((es, end)) => if end == b.len() {
                    Ok(es)
                } else {
                    Err(CacheError::TrailingBytes)
                },
            },
        }
    }
}

/// A byte string with its little-endian length in front.
pub open spec fn len_prefixed(s: Seq<u8>) -> Seq<u8> {
    spec_u64_to_le_bytes(s.len() as u64) + s
}

/// The encoding of one entry.
pub open spec fn spec_encode_entry(e: (Seq<u8>, BqView)) -> Seq<u8> {
    len_prefixed(e.0) + len_prefixed(e.1.cb) + (match e.1.umi {
        Some(u) => seq![1u8] + len_prefixed(u),
        None => seq![0u8],
    })
}

/// The encodings of an entry list, in order.
pub open spec fn spec_encode_entries(es: Seq<(Seq<u8>, BqView)>) -> Seq<u8>
    decreases es.len(),
{
    if es.len() == 0 {
        Seq::empty()
    } else {
        spec_encode_entries(es.drop_last()) + spec_encode_entry(es.last())
    }
}

/// The encoding of a whole map: magic, entry count, entries.
pub open spec fn spec_encode_cache(es: Seq<(Seq<u8>, BqView)>) -> Seq<u8> {
    cache_magic() + spec_u64_to_le_bytes(es.len() as u64) + spec_encode_entries(es)
}

/// Append a little-endian u64 to the output.
pub fn write_u64(out: &mut Vec<u8>, v: u64)
    ensures
        final(out)@ == old(out)@ + spec_u64_to_le_bytes(v),
{
    let mut b = vstd::bytes::u64_to_le_bytes(v);
    out.append(&mut b);
}

/// Append one byte to the output.
pub fn write_u8(out: &mut Vec<u8>, v: u8)
    ensures
        final(out)@ == old(out)@.push(v),
{
    out.push(v);
}

/// Append a length-prefixed byte string to the output.
pub fn write_bytes(out: &mut Vec<u8>, b: &[u8])
    ensures
        final(out)@ == old(out)@ + len_prefixed(b@),
{
    let n = b.len();
    write_u64(out, n as u64);
    let mut v = vstd::slice::slice_to_vec(b);
    out.append(&mut v);
    proof {
        assert(final(out)@ =~= old(out)@ + len_prefixed(b@));
    }
}

/// Read a little-endian u64 at the cursor, advancing it.
pub fn read_u64(bytes: &[u8], pos: &mut usize) -> (r: Result<u64, CacheError>)
    requires
        *old(pos) <= bytes@.len(),
    ensures
        match spec_read_u64(bytes@, *old(pos) as int) {
            Some((v, p)) => r == Ok::<u64, CacheError>(v) && *final(pos) == p,
            None => r == Err::<u64, CacheError>(CacheError::Truncated) && *final(pos) == *old(pos),
        },
{
    let n = bytes.len();
    if n - *pos >= 8 {
        let s = vstd::slice::slice_subrange(bytes, *pos, *pos + 8);
        let v = vstd::bytes::u64_from_le_bytes(s);
        *pos = *pos + 8;
        Ok(v)
    } else {
        Err(CacheError::Truncated)
    }
}

/// Read one byte at the cursor, advancing it.
pub fn read_u8(bytes: &[u8], pos: &mut usize) -> (r: Result<u8, CacheError>)
    requires
        *old(pos) <= bytes@.len(),
    ensures
        match spec_read_u8(bytes@, *old(pos) as int) {
            Some((v, p)) => r == Ok::<u8, CacheError>(v) && *final(pos) == p,
            None => r == Err::<u8, CacheError>(CacheError::Truncated) && *final(pos) == *old(pos),
        },
{
    let n = bytes.len();
    if n - *pos >= 1 {
        let v = bytes[*pos];
        *pos = *pos + 1;
        Ok(v)
    } else {
        Err(CacheError::Truncated)
    }
}

/// Read a length-prefixed byte string at the cursor, advancing it.
pub fn read_bytes(bytes: &[u8], pos: &mut usize) -> (r: Result<Vec<u8>, CacheError>)
    requires
        *old(pos) <= bytes@.len(),
    ensures
        match spec_read_bytes(bytes@, *old(pos) as int) {
            Some((s, p)) => r matches Ok(v) && v@ == s && *final(pos) == p,
            None => r == Err::<Vec<u8>, CacheError>(CacheError::Truncated) && *final(pos)
                <= bytes@.len(),
        },
        *final(pos) <= bytes@.len(),
{
    let len = match read_u64(bytes, pos) {
        Ok(v) => v,
        Err(e) => {
            return Err(e);
        },
    };
    let n = bytes.len();
    let rem = n - *pos;
    if len > rem as u64 {
        return Err(CacheError::Truncated);
    }
    let lenu = len as usize;
    let s = vstd::slice::slice_subrange(bytes, *pos, *pos + lenu);
    let v = vstd::slice::slice_to_vec(s);
    *pos = *pos + lenu;
    Ok(v)
}

/// Whether the first eight bytes are the magic constant; callers ensure at
/// least eight bytes exist.
fn magic_matches(bytes: &[u8]) -> (r: bool)
    requires
        bytes@.len() >= 8,
    ensures
        r == (bytes@.subrange(0, 8) == cache_magic()),
{
    let ok = bytes[0] == 84 && bytes[1] == 66 && bytes[2] == 81 && bytes[3] == 77 && bytes[4] == 65
        && bytes[5] == 80 && bytes[6] == 48 && bytes[7] == 49;
    proof {
        if ok {
            assert(bytes@.subrange(0, 8) =~= cache_magic());
        } else {
            if bytes@.subrange(0, 8) == cache_magic() {
                assert forall|i: int| 0 <= i < 8 implies bytes@[i] == cache_magic()[i] by {
                    assert(bytes@.subrange(0, 8)[i] == bytes@[i]);
                }
            }
        }
    }
    ok
}

/// One unfolding of `spec_read_entries`.
proof fn lemma_read_entries_unfold(b: Seq<u8>, pos: int, n: nat)
    requires
        n > 0,
    ensures
        spec_read_entries(b, pos, n) == (match spec_read_entry(b, pos) {
            Err(e) => Err(e),
            Ok((e, p)) => match spec_read_entries(b, p, (n - 1) as nat) {
                Err(e2) => Err(e2),
                Ok((rest, pf)) => Ok((seq![e] + rest, pf)),
            },
        }),
{
}

/// Encode the map into the cache byte format.  Entries are written in the
/// map's entry order; the format is keyed, so the order carries no meaning.
pub fn write_bq_cache(m: &QualityMap) -> (out: Vec<u8>)
    ensures
        out@ == spec_encode_cache(m.entries_view()),
{
    let ghost ev = m.entries_view();
    let mut out: Vec<u8> = Vec::new();
    out.push(84);
    out.push(66);
    out.push(81);
    out.push(77);
    out.push(65);
    out.push(80);
    out.push(48);
    out.push(49);
    proof {
        assert(out@ =~= cache_magic());
    }
    let count = m.entries.len();
    write_u64(&mut out, count as u64);
    let ghost prefix = cache_magic() + spec_u64_to_le_bytes(ev.len() as u64);
    proof {
        assert(out@ == prefix);
        assert(spec_encode_entries(ev.take(0)) =~= Seq::<u8>::empty());
        assert(out@ =~= prefix + spec_encode_entries(ev.take(0)));
    }
    let mut i: usize = 0;
    while i < count
        invariant
            i <= count,
            count == m.entries@.len(),
            ev == m.entries_view(),
            prefix == cache_magic() + spec_u64_to_le_bytes(ev.len() as u64),
            out@ == prefix + spec_encode_entries(ev.take(i as int)),
        decreases count - i,
    {
        let entry = &m.entries[i];
        proof {
            assert(ev[i as int] == (entry.0@, entry.1@));
        }
        write_bytes(&mut out, entry.0.as_slice());
        write_bytes(&mut out, entry.1.cb.as_slice());
        match entry.1.umi.as_ref() {
            Some(u) => {
                write_u8(&mut out, 1);
                write_bytes(&mut out, u.as_slice());
            },
            None => {
                write_u8(&mut out, 0);
            },
        }
        proof {
            assert(ev.take(i as int + 1).drop_last() =~= ev.take(i as int));
            assert(ev.take(i as int + 1).last() == ev[i as int]);
            assert(spec_encode_entries(ev.take(i as int + 1)) == spec_encode_entries(
                ev.take(i as int),
            ) + spec_encode_entry(ev[i as int]));
            assert(out@ =~= prefix + spec_encode_entries(ev.take(i as int + 1)));
        }
        i += 1;
    }
    proof {
        assert(ev.take(count as int) =~= ev);
        assert(out@ =~= spec_encode_cache(ev));
    }
    out
}

/// Decode a cache byte stream into a quality map.  Succeeds exactly where
/// the stream parses; each failure names its cause.
pub fn read_bq_cache(bytes: &[u8]) -> (r: Result<QualityMap, CacheError>)
    ensures
        match r {
            Ok(m) => spec_parse_cache(bytes@) matches Ok(es) && m@ == map_of(es) && m.wf(),
            Err(e) => spec_parse_cache(bytes@) == Err::<Seq<(Seq<u8>, BqView)>, CacheError>(e),
        },
{
    let n = bytes.len();
    if n < 8 {
        return Err(CacheError::Truncated);
    }
    if !magic_matches(bytes) {
        return Err(CacheError::BadMagic);
    }
    let mut pos: usize = 8;
    let count = match read_u64(bytes, &mut pos) {
        Ok(v) => v,
        Err(e) => {
            return Err(e);
        },
    };
    let mut m = QualityMap::new();
    let ghost mut done = Seq::<(Seq<u8>, BqView)>::empty();
    let mut i: u64 = 0;
    proof {
        match spec_read_entries(bytes@, pos as int, count as nat) {
            Err(e) => {},
            Ok((rest, end)) => {
                assert(done + rest =~= rest);
            },
        }
    }
    while i < count
        invariant
            i <= count,
            pos <= bytes@.len(),
            n == bytes@.len(),
            m.wf(),
            m@ == map_of(done),
            spec_parse_cache(bytes@) == (match spec_read_entries(
                bytes@,
                pos as int,
                (count - i) as nat,
            ) {
                Err(e) => Err::<Seq<(Seq<u8>, BqView)>, CacheError>(e),
                Ok((rest, end)) => if end == bytes@.len() {
                    Ok::<Seq<(Seq<u8>, BqView)>, CacheError>(done + rest)
                } else {
                    Err::<Seq<(Seq<u8>, BqView)>, CacheError>(CacheError::TrailingBytes)
                },
            }),
        decreases count - i,
    {
        let ghost ep = pos as int;
        let ghost remaining = (count - i) as nat;
        proof {
            lemma_read_entries_unfold(bytes@, ep, remaining);
        }
        let name = match read_bytes(bytes, &mut pos) {
            Ok(v) => v,
            Err(e) => {
                proof {
                    assert(spec_read_entry(bytes@, ep) == Err::<((Seq<u8>, BqView), int),
                        CacheError,
                    >(CacheError::Truncated));
                }
                return Err(e);
            },
        };
        let cb = match read_bytes(bytes, &mut pos) {
            Ok(v) => v,
            Err(e) => {
                proof {
                    assert(spec_read_entry(bytes@, ep) == Err::<((Seq<u8>, BqView), int),
                        CacheError,
                    >(CacheError::Truncated));
                }
                return Err(e);
            },
        };
        let flag = match read_u8(bytes, &mut pos) {
            Ok(v) => v,
            Err(e) => {
                proof {
                    assert(spec_read_entry(bytes@, ep) == Err::<((Seq<u8>, BqView), int),
                        CacheError,
                    >(CacheError::Truncated));
                }
                return Err(e);
            },
        };
        let umi: Option<Vec<u8>> = if flag == 1 {
            match read_bytes(bytes, &mut pos) {
                Ok(v) => Some(v),
                Err(e) => {
                    proof {
                        assert(spec_read_entry(bytes@, ep) == Err::<((Seq<u8>, BqView), int),
                            CacheError,
                        >(CacheError::Truncated));
                    }
                    return Err(e);
                },
            }
        } else {
            None
        };
        if !bytes_valid_utf8(name.as_slice()) {
            proof {
                assert(spec_read_entry(bytes@, ep) == Err::<((Seq<u8>, BqView), int), CacheError>(
                    CacheError::NameNotUtf8,
                ));
            }
            return Err(CacheError::NameNotUtf8);
        }
        let quals = BqQuals { cb, umi };
        let ghost entry = (name@, quals@);
        proof {
            assert(spec_read_entry(bytes@, ep) == Ok::<((Seq<u8>, BqView), int), CacheError>(
                (entry, pos as int),
            ));
        }
        let ghost olddone = done;
        proof {
            done = done.push(entry);
        }
        let ok = m.insert(name, quals);
        proof {
            assert(ok);
            lemma_map_of_push(olddone, entry);
            match spec_read_entries(bytes@, pos as int, (remaining - 1) as nat) {
                Err(e) => {},
                Ok((rest, _)) => {
                    assert(olddone + (seq![entry] + rest) =~= done + rest);
                },
            }
        }
        i += 1;
    }
    proof {
        assert(spec_read_entries(bytes@, pos as int, (count - i) as nat) == Ok::<(Seq<
            (Seq<u8>, BqView),
        >, int), CacheError>((Seq::empty(), pos as int)));
        assert(done + Seq::<(Seq<u8>, BqView)>::empty() =~= done);
    }
    if pos != n {
        return Err(CacheError::TrailingBytes);
    }
    Ok(m)
}

/// Reading a u64 where the encoding of `v` was written recovers `v`.
proof fn lemma_read_u64_at(b: Seq<u8>, pos: int, v: u64)
    requires
        0 <= pos,
        pos + 8 <= b.len(),
        b.subrange(pos, pos + 8) == spec_u64_to_le_bytes(v),
    ensures
        spec_read_u64(b, pos) == Some((v, pos + 8)),
{
    lemma_auto_spec_u64_to_from_le_bytes();
}

/// Reading bytes where a length-prefixed string was written recovers it.
proof fn lemma_read_bytes_at(b: Seq<u8>, pos: int, s: Seq<u8>)
    requires
        0 <= pos,
        s.len() <= u64::MAX,
        pos + 8 + s.len() <= b.len(),
        b.subrange(pos, pos + 8 + s.len()) == len_prefixed(s),
    ensures
        spec_read_bytes(b, pos) == Some((s, pos + 8 + s.len())),
{
    lemma_auto_spec_u64_to_from_le_bytes();
    let lp = len_prefixed(s);
    assert(lp.len() == 8 + s.len());
    let whole = b.subrange(pos, pos + 8 + s.len());
    assert(b.subrange(pos, pos + 8) =~= lp.subrange(0, 8)) by {
        assert forall|k: int| 0 <= k < 8 implies b.subrange(pos, pos + 8)[k] == lp.subrange(
            0,
            8,
        )[k] by {
            assert(whole[k] == lp[k]);
        }
    }
    assert(lp.subrange(0, 8) =~= spec_u64_to_le_bytes(s.len() as u64));
    lemma_read_u64_at(b, pos, s.len() as u64);
    assert((s.len() as u64) as int == s.len());
    assert(b.subrange(pos + 8, pos + 8 + s.len()) =~= s) by {
        assert forall|k: int| 0 <= k < s.len() implies b.subrange(pos + 8, pos + 8 + s.len())[k]
            == s[k] by {
            assert(whole[8 + k] == lp[8 + k]);
        }
    }
}

/// Reading an entry where its encoding was written recovers it.
proof fn lemma_read_entry_at(b: Seq<u8>, pos: int, e: (Seq<u8>, BqView))
    requires
        0 <= pos,
        valid_utf8(e.0),
        e.0.len() <= u64::MAX,
        e.1.cb.len() <= u64::MAX,
        e.1.umi matches Some(u) ==> u.len() <= u64::MAX,
        pos + spec_encode_entry(e).len() <= b.len(),
        b.subrange(pos, pos + spec_encode_entry(e).len()) == spec_encode_entry(e),
    ensures
        spec_read_entry(b, pos) == Ok::<((Seq<u8>, BqView), int), CacheError>(
            (e, pos + spec_encode_entry(e).len()),
        ),
{
    lemma_auto_spec_u64_to_from_le_bytes();
    let enc = spec_encode_entry(e);
    let n0 = e.0.len() as int;
    let n1 = e.1.cb.len() as int;
    let whole = b.subrange(pos, pos + enc.len());
    assert(len_prefixed(e.0).len() == 8 + n0);
    assert(len_prefixed(e.1.cb).len() == 8 + n1);
    let p1 = pos + 8 + n0;
    let p2 = p1 + 8 + n1;

    assert(b.subrange(pos, p1) =~= len_prefixed(e.0)) by {
        assert forall|k: int| 0 <= k < 8 + n0 implies b.subrange(pos, p1)[k] == len_prefixed(
            e.0,
        )[k] by {
            assert(whole[k] == enc[k]);
            assert(enc[k] == len_prefixed(e.0)[k]);
        }
    }
    lemma_read_bytes_at(b, pos, e.0);

    assert(b.subrange(p1, p2) =~= len_prefixed(e.1.cb)) by {
        assert forall|k: int| 0 <= k < 8 + n1 implies b.subrange(p1, p2)[k] == len_prefixed(
            e.1.cb,
        )[k] by {
            assert(whole[8 + n0 + k] == enc[8 + n0 + k]);
            assert(enc[8 + n0 + k] == len_prefixed(e.1.cb)[k]);
        }
    }
    lemma_read_bytes_at(b, p1, e.1.cb);

    assert(whole[8 + n0 + 8 + n1] == enc[8 + n0 + 8 + n1]);
    assert(b[p2] == enc[8 + n0 + 8 + n1]);
    match e.1.umi {
        Some(u) => {
            assert(enc[8 + n0 + 8 + n1] == 1u8);
            assert(spec_read_u8(b, p2) == Some((1u8, p2 + 1)));
            let p3 = p2 + 1;
            let nu = u.len() as int;
            assert(b.subrange(p3, p3 + 8 + nu) =~= len_prefixed(u)) by {
                assert forall|k: int| 0 <= k < 8 + nu implies b.subrange(p3, p3 + 8 + nu)[k]
                    == len_prefixed(u)[k] by {
                    assert(whole[17 + n0 + n1 + k] == enc[17 + n0 + n1 + k]);
                    assert(enc[17 + n0 + n1 + k] == len_prefixed(u)[k]);
                }
            }
            lemma_read_bytes_at(b, p3, u);
            assert(BqView { cb: e.1.cb, umi: Some(u) } == e.1);
            assert(enc.len() == 17 + n0 + n1 + 8 + nu);
        },
        None => {
            assert(enc[8 + n0 + 8 + n1] == 0u8);
            assert(spec_read_u8(b, p2) == Some((0u8, p2 + 1)));
            assert(BqView { cb: e.1.cb, umi: None::<Seq<u8>> } == e.1);
            assert(enc.len() == 17 + n0 + n1);
        },
    }
}

/// `spec_encode_entries` unfolded at the front.
proof fn lemma_encode_entries_front(es: Seq<(Seq<u8>, BqView)>)
    requires
        es.len() > 0,
    ensures
        spec_encode_entries(es) == spec_encode_entry(es[0]) + spec_encode_entries(es.drop_first()),
    decreases es.len(),
{
    if es.len() == 1 {
        assert(es.drop_last() =~= Seq::<(Seq<u8>, BqView)>::empty());
        assert(es.drop_first() =~= Seq::<(Seq<u8>, BqView)>::empty());
        assert(es.last() == es[0]);
        assert(Seq::<u8>::empty() + spec_encode_entry(es[0]) =~= spec_encode_entry(es[0]));
        assert(spec_encode_entry(es[0]) + Seq::<u8>::empty() =~= spec_encode_entry(es[0]));
    } else {
        lemma_encode_entries_front(es.drop_last());
        assert(es.drop_last()[0] == es[0]);
        assert(es.drop_last().drop_first() =~= es.drop_first().drop_last());
        assert(es.drop_first().last() == es.last());
        assert((spec_encode_entry(es[0]) + spec_encode_entries(es.drop_first().drop_last()))
            + spec_encode_entry(es.last()) =~= spec_encode_entry(es[0]) + (spec_encode_entries(
            es.drop_first().drop_last(),
        ) + spec_encode_entry(es.last())));
    }
}

/// Reading `es.len()` entries where their encodings were written recovers
/// the entry list.
proof fn lemma_read_entries_at(b: Seq<u8>, pos: int, es: Seq<(Seq<u8>, BqView)>)
    requires
        0 <= pos,
        forall|i: int|
            0 <= i < es.len() ==> valid_utf8(#[trigger] es[i].0) && es[i].0.len() <= u64::MAX
                && es[i].1.cb.len() <= u64::MAX && (es[i].1.umi matches Some(u) ==> u.len()
                <= u64::MAX),
        pos + spec_encode_entries(es).len() <= b.len(),
        b.subrange(pos, pos + spec_encode_entries(es).len()) == spec_encode_entries(es),
    ensures
        spec_read_entries(b, pos, es.len()) == Ok::<(Seq<(Seq<u8>, BqView)>, int), CacheError>(
            (es, pos + spec_encode_entries(es).len()),
        ),
    decreases es.len(),
{
    if es.len() == 0 {
        assert(es =~= Seq::<(Seq<u8>, BqView)>::empty());
    } else {
        lemma_encode_entries_front(es);
        let enc = spec_encode_entries(es);
        let e0 = spec_encode_entry(es[0]);
        let rest = spec_encode_entries(es.drop_first());
        let whole = b.subrange(pos, pos + enc.len());
        let p1 = pos + e0.len();
        assert(b.subrange(pos, p1) =~= e0) by {
            assert forall|k: int| 0 <= k < e0.len() implies b.subrange(pos, p1)[k] == e0[k] by {
                assert(whole[k] == enc[k]);
                assert(enc[k] == e0[k]);
            }
        }
        lemma_read_entry_at(b, pos, es[0]);
        assert(b.subrange(p1, p1 + rest.len()) =~= rest) by {
            assert forall|k: int| 0 <= k < rest.len() implies b.subrange(p1, p1 + rest.len())[k]
                == rest[k] by {
                assert(whole[e0.len() + k] == enc[e0.len() + k]);
                assert(enc[e0.len() + k] == rest[k]);
            }
        }
        assert forall|i: int| 0 <= i < es.drop_first().len() implies valid_utf8(
            #[trigger] es.drop_first()[i].0,
        ) && es.drop_first()[i].0.len() <= u64::MAX && es.drop_first()[i].1.cb.len() <= u64::MAX
            && (es.drop_first()[i].1.umi matches Some(u) ==> u.len() <= u64::MAX) by {
            assert(es.drop_first()[i] == es[i + 1]);
        }
        lemma_read_entries_at(b, p1, es.drop_first());
        assert(seq![es[0]] + es.drop_first() =~= es);
    }
}

/// Round-trip law of the cache format: decoding the encoding of any entry
/// list with UTF-8-valid names recovers exactly that list, and with it the
/// mapping it denotes.  Together with the contracts of `write_bq_cache` and
/// `read_bq_cache` this says that decoding an encoded quality map yields a
/// map equal to the original: the same key set, and the same barcode and
/// UMI qualities under every key.
pub proof fn lemma_cache_round_trip(es: Seq<(Seq<u8>, BqView)>)
    requires
        es.len() <= u64::MAX,
        forall|i: int|
            0 <= i < es.len() ==> valid_utf8(#[trigger] es[i].0) && es[i].0.len() <= u64::MAX
                && es[i].1.cb.len() <= u64::MAX && (es[i].1.umi matches Some(u) ==> u.len()
                <= u64::MAX),
    ensures
        spec_parse_cache(spec_encode_cache(es)) == Ok::<Seq<(Seq<u8>, BqView)>, CacheError>(es),
{
    lemma_auto_spec_u64_to_from_le_bytes();
    let b = spec_encode_cache(es);
    let cnt = spec_u64_to_le_bytes(es.len() as u64);
    let enc = spec_encode_entries(es);
    assert(cnt.len() == 8);
    assert(b.len() == 16 + enc.len());
    assert(b.subrange(0, 8) =~= cache_magic());
    assert(b.subrange(8, 16) =~= cnt);
    lemma_read_u64_at(b, 8, es.len() as u64);
    assert((es.len() as u64) as nat == es.len());
    assert(b.subrange(16, 16 + enc.len() as int) =~= enc);
    lemma_read_entries_at(b, 16, es);
    assert((16 + enc.len() as int) == b.len());
}

/// The round-trip law stated on a well-formed quality map: parsing the
/// encoding of `m` recovers `m`'s entry list, whose mapping is `m@`.
pub proof fn lemma_cache_round_trip_map(m: QualityMap)
    requires
        m.wf(),
        m.entries_view().len() <= u64::MAX,
        forall|i: int|
            0 <= i < m.entries_view().len() ==> #[trigger] m.entries_view()[i].0.len() <= u64::MAX
                && m.entries_view()[i].1.cb.len() <= u64::MAX && (m.entries_view()[i].1.umi matches
            Some(u) ==> u.len() <= u64::MAX),
    ensures
        spec_parse_cache(spec_encode_cache(m.entries_view())) == Ok::<
            Seq<(Seq<u8>, BqView)>,
            CacheError,
        >(m.entries_view()),
        map_of(m.entries_view()) == m@,
{
    let es = m.entries_view();
    assert forall|i: int| 0 <= i < es.len() implies valid_utf8(#[trigger] es[i].0) && es[i].0.len()
        <= u64::MAX && es[i].1.cb.len() <= u64::MAX && (es[i].1.umi matches Some(u) ==> u.len()
        <= u64::MAX) by {
        assert(es[i].0 == m.entries@[i].0@);
        assert(valid_utf8(m.entries@[i].0@));
    }
    lemma_cache_round_trip(es);
}

} // verus!
