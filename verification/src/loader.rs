//! Building the quality map: either by decoding a cache stream, or by
//! walking the quality source as four-line blocks, inspecting each block's
//! header line, and inserting the entries whose headers carry a quality
//! token.  A given cache takes unconditional precedence: the source lines
//! are not consulted in that branch.
use crate::cache::{read_bq_cache, spec_encode_cache, spec_parse_cache, write_bq_cache, CacheError};
use crate::qmap::{map_of, BqView, QualityMap};
use crate::scan::{take_until_ws, until_ws, views_of};
use crate::token::{parse_bq_token, parse_bq_token_spec};
use vstd::prelude::*;
use vstd::utf8::valid_utf8;

verus! {

/// A quality-source header line that is not valid UTF-8; carries the line's
/// index in the source.
#[derive(Debug, PartialEq, Eq, Clone, Copy)]
pub struct LoadError {
    pub line_index: usize,
}

/// Why the quality map could not be built.
#[derive(Debug, PartialEq, Eq, Clone, Copy)]
pub enum MapLoadError {
    /// The cache stream did not decode.
    Cache(CacheError),
    /// A header line of the quality source was not text.
    Source(LoadError),
}

/// A header with its leading `@` sentinel stripped, if it carries one.
pub open spec fn strip_at(h: Seq<u8>) -> Seq<u8> {
    if h.len() > 0 && h[0] == 64 {
        h.drop_first()
    } else {
        h
    }
}

/// The map key a header line yields: the stripped header up to its first
/// whitespace byte.
pub open spec fn key_of(h: Seq<u8>) -> Seq<u8> {
    take_until_ws(strip_at(h))
}

/// The map that the source lines build on top of `acc`: one block is four
/// lines (header, sequence, separator, quality), only the header is
/// inspected, and an entry is added exactly where the header yields a
/// quality token and a valid-UTF-8 key.  A later entry for a key overrides
/// an earlier one.
pub open spec fn load_spec(lines: Seq<Seq<u8>>, acc: Map<Seq<u8>, BqView>) -> Map<Seq<u8>, BqView>
    decreases lines.len(),
{
    if lines.len() == 0 {
        acc
    } else {
        let h = lines[0];
        let acc2 = match parse_bq_token_spec(h) {
            Some(q) => if valid_utf8(key_of(h)) {
                acc.insert(key_of(h), q)
            } else {
                acc
            },
            None => acc,
        };
        if lines.len() >= 4 {
            load_spec(lines.skip(4), acc2)
        } else {
            acc2
        }
    }
}

/// Build the quality map from the source lines.  Fails exactly where some
/// block's header line is not valid UTF-8, naming the first such line.
pub fn load_bq_map(lines: &Vec<Vec<u8>>) -> (r: Result<QualityMap, LoadError>)
    ensures
        match r {
            Ok(m) => m.wf() && m@ == load_spec(
                views_of(lines@),
                Map::<Seq<u8>, BqView>::empty(),
            ) && (forall|j: int|
                0 <= j < lines@.len() && j % 4 == 0 ==> valid_utf8(#[trigger] lines@[j]@)),
            Err(e) => e.line_index < lines@.len() && e.line_index % 4 == 0 && !valid_utf8(
                lines@[e.line_index as int]@,
            ) && (forall|j: int|
                0 <= j < e.line_index && j % 4 == 0 ==> valid_utf8(#[trigger] lines@[j]@)),
        },
{
    let ghost lv = views_of(lines@);
    let n = lines.len();
    let mut m = QualityMap::new();
    let mut i: usize = 0;
    proof {
        assert(lv.skip(0) =~= lv);
    }
    while i < n
        invariant
            i <= n,
            n == lines@.len(),
            lv == views_of(lines@),
            i == n || i % 4 == 0,
            m.wf(),
            load_spec(lv, Map::<Seq<u8>, BqView>::empty()) == load_spec(lv.skip(i as int), m@),
            forall|j: int| 0 <= j < i && j % 4 == 0 ==> valid_utf8(#[trigger] lines@[j]@),
        decreases n - i,
    {
        let header = &lines[i];
        proof {
            assert(header@ == lv[i as int]);
            assert(lv.skip(i as int)[0] == lv[i as int]);
            assert(lv.skip(i as int).len() == n - i);
        }
        if !crate::text::bytes_valid_utf8(header.as_slice()) {
            return Err(LoadError { line_index: i });
        }
        let ghost mbefore = m@;
        match parse_bq_token(header.as_slice()) {
            Some(quals) => {
                let ghost gq = quals@;
                let stripped: &[u8] = if header.len() > 0 && header[0] == 64 {
                    vstd::slice::slice_subrange(header.as_slice(), 1, header.len())
                } else {
                    header.as_slice()
                };
                proof {
                    assert(stripped@ =~= strip_at(header@));
                }
                let key = until_ws(stripped);
                proof {
                    assert(key@ == key_of(header@));
                }
                let _inserted = m.insert(key, quals);
                proof {
                    if valid_utf8(key_of(header@)) {
                        assert(m@ == mbefore.insert(key_of(header@), gq));
                    } else {
                        assert(m@ == mbefore);
                    }
                }
            },
            None => {},
        }
        proof {
            let h = lv[i as int];
            let acc2 = match parse_bq_token_spec(h) {
                Some(q) => if valid_utf8(key_of(h)) {
                    mbefore.insert(key_of(h), q)
                } else {
                    mbefore
                },
                None => mbefore,
            };
            assert(m@ == acc2);
            if n - i >= 4 {
                assert(lv.skip(i as int).skip(4) =~= lv.skip(i as int + 4));
                assert(load_spec(lv.skip(i as int), mbefore) == load_spec(
                    lv.skip(i as int + 4),
                    acc2,
                ));
            } else {
                assert(load_spec(lv.skip(i as int), mbefore) == acc2);
                assert(lv.skip(n as int) =~= Seq::<Seq<u8>>::empty());
            }
        }
        if n - i >= 4 {
            i += 4;
        } else {
            i = n;
        }
    }
    proof {
        assert(lv.skip(n as int) =~= Seq::<Seq<u8>>::empty());
    }
    Ok(m)
}

/// Build the quality map, preferring a cache: where cache bytes are given
/// they alone decide, and the source lines are not consulted; otherwise the
/// source lines are parsed, and, where asked for, the encoded bytes of the
/// fresh map come back for persisting.  Nothing checks that a cache matches
/// the current source: keeping the cache path fresh is the caller's duty.
pub fn load_bq_map_with_cache(cache: Option<&Vec<u8>>, lines: &Vec<Vec<u8>>, want_cache: bool) -> (r:
    Result<(QualityMap, Option<Vec<u8>>), MapLoadError>)
    ensures
        match cache {
            Some(cb) => match r {
                Ok((m, out)) => spec_parse_cache(cb@) matches Ok(es) && m@ == map_of(es) && m.wf()
                    && out is None,
                Err(MapLoadError::Cache(e)) => spec_parse_cache(cb@) matches Err(e2) && e == e2,
                Err(MapLoadError::Source(_)) => false,
            },
            None => match r {
                Ok((m, out)) => m.wf() && m@ == load_spec(
                    views_of(lines@),
                    Map::<Seq<u8>, BqView>::empty(),
                ) && (forall|j: int|
                    0 <= j < lines@.len() && j % 4 == 0 ==> valid_utf8(#[trigger] lines@[j]@)) && (
                want_cache ==> (out matches Some(enc) && enc@ == spec_encode_cache(
                    m.entries_view(),
                ))) && (!want_cache ==> out is None),
                Err(MapLoadError::Source(e)) => e.line_index < lines@.len() && e.line_index % 4
                    == 0 && !valid_utf8(lines@[e.line_index as int]@) && (forall|j: int|
                    0 <= j < e.line_index && j % 4 == 0 ==> valid_utf8(#[trigger] lines@[j]@)),
                Err(MapLoadError::Cache(_)) => false,
            },
        },
{
    match cache {
        Some(cb) => match read_bq_cache(cb.as_slice()) {
            Ok(m) => Ok((m, None)),
            Err(e) => Err(MapLoadError::Cache(e)),
        },
        None => {
            let m = match load_bq_map(lines) {
                Ok(m) => m,
                Err(e) => {
                    return Err(MapLoadError::Source(e));
                },
            };
            if want_cache {
                let enc = write_bq_cache(&m);
                Ok((m, Some(enc)))
            } else {
                Ok((m, None))
            }
        },
    }
}

} // verus!
