//! Decoding of structured read names of the form
//! `{uuid}_{i7}-{i5}-{cbc}_{umi}`: the name is split on `_` into exactly
//! three segments, and the middle segment on `-` into exactly three
//! sub-segments.  The leading segment is discarded.
use crate::scan::{
    lemma_concat_not_contains, lemma_singleton_not_contains, lemma_split_concat,
    lemma_split_no_delim, spec_split, split_bytes, views_of,
};
use vstd::prelude::*;

verus! {

/// The four components decoded from a read name.
#[derive(Debug, PartialEq, Eq, Clone)]
pub struct ReadNameComponents {
    pub i7: Vec<u8>,
    pub i5: Vec<u8>,
    pub cbc: Vec<u8>,
    pub umi: Vec<u8>,
}

/// Why a read name could not be decoded; carries the offending name and the
/// segment count that was actually found.
#[derive(Debug, PartialEq, Eq, Clone)]
pub enum DecodeError {
    /// The name did not split on `_` into exactly three segments.
    UnderscoreSegments { name: Vec<u8>, found: usize },
    /// The middle segment did not split on `-` into exactly three segments.
    HyphenSegments { name: Vec<u8>, found: usize },
}

/// The segments of a read name between underscores.
pub open spec fn underscore_parts(name: Seq<u8>) -> Seq<Seq<u8>> {
    spec_split(name, 95)
}

/// The segments of the middle underscore-segment between hyphens.
pub open spec fn barcode_parts(name: Seq<u8>) -> Seq<Seq<u8>> {
    spec_split(underscore_parts(name)[1], 45)
}

/// Whether a read name conforms to the grammar: three underscore segments,
/// whose middle segment has three hyphen segments.
pub open spec fn name_decodes(name: Seq<u8>) -> bool {
    underscore_parts(name).len() == 3 && barcode_parts(name).len() == 3
}

/// Decode a read name into its four components.  Succeeds exactly on names
/// conforming to the grammar; empty components are accepted.
pub fn parse_read_name(name: &[u8]) -> (r: Result<ReadNameComponents, DecodeError>)
    ensures
        r.is_ok() <==> name_decodes(name@),
        match r {
            Ok(c) => c.i7@ == barcode_parts(name@)[0] && c.i5@ == barcode_parts(name@)[1]
                && c.cbc@ == barcode_parts(name@)[2] && c.umi@ == underscore_parts(name@)[2],
            Err(DecodeError::UnderscoreSegments { name: n, found }) => n@ == name@ && found
                == underscore_parts(name@).len() && found != 3,
            Err(DecodeError::HyphenSegments { name: n, found }) => n@ == name@
                && underscore_parts(name@).len() == 3 && found == barcode_parts(name@).len()
                && found != 3,
        },
{
    let mut parts = split_bytes(name, 95);
    if parts.len() != 3 {
        let found = parts.len();
        return Err(DecodeError::UnderscoreSegments { name: vstd::slice::slice_to_vec(name), found });
    }
    let umi = parts.remove(2);
    let mid = parts.remove(1);
    assert(mid@ == underscore_parts(name@)[1]);
    assert(umi@ == underscore_parts(name@)[2]);
    let mut bp = split_bytes(mid.as_slice(), 45);
    if bp.len() != 3 {
        let found = bp.len();
        return Err(DecodeError::HyphenSegments { name: vstd::slice::slice_to_vec(name), found });
    }
    let cbc = bp.remove(2);
    let i5 = bp.remove(1);
    let i7 = bp.remove(0);
    assert(i7@ == barcode_parts(name@)[0]);
    assert(i5@ == barcode_parts(name@)[1]);
    assert(cbc@ == barcode_parts(name@)[2]);
    Ok(ReadNameComponents { i7, i5, cbc, umi })
}

/// Every well-formed name `{uuid}_{a}-{b}-{c}_{d}`, with non-empty
/// components holding neither delimiter and a leading segment holding no
/// underscore, decodes to exactly `(i7 = a, i5 = b, cbc = c, umi = d)`.
pub proof fn lemma_decode_well_formed(uuid: Seq<u8>, a: Seq<u8>, b: Seq<u8>, c: Seq<u8>, d: Seq<u8>)
    requires
        a.len() > 0,
        b.len() > 0,
        c.len() > 0,
        d.len() > 0,
        !uuid.contains(95),
        !a.contains(95) && !a.contains(45),
        !b.contains(95) && !b.contains(45),
        !c.contains(95) && !c.contains(45),
        !d.contains(95) && !d.contains(45),
    ensures
        ({
            let mid = a + seq![45u8] + b + seq![45u8] + c;
            let name = uuid + seq![95u8] + mid + seq![95u8] + d;
            name_decodes(name) && barcode_parts(name)[0] == a && barcode_parts(name)[1] == b
                && barcode_parts(name)[2] == c && underscore_parts(name)[2] == d
        }),
{
    let mid = a + seq![45u8] + b + seq![45u8] + c;
    let name = uuid + seq![95u8] + mid + seq![95u8] + d;

    assert(!mid.contains(95)) by {
        lemma_singleton_not_contains(45, 95);
        lemma_concat_not_contains(a, seq![45u8], 95);
        lemma_concat_not_contains(a + seq![45u8], b, 95);
        lemma_concat_not_contains(a + seq![45u8] + b, seq![45u8], 95);
        lemma_concat_not_contains(a + seq![45u8] + b + seq![45u8], c, 95);
    }

    let tail = mid + seq![95u8] + d;
    assert(name =~= uuid + seq![95u8] + tail);
    lemma_split_concat(uuid, tail, 95);
    assert(tail =~= mid + seq![95u8] + d);
    lemma_split_concat(mid, d, 95);
    lemma_split_no_delim(d, 95);
    assert(spec_split(tail, 95) == seq![mid] + seq![d]);
    assert(underscore_parts(name) =~= seq![uuid, mid, d]);
    assert(underscore_parts(name).len() == 3);
    assert(underscore_parts(name)[1] == mid);
    assert(underscore_parts(name)[2] == d);

    let btail = b + seq![45u8] + c;
    assert(mid =~= a + seq![45u8] + btail);
    lemma_split_concat(a, btail, 45);
    lemma_split_concat(b, c, 45);
    lemma_split_no_delim(c, 45);
    assert(spec_split(btail, 45) == seq![b] + seq![c]);
    assert(barcode_parts(name) =~= seq![a, b, c]);
}

/// A name whose underscore-segment count differs from three, or whose middle
/// segment's hyphen-segment count differs from three, does not decode.
pub proof fn lemma_decode_malformed(name: Seq<u8>)
    requires
        underscore_parts(name).len() != 3 || barcode_parts(name).len() != 3,
    ensures
        !name_decodes(name),
{
}

} // verus!
