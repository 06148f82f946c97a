//! Parsing of the quality token carried in a quality-source header line.
//! The token follows the first occurrence of the marker `|BQ:` and runs to
//! the next whitespace byte; it holds `;`-separated fields, each a label and
//! a value around the first `:`.  Labels `i7`, `i5`, `CBC` and `UMI` are
//! recognized; others are ignored.  An entry arises only when `i7`, `i5` and
//! `CBC` were all present; its barcode quality is their concatenation in
//! that fixed order.
use crate::qmap::{BqQuals, BqView};
use crate::scan::{
    find_byte, find_byte_index, is_ws, lemma_find_byte, lemma_split_concat, spec_split,
    split_bytes, take_until_ws, until_ws, views_of,
};
use vstd::prelude::*;

verus! {

/// The marker bytes `|BQ:`.
pub open spec fn marker_seq() -> Seq<u8> {
    seq![124u8, 66u8, 81u8, 58u8]
}

/// Whether the marker stands at offset `j` of `s`.
pub open spec fn marker_at(s: Seq<u8>, j: int) -> bool {
    0 <= j && j + 4 <= s.len() && s.subrange(j, j + 4) == marker_seq()
}

/// Offset of the first occurrence of the marker in `s`, if any.
pub open spec fn find_marker(s: Seq<u8>) -> Option<int>
    decreases s.len(),
{
    if s.len() < 4 {
        None
    } else if s.subrange(0, 4) == marker_seq() {
        Some(0int)
    } else {
        match find_marker(s.drop_first()) {
            Some(i) => Some(i + 1),
            None => None,
        }
    }
}

proof fn lemma_find_marker(s: Seq<u8>)
    ensures
        match find_marker(s) {
            Some(i) => marker_at(s, i) && (forall|j: int| 0 <= j < i ==> !marker_at(s, j)),
            None => forall|j: int| !marker_at(s, j),
        },
    decreases s.len(),
{
    if s.len() < 4 {
    } else if s.subrange(0, 4) == marker_seq() {
    } else {
        lemma_find_marker(s.drop_first());
        assert forall|j: int| 1 <= j && j + 4 <= s.len() implies (marker_at(s, j) <==> marker_at(
            s.drop_first(),
            j - 1,
        )) by {
            assert(s.drop_first().subrange(j - 1, j + 3) =~= s.subrange(j, j + 4));
        }
        match find_marker(s.drop_first()) {
            Some(i) => {
                assert(marker_at(s, i + 1));
                assert forall|j: int| 0 <= j < i + 1 implies !marker_at(s, j) by {
                    if j == 0 {
                        assert(s.subrange(0, 4) != marker_seq());
                    }
                }
            },
            None => {
                assert forall|j: int| !marker_at(s, j) implies true by {}
                assert forall|j: int| marker_at(s, j) implies false by {
                    if j == 0 {
                        assert(s.subrange(0, 4) != marker_seq());
                    } else {
                        assert(!marker_at(s.drop_first(), j - 1));
                    }
                }
            },
        }
    }
}

/// The quality token of a header line: what follows the first marker, up to
/// the next whitespace byte.
pub open spec fn token_of(header: Seq<u8>) -> Option<Seq<u8>> {
    match find_marker(header) {
        Some(i) => Some(take_until_ws(header.skip(i + 4))),
        None => None,
    }
}

/// A field split at its first `:` into label and value, if it has one.
pub open spec fn split_once_colon(piece: Seq<u8>) -> Option<(Seq<u8>, Seq<u8>)> {
    match find_byte(piece, 58) {
        Some(i) => Some((piece.take(i), piece.skip(i + 1))),
        None => None,
    }
}

/// The value of the last field labelled `label` among `pieces`, if any.
pub open spec fn last_field(pieces: Seq<Seq<u8>>, label: Seq<u8>) -> Option<Seq<u8>>
    decreases pieces.len(),
{
    if pieces.len() == 0 {
        None
    } else {
        match split_once_colon(pieces.last()) {
            Some((l, v)) => if l == label {
                Some(v)
            } else {
                last_field(pieces.drop_last(), label)
            },
            None => last_field(pieces.drop_last(), label),
        }
    }
}

/// The label bytes `i7`.
pub open spec fn label_i7() -> Seq<u8> {
    seq![105u8, 55u8]
}

/// The label bytes `i5`.
pub open spec fn label_i5() -> Seq<u8> {
    seq![105u8, 53u8]
}

/// The label bytes `CBC`.
pub open spec fn label_cbc() -> Seq<u8> {
    seq![67u8, 66u8, 67u8]
}

/// The label bytes `UMI`.
pub open spec fn label_umi() -> Seq<u8> {
    seq![85u8, 77u8, 73u8]
}

/// What a field list yields: nothing without all three barcode labels;
/// else the entry whose barcode quality is the `i7`, `i5` and `CBC` values
/// concatenated, and whose UMI quality is the `UMI` value where present.
pub open spec fn fields_entry(ps: Seq<Seq<u8>>) -> Option<BqView> {
    if last_field(ps, label_i7()) is Some && last_field(ps, label_i5()) is Some && last_field(
        ps,
        label_cbc(),
    ) is Some {
        Some(
            BqView {
                cb: last_field(ps, label_i7()).unwrap() + last_field(ps, label_i5()).unwrap()
                    + last_field(ps, label_cbc()).unwrap(),
                umi: last_field(ps, label_umi()),
            },
        )
    } else {
        None
    }
}

/// What a header line yields: nothing without a marker; else what its
/// token's field list yields.
pub open spec fn parse_bq_token_spec(header: Seq<u8>) -> Option<BqView> {
    match token_of(header) {
        None => None,
        Some(tok) => fields_entry(spec_split(tok, 59)),
    }
}

/// View of an optional byte vector.
pub open spec fn opt_view(o: Option<Vec<u8>>) -> Option<Seq<u8>> {
    match o {
        Some(v) => Some(v@),
        None => None,
    }
}

/// Whether `v` holds exactly the two given bytes.
fn eq2(v: &[u8], b0: u8, b1: u8) -> (r: bool)
    ensures
        r == (v@ == seq![b0, b1]),
{
    if v.len() == 2 && v[0] == b0 && v[1] == b1 {
        proof {
            assert(v@ =~= seq![b0, b1]);
        }
        true
    } else {
        proof {
            if v@ == seq![b0, b1] {
                assert(v@.len() == 2);
                assert(v@[0] == b0);
                assert(v@[1] == b1);
            }
        }
        false
    }
}

/// Whether `v` holds exactly the three given bytes.
fn eq3(v: &[u8], b0: u8, b1: u8, b2: u8) -> (r: bool)
    ensures
        r == (v@ == seq![b0, b1, b2]),
{
    if v.len() == 3 && v[0] == b0 && v[1] == b1 && v[2] == b2 {
        proof {
            assert(v@ =~= seq![b0, b1, b2]);
        }
        true
    } else {
        proof {
            if v@ == seq![b0, b1, b2] {
                assert(v@.len() == 3);
                assert(v@[0] == b0);
                assert(v@[1] == b1);
                assert(v@[2] == b2);
            }
        }
        false
    }
}

/// Offset of the first marker occurrence in `s`, if any.
fn find_marker_index(s: &[u8]) -> (r: Option<usize>)
    ensures
        match r {
            Some(i) => find_marker(s@) == Some(i as int),
            None => find_marker(s@) == None::<int>,
        },
{
    let n = s.len();
    if n < 4 {
        proof {
            lemma_find_marker(s@);
            if find_marker(s@) is Some {
                let i = find_marker(s@).unwrap();
                assert(marker_at(s@, i));
            }
        }
        return None;
    }
    let mut i: usize = 0;
    while i <= n - 4
        invariant
            i <= n - 3,
            n == s@.len(),
            n >= 4,
            forall|j: int| 0 <= j < i ==> !marker_at(s@, j),
        decreases n - i,
    {
        if s[i] == 124 && s[i + 1] == 66 && s[i + 2] == 81 && s[i + 3] == 58 {
            proof {
                assert(s@.subrange(i as int, i as int + 4) =~= marker_seq());
                lemma_find_marker(s@);
                match find_marker(s@) {
                    Some(k) => {
                        if k < i as int {
                            assert(!marker_at(s@, k));
                        }
                        if k > i as int {
                            assert(!marker_at(s@, i as int));
                        }
                    },
                    None => {
                        assert(!marker_at(s@, i as int));
                    },
                }
            }
            return Some(i);
        }
        proof {
            assert(!marker_at(s@, i as int)) by {
                if marker_at(s@, i as int) {
                    assert(s@.subrange(i as int, i as int + 4)[0] == s@[i as int]);
                    assert(s@.subrange(i as int, i as int + 4)[1] == s@[i as int + 1]);
                    assert(s@.subrange(i as int, i as int + 4)[2] == s@[i as int + 2]);
                    assert(s@.subrange(i as int, i as int + 4)[3] == s@[i as int + 3]);
                }
            }
        }
        i += 1;
    }
    proof {
        assert forall|j: int| !marker_at(s@, j) by {
            if 0 <= j < i {
            } else if marker_at(s@, j) {
                assert(j + 4 <= n);
                assert(j >= i);
                assert(i > n - 4);
            }
        }
        lemma_find_marker(s@);
        if find_marker(s@) is Some {
            let k = find_marker(s@).unwrap();
            assert(marker_at(s@, k));
        }
    }
    None
}

/// Parse the quality token of one header line; `None` where the header
/// carries no marker or lacks one of the three barcode labels.
pub fn parse_bq_token(header: &[u8]) -> (r: Option<BqQuals>)
    ensures
        match r {
            Some(q) => parse_bq_token_spec(header@) == Some(q@),
            None => parse_bq_token_spec(header@) == None::<BqView>,
        },
{
    let n = header.len();
    let mstart = match find_marker_index(header) {
        Some(i) => i,
        None => {
            return None;
        },
    };
    proof {
        lemma_find_marker(header@);
        assert(marker_at(header@, mstart as int));
    }
    let after = vstd::slice::slice_subrange(header, mstart + 4, n);
    proof {
        assert(after@ =~= header@.skip(mstart as int + 4));
    }
    let tok = until_ws(after);
    let ghost gtok = token_of(header@).unwrap();
    proof {
        assert(tok@ == gtok);
    }
    let pieces = split_bytes(tok.as_slice(), 59);
    let ghost ps = spec_split(gtok, 59);
    let ghost pv = views_of(pieces@);
    proof {
        assert(pv == ps);
    }

    let mut i7: Option<Vec<u8>> = None;
    let mut i5: Option<Vec<u8>> = None;
    let mut cbc: Option<Vec<u8>> = None;
    let mut umi: Option<Vec<u8>> = None;

    let m = pieces.len();
    let mut k: usize = 0;
    proof {
        assert(pv.take(0) =~= Seq::<Seq<u8>>::empty());
    }
    while k < m
        invariant
            k <= m,
            m == pieces@.len(),
            pv == views_of(pieces@),
            opt_view(i7) == last_field(pv.take(k as int), label_i7()),
            opt_view(i5) == last_field(pv.take(k as int), label_i5()),
            opt_view(cbc) == last_field(pv.take(k as int), label_cbc()),
            opt_view(umi) == last_field(pv.take(k as int), label_umi()),
        decreases m - k,
    {
        let piece = &pieces[k];
        proof {
            assert(piece@ == pv[k as int]);
            assert(pv.take(k as int + 1).drop_last() =~= pv.take(k as int));
            assert(pv.take(k as int + 1).last() == pv[k as int]);
        }
        match find_byte_index(piece.as_slice(), 58) {
            Some(ci) => {
                let plen = piece.len();
                proof {
                    lemma_find_byte(piece@, 58);
                    assert((ci as int) < piece@.len());
                }
                let label = vstd::slice::slice_subrange(piece.as_slice(), 0, ci);
                let value = vstd::slice::slice_subrange(piece.as_slice(), ci + 1, plen);
                proof {
                    assert(label@ =~= piece@.take(ci as int));
                    assert(value@ =~= piece@.skip(ci as int + 1));
                    assert(split_once_colon(pv[k as int]) == Some((label@, value@)));
                }
                if eq2(label, 105, 55) {
                    i7 = Some(vstd::slice::slice_to_vec(value));
                } else if eq2(label, 105, 53) {
                    i5 = Some(vstd::slice::slice_to_vec(value));
                } else if eq3(label, 67, 66, 67) {
                    cbc = Some(vstd::slice::slice_to_vec(value));
                } else if eq3(label, 85, 77, 73) {
                    umi = Some(vstd::slice::slice_to_vec(value));
                }
            },
            None => {
                proof {
                    assert(split_once_colon(pv[k as int]) == None::<(Seq<u8>, Seq<u8>)>);
                }
            },
        }
        k += 1;
    }
    proof {
        assert(pv.take(m as int) =~= pv);
    }
    match (i7, i5, cbc) {
        (Some(a), Some(b), Some(c)) => {
            let mut cb = a;
            let mut b2 = b;
            let mut c2 = c;
            cb.append(&mut b2);
            cb.append(&mut c2);
            Some(BqQuals { cb, umi })
        },
        _ => None,
    }
}

/// Free of whitespace bytes.
pub open spec fn ws_free(s: Seq<u8>) -> bool {
    forall|i: int| 0 <= i < s.len() ==> !is_ws(#[trigger] s[i])
}

proof fn lemma_take_until_ws_all(s: Seq<u8>)
    requires
        ws_free(s),
    ensures
        take_until_ws(s) == s,
    decreases s.len(),
{
    if s.len() == 0 {
        assert(take_until_ws(s) =~= s);
    } else {
        assert(!is_ws(s[0]));
        assert forall|i: int| 0 <= i < s.drop_first().len() implies !is_ws(
            #[trigger] s.drop_first()[i],
        ) by {
            assert(s.drop_first()[i] == s[i + 1]);
        }
        lemma_take_until_ws_all(s.drop_first());
        assert(seq![s[0]] + s.drop_first() =~= s);
    }
}

proof fn lemma_ws_free_concat(x: Seq<u8>, y: Seq<u8>)
    requires
        ws_free(x),
        ws_free(y),
    ensures
        ws_free(x + y),
{
    assert forall|i: int| 0 <= i < (x + y).len() implies !is_ws(#[trigger] (x + y)[i]) by {
        if i < x.len() {
            assert((x + y)[i] == x[i]);
        } else {
            assert((x + y)[i] == y[i - x.len()]);
        }
    }
}

/// Splitting a piece `label + ':' + value` at its first colon, where the
/// label holds none.
proof fn lemma_split_once_concat(l: Seq<u8>, v: Seq<u8>)
    requires
        !l.contains(58),
    ensures
        split_once_colon(l + seq![58u8] + v) == Some((l, v)),
{
    let s = l + seq![58u8] + v;
    assert(s[l.len() as int] == 58);
    lemma_find_byte(s, 58);
    match find_byte(s, 58) {
        Some(i) => {
            if i < l.len() {
                assert(s[i] == l[i]);
                assert(l.contains(58));
            }
            if i > l.len() {
                assert(s[l.len() as int] != 58);
            }
            assert(i == l.len());
            assert(s.take(i) =~= l);
            assert(s.skip(i + 1) =~= v);
        },
        None => {
            assert(s[l.len() as int] != 58);
        },
    }
}

/// Facts about the four label constants: free of colons, semicolons and
/// whitespace, and pairwise distinct.
proof fn lemma_label_facts()
    ensures
        !label_i7().contains(58) && !label_i5().contains(58) && !label_cbc().contains(58)
            && !label_umi().contains(58),
        !label_i7().contains(59) && !label_i5().contains(59) && !label_cbc().contains(59)
            && !label_umi().contains(59),
        ws_free(label_i7()) && ws_free(label_i5()) && ws_free(label_cbc()) && ws_free(label_umi()),
        label_i7() != label_i5() && label_i7() != label_cbc() && label_i7() != label_umi(),
        label_i5() != label_cbc() && label_i5() != label_umi(),
        label_cbc() != label_umi(),
{
    assert forall|d: u8| d == 58 || d == 59 implies !label_i7().contains(d) && !label_i5().contains(
        d,
    ) && !label_cbc().contains(d) && !label_umi().contains(d) by {
        if label_i7().contains(d) {
            let i = choose|i: int| 0 <= i < 2 && label_i7()[i] == d;
            assert(i == 0 || i == 1);
        }
        if label_i5().contains(d) {
            let i = choose|i: int| 0 <= i < 2 && label_i5()[i] == d;
            assert(i == 0 || i == 1);
        }
        if label_cbc().contains(d) {
            let i = choose|i: int| 0 <= i < 3 && label_cbc()[i] == d;
            assert(i == 0 || i == 1 || i == 2);
        }
        if label_umi().contains(d) {
            let i = choose|i: int| 0 <= i < 3 && label_umi()[i] == d;
            assert(i == 0 || i == 1 || i == 2);
        }
    }
    assert forall|i: int| 0 <= i < 2 implies !is_ws(#[trigger] label_i7()[i]) && !is_ws(
        label_i5()[i],
    ) by {
        assert(i == 0 || i == 1);
    }
    assert forall|i: int| 0 <= i < 3 implies !is_ws(#[trigger] label_cbc()[i]) && !is_ws(
        label_umi()[i],
    ) by {
        assert(i == 0 || i == 1 || i == 2);
    }
    assert(label_i7()[1] != label_i5()[1]);
    assert(label_i7().len() != label_cbc().len());
    assert(label_i7().len() != label_umi().len());
    assert(label_i5().len() != label_cbc().len());
    assert(label_i5().len() != label_umi().len());
    assert(label_cbc()[0] != label_umi()[0]);
}

/// The field list of a header that supplies the three barcode labels in
/// order, and optionally a UMI label.
pub open spec fn bq_fields(x: Seq<u8>, y: Seq<u8>, z: Seq<u8>, w: Option<Seq<u8>>) -> Seq<u8> {
    let base = label_i7() + seq![58u8] + x + seq![59u8] + label_i5() + seq![58u8] + y + seq![59u8]
        + label_cbc() + seq![58u8] + z;
    match w {
        Some(wv) => base + seq![59u8] + label_umi() + seq![58u8] + wv,
        None => base,
    }
}

/// A header carrying the marker after an arbitrary prefix, then the field
/// list.
pub open spec fn bq_header(
    prefix: Seq<u8>,
    x: Seq<u8>,
    y: Seq<u8>,
    z: Seq<u8>,
    w: Option<Seq<u8>>,
) -> Seq<u8> {
    prefix + marker_seq() + bq_fields(x, y, z, w)
}

/// A value may stand in a quality field: free of the field separator and of
/// whitespace.
pub open spec fn field_value_ok(v: Seq<u8>) -> bool {
    !v.contains(59) && ws_free(v)
}

/// Every header of the shape `<prefix>|BQ:i7:<x>;i5:<y>;CBC:<z>` — with no
/// marker occurrence starting inside the prefix, and values free of `;` and
/// whitespace — yields the entry whose barcode quality is `x + y + z`, with
/// no UMI quality; with `;UMI:<w>` appended it yields the same entry with
/// UMI quality `w`.
pub proof fn lemma_token_well_formed(
    prefix: Seq<u8>,
    x: Seq<u8>,
    y: Seq<u8>,
    z: Seq<u8>,
    w: Option<Seq<u8>>,
)
    requires
        forall|j: int| 0 <= j < prefix.len() ==> !marker_at(bq_header(prefix, x, y, z, w), j),
        field_value_ok(x),
        field_value_ok(y),
        field_value_ok(z),
        w matches Some(wv) ==> field_value_ok(wv),
    ensures
        parse_bq_token_spec(bq_header(prefix, x, y, z, w)) == Some(
            BqView { cb: x + y + z, umi: w },
        ),
{
    lemma_label_facts();
    let hdr = bq_header(prefix, x, y, z, w);
    let body = bq_fields(x, y, z, w);
    let p = prefix.len() as int;

    // The marker is found exactly at the end of the prefix.
    assert(marker_at(hdr, p)) by {
        assert(hdr.subrange(p, p + 4) =~= marker_seq());
    }
    lemma_marker_found(hdr, p);
    assert(hdr.skip(p + 4) =~= body);

    // The whole body is the token: it holds no whitespace.
    let p1 = label_i7() + seq![58u8] + x;
    let p2 = label_i5() + seq![58u8] + y;
    let p3 = label_cbc() + seq![58u8] + z;
    let semi = seq![59u8];
    assert(!is_ws(58) && !is_ws(59));
    assert(ws_free(semi)) by {
        assert forall|i: int| 0 <= i < 1 implies !is_ws(#[trigger] semi[i]) by {
            assert(semi[0] == 59);
        }
    }
    let colon = seq![58u8];
    assert(ws_free(colon)) by {
        assert forall|i: int| 0 <= i < 1 implies !is_ws(#[trigger] colon[i]) by {
            assert(colon[0] == 58);
        }
    }
    assert(ws_free(p1)) by {
        lemma_ws_free_concat(label_i7(), colon);
        lemma_ws_free_concat(label_i7() + colon, x);
    }
    assert(ws_free(p2)) by {
        lemma_ws_free_concat(label_i5(), colon);
        lemma_ws_free_concat(label_i5() + colon, y);
    }
    assert(ws_free(p3)) by {
        lemma_ws_free_concat(label_cbc(), colon);
        lemma_ws_free_concat(label_cbc() + colon, z);
    }
    let base = p1 + semi + p2 + semi + p3;
    assert(ws_free(base)) by {
        lemma_ws_free_concat(p1, semi);
        lemma_ws_free_concat(p1 + semi, p2);
        lemma_ws_free_concat(p1 + semi + p2, semi);
        lemma_ws_free_concat(p1 + semi + p2 + semi, p3);
    }
    assert(base =~= label_i7() + seq![58u8] + x + seq![59u8] + label_i5() + seq![58u8] + y + seq![
        59u8,
    ] + label_cbc() + seq![58u8] + z);

    // The pieces between semicolons are free of semicolons.
    assert(!p1.contains(59)) by {
        crate::scan::lemma_concat_not_contains(label_i7(), colon, 59);
        crate::scan::lemma_concat_not_contains(label_i7() + colon, x, 59);
        crate::scan::lemma_singleton_not_contains(58, 59);
    }
    assert(!p2.contains(59)) by {
        crate::scan::lemma_concat_not_contains(label_i5(), colon, 59);
        crate::scan::lemma_concat_not_contains(label_i5() + colon, y, 59);
        crate::scan::lemma_singleton_not_contains(58, 59);
    }
    assert(!p3.contains(59)) by {
        crate::scan::lemma_concat_not_contains(label_cbc(), colon, 59);
        crate::scan::lemma_concat_not_contains(label_cbc() + colon, z, 59);
        crate::scan::lemma_singleton_not_contains(58, 59);
    }

    // Each piece splits at its first colon into label and value.
    lemma_split_once_concat(label_i7(), x);
    lemma_split_once_concat(label_i5(), y);
    lemma_split_once_concat(label_cbc(), z);
    assert(split_once_colon(p1) == Some((label_i7(), x)));
    assert(split_once_colon(p2) == Some((label_i5(), y)));
    assert(split_once_colon(p3) == Some((label_cbc(), z)));

    match w {
        None => {
            assert(body == base);
            lemma_take_until_ws_all(body);
            assert(token_of(hdr) == Some(body));

            assert(body =~= p1 + seq![59u8] + (p2 + seq![59u8] + p3));
            lemma_split_concat(p1, p2 + seq![59u8] + p3, 59);
            lemma_split_concat(p2, p3, 59);
            crate::scan::lemma_split_no_delim(p3, 59);
            let ps = spec_split(body, 59);
            assert(ps =~= seq![p1, p2, p3]);

            assert(ps.drop_last() =~= seq![p1, p2]);
            assert(seq![p1, p2].drop_last() =~= seq![p1]);
            assert(seq![p1].drop_last() =~= Seq::<Seq<u8>>::empty());
            assert(ps.last() == p3);
            assert(seq![p1, p2].last() == p2);
            assert(seq![p1].last() == p1);

            assert(last_field(Seq::<Seq<u8>>::empty(), label_i7()) == None::<Seq<u8>>);
            assert(last_field(Seq::<Seq<u8>>::empty(), label_umi()) == None::<Seq<u8>>);
            assert(last_field(seq![p1], label_i7()) == Some(x));
            assert(last_field(seq![p1], label_umi()) == None::<Seq<u8>>);
            assert(last_field(seq![p1, p2], label_i7()) == Some(x));
            assert(last_field(seq![p1, p2], label_i5()) == Some(y));
            assert(last_field(seq![p1, p2], label_umi()) == None::<Seq<u8>>);
            assert(last_field(ps, label_cbc()) == Some(z));
            assert(last_field(ps, label_i5()) == Some(y));
            assert(last_field(ps, label_i7()) == Some(x));
            assert(last_field(ps, label_umi()) == None::<Seq<u8>>);
        },
        Some(wv) => {
            let p4 = label_umi() + seq![58u8] + wv;
            assert(ws_free(p4)) by {
                lemma_ws_free_concat(label_umi(), colon);
                lemma_ws_free_concat(label_umi() + colon, wv);
            }
            assert(ws_free(body)) by {
                lemma_ws_free_concat(base, semi);
                lemma_ws_free_concat(base + semi, p4);
                assert(body =~= base + semi + p4);
            }
            lemma_take_until_ws_all(body);
            assert(token_of(hdr) == Some(body));

            assert(!p4.contains(59)) by {
                crate::scan::lemma_concat_not_contains(label_umi(), colon, 59);
                crate::scan::lemma_concat_not_contains(label_umi() + colon, wv, 59);
                crate::scan::lemma_singleton_not_contains(58, 59);
            }
            lemma_split_once_concat(label_umi(), wv);
            assert(split_once_colon(p4) == Some((label_umi(), wv)));

            assert(body =~= p1 + seq![59u8] + (p2 + seq![59u8] + (p3 + seq![59u8] + p4)));
            lemma_split_concat(p1, p2 + seq![59u8] + (p3 + seq![59u8] + p4), 59);
            lemma_split_concat(p2, p3 + seq![59u8] + p4, 59);
            lemma_split_concat(p3, p4, 59);
            crate::scan::lemma_split_no_delim(p4, 59);
            let ps = spec_split(body, 59);
            assert(ps =~= seq![p1, p2, p3, p4]);

            assert(ps.drop_last() =~= seq![p1, p2, p3]);
            assert(seq![p1, p2, p3].drop_last() =~= seq![p1, p2]);
            assert(seq![p1, p2].drop_last() =~= seq![p1]);
            assert(seq![p1].drop_last() =~= Seq::<Seq<u8>>::empty());
            assert(ps.last() == p4);
            assert(seq![p1, p2, p3].last() == p3);
            assert(seq![p1, p2].last() == p2);
            assert(seq![p1].last() == p1);

            assert(last_field(seq![p1], label_i7()) == Some(x));
            assert(last_field(seq![p1, p2], label_i7()) == Some(x));
            assert(last_field(seq![p1, p2], label_i5()) == Some(y));
            assert(last_field(seq![p1, p2, p3], label_i7()) == Some(x));
            assert(last_field(seq![p1, p2, p3], label_i5()) == Some(y));
            assert(last_field(seq![p1, p2, p3], label_cbc()) == Some(z));
            assert(last_field(ps, label_umi()) == Some(wv));
            assert(last_field(ps, label_cbc()) == Some(z));
            assert(last_field(ps, label_i5()) == Some(y));
            assert(last_field(ps, label_i7()) == Some(x));
        },
    }
}

/// A header in which the marker occurs nowhere yields no entry.
pub proof fn lemma_token_absent(header: Seq<u8>)
    requires
        forall|j: int| !marker_at(header, j),
    ensures
        parse_bq_token_spec(header) == None::<BqView>,
{
    lemma_find_marker(header);
    match find_marker(header) {
        Some(i) => {
            assert(marker_at(header, i));
        },
        None => {},
    }
}

/// A sequence of pieces joined with the field separator `;` between them.
pub open spec fn join_semi(ps: Seq<Seq<u8>>) -> Seq<u8>
    decreases ps.len(),
{
    if ps.len() == 0 {
        Seq::empty()
    } else if ps.len() == 1 {
        ps[0]
    } else {
        ps[0] + seq![59u8] + join_semi(ps.drop_first())
    }
}

/// A piece may stand between field separators: free of `;` and whitespace.
pub open spec fn piece_ok(p: Seq<u8>) -> bool {
    !p.contains(59) && ws_free(p)
}

/// Splitting a join of separator-free pieces recovers the pieces.
proof fn lemma_split_join(ps: Seq<Seq<u8>>)
    requires
        ps.len() >= 1,
        forall|i: int| 0 <= i < ps.len() ==> !(#[trigger] ps[i]).contains(59),
    ensures
        spec_split(join_semi(ps), 59) == ps,
    decreases ps.len(),
{
    if ps.len() == 1 {
        crate::scan::lemma_split_no_delim(ps[0], 59);
        assert(spec_split(join_semi(ps), 59) =~= ps);
    } else {
        lemma_split_concat(ps[0], join_semi(ps.drop_first()), 59);
        assert forall|i: int| 0 <= i < ps.drop_first().len() implies !(
        #[trigger] ps.drop_first()[i]).contains(59) by {
            assert(ps.drop_first()[i] == ps[i + 1]);
        }
        lemma_split_join(ps.drop_first());
        assert(spec_split(join_semi(ps), 59) =~= ps);
    }
}

/// A join of whitespace-free pieces is whitespace-free.
proof fn lemma_ws_free_join(ps: Seq<Seq<u8>>)
    requires
        forall|i: int| 0 <= i < ps.len() ==> ws_free(#[trigger] ps[i]),
    ensures
        ws_free(join_semi(ps)),
    decreases ps.len(),
{
    if ps.len() <= 1 {
    } else {
        assert forall|i: int| 0 <= i < ps.drop_first().len() implies ws_free(
            #[trigger] ps.drop_first()[i],
        ) by {
            assert(ps.drop_first()[i] == ps[i + 1]);
        }
        lemma_ws_free_join(ps.drop_first());
        let semi = seq![59u8];
        assert(ws_free(semi)) by {
            assert forall|i: int| 0 <= i < 1 implies !is_ws(#[trigger] semi[i]) by {
                assert(semi[0] == 59);
            }
        }
        lemma_ws_free_concat(ps[0], semi);
        lemma_ws_free_concat(ps[0] + semi, join_semi(ps.drop_first()));
        assert(join_semi(ps) =~= (ps[0] + semi) + join_semi(ps.drop_first()));
    }
}

/// A header carrying the marker after an arbitrary prefix, then the joined
/// pieces as its token.
pub open spec fn pieces_header(prefix: Seq<u8>, ps: Seq<Seq<u8>>) -> Seq<u8> {
    prefix + marker_seq() + join_semi(ps)
}

/// The marker is found exactly at `p` where it stands at `p` and nowhere
/// earlier.
proof fn lemma_marker_found(hdr: Seq<u8>, p: int)
    requires
        marker_at(hdr, p),
        forall|j: int| 0 <= j < p ==> !marker_at(hdr, j),
    ensures
        find_marker(hdr) == Some(p),
{
    lemma_find_marker(hdr);
    match find_marker(hdr) {
        Some(i) => {
            if i < p {
            } else if i > p {
                assert(!marker_at(hdr, p));
            }
        },
        None => {
            assert(!marker_at(hdr, p));
        },
    }
}

/// A header built from a prefix without a marker occurrence and a list of
/// well-formed pieces yields exactly what its field list yields.
pub proof fn lemma_token_pieces(prefix: Seq<u8>, ps: Seq<Seq<u8>>)
    requires
        forall|j: int| 0 <= j < prefix.len() ==> !marker_at(pieces_header(prefix, ps), j),
        ps.len() >= 1,
        forall|i: int| 0 <= i < ps.len() ==> piece_ok(#[trigger] ps[i]),
    ensures
        parse_bq_token_spec(pieces_header(prefix, ps)) == fields_entry(ps),
{
    let hdr = pieces_header(prefix, ps);
    let body = join_semi(ps);
    let p = prefix.len() as int;
    assert(marker_at(hdr, p)) by {
        assert(hdr.subrange(p, p + 4) =~= marker_seq());
    }
    lemma_marker_found(hdr, p);
    assert(hdr.skip(p + 4) =~= body);
    lemma_ws_free_join(ps);
    lemma_take_until_ws_all(body);
    assert(token_of(hdr) == Some(body));
    lemma_split_join(ps);
}

/// A field whose label is not `label`, or which holds no colon, never
/// decides `last_field`: inserting it anywhere among the pieces changes
/// nothing.
proof fn lemma_last_field_skip(ps1: Seq<Seq<u8>>, p: Seq<u8>, ps2: Seq<Seq<u8>>, label: Seq<u8>)
    requires
        split_once_colon(p) matches Some((l, _)) ==> l != label,
    ensures
        last_field(ps1 + seq![p] + ps2, label) == last_field(ps1 + ps2, label),
    decreases ps2.len(),
{
    let s2 = ps1 + seq![p] + ps2;
    let s1 = ps1 + ps2;
    if ps2.len() == 0 {
        assert(s2.last() == p);
        assert(s2.drop_last() =~= ps1);
        assert(s1 =~= ps1);
    } else {
        assert(s2.last() == ps2.last());
        assert(s1.last() == ps2.last());
        match split_once_colon(ps2.last()) {
            Some((l, v)) => {
                if l != label {
                    assert(s2.drop_last() =~= ps1 + seq![p] + ps2.drop_last());
                    assert(s1.drop_last() =~= ps1 + ps2.drop_last());
                    lemma_last_field_skip(ps1, p, ps2.drop_last(), label);
                }
            },
            None => {
                assert(s2.drop_last() =~= ps1 + seq![p] + ps2.drop_last());
                assert(s1.drop_last() =~= ps1 + ps2.drop_last());
                lemma_last_field_skip(ps1, p, ps2.drop_last(), label);
            },
        }
    }
}

/// Inserting an extra field whose label is none of `i7`, `i5`, `CBC` and
/// `UMI` — or which holds no colon at all — anywhere among a header's
/// fields leaves what the header yields unchanged: unrecognized and
/// malformed fields are ignored without affecting the rest of the parse.
pub proof fn lemma_token_ignores_unrecognized(
    prefix: Seq<u8>,
    ps1: Seq<Seq<u8>>,
    p: Seq<u8>,
    ps2: Seq<Seq<u8>>,
)
    requires
        forall|j: int|
            0 <= j < prefix.len() ==> !marker_at(pieces_header(prefix, ps1 + seq![p] + ps2), j),
        forall|j: int| 0 <= j < prefix.len() ==> !marker_at(pieces_header(prefix, ps1 + ps2), j),
        (ps1 + ps2).len() >= 1,
        forall|i: int| 0 <= i < ps1.len() ==> piece_ok(#[trigger] ps1[i]),
        forall|i: int| 0 <= i < ps2.len() ==> piece_ok(#[trigger] ps2[i]),
        piece_ok(p),
        split_once_colon(p) matches Some((l, _)) ==> l != label_i7() && l != label_i5() && l
            != label_cbc() && l != label_umi(),
    ensures
        parse_bq_token_spec(pieces_header(prefix, ps1 + seq![p] + ps2)) == parse_bq_token_spec(
            pieces_header(prefix, ps1 + ps2),
        ),
{
    let with = ps1 + seq![p] + ps2;
    let without = ps1 + ps2;
    assert forall|i: int| 0 <= i < with.len() implies piece_ok(#[trigger] with[i]) by {
        if i < ps1.len() {
            assert(with[i] == ps1[i]);
        } else if i == ps1.len() {
            assert(with[i] == p);
        } else {
            assert(with[i] == ps2[i - ps1.len() - 1]);
        }
    }
    assert forall|i: int| 0 <= i < without.len() implies piece_ok(#[trigger] without[i]) by {
        if i < ps1.len() {
            assert(without[i] == ps1[i]);
        } else {
            assert(without[i] == ps2[i - ps1.len()]);
        }
    }
    lemma_token_pieces(prefix, with);
    lemma_token_pieces(prefix, without);
    lemma_last_field_skip(ps1, p, ps2, label_i7());
    lemma_last_field_skip(ps1, p, ps2, label_i5());
    lemma_last_field_skip(ps1, p, ps2, label_cbc());
    lemma_last_field_skip(ps1, p, ps2, label_umi());
}

} // verus!
