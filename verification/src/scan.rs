//! Byte-sequence scanning primitives: finding a delimiter, splitting on a
//! delimiter, and taking a prefix up to the first whitespace byte.
use vstd::prelude::*;

verus! {

/// Index of the first occurrence of `d` in `s`, if any.
pub open spec fn find_byte(s: Seq<u8>, d: u8) -> Option<int>
    decreases s.len(),
{
    if s.len() == 0 {
        None
    } else if s[0] == d {
        Some(0int)
    } else {
        match find_byte(s.drop_first(), d) {
            Some(i) => Some(i + 1),
            None => None,
        }
    }
}

/// `find_byte` returns the first index holding `d`, or `None` when `d` does
/// not occur.
pub proof fn lemma_find_byte(s: Seq<u8>, d: u8)
    ensures
        match find_byte(s, d) {
            Some(i) => 0 <= i < s.len() && s[i] == d && (forall|j: int| 0 <= j < i ==> s[j] != d),
            None => forall|j: int| 0 <= j < s.len() ==> s[j] != d,
        },
    decreases s.len(),
{
    if s.len() == 0 {
    } else if s[0] == d {
    } else {
        lemma_find_byte(s.drop_first(), d);
        match find_byte(s.drop_first(), d) {
            Some(i) => {
                assert(s[i + 1] == s.drop_first()[i]);
                assert forall|j: int| 0 <= j < i + 1 implies s[j] != d by {
                    if j > 0 {
                        assert(s.drop_first()[j - 1] == s[j]);
                    }
                }
            },
            None => {
                assert forall|j: int| 0 <= j < s.len() implies s[j] != d by {
                    if j > 0 {
                        assert(s.drop_first()[j - 1] == s[j]);
                    }
                }
            },
        }
    }
}

/// The segments of `s` between occurrences of the delimiter `d`.  A sequence
/// with no delimiter yields one segment; each delimiter adds one more, so
/// empty segments arise between adjacent delimiters and at the ends.
pub open spec fn spec_split(s: Seq<u8>, d: u8) -> Seq<Seq<u8>>
    decreases s.len(),
{
    if s.len() == 0 {
        seq![Seq::<u8>::empty()]
    } else if s[0] == d {
        seq![Seq::<u8>::empty()] + spec_split(s.drop_first(), d)
    } else {
        let r = spec_split(s.drop_first(), d);
        r.update(0, seq![s[0]] + r[0])
    }
}

/// A split always yields at least one segment.
pub proof fn lemma_split_len(s: Seq<u8>, d: u8)
    ensures
        spec_split(s, d).len() >= 1,
    decreases s.len(),
{
    if s.len() == 0 {
    } else if s[0] == d {
    } else {
        lemma_split_len(s.drop_first(), d);
    }
}

/// A split yields exactly one more segment than there are delimiters; in
/// particular a delimiter-free sequence is its own single segment.
pub proof fn lemma_split_no_delim(s: Seq<u8>, d: u8)
    requires
        !s.contains(d),
    ensures
        spec_split(s, d) == seq![s],
    decreases s.len(),
{
    if s.len() == 0 {
        assert(spec_split(s, d) =~~= seq![s]);
    } else {
        assert(s[0] != d);
        assert(!s.drop_first().contains(d)) by {
            if s.drop_first().contains(d) {
                let i = choose|i: int| 0 <= i < s.drop_first().len() && s.drop_first()[i] == d;
                assert(s[i + 1] == d);
            }
        }
        lemma_split_no_delim(s.drop_first(), d);
        assert(seq![s[0]] + s.drop_first() =~= s);
        assert(spec_split(s, d) =~~= seq![s]);
    }
}

/// Splitting `x + [d] + y` where `x` is delimiter-free yields `x` followed by
/// the segments of `y`.
pub proof fn lemma_split_concat(x: Seq<u8>, y: Seq<u8>, d: u8)
    requires
        !x.contains(d),
    ensures
        spec_split(x + seq![d] + y, d) == seq![x] + spec_split(y, d),
    decreases x.len(),
{
    let s = x + seq![d] + y;
    if x.len() == 0 {
        assert(s[0] == d);
        assert(s.drop_first() =~= y);
        assert(spec_split(s, d) =~~= seq![x] + spec_split(y, d));
    } else {
        assert(s[0] == x[0]);
        assert(x[0] != d);
        assert(!x.drop_first().contains(d)) by {
            if x.drop_first().contains(d) {
                let i = choose|i: int| 0 <= i < x.drop_first().len() && x.drop_first()[i] == d;
                assert(x[i + 1] == d);
            }
        }
        lemma_split_concat(x.drop_first(), y, d);
        assert(s.drop_first() =~= x.drop_first() + seq![d] + y);
        let r = spec_split(s.drop_first(), d);
        assert(r == seq![x.drop_first()] + spec_split(y, d));
        assert(r[0] == x.drop_first());
        lemma_split_len(y, d);
        assert(seq![x[0]] + x.drop_first() =~= x);
        assert(spec_split(s, d) =~~= seq![x] + spec_split(y, d));
    }
}

/// A concatenation of two sequences free of `d` is free of `d`.
pub proof fn lemma_concat_not_contains(x: Seq<u8>, y: Seq<u8>, d: u8)
    requires
        !x.contains(d),
        !y.contains(d),
    ensures
        !(x + y).contains(d),
{
    if (x + y).contains(d) {
        let i = choose|i: int| 0 <= i < (x + y).len() && (x + y)[i] == d;
        if i < x.len() {
            assert(x[i] == d);
        } else {
            assert(y[i - x.len()] == d);
        }
    }
}

/// A singleton of a byte other than `d` is free of `d`.
pub proof fn lemma_singleton_not_contains(b: u8, d: u8)
    requires
        b != d,
    ensures
        !seq![b].contains(d),
{
    if seq![b].contains(d) {
        let i = choose|i: int| 0 <= i < 1 && seq![b][i] == d;
        assert(seq![b][0] == b);
    }
}

/// The first segment of `ss` with `p` prepended to it.
pub open spec fn prepend_first(p: Seq<u8>, ss: Seq<Seq<u8>>) -> Seq<Seq<u8>> {
    ss.update(0, p + ss[0])
}

/// Views of a sequence of byte vectors.
pub open spec fn views_of(s: Seq<Vec<u8>>) -> Seq<Seq<u8>> {
    s.map_values(|v: Vec<u8>| v@)
}

proof fn lemma_views_push(s: Seq<Vec<u8>>, v: Vec<u8>)
    ensures
        views_of(s.push(v)) == views_of(s).push(v@),
{
    assert(views_of(s.push(v)) =~= views_of(s).push(v@));
}

/// One unfolding of `spec_split` at offset `i`.
proof fn lemma_split_step(s: Seq<u8>, d: u8, i: int)
    requires
        0 <= i < s.len(),
    ensures
        s[i] == d ==> spec_split(s.skip(i), d) == seq![Seq::<u8>::empty()] + spec_split(
            s.skip(i + 1),
            d,
        ),
        s[i] != d ==> spec_split(s.skip(i), d) == prepend_first(
            seq![s[i]],
            spec_split(s.skip(i + 1), d),
        ),
{
    let t = s.skip(i);
    assert(t.len() > 0);
    assert(t[0] == s[i]);
    assert(t.drop_first() =~= s.skip(i + 1));
    if s[i] != d {
        let r = spec_split(s.skip(i + 1), d);
        lemma_split_len(s.skip(i + 1), d);
        assert(spec_split(t, d) == r.update(0, seq![t[0]] + r[0]));
        assert(spec_split(t, d) =~~= prepend_first(seq![s[i]], r));
    }
}

/// Split `s` into the segments between occurrences of the byte `d`.
pub fn split_bytes(s: &[u8], d: u8) -> (parts: Vec<Vec<u8>>)
    ensures
        views_of(parts@) == spec_split(s@, d),
        parts@.len() >= 1,
{
    let n = s.len();
    let mut parts: Vec<Vec<u8>> = Vec::new();
    let mut cur: Vec<u8> = Vec::new();
    let mut i: usize = 0;
    proof {
        lemma_split_len(s@, d);
        assert(s@.skip(0) =~= s@);
        assert(Seq::<u8>::empty() + spec_split(s@, d)[0] =~= spec_split(s@, d)[0]);
        assert(views_of(parts@) + prepend_first(cur@, spec_split(s@.skip(0), d)) =~~= spec_split(
            s@,
            d,
        ));
    }
    while i < n
        invariant
            i <= n,
            n == s@.len(),
            spec_split(s@, d) == views_of(parts@) + prepend_first(
                cur@,
                spec_split(s@.skip(i as int), d),
            ),
        decreases n - i,
    {
        proof {
            lemma_split_step(s@, d, i as int);
            lemma_split_len(s@.skip(i as int + 1), d);
        }
        let ghost old_parts = parts@;
        let ghost old_cur = cur@;
        let ghost rest = spec_split(s@.skip(i as int + 1), d);
        if s[i] == d {
            parts.push(cur);
            cur = Vec::new();
            proof {
                lemma_views_push(old_parts, parts@.last());
                assert(prepend_first(old_cur, seq![Seq::<u8>::empty()] + rest) =~~= seq![old_cur]
                    + rest);
                assert(prepend_first(Seq::<u8>::empty(), rest) =~~= rest) by {
                    lemma_split_len(s@.skip(i as int + 1), d);
                    assert(Seq::<u8>::empty() + rest[0] =~= rest[0]);
                }
                assert(views_of(parts@) =~= views_of(old_parts).push(old_cur));
                assert(views_of(old_parts) + seq![old_cur] + rest =~= views_of(parts@)
                    + prepend_first(cur@, rest));
            }
        } else {
            let b = s[i];
            cur.push(b);
            proof {
                assert(prepend_first(old_cur, prepend_first(seq![b], rest)) =~~= prepend_first(
                    cur@,
                    rest,
                )) by {
                    lemma_split_len(s@.skip(i as int + 1), d);
                    assert(old_cur + (seq![b] + rest[0]) =~= cur@ + rest[0]);
                }
            }
        }
        i += 1;
    }
    proof {
        assert(s@.skip(n as int) =~= Seq::<u8>::empty());
        assert(spec_split(Seq::<u8>::empty(), d) == seq![Seq::<u8>::empty()]);
        assert(prepend_first(cur@, seq![Seq::<u8>::empty()]) =~~= seq![cur@]) by {
            assert(cur@ + Seq::<u8>::empty() =~= cur@);
        }
    }
    let ghost old_parts = parts@;
    parts.push(cur);
    proof {
        lemma_views_push(old_parts, parts@.last());
        assert(views_of(old_parts) + seq![parts@.last()@] =~= views_of(parts@));
    }
    parts
}

/// True of the ASCII whitespace bytes: space, tab, line feed, vertical
/// tab, form feed, carriage return.
pub open spec fn is_ws(b: u8) -> bool {
    b == 32 || b == 9 || b == 10 || b == 11 || b == 12 || b == 13
}

/// The longest prefix of `s` holding no whitespace byte.
pub open spec fn take_until_ws(s: Seq<u8>) -> Seq<u8>
    decreases s.len(),
{
    if s.len() == 0 {
        Seq::empty()
    } else if is_ws(s[0]) {
        Seq::empty()
    } else {
        seq![s[0]] + take_until_ws(s.drop_first())
    }
}

proof fn lemma_take_until_ws_at(s: Seq<u8>, i: int)
    requires
        0 <= i <= s.len(),
        forall|j: int| 0 <= j < i ==> !is_ws(s[j]),
        i == s.len() || is_ws(s[i]),
    ensures
        take_until_ws(s) == s.take(i),
    decreases i,
{
    if i == 0 {
        assert(take_until_ws(s) =~= s.take(0));
    } else {
        assert(!is_ws(s[0]));
        lemma_take_until_ws_at(s.drop_first(), i - 1);
        assert(seq![s[0]] + s.drop_first().take(i - 1) =~= s.take(i));
    }
}

/// The prefix of `s` up to (not including) its first whitespace byte.
pub fn until_ws(s: &[u8]) -> (r: Vec<u8>)
    ensures
        r@ == take_until_ws(s@),
{
    let n = s.len();
    let mut i: usize = 0;
    while i < n
        invariant
            i <= n,
            n == s@.len(),
            forall|j: int| 0 <= j < i ==> !is_ws(s@[j]),
        decreases n - i,
    {
        let b = s[i];
        if b == 32 || b == 9 || b == 10 || b == 11 || b == 12 || b == 13 {
            proof {
                lemma_take_until_ws_at(s@, i as int);
            }
            let pre = vstd::slice::slice_subrange(s, 0, i);
            return vstd::slice::slice_to_vec(pre);
        }
        i += 1;
    }
    proof {
        lemma_take_until_ws_at(s@, n as int);
        assert(s@.take(n as int) =~= s@);
    }
    vstd::slice::slice_to_vec(s)
}

/// Whether two byte slices hold the same bytes.
pub fn bytes_eq(a: &[u8], b: &[u8]) -> (r: bool)
    ensures
        r == (a@ == b@),
{
    if a.len() != b.len() {
        return false;
    }
    let n = a.len();
    let mut i: usize = 0;
    while i < n
        invariant
            i <= n,
            n == a@.len(),
            n == b@.len(),
            forall|j: int| 0 <= j < i ==> a@[j] == b@[j],
        decreases n - i,
    {
        if a[i] != b[i] {
            return false;
        }
        i += 1;
    }
    proof {
        assert(a@ =~= b@);
    }
    true
}

/// Index of the first occurrence of `d` in `s`, if any.
pub fn find_byte_index(s: &[u8], d: u8) -> (r: Option<usize>)
    ensures
        match r {
            Some(i) => find_byte(s@, d) == Some(i as int),
            None => find_byte(s@, d) == None::<int>,
        },
{
    let n = s.len();
    let mut i: usize = 0;
    while i < n
        invariant
            i <= n,
            n == s@.len(),
            forall|j: int| 0 <= j < i ==> s@[j] != d,
        decreases n - i,
    {
        if s[i] == d {
            proof {
                lemma_find_byte(s@, d);
            }
            return Some(i);
        }
        i += 1;
    }
    proof {
        lemma_find_byte(s@, d);
    }
    None
}

} // verus!
