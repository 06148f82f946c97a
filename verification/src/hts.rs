//! The narrow trusted interface onto the alignment-record library: reading
//! a record's name, testing a two-byte annotation key for presence, and
//! attaching a string annotation.  A record's annotation dictionary is
//! modelled by two names: the set of keys a lookup finds, and the mapping of
//! string-valued annotations; a third name stands for the record's name.
use vstd::prelude::*;

verus! {

#[verifier::external_type_specification]
#[verifier::external_body]
pub struct ExRecord(rust_htslib::bam::Record);

#[verifier::external_type_specification]
#[verifier::external_body]
pub struct ExHtsError(rust_htslib::errors::Error);

/// The record's name (its query name, without the trailing NUL).
pub uninterp spec fn qname_of(r: rust_htslib::bam::Record) -> Seq<u8>;

/// The two-byte annotation keys that a lookup on the record finds.
pub uninterp spec fn aux_keys(r: rust_htslib::bam::Record) -> Set<Seq<u8>>;

/// The record's string-valued annotations, keyed by their two bytes; where
/// several fields share a key, the one appended last.
pub uninterp spec fn aux_strings(r: rust_htslib::bam::Record) -> Map<Seq<u8>, Seq<u8>>;

/// Relies on bam::Record::qname: the record's name as bytes, O(1), without
/// the trailing NUL.  A degenerate record whose name field was never set
/// (its stored name length is zero) has the empty name; `qname` itself
/// would underflow on it.
#[verifier::external_body]
pub fn rec_qname(r: &rust_htslib::bam::Record) -> (n: Vec<u8>)
    ensures
        n@ == qname_of(*r),
{
    if r.inner().core.l_qname == 0 {
        return Vec::new();
    }
    r.qname().to_vec()
}

/// Relies on bam::Record::aux: it returns Ok exactly where the two-byte tag
/// is present with a readable value.
#[verifier::external_body]
pub fn rec_has_aux(r: &rust_htslib::bam::Record, t0: u8, t1: u8) -> (present: bool)
    ensures
        present == aux_keys(*r).contains(seq![t0, t1]),
{
    r.aux(&[t0, t1]).is_ok()
}

/// Relies on bam::Record::push_aux with a string value: it refuses a tag
/// that a lookup finds; on success a field holding the given value is
/// appended under the tag, and the record's name is untouched; on any
/// failure (tag found, value not text or too long, or the underlying
/// append failing) the record's name and annotations are unchanged.  A
/// value whose length would not fit the i32 field length that the call
/// hands down is refused here, before the call.
#[verifier::external_body]
pub fn rec_push_aux_string(
    r: &mut rust_htslib::bam::Record,
    t0: u8,
    t1: u8,
    value: &[u8],
) -> (res: Result<(), rust_htslib::errors::Error>)
    ensures
        res is Ok ==> !aux_keys(*old(r)).contains(seq![t0, t1]) && aux_strings(*final(r))
            == aux_strings(*old(r)).insert(seq![t0, t1], value@) && qname_of(*final(r))
            == qname_of(*old(r)),
        res is Err ==> aux_keys(*final(r)) == aux_keys(*old(r)) && aux_strings(*final(r))
            == aux_strings(*old(r)) && qname_of(*final(r)) == qname_of(*old(r)),
{
    if value.len() >= i32::MAX as usize {
        return Err(rust_htslib::errors::Error::BamAuxStringError);
    }
    match core::str::from_utf8(value) {
        Ok(s) => r.push_aux(&[t0, t1], rust_htslib::bam::record::Aux::String(s)),
        Err(_) => Err(rust_htslib::errors::Error::BamAuxStringError),
    }
}

} // verus!
