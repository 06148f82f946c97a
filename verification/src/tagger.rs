//! The per-record tagging decision and its application to an alignment
//! record, the run counters, and the small pipeline helpers: output-mode
//! validation and the hidden temporary file name used for in-place runs.
use crate::hts::{aux_keys, aux_strings, qname_of, rec_has_aux, rec_push_aux_string, rec_qname};
use crate::name::{barcode_parts, name_decodes, parse_read_name, underscore_parts, DecodeError};
use crate::qmap::{BqView, QualityMap};
use crate::quality::{perfect_quality, synth_quality};
use crate::text::bytes_valid_utf8;
use vstd::prelude::*;
use vstd::utf8::valid_utf8;

verus! {

/// The annotation key `CB`: the cell barcode.
pub open spec fn tag_cb() -> Seq<u8> {
    seq![67u8, 66u8]
}

/// The annotation key `CY`: the cell barcode quality.
pub open spec fn tag_cy() -> Seq<u8> {
    seq![67u8, 89u8]
}

/// The annotation key `UB`: the UMI.
pub open spec fn tag_ub() -> Seq<u8> {
    seq![85u8, 66u8]
}

/// The annotation key `UY`: the UMI quality.
pub open spec fn tag_uy() -> Seq<u8> {
    seq![85u8, 89u8]
}

/// Whether any of the four target annotations is already on the record.
pub open spec fn pre_tagged(r: rust_htslib::bam::Record) -> bool {
    aux_keys(r).contains(tag_cb()) || aux_keys(r).contains(tag_cy()) || aux_keys(r).contains(
        tag_ub(),
    ) || aux_keys(r).contains(tag_uy())
}

/// The cell barcode a decodable name yields: its three barcode segments
/// concatenated.
pub open spec fn spec_cb(name: Seq<u8>) -> Seq<u8> {
    barcode_parts(name)[0] + barcode_parts(name)[1] + barcode_parts(name)[2]
}

/// The UMI a decodable name yields: its third underscore segment.
pub open spec fn spec_ub(name: Seq<u8>) -> Seq<u8> {
    underscore_parts(name)[2]
}

/// Where the quality strings come from: always synthesized, or looked up in
/// a quality map with synthesis as the fallback.
pub enum QualitySource {
    Synthetic,
    Mapped(QualityMap),
}

impl QualitySource {
    /// Well-formed: a carried map is well-formed.
    pub open spec fn wf(self) -> bool {
        match self {
            QualitySource::Synthetic => true,
            QualitySource::Mapped(m) => m.wf(),
        }
    }

    /// The carried mapping, if any.
    pub open spec fn map_view(self) -> Option<Map<Seq<u8>, BqView>> {
        match self {
            QualitySource::Synthetic => None,
            QualitySource::Mapped(m) => Some(m@),
        }
    }
}

/// The barcode quality for a record: the map entry's where the name has
/// one, else a perfect-quality string of the barcode's length.
pub open spec fn chosen_cb_quality(
    src: Option<Map<Seq<u8>, BqView>>,
    name: Seq<u8>,
    cb_len: nat,
) -> Seq<u8> {
    match src {
        Some(m) => if m.contains_key(name) {
            m[name].cb
        } else {
            synth_quality(cb_len)
        },
        None => synth_quality(cb_len),
    }
}

/// The UMI quality for a record: the map entry's where the name has one and
/// the entry carries one, else a perfect-quality string of the UMI's
/// length.
pub open spec fn chosen_umi_quality(
    src: Option<Map<Seq<u8>, BqView>>,
    name: Seq<u8>,
    umi_len: nat,
) -> Seq<u8> {
    match src {
        Some(m) => if m.contains_key(name) {
            match m[name].umi {
                Some(u) => u,
                None => synth_quality(umi_len),
            }
        } else {
            synth_quality(umi_len)
        },
        None => synth_quality(umi_len),
    }
}

/// The decision for one record, before anything is written to it.
pub enum Decision {
    /// One of the four annotations is already present: leave the record be.
    AlreadyTagged,
    /// The record's name is not text.
    NameNotText,
    /// The record's name does not follow the grammar.
    Undecodable(DecodeError),
    /// Attach these four annotation values.
    Tag { cb: Vec<u8>, cy: Vec<u8>, ub: Vec<u8>, uy: Vec<u8> },
}

/// Decide what to do with one record, from its name, whether it already
/// carries a target annotation, and the quality source.
pub fn decide_tags(name: &[u8], has_tags: bool, src: &QualitySource) -> (d: Decision)
    requires
        src.wf(),
    ensures
        has_tags ==> d == Decision::AlreadyTagged,
        !has_tags && !valid_utf8(name@) ==> d == Decision::NameNotText,
        !has_tags && valid_utf8(name@) && !name_decodes(name@) ==> (d matches Decision::Undecodable(
            e,
        ) && (match e {
            DecodeError::UnderscoreSegments { name: n, found } => n@ == name@ && found
                == underscore_parts(name@).len() && found != 3,
            DecodeError::HyphenSegments { name: n, found } => n@ == name@ && underscore_parts(
                name@,
            ).len() == 3 && found == barcode_parts(name@).len() && found != 3,
        })),
        !has_tags && valid_utf8(name@) && name_decodes(name@) ==> (d matches Decision::Tag {
            cb,
            cy,
            ub,
            uy,
        } && cb@ == spec_cb(name@) && ub@ == spec_ub(name@) && cy@ == chosen_cb_quality(
            src.map_view(),
            name@,
            spec_cb(name@).len(),
        ) && uy@ == chosen_umi_quality(src.map_view(), name@, spec_ub(name@).len())),
{
    if has_tags {
        return Decision::AlreadyTagged;
    }
    if !bytes_valid_utf8(name) {
        return Decision::NameNotText;
    }
    match parse_read_name(name) {
        Err(e) => Decision::Undecodable(e),
        Ok(c) => {
            let mut cb = c.i7;
            let mut mid = c.i5;
            let mut tail = c.cbc;
            cb.append(&mut mid);
            cb.append(&mut tail);
            let ub = c.umi;
            let (cy, uy) = match src {
                QualitySource::Synthetic => (perfect_quality(cb.len()), perfect_quality(ub.len())),
                QualitySource::Mapped(m) => match m.get(name) {
                    Some(q) => {
                        let cyv = vstd::slice::slice_to_vec(q.cb.as_slice());
                        let uyv = match q.umi.as_ref() {
                            Some(u) => vstd::slice::slice_to_vec(u.as_slice()),
                            None => perfect_quality(ub.len()),
                        };
                        (cyv, uyv)
                    },
                    None => (perfect_quality(cb.len()), perfect_quality(ub.len())),
                },
            };
            Decision::Tag { cb, cy, ub, uy }
        },
    }
}

/// The three run counters, reported once at the end of a run.
#[derive(Debug, PartialEq, Eq, Clone, Copy)]
pub struct RunCounters {
    pub total: u64,
    pub tagged: u64,
    pub skipped: u64,
}

impl RunCounters {
    /// Counters at the start of a run.
    pub fn new() -> (c: RunCounters)
        ensures
            c.total == 0 && c.tagged == 0 && c.skipped == 0,
    {
        RunCounters { total: 0, tagged: 0, skipped: 0 }
    }
}

/// What happened to one record.
#[derive(Debug)]
pub enum Outcome {
    /// The four annotations were attached.
    Tagged,
    /// The record already carried one of the four: passed through untouched.
    SkippedPreTagged,
    /// The record's name does not decode, and the run tolerates that:
    /// passed through untouched.
    SkippedUndecodable(DecodeError),
}

/// A failure that ends the run.
#[derive(Debug)]
pub enum PipelineError {
    /// The record's name is not text.
    NameNotText { name: Vec<u8> },
    /// The record's name does not decode and the run does not tolerate it.
    Undecodable(DecodeError),
    /// Attaching an annotation failed.
    AuxWrite(rust_htslib::errors::Error),
}

/// Process one record: decide, attach annotations where owed, and account
/// for it in the counters.  Exactly the total counter always moves; the
/// record's name is never changed; a record that is not tagged is not
/// changed at all.
pub fn process_record(
    rec: &mut rust_htslib::bam::Record,
    src: &QualitySource,
    counters: &mut RunCounters,
    tolerate: bool,
) -> (r: Result<Outcome, PipelineError>)
    requires
        src.wf(),
        old(counters).total < u64::MAX,
        old(counters).tagged < u64::MAX,
        old(counters).skipped < u64::MAX,
    ensures
        final(counters).total == old(counters).total + 1,
        qname_of(*final(rec)) == qname_of(*old(rec)),
        pre_tagged(*old(rec)) ==> (r matches Ok(o) && o matches Outcome::SkippedPreTagged
            && aux_keys(*final(rec)) == aux_keys(*old(rec)) && aux_strings(*final(rec))
            == aux_strings(*old(rec)) && final(counters).skipped == old(counters).skipped + 1
            && final(counters).tagged == old(counters).tagged),
        !pre_tagged(*old(rec)) && !valid_utf8(qname_of(*old(rec))) ==> (r matches Err(e)
            && e matches PipelineError::NameNotText { name } && name@ == qname_of(*old(rec))
            && aux_keys(*final(rec)) == aux_keys(*old(rec)) && aux_strings(*final(rec))
            == aux_strings(*old(rec)) && final(counters).skipped == old(counters).skipped && final(counters).tagged == old(counters).tagged),
        !pre_tagged(*old(rec)) && valid_utf8(qname_of(*old(rec))) && !name_decodes(
            qname_of(*old(rec)),
        ) && tolerate ==> (r matches Ok(o) && o matches Outcome::SkippedUndecodable(_) && aux_keys(
            *final(rec),
        ) == aux_keys(*old(rec)) && aux_strings(*final(rec)) == aux_strings(*old(rec)) && final(counters).skipped == old(counters).skipped + 1 && final(counters).tagged == old(counters).tagged),
        !pre_tagged(*old(rec)) && valid_utf8(qname_of(*old(rec))) && !name_decodes(
            qname_of(*old(rec)),
        ) && !tolerate ==> (r matches Err(e) && e matches PipelineError::Undecodable(_) && aux_keys(
            *final(rec),
        ) == aux_keys(*old(rec)) && aux_strings(*final(rec)) == aux_strings(*old(rec)) && final(counters).skipped == old(counters).skipped && final(counters).tagged == old(counters).tagged),
        !pre_tagged(*old(rec)) && valid_utf8(qname_of(*old(rec))) && name_decodes(
            qname_of(*old(rec)),
        ) ==> ({
            let q = qname_of(*old(rec));
            &&& (r matches Ok(o) ==> o matches Outcome::Tagged && aux_strings(*final(rec))
                == aux_strings(*old(rec)).insert(tag_cb(), spec_cb(q)).insert(
                tag_cy(),
                chosen_cb_quality(src.map_view(), q, spec_cb(q).len()),
            ).insert(tag_ub(), spec_ub(q)).insert(
                tag_uy(),
                chosen_umi_quality(src.map_view(), q, spec_ub(q).len()),
            ) && final(counters).tagged == old(counters).tagged + 1 && final(counters).skipped
                == old(counters).skipped)
            &&& (r matches Err(e) ==> e matches PipelineError::AuxWrite(_) && final(counters).tagged
                == old(counters).tagged && final(counters).skipped == old(counters).skipped)
        }),
{
    counters.total = counters.total + 1;
    let name = rec_qname(rec);
    let has = rec_has_aux(rec, 67, 66) || rec_has_aux(rec, 67, 89) || rec_has_aux(rec, 85, 66)
        || rec_has_aux(rec, 85, 89);
    match decide_tags(name.as_slice(), has, src) {
        Decision::AlreadyTagged => {
            counters.skipped = counters.skipped + 1;
            Ok(Outcome::SkippedPreTagged)
        },
        Decision::NameNotText => Err(PipelineError::NameNotText { name }),
        Decision::Undecodable(e) => {
            if tolerate {
                counters.skipped = counters.skipped + 1;
                Ok(Outcome::SkippedUndecodable(e))
            } else {
                Err(PipelineError::Undecodable(e))
            }
        },
        Decision::Tag { cb, cy, ub, uy } => {
            match rec_push_aux_string(rec, 67, 66, cb.as_slice()) {
                Ok(_) => {},
                Err(e) => {
                    return Err(PipelineError::AuxWrite(e));
                },
            }
            match rec_push_aux_string(rec, 67, 89, cy.as_slice()) {
                Ok(_) => {},
                Err(e) => {
                    return Err(PipelineError::AuxWrite(e));
                },
            }
            match rec_push_aux_string(rec, 85, 66, ub.as_slice()) {
                Ok(_) => {},
                Err(e) => {
                    return Err(PipelineError::AuxWrite(e));
                },
            }
            match rec_push_aux_string(rec, 85, 89, uy.as_slice()) {
                Ok(_) => {},
                Err(e) => {
                    return Err(PipelineError::AuxWrite(e));
                },
            }
            counters.tagged = counters.tagged + 1;
            Ok(Outcome::Tagged)
        },
    }
}

/// The run must name an output path or ask for in-place rewriting, and not
/// both.
#[derive(Debug, PartialEq, Eq, Clone, Copy)]
pub struct ConfigError;

/// Validate the output configuration: exactly one output target must be
/// chosen.
pub fn check_output_config(has_output: bool, in_place: bool) -> (r: Result<(), ConfigError>)
    ensures
        r.is_ok() <==> (has_output != in_place),
{
    if has_output != in_place {
        Ok(())
    } else {
        Err(ConfigError)
    }
}

/// The hidden temporary file name an in-place run writes beside its input:
/// a dot, the input's file name, and the suffix `.tmp`.
pub open spec fn temp_name_spec(file_name: Seq<u8>) -> Seq<u8> {
    seq![46u8] + file_name + seq![46u8, 116u8, 109u8, 112u8]
}

/// Derive the temporary file name for an in-place run.
pub fn temp_file_name(file_name: &[u8]) -> (r: Vec<u8>)
    ensures
        r@ == temp_name_spec(file_name@),
{
    let mut r: Vec<u8> = Vec::new();
    r.push(46);
    let mut middle = vstd::slice::slice_to_vec(file_name);
    r.append(&mut middle);
    r.push(46);
    r.push(116);
    r.push(109);
    r.push(112);
    proof {
        assert(r@ =~= temp_name_spec(file_name@));
    }
    r
}

} // verus!
