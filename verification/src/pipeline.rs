use vstd::prelude::*;

use crate::Error;
use crate::codec::{
    Document, DocModel, spec_parse, spec_serialize, parse_document, serialize_document,
    lemma_pval_sized,
};
use crate::container::{czip, cunzip, compress, decompress};
use crate::remap::{remap_spec, remap_document, lemma_remap_sized};

verus! {

/// The whole pass over one file's bytes: unpack the container, parse the
/// document, remap its identifiers, serialize in the document's own byte
/// order, and pack again. The error names the stage that refused.
pub open spec fn process_spec(c: Seq<u8>, refs: Seq<u32>) -> Result<
    (Seq<u8>, Seq<(u32, u32)>),
    Error,
> {
    match cunzip(c) {
        Some(raw) => match spec_parse(raw) {
            Some(d) => match remap_spec(d.root, refs) {
                Some(p) => Ok(
                    (czip(spec_serialize(DocModel { root: p.0, big: d.big })), p.1),
                ),
                None => Err(Error::Schema),
            },
            None => Err(Error::Decode),
        },
        None => Err(Error::Format),
    }
}

/// The round trip survives the remapper: where the pass succeeds, the
/// document it serialized — the parsed document with identifiers and
/// links rewritten — parses back from its own serialization unchanged,
/// byte-order tag included.
pub proof fn lemma_remapped_document_round_trips(c: Seq<u8>, refs: Seq<u32>)
    requires
        process_spec(c, refs) is Ok,
    ensures
        ({
            let d = spec_parse(cunzip(c)->Some_0)->Some_0;
            let d2 = DocModel { root: remap_spec(d.root, refs)->Some_0.0, big: d.big };
            spec_parse(spec_serialize(d2)) == Some(d2)
        }),
{
    let raw = cunzip(c)->Some_0;
    let d = spec_parse(raw)->Some_0;
    let d2 = DocModel { root: remap_spec(d.root, refs)->Some_0.0, big: d.big };
    if raw[0] == 66 && raw[1] == 89 {
        crate::codec::lemma_pval_sized(raw.skip(2), true, crate::value::MAX_DEPTH as nat);
        crate::codec::lemma_pval_depth(raw.skip(2), true, crate::value::MAX_DEPTH as nat);
    } else {
        crate::codec::lemma_pval_sized(raw.skip(2), false, crate::value::MAX_DEPTH as nat);
        crate::codec::lemma_pval_depth(raw.skip(2), false, crate::value::MAX_DEPTH as nat);
    }
    lemma_remap_sized(d.root, refs);
    crate::remap::lemma_remap_depth(d.root, refs);
    assert(crate::codec::doc_wf(d2));
    crate::codec::lemma_parse_serialize_round_trip(d2);
}

/// Transforms one container buffer: returns the rewritten container and
/// the file's remap table, or the first stage's error.
pub fn process_buffer(container: &[u8], refs: &Vec<u32>) -> (r: Result<
    (Vec<u8>, Vec<(u32, u32)>),
    Error,
>)
    ensures
        (match r {
            Ok(p) => process_spec(container@, refs@) == Ok::<_, Error>((p.0@, p.1@)),
            Err(e) => process_spec(container@, refs@) == Err::<(Seq<u8>, Seq<(u32, u32)>), _>(e),
        }),
{
    let raw: Vec<u8> = (match decompress(container) {
        Ok(v) => v,
        Err(e) => {
            return Err(e);
        }
    });
    let doc: Document = (match parse_document(raw.as_slice()) {
        Ok(d) => d,
        Err(e) => {
            return Err(e);
        }
    });
    proof {
        let s = raw@;
        assert(spec_parse(s) == Some(doc@));
        if s[0] == 66 && s[1] == 89 {
            lemma_pval_sized(s.skip(2), true, crate::value::MAX_DEPTH as nat);
        } else {
            lemma_pval_sized(s.skip(2), false, crate::value::MAX_DEPTH as nat);
        }
        assert(crate::value::val_sized(doc@.root));
    }
    let ghost doc_model = doc@;
    let (doc2, tbl): (Document, Vec<(u32, u32)>) = (match remap_document(doc, refs) {
        Ok(p) => p,
        Err(e) => {
            return Err(e);
        }
    });
    proof {
        lemma_remap_sized(doc_model.root, refs@);
        assert(crate::value::val_sized(doc2@.root));
        assert(doc2@ =~= (DocModel {
            root: remap_spec(doc_model.root, refs@)->Some_0.0,
            big: doc_model.big,
        }));
    }
    let out_raw: Vec<u8> = serialize_document(&doc2);
    let packed: Vec<u8> = compress(&out_raw);
    Ok((packed, tbl))
}

} // verus!
