//! The params of the effect that stores a blob.
use vstd::prelude::*;

use crate::cbor::{cbor_parsed, cbor_printed, clone_bytes, decode_cbor, encode_cbor,
    get_text_entry, lemma_array_tree, lemma_map_tree, lemma_round_trips_writable, round_trips,
    safe_depth, text_entry, trees, CborTree, CborValue};
use crate::cbor_map::{field_value, lemma_text_map_get, lemma_text_map_has,
    lemma_text_map_round_trips, text_map, Field, FieldMap};
use crate::hash::{hash_fault, hash_text, is_hash_text, sha256, ContentHash, HashRef};
use crate::text::{join2, str_eq};

verus! {

/// What is to be stored, by which digest it is to be found, and what it refers to.
#[derive(Debug)]
pub struct BlobPutParams {
    pub bytes: Vec<u8>,
    pub blob_ref: Option<HashRef>,
    pub refs: Option<Vec<HashRef>>,
}

/// The model of such params.
pub struct BlobPutTree {
    pub bytes: Seq<u8>,
    pub blob_ref: Option<Seq<char>>,
    pub refs: Option<Seq<Seq<char>>>,
}

pub open spec fn hash_texts(s: Seq<HashRef>) -> Seq<Seq<char>> {
    Seq::new(s.len(), |i: int| s[i]@)
}

impl View for BlobPutParams {
    type V = BlobPutTree;

    open spec fn view(&self) -> BlobPutTree {
        BlobPutTree {
            bytes: self.bytes@,
            blob_ref: match self.blob_ref {
                Some(h) => Some(h@),
                None => None,
            },
            refs: match self.refs {
                Some(v) => Some(hash_texts(v@)),
                None => None,
            },
        }
    }
}

/// A digest read from a value.
pub open spec fn read_hash(t: CborTree) -> Result<Seq<char>, Seq<char>> {
    match t {
        CborTree::Text(s) => if is_hash_text(s) {
            Ok(s)
        } else {
            Err(hash_fault(s))
        },
        _ => Err("expected a hash"@),
    }
}

fn hash_from(v: &CborValue) -> (r: Result<HashRef, String>)
    ensures
        match (r, read_hash(v@)) {
            (Ok(h), Ok(s)) => h@ == s,
            (Err(e), Err(t)) => e@ == t,
            _ => false,
        },
{
    match v {
        CborValue::Text(s) => match HashRef::new(s.clone()) {
            Ok(h) => Ok(h),
            Err(e) => Err(e.message()),
        },
        _ => Err("expected a hash".to_owned()),
    }
}

/// The first `n` digests of a list.
pub open spec fn read_hashes(items: Seq<CborTree>, n: nat) -> Result<Seq<Seq<char>>, Seq<char>>
    decreases n,
{
    if n == 0 || n > items.len() {
        Ok(Seq::empty())
    } else {
        match read_hashes(items, (n - 1) as nat) {
            Err(e) => Err(e),
            Ok(done) => match read_hash(items[n - 1]) {
                Err(e) => Err(e),
                Ok(h) => Ok(done.push(h)),
            },
        }
    }
}

proof fn lemma_hashes_fault(items: Seq<CborTree>, n: nat, k: nat)
    requires
        n <= k <= items.len(),
        read_hashes(items, n) is Err,
    ensures
        read_hashes(items, k) == read_hashes(items, n),
    decreases k,
{
    if n < k {
        lemma_hashes_fault(items, n, (k - 1) as nat);
    }
}

/// Params read from a value: a map with `bytes`, and `blob_ref` and `refs` where they are given.
pub open spec fn read_blob_put(t: CborTree) -> Result<BlobPutTree, Seq<char>> {
    match t {
        CborTree::Mapping(m) => match text_entry(m, "bytes"@) {
            None => Err("missing field `bytes`"@),
            Some(CborTree::Bytes(bytes)) => {
                let blob_ref = match text_entry(m, "blob_ref"@) {
                    None => Ok(None),
                    Some(CborTree::Null) => Ok(None),
                    Some(v) => match read_hash(v) {
                        Ok(h) => Ok(Some(h)),
                        Err(e) => Err(e),
                    },
                };
                let refs = match text_entry(m, "refs"@) {
                    None => Ok(None),
                    Some(CborTree::Null) => Ok(None),
                    Some(CborTree::Array(items)) => match read_hashes(items, items.len()) {
                        Ok(s) => Ok(Some(s)),
                        Err(e) => Err(e),
                    },
                    Some(_) => Err("expected a list of hashes"@),
                };
                match blob_ref {
                    Err(e) => Err(e),
                    Ok(b) => match refs {
                        Err(e) => Err(e),
                        Ok(r) => Ok(BlobPutTree { bytes, blob_ref: b, refs: r }),
                    },
                }
            },
            Some(_) => Err("expected bytes"@),
        },
        _ => Err("expected a map"@),
    }
}

fn hashes_from(items: &Vec<CborValue>) -> (r: Result<Vec<HashRef>, String>)
    ensures
        match (r, read_hashes(trees(items@), items@.len())) {
            (Ok(v), Ok(s)) => hash_texts(v@) == s,
            (Err(e), Err(t)) => e@ == t,
            _ => false,
        },
{
    let ghost all = trees(items@);
    let mut out: Vec<HashRef> = Vec::new();
    let mut i: usize = 0;
    assert(hash_texts(out@) =~= Seq::empty());
    while i < items.len()
        invariant
            i <= items@.len(),
            all == trees(items@),
            read_hashes(all, i as nat) == Ok::<_, Seq<char>>(hash_texts(out@)),
        decreases items@.len() - i,
    {
        assert(all[i as int] == items@[i as int]@);
        match hash_from(&items[i]) {
            Ok(h) => {
                let ghost before = out@;
                out.push(h);
                assert(hash_texts(out@) =~= hash_texts(before).push(h@));
            },
            Err(e) => {
                proof {
                    lemma_hashes_fault(all, (i + 1) as nat, all.len());
                }
                return Err(e);
            },
        }
        i += 1;
    }
    Ok(out)
}

/// Params read from a value.
pub fn decode_blob_put(value: &CborValue) -> (r: Result<BlobPutParams, String>)
    ensures
        match (r, read_blob_put(value@)) {
            (Ok(p), Ok(t)) => p@ == t,
            (Err(e), Err(t)) => e@ == t,
            _ => false,
        },
{
    match value {
        CborValue::Mapping(m) => {
            proof {
                lemma_map_tree(*value);
            }
            let bytes = match get_text_entry(m, "bytes") {
                None => {
                    return Err("missing field `bytes`".to_owned());
                },
                Some(CborValue::Bytes(b)) => clone_bytes(b),
                Some(_) => {
                    return Err("expected bytes".to_owned());
                },
            };
            let blob_ref = match get_text_entry(m, "blob_ref") {
                None => None,
                Some(CborValue::Null) => None,
                Some(v) => match hash_from(v) {
                    Ok(h) => Some(h),
                    Err(e) => {
                        return Err(e);
                    },
                },
            };
            let refs = match get_text_entry(m, "refs") {
                None => None,
                Some(CborValue::Null) => None,
                Some(v) => match v {
                    CborValue::Array(items) => {
                        proof {
                            lemma_array_tree(*v);
                        }
                        match hashes_from(items) {
                            Ok(s) => Some(s),
                            Err(e) => {
                                return Err(e);
                            },
                        }
                    },
                    _ => {
                        return Err("expected a list of hashes".to_owned());
                    },
                },
            };
            Ok(BlobPutParams { bytes, blob_ref, refs })
        },
        _ => Err("expected a map".to_owned()),
    }
}

/// Params with the digest of the bytes, or why they do not fit.
pub open spec fn settled_put(p: BlobPutTree) -> Result<BlobPutTree, Seq<char>> {
    let computed = hash_text(sha256(p.bytes));
    if p.blob_ref matches Some(given) && given != computed {
        Err("blob.put blob_ref does not match sha256(bytes)"@)
    } else {
        Ok(
            BlobPutTree {
                bytes: p.bytes,
                blob_ref: Some(computed),
                refs: match p.refs {
                    Some(s) => Some(s),
                    None => Some(Seq::empty()),
                },
            },
        )
    }
}

/// The fields of settled params.
pub open spec fn put_fields(p: BlobPutTree) -> Seq<Field> {
    let refs = p.refs->Some_0;
    seq![
        ("bytes"@, CborTree::Bytes(p.bytes)),
        ("blob_ref"@, CborTree::Text(p.blob_ref->Some_0)),
        ("refs"@, CborTree::Array(Seq::new(refs.len(), |i: int| CborTree::Text(refs[i])))),
    ]
}

/// The canonical encoding of the params of `blob.put`, with the digest of the bytes and a list of
/// references, or the text of the error.
pub open spec fn blob_put_normal(params: Seq<u8>) -> Result<Seq<u8>, Seq<char>> {
    match cbor_parsed(params) {
        Err(e) => Err("decode blob.put params: "@ + e),
        Ok(t) => match read_blob_put(t) {
            Err(e) => Err("decode blob.put params: "@ + e),
            Ok(p) => match settled_put(p) {
                Err(e) => Err(e),
                Ok(done) => Ok(
                    cbor_printed(CborTree::Mapping(text_map(put_fields(done))))->Ok_0,
                ),
            },
        },
    }
}

fn texts_of(refs: &Vec<HashRef>) -> (r: CborValue)
    ensures
        r@ == CborTree::Array(
            Seq::new(refs@.len(), |i: int| CborTree::Text(hash_texts(refs@)[i])),
        ),
{
    let mut out: Vec<CborValue> = Vec::new();
    let mut i: usize = 0;
    while i < refs.len()
        invariant
            i <= refs@.len(),
            out@.len() == i,
            forall|k: int| 0 <= k < i ==> (#[trigger] out@[k])@ == CborTree::Text(refs@[k]@),
        decreases refs@.len() - i,
    {
        out.push(CborValue::Text(refs[i].as_str().to_owned()));
        i += 1;
    }
    let r = CborValue::Array(out);
    proof {
        lemma_array_tree(r);
        assert(trees(out@) =~= Seq::new(
            refs@.len(),
            |i: int| CborTree::Text(hash_texts(refs@)[i]),
        ));
    }
    r
}

proof fn lemma_read_hashes(items: Seq<CborTree>, n: nat)
    requires
        n <= items.len(),
        read_hashes(items, n) is Ok,
    ensures
        read_hashes(items, n)->Ok_0.len() == n,
        forall|i: int|
            0 <= i < n ==> is_hash_text(#[trigger] read_hashes(items, n)->Ok_0[i]),
    decreases n,
{
    if n > 0 {
        lemma_read_hashes(items, (n - 1) as nat);
    }
}

proof fn lemma_hashes_read(texts: Seq<Seq<char>>, n: nat)
    requires
        n <= texts.len(),
        forall|i: int| 0 <= i < texts.len() ==> is_hash_text(#[trigger] texts[i]),
    ensures
        read_hashes(Seq::new(texts.len(), |i: int| CborTree::Text(texts[i])), n) == Ok::<
            _,
            Seq<char>,
        >(texts.take(n as int)),
    decreases n,
{
    let items = Seq::new(texts.len(), |i: int| CborTree::Text(texts[i]));
    if n > 0 {
        lemma_hashes_read(texts, (n - 1) as nat);
        assert(items[n - 1] == CborTree::Text(texts[n - 1]));
        assert(texts.take(n as int) =~= texts.take(n - 1).push(texts[n - 1]));
    } else {
        assert(texts.take(0) =~= Seq::empty());
    }
}

/// Settled params are read from their encoding as they are.
proof fn lemma_settled_reads_back(t: CborTree, p: BlobPutTree)
    requires
        read_blob_put(t) == Ok::<_, Seq<char>>(p),
        settled_put(p) is Ok,
        is_hash_text(hash_text(sha256(p.bytes))),
    ensures
        read_blob_put(CborTree::Mapping(text_map(put_fields(settled_put(p)->Ok_0)))) == Ok::<
            _,
            Seq<char>,
        >(settled_put(p)->Ok_0),
        settled_put(settled_put(p)->Ok_0) == settled_put(p),
{
    let d = settled_put(p)->Ok_0;
    let f = put_fields(d);
    let m = text_map(f);
    reveal_strlit("bytes");
    reveal_strlit("blob_ref");
    reveal_strlit("refs");
    reveal_with_fuel(field_value, 4);
    lemma_text_map_get(f, "bytes"@);
    lemma_text_map_get(f, "blob_ref"@);
    lemma_text_map_get(f, "refs"@);
    assert(f.drop_last().last() == f[1] && f.drop_last().drop_last().last() == f[0]);
    assert("bytes"@.len() == 5 && "blob_ref"@.len() == 8 && "refs"@.len() == 4);
    assert(text_entry(m, "bytes"@) == Some(f[0].1));
    assert(text_entry(m, "blob_ref"@) == Some(f[1].1));
    assert(text_entry(m, "refs"@) == Some(f[2].1));
    let refs = d.refs->Some_0;
    match p.refs {
        Some(s) => {
            match text_entry(t->Mapping_0, "refs"@) {
                Some(CborTree::Array(items)) => {
                    lemma_read_hashes(items, items.len());
                },
                _ => {},
            }
        },
        None => {},
    }
    lemma_hashes_read(refs, refs.len());
    assert(refs.take(refs.len() as int) =~= refs);
}

/// The canonical encoding of the params of `blob.put`. What is canonical stays as it is.
pub fn normalize_blob_put_params(params_cbor: &[u8]) -> (r: Result<Vec<u8>, String>)
    ensures
        match (r, blob_put_normal(params_cbor@)) {
            (Ok(b), Ok(s)) => b@ == s,
            (Err(e), Err(t)) => e@ == t,
            _ => false,
        },
        r matches Ok(b) ==> blob_put_normal(b@) == Ok::<Seq<u8>, Seq<char>>(b@),
{
    let value = match decode_cbor(params_cbor) {
        Ok(v) => v,
        Err(e) => {
            return Err(join2("decode blob.put params: ", e.as_str()));
        },
    };
    let params = match decode_blob_put(&value) {
        Ok(p) => p,
        Err(e) => {
            return Err(join2("decode blob.put params: ", e.as_str()));
        },
    };
    let ghost given = params@;
    let computed = HashRef::of_hash(&ContentHash::of_bytes(params.bytes.as_slice()));
    let shown = computed.as_str();
    assert(is_hash_text(shown@));
    if let Some(provided) = &params.blob_ref {
        if !str_eq(provided.as_str(), shown) {
            return Err("blob.put blob_ref does not match sha256(bytes)".to_owned());
        }
    }
    let refs = match params.refs {
        Some(v) => v,
        None => Vec::new(),
    };
    let ghost done = settled_put(given)->Ok_0;
    assert(hash_texts(refs@) =~= done.refs->Some_0);
    let mut f = FieldMap::new();
    f.put("bytes", CborValue::Bytes(clone_bytes(&params.bytes)));
    f.put("blob_ref", CborValue::Text(shown.to_owned()));
    f.put("refs", texts_of(&refs));
    let ghost fields = put_fields(done);
    assert(f.fields@ =~= fields);
    let out = f.finish();
    proof {
        let list = fields[2].1;
        assert(round_trips(list, 99)) by {
            let items = list->Array_0;
            assert forall|i: int| 0 <= i < items.len() implies round_trips(
                #[trigger] items[i],
                98,
            ) by {}
        }
        assert forall|k: int| 0 <= k < fields.len() implies round_trips(
            (#[trigger] fields[k]).1,
            99,
        ) by {
            assert(k == 0 || k == 1 || k == 2);
        }
        lemma_text_map_round_trips(fields, 99);
        lemma_round_trips_writable(out@, safe_depth());
        lemma_settled_reads_back(value@, given);
    }
    match encode_cbor(&out) {
        Ok(b) => Ok(b),
        Err(e) => {
            assert(false);
            Err(e)
        },
    }
}

/// A blob is put only under the digest of its own bytes: one that is given must be that digest, and
/// one that is not given is filled in. The bytes and the references stay as they are.
pub proof fn lemma_blob_is_put_under_its_digest(p: BlobPutTree)
    ensures
        settled_put(p) is Ok <==> p.blob_ref is None || p.blob_ref == Some(
            hash_text(sha256(p.bytes)),
        ),
        settled_put(p) matches Ok(q) ==> {
            &&& q.bytes == p.bytes
            &&& q.blob_ref == Some(hash_text(sha256(p.bytes)))
            &&& p.refs is Some ==> q.refs == p.refs
            &&& p.refs is None ==> (q.refs matches Some(s) && s.len() == 0)
            &&& settled_put(q) == Ok::<BlobPutTree, Seq<char>>(q)
        },
{
}

/// What was put is read back as it was put.
pub proof fn lemma_put_params_read_back(p: BlobPutTree)
    requires
        p.blob_ref is Some,
        is_hash_text(p.blob_ref->0),
        p.refs is Some,
        forall|i: int| 0 <= i < p.refs->0.len() ==> is_hash_text(#[trigger] p.refs->0[i]),
    ensures
        read_blob_put(CborTree::Mapping(text_map(put_fields(p)))) matches Ok(q) && q.bytes
            == p.bytes && q.blob_ref == p.blob_ref && q.refs == p.refs,
{
    let f = put_fields(p);
    reveal_strlit("bytes");
    reveal_strlit("blob_ref");
    reveal_strlit("refs");
    assert("bytes"@.len() == 5 && "blob_ref"@.len() == 8 && "refs"@.len() == 4);
    lemma_text_map_has(f, 0);
    lemma_text_map_has(f, 1);
    lemma_text_map_has(f, 2);
    let refs = p.refs->0;
    lemma_hashes_read(refs, refs.len());
    assert(refs.take(refs.len() as int) =~= refs);
}

} // verus!
