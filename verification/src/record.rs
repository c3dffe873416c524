//! The record under which a document is stored:
//!
//!   [vec_len: u32][components: u32 each][text_len: u32][text][blob_len: u32][blob]
//!
//! with every number in little-endian order. The components are
//! single-precision numbers, held as their bits. To the layers below a record
//! is opaque.

use vstd::prelude::*;
use vstd::utf8::{decode_utf8, encode_utf8, valid_utf8};
use crate::codec::{
    copy_range, framed, get_u32, law_le_bytes_of_value, law_le_round_trip, le_bytes,
    lemma_framed_at, lemma_le_bytes_len, lemma_le_value_bound, lemma_limits, len_prefix, put_framed,
    put_len, put_u32, u32_at, LEN_LIMIT,
};

verus! {

/// A stored document, as contracts speak of it.
#[verifier::ext_equal]
pub struct DocumentModel {
    pub vector: Seq<u32>,
    pub text: Seq<char>,
    pub blob: Seq<u8>,
}

/// A stored document.
pub struct Document {
    pub vector: Vec<u32>,
    pub text: String,
    pub blob: Vec<u8>,
}

impl View for Document {
    type V = DocumentModel;

    open spec fn view(&self) -> DocumentModel {
        DocumentModel { vector: self.vector@, text: self.text@, blob: self.blob@ }
    }
}

/// Why bytes are no document's record.
#[derive(Debug, Clone, Copy, PartialEq, Eq, Structural)]
pub enum RecordError {
    TruncatedLength,
    TruncatedVector,
    TruncatedText,
    InvalidText,
    TruncatedBlob,
}

/// What to tell of a record error.
pub open spec fn record_message(e: RecordError) -> Seq<char> {
    match e {
        RecordError::TruncatedLength => "truncated length prefix"@,
        RecordError::TruncatedVector => "truncated vector"@,
        RecordError::TruncatedText => "truncated text"@,
        RecordError::InvalidText => "text field is not valid utf-8"@,
        RecordError::TruncatedBlob => "truncated blob"@,
    }
}

impl RecordError {
    /// What to tell of the error.
    pub fn message(&self) -> (r: String)
        ensures
            r@ == record_message(*self),
    {
        match self {
            RecordError::TruncatedLength => "truncated length prefix".to_owned(),
            RecordError::TruncatedVector => "truncated vector".to_owned(),
            RecordError::TruncatedText => "truncated text".to_owned(),
            RecordError::InvalidText => "text field is not valid utf-8".to_owned(),
            RecordError::TruncatedBlob => "truncated blob".to_owned(),
        }
    }
}

/// `String::from_utf8`: it accepts bytes exactly if they are valid UTF-8, and
/// gives the string whose encoding they are.
#[verifier::external_body]
fn string_from_utf8(bytes: Vec<u8>) -> (r: Option<String>)
    ensures
        match r {
            Some(s) => valid_utf8(bytes@) && encode_utf8(s@) == bytes@,
            None => !valid_utf8(bytes@),
        },
{
    match String::from_utf8(bytes) {
        Ok(s) => Some(s),
        Err(_) => None,
    }
}

/// The components of a vector, one behind the other.
pub open spec fn component_bytes(vector: Seq<u32>) -> Seq<u8>
    decreases vector.len(),
{
    if vector.len() == 0 {
        Seq::empty()
    } else {
        component_bytes(vector.drop_last()) + le_bytes(vector.last() as nat, 4)
    }
}

/// A document's record.
pub open spec fn document_bytes(d: DocumentModel) -> Seq<u8> {
    le_bytes(len_prefix(d.vector.len()), 4) + component_bytes(d.vector) + framed(
        encode_utf8(d.text),
    ) + framed(d.blob)
}

/// The `n` components of `s` from `pos` on.
pub open spec fn components_at(s: Seq<u8>, pos: int, n: nat) -> Seq<u32> {
    Seq::new(n, |i: int| u32_at(s, pos + 4 * i) as u32)
}

/// The document whose record `s` begins with.
pub open spec fn document_of(s: Seq<u8>) -> Result<DocumentModel, RecordError> {
    if 4 > s.len() {
        Err(RecordError::TruncatedLength)
    } else {
        let vec_len = u32_at(s, 0);
        let text_at = 4 + 4 * vec_len as int;
        if text_at > s.len() {
            Err(RecordError::TruncatedVector)
        } else if text_at + 4 > s.len() {
            Err(RecordError::TruncatedLength)
        } else {
            let text_len = u32_at(s, text_at);
            let blob_at = text_at + 4 + text_len;
            let text = s.subrange(text_at + 4, blob_at);
            if blob_at > s.len() {
                Err(RecordError::TruncatedText)
            } else if !valid_utf8(text) {
                Err(RecordError::InvalidText)
            } else if blob_at + 4 > s.len() {
                Err(RecordError::TruncatedLength)
            } else {
                let blob_len = u32_at(s, blob_at);
                let end = blob_at + 4 + blob_len;
                if end > s.len() {
                    Err(RecordError::TruncatedBlob)
                } else {
                    Ok(
                        DocumentModel {
                            vector: components_at(s, 4, vec_len),
                            text: decode_utf8(text),
                            blob: s.subrange(blob_at + 4, end),
                        },
                    )
                }
            }
        }
    }
}

/// Whether the lengths fit their prefixes.
pub open spec fn document_fits(d: DocumentModel) -> bool {
    &&& d.vector.len() < LEN_LIMIT
    &&& encode_utf8(d.text).len() < LEN_LIMIT
    &&& d.blob.len() < LEN_LIMIT
}

proof fn lemma_components(vector: Seq<u32>, i: int)
    requires
        0 <= i < vector.len(),
    ensures
        component_bytes(vector).len() == 4 * vector.len(),
        component_bytes(vector).subrange(4 * i, 4 * i + 4) == le_bytes(vector[i] as nat, 4),
    decreases vector.len(),
{
    let before = vector.drop_last();
    let last = vector.last();
    lemma_components_len(before);
    lemma_le_bytes_len(last as nat, 4);
    let all = component_bytes(vector);
    let had = component_bytes(before);
    if i < before.len() {
        lemma_components(before, i);
        assert(all.subrange(4 * i, 4 * i + 4) =~= had.subrange(4 * i, 4 * i + 4));
    } else {
        assert(all.subrange(4 * i, 4 * i + 4) =~= le_bytes(last as nat, 4));
    }
}

pub proof fn lemma_components_len(vector: Seq<u32>)
    ensures
        component_bytes(vector).len() == 4 * vector.len(),
    decreases vector.len(),
{
    if vector.len() > 0 {
        lemma_components_len(vector.drop_last());
        lemma_le_bytes_len(vector.last() as nat, 4);
    }
}

/// A document's record is as long as its parts.
pub proof fn lemma_document_len(d: DocumentModel)
    ensures
        document_bytes(d).len() == 12 + 4 * d.vector.len() + encode_utf8(d.text).len()
            + d.blob.len(),
{
    lemma_components_len(d.vector);
    lemma_le_bytes_len(len_prefix(d.vector.len()), 4);
    lemma_le_bytes_len(len_prefix(encode_utf8(d.text).len()), 4);
    lemma_le_bytes_len(len_prefix(d.blob.len()), 4);
}

/// A record gives back the document that was written, whatever follows it.
#[verifier::rlimit(40)]
pub proof fn law_record_round_trip(d: DocumentModel, behind: Seq<u8>)
    requires
        document_fits(d),
    ensures
        document_of(document_bytes(d) + behind) == Ok::<DocumentModel, RecordError>(d),
{
    let all = document_bytes(d);
    let s = all + behind;
    let n = d.vector.len() as int;
    let text = encode_utf8(d.text);
    let head = le_bytes(len_prefix(d.vector.len()), 4);
    lemma_document_len(d);
    lemma_components_len(d.vector);
    lemma_limits();
    lemma_le_bytes_len(len_prefix(d.vector.len()), 4);
    law_le_round_trip(d.vector.len(), 4);
    lemma_le_bytes_len(len_prefix(text.len()), 4);
    lemma_le_bytes_len(len_prefix(d.blob.len()), 4);
    assert(s.subrange(0, 4) =~= head);
    assert(u32_at(s, 0) == n);
    let text_at = 4 + 4 * n;
    let blob_at = text_at + 4 + text.len();
    assert(s.subrange(text_at, text_at + 4 + text.len()) =~= framed(text));
    lemma_framed_at(s, text_at, text);
    assert(s.subrange(blob_at, blob_at + 4 + d.blob.len()) =~= framed(d.blob));
    lemma_framed_at(s, blob_at, d.blob);
    assert forall|i: int| 0 <= i < n implies #[trigger] components_at(s, 4, n as nat)[i]
        == d.vector[i] by {
        lemma_components(d.vector, i);
        let part = component_bytes(d.vector);
        assert(s.subrange(4 + 4 * i, 4 + 4 * i + 4) =~= part.subrange(4 * i, 4 * i + 4));
        law_le_round_trip(d.vector[i] as nat, 4);
    }
    assert(components_at(s, 4, n as nat) =~= d.vector);
    vstd::utf8::encode_utf8_valid_utf8(d.text);
    vstd::utf8::encode_utf8_decode_utf8(d.text);
}

/// A text has no more characters than bytes.
pub proof fn lemma_chars_bound(text: Seq<char>)
    ensures
        text.len() <= encode_utf8(text).len() <= 4 * text.len(),
    decreases text.len(),
{
    if text.len() > 0 {
        lemma_chars_bound(text.drop_first());
    }
}

/// The text of a record that was read has a length that its prefix can say.
pub proof fn lemma_read_text_bound(s: Seq<u8>)
    requires
        document_of(s) is Ok,
    ensures
        document_of(s)->Ok_0.text.len() < LEN_LIMIT,
{
    let vec_len = u32_at(s, 0);
    let text_at = 4 + 4 * vec_len as int;
    let text_len = u32_at(s, text_at);
    let text = s.subrange(text_at + 4, text_at + 4 + text_len);
    lemma_limits();
    lemma_le_value_bound(s.subrange(text_at, text_at + 4));
    vstd::utf8::decode_utf8_encode_utf8(text);
    lemma_chars_bound(decode_utf8(text));
}

/// The record of a document.
pub fn encode_record(vector: &[u32], text: &str, blob: &[u8]) -> (r: Vec<u8>)
    ensures
        r@ == document_bytes(DocumentModel { vector: vector@, text: text@, blob: blob@ }),
{
    let mut out: Vec<u8> = Vec::new();
    put_len(&mut out, vector.len());
    let ghost head = out@;
    let mut i: usize = 0;
    assert(vector@.take(0) =~= Seq::<u32>::empty());
    assert(out@ =~= head + component_bytes(vector@.take(0)));
    while i < vector.len()
        invariant
            i <= vector@.len(),
            out@ == head + component_bytes(vector@.take(i as int)),
        decreases vector@.len() - i,
    {
        put_u32(&mut out, vector[i]);
        proof {
            let next = vector@.take(i + 1);
            assert(next.drop_last() =~= vector@.take(i as int));
            assert(out@ =~= head + component_bytes(next));
        }
        i = i + 1;
    }
    assert(vector@.take(i as int) =~= vector@);
    put_framed(&mut out, text.as_bytes());
    put_framed(&mut out, blob);
    assert(out@ =~= document_bytes(DocumentModel { vector: vector@, text: text@, blob: blob@ }));
    out
}

/// The document of a record.
pub fn decode_record(bytes: &[u8]) -> (r: Result<Document, RecordError>)
    ensures
        match r {
            Ok(d) => document_of(bytes@) == Ok::<DocumentModel, RecordError>(d@),
            Err(e) => document_of(bytes@) == Err::<DocumentModel, RecordError>(e),
        },
{
    let len: usize = bytes.len();
    if len < 4 {
        return Err(RecordError::TruncatedLength);
    }
    let vec_len: usize = get_u32(bytes, 0) as usize;
    if (len - 4) / 4 < vec_len {
        return Err(RecordError::TruncatedVector);
    }
    let text_at: usize = 4 + 4 * vec_len;
    let mut vector: Vec<u32> = Vec::new();
    let mut i: usize = 0;
    while i < vec_len
        invariant
            i <= vec_len,
            4 + 4 * vec_len <= len == bytes@.len(),
            vector@ == components_at(bytes@, 4, vec_len as nat).take(i as int),
        decreases vec_len - i,
    {
        vector.push(get_u32(bytes, 4 + 4 * i));
        assert(vector@ =~= components_at(bytes@, 4, vec_len as nat).take(i + 1));
        i = i + 1;
    }
    assert(vector@ =~= components_at(bytes@, 4, vec_len as nat));
    if len - text_at < 4 {
        return Err(RecordError::TruncatedLength);
    }
    let text_len: usize = get_u32(bytes, text_at) as usize;
    if len - text_at - 4 < text_len {
        return Err(RecordError::TruncatedText);
    }
    let blob_at: usize = text_at + 4 + text_len;
    let text: String = match string_from_utf8(copy_range(bytes, text_at + 4, blob_at)) {
        Some(s) => s,
        None => {
            return Err(RecordError::InvalidText);
        },
    };
    proof {
        vstd::utf8::encode_utf8_decode_utf8(text@);
    }
    if len - blob_at < 4 {
        return Err(RecordError::TruncatedLength);
    }
    let blob_len: usize = get_u32(bytes, blob_at) as usize;
    if len - blob_at - 4 < blob_len {
        return Err(RecordError::TruncatedBlob);
    }
    let blob: Vec<u8> = copy_range(bytes, blob_at + 4, blob_at + 4 + blob_len);
    Ok(Document { vector, text, blob })
}

/// The parts of a document's record as byte strings.
proof fn lemma_document_parts(d: DocumentModel)
    ensures
        ({
            let s = document_bytes(d);
            let v = 4 * d.vector.len() as int;
            let t = encode_utf8(d.text).len() as int;
            &&& s.len() == 12 + v + t + d.blob.len()
            &&& s.subrange(0, 4) == le_bytes(len_prefix(d.vector.len()), 4)
            &&& s.subrange(4, 4 + v) == component_bytes(d.vector)
            &&& s.subrange(4 + v, 8 + v + t) == framed(encode_utf8(d.text))
            &&& s.subrange(8 + v + t, s.len() as int) == framed(d.blob)
        }),
{
    let s = document_bytes(d);
    let text = encode_utf8(d.text);
    let v = 4 * d.vector.len() as int;
    let t = text.len() as int;
    lemma_document_len(d);
    lemma_components_len(d.vector);
    lemma_le_bytes_len(len_prefix(d.vector.len()), 4);
    lemma_le_bytes_len(len_prefix(text.len()), 4);
    lemma_le_bytes_len(len_prefix(d.blob.len()), 4);
    assert(s.subrange(0, 4) =~= le_bytes(len_prefix(d.vector.len()), 4));
    assert(s.subrange(4, 4 + v) =~= component_bytes(d.vector));
    assert(s.subrange(4 + v, 8 + v + t) =~= framed(text));
    assert(s.subrange(8 + v + t, s.len() as int) =~= framed(d.blob));
}

/// What the numbers in a record of these parts are.
proof fn lemma_document_fields(s: Seq<u8>, vector: Seq<u32>, text: Seq<u8>, blob: Seq<u8>)
    requires
        vector.len() < 0x1_0000_0000,
        text.len() < 0x1_0000_0000,
        blob.len() < 0x1_0000_0000,
        s.len() == 12 + 4 * vector.len() + text.len() + blob.len(),
        s.subrange(0, 4) == le_bytes(len_prefix(vector.len()), 4),
        s.subrange(4, 4 + 4 * vector.len() as int) == component_bytes(vector),
        s.subrange(4 + 4 * vector.len() as int, 8 + 4 * vector.len() as int + text.len())
            == framed(text),
        s.subrange(8 + 4 * vector.len() as int + text.len(), s.len() as int) == framed(blob),
    ensures
        u32_at(s, 0) == vector.len(),
        forall|i: int| 0 <= i < vector.len() ==> u32_at(s, 4 + 4 * i) == #[trigger] vector[i],
        u32_at(s, 4 + 4 * vector.len() as int) == text.len(),
        s.subrange(8 + 4 * vector.len() as int, 8 + 4 * vector.len() as int + text.len()) == text,
        u32_at(s, 8 + 4 * vector.len() as int + text.len()) == blob.len(),
        s.skip(12 + 4 * vector.len() as int + text.len()) == blob,
{
    let v = 4 * vector.len() as int;
    let t = text.len() as int;
    lemma_limits();
    law_le_round_trip(vector.len(), 4);
    lemma_framed_at(s, 4 + v, text);
    lemma_framed_at(s, 8 + v + t, blob);
    assert(s.skip(12 + v + t) =~= s.subrange(12 + v + t, s.len() as int));
    assert forall|i: int| 0 <= i < vector.len() implies u32_at(s, 4 + 4 * i)
        == #[trigger] vector[i] by {
        lemma_components(vector, i);
        let part = s.subrange(4, 4 + v);
        assert(s.subrange(4 + 4 * i, 4 + 4 * i + 4) =~= part.subrange(4 * i, 4 * i + 4));
        law_le_round_trip(vector[i] as nat, 4);
    }
}

/// Where the parts of a document's record stand: the number of components and
/// the components, and the text and the blob behind their lengths.
pub proof fn law_document_layout(d: DocumentModel)
    requires
        d.vector.len() < 0x1_0000_0000,
        encode_utf8(d.text).len() < 0x1_0000_0000,
        d.blob.len() < 0x1_0000_0000,
    ensures
        document_fits(d),
        ({
            let s = document_bytes(d);
            let v = 4 * d.vector.len() as int;
            let t = encode_utf8(d.text).len() as int;
            &&& s.len() == 12 + v + t + d.blob.len()
            &&& u32_at(s, 0) == d.vector.len()
            &&& forall|i: int|
                0 <= i < d.vector.len() ==> u32_at(s, 4 + 4 * i) == #[trigger] d.vector[i]
            &&& u32_at(s, 4 + v) == t
            &&& s.subrange(8 + v, 8 + v + t) == encode_utf8(d.text)
            &&& u32_at(s, 8 + v + t) == d.blob.len()
            &&& s.skip(12 + v + t) == d.blob
        }),
{
    lemma_document_parts(d);
    lemma_document_fields(document_bytes(d), d.vector, encode_utf8(d.text), d.blob);
}

/// A document is read only from the bytes of its record.
#[verifier::rlimit(40)]
pub proof fn law_read_document_was_written(s: Seq<u8>)
    requires
        document_of(s) is Ok,
    ensures
        ({
            let d = document_of(s)->Ok_0;
            &&& d.vector.len() < 0x1_0000_0000
            &&& encode_utf8(d.text).len() < 0x1_0000_0000
            &&& d.blob.len() < 0x1_0000_0000
            &&& document_bytes(d).len() <= s.len()
            &&& s.take(document_bytes(d).len() as int) == document_bytes(d)
        }),
{
    let d = document_of(s)->Ok_0;
    let n = u32_at(s, 0) as int;
    let text_at = 4 + 4 * n;
    let t = u32_at(s, text_at) as int;
    let blob_at = text_at + 4 + t;
    let b = u32_at(s, blob_at) as int;
    let text = s.subrange(text_at + 4, blob_at);
    lemma_limits();
    lemma_le_value_bound(s.subrange(0, 4));
    lemma_le_value_bound(s.subrange(text_at, text_at + 4));
    lemma_le_value_bound(s.subrange(blob_at, blob_at + 4));
    law_le_bytes_of_value(s.subrange(0, 4));
    law_le_bytes_of_value(s.subrange(text_at, text_at + 4));
    law_le_bytes_of_value(s.subrange(blob_at, blob_at + 4));
    vstd::utf8::decode_utf8_encode_utf8(text);
    lemma_document_len(d);
    lemma_components_len(d.vector);
    let parts = component_bytes(d.vector);
    assert forall|i: int| 0 <= i < parts.len() implies #[trigger] parts[i] == s[4 + i] by {
        let c = i / 4;
        let r = i % 4;
        lemma_components(d.vector, c);
        let field = s.subrange(4 + 4 * c, 4 + 4 * c + 4);
        lemma_le_value_bound(field);
        law_le_bytes_of_value(field);
        assert(d.vector[c] == u32_at(s, 4 + 4 * c));
        assert(parts.subrange(4 * c, 4 * c + 4)[r] == parts[i]);
        assert(field[r] == s[4 + i]);
    }
    assert(framed(text) =~= s.subrange(text_at, blob_at));
    assert(framed(d.blob) =~= s.subrange(blob_at, blob_at + 4 + b));
    assert(document_bytes(d) =~= s.take(document_bytes(d).len() as int));
}

proof fn lemma_cut_record(all: Seq<u8>, n: int, c: int, t: int)
    requires
        0 <= n < all.len(),
        c >= 0,
        t >= 0,
        u32_at(all, 0) == c,
        u32_at(all, 4 + 4 * c) == t,
        valid_utf8(all.subrange(8 + 4 * c, 8 + 4 * c + t)),
        all.len() == 12 + 4 * c + t + u32_at(all, 8 + 4 * c + t),
    ensures
        document_of(all.take(n)) == Err::<DocumentModel, RecordError>(
            if n < 4 {
                RecordError::TruncatedLength
            } else if n < 4 + 4 * c {
                RecordError::TruncatedVector
            } else if n < 8 + 4 * c {
                RecordError::TruncatedLength
            } else if n < 8 + 4 * c + t {
                RecordError::TruncatedText
            } else if n < 12 + 4 * c + t {
                RecordError::TruncatedLength
            } else {
                RecordError::TruncatedBlob
            },
        ),
{
    let s = all.take(n);
    if n >= 4 {
        assert(s.subrange(0, 4) =~= all.subrange(0, 4));
    }
    if n >= 8 + 4 * c {
        assert(s.subrange(4 + 4 * c, 8 + 4 * c) =~= all.subrange(4 + 4 * c, 8 + 4 * c));
    }
    if n >= 8 + 4 * c + t {
        assert(s.subrange(8 + 4 * c, 8 + 4 * c + t) =~= all.subrange(8 + 4 * c, 8 + 4 * c + t));
    }
    if n >= 12 + 4 * c + t {
        let at = 8 + 4 * c + t;
        assert(s.subrange(at, at + 4) =~= all.subrange(at, at + 4));
    }
}

/// A record that was cut is refused, and the error tells which part is not whole.
pub proof fn law_cut_document_is_refused(d: DocumentModel, n: int)
    requires
        d.vector.len() < 0x1_0000_0000,
        encode_utf8(d.text).len() < 0x1_0000_0000,
        d.blob.len() < 0x1_0000_0000,
        0 <= n < document_bytes(d).len(),
    ensures
        ({
            let v = 4 * d.vector.len() as int;
            let t = encode_utf8(d.text).len() as int;
            document_of(document_bytes(d).take(n)) == Err::<DocumentModel, RecordError>(
                if n < 4 {
                    RecordError::TruncatedLength
                } else if n < 4 + v {
                    RecordError::TruncatedVector
                } else if n < 8 + v {
                    RecordError::TruncatedLength
                } else if n < 8 + v + t {
                    RecordError::TruncatedText
                } else if n < 12 + v + t {
                    RecordError::TruncatedLength
                } else {
                    RecordError::TruncatedBlob
                },
            )
        }),
{
    let c = d.vector.len() as int;
    let t = encode_utf8(d.text).len() as int;
    law_document_layout(d);
    vstd::utf8::encode_utf8_valid_utf8(d.text);
    lemma_cut_record(document_bytes(d), n, c, t);
}

/// A document is read field by field.
pub proof fn law_document_is_read_field_by_field(d: Document)
    ensures
        d@.vector == d.vector@,
        d@.text == d.text@,
        d@.blob == d.blob@,
{
}

/// A record whose text is all there and is no text is refused because of that.
pub proof fn law_invalid_text_is_refused(s: Seq<u8>, vec_len: int, text_len: int)
    requires
        s.len() >= 4,
        u32_at(s, 0) == vec_len,
        s.len() >= 8 + 4 * vec_len,
        u32_at(s, 4 + 4 * vec_len) == text_len,
        s.len() >= 8 + 4 * vec_len + text_len,
    ensures
        document_of(s) == Err::<DocumentModel, RecordError>(RecordError::InvalidText)
            <==> !valid_utf8(s.subrange(8 + 4 * vec_len, 8 + 4 * vec_len + text_len)),
{
}

} // verus!
