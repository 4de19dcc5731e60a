//! Chunked file-content encoding and decoding.
//!
//! Reading is asymmetric by design: a file whose length exceeds the chunk
//! threshold has only its first chunk read and decoded *lossily* (malformed
//! byte sequences replaced), a deliberate size guard; a file within the
//! threshold is decoded *strictly* and rejected when its bytes are not
//! valid UTF-8.  Writing cuts the content's bytes into chunks of at most
//! the threshold and never truncates: the chunks concatenate back to the
//! full encoding.

use vstd::prelude::*;
use vstd::string::StrSliceExecFns;
use vstd::utf8::{valid_utf8, decode_utf8, encode_utf8};
use crate::error::AppError;

verus! {

/// The chunk threshold: files beyond this byte length are read only up to
/// this length, and written content is cut into pieces of at most this
/// length.
pub const CHUNK_SIZE: usize = 1024 * 1024;

/// What `String::from_utf8_lossy` makes of the bytes: the decoded text
/// with every malformed sequence replaced.
pub uninterp spec fn lossy_utf8(bytes: Seq<u8>) -> Seq<char>;

/// Relies on `String::from_utf8_lossy`: the result depends on the bytes
/// alone, and valid UTF-8 is decoded exactly, with nothing replaced.
#[verifier::external_body]
fn decode_lossy(bytes: &Vec<u8>) -> (r: String)
    ensures
        r@ == lossy_utf8(bytes@),
        valid_utf8(bytes@) ==> r@ == decode_utf8(bytes@),
{
    String::from_utf8_lossy(bytes.as_slice()).into_owned()
}

/// Relies on `String::from_utf8`: it succeeds exactly on valid UTF-8 and
/// then decodes those bytes.
#[verifier::external_body]
fn decode_strict(bytes: Vec<u8>) -> (r: Option<String>)
    ensures
        match r {
            Some(s) => valid_utf8(bytes@) && s@ == decode_utf8(bytes@),
            None => !valid_utf8(bytes@),
        },
{
    String::from_utf8(bytes).ok()
}

/// Decodes the bytes read from a file of total length `file_len`.  Beyond
/// the threshold (the caller then hands in only the first chunk) decoding
/// is lossy and always succeeds; within it, decoding is strict and invalid
/// UTF-8 is an `io`-kind error.
pub fn decode_content(bytes: Vec<u8>, file_len: u64, chunk_size: usize) -> (r: Result<String, AppError>)
    ensures
        file_len > chunk_size as u64 ==> (r matches Ok(s) && s@ == lossy_utf8(bytes@)),
        file_len <= chunk_size as u64 && valid_utf8(bytes@) ==> (r matches Ok(s) && s@
            == decode_utf8(bytes@)),
        file_len <= chunk_size as u64 && !valid_utf8(bytes@) ==> (r matches Err(e)
            && e.error_type@ == "io"@),
{
    if file_len > chunk_size as u64 {
        Ok(decode_lossy(&bytes))
    } else {
        match decode_strict(bytes) {
            Some(s) => Ok(s),
            None => Err(AppError::io("stream did not contain valid UTF-8".to_owned())),
        }
    }
}

/// The byte sequences held by a vector of chunks, in order.
pub open spec fn chunks_view(v: Vec<Vec<u8>>) -> Seq<Seq<u8>> {
    Seq::new(v@.len(), |i: int| v@[i]@)
}

/// All chunks laid end to end.
pub open spec fn flatten_bytes(s: Seq<Seq<u8>>) -> Seq<u8>
    decreases s.len(),
{
    if s.len() == 0 {
        Seq::empty()
    } else {
        s[0] + flatten_bytes(s.drop_first())
    }
}

/// Appending one chunk appends its bytes.
pub proof fn lemma_flatten_push(s: Seq<Seq<u8>>, c: Seq<u8>)
    ensures
        flatten_bytes(s.push(c)) == flatten_bytes(s) + c,
    decreases s.len(),
{
    if s.len() == 0 {
        assert(s.push(c)[0] == c);
        assert(s.push(c).drop_first() =~= Seq::<Seq<u8>>::empty());
        assert(flatten_bytes(Seq::<Seq<u8>>::empty()) == Seq::<u8>::empty());
        assert(flatten_bytes(s.push(c)) == c + Seq::<u8>::empty());
        assert(c + Seq::<u8>::empty() =~= c);
        assert(flatten_bytes(s) + c =~= c);
    } else {
        lemma_flatten_push(s.drop_first(), c);
        assert(s.push(c)[0] == s[0]);
        assert(s.push(c).drop_first() =~= s.drop_first().push(c));
        assert(s[0] + (flatten_bytes(s.drop_first()) + c) =~= (s[0] + flatten_bytes(s.drop_first())) + c);
    }
}

/// Cuts the content's bytes into successive chunks of at most `chunk_size`
/// bytes each (every chunk non-empty).  Nothing is dropped: the chunks
/// concatenate to exactly the UTF-8 encoding of the content.
#[verifier::loop_isolation(false)]
pub fn prepare_chunks(content: &String, chunk_size: usize) -> (r: Vec<Vec<u8>>)
    requires
        chunk_size > 0,
    ensures
        flatten_bytes(chunks_view(r)) == encode_utf8(content@),
        forall|i: int| 0 <= i < r@.len() ==> (#[trigger] r@[i]@.len()) <= chunk_size,
        forall|i: int| 0 <= i < r@.len() ==> (#[trigger] r@[i]@.len()) > 0,
{
    let bytes = content.as_str().as_bytes_vec();
    let mut out: Vec<Vec<u8>> = Vec::new();
    let mut i: usize = 0;
    proof {
        assert(bytes@.take(0) =~= Seq::<u8>::empty());
    }
    while i < bytes.len()
        invariant
            i <= bytes.len(),
            flatten_bytes(chunks_view(out)) == bytes@.take(i as int),
            forall|k: int| 0 <= k < out@.len() ==> (#[trigger] out@[k]@.len()) <= chunk_size,
            forall|k: int| 0 <= k < out@.len() ==> (#[trigger] out@[k]@.len()) > 0,
        decreases bytes.len() - i,
    {
        let ghost start = i as int;
        let mut chunk: Vec<u8> = Vec::new();
        let mut j: usize = 0;
        while j < chunk_size && i < bytes.len()
            invariant
                j <= chunk_size,
                start <= i as int <= bytes.len(),
                j as int == i as int - start,
                chunk@ == bytes@.subrange(start, i as int),
            decreases bytes.len() - i,
        {
            let b = bytes[i];
            chunk.push(b);
            proof {
                assert(bytes@.subrange(start, i as int).push(bytes@[i as int])
                    =~= bytes@.subrange(start, i as int + 1));
            }
            i = i + 1;
            j = j + 1;
        }
        proof {
            lemma_flatten_push(chunks_view(out), chunk@);
        }
        let ghost before = out@;
        out.push(chunk);
        proof {
            assert(chunks_view(out) =~= chunks_view_of(before).push(bytes@.subrange(start, i as int)));
            assert(bytes@.take(start) + bytes@.subrange(start, i as int) =~= bytes@.take(i as int));
        }
    }
    proof {
        assert(bytes@.take(bytes@.len() as int) =~= bytes@);
    }
    out
}

/// The byte sequences of a sequence of chunk vectors, in order.
pub open spec fn chunks_view_of(s: Seq<Vec<u8>>) -> Seq<Seq<u8>> {
    Seq::new(s.len(), |i: int| s[i]@)
}

/// Lays a sequence of chunks end to end again, as a reader of the written
/// file would see the bytes.
#[verifier::loop_isolation(false)]
pub fn concat_chunks(chunks: &Vec<Vec<u8>>) -> (r: Vec<u8>)
    ensures
        r@ == flatten_bytes(chunks_view(*chunks)),
{
    let mut out: Vec<u8> = Vec::new();
    let mut i: usize = 0;
    proof {
        assert(chunks_view(*chunks).take(0) =~= Seq::<Seq<u8>>::empty());
    }
    while i < chunks.len()
        invariant
            i <= chunks.len(),
            out@ == flatten_bytes(chunks_view(*chunks).take(i as int)),
        decreases chunks.len() - i,
    {
        proof {
            lemma_flatten_push(chunks_view(*chunks).take(i as int), chunks@[i as int]@);
            assert(chunks_view(*chunks).take(i as int + 1)
                =~= chunks_view(*chunks).take(i as int).push(chunks@[i as int]@));
        }
        out.extend_from_slice(chunks[i].as_slice());
        i = i + 1;
    }
    proof {
        assert(chunks_view(*chunks).take(chunks@.len() as int) =~= chunks_view(*chunks));
    }
    out
}

/// Law: writing never loses content, whatever its size.  The UTF-8
/// encoding of any content is valid UTF-8, and decoding it strictly
/// recovers the content exactly — so the bytes that [`prepare_chunks`]
/// lays out, once concatenated, read back as the original content.
pub proof fn lemma_round_trip(content: Seq<char>)
    ensures
        valid_utf8(encode_utf8(content)),
        decode_utf8(encode_utf8(content)) == content,
{
    vstd::utf8::encode_utf8_valid_utf8(content);
    vstd::utf8::encode_utf8_decode_utf8(content);
}

} // verus!
