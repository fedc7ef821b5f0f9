//! XOR stream cipher driven by a hash-tree keystream.
use vstd::prelude::*;

use crate::tree::{keystream, HashTree, KeystreamError};

verus! {

/// Size of the chunks the stream is processed in.
pub const BUFFER_LEN: usize = 131072;

/// Byte-wise XOR of `data` with `key` (over the length of `data`).
pub open spec fn xor_bytes(data: Seq<u8>, key: Seq<u8>) -> Seq<u8> {
    Seq::new(data.len(), |i: int| data[i] ^ key[i])
}

/// XORs `chunk` in place with the next `chunk.len()` keystream bytes. Fails,
/// leaving both untouched, when the keystream has fewer bytes left.
pub fn encrypt_chunk(chunk: &mut [u8], keystream_source: &mut HashTree) -> (r: Result<
    (),
    KeystreamError,
>)
    requires
        old(keystream_source).wf(),
    ensures
        final(keystream_source).wf(),
        final(keystream_source).seed() == old(keystream_source).seed(),
        final(keystream_source).depth() == old(keystream_source).depth(),
        r.is_err() <==> old(keystream_source).position() + old(chunk)@.len() > old(
            keystream_source,
        ).capacity(),
        r.is_err() ==> *final(keystream_source) == *old(keystream_source) && final(chunk)@ == old(
            chunk,
        )@,
        r.is_ok() ==> {
            &&& final(keystream_source).position() == old(keystream_source).position() + old(
                chunk,
            )@.len()
            &&& final(chunk)@ == xor_bytes(
                old(chunk)@,
                keystream(
                    old(keystream_source).seed(),
                    old(keystream_source).depth() as int,
                    old(keystream_source).position(),
                    old(chunk)@.len(),
                ),
            )
        },
{
    let len = chunk.len();
    let mut mask: Vec<u8> = Vec::new();
    let mut k: usize = 0;
    while k < len
        invariant
            k <= len,
            mask@.len() == k,
        decreases len - k,
    {
        mask.push(0u8);
        k = k + 1;
    }
    match keystream_source.read_exact(mask.as_mut_slice()) {
        Err(e) => {
            return Err(e);
        },
        Ok(()) => {},
    }
    let ghost before = chunk@;
    let mut i: usize = 0;
    while i < len
        invariant
            i <= len,
            chunk@.len() == len,
            mask@.len() == len,
            before.len() == len,
            forall|j: int| 0 <= j < i ==> #[trigger] chunk@[j] == before[j] ^ mask@[j],
            forall|j: int| i <= j < len ==> #[trigger] chunk@[j] == before[j],
        decreases len - i,
    {
        chunk[i] = chunk[i] ^ mask[i];
        i = i + 1;
    }
    assert(chunk@ =~= xor_bytes(before, mask@));
    Ok(())
}

/// Encrypts (or decrypts) `input` chunk by chunk, `chunk_len` bytes at a time,
/// the last chunk holding what is left. Fails, leaving the keystream
/// untouched, when it has fewer than `input.len()` bytes left.
pub fn encrypt_buffer(input: &[u8], chunk_len: usize, keystream_source: &mut HashTree) -> (r:
    Result<Vec<u8>, KeystreamError>)
    requires
        old(keystream_source).wf(),
        chunk_len > 0,
    ensures
        final(keystream_source).wf(),
        final(keystream_source).seed() == old(keystream_source).seed(),
        final(keystream_source).depth() == old(keystream_source).depth(),
        r.is_err() <==> old(keystream_source).position() + input@.len() > old(
            keystream_source,
        ).capacity(),
        r.is_err() ==> *final(keystream_source) == *old(keystream_source),
        r matches Ok(out) ==> {
            &&& final(keystream_source).position() == old(keystream_source).position()
                + input@.len()
            &&& out@ == xor_bytes(
                input@,
                keystream(
                    old(keystream_source).seed(),
                    old(keystream_source).depth() as int,
                    old(keystream_source).position(),
                    input@.len(),
                ),
            )
        },
{
    proof {
        keystream_source.lemma_wf();
    }
    let len = input.len();
    let ghost seed = keystream_source.seed();
    let ghost depth = keystream_source.depth() as int;
    let ghost pos0 = keystream_source.position();
    let ghost cap = keystream_source.capacity();
    let capacity: u64 = (keystream_source.last_leaf_index() as u64 + 1) * 32;
    let position: u64 = keystream_source.current_path() as u64 * 32
        + keystream_source.current_offset() as u64;
    if len as u64 > capacity - position {
        return Err(KeystreamError::Exhausted);
    }
    let mut out: Vec<u8> = Vec::new();
    let mut done: usize = 0;
    loop
        invariant
            keystream_source.wf(),
            keystream_source.seed() == seed,
            keystream_source.depth() == depth,
            keystream_source.capacity() == cap,
            pos0 + len <= cap,
            len == input@.len(),
            done <= len,
            chunk_len > 0,
            keystream_source.position() == pos0 + done,
            out@ == xor_bytes(input@.subrange(0, done as int), keystream(seed, depth, pos0, done as nat)),
        ensures
            done == len,
        decreases len - done,
    {
        let count = if len - done < chunk_len {
            len - done
        } else {
            chunk_len
        };
        let mut chunk: Vec<u8> = Vec::new();
        let mut k: usize = 0;
        while k < count
            invariant
                k <= count,
                done + count <= len,
                len == input@.len(),
                chunk@ == input@.subrange(done as int, done + k),
            decreases count - k,
        {
            chunk.push(input[done + k]);
            k = k + 1;
        }
        let ghost plain = chunk@;
        let res = encrypt_chunk(chunk.as_mut_slice(), keystream_source);
        assert(res.is_ok());
        let ghost out_before = out@;
        let mut j: usize = 0;
        while j < count
            invariant
                j <= count,
                chunk@.len() == count,
                out@ == out_before + chunk@.subrange(0, j as int),
            decreases count - j,
        {
            out.push(chunk[j]);
            j = j + 1;
            assert(out@ =~= out_before + chunk@.subrange(0, j as int));
        }
        proof {
            crate::tree::lemma_keystream_concat(seed, depth, pos0, done as nat, count as nat);
            assert(chunk@.subrange(0, count as int) =~= chunk@);
            assert(out@ =~= xor_bytes(
                input@.subrange(0, done + count),
                keystream(seed, depth, pos0, (done + count) as nat),
            ));
        }
        done = done + count;
        if count != chunk_len {
            break;
        }
    }
    assert(input@.subrange(0, len as int) =~= input@);
    Ok(out)
}

/// XORing twice with the same key gives the data back.
pub proof fn lemma_xor_self_inverse(data: Seq<u8>, key: Seq<u8>)
    requires
        key.len() >= data.len(),
    ensures
        xor_bytes(xor_bytes(data, key), key) == data,
{
    assert forall|i: int| 0 <= i < data.len() implies #[trigger] xor_bytes(
        xor_bytes(data, key),
        key,
    )[i] == data[i] by {
        let a = data[i];
        let b = key[i];
        assert(a ^ b ^ b == a) by (bit_vector);
    }
    assert(xor_bytes(xor_bytes(data, key), key) =~= data);
}

/// Decrypting with a keystream that has the same seed and depth and stands at
/// the same position as the one used to encrypt gives the plaintext back: when
/// `cipher` is what `encrypt_buffer` made of `plain` with `enc`, and `back` is
/// what it made of `cipher` with `dec`, then `back` is `plain`.
pub proof fn lemma_round_trip(
    plain: Seq<u8>,
    cipher: Seq<u8>,
    back: Seq<u8>,
    enc: &HashTree,
    dec: &HashTree,
)
    requires
        enc.seed() == dec.seed(),
        enc.depth() == dec.depth(),
        enc.position() == dec.position(),
        cipher == xor_bytes(
            plain,
            keystream(enc.seed(), enc.depth() as int, enc.position(), plain.len()),
        ),
        back == xor_bytes(
            cipher,
            keystream(dec.seed(), dec.depth() as int, dec.position(), cipher.len()),
        ),
    ensures
        back == plain,
{
    lemma_xor_self_inverse(
        plain,
        keystream(enc.seed(), enc.depth() as int, enc.position(), plain.len()),
    );
}

} // verus!
