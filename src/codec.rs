//! The on-disk form of a record.
//!
//! A record is a tag byte, the little-endian 64-bit byte lengths of its
//! strings, then the UTF-8 bytes of the key (and of the value, for an
//! assignment). A record is self-delimiting, and a record cut short by a
//! crash reads as the end of its segment.
use vstd::bytes::{
    lemma_auto_spec_u64_to_from_le_bytes, spec_u64_from_le_bytes, spec_u64_to_le_bytes,
    u64_from_le_bytes, u64_to_le_bytes,
};
use vstd::prelude::*;
use vstd::string::StringSliceAdditionalSpecFns;
use vstd::utf8::{
    decode_utf8, decode_utf8_encode_utf8, encode_utf8, encode_utf8_decode_utf8,
    encode_utf8_valid_utf8, valid_utf8,
};

use crate::command::{CommandView, DataCommand};
use crate::error::KvsError;

verus! {

/// Tag byte of an assignment record.
pub const PUT_TAG: u8 = 1;

/// Tag byte of a tombstone.
pub const RM_TAG: u8 = 2;

/// Bytes before the key in an assignment record: tag and two lengths.
pub const PUT_HEADER: usize = 17;

/// Bytes before the key in a tombstone: tag and one length.
pub const RM_HEADER: usize = 9;

/// The bytes of a record.
pub open spec fn encode_record(c: CommandView) -> Seq<u8> {
    match c {
        CommandView::Put { key, value } => {
            let kb = encode_utf8(key);
            let vb = encode_utf8(value);
            seq![PUT_TAG] + spec_u64_to_le_bytes(kb.len() as u64) + spec_u64_to_le_bytes(
                vb.len() as u64,
            ) + kb + vb
        },
        CommandView::Rm { key } => {
            let kb = encode_utf8(key);
            seq![RM_TAG] + spec_u64_to_le_bytes(kb.len() as u64) + kb
        },
    }
}

/// The string lengths of a record fit in its 64-bit length fields.
pub open spec fn record_fits(c: CommandView) -> bool {
    match c {
        CommandView::Put { key, value } => encode_utf8(key).len() <= u64::MAX && encode_utf8(
            value,
        ).len() <= u64::MAX,
        CommandView::Rm { key } => encode_utf8(key).len() <= u64::MAX,
    }
}

/// What the front of a byte sequence holds.
pub enum Decoded {
    /// Nothing more: the bytes are empty or a record cut short.
    End,
    /// Bytes that no record starts with.
    Corrupt,
    /// A whole record, `len` bytes long.
    Record { cmd: CommandView, len: nat },
}

/// Reads the record at the front of `b`.
pub open spec fn decode_record(b: Seq<u8>) -> Decoded {
    if b.len() == 0 {
        Decoded::End
    } else if b[0] == PUT_TAG {
        if b.len() < PUT_HEADER {
            Decoded::End
        } else {
            let klen = spec_u64_from_le_bytes(b.subrange(1, 9)) as int;
            let vlen = spec_u64_from_le_bytes(b.subrange(9, 17)) as int;
            if b.len() < 17 + klen + vlen {
                Decoded::End
            } else {
                let kb = b.subrange(17, 17 + klen);
                let vb = b.subrange(17 + klen, 17 + klen + vlen);
                if valid_utf8(kb) && valid_utf8(vb) {
                    Decoded::Record {
                        cmd: CommandView::Put { key: decode_utf8(kb), value: decode_utf8(vb) },
                        len: (17 + klen + vlen) as nat,
                    }
                } else {
                    Decoded::Corrupt
                }
            }
        }
    } else if b[0] == RM_TAG {
        if b.len() < RM_HEADER {
            Decoded::End
        } else {
            let klen = spec_u64_from_le_bytes(b.subrange(1, 9)) as int;
            if b.len() < 9 + klen {
                Decoded::End
            } else {
                let kb = b.subrange(9, 9 + klen);
                if valid_utf8(kb) {
                    Decoded::Record { cmd: CommandView::Rm { key: decode_utf8(kb) }, len: (9 + klen) as nat }
                } else {
                    Decoded::Corrupt
                }
            }
        }
    } else {
        Decoded::Corrupt
    }
}

/// A decoded record spans at least one byte and no more than the input.
pub proof fn lemma_decoded_len(b: Seq<u8>)
    ensures
        decode_record(b) matches Decoded::Record { len, .. } ==> 0 < len <= b.len(),
{
}

/// Decoding the bytes of a record, whatever follows them, gives the record
/// back together with its length.
pub proof fn lemma_decode_encode(c: CommandView, rest: Seq<u8>)
    requires
        record_fits(c),
    ensures
        decode_record(encode_record(c) + rest) == (Decoded::Record {
            cmd: c,
            len: encode_record(c).len(),
        }),
{
    lemma_auto_spec_u64_to_from_le_bytes();
    let b = encode_record(c) + rest;
    match c {
        CommandView::Put { key, value } => {
            let kb = encode_utf8(key);
            let vb = encode_utf8(value);
            let klen = kb.len() as u64;
            let vlen = vb.len() as u64;
            assert(b.subrange(1, 9) =~= spec_u64_to_le_bytes(klen));
            assert(b.subrange(9, 17) =~= spec_u64_to_le_bytes(vlen));
            assert(b.subrange(17, 17 + kb.len() as int) =~= kb);
            assert(b.subrange(17 + kb.len() as int, 17 + kb.len() + vb.len() as int) =~= vb);
            encode_utf8_valid_utf8(key);
            encode_utf8_valid_utf8(value);
            encode_utf8_decode_utf8(key);
            encode_utf8_decode_utf8(value);
        },
        CommandView::Rm { key } => {
            let kb = encode_utf8(key);
            let klen = kb.len() as u64;
            assert(b.subrange(1, 9) =~= spec_u64_to_le_bytes(klen));
            assert(b.subrange(9, 9 + kb.len() as int) =~= kb);
            encode_utf8_valid_utf8(key);
            encode_utf8_decode_utf8(key);
        },
    }
}

/// A record cut short anywhere after its first byte reads as the end of the
/// stream, never as a record.
pub proof fn lemma_torn_record(c: CommandView, n: int)
    requires
        record_fits(c),
        0 < n < encode_record(c).len(),
    ensures
        decode_record(encode_record(c).subrange(0, n)) == Decoded::End,
{
    lemma_auto_spec_u64_to_from_le_bytes();
    let e = encode_record(c);
    let b = e.subrange(0, n);
    match c {
        CommandView::Put { key, value } => {
            if n >= 17 {
                assert(b.subrange(1, 9) =~= spec_u64_to_le_bytes(encode_utf8(key).len() as u64));
                assert(b.subrange(9, 17) =~= spec_u64_to_le_bytes(
                    encode_utf8(value).len() as u64,
                ));
            }
        },
        CommandView::Rm { key } => {
            if n >= 9 {
                assert(b.subrange(1, 9) =~= spec_u64_to_le_bytes(encode_utf8(key).len() as u64));
            }
        },
    }
}

/// A record that decodes is the encoding of what it decodes to.
pub proof fn lemma_encode_decode(b: Seq<u8>)
    requires
        decode_record(b) is Record,
    ensures
        record_fits(decode_record(b)->cmd),
        b.subrange(0, decode_record(b)->len as int) == encode_record(decode_record(b)->cmd),
{
    lemma_auto_spec_u64_to_from_le_bytes();
    if b[0] == PUT_TAG {
        let klen = spec_u64_from_le_bytes(b.subrange(1, 9)) as int;
        let vlen = spec_u64_from_le_bytes(b.subrange(9, 17)) as int;
        let kb = b.subrange(17, 17 + klen);
        let vb = b.subrange(17 + klen, 17 + klen + vlen);
        decode_utf8_encode_utf8(kb);
        decode_utf8_encode_utf8(vb);
        assert(spec_u64_to_le_bytes(spec_u64_from_le_bytes(b.subrange(1, 9))) == b.subrange(1, 9));
        assert(spec_u64_to_le_bytes(spec_u64_from_le_bytes(b.subrange(9, 17))) == b.subrange(
            9,
            17,
        ));
        assert(b.subrange(0, 17 + klen + vlen) =~= seq![PUT_TAG] + b.subrange(1, 9) + b.subrange(
            9,
            17,
        ) + kb + vb);
    } else {
        let klen = spec_u64_from_le_bytes(b.subrange(1, 9)) as int;
        let kb = b.subrange(9, 9 + klen);
        decode_utf8_encode_utf8(kb);
        assert(spec_u64_to_le_bytes(spec_u64_from_le_bytes(b.subrange(1, 9))) == b.subrange(1, 9));
        assert(b.subrange(0, 9 + klen) =~= seq![RM_TAG] + b.subrange(1, 9) + kb);
    }
}

/// A whole record at the front reads the same whatever follows it.
pub proof fn lemma_decode_prefix(b: Seq<u8>, more: Seq<u8>)
    requires
        decode_record(b) is Record,
    ensures
        decode_record(b + more) == decode_record(b),
{
    let c = b + more;
    assert(c.subrange(1, 9) =~= b.subrange(1, 9));
    if b[0] == PUT_TAG {
        assert(c.subrange(9, 17) =~= b.subrange(9, 17));
        let klen = spec_u64_from_le_bytes(b.subrange(1, 9)) as int;
        let vlen = spec_u64_from_le_bytes(b.subrange(9, 17)) as int;
        assert(c.subrange(17, 17 + klen) =~= b.subrange(17, 17 + klen));
        assert(c.subrange(17 + klen, 17 + klen + vlen) =~= b.subrange(17 + klen, 17 + klen + vlen));
    } else {
        let klen = spec_u64_from_le_bytes(b.subrange(1, 9)) as int;
        assert(c.subrange(9, 9 + klen) =~= b.subrange(9, 9 + klen));
    }
}

/// Relies on `std::str::from_utf8`: it accepts exactly the valid UTF-8 byte
/// sequences and reads them as the characters they encode.
#[verifier::external_body]
fn utf8_string(b: &[u8]) -> (r: Option<String>)
    ensures
        match r {
            Some(s) => valid_utf8(b@) && s@ == decode_utf8(b@),
            None => !valid_utf8(b@),
        },
{
    match std::str::from_utf8(b) {
        Ok(s) => Some(s.to_string()),
        Err(_) => None,
    }
}

/// Appends the bytes of `b` to `out`.
pub fn append_bytes(out: &mut Vec<u8>, b: &[u8])
    ensures
        final(out)@ == old(out)@ + b@,
{
    let mut i: usize = 0;
    while i < b.len()
        invariant
            i <= b@.len(),
            out@ == old(out)@ + b@.subrange(0, i as int),
        decreases b@.len() - i,
    {
        out.push(b[i]);
        i = i + 1;
        assert(out@ =~= old(out)@ + b@.subrange(0, i as int));
    }
    assert(b@.subrange(0, b@.len() as int) =~= b@);
}

/// The bytes of a record.
pub fn encode_command(c: &DataCommand) -> (r: Vec<u8>)
    ensures
        r@ == encode_record(c@),
        record_fits(c@),
{
    let mut out: Vec<u8> = Vec::new();
    match c {
        DataCommand::Put { key, value } => {
            let kb = key.as_str().as_bytes();
            let vb = value.as_str().as_bytes();
            out.push(PUT_TAG);
            let kl = u64_to_le_bytes(kb.len() as u64);
            let vl = u64_to_le_bytes(vb.len() as u64);
            append_bytes(&mut out, kl.as_slice());
            append_bytes(&mut out, vl.as_slice());
            append_bytes(&mut out, kb);
            append_bytes(&mut out, vb);
            assert(out@ =~= encode_record(c@));
        },
        DataCommand::Rm { key } => {
            let kb = key.as_str().as_bytes();
            out.push(RM_TAG);
            let kl = u64_to_le_bytes(kb.len() as u64);
            append_bytes(&mut out, kl.as_slice());
            append_bytes(&mut out, kb);
            assert(out@ =~= encode_record(c@));
        },
    }
    out
}

/// Reads the record at the front of `buf[start..end]`: `Ok(None)` at the end
/// of the stream (nothing left, or a record cut short), an error for bytes
/// that no record starts with, else the record and its length.
pub fn decode_command(buf: &[u8], start: usize, end: usize) -> (r: Result<
    Option<(DataCommand, usize)>,
    KvsError,
>)
    requires
        start <= end <= buf@.len(),
    ensures
        match decode_record(buf@.subrange(start as int, end as int)) {
            Decoded::End => r == Ok::<Option<(DataCommand, usize)>, KvsError>(None),
            Decoded::Corrupt => r == Err::<Option<(DataCommand, usize)>, KvsError>(
                KvsError::Decode,
            ),
            Decoded::Record { cmd, len } => r matches Ok(Some((c, n))) && c@ == cmd && n == len,
        },
{
    let ghost b = buf@.subrange(start as int, end as int);
    let avail = end - start;
    if avail == 0 {
        return Ok(None);
    }
    let tag = buf[start];
    if tag == PUT_TAG {
        if avail < PUT_HEADER {
            return Ok(None);
        }
        let s1 = &buf[start + 1..start + 9];
        let s2 = &buf[start + 9..start + 17];
        assert(s1@ =~= b.subrange(1, 9));
        assert(s2@ =~= b.subrange(9, 17));
        let klen = u64_from_le_bytes(s1);
        let vlen = u64_from_le_bytes(s2);
        let room = (avail - PUT_HEADER) as u64;
        if klen > room || vlen > room - klen {
            return Ok(None);
        }
        let k0 = start + PUT_HEADER;
        let k1 = k0 + klen as usize;
        let v1 = k1 + vlen as usize;
        let kslice = &buf[k0..k1];
        let vslice = &buf[k1..v1];
        assert(kslice@ =~= b.subrange(17, 17 + klen));
        assert(vslice@ =~= b.subrange(17 + klen, 17 + klen + vlen));
        match (utf8_string(kslice), utf8_string(vslice)) {
            (Some(key), Some(value)) => Ok(Some((DataCommand::Put { key, value }, v1 - start))),
            _ => Err(KvsError::Decode),
        }
    } else if tag == RM_TAG {
        if avail < RM_HEADER {
            return Ok(None);
        }
        let s1 = &buf[start + 1..start + 9];
        assert(s1@ =~= b.subrange(1, 9));
        let klen = u64_from_le_bytes(s1);
        let room = (avail - RM_HEADER) as u64;
        if klen > room {
            return Ok(None);
        }
        let k0 = start + RM_HEADER;
        let k1 = k0 + klen as usize;
        let kslice = &buf[k0..k1];
        assert(kslice@ =~= b.subrange(9, 9 + klen));
        match utf8_string(kslice) {
            Some(key) => Ok(Some((DataCommand::Rm { key }, k1 - start))),
            None => Err(KvsError::Decode),
        }
    } else {
        Err(KvsError::Decode)
    }
}

} // verus!
