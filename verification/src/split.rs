//! The split engine: seal the content once under a fresh key and nonce, deal
//! the key and the nonce into T-of-N shares, and emit N fragment files whose
//! headers differ only in index and share pair while their bodies are the one
//! ciphertext, byte for byte.
use vstd::prelude::*;

use crate::codec::dec_seq;
use crate::codec::push_dec;
use crate::crypto::{
    cipher_of, deal_shares, encrypt_bytes, fresh_key, fresh_nonce, seal_len_limit, shares_ok,
};
use crate::header::{encode_header, header_bytes, valid_header, HeaderV, HorcruxHeader, Timestamp};

verus! {

/// One produced fragment: the file name it should be stored under, and the
/// full file content (header plus replicated ciphertext body).
#[derive(Debug)]
pub struct FragmentFile {
    pub file_name: Vec<u8>,
    pub bytes: Vec<u8>,
}

#[derive(Clone, Copy, PartialEq, Eq, Structural, Debug)]
pub enum SplitError {
    InvalidCounts,
    EncryptionFailed,
}

/// The header of fragment `index`, as a value.
pub open spec fn hv(
    name: Seq<u8>,
    stamp: Timestamp,
    index: u8,
    total: u8,
    threshold: u8,
    key_share: Seq<u8>,
    nonce_share: Seq<u8>,
) -> HeaderV {
    HeaderV {
        name,
        secs: stamp.secs,
        nanos: stamp.nanos,
        index,
        total,
        threshold,
        key: key_share,
        nonce: nonce_share,
    }
}

/// `{stem}_{index}_of_{total}.horcrux`
pub open spec fn fragment_name(stem: Seq<u8>, index: u8, total: u8) -> Seq<u8> {
    stem + seq![95u8] + dec_seq(index as int) + seq![95u8, 111u8, 102u8, 95u8] + dec_seq(
        total as int,
    ) + seq![46u8, 104u8, 111u8, 114u8, 99u8, 114u8, 117u8, 120u8]
}

/// Everything split promises of its output, with the dealt share lists as
/// witnesses: the shares reconstruct the key and nonce from any qualifying
/// subset, and fragment `i` is exactly its header followed by the ciphertext.
pub open spec fn split_output_with(
    out: Seq<FragmentFile>,
    content: Seq<u8>,
    name: Seq<u8>,
    stem: Seq<u8>,
    stamp: Timestamp,
    key: Seq<u8>,
    nonce: Seq<u8>,
    total: u8,
    threshold: u8,
    ks: Seq<Seq<u8>>,
    ns: Seq<Seq<u8>>,
) -> bool {
    &&& shares_ok(ks, key, threshold, total)
    &&& shares_ok(ns, nonce, threshold, total)
    &&& out.len() == total as int
    &&& forall|i: int|
        0 <= i < out.len() ==> (#[trigger] out[i]).file_name@ == fragment_name(
            stem,
            (i + 1) as u8,
            total,
        )
    &&& forall|i: int|
        0 <= i < out.len() ==> (#[trigger] out[i]).bytes@ == header_bytes(
            hv(name, stamp, (i + 1) as u8, total, threshold, ks[i], ns[i]),
        ) + cipher_of(key, nonce, content)
}

/// Split without the witnesses spelled out.
pub open spec fn split_output_ok(
    out: Seq<FragmentFile>,
    content: Seq<u8>,
    name: Seq<u8>,
    stem: Seq<u8>,
    stamp: Timestamp,
    key: Seq<u8>,
    nonce: Seq<u8>,
    total: u8,
    threshold: u8,
) -> bool {
    exists|ks: Seq<Seq<u8>>, ns: Seq<Seq<u8>>|
        split_output_with(out, content, name, stem, stamp, key, nonce, total, threshold, ks, ns)
}

pub fn copy_bytes(v: &Vec<u8>) -> (r: Vec<u8>)
    ensures
        r@ == v@,
{
    let mut out: Vec<u8> = Vec::new();
    let mut i: usize = 0;
    while i < v.len()
        invariant
            0 <= i <= v@.len(),
            out@ == v@.subrange(0, i as int),
        decreases v@.len() - i,
    {
        out.push(v[i]);
        proof {
            assert(out@ =~= v@.subrange(0, i + 1));
        }
        i = i + 1;
    }
    proof {
        assert(v@.subrange(0, v@.len() as int) =~= v@);
    }
    out
}

pub fn extend_bytes(dst: &mut Vec<u8>, src: &Vec<u8>)
    ensures
        final(dst)@ == old(dst)@ + src@,
{
    let mut i: usize = 0;
    while i < src.len()
        invariant
            0 <= i <= src@.len(),
            dst@ == old(dst)@ + src@.subrange(0, i as int),
        decreases src@.len() - i,
    {
        dst.push(src[i]);
        proof {
            assert(old(dst)@ + src@.subrange(0, i as int) + seq![src@[i as int]] =~= old(dst)@
                + src@.subrange(0, i + 1));
        }
        i = i + 1;
    }
    proof {
        assert(src@.subrange(0, src@.len() as int) =~= src@);
    }
}

/// Builds `{stem}_{index}_of_{total}.horcrux`.
pub fn make_fragment_name(stem: &Vec<u8>, index: u8, total: u8) -> (r: Vec<u8>)
    ensures
        r@ == fragment_name(stem@, index, total),
{
    let mut out: Vec<u8> = Vec::new();
    extend_bytes(&mut out, stem);
    out.push(95);
    push_dec(&mut out, index as u64);
    out.push(95);
    out.push(111);
    out.push(102);
    out.push(95);
    push_dec(&mut out, total as u64);
    out.push(46);
    out.push(104);
    out.push(111);
    out.push(114);
    out.push(99);
    out.push(114);
    out.push(117);
    out.push(120);
    proof {
        assert(out@ =~= fragment_name(stem@, index, total));
    }
    out
}

/// Splits `content` under a caller-supplied key and nonce: every fragment
/// carries the same name, stamp, total and threshold, its own 1-based index
/// and share pair, and the one ciphertext as body.
pub fn split_with_secrets(
    content: &Vec<u8>,
    file_name: &Vec<u8>,
    file_stem: &Vec<u8>,
    stamp: &Timestamp,
    key: &Vec<u8>,
    nonce: &Vec<u8>,
    total: u8,
    threshold: u8,
) -> (r: Result<Vec<FragmentFile>, SplitError>)
    requires
        key@.len() == 32,
        nonce@.len() == 19,
        stamp.nanos <= 999_999_999,
    ensures
        match r {
            Ok(out) => 1 <= threshold <= total && content@.len() < seal_len_limit()
                && split_output_ok(
                out@,
                content@,
                file_name@,
                file_stem@,
                *stamp,
                key@,
                nonce@,
                total,
                threshold,
            ),
            Err(e) => if !(1 <= threshold <= total) {
                e == SplitError::InvalidCounts
            } else {
                e == SplitError::EncryptionFailed && content@.len() >= seal_len_limit()
            },
        },
{
    if total < 1 || threshold < 1 || threshold > total {
        return Err(SplitError::InvalidCounts);
    }
    let ks = deal_shares(key, threshold, total);
    let ns = deal_shares(nonce, threshold, total);
    let cipher = match encrypt_bytes(key, nonce, content) {
        Some(c) => c,
        None => {
            return Err(SplitError::EncryptionFailed);
        },
    };
    let mut out: Vec<FragmentFile> = Vec::new();
    let mut i: u8 = 0;
    while i < total
        invariant
            0 <= i <= total,
            1 <= threshold <= total,
            key@.len() == 32,
            nonce@.len() == 19,
            stamp.nanos <= 999_999_999,
            shares_ok(ks.deep_view(), key@, threshold, total),
            shares_ok(ns.deep_view(), nonce@, threshold, total),
            ks@.len() == total as int,
            ns@.len() == total as int,
            cipher@ == cipher_of(key@, nonce@, content@),
            out@.len() == i as int,
            forall|j: int|
                0 <= j < i as int ==> (#[trigger] out@[j]).file_name@ == fragment_name(
                    file_stem@,
                    (j + 1) as u8,
                    total,
                ),
            forall|j: int|
                0 <= j < i as int ==> (#[trigger] out@[j]).bytes@ == header_bytes(
                    hv(
                        file_name@,
                        *stamp,
                        (j + 1) as u8,
                        total,
                        threshold,
                        ks.deep_view()[j],
                        ns.deep_view()[j],
                    ),
                ) + cipher_of(key@, nonce@, content@),
        decreases total as int - i as int,
    {
        let h = HorcruxHeader {
            canonical_file_name: copy_bytes(file_name),
            timestamp: *stamp,
            index: i + 1,
            total,
            threshold,
            key_fragment: copy_bytes(&ks[i as usize]),
            nonce_fragment: copy_bytes(&ns[i as usize]),
        };
        proof {
            assert(ks.deep_view()[i as int] == ks@[i as int]@);
            assert(ns.deep_view()[i as int] == ns@[i as int]@);
            assert(h.model() == hv(
                file_name@,
                *stamp,
                (i + 1) as u8,
                total,
                threshold,
                ks.deep_view()[i as int],
                ns.deep_view()[i as int],
            ));
            assert(valid_header(h.model()));
        }
        let mut bytes = encode_header(&h);
        extend_bytes(&mut bytes, &cipher);
        let fname = make_fragment_name(file_stem, i + 1, total);
        out.push(FragmentFile { file_name: fname, bytes });
        i = i + 1;
    }
    proof {
        assert(split_output_with(
            out@,
            content@,
            file_name@,
            file_stem@,
            *stamp,
            key@,
            nonce@,
            total,
            threshold,
            ks.deep_view(),
            ns.deep_view(),
        ));
    }
    Ok(out)
}

/// Splits `content` under a freshly drawn random key and nonce.
pub fn split_file(
    content: &Vec<u8>,
    file_name: &Vec<u8>,
    file_stem: &Vec<u8>,
    stamp: &Timestamp,
    total: u8,
    threshold: u8,
) -> (r: Result<Vec<FragmentFile>, SplitError>)
    requires
        stamp.nanos <= 999_999_999,
    ensures
        match r {
            Ok(out) => 1 <= threshold <= total && content@.len() < seal_len_limit() && (exists|
                key: Seq<u8>,
                nonce: Seq<u8>,
            |
                key.len() == 32 && nonce.len() == 19 && split_output_ok(
                    out@,
                    content@,
                    file_name@,
                    file_stem@,
                    *stamp,
                    key,
                    nonce,
                    total,
                    threshold,
                )),
            Err(e) => if !(1 <= threshold <= total) {
                e == SplitError::InvalidCounts
            } else {
                e == SplitError::EncryptionFailed && content@.len() >= seal_len_limit()
            },
        },
{
    let key = fresh_key();
    let nonce = fresh_nonce();
    split_with_secrets(content, file_name, file_stem, stamp, &key, &nonce, total, threshold)
}

} // verus!
