//! The fragment header: a marker line, then one `key=value;` record line, then
//! the opaque payload body. Rendering and parsing are both specified at the
//! byte level, with a proof that parsing inverts rendering.
use vstd::prelude::*;

use crate::codec::{
    all_digits, dec_seq, expect_at, find_byte, hex_seq, hex_val, lemma_dec_seq_digits,
    lemma_dec_seq_val, lemma_hex_roundtrip, lemma_hex_seq_digits, lemma_hex_seq_len,
    lemma_spec_find_at, lemma_spec_find_sound, push_dec, push_hex, seek_at, spec_dec_field,
    spec_expect, spec_find, spec_hex_field, spec_seek_key, take_dec_field, take_hex_field,
};

verus! {

/// Seconds and subsecond nanoseconds since the epoch; equality is the
/// provenance test, so the resolution is kept exactly.
#[derive(Clone, Copy, PartialEq, Eq, Structural, Debug)]
pub struct Timestamp {
    pub secs: u64,
    pub nanos: u32,
}

/// Metadata written at the start of every fragment file.
#[derive(Debug)]
pub struct HorcruxHeader {
    pub canonical_file_name: Vec<u8>,
    pub timestamp: Timestamp,
    pub index: u8,
    pub total: u8,
    pub threshold: u8,
    pub key_fragment: Vec<u8>,
    pub nonce_fragment: Vec<u8>,
}

/// Mathematical image of a header.
pub struct HeaderV {
    pub name: Seq<u8>,
    pub secs: u64,
    pub nanos: u32,
    pub index: u8,
    pub total: u8,
    pub threshold: u8,
    pub key: Seq<u8>,
    pub nonce: Seq<u8>,
}

impl HorcruxHeader {
    pub open spec fn model(&self) -> HeaderV {
        HeaderV {
            name: self.canonical_file_name@,
            secs: self.timestamp.secs,
            nanos: self.timestamp.nanos,
            index: self.index,
            total: self.total,
            threshold: self.threshold,
            key: self.key_fragment@,
            nonce: self.nonce_fragment@,
        }
    }
}

pub open spec fn valid_header(v: HeaderV) -> bool {
    &&& 1 <= v.index <= v.total
    &&& 1 <= v.threshold <= v.total
    &&& v.nanos <= 999_999_999
}

// ---------- literals ----------

pub open spec fn marker_lit() -> Seq<u8> {
    seq![72u8, 79u8, 82u8, 67u8, 82u8, 85u8, 88u8, 49u8, 10u8]
}

pub open spec fn key_name() -> Seq<u8> {
    seq![110u8, 97u8, 109u8, 101u8, 61u8]
}

pub open spec fn key_secs() -> Seq<u8> {
    seq![115u8, 101u8, 99u8, 115u8, 61u8]
}

pub open spec fn key_nanos() -> Seq<u8> {
    seq![110u8, 97u8, 110u8, 111u8, 115u8, 61u8]
}

pub open spec fn key_index() -> Seq<u8> {
    seq![105u8, 110u8, 100u8, 101u8, 120u8, 61u8]
}

pub open spec fn key_total() -> Seq<u8> {
    seq![116u8, 111u8, 116u8, 97u8, 108u8, 61u8]
}

pub open spec fn key_threshold() -> Seq<u8> {
    seq![116u8, 104u8, 114u8, 101u8, 115u8, 104u8, 111u8, 108u8, 100u8, 61u8]
}

pub open spec fn key_key() -> Seq<u8> {
    seq![107u8, 101u8, 121u8, 61u8]
}

pub open spec fn key_nonce() -> Seq<u8> {
    seq![110u8, 111u8, 110u8, 99u8, 101u8, 61u8]
}

/// A hex run closed by `;`.
pub open spec fn hf(x: Seq<u8>) -> Seq<u8> {
    hex_seq(x) + seq![59u8]
}

/// A decimal numeral closed by `;`.
pub open spec fn df(n: int) -> Seq<u8> {
    dec_seq(n) + seq![59u8]
}

/// The final hex run, closed by the newline that ends the header line.
pub open spec fn hl(x: Seq<u8>) -> Seq<u8> {
    hex_seq(x) + seq![10u8]
}

/// Every byte of a fragment file before its payload body.
pub open spec fn header_bytes(v: HeaderV) -> Seq<u8> {
    marker_lit() + key_name() + hf(v.name) + key_secs() + df(v.secs as int) + key_nanos() + df(
        v.nanos as int,
    ) + key_index() + df(v.index as int) + key_total() + df(v.total as int) + key_threshold() + df(
        v.threshold as int,
    ) + key_key() + hf(v.key) + key_nonce() + hl(v.nonce)
}

// ---------- parsing ----------

/// The closing hex field: ends at the first `;` or the line's newline,
/// whichever comes first; the position after the newline is the body offset.
pub open spec fn spec_hex_last(s: Seq<u8>, pos: int) -> Option<(Seq<u8>, int)> {
    match spec_find(s, pos, 10u8) {
        None => None,
        Some(nl) => {
            let e = match spec_find(s, pos, 59u8) {
                Some(k) => if k < nl {
                    k
                } else {
                    nl
                },
                None => nl,
            };
            match hex_val(s.subrange(pos, e)) {
                None => None,
                Some(bs) => Some((bs, nl + 1)),
            }
        },
    }
}

/// Parse of a whole fragment file: the header and the body offset, or nothing
/// if the file is not a well-formed fragment. Unknown `key=value;` pairs may
/// stand anywhere on the record line and are skipped; the known fields keep
/// their relative order.
pub open spec fn parse_frag(s: Seq<u8>) -> Option<(HeaderV, int)> {
    match spec_expect(s, 0, marker_lit()) {
        None => None,
        Some(p1) => match spec_seek_key(s, p1, key_name()) {
            None => None,
            Some(p2) => match spec_hex_field(s, p2, 59u8) {
                None => None,
                Some((name, p3)) => match spec_seek_key(s, p3, key_secs()) {
                    None => None,
                    Some(p4) => match spec_dec_field(s, p4, 59u8, 0xffff_ffff_ffff_ffff) {
                        None => None,
                        Some((secs, p5)) => match spec_seek_key(s, p5, key_nanos()) {
                            None => None,
                            Some(p6) => match spec_dec_field(s, p6, 59u8, 999_999_999) {
                                None => None,
                                Some((nanos, p7)) => match spec_seek_key(s, p7, key_index()) {
                                    None => None,
                                    Some(p8) => match spec_dec_field(s, p8, 59u8, 255) {
                                        None => None,
                                        Some((index, p9)) => match spec_seek_key(s, p9, key_total()) {
                                            None => None,
                                            Some(p10) => match spec_dec_field(s, p10, 59u8, 255) {
                                                None => None,
                                                Some((total, p11)) => match spec_seek_key(
                                                    s,
                                                    p11,
                                                    key_threshold(),
                                                ) {
                                                    None => None,
                                                    Some(p12) => match spec_dec_field(
                                                        s,
                                                        p12,
                                                        59u8,
                                                        255,
                                                    ) {
                                                        None => None,
                                                        Some((threshold, p13)) => match spec_seek_key(
                                                            s,
                                                            p13,
                                                            key_key(),
                                                        ) {
                                                            None => None,
                                                            Some(p14) => match spec_hex_field(
                                                                s,
                                                                p14,
                                                                59u8,
                                                            ) {
                                                                None => None,
                                                                Some((key, p15)) => match spec_seek_key(
                                                                    s,
                                                                    p15,
                                                                    key_nonce(),
                                                                ) {
                                                                    None => None,
                                                                    Some(p16) => match spec_hex_last(
                                                                        s,
                                                                        p16,
                                                                    ) {
                                                                        None => None,
                                                                        Some((nonce, off)) => {
                                                                            let v = HeaderV {
                                                                                name,
                                                                                secs: secs as u64,
                                                                                nanos: nanos as u32,
                                                                                index: index as u8,
                                                                                total: total as u8,
                                                                                threshold: threshold as u8,
                                                                                key,
                                                                                nonce,
                                                                            };
                                                                            if valid_header(v) {
                                                                                Some((v, off))
                                                                            } else {
                                                                                None
                                                                            }
                                                                        },
                                                                    },
                                                                },
                                                            },
                                                        },
                                                    },
                                                },
                                            },
                                        },
                                    },
                                },
                            },
                        },
                    },
                },
            },
        },
    }
}

// ---------- parse inverts render ----------

pub proof fn lemma_expect_complete(s: Seq<u8>, pos: int, lit: Seq<u8>, tail: Seq<u8>)
    requires
        0 <= pos <= s.len(),
        s.subrange(pos, s.len() as int) == lit + tail,
    ensures
        spec_expect(s, pos, lit) == Some(pos + lit.len() as int),
        spec_seek_key(s, pos, lit) == Some(pos + lit.len() as int),
        s.subrange(pos + lit.len() as int, s.len() as int) == tail,
{
    let suf = s.subrange(pos, s.len() as int);
    assert(suf.len() == lit.len() + tail.len());
    assert(forall|j: int| 0 <= j < suf.len() ==> suf[j] == s[pos + j]);
    assert(s.subrange(pos, pos + lit.len() as int) =~= lit);
    assert forall|k: int| 0 <= k < tail.len() implies s[pos + lit.len() as int + k] == tail[k] by {
        assert(suf[lit.len() + k] == s[pos + (lit.len() + k)]);
        assert((lit + tail)[lit.len() + k] == tail[k]);
    }
    lemma_suffix_shift(s, pos, lit.len() as int, tail);
}

/// From `s[pos..] == front ++ tail` with `front.len() == flen`, the bytes from
/// `pos + flen` on are exactly `tail`.
proof fn lemma_suffix_shift(s: Seq<u8>, pos: int, flen: int, tail: Seq<u8>)
    requires
        0 <= pos <= s.len(),
        0 <= flen,
        pos + flen + tail.len() == s.len(),
        forall|k: int| 0 <= k < tail.len() ==> s[pos + flen + k] == tail[k],
    ensures
        s.subrange(pos + flen, s.len() as int) == tail,
{
    let target = s.subrange(pos + flen, s.len() as int);
    assert forall|k: int| 0 <= k < tail.len() implies target[k] == tail[k] by {
        assert(target[k] == s[pos + flen + k]);
    }
    assert(target =~= tail);
}

pub proof fn lemma_hex_field_complete(s: Seq<u8>, pos: int, x: Seq<u8>, tail: Seq<u8>)
    requires
        0 <= pos <= s.len(),
        s.subrange(pos, s.len() as int) == hf(x) + tail,
    ensures
        spec_hex_field(s, pos, 59u8) == Some((x, pos + hex_seq(x).len() + 1)),
        s.subrange(pos + hex_seq(x).len() + 1, s.len() as int) == tail,
{
    let hx = hex_seq(x);
    let suf = s.subrange(pos, s.len() as int);
    lemma_hex_seq_digits(x);
    lemma_hex_seq_len(x);
    assert(forall|j: int| 0 <= j < suf.len() ==> suf[j] == s[pos + j]);
    assert(forall|j: int| 0 <= j < hx.len() ==> (hf(x) + tail)[j] == hx[j]);
    assert(forall|j: int| pos <= j < pos + hx.len() ==> s[j] == hx[j - pos]);
    assert(forall|j: int| pos <= j < pos + hx.len() ==> s[j] != 59u8);
    assert((hf(x) + tail)[hx.len() as int] == 59u8);
    assert(s[pos + hx.len()] == 59u8);
    lemma_spec_find_at(s, pos, pos + hx.len(), 59u8);
    assert(s.subrange(pos, pos + hx.len()) =~= hx);
    lemma_hex_roundtrip(x);
    assert(suf.len() == hx.len() + 1 + tail.len());
    assert forall|k: int| 0 <= k < tail.len() implies s[pos + ((hx.len() + 1) as int) + k] == tail[k] by {
        assert(suf[hx.len() + 1 + k] == s[pos + (hx.len() + 1 + k)]);
        assert((hf(x) + tail)[hx.len() + 1 + k] == tail[k]);
    }
    lemma_suffix_shift(s, pos, (hx.len() + 1) as int, tail);
}

pub proof fn lemma_dec_field_complete(s: Seq<u8>, pos: int, n: int, bound: int, tail: Seq<u8>)
    requires
        0 <= pos <= s.len(),
        0 <= n <= bound,
        s.subrange(pos, s.len() as int) == df(n) + tail,
    ensures
        spec_dec_field(s, pos, 59u8, bound) == Some((n, pos + dec_seq(n).len() + 1)),
        s.subrange(pos + dec_seq(n).len() + 1, s.len() as int) == tail,
{
    let dx = dec_seq(n);
    let suf = s.subrange(pos, s.len() as int);
    lemma_dec_seq_digits(n);
    lemma_dec_seq_val(n);
    assert(forall|j: int| 0 <= j < suf.len() ==> suf[j] == s[pos + j]);
    assert(forall|j: int| 0 <= j < dx.len() ==> (df(n) + tail)[j] == dx[j]);
    assert forall|j: int| pos <= j < pos + dx.len() implies s[j] == dx[j - pos] && s[j] != 59u8 by {
        assert(suf[j - pos] == s[pos + (j - pos)]);
        assert((df(n) + tail)[j - pos] == dx[j - pos]);
    }
    assert((df(n) + tail)[dx.len() as int] == 59u8);
    assert(s[pos + dx.len()] == 59u8);
    lemma_spec_find_at(s, pos, pos + dx.len(), 59u8);
    assert(s.subrange(pos, pos + dx.len()) =~= dx);
    assert(all_digits(s.subrange(pos, pos + dx.len())));
    assert(suf.len() == dx.len() + 1 + tail.len());
    assert forall|k: int| 0 <= k < tail.len() implies s[pos + ((dx.len() + 1) as int) + k] == tail[k] by {
        assert(suf[dx.len() + 1 + k] == s[pos + (dx.len() + 1 + k)]);
        assert((df(n) + tail)[dx.len() + 1 + k] == tail[k]);
    }
    lemma_suffix_shift(s, pos, (dx.len() + 1) as int, tail);
}

pub proof fn lemma_hex_last_complete(s: Seq<u8>, pos: int, x: Seq<u8>, body: Seq<u8>)
    requires
        0 <= pos <= s.len(),
        s.subrange(pos, s.len() as int) == hl(x) + body,
    ensures
        spec_hex_last(s, pos) == Some((x, pos + hex_seq(x).len() + 1)),
        s.subrange(pos + hex_seq(x).len() + 1, s.len() as int) == body,
{
    let hx = hex_seq(x);
    let suf = s.subrange(pos, s.len() as int);
    lemma_hex_seq_digits(x);
    lemma_hex_seq_len(x);
    assert(forall|j: int| 0 <= j < suf.len() ==> suf[j] == s[pos + j]);
    assert(forall|j: int| 0 <= j < hx.len() ==> (hl(x) + body)[j] == hx[j]);
    assert(forall|j: int| pos <= j < pos + hx.len() ==> s[j] == hx[j - pos]);
    assert(forall|j: int| pos <= j < pos + hx.len() ==> s[j] != 10u8 && s[j] != 59u8);
    assert((hl(x) + body)[hx.len() as int] == 10u8);
    assert(s[pos + hx.len()] == 10u8);
    let nl = pos + hx.len();
    lemma_spec_find_at(s, pos, nl, 10u8);
    lemma_spec_find_sound(s, pos, 59u8);
    match spec_find(s, pos, 59u8) {
        Some(k) => {
            assert(s[k] == 59u8);
            assert(k > nl);
        },
        None => {},
    }
    assert(s.subrange(pos, nl) =~= hx);
    lemma_hex_roundtrip(x);
    assert(suf.len() == hx.len() + 1 + body.len());
    assert forall|k: int| 0 <= k < body.len() implies s[pos + ((hx.len() + 1) as int) + k] == body[k] by {
        assert(suf[hx.len() + 1 + k] == s[pos + (hx.len() + 1 + k)]);
        assert((hl(x) + body)[hx.len() + 1 + k] == body[k]);
    }
    lemma_suffix_shift(s, pos, (hx.len() + 1) as int, body);
}

/// Regroups the rendered header (a left-leaning concatenation) followed by a
/// body into the right-leaning shape the field lemmas peel off.
#[verifier::rlimit(100)]
proof fn lemma_regroup(v: HeaderV, body: Seq<u8>)
    ensures
        header_bytes(v) + body == marker_lit() + (key_name() + (hf(v.name) + (key_secs() + (df(
            v.secs as int,
        ) + (key_nanos() + (df(v.nanos as int) + (key_index() + (df(v.index as int) + (key_total()
            + (df(v.total as int) + (key_threshold() + (df(v.threshold as int) + (key_key() + (hf(
            v.key,
        ) + (key_nonce() + (hl(v.nonce) + body)))))))))))))))),
{
    assert(header_bytes(v) + body =~= marker_lit() + (key_name() + (hf(v.name) + (key_secs() + (df(
        v.secs as int,
    ) + (key_nanos() + (df(v.nanos as int) + (key_index() + (df(v.index as int) + (key_total()
        + (df(v.total as int) + (key_threshold() + (df(v.threshold as int) + (key_key() + (hf(
        v.key,
    ) + (key_nonce() + (hl(v.nonce) + body)))))))))))))))));
}

/// Parsing a rendered header followed by any body finds exactly that header,
/// and places the body offset at the end of the rendered bytes.
#[verifier::rlimit(100)]
pub proof fn lemma_parse_render(v: HeaderV, body: Seq<u8>)
    requires
        valid_header(v),
    ensures
        parse_frag(header_bytes(v) + body) == Some(
            (v, header_bytes(v).len() as int),
        ),
{
    let s = header_bytes(v) + body;
    let r17 = hl(v.nonce) + body;
    let r16 = key_nonce() + r17;
    let r15 = hf(v.key) + r16;
    let r14 = key_key() + r15;
    let r13 = df(v.threshold as int) + r14;
    let r12 = key_threshold() + r13;
    let r11 = df(v.total as int) + r12;
    let r10 = key_total() + r11;
    let r9 = df(v.index as int) + r10;
    let r8 = key_index() + r9;
    let r7 = df(v.nanos as int) + r8;
    let r6 = key_nanos() + r7;
    let r5 = df(v.secs as int) + r6;
    let r4 = key_secs() + r5;
    let r3 = hf(v.name) + r4;
    let r2 = key_name() + r3;
    let r1 = marker_lit() + r2;
    lemma_regroup(v, body);
    assert(r17 == hl(v.nonce) + body);
    assert(s == r1);
    assert(s.subrange(0, s.len() as int) =~= s);
    lemma_expect_complete(s, 0, marker_lit(), r2);
    let p1 = marker_lit().len() as int;
    lemma_expect_complete(s, p1, key_name(), r3);
    let p2 = p1 + key_name().len();
    lemma_hex_field_complete(s, p2, v.name, r4);
    let p3 = p2 + hex_seq(v.name).len() + 1;
    lemma_expect_complete(s, p3, key_secs(), r5);
    let p4 = p3 + key_secs().len();
    lemma_dec_field_complete(s, p4, v.secs as int, 0xffff_ffff_ffff_ffff, r6);
    let p5 = p4 + dec_seq(v.secs as int).len() + 1;
    lemma_expect_complete(s, p5, key_nanos(), r7);
    let p6 = p5 + key_nanos().len();
    lemma_dec_field_complete(s, p6, v.nanos as int, 999_999_999, r8);
    let p7 = p6 + dec_seq(v.nanos as int).len() + 1;
    lemma_expect_complete(s, p7, key_index(), r9);
    let p8 = p7 + key_index().len();
    lemma_dec_field_complete(s, p8, v.index as int, 255, r10);
    let p9 = p8 + dec_seq(v.index as int).len() + 1;
    lemma_expect_complete(s, p9, key_total(), r11);
    let p10 = p9 + key_total().len();
    lemma_dec_field_complete(s, p10, v.total as int, 255, r12);
    let p11 = p10 + dec_seq(v.total as int).len() + 1;
    lemma_expect_complete(s, p11, key_threshold(), r13);
    let p12 = p11 + key_threshold().len();
    lemma_dec_field_complete(s, p12, v.threshold as int, 255, r14);
    let p13 = p12 + dec_seq(v.threshold as int).len() + 1;
    lemma_expect_complete(s, p13, key_key(), r15);
    let p14 = p13 + key_key().len();
    lemma_hex_field_complete(s, p14, v.key, r16);
    let p15 = p14 + hex_seq(v.key).len() + 1;
    lemma_expect_complete(s, p15, key_nonce(), r17);
    let p16 = p15 + key_nonce().len();
    lemma_hex_last_complete(s, p16, v.nonce, body);
    let off = p16 + hex_seq(v.nonce).len() + 1;
    assert(off == header_bytes(v).len());
    assert(parse_frag(s) == Some((v, off)));
}

// ---------- executable rendering ----------

fn push_bytes9(
    out: &mut Vec<u8>,
    b0: u8,
    b1: u8,
    b2: u8,
    b3: u8,
    b4: u8,
    b5: u8,
    b6: u8,
    b7: u8,
    b8: u8,
)
    ensures
        final(out)@ == old(out)@ + seq![b0, b1, b2, b3, b4, b5, b6, b7, b8],
{
    out.push(b0);
    out.push(b1);
    out.push(b2);
    out.push(b3);
    out.push(b4);
    out.push(b5);
    out.push(b6);
    out.push(b7);
    out.push(b8);
    assert(out@ =~= old(out)@ + seq![b0, b1, b2, b3, b4, b5, b6, b7, b8]);
}

fn push_bytes5(out: &mut Vec<u8>, b0: u8, b1: u8, b2: u8, b3: u8, b4: u8)
    ensures
        final(out)@ == old(out)@ + seq![b0, b1, b2, b3, b4],
{
    out.push(b0);
    out.push(b1);
    out.push(b2);
    out.push(b3);
    out.push(b4);
    assert(out@ =~= old(out)@ + seq![b0, b1, b2, b3, b4]);
}

fn push_bytes6(out: &mut Vec<u8>, b0: u8, b1: u8, b2: u8, b3: u8, b4: u8, b5: u8)
    ensures
        final(out)@ == old(out)@ + seq![b0, b1, b2, b3, b4, b5],
{
    out.push(b0);
    out.push(b1);
    out.push(b2);
    out.push(b3);
    out.push(b4);
    out.push(b5);
    assert(out@ =~= old(out)@ + seq![b0, b1, b2, b3, b4, b5]);
}

fn push_bytes4(out: &mut Vec<u8>, b0: u8, b1: u8, b2: u8, b3: u8)
    ensures
        final(out)@ == old(out)@ + seq![b0, b1, b2, b3],
{
    out.push(b0);
    out.push(b1);
    out.push(b2);
    out.push(b3);
    assert(out@ =~= old(out)@ + seq![b0, b1, b2, b3]);
}

fn push_bytes10(
    out: &mut Vec<u8>,
    b0: u8,
    b1: u8,
    b2: u8,
    b3: u8,
    b4: u8,
    b5: u8,
    b6: u8,
    b7: u8,
    b8: u8,
    b9: u8,
)
    ensures
        final(out)@ == old(out)@ + seq![b0, b1, b2, b3, b4, b5, b6, b7, b8, b9],
{
    out.push(b0);
    out.push(b1);
    out.push(b2);
    out.push(b3);
    out.push(b4);
    out.push(b5);
    out.push(b6);
    out.push(b7);
    out.push(b8);
    out.push(b9);
    assert(out@ =~= old(out)@ + seq![b0, b1, b2, b3, b4, b5, b6, b7, b8, b9]);
}

/// Renders a header: marker line, then the record line, ready to be followed
/// by the payload body.
pub fn encode_header(h: &HorcruxHeader) -> (r: Vec<u8>)
    requires
        valid_header(h.model()),
    ensures
        r@ == header_bytes(h.model()),
{
    let mut out: Vec<u8> = Vec::new();
    push_bytes9(&mut out, 72, 79, 82, 67, 82, 85, 88, 49, 10);
    push_bytes5(&mut out, 110, 97, 109, 101, 61);
    push_hex(&mut out, &h.canonical_file_name);
    out.push(59);
    push_bytes5(&mut out, 115, 101, 99, 115, 61);
    push_dec(&mut out, h.timestamp.secs);
    out.push(59);
    push_bytes6(&mut out, 110, 97, 110, 111, 115, 61);
    push_dec(&mut out, h.timestamp.nanos as u64);
    out.push(59);
    push_bytes6(&mut out, 105, 110, 100, 101, 120, 61);
    push_dec(&mut out, h.index as u64);
    out.push(59);
    push_bytes6(&mut out, 116, 111, 116, 97, 108, 61);
    push_dec(&mut out, h.total as u64);
    out.push(59);
    push_bytes10(&mut out, 116, 104, 114, 101, 115, 104, 111, 108, 100, 61);
    push_dec(&mut out, h.threshold as u64);
    out.push(59);
    push_bytes4(&mut out, 107, 101, 121, 61);
    push_hex(&mut out, &h.key_fragment);
    out.push(59);
    push_bytes6(&mut out, 110, 111, 110, 99, 101, 61);
    push_hex(&mut out, &h.nonce_fragment);
    out.push(10);
    proof {
        assert(out@ =~= header_bytes(h.model()));
    }
    out
}

// ---------- executable parsing ----------

/// Why a candidate file was rejected as a fragment: the classes spec-level
/// parsing distinguishes, all distinct from any I/O failure.
#[derive(Clone, Copy, PartialEq, Eq, Structural, Debug)]
pub enum HeaderDecodeError {
    BadMarker,
    BadField,
    FieldOutOfRange,
}

/// Decodes the header at the front of a fragment file and reports the byte
/// offset where the payload body starts.
#[verifier::rlimit(100)]
pub fn decode_header(bytes: &Vec<u8>) -> (r: Result<(HorcruxHeader, usize), HeaderDecodeError>)
    ensures
        match r {
            Ok(p) => parse_frag(bytes@) == Some((p.0.model(), p.1 as int)) && valid_header(
                p.0.model(),
            ) && p.1 <= bytes@.len(),
            Err(_) => parse_frag(bytes@) is None,
        },
{
    let blen = bytes.len();
    assert(bytes@.len() == blen as int);
    let mut lit: Vec<u8> = Vec::new();
    push_bytes9(&mut lit, 72, 79, 82, 67, 82, 85, 88, 49, 10);
    let p1 = match expect_at(bytes, 0, &lit) {
        Some(p) => p,
        None => {
            return Err(HeaderDecodeError::BadMarker);
        },
    };
    lit.clear();
    push_bytes5(&mut lit, 110, 97, 109, 101, 61);
    let p2 = match seek_at(bytes, p1, &lit) {
        Some(p) => p,
        None => {
            return Err(HeaderDecodeError::BadField);
        },
    };
    let (name, p3) = match take_hex_field(bytes, p2, 59) {
        Some(p) => p,
        None => {
            return Err(HeaderDecodeError::BadField);
        },
    };
    lit.clear();
    push_bytes5(&mut lit, 115, 101, 99, 115, 61);
    let p4 = match seek_at(bytes, p3, &lit) {
        Some(p) => p,
        None => {
            return Err(HeaderDecodeError::BadField);
        },
    };
    let (secs, p5) = match take_dec_field(bytes, p4, 59, 0xffff_ffff_ffff_ffff) {
        Some(p) => p,
        None => {
            return Err(HeaderDecodeError::BadField);
        },
    };
    lit.clear();
    push_bytes6(&mut lit, 110, 97, 110, 111, 115, 61);
    let p6 = match seek_at(bytes, p5, &lit) {
        Some(p) => p,
        None => {
            return Err(HeaderDecodeError::BadField);
        },
    };
    let (nanos, p7) = match take_dec_field(bytes, p6, 59, 999_999_999) {
        Some(p) => p,
        None => {
            return Err(HeaderDecodeError::BadField);
        },
    };
    lit.clear();
    push_bytes6(&mut lit, 105, 110, 100, 101, 120, 61);
    let p8 = match seek_at(bytes, p7, &lit) {
        Some(p) => p,
        None => {
            return Err(HeaderDecodeError::BadField);
        },
    };
    let (index, p9) = match take_dec_field(bytes, p8, 59, 255) {
        Some(p) => p,
        None => {
            return Err(HeaderDecodeError::BadField);
        },
    };
    lit.clear();
    push_bytes6(&mut lit, 116, 111, 116, 97, 108, 61);
    let p10 = match seek_at(bytes, p9, &lit) {
        Some(p) => p,
        None => {
            return Err(HeaderDecodeError::BadField);
        },
    };
    let (total, p11) = match take_dec_field(bytes, p10, 59, 255) {
        Some(p) => p,
        None => {
            return Err(HeaderDecodeError::BadField);
        },
    };
    lit.clear();
    push_bytes10(&mut lit, 116, 104, 114, 101, 115, 104, 111, 108, 100, 61);
    let p12 = match seek_at(bytes, p11, &lit) {
        Some(p) => p,
        None => {
            return Err(HeaderDecodeError::BadField);
        },
    };
    let (threshold, p13) = match take_dec_field(bytes, p12, 59, 255) {
        Some(p) => p,
        None => {
            return Err(HeaderDecodeError::BadField);
        },
    };
    lit.clear();
    push_bytes4(&mut lit, 107, 101, 121, 61);
    let p14 = match seek_at(bytes, p13, &lit) {
        Some(p) => p,
        None => {
            return Err(HeaderDecodeError::BadField);
        },
    };
    let (key, p15) = match take_hex_field(bytes, p14, 59) {
        Some(p) => p,
        None => {
            return Err(HeaderDecodeError::BadField);
        },
    };
    lit.clear();
    push_bytes6(&mut lit, 110, 111, 110, 99, 101, 61);
    let p16 = match seek_at(bytes, p15, &lit) {
        Some(p) => p,
        None => {
            return Err(HeaderDecodeError::BadField);
        },
    };
    let nl = match find_byte(bytes, p16, 10) {
        Some(k) => k,
        None => {
            proof {
                assert(spec_hex_last(bytes@, p16 as int) is None);
            }
            return Err(HeaderDecodeError::BadField);
        },
    };
    let e = match find_byte(bytes, p16, 59) {
        Some(k) => if k < nl {
            k
        } else {
            nl
        },
        None => nl,
    };
    let nonce = match crate::codec::take_hex_range(bytes, p16, e) {
        Some(v) => v,
        None => {
            proof {
                assert(spec_hex_last(bytes@, p16 as int) is None);
            }
            return Err(HeaderDecodeError::BadField);
        },
    };
    let off = nl + 1;
    proof {
        assert(spec_hex_last(bytes@, p16 as int) == Some((nonce@, off as int)));
    }
    if total < 1 || index < 1 || index > total || threshold < 1 || threshold > total {
        return Err(HeaderDecodeError::FieldOutOfRange);
    }
    let h = HorcruxHeader {
        canonical_file_name: name,
        timestamp: Timestamp { secs, nanos: nanos as u32 },
        index: index as u8,
        total: total as u8,
        threshold: threshold as u8,
        key_fragment: key,
        nonce_fragment: nonce,
    };
    proof {
        assert(parse_frag(bytes@) == Some((h.model(), off as int)));
    }
    Ok((h, off))
}

} // verus!
