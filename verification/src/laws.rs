//! The protocol's guarantees, proved from the split and recovery contracts:
//! any qualifying subset of one split's fragments recovers the original
//! content, too few fragments always fail with the counted error, foreign
//! fragments are never merged in, bodies are byte-identical, and the headers
//! of one split agree on everything but index and shares.
use vstd::prelude::*;

use crate::crypto::{cipher_of, recovered_secret, share_selection, shares_ok};
use crate::header::{header_bytes, lemma_parse_render, parse_frag, valid_header, HeaderV, Timestamp};
use crate::recover::{
    body_of_first, find_bad, group_consistent, group_keys, group_nonces, headers_of,
    recover_outcome, same_provenance, RecoverError,
};
use crate::split::{fragment_name, hv, split_output_with, FragmentFile};

verus! {

/// The files of the picked fragments, in pick order.
pub open spec fn picked_files(out: Seq<FragmentFile>, picks: Seq<int>) -> Seq<Seq<u8>> {
    Seq::new(picks.len(), |j: int| out[picks[j]].bytes@)
}

proof fn lemma_find_bad_none(cs: Seq<Seq<u8>>, k: int)
    requires
        0 <= k,
        forall|j: int| k <= j < cs.len() ==> parse_frag(#[trigger] cs[j]) is Some,
    ensures
        find_bad(cs, k) is None,
    decreases cs.len() - k,
{
    if k < cs.len() {
        lemma_find_bad_none(cs, k + 1);
    }
}

/// When, among the first `k` headers, exactly the first `m` match the
/// reference, the gathered shares are exactly those of the first `m`.
proof fn lemma_group_prefix(hs: Seq<HeaderV>, r0: HeaderV, k: int, m: int)
    requires
        0 <= m <= k <= hs.len(),
        forall|j: int| 0 <= j < k ==> (same_provenance(#[trigger] hs[j], r0) <==> j < m),
    ensures
        group_keys(hs, r0, k).len() == m,
        forall|j: int| 0 <= j < m ==> group_keys(hs, r0, k)[j] == (#[trigger] hs[j]).key,
        group_nonces(hs, r0, k).len() == m,
        forall|j: int| 0 <= j < m ==> group_nonces(hs, r0, k)[j] == (#[trigger] hs[j]).nonce,
    decreases k,
{
    if k > 0 {
        if m == k {
            lemma_group_prefix(hs, r0, k - 1, m - 1);
        } else {
            lemma_group_prefix(hs, r0, k - 1, m);
        }
    }
}

/// Every picked fragment of one split parses back to its header, and the
/// reference body is the ciphertext.
#[verifier::rlimit(100)]
proof fn lemma_picked_parse(
    out: Seq<FragmentFile>,
    content: Seq<u8>,
    name: Seq<u8>,
    stem: Seq<u8>,
    stamp: Timestamp,
    key: Seq<u8>,
    nonce: Seq<u8>,
    total: u8,
    threshold: u8,
    ks: Seq<Seq<u8>>,
    ns: Seq<Seq<u8>>,
    picks: Seq<int>,
)
    requires
        split_output_with(out, content, name, stem, stamp, key, nonce, total, threshold, ks, ns),
        1 <= threshold <= total,
        stamp.nanos <= 999_999_999,
        forall|j: int| 0 <= j < picks.len() ==> 0 <= #[trigger] picks[j] < out.len(),
        picks.len() >= 1,
    ensures
        find_bad(picked_files(out, picks), 0) is None,
        forall|j: int|
            0 <= j < picks.len() ==> parse_frag(#[trigger] picked_files(out, picks)[j]) == Some(
                (
                    hv(
                        name,
                        stamp,
                        (picks[j] + 1) as u8,
                        total,
                        threshold,
                        ks[picks[j]],
                        ns[picks[j]],
                    ),
                    header_bytes(
                        hv(
                            name,
                            stamp,
                            (picks[j] + 1) as u8,
                            total,
                            threshold,
                            ks[picks[j]],
                            ns[picks[j]],
                        ),
                    ).len() as int,
                ),
            ),
        forall|j: int|
            0 <= j < picks.len() ==> headers_of(picked_files(out, picks))[j] == hv(
                name,
                stamp,
                (picks[j] + 1) as u8,
                total,
                threshold,
                ks[picks[j]],
                ns[picks[j]],
            ),
        body_of_first(picked_files(out, picks)) == cipher_of(key, nonce, content),
{
    let cs = picked_files(out, picks);
    let m = picks.len() as int;
    let cipher = cipher_of(key, nonce, content);
    assert forall|j: int| 0 <= j < m implies parse_frag(#[trigger] cs[j]) == Some(
        (
            hv(name, stamp, (picks[j] + 1) as u8, total, threshold, ks[picks[j]], ns[picks[j]]),
            header_bytes(
                hv(name, stamp, (picks[j] + 1) as u8, total, threshold, ks[picks[j]], ns[picks[j]]),
            ).len() as int,
        ),
    ) by {
        let i = picks[j];
        let v = hv(name, stamp, (i + 1) as u8, total, threshold, ks[i], ns[i]);
        assert(out[i].bytes@ == header_bytes(v) + cipher);
        assert(valid_header(v));
        lemma_parse_render(v, cipher);
        assert(cs[j] == out[i].bytes@);
    }
    lemma_find_bad_none(cs, 0);
    let v0 = hv(name, stamp, (picks[0] + 1) as u8, total, threshold, ks[picks[0]], ns[picks[0]]);
    assert(cs[0] == header_bytes(v0) + cipher);
    assert(body_of_first(cs) =~= cipher);
}

/// Shares picked without repetition from one dealing, at least `threshold`
/// many, reconstruct the dealt secret.
proof fn lemma_picked_selection(
    ks: Seq<Seq<u8>>,
    secret: Seq<u8>,
    threshold: u8,
    total: u8,
    picks: Seq<int>,
    sel: Seq<Seq<u8>>,
)
    requires
        shares_ok(ks, secret, threshold, total),
        picks.no_duplicates(),
        forall|j: int| 0 <= j < picks.len() ==> 0 <= #[trigger] picks[j] < ks.len(),
        sel.len() == picks.len(),
        threshold as int <= sel.len(),
        forall|j: int| 0 <= j < sel.len() ==> #[trigger] sel[j] == ks[picks[j]],
    ensures
        recovered_secret(threshold, sel) == Some(secret),
{
    assert forall|a: int, b: int|
        0 <= a < sel.len() && 0 <= b < sel.len() && a != b implies sel[a] != sel[b] by {
        assert(sel[a] == ks[picks[a]] && sel[b] == ks[picks[b]]);
        assert(picks[a] != picks[b]);
        assert(ks[picks[a]][0] == picks[a] + 1 && ks[picks[b]][0] == picks[b] + 1);
    }
    assert forall|j: int| 0 <= j < sel.len() implies ks.contains(#[trigger] sel[j]) by {
        assert(sel[j] == ks[picks[j]]);
    }
    assert(share_selection(sel, ks, threshold));
}

/// Everything recovery determines from a qualifying pick of one split's
/// fragments, before decryption: it reaches the reconstruction step and finds
/// the original name, the key, the nonce, and the one ciphertext.
#[verifier::rlimit(100)]
pub proof fn lemma_recover_ready(
    out: Seq<FragmentFile>,
    content: Seq<u8>,
    name: Seq<u8>,
    stem: Seq<u8>,
    stamp: Timestamp,
    key: Seq<u8>,
    nonce: Seq<u8>,
    total: u8,
    threshold: u8,
    ks: Seq<Seq<u8>>,
    ns: Seq<Seq<u8>>,
    picks: Seq<int>,
)
    requires
        split_output_with(out, content, name, stem, stamp, key, nonce, total, threshold, ks, ns),
        1 <= threshold <= total,
        stamp.nanos <= 999_999_999,
        key.len() == 32,
        nonce.len() == 19,
        picks.no_duplicates(),
        forall|j: int| 0 <= j < picks.len() ==> 0 <= #[trigger] picks[j] < out.len(),
        threshold as int <= picks.len(),
    ensures
        recover_outcome(picked_files(out, picks)) == Ok::<(Seq<u8>, Seq<u8>, Seq<u8>, Seq<u8>),
            RecoverError,
        >((name, key, nonce, cipher_of(key, nonce, content))),
{
    let cs = picked_files(out, picks);
    let m = picks.len() as int;
    lemma_picked_parse(
        out,
        content,
        name,
        stem,
        stamp,
        key,
        nonce,
        total,
        threshold,
        ks,
        ns,
        picks,
    );
    let hs = headers_of(cs);
    let r0 = hs[0];
    assert(r0 == hv(name, stamp, (picks[0] + 1) as u8, total, threshold, ks[picks[0]], ns[picks[0]]));
    assert forall|j: int| 0 <= j < m implies same_provenance(#[trigger] hs[j], r0) by {
        assert(hs[j] == hv(
            name,
            stamp,
            (picks[j] + 1) as u8,
            total,
            threshold,
            ks[picks[j]],
            ns[picks[j]],
        ));
    }
    assert(group_consistent(hs, r0));
    lemma_group_prefix(hs, r0, m, m);
    let gk = group_keys(hs, r0, m);
    let gn = group_nonces(hs, r0, m);
    assert(gk.len() == m >= threshold as int);
    assert forall|j: int| 0 <= j < gk.len() implies #[trigger] gk[j] == ks[picks[j]] by {
        assert(gk[j] == hs[j].key);
    }
    assert forall|j: int| 0 <= j < gn.len() implies #[trigger] gn[j] == ns[picks[j]] by {
        assert(gn[j] == hs[j].nonce);
    }
    lemma_picked_selection(ks, key, threshold, total, picks, gk);
    lemma_picked_selection(ns, nonce, threshold, total, picks, gn);
    assert(recover_outcome(cs) == Ok::<(Seq<u8>, Seq<u8>, Seq<u8>, Seq<u8>), RecoverError>(
        (name, key, nonce, cipher_of(key, nonce, content)),
    ));
}

/// Too few fragments of one split, however chosen, end in the counted
/// insufficiency error, never in a wrong result; a pick of none at all is the
/// distinct no-fragments error.
pub proof fn lemma_threshold_strict(
    out: Seq<FragmentFile>,
    content: Seq<u8>,
    name: Seq<u8>,
    stem: Seq<u8>,
    stamp: Timestamp,
    key: Seq<u8>,
    nonce: Seq<u8>,
    total: u8,
    threshold: u8,
    ks: Seq<Seq<u8>>,
    ns: Seq<Seq<u8>>,
    picks: Seq<int>,
)
    requires
        split_output_with(out, content, name, stem, stamp, key, nonce, total, threshold, ks, ns),
        1 <= threshold <= total,
        stamp.nanos <= 999_999_999,
        picks.no_duplicates(),
        forall|j: int| 0 <= j < picks.len() ==> 0 <= #[trigger] picks[j] < out.len(),
        1 <= picks.len() < threshold as int,
    ensures
        recover_outcome(picked_files(out, picks)) == Err::<(Seq<u8>, Seq<u8>, Seq<u8>, Seq<u8>),
            RecoverError,
        >(
            RecoverError::InsufficientFragments {
                found: picks.len() as usize,
                need: threshold,
            },
        ),
{
    let cs = picked_files(out, picks);
    let m = picks.len() as int;
    lemma_picked_parse(
        out,
        content,
        name,
        stem,
        stamp,
        key,
        nonce,
        total,
        threshold,
        ks,
        ns,
        picks,
    );
    let hs = headers_of(cs);
    let r0 = hs[0];
    assert forall|j: int| 0 <= j < m implies same_provenance(#[trigger] hs[j], r0) by {
        assert(hs[j] == hv(
            name,
            stamp,
            (picks[j] + 1) as u8,
            total,
            threshold,
            ks[picks[j]],
            ns[picks[j]],
        ));
    }
    assert(group_consistent(hs, r0));
    lemma_group_prefix(hs, r0, m, m);
    assert(group_keys(hs, r0, m).len() == m < r0.threshold as int);
}

/// Which qualifying subset is used makes no difference: any two picks of at
/// least `threshold` fragments reach the reconstruction step with the same
/// name, key, nonce and ciphertext, hence the same plaintext.
pub proof fn lemma_subset_irrelevant(
    out: Seq<FragmentFile>,
    content: Seq<u8>,
    name: Seq<u8>,
    stem: Seq<u8>,
    stamp: Timestamp,
    key: Seq<u8>,
    nonce: Seq<u8>,
    total: u8,
    threshold: u8,
    ks: Seq<Seq<u8>>,
    ns: Seq<Seq<u8>>,
    picks_a: Seq<int>,
    picks_b: Seq<int>,
)
    requires
        split_output_with(out, content, name, stem, stamp, key, nonce, total, threshold, ks, ns),
        1 <= threshold <= total,
        stamp.nanos <= 999_999_999,
        key.len() == 32,
        nonce.len() == 19,
        picks_a.no_duplicates(),
        picks_b.no_duplicates(),
        forall|j: int| 0 <= j < picks_a.len() ==> 0 <= #[trigger] picks_a[j] < out.len(),
        forall|j: int| 0 <= j < picks_b.len() ==> 0 <= #[trigger] picks_b[j] < out.len(),
        threshold as int <= picks_a.len(),
        threshold as int <= picks_b.len(),
    ensures
        recover_outcome(picked_files(out, picks_a)) == recover_outcome(
            picked_files(out, picks_b),
        ),
        recover_outcome(picked_files(out, picks_a)) is Ok,
{
    lemma_recover_ready(
        out,
        content,
        name,
        stem,
        stamp,
        key,
        nonce,
        total,
        threshold,
        ks,
        ns,
        picks_a,
    );
    lemma_recover_ready(
        out,
        content,
        name,
        stem,
        stamp,
        key,
        nonce,
        total,
        threshold,
        ks,
        ns,
        picks_b,
    );
}

/// Shares drawn by mask: the values at the marked positions, in order.
pub open spec fn mask_select(vals: Seq<Seq<u8>>, srcs: Seq<bool>, k: int) -> Seq<Seq<u8>>
    decreases k,
{
    if k <= 0 {
        Seq::empty()
    } else {
        let p = mask_select(vals, srcs, k - 1);
        if srcs[k - 1] {
            p.push(vals[k - 1])
        } else {
            p
        }
    }
}

/// How many of the first `k` positions are marked.
pub open spec fn count_true(srcs: Seq<bool>, k: int) -> int
    decreases k,
{
    if k <= 0 {
        0
    } else {
        count_true(srcs, k - 1) + if srcs[k - 1] {
            1int
        } else {
            0int
        }
    }
}

/// When the headers matching the reference are exactly the marked ones, the
/// gathered shares are the key and nonce values at the marked positions.
proof fn lemma_group_mask(hs: Seq<HeaderV>, r0: HeaderV, srcs: Seq<bool>, k: int)
    requires
        0 <= k <= hs.len(),
        srcs.len() == hs.len(),
        forall|j: int| 0 <= j < k ==> (same_provenance(#[trigger] hs[j], r0) <==> srcs[j]),
    ensures
        group_keys(hs, r0, k) == mask_select(Seq::new(hs.len(), |j: int| hs[j].key), srcs, k),
        group_nonces(hs, r0, k) == mask_select(Seq::new(hs.len(), |j: int| hs[j].nonce), srcs, k),
    decreases k,
{
    if k > 0 {
        lemma_group_mask(hs, r0, srcs, k - 1);
    }
}

/// The marked positions among the first `k`, in increasing order.
pub open spec fn mask_positions(srcs: Seq<bool>, k: int) -> Seq<int>
    decreases k,
{
    if k <= 0 {
        Seq::empty()
    } else {
        let p = mask_positions(srcs, k - 1);
        if srcs[k - 1] {
            p.push(k - 1)
        } else {
            p
        }
    }
}

/// The marked positions: one per marked index, each marked, strictly
/// increasing (so pairwise distinct).
proof fn lemma_mask_positions(srcs: Seq<bool>, k: int)
    requires
        0 <= k <= srcs.len(),
    ensures
        mask_positions(srcs, k).len() == count_true(srcs, k),
        forall|idx: int|
            0 <= idx < mask_positions(srcs, k).len() ==> 0 <= #[trigger] mask_positions(srcs, k)[idx]
                < k && srcs[mask_positions(srcs, k)[idx]],
        forall|idx1: int, idx2: int|
            0 <= idx1 < idx2 < mask_positions(srcs, k).len() ==> mask_positions(srcs, k)[idx1]
                < mask_positions(srcs, k)[idx2],
    decreases k,
{
    if k > 0 {
        lemma_mask_positions(srcs, k - 1);
    }
}

/// The masked values are the values at the marked positions, in order.
proof fn lemma_mask_select_vals(vals: Seq<Seq<u8>>, srcs: Seq<bool>, k: int)
    requires
        0 <= k <= srcs.len(),
        vals.len() == srcs.len(),
    ensures
        mask_select(vals, srcs, k).len() == mask_positions(srcs, k).len(),
        forall|idx: int|
            0 <= idx < mask_select(vals, srcs, k).len() ==> #[trigger] mask_select(vals, srcs, k)[idx]
                == vals[mask_positions(srcs, k)[idx]],
    decreases k,
{
    if k > 0 {
        lemma_mask_select_vals(vals, srcs, k - 1);
        lemma_mask_positions(srcs, k - 1);
    }
}

/// The files of a mixed directory: position `j` holds a fragment of the
/// reference split where `srcs[j]` is set, and a foreign one otherwise.
pub open spec fn mixed_files(
    out_a: Seq<FragmentFile>,
    out_b: Seq<FragmentFile>,
    srcs: Seq<bool>,
    picks: Seq<int>,
) -> Seq<Seq<u8>> {
    Seq::new(
        picks.len(),
        |j: int|
            if srcs[j] {
                out_a[picks[j]].bytes@
            } else {
                out_b[picks[j]].bytes@
            },
    )
}

/// Fragments of two distinct split operations in one directory are never
/// merged, however the two sets are interleaved: with the reference fragment
/// from the first split and at least its threshold of that split's fragments
/// present anywhere in the listing, recovery finds exactly that split's name,
/// key, nonce and ciphertext.
#[verifier::rlimit(100)]
pub proof fn lemma_provenance_isolation(
    out_a: Seq<FragmentFile>,
    content_a: Seq<u8>,
    name_a: Seq<u8>,
    stem_a: Seq<u8>,
    stamp_a: Timestamp,
    key_a: Seq<u8>,
    nonce_a: Seq<u8>,
    total_a: u8,
    threshold_a: u8,
    ks_a: Seq<Seq<u8>>,
    ns_a: Seq<Seq<u8>>,
    out_b: Seq<FragmentFile>,
    content_b: Seq<u8>,
    name_b: Seq<u8>,
    stem_b: Seq<u8>,
    stamp_b: Timestamp,
    key_b: Seq<u8>,
    nonce_b: Seq<u8>,
    total_b: u8,
    threshold_b: u8,
    ks_b: Seq<Seq<u8>>,
    ns_b: Seq<Seq<u8>>,
    srcs: Seq<bool>,
    picks: Seq<int>,
)
    requires
        split_output_with(
            out_a,
            content_a,
            name_a,
            stem_a,
            stamp_a,
            key_a,
            nonce_a,
            total_a,
            threshold_a,
            ks_a,
            ns_a,
        ),
        split_output_with(
            out_b,
            content_b,
            name_b,
            stem_b,
            stamp_b,
            key_b,
            nonce_b,
            total_b,
            threshold_b,
            ks_b,
            ns_b,
        ),
        1 <= threshold_a <= total_a,
        1 <= threshold_b <= total_b,
        stamp_a.nanos <= 999_999_999,
        stamp_b.nanos <= 999_999_999,
        key_a.len() == 32,
        nonce_a.len() == 19,
        srcs.len() == picks.len(),
        picks.len() >= 1,
        srcs[0],
        forall|j: int|
            0 <= j < picks.len() && srcs[j] ==> 0 <= #[trigger] picks[j] < out_a.len(),
        forall|j: int|
            0 <= j < picks.len() && !srcs[j] ==> 0 <= #[trigger] picks[j] < out_b.len(),
        forall|j1: int, j2: int|
            0 <= j1 < j2 < srcs.len() && srcs[j1] && srcs[j2] ==> picks[j1] != picks[j2],
        count_true(srcs, srcs.len() as int) >= threshold_a as int,
        name_a != name_b || stamp_a != stamp_b,
    ensures
        recover_outcome(mixed_files(out_a, out_b, srcs, picks)) == Ok::<
            (Seq<u8>, Seq<u8>, Seq<u8>, Seq<u8>),
            RecoverError,
        >((name_a, key_a, nonce_a, cipher_of(key_a, nonce_a, content_a))),
{
    let cs = mixed_files(out_a, out_b, srcs, picks);
    let m = picks.len() as int;
    let cipher_a = cipher_of(key_a, nonce_a, content_a);
    let cipher_b = cipher_of(key_b, nonce_b, content_b);
    assert forall|j: int| 0 <= j < m implies parse_frag(#[trigger] cs[j]) == Some(
        (
            if srcs[j] {
                hv(
                    name_a,
                    stamp_a,
                    (picks[j] + 1) as u8,
                    total_a,
                    threshold_a,
                    ks_a[picks[j]],
                    ns_a[picks[j]],
                )
            } else {
                hv(
                    name_b,
                    stamp_b,
                    (picks[j] + 1) as u8,
                    total_b,
                    threshold_b,
                    ks_b[picks[j]],
                    ns_b[picks[j]],
                )
            },
            parse_frag(cs[j])->Some_0.1,
        ),
    ) by {
        let i = picks[j];
        if srcs[j] {
            let v = hv(name_a, stamp_a, (i + 1) as u8, total_a, threshold_a, ks_a[i], ns_a[i]);
            assert(out_a[i].bytes@ == header_bytes(v) + cipher_a);
            assert(valid_header(v));
            lemma_parse_render(v, cipher_a);
            assert(cs[j] == out_a[i].bytes@);
        } else {
            let v = hv(name_b, stamp_b, (i + 1) as u8, total_b, threshold_b, ks_b[i], ns_b[i]);
            assert(out_b[i].bytes@ == header_bytes(v) + cipher_b);
            assert(valid_header(v));
            lemma_parse_render(v, cipher_b);
            assert(cs[j] == out_b[i].bytes@);
        }
    }
    lemma_find_bad_none(cs, 0);
    let hs = headers_of(cs);
    let r0 = hs[0];
    assert(r0 == hv(
        name_a,
        stamp_a,
        (picks[0] + 1) as u8,
        total_a,
        threshold_a,
        ks_a[picks[0]],
        ns_a[picks[0]],
    ));
    assert forall|j: int| 0 <= j < m implies (same_provenance(#[trigger] hs[j], r0)
        <==> srcs[j]) by {
        if !srcs[j] {
            assert(hs[j].name == name_b && hs[j].secs == stamp_b.secs && hs[j].nanos
                == stamp_b.nanos);
            if name_a == name_b {
                assert(stamp_a != stamp_b);
                assert(stamp_a.secs != stamp_b.secs || stamp_a.nanos != stamp_b.nanos);
            }
        }
    }
    assert(group_consistent(hs, r0));
    lemma_group_mask(hs, r0, srcs, m);
    let key_vals = Seq::new(hs.len(), |j: int| hs[j].key);
    let nonce_vals = Seq::new(hs.len(), |j: int| hs[j].nonce);
    lemma_mask_positions(srcs, m);
    lemma_mask_select_vals(key_vals, srcs, m);
    lemma_mask_select_vals(nonce_vals, srcs, m);
    let pos = mask_positions(srcs, m);
    let gk = group_keys(hs, r0, m);
    let gn = group_nonces(hs, r0, m);
    assert(gk.len() == count_true(srcs, m) >= threshold_a as int);
    assert forall|idx: int| 0 <= idx < gk.len() implies #[trigger] gk[idx] == ks_a[picks[pos[idx]]]
        && gn[idx] == ns_a[picks[pos[idx]]] by {
        assert(key_vals[pos[idx]] == hs[pos[idx]].key);
        assert(nonce_vals[pos[idx]] == hs[pos[idx]].nonce);
    }
    assert(share_selection(gk, ks_a, threshold_a)) by {
        assert forall|i1: int, i2: int|
            0 <= i1 < gk.len() && 0 <= i2 < gk.len() && i1 != i2 implies gk[i1] != gk[i2] by {
            assert(pos[i1] != pos[i2] && srcs[pos[i1]] && srcs[pos[i2]]);
            assert(picks[pos[i1]] != picks[pos[i2]]);
            assert(ks_a[picks[pos[i1]]][0] == picks[pos[i1]] + 1);
            assert(ks_a[picks[pos[i2]]][0] == picks[pos[i2]] + 1);
        }
        assert forall|idx: int| 0 <= idx < gk.len() implies ks_a.contains(#[trigger] gk[idx]) by {
            assert(gk[idx] == ks_a[picks[pos[idx]]]);
        }
    }
    assert(share_selection(gn, ns_a, threshold_a)) by {
        assert forall|i1: int, i2: int|
            0 <= i1 < gn.len() && 0 <= i2 < gn.len() && i1 != i2 implies gn[i1] != gn[i2] by {
            assert(pos[i1] != pos[i2] && srcs[pos[i1]] && srcs[pos[i2]]);
            assert(picks[pos[i1]] != picks[pos[i2]]);
            assert(ns_a[picks[pos[i1]]][0] == picks[pos[i1]] + 1);
            assert(ns_a[picks[pos[i2]]][0] == picks[pos[i2]] + 1);
        }
        assert forall|idx: int| 0 <= idx < gn.len() implies ns_a.contains(#[trigger] gn[idx]) by {
            assert(gn[idx] == ns_a[picks[pos[idx]]]);
        }
    }
    assert(recovered_secret(threshold_a, gk) == Some(key_a));
    assert(recovered_secret(threshold_a, gn) == Some(nonce_a));
    let v0 = hv(
        name_a,
        stamp_a,
        (picks[0] + 1) as u8,
        total_a,
        threshold_a,
        ks_a[picks[0]],
        ns_a[picks[0]],
    );
    assert(cs[0] == header_bytes(v0) + cipher_a);
    lemma_parse_render(v0, cipher_a);
    assert(body_of_first(cs) =~= cipher_a);
}

/// The bodies of one split's fragments are byte-identical: each is the one
/// ciphertext, whatever the fragment's index.
pub proof fn lemma_body_identity(
    out: Seq<FragmentFile>,
    content: Seq<u8>,
    name: Seq<u8>,
    stem: Seq<u8>,
    stamp: Timestamp,
    key: Seq<u8>,
    nonce: Seq<u8>,
    total: u8,
    threshold: u8,
    ks: Seq<Seq<u8>>,
    ns: Seq<Seq<u8>>,
)
    requires
        split_output_with(out, content, name, stem, stamp, key, nonce, total, threshold, ks, ns),
        1 <= threshold <= total,
        stamp.nanos <= 999_999_999,
    ensures
        forall|i: int|
            0 <= i < out.len() ==> parse_frag((#[trigger] out[i]).bytes@) is Some,
        forall|i: int|
            0 <= i < out.len() ==> fragment_body((#[trigger] out[i]).bytes@) == cipher_of(
                key,
                nonce,
                content,
            ),
        forall|i: int, j: int|
            0 <= i < out.len() && 0 <= j < out.len() ==> fragment_body(#[trigger] out[i].bytes@)
                == fragment_body(#[trigger] out[j].bytes@),
{
    let cipher = cipher_of(key, nonce, content);
    assert forall|i: int|
        0 <= i < out.len() implies parse_frag((#[trigger] out[i]).bytes@) is Some && fragment_body(
        out[i].bytes@,
    ) == cipher by {
        let v = hv(name, stamp, (i + 1) as u8, total, threshold, ks[i], ns[i]);
        assert(out[i].bytes@ == header_bytes(v) + cipher);
        assert(valid_header(v));
        lemma_parse_render(v, cipher);
        assert(fragment_body(out[i].bytes@) =~= cipher);
    }
}

/// The body of a fragment file: everything after the decoded header.
pub open spec fn fragment_body(file: Seq<u8>) -> Seq<u8> {
    file.subrange(parse_frag(file)->Some_0.1, file.len() as int)
}

/// The headers of one split: fragment `i` decodes to index `i + 1` (so the
/// indices cover 1..=N exactly once), and name, stamp, total and threshold
/// are the same in every fragment.
pub proof fn lemma_header_fields(
    out: Seq<FragmentFile>,
    content: Seq<u8>,
    name: Seq<u8>,
    stem: Seq<u8>,
    stamp: Timestamp,
    key: Seq<u8>,
    nonce: Seq<u8>,
    total: u8,
    threshold: u8,
    ks: Seq<Seq<u8>>,
    ns: Seq<Seq<u8>>,
)
    requires
        split_output_with(out, content, name, stem, stamp, key, nonce, total, threshold, ks, ns),
        1 <= threshold <= total,
        stamp.nanos <= 999_999_999,
    ensures
        out.len() == total as int,
        forall|i: int|
            0 <= i < out.len() ==> (parse_frag((#[trigger] out[i]).bytes@) matches Some(p)
                && p.0.index == i + 1 && p.0.total == total && p.0.threshold == threshold
                && p.0.name == name && p.0.secs == stamp.secs && p.0.nanos == stamp.nanos),
        forall|i: int|
            0 <= i < out.len() ==> (#[trigger] out[i]).file_name@ == fragment_name(
                stem,
                (i + 1) as u8,
                total,
            ),
{
    let cipher = cipher_of(key, nonce, content);
    assert forall|i: int|
        0 <= i < out.len() implies (parse_frag((#[trigger] out[i]).bytes@) matches Some(p)
        && p.0.index == i + 1 && p.0.total == total && p.0.threshold == threshold && p.0.name
        == name && p.0.secs == stamp.secs && p.0.nanos == stamp.nanos) by {
        let v = hv(name, stamp, (i + 1) as u8, total, threshold, ks[i], ns[i]);
        assert(out[i].bytes@ == header_bytes(v) + cipher);
        assert(valid_header(v));
        lemma_parse_render(v, cipher);
    }
}

} // verus!
