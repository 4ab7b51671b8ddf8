//! The recovery engine: decode every candidate file, group those whose name
//! and timestamp match the first one, demand at least `threshold` of them,
//! reconstruct key and nonce from the gathered shares, and open the body of
//! the reference fragment.
use vstd::prelude::*;

use crate::crypto::{
    cipher_of, decrypt_bytes, plain_of, recover_secret, recovered_secret, seal_len_limit,
};
use crate::header::{decode_header, parse_frag, HeaderV, HorcruxHeader};
use crate::split::copy_bytes;

verus! {

#[derive(Debug)]
pub struct RecoveredFile {
    pub file_name: Vec<u8>,
    pub content: Vec<u8>,
}

/// Failure classes of recovery, one per step of the algorithm.
#[derive(Clone, Copy, PartialEq, Eq, Structural, Debug)]
pub enum RecoverError {
    NoFragments,
    FragmentUndecodable { index: usize },
    MismatchedGroup,
    InsufficientFragments { found: usize, need: u8 },
    CannotReconstruct,
    DecryptFailed,
}

/// First candidate, from `k` on, that does not decode as a fragment.
pub open spec fn find_bad(cs: Seq<Seq<u8>>, k: int) -> Option<int>
    decreases cs.len() - k,
{
    if k < 0 || k >= cs.len() {
        None
    } else if parse_frag(cs[k]) is None {
        Some(k)
    } else {
        find_bad(cs, k + 1)
    }
}

/// The decoded headers, meaningful when every candidate decodes.
pub open spec fn headers_of(cs: Seq<Seq<u8>>) -> Seq<HeaderV> {
    Seq::new(cs.len(), |i: int| parse_frag(cs[i])->Some_0.0)
}

/// The provenance key: same original name, same creation instant.
pub open spec fn same_provenance(a: HeaderV, b: HeaderV) -> bool {
    a.name == b.name && a.secs == b.secs && a.nanos == b.nanos
}

/// Every fragment matching the reference agrees with it on total and
/// threshold; a disagreement marks a corrupted set.
pub open spec fn group_consistent(hs: Seq<HeaderV>, r: HeaderV) -> bool {
    forall|i: int|
        0 <= i < hs.len() && same_provenance(#[trigger] hs[i], r) ==> hs[i].total == r.total
            && hs[i].threshold == r.threshold
}

/// Key shares of the fragments among the first `k` that match the reference,
/// in the order encountered.
pub open spec fn group_keys(hs: Seq<HeaderV>, r: HeaderV, k: int) -> Seq<Seq<u8>>
    decreases k,
{
    if k <= 0 {
        Seq::empty()
    } else {
        let p = group_keys(hs, r, k - 1);
        if same_provenance(hs[k - 1], r) {
            p.push(hs[k - 1].key)
        } else {
            p
        }
    }
}

/// Nonce shares gathered the same way.
pub open spec fn group_nonces(hs: Seq<HeaderV>, r: HeaderV, k: int) -> Seq<Seq<u8>>
    decreases k,
{
    if k <= 0 {
        Seq::empty()
    } else {
        let p = group_nonces(hs, r, k - 1);
        if same_provenance(hs[k - 1], r) {
            p.push(hs[k - 1].nonce)
        } else {
            p
        }
    }
}

/// Body bytes of the reference fragment.
pub open spec fn body_of_first(cs: Seq<Seq<u8>>) -> Seq<u8> {
    cs[0].subrange(parse_frag(cs[0])->Some_0.1, cs[0].len() as int)
}

/// What recovery determines before decryption: either an error, or the
/// recovered name, key, nonce and the ciphertext body to open.
pub open spec fn recover_outcome(cs: Seq<Seq<u8>>) -> Result<
    (Seq<u8>, Seq<u8>, Seq<u8>, Seq<u8>),
    RecoverError,
> {
    if cs.len() == 0 {
        Err(RecoverError::NoFragments)
    } else {
        match find_bad(cs, 0) {
            Some(b) => Err(RecoverError::FragmentUndecodable { index: b as usize }),
            None => {
                let hs = headers_of(cs);
                let r0 = hs[0];
                if !group_consistent(hs, r0) {
                    Err(RecoverError::MismatchedGroup)
                } else {
                    let gk = group_keys(hs, r0, cs.len() as int);
                    let gn = group_nonces(hs, r0, cs.len() as int);
                    if gk.len() < r0.threshold {
                        Err(
                            RecoverError::InsufficientFragments {
                                found: gk.len() as usize,
                                need: r0.threshold,
                            },
                        )
                    } else {
                        let k = recovered_secret(r0.threshold, gk);
                        let n = recovered_secret(r0.threshold, gn);
                        if k is Some && n is Some && k->Some_0.len() == 32 && n->Some_0.len()
                            == 19 {
                            Ok((r0.name, k->Some_0, n->Some_0, body_of_first(cs)))
                        } else {
                            Err(RecoverError::CannotReconstruct)
                        }
                    }
                }
            },
        }
    }
}

/// A vector of byte vectors, seen deeply, is its elements' views.
pub proof fn lemma_bytes_deep_view(v: &Vec<Vec<u8>>)
    ensures
        v.deep_view().len() == v@.len(),
        forall|j: int| 0 <= j < v@.len() ==> v.deep_view()[j] == (#[trigger] v@[j])@,
{
    assert forall|j: int| 0 <= j < v@.len() implies v.deep_view()[j] == v@[j]@ by {
        assert(v@[j].deep_view() =~= v@[j]@);
    }
}

/// A loaded fragment: its decoded header and its payload body.
#[derive(Debug)]
pub struct Horcrux {
    pub header: HorcruxHeader,
    pub body: Vec<u8>,
}

/// Loads one fragment from its file bytes: the header is decoded, the body is
/// everything after it.
pub fn load_horcrux(bytes: &Vec<u8>) -> (r: Result<Horcrux, crate::header::HeaderDecodeError>)
    ensures
        match r {
            Ok(h) => parse_frag(bytes@) matches Some(p) && p.0 == h.header.model() && h.body@
                == bytes@.subrange(p.1, bytes@.len() as int),
            Err(_) => parse_frag(bytes@) is None,
        },
{
    let (header, off) = decode_header(bytes)?;
    let body = copy_tail(bytes, off);
    Ok(Horcrux { header, body })
}

/// Byte-vector equality.
pub fn bytes_eq(a: &Vec<u8>, b: &Vec<u8>) -> (r: bool)
    ensures
        r == (a@ == b@),
{
    if a.len() != b.len() {
        assert(a@ != b@);
        return false;
    }
    let mut i: usize = 0;
    while i < a.len()
        invariant
            0 <= i <= a@.len(),
            a@.len() == b@.len(),
            forall|j: int| 0 <= j < i ==> a@[j] == b@[j],
        decreases a@.len() - i,
    {
        if a[i] != b[i] {
            assert(a@ != b@);
            return false;
        }
        i = i + 1;
    }
    proof {
        assert(a@ =~= b@);
    }
    true
}

/// Copy of `v[from..]`.
pub fn copy_tail(v: &Vec<u8>, from: usize) -> (r: Vec<u8>)
    requires
        from <= v@.len(),
    ensures
        r@ == v@.subrange(from as int, v@.len() as int),
{
    let mut out: Vec<u8> = Vec::new();
    let mut i = from;
    while i < v.len()
        invariant
            from <= i <= v@.len(),
            out@ == v@.subrange(from as int, i as int),
        decreases v@.len() - i,
    {
        out.push(v[i]);
        proof {
            assert(out@ =~= v@.subrange(from as int, i + 1));
        }
        i = i + 1;
    }
    out
}

/// Walks the decoded headers and gathers the share pairs of every fragment
/// whose provenance matches the first header's, rejecting a match that
/// disagrees with it on total or threshold.
#[verifier::rlimit(100)]
fn collect_group(hdrs: &Vec<HorcruxHeader>, Ghost(hs): Ghost<Seq<HeaderV>>) -> (r: Result<
    (Vec<Vec<u8>>, Vec<Vec<u8>>),
    RecoverError,
>)
    requires
        hdrs@.len() >= 1,
        hs.len() == hdrs@.len(),
        forall|j: int| 0 <= j < hs.len() ==> (#[trigger] hdrs@[j]).model() == hs[j],
    ensures
        match r {
            Ok(p) => group_consistent(hs, hs[0]) && p.0.deep_view() == group_keys(
                hs,
                hs[0],
                hs.len() as int,
            ) && p.1.deep_view() == group_nonces(hs, hs[0], hs.len() as int),
            Err(e) => e == RecoverError::MismatchedGroup && !group_consistent(hs, hs[0]),
        },
{
    let ghost r0 = hs[0];
    let n = hdrs.len();
    let mut gk: Vec<Vec<u8>> = Vec::new();
    let mut gn: Vec<Vec<u8>> = Vec::new();
    let mut i: usize = 0;
    while i < n
        invariant
            0 <= i <= n,
            n == hdrs@.len(),
            hs.len() == n as int,
            r0 == hs[0],
            forall|j: int| 0 <= j < hs.len() ==> (#[trigger] hdrs@[j]).model() == hs[j],
            forall|j: int|
                0 <= j < i as int && same_provenance(#[trigger] hs[j], r0) ==> hs[j].total
                    == r0.total && hs[j].threshold == r0.threshold,
            gk@.len() == group_keys(hs, r0, i as int).len(),
            gn@.len() == group_nonces(hs, r0, i as int).len(),
            forall|j: int|
                0 <= j < gk@.len() ==> (#[trigger] gk@[j])@ == group_keys(hs, r0, i as int)[j],
            forall|j: int|
                0 <= j < gn@.len() ==> (#[trigger] gn@[j])@ == group_nonces(hs, r0, i as int)[j],
        decreases n - i,
    {
        let same_name = bytes_eq(&hdrs[i].canonical_file_name, &hdrs[0].canonical_file_name);
        let same_stamp = hdrs[i].timestamp == hdrs[0].timestamp;
        if same_name && same_stamp {
            proof {
                assert(same_provenance(hs[i as int], r0));
            }
            if hdrs[i].total != hdrs[0].total || hdrs[i].threshold != hdrs[0].threshold {
                proof {
                    assert(!group_consistent(hs, r0));
                }
                return Err(RecoverError::MismatchedGroup);
            }
            let kf = copy_bytes(&hdrs[i].key_fragment);
            let nf = copy_bytes(&hdrs[i].nonce_fragment);
            proof {
                assert(kf@ == hs[i as int].key);
                assert(nf@ == hs[i as int].nonce);
                assert(group_keys(hs, r0, i + 1) == group_keys(hs, r0, i as int).push(
                    hs[i as int].key,
                ));
                assert(group_nonces(hs, r0, i + 1) == group_nonces(hs, r0, i as int).push(
                    hs[i as int].nonce,
                ));
            }
            gk.push(kf);
            gn.push(nf);
        } else {
            proof {
                assert(!same_provenance(hs[i as int], r0));
                assert(group_keys(hs, r0, i + 1) == group_keys(hs, r0, i as int));
                assert(group_nonces(hs, r0, i + 1) == group_nonces(hs, r0, i as int));
            }
        }
        i = i + 1;
    }
    proof {
        lemma_bytes_deep_view(&gk);
        lemma_bytes_deep_view(&gn);
        assert(gk.deep_view() =~= group_keys(hs, r0, n as int));
        assert(gn.deep_view() =~= group_nonces(hs, r0, n as int));
    }
    Ok((gk, gn))
}

/// Recovers the original file from candidate fragment files (each given as
/// its full byte content). The reference fragment is the first candidate; the
/// group is everything matching its provenance.
#[verifier::rlimit(100)]
pub fn recover_file(files: &Vec<Vec<u8>>) -> (r: Result<RecoveredFile, RecoverError>)
    ensures
        match recover_outcome(files.deep_view()) {
            Err(e) => r matches Err(e2) && e2 == e,
            Ok(q) => match r {
                Ok(rf) => rf.file_name@ == q.0 && plain_of(q.1, q.2, q.3) == Some(rf.content@)
                    && (forall|m: Seq<u8>|
                    m.len() < seal_len_limit() && q.3 == cipher_of(q.1, q.2, m)
                        ==> rf.content@ == m),
                Err(e) => e == RecoverError::DecryptFailed && plain_of(q.1, q.2, q.3) is None && (
                forall|m: Seq<u8>| m.len() < seal_len_limit() ==> q.3 != cipher_of(q.1, q.2, m)),
            },
        },
{
    let ghost cs = files.deep_view();
    proof {
        assert(cs.len() == files@.len());
        assert(forall|i: int| 0 <= i < files@.len() ==> cs[i] =~= files@[i]@);
    }
    let n = files.len();
    if n == 0 {
        return Err(RecoverError::NoFragments);
    }
    let mut hdrs: Vec<HorcruxHeader> = Vec::new();
    let mut offs: Vec<usize> = Vec::new();
    let mut idx: usize = 0;
    while idx < n
        invariant
            0 <= idx <= n,
            n == files@.len(),
            cs == files.deep_view(),
            cs.len() == n as int,
            forall|i: int| 0 <= i < cs.len() ==> cs[i] == files@[i]@,
            hdrs@.len() == idx as int,
            offs@.len() == idx as int,
            find_bad(cs, 0) == find_bad(cs, idx as int),
            forall|j: int|
                0 <= j < idx as int ==> parse_frag(cs[j]) == Some(
                    ((#[trigger] hdrs@[j]).model(), offs@[j] as int),
                ),
            forall|j: int| 0 <= j < idx as int ==> offs@[j] <= files@[j]@.len(),
        decreases n - idx,
    {
        match decode_header(&files[idx]) {
            Ok((h, off)) => {
                hdrs.push(h);
                offs.push(off);
                proof {
                    assert(parse_frag(cs[idx as int]) is Some);
                    assert(find_bad(cs, idx as int) == find_bad(cs, idx + 1));
                }
            },
            Err(_) => {
                proof {
                    assert(parse_frag(cs[idx as int]) is None);
                    assert(find_bad(cs, idx as int) == Some(idx as int));
                }
                return Err(RecoverError::FragmentUndecodable { index: idx });
            },
        }
        idx = idx + 1;
    }
    proof {
        assert(find_bad(cs, n as int) is None);
        assert(find_bad(cs, 0) is None);
        assert(forall|j: int|
            0 <= j < cs.len() ==> headers_of(cs)[j] == (#[trigger] hdrs@[j]).model());
    }
    let ghost hs = headers_of(cs);
    let ghost r0 = hs[0];
    let (gk, gn) = match collect_group(&hdrs, Ghost(hs)) {
        Ok(p) => p,
        Err(e) => {
            proof {
                assert(!group_consistent(hs, r0));
            }
            return Err(e);
        },
    };
    let threshold = hdrs[0].threshold;
    let found = gk.len();
    if found < threshold as usize {
        proof {
            assert(group_keys(hs, r0, cs.len() as int).len() == found as int);
        }
        return Err(RecoverError::InsufficientFragments { found, need: threshold });
    }
    let key = match recover_secret(threshold, &gk) {
        Some(k) => k,
        None => {
            return Err(RecoverError::CannotReconstruct);
        },
    };
    let nonce = match recover_secret(threshold, &gn) {
        Some(v) => v,
        None => {
            return Err(RecoverError::CannotReconstruct);
        },
    };
    if key.len() != 32 || nonce.len() != 19 {
        return Err(RecoverError::CannotReconstruct);
    }
    let off0 = offs[0];
    let body = copy_tail(&files[0], off0);
    proof {
        assert(body@ == body_of_first(cs));
        assert(recover_outcome(cs) == Ok::<_, RecoverError>((r0.name, key@, nonce@, body@)));
    }
    match decrypt_bytes(&key, &nonce, &body) {
        Some(content) => Ok(
            RecoveredFile { file_name: copy_bytes(&hdrs[0].canonical_file_name), content },
        ),
        None => Err(RecoverError::DecryptFailed),
    }
}

} // verus!
