//! Byte-level text primitives for the fragment header line: decimal numerals,
//! lowercase hex runs, literal matching, and delimiter scanning, each with a
//! spec-level description and round-trip lemmas.
use vstd::prelude::*;

verus! {

// ---------- decimal numerals ----------

pub open spec fn is_digit(b: u8) -> bool {
    48 <= b <= 57
}

pub open spec fn all_digits(s: Seq<u8>) -> bool {
    forall|i: int| 0 <= i < s.len() ==> is_digit(#[trigger] s[i])
}

/// Value of a digit string, most significant digit first.
pub open spec fn dec_num(s: Seq<u8>) -> int
    decreases s.len(),
{
    if s.len() == 0 {
        0
    } else {
        dec_num(s.drop_last()) * 10 + (s.last() - 48)
    }
}

/// Canonical decimal rendering of a non-negative number (no leading zeros).
pub open spec fn dec_seq(n: int) -> Seq<u8>
    decreases n,
{
    if n <= 0 {
        seq![48u8]
    } else if n < 10 {
        seq![(48 + n) as u8]
    } else {
        dec_seq(n / 10).push((48 + n % 10) as u8)
    }
}

pub proof fn lemma_dec_num_nonneg(s: Seq<u8>)
    requires
        all_digits(s),
    ensures
        dec_num(s) >= 0,
    decreases s.len(),
{
    if s.len() > 0 {
        assert(all_digits(s.drop_last()));
        lemma_dec_num_nonneg(s.drop_last());
    }
}

pub proof fn lemma_dec_seq_digits(n: int)
    ensures
        all_digits(dec_seq(n)),
        dec_seq(n).len() >= 1,
    decreases n,
{
    if n >= 10 {
        assert(0 <= n % 10 < 10) by (nonlinear_arith)
            requires n >= 10;
        assert(n / 10 < n) by (nonlinear_arith)
            requires n >= 10;
        lemma_dec_seq_digits(n / 10);
        assert(forall|i: int| 0 <= i < dec_seq(n).len() ==> is_digit(#[trigger] dec_seq(n)[i]));
    }
}

pub proof fn lemma_dec_seq_val(n: int)
    requires
        n >= 0,
    ensures
        dec_num(dec_seq(n)) == n,
    decreases n,
{
    if n >= 10 {
        assert(n / 10 < n && n / 10 >= 1 && 0 <= n % 10 < 10 && n == (n / 10) * 10 + n % 10)
            by (nonlinear_arith)
            requires n >= 10;
        lemma_dec_seq_val(n / 10);
        let s = dec_seq(n / 10).push((48 + n % 10) as u8);
        assert(s.drop_last() =~= dec_seq(n / 10));
        assert(s.last() == (48 + n % 10) as u8);
        assert(dec_num(s) == dec_num(dec_seq(n / 10)) * 10 + ((48 + n % 10) as u8 - 48));
    } else {
        let s = dec_seq(n);
        assert(s == seq![(48 + n) as u8]);
        assert(s.drop_last() =~= Seq::<u8>::empty());
        assert(dec_num(Seq::<u8>::empty()) == 0);
        assert(dec_num(s) == 0 * 10 + ((48 + n) as u8 - 48));
    }
}

// ---------- hex runs ----------

pub open spec fn is_hex_digit(b: u8) -> bool {
    48 <= b <= 57 || 97 <= b <= 102
}

pub open spec fn hex_digit(h: u8) -> u8 {
    if h < 10 {
        (48 + h) as u8
    } else {
        (87 + h) as u8
    }
}

pub open spec fn hex_digit_val(b: u8) -> int {
    if 48 <= b <= 57 {
        b - 48
    } else {
        b - 87
    }
}

/// Two lowercase hex characters per byte, in order.
pub open spec fn hex_seq(bs: Seq<u8>) -> Seq<u8>
    decreases bs.len(),
{
    if bs.len() == 0 {
        Seq::empty()
    } else {
        seq![hex_digit(bs[0] / 16), hex_digit(bs[0] % 16)] + hex_seq(bs.drop_first())
    }
}

/// Bytes denoted by a hex character string, if well formed.
pub open spec fn hex_val(s: Seq<u8>) -> Option<Seq<u8>>
    decreases s.len(),
{
    if s.len() == 0 {
        Some(Seq::empty())
    } else if s.len() == 1 {
        None
    } else if is_hex_digit(s[0]) && is_hex_digit(s[1]) {
        match hex_val(s.subrange(2, s.len() as int)) {
            Some(rest) => Some(seq![(hex_digit_val(s[0]) * 16 + hex_digit_val(s[1])) as u8] + rest),
            None => None,
        }
    } else {
        None
    }
}

pub proof fn lemma_hex_seq_len(bs: Seq<u8>)
    ensures
        hex_seq(bs).len() == 2 * bs.len(),
    decreases bs.len(),
{
    if bs.len() > 0 {
        lemma_hex_seq_len(bs.drop_first());
    }
}

pub proof fn lemma_hex_seq_digits(bs: Seq<u8>)
    ensures
        forall|i: int| 0 <= i < hex_seq(bs).len() ==> is_hex_digit(#[trigger] hex_seq(bs)[i]),
    decreases bs.len(),
{
    if bs.len() > 0 {
        let b = bs[0];
        assert(0 <= b / 16 < 16 && 0 <= b % 16 < 16) by (nonlinear_arith)
            requires b < 256;
        lemma_hex_seq_digits(bs.drop_first());
        let s = hex_seq(bs);
        let t = hex_seq(bs.drop_first());
        assert(s[0] == hex_digit(b / 16) && s[1] == hex_digit(b % 16));
        assert(forall|i: int| 2 <= i < s.len() ==> s[i] == #[trigger] t[i - 2]);
        assert(forall|i: int| 0 <= i < s.len() ==> is_hex_digit(#[trigger] s[i]));
    }
}

pub proof fn lemma_hex_roundtrip(bs: Seq<u8>)
    ensures
        hex_val(hex_seq(bs)) == Some(bs),
    decreases bs.len(),
{
    if bs.len() == 0 {
        assert(hex_val(hex_seq(bs)) == Some(bs)) by {
            assert(bs =~= Seq::<u8>::empty());
        }
    } else {
        let b = bs[0];
        let tail = bs.drop_first();
        lemma_hex_roundtrip(tail);
        lemma_hex_seq_len(tail);
        let s = hex_seq(bs);
        assert(0 <= b / 16 < 16 && 0 <= b % 16 < 16 && b == (b / 16) * 16 + b % 16)
            by (nonlinear_arith)
            requires b < 256;
        assert(s[0] == hex_digit(b / 16) && s[1] == hex_digit(b % 16));
        assert(s.subrange(2, s.len() as int) =~= hex_seq(tail));
        assert(hex_digit_val(hex_digit(b / 16)) == b / 16);
        assert(hex_digit_val(hex_digit(b % 16)) == b % 16);
        assert(hex_val(s) == Some(seq![b] + tail));
        assert(seq![b] + tail =~= bs);
    }
}

// ---------- scanning ----------

/// First position at or after `pos` holding `d`.
pub open spec fn spec_find(s: Seq<u8>, pos: int, d: u8) -> Option<int>
    decreases s.len() - pos,
{
    if pos < 0 || pos >= s.len() {
        None
    } else if s[pos] == d {
        Some(pos)
    } else {
        spec_find(s, pos + 1, d)
    }
}

pub proof fn lemma_spec_find_sound(s: Seq<u8>, pos: int, d: u8)
    requires
        0 <= pos,
    ensures
        match spec_find(s, pos, d) {
            Some(k) => pos <= k < s.len() && s[k] == d && forall|j: int| pos <= j < k ==> s[j] != d,
            None => forall|j: int| pos <= j < s.len() ==> s[j] != d,
        },
    decreases s.len() - pos,
{
    if pos < s.len() && s[pos] != d {
        lemma_spec_find_sound(s, pos + 1, d);
    }
}

pub proof fn lemma_spec_find_at(s: Seq<u8>, pos: int, k: int, d: u8)
    requires
        0 <= pos <= k < s.len(),
        s[k] == d,
        forall|j: int| pos <= j < k ==> s[j] != d,
    ensures
        spec_find(s, pos, d) == Some(k),
    decreases k - pos,
{
    if pos < k {
        lemma_spec_find_at(s, pos + 1, k, d);
    }
}

/// The literal `lit` read at `pos`, giving the position just after it.
pub open spec fn spec_expect(s: Seq<u8>, pos: int, lit: Seq<u8>) -> Option<int> {
    if 0 <= pos && pos + lit.len() <= s.len() && s.subrange(pos, pos + lit.len() as int) == lit {
        Some(pos + lit.len() as int)
    } else {
        None
    }
}

/// The literal `lit` read at `pos`, or at the start of a later `;`-closed
/// pair of the same line: unknown pairs before the sought key are skipped, so
/// fields added by a later version do not break decoding. The search never
/// crosses the newline that ends the line.
pub open spec fn spec_seek_key(s: Seq<u8>, pos: int, lit: Seq<u8>) -> Option<int>
    decreases s.len() - pos,
{
    if spec_expect(s, pos, lit) is Some {
        spec_expect(s, pos, lit)
    } else {
        match spec_find(s, pos, 59u8) {
            Some(q) => if pos <= q && q < s.len() && (match spec_find(s, pos, 10u8) {
                Some(w) => q < w,
                None => true,
            }) {
                spec_seek_key(s, q + 1, lit)
            } else {
                None
            },
            None => None,
        }
    }
}

/// Executable counterpart of `spec_seek_key`.
pub fn seek_at(s: &Vec<u8>, pos: usize, lit: &Vec<u8>) -> (r: Option<usize>)
    requires
        pos <= s@.len(),
    ensures
        match r {
            Some(p) => spec_seek_key(s@, pos as int, lit@) == Some(p as int) && p <= s@.len(),
            None => spec_seek_key(s@, pos as int, lit@) is None,
        },
{
    let slen = s.len();
    let mut cur = pos;
    loop
        invariant
            pos <= cur <= s@.len(),
            s@.len() <= usize::MAX,
            spec_seek_key(s@, pos as int, lit@) == spec_seek_key(s@, cur as int, lit@),
        decreases s@.len() - cur,
    {
        match expect_at(s, cur, lit) {
            Some(p) => {
                return Some(p);
            },
            None => {},
        }
        let q = match find_byte(s, cur, 59) {
            Some(q) => q,
            None => {
                return None;
            },
        };
        match find_byte(s, cur, 10) {
            Some(w) => if q >= w {
                return None;
            },
            None => {},
        }
        proof {
            assert(spec_seek_key(s@, cur as int, lit@) == spec_seek_key(s@, q + 1, lit@));
        }
        cur = q + 1;
    }
}

/// A hex-coded field ending at the first `delim`; gives the decoded bytes and
/// the position just after the delimiter.
pub open spec fn spec_hex_field(s: Seq<u8>, pos: int, delim: u8) -> Option<(Seq<u8>, int)> {
    match spec_find(s, pos, delim) {
        None => None,
        Some(e) => match hex_val(s.subrange(pos, e)) {
            None => None,
            Some(bs) => Some((bs, e + 1)),
        },
    }
}

/// A decimal field ending at the first `delim`, rejected when empty, not all
/// digits, or above `bound`.
pub open spec fn spec_dec_field(s: Seq<u8>, pos: int, delim: u8, bound: int) -> Option<(int, int)> {
    match spec_find(s, pos, delim) {
        None => None,
        Some(e) => {
            let v = s.subrange(pos, e);
            if v.len() > 0 && all_digits(v) && dec_num(v) <= bound {
                Some((dec_num(v), e + 1))
            } else {
                None
            }
        },
    }
}

// ---------- executable counterparts ----------

pub fn find_byte(s: &Vec<u8>, from: usize, d: u8) -> (r: Option<usize>)
    requires
        from <= s@.len(),
    ensures
        match r {
            Some(k) => spec_find(s@, from as int, d) == Some(k as int) && from <= k < s@.len(),
            None => spec_find(s@, from as int, d) is None,
        },
{
    let mut i = from;
    while i < s.len()
        invariant
            from <= i <= s@.len(),
            spec_find(s@, from as int, d) == spec_find(s@, i as int, d),
        decreases s@.len() - i,
    {
        if s[i] == d {
            return Some(i);
        }
        i = i + 1;
    }
    None
}

pub fn expect_at(s: &Vec<u8>, pos: usize, lit: &Vec<u8>) -> (r: Option<usize>)
    requires
        pos <= s@.len(),
    ensures
        match r {
            Some(p) => spec_expect(s@, pos as int, lit@) == Some(p as int) && p <= s@.len(),
            None => spec_expect(s@, pos as int, lit@) is None,
        },
{
    if s.len() - pos < lit.len() {
        return None;
    }
    let mut i: usize = 0;
    while i < lit.len()
        invariant
            0 <= i <= lit@.len(),
            pos + lit@.len() <= s@.len(),
            s@.len() <= usize::MAX,
            forall|j: int| 0 <= j < i ==> s@[pos + j] == lit@[j],
        decreases lit@.len() - i,
    {
        assert(pos + i < s@.len());
        if s[pos + i] != lit[i] {
            proof {
                let sub = s@.subrange(pos as int, pos + lit@.len() as int);
                assert(sub[i as int] == s@[pos + i]);
                assert(sub != lit@);
            }
            return None;
        }
        i = i + 1;
    }
    proof {
        assert(s@.subrange(pos as int, pos + lit@.len() as int) =~= lit@);
    }
    Some(pos + lit.len())
}

fn hex_digit_value(b: u8) -> (r: u8)
    ensures
        is_hex_digit(b) ==> r == hex_digit_val(b),
        !is_hex_digit(b) ==> r == 255,
{
    if 48 <= b && b <= 57 {
        b - 48
    } else if 97 <= b && b <= 102 {
        b - 87
    } else {
        255
    }
}

pub fn take_hex_field(s: &Vec<u8>, pos: usize, delim: u8) -> (r: Option<(Vec<u8>, usize)>)
    requires
        pos <= s@.len(),
    ensures
        match r {
            Some(p) => spec_hex_field(s@, pos as int, delim) == Some((p.0@, p.1 as int)) && p.1
                <= s@.len(),
            None => spec_hex_field(s@, pos as int, delim) is None,
        },
{
    let e = match find_byte(s, pos, delim) {
        Some(e) => e,
        None => {
            return None;
        },
    };
    let slen = s.len();
    assert(e < slen);
    match take_hex_range(s, pos, e) {
        Some(v) => Some((v, e + 1)),
        None => None,
    }
}

/// Decodes the hex run `s[pos..e]`.
pub fn take_hex_range(s: &Vec<u8>, pos: usize, e: usize) -> (r: Option<Vec<u8>>)
    requires
        pos <= e <= s@.len(),
    ensures
        match r {
            Some(v) => hex_val(s@.subrange(pos as int, e as int)) == Some(v@),
            None => hex_val(s@.subrange(pos as int, e as int)) is None,
        },
{
    let slen = s.len();
    let mut out: Vec<u8> = Vec::new();
    let mut i = pos;
    while i < e
        invariant
            pos <= i <= e <= s@.len(),
            s@.len() <= usize::MAX,
            match hex_val(s@.subrange(i as int, e as int)) {
                Some(rest) => hex_val(s@.subrange(pos as int, e as int)) == Some(out@ + rest),
                None => hex_val(s@.subrange(pos as int, e as int)) is None,
            },
        decreases e - i,
    {
        proof {
            assert(s@.subrange(i as int, e as int)[0] == s@[i as int]);
            if i + 1 < e {
                assert(s@.subrange(i as int, e as int)[1] == s@[i + 1]);
            }
        }
        if i + 1 >= e {
            return None;
        }
        let d1 = hex_digit_value(s[i]);
        let d2 = hex_digit_value(s[i + 1]);
        if d1 == 255 || d2 == 255 {
            proof {
                assert(!(is_hex_digit(s@[i as int]) && is_hex_digit(s@[i + 1])));
            }
            return None;
        }
        let b = d1 * 16 + d2;
        proof {
            let cur = s@.subrange(i as int, e as int);
            let nxt = s@.subrange(i + 2, e as int);
            assert(cur.subrange(2, cur.len() as int) =~= nxt);
            match hex_val(nxt) {
                Some(rest) => {
                    assert(hex_val(cur) == Some(seq![b] + rest));
                    assert(out@ + (seq![b] + rest) =~= out@.push(b) + rest);
                },
                None => {
                    assert(hex_val(cur) is None);
                },
            }
        }
        out.push(b);
        i = i + 2;
    }
    proof {
        assert(s@.subrange(i as int, e as int) =~= Seq::<u8>::empty());
        assert(hex_val(s@.subrange(pos as int, e as int)) == Some(out@ + Seq::<u8>::empty()));
        assert(out@ + Seq::<u8>::empty() =~= out@);
    }
    Some(out)
}

pub fn take_dec_field(s: &Vec<u8>, pos: usize, delim: u8, bound: u64) -> (r: Option<(u64, usize)>)
    requires
        pos <= s@.len(),
    ensures
        match r {
            Some(p) => spec_dec_field(s@, pos as int, delim, bound as int) == Some(
                (p.0 as int, p.1 as int),
            ) && p.1 <= s@.len(),
            None => spec_dec_field(s@, pos as int, delim, bound as int) is None,
        },
{
    let e = match find_byte(s, pos, delim) {
        Some(e) => e,
        None => {
            return None;
        },
    };
    let slen = s.len();
    assert(e < slen);
    if e == pos {
        return None;
    }
    let mut acc: u64 = 0;
    let mut too_big = false;
    let mut i = pos;
    while i < e
        invariant
            pos <= i <= e < s@.len(),
            spec_find(s@, pos as int, delim) == Some(e as int),
            all_digits(s@.subrange(pos as int, i as int)),
            !too_big ==> acc as int == dec_num(s@.subrange(pos as int, i as int)) && acc <= bound,
            too_big ==> dec_num(s@.subrange(pos as int, i as int)) > bound,
        decreases e - i,
    {
        let b = s[i];
        if !(48 <= b && b <= 57) {
            proof {
                let v = s@.subrange(pos as int, e as int);
                assert(v[i - pos] == s@[i as int]);
                assert(!all_digits(v));
            }
            return None;
        }
        proof {
            let a = s@.subrange(pos as int, i as int);
            let c = s@.subrange(pos as int, i + 1);
            assert(c.drop_last() =~= a);
            assert(c.last() == s@[i as int]);
            assert(dec_num(c) == dec_num(a) * 10 + (b - 48));
            if too_big {
                lemma_dec_num_nonneg(a);
                assert(dec_num(a) * 10 >= dec_num(a)) by (nonlinear_arith)
                    requires dec_num(a) >= 0;
            }
        }
        if !too_big {
            let next: u128 = acc as u128 * 10 + (b - 48) as u128;
            if next > bound as u128 {
                too_big = true;
            } else {
                acc = next as u64;
            }
        }
        i = i + 1;
    }
    proof {
        assert(s@.subrange(pos as int, e as int) =~= s@.subrange(pos as int, i as int));
    }
    if too_big {
        return None;
    }
    assert(e < s@.len());
    Some((acc, e + 1))
}

// ---------- rendering ----------

pub fn push_dec(out: &mut Vec<u8>, n: u64)
    ensures
        final(out)@ == old(out)@ + dec_seq(n as int),
    decreases n,
{
    if n >= 10 {
        push_dec(out, n / 10);
        proof {
            assert(0 <= n % 10 < 10 && n / 10 < n) by (nonlinear_arith)
                requires n >= 10;
        }
        out.push(48 + (n % 10) as u8);
        proof {
            assert(old(out)@ + dec_seq(n as int) =~= (old(out)@ + dec_seq(n as int / 10)).push(
                (48 + n as int % 10) as u8,
            ));
        }
    } else {
        out.push(48 + n as u8);
        proof {
            assert(old(out)@ + dec_seq(n as int) =~= old(out)@.push((48 + n as int) as u8));
        }
    }
}

pub fn push_hex(out: &mut Vec<u8>, bs: &Vec<u8>)
    ensures
        final(out)@ == old(out)@ + hex_seq(bs@),
{
    proof {
        assert(bs@.subrange(0, bs@.len() as int) =~= bs@);
    }
    let mut i: usize = 0;
    while i < bs.len()
        invariant
            0 <= i <= bs@.len(),
            out@ + hex_seq(bs@.subrange(i as int, bs@.len() as int)) == old(out)@ + hex_seq(bs@),
        decreases bs@.len() - i,
    {
        let b = bs[i];
        proof {
            assert(0 <= b / 16 < 16 && 0 <= b % 16 < 16) by (nonlinear_arith)
                requires b < 256;
        }
        let hi = if b / 16 < 10 {
            48 + b / 16
        } else {
            87 + b / 16
        };
        let lo = if b % 16 < 10 {
            48 + b % 16
        } else {
            87 + b % 16
        };
        proof {
            let cur = bs@.subrange(i as int, bs@.len() as int);
            let nxt = bs@.subrange(i + 1, bs@.len() as int);
            assert(cur[0] == bs@[i as int]);
            assert(cur.drop_first() =~= nxt);
            assert(hex_seq(cur) == seq![hex_digit(b / 16), hex_digit(b % 16)] + hex_seq(nxt));
            assert(hi == hex_digit(b / 16) && lo == hex_digit(b % 16));
            assert((out@ + hex_seq(cur)) =~= (out@.push(hi).push(lo) + hex_seq(nxt)));
        }
        out.push(hi);
        out.push(lo);
        i = i + 1;
    }
    proof {
        assert(bs@.subrange(bs@.len() as int, bs@.len() as int) =~= Seq::<u8>::empty());
        assert(out@ + Seq::<u8>::empty() =~= out@);
    }
}

} // verus!
