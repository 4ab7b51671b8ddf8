//! Validators for command-line inputs: the shard count, and the two path
//! checks, which can only be answered by probing the filesystem and are
//! therefore specified no further than their error text. Also the extension
//! test that marks a file name as a fragment candidate.
use vstd::prelude::*;

use crate::codec::spec_expect;
use crate::codec::expect_at;

verus! {

// ---------- shard count ----------

pub open spec fn is_digit_char(c: char) -> bool {
    48 <= c as u32 <= 57
}

pub open spec fn all_digit_chars(s: Seq<char>) -> bool {
    forall|i: int| 0 <= i < s.len() ==> is_digit_char(#[trigger] s[i])
}

/// Value of a digit string of characters, most significant first.
pub open spec fn dec_chars(s: Seq<char>) -> int
    decreases s.len(),
{
    if s.len() == 0 {
        0
    } else {
        dec_chars(s.drop_last()) * 10 + (s.last() as u32 - 48)
    }
}

/// A shard count argument: a plain decimal numeral whose value lies in
/// 1..=255. Anything else is rejected with the message the value deserves.
pub fn shards_in_range(s: &str) -> (r: Result<u8, String>)
    ensures
        match r {
            Ok(v) => s@.len() > 0 && all_digit_chars(s@) && 1 <= dec_chars(s@) <= 255 && v as int
                == dec_chars(s@),
            Err(m) => !(s@.len() > 0 && all_digit_chars(s@) && 1 <= dec_chars(s@) <= 255) && (if !(
            s@.len() > 0 && all_digit_chars(s@)) {
                m@ == "`"@ + s@ + "` is not a number."@
            } else {
                m@ == "Shards must be between 1 and 255."@
            }),
        },
{
    let len = s.unicode_len();
    let mut acc: u32 = 0;
    let mut too_big = false;
    let mut i: usize = 0;
    let mut bad = len == 0;
    while i < len && !bad
        invariant
            0 <= i <= len,
            len == s@.len(),
            len == 0 ==> bad,
            !bad ==> all_digit_chars(s@.subrange(0, i as int)),
            bad ==> !(s@.len() > 0 && all_digit_chars(s@)),
            !bad && !too_big ==> acc as int == dec_chars(s@.subrange(0, i as int)) && acc <= 255,
            !bad && too_big ==> dec_chars(s@.subrange(0, i as int)) > 255,
        decreases len - i,
    {
        let c = s.get_char(i);
        let d = c as u32;
        proof {
            let a = s@.subrange(0, i as int);
            let b = s@.subrange(0, i + 1);
            assert(b.drop_last() =~= a);
            assert(b.last() == s@[i as int]);
            assert(dec_chars(b) == dec_chars(a) * 10 + (s@[i as int] as u32 - 48));
        }
        if d < 48 || d > 57 {
            bad = true;
            proof {
                assert(!is_digit_char(s@[i as int]));
            }
        } else {
            if !too_big {
                let next: u32 = acc * 10 + (d - 48);
                if next > 255 {
                    too_big = true;
                    proof {
                        assert(dec_chars(s@.subrange(0, i + 1)) == acc as int * 10 + (d - 48));
                    }
                } else {
                    acc = next;
                }
            }
        }
        i = i + 1;
    }
    if bad {
        let mut m = String::from_str("`");
        m.append(s);
        m.append("` is not a number.");
        return Err(m);
    }
    proof {
        assert(s@.subrange(0, len as int) =~= s@);
    }
    if too_big || acc < 1 {
        return Err(String::from_str("Shards must be between 1 and 255."));
    }
    Ok(acc as u8)
}

// ---------- fragment name test ----------

pub open spec fn has_suffix(s: Seq<u8>, suf: Seq<u8>) -> bool {
    s.len() >= suf.len() && s.subrange(s.len() - suf.len(), s.len() as int) == suf
}

pub open spec fn horcrux_ext() -> Seq<u8> {
    seq![46u8, 104u8, 111u8, 114u8, 99u8, 114u8, 117u8, 120u8]
}

pub open spec fn hx_ext() -> Seq<u8> {
    seq![46u8, 104u8, 120u8]
}

/// Whether a file name marks a fragment candidate: it ends in `.horcrux` or
/// in `.hx`, with at least one byte of stem before the extension (a bare
/// dot-file is no fragment).
pub fn is_fragment_name(name: &Vec<u8>) -> (r: bool)
    ensures
        r == ((name@.len() > horcrux_ext().len() && has_suffix(name@, horcrux_ext())) || (
        name@.len() > hx_ext().len() && has_suffix(name@, hx_ext()))),
{
    let mut long_ext: Vec<u8> = Vec::new();
    long_ext.push(46);
    long_ext.push(104);
    long_ext.push(111);
    long_ext.push(114);
    long_ext.push(99);
    long_ext.push(114);
    long_ext.push(117);
    long_ext.push(120);
    assert(long_ext@ =~= horcrux_ext());
    let mut short_ext: Vec<u8> = Vec::new();
    short_ext.push(46);
    short_ext.push(104);
    short_ext.push(120);
    assert(short_ext@ =~= hx_ext());
    let n = name.len();
    let long_hit = n > 8 && matches!(expect_at(name, n - 8, &long_ext), Some(_));
    let short_hit = n > 3 && matches!(expect_at(name, n - 3, &short_ext), Some(_));
    proof {
        if name@.len() >= 8 {
            assert(spec_expect(name@, name@.len() - 8, horcrux_ext()) is Some <==> has_suffix(
                name@,
                horcrux_ext(),
            ));
        }
        if name@.len() >= 3 {
            assert(spec_expect(name@, name@.len() - 3, hx_ext()) is Some <==> has_suffix(
                name@,
                hx_ext(),
            ));
        }
    }
    long_hit || short_hit
}

// ---------- path probes ----------

#[verifier::external_type_specification]
#[verifier::external_body]
pub struct ExPathBuf(std::path::PathBuf);

/// Relies on std::path::PathBuf::from: builds the path value a string names.
#[verifier::external_body]
fn path_from_str(p: &str) -> std::path::PathBuf {
    std::path::PathBuf::from(p)
}

/// Relies on std::path::Path::is_file: probes the filesystem, so nothing can
/// be said of the answer.
#[verifier::external_body]
fn probe_is_file(p: &std::path::PathBuf) -> bool {
    p.is_file()
}

/// Relies on std::path::Path::is_dir: probes the filesystem.
#[verifier::external_body]
fn probe_is_dir(p: &std::path::PathBuf) -> bool {
    p.is_dir()
}

/// Relies on std::path::Path::is_symlink: probes the filesystem.
#[verifier::external_body]
fn probe_is_symlink(p: &std::path::PathBuf) -> bool {
    p.is_symlink()
}

/// A destination argument: any path not naming an existing regular file.
/// Whether it does is the disk's answer, so only the error text is promised.
pub fn is_qualified_path(p: &str) -> (r: Result<std::path::PathBuf, String>)
    ensures
        r matches Err(m) ==> m@ == p@ + " is not a path."@,
{
    let path = path_from_str(p);
    if !probe_is_file(&path) {
        Ok(path)
    } else {
        let mut m = String::from_str(p);
        m.append(" is not a path.");
        Err(m)
    }
}

/// A source argument: a path naming an existing regular file that is neither
/// a directory nor a symlink. The disk answers; only the error text is
/// promised.
pub fn is_qualified_file(f: &str) -> (r: Result<std::path::PathBuf, String>)
    ensures
        r matches Err(m) ==> m@ == "`"@ + f@ + "` is not a file."@,
{
    let file = path_from_str(f);
    if probe_is_file(&file) && !probe_is_dir(&file) && !probe_is_symlink(&file) {
        Ok(file)
    } else {
        let mut m = String::from_str("`");
        m.append(f);
        m.append("` is not a file.");
        Err(m)
    }
}

} // verus!
