//! Whether the bytes of a log are gzip-compressed.

use vstd::prelude::*;
use crate::text::chars_of;

verus! {

/// `s` ends with `t`.
pub open spec fn ends_with(s: Seq<char>, t: Seq<char>) -> bool {
    s.len() >= t.len() && s.subrange(s.len() - t.len(), s.len() as int) == t
}

pub open spec fn gz_suffix() -> Seq<char> {
    seq!['.', 'g', 'z']
}

pub open spec fn gzip_type() -> Seq<char> {
    seq!['a', 'p', 'p', 'l', 'i', 'c', 'a', 't', 'i', 'o', 'n', '/', 'g', 'z', 'i', 'p']
}

pub open spec fn octet_stream_suffix() -> Seq<char> {
    seq!['/', 'o', 'c', 't', 'e', 't', '-', 's', 't', 'r', 'e', 'a', 'm']
}

/// An object is gzip when its content type is `application/gzip`, or is
/// an `octet-stream` type and its key ends with `.gz`.
pub open spec fn gzip_object(content_type: Option<Seq<char>>, key: Seq<char>) -> bool {
    match content_type {
        Some(t) => t == gzip_type() || (ends_with(t, octet_stream_suffix()) && ends_with(key, gz_suffix())),
        None => false,
    }
}

fn chars_end_with(s: &Vec<char>, t: &Vec<char>) -> (r: bool)
    ensures
        r == ends_with(s@, t@),
{
    if s.len() < t.len() {
        return false;
    }
    let off = s.len() - t.len();
    let mut i: usize = 0;
    while i < t.len()
        invariant
            i <= t@.len(),
            off + t@.len() == s@.len(),
            s@.len() == s.len(),
            forall|j: int| 0 <= j < i ==> s@[off + j] == t@[j],
        decreases t.len() - i,
    {
        if s[off + i] != t[i] {
            assert(s@.subrange(off as int, s@.len() as int)[i as int] != t@[i as int]);
            return false;
        }
        i = i + 1;
    }
    assert(s@.subrange(off as int, s@.len() as int) =~= t@);
    true
}

fn same_text(s: &Vec<char>, t: &Vec<char>) -> (r: bool)
    ensures
        r == (s@ == t@),
{
    if s.len() != t.len() {
        return false;
    }
    let r = chars_end_with(s, t);
    assert(s@.subrange(0, s@.len() as int) =~= s@);
    r
}

/// Whether a local log file is gzip: its name ends with `.gz`.
pub fn has_gz_extension(path: &str) -> (r: bool)
    ensures
        r == ends_with(path@, gz_suffix()),
{
    let gz = vec!['.', 'g', 'z'];
    assert(gz@ =~= gz_suffix());
    chars_end_with(&chars_of(path), &gz)
}

/// Whether a fetched object is gzip, from its content type and its key.
pub fn is_gzip(content_type: Option<&str>, key: &str) -> (r: bool)
    ensures
        r == gzip_object(
            match content_type {
                Some(t) => Some(t@),
                None => None,
            },
            key@,
        ),
{
    let t = match content_type {
        Some(t) => chars_of(t),
        None => return false,
    };
    let gzip = vec!['a', 'p', 'p', 'l', 'i', 'c', 'a', 't', 'i', 'o', 'n', '/', 'g', 'z', 'i', 'p'];
    assert(gzip@ =~= gzip_type());
    if same_text(&t, &gzip) {
        return true;
    }
    let octet = vec!['/', 'o', 'c', 't', 'e', 't', '-', 's', 't', 'r', 'e', 'a', 'm'];
    assert(octet@ =~= octet_stream_suffix());
    let gz = vec!['.', 'g', 'z'];
    assert(gz@ =~= gz_suffix());
    chars_end_with(&t, &octet) && chars_end_with(&chars_of(key), &gz)
}

} // verus!
