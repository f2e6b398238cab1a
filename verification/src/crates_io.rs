//! The registry-facing model: previously published versions and the layout
//! of the registry's index.

use vstd::prelude::*;

use crate::text::{occurs, occurs_at, string_push};
use crate::version::Version;

verus! {

/// One previously published version as the registry's versions endpoint
/// reports it.
pub struct CratesIoCrateVersion {
    pub version: Version,
    pub yanked: bool,
}

/// Where the registry's index is served from.
pub struct CratesIoIndexConfiguration {
    pub url: String,
    pub repository: String,
}

/// ASCII lowercase of one character.
pub open spec fn lower_char(c: char) -> char {
    if 'A' <= c <= 'Z' {
        (((c as u8) + 32) as char)
    } else {
        c
    }
}

/// ASCII lowercase of a character sequence.
pub open spec fn lower_seq(s: Seq<char>) -> Seq<char> {
    Seq::new(s.len(), |i: int| lower_char(s[i]))
}

/// The relative path of a crate's metadata file inside the registry index:
/// crates file under a prefix derived from the name's length, with every
/// character lowercased.
pub open spec fn spec_index_path(name: Seq<char>) -> Seq<char> {
    let l = lower_seq(name);
    if name.len() == 1 {
        seq!['1', '/'] + l
    } else if name.len() == 2 {
        seq!['2', '/'] + l
    } else if name.len() == 3 {
        seq!['3', '/'] + seq![l[0]] + seq!['/'] + l
    } else {
        l.subrange(0, 2) + seq!['/'] + l.subrange(2, 4) + seq!['/'] + l
    }
}

/// ASCII lowercase of a string.
fn lower_ascii(s: &str) -> (r: String)
    ensures
        r@ =~= lower_seq(s@),
{
    let len = s.unicode_len();
    let mut out = String::new();
    let mut i: usize = 0;
    while i < len
        invariant
            len == s@.len(),
            0 <= i <= len,
            out@ =~= lower_seq(s@).take(i as int),
        decreases len - i,
    {
        let c = s.get_char(i);
        let lc = if 'A' <= c && c <= 'Z' {
            ((c as u8) + 32) as char
        } else {
            c
        };
        string_push(&mut out, lc);
        proof {
            assert(out@ =~= lower_seq(s@).take(i + 1));
        }
        i += 1;
    }
    proof {
        assert(lower_seq(s@).take(len as int) =~= lower_seq(s@));
    }
    out
}

/// The index path for a crate name.
pub fn crate_index_path(name: &str) -> (r: String)
    requires
        name@.len() >= 1,
    ensures
        r@ =~= spec_index_path(name@),
{
    proof {
        reveal_strlit("1/");
        reveal_strlit("2/");
        reveal_strlit("3/");
        reveal_strlit("/");
    }
    let len = name.unicode_len();
    let lowered = lower_ascii(name);
    if len == 1 {
        let mut out = "1/".to_owned();
        out.append(lowered.as_str());
        out
    } else if len == 2 {
        let mut out = "2/".to_owned();
        out.append(lowered.as_str());
        out
    } else if len == 3 {
        let mut out = "3/".to_owned();
        string_push(&mut out, lowered.as_str().get_char(0));
        out.append("/");
        out.append(lowered.as_str());
        out
    } else {
        let l = lowered.as_str();
        let mut out = l.substring_char(0, 2).to_owned();
        out.append("/");
        out.append(l.substring_char(2, 4));
        out.append("/");
        out.append(l);
        out
    }
}

} // verus!

verus! {

/// The marker that precedes a version value in an index line.
pub open spec fn vers_marker() -> Seq<char> {
    "\"vers\":\""@
}

fn vers_marker_str() -> (r: &'static str)
    ensures
        r@ == vers_marker(),
{
    "\"vers\":\""
}

/// The version named by one line of the registry index's line-delimited
/// metadata: the characters between the first `"vers":"` marker and the
/// next quote. `None` when the line has no such field.
pub fn index_line_vers(line: &str) -> (r: Option<String>)
    ensures
        match r {
            Some(v) => exists|i: int|
                {
                    &&& occurs_at(line@, vers_marker(), i)
                    &&& forall|j: int| 0 <= j < i ==> !occurs_at(line@, vers_marker(), j)
                    &&& exists|q: int|
                        {
                            &&& i + vers_marker().len() <= q < line@.len()
                            &&& line@[q] == '"'
                            &&& forall|t: int|
                                i + vers_marker().len() <= t < q ==> line@[t] != '"'
                            &&& v@ == line@.subrange(i + vers_marker().len(), q)
                        }
                },
            None => !occurs(line@, vers_marker()) || (exists|i: int|
                {
                    &&& occurs_at(line@, vers_marker(), i)
                    &&& forall|j: int| 0 <= j < i ==> !occurs_at(line@, vers_marker(), j)
                    &&& forall|t: int|
                        i + vers_marker().len() <= t < line@.len() ==> line@[t] != '"'
                }),
        },
{
    let marker = vers_marker_str();
    let i = match crate::text::find_first(line, marker) {
        Some(i) => i,
        None => {
            return None;
        },
    };
    let len = line.unicode_len();
    let start = i + marker.unicode_len();
    let mut q: usize = start;
    while q < len
        invariant
            len == line@.len(),
            occurs_at(line@, vers_marker(), i as int),
            forall|j: int| 0 <= j < i ==> !occurs_at(line@, vers_marker(), j),
            start == i + vers_marker().len(),
            start <= q <= len,
            forall|t: int| start <= t < q ==> line@[t] != '"',
        decreases len - q,
    {
        if line.get_char(q) == '"' {
            let value = line.substring_char(start, q);
            proof {
                assert(value@ =~= line@.subrange(start as int, q as int));
            }
            return Some(value.to_owned());
        }
        q += 1;
    }
    None
}

} // verus!
