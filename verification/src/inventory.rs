//! Turns a discovered installation directory into an inventory record.
//!
//! The application name is the directory name truncated at its first `2` —
//! the policy that strips a trailing four-digit year from product names —
//! and trimmed of surrounding ASCII whitespace; a directory name without a
//! `2` is excluded from the inventory altogether, a deliberate, documented
//! policy. The installed version comes from the first descriptor line that
//! carries a quoted brace token: `"{`, an identifier, `-`, a dotted number,
//! and a `-64-` marker; the version is read at a fixed offset inside that
//! match, and anything malformed degrades to an empty version, never a
//! failure.
#![allow(unused_imports)]
use vstd::prelude::*;

use crate::LocalFoundApp;
use crate::LocalView;
use crate::text::chars_of;
use crate::text::find_from;
use crate::text::find_from_exec;
use crate::text::lemma_find_from_found;
use crate::text::lines_exec;
use crate::text::lines_of;
use crate::text::substring_of;
use crate::version::is_digit;

verus! {

/// ASCII whitespace: space, tab, line feed, vertical tab, form feed,
/// carriage return.
pub open spec fn is_space(c: char) -> bool {
    c as u32 == 32 || c as u32 == 9 || c as u32 == 10 || c as u32 == 11 || c as u32 == 12
        || c as u32 == 13
}

/// `s` with leading and trailing whitespace removed.
pub open spec fn trim_spec(s: Seq<char>) -> Seq<char>
    decreases s.len(),
{
    if s.len() == 0 {
        s
    } else if is_space(s[0]) {
        trim_spec(s.skip(1))
    } else if is_space(s.last()) {
        trim_spec(s.drop_last())
    } else {
        s
    }
}

/// The application name a directory stands for: the part before the first
/// `2`, trimmed; `None` when the name holds no `2` and the directory is
/// excluded from the inventory.
pub open spec fn app_name_of(dir: Seq<char>) -> Option<Seq<char>> {
    let i = find_from(dir, 0, seq!['2'], false);
    if i < 0 {
        None
    } else {
        Some(trim_spec(dir.take(i)))
    }
}

/// A word character of the descriptor token: an ASCII letter, digit or
/// underscore.
pub open spec fn is_word_char(c: char) -> bool {
    (97 <= c as u32 && c as u32 <= 122) || (65 <= c as u32 && c as u32 <= 90) || is_digit(c) || (
    c as u32 == 95)
}

/// End of the run of word characters (or digits) that starts at `i`.
pub open spec fn run_end(s: Seq<char>, i: int, digits_only: bool) -> int
    decreases s.len() - i,
{
    if i < 0 || i >= s.len() {
        i
    } else if (if digits_only {
        is_digit(s[i])
    } else {
        is_word_char(s[i])
    }) {
        run_end(s, i + 1, digits_only)
    } else {
        i
    }
}

/// The `-64-` marker that closes a descriptor token.
pub open spec fn dash64() -> Seq<char> {
    seq!['-', '6', '4', '-']
}

/// End of the descriptor token that starts at `i`, or `-1`: `"{`, a word
/// run, `-`, a digit run, `.`, one digit, then anything up to the first
/// following `-64-`.
pub open spec fn xml_match_end(s: Seq<char>, i: int) -> int {
    if 0 <= i && i + 1 < s.len() && s[i] == '"' && s[i + 1] == '{' {
        let j = run_end(s, i + 2, false);
        if j < s.len() && s[j] == '-' {
            let k = run_end(s, j + 1, true);
            if k + 1 < s.len() && s[k] == '.' && is_digit(s[k + 1]) {
                let m = find_from(s, k + 2, dash64(), false);
                if m >= 0 {
                    m + 4
                } else {
                    -1
                }
            } else {
                -1
            }
        } else {
            -1
        }
    } else {
        -1
    }
}

/// Start of the leftmost descriptor token at or after `i`; `-1` if none.
pub open spec fn xml_find(s: Seq<char>, i: int) -> int
    decreases s.len() - i,
{
    if i < 0 || i >= s.len() {
        -1
    } else if xml_match_end(s, i) >= 0 {
        i
    } else {
        xml_find(s, i + 1)
    }
}

/// The version a descriptor line yields: the token's text with a fixed
/// seven-character prefix and four-character suffix trimmed away; empty when
/// there is no token or the token is too short to trim.
pub open spec fn line_desc_version(line: Seq<char>) -> Seq<char> {
    let i = xml_find(line, 0);
    if i < 0 {
        Seq::empty()
    } else {
        let e = xml_match_end(line, i);
        if i + 7 <= e - 4 {
            line.subrange(i + 7, e - 4)
        } else {
            Seq::empty()
        }
    }
}

/// The version the descriptor text yields: read from the first line with a
/// token, empty when no line has one.
pub open spec fn desc_version_from(lines: Seq<Seq<char>>, li: int) -> Seq<char>
    decreases lines.len() - li,
{
    if li < 0 || li >= lines.len() {
        Seq::empty()
    } else if xml_find(lines[li], 0) >= 0 {
        line_desc_version(lines[li])
    } else {
        desc_version_from(lines, li + 1)
    }
}

/// The installed version recorded for a candidate directory, given its
/// descriptor file's text.
pub open spec fn descriptor_version_of(text: Seq<char>) -> Seq<char> {
    desc_version_from(lines_of(text), 0)
}

/// The inventory record a candidate directory produces, if any.
pub open spec fn local_app_of(dir: Seq<char>, text: Seq<char>) -> Option<LocalView> {
    match app_name_of(dir) {
        Some(n) => Some(
            LocalView { name: n, version: descriptor_version_of(text), newest_online: None },
        ),
        None => None,
    }
}

fn is_space_exec(c: char) -> (r: bool)
    ensures
        r == is_space(c),
{
    let u = c as u32;
    u == 32 || u == 9 || u == 10 || u == 11 || u == 12 || u == 13
}

/// Trimming, as the truncation rule needs it: the part of `dir[0..cut]`
/// between its first and last non-whitespace characters.
proof fn lemma_trim(s: Seq<char>, lo: int, hi: int)
    requires
        0 <= lo <= hi <= s.len(),
        forall|j: int| 0 <= j < lo ==> is_space(s[j]),
        forall|j: int| hi <= j < s.len() ==> is_space(s[j]),
        lo < hi ==> !is_space(s[lo]) && !is_space(s[hi - 1]),
    ensures
        trim_spec(s) == s.subrange(lo, hi),
    decreases s.len(),
{
    if s.len() == 0 {
        assert(s.subrange(0, 0) =~= s);
    } else if is_space(s[0]) {
        assert(lo < hi ==> lo >= 1);
        if lo == 0 {
            assert(hi == 0);
            lemma_trim(s.skip(1), 0, 0);
            assert(s.skip(1).subrange(0, 0) =~= s.subrange(0, 0));
        } else {
            lemma_trim(s.skip(1), lo - 1, hi - 1);
            assert(s.skip(1).subrange(lo - 1, hi - 1) =~= s.subrange(lo, hi));
        }
    } else if is_space(s.last()) {
        if hi == s.len() {
            if lo < hi {
                assert(!is_space(s[hi - 1]));
                assert(false);
            } else {
                assert(is_space(s[0]));
                assert(false);
            }
        } else {
            lemma_trim(s.drop_last(), lo, hi);
            assert(s.drop_last().subrange(lo, hi) =~= s.subrange(lo, hi));
        }
    } else {
        assert(lo == 0);
        assert(hi == s.len());
        assert(s.subrange(0, s.len() as int) =~= s);
    }
}

/// The name rule: `None` when the directory name holds no `2`, else the part
/// before the first `2`, trimmed of surrounding whitespace.
#[verifier::loop_isolation(false)]
pub fn app_name_from_dir(dir: &str) -> (r: Option<String>)
    ensures
        match r {
            Some(name) => app_name_of(dir@) == Some(name@),
            None => app_name_of(dir@) is None,
        },
{
    let dv = chars_of(dir);
    let two: Vec<char> = vec!['2'];
    proof {
        assert(two@ =~= seq!['2']);
    }
    match find_from_exec(&dv, 0, &two, false) {
        None => None,
        Some(i) => {
            proof {
                lemma_find_from_found(dv@, 0, seq!['2'], false);
            }
            let mut lo: usize = 0;
            while lo < i && is_space_exec(dv[lo])
                invariant
                    lo <= i,
                    forall|j: int| 0 <= j < lo ==> is_space(dv@[j]),
                decreases i - lo,
            {
                lo = lo + 1;
            }
            let mut hi: usize = i;
            while hi > lo && is_space_exec(dv[hi - 1])
                invariant
                    lo <= hi <= i,
                    forall|j: int| hi <= j < i ==> is_space(dv@[j]),
                decreases hi,
            {
                hi = hi - 1;
            }
            proof {
                let cut = dv@.take(i as int);
                assert(forall|j: int| 0 <= j < lo ==> is_space(cut[j]));
                assert(forall|j: int| hi <= j < cut.len() ==> is_space(cut[j]));
                lemma_trim(cut, lo as int, hi as int);
                assert(dv@.subrange(lo as int, hi as int) =~= cut.subrange(
                    lo as int,
                    hi as int,
                ));
            }
            Some(substring_of(&dv, lo, hi))
        },
    }
}

#[verifier::loop_isolation(false)]
fn run_end_exec(s: &Vec<char>, i: usize, digits_only: bool) -> (r: usize)
    requires
        i <= s@.len(),
    ensures
        r as int == run_end(s@, i as int, digits_only),
        i <= r <= s@.len(),
{
    let n = s.len();
    let mut j: usize = i;
    while j < n
        invariant
            i <= j <= n,
            run_end(s@, i as int, digits_only) == run_end(s@, j as int, digits_only),
        decreases n - j,
    {
        let c = s[j] as u32;
        let keep = if digits_only {
            48 <= c && c <= 57
        } else {
            (97 <= c && c <= 122) || (65 <= c && c <= 90) || (48 <= c && c <= 57) || c == 95
        };
        if !keep {
            return j;
        }
        j = j + 1;
    }
    n
}

#[verifier::loop_isolation(false)]
fn xml_match_end_exec(line: &Vec<char>, i: usize) -> (r: Option<usize>)
    ensures
        match r {
            Some(e) => xml_match_end(line@, i as int) == e && i <= e <= line@.len(),
            None => xml_match_end(line@, i as int) == -1,
        },
{
    let n = line.len();
    if i >= n {
        return None;
    }
    if !(i + 1 < n && line[i] == '"' && line[i + 1] == '{') {
        return None;
    }
    let j = run_end_exec(line, i + 2, false);
    if !(j < n && line[j] == '-') {
        return None;
    }
    let k = run_end_exec(line, j + 1, true);
    if !(k < n && line[k] == '.') {
        return None;
    }
    if !(k + 1 < n) {
        return None;
    }
    let ck = line[k + 1] as u32;
    if !(48 <= ck && ck <= 57) {
        return None;
    }
    let marker: Vec<char> = vec!['-', '6', '4', '-'];
    proof {
        assert(marker@ =~= dash64());
    }
    match find_from_exec(line, k + 2, &marker, false) {
        Some(m) => {
            proof {
                lemma_find_from_found(line@, k + 2, dash64(), false);
            }
            Some(m + 4)
        },
        None => None,
    }
}

#[verifier::loop_isolation(false)]
fn xml_find_exec(line: &Vec<char>) -> (r: Option<usize>)
    ensures
        match r {
            Some(k) => xml_find(line@, 0) == k,
            None => xml_find(line@, 0) == -1,
        },
{
    let n = line.len();
    let mut i: usize = 0;
    while i < n
        invariant
            i <= n,
            xml_find(line@, 0) == xml_find(line@, i as int),
        decreases n - i,
    {
        match xml_match_end_exec(line, i) {
            Some(_) => {
                return Some(i);
            },
            None => {},
        }
        i = i + 1;
    }
    None
}

/// The version one descriptor line yields, executably.
fn line_desc_version_exec(line: &Vec<char>) -> (r: String)
    ensures
        r@ == line_desc_version(line@),
{
    match xml_find_exec(line) {
        None => String::new(),
        Some(i) => {
            match xml_match_end_exec(line, i) {
                None => {
                    proof {
                        lemma_xml_found(line@, 0);
                        assert(false);
                    }
                    String::new()
                },
                Some(e) => {
                    if e - i >= 11 {
                        substring_of(line, i + 7, e - 4)
                    } else {
                        String::new()
                    }
                },
            }
        },
    }
}

proof fn lemma_xml_found(line: Seq<char>, i: int)
    requires
        0 <= i,
        xml_find(line, i) >= 0,
    ensures
        xml_match_end(line, xml_find(line, i)) >= 0,
    decreases line.len() - i,
{
    if i < line.len() && xml_match_end(line, i) < 0 {
        lemma_xml_found(line, i + 1);
    }
}

/// The installed version read from a descriptor file's text: the first line
/// with a well-formed token decides; malformed text yields the empty string.
#[verifier::loop_isolation(false)]
pub fn descriptor_version(text: &str) -> (r: String)
    ensures
        r@ == descriptor_version_of(text@),
{
    let tv = chars_of(text);
    let lines = lines_exec(&tv);
    let ghost gl = lines_of(text@);
    let n = lines.len();
    let mut li: usize = 0;
    while li < n
        invariant
            li <= n,
            desc_version_from(gl, 0) == desc_version_from(gl, li as int),
        decreases n - li,
    {
        proof {
            assert(lines@[li as int]@ == gl[li as int]);
        }
        match xml_find_exec(&lines[li]) {
            Some(_) => {
                return line_desc_version_exec(&lines[li]);
            },
            None => {},
        }
        li = li + 1;
    }
    String::new()
}

/// The inventory record for one candidate directory: its name filtered and
/// truncated by the name rule, its version read from the descriptor text,
/// and no update attached yet. Callers pass an empty descriptor text when no
/// descriptor file was found or readable.
pub fn make_local_app(dir_name: &str, descriptor_text: &str) -> (r: Option<LocalFoundApp>)
    ensures
        match r {
            Some(app) => local_app_of(dir_name@, descriptor_text@) == Some(app@),
            None => local_app_of(dir_name@, descriptor_text@) is None,
        },
{
    match app_name_from_dir(dir_name) {
        None => None,
        Some(name) => {
            let version = descriptor_version(descriptor_text);
            Some(LocalFoundApp { version: version, name: name, newest_online: None })
        },
    }
}

} // verus!
