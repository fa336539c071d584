//! Scans raw catalog text for entries that advertise known applications.
//!
//! A line advertises an application when the application's name occurs in it
//! as an ASCII-case-insensitive substring. The advertised version is the
//! interior of the first parenthesized token that opens with `(v`, up to the
//! first closing parenthesis; a line without one yields an empty version.
//! The retrieval locator is taken from the first line, at or after the
//! matching line, that carries a quoted magnet hyperlink attribute; the
//! locator runs from just after `href="` up to the closing quote. The scan
//! is unbounded: interleaved entries can attach a later locator, a documented
//! ordering assumption of the catalog format.
#![allow(unused_imports)]
use vstd::prelude::*;

use crate::EntryView;
use crate::LocalFoundApp;
use crate::OnlineFoundApp;
use crate::resolve::entry_views;
use crate::text::chars_of;
use crate::text::contains_pat;
use crate::text::find_from;
use crate::text::find_from_exec;
use crate::text::lemma_find_from_found;
use crate::text::lines_exec;
use crate::text::lines_of;
use crate::text::matches_at;
use crate::text::substring_of;

verus! {

/// The views of a list of split lines.
pub open spec fn line_views(lines: Seq<Vec<char>>) -> Seq<Seq<char>> {
    lines.map_values(|l: Vec<char>| l@)
}

/// The names of the installed applications, in inventory order.
pub open spec fn names_of(apps: Seq<LocalFoundApp>) -> Seq<Seq<char>> {
    apps.map_values(|a: LocalFoundApp| a.name@)
}

/// Index of the closing parenthesis that ends a version token opened at `i`.
pub open spec fn close_paren_of(line: Seq<char>, i: int) -> int {
    find_from(line, i + 2, seq![')'], false)
}

/// A version token starts at `i`: `(v`, then anything up to a closing
/// parenthesis somewhere later in the line.
pub open spec fn vtok_at(line: Seq<char>, i: int) -> bool {
    &&& 0 <= i
    &&& i + 1 < line.len()
    &&& line[i] == '('
    &&& line[i + 1] == 'v'
    &&& close_paren_of(line, i) >= 0
}

/// Start of the leftmost version token at or after `i`; `-1` if none.
pub open spec fn vtok_find(line: Seq<char>, i: int) -> int
    decreases line.len() - i,
{
    if i < 0 || i >= line.len() {
        -1
    } else if vtok_at(line, i) {
        i
    } else {
        vtok_find(line, i + 1)
    }
}

/// The version a line advertises: the first token's interior with the
/// leading `v` and both parentheses removed, or empty without a token.
pub open spec fn line_version(line: Seq<char>) -> Seq<char> {
    let i = vtok_find(line, 0);
    if i < 0 {
        Seq::empty()
    } else {
        line.subrange(i + 2, close_paren_of(line, i))
    }
}

/// The marker that announces a magnet hyperlink attribute on a line.
pub open spec fn magnet_marker() -> Seq<char> {
    seq!['h', 'r', 'e', 'f', '=', '"', 'm', 'a', 'g', 'n', 'e', 't', ':', '?']
}

/// The full prefix a well-formed magnet attribute starts with.
pub open spec fn magnet_prefix() -> Seq<char> {
    magnet_marker() + seq!['x', 't']
}

/// Index of the quote that closes a magnet attribute opened at `i`.
pub open spec fn mag_close_of(line: Seq<char>, i: int) -> int {
    find_from(line, i + 16, seq!['"'], false)
}

/// A magnet attribute starts at `i` and is closed by a later quote.
pub open spec fn mag_at(line: Seq<char>, i: int) -> bool {
    matches_at(line, i, magnet_prefix(), false) && mag_close_of(line, i) >= 0
}

/// Start of the leftmost magnet attribute at or after `i`; `-1` if none.
pub open spec fn mag_find(line: Seq<char>, i: int) -> int
    decreases line.len() - i,
{
    if i < 0 || i >= line.len() {
        -1
    } else if mag_at(line, i) {
        i
    } else {
        mag_find(line, i + 1)
    }
}

/// The locator a line carries: everything after `href="` up to but excluding
/// the closing quote.
pub open spec fn line_magnet(line: Seq<char>) -> Seq<char> {
    let i = mag_find(line, 0);
    if i < 0 {
        Seq::empty()
    } else {
        line.subrange(i + 6, mag_close_of(line, i))
    }
}

/// The line merely mentions the magnet marker, well formed or not.
pub open spec fn has_marker(line: Seq<char>) -> bool {
    contains_pat(line, magnet_marker(), false)
}

/// The locator attached to a match on line `li`: the first complete magnet
/// attribute on any line from `li` onward; empty when none follows.
pub open spec fn magnet_from(lines: Seq<Seq<char>>, li: int) -> Seq<char>
    decreases lines.len() - li,
{
    if li < 0 || li >= lines.len() {
        Seq::empty()
    } else if has_marker(lines[li]) && mag_find(lines[li], 0) >= 0 {
        line_magnet(lines[li])
    } else {
        magnet_from(lines, li + 1)
    }
}

/// The catalog entry produced when `name` matches on line `li`.
pub open spec fn entry_at(lines: Seq<Seq<char>>, li: int, name: Seq<char>) -> EntryView {
    EntryView { name: name, version: line_version(lines[li]), magnet: magnet_from(lines, li) }
}

/// The entries line `li` emits for the names from `ni` onward, in name order.
pub open spec fn row_entries(
    lines: Seq<Seq<char>>,
    li: int,
    names: Seq<Seq<char>>,
    ni: int,
) -> Seq<EntryView>
    decreases names.len() - ni,
{
    if ni < 0 || ni >= names.len() {
        Seq::empty()
    } else {
        let rest = row_entries(lines, li, names, ni + 1);
        if contains_pat(lines[li], names[ni], true) {
            seq![entry_at(lines, li, names[ni])] + rest
        } else {
            rest
        }
    }
}

/// The entries emitted by the lines from `li` onward.
pub open spec fn entries_from(
    lines: Seq<Seq<char>>,
    li: int,
    names: Seq<Seq<char>>,
) -> Seq<EntryView>
    decreases lines.len() - li,
{
    if li < 0 || li >= lines.len() {
        Seq::empty()
    } else {
        row_entries(lines, li, names, 0) + entries_from(lines, li + 1, names)
    }
}

/// Every entry the raw catalog text advertises for the given names: one per
/// matching (line, name) pair, lines outermost, both in input order.
pub open spec fn extract_entries(raw: Seq<char>, names: Seq<Seq<char>>) -> Seq<EntryView> {
    entries_from(lines_of(raw), 0, names)
}

proof fn lemma_vtok_found(line: Seq<char>, i: int)
    requires
        0 <= i,
        vtok_find(line, i) >= 0,
    ensures
        vtok_at(line, vtok_find(line, i)),
    decreases line.len() - i,
{
    if i < line.len() && !vtok_at(line, i) {
        lemma_vtok_found(line, i + 1);
    }
}

proof fn lemma_mag_found(line: Seq<char>, i: int)
    requires
        0 <= i,
        mag_find(line, i) >= 0,
    ensures
        mag_at(line, mag_find(line, i)),
    decreases line.len() - i,
{
    if i < line.len() && !mag_at(line, i) {
        lemma_mag_found(line, i + 1);
    }
}

#[verifier::loop_isolation(false)]
fn vtok_find_exec(line: &Vec<char>) -> (r: Option<usize>)
    ensures
        match r {
            Some(k) => vtok_find(line@, 0) == k,
            None => vtok_find(line@, 0) == -1,
        },
{
    let cp: Vec<char> = vec![')'];
    proof {
        assert(cp@ =~= seq![')']);
    }
    let n = line.len();
    let mut i: usize = 0;
    while i < n
        invariant
            i <= n,
            vtok_find(line@, 0) == vtok_find(line@, i as int),
        decreases n - i,
    {
        if i + 1 < n && line[i] == '(' && line[i + 1] == 'v' {
            match find_from_exec(line, i + 2, &cp, false) {
                Some(_) => {
                    return Some(i);
                },
                None => {},
            }
        }
        i = i + 1;
    }
    None
}

#[verifier::loop_isolation(false)]
fn mag_find_exec(line: &Vec<char>) -> (r: Option<usize>)
    ensures
        match r {
            Some(k) => mag_find(line@, 0) == k,
            None => mag_find(line@, 0) == -1,
        },
{
    let quote: Vec<char> = vec!['"'];
    let prefix: Vec<char> = vec![
        'h',
        'r',
        'e',
        'f',
        '=',
        '"',
        'm',
        'a',
        'g',
        'n',
        'e',
        't',
        ':',
        '?',
        'x',
        't',
    ];
    proof {
        assert(quote@ =~= seq!['"']);
        assert(prefix@ =~= magnet_prefix());
    }
    let n = line.len();
    let mut i: usize = 0;
    while i < n
        invariant
            i <= n,
            mag_find(line@, 0) == mag_find(line@, i as int),
        decreases n - i,
    {
        let starts = match find_from_exec(line, i, &prefix, false) {
            Some(k) => k == i,
            None => false,
        };
        if starts {
            proof {
                lemma_find_from_found(line@, i as int, magnet_prefix(), false);
            }
            match find_from_exec(line, i + 16, &quote, false) {
                Some(_) => {
                    return Some(i);
                },
                None => {},
            }
        } else {
            proof {
                lemma_starts_disproves(line@, i as int, magnet_prefix());
            }
        }
        i = i + 1;
    }
    None
}

/// When the first occurrence of `pat` at or after `i` is not `i` itself,
/// `pat` does not occur at `i`.
proof fn lemma_starts_disproves(s: Seq<char>, i: int, pat: Seq<char>)
    requires
        0 <= i,
        find_from(s, i, pat, false) != i,
    ensures
        !matches_at(s, i, pat, false),
{
}

/// The version a line advertises, executably.
fn line_version_exec(line: &Vec<char>) -> (r: String)
    ensures
        r@ == line_version(line@),
{
    let cp: Vec<char> = vec![')'];
    proof {
        assert(cp@ =~= seq![')']);
    }
    match vtok_find_exec(line) {
        None => String::new(),
        Some(i) => {
            let ln = line.len();
            proof {
                lemma_vtok_found(line@, 0);
                assert(i + 2 <= ln);
            }
            match find_from_exec(line, i + 2, &cp, false) {
                None => {
                    proof {
                        assert(false);
                    }
                    String::new()
                },
                Some(m) => {
                    proof {
                        lemma_find_from_found(line@, i + 2, seq![')'], false);
                    }
                    substring_of(line, i + 2, m)
                },
            }
        },
    }
}

/// The locator for a match on line `li`, executably.
#[verifier::loop_isolation(false)]
fn magnet_from_exec(lines: &Vec<Vec<char>>, li: usize) -> (r: String)
    ensures
        r@ == magnet_from(line_views(lines@), li as int),
{
    let ghost lv = line_views(lines@);
    let marker: Vec<char> = vec![
        'h',
        'r',
        'e',
        'f',
        '=',
        '"',
        'm',
        'a',
        'g',
        'n',
        'e',
        't',
        ':',
        '?',
    ];
    let quote: Vec<char> = vec!['"'];
    proof {
        assert(marker@ =~= magnet_marker());
        assert(quote@ =~= seq!['"']);
    }
    let n = lines.len();
    let mut j: usize = li;
    while j < n
        invariant
            li <= j,
            magnet_from(lv, li as int) == magnet_from(lv, j as int),
        decreases n - j,
    {
        let line = &lines[j];
        proof {
            assert(lv[j as int] == line@);
        }
        let mentioned = match find_from_exec(line, 0, &marker, false) {
            Some(_) => true,
            None => false,
        };
        if mentioned {
            match mag_find_exec(line) {
                Some(i) => {
                    let ln = line.len();
                    proof {
                        lemma_mag_found(line@, 0);
                        assert(i + 16 <= ln);
                        lemma_find_from_found(line@, i + 16, seq!['"'], false);
                    }
                    match find_from_exec(line, i + 16, &quote, false) {
                        Some(m) => {
                            return substring_of(line, i + 6, m);
                        },
                        None => {
                            proof {
                                assert(false);
                            }
                            return String::new();
                        },
                    }
                },
                None => {},
            }
        }
        j = j + 1;
    }
    String::new()
}

/// Every catalog entry the raw text advertises for the installed
/// applications: one per (line, name) pair whose name occurs in the line
/// case-insensitively, with that line's version token and the first locator
/// at or after it.
#[verifier::loop_isolation(false)]
pub fn find_updates(app_list: &Vec<LocalFoundApp>, raw: &str) -> (r: Vec<OnlineFoundApp>)
    ensures
        entry_views(r@) == extract_entries(raw@, names_of(app_list@)),
{
    let rawv = chars_of(raw);
    let lines = lines_exec(&rawv);
    let ghost gl = lines_of(raw@);
    let ghost nn = names_of(app_list@);
    proof {
        assert(line_views(lines@) =~~= gl);
    }
    let mut out: Vec<OnlineFoundApp> = Vec::new();
    let n = lines.len();
    let mut li: usize = 0;
    while li < n
        invariant
            li <= n,
            extract_entries(raw@, nn) =~= entry_views(out@) + entries_from(gl, li as int, nn),
        decreases n - li,
    {
        let m = app_list.len();
        let mut ni: usize = 0;
        while ni < m
            invariant
                ni <= m,
                li < n,
                extract_entries(raw@, nn) =~= entry_views(out@) + row_entries(
                    gl,
                    li as int,
                    nn,
                    ni as int,
                ) + entries_from(gl, li + 1, nn),
            decreases m - ni,
        {
            let name_chars = chars_of(app_list[ni].name.as_str());
            let hit = match find_from_exec(&lines[li], 0, &name_chars, true) {
                Some(_) => true,
                None => false,
            };
            proof {
                assert(lines@[li as int]@ == gl[li as int]);
                assert(nn[ni as int] == app_list@[ni as int].name@);
            }
            if hit {
                let version = line_version_exec(&lines[li]);
                let magnet = magnet_from_exec(&lines, li);
                let e = OnlineFoundApp {
                    version: version,
                    name: app_list[ni].name.clone(),
                    magnet: magnet,
                };
                proof {
                    assert(e@ == entry_at(gl, li as int, nn[ni as int]));
                }
                let ghost out_pre = out@;
                out.push(e);
                proof {
                    assert(entry_views(out@) =~= entry_views(out_pre).push(e@));
                    assert(entry_views(out_pre).push(e@) + row_entries(gl, li as int, nn, ni + 1)
                        =~= entry_views(out_pre) + (seq![e@] + row_entries(
                        gl,
                        li as int,
                        nn,
                        ni + 1,
                    )));
                }
            }
            ni = ni + 1;
        }
        li = li + 1;
    }
    proof {
        assert(entry_views(out@) =~= extract_entries(raw@, nn));
    }
    out
}

} // verus!
