//! Character-level text utilities shared by the pipeline stages: splitting a
//! string on a separator, the line model of a text blob, and substring search,
//! both exact and ASCII-case-insensitive.
#![allow(unused_imports)]
use vstd::prelude::*;

verus! {

/// Segments of `s` split on `sep`; always at least one segment, and the
/// separators themselves appear in no segment.
pub open spec fn split_on(s: Seq<char>, sep: char) -> Seq<Seq<char>>
    decreases s.len(),
{
    if s.len() == 0 {
        seq![Seq::<char>::empty()]
    } else if s[0] == sep {
        seq![Seq::<char>::empty()] + split_on(s.skip(1), sep)
    } else {
        let rest = split_on(s.skip(1), sep);
        seq![seq![s[0]] + rest[0]] + rest.skip(1)
    }
}

proof fn lemma_split_on_len(s: Seq<char>, sep: char)
    ensures
        split_on(s, sep).len() >= 1,
    decreases s.len(),
{
    if s.len() > 0 {
        lemma_split_on_len(s.skip(1), sep);
    }
}

/// Appending a separator ends the last segment; appending any other character
/// extends it.
proof fn lemma_split_on_push(s: Seq<char>, sep: char, c: char)
    ensures
        c == sep ==> split_on(s.push(c), sep) == split_on(s, sep).push(Seq::<char>::empty()),
        c != sep ==> split_on(s.push(c), sep) == split_on(s, sep).update(
            split_on(s, sep).len() - 1,
            split_on(s, sep).last().push(c),
        ),
    decreases s.len(),
{
    lemma_split_on_len(s, sep);
    if s.len() == 0 {
        assert(s =~= Seq::<char>::empty());
        assert(s.push(c)[0] == c);
        assert(s.push(c).skip(1) =~= Seq::<char>::empty());
        assert(split_on(Seq::<char>::empty(), sep) == seq![Seq::<char>::empty()]);
        if c == sep {
            assert(split_on(s.push(c), sep) =~~= split_on(s, sep).push(Seq::<char>::empty()));
        } else {
            assert(split_on(s.push(c), sep) =~~= split_on(s, sep).update(
                0,
                split_on(s, sep).last().push(c),
            ));
        }
    } else {
        let t = s.skip(1);
        assert(s.push(c)[0] == s[0]);
        assert(s.push(c).skip(1) =~= t.push(c));
        lemma_split_on_push(t, sep, c);
        lemma_split_on_len(t, sep);
        if c == sep {
            if s[0] == sep {
                assert(split_on(s.push(c), sep) =~~= split_on(s, sep).push(
                    Seq::<char>::empty(),
                ));
            } else {
                assert(split_on(s.push(c), sep) =~~= split_on(s, sep).push(
                    Seq::<char>::empty(),
                ));
            }
        } else {
            if s[0] == sep {
                assert(split_on(s.push(c), sep) =~~= split_on(s, sep).update(
                    split_on(s, sep).len() - 1,
                    split_on(s, sep).last().push(c),
                ));
            } else {
                assert(split_on(s.push(c), sep) =~~= split_on(s, sep).update(
                    split_on(s, sep).len() - 1,
                    split_on(s, sep).last().push(c),
                ));
            }
        }
    }
}

/// The characters of `s`, in order.
#[verifier::loop_isolation(false)]
pub fn chars_of(s: &str) -> (r: Vec<char>)
    ensures
        r@ == s@,
{
    let n = s.unicode_len();
    let mut r: Vec<char> = Vec::new();
    let mut i: usize = 0;
    while i < n
        invariant
            i <= n,
            n == s@.len(),
            r@ == s@.take(i as int),
        decreases n - i,
    {
        let c = s.get_char(i);
        r.push(c);
        proof {
            assert(s@.take(i + 1) =~= s@.take(i as int).push(s@[i as int]));
        }
        i = i + 1;
    }
    proof {
        assert(s@.take(n as int) =~= s@);
    }
    r
}

/// Relies on `String::push`: appends the given character at the end.
#[verifier::external_body]
fn push_char(s: &mut String, c: char)
    ensures
        final(s)@ == old(s)@.push(c),
{
    s.push(c)
}

/// A `String` holding exactly the given characters.
#[verifier::loop_isolation(false)]
pub fn string_of(chars: &Vec<char>) -> (r: String)
    ensures
        r@ == chars@,
{
    let mut r = String::new();
    let mut i: usize = 0;
    while i < chars.len()
        invariant
            i <= chars@.len(),
            r@ == chars@.take(i as int),
        decreases chars@.len() - i,
    {
        push_char(&mut r, chars[i]);
        proof {
            assert(chars@.take(i + 1) =~= chars@.take(i as int).push(chars@[i as int]));
        }
        i = i + 1;
    }
    proof {
        assert(chars@.take(chars@.len() as int) =~= chars@);
    }
    r
}

/// Splits `s` on `sep`, executably.
#[verifier::loop_isolation(false)]
pub fn split_on_exec(s: &Vec<char>, sep: char) -> (r: Vec<Vec<char>>)
    ensures
        r@.len() == split_on(s@, sep).len(),
        forall|i: int| 0 <= i < r@.len() ==> r@[i]@ == split_on(s@, sep)[i],
{
    let mut out: Vec<Vec<char>> = Vec::new();
    let mut cur: Vec<char> = Vec::new();
    let mut i: usize = 0;
    while i < s.len()
        invariant
            i <= s@.len(),
            split_on(s@.take(i as int), sep).len() == out@.len() + 1,
            forall|j: int|
                0 <= j < out@.len() ==> out@[j]@ == split_on(s@.take(i as int), sep)[j],
            cur@ == split_on(s@.take(i as int), sep).last(),
        decreases s@.len() - i,
    {
        let ghost pre = s@.take(i as int);
        proof {
            assert(s@.take(i + 1) =~= pre.push(s@[i as int]));
            lemma_split_on_push(pre, sep, s@[i as int]);
            lemma_split_on_len(pre, sep);
        }
        let c = s[i];
        if c == sep {
            out.push(cur);
            cur = Vec::new();
        } else {
            cur.push(c);
        }
        i = i + 1;
    }
    proof {
        assert(s@.take(s@.len() as int) =~= s@);
    }
    out.push(cur);
    out
}

/// Whether the ASCII-case-insensitive mode folds `c`: uppercase ASCII letters
/// fold to lowercase, every other character stands for itself.
pub open spec fn lower_code(c: char) -> int {
    if 65 <= c as u32 && c as u32 <= 90 {
        c as u32 + 32
    } else {
        c as u32 as int
    }
}

/// Character match, exact or ASCII-case-insensitive.
pub open spec fn chr_eq(a: char, b: char, ci: bool) -> bool {
    if ci {
        lower_code(a) == lower_code(b)
    } else {
        a == b
    }
}

/// `pat` occurs in `s` starting at `i`.
pub open spec fn matches_at(s: Seq<char>, i: int, pat: Seq<char>, ci: bool) -> bool {
    0 <= i && i + pat.len() <= s.len() && (forall|j: int|
        0 <= j < pat.len() ==> chr_eq(s[i + j], pat[j], ci))
}

/// Index of the first occurrence of `pat` in `s` at or after `i`; `-1` if none.
pub open spec fn find_from(s: Seq<char>, i: int, pat: Seq<char>, ci: bool) -> int
    decreases s.len() - i,
{
    if i < 0 || i > s.len() {
        -1
    } else if matches_at(s, i, pat, ci) {
        i
    } else if i == s.len() {
        -1
    } else {
        find_from(s, i + 1, pat, ci)
    }
}

/// `pat` occurs somewhere in `s`.
pub open spec fn contains_pat(s: Seq<char>, pat: Seq<char>, ci: bool) -> bool {
    find_from(s, 0, pat, ci) >= 0
}

proof fn lemma_find_from_none(s: Seq<char>, i: int, pat: Seq<char>, ci: bool)
    requires
        i + pat.len() > s.len(),
        i >= 0,
    ensures
        find_from(s, i, pat, ci) == -1,
    decreases s.len() - i,
{
    if i < s.len() {
        lemma_find_from_none(s, i + 1, pat, ci);
    }
}

/// A found index is in range, carries a match, and is the first one at or
/// after `i`.
pub proof fn lemma_find_from_found(s: Seq<char>, i: int, pat: Seq<char>, ci: bool)
    requires
        0 <= i,
        find_from(s, i, pat, ci) >= 0,
    ensures
        i <= find_from(s, i, pat, ci),
        matches_at(s, find_from(s, i, pat, ci), pat, ci),
        forall|k: int| i <= k < find_from(s, i, pat, ci) ==> !matches_at(s, k, pat, ci),
    decreases s.len() - i,
{
    if i <= s.len() && !matches_at(s, i, pat, ci) && i < s.len() {
        lemma_find_from_found(s, i + 1, pat, ci);
    }
}

/// Exact or case-insensitive equality of two characters, executably.
fn chr_eq_exec(a: char, b: char, ci: bool) -> (r: bool)
    ensures
        r == chr_eq(a, b, ci),
{
    if ci {
        let x = a as u32;
        let y = b as u32;
        let xl = if 65 <= x && x <= 90 { x + 32 } else { x };
        let yl = if 65 <= y && y <= 90 { y + 32 } else { y };
        xl == yl
    } else {
        a == b
    }
}

#[verifier::loop_isolation(false)]
fn matches_at_exec(s: &Vec<char>, i: usize, pat: &Vec<char>, ci: bool) -> (r: bool)
    requires
        i + pat@.len() <= s@.len(),
    ensures
        r == matches_at(s@, i as int, pat@, ci),
{
    let n = pat.len();
    let sn = s.len();
    proof {
        assert(i + n <= sn);
    }
    let mut j: usize = 0;
    while j < n
        invariant
            j <= n,
            forall|k: int| 0 <= k < j ==> chr_eq(s@[i + k], pat@[k], ci),
        decreases n - j,
    {
        if !chr_eq_exec(s[i + j], pat[j], ci) {
            return false;
        }
        j = j + 1;
    }
    true
}

/// First occurrence of `pat` in `s` at or after `from`, executably.
#[verifier::loop_isolation(false)]
pub fn find_from_exec(s: &Vec<char>, from: usize, pat: &Vec<char>, ci: bool) -> (r: Option<
    usize,
>)
    ensures
        match r {
            Some(k) => find_from(s@, from as int, pat@, ci) == k,
            None => find_from(s@, from as int, pat@, ci) == -1,
        },
{
    if pat.len() > s.len() {
        proof {
            if from <= s@.len() {
                lemma_find_from_none(s@, from as int, pat@, ci);
            }
        }
        return None;
    }
    if from > s.len() - pat.len() {
        proof {
            if from <= s@.len() {
                lemma_find_from_none(s@, from as int, pat@, ci);
            }
        }
        return None;
    }
    let mut i: usize = from;
    while i <= s.len() - pat.len()
        invariant
            from <= i,
            pat@.len() <= s@.len(),
            i <= s@.len(),
            find_from(s@, from as int, pat@, ci) == find_from(s@, i as int, pat@, ci),
        decreases s@.len() - i,
    {
        if matches_at_exec(s, i, pat, ci) {
            return Some(i);
        }
        i = i + 1;
    }
    proof {
        lemma_find_from_none(s@, i as int, pat@, ci);
    }
    None
}

/// The trailing carriage return that a line separator may carry, removed.
pub open spec fn strip_cr(l: Seq<char>) -> Seq<char> {
    if l.len() > 0 && l.last() == '\r' {
        l.drop_last()
    } else {
        l
    }
}

/// The lines of a text blob: split on newline, a carriage return before each
/// newline dropped, and no final empty line after a trailing newline.
pub open spec fn lines_of(s: Seq<char>) -> Seq<Seq<char>> {
    let raw = split_on(s, '\n');
    let body = raw.drop_last().map_values(|l: Seq<char>| strip_cr(l));
    if raw.last().len() == 0 {
        body
    } else {
        body + seq![raw.last()]
    }
}

/// The lines of a text blob, executably.
#[verifier::loop_isolation(false)]
pub fn lines_exec(s: &Vec<char>) -> (r: Vec<Vec<char>>)
    ensures
        r@.len() == lines_of(s@).len(),
        forall|i: int| 0 <= i < r@.len() ==> r@[i]@ == lines_of(s@)[i],
{
    let mut segs = split_on_exec(s, '\n');
    proof {
        lemma_split_on_len(s@, '\n');
    }
    let last = segs.pop().unwrap();
    let mut out: Vec<Vec<char>> = Vec::new();
    let ghost raw = split_on(s@, '\n');
    let mut i: usize = 0;
    while i < segs.len()
        invariant
            i <= segs@.len(),
            segs@.len() == raw.len() - 1,
            raw.len() >= 1,
            forall|j: int| 0 <= j < segs@.len() ==> segs@[j]@ == raw[j],
            out@.len() == i,
            forall|j: int| 0 <= j < i ==> out@[j]@ == strip_cr(raw[j]),
        decreases segs@.len() - i,
    {
        let mut line = Vec::new();
        let seg = &segs[i];
        let mut k: usize = 0;
        let n = if seg.len() > 0 && seg[seg.len() - 1] == '\r' {
            seg.len() - 1
        } else {
            seg.len()
        };
        proof {
            assert(seg@.take(n as int) =~= strip_cr(raw[i as int]));
        }
        while k < n
            invariant
                k <= n,
                n <= seg@.len(),
                seg@ == segs@[i as int]@,
                i < segs@.len(),
                line@ == seg@.take(n as int).take(k as int),
            decreases n - k,
        {
            line.push(seg[k]);
            proof {
                assert(seg@.take(n as int).take(k + 1) =~= seg@.take(n as int).take(
                    k as int,
                ).push(seg@[k as int]));
                assert(seg@.take(n as int).take(k + 1) =~= seg@.take(k + 1));
            }
            k = k + 1;
        }
        proof {
            assert(seg@.take(n as int).take(n as int) =~= seg@.take(n as int));
        }
        out.push(line);
        i = i + 1;
    }
    if last.len() > 0 {
        out.push(last);
    }
    proof {
        let lof = lines_of(s@);
        let body = raw.drop_last().map_values(|l: Seq<char>| strip_cr(l));
        assert(body.len() == raw.len() - 1);
        assert forall|j: int| 0 <= j < body.len() implies body[j] == strip_cr(raw[j]) by {}
        if raw.last().len() == 0 {
            assert(lof =~= body);
        }
        assert(out@.len() == lof.len());
        assert forall|j: int| 0 <= j < out@.len() implies out@[j]@ == lof[j] by {
            if j < raw.len() - 1 {
                assert(lof[j] == body[j]);
            }
        }
    }
    out
}

/// A fresh `String` holding `s[from..to]`.
#[verifier::loop_isolation(false)]
pub fn substring_of(s: &Vec<char>, from: usize, to: usize) -> (r: String)
    requires
        from <= to <= s@.len(),
    ensures
        r@ == s@.subrange(from as int, to as int),
{
    let mut chars: Vec<char> = Vec::new();
    let mut k: usize = from;
    while k < to
        invariant
            from <= k <= to,
            chars@ == s@.subrange(from as int, k as int),
        decreases to - k,
    {
        chars.push(s[k]);
        proof {
            assert(s@.subrange(from as int, k + 1) =~= s@.subrange(from as int, k as int).push(
                s@[k as int],
            ));
        }
        k = k + 1;
    }
    string_of(&chars)
}

} // verus!
