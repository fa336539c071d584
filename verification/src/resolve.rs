//! Decides, per installed application, the best strictly newer catalog entry.
//!
//! Entries are examined in the order they were produced. A candidate with the
//! same name replaces the running best only when its version is strictly
//! greater than the current best's version (or, before any best exists, the
//! locally installed version), so the earliest entry among equally maximal
//! versions wins, and an entry never beats the installed version downwards.
//! An entry whose version is empty never competes and is never selected.
#![allow(unused_imports)]
use vstd::prelude::*;

use crate::EntryView;
use crate::LocalView;
use crate::OnlineFoundApp;
use crate::LocalFoundApp;
use crate::version::Cmp;
use crate::version::spec_compare;
use crate::version::compare;
use crate::version::lemma_compare_reflexive;
use crate::version::lemma_compare_antisymmetric;
use crate::version::lemma_compare_transitive;
use crate::catalog::extract_entries;
use crate::text::lines_of;
use crate::text::split_on;

verus! {

/// The views of a sequence of catalog entries.
pub open spec fn entry_views(s: Seq<OnlineFoundApp>) -> Seq<EntryView> {
    s.map_values(|e: OnlineFoundApp| e@)
}

/// The version the next candidate has to beat.
pub open spec fn bar_of(best: Option<EntryView>, local_v: Seq<char>) -> Seq<char> {
    match best {
        Some(b) => b.version,
        None => local_v,
    }
}

/// Left fold of the selection rule over the remaining entries.
pub open spec fn fold_best(
    name: Seq<char>,
    local_v: Seq<char>,
    best: Option<EntryView>,
    entries: Seq<EntryView>,
) -> Option<EntryView>
    decreases entries.len(),
{
    if entries.len() == 0 {
        best
    } else {
        let e = entries[0];
        let next = if e.name == name && e.version.len() > 0 && spec_compare(
            e.version,
            bar_of(best, local_v),
        ) == Cmp::Greater {
            Some(e)
        } else {
            best
        };
        fold_best(name, local_v, next, entries.skip(1))
    }
}

/// One application after resolution: only `newest_online` changes.
pub open spec fn resolved(app: LocalView, entries: Seq<EntryView>) -> LocalView {
    LocalView {
        name: app.name,
        version: app.version,
        newest_online: fold_best(app.name, app.version, app.newest_online, entries),
    }
}

fn clone_entry(e: &OnlineFoundApp) -> (r: OnlineFoundApp)
    ensures
        r@ == e@,
{
    OnlineFoundApp {
        version: e.version.clone(),
        name: e.name.clone(),
        magnet: e.magnet.clone(),
    }
}

/// Attaches to every installed application the best strictly newer catalog
/// entry, or leaves it untouched when none beats the installed version.
/// Entries whose version is empty are never selected.
#[verifier::loop_isolation(false)]
pub fn compare_versions(
    installed_apps: &mut Vec<LocalFoundApp>,
    online_apps: Vec<OnlineFoundApp>,
)
    ensures
        final(installed_apps)@.len() == old(installed_apps)@.len(),
        forall|i: int|
            0 <= i < old(installed_apps)@.len() ==> final(installed_apps)@[i]@ == resolved(
                old(installed_apps)@[i]@,
                entry_views(online_apps@),
            ),
{
    let ghost entries = entry_views(online_apps@);
    let mut out: Vec<LocalFoundApp> = Vec::new();
    let n = installed_apps.len();
    let mut i: usize = 0;
    while i < n
        invariant
            i <= n,
            out@.len() == i,
            forall|j: int|
                0 <= j < i ==> out@[j]@ == resolved(old(installed_apps)@[j]@, entries),
        decreases n - i,
    {
        let app = &installed_apps[i];
        let ghost av = app@;
        let mut best: Option<OnlineFoundApp> = match &app.newest_online {
            Some(e) => Some(clone_entry(e)),
            None => None,
        };
        let m = online_apps.len();
        let mut j: usize = 0;
        while j < m
            invariant
                j <= m,
                match best {
                    Some(b) => Some(b@) == fold_best_seen(av, entries, j as int),
                    None => fold_best_seen(av, entries, j as int) is None,
                },
            decreases m - j,
        {
            let e = &online_apps[j];
            let beat = match &best {
                Some(b) => &b.version,
                None => &app.version,
            };
            let is_greater = match compare(&e.version, beat) {
                Cmp::Greater => true,
                _ => false,
            };
            let has_version = !e.version.as_str().is_empty();
            proof {
                lemma_fold_step(av, entries, j as int);
            }
            if e.name == app.name && has_version && is_greater {
                best = Some(clone_entry(e));
            }
            j = j + 1;
        }
        proof {
            assert(entries.skip(m as int) =~= Seq::<EntryView>::empty());
            lemma_fold_complete(av.name, av.version, av.newest_online, entries, m as int);
        }
        out.push(
            LocalFoundApp {
                version: app.version.clone(),
                name: app.name.clone(),
                newest_online: best,
            },
        );
        i = i + 1;
    }
    *installed_apps = out;
}

/// The fold after the first `j` entries have been examined.
spec fn fold_best_seen(av: LocalView, entries: Seq<EntryView>, j: int) -> Option<
    EntryView,
> {
    fold_best_upto(av.name, av.version, av.newest_online, entries, j)
}

/// The accumulator the fold reaches after `j` steps.
spec fn fold_best_upto(
    name: Seq<char>,
    local_v: Seq<char>,
    best: Option<EntryView>,
    entries: Seq<EntryView>,
    j: int,
) -> Option<EntryView>
    decreases j,
{
    if j <= 0 {
        best
    } else {
        let prev = fold_best_upto(name, local_v, best, entries, j - 1);
        let e = entries[j - 1];
        if e.name == name && e.version.len() > 0 && spec_compare(
            e.version,
            bar_of(prev, local_v),
        ) == Cmp::Greater {
            Some(e)
        } else {
            prev
        }
    }
}

/// The winner was picked at `j0`: the entry there is `b`, it matches the
/// name, and every earlier matching entry that competes at all (its version
/// is not empty) is strictly older than `b` — so `j0` is the first position
/// where the maximal version appears.
pub open spec fn picked_at(
    name: Seq<char>,
    entries: Seq<EntryView>,
    b: EntryView,
    j0: int,
) -> bool {
    &&& 0 <= j0 < entries.len()
    &&& entries[j0] == b
    &&& entries[j0].name == name
    &&& (forall|j: int|
        0 <= j < j0 ==> ((#[trigger] entries[j]).name == name && entries[j].version.len() > 0
            ==> spec_compare(entries[j].version, b.version) == Cmp::Less))
}

/// What the fold guarantees for any starting best that is itself strictly
/// newer than the installed version.
proof fn lemma_fold_props(
    name: Seq<char>,
    lv: Seq<char>,
    best: Option<EntryView>,
    entries: Seq<EntryView>,
)
    requires
        match best {
            Some(b0) => b0.version.len() > 0 && spec_compare(b0.version, lv) == Cmp::Greater,
            None => true,
        },
    ensures
        ({
            let r = fold_best(name, lv, best, entries);
            match r {
                None => best is None && (forall|j: int|
                    0 <= j < entries.len() ==> ((#[trigger] entries[j]).name == name
                        && entries[j].version.len() > 0 ==> spec_compare(
                        entries[j].version,
                        lv,
                    ) != Cmp::Greater)),
                Some(b) => {
                    &&& b.version.len() > 0
                    &&& spec_compare(b.version, lv) == Cmp::Greater
                    &&& (best == Some(b) || (spec_compare(bar_of(best, lv), b.version)
                        == Cmp::Less && exists|j0: int| #[trigger] picked_at(
                        name,
                        entries,
                        b,
                        j0,
                    )))
                    &&& spec_compare(bar_of(best, lv), b.version) != Cmp::Greater
                    &&& (forall|j: int|
                        0 <= j < entries.len() ==> ((#[trigger] entries[j]).name == name
                            && entries[j].version.len() > 0 ==> spec_compare(
                            entries[j].version,
                            b.version,
                        ) != Cmp::Greater))
                },
            }
        }),
    decreases entries.len(),
{
    let r = fold_best(name, lv, best, entries);
    if entries.len() == 0 {
        match best {
            Some(b0) => {
                lemma_compare_reflexive(b0.version);
            },
            None => {},
        }
    } else {
        let e = entries[0];
        let bar = bar_of(best, lv);
        let tail = entries.skip(1);
        if e.name == name && e.version.len() > 0 && spec_compare(e.version, bar)
            == Cmp::Greater {
            match best {
                None => {},
                Some(b0) => {
                    lemma_compare_antisymmetric(e.version, b0.version);
                    lemma_compare_antisymmetric(b0.version, lv);
                    lemma_compare_transitive(lv, b0.version, e.version);
                    lemma_compare_antisymmetric(lv, e.version);
                },
            }
            lemma_fold_props(name, lv, Some(e), tail);
            match r {
                None => {
                    assert(false);
                },
                Some(b) => {
                    assert forall|j: int|
                        0 <= j < entries.len() implies ((#[trigger] entries[j]).name == name
                        && entries[j].version.len() > 0 ==> spec_compare(
                        entries[j].version,
                        b.version,
                    ) != Cmp::Greater) by {
                        if j > 0 {
                            assert(tail[j - 1] == entries[j]);
                        }
                    }
                    lemma_compare_antisymmetric(e.version, bar);
                    if e == b {
                        assert(picked_at(name, entries, b, 0));
                    } else {
                        let j0 = choose|j: int| #[trigger] picked_at(name, tail, b, j);
                        assert(picked_at(name, tail, b, j0));
                        assert forall|j: int|
                            0 <= j < j0 + 1 implies ((#[trigger] entries[j]).name == name
                            && entries[j].version.len() > 0 ==> spec_compare(
                            entries[j].version,
                            b.version,
                        ) == Cmp::Less) by {
                            if j > 0 {
                                assert(tail[j - 1] == entries[j]);
                            }
                        }
                        assert(entries[j0 + 1] == tail[j0]);
                        assert(picked_at(name, entries, b, j0 + 1));
                    }
                    lemma_compare_transitive(bar, e.version, b.version);
                },
            }
        } else {
            lemma_fold_props(name, lv, best, tail);
            match r {
                None => {
                    assert forall|j: int|
                        0 <= j < entries.len() implies ((#[trigger] entries[j]).name == name
                        && entries[j].version.len() > 0 ==> spec_compare(
                        entries[j].version,
                        lv,
                    ) != Cmp::Greater) by {
                        if j > 0 {
                            assert(tail[j - 1] == entries[j]);
                        }
                    }
                },
                Some(b) => {
                    assert forall|j: int|
                        0 <= j < entries.len() implies ((#[trigger] entries[j]).name == name
                        && entries[j].version.len() > 0 ==> spec_compare(
                        entries[j].version,
                        b.version,
                    ) != Cmp::Greater) by {
                        if j == 0 {
                            if e.name == name && e.version.len() > 0 {
                                lemma_compare_transitive(e.version, bar, b.version);
                            }
                        } else {
                            assert(tail[j - 1] == entries[j]);
                        }
                    }
                    if best == Some(b) {
                    } else {
                        let j0 = choose|j: int| #[trigger] picked_at(name, tail, b, j);
                        assert(picked_at(name, tail, b, j0));
                        assert forall|j: int|
                            0 <= j < j0 + 1 implies ((#[trigger] entries[j]).name == name
                            && entries[j].version.len() > 0 ==> spec_compare(
                            entries[j].version,
                            b.version,
                        ) == Cmp::Less) by {
                            if j == 0 {
                                if e.name == name && e.version.len() > 0 {
                                    lemma_compare_transitive(e.version, bar, b.version);
                                }
                            } else {
                                assert(tail[j - 1] == entries[j]);
                            }
                        }
                        assert(entries[j0 + 1] == tail[j0]);
                        assert(picked_at(name, entries, b, j0 + 1));
                    }
                },
            }
        }
    }
}

/// The resolver's selection invariant: a chosen best update is a matching
/// catalog entry with a non-empty version, strictly newer than the installed
/// version; no matching entry with a non-empty version is strictly newer
/// than the chosen one; and the chosen one stands at the first position
/// where that maximal version appears — the tie-break. When none is chosen,
/// no matching entry with a non-empty version beats the installed version,
/// and an entry whose version is empty is never selected at all.
pub proof fn lemma_resolver_best(name: Seq<char>, local_v: Seq<char>, entries: Seq<EntryView>)
    ensures
        match fold_best(name, local_v, None, entries) {
            None => forall|j: int|
                0 <= j < entries.len() ==> ((#[trigger] entries[j]).name == name
                    && entries[j].version.len() > 0 ==> spec_compare(
                    entries[j].version,
                    local_v,
                ) != Cmp::Greater),
            Some(b) => {
                &&& b.version.len() > 0
                &&& spec_compare(b.version, local_v) == Cmp::Greater
                &&& (exists|j0: int| #[trigger] picked_at(name, entries, b, j0))
                &&& (forall|j: int|
                    0 <= j < entries.len() ==> ((#[trigger] entries[j]).name == name
                        && entries[j].version.len() > 0 ==> spec_compare(
                        entries[j].version,
                        b.version,
                    ) != Cmp::Greater))
            },
        },
{
    lemma_fold_props(name, local_v, None, entries);
}

/// Safe degradation: empty raw catalog text yields no entries at all, and
/// resolving an application that has no update yet against no entries leaves
/// it without one — a missing catalog makes everything look up to date.
pub proof fn lemma_empty_catalog(app: LocalView, raw: Seq<char>, names: Seq<Seq<char>>)
    requires
        raw.len() == 0,
        app.newest_online is None,
    ensures
        extract_entries(raw, names).len() == 0,
        resolved(app, extract_entries(raw, names)).newest_online is None,
{
    assert(raw =~= Seq::<char>::empty());
    let sp = split_on(raw, '\n');
    assert(sp == seq![Seq::<char>::empty()]);
    assert(sp.last() == Seq::<char>::empty());
    assert(sp.drop_last() =~= Seq::<Seq<char>>::empty());
    assert(lines_of(raw) =~= Seq::<Seq<char>>::empty());
    assert(extract_entries(raw, names).len() == 0);
}

/// Folding all entries is folding the first `j` and then the rest.
proof fn lemma_fold_step(av: LocalView, entries: Seq<EntryView>, j: int)
    requires
        0 <= j < entries.len(),
    ensures
        fold_best_seen(av, entries, j + 1) == {
            let prev = fold_best_seen(av, entries, j);
            let e = entries[j];
            if e.name == av.name && e.version.len() > 0 && spec_compare(
                e.version,
                bar_of(prev, av.version),
            ) == Cmp::Greater {
                Some(e)
            } else {
                prev
            }
        },
{
}

/// The fold over the whole entry list equals the step-indexed fold at the end.
proof fn lemma_fold_complete(
    name: Seq<char>,
    local_v: Seq<char>,
    best: Option<EntryView>,
    entries: Seq<EntryView>,
    j: int,
)
    requires
        0 <= j <= entries.len(),
    ensures
        fold_best(name, local_v, best, entries) == fold_best(
            name,
            local_v,
            fold_best_upto(name, local_v, best, entries, j),
            entries.skip(j),
        ),
    decreases j,
{
    if j == 0 {
        assert(entries.skip(0) =~= entries);
    } else {
        lemma_fold_complete(name, local_v, best, entries, j - 1);
        let prev = fold_best_upto(name, local_v, best, entries, j - 1);
        let cur = fold_best_upto(name, local_v, best, entries, j);
        let rest = entries.skip(j - 1);
        assert(rest.len() > 0);
        assert(rest[0] == entries[j - 1]);
        assert(rest.skip(1) =~= entries.skip(j));
        assert(fold_best(name, local_v, prev, rest) == fold_best(
            name,
            local_v,
            cur,
            entries.skip(j),
        ));
    }
}

} // verus!
