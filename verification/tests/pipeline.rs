use update_check::LocalFoundApp;
use update_check::OnlineFoundApp;
use update_check::catalog::find_updates;
use update_check::inventory::app_name_from_dir;
use update_check::inventory::descriptor_version;
use update_check::inventory::make_local_app;
use update_check::resolve::compare_versions;
use update_check::text::string_of;
use update_check::version::Cmp;
use update_check::version::compare;

fn local(name: &str, version: &str) -> LocalFoundApp {
    LocalFoundApp {
        version: version.to_string(),
        name: name.to_string(),
        newest_online: None,
    }
}

fn entry(name: &str, version: &str, magnet: &str) -> OnlineFoundApp {
    OnlineFoundApp {
        version: version.to_string(),
        name: name.to_string(),
        magnet: magnet.to_string(),
    }
}

#[test]
fn comparison_is_total_and_antisymmetric() {
    let pairs = [
        ("1.2", "1.10"),
        ("24", "24.0"),
        ("", "1"),
        ("abc", "1"),
        ("2.0.1", "2.0.1"),
        ("x.y", "x.z"),
    ];
    for (a, b) in pairs.iter() {
        let ab = compare(a, b);
        let ba = compare(b, a);
        match ab {
            Cmp::Less => assert_eq!(ba, Cmp::Greater),
            Cmp::Equal => assert_eq!(ba, Cmp::Equal),
            Cmp::Greater => assert_eq!(ba, Cmp::Less),
        }
    }
}

#[test]
fn comparison_is_reflexive() {
    for v in ["", "24", "24.0.1", "beta", "1..2", "007"].iter() {
        assert_eq!(compare(v, v), Cmp::Equal);
    }
}

#[test]
fn padding_equivalence() {
    assert_eq!(compare("24", "24.0"), Cmp::Equal);
    assert_eq!(compare("24.1", "24"), Cmp::Greater);
}

#[test]
fn numeric_segments_compare_by_value() {
    assert_eq!(compare("1.2", "1.10"), Cmp::Less);
    assert_eq!(compare("007", "7"), Cmp::Equal);
    assert_eq!(compare("10", "9"), Cmp::Greater);
}

#[test]
fn malformed_compares_below_numeric() {
    assert_eq!(compare("", "1"), Cmp::Less);
    assert_eq!(compare("abc", "1"), Cmp::Less);
    assert_eq!(compare("", ""), Cmp::Equal);
    assert_eq!(compare("1.2.x", "1.2.y"), Cmp::Less);
}

#[test]
fn name_truncation_rule() {
    assert_eq!(app_name_from_dir("Photoshop2023"), Some("Photoshop".to_string()));
    assert_eq!(app_name_from_dir("Bridge"), None);
}

#[test]
fn name_truncation_trims_whitespace() {
    assert_eq!(app_name_from_dir("  Premiere Pro 2024"), Some("Premiere Pro".to_string()));
    assert_eq!(app_name_from_dir("2023"), Some("".to_string()));
}

#[test]
fn version_token_extraction() {
    let apps = vec![local("Photoshop", "24.0")];
    let raw = "Adobe Photoshop (v24.1) multilingual\n";
    let found = find_updates(&apps, raw);
    assert_eq!(found.len(), 1);
    assert_eq!(found[0].name, "Photoshop");
    assert_eq!(found[0].version, "24.1");
}

#[test]
fn version_absence_still_emits_entry() {
    let apps = vec![local("Photoshop", "24.0")];
    let found = find_updates(&apps, "Adobe Photoshop pack\n");
    assert_eq!(found.len(), 1);
    assert_eq!(found[0].version, "");
    assert_eq!(found[0].magnet, "");
}

#[test]
fn name_matches_are_case_insensitive_substrings() {
    let apps = vec![local("Reader", "1.0")];
    let found = find_updates(&apps, "ADOBE READER bundle\nSpreader utility\n");
    // Both lines match: substring matching knows no word boundaries.
    assert_eq!(found.len(), 2);
}

#[test]
fn locator_extraction() {
    let apps = vec![local("Photoshop", "24.0")];
    let raw = "Adobe Photoshop (v24.1)\nfiller line\n<a href=\"magnet:?xt=urn:btih:ABC123\">get</a>\n";
    let found = find_updates(&apps, raw);
    assert_eq!(found.len(), 1);
    assert_eq!(found[0].magnet, "magnet:?xt=urn:btih:ABC123");
}

#[test]
fn locator_scan_only_runs_forward() {
    let apps = vec![local("Photoshop", "24.0")];
    let raw = "<a href=\"magnet:?xt=urn:btih:EARLY\">x</a>\nAdobe Photoshop (v24.1)\n";
    let found = find_updates(&apps, raw);
    assert_eq!(found.len(), 1);
    assert_eq!(found[0].magnet, "");
}

#[test]
fn malformed_marker_line_is_skipped() {
    let apps = vec![local("Photoshop", "24.0")];
    let raw = "Adobe Photoshop (v24.1)\nhref=\"magnet:?broken no quote close\nhref=\"magnet:?xt=ok\" done\n";
    let found = find_updates(&apps, raw);
    assert_eq!(found.len(), 1);
    assert_eq!(found[0].magnet, "magnet:?xt=ok");
}

#[test]
fn resolver_max_and_tie_break() {
    let mut apps = vec![local("Photoshop", "24.0")];
    let online = vec![
        entry("Photoshop", "24.1", "m1"),
        entry("Photoshop", "24.3", "m2"),
        entry("Photoshop", "24.3", "m3"),
    ];
    compare_versions(&mut apps, online);
    let best = apps[0].newest_online.as_ref().expect("an update should win");
    assert_eq!(best.version, "24.3");
    assert_eq!(best.magnet, "m2");
}

#[test]
fn resolver_never_regresses() {
    let mut apps = vec![local("Photoshop", "24.5")];
    let online = vec![entry("Photoshop", "24.1", "m1"), entry("Photoshop", "24.0", "m2")];
    compare_versions(&mut apps, online);
    assert!(apps[0].newest_online.is_none());
}

#[test]
fn resolver_ignores_other_names_and_empty_versions() {
    let mut apps = vec![local("Photoshop", "24.0")];
    let online = vec![entry("Illustrator", "99.0", "m1"), entry("Photoshop", "", "m2")];
    compare_versions(&mut apps, online);
    assert!(apps[0].newest_online.is_none());
}

#[test]
fn empty_version_entry_never_wins_over_odd_local_version() {
    // "." splits into two empty segments and meets zero-segment padding, a
    // corner where the bare order would rank the empty version above it; the
    // resolver must still never select an entry without a version.
    let mut apps = vec![local("Photoshop", ".")];
    let online = vec![entry("Photoshop", "", "m0"), entry("Photoshop", ".0", "m1")];
    compare_versions(&mut apps, online);
    let best = apps[0].newest_online.as_ref().expect("the entry with a version wins");
    assert_eq!(best.version, ".0");
    assert_eq!(best.magnet, "m1");
    assert_eq!(compare("", "."), Cmp::Greater);
}

#[test]
fn empty_catalog_degrades_to_up_to_date() {
    let apps = vec![local("Photoshop", "24.0"), local("Acrobat", "23.0")];
    let found = find_updates(&apps, "");
    assert_eq!(found.len(), 0);
    let mut apps = apps;
    compare_versions(&mut apps, found);
    assert!(apps.iter().all(|a| a.newest_online.is_none()));
}

#[test]
fn end_to_end_scenario() {
    let mut apps = vec![local("Acrobat", "23.0")];
    let raw = "news\nAdobe Acrobat (v23.5) release\n<a href=\"magnet:?xt=urn:btih:DEF456\">dl</a>\n";
    let found = find_updates(&apps, raw);
    compare_versions(&mut apps, found);
    let best = apps[0].newest_online.as_ref().expect("update expected");
    assert_eq!(best.version, "23.5");
    assert_eq!(best.magnet, "magnet:?xt=urn:btih:DEF456");
}

#[test]
fn descriptor_version_extraction() {
    let xml = "<Application>\n  <Data value=\"{ACRO-23.0-64-bit}\"/>\n</Application>\n";
    assert_eq!(descriptor_version(xml), "23.0");
}

#[test]
fn descriptor_version_first_match_wins() {
    let xml = "v=\"{ACRO-23.0-64-a}\"\nv=\"{ACRO-24.0-64-b}\"\n";
    assert_eq!(descriptor_version(xml), "23.0");
}

#[test]
fn descriptor_without_token_yields_empty_version() {
    assert_eq!(descriptor_version("<Application></Application>"), "");
    assert_eq!(descriptor_version(""), "");
}

#[test]
fn make_local_app_combines_name_and_version() {
    let xml = "a=\"{PHSP-24.2-64-x}\"";
    let app = make_local_app("Photoshop 2024", xml).expect("named directory expected");
    assert_eq!(app.name, "Photoshop");
    assert_eq!(app.version, "24.2");
    assert!(app.newest_online.is_none());
    assert!(make_local_app("Bridge", xml).is_none());
}

#[test]
fn empty_app_name_matches_every_line() {
    // A directory named by a bare year yields the empty name, which occurs
    // in every line as a substring.
    let app = make_local_app("2023", "").expect("a name with a 2 is kept");
    assert_eq!(app.name, "");
    let found = find_updates(&vec![app], "one\ntwo\n");
    assert_eq!(found.len(), 2);
}

#[test]
fn non_ascii_text_is_handled_per_character() {
    let apps = vec![local("Photoshop", "24.0")];
    let raw = "Adobe Photoshop — édition (v24.9) ünïcode\n";
    let found = find_updates(&apps, raw);
    assert_eq!(found.len(), 1);
    assert_eq!(found[0].version, "24.9");
    assert_eq!(compare("24.9", "24.10"), Cmp::Less);
}

#[test]
fn string_of_builds_the_exact_string() {
    let chars = vec!['m', 'a', 'g', 'n', 'e', 't'];
    assert_eq!(string_of(&chars), "magnet");
}
