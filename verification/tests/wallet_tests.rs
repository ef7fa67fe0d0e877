use swm::paths::{display_path, file_stem, join_path};
use swm::text::{contains_chars, lines_of, split_chars, trim_chars};
use swm::wallet::{
    active_keypair_path, active_wallet, confirmation_accepted, id_wallet_file_name,
    is_active_name, is_wallet_file_name, next_active_after_removal, read_config_keypair,
    removal_precheck, rename_precheck, wallet_directory, wallet_file_name,
    wallet_label_for_path, wallet_names, wallet_path_in, ConfigKeypair, RemovalPrecheck,
    RenamePrecheck,
};

fn cv(s: &str) -> Vec<char> {
    s.chars().collect()
}

fn sv(v: &[char]) -> String {
    v.iter().collect()
}

fn svv(v: &[Vec<char>]) -> Vec<String> {
    v.iter().map(|w| sv(w)).collect()
}

const CONFIG: &str = "Config File: /home/u/.config/solana/cli/config.yml\n\
RPC URL: https://api.mainnet-beta.solana.com\n\
WebSocket URL: wss://api.mainnet-beta.solana.com/ (computed)\n\
Keypair Path: /home/u/.config/solana/id.json \n\
Commitment: confirmed\n";

#[test]
fn active_wallet_from_config_output() {
    let r = active_wallet(&cv(CONFIG));
    assert_eq!(r.map(|v| sv(&v)), Some(String::from("id")));
}

#[test]
fn active_keypair_path_from_config_output() {
    let r = active_keypair_path(&cv(CONFIG));
    assert_eq!(
        r.map(|v| sv(&v)),
        Some(String::from("/home/u/.config/solana/id.json"))
    );
}

#[test]
fn active_wallet_none_without_label() {
    let cfg = "RPC URL: https://api.mainnet-beta.solana.com\nCommitment: confirmed\n";
    assert_eq!(active_wallet(&cv(cfg)), None);
    assert_eq!(active_keypair_path(&cv(cfg)), None);
}

#[test]
fn active_wallet_none_without_colon() {
    // A line holding the label but no colon yields no second segment.
    let cfg = "Keypair Path\nCommitment confirmed\n";
    assert_eq!(active_keypair_path(&cv(cfg)), None);
    assert_eq!(active_wallet(&cv(cfg)), None);
}

#[test]
fn active_wallet_crlf_endings() {
    let cfg = "Config File: /a/cli.yml\r\nKeypair Path: /home/u/.config/solana/main.json\r\n";
    let r = active_wallet(&cv(cfg));
    assert_eq!(r.map(|v| sv(&v)), Some(String::from("main")));
}

#[test]
fn active_wallet_stops_at_second_colon() {
    // Only the text between the first and second colon is read.
    let cfg = "Keypair Path: /a:b/id.json\n";
    let r = active_keypair_path(&cv(cfg));
    assert_eq!(r.map(|v| sv(&v)), Some(String::from("/a")));
}

#[test]
fn active_wallet_first_matching_line_wins() {
    let cfg = "Keypair Path: /w/first.json\nKeypair Path: /w/second.json\n";
    let r = active_wallet(&cv(cfg));
    assert_eq!(r.map(|v| sv(&v)), Some(String::from("first")));
}

#[test]
fn wallet_names_filters_and_stems() {
    let entries = vec![
        cv("alice.json"),
        cv("notes.txt"),
        cv("bob.json"),
        cv(".json"),
        cv("x.y.json"),
    ];
    let names = wallet_names(&entries);
    assert_eq!(svv(&names), vec!["alice", "bob", "x.y"]);
}

#[test]
fn wallet_file_name_checks() {
    assert!(is_wallet_file_name(&cv("a.json")));
    assert!(is_wallet_file_name(&cv("a.b.json")));
    assert!(!is_wallet_file_name(&cv(".json")));
    assert!(!is_wallet_file_name(&cv("json")));
    assert!(!is_wallet_file_name(&cv("a.JSON")));
    assert!(!is_wallet_file_name(&cv("")));
}

#[test]
fn file_stem_cases() {
    let stem = |p: &str| file_stem(&cv(p)).map(|v| sv(&v));
    assert_eq!(stem("/home/u/.config/solana/id.json"), Some("id".into()));
    assert_eq!(stem("archive.tar.gz"), Some("archive.tar".into()));
    assert_eq!(stem(".bashrc"), Some(".bashrc".into()));
    assert_eq!(stem("name."), Some("name".into()));
    assert_eq!(stem("plain"), Some("plain".into()));
    assert_eq!(stem("dir/"), Some("dir".into()));
    assert_eq!(stem("/"), None);
    assert_eq!(stem(""), None);
    assert_eq!(stem("a/.."), None);
    assert_eq!(stem("a/b/."), None);
}

#[test]
fn display_path_abbreviates_home() {
    let shown = display_path(&cv("/home/u/.config/solana/w.json"), &cv("/home/u"));
    assert_eq!(sv(&shown), "~/.config/solana/w.json");
    let other = display_path(&cv("/tmp/w.json"), &cv("/home/u"));
    assert_eq!(sv(&other), "/tmp/w.json");
    let empty_home = display_path(&cv("/x"), &cv(""));
    assert_eq!(sv(&empty_home), "~/x");
}

#[test]
fn join_path_cases() {
    assert_eq!(sv(&join_path(&cv("/home/u"), &cv(".config"))), "/home/u/.config");
    assert_eq!(sv(&join_path(&cv("/home/u/"), &cv(".config"))), "/home/u/.config");
    assert_eq!(sv(&join_path(&cv(""), &cv("x"))), "x");
}

#[test]
fn wallet_path_built_from_name() {
    let p = wallet_path_in(&cv("/home/u/.config/solana"), &cv("bob"));
    assert_eq!(sv(&p), "/home/u/.config/solana/bob.json");
    assert_eq!(sv(&wallet_file_name(&cv("bob"))), "bob.json");
    assert_eq!(sv(&id_wallet_file_name()), "id.json");
}

#[test]
fn trim_removes_surrounding_whitespace() {
    assert_eq!(sv(&trim_chars(&cv("  x y \t\n"))), "x y");
    assert_eq!(sv(&trim_chars(&cv(" \t \n"))), "");
    assert_eq!(sv(&trim_chars(&cv("plain"))), "plain");
}

#[test]
fn split_keeps_empty_segments() {
    assert_eq!(svv(&split_chars(&cv("a:b:c"), ':')), vec!["a", "b", "c"]);
    assert_eq!(svv(&split_chars(&cv(""), ':')), vec![""]);
    assert_eq!(svv(&split_chars(&cv(":"), ':')), vec!["", ""]);
    assert_eq!(svv(&split_chars(&cv("a:"), ':')), vec!["a", ""]);
}

#[test]
fn lines_follow_line_endings() {
    assert_eq!(svv(&lines_of(&cv("a\r\nb\nc"))), vec!["a", "b", "c"]);
    assert_eq!(svv(&lines_of(&cv("a\nb\n"))), vec!["a", "b"]);
    assert_eq!(svv(&lines_of(&cv(""))), Vec::<String>::new());
    // A carriage return with no newline after it stays.
    assert_eq!(svv(&lines_of(&cv("x\r"))), vec!["x\r"]);
}

#[test]
fn contains_finds_runs() {
    assert!(contains_chars(&cv("Keypair Path: /x"), &cv("Keypair Path")));
    assert!(!contains_chars(&cv("Keypair"), &cv("Keypair Path")));
    assert!(contains_chars(&cv("abc"), &cv("")));
}

#[test]
fn confirmation_requires_exact_word() {
    assert!(confirmation_accepted(&cv("remove\n")));
    assert!(confirmation_accepted(&cv("  remove  ")));
    assert!(!confirmation_accepted(&cv("Remove\n")));
    assert!(!confirmation_accepted(&cv("removed\n")));
    assert!(!confirmation_accepted(&cv("")));
}

#[test]
fn next_active_prefers_id_file() {
    let names = vec![cv("alice"), cv("bob")];
    let r = next_active_after_removal(&names, &cv("alice"), true);
    assert_eq!(sv(&r), "id");
}

#[test]
fn next_active_takes_first_remaining() {
    let names = vec![cv("alice"), cv("bob"), cv("carol")];
    assert_eq!(sv(&next_active_after_removal(&names, &cv("bob"), false)), "alice");
    assert_eq!(sv(&next_active_after_removal(&names, &cv("alice"), false)), "bob");
}

#[test]
fn next_active_empty_when_none_remain() {
    let names = vec![cv("alice")];
    assert_eq!(sv(&next_active_after_removal(&names, &cv("alice"), false)), "");
    let none: Vec<Vec<char>> = Vec::new();
    assert_eq!(sv(&next_active_after_removal(&none, &cv("alice"), false)), "");
}

#[test]
fn removal_precheck_order() {
    assert_eq!(removal_precheck(false, 1), RemovalPrecheck::MissingWallet);
    assert_eq!(removal_precheck(true, 1), RemovalPrecheck::LastWallet);
    assert_eq!(removal_precheck(true, 2), RemovalPrecheck::Proceed);
    // A missing wallet is reported even when it would be the only one.
    assert_eq!(removal_precheck(false, 0), RemovalPrecheck::MissingWallet);
}

#[test]
fn rename_precheck_order() {
    assert_eq!(rename_precheck(false, false), RenamePrecheck::MissingWallet);
    assert_eq!(rename_precheck(false, true), RenamePrecheck::MissingWallet);
    assert_eq!(rename_precheck(true, true), RenamePrecheck::NameTaken);
    assert_eq!(rename_precheck(true, false), RenamePrecheck::Proceed);
}

#[test]
fn active_name_comparison() {
    assert!(is_active_name(&cv("bob"), &Some(cv("bob"))));
    assert!(!is_active_name(&cv("bob"), &Some(cv("alice"))));
    assert!(!is_active_name(&cv("bob"), &None));
}

#[test]
fn wallet_label_falls_back_to_path() {
    assert_eq!(sv(&wallet_label_for_path(&cv("/w/main.json"))), "main");
    assert_eq!(sv(&wallet_label_for_path(&cv("/"))), "/");
}

#[test]
fn built_path_parses_back() {
    // The path written for a wallet reads back as that wallet, both as a
    // bare path and through a configuration line.
    let dir = cv("/home/u/.config/solana");
    let name = cv("trader");
    let path = wallet_path_in(&dir, &name);
    assert_eq!(file_stem(&path).map(|v| sv(&v)), Some("trader".into()));
    let cfg = format!("Keypair Path: {}\n", sv(&path));
    assert_eq!(active_wallet(&cv(&cfg)).map(|v| sv(&v)), Some("trader".into()));
}

#[test]
fn config_keypair_tells_absences_apart() {
    assert_eq!(
        read_config_keypair(&cv("RPC URL: https://x\n")),
        ConfigKeypair::NoLabelLine
    );
    assert_eq!(
        read_config_keypair(&cv("Keypair Path\n")),
        ConfigKeypair::NoPathSegment
    );
    assert_eq!(
        read_config_keypair(&cv("Keypair Path: /w/main.json\n")),
        ConfigKeypair::Path(cv("/w/main.json"))
    );
}

#[test]
fn wallet_directory_ends_with_subdir() {
    // The home lookup depends on the environment; when it answers, the
    // wallet directory lies under it at the fixed place.
    if let Some(d) = wallet_directory() {
        let s = sv(&d);
        assert!(s.ends_with(".config/solana"));
    }
}
