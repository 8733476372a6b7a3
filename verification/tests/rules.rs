use sim_estate::rules::{check_contract, contains_text, RepoFile};

fn file(path: &str, rust: bool, manifest: bool, in_crates: bool, text: &str) -> RepoFile {
    RepoFile {
        path: path.into(),
        rust,
        manifest,
        in_crates,
        text: Ok(text.into()),
    }
}

#[test]
fn text_search_finds_parts() {
    assert!(contains_text("use std::fs;", "std::fs"));
    assert!(contains_text("abc", ""));
    assert!(!contains_text("ab", "abc"));
    assert!(!contains_text("std::f", "std::fs"));
}

#[test]
fn a_clean_repository_holds_the_contract() {
    let files = vec![
        file("crates/a/src/lib.rs", true, false, true, "fn a() {}\n"),
        file(
            "crates/a/Cargo.toml",
            false,
            true,
            true,
            "[package]\nname = \"a\"\nsim-pure = true\n",
        ),
        file("xtask/Cargo.toml", false, true, false, "[package]\nname = \"xtask\"\n"),
        file("Cargo.toml", false, true, false, "[workspace]\n"),
    ];
    assert_eq!(check_contract(&files), Ok(()));
}

#[test]
fn long_sources_are_refused_with_their_length() {
    let text = "x\n".repeat(501);
    let files = vec![file("src/big.rs", true, false, false, &text)];
    assert_eq!(
        check_contract(&files),
        Err("src/big.rs has 501 lines (limit 500)".into())
    );
    let exactly = "x\n".repeat(499) + "x";
    assert_eq!(check_contract(&[file("src/ok.rs", true, false, false, &exactly)].into()), Ok(()));
}

#[test]
fn manifests_must_say_whether_they_are_pure() {
    let files = vec![file("crates/a/Cargo.toml", false, true, true, "[package]\nname = \"a\"\n")];
    assert_eq!(
        check_contract(&files),
        Err("crates/a/Cargo.toml is missing sim-pure = true".into())
    );
}

#[test]
fn site_crates_hold_no_host_facts() {
    let files = vec![
        file("other/x.rs", true, false, false, "use std::process;"),
        file("crates/a/src/lib.rs", true, false, true, "cfg_attr and std::env"),
    ];
    assert_eq!(
        check_contract(&files),
        Err("OS_5: crates/a/src/lib.rs contains std::env".into())
    );
}

#[test]
fn unreadable_files_fail_where_they_are_read() {
    let unreadable = RepoFile {
        path: "crates/a/src/lib.rs".into(),
        rust: true,
        manifest: false,
        in_crates: true,
        text: Err("stream did not contain valid UTF-8".into()),
    };
    assert_eq!(
        check_contract(&vec![unreadable]),
        Err("stream did not contain valid UTF-8".into())
    );
    let skipped = RepoFile {
        path: "crates/a/data.bin".into(),
        rust: false,
        manifest: false,
        in_crates: true,
        text: Err("not text".into()),
    };
    assert_eq!(check_contract(&vec![skipped]), Ok(()));
}
