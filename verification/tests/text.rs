use rtk_discover::command::{
    extract_subcmd, is_already_rtk, split_status_key, status_key, truncate_command,
};
use rtk_discover::rules::RtkStatus;
use rtk_discover::text::{
    characters, decimal_text, is_text_less, is_white_space, leading_words, same_text, starts_with,
    trim,
};

#[test]
fn white_space_is_that_of_the_standard_library() {
    for code in 0..=0x10FFFFu32 {
        if let Some(c) = char::from_u32(code) {
            assert_eq!(is_white_space(c), c.is_whitespace(), "{:x}", code);
        }
    }
}

const TEXTS: [&str; 16] = [
    "",
    " ",
    "\u{3000}\t",
    "git",
    " git ",
    "git status",
    "git  status",
    "git\tstatus -s",
    "\n git status\u{85}-s x ",
    "a b c d",
    "rtk proxy ls",
    "rtk ",
    "h\u{e9}llo w\u{f6}rld \u{1F600} x",
    "a\u{a0}b",
    ":a: b",
    "  x",
];

#[test]
fn trim_is_that_of_the_standard_library() {
    for t in TEXTS {
        assert_eq!(trim(t), t.trim());
    }
}

#[test]
fn leading_words_are_those_between_white_space() {
    for t in TEXTS {
        let mut words = t.split_whitespace();
        let (first, second) = leading_words(t.trim());
        assert_eq!(first, words.next().unwrap_or(""));
        assert_eq!(second, words.next());
    }
    assert_eq!(leading_words(" a b"), ("", Some("a")));
    assert_eq!(leading_words("a "), ("a", None));
}

#[test]
fn prefixes_and_order_are_those_of_the_standard_library() {
    for a in TEXTS {
        assert_eq!(characters(a), a.chars().collect::<Vec<char>>());
        for b in TEXTS {
            assert_eq!(starts_with(a, b), a.starts_with(b));
            assert_eq!(is_text_less(a, b), a < b);
            assert_eq!(same_text(a, b), a == b);
        }
    }
    assert!(is_text_less("\u{FFFD}", "\u{1F600}"));
    assert!(!is_text_less("b", "ab"));
    assert!(is_text_less("a", "ab"));
}

#[test]
fn decimals() {
    assert_eq!(decimal_text(0), "0");
    assert_eq!(decimal_text(9), "9");
    assert_eq!(decimal_text(10), "10");
    assert_eq!(decimal_text(1234567890), "1234567890");
    assert_eq!(decimal_text(usize::MAX), usize::MAX.to_string());
}

#[test]
fn subcommand_is_the_second_word() {
    assert_eq!(extract_subcmd("git status -s"), "status");
    assert_eq!(extract_subcmd("  git\tlog  "), "log");
    assert_eq!(extract_subcmd("ls"), "");
    assert_eq!(extract_subcmd(""), "");
    assert_eq!(extract_subcmd("   "), "");
    assert_eq!(extract_subcmd("git  status"), "status");
    assert_eq!(extract_subcmd("\tgit \u{3000}\n status\u{85} -s"), "status");
}

#[test]
fn command_is_shown_by_its_first_two_words() {
    assert_eq!(truncate_command("git status -s --long"), "git status");
    assert_eq!(truncate_command("git\tstatus"), "git status");
    assert_eq!(truncate_command("ls"), "ls");
    assert_eq!(truncate_command(""), "");
    assert_eq!(truncate_command("  ls  "), "ls");
    assert_eq!(truncate_command("git  status"), "git status");
    assert_eq!(truncate_command("  cargo   test "), "cargo test");
}

#[test]
fn padding_changes_nothing() {
    for t in TEXTS {
        let padded = format!("\u{2003}\n {}\t \u{85}", t);
        assert_eq!(is_already_rtk(&padded), is_already_rtk(t));
        assert_eq!(extract_subcmd(&padded), extract_subcmd(t));
        assert_eq!(truncate_command(&padded), truncate_command(t));
    }
}

#[test]
fn rtk_counts_only_with_something_to_run() {
    assert!(is_already_rtk("rtk ls"));
    assert!(is_already_rtk("  rtk git status"));
    assert!(!is_already_rtk("rtk"));
    assert!(!is_already_rtk("rtk "));
    assert!(!is_already_rtk("rtkx ls"));
    assert!(!is_already_rtk("rtk proxy"));
    assert!(!is_already_rtk("rtk proxyless"));
    assert!(is_already_rtk("rtk prox"));
    assert!(!is_already_rtk(""));
}

#[test]
fn keys_are_read_back() {
    let statuses = [RtkStatus::Existing, RtkStatus::Passthrough, RtkStatus::NotSupported];
    for status in statuses {
        for t in TEXTS {
            let key = status_key(t, status);
            assert_eq!(key, format!("{}:{:?}", t, status));
            assert_eq!(split_status_key(&key), (t.to_string(), status));
        }
    }
}

#[test]
fn foreign_keys_are_read_as_existing() {
    assert_eq!(split_status_key("git status"), ("git status".to_string(), RtkStatus::Existing));
    assert_eq!(split_status_key("a:b"), ("a".to_string(), RtkStatus::Existing));
    assert_eq!(split_status_key("a:"), ("a".to_string(), RtkStatus::Existing));
    assert_eq!(split_status_key(""), ("".to_string(), RtkStatus::Existing));
    assert_eq!(
        split_status_key("a:Passthrough:NotSupported"),
        ("a:Passthrough".to_string(), RtkStatus::NotSupported)
    );
}
