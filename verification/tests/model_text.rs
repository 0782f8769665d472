//! Arrow and block spellings, loop headers, and the text helpers.

use rust2seq::example::{alpha_protocol, beta_protocol, User};
use rust2seq::text::{
    find_char_in, push_decimal, rfind_char_in, str_eq, strip_prefix_str, text_lt, trim_str,
    white_space,
};
use rust2seq::walker::{loop_header, LoopKind};
use rust2seq::{ArrowStyle, BlockKind};

#[test]
fn arrow_spellings_round_trip() {
    for s in [ArrowStyle::Solid, ArrowStyle::AsyncSolid, ArrowStyle::Dashed, ArrowStyle::AsyncDashed] {
        assert_eq!(ArrowStyle::parse(s.as_str()), Some(s));
    }
    assert_eq!(ArrowStyle::Solid.as_str(), "->");
    assert_eq!(ArrowStyle::AsyncSolid.as_str(), "->>");
    assert_eq!(ArrowStyle::Dashed.as_str(), "-->");
    assert_eq!(ArrowStyle::AsyncDashed.as_str(), "-->>");
    assert_eq!(ArrowStyle::parse("=>"), None);
    assert_eq!(ArrowStyle::parse(" -> "), None);
    assert_eq!(ArrowStyle::default(), ArrowStyle::Solid);
}

#[test]
fn block_keywords() {
    assert_eq!(BlockKind::Alt.keyword(), "alt");
    assert_eq!(BlockKind::Opt.keyword(), "opt");
    assert_eq!(BlockKind::Loop.keyword(), "loop");
}

#[test]
fn loop_headers() {
    assert_eq!(loop_header(LoopKind::Loop, &None), "loop");
    assert_eq!(loop_header(LoopKind::While, &None), "while");
    assert_eq!(loop_header(LoopKind::For, &Some("outer".to_string())), "for 'outer");
}

#[test]
fn text_helpers() {
    assert!(str_eq("abc", "abc"));
    assert!(!str_eq("abc", "abd"));
    assert_eq!(trim_str("\t a b \u{3000}\n"), "a b");
    assert_eq!(trim_str("   "), "");
    assert!(white_space('\u{a0}'));
    assert!(!white_space('x'));
    assert_eq!(find_char_in("a:b:c", ':'), Some(1));
    assert_eq!(rfind_char_in("a:b:c", ':'), Some(3));
    assert_eq!(find_char_in("abc", ':'), None);
    assert_eq!(rfind_char_in("→\"x", '"'), Some(1));
    assert_eq!(strip_prefix_str("prefix-rest", "prefix-"), Some("rest"));
    assert_eq!(strip_prefix_str("pre", "prefix"), None);
}

#[test]
fn text_order_is_lexicographic() {
    assert!(text_lt("alpha", "beta"));
    assert!(text_lt("ab", "abc"));
    assert!(!text_lt("abc", "ab"));
    assert!(!text_lt("same", "same"));
    assert!(text_lt("Z", "a"));
}

#[test]
fn decimals() {
    let mut s = String::from("n=");
    push_decimal(&mut s, 0);
    s.push(' ');
    push_decimal(&mut s, 3600);
    s.push(' ');
    push_decimal(&mut s, u64::MAX);
    assert_eq!(s, "n=0 3600 18446744073709551615");
}

#[test]
fn example_program_runs() {
    User::click_login_button();
    alpha_protocol::Frontend::start();
    beta_protocol::Frontend::start();
}
