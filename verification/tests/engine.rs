use filter_engine::FilterEngine;
use filter_engine::ParsingOptions;

#[test]
fn substring_rule_blocks() {
    let e = FilterEngine::new("-ads-.js");
    assert!(e.check("http://x.com/a-ads-.js", "", ""));
}

#[test]
fn exception_rule_overrides_block() {
    let e = FilterEngine::new("@@-ads-.js\n-ads-.js");
    assert!(!e.check("http://x.com/a-ads-.js", "", ""));
}

#[test]
fn third_party_option() {
    let e = FilterEngine::new("||tracker.com^$third-party");
    assert!(!e.check(
        "https://tracker.com/p",
        "https://tracker.com/page",
        ""
    ));
    assert!(e.check("https://tracker.com/p", "https://site.com/page", ""));
}

#[test]
fn empty_list_matches_nothing() {
    let e = FilterEngine::new("");
    assert!(!e.check("https://any.com/x", "https://src.com/", "script"));
    assert!(!e.check("", "", ""));
}

#[test]
fn domain_anchor_matches_host_and_subdomains() {
    let e = FilterEngine::new("||example.com^");
    assert!(e.check("https://example.com/x", "", ""));
    assert!(e.check("https://sub.example.com/x", "", ""));
    assert!(!e.check("https://notexample.com/x", "", ""));
}

#[test]
fn resource_type_restriction() {
    let e = FilterEngine::new("||ads.com^$script");
    assert!(e.check("https://ads.com/lib.js", "", "script"));
    assert!(!e.check("https://ads.com/lib.js", "", "image"));
}

#[test]
fn same_list_same_verdicts() {
    let list = "||a.com^$script\n@@||a.com/ok^\n-track-";
    let e1 = FilterEngine::new(list);
    let e2 = FilterEngine::new(list);
    let cases = [
        ("https://a.com/x.js", "https://p.com/", "script"),
        ("https://a.com/ok/x.js", "https://p.com/", "script"),
        ("https://b.com/-track-.gif", "https://p.com/", "image"),
        ("https://clean.com/", "", ""),
    ];
    for (u, s, t) in cases {
        assert_eq!(e1.check(u, s, t), e2.check(u, s, t));
    }
}

#[test]
fn exception_alone_blocks_nothing() {
    let e = FilterEngine::new("@@ads");
    assert!(!e.check("http://x.com/ads", "", ""));
}

#[test]
fn start_anchor() {
    let e = FilterEngine::new("|http://x.com");
    assert!(e.check("http://x.com/a", "", ""));
    assert!(!e.check("https://evil.com/?u=http://x.com", "", ""));
}

#[test]
fn end_anchor() {
    let e = FilterEngine::new(".swf|");
    assert!(e.check("http://x.com/movie.swf", "", ""));
    assert!(!e.check("http://x.com/movie.swf?autoplay=1", "", ""));
}

#[test]
fn wildcard_in_pattern() {
    let e = FilterEngine::new("ad*banner");
    assert!(e.check("http://s.com/ad123banner", "", ""));
    assert!(e.check("http://s.com/adbanner", "", ""));
    assert!(!e.check("http://s.com/banner-ad", "", ""));
}

#[test]
fn separator_matches_end_of_url() {
    let e = FilterEngine::new("||x.com^");
    assert!(e.check("https://x.com", "", ""));
    assert!(e.check("https://x.com/", "", ""));
}

#[test]
fn comments_and_blank_lines_are_skipped() {
    let e = FilterEngine::new("! a comment\n[Adblock Plus 2.0]\n\n-ads-.js");
    assert!(e.check("http://x.com/a-ads-.js", "", ""));
    assert!(!e.check("http://clean.com/x", "", ""));
}

#[test]
fn unknown_option_rejects_whole_rule() {
    let e = FilterEngine::new("ads$badoption");
    assert!(!e.check("http://x.com/ads", "", ""));
}

#[test]
fn cosmetic_lines_are_skipped() {
    let e = FilterEngine::new("x.com##.banner\n-ads-");
    assert!(!e.check("http://x.com/banner", "", ""));
    assert!(e.check("http://x.com/-ads-", "", ""));
}

#[test]
fn domain_constraint_positive() {
    let e = FilterEngine::new("banner$domain=good.com");
    assert!(e.check("http://ads.com/banner", "https://good.com/p", ""));
    assert!(e.check("http://ads.com/banner", "https://sub.good.com/p", ""));
    assert!(!e.check("http://ads.com/banner", "https://bad.com/p", ""));
    assert!(!e.check("http://ads.com/banner", "", ""));
}

#[test]
fn domain_constraint_negative_only() {
    let e = FilterEngine::new("banner$domain=~blocked.com");
    assert!(e.check("http://ads.com/banner", "https://any.com/p", ""));
    assert!(!e.check("http://ads.com/banner", "https://blocked.com/p", ""));
}

#[test]
fn first_party_option() {
    let e = FilterEngine::new("||cdn.com^$first-party");
    assert!(e.check("https://cdn.com/x", "https://cdn.com/y", ""));
    assert!(e.check("https://static.cdn.com/x", "https://www.cdn.com/y", ""));
    assert!(!e.check("https://cdn.com/x", "https://other.com/y", ""));
}

#[test]
fn xmlhttprequest_tag() {
    let e = FilterEngine::new("api$xmlhttprequest");
    assert!(e.check("https://t.com/api", "", "xmlhttprequest"));
    assert!(!e.check("https://t.com/api", "", "script"));
}

#[test]
fn short_pattern_goes_to_fallback_and_still_matches() {
    let e = FilterEngine::new("ab");
    assert!(e.check("http://q.com/ab", "", ""));
    assert!(!e.check("http://q.com/cd", "", ""));
}

#[test]
fn lone_wildcard_matches_everything() {
    let e = FilterEngine::new("*");
    assert!(e.check("https://whatever.com/anything", "", ""));
}

#[test]
fn allow_list_mode_inverts_default() {
    let opts = ParsingOptions {
        treat_as_exception_default: true,
    };
    let e = FilterEngine::new_with_options("ads", opts);
    assert!(!e.check("http://x.com/ads", "", ""));
}

#[test]
fn owned_string_entry_point() {
    let e = FilterEngine::new("||tracker.com^$third-party");
    assert!(e.check_network_urls_matched(
        String::from("https://tracker.com/p"),
        String::from("https://site.com/page"),
        String::from("script")
    ));
    assert!(!e.check_network_urls_matched(
        String::from("https://tracker.com/p"),
        String::from("https://tracker.com/page"),
        String::from("script")
    ));
}

#[test]
fn whitespace_is_trimmed() {
    let e = FilterEngine::new("  -ads-.js \r\n");
    assert!(e.check("http://x.com/a-ads-.js", "", ""));
}

#[test]
fn duplicate_rules_do_not_change_the_verdict() {
    let e = FilterEngine::new("-ads-.js\n-ads-.js");
    assert!(e.check("http://x.com/a-ads-.js", "", ""));
}

#[test]
fn url_without_scheme_fails_domain_anchor() {
    let e = FilterEngine::new("||example.com^");
    assert!(!e.check("example.com/x", "", ""));
}
