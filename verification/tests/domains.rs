use dnsresolvr::domains::{dedup_preserve, default_domains, is_listed, parse_domains};

fn strings(v: &[&str]) -> Vec<String> {
    v.iter().map(|s| s.to_string()).collect()
}

#[test]
fn the_default_list_covers_games_chat_video_and_the_web() {
    let list = default_domains();
    assert_eq!(list.len(), 12);
    for name in [
        "steampowered.com", "battle.net", "leagueoflegends.com", "epicgames.com", "discord.com", "youtube.com",
        "google.com", "cloudflare.com", "github.com", "wikipedia.org", "netflix.com", "amazon.com",
    ] {
        assert!(list.iter().any(|d| d == name), "{}", name);
    }
    assert_eq!(dedup_preserve(default_domains()), default_domains());
}

#[test]
fn blank_lines_and_comments_are_skipped() {
    let raw = "\n# games\n  example.com \r\n\r\n\tfoo.bar\n#x\nlast.org";
    assert_eq!(parse_domains(raw), strings(&["example.com", "foo.bar", "last.org"]));
    assert_eq!(parse_domains(""), Vec::<String>::new());
    assert_eq!(parse_domains("# only\n  # comments\n"), Vec::<String>::new());
    assert_eq!(parse_domains("a#b"), strings(&["a#b"]));
}

#[test]
fn repeats_go_and_first_spellings_stay() {
    let v = strings(&["A.com", "b.com", "a.COM", "B.com", "c.com", "A.com"]);
    let once = dedup_preserve(v);
    assert_eq!(once, strings(&["A.com", "b.com", "c.com"]));
    assert_eq!(dedup_preserve(once.clone()), once);
    assert_eq!(dedup_preserve(Vec::new()), Vec::<String>::new());
}

#[test]
fn listing_ignores_case() {
    let v = strings(&["Example.com"]);
    assert!(is_listed(&v, "example.COM"));
    assert!(!is_listed(&v, "example.org"));
}
