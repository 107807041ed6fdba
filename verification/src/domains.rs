//! Default test domains, and helpers for merging user-supplied lists.

use vstd::prelude::*;

use crate::text::{
    chars_of, is_space, law_trim_takes_white_space_off, lower, same_ignoring_case, string_of, texts, trim, trimmed,
};

verus! {

broadcast use vstd::string::group_string_axioms;

/// The domains queried unless the user overrides the list: game launchers, chat, streaming and
/// large sites.
pub open spec fn default_domain_names() -> Seq<Seq<char>> {
    seq![
        "steampowered.com"@,
        "battle.net"@,
        "leagueoflegends.com"@,
        "epicgames.com"@,
        "discord.com"@,
        "youtube.com"@,
        "google.com"@,
        "cloudflare.com"@,
        "github.com"@,
        "wikipedia.org"@,
        "netflix.com"@,
        "amazon.com"@,
    ]
}

/// The default list.
pub fn default_domains() -> (r: Vec<String>)
    ensures
        texts(r@) == default_domain_names(),
{
    let mut r: Vec<String> = Vec::new();
    r.push("steampowered.com".to_owned());
    r.push("battle.net".to_owned());
    r.push("leagueoflegends.com".to_owned());
    r.push("epicgames.com".to_owned());
    r.push("discord.com".to_owned());
    r.push("youtube.com".to_owned());
    r.push("google.com".to_owned());
    r.push("cloudflare.com".to_owned());
    r.push("github.com".to_owned());
    r.push("wikipedia.org".to_owned());
    r.push("netflix.com".to_owned());
    r.push("amazon.com".to_owned());
    assert(texts(r@) =~= default_domain_names());
    r
}

/// The length of the first line of `s`, its line feed not counted.
pub open spec fn line_len(s: Seq<char>) -> nat
    decreases s.len(),
{
    if s.len() > 0 && s[0] != '\n' {
        1 + line_len(s.drop_first())
    } else {
        0
    }
}

/// A line that names a domain: neither blank nor a comment.
pub open spec fn names_domain(line: Seq<char>) -> bool {
    line.len() > 0 && line[0] != '#'
}

/// The domains that the text of a domain file lists, one to a line.
pub open spec fn listed_domains(s: Seq<char>) -> Seq<Seq<char>>
    decreases s.len(),
{
    if s.len() == 0 {
        Seq::empty()
    } else {
        let n = line_len(s);
        let line = trim(s.take(n as int));
        let rest = if n < s.len() {
            listed_domains(s.skip(n as int + 1))
        } else {
            Seq::empty()
        };
        if names_domain(line) {
            seq![line] + rest
        } else {
            rest
        }
    }
}

proof fn lemma_line_len(s: Seq<char>)
    ensures
        line_len(s) <= s.len(),
        forall|i: int| 0 <= i < line_len(s) ==> #[trigger] s[i] != '\n',
        line_len(s) < s.len() ==> s[line_len(s) as int] == '\n',
    decreases s.len(),
{
    if s.len() > 0 && s[0] != '\n' {
        let t = s.drop_first();
        lemma_line_len(t);
        assert forall|i: int| 0 <= i < line_len(s) implies #[trigger] s[i] != '\n' by {
            if i > 0 {
                assert(s[i] == t[i - 1]);
            }
        }
    }
}

/// Read the text of a newline-delimited domain file. Blank lines and `#` comments are ignored.
pub fn parse_domains(raw: &str) -> (r: Vec<String>)
    ensures
        texts(r@) == listed_domains(raw@),
{
    let v = chars_of(raw);
    let mut r: Vec<String> = Vec::new();
    let mut i: usize = 0;
    assert(v@.skip(0) == v@);
    assert(texts(r@) + listed_domains(v@) == listed_domains(v@));
    while i < v.len()
        invariant
            i <= v.len(),
            v@ == raw@,
            texts(r@) + listed_domains(v@.skip(i as int)) == listed_domains(v@),
        decreases v.len() - i,
    {
        let ghost rest = v@.skip(i as int);
        let mut j: usize = i;
        proof {
            lemma_line_len(rest);
        }
        while j < v.len() && v[j] != '\n'
            invariant
                i <= j <= v.len(),
                rest == v@.skip(i as int),
                j - i <= line_len(rest),
                line_len(rest) <= rest.len(),
                line_len(rest) < rest.len() ==> rest[line_len(rest) as int] == '\n',
                forall|k: int| 0 <= k < line_len(rest) ==> #[trigger] rest[k] != '\n',
            decreases v.len() - j,
        {
            assert(v@[j as int] == rest[j - i]);
            j = j + 1;
        }
        assert(j - i == line_len(rest)) by {
            if j - i < line_len(rest) {
                assert(v@[j as int] == rest[j - i]);
            }
        }
        let line = trimmed(&v, i, j);
        let ghost before = texts(r@);
        let next: usize = if j < v.len() {
            j + 1
        } else {
            j
        };
        let ghost tail = listed_domains(v@.skip(next as int));
        proof {
            assert(v@.subrange(i as int, j as int) == rest.take(j - i));
            if j < v.len() {
                assert(v@.skip(next as int) == rest.skip(j - i + 1));
            } else {
                assert(v@.skip(next as int).len() == 0);
            }
        }
        if line.len() > 0 && line[0] != '#' {
            r.push(string_of(&line));
            proof {
                assert(texts(r@) == before.push(line@));
                assert(before + (seq![line@] + tail) == texts(r@) + tail);
            }
        }
        i = next;
    }
    assert(v@.skip(v.len() as int).len() == 0);
    assert(texts(r@) + listed_domains(v@.skip(v.len() as int)) == texts(r@));
    r
}

/// `name` occurs in `s`, whatever the case of its letters.
pub open spec fn listed(s: Seq<Seq<char>>, name: Seq<char>) -> bool {
    exists|i: int| 0 <= i < s.len() && lower(#[trigger] s[i]) == lower(name)
}

/// The names of `s`, each where it is first seen, whatever the case of its letters.
pub open spec fn deduplicated(s: Seq<Seq<char>>) -> Seq<Seq<char>>
    decreases s.len(),
{
    if s.len() == 0 {
        s
    } else {
        let front = s.drop_last();
        if listed(front, s.last()) {
            deduplicated(front)
        } else {
            deduplicated(front).push(s.last())
        }
    }
}

/// Whether `name` is in `list`, whatever the case of its letters.
pub fn is_listed(list: &Vec<String>, name: &str) -> (r: bool)
    ensures
        r == listed(texts(list@), name@),
{
    let mut i: usize = 0;
    let ghost all = texts(list@);
    while i < list.len()
        invariant
            i <= list.len(),
            all == texts(list@),
            forall|j: int| 0 <= j < i ==> lower(#[trigger] all[j]) != lower(name@),
        decreases list.len() - i,
    {
        if same_ignoring_case(list[i].as_str(), name) {
            assert(lower(all[i as int]) == lower(name@));
            return true;
        }
        i = i + 1;
    }
    false
}

/// Deduplication loses no name.
pub proof fn law_dedup_keeps_every_name(s: Seq<Seq<char>>, name: Seq<char>)
    ensures
        listed(deduplicated(s), name) == listed(s, name),
    decreases s.len(),
{
    if s.len() > 0 {
        let front = s.drop_last();
        let d = deduplicated(front);
        law_dedup_keeps_every_name(front, name);
        law_dedup_keeps_every_name(front, s.last());
        if listed(s, name) {
            let i = choose|i: int| 0 <= i < s.len() && lower(#[trigger] s[i]) == lower(name);
            if i < front.len() {
                assert(lower(front[i]) == lower(name));
                let j = choose|j: int| 0 <= j < d.len() && lower(#[trigger] d[j]) == lower(name);
                assert(deduplicated(s)[j] == d[j]);
            } else if listed(front, s.last()) {
                let k = choose|k: int| 0 <= k < d.len() && lower(#[trigger] d[k]) == lower(s.last());
                assert(lower(d[k]) == lower(name));
            } else {
                assert(deduplicated(s)[d.len() as int] == s.last());
            }
        }
        if listed(deduplicated(s), name) {
            let j = choose|j: int| 0 <= j < deduplicated(s).len() && lower(#[trigger] deduplicated(s)[j]) == lower(name);
            if j < d.len() {
                assert(d[j] == deduplicated(s)[j]);
                assert(listed(d, name));
                let i = choose|i: int| 0 <= i < front.len() && lower(#[trigger] front[i]) == lower(name);
                assert(s[i] == front[i]);
            } else {
                assert(lower(s[s.len() - 1]) == lower(name));
            }
        }
    }
}

/// De-duplicate while preserving first-seen order.
pub fn dedup_preserve(items: Vec<String>) -> (r: Vec<String>)
    ensures
        texts(r@) == deduplicated(texts(items@)),
{
    let mut r: Vec<String> = Vec::new();
    let mut i: usize = 0;
    let ghost all = texts(items@);
    assert(texts(r@) == all.take(0));
    while i < items.len()
        invariant
            i <= items.len(),
            all == texts(items@),
            texts(r@) == deduplicated(all.take(i as int)),
        decreases items.len() - i,
    {
        let ghost longer = all.take(i + 1);
        let ghost before = texts(r@);
        proof {
            assert(longer.drop_last() == all.take(i as int));
            law_dedup_keeps_every_name(all.take(i as int), all[i as int]);
        }
        if !is_listed(&r, items[i].as_str()) {
            r.push(items[i].clone());
            assert(texts(r@) == before.push(all[i as int]));
        }
        i = i + 1;
    }
    assert(all.take(items.len() as int) == all);
    r
}

/// No name is left twice, whatever the case of its letters.
pub proof fn law_dedup_leaves_no_repeats(s: Seq<Seq<char>>)
    ensures
        forall|i: int, j: int|
            0 <= i < j < deduplicated(s).len() ==> lower(#[trigger] deduplicated(s)[i]) != lower(
                #[trigger] deduplicated(s)[j],
            ),
    decreases s.len(),
{
    if s.len() > 0 {
        let front = s.drop_last();
        let d = deduplicated(front);
        law_dedup_leaves_no_repeats(front);
        law_dedup_keeps_every_name(front, s.last());
        if !listed(front, s.last()) {
            assert forall|i: int, j: int| 0 <= i < j < deduplicated(s).len() implies lower(
                #[trigger] deduplicated(s)[i],
            ) != lower(#[trigger] deduplicated(s)[j]) by {
                assert(deduplicated(s)[i] == d[i]);
                if j < d.len() {
                    assert(deduplicated(s)[j] == d[j]);
                }
            }
        }
    }
}

/// A list without repeats is left as it is; so deduplicating twice is deduplicating once.
pub proof fn law_dedup_idempotent(s: Seq<Seq<char>>)
    ensures
        deduplicated(deduplicated(s)) == deduplicated(s),
{
    law_dedup_leaves_no_repeats(s);
    lemma_dedup_fixed(deduplicated(s));
}

proof fn lemma_dedup_fixed(s: Seq<Seq<char>>)
    requires
        forall|i: int, j: int| 0 <= i < j < s.len() ==> lower(#[trigger] s[i]) != lower(#[trigger] s[j]),
    ensures
        deduplicated(s) == s,
    decreases s.len(),
{
    if s.len() > 0 {
        let front = s.drop_last();
        assert forall|i: int, j: int| 0 <= i < j < front.len() implies lower(#[trigger] front[i]) != lower(
            #[trigger] front[j],
        ) by {
            assert(front[i] == s[i] && front[j] == s[j]);
        }
        lemma_dedup_fixed(front);
        assert(!listed(front, s.last())) by {
            if listed(front, s.last()) {
                let i = choose|i: int| 0 <= i < front.len() && lower(#[trigger] front[i]) == lower(s.last());
                assert(s[i] == front[i]);
                assert(s[s.len() - 1] == s.last());
            }
        }
        assert(front.push(s.last()) == s);
    }
}

/// The places in `s` of the names that deduplication keeps.
pub open spec fn first_seen(s: Seq<Seq<char>>) -> Seq<int>
    decreases s.len(),
{
    if s.len() == 0 {
        Seq::empty()
    } else if listed(s.drop_last(), s.last()) {
        first_seen(s.drop_last())
    } else {
        first_seen(s.drop_last()).push(s.len() - 1)
    }
}

/// Deduplication keeps the first-seen order: the names that stay are the first of their kind, and
/// they stand in the order in which they stood.
pub proof fn law_dedup_keeps_first_seen_order(s: Seq<Seq<char>>)
    ensures
        first_seen(s).len() == deduplicated(s).len(),
        forall|k: int| 0 <= k < first_seen(s).len() ==> 0 <= #[trigger] first_seen(s)[k] < s.len(),
        forall|k: int| 0 <= k < first_seen(s).len() ==> deduplicated(s)[k] == s[#[trigger] first_seen(s)[k]],
        forall|j: int, k: int| 0 <= j < k < first_seen(s).len() ==> first_seen(s)[j] < first_seen(s)[k],
        forall|k: int, i: int|
            0 <= k < first_seen(s).len() && 0 <= i < first_seen(s)[k] ==> lower(#[trigger] s[i]) != lower(
                s[#[trigger] first_seen(s)[k]],
            ),
    decreases s.len(),
{
    if s.len() > 0 {
        let front = s.drop_last();
        law_dedup_keeps_first_seen_order(front);
        let f = first_seen(front);
        assert forall|k: int| 0 <= k < f.len() implies s[#[trigger] f[k]] == front[f[k]] by {}
        if !listed(front, s.last()) {
            let g = first_seen(s);
            assert forall|k: int, i: int| 0 <= k < g.len() && 0 <= i < g[k] implies lower(#[trigger] s[i]) != lower(
                s[#[trigger] g[k]],
            ) by {
                assert(s[i] == front[i]);
                if k < f.len() {
                    assert(g[k] == f[k]);
                    assert(lower(front[i]) != lower(front[f[k]]));
                }
            }
        } else {
            assert forall|k: int, i: int| 0 <= k < f.len() && 0 <= i < f[k] implies lower(#[trigger] s[i]) != lower(
                s[#[trigger] f[k]],
            ) by {
                assert(s[i] == front[i]);
                assert(lower(front[i]) != lower(front[f[k]]));
            }
        }
    }
}

/// A domain file is read line by line: what stands before a line feed and what stands behind it are
/// read each on their own.
pub proof fn law_files_are_read_by_lines(a: Seq<char>, b: Seq<char>)
    ensures
        listed_domains(a + seq!['\n'] + b) == listed_domains(a) + listed_domains(b),
    decreases a.len(),
{
    let all = a + seq!['\n'] + b;
    lemma_line_len(a);
    lemma_line_len(all);
    let n = line_len(a);
    assert(line_len(all) == n) by {
        if line_len(all) < n {
            assert(all[line_len(all) as int] == a[line_len(all) as int]);
        } else if line_len(all) > n {
            if n < a.len() {
                assert(all[n as int] == a[n as int]);
            } else {
                assert(all[n as int] == '\n');
            }
        }
    }
    assert(all.take(n as int) =~= a.take(n as int));
    if n < a.len() {
        let rest = a.skip(n as int + 1);
        law_files_are_read_by_lines(rest, b);
        assert(all.skip(n as int + 1) =~= rest + seq!['\n'] + b);
        assert(listed_domains(all) =~= listed_domains(a) + listed_domains(b));
    } else {
        assert(all.skip(n as int + 1) =~= b);
        if a.len() == 0 {
            let line = trim(all.take(0));
            assert(all.take(0) =~= Seq::empty());
            assert(line.len() == 0) by {
                law_trim_takes_white_space_off(all.take(0));
            }
            assert(listed_domains(all) =~= listed_domains(a) + listed_domains(b));
        } else {
            assert(listed_domains(all) =~= listed_domains(a) + listed_domains(b));
        }
    }
}

/// A line lists the domain that it holds without the white space around it. A line of white space
/// alone, and one whose first character behind white space is a hash, lists none.
pub proof fn law_lines_list_domains(line: Seq<char>, before: Seq<char>, name: Seq<char>, after: Seq<char>)
    requires
        line == before + name + after,
        forall|i: int| 0 <= i < line.len() ==> #[trigger] line[i] != '\n',
        forall|i: int| 0 <= i < before.len() ==> is_space(#[trigger] before[i]),
        forall|i: int| 0 <= i < after.len() ==> is_space(#[trigger] after[i]),
        name.len() > 0 ==> !is_space(name[0]) && !is_space(name.last()),
    ensures
        name.len() > 0 && name[0] != '#' ==> listed_domains(line) == seq![name],
        name.len() == 0 || name[0] == '#' ==> listed_domains(line).len() == 0,
{
    lemma_line_len(line);
    assert(line_len(line) == line.len()) by {
        if line_len(line) < line.len() {
            assert(line[line_len(line) as int] == '\n');
        }
    }
    assert(line.take(line.len() as int) =~= line);
    lemma_trim_of(line, before, name, after);
    if line.len() > 0 && names_domain(name) {
        assert(listed_domains(line) =~= seq![name]);
    }
}

proof fn lemma_trim_of(line: Seq<char>, before: Seq<char>, name: Seq<char>, after: Seq<char>)
    requires
        line == before + name + after,
        forall|i: int| 0 <= i < before.len() ==> is_space(#[trigger] before[i]),
        forall|i: int| 0 <= i < after.len() ==> is_space(#[trigger] after[i]),
        name.len() > 0 ==> !is_space(name[0]) && !is_space(name.last()),
    ensures
        trim(line) == name,
{
    law_trim_takes_white_space_off(line);
    let (i, j) = choose|i: int, j: int|
        0 <= i <= j <= line.len() && #[trigger] line.subrange(i, j) == trim(line) && (forall|k: int|
            0 <= k < i || j <= k < line.len() ==> is_space(#[trigger] line[k]));
    let t = trim(line);
    let from = before.len() as int;
    let to = from + name.len();
    if name.len() > 0 {
        assert(line[from] == name[0]);
        assert(line[to - 1] == name.last());
        assert(i <= from) by {
            if i > from {
                assert(is_space(line[from]));
            }
        }
        assert(j >= to) by {
            if j < to {
                assert(is_space(line[to - 1]));
            }
        }
        assert(t[0] == line[i]);
        assert(t.last() == line[j - 1]);
        if i < from {
            assert(line[i] == before[i]);
        }
        if j > to {
            assert(line[j - 1] == after[j - 1 - to]);
        }
        assert(t =~= name);
    } else {
        if t.len() > 0 {
            assert(t[0] == line[i]);
            if i < from {
                assert(line[i] == before[i]);
            } else {
                assert(line[i] == after[i - from]);
            }
        }
        assert(t =~= name);
    }
}

/// Adding to a list leaves what it comes to without repeats in front.
pub proof fn law_dedup_keeps_what_comes_first(s: Seq<Seq<char>>, more: Seq<Seq<char>>)
    ensures
        deduplicated(s).is_prefix_of(deduplicated(s + more)),
    decreases more.len(),
{
    if more.len() == 0 {
        assert(s + more =~= s);
    } else {
        law_dedup_keeps_what_comes_first(s, more.drop_last());
        assert((s + more).drop_last() =~= s + more.drop_last());
        let front = deduplicated(s + more.drop_last());
        assert(deduplicated(s) =~= deduplicated(s + more).take(deduplicated(s).len() as int)) by {
            assert(deduplicated(s) =~= front.take(deduplicated(s).len() as int));
        }
    }
}

/// A name is listed in two lists taken together where it is listed in either.
pub proof fn law_listed_in_both(s: Seq<Seq<char>>, t: Seq<Seq<char>>, name: Seq<char>)
    ensures
        listed(s + t, name) == (listed(s, name) || listed(t, name)),
{
    if listed(s, name) {
        let i = choose|i: int| 0 <= i < s.len() && lower(#[trigger] s[i]) == lower(name);
        assert((s + t)[i] == s[i]);
    }
    if listed(t, name) {
        let i = choose|i: int| 0 <= i < t.len() && lower(#[trigger] t[i]) == lower(name);
        assert((s + t)[s.len() + i] == t[i]);
    }
    if listed(s + t, name) {
        let i = choose|i: int| 0 <= i < (s + t).len() && lower(#[trigger] (s + t)[i]) == lower(name);
        if i < s.len() {
            assert(s[i] == (s + t)[i]);
        } else {
            assert(t[i - s.len()] == (s + t)[i]);
        }
    }
}

/// The default list holds twelve domains: those of game launchers, chat, streaming and large sites.
pub proof fn law_default_domains()
    ensures
        default_domain_names().len() == 12,
        default_domain_names().contains("steampowered.com"@),
        default_domain_names().contains("battle.net"@),
        default_domain_names().contains("leagueoflegends.com"@),
        default_domain_names().contains("epicgames.com"@),
        default_domain_names().contains("discord.com"@),
        default_domain_names().contains("youtube.com"@),
        default_domain_names().contains("google.com"@),
        default_domain_names().contains("cloudflare.com"@),
        default_domain_names().contains("github.com"@),
        default_domain_names().contains("wikipedia.org"@),
        default_domain_names().contains("netflix.com"@),
        default_domain_names().contains("amazon.com"@),
{
    let all = default_domain_names();
    assert(all[0] == "steampowered.com"@);
    assert(all[1] == "battle.net"@);
    assert(all[2] == "leagueoflegends.com"@);
    assert(all[3] == "epicgames.com"@);
    assert(all[4] == "discord.com"@);
    assert(all[5] == "youtube.com"@);
    assert(all[6] == "google.com"@);
    assert(all[7] == "cloudflare.com"@);
    assert(all[8] == "github.com"@);
    assert(all[9] == "wikipedia.org"@);
    assert(all[10] == "netflix.com"@);
    assert(all[11] == "amazon.com"@);
}

} // verus!
