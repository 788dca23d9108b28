use repub_bind::html::{tokenize, Attr, Token};
use repub_bind::links::{classify, collect_links, filter_links, likeness_of, similarity_of, Link};

fn link(href: &str, text: &str) -> Link {
    Link { href: href.as_bytes().to_vec(), text: text.as_bytes().to_vec() }
}

fn hrefs(tokens: &[Token]) -> Vec<Option<String>> {
    let mut out = Vec::new();
    for t in tokens {
        if let Token::Open { name, attrs } = t {
            if name == b"a" {
                out.push(attrs.iter().find(|a: &&Attr| a.name == b"href").map(|a| String::from_utf8(a.value.clone()).unwrap()));
            }
        }
    }
    out
}

#[test]
fn likeness_counts_shared_bytes() {
    assert_eq!(likeness_of(b"abc", b"abc"), 1_000_000);
    assert_eq!(likeness_of(b"", b""), 1_000_000);
    assert_eq!(likeness_of(b"abc", b"xyz"), 0);
    assert_eq!(likeness_of(b"abc", b""), 0);
    assert_eq!(likeness_of(b"aab", b"abb"), 666_666);
    assert_eq!(likeness_of(b"abcd", b"ab"), 666_666);
    assert_eq!(likeness_of(b"ab", b"ba"), 1_000_000);
}

#[test]
fn similarity_is_the_mean_and_symmetric() {
    let a = link("/page/1", "one");
    let b = link("/page/2", "two");
    assert_eq!(similarity_of(&a, &a), 1_000_000);
    assert_eq!(similarity_of(&a, &b), similarity_of(&b, &a));
    assert_eq!(similarity_of(&a, &b), (857_142 + 333_333) / 2);
    assert_eq!(similarity_of(&link("abc", "def"), &link("xyz", "uvw")), 0);
    assert_eq!(similarity_of(&link("abc", "same"), &link("xyz", "same")), 500_000);
}

#[test]
fn threshold_is_inclusive() {
    let links = vec![link("/page/1", "one"), link("/page/2", "two"), link("mailto:x", "Q")];
    let score = similarity_of(&links[0], &links[1]);
    assert_eq!(score, 595_237);
    assert!(similarity_of(&links[1], &links[2]) < score);
    assert_eq!(classify(&links, score), vec![true, true, false]);
    assert_eq!(classify(&links, score + 1), vec![false, false, false]);
    assert_eq!(classify(&links, score - 1), vec![true, true, false]);
    assert_eq!(classify(&links, 0), vec![true, true, true]);
    assert_eq!(classify(&vec![link("a", "b")], 0), vec![false]);
    assert_eq!(classify(&Vec::new(), 0), Vec::<bool>::new());
}

#[test]
fn filter_takes_the_address_from_navigation_only() {
    let page = b"<ul><li><a href=\"/page/1\" title=\"t\">one</a></li><li><a href=\"/page/2\">two</a></li></ul><p>See <a href=\"mailto:x\">Q</a> and <a name=\"n\">here</a>.</p>";
    let tokens = tokenize(page);
    let links = collect_links(&tokens);
    assert_eq!(links.len(), 3);
    assert_eq!(links[0].href, b"/page/1");
    assert_eq!(links[0].text, b"one");
    assert_eq!(links[2].text, b"Q");
    let at = filter_links(tokenize(page), true, 595_237);
    assert_eq!(hrefs(&at), vec![None, None, Some("mailto:x".to_string()), None]);
    assert_eq!(at.len(), tokens.len());
    let above = filter_links(tokenize(page), true, 595_238);
    assert_eq!(hrefs(&above), vec![Some("/page/1".to_string()), Some("/page/2".to_string()), Some("mailto:x".to_string()), None]);
    let off = filter_links(tokenize(page), false, 0);
    assert_eq!(hrefs(&off), hrefs(&above));
    if let Token::Open { attrs, .. } = &at[2] {
        assert_eq!(attrs.len(), 1);
        assert_eq!(attrs[0].name, b"title");
    } else {
        panic!("no start tag");
    }
}
