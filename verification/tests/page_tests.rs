use repub_bind::clean::{clean, is_plain_name};
use repub_bind::extract::{extract, find_hit, gather_text, Probe};
use repub_bind::html::{tokenize, Token};
use repub_bind::render::{arrange, print, write_escaped};

fn printed(page: &[u8]) -> String {
    let mut out = Vec::new();
    print(&mut out, &tokenize(page));
    String::from_utf8(out).unwrap()
}

fn cleaned(page: &[u8]) -> String {
    let mut out = Vec::new();
    print(&mut out, &clean(&tokenize(page)));
    String::from_utf8(out).unwrap()
}

fn escaped(text: &[u8]) -> String {
    let mut out = b"[".to_vec();
    write_escaped(&mut out, text);
    String::from_utf8(out).unwrap()
}

#[test]
fn text_is_escaped() {
    assert_eq!(escaped(b"a < b > c \"d\""), "[a &lt; b &gt; c &quot;d&quot;");
    assert_eq!(escaped(b"AT&T &amp; &lt; &gt; &quot; &apos;"), "[AT&amp;T &amp; &lt; &gt; &quot; &apos;");
    assert_eq!(escaped(b"&#65; &#x1F600; &#xZZ; &#; &#x;"), "[&#65; &#x1F600; &amp;#xZZ; &amp;#; &amp;#x;");
    assert_eq!(escaped(b"a&nbsp;b &nbsp &copy; &"), "[a&#160;b &amp;nbsp &amp;copy; &amp;");
    assert_eq!(escaped(b"&verylongname; &amp"), "[&amp;verylongname; &amp;amp");
    assert_eq!(escaped(b"tab\tline\r\nbell\x07nul\x00end"), "[tab\tline\r\nbellnulend");
    assert_eq!(escaped("caf\u{e9}".as_bytes()), "[caf\u{e9}");
    assert_eq!(escaped(b""), "[");
}

#[test]
fn markup_is_written_well_nested() {
    assert_eq!(printed(b"<p>a<b>b<i>c</b>d</p>e"), "<p>a<b>b<i>c</i></b>d</p>e");
    assert_eq!(printed(b"<div><p>a<p>b"), "<div><p>a<p>b</p></p></div>");
    assert_eq!(printed(b"a</p>b</div>"), "ab");
    assert_eq!(printed(b"<br><hr/><img src=x.png></img><BR>"), "<br/><hr/><img src=\"x.png\"/><br/>");
    assert_eq!(printed(b"<a href='x?a=1&b=2' title=\"&quot;q&quot; <t>\">l</a>"), "<a href=\"x?a=1&amp;b=2\" title=\"&quot;q&quot; &lt;t&gt;\">l</a>");
    assert_eq!(printed(b"<ul><li>a<li>b</ul>"), "<ul><li>a<li>b</li></li></ul>");
    assert_eq!(printed(b""), "");
}

#[test]
fn active_content_is_taken_out() {
    assert_eq!(cleaned(b"<p onclick=\"x()\" ONLOAD=y id=a style='color:red'>t</p>"), "<p id=\"a\">t</p>");
    assert_eq!(cleaned(b"a<script>alert('<b>')</script>b<SCRIPT src=x></SCRIPT>c"), "abc");
    assert_eq!(cleaned(b"a<style>p{}</style>b<noscript><img src=t.gif></noscript>c<iframe src=x>f</iframe>d"), "abcd");
    assert_eq!(cleaned(b"<html><head><title>T</title><link rel=stylesheet href=a.css></head><body class=x><p>t</p></body></html>"), "<p>t</p>");
    assert_eq!(cleaned(b"<form action=x><input name=a><p>t</p></form><embed src=x>u"), "<p>t</p>u");
    assert_eq!(cleaned(b"<a href=x href=y HREF=z title=t>l</a>"), "<a href=\"x\" title=\"t\">l</a>");
    assert_eq!(cleaned(b"<my-tag>a</my-tag><x:y>b</x:y><h1>c</h1>"), "ab<h1>c</h1>");
    assert_eq!(cleaned(b"a<script>never closed <p>b</p>"), "a");
    assert_eq!(cleaned(b"<td colspan=2 rowspan=3 width=9 lang=en dir=ltr>x</td>"), "<td colspan=\"2\" rowspan=\"3\" lang=\"en\" dir=\"ltr\">x</td>");
}

#[test]
fn arranged_tokens_close_what_they_open() {
    let list = arrange(&tokenize(b"<div><p>a<b>b</div>c</i><br></br><span>"));
    let mut names = Vec::new();
    for t in &list {
        match t {
            Token::Open { name, .. } => names.push(format!("+{}", String::from_utf8_lossy(name))),
            Token::Close { name } => names.push(format!("-{}", String::from_utf8_lossy(name))),
            Token::Text { .. } => names.push("t".to_string()),
        }
    }
    assert_eq!(names, vec!["+div", "+p", "t", "+b", "t", "-b", "-p", "-div", "t", "+br", "+span", "-span"]);
}

#[test]
fn names_are_plain_or_not() {
    assert!(is_plain_name(b"p"));
    assert!(is_plain_name(b"h1"));
    assert!(!is_plain_name(b""));
    assert!(!is_plain_name(b"1h"));
    assert!(!is_plain_name(b"my-tag"));
    assert!(!is_plain_name(b"P"));
}

#[test]
fn page_says_what_it_is() {
    let t = tokenize(b"<html><head><meta charset=utf-8><TITLE>One <b>two</b> three</TITLE><meta content=\"Ann\" name=\"Author\"><meta name=author content=Bob><meta property=\"og:image\" content=\"c.png\"></head><body><img alt=x><img src=a.png><title>late</title></body></html>");
    let m = extract(&t);
    assert_eq!(m.title.unwrap(), b"One <b>two</b> three");
    assert_eq!(m.byline.unwrap(), b"Ann");
    assert_eq!(m.cover.unwrap(), b"c.png");
    let t = tokenize(b"<body><img alt=x><img src=a.png><img src=b.png><title></title></body>");
    let m = extract(&t);
    assert_eq!(m.title.unwrap(), b"");
    assert!(m.byline.is_none());
    assert_eq!(m.cover.unwrap(), b"a.png");
    let m = extract(&tokenize(b"<p class=Byline> By <a rel=author href=x>Cy <b>D</b></a> </p>"));
    assert_eq!(m.byline.unwrap(), b"Cy D");
    let m = extract(&tokenize(b"<div><span class=\"byline\">\n By Eve\n</span></div>"));
    assert_eq!(m.byline.unwrap(), b"By Eve");
    let m = extract(&tokenize(b"<p>nothing</p><meta name=author>"));
    assert!(m.title.is_none());
    assert!(m.byline.is_none());
    assert!(m.cover.is_none());
}

#[test]
fn tokens_are_found_and_text_is_gathered() {
    let t = tokenize(b"<p>a</p><a href=x>one <b>two</b></a><img src=k><a name=n>t</a><img src=q>");
    assert_eq!(find_hit(&t, &Probe::Element(b"a"), 0), Some(3));
    assert_eq!(find_hit(&t, &Probe::Element(b"a"), 4), Some(10));
    assert_eq!(find_hit(&t, &Probe::Element(b"a"), 11), None);
    assert_eq!(find_hit(&t, &Probe::Holding(b"a", b"name"), 0), Some(10));
    assert_eq!(find_hit(&t, &Probe::Matching(b"img", b"src", b"q"), 0), Some(13));
    assert_eq!(find_hit(&t, &Probe::Matching(b"img", b"src", b"z"), 0), None);
    assert_eq!(find_hit(&t, &Probe::Meta(b"name", b"author"), 0), None);
    assert_eq!(gather_text(&t, 4, b"a"), b"one two");
    assert_eq!(gather_text(&t, 0, b"zz"), b"aone twot");
    assert_eq!(gather_text(&t, 99, b"a"), b"");
    assert!(matches!(&t[3], Token::Open { .. }));
}
