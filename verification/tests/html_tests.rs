use repub_bind::html::{tokenize, Token};

fn show(tokens: &[Token]) -> String {
    let mut out = String::new();
    for t in tokens {
        match t {
            Token::Open { name, attrs } => {
                out.push_str(&format!("[{}", String::from_utf8_lossy(name)));
                for a in attrs {
                    out.push_str(&format!(" {}={{{}}}", String::from_utf8_lossy(&a.name), String::from_utf8_lossy(&a.value)));
                }
                out.push(']');
            }
            Token::Close { name } => out.push_str(&format!("[/{}]", String::from_utf8_lossy(name))),
            Token::Text { data } => out.push_str(&format!("'{}'", String::from_utf8_lossy(data))),
        }
    }
    out
}

#[test]
fn tags_and_text_become_tokens() {
    let t = tokenize(b"<!DOCTYPE html><HTML><body class=main id='x y' hidden><P>a &amp; b<br/>c</p><!-- <b> --></body>");
    assert_eq!(show(&t), "[html][body class={main} id={x y} hidden={}][p]'a &amp; b'[br]'c'[/p][/body]");
}

#[test]
fn attribute_values_may_hold_angle_brackets() {
    let t = tokenize(b"<a title=\"a>b\" href = /x/y >t</a>");
    assert_eq!(show(&t), "[a title={a>b} href={/x/y}]'t'[/a]");
}

#[test]
fn script_content_is_no_markup() {
    let t = tokenize(b"<script>if (a<b) { x = '<p>'; }</SCRIPT><p>t</p>");
    assert_eq!(show(&t), "[script]'if (a<b) { x = '<p>'; }'[/script][p]'t'[/p]");
}

#[test]
fn title_content_is_no_markup() {
    let t = tokenize(b"<title>a <b> & c</title><textarea><p></textarea><p>x</p>");
    assert_eq!(show(&t), "[title]'a <b> & c'[/title][textarea]'<p>'[/textarea][p]'x'[/p]");
    assert_eq!(show(&tokenize(b"<title></title>")), "[title][/title]");
    assert_eq!(show(&tokenize(b"<style>a</b></style")), "[style]'a</b>'[/style]");
}

#[test]
fn stray_angle_bracket_is_text() {
    let t = tokenize(b"1 < 2 <3");
    assert_eq!(show(&t), "'1 ''< 2 ''<3'");
    assert_eq!(tokenize(b"").len(), 0);
    assert_eq!(show(&tokenize(b"<p")), "[p]");
}
