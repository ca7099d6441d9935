use one2html::escape::escape;

fn decode(html: &str) -> String {
    let mut out = String::new();
    let mut rest = html;
    while let Some(c) = rest.chars().next() {
        if let Some(tail) = rest.strip_prefix("&amp;") {
            out.push('&');
            rest = tail;
        } else if let Some(tail) = rest.strip_prefix("&lt;") {
            out.push('<');
            rest = tail;
        } else if let Some(tail) = rest.strip_prefix("&gt;") {
            out.push('>');
            rest = tail;
        } else {
            out.push(c);
            rest = &rest[c.len_utf8()..];
        }
    }
    out
}

fn only_entities(html: &str) -> bool {
    !html.contains('<') && !html.contains('>')
        && html.match_indices('&').all(|(i, _)| {
            let tail = &html[i..];
            tail.starts_with("&amp;") || tail.starts_with("&lt;") || tail.starts_with("&gt;")
        })
}

const SAMPLES: [&str; 12] = [
    "",
    "plain text",
    "A & B <tag>",
    "&",
    "<",
    ">",
    "&&&",
    "<<>>",
    "&amp;",
    "&lt;b&gt;",
    "a < b && c > d",
    "été & hiver <😀>",
];

#[test]
fn the_three_characters_become_entities() {
    assert_eq!(escape("&"), "&amp;");
    assert_eq!(escape("<"), "&lt;");
    assert_eq!(escape(">"), "&gt;");
    assert_eq!(escape("A & B <tag>"), "A &amp; B &lt;tag&gt;");
    assert_eq!(escape("a < b && c > d"), "a &lt; b &amp;&amp; c &gt; d");
}

#[test]
fn text_without_the_three_characters_is_kept() {
    assert_eq!(escape(""), "");
    assert_eq!(escape("plain text"), "plain text");
    assert_eq!(escape("\"quotes\" and 'apostrophes' stay"), "\"quotes\" and 'apostrophes' stay");
    assert_eq!(escape("été 😀 €"), "été 😀 €");
    assert_eq!(escape("line\nbreak\ttab"), "line\nbreak\ttab");
}

#[test]
fn entities_in_the_text_are_escaped_again() {
    assert_eq!(escape("&amp;"), "&amp;amp;");
    assert_eq!(escape("&lt;b&gt;"), "&amp;lt;b&amp;gt;");
}

#[test]
fn escaped_text_holds_no_raw_markup() {
    for text in SAMPLES {
        assert!(only_entities(&escape(text)));
    }
}

#[test]
fn decoding_gives_the_text_back() {
    for text in SAMPLES {
        assert_eq!(decode(&escape(text)), text);
    }
}

#[test]
fn escaping_is_three_replacements_in_order() {
    for text in SAMPLES {
        let stepwise = text.replace('&', "&amp;").replace('<', "&lt;").replace('>', "&gt;");
        assert_eq!(escape(text), stepwise);
    }
}

#[test]
fn escaping_goes_character_by_character() {
    for a in SAMPLES {
        for b in SAMPLES {
            assert_eq!(escape(&format!("{a}{b}")), format!("{}{}", escape(a), escape(b)));
        }
    }
}
