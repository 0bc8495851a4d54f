use lemon_apod::html::{
    collapse, end_of, escape, flatten, parse_document, resolve_url, sanitize, DomItem, Fragment,
    NodeKind, Options,
};

const BASE: &str = "https://apod.nasa.gov/apod/ap240305.html";

fn body_of(items: &[DomItem]) -> usize {
    items
        .iter()
        .position(|item| matches!(&item.kind, NodeKind::Element { name, .. } if name == "body"))
        .unwrap()
}

fn run(html: &str, opts: &Options<'_>) -> Option<Fragment> {
    let items = parse_document(html);
    let body = body_of(&items);
    let end = end_of(&items, body);
    sanitize(&items, body + 1, end, BASE, opts)
}

#[test]
fn keeps_allowed_tags_and_absolutises_links() {
    let out = run(
        r#"<p>See <a href="ap240304.html">yesterday</a> and <b>note</b>.</p>"#,
        &Options::default(),
    )
    .unwrap();

    assert_eq!(
        out.html,
        r#"See <a href="https://apod.nasa.gov/apod/ap240304.html">yesterday</a> and <b>note</b>."#
    );
    assert_eq!(out.text, "See yesterday and note.");
}

#[test]
fn unwraps_disallowed_tags_but_keeps_their_text() {
    let out = run(
        r#"<p><font color="red">red</font> <span>text</span></p>"#,
        &Options::default(),
    )
    .unwrap();
    assert_eq!(out.html, "red text");
}

#[test]
fn drops_scripts_entirely() {
    let out = run(
        "<p>before <script>alert(1)</script> after</p>",
        &Options::default(),
    )
    .unwrap();
    assert_eq!(out.text, "before after");
    assert!(!out.html.contains("alert"));
}

#[test]
fn escapes_text_so_markup_cannot_be_injected() {
    let out = run("<p>5 &lt; 7 &amp; 8 &gt; 2</p>", &Options::default()).unwrap();
    assert_eq!(out.html, "5 &lt; 7 &amp; 8 &gt; 2");
    assert_eq!(out.text, "5 < 7 & 8 > 2");
}

#[test]
fn drops_non_http_schemes() {
    let out = run(
        r#"<p><a href="javascript:alert(1)">click</a></p>"#,
        &Options::default(),
    )
    .unwrap();
    assert_eq!(out.html, "click");
}

#[test]
fn starts_after_a_marker_and_stops_at_a_delimiter() {
    let opts = Options {
        start_after: Some(r"(?i)explanation:\s*"),
        stop_at: &["tomorrow's picture"],
        stop_after_breaks: None,
    };
    let out = run(
        "<p><b>Explanation:</b> The <a href='x.html'>galaxy</a> is big. \
         Tomorrow's picture: something else</p>",
        &opts,
    )
    .unwrap();

    assert_eq!(out.text, "The galaxy is big.");
    assert!(out.html.starts_with("The <a href="));
}

#[test]
fn returns_none_when_the_marker_never_appears() {
    let opts = Options {
        start_after: Some("Explanation:"),
        stop_at: &[],
        stop_after_breaks: None,
    };
    assert!(run("<p>no marker here</p>", &opts).is_none());
}

#[test]
fn collapses_whitespace_across_tag_boundaries() {
    let out = run(
        "<p>one\n\n  two <b>three</b>\tfour  </p>",
        &Options::default(),
    )
    .unwrap();
    assert_eq!(out.text, "one two three four");
    assert_eq!(out.html, "one two <b>three</b> four");
}

#[test]
fn does_not_invent_whitespace_between_adjacent_nodes() {
    let out = run("<p>anti<b>matter</b></p>", &Options::default()).unwrap();
    assert_eq!(out.text, "antimatter");
    assert_eq!(out.html, "anti<b>matter</b>");
}

#[test]
fn a_marker_may_span_element_boundaries() {
    let opts = Options {
        start_after: Some(r"(?i)\bcredit\s*&\s*copyright\s*:\s*"),
        stop_at: &[],
        stop_after_breaks: None,
    };
    let out = run(
        r#"<center><b>Image Credit &amp;
           <a href="lib/about_apod.html">Copyright</a>:</b>
           <a href="https://example.com/">Jane Doe</a></center>"#,
        &opts,
    )
    .unwrap();

    assert_eq!(out.text, "Jane Doe");
    assert_eq!(out.html, r#"<a href="https://example.com/">Jane Doe</a>"#);
}

#[test]
fn a_stop_phrase_may_span_element_boundaries() {
    let opts = Options {
        start_after: None,
        stop_at: &["tomorrow's picture"],
        stop_after_breaks: None,
    };
    let out = run(
        "<p>The prose. <b>Tomorrow's</b> picture: something else</p>",
        &opts,
    )
    .unwrap();
    assert_eq!(out.text, "The prose.");
}

#[test]
fn a_link_broken_over_several_text_nodes_stays_one_link() {
    let out = run(
        r#"<p><a href="https://example.com/">Jane <b>Q</b> Doe</a></p>"#,
        &Options::default(),
    )
    .unwrap();
    assert_eq!(
        out.html,
        r#"<a href="https://example.com/">Jane <b>Q</b> Doe</a>"#
    );
}

#[test]
fn a_separator_between_two_tag_runs_belongs_to_neither() {
    let out = run("<p><b>one</b> <i>two</i></p>", &Options::default()).unwrap();
    assert_eq!(out.html, "<b>one</b> <i>two</i>");
}

#[test]
fn a_run_of_breaks_ends_the_window_but_a_single_one_does_not() {
    let opts = |breaks| Options {
        start_after: None,
        stop_at: &[],
        stop_after_breaks: breaks,
    };

    let one_line = "<p>The prose<br>runs on.<br><br>An announcement below it.</p>";
    assert_eq!(
        run(one_line, &opts(Some(2))).unwrap().text,
        "The prose runs on.",
        "a source that puts its whole body in one paragraph separates it with a blank line"
    );
    assert_eq!(
        run(one_line, &opts(None)).unwrap().text,
        "The prose runs on. An announcement below it.",
        "and a source that does not ask for the boundary keeps everything"
    );
}

#[test]
fn line_breaks_survive_as_breaks() {
    let out = run("<p>one<br>two</p>", &Options::default()).unwrap();
    assert_eq!(out.text, "one two");
    assert_eq!(out.html, "one<br> two");
}

#[test]
fn any_range_of_the_flattened_text_can_be_sliced_back_out() {
    let items = parse_document("<body><p>Alpha <b>beta</b> gamma</p></body>");
    let body = body_of(&items);
    let flat = flatten(&items, body + 1, end_of(&items, body), BASE);

    assert_eq!(flat.text(), "Alpha beta gamma");
    assert_eq!(flat.slice(6, 10).text, "beta");
    assert_eq!(flat.slice(6, 10).html, "<b>beta</b>");
    assert_eq!(flat.slice(0, 11).html, "Alpha <b>beta</b>");
}

#[test]
fn escaping_covers_quotes_as_well_as_markup() {
    assert_eq!(escape(r#"<a href="x">&'"#), "&lt;a href=&quot;x&quot;&gt;&amp;&#39;");
}

#[test]
fn collapsing_leaves_single_spaces_between_words() {
    assert_eq!(collapse("  one \n\t two  three "), "one two three");
    assert_eq!(collapse(" \n "), "");
}

#[test]
fn only_web_and_mail_links_resolve() {
    assert_eq!(
        resolve_url(BASE, " ap240304.html "),
        Some("https://apod.nasa.gov/apod/ap240304.html".to_owned())
    );
    assert_eq!(resolve_url(BASE, "#top"), None);
    assert_eq!(resolve_url(BASE, ""), None);
    assert_eq!(resolve_url(BASE, "javascript:alert(1)"), None);
    assert_eq!(
        resolve_url(BASE, "mailto:apod@nasa.gov"),
        Some("mailto:apod@nasa.gov".to_owned())
    );
}

#[test]
fn every_range_slices_back_to_its_own_text_trimmed() {
    let items = parse_document("<body><p>Alpha <b>beta</b>  <i>gamma</i> delta</p><p>epsilon</p></body>");
    let body = body_of(&items);
    let flat = flatten(&items, body + 1, end_of(&items, body), BASE);
    let text: Vec<char> = flat.text().chars().collect();
    for lo in 0..=text.len() {
        for hi in lo..=text.len() {
            let want: String = text[lo..hi].iter().collect::<String>().trim().to_owned();
            assert_eq!(flat.slice(lo, hi).text, want, "range {lo}..{hi}");
        }
    }
}

#[test]
fn a_slice_holds_no_markup_but_kept_tags() {
    let items = parse_document(
        "<body><p>1 &lt; 2 <script>alert(1)</script><b>bold</b><br><span onclick=\"x\">s</span> \
         <a href=\"ap990101.html\">link</a></p></body>",
    );
    let body = body_of(&items);
    let flat = flatten(&items, body + 1, end_of(&items, body), BASE);
    let html = flat.slice(0, flat.text().chars().count()).html;
    assert!(!html.contains("script"));
    assert!(!html.contains("span"));
    assert!(html.contains("1 &lt; 2"));
    let kept = ["<b>", "</b>", "<br>", "<a href=", "</a>"];
    for (at, _) in html.match_indices('<') {
        assert!(kept.iter().any(|t| html[at..].starts_with(t)), "{html}");
    }
}

#[test]
fn stop_is_the_first_needle_after_from_in_any_case() {
    let items = parse_document("<body><p>Tomorrow's picture: more. Next Tomorrow</p></body>");
    let body = body_of(&items);
    let flat = flatten(&items, body + 1, end_of(&items, body), BASE);
    assert_eq!(flat.text(), "Tomorrow's picture: more. Next Tomorrow");
    assert_eq!(flat.stop(0, &["tomorrow's picture", "next"]), 0);
    assert_eq!(flat.stop(1, &["tomorrow's picture", "next"]), 26);
    assert_eq!(flat.stop(1, &["tomorrow"]), 31);
    assert_eq!(flat.stop(1, &["nothing here"]), flat.text().len());
    assert_eq!(flat.stop(3, &[]), flat.text().len());
}

#[test]
fn escaping_reads_back_to_the_text_it_was_given() {
    let raw = "Tom & Jerry's <b>\"big\"</b> &amp; day";
    let e = escape(raw);
    assert!(!e.contains(['<', '>', '"', '\'']));
    let back = e
        .replace("&lt;", "<")
        .replace("&gt;", ">")
        .replace("&quot;", "\"")
        .replace("&#39;", "'")
        .replace("&amp;", "&");
    assert_eq!(back, raw);
    assert_eq!(escape("plain words"), "plain words");
}
