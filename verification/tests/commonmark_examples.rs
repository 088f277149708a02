use common_mark_rust::markdown_to_html;

/// Renders each input and compares it with the expected HTML.
fn check(cases: &[(&str, &str)]) {
    for (input, expected) in cases {
        assert_eq!(markdown_to_html(input), *expected, "input: {:?}", input);
    }
}

#[test]
fn atx_and_setext_headings() {
    check(&[
        ("# Foo\n", "<h1>Foo</h1>\n"),
        ("## foo ##\n", "<h2>foo</h2>\n"),
        ("Foo\n===\n", "<h1>Foo</h1>\n"),
        ("Foo\n---\n", "<h2>Foo</h2>\n"),
        ("Foo *bar\nbaz*\n====\n", "<h1>Foo <em>bar\nbaz</em></h1>\n"),
        ("#5 bolt\n\n#hashtag\n", "<p>#5 bolt</p>\n<p>#hashtag</p>\n"),
        ("# foo *bar* \\*baz\\*\n", "<h1>foo <em>bar</em> *baz*</h1>\n"),
        ("Foo\nbar\n---\nbaz\n", "<h2>Foo\nbar</h2>\n<p>baz</p>\n"),
        ("Foo\n    ---\n", "<p>Foo\n---</p>\n"),
        ("# a ## ##\n", "<h1>a ##</h1>\n"),
        ("### foo ### b\n", "<h3>foo ### b</h3>\n"),
        ("# foo#\n", "<h1>foo#</h1>\n"),
        ("### ###\n", "<h3></h3>\n"),
        ("#    foo     \n", "<h1>foo</h1>\n"),
        ("## \n#\n", "<h2></h2>\n<h1></h1>\n"),
        ("# foo \\#\n", "<h1>foo #</h1>\n"),
        ("####### foo\n", "<p>####### foo</p>\n"),
        ("`Foo\n----\n`\n\n<a title=\"a lot\n---\nof dashes\"/>\n", "<h2>`Foo</h2>\n<p>`</p>\n<h2>&lt;a title=&quot;a lot</h2>\n<p>of dashes&quot;/&gt;</p>\n"),
    ]);
}

#[test]
fn thematic_breaks() {
    check(&[
        ("***\n", "<hr />\n"),
        ("- foo\n***\n- bar\n", "<ul>\n<li>foo</li>\n</ul>\n<hr />\n<ul>\n<li>bar</li>\n</ul>\n"),
    ]);
}

#[test]
fn bullet_and_ordered_lists() {
    check(&[
        ("- a\n- b\n", "<ul>\n<li>a</li>\n<li>b</li>\n</ul>\n"),
        ("- a\n\n- b\n", "<ul>\n<li>\n<p>a</p>\n</li>\n<li>\n<p>b</p>\n</li>\n</ul>\n"),
        ("1. a\n2. b\n", "<ol>\n<li>a</li>\n<li>b</li>\n</ol>\n"),
        ("3. a\n4. b\n", "<ol start=\"3\">\n<li>a</li>\n<li>b</li>\n</ol>\n"),
        ("- a\n- b\n\n- c\n", "<ul>\n<li>\n<p>a</p>\n</li>\n<li>\n<p>b</p>\n</li>\n<li>\n<p>c</p>\n</li>\n</ul>\n"),
        ("* a\n*\n\n* c\n", "<ul>\n<li>\n<p>a</p>\n</li>\n<li></li>\n<li>\n<p>c</p>\n</li>\n</ul>\n"),
        ("  - foo\n\n    bar\n", "<ul>\n<li>\n<p>foo</p>\n<p>bar</p>\n</li>\n</ul>\n"),
        ("- one\n\n two\n", "<ul>\n<li>one</li>\n</ul>\n<p>two</p>\n"),
        ("- a\n  - b\n\n    c\n- d\n", "<ul>\n<li>a\n<ul>\n<li>\n<p>b</p>\n<p>c</p>\n</li>\n</ul>\n</li>\n<li>d</li>\n</ul>\n"),
        ("  - foo\n\n\tbar\n", "<ul>\n<li>\n<p>foo</p>\n<p>bar</p>\n</li>\n</ul>\n"),
        ("- foo\n\n- bar\n\n\n- baz\n", "<ul>\n<li>\n<p>foo</p>\n</li>\n<li>\n<p>bar</p>\n</li>\n<li>\n<p>baz</p>\n</li>\n</ul>\n"),
        ("- foo\n  - bar\n    - baz\n\n\n      bim\n", "<ul>\n<li>foo\n<ul>\n<li>bar\n<ul>\n<li>\n<p>baz</p>\n<p>bim</p>\n</li>\n</ul>\n</li>\n</ul>\n</li>\n</ul>\n"),
        ("1. a\n\n  2. b\n\n    3. c\n", "<ol>\n<li>\n<p>a</p>\n</li>\n<li>\n<p>b</p>\n</li>\n</ol>\n<pre><code>3. c\n</code></pre>\n"),
        ("- a\n- ```\n  b\n\n\n  ```\n- c\n", "<ul>\n<li>a</li>\n<li>\n<pre><code>b\n\n\n</code></pre>\n</li>\n<li>c</li>\n</ul>\n"),
        ("- foo\n-\n- bar\n", "<ul>\n<li>foo</li>\n<li></li>\n<li>bar</li>\n</ul>\n"),
        ("1. foo\n2.\n3. bar\n", "<ol>\n<li>foo</li>\n<li></li>\n<li>bar</li>\n</ol>\n"),
        ("*\n", "<ul>\n<li></li>\n</ul>\n"),
        ("foo\n*\n\nfoo\n1.\n", "<p>foo\n*</p>\n<p>foo\n1.</p>\n"),
        ("10) foo\n    - bar\n", "<ol start=\"10\">\n<li>foo\n<ul>\n<li>bar</li>\n</ul>\n</li>\n</ol>\n"),
        ("-one\n\n2.two\n", "<p>-one</p>\n<p>2.two</p>\n"),
        ("1234567890. not ok\n", "<p>1234567890. not ok</p>\n"),
        ("123456789. ok\n", "<ol start=\"123456789\">\n<li>ok</li>\n</ol>\n"),
    ]);
}

#[test]
fn block_quotes() {
    check(&[
        ("> foo\n> bar\n", "<blockquote>\n<p>foo\nbar</p>\n</blockquote>\n"),
        ("> foo\nbar\n", "<blockquote>\n<p>foo\nbar</p>\n</blockquote>\n"),
        ("> bar\nbaz\n> foo\n", "<blockquote>\n<p>bar\nbaz\nfoo</p>\n</blockquote>\n"),
        ("1.  A paragraph\n    with two lines.\n\n        indented code\n\n    > A block quote.\n", "<ol>\n<li>\n<p>A paragraph\nwith two lines.</p>\n<pre><code>indented code\n</code></pre>\n<blockquote>\n<p>A block quote.</p>\n</blockquote>\n</li>\n</ol>\n"),
        ("> - a\n>   b\n", "<blockquote>\n<ul>\n<li>a\nb</li>\n</ul>\n</blockquote>\n"),
        ("> ```\nfoo\n```\n", "<blockquote>\n<pre><code></code></pre>\n</blockquote>\n<p>foo</p>\n<pre><code></code></pre>\n"),
        (">\t\tfoo\n", "<blockquote>\n<pre><code>  foo\n</code></pre>\n</blockquote>\n"),
    ]);
}

#[test]
fn indented_and_fenced_code() {
    check(&[
        ("    code\n", "<pre><code>code\n</code></pre>\n"),
        ("    a\n\n    b\n", "<pre><code>a\n\nb\n</code></pre>\n"),
        ("```\ncode\n```\n", "<pre><code>code\n</code></pre>\n"),
        ("```rust\nfn main() {}\n```\n", "<pre><code class=\"language-rust\">fn main() {}\n</code></pre>\n"),
        ("  ```\n    foo\n  ```\n", "<pre><code>  foo\n</code></pre>\n"),
        ("~~~\n<\n >\n~~~\n", "<pre><code>&lt;\n &gt;\n</code></pre>\n"),
        ("```\n\n  \n```\n", "<pre><code>\n  \n</code></pre>\n"),
        ("```\n```\n", "<pre><code></code></pre>\n"),
        ("    chunk1\n\n    chunk2\n  \n \n \n    chunk3\n", "<pre><code>chunk1\n\nchunk2\n\n\n\nchunk3\n</code></pre>\n"),
        ("\tfoo\tbaz\t\tbim\n", "<pre><code>foo\tbaz\t\tbim\n</code></pre>\n"),
    ]);
}

#[test]
fn html_blocks() {
    check(&[
        ("<div>\nfoo\n</div>\n", "<div>\nfoo\n</div>\n"),
        ("<!-- c -->\n", "<!-- c -->\n"),
        ("<table><tr><td>\n<pre>\n**Hello**,\n\n_world_.\n</pre>\n</td></tr></table>\n", "<table><tr><td>\n<pre>\n**Hello**,\n<p><em>world</em>.\n</pre></p>\n</td></tr></table>\n"),
        ("<a href=\"foo\">\n", "<a href=\"foo\">\n"),
        ("<del>\n\n*foo*\n\n</del>\n", "<del>\n<p><em>foo</em></p>\n</del>\n"),
    ]);
}

#[test]
fn emphasis_and_strong_emphasis() {
    check(&[
        ("*foo*\n", "<p><em>foo</em></p>\n"),
        ("**foo**\n", "<p><strong>foo</strong></p>\n"),
        ("_foo_ bar\n", "<p><em>foo</em> bar</p>\n"),
        ("***strong emph***\n", "<p><em><strong>strong emph</strong></em></p>\n"),
        ("*foo**bar**baz*\n", "<p><em>foo<strong>bar</strong>baz</em></p>\n"),
        ("**foo*\n", "<p>*<em>foo</em></p>\n"),
        ("*foo**\n", "<p><em>foo</em>*</p>\n"),
        ("_____foo_____\n", "<p><em><strong><strong>foo</strong></strong></em></p>\n"),
        ("a * foo bar*\n", "<p>a * foo bar*</p>\n"),
        ("*foo *bar**\n", "<p><em>foo <em>bar</em></em></p>\n"),
        ("foo***bar***baz\n", "<p>foo<em><strong>bar</strong></em>baz</p>\n"),
        ("foo******bar*********baz\n", "<p>foo<strong><strong><strong>bar</strong></strong></strong>***baz</p>\n"),
        ("*foo _bar* baz_\n", "<p><em>foo _bar</em> baz_</p>\n"),
    ]);
}

#[test]
fn inline_links_and_images() {
    check(&[
        ("[link](/uri \"title\")\n", "<p><a href=\"/uri\" title=\"title\">link</a></p>\n"),
        ("![foo](/url \"title\")\n", "<p><img src=\"/url\" alt=\"foo\" title=\"title\" /></p>\n"),
        ("[link](</my uri>)\n", "<p><a href=\"/my%20uri\">link</a></p>\n"),
        ("[link](foo%20b&auml;)\n", "<p><a href=\"foo%20b%C3%A4\">link</a></p>\n"),
        ("[link](/url \"title \\\"&quot;\")\n", "<p><a href=\"/url\" title=\"title &quot;&quot;\">link</a></p>\n"),
        ("[link [foo [bar]]](/uri)\n", "<p><a href=\"/uri\">link [foo [bar]]</a></p>\n"),
        ("[link [bar](/uri)\n", "<p>[link <a href=\"/uri\">bar</a></p>\n"),
        ("[foo [bar](/uri)](/uri)\n", "<p>[foo <a href=\"/uri\">bar</a>](/uri)</p>\n"),
        ("![[[foo](uri1)](uri2)](uri3)\n", "<p><img src=\"uri3\" alt=\"[foo](uri2)\" /></p>\n"),
        ("[foo](/f&ouml;&ouml; \"f&ouml;&ouml;\")\n", "<p><a href=\"/f%C3%B6%C3%B6\" title=\"föö\">foo</a></p>\n"),
    ]);
}

#[test]
fn reference_links_and_definitions() {
    check(&[
        ("[link]\n\n[link]: /url \"title\"\n", "<p><a href=\"/url\" title=\"title\">link</a></p>\n"),
        ("[foo][bar]\n\n[bar]: /url\n", "<p><a href=\"/url\">foo</a></p>\n"),
        ("[foo]: /url \"title\"\n\n[foo]\n", "<p><a href=\"/url\" title=\"title\">foo</a></p>\n"),
        ("[foo]:\n/url\n'the title'\n\n[foo]\n", "<p><a href=\"/url\" title=\"the title\">foo</a></p>\n"),
        ("[foo]\n\n[foo]: /url\n", "<p><a href=\"/url\">foo</a></p>\n"),
        ("[Foo]\n\n[foo]: /url\n", "<p><a href=\"/url\">Foo</a></p>\n"),
        ("![foo *bar*]\n\n[foo *bar*]: train.jpg \"train & tracks\"\n", "<p><img src=\"train.jpg\" alt=\"foo bar\" title=\"train &amp; tracks\" /></p>\n"),
        ("[foo][]\n\n[foo]: /url \"title\"\n", "<p><a href=\"/url\" title=\"title\">foo</a></p>\n"),
        ("[foo] bar\n\n[foo]: /url\n", "<p><a href=\"/url\">foo</a> bar</p>\n"),
        ("\\[foo]\n\n[foo]: /url \"title\"\n", "<p>[foo]</p>\n"),
        ("[foo]: /url '\ntitle\nline1\nline2\n'\n\n[foo]\n", "<p><a href=\"/url\" title=\"\ntitle\nline1\nline2\n\">foo</a></p>\n"),
        ("[foo]: /url \"title\" ok\n", "<p>[foo]: /url &quot;title&quot; ok</p>\n"),
        ("[foo]: /url\n", ""),
        ("[foo]: /url 'the title'", ""),
        ("[foo]: /url\n\"title\" ok\n\n[foo]\n", "<p>&quot;title&quot; ok</p>\n<p><a href=\"/url\">foo</a></p>\n"),
        ("[foo]: /first\n[foo]: /second\n\n[foo]\n", "<p><a href=\"/first\">foo</a></p>\n"),
        ("[FOO]: /url\n\n[Foo]\n", "<p><a href=\"/url\">Foo</a></p>\n"),
    ]);
}

#[test]
fn autolinks() {
    check(&[
        ("<http://foo.bar>\n", "<p><a href=\"http://foo.bar\">http://foo.bar</a></p>\n"),
        ("<foo@bar.com>\n", "<p><a href=\"mailto:foo@bar.com\">foo@bar.com</a></p>\n"),
        ("**a<http://foo.bar/?q=**>\n", "<p>**a<a href=\"http://foo.bar/?q=**\">http://foo.bar/?q=**</a></p>\n"),
        ("<made-up-scheme://foo,bar>\n", "<p><a href=\"made-up-scheme://foo,bar\">made-up-scheme://foo,bar</a></p>\n"),
        ("<https://foo.bar/baz bim>\n", "<p>&lt;https://foo.bar/baz bim&gt;</p>\n"),
    ]);
}

#[test]
fn code_spans() {
    check(&[
        ("`code`\n", "<p><code>code</code></p>\n"),
        ("`` foo ` bar ``\n", "<p><code>foo ` bar</code></p>\n"),
        ("*foo`*`\n", "<p>*foo<code>*</code></p>\n"),
        ("[not a `link](/foo`)\n", "<p>[not a <code>link](/foo</code>)</p>\n"),
        ("`foo\n", "<p>`foo</p>\n"),
        ("`<http://foo.bar.`baz>`\n", "<p><code>&lt;http://foo.bar.</code>baz&gt;`</p>\n"),
    ]);
}

#[test]
fn hard_and_soft_line_breaks() {
    check(&[
        ("foo  \nbar\n", "<p>foo<br />\nbar</p>\n"),
        ("foo\\\nbar\n", "<p>foo<br />\nbar</p>\n"),
        ("foo\nbar\n", "<p>foo\nbar</p>\n"),
        ("a  \nb\nc   \nd", "<p>a<br />\nb\nc<br />\nd</p>\n"),
        ("a \nb \n", "<p>a\nb</p>\n"),
        ("a\\ \nb\n", "<p>a\\\nb</p>\n"),
        ("foo\\\nbar\\\n", "<p>foo<br />\nbar\\</p>\n"),
        ("x < y &amp; z\nw", "<p>x &lt; y &amp; z\nw</p>\n"),
    ]);
}

#[test]
fn raw_inline_html() {
    check(&[
        ("foo <!-- this is a --\ncomment - with hyphens -->\n", "<p>foo <!-- this is a --\ncomment - with hyphens --></p>\n"),
        ("<a><bab><c2c>\n", "<p><a><bab><c2c></p>\n"),
        ("<a  /><b2\ndata=\"foo\" >\n", "<p><a  /><b2\ndata=\"foo\" ></p>\n"),
        ("<33> <__>\n", "<p>&lt;33&gt; &lt;__&gt;</p>\n"),
        ("foo <?php echo $a; ?>\n", "<p>foo <?php echo $a; ?></p>\n"),
        ("<del>*foo*</del>\n", "<p><del><em>foo</em></del></p>\n"),
    ]);
}

#[test]
fn escapes_and_character_references() {
    check(&[
        ("\\!\\\"\\#\n", "<p>!&quot;#</p>\n"),
        ("&#0;\n", "<p>\u{FFFD}</p>\n"),
        ("&#X22; &#XD06; &#xcab;\n", "<p>&quot; \u{D06} \u{CAB}</p>\n"),
    ]);
}

#[test]
fn one_line_indented_code() {
    check(&[
        ("    code", "<pre><code>code\n</code></pre>\n"),
        ("      a <b> & c", "<pre><code>  a &lt;b&gt; &amp; c\n</code></pre>\n"),
        ("    x\t", "<pre><code>x\t\n</code></pre>\n"),
    ]);
}

#[test]
fn one_line_html_blocks() {
    check(&[
        ("<div>", "<div>\n"),
        ("<!-- note -->", "<!-- note -->\n"),
        ("<a href=\"x\">", "<a href=\"x\">\n"),
        ("<?php echo 1; ?>", "<?php echo 1; ?>\n"),
        ("<table><tr>  *x*", "<table><tr>  *x*\n"),
    ]);
}

#[test]
fn two_line_setext_headings() {
    check(&[
        ("Title\n=====", "<h1>Title</h1>\n"),
        ("Sub title  \n---\n", "<h2>Sub title</h2>\n"),
        ("A\n-  \t", "<h2>A</h2>\n"),
        ("Foo\n= =", "<p>Foo\n= =</p>\n"),
    ]);
}

#[test]
fn one_line_block_quotes() {
    check(&[
        ("> hello", "<blockquote>\n<p>hello</p>\n</blockquote>\n"),
        ("> a b  ", "<blockquote>\n<p>a b</p>\n</blockquote>\n"),
        ("> x & y", "<blockquote>\n<p>x &amp; y</p>\n</blockquote>\n"),
    ]);
}

#[test]
fn one_line_bullet_items() {
    check(&[
        ("- item", "<ul>\n<li>item</li>\n</ul>\n"),
        ("* a < b  ", "<ul>\n<li>a &lt; b</li>\n</ul>\n"),
        ("+ x", "<ul>\n<li>x</li>\n</ul>\n"),
    ]);
}

#[test]
fn fenced_documents() {
    check(&[
        ("```\ncode\n```", "<pre><code>code\n</code></pre>\n"),
        ("```rust\nfn main() {}\n\n<x>\n```\n", "<pre><code class=\"language-rust\">fn main() {}\n\n&lt;x&gt;\n</code></pre>\n"),
        ("~~~\n```\n~~~", "<pre><code>```\n</code></pre>\n"),
        ("```\n```", "<pre><code></code></pre>\n"),
        ("````\n```\n `````  \n", "<pre><code>```\n</code></pre>\n"),
    ]);
}

#[test]
fn labels_fold_beyond_ascii() {
    check(&[
        ("[Ά]: /u\n\n[ά]", "<p><a href=\"/u\">ά</a></p>\n"),
        ("[Ա]: /v\n\n[ա]", "<p><a href=\"/v\">ա</a></p>\n"),
        ("<@b>", "<p>&lt;@b&gt;</p>\n"),
    ]);
}
