use wechat_query::content::{
    extract_xml_text, fmt_content, fmt_type, parse_appmsg, parse_revoke, parse_sysmsg,
    strip_group_prefix, unescape_html,
};

fn text(s: &str) -> Option<String> {
    Some(s.to_string())
}

#[test]
fn kinds_are_named() {
    let kinds = [
        (1, "文本"),
        (3, "图片"),
        (34, "语音"),
        (42, "名片"),
        (43, "视频"),
        (47, "表情"),
        (48, "位置"),
        (49, "链接/文件"),
        (50, "通话"),
        (10000, "系统"),
        (10002, "撤回"),
        (0, "type=0"),
        (2, "type=2"),
    ];
    for (t, name) in kinds {
        assert_eq!(fmt_type(t), name);
        assert_eq!(fmt_type(t + (57 << 32)), name);
        assert_eq!(fmt_type(t + (-1 << 32)), name);
    }
    assert_eq!(fmt_type(-1), "type=4294967295");
    assert_eq!(fmt_type(i64::MIN), "type=0");
}

#[test]
fn xml_text_is_taken_out_and_trimmed() {
    assert_eq!(extract_xml_text("a<t> b c \n</t>d<t>e</t>", "t"), text("b c"));
    assert_eq!(extract_xml_text("</t><t>x</t>", "t"), text("x"));
    assert_eq!(extract_xml_text("<t></t>", "t"), text(""));
    assert_eq!(extract_xml_text("<t>x", "t"), None);
    assert_eq!(extract_xml_text("x</t>", "t"), None);
    assert_eq!(extract_xml_text("<t a=\"1\">x</t>", "t"), None);
    assert_eq!(extract_xml_text("<标题>内容</标题>", "标题"), text("内容"));
}

#[test]
fn references_are_resolved_in_turn() {
    assert_eq!(unescape_html("&lt;a&gt; &amp; &quot;b&quot; &apos;"), "<a> & \"b\" '");
    assert_eq!(unescape_html("&amp;lt;"), "&lt;");
    assert_eq!(unescape_html("&amp;quot;"), "\"");
    assert_eq!(unescape_html("plain"), "plain");
}

#[test]
fn recalled_messages() {
    let xml = "<sysmsg type=\"revokemsg\"><revokemsg><content>你撤回了一条消息</content></revokemsg></sysmsg>";
    assert_eq!(parse_revoke(xml), text("[撤回] 你撤回了一条消息"));
    assert_eq!(parse_revoke("<content> </content>"), text("[撤回了一条消息]"));
    assert_eq!(parse_revoke("no element"), None);
    let long = format!("<content>{}</content>", "长".repeat(31));
    assert_eq!(parse_revoke(&long), Some(format!("[撤回] {}", "长".repeat(30))));
    assert_eq!(fmt_content(1, 10002, "no element", false), "[撤回了一条消息]");
    assert_eq!(fmt_content(1, 10002, xml, true), "[撤回] 你撤回了一条消息");
}

#[test]
fn system_notices() {
    assert_eq!(parse_sysmsg("<sysmsg><content>hi</content></sysmsg>"), text("[系统] hi"));
    assert_eq!(parse_sysmsg("<sysmsg><content></content></sysmsg>"), text("[系统消息]"));
    assert_eq!(parse_sysmsg("<sysmsg/>"), text("[系统消息]"));
    assert_eq!(parse_sysmsg("joined the group"), text("[系统] joined the group"));
    assert_eq!(parse_sysmsg(""), text("[系统] "));
    assert_eq!(parse_sysmsg(&"x".repeat(60)), Some(format!("[系统] {}", "x".repeat(50))));
    assert_eq!(fmt_content(1, 10000, "<sysmsg/>", false), "[系统消息]");
}

#[test]
fn app_messages_by_type() {
    let msg = |title: &str, kind: &str| format!("<appmsg><title>{}</title><type>{}</type></appmsg>", title, kind);
    assert_eq!(parse_appmsg(&msg("a.pdf", "6")), text("[文件] a.pdf"));
    assert_eq!(parse_appmsg(&msg("", "6")), text("[文件]"));
    for kind in ["33", "36", "44"] {
        assert_eq!(parse_appmsg(&msg("app", kind)), text("[小程序] app"));
        assert_eq!(parse_appmsg(&msg("", kind)), text("[小程序]"));
    }
    assert_eq!(parse_appmsg(&msg("news", "5")), text("[链接] news"));
    assert_eq!(parse_appmsg(&msg("", "5")), text("[链接/文件]"));
    assert_eq!(parse_appmsg("<appmsg><title>t</title></appmsg>"), text("[链接] t"));
    assert_eq!(parse_appmsg("<appmsg><type>6</type></appmsg>"), None);
    assert_eq!(parse_appmsg(&msg("re", "57")), text("[引用] re"));
    assert_eq!(parse_appmsg(&msg("", "57")), text("[引用]"));
}

#[test]
fn quotations_show_what_they_quote() {
    let quote = |content: &str| {
        format!("<appmsg><title>re</title><type>57</type><content>{}</content></appmsg>", content)
    };
    assert_eq!(parse_appmsg(&quote("a \n  b")), text("[引用] re\n  \u{21b3} a b"));
    assert_eq!(parse_appmsg(&quote("")), text("[引用] re"));
    let long = "x".repeat(41);
    let cut = format!("[引用] re\n  \u{21b3} {}...", "x".repeat(40));
    assert_eq!(parse_appmsg(&quote(&long)), Some(cut));
    let full = "x".repeat(40);
    let kept = format!("[引用] re\n  \u{21b3} {}", full);
    assert_eq!(parse_appmsg(&quote(&full)), Some(kept));
    let nested = quote("&lt;appmsg&gt;&lt;title&gt;in&lt;/title&gt;&lt;type&gt;6&lt;/type&gt;&lt;/appmsg&gt;");
    assert_eq!(parse_appmsg(&nested), text("[引用] re\n  \u{21b3} [文件] in"));
    let broken = quote("&lt;appmsg&gt; no  title");
    assert_eq!(parse_appmsg(&broken), text("[引用] re\n  \u{21b3} <appmsg> no title"));
}

#[test]
fn group_prefix_is_dropped_once() {
    assert_eq!(strip_group_prefix("wxid_a:\nhello:\nworld"), "hello:\nworld");
    assert_eq!(strip_group_prefix("hello"), "hello");
    assert_eq!(strip_group_prefix(":\n"), "");
}

#[test]
fn messages_by_kind() {
    assert_eq!(fmt_content(42, 3, "x", false), "[图片] local_id=42");
    assert_eq!(fmt_content(-1, 3, "x", false), "[图片] local_id=-1");
    assert_eq!(fmt_content(1, 34, "x", false), "[语音]");
    assert_eq!(fmt_content(1, 43, "x", false), "[视频]");
    assert_eq!(fmt_content(1, 47, "x", false), "[表情]");
    assert_eq!(fmt_content(1, 50, "x", false), "[通话]");
    assert_eq!(fmt_content(1, 1, "a:\nb", true), "b");
    assert_eq!(fmt_content(1, 1, "a:\nb", false), "a:\nb");
    let app = "<appmsg><title>t</title></appmsg>";
    assert_eq!(fmt_content(1, 49, &format!("a:\n{}", app), true), "[链接] t");
    assert_eq!(fmt_content(1, 49, app, false), "[链接] t");
    assert_eq!(fmt_content(1, 1, app, false), app);
    assert_eq!(fmt_content(1, 49, "<appmsg>", false), "<appmsg>");
    assert_eq!(fmt_content(1, 49, "no xml", false), "no xml");
}

#[test]
fn resolving_gives_back_what_was_escaped() {
    let escape = |s: &str| -> String {
        s.chars()
            .map(|c| match c {
                '&' => "&amp;".to_string(),
                '<' => "&lt;".to_string(),
                '>' => "&gt;".to_string(),
                '"' => "&quot;".to_string(),
                '\'' => "&apos;".to_string(),
                c => c.to_string(),
            })
            .collect()
    };
    for s in ["", "a & b", "<a href=\"x\">it's</a>", "&lt;&gt;&amp;", "&quot", "&&;quot;", "&\"quot;", "你好"] {
        assert_eq!(unescape_html(&escape(s)), s);
    }
    assert_eq!(unescape_html(&escape("&quot;")), "\"");
    assert_eq!(unescape_html(&escape("&apos;")), "'");
}

#[test]
fn an_element_may_hold_others() {
    assert_eq!(extract_xml_text("x<t> <b>y</b> </t>z", "t"), text("<b>y</b>"));
    assert_eq!(extract_xml_text("<t><t>y</t></t>", "t"), text("<t>y"));
    assert_eq!(extract_xml_text("<t>a</</t>", "t"), text("a</"));
}
