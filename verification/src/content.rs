//! What a message is shown as: the name of its kind, its text, and the text
//! taken out of the XML that some kinds carry.

use vstd::prelude::*;

use crate::digits::{decimal, decimal_text};
use crate::text::{
    at_most, beginnings_by_character, begins_with, contains, cut_at_the_first_mark, find, has_part,
    joined, lemma_find, lemma_find_is, lemma_replaced_after, lemma_replaced_here,
    lemma_replaced_len, occurs_at, opt_text, part_is_replaced, replace, replaced,
    replacing_goes_piece_by_piece, same_text, shortened, split_at_mark, split_once, starts_with,
    text_without_part_is_kept,
};
use crate::words::{
    all_white, lemma_trimmed_len, lines_of_words_are_not_empty, single_spaced, squeeze, trim,
    trimmed,
};

verus! {

// ---------------------------------------------------------------------------
// Kinds

/// The kind of a message: the low 32 bits of the stored type.
pub open spec fn base_type(t: i64) -> int {
    t as int % 0x1_0000_0000
}

fn base_of(t: i64) -> (base: i64)
    ensures
        base == base_type(t),
{
    assert(t as u64 & 0xFFFF_FFFF <= 0xFFFF_FFFF) by (bit_vector);
    assert((t as u64 & 0xFFFF_FFFF) as i64 == t % 0x1_0000_0000i64) by (bit_vector);
    (t as u64 & 0xFFFF_FFFF) as i64
}

/// The name of a kind of message.
pub open spec fn kind_name(base: int) -> Seq<char> {
    if base == 1 {
        "文本"@
    } else if base == 3 {
        "图片"@
    } else if base == 34 {
        "语音"@
    } else if base == 42 {
        "名片"@
    } else if base == 43 {
        "视频"@
    } else if base == 47 {
        "表情"@
    } else if base == 48 {
        "位置"@
    } else if base == 49 {
        "链接/文件"@
    } else if base == 50 {
        "通话"@
    } else if base == 10000 {
        "系统"@
    } else if base == 10002 {
        "撤回"@
    } else {
        "type="@ + decimal(base)
    }
}

/// The name of the kind of message that a stored type stands for.
pub fn fmt_type(t: i64) -> (name: String)
    ensures
        name@ == kind_name(base_type(t)),
{
    let base = base_of(t);
    match base {
        1 => "文本".to_owned(),
        3 => "图片".to_owned(),
        34 => "语音".to_owned(),
        42 => "名片".to_owned(),
        43 => "视频".to_owned(),
        47 => "表情".to_owned(),
        48 => "位置".to_owned(),
        49 => "链接/文件".to_owned(),
        50 => "通话".to_owned(),
        10000 => "系统".to_owned(),
        10002 => "撤回".to_owned(),
        _ => joined("type=", decimal_text(base).as_str()),
    }
}

// ---------------------------------------------------------------------------
// XML

/// The text between the leftmost `<tag>` and the next `</tag>`, without white
/// space at either end.
pub open spec fn xml_text(xml: Seq<char>, tag: Seq<char>) -> Option<Seq<char>> {
    match split_at_mark(xml, seq!['<'] + tag + seq!['>']) {
        Some((_, rest)) => match split_at_mark(rest, seq!['<', '/'] + tag + seq!['>']) {
            Some((inner, _)) => Some(trimmed(inner)),
            None => None,
        },
        None => None,
    }
}

/// The text of an element is shorter than the text that the element stands in.
pub proof fn lemma_xml_text_len(xml: Seq<char>, tag: Seq<char>)
    ensures
        xml_text(xml, tag) matches Some(inner) ==> inner.len() < xml.len(),
{
    let open = seq!['<'] + tag + seq!['>'];
    let close = seq!['<', '/'] + tag + seq!['>'];
    lemma_find(xml, open);
    if let Some((_, rest)) = split_at_mark(xml, open) {
        lemma_find(rest, close);
        if let Some((inner, _)) = split_at_mark(rest, close) {
            lemma_trimmed_len(inner);
        }
    }
}

/// The text of the first element with the given tag.
pub fn extract_xml_text(xml: &str, tag: &str) -> (inner: Option<String>)
    ensures
        opt_text(inner) == xml_text(xml@, tag@),
{
    proof {
        reveal_strlit("<");
        reveal_strlit("</");
        reveal_strlit(">");
        assert("<"@ =~= seq!['<']);
        assert("</"@ =~= seq!['<', '/']);
        assert(">"@ =~= seq!['>']);
    }
    let open = joined(joined("<", tag).as_str(), ">");
    let close = joined(joined("</", tag).as_str(), ">");
    match split_once(xml, open.as_str()) {
        Some((_, rest)) => match split_once(rest.as_str(), close.as_str()) {
            Some((inner, _)) => Some(trim(inner.as_str())),
            None => None,
        },
        None => None,
    }
}

/// Text with the five named character references of XML resolved, one after
/// the other.
pub open spec fn unescaped(s: Seq<char>) -> Seq<char> {
    let s = replaced(s, "&lt;"@, "<"@);
    let s = replaced(s, "&gt;"@, ">"@);
    let s = replaced(s, "&amp;"@, "&"@);
    let s = replaced(s, "&quot;"@, "\""@);
    replaced(s, "&apos;"@, "'"@)
}

/// Resolving character references never makes text longer.
pub proof fn lemma_unescaped_len(s: Seq<char>)
    ensures
        unescaped(s).len() <= s.len(),
{
    reveal_strlit("&lt;");
    reveal_strlit("<");
    reveal_strlit("&gt;");
    reveal_strlit(">");
    reveal_strlit("&amp;");
    reveal_strlit("&");
    reveal_strlit("&quot;");
    reveal_strlit("\"");
    reveal_strlit("&apos;");
    reveal_strlit("'");
    let s1 = replaced(s, "&lt;"@, "<"@);
    let s2 = replaced(s1, "&gt;"@, ">"@);
    let s3 = replaced(s2, "&amp;"@, "&"@);
    let s4 = replaced(s3, "&quot;"@, "\""@);
    lemma_replaced_len(s, "&lt;"@, "<"@);
    lemma_replaced_len(s1, "&gt;"@, ">"@);
    lemma_replaced_len(s2, "&amp;"@, "&"@);
    lemma_replaced_len(s3, "&quot;"@, "\""@);
    lemma_replaced_len(s4, "&apos;"@, "'"@);
}

/// Resolves the named character references of XML.
pub fn unescape_html(s: &str) -> (out: String)
    ensures
        out@ == unescaped(s@),
{
    proof {
        reveal_strlit("&lt;");
        reveal_strlit("&gt;");
        reveal_strlit("&amp;");
        reveal_strlit("&quot;");
        reveal_strlit("&apos;");
    }
    let s = replace(s, "&lt;", "<");
    let s = replace(s.as_str(), "&gt;", ">");
    let s = replace(s.as_str(), "&amp;", "&");
    let s = replace(s.as_str(), "&quot;", "\"");
    replace(s.as_str(), "&apos;", "'")
}

// ---------------------------------------------------------------------------
// System notices and recalled messages

/// What a recalled message is shown as.
pub open spec fn revoke_text(xml: Seq<char>) -> Option<Seq<char>> {
    match xml_text(xml, "content"@) {
        Some(inner) => if inner.len() == 0 {
            Some("[撤回了一条消息]"@)
        } else {
            Some("[撤回] "@ + at_most(inner, 30))
        },
        None => None,
    }
}

/// Reads the XML of a recalled message.
pub fn parse_revoke(xml: &str) -> (shown: Option<String>)
    ensures
        opt_text(shown) == revoke_text(xml@),
{
    match extract_xml_text(xml, "content") {
        Some(inner) => if inner.as_str().is_empty() {
            Some("[撤回了一条消息]".to_owned())
        } else {
            Some(joined("[撤回] ", shortened(inner.as_str(), 30).as_str()))
        },
        None => None,
    }
}

/// What a system notice is shown as: the text of its `content` element, the
/// notice itself if it is no XML, or a fixed text.
pub open spec fn sysmsg_text(xml: Seq<char>) -> Option<Seq<char>> {
    let inner = match xml_text(xml, "content"@) {
        Some(inner) => inner,
        None => Seq::empty(),
    };
    if inner.len() > 0 {
        Some("[系统] "@ + at_most(inner, 50))
    } else if !begins_with(xml, "<"@) {
        Some("[系统] "@ + at_most(xml, 50))
    } else {
        Some("[系统消息]"@)
    }
}

/// Reads a system notice.
pub fn parse_sysmsg(xml: &str) -> (shown: Option<String>)
    ensures
        opt_text(shown) == sysmsg_text(xml@),
{
    if let Some(inner) = extract_xml_text(xml, "content") {
        if !inner.as_str().is_empty() {
            return Some(joined("[系统] ", shortened(inner.as_str(), 50).as_str()));
        }
    }
    if !starts_with(xml, "<") {
        return Some(joined("[系统] ", shortened(xml, 50).as_str()));
    }
    Some("[系统消息]".to_owned())
}

// ---------------------------------------------------------------------------
// Links, files, mini programs and quotations

/// A title with a label before it, or the label that stands alone.
pub open spec fn labelled(label: Seq<char>, alone: Seq<char>, title: Seq<char>) -> Seq<char> {
    if title.len() > 0 {
        label + title
    } else {
        alone
    }
}

fn with_label(label: &str, alone: &str, title: &str) -> (shown: String)
    ensures
        shown@ == labelled(label@, alone@, title@),
{
    if !title.is_empty() {
        joined(label, title)
    } else {
        alone.to_owned()
    }
}

/// Text on one line, cut after forty characters.
pub open spec fn one_line(s: Seq<char>) -> Seq<char> {
    let line = single_spaced(s);
    if line.len() > 40 {
        line.take(40) + "..."@
    } else {
        line
    }
}

fn on_one_line(s: &str) -> (shown: String)
    ensures
        shown@ == one_line(s@),
{
    let line = squeeze(s);
    if line.as_str().unicode_len() > 40 {
        joined(shortened(line.as_str(), 40).as_str(), "...")
    } else {
        line
    }
}

/// What an `appmsg` is shown as, by its title and type. There is nothing to
/// show if it has no title. A quotation (type 57) shows the quoted message
/// below its own title; the quoted message may be an `appmsg` again.
pub open spec fn appmsg_text(text: Seq<char>) -> Option<Seq<char>>
    decreases text.len(),
{
    match xml_text(text, "title"@) {
        None => None,
        Some(title) => {
            let kind = match xml_text(text, "type"@) {
                Some(t) => t,
                None => Seq::empty(),
            };
            if kind == "6"@ {
                Some(labelled("[文件] "@, "[文件]"@, title))
            } else if kind == "57"@ {
                let quoted = match xml_text(text, "content"@) {
                    Some(inner) => {
                        proof {
                            lemma_xml_text_len(text, "content"@);
                            lemma_unescaped_len(inner);
                        }
                        let plain = unescaped(inner);
                        if has_part(plain, "<appmsg"@) && appmsg_text(plain) is Some {
                            appmsg_text(plain)->0
                        } else {
                            one_line(plain)
                        }
                    },
                    None => Seq::empty(),
                };
                let head = labelled("[引用] "@, "[引用]"@, title);
                if quoted.len() > 0 {
                    Some(head + "\n  \u{21b3} "@ + quoted)
                } else {
                    Some(head)
                }
            } else if kind == "33"@ || kind == "36"@ || kind == "44"@ {
                Some(labelled("[小程序] "@, "[小程序]"@, title))
            } else {
                Some(labelled("[链接] "@, "[链接/文件]"@, title))
            }
        },
    }
}

/// Reads an `appmsg`.
pub fn parse_appmsg(text: &str) -> (shown: Option<String>)
    ensures
        opt_text(shown) == appmsg_text(text@),
    decreases text@.len(),
{
    let title = match extract_xml_text(text, "title") {
        Some(title) => title,
        None => return None,
    };
    let title = title.as_str();
    let kind = match extract_xml_text(text, "type") {
        Some(kind) => kind,
        None => String::new(),
    };
    let kind = kind.as_str();
    if same_text(kind, "6") {
        Some(with_label("[文件] ", "[文件]", title))
    } else if same_text(kind, "57") {
        let quoted = match extract_xml_text(text, "content") {
            Some(inner) => {
                proof {
                    lemma_xml_text_len(text@, "content"@);
                    lemma_unescaped_len(inner@);
                }
                let plain = unescape_html(inner.as_str());
                let nested = if contains(plain.as_str(), "<appmsg") {
                    parse_appmsg(plain.as_str())
                } else {
                    None
                };
                match nested {
                    Some(shown) => shown,
                    None => on_one_line(plain.as_str()),
                }
            },
            None => String::new(),
        };
        let head = with_label("[引用] ", "[引用]", title);
        if !quoted.as_str().is_empty() {
            Some(joined(joined(head.as_str(), "\n  \u{21b3} ").as_str(), quoted.as_str()))
        } else {
            Some(head)
        }
    } else if same_text(kind, "33") || same_text(kind, "36") || same_text(kind, "44") {
        Some(with_label("[小程序] ", "[小程序]", title))
    } else {
        Some(with_label("[链接] ", "[链接/文件]", title))
    }
}

// ---------------------------------------------------------------------------
// Messages

/// The mark between the sender and the text in a group message.
pub open spec fn sender_mark() -> Seq<char> {
    ":\n"@
}

/// Text without the sender that a group message begins with.
pub open spec fn without_sender(s: Seq<char>) -> Seq<char> {
    match split_at_mark(s, sender_mark()) {
        Some((_, body)) => body,
        None => s,
    }
}

/// Drops the sender that a group message begins with.
pub fn strip_group_prefix(s: &str) -> (body: String)
    ensures
        body@ == without_sender(s@),
{
    match split_once(s, ":\n") {
        Some((_, body)) => body,
        None => s.to_owned(),
    }
}

/// What a message is shown as, by the kind of the message.
pub open spec fn content_text(local_id: int, base: int, content: Seq<char>, is_group: bool) -> Seq<
    char,
> {
    if base == 3 {
        "[图片] local_id="@ + decimal(local_id)
    } else if base == 34 {
        "[语音]"@
    } else if base == 43 {
        "[视频]"@
    } else if base == 47 {
        "[表情]"@
    } else if base == 50 {
        "[通话]"@
    } else if base == 10000 {
        match sysmsg_text(content) {
            Some(shown) => shown,
            None => "[系统消息]"@,
        }
    } else if base == 10002 {
        match revoke_text(content) {
            Some(shown) => shown,
            None => "[撤回了一条消息]"@,
        }
    } else {
        let body = if is_group {
            without_sender(content)
        } else {
            content
        };
        if base == 49 && has_part(body, "<appmsg"@) && appmsg_text(body) is Some {
            appmsg_text(body)->0
        } else {
            body
        }
    }
}

/// What a message is shown as.
pub fn fmt_content(local_id: i64, local_type: i64, content: &str, is_group: bool) -> (shown: String)
    ensures
        shown@ == content_text(local_id as int, base_type(local_type), content@, is_group),
{
    let base = base_of(local_type);
    match base {
        3 => return joined("[图片] local_id=", decimal_text(local_id).as_str()),
        34 => return "[语音]".to_owned(),
        43 => return "[视频]".to_owned(),
        47 => return "[表情]".to_owned(),
        50 => return "[通话]".to_owned(),
        10000 => return match parse_sysmsg(content) {
            Some(shown) => shown,
            None => "[系统消息]".to_owned(),
        },
        10002 => return match parse_revoke(content) {
            Some(shown) => shown,
            None => "[撤回了一条消息]".to_owned(),
        },
        _ => {},
    }
    let body = if is_group {
        strip_group_prefix(content)
    } else {
        content.to_owned()
    };
    if base == 49 && contains(body.as_str(), "<appmsg") {
        if let Some(shown) = parse_appmsg(body.as_str()) {
            return shown;
        }
    }
    body
}

// ---------------------------------------------------------------------------
// Laws

/// The text of an element is found wherever the element stands, if nothing
/// before it opens such an element and nothing in it closes one.
pub proof fn element_reads_back(
    tag: Seq<char>,
    before: Seq<char>,
    inner: Seq<char>,
    after: Seq<char>,
)
    requires
        !tag.contains('<'),
        !has_part(before, seq!['<'] + tag + seq!['>']),
        !has_part(inner, seq!['<', '/'] + tag + seq!['>']),
    ensures
        xml_text(
            before + (seq!['<'] + tag + seq!['>']) + inner + (seq!['<', '/'] + tag + seq!['>'])
                + after,
            tag,
        ) == Some(trimmed(inner)),
{
    let open = seq!['<'] + tag + seq!['>'];
    let close = seq!['<', '/'] + tag + seq!['>'];
    let xml = before + open + inner + close + after;
    let n = before.len() as int;
    assert(xml.subrange(n, n + open.len()) =~= open);
    assert forall|j: int| 0 <= j < n implies !occurs_at(xml, open, j) by {
        if occurs_at(xml, open, j) {
            let cut = xml.subrange(j, j + open.len());
            if j + open.len() <= n {
                assert(before.subrange(j, j + open.len()) =~= cut);
                assert(occurs_at(before, open, j));
            } else {
                assert(cut[n - j] == xml[n]);
                assert(xml[n] == '<');
                assert(open[n - j] == '<');
                if n - j <= tag.len() {
                    assert(tag[n - j - 1] == '<');
                }
            }
        }
    }
    lemma_find_is(xml, open, n);
    let rest = xml.skip(n + open.len());
    assert(rest =~= inner + close + after);
    let m = inner.len() as int;
    assert(rest.subrange(m, m + close.len()) =~= close);
    assert forall|j: int| 0 <= j < m implies !occurs_at(rest, close, j) by {
        if occurs_at(rest, close, j) {
            let cut = rest.subrange(j, j + close.len());
            if j + close.len() <= m {
                assert(inner.subrange(j, j + close.len()) =~= cut);
                assert(occurs_at(inner, close, j));
            } else {
                assert(cut[m - j] == rest[m]);
                assert(rest[m] == '<');
                assert(close[m - j] == '<');
                if 2 <= m - j < tag.len() + 2 {
                    assert(tag[m - j - 2] == '<');
                }
            }
        }
    }
    lemma_find_is(rest, close, m);
    assert(rest.take(m) =~= inner);
}

/// The place of a character in the order in which references are resolved; zero
/// for one that is written as it is.
spec fn turn(c: char) -> int {
    if c == '<' {
        1
    } else if c == '>' {
        2
    } else if c == '&' {
        3
    } else if c == '"' {
        4
    } else if c == '\'' {
        5
    } else {
        0
    }
}

/// A character as it is written in XML: five of them as references.
pub open spec fn as_reference(c: char) -> Seq<char> {
    if c == '<' {
        "&lt;"@
    } else if c == '>' {
        "&gt;"@
    } else if c == '&' {
        "&amp;"@
    } else if c == '"' {
        "&quot;"@
    } else if c == '\'' {
        "&apos;"@
    } else {
        seq![c]
    }
}

/// Text as it is written in XML, character by character.
pub open spec fn escaped(s: Seq<char>) -> Seq<char>
    decreases s.len(),
{
    if s.len() == 0 {
        Seq::empty()
    } else {
        as_reference(s.first()) + escaped(s.drop_first())
    }
}

/// A character when the first `n` references are resolved.
spec fn spelt(c: char, n: int) -> Seq<char> {
    if turn(c) > n {
        as_reference(c)
    } else {
        seq![c]
    }
}

/// Escaped text when the first `n` references are resolved.
spec fn half_resolved(s: Seq<char>, n: int) -> Seq<char>
    decreases s.len(),
{
    if s.len() == 0 {
        Seq::empty()
    } else {
        spelt(s.first(), n) + half_resolved(s.drop_first(), n)
    }
}

proof fn lemma_half_resolved_ends(s: Seq<char>)
    ensures
        half_resolved(s, 0) == escaped(s),
        half_resolved(s, 5) == s,
    decreases s.len(),
{
    if s.len() > 0 {
        lemma_half_resolved_ends(s.drop_first());
        assert(seq![s.first()] + s.drop_first() =~= s);
    } else {
        assert(s =~= Seq::empty());
    }
}

/// The references, character by character.
proof fn lemma_references()
    ensures
        as_reference('<') == seq!['&', 'l', 't', ';'],
        as_reference('>') == seq!['&', 'g', 't', ';'],
        as_reference('&') == seq!['&', 'a', 'm', 'p', ';'],
        as_reference('"') == seq!['&', 'q', 'u', 'o', 't', ';'],
        as_reference('\'') == seq!['&', 'a', 'p', 'o', 's', ';'],
{
    reveal_strlit("&lt;");
    reveal_strlit("&gt;");
    reveal_strlit("&amp;");
    reveal_strlit("&quot;");
    reveal_strlit("&apos;");
    assert("&lt;"@ =~= seq!['&', 'l', 't', ';']);
    assert("&gt;"@ =~= seq!['&', 'g', 't', ';']);
    assert("&amp;"@ =~= seq!['&', 'a', 'm', 'p', ';']);
    assert("&quot;"@ =~= seq!['&', 'q', 'u', 'o', 't', ';']);
    assert("&apos;"@ =~= seq!['&', 'a', 'p', 'o', 's', ';']);
}

/// Text without `&` that stands at the beginning of half resolved text stands
/// at the beginning of the text itself.
proof fn lemma_plain_beginning(s: Seq<char>, n: int, w: Seq<char>)
    requires
        begins_with(half_resolved(s, n), w),
        !w.contains('&'),
    ensures
        begins_with(s, w),
    decreases s.len(),
{
    let t = half_resolved(s, n);
    lemma_references();
    assert(t.subrange(0, w.len() as int) =~= w);
    if w.len() == 0 {
        assert(s.subrange(0, 0) =~= w);
    } else {
        let c = s.first();
        let rest = s.drop_first();
        assert(t.subrange(0, w.len() as int)[0] == t[0]);
        assert(w[0] != '&');
        assert(t[0] == spelt(c, n)[0]);
        assert(spelt(c, n) == seq![c]);
        let v = w.drop_first();
        let u = half_resolved(rest, n);
        assert forall|i: int| 0 <= i < v.len() implies v[i] == u[i] by {
            assert(w[i + 1] == t.subrange(0, w.len() as int)[i + 1]);
            assert(t[i + 1] == u[i]);
        }
        assert(u.subrange(0, v.len() as int) =~= v);
        assert forall|i: int| 0 <= i < v.len() implies v[i] != '&' by {
            assert(w[i + 1] == v[i]);
        }
        lemma_plain_beginning(rest, n, v);
        assert forall|i: int| 0 <= i < w.len() implies w[i] == s[i] by {
            if i > 0 {
                assert(v[i - 1] == rest.subrange(0, v.len() as int)[i - 1]);
                assert(rest[i - 1] == s[i]);
            }
        }
        assert(s.subrange(0, w.len() as int) =~= w);
    }
}

/// No occurrence of the reference to be resolved next begins in the spelling of
/// another character.
proof fn lemma_other_spelling(s: Seq<char>, c: char, k: int)
    requires
        s.len() > 0,
        turn(c) > 0,
        s.first() != c,
        turn(c) <= 3 || !has_part(s, as_reference(c)),
        0 <= k < spelt(s.first(), turn(c) - 1).len(),
    ensures
        !occurs_at(half_resolved(s, turn(c) - 1), as_reference(c), k),
{
    let n = turn(c) - 1;
    let part = as_reference(c);
    let t = half_resolved(s, n);
    let e = spelt(s.first(), n);
    let rest = half_resolved(s.drop_first(), n);
    lemma_references();
    if occurs_at(t, part, k) {
        let cut = t.subrange(k, k + part.len());
        assert(cut[0] == t[k]);
        assert(t[k] == e[k]);
        assert(e[k] == '&');
        if turn(s.first()) > n {
            assert(k == 0);
            assert(cut[1] == t[1] && t[1] == e[1]);
            assert(cut[2] == t[2] && t[2] == e[2]);
        } else {
            assert(s.first() == '&');
            let w = part.drop_first();
            assert forall|i: int| 0 <= i < w.len() implies w[i] == rest[i] by {
                assert(cut[i + 1] == t[i + 1]);
                assert(t[i + 1] == rest[i]);
            }
            assert(rest.subrange(0, w.len() as int) =~= w);
            lemma_plain_beginning(s.drop_first(), n, w);
            let tail = s.drop_first();
            assert forall|i: int| 0 <= i < part.len() implies part[i] == s[i] by {
                if i > 0 {
                    assert(w[i - 1] == tail.subrange(0, w.len() as int)[i - 1]);
                    assert(tail[i - 1] == s[i]);
                }
            }
            assert(s.subrange(0, part.len() as int) =~= part);
            assert(occurs_at(s, part, 0));
        }
    }
}

/// Resolving the next reference resolves it everywhere and nothing else.
proof fn lemma_next_resolved(s: Seq<char>, c: char)
    requires
        turn(c) > 0,
        turn(c) <= 3 || !has_part(s, as_reference(c)),
    ensures
        replaced(half_resolved(s, turn(c) - 1), as_reference(c), seq![c]) == half_resolved(
            s,
            turn(c),
        ),
    decreases s.len(),
{
    let n = turn(c) - 1;
    let part = as_reference(c);
    lemma_references();
    if s.len() == 0 {
        lemma_find(Seq::empty(), part);
    } else {
        let rest = s.drop_first();
        assert forall|i: int| #[trigger] occurs_at(rest, part, i) implies occurs_at(
            s,
            part,
            i + 1,
        ) by {
            assert(s.subrange(i + 1, i + 1 + part.len()) =~= rest.subrange(i, i + part.len()));
        }
        lemma_next_resolved(rest, c);
        let t = half_resolved(rest, n);
        if s.first() == c {
            lemma_replaced_here(t, part, seq![c]);
        } else {
            let e = spelt(s.first(), n);
            assert forall|k: int| 0 <= k < e.len() implies !#[trigger] occurs_at(
                e + t,
                part,
                k,
            ) by {
                lemma_other_spelling(s, c, k);
            }
            lemma_replaced_after(e, t, part, seq![c]);
            assert(spelt(s.first(), n) == spelt(s.first(), n + 1));
        }
    }
}

/// Resolving references undoes escaping: text comes back unchanged, if it holds
/// neither of the references to quotation marks itself. Those are resolved after
/// `&amp;`, so that one that was escaped is resolved twice.
pub proof fn resolving_undoes_escaping(s: Seq<char>)
    requires
        !has_part(s, "&quot;"@),
        !has_part(s, "&apos;"@),
    ensures
        unescaped(escaped(s)) == s,
{
    reveal_strlit("<");
    reveal_strlit(">");
    reveal_strlit("&");
    reveal_strlit("\"");
    reveal_strlit("'");
    assert("<"@ =~= seq!['<']);
    assert(">"@ =~= seq!['>']);
    assert("&"@ =~= seq!['&']);
    assert("\""@ =~= seq!['"']);
    assert("'"@ =~= seq!['\'']);
    lemma_half_resolved_ends(s);
    lemma_next_resolved(s, '<');
    lemma_next_resolved(s, '>');
    lemma_next_resolved(s, '&');
    lemma_next_resolved(s, '"');
    lemma_next_resolved(s, '\'');
}

/// Text without `&` holds no reference and is unchanged.
pub proof fn text_without_references_is_unchanged(s: Seq<char>)
    requires
        !s.contains('&'),
    ensures
        unescaped(s) == s,
{
    lemma_references();
    assert forall|c: char| turn(c) > 0 implies find(s, #[trigger] as_reference(c)) is None by {
        let part = as_reference(c);
        lemma_find(s, part);
        if has_part(s, part) {
            let i = choose|i: int| occurs_at(s, part, i);
            assert(s.subrange(i, i + part.len())[0] == s[i]);
            assert(s[i] == '&');
        }
    }
    assert(find(s, as_reference('<')) is None);
    assert(find(s, as_reference('>')) is None);
    assert(find(s, as_reference('&')) is None);
    assert(find(s, as_reference('"')) is None);
    assert(find(s, as_reference('\'')) is None);
}

/// A message of a group, stored as the sender, the mark and the text, falls
/// into the sender and the text again, if the sender does not hold the mark.
pub proof fn group_message_reads_back(sender: Seq<char>, text: Seq<char>)
    requires
        !has_part(sender, sender_mark()),
    ensures
        split_at_mark(sender + sender_mark() + text, sender_mark()) == Some((sender, text)),
        without_sender(sender + sender_mark() + text) == text,
{
    reveal_strlit(":\n");
    let mark = sender_mark();
    let s = sender + mark + text;
    let n = sender.len() as int;
    assert(s.subrange(n, n + 2) =~= mark);
    assert forall|j: int| 0 <= j < n implies !occurs_at(s, mark, j) by {
        if occurs_at(s, mark, j) {
            let cut = s.subrange(j, j + 2);
            if j + 2 <= n {
                assert(sender.subrange(j, j + 2) =~= cut);
                assert(occurs_at(sender, mark, j));
            } else {
                assert(cut[1] == s[n]);
                assert(s[n] == ':');
            }
        }
    }
    lemma_find_is(s, mark, n);
    assert(s.take(n) =~= sender);
    assert(s.skip(n + 2) =~= text);
}

/// What a recalled message, a system notice and a quoted text are shown as is
/// bounded, however long they are.
pub proof fn notices_are_short(text: Seq<char>)
    ensures
        revoke_text(text) matches Some(shown) ==> shown.len() <= 35,
        sysmsg_text(text) matches Some(shown) ==> shown.len() <= 55,
        sysmsg_text(text) is Some,
        one_line(text).len() <= 43,
{
    reveal_strlit("[撤回] ");
    reveal_strlit("[撤回了一条消息]");
    reveal_strlit("[系统] ");
    reveal_strlit("[系统消息]");
    reveal_strlit("...");
}

/// The kind of a message is told by the low half of its stored type alone.
pub proof fn kinds_go_by_the_low_half(t: i64, u: i64)
    ensures
        (t - u) % 0x1_0000_0000 == 0 ==> kind_name(base_type(t)) == kind_name(base_type(u)),
        0 <= t < 0x1_0000_0000 ==> base_type(t) == t,
        0 <= base_type(t) < 0x1_0000_0000,
        (t - base_type(t)) % 0x1_0000_0000 == 0,
{
}

/// Each kind has its name, and other kinds are named by number.
pub proof fn kinds_have_their_names(base: int)
    ensures
        kind_name(1) == seq!['文', '本'],
        kind_name(3) == seq!['图', '片'],
        kind_name(34) == seq!['语', '音'],
        kind_name(42) == seq!['名', '片'],
        kind_name(43) == seq!['视', '频'],
        kind_name(47) == seq!['表', '情'],
        kind_name(48) == seq!['位', '置'],
        kind_name(49) == seq!['链', '接', '/', '文', '件'],
        kind_name(50) == seq!['通', '话'],
        kind_name(10000) == seq!['系', '统'],
        kind_name(10002) == seq!['撤', '回'],
        !seq![1int, 3, 34, 42, 43, 47, 48, 49, 50, 10000, 10002].contains(base) ==> kind_name(base)
            == seq!['t', 'y', 'p', 'e', '='] + decimal(base),
{
    reveal_strlit("文本");
    reveal_strlit("图片");
    reveal_strlit("语音");
    reveal_strlit("名片");
    reveal_strlit("视频");
    reveal_strlit("表情");
    reveal_strlit("位置");
    reveal_strlit("链接/文件");
    reveal_strlit("通话");
    reveal_strlit("系统");
    reveal_strlit("撤回");
    reveal_strlit("type=");
    assert("type="@ =~= seq!['t', 'y', 'p', 'e', '=']);
    let named = seq![1int, 3, 34, 42, 43, 47, 48, 49, 50, 10000, 10002];
    assert(named[0] == 1 && named[1] == 3 && named[2] == 34 && named[3] == 42 && named[4] == 43
        && named[5] == 47 && named[6] == 48 && named[7] == 49 && named[8] == 50 && named[9] == 10000
        && named[10] == 10002);
}

/// What is taken for the text of an element stands between its tags; if nothing
/// is, then no such element is there.
pub proof fn elements_stand_between_tags(xml: Seq<char>, tag: Seq<char>)
    ensures
        xml_text(xml, tag) matches Some(text) ==> exists|
            before: Seq<char>,
            inner: Seq<char>,
            after: Seq<char>,
        |
            text == trimmed(inner) && xml == #[trigger] framed_element(tag, before, inner, after),
        xml_text(xml, tag) is None ==> forall|
            before: Seq<char>,
            inner: Seq<char>,
            after: Seq<char>,
        |
            xml != #[trigger] framed_element(tag, before, inner, after),
{
    let open = seq!['<'] + tag + seq!['>'];
    let close = seq!['<', '/'] + tag + seq!['>'];
    lemma_find(xml, open);
    match split_at_mark(xml, open) {
        Some((before, rest)) => {
            cut_at_the_first_mark(xml, open);
            lemma_find(rest, close);
            match split_at_mark(rest, close) {
                Some((inner, after)) => {
                    cut_at_the_first_mark(rest, close);
                    assert(xml =~= framed_element(tag, before, inner, after));
                },
                None => {
                    let i = before.len() as int;
                    assert forall|a: Seq<char>, inner: Seq<char>, after: Seq<char>|
                        xml != #[trigger] framed_element(tag, a, inner, after) by {
                        if xml == framed_element(tag, a, inner, after) {
                            assert(xml.subrange(a.len() as int, a.len() as int + open.len()) =~= open);
                            assert(occurs_at(xml, open, a.len() as int));
                            assert(i <= a.len());
                            let at = a.len() + open.len() + inner.len() - (i + open.len());
                            assert(rest =~= xml.skip(i + open.len()));
                            assert(rest.subrange(at, at + close.len()) =~= close);
                            assert(occurs_at(rest, close, at));
                        }
                    }
                },
            }
        },
        None => {
            assert forall|a: Seq<char>, inner: Seq<char>, after: Seq<char>|
                xml != #[trigger] framed_element(tag, a, inner, after) by {
                if xml == framed_element(tag, a, inner, after) {
                    assert(xml.subrange(a.len() as int, a.len() as int + open.len()) =~= open);
                    assert(occurs_at(xml, open, a.len() as int));
                }
            }
        },
    }
}

/// Text with an element in it.
pub open spec fn framed_element(
    tag: Seq<char>,
    before: Seq<char>,
    inner: Seq<char>,
    after: Seq<char>,
) -> Seq<char> {
    before + (seq!['<'] + tag + seq!['>']) + inner + (seq!['<', '/'] + tag + seq!['>']) + after
}

// ---------------------------------------------------------------------------
// References, one by one

/// One of the five references.
spec fn is_reference(p: Seq<char>) -> bool {
    ||| p == as_reference('<')
    ||| p == as_reference('>')
    ||| p == as_reference('&')
    ||| p == as_reference('"')
    ||| p == as_reference('\'')
}

/// A piece that no reference lies across the ends of, whatever stands around it.
spec fn stands_apart(m: Seq<char>) -> bool {
    ||| m.len() > 1 && m[0] == '&' && m.last() == ';'
    ||| m.len() == 1 && (m[0] == '<' || m[0] == '>' || m[0] == '"' || m[0] == '\'')
}

proof fn lemma_replaced_around(a: Seq<char>, m: Seq<char>, b: Seq<char>, p: Seq<char>, new: Seq<
    char,
>)
    requires
        is_reference(p),
        stands_apart(m),
    ensures
        replaced(a + m + b, p, new) == replaced(a, p, new) + replaced(m, p, new) + replaced(
            b,
            p,
            new,
        ),
{
    lemma_references();
    let am = a + m;
    assert forall|k: int|
        0 <= k < am.len() && am.len() < k + p.len() implies !#[trigger] occurs_at(am + b, p, k) by {
        if occurs_at(am + b, p, k) {
            let i = am.len() - 1 - k;
            assert((am + b).subrange(k, k + p.len())[i] == (am + b)[am.len() - 1]);
            assert((am + b)[am.len() - 1] == m.last());
            assert(p[i] == m.last());
        }
    }
    replacing_goes_piece_by_piece(am, b, p, new);
    assert forall|k: int|
        0 <= k < a.len() && a.len() < k + p.len() implies !#[trigger] occurs_at(a + m, p, k) by {
        if occurs_at(a + m, p, k) {
            let i = a.len() - k;
            assert((a + m).subrange(k, k + p.len())[i] == (a + m)[a.len() as int]);
            assert((a + m)[a.len() as int] == m[0]);
            assert(p[i] == m[0]);
        }
    }
    replacing_goes_piece_by_piece(a, m, p, new);
}

proof fn lemma_other_reference(c: char, d: char)
    requires
        turn(c) > 0,
        turn(d) > 0,
        c != d,
    ensures
        replaced(as_reference(c), as_reference(d), seq![d]) == as_reference(c),
{
    lemma_references();
    let s = as_reference(c);
    let p = as_reference(d);
    if has_part(s, p) {
        let i = choose|i: int| occurs_at(s, p, i);
        let cut = s.subrange(i, i + p.len());
        assert(cut[0] == s[i]);
        assert(i == 0);
        assert(cut[1] == s[1]);
        assert(cut[2] == s[2]);
    }
    text_without_part_is_kept(s, p, seq![d]);
}

proof fn lemma_single_kept(c: char, d: char)
    requires
        turn(d) > 0,
    ensures
        replaced(seq![c], as_reference(d), seq![d]) == seq![c],
{
    lemma_references();
    text_without_part_is_kept(seq![c], as_reference(d), seq![d]);
}

/// One reference resolved.
#[verifier::opaque]
spec fn step(s: Seq<char>, c: char) -> Seq<char> {
    replaced(s, as_reference(c), seq![c])
}

proof fn lemma_steps(s: Seq<char>)
    ensures
        unescaped(s) == step(step(step(step(step(s, '<'), '>'), '&'), '"'), '\''),
{
    reveal_strlit("<");
    reveal_strlit(">");
    reveal_strlit("&");
    reveal_strlit("\"");
    reveal_strlit("'");
    assert("<"@ =~= seq!['<']);
    assert(">"@ =~= seq!['>']);
    assert("&"@ =~= seq!['&']);
    assert("\""@ =~= seq!['"']);
    assert("'"@ =~= seq!['\'']);
    reveal(step);
}

/// What one step makes of a reference, and of a single character.
proof fn lemma_step_alone(c: char, d: char)
    requires
        turn(c) > 0,
        turn(d) > 0,
    ensures
        c != d ==> step(as_reference(c), d) == as_reference(c),
        c == d ==> step(as_reference(c), d) == seq![c],
        step(seq![c], d) == seq![c],
        stands_apart(as_reference(c)),
        c != '&' ==> stands_apart(seq![c]),
{
    reveal(step);
    lemma_references();
    lemma_single_kept(c, d);
    if c == d {
        part_is_replaced(as_reference(c), seq![c]);
    } else {
        lemma_other_reference(c, d);
    }
}

proof fn lemma_step_around(a: Seq<char>, m: Seq<char>, b: Seq<char>, c: char)
    requires
        turn(c) > 0,
        stands_apart(m),
    ensures
        step(a + m + b, c) == step(a, c) + step(m, c) + step(b, c),
{
    reveal(step);
    lemma_references();
    lemma_replaced_around(a, m, b, as_reference(c), seq![c]);
}

/// A reference other than `&amp;` is resolved wherever it stands, and what
/// stands around it is resolved as if it stood alone.
pub proof fn references_resolve_one_by_one(c: char, a: Seq<char>, b: Seq<char>)
    requires
        c == '<' || c == '>' || c == '"' || c == '\'',
    ensures
        unescaped(a + as_reference(c) + b) == unescaped(a) + seq![c] + unescaped(b),
{
    lemma_steps(a);
    lemma_steps(b);
    lemma_steps(a + as_reference(c) + b);
    let m0 = as_reference(c);
    lemma_step_alone(c, '<');
    lemma_step_alone(c, '>');
    lemma_step_alone(c, '&');
    lemma_step_alone(c, '"');
    lemma_step_alone(c, '\'');
    let m1 = step(m0, '<');
    let m2 = step(m1, '>');
    let m3 = step(m2, '&');
    let m4 = step(m3, '"');
    lemma_step_around(a, m0, b, '<');
    let a1 = step(a, '<');
    let b1 = step(b, '<');
    lemma_step_around(a1, m1, b1, '>');
    let a2 = step(a1, '>');
    let b2 = step(b1, '>');
    lemma_step_around(a2, m2, b2, '&');
    let a3 = step(a2, '&');
    let b3 = step(b2, '&');
    lemma_step_around(a3, m3, b3, '"');
    let a4 = step(a3, '"');
    let b4 = step(b3, '"');
    lemma_step_around(a4, m4, b4, '\'');
}

/// Text without `&` and without the character that a reference stands for, at
/// the beginning of what resolving gives, stood there before.
proof fn lemma_beginning_before_step(s: Seq<char>, c: char, w: Seq<char>)
    requires
        turn(c) > 0,
        begins_with(step(s, c), w),
        !w.contains('&'),
        !w.contains(c),
    ensures
        begins_with(s, w),
    decreases s.len(),
{
    reveal(step);
    lemma_references();
    let p = as_reference(c);
    beginnings_by_character(step(s, c), w);
    beginnings_by_character(s, w);
    if w.len() > 0 {
        if s.len() == 0 {
            text_without_part_is_kept(s, p, seq![c]);
        } else if occurs_at(s, p, 0) {
            let tail = s.skip(p.len() as int);
            assert(s.subrange(0, p.len() as int) == p);
            assert(s =~= p + tail);
            lemma_replaced_here(tail, p, seq![c]);
            assert(step(s, c)[0] == c);
            assert(w[0] == c);
        } else {
            let head = seq![s[0]];
            let tail = s.drop_first();
            assert(s =~= head + tail);
            lemma_replaced_after(head, tail, p, seq![c]);
            let v = w.drop_first();
            assert forall|i: int| 0 <= i < v.len() implies #[trigger] step(tail, c)[i] == v[i] by {
                assert(step(s, c)[i + 1] == w[i + 1]);
                assert(step(s, c)[i + 1] == step(tail, c)[i]);
            }
            beginnings_by_character(step(tail, c), v);
            assert forall|i: int| 0 <= i < v.len() implies v[i] != '&' && v[i] != c by {
                assert(w[i + 1] == v[i]);
            }
            lemma_beginning_before_step(tail, c, v);
            beginnings_by_character(tail, v);
            assert forall|k: int| 0 <= k < w.len() implies #[trigger] s[k] == w[k] by {
                if k > 0 {
                    assert(tail[k - 1] == v[k - 1]);
                } else {
                    assert(step(s, c)[0] == w[0]);
                }
            }
        }
    }
}

/// No occurrence lies across the place after a `&` that is not followed by the
/// rest of the reference.
proof fn lemma_step_around_ampersand(a: Seq<char>, b: Seq<char>, c: char)
    requires
        c == '"' || c == '\'',
        !begins_with(b, as_reference(c).drop_first()),
    ensures
        step(a + seq!['&'] + b, c) == step(a, c) + seq!['&'] + step(b, c),
{
    reveal(step);
    lemma_references();
    let p = as_reference(c);
    let m = seq!['&'];
    let am = a + m;
    assert forall|k: int|
        0 <= k < am.len() && am.len() < k + p.len() implies !#[trigger] occurs_at(am + b, p, k) by {
        if occurs_at(am + b, p, k) {
            let cut = (am + b).subrange(k, k + p.len());
            let i = am.len() - 1 - k;
            assert(cut[i] == (am + b)[am.len() - 1]);
            assert(p[i] == '&');
            assert(i == 0);
            let w = p.drop_first();
            assert(b.len() >= w.len());
            assert forall|j: int| 0 <= j < w.len() implies #[trigger] b[j] == w[j] by {
                assert(cut[j + 1] == (am + b)[k + j + 1]);
                assert((am + b)[k + j + 1] == b[j]);
            }
            beginnings_by_character(b, w);
        }
    }
    replacing_goes_piece_by_piece(am, b, p, seq![c]);
    assert forall|k: int|
        0 <= k < a.len() && a.len() < k + p.len() implies !#[trigger] occurs_at(a + m, p, k) by {
        if occurs_at(a + m, p, k) {
            let i = a.len() - k;
            assert((a + m).subrange(k, k + p.len())[i] == (a + m)[a.len() as int]);
            assert(p[i] == '&');
        }
    }
    replacing_goes_piece_by_piece(a, m, p, seq![c]);
    lemma_single_kept('&', c);
}

/// `&amp;` is resolved wherever it stands, and what stands around it is resolved
/// as if it stood alone, unless what follows makes it a reference to a
/// quotation mark.
pub proof fn ampersands_resolve_one_by_one(a: Seq<char>, b: Seq<char>)
    requires
        !begins_with(b, seq!['q', 'u', 'o', 't', ';']),
        !begins_with(b, seq!['a', 'p', 'o', 's', ';']),
    ensures
        unescaped(a + as_reference('&') + b) == unescaped(a) + seq!['&'] + unescaped(b),
{
    lemma_steps(a);
    lemma_steps(b);
    lemma_steps(a + as_reference('&') + b);
    let m = as_reference('&');
    lemma_step_alone('&', '<');
    lemma_step_alone('&', '>');
    lemma_step_alone('&', '&');
    lemma_step_around(a, m, b, '<');
    let a1 = step(a, '<');
    let b1 = step(b, '<');
    lemma_step_around(a1, m, b1, '>');
    let a2 = step(a1, '>');
    let b2 = step(b1, '>');
    lemma_step_around(a2, m, b2, '&');
    let a3 = step(a2, '&');
    let b3 = step(b2, '&');
    lemma_rest_of_reference_before(b);
    lemma_step_around_ampersand(a3, b3, '"');
    let a4 = step(a3, '"');
    let b4 = step(b3, '"');
    lemma_step_around_ampersand(a4, b4, '\'');
}

/// Resolving does not make the rest of a reference to a quotation mark stand at
/// the beginning.
proof fn lemma_rest_of_reference_before(b: Seq<char>)
    ensures
        ({
            let b3 = step(step(step(b, '<'), '>'), '&');
            &&& !begins_with(b, seq!['q', 'u', 'o', 't', ';']) ==> !begins_with(
                b3,
                as_reference('"').drop_first(),
            )
            &&& !begins_with(b, seq!['a', 'p', 'o', 's', ';']) ==> !begins_with(
                step(b3, '"'),
                as_reference('\'').drop_first(),
            )
        }),
{
    let b1 = step(b, '<');
    let b2 = step(b1, '>');
    let b3 = step(b2, '&');
    let b4 = step(b3, '"');
    let quot = seq!['q', 'u', 'o', 't', ';'];
    let apos = seq!['a', 'p', 'o', 's', ';'];
    assert(as_reference('"').drop_first() =~= quot && as_reference('\'').drop_first() =~= apos) by {
        lemma_references();
    }
    if begins_with(b3, quot) {
        lemma_beginning_before_step(b2, '&', quot);
        lemma_beginning_before_step(b1, '>', quot);
        lemma_beginning_before_step(b, '<', quot);
    }
    if begins_with(b4, apos) {
        lemma_beginning_before_step(b3, '"', apos);
        lemma_beginning_before_step(b2, '&', apos);
        lemma_beginning_before_step(b1, '>', apos);
        lemma_beginning_before_step(b, '<', apos);
    }
}

/// A reference to a quotation mark that was escaped itself is resolved twice.
pub proof fn escaped_quotation_marks_resolve_twice(c: char, a: Seq<char>, b: Seq<char>)
    requires
        c == '"' || c == '\'',
    ensures
        unescaped(a + (as_reference('&') + as_reference(c).drop_first()) + b) == unescaped(a)
            + seq![c] + unescaped(b),
{
    let m = as_reference('&') + as_reference(c).drop_first();
    let r = as_reference(c);
    lemma_steps(a);
    lemma_steps(b);
    lemma_steps(a + m + b);
    lemma_escaped_reference_steps(c);
    lemma_step_around(a, m, b, '<');
    let a1 = step(a, '<');
    let b1 = step(b, '<');
    lemma_step_around(a1, m, b1, '>');
    let a2 = step(a1, '>');
    let b2 = step(b1, '>');
    lemma_step_around(a2, m, b2, '&');
    let a3 = step(a2, '&');
    let b3 = step(b2, '&');
    lemma_step_alone(c, '"');
    lemma_step_alone(c, '\'');
    lemma_step_around(a3, r, b3, '"');
    lemma_step_around(step(a3, '"'), step(r, '"'), step(b3, '"'), '\'');
}

/// What the first three steps make of an escaped reference to a quotation mark.
proof fn lemma_escaped_reference_steps(c: char)
    requires
        c == '"' || c == '\'',
    ensures
        ({
            let m = as_reference('&') + as_reference(c).drop_first();
            &&& stands_apart(m)
            &&& step(m, '<') == m
            &&& step(m, '>') == m
            &&& step(m, '&') == as_reference(c)
        }),
{
    reveal(step);
    lemma_references();
    let w = as_reference(c).drop_first();
    let m = as_reference('&') + w;
    assert(m.last() == ';');
    assert forall|d: char| d == '<' || d == '>' implies !has_part(m, #[trigger] as_reference(d)) by {
        let p = as_reference(d);
        if has_part(m, p) {
            let i = choose|i: int| occurs_at(m, p, i);
            let cut = m.subrange(i, i + p.len());
            assert(cut[0] == m[i]);
            assert(cut[1] == m[i + 1]);
        }
    }
    text_without_part_is_kept(m, as_reference('<'), seq!['<']);
    text_without_part_is_kept(m, as_reference('>'), seq!['>']);
    lemma_replaced_here(w, as_reference('&'), seq!['&']);
    assert(!has_part(w, as_reference('&'))) by {
        if has_part(w, as_reference('&')) {
            let i = choose|i: int| occurs_at(w, as_reference('&'), i);
            assert(w.subrange(i, i + 5)[0] == w[i]);
        }
    }
    text_without_part_is_kept(w, as_reference('&'), seq!['&']);
    assert(seq!['&'] + w =~= as_reference(c));
}

/// Text that holds none of the five references is unchanged.
pub proof fn text_that_holds_no_reference_is_unchanged(s: Seq<char>)
    requires
        !has_part(s, as_reference('<')),
        !has_part(s, as_reference('>')),
        !has_part(s, as_reference('&')),
        !has_part(s, as_reference('"')),
        !has_part(s, as_reference('\'')),
    ensures
        unescaped(s) == s,
{
}

/// The five references, by their characters.
pub proof fn references_are_spelt(c: char)
    ensures
        as_reference('<') == seq!['&', 'l', 't', ';'],
        as_reference('>') == seq!['&', 'g', 't', ';'],
        as_reference('&') == seq!['&', 'a', 'm', 'p', ';'],
        as_reference('"') == seq!['&', 'q', 'u', 'o', 't', ';'],
        as_reference('\'') == seq!['&', 'a', 'p', 'o', 's', ';'],
        c != '<' && c != '>' && c != '&' && c != '"' && c != '\'' ==> as_reference(c) == seq![c],
{
    lemma_references();
}

// ---------------------------------------------------------------------------
// What is shown, by kind

/// Text on one line is shown whole up to forty characters; longer text is shown
/// by its first forty characters and three dots.
pub proof fn long_lines_show_their_beginning(s: Seq<char>)
    ensures
        single_spaced(s).len() <= 40 ==> one_line(s) == single_spaced(s),
        single_spaced(s).len() > 40 ==> {
            &&& one_line(s).len() == 43
            &&& forall|i: int| 0 <= i < 40 ==> #[trigger] one_line(s)[i] == single_spaced(s)[i]
            &&& one_line(s)[40] == '.' && one_line(s)[41] == '.' && one_line(s)[42] == '.'
        },
{
    reveal_strlit("...");
}

/// A recalled message is shown by a label and the first thirty characters of its
/// `content` element; by a fixed text if that is empty, and not at all if there
/// is none.
pub proof fn recalled_messages_show_their_beginning(xml: Seq<char>)
    ensures
        match xml_text(xml, seq!['c', 'o', 'n', 't', 'e', 'n', 't']) {
            None => revoke_text(xml) is None,
            Some(inner) => revoke_text(xml) matches Some(shown) && if inner.len() == 0 {
                shown == "[撤回了一条消息]"@
            } else {
                &&& shown.len() == 5 + (if inner.len() < 30 {
                    inner.len()
                } else {
                    30
                })
                &&& shown.take(5) == seq!['[', '撤', '回', ']', ' ']
                &&& forall|i: int| 5 <= i < shown.len() ==> #[trigger] shown[i] == inner[i - 5]
            },
        },
{
    reveal_strlit("content");
    reveal_strlit("[撤回] ");
    assert("content"@ =~= seq!['c', 'o', 'n', 't', 'e', 'n', 't']);
    if let Some(inner) = xml_text(xml, "content"@) {
        if inner.len() > 0 {
            assert(revoke_text(xml)->0.take(5) =~= seq!['[', '撤', '回', ']', ' ']);
        }
    }
}

/// A system notice is shown by a label and the first fifty characters of its
/// `content` element; if that is empty or missing, of the notice itself, if it
/// is no XML; and by a fixed text otherwise.
pub proof fn notices_show_their_beginning(xml: Seq<char>)
    ensures
        ({
            let inner = match xml_text(xml, seq!['c', 'o', 'n', 't', 'e', 'n', 't']) {
                Some(inner) => inner,
                None => Seq::empty(),
            };
            let said = if inner.len() > 0 {
                inner
            } else {
                xml
            };
            sysmsg_text(xml) matches Some(shown) && if inner.len() > 0 || xml.len() == 0 || xml[0]
                != '<' {
                &&& shown.len() == 5 + (if said.len() < 50 {
                    said.len()
                } else {
                    50
                })
                &&& shown.take(5) == seq!['[', '系', '统', ']', ' ']
                &&& forall|i: int| 5 <= i < shown.len() ==> #[trigger] shown[i] == said[i - 5]
            } else {
                shown == "[系统消息]"@
            }
        }),
{
    reveal_strlit("content");
    reveal_strlit("[系统] ");
    reveal_strlit("<");
    assert("content"@ =~= seq!['c', 'o', 'n', 't', 'e', 'n', 't']);
    beginnings_by_character(xml, "<"@);
    if xml.len() > 0 && xml[0] == '<' {
        assert forall|k: int| 0 <= k < 1 implies #[trigger] xml[k] == "<"@[k] by {}
    }
    if begins_with(xml, "<"@) {
        assert(xml[0] == "<"@[0]);
    }
    let shown = sysmsg_text(xml)->0;
    if shown != "[系统消息]"@ {
        assert(shown.take(5) =~= seq!['[', '系', '统', ']', ' ']);
    }
}

/// The text of an element that may be missing.
pub open spec fn element_or_empty(text: Seq<char>, tag: Seq<char>) -> Seq<char> {
    match xml_text(text, tag) {
        Some(inner) => inner,
        None => Seq::empty(),
    }
}

/// A message without a title is not shown. Files, mini programs and links are
/// shown by a label of their type and the title, or by a label alone if the
/// title is empty.
pub proof fn app_messages_show_type_and_title(text: Seq<char>, title: Seq<char>)
    ensures
        xml_text(text, "title"@) is None ==> appmsg_text(text) is None,
        xml_text(text, "title"@) == Some(title) ==> {
            let kind = element_or_empty(text, "type"@);
            &&& kind == seq!['6'] ==> appmsg_text(text) == Some(
                if title.len() > 0 {
                    "[文件] "@ + title
                } else {
                    "[文件]"@
                },
            )
            &&& kind == seq!['3', '3'] || kind == seq!['3', '6'] || kind == seq!['4', '4']
                ==> appmsg_text(text) == Some(
                if title.len() > 0 {
                    "[小程序] "@ + title
                } else {
                    "[小程序]"@
                },
            )
            &&& kind != seq!['6'] && kind != seq!['5', '7'] && kind != seq!['3', '3'] && kind
                != seq!['3', '6'] && kind != seq!['4', '4'] ==> appmsg_text(text) == Some(
                if title.len() > 0 {
                    "[链接] "@ + title
                } else {
                    "[链接/文件]"@
                },
            )
        },
{
    reveal_strlit("6");
    reveal_strlit("57");
    reveal_strlit("33");
    reveal_strlit("36");
    reveal_strlit("44");
    assert("6"@ =~= seq!['6']);
    assert("57"@ =~= seq!['5', '7']);
    assert("33"@ =~= seq!['3', '3']);
    assert("36"@ =~= seq!['3', '6']);
    assert("44"@ =~= seq!['4', '4']);
    assert(seq!['6'].len() == 1);
    assert(seq!['5', '7'][0] == '5' && seq!['3', '3'][1] == '3' && seq!['3', '6'][1] == '6'
        && seq!['4', '4'][0] == '4' && seq!['3', '3'][0] == '3' && seq!['3', '6'][0] == '3');
}

/// What a quotation is shown by above what it quotes.
pub open spec fn quotation_head(title: Seq<char>) -> Seq<char> {
    if title.len() > 0 {
        "[引用] "@ + title
    } else {
        "[引用]"@
    }
}

/// A quotation is shown by a label and its title. Below stands what it quotes,
/// with references resolved: as an app message if it is one, and on one line if
/// not. Nothing stands below if it quotes nothing.
pub proof fn quotations_show_what_they_quote(
    text: Seq<char>,
    title: Seq<char>,
    quoted: Seq<char>,
    shown: Seq<char>,
)
    requires
        xml_text(text, "title"@) == Some(title),
        xml_text(text, "type"@) == Some(seq!['5', '7']),
    ensures
        xml_text(text, "content"@) is None ==> appmsg_text(text) == Some(quotation_head(title)),
        xml_text(text, "content"@) == Some(quoted) ==> {
            let plain = unescaped(quoted);
            &&& has_part(plain, "<appmsg"@) && appmsg_text(plain) == Some(shown) && shown.len() > 0
                ==> appmsg_text(text) == Some(
                quotation_head(title) + seq!['\n', ' ', ' ', '\u{21b3}', ' '] + shown,
            )
            &&& !has_part(plain, "<appmsg"@) || appmsg_text(plain) is None ==> if all_white(
                plain,
            ) {
                appmsg_text(text) == Some(quotation_head(title))
            } else {
                appmsg_text(text) == Some(
                    quotation_head(title) + seq!['\n', ' ', ' ', '\u{21b3}', ' '] + one_line(plain),
                )
            }
        },
{
    reveal_strlit("6");
    reveal_strlit("57");
    reveal_strlit("\n  \u{21b3} ");
    assert("57"@ =~= seq!['5', '7']);
    assert("57"@.len() != "6"@.len());
    assert("\n  \u{21b3} "@ =~= seq!['\n', ' ', ' ', '\u{21b3}', ' ']);
    if let Some(inner) = xml_text(text, "content"@) {
        let plain = unescaped(inner);
        lemma_xml_text_len(text, "content"@);
        lemma_unescaped_len(inner);
        lines_of_words_are_not_empty(plain);
        long_lines_show_their_beginning(plain);
    }
}

/// Pictures, voices, films, stickers and calls are shown by a fixed text each,
/// pictures with their id; whatever they hold and whatever the chat.
pub proof fn media_are_shown_by_kind(local_id: int, content: Seq<char>, is_group: bool)
    ensures
        content_text(local_id, 3, content, is_group) == "[图片] local_id="@ + decimal(local_id),
        content_text(local_id, 34, content, is_group) == "[语音]"@,
        content_text(local_id, 43, content, is_group) == "[视频]"@,
        content_text(local_id, 47, content, is_group) == "[表情]"@,
        content_text(local_id, 50, content, is_group) == "[通话]"@,
{
}

/// System notices and recalled messages are shown as such; a recalled message
/// without a `content` element by a fixed text.
pub proof fn notices_are_shown_as_such(local_id: int, content: Seq<char>, is_group: bool)
    ensures
        Some(content_text(local_id, 10000, content, is_group)) == sysmsg_text(content),
        revoke_text(content) matches Some(shown) ==> content_text(
            local_id,
            10002,
            content,
            is_group,
        ) == shown,
        revoke_text(content) is None ==> content_text(local_id, 10002, content, is_group)
            == "[撤回了一条消息]"@,
{
    notices_show_their_beginning(content);
}

/// Kinds whose messages are shown by what they say.
pub open spec fn says_something(base: int) -> bool {
    base != 3 && base != 34 && base != 43 && base != 47 && base != 50 && base != 10000 && base
        != 10002
}

/// Other messages are shown by their text, in a chat of two; app messages that
/// can be read by what they are.
pub proof fn messages_are_shown_by_their_text(local_id: int, base: int, content: Seq<char>)
    requires
        says_something(base),
    ensures
        base != 49 || !has_part(content, "<appmsg"@) || appmsg_text(content) is None
            ==> content_text(local_id, base, content, false) == content,
        base == 49 && has_part(content, "<appmsg"@) ==> (appmsg_text(content) matches Some(shown)
            ==> content_text(local_id, base, content, false) == shown),
{
}

/// In a group, the sender before the text is left out, and the text shown as in
/// a chat of two; a message without the mark is shown as in a chat of two.
pub proof fn group_messages_are_shown_without_sender(
    local_id: int,
    base: int,
    sender: Seq<char>,
    text: Seq<char>,
)
    requires
        says_something(base),
        !has_part(sender, seq![':', '\n']),
    ensures
        content_text(local_id, base, sender + seq![':', '\n'] + text, true) == content_text(
            local_id,
            base,
            text,
            false,
        ),
        content_text(local_id, base, sender, true) == content_text(local_id, base, sender, false),
{
    reveal_strlit(":\n");
    assert(sender_mark() =~= seq![':', '\n']);
    group_message_reads_back(sender, text);
    cut_at_the_first_mark(sender, sender_mark());
    lemma_find(sender, sender_mark());
}

/// The text is what stands after the first mark, or all of it.
pub proof fn senders_end_at_the_first_mark(sender: Seq<char>, text: Seq<char>)
    requires
        !has_part(sender, seq![':', '\n']),
    ensures
        without_sender(sender + seq![':', '\n'] + text) == text,
        without_sender(sender) == sender,
{
    reveal_strlit(":\n");
    assert(sender_mark() =~= seq![':', '\n']);
    group_message_reads_back(sender, text);
    cut_at_the_first_mark(sender, sender_mark());
    lemma_find(sender, sender_mark());
}

} // verus!
