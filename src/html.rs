//! Reading article and search pages: the tags come from htmlstream, and what is
//! kept of them is decided here.

use vstd::prelude::*;
use crate::article::Paragraph;
use crate::path_tree::texts_view;

verus! {

/// The kind of a piece of HTML.
#[derive(PartialEq, Eq, Structural, Clone, Copy)]
pub enum TagState {
    Text,
    Opening,
    Closing,
    SelfClosing,
}

/// A piece of HTML: a tag, or the text between tags (whose name is empty).
pub struct HtmlTag {
    pub name: String,
    pub html: String,
    pub attributes: String,
    pub state: TagState,
}

/// A tag as (name, html, attribute text, state).
pub type TagView = (Seq<char>, Seq<char>, Seq<char>, TagState);

/// An attribute as (name, value).
pub type AttrView = (Seq<char>, Seq<char>);

pub open spec fn tags_view(v: Seq<HtmlTag>) -> Seq<TagView> {
    v.map_values(|t: HtmlTag| (t.name@, t.html@, t.attributes@, t.state))
}

pub open spec fn attrs_view(v: Seq<(String, String)>) -> Seq<AttrView> {
    v.map_values(|a: (String, String)| (a.0@, a.1@))
}

/// What `htmlstream::tag_iter` yields for an HTML text.
pub uninterp spec fn tags_of(html: Seq<char>) -> Seq<TagView>;

/// What `htmlstream::attr_iter` yields for the attribute text of a tag.
pub uninterp spec fn attrs_of(attributes: Seq<char>) -> Seq<AttrView>;

/// Relies on `htmlstream::tag_iter`: the tags and text runs of `html`, in
/// document order; the result depends on the text alone.
#[verifier::external_body]
fn html_tags(html: &str) -> (r: Vec<HtmlTag>)
    ensures
        tags_view(r@) == tags_of(html@),
{
    let mut r = Vec::new();
    for (_, t) in htmlstream::tag_iter(html) {
        let state = match t.state {
            htmlstream::HTMLTagState::Text => TagState::Text,
            htmlstream::HTMLTagState::Opening => TagState::Opening,
            htmlstream::HTMLTagState::Closing => TagState::Closing,
            htmlstream::HTMLTagState::SelfClosing => TagState::SelfClosing,
        };
        r.push(HtmlTag { name: t.name, html: t.html, attributes: t.attributes, state });
    }
    r
}

/// Every `=` of `s` that is not its last character is followed by an ASCII
/// character. `htmlstream::attr_iter` slices a value from the byte after the
/// one that follows an `=`, which falls inside a character otherwise.
pub open spec fn attrs_splittable(s: Seq<char>) -> bool {
    forall|i: int| 0 <= i < s.len() - 1 && s[i] == '=' ==> (#[trigger] s[i + 1]) <= '\u{7f}'
}

/// The attributes of a tag's attribute text, or none where htmlstream cannot
/// split it.
pub open spec fn attrs_in(attributes: Seq<char>) -> Seq<AttrView> {
    if attrs_splittable(attributes) {
        attrs_of(attributes)
    } else {
        Seq::empty()
    }
}

/// Whether htmlstream can split `s` into attributes.
pub fn is_attrs_splittable(s: &str) -> (r: bool)
    ensures
        r == attrs_splittable(s@),
{
    let n = s.unicode_len();
    let mut i: usize = 0;
    while n > 0 && i < n - 1
        invariant
            n == s@.len(),
            i <= n,
            forall|k: int| 0 <= k < i && s@[k] == '=' ==> (#[trigger] s@[k + 1]) <= '\u{7f}',
        decreases n - i,
    {
        if s.get_char(i) == '=' && s.get_char(i + 1) > '\u{7f}' {
            assert(!(s@[i as int + 1] <= '\u{7f}'));
            return false;
        }
        i = i + 1;
    }
    true
}

/// The attributes of `attributes`, or none where htmlstream cannot split it.
fn attrs_of_tag(attributes: &str) -> (r: Vec<(String, String)>)
    ensures
        attrs_view(r@) == attrs_in(attributes@),
{
    if is_attrs_splittable(attributes) {
        html_attrs(attributes)
    } else {
        let r: Vec<(String, String)> = Vec::new();
        assert(attrs_view(r@) =~= Seq::<AttrView>::empty());
        r
    }
}

/// Relies on `htmlstream::attr_iter`: the attributes of a tag's attribute text,
/// in order; the result depends on the text alone.
#[verifier::external_body]
fn html_attrs(attributes: &str) -> (r: Vec<(String, String)>)
    requires
        attrs_splittable(attributes@),
    ensures
        attrs_view(r@) == attrs_of(attributes@),
{
    htmlstream::attr_iter(attributes).map(|(_, a)| (a.name, a.value)).collect()
}

/// Whether `s` reads `lit`.
fn is_named(s: &String, lit: &str) -> (r: bool)
    ensures
        r == (s@ == lit@),
{
    let l = String::from_str(lit);
    *s == l
}

/// The value of the last attribute named `name`.
pub open spec fn last_value(attrs: Seq<AttrView>, name: Seq<char>) -> Option<Seq<char>>
    decreases attrs.len(),
{
    if attrs.len() == 0 {
        None
    } else if attrs.last().0 == name {
        Some(attrs.last().1)
    } else {
        last_value(attrs.drop_last(), name)
    }
}

/// Some attribute is named `name`.
pub open spec fn has_attr(attrs: Seq<AttrView>, name: Seq<char>) -> bool {
    exists|i: int| 0 <= i < attrs.len() && (#[trigger] attrs[i]).0 == name
}

/// `href` is present and leads into the wiki.
pub open spec fn is_wiki_link(href: Option<Seq<char>>) -> bool {
    match href {
        Some(h) => h.len() >= 6 && h.take(6) == "/wiki/"@,
        None => false,
    }
}

/// The title that a link with attributes `attrs` gives as a search result: one
/// marked with `data-serp-pos`, with a title, and with an `href` into the wiki.
pub open spec fn search_result(attrs: Seq<AttrView>) -> Option<Seq<char>> {
    if has_attr(attrs, "data-serp-pos"@) && last_value(attrs, "title"@) is Some && is_wiki_link(
        last_value(attrs, "href"@),
    ) {
        last_value(attrs, "title"@)
    } else {
        None
    }
}

/// The search results that the tags `tags` give, in order.
pub open spec fn search_results(tags: Seq<TagView>) -> Seq<Seq<char>>
    decreases tags.len(),
{
    if tags.len() == 0 {
        Seq::empty()
    } else {
        let prev = search_results(tags.drop_last());
        let t = tags.last();
        if t.0 == "a"@ && t.3 == TagState::Opening {
            match search_result(attrs_in(t.2)) {
                Some(title) => prev.push(title),
                None => prev,
            }
        } else {
            prev
        }
    }
}

/// The title that a search-result link with attributes `attrs` names, if it is one.
pub fn search_result_title(attrs: &Vec<(String, String)>) -> (r: Option<String>)
    ensures
        match r {
            Some(t) => search_result(attrs_view(attrs@)) == Some(t@),
            None => search_result(attrs_view(attrs@)) is None,
        },
{
    proof {
        reveal_strlit("title");
        reveal_strlit("href");
        reveal_strlit("data-serp-pos");
    }
    let ghost v = attrs_view(attrs@);
    let mut title: Option<String> = None;
    let mut href: Option<String> = None;
    let mut has_pos = false;
    let mut i: usize = 0;
    while i < attrs.len()
        invariant
            i <= attrs@.len(),
            v == attrs_view(attrs@),
            match title {
                Some(t) => last_value(v.take(i as int), "title"@) == Some(t@),
                None => last_value(v.take(i as int), "title"@) is None,
            },
            match href {
                Some(h) => last_value(v.take(i as int), "href"@) == Some(h@),
                None => last_value(v.take(i as int), "href"@) is None,
            },
            has_pos == has_attr(v.take(i as int), "data-serp-pos"@),
        decreases attrs@.len() - i,
    {
        let a = &attrs[i];
        proof {
            reveal_strlit("title");
            reveal_strlit("href");
            reveal_strlit("data-serp-pos");
        }
        assert(v.take(i as int + 1).drop_last() =~= v.take(i as int));
        assert(v.take(i as int + 1).last() == (a.0@, a.1@));
        if is_named(&a.0, "title") {
            title = Some(a.1.clone());
            // a title is no href, so the last href is still the one before
            assert("title"@.len() != "href"@.len());
        } else if is_named(&a.0, "href") {
            href = Some(a.1.clone());
        } else if is_named(&a.0, "data-serp-pos") {
            has_pos = true;
        }
        proof {
            let p = v.take(i as int);
            let q = v.take(i as int + 1);
            if has_attr(q, "data-serp-pos"@) && !has_attr(p, "data-serp-pos"@) {
                let k = choose|k: int| 0 <= k < q.len() && (#[trigger] q[k]).0 == "data-serp-pos"@;
                if k < p.len() {
                    assert(p[k] == q[k]);
                }
            }
            if has_attr(p, "data-serp-pos"@) {
                let k = choose|k: int| 0 <= k < p.len() && (#[trigger] p[k]).0 == "data-serp-pos"@;
                assert(q[k] == p[k]);
            }
            if a.0@ == "data-serp-pos"@ {
                assert(q[i as int].0 == "data-serp-pos"@);
            }
        }
        i = i + 1;
    }
    assert(v.take(attrs@.len() as int) =~= v);
    if !has_pos {
        return None;
    }
    match (title, href) {
        (Some(t), Some(h)) => {
            let wiki = String::from_str("/wiki/");
            if h.as_str().unicode_len() >= 6 && String::from_str(h.as_str().substring_char(0, 6))
                == wiki {
                Some(t)
            } else {
                None
            }
        },
        _ => None,
    }
}

/// Parses the body of a search results page and returns the titles of all
/// results found in it, in order.
pub fn extract_results_from_search(body: &str) -> (r: Vec<String>)
    ensures
        texts_view(r@) == search_results(tags_of(body@)),
{
    let tags = html_tags(body);
    let ghost tv = tags_view(tags@);
    let mut r: Vec<String> = Vec::new();
    let mut i: usize = 0;
    while i < tags.len()
        invariant
            i <= tags@.len(),
            tv == tags_view(tags@),
            texts_view(r@) == search_results(tv.take(i as int)),
        decreases tags@.len() - i,
    {
        let t = &tags[i];
        assert(tv.take(i as int + 1).drop_last() =~= tv.take(i as int));
        assert(tv.take(i as int + 1).last() == (t.name@, t.html@, t.attributes@, t.state));
        if is_named(&t.name, "a") && t.state == TagState::Opening {
            let attrs = attrs_of_tag(t.attributes.as_str());
            match search_result_title(&attrs) {
                Some(title) => {
                    let ghost before = texts_view(r@);
                    r.push(title);
                    assert(texts_view(r@) =~= before.push(r@.last()@));
                },
                None => {},
            }
        }
        i = i + 1;
    }
    assert(tv.take(tags@.len() as int) =~= tv);
    r
}

/// Where a scan of an article body stands.
#[derive(PartialEq, Eq, Structural, Clone, Copy)]
pub enum ScanMode {
    SearchForP,
    ReadingP,
    SkippingSup,
}

/// A scan as (mode, text of the open paragraph, its topics, paragraphs closed so far).
pub type ScanView = (ScanMode, Seq<char>, Seq<Seq<char>>, Seq<(Seq<char>, Seq<Seq<char>>)>);

pub open spec fn paragraphs_view(v: Seq<Paragraph>) -> Seq<(Seq<char>, Seq<Seq<char>>)> {
    v.map_values(|p: Paragraph| (p.text@, texts_view(p.topics@)))
}

/// The values of the attributes named `title`, in order.
pub open spec fn title_values(attrs: Seq<AttrView>) -> Seq<Seq<char>>
    decreases attrs.len(),
{
    if attrs.len() == 0 {
        Seq::empty()
    } else {
        let p = title_values(attrs.drop_last());
        if attrs.last().0 == "title"@ {
            p.push(attrs.last().1)
        } else {
            p
        }
    }
}

/// One step of the scan over the tag `t`, whose attributes are `attrs`: a `p`
/// opens a paragraph and the next one closes it; inside it text is kept, links
/// add their titles as topics, and everything from one `sup` to the next is
/// skipped.
pub open spec fn scan_step(s: ScanView, t: TagView, attrs: Seq<AttrView>) -> ScanView {
    match s.0 {
        ScanMode::SearchForP => if t.0 == "p"@ {
            (ScanMode::ReadingP, Seq::empty(), Seq::empty(), s.3)
        } else {
            s
        },
        ScanMode::ReadingP => if t.0 == ""@ {
            (ScanMode::ReadingP, s.1 + t.1, s.2, s.3)
        } else if t.0 == "a"@ {
            (ScanMode::ReadingP, s.1, s.2 + title_values(attrs), s.3)
        } else if t.0 == "p"@ {
            (ScanMode::SearchForP, Seq::empty(), Seq::empty(), s.3.push((s.1, s.2)))
        } else if t.0 == "sup"@ {
            (ScanMode::SkippingSup, s.1, s.2, s.3)
        } else {
            s
        },
        ScanMode::SkippingSup => if t.0 == "sup"@ {
            (ScanMode::ReadingP, s.1, s.2, s.3)
        } else {
            s
        },
    }
}

/// The scan over all of `tags`.
pub open spec fn scan(tags: Seq<TagView>) -> ScanView
    decreases tags.len(),
{
    if tags.len() == 0 {
        (ScanMode::SearchForP, Seq::empty(), Seq::empty(), Seq::empty())
    } else {
        scan_step(scan(tags.drop_last()), tags.last(), attrs_in(tags.last().2))
    }
}

/// The paragraphs of an article body, with their topics.
pub open spec fn body_paragraphs(body: Seq<char>) -> Seq<(Seq<char>, Seq<Seq<char>>)> {
    if body.len() == 0 {
        Seq::empty()
    } else {
        scan(tags_of(body)).3
    }
}

/// A scan of an article body in progress.
pub struct ParagraphScanner {
    pub mode: ScanMode,
    pub text: String,
    pub topics: Vec<String>,
    pub done: Vec<Paragraph>,
}

impl View for ParagraphScanner {
    type V = ScanView;

    open spec fn view(&self) -> ScanView {
        (self.mode, self.text@, texts_view(self.topics@), paragraphs_view(self.done@))
    }
}

impl ParagraphScanner {
    pub fn new() -> (r: ParagraphScanner)
        ensures
            r@ == (ScanMode::SearchForP, Seq::<char>::empty(), Seq::<Seq<char>>::empty(), Seq::<
                (Seq<char>, Seq<Seq<char>>),
            >::empty()),
    {
        let r = ParagraphScanner {
            mode: ScanMode::SearchForP,
            text: String::new(),
            topics: Vec::new(),
            done: Vec::new(),
        };
        assert(texts_view(r.topics@) =~= Seq::<Seq<char>>::empty());
        assert(paragraphs_view(r.done@) =~= Seq::<(Seq<char>, Seq<Seq<char>>)>::empty());
        r
    }

    /// Adds the values of the `title` attributes of `attrs` to the topics.
    fn add_titles(&mut self, attrs: &Vec<(String, String)>)
        ensures
            final(self).mode == old(self).mode,
            final(self).text == old(self).text,
            final(self).done == old(self).done,
            texts_view(final(self).topics@) == texts_view(old(self).topics@) + title_values(
                attrs_view(attrs@),
            ),
    {
        let ghost v = attrs_view(attrs@);
        let ghost start = texts_view(self.topics@);
        let mut i: usize = 0;
        while i < attrs.len()
            invariant
                i <= attrs@.len(),
                v == attrs_view(attrs@),
                self.mode == old(self).mode,
                self.text == old(self).text,
                self.done == old(self).done,
                start == texts_view(old(self).topics@),
                texts_view(self.topics@) == start + title_values(v.take(i as int)),
            decreases attrs@.len() - i,
        {
            assert(v.take(i as int + 1).drop_last() =~= v.take(i as int));
            assert(v.take(i as int + 1).last() == (attrs@[i as int].0@, attrs@[i as int].1@));
            if is_named(&attrs[i].0, "title") {
                let ghost before = texts_view(self.topics@);
                self.topics.push(attrs[i].1.clone());
                assert(texts_view(self.topics@) =~= before.push(attrs@[i as int].1@));
            }
            i = i + 1;
        }
        assert(v.take(attrs@.len() as int) =~= v);
    }

    /// Takes the tag `tag`, whose attributes are `attrs`, into the scan.
    pub fn scan_tag(&mut self, tag: &HtmlTag, attrs: &Vec<(String, String)>)
        ensures
            final(self)@ == scan_step(
                old(self)@,
                (tag.name@, tag.html@, tag.attributes@, tag.state),
                attrs_view(attrs@),
            ),
    {
        proof {
            reveal_strlit("");
            reveal_strlit("a");
            reveal_strlit("p");
            reveal_strlit("sup");
        }
        match self.mode {
            ScanMode::SearchForP => {
                if is_named(&tag.name, "p") {
                    self.mode = ScanMode::ReadingP;
                    self.text = String::new();
                    self.topics = Vec::new();
                    assert(texts_view(self.topics@) =~= Seq::<Seq<char>>::empty());
                }
            },
            ScanMode::ReadingP => {
                if is_named(&tag.name, "") {
                    self.text.append(tag.html.as_str());
                } else if is_named(&tag.name, "a") {
                    self.add_titles(attrs);
                } else if is_named(&tag.name, "p") {
                    let mut text = String::new();
                    let mut topics: Vec<String> = Vec::new();
                    std::mem::swap(&mut self.text, &mut text);
                    std::mem::swap(&mut self.topics, &mut topics);
                    let ghost before = paragraphs_view(self.done@);
                    self.done.push(Paragraph { text, topics });
                    self.mode = ScanMode::SearchForP;
                    assert(texts_view(self.topics@) =~= Seq::<Seq<char>>::empty());
                    assert(paragraphs_view(self.done@) =~= before.push(
                        (old(self).text@, texts_view(old(self).topics@)),
                    ));
                } else if is_named(&tag.name, "sup") {
                    self.mode = ScanMode::SkippingSup;
                }
            },
            ScanMode::SkippingSup => {
                if is_named(&tag.name, "sup") {
                    self.mode = ScanMode::ReadingP;
                }
            },
        }
    }
}

/// Parses the body of an article page and returns its paragraphs, each with
/// the topics it links to.
pub fn extract_paragraphs_from_body(body: &str) -> (r: Vec<Paragraph>)
    ensures
        paragraphs_view(r@) == body_paragraphs(body@),
{
    if body.is_empty() {
        let r: Vec<Paragraph> = Vec::new();
        assert(paragraphs_view(r@) =~= Seq::<(Seq<char>, Seq<Seq<char>>)>::empty());
        return r;
    }
    let tags = html_tags(body);
    let ghost tv = tags_view(tags@);
    let mut scanner = ParagraphScanner::new();
    let mut i: usize = 0;
    while i < tags.len()
        invariant
            i <= tags@.len(),
            tv == tags_view(tags@),
            scanner@ == scan(tv.take(i as int)),
        decreases tags@.len() - i,
    {
        let t = &tags[i];
        assert(tv.take(i as int + 1).drop_last() =~= tv.take(i as int));
        assert(tv.take(i as int + 1).last() == (t.name@, t.html@, t.attributes@, t.state));
        if scanner.mode == ScanMode::ReadingP && is_named(&t.name, "a") {
            let attrs = attrs_of_tag(t.attributes.as_str());
            scanner.scan_tag(t, &attrs);
        } else {
            // the attributes are read only for a link inside a paragraph
            let none: Vec<(String, String)> = Vec::new();
            proof {
                reveal_strlit("a");
            }
            assert(scan_step(scanner@, tv[i as int], attrs_view(none@)) == scan_step(
                scanner@,
                tv[i as int],
                attrs_in(t.attributes@),
            ));
            scanner.scan_tag(t, &none);
        }
        i = i + 1;
    }
    assert(tv.take(tags@.len() as int) =~= tv);
    scanner.done
}

} // verus!
