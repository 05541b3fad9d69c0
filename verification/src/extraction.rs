//! The readable text of a web page.
//!
//! The paragraphs of a page are read up to the first end marker, a phrase
//! that opens what follows an article (a call to subscribe, a note on the
//! author); short paragraphs are left out. For pages of El País the title and
//! the body are taken from the regions that the site marks.

use vstd::prelude::*;
use vstd::utf8::encode_utf8;
use crate::text::{
    append, char_texts, chars_of, equal_ignoring_ascii_case, find, first_occurrence, join, joined,
    occurs, same_ignoring_ascii_case, slice, text_of, trim, trimmed,
};
use crate::tokenizer::texts;

verus! {

/// What a readability pass found in a page.
#[derive(Clone, Debug, PartialEq, Eq)]
pub struct Article {
    pub title: Option<String>,
    /// The article as HTML.
    pub content: Option<String>,
    pub excerpt: Option<String>,
    pub byline: Option<String>,
}

/// What is reported of a page.
#[derive(Clone, Debug, PartialEq, Eq)]
pub struct Extracted {
    pub title: Option<String>,
    /// The paragraphs of the article as plain text, an empty line between
    /// each two.
    pub content: Option<String>,
    pub excerpt: Option<String>,
    pub author: Option<String>,
    /// The length of `content` in bytes.
    pub length: usize,
}

/// Why nothing is reported of a page.
#[derive(Clone, Debug, PartialEq, Eq)]
pub enum ExtractionError {
    /// No article was found in the page.
    NoContent,
    /// The page could not be read; the message says why.
    Unreadable(String),
}

/// An optional text as a value.
pub open spec fn optional_text(text: Option<String>) -> Option<Seq<char>> {
    match text {
        Some(t) => Some(t@),
        None => None,
    }
}

/// An article as values.
pub struct ArticleView {
    pub title: Option<Seq<char>>,
    pub content: Option<Seq<char>>,
    pub excerpt: Option<Seq<char>>,
    pub byline: Option<Seq<char>>,
}

impl View for Article {
    type V = ArticleView;

    open spec fn view(&self) -> ArticleView {
        ArticleView {
            title: optional_text(self.title),
            content: optional_text(self.content),
            excerpt: optional_text(self.excerpt),
            byline: optional_text(self.byline),
        }
    }
}

/// A report as values.
pub struct ExtractedView {
    pub title: Option<Seq<char>>,
    pub content: Option<Seq<char>>,
    pub excerpt: Option<Seq<char>>,
    pub author: Option<Seq<char>>,
    pub length: nat,
}

impl View for Extracted {
    type V = ExtractedView;

    open spec fn view(&self) -> ExtractedView {
        ExtractedView {
            title: optional_text(self.title),
            content: optional_text(self.content),
            excerpt: optional_text(self.excerpt),
            author: optional_text(self.author),
            length: self.length as nat,
        }
    }
}

/// The text nodes of a sequence of elements.
pub open spec fn node_texts(elements: Seq<Vec<String>>) -> Seq<Seq<Seq<char>>> {
    elements.map_values(|nodes: Vec<String>| texts(nodes@))
}

/// The text nodes of an optional sequence of elements.
pub open spec fn optional_node_texts(found: Option<Vec<Vec<String>>>) -> Option<
    Seq<Seq<Seq<char>>>,
> {
    match found {
        Some(elements) => Some(node_texts(elements@)),
        None => None,
    }
}

// ---------------------------------------------------------------------------
// Paragraphs
// ---------------------------------------------------------------------------

/// The phrases that end an article.
pub open spec fn end_markers() -> Seq<Seq<char>> {
    seq![
        "Tu suscripción"@,
        "Sobre la firma"@,
        "Sobre el autor"@,
        "Suscríbete"@,
        "Nuevo curso"@,
        "términos y condiciones de la suscripción"@,
    ]
}

/// The text before the first occurrence of the first marker, in the order of
/// the list, that occurs in the text; nothing where no marker occurs.
pub open spec fn cut_at(text: Seq<char>, markers: Seq<Seq<char>>) -> Option<Seq<char>>
    decreases markers.len(),
{
    if markers.len() == 0 {
        None
    } else if occurs(text, markers.first()) {
        Some(text.take(first_occurrence(text, markers.first())))
    } else {
        cut_at(text, markers.drop_first())
    }
}

/// The length of a text in bytes of UTF-8.
pub open spec fn byte_length(text: Seq<char>) -> nat {
    encode_utf8(text).len()
}

/// The text of a paragraph: its text nodes with a space between each two,
/// without whitespace at either end.
pub open spec fn paragraph_of(nodes: Seq<Seq<char>>) -> Seq<char> {
    trimmed(joined(nodes, seq![' ']))
}

/// A paragraph is kept when it has at least twenty bytes.
pub open spec fn kept(text: Seq<char>) -> Seq<Seq<char>> {
    if byte_length(text) >= 20 {
        seq![text]
    } else {
        Seq::empty()
    }
}

/// The paragraphs that are kept: those of at least twenty bytes, up to the
/// first paragraph that holds a marker; of that one, what stands before the
/// marker.
pub open spec fn body_paragraphs(paragraphs: Seq<Seq<Seq<char>>>, markers: Seq<Seq<char>>) -> Seq<
    Seq<char>,
>
    decreases paragraphs.len(),
{
    if paragraphs.len() == 0 {
        Seq::empty()
    } else {
        let text = paragraph_of(paragraphs.first());
        match cut_at(text, markers) {
            Some(before) => kept(trimmed(before)),
            None => kept(text) + body_paragraphs(paragraphs.drop_first(), markers),
        }
    }
}

/// The kept paragraphs with an empty line between each two.
pub open spec fn body_text(paragraphs: Seq<Seq<Seq<char>>>) -> Seq<char> {
    joined(body_paragraphs(paragraphs, end_markers()), seq!['\n', '\n'])
}

/// The length of a text in bytes.
pub fn length_in_bytes(text: &str) -> (n: usize)
    ensures
        n == byte_length(text@),
{
    broadcast use vstd::slice::axiom_spec_len;

    text.as_bytes().len()
}

/// The end markers as characters.
fn markers() -> (list: Vec<Vec<char>>)
    ensures
        char_texts(list@) == end_markers(),
{
    let mut list: Vec<Vec<char>> = Vec::new();
    list.push(chars_of("Tu suscripción"));
    list.push(chars_of("Sobre la firma"));
    list.push(chars_of("Sobre el autor"));
    list.push(chars_of("Suscríbete"));
    list.push(chars_of("Nuevo curso"));
    list.push(chars_of("términos y condiciones de la suscripción"));
    assert(char_texts(list@) =~= end_markers());
    list
}

/// The text before the first marker that occurs in it, if one does.
pub fn cut(text: &Vec<char>, markers: &Vec<Vec<char>>) -> (before: Option<Vec<char>>)
    ensures
        match before {
            Some(b) => cut_at(text@, char_texts(markers@)) == Some(b@),
            None => cut_at(text@, char_texts(markers@)) is None,
        },
{
    let ghost all = char_texts(markers@);
    let mut i: usize = 0;
    assert(all.skip(0) == all);
    while i < markers.len()
        invariant
            i <= markers.len(),
            all == char_texts(markers@),
            cut_at(text@, all) == cut_at(text@, all.skip(i as int)),
        decreases markers.len() - i,
    {
        proof {
            assert(all.skip(i as int).first() == markers[i as int]@);
            assert(all.skip(i as int).drop_first() == all.skip(i + 1));
        }
        match find(text, &markers[i]) {
            Some(at) => {
                return Some(slice(text, 0, at));
            },
            None => {},
        }
        i = i + 1;
    }
    None
}

/// The characters of each string.
fn chars_of_each(nodes: &Vec<String>) -> (parts: Vec<Vec<char>>)
    ensures
        char_texts(parts@) == texts(nodes@),
{
    let mut parts: Vec<Vec<char>> = Vec::new();
    let mut i: usize = 0;
    while i < nodes.len()
        invariant
            i <= nodes.len(),
            parts.len() == i,
            forall|l: int| 0 <= l < i ==> (#[trigger] parts[l])@ == nodes[l]@,
        decreases nodes.len() - i,
    {
        parts.push(chars_of(nodes[i].as_str()));
        i = i + 1;
    }
    assert(char_texts(parts@) =~= texts(nodes@));
    parts
}

/// Adds the text to the list where it is long enough to be kept.
fn keep(list: &mut Vec<Vec<char>>, text: Vec<char>)
    ensures
        char_texts(final(list)@) == char_texts(old(list)@) + kept(text@),
{
    let written = text_of(&text);
    if length_in_bytes(written.as_str()) >= 20 {
        proof {
            assert(char_texts(list@.push(text)) =~= char_texts(list@) + seq![text@]);
        }
        list.push(text);
    } else {
        assert(char_texts(list@) + Seq::<Seq<char>>::empty() == char_texts(list@));
    }
}

/// The plain text of a sequence of paragraphs, each given by its text nodes:
/// the paragraphs kept, with an empty line between each two.
pub fn assemble_paragraphs(paragraphs: &Vec<Vec<String>>) -> (text: String)
    ensures
        text@ == body_text(node_texts(paragraphs@)),
{
    let markers = markers();
    let ghost given = node_texts(paragraphs@);
    let ghost phrases = end_markers();
    let mut list: Vec<Vec<char>> = Vec::new();
    let mut space: Vec<char> = Vec::new();
    space.push(' ');
    assert(space@ =~= seq![' ']);
    let mut i: usize = 0;
    proof {
        assert(given.skip(0) == given);
        assert(char_texts(list@) =~= Seq::empty());
        assert(Seq::<Seq<char>>::empty() + body_paragraphs(given, phrases) == body_paragraphs(
            given,
            phrases,
        ));
    }
    while i < paragraphs.len()
        invariant_except_break
            body_paragraphs(given, phrases) == char_texts(list@) + body_paragraphs(
                given.skip(i as int),
                phrases,
            ),
        invariant
            i <= paragraphs.len(),
            given == node_texts(paragraphs@),
            phrases == end_markers(),
            char_texts(markers@) == phrases,
            space@ == seq![' '],
        ensures
            body_paragraphs(given, phrases) == char_texts(list@),
        decreases paragraphs.len() - i,
    {
        let ghost before = char_texts(list@);
        let ghost rest = given.skip(i as int);
        proof {
            assert(rest.first() == texts(paragraphs[i as int]@));
            assert(rest.drop_first() == given.skip(i + 1));
        }
        let parts = chars_of_each(&paragraphs[i]);
        let whole = join(&parts, &space);
        let text = trim(&whole);
        match cut(&text, &markers) {
            Some(head) => {
                let short = trim(&head);
                keep(&mut list, short);
                break ;
            },
            None => {
                keep(&mut list, text);
                proof {
                    assert(before + (kept(text@) + body_paragraphs(given.skip(i + 1), phrases))
                        == (before + kept(text@)) + body_paragraphs(given.skip(i + 1), phrases));
                }
            },
        }
        i = i + 1;
    }
    let mut gap: Vec<char> = Vec::new();
    gap.push('\n');
    gap.push('\n');
    assert(gap@ =~= seq!['\n', '\n']);
    let whole = join(&list, &gap);
    text_of(&whole)
}

// ---------------------------------------------------------------------------
// Selecting from a page
// ---------------------------------------------------------------------------

/// The selector of the region that holds the body of an article of El País.
pub const BODY_REGION: &'static str = "[data-dtm-region=\"articulo_cuerpo\"]";

/// The selector of the headings in the region that heads an article of El
/// País.
pub const HEADER_HEADINGS: &'static str = "[data-dtm-region=\"articulo_cabecera\"] h1";

/// What `select_text` finds: for each element of the page that the selector
/// matches, in the order in which `Html::select` yields them, the text nodes
/// below it; nothing for a selector that cannot be parsed.
pub uninterp spec fn selected_text(html: Seq<char>, selector: Seq<char>) -> Option<
    Seq<Seq<Seq<char>>>,
>;

/// What `select_text_within` finds: the text nodes of the elements that
/// `inner` matches below the first element that `outer` matches.
pub uninterp spec fn selected_text_within(
    html: Seq<char>,
    outer: Seq<char>,
    inner: Seq<char>,
) -> Option<Seq<Seq<Seq<char>>>>;

/// What `select_html` finds: the HTML of the first element that the selector
/// matches.
pub uninterp spec fn selected_html(html: Seq<char>, selector: Seq<char>) -> Option<Seq<char>>;

/// `scraper::Selector::parse`, `Html::parse_document`, `Html::select` and
/// `ElementRef::text`: parses the page and lists, for each element that the
/// selector matches, its text nodes; `None` where the selector does not
/// parse. The result depends on the two texts alone; the contract gives it a
/// name and says nothing more of it.
#[verifier::external_body]
fn select_text(html: &str, selector: &str) -> (found: Option<Vec<Vec<String>>>)
    ensures
        optional_node_texts(found) == selected_text(html@, selector@),
{
    let selector = scraper::Selector::parse(selector).ok()?;
    let document = scraper::Html::parse_document(html);
    let mut found: Vec<Vec<String>> = Vec::new();
    for element in document.select(&selector) {
        found.push(element.text().map(str::to_string).collect());
    }
    Some(found)
}

/// `scraper::Selector::parse`, `Html::parse_document`, `Html::select`,
/// `ElementRef::select` and `ElementRef::text`: parses the page, takes the
/// first element that `outer` matches and lists, for each element below it
/// that `inner` matches, its text nodes. `None` where `outer` does not parse
/// or matches nothing; an empty list where `inner` does not parse. The result
/// depends on the three texts alone; the contract gives it a name and says
/// nothing more of it.
#[verifier::external_body]
fn select_text_within(html: &str, outer: &str, inner: &str) -> (found: Option<Vec<Vec<String>>>)
    ensures
        optional_node_texts(found) == selected_text_within(html@, outer@, inner@),
{
    let outer = scraper::Selector::parse(outer).ok()?;
    let document = scraper::Html::parse_document(html);
    let scope = document.select(&outer).next()?;
    let mut found: Vec<Vec<String>> = Vec::new();
    if let Ok(inner) = scraper::Selector::parse(inner) {
        for element in scope.select(&inner) {
            found.push(element.text().map(str::to_string).collect());
        }
    }
    Some(found)
}

/// `scraper::Selector::parse`, `Html::parse_document`, `Html::select` and
/// `ElementRef::html`: parses the page and serialises the first element that
/// the selector matches; `None` where the selector does not parse or matches
/// nothing. The result depends on the two texts alone; the contract gives it
/// a name and says nothing more of it.
#[verifier::external_body]
fn select_html(html: &str, selector: &str) -> (found: Option<String>)
    ensures
        optional_text(found) == selected_html(html@, selector@),
{
    let selector = scraper::Selector::parse(selector).ok()?;
    let document = scraper::Html::parse_document(html);
    let element = document.select(&selector).next()?;
    Some(element.html())
}

/// A readability pass that has been set up and not yet run.
#[verifier::external_type_specification]
#[verifier::external_body]
pub struct ExReadability(readabilityrs::Readability);

/// Whether `Readability::new` accepts the address: whether it parses as a
/// URL.
pub uninterp spec fn address_parses(url: Seq<char>) -> bool;

/// The message with which a pass refuses to start: that of an address that
/// does not parse. A pass without an address always starts.
pub open spec fn refusal(url: Option<Seq<char>>) -> Option<Seq<char>> {
    match url {
        Some(address) => if address_parses(address) {
            None
        } else {
            Some("Invalid URL: "@ + address)
        },
        None => None,
    }
}

/// `readabilityrs::Readability::new`, with the default options: sets up a
/// pass over the page. It fails only on an address that does not parse as a
/// URL, and then with the message `Invalid URL: ` and the address; whether an
/// address parses depends on the address alone, and the contract gives that a
/// name.
#[verifier::external_body]
fn start_pass(html: &str, url: Option<&str>) -> (started: Result<
    readabilityrs::Readability,
    String,
>)
    ensures
        match started {
            Ok(_) => optional_str(url) matches Some(address) ==> address_parses(address),
            Err(message) => optional_str(url) matches Some(address) && !address_parses(address)
                && message@ == "Invalid URL: "@ + address,
        },
{
    let mut options = readabilityrs::ReadabilityOptions::default();
    options.disable_json_ld = false;
    match readabilityrs::Readability::new(html, url, Some(options)) {
        Ok(pass) => Ok(pass),
        Err(e) => Err(format!("{}", e)),
    }
}

/// `readabilityrs::Readability::parse`: the article that the pass finds in
/// the page, if it finds one. Nothing is claimed of the outcome: where
/// candidates score alike, the pass may choose differently from one run to
/// the next.
#[verifier::external_body]
fn run_pass(pass: readabilityrs::Readability) -> (found: Option<Article>) {
    match pass.parse() {
        Some(a) => Some(
            Article { title: a.title, content: a.content, excerpt: a.excerpt, byline: a.byline },
        ),
        None => None,
    }
}

// ---------------------------------------------------------------------------
// The text of a page
// ---------------------------------------------------------------------------

/// An optional text slice as a value.
pub open spec fn optional_str(text: Option<&str>) -> Option<Seq<char>> {
    match text {
        Some(t) => Some(t@),
        None => None,
    }
}

/// The page comes from El País: its address names the site.
pub open spec fn is_elpais(url: Option<Seq<char>>) -> bool {
    url matches Some(u) && occurs(u, "elpais.com"@)
}

/// The paragraphs of a whole page, each as its text nodes.
pub open spec fn document_paragraphs(html: Seq<char>) -> Seq<Seq<Seq<char>>> {
    match selected_text(html, "p"@) {
        Some(paragraphs) => paragraphs,
        None => Seq::empty(),
    }
}

/// The paragraphs of a page, each as its text nodes: for a page of El País
/// those of the body region, where the page has one; else all of them.
pub open spec fn page_paragraphs(html: Seq<char>, elpais: bool) -> Seq<Seq<Seq<char>>> {
    let region = if elpais {
        selected_text_within(html, BODY_REGION@, "p"@)
    } else {
        None
    };
    match region {
        Some(paragraphs) => paragraphs,
        None => document_paragraphs(html),
    }
}

/// The plain text of the paragraphs of a page.
pub open spec fn paragraph_text(html: Seq<char>, url: Option<Seq<char>>) -> Seq<char> {
    body_text(page_paragraphs(html, is_elpais(url)))
}

/// Whether the address is one of El País.
pub fn from_elpais(base_url: Option<&str>) -> (b: bool)
    ensures
        b == is_elpais(optional_str(base_url)),
{
    match base_url {
        Some(url) => find(&chars_of(url), &chars_of("elpais.com")).is_some(),
        None => false,
    }
}

/// The plain text of the paragraphs of a whole page.
pub fn extract_paragraphs_from_document(html: &str) -> (text: String)
    ensures
        text@ == body_text(document_paragraphs(html@)),
{
    match select_text(html, "p") {
        Some(paragraphs) => assemble_paragraphs(&paragraphs),
        None => {
            let none: Vec<Vec<String>> = Vec::new();
            assert(node_texts(none@) =~= Seq::empty());
            assemble_paragraphs(&none)
        },
    }
}

/// The plain text of the paragraphs below the first element of a page that
/// the selector `region` matches; nothing where it matches no element.
pub fn extract_paragraphs_from_element(html: &str, region: &str) -> (text: Option<String>)
    ensures
        optional_text(text) == match selected_text_within(html@, region@, "p"@) {
            Some(paragraphs) => Some(body_text(paragraphs)),
            None => None,
        },
{
    match select_text_within(html, region, "p") {
        Some(paragraphs) => Some(assemble_paragraphs(&paragraphs)),
        None => None,
    }
}

/// The plain text of the paragraphs of a page: the paragraphs of at least
/// twenty bytes up to the first end marker, an empty line between each two.
/// Of a page of El País only the body region is read, where there is one.
pub fn extract_paragraph_text(html: &str, base_url: Option<&str>) -> (text: String)
    ensures
        text@ == paragraph_text(html@, optional_str(base_url)),
{
    if from_elpais(base_url) {
        match extract_paragraphs_from_element(html, BODY_REGION) {
            Some(text) => {
                return text;
            },
            None => {},
        }
    }
    extract_paragraphs_from_document(html)
}

// ---------------------------------------------------------------------------
// The title of a page of El País
// ---------------------------------------------------------------------------

/// The text of a heading: its text nodes one after the other, without
/// whitespace at either end.
pub open spec fn heading_of(nodes: Seq<Seq<char>>) -> Seq<char> {
    trimmed(joined(nodes, Seq::empty()))
}

/// A heading can serve as the title of the article: it has more than twenty
/// bytes, is not the name of the paper and speaks neither of choosing nor of
/// subscribing.
pub open spec fn is_headline(text: Seq<char>) -> bool {
    &&& text.len() > 0
    &&& byte_length(text) > 20
    &&& !equal_ignoring_ascii_case(text, "EL PAÍS"@)
    &&& !occurs(text, "Seleccione"@)
    &&& !occurs(text, "suscríbete"@)
}

/// The first heading that can serve as a title.
pub open spec fn first_headline(headings: Seq<Seq<Seq<char>>>) -> Option<Seq<char>>
    decreases headings.len(),
{
    if headings.len() == 0 {
        None
    } else if is_headline(heading_of(headings.first())) {
        Some(heading_of(headings.first()))
    } else {
        first_headline(headings.drop_first())
    }
}

/// The first heading of the header region, where it says anything.
pub open spec fn header_title(headings: Seq<Seq<Seq<char>>>) -> Option<Seq<char>> {
    if headings.len() > 0 && heading_of(headings.first()).len() > 0 {
        Some(heading_of(headings.first()))
    } else {
        None
    }
}

/// The title of a page of El País: the heading of its header region, or
/// else its first heading that can serve as one.
pub open spec fn site_title(html: Seq<char>) -> Option<Seq<char>> {
    let in_header = match selected_text(html, HEADER_HEADINGS@) {
        Some(headings) => header_title(headings),
        None => None,
    };
    if in_header is Some {
        in_header
    } else {
        match selected_text(html, "h1"@) {
            Some(headings) => first_headline(headings),
            None => None,
        }
    }
}

/// The title that a page gives itself: that of `site_title` for a page of El
/// País, none for another.
pub open spec fn own_title(html: Seq<char>, url: Option<Seq<char>>) -> Option<Seq<char>> {
    if is_elpais(url) {
        site_title(html)
    } else {
        None
    }
}

/// The text of a heading.
fn heading(nodes: &Vec<String>) -> (text: Vec<char>)
    ensures
        text@ == heading_of(texts(nodes@)),
{
    let parts = chars_of_each(nodes);
    let nothing: Vec<char> = Vec::new();
    assert(nothing@ =~= Seq::empty());
    trim(&join(&parts, &nothing))
}

/// The title in the header region: its first heading, where that says
/// anything.
pub fn title_in_header(headings: &Vec<Vec<String>>) -> (title: Option<String>)
    ensures
        optional_text(title) == header_title(node_texts(headings@)),
{
    if headings.len() == 0 {
        return None;
    }
    assert(node_texts(headings@).first() == texts(headings[0]@));
    let text = heading(&headings[0]);
    if text.len() == 0 {
        None
    } else {
        Some(text_of(&text))
    }
}

/// Whether a heading can serve as the title.
fn headline(text: &Vec<char>) -> (b: bool)
    ensures
        b == is_headline(text@),
{
    let written = text_of(text);
    text.len() > 0 && length_in_bytes(written.as_str()) > 20 && !same_ignoring_ascii_case(
        text,
        &chars_of("EL PAÍS"),
    ) && find(text, &chars_of("Seleccione")).is_none() && find(text, &chars_of("suscríbete")).is_none()
}

/// The first of the headings that can serve as the title.
pub fn title_among(headings: &Vec<Vec<String>>) -> (title: Option<String>)
    ensures
        optional_text(title) == first_headline(node_texts(headings@)),
{
    let ghost all = node_texts(headings@);
    let mut i: usize = 0;
    assert(all.skip(0) == all);
    while i < headings.len()
        invariant
            i <= headings.len(),
            all == node_texts(headings@),
            first_headline(all) == first_headline(all.skip(i as int)),
        decreases headings.len() - i,
    {
        proof {
            assert(all.skip(i as int).first() == texts(headings[i as int]@));
            assert(all.skip(i as int).drop_first() == all.skip(i + 1));
        }
        let text = heading(&headings[i]);
        if headline(&text) {
            return Some(text_of(&text));
        }
        i = i + 1;
    }
    None
}

/// The title of a page of El País.
pub fn page_title(html: &str) -> (title: Option<String>)
    ensures
        optional_text(title) == site_title(html@),
{
    let in_header = match select_text(html, HEADER_HEADINGS) {
        Some(headings) => title_in_header(&headings),
        None => None,
    };
    if in_header.is_some() {
        return in_header;
    }
    match select_text(html, "h1") {
        Some(headings) => title_among(&headings),
        None => None,
    }
}

// ---------------------------------------------------------------------------
// The report
// ---------------------------------------------------------------------------

/// The report of an article: the page's own title before the article's, the
/// plain text of the article's paragraphs where there is any, and its length.
pub open spec fn presented(
    article: ArticleView,
    title: Option<Seq<char>>,
    url: Option<Seq<char>>,
) -> ExtractedView {
    let body = match article.content {
        Some(content) => paragraph_text(content, url),
        None => Seq::empty(),
    };
    ExtractedView {
        title: if title is Some {
            title
        } else {
            article.title
        },
        content: if body.len() > 0 {
            Some(body)
        } else {
            None
        },
        excerpt: article.excerpt,
        author: article.byline,
        length: byte_length(body),
    }
}

/// An error as a value.
pub enum ErrorView {
    NoContent,
    Unreadable(Seq<char>),
}

impl View for ExtractionError {
    type V = ErrorView;

    open spec fn view(&self) -> ErrorView {
        match self {
            ExtractionError::NoContent => ErrorView::NoContent,
            ExtractionError::Unreadable(message) => ErrorView::Unreadable(message@),
        }
    }
}

impl ExtractionError {
    /// What the error says.
    pub open spec fn text(self) -> Seq<char> {
        match self {
            ExtractionError::NoContent => "No article content found"@,
            ExtractionError::Unreadable(message) => message@,
        }
    }

    /// What the error says.
    pub fn message(&self) -> (said: String)
        ensures
            said@ == self.text(),
    {
        match self {
            ExtractionError::NoContent => "No article content found".to_string(),
            ExtractionError::Unreadable(message) => message.clone(),
        }
    }
}

/// The outcome of a readability pass as a value.
pub open spec fn outcome_view(outcome: Result<Option<Article>, String>) -> Result<
    Option<ArticleView>,
    Seq<char>,
> {
    match outcome {
        Ok(Some(article)) => Ok(Some(article@)),
        Ok(None) => Ok(None),
        Err(message) => Err(message@),
    }
}

/// A result of extraction as a value.
pub open spec fn result_view(result: Result<Extracted, ExtractionError>) -> Result<
    ExtractedView,
    ErrorView,
> {
    match result {
        Ok(extracted) => Ok(extracted@),
        Err(error) => Err(error@),
    }
}

/// What is made of the outcome of a readability pass: the report of the
/// article that it found, `NoContent` where it found none, and `Unreadable`,
/// with the message of the pass behind a prefix, where it failed.
pub open spec fn concluded(
    outcome: Result<Option<ArticleView>, Seq<char>>,
    title: Option<Seq<char>>,
    url: Option<Seq<char>>,
) -> Result<ExtractedView, ErrorView> {
    match outcome {
        Ok(Some(article)) => Ok(presented(article, title, url)),
        Ok(None) => Err(ErrorView::NoContent),
        Err(message) => Err(ErrorView::Unreadable("Readability error: "@ + message)),
    }
}

/// Reports an article.
pub fn present(article: Article, title: Option<String>, base_url: Option<&str>) -> (report:
    Extracted)
    ensures
        report@ == presented(article@, optional_text(title), optional_str(base_url)),
{
    let body = match &article.content {
        Some(content) => extract_paragraph_text(content.as_str(), base_url),
        None => String::new(),
    };
    let length = length_in_bytes(body.as_str());
    let content = if body.as_str().is_empty() {
        None
    } else {
        Some(body)
    };
    let title = if title.is_some() {
        title
    } else {
        article.title
    };
    Extracted { title, content, excerpt: article.excerpt, author: article.byline, length }
}

/// Makes the result of extraction from the outcome of a readability pass.
pub fn conclude(
    outcome: Result<Option<Article>, String>,
    title: Option<String>,
    base_url: Option<&str>,
) -> (result: Result<Extracted, ExtractionError>)
    ensures
        result_view(result) == concluded(
            outcome_view(outcome),
            optional_text(title),
            optional_str(base_url),
        ),
{
    match outcome {
        Ok(Some(article)) => Ok(present(article, title, base_url)),
        Ok(None) => Err(ExtractionError::NoContent),
        Err(message) => {
            let mut text = chars_of("Readability error: ");
            append(&mut text, &chars_of(message.as_str()));
            Err(ExtractionError::Unreadable(text_of(&text)))
        },
    }
}

/// What the readability pass is run on: for a page of El País the body
/// region, where the page has one; else the whole page.
pub open spec fn pass_source(html: Seq<char>, url: Option<Seq<char>>) -> Seq<char> {
    if is_elpais(url) {
        match selected_html(html, BODY_REGION@) {
            Some(region) => region,
            None => html,
        }
    } else {
        html
    }
}

/// The title that a page gives itself.
pub fn title_of_page(html: &str, base_url: Option<&str>) -> (title: Option<String>)
    ensures
        optional_text(title) == own_title(html@, optional_str(base_url)),
{
    if from_elpais(base_url) {
        page_title(html)
    } else {
        None
    }
}

/// The text that the readability pass is run on.
pub fn source_for_pass(html: String, base_url: Option<&str>) -> (source: String)
    ensures
        source@ == pass_source(html@, optional_str(base_url)),
{
    if from_elpais(base_url) {
        match select_html(html.as_str(), BODY_REGION) {
            Some(region) => {
                return region;
            },
            None => {},
        }
    }
    html
}

/// Extracts the article of a page.
///
/// A readability pass is run on `source_for_pass` of the page, with the
/// address of the page. Extraction fails with `Unreadable` exactly when the
/// pass refuses the address. Otherwise it is for the pass to find an
/// article: the result is the report of the article found, with the title of
/// `title_of_page` before the article's own, or `NoContent` where the pass
/// found none.
pub fn parse(html: String, base_url: Option<String>) -> (result: Result<Extracted, ExtractionError>)
    ensures
        match refusal(optional_text(base_url)) {
            Some(message) => result_view(result) == concluded(
                Err(message),
                own_title(html@, optional_text(base_url)),
                optional_text(base_url),
            ),
            None => exists|found: Option<ArticleView>|
                result_view(result) == #[trigger] concluded(
                    Ok(found),
                    own_title(html@, optional_text(base_url)),
                    optional_text(base_url),
                ),
        },
{
    let url = match &base_url {
        Some(address) => Some(address.as_str()),
        None => None,
    };
    let title = title_of_page(html.as_str(), url);
    let source = source_for_pass(html, url);
    let outcome = match start_pass(source.as_str(), url) {
        Ok(pass) => Ok(run_pass(pass)),
        Err(message) => Err(message),
    };
    let ghost seen = outcome_view(outcome);
    let result = conclude(outcome, title, url);
    proof {
        let own = own_title(html@, optional_text(base_url));
        assert(result_view(result) == concluded(seen, own, optional_text(base_url)));
        match seen {
            Ok(found) => {
                assert(result_view(result) == concluded(Ok(found), own, optional_text(base_url)));
            },
            Err(_) => {},
        }
    }
    result
}

} // verus!
