//! Gemtext documents: items that each render as their own kind of line, and
//! the rendering of a whole document.

use std::convert::TryFrom;
use uriparse::URIReference;
use vstd::prelude::*;

use crate::text::{
    all_single_lines, collapse_newlines, escape_line, lines, lossy_escaped_line, newline_terminated,
    split_on_newlines, starts_with, starts_with_any_of, strip_newlines,
    text_lines,
};

verus! {

const LINK_START: &'static str = "=>";

const PREFORMATTED_TOGGLE_START: &'static str = "```";

const HEADING_START: &'static str = "#";

const UNORDERED_LIST_ITEM_START: &'static str = "*";

const QUOTE_START: &'static str = ">";

// ---------------------------------------------------------------------------
// Model
// ---------------------------------------------------------------------------

/// The starts that make a gemtext line something other than plain text:
/// `=>`, `` ``` ``, `#`, `*` and `>`.
pub open spec fn special_starts() -> Seq<Seq<char>> {
    seq![seq!['=', '>'], seq!['`', '`', '`'], seq!['#'], seq!['*'], seq!['>']]
}

/// The start that toggles preformatted mode.
pub open spec fn toggle_start() -> Seq<char> {
    seq!['`', '`', '`']
}

/// The model of one gemtext item: the texts that it renders.
pub enum GemItem {
    Text(Seq<char>),
    Link(Seq<char>, Option<Seq<char>>),
    Preformatted(Seq<char>, Seq<Seq<char>>),
    Heading(HeadingLevel, Seq<char>),
    UnorderedListItem(Seq<char>),
    Quote(Seq<char>),
}

/// The marker that opens a heading of `level`.
pub open spec fn heading_marker(level: HeadingLevel) -> Seq<char> {
    match level {
        HeadingLevel::H1 => seq!['#'],
        HeadingLevel::H2 => seq!['#', '#'],
        HeadingLevel::H3 => seq!['#', '#', '#'],
    }
}

/// The gemtext that one item renders as.
pub open spec fn render_item(item: GemItem) -> Seq<char> {
    match item {
        GemItem::Text(t) => t + seq!['\n'],
        GemItem::Link(uri, label) => seq!['=', '>', ' '] + uri + match label {
            Some(l) => seq![' '] + l,
            None => Seq::empty(),
        } + seq!['\n'],
        GemItem::Preformatted(alt, ls) => toggle_start() + alt + seq!['\n'] + newline_terminated(ls)
            + toggle_start() + seq!['\n'],
        GemItem::Heading(level, t) => heading_marker(level) + seq![' '] + t + seq!['\n'],
        GemItem::UnorderedListItem(t) => seq!['*', ' '] + t + seq!['\n'],
        GemItem::Quote(t) => seq!['>', ' '] + t + seq!['\n'],
    }
}

/// The gemtext that a sequence of items renders as.
pub open spec fn render(items: Seq<GemItem>) -> Seq<char>
    decreases items.len(),
{
    if items.len() == 0 {
        Seq::empty()
    } else {
        render(items.drop_last()) + render_item(items.last())
    }
}

/// A line that stands as plain text: one line, with none of the special starts.
pub open spec fn is_plain_line(t: Seq<char>) -> bool {
    !t.contains('\n') && !starts_with_any_of(t, special_starts())
}

/// What a link's target renders as: the reference as `uriparse` renders it,
/// or, where `uri` does not parse, the reference `.` as `uriparse` renders
/// it (and `.` as written, should `uriparse` refuse even that).
pub open spec fn link_target(uri: Seq<char>) -> Seq<char> {
    match uri_reference_text(uri) {
        Some(t) => t,
        None => match uri_reference_text(seq!['.']) {
            Some(t) => t,
            None => seq!['.'],
        },
    }
}

/// The items that `Document::add_text` appends for the lines `ls`.
pub open spec fn text_items(ls: Seq<Seq<char>>) -> Seq<GemItem> {
    ls.map_values(|l: Seq<char>| GemItem::Text(escape_line(l, special_starts())))
}

/// The items that `Document::add_quote` appends for the lines `ls`.
pub open spec fn quote_items(ls: Seq<Seq<char>>) -> Seq<GemItem> {
    ls.map_values(|l: Seq<char>| GemItem::Quote(escape_line(l, seq![seq!['>']])))
}

/// The lines of a preformatted block made from the lines `ls`.
pub open spec fn preformatted_lines(ls: Seq<Seq<char>>) -> Seq<Seq<char>> {
    ls.map_values(|l: Seq<char>| escape_line(l, seq![toggle_start()]))
}

/// What `uriparse` renders `text` as, once parsed as a URI reference;
/// `None` where it does not parse.
pub uninterp spec fn uri_reference_text(text: Seq<char>) -> Option<Seq<char>>;

/// Parses `text` with `uriparse::URIReference::try_from(&str)` and renders
/// the reference with its `Display` impl. The contract claims that the
/// outcome is a function of `text`, named `uri_reference_text`, and that a
/// rendered reference holds no `'\n'`: the parser refuses control characters
/// in every component, and rendering writes the components as they were
/// read. What the parser accepts and how it renders is otherwise left to
/// that crate.
#[verifier::external_body]
fn parse_uri_reference(text: &str) -> (res: Option<String>)
    ensures
        res.deep_view() == uri_reference_text(text@),
        res matches Some(rendered) ==> !rendered@.contains('\n'),
{
    match URIReference::try_from(text) {
        Ok(uri) => Some(uri.to_string()),
        Err(_) => None,
    }
}

// ---------------------------------------------------------------------------
// Items
// ---------------------------------------------------------------------------

/// One gemtext item; most render as a single line.
pub enum Item {
    Text(Text),
    Link(Link),
    Preformatted(Preformatted),
    Heading(Heading),
    UnorderedListItem(UnorderedListItem),
    Quote(Quote),
}

impl View for Item {
    type V = GemItem;

    open spec fn view(&self) -> GemItem {
        match self {
            Item::Text(t) => GemItem::Text(t@),
            Item::Link(l) => GemItem::Link(
                l.uri@,
                match l.label {
                    Some(label) => Some(label@),
                    None => None,
                },
            ),
            Item::Preformatted(p) => GemItem::Preformatted(
                p.alt@,
                p.lines@.map_values(|line: PreformattedText| line@),
            ),
            Item::Heading(h) => GemItem::Heading(h.level, h.text@),
            Item::UnorderedListItem(u) => GemItem::UnorderedListItem(u@),
            Item::Quote(q) => GemItem::Quote(q@),
        }
    }
}

/// A plain text line.
pub struct Text(String);

impl Default for Text {
    fn default() -> (res: Self)
        ensures
            res@ == Seq::<char>::empty(),
    {
        Text::blank()
    }
}

impl View for Text {
    type V = Seq<char>;

    closed spec fn view(&self) -> Seq<char> {
        self.0@
    }
}

impl Text {
    /// An empty line.
    pub fn blank() -> (res: Self)
        ensures
            res@ == Seq::<char>::empty(),
    {
        Text(String::new())
    }

    /// `line` as a plain text line: a line that contains a newline keeps only
    /// what precedes it, and one that opens with a special start (`=>`,
    /// `` ``` ``, `#`, `*`, `>`) gets a space in front.
    pub fn new_lossy(line: &str) -> (res: Self)
        ensures
            res@ == escape_line(line@, special_starts()),
            is_plain_line(res@),
            !opens_with_line_marker(res@),
    {
        let starts: [&str; 5] = [
            LINK_START,
            PREFORMATTED_TOGGLE_START,
            HEADING_START,
            UNORDERED_LIST_ITEM_START,
            QUOTE_START,
        ];
        proof {
            reveal_strlit("=>");
            reveal_strlit("```");
            reveal_strlit("#");
            reveal_strlit("*");
            reveal_strlit(">");
            assert(starts@.map_values(|p: &str| p@) =~~= special_starts());
            crate::text::lemma_escape_line_clean(line@, special_starts());
            lemma_text_line_escaping(line@);
        }
        Text(lossy_escaped_line(line, &starts))
    }
}

/// A link line: its target and an optional label.
pub struct Link {
    pub uri: String,
    pub label: Option<LinkLabel>,
}

/// The label of a link, on one line.
pub struct LinkLabel(String);

impl View for LinkLabel {
    type V = Seq<char>;

    closed spec fn view(&self) -> Seq<char> {
        self.0@
    }
}

impl LinkLabel {
    /// `line` folded onto one line: its non-empty lines joined by spaces.
    pub fn from_lossy(line: &str) -> (res: Self)
        ensures
            res@ == collapse_newlines(line@),
            !res@.contains('\n'),
    {
        proof {
            crate::text::lemma_collapse_newlines_one_line(line@);
        }
        LinkLabel(strip_newlines(line))
    }
}

/// A block of preformatted text with its alt text.
pub struct Preformatted {
    pub alt: AltText,
    pub lines: Vec<PreformattedText>,
}

/// One line of a preformatted block.
pub struct PreformattedText(String);

impl View for PreformattedText {
    type V = Seq<char>;

    closed spec fn view(&self) -> Seq<char> {
        self.0@
    }
}

impl PreformattedText {
    /// `line` as a line of a preformatted block: a line that contains a
    /// newline keeps only what precedes it, and one that opens with
    /// `` ``` `` gets a space in front, so that it does not end the block.
    pub fn new_lossy(line: &str) -> (res: Self)
        ensures
            res@ == escape_line(line@, seq![toggle_start()]),
            !res@.contains('\n'),
            !starts_with(res@, toggle_start()),
    {
        let starts: [&str; 1] = [PREFORMATTED_TOGGLE_START];
        proof {
            reveal_strlit("```");
            assert(starts@.map_values(|p: &str| p@) =~~= seq![toggle_start()]);
            crate::text::lemma_escape_line_clean(line@, seq![toggle_start()]);
            assert(seq![toggle_start()][0] == toggle_start());
        }
        PreformattedText(lossy_escaped_line(line, &starts))
    }
}

/// The alt text of a preformatted block, on one line.
pub struct AltText(String);

impl View for AltText {
    type V = Seq<char>;

    closed spec fn view(&self) -> Seq<char> {
        self.0@
    }
}

impl AltText {
    /// `alt` folded onto one line: its non-empty lines joined by spaces.
    pub fn new_lossy(alt: &str) -> (res: Self)
        ensures
            res@ == collapse_newlines(alt@),
            !res@.contains('\n'),
    {
        proof {
            crate::text::lemma_collapse_newlines_one_line(alt@);
        }
        Self(strip_newlines(alt))
    }
}

/// A heading line.
pub struct Heading {
    pub level: HeadingLevel,
    pub text: HeadingText,
}

/// The level of a heading: `#`, `##` or `###`.
pub enum HeadingLevel {
    H1,
    H2,
    H3,
}

impl Heading {
    /// A heading of `level` whose text is `line`, made safe as
    /// `HeadingText::new_lossy` does.
    pub fn new_lossy(level: HeadingLevel, line: &str) -> (res: Self)
        ensures
            res.level == level,
            res.text@ == escape_line(collapse_newlines(line@), seq![seq!['#']]),
    {
        Self { level, text: HeadingText::new_lossy(line) }
    }
}

/// The text of a heading.
pub struct HeadingText(String);

impl View for HeadingText {
    type V = Seq<char>;

    closed spec fn view(&self) -> Seq<char> {
        self.0@
    }
}

impl HeadingText {
    /// `line` folded onto one line, with a space in front where it opens
    /// with `#`.
    pub fn new_lossy(line: &str) -> (res: Self)
        ensures
            res@ == escape_line(collapse_newlines(line@), seq![seq!['#']]),
            !res@.contains('\n'),
            !starts_with(res@, seq!['#']),
    {
        let line = strip_newlines(line);
        let starts: [&str; 1] = [HEADING_START];
        proof {
            reveal_strlit("#");
            assert(starts@.map_values(|p: &str| p@) =~~= seq![seq!['#']]);
            crate::text::lemma_escape_line_clean(line@, seq![seq!['#']]);
            assert(seq![seq!['#']][0] == seq!['#']);
        }
        Self(lossy_escaped_line(line.as_str(), &starts))
    }
}

/// The text of an unordered list item, on one line.
pub struct UnorderedListItem(String);

impl View for UnorderedListItem {
    type V = Seq<char>;

    closed spec fn view(&self) -> Seq<char> {
        self.0@
    }
}

impl UnorderedListItem {
    /// `text` folded onto one line: its non-empty lines joined by spaces.
    pub fn new_lossy(text: &str) -> (res: Self)
        ensures
            res@ == collapse_newlines(text@),
            !res@.contains('\n'),
    {
        proof {
            crate::text::lemma_collapse_newlines_one_line(text@);
        }
        Self(strip_newlines(text))
    }
}

/// A quote line.
pub struct Quote(String);

impl View for Quote {
    type V = Seq<char>;

    closed spec fn view(&self) -> Seq<char> {
        self.0@
    }
}

impl Quote {
    /// `text` as a quote line: a text that contains a newline keeps only what
    /// precedes it, and one that opens with `>` gets a space in front.
    pub fn new_lossy(text: &str) -> (res: Self)
        ensures
            res@ == escape_line(text@, seq![seq!['>']]),
            !res@.contains('\n'),
            !starts_with(res@, seq!['>']),
    {
        let starts: [&str; 1] = [QUOTE_START];
        proof {
            reveal_strlit(">");
            assert(starts@.map_values(|p: &str| p@) =~~= seq![seq!['>']]);
            crate::text::lemma_escape_line_clean(text@, seq![seq!['>']]);
            assert(seq![seq!['>']][0] == seq!['>']);
        }
        Self(lossy_escaped_line(text, &starts))
    }
}

// ---------------------------------------------------------------------------
// Document
// ---------------------------------------------------------------------------

/// A gemtext document: a sequence of items.
pub struct Document {
    items: Vec<Item>,
}

impl View for Document {
    type V = Seq<GemItem>;

    closed spec fn view(&self) -> Seq<GemItem> {
        self.items@.map_values(|item: Item| item@)
    }
}

impl Default for Document {
    fn default() -> (res: Self)
        ensures
            res@ == Seq::<GemItem>::empty(),
    {
        Document::new()
    }
}

impl Document {
    /// An empty document.
    pub fn new() -> (res: Self)
        ensures
            res@ == Seq::<GemItem>::empty(),
    {
        let res = Document { items: Vec::new() };
        assert(res@ =~= Seq::<GemItem>::empty());
        res
    }

    /// Appends `item`.
    pub fn add_item(&mut self, item: Item) -> (res: &mut Self)
        ensures
            (*res)@ == old(self)@.push(item@),
            *final(self) == *final(res),
    {
        let ghost before = self@;
        let ghost it = item@;
        self.items.push(item);
        assert(self@ =~= before.push(it));
        self
    }

    /// Appends each of `items`, in order.
    pub fn add_items(&mut self, items: Vec<Item>) -> (res: &mut Self)
        ensures
            (*res)@ == old(self)@ + items@.map_values(|item: Item| item@),
            *final(self) == *final(res),
    {
        let ghost before = self@;
        let ghost added = items@.map_values(|item: Item| item@);
        let mut items = items;
        self.items.append(&mut items);
        assert(self@ =~= before + added);
        self
    }

    /// Appends an empty text line.
    pub fn add_blank_line(&mut self) -> (res: &mut Self)
        ensures
            (*res)@ == old(self)@.push(GemItem::Text(Seq::empty())),
            *final(self) == *final(res),
    {
        self.add_item(Item::Text(Text::blank()))
    }

    /// Appends one text line for each line of `text`, each escaped as
    /// `Text::new_lossy` does.
    pub fn add_text(&mut self, text: &str) -> (res: &mut Self)
        ensures
            (*res)@ == old(self)@ + text_items(lines(text@)),
            *final(self) == *final(res),
    {
        let ls = text_lines(text);
        let ghost lv = ls.deep_view();
        let mut items: Vec<Item> = Vec::new();
        let mut j: usize = 0;
        while j < ls.len()
            invariant
                lv == ls.deep_view(),
                j <= ls@.len(),
                items@.map_values(|item: Item| item@) =~= text_items(lv.subrange(0, j as int)),
            decreases ls@.len() - j,
        {
            let ghost before = items@.map_values(|item: Item| item@);
            let item = Item::Text(Text::new_lossy(ls[j].as_str()));
            assert(lv[j as int] == ls@[j as int]@);
            items.push(item);
            assert(items@.map_values(|item: Item| item@) =~= before.push(item@));
            j += 1;
            assert(text_items(lv.subrange(0, j as int)) =~= text_items(
                lv.subrange(0, j - 1),
            ).push(item@));
        }
        assert(lv.subrange(0, j as int) =~= lv);
        self.add_items(items);
        self
    }

    /// Appends a link to `uri` labelled `label`. A `uri` that does not parse
    /// as a URI reference is replaced by `.`; the label is folded onto one
    /// line.
    pub fn add_link(&mut self, uri: &str, label: &str) -> (res: &mut Self)
        ensures
            (*res)@ == old(self)@.push(
                GemItem::Link(link_target(uri@), Some(collapse_newlines(label@))),
            ),
            *final(self) == *final(res),
            !link_target(uri@).contains('\n'),
    {
        let uri = link_uri(uri);
        let label = LinkLabel::from_lossy(label);
        let link = Link { uri, label: Some(label) };
        self.add_item(Item::Link(link));
        self
    }

    /// Appends a link to `uri` with no label; see `add_link`.
    pub fn add_link_without_label(&mut self, uri: &str) -> (res: &mut Self)
        ensures
            (*res)@ == old(self)@.push(GemItem::Link(link_target(uri@), None)),
            *final(self) == *final(res),
            !link_target(uri@).contains('\n'),
    {
        let uri = link_uri(uri);
        let link = Link { uri, label: None };
        self.add_item(Item::Link(link));
        self
    }

    /// Appends a preformatted block with an empty alt text.
    pub fn add_preformatted(&mut self, preformatted_text: &str) -> (res: &mut Self)
        ensures
            (*res)@ == old(self)@.push(
                GemItem::Preformatted(Seq::empty(), preformatted_lines(lines(preformatted_text@))),
            ),
            *final(self) == *final(res),
    {
        proof {
            reveal_strlit("");
            assert(collapse_newlines(""@) =~= Seq::<char>::empty());
        }
        self.add_preformatted_with_alt("", preformatted_text)
    }

    /// Appends a preformatted block of the lines of `preformatted_text`,
    /// each escaped as `PreformattedText::new_lossy` does, with `alt` folded
    /// onto one line as its alt text.
    pub fn add_preformatted_with_alt(&mut self, alt: &str, preformatted_text: &str) -> (res:
        &mut Self)
        ensures
            (*res)@ == old(self)@.push(
                GemItem::Preformatted(
                    collapse_newlines(alt@),
                    preformatted_lines(lines(preformatted_text@)),
                ),
            ),
            *final(self) == *final(res),
    {
        let alt = AltText::new_lossy(alt);
        let ls = text_lines(preformatted_text);
        let ghost lv = ls.deep_view();
        let mut block: Vec<PreformattedText> = Vec::new();
        let mut j: usize = 0;
        while j < ls.len()
            invariant
                lv == ls.deep_view(),
                j <= ls@.len(),
                block@.map_values(|line: PreformattedText| line@) =~= preformatted_lines(
                    lv.subrange(0, j as int),
                ),
            decreases ls@.len() - j,
        {
            let ghost before = block@.map_values(|line: PreformattedText| line@);
            let line = PreformattedText::new_lossy(ls[j].as_str());
            assert(lv[j as int] == ls@[j as int]@);
            let ghost lview = line@;
            block.push(line);
            assert(block@.map_values(|line: PreformattedText| line@) =~= before.push(lview));
            j += 1;
            assert(preformatted_lines(lv.subrange(0, j as int)) =~= preformatted_lines(
                lv.subrange(0, j - 1),
            ).push(lview));
        }
        assert(lv.subrange(0, j as int) =~= lv);
        let preformatted = Preformatted { alt, lines: block };
        self.add_item(Item::Preformatted(preformatted));
        self
    }

    /// Appends a heading of `level` whose text is `text`, made safe as
    /// `HeadingText::new_lossy` does.
    pub fn add_heading(&mut self, level: HeadingLevel, text: &str) -> (res: &mut Self)
        ensures
            (*res)@ == old(self)@.push(
                GemItem::Heading(level, escape_line(collapse_newlines(text@), seq![seq!['#']])),
            ),
            *final(self) == *final(res),
    {
        let text = HeadingText::new_lossy(text);
        let heading = Heading { level, text };
        self.add_item(Item::Heading(heading));
        self
    }

    /// Appends an unordered list item whose text is `text` folded onto one line.
    pub fn add_unordered_list_item(&mut self, text: &str) -> (res: &mut Self)
        ensures
            (*res)@ == old(self)@.push(GemItem::UnorderedListItem(collapse_newlines(text@))),
            *final(self) == *final(res),
    {
        let item = UnorderedListItem::new_lossy(text);
        self.add_item(Item::UnorderedListItem(item));
        self
    }

    /// Appends one quote line for each line of `text`, each escaped as
    /// `Quote::new_lossy` does.
    pub fn add_quote(&mut self, text: &str) -> (res: &mut Self)
        ensures
            (*res)@ == old(self)@ + quote_items(lines(text@)),
            *final(self) == *final(res),
    {
        let ls = text_lines(text);
        let ghost lv = ls.deep_view();
        let mut items: Vec<Item> = Vec::new();
        let mut j: usize = 0;
        while j < ls.len()
            invariant
                lv == ls.deep_view(),
                j <= ls@.len(),
                items@.map_values(|item: Item| item@) =~= quote_items(lv.subrange(0, j as int)),
            decreases ls@.len() - j,
        {
            let ghost before = items@.map_values(|item: Item| item@);
            let item = Item::Quote(Quote::new_lossy(ls[j].as_str()));
            assert(lv[j as int] == ls@[j as int]@);
            items.push(item);
            assert(items@.map_values(|item: Item| item@) =~= before.push(item@));
            j += 1;
            assert(quote_items(lv.subrange(0, j as int)) =~= quote_items(
                lv.subrange(0, j - 1),
            ).push(item@));
        }
        assert(lv.subrange(0, j as int) =~= lv);
        self.add_items(items);
        self
    }

    /// The gemtext of the document: each item rendered, in order.
    pub fn to_string(&self) -> (res: String)
        ensures
            res@ == render(self@),
    {
        let mut out = String::new();
        let mut i: usize = 0;
        while i < self.items.len()
            invariant
                i <= self.items@.len(),
                out@ == render(self@.subrange(0, i as int)),
            decreases self.items@.len() - i,
        {
            let ghost before = out@;
            render_item_into(&mut out, &self.items[i]);
            assert(self@.subrange(0, i + 1).drop_last() =~= self@.subrange(0, i as int));
            assert(self@[i as int] == self.items@[i as int]@);
            i += 1;
        }
        assert(self@.subrange(0, i as int) =~= self@);
        out
    }
}

/// The target of a link to `uri`: its parsed form, else that of `.`.
fn link_uri(uri: &str) -> (res: String)
    ensures
        res@ == link_target(uri@),
        !res@.contains('\n'),
{
    match parse_uri_reference(uri) {
        Some(parsed) => parsed,
        None => {
            proof {
                reveal_strlit(".");
                assert("."@ =~= seq!['.']);
            }
            match parse_uri_reference(".") {
                Some(parsed) => parsed,
                None => {
                    let dot = String::from_str(".");
                    assert(!dot@.contains('\n')) by {
                        assert(dot@ =~= seq!['.']);
                    }
                    dot
                },
            }
        },
    }
}

/// Appends `text` and a newline to `out`.
fn push_line(out: &mut String, text: &str)
    ensures
        final(out)@ == old(out)@ + text@ + seq!['\n'],
{
    out.append(text);
    out.append("\n");
    proof {
        reveal_strlit("\n");
    }
}

/// Appends the gemtext of `item` to `out`.
fn render_item_into(out: &mut String, item: &Item)
    ensures
        final(out)@ == old(out)@ + render_item(item@),
{
    let ghost start = out@;
    proof {
        reveal_strlit("=> ");
        reveal_strlit(" ");
        reveal_strlit("```");
        reveal_strlit("#");
        reveal_strlit("##");
        reveal_strlit("###");
        reveal_strlit("* ");
        reveal_strlit("> ");
    }
    match item {
        Item::Text(text) => {
            push_line(out, text.0.as_str());
        },
        Item::Link(link) => {
            out.append("=> ");
            match &link.label {
                Some(label) => {
                    out.append(link.uri.as_str());
                    out.append(" ");
                    push_line(out, label.0.as_str());
                    assert(out@ =~= start + render_item(item@));
                },
                None => {
                    push_line(out, link.uri.as_str());
                    assert(out@ =~= start + render_item(item@));
                },
            }
        },
        Item::Preformatted(preformatted) => {
            out.append("```");
            push_line(out, preformatted.alt.0.as_str());
            let ghost head = out@;
            let ghost lv = preformatted.lines@.map_values(|line: PreformattedText| line@);
            let mut j: usize = 0;
            while j < preformatted.lines.len()
                invariant
                    j <= preformatted.lines@.len(),
                    lv == preformatted.lines@.map_values(|line: PreformattedText| line@),
                    out@ == head + newline_terminated(lv.subrange(0, j as int)),
                decreases preformatted.lines@.len() - j,
            {
                push_line(out, preformatted.lines[j].0.as_str());
                assert(lv.subrange(0, j + 1).drop_last() =~= lv.subrange(0, j as int));
                assert(lv[j as int] == preformatted.lines@[j as int]@);
                j += 1;
                assert(out@ =~= head + newline_terminated(lv.subrange(0, j as int)));
            }
            assert(lv.subrange(0, j as int) =~= lv);
            out.append("```");
            push_line(out, "");
            proof {
                reveal_strlit("");
            }
            assert(out@ =~= start + render_item(item@));
        },
        Item::Heading(heading) => {
            let level = match heading.level {
                HeadingLevel::H1 => "#",
                HeadingLevel::H2 => "##",
                HeadingLevel::H3 => "###",
            };
            assert(level@ == heading_marker(heading.level));
            out.append(level);
            out.append(" ");
            push_line(out, heading.text.0.as_str());
            assert(out@ =~= start + render_item(item@));
        },
        Item::UnorderedListItem(list_item) => {
            out.append("* ");
            push_line(out, list_item.0.as_str());
            assert(out@ =~= start + render_item(item@));
        },
        Item::Quote(quote) => {
            out.append("> ");
            push_line(out, quote.0.as_str());
            assert(out@ =~= start + render_item(item@));
        },
    }
}

// ---------------------------------------------------------------------------
// Laws of rendering
// ---------------------------------------------------------------------------

/// Rendering distributes over concatenation: the gemtext of `a` followed by
/// `b` is that of `a` followed by that of `b`, so appending items appends
/// their gemtext to what the document rendered before.
pub proof fn lemma_render_append(a: Seq<GemItem>, b: Seq<GemItem>)
    ensures
        render(a + b) == render(a) + render(b),
    decreases b.len(),
{
    if b.len() == 0 {
        assert(a + b =~= a);
        assert(render(a) + render(b) =~= render(a));
    } else {
        lemma_render_append(a, b.drop_last());
        assert((a + b).drop_last() =~= a + b.drop_last());
        assert((a + b).last() == b.last());
        assert(render(a + b) =~= render(a) + render(b));
    }
}

/// The lines `ls` as plain text lines, each escaped as `Text::new_lossy` does.
pub open spec fn escaped_text_lines(ls: Seq<Seq<char>>) -> Seq<Seq<char>> {
    ls.map_values(|l: Seq<char>| escape_line(l, special_starts()))
}

/// The text lines that `Document::add_text` appends render as exactly one
/// gemtext line each, in order, and each of those lines is plain text:
/// split at its newlines, their gemtext gives back the escaped lines and the
/// empty rest after the last newline.
pub proof fn lemma_text_items_render_as_lines(ls: Seq<Seq<char>>)
    ensures
        render(text_items(ls)) == newline_terminated(escaped_text_lines(ls)),
        split_on_newlines(render(text_items(ls))) == escaped_text_lines(ls).push(
            Seq::<char>::empty(),
        ),
        forall|j: int|
            0 <= j < ls.len() ==> is_plain_line(#[trigger] escaped_text_lines(ls)[j]),
    decreases ls.len(),
{
    let es = escaped_text_lines(ls);
    assert forall|j: int| 0 <= j < ls.len() implies is_plain_line(#[trigger] es[j]) by {
        crate::text::lemma_escape_line_clean(ls[j], special_starts());
    }
    if ls.len() > 0 {
        lemma_text_items_render_as_lines(ls.drop_last());
        assert(text_items(ls).drop_last() =~= text_items(ls.drop_last()));
        assert(es.drop_last() =~= escaped_text_lines(ls.drop_last()));
        assert(text_items(ls).last() == GemItem::Text(es.last()));
        assert(render(text_items(ls)) =~= newline_terminated(es.drop_last()) + es.last() + seq![
            '\n',
        ]);
    } else {
        assert(es =~= Seq::<Seq<char>>::empty());
        assert(text_items(ls) =~= Seq::<GemItem>::empty());
    }
    assert(render(text_items(ls)) == newline_terminated(es));
    assert(all_single_lines(es));
    crate::text::lemma_split_newline_terminated(es);
}

/// A preformatted block whose alt text and lines are one line each, and whose
/// lines do not open with `` ``` ``, renders as exactly its opening line, its
/// lines and its closing line: no line of it ends the block early.
pub proof fn lemma_preformatted_block_lines(alt: Seq<char>, ls: Seq<Seq<char>>)
    requires
        !alt.contains('\n'),
        all_single_lines(ls),
        forall|j: int| 0 <= j < ls.len() ==> !starts_with(#[trigger] ls[j], toggle_start()),
    ensures
        split_on_newlines(render_item(GemItem::Preformatted(alt, ls))) == seq![toggle_start() + alt]
            + ls + seq![toggle_start(), Seq::<char>::empty()],
{
    let opening = seq![toggle_start() + alt];
    let closing = seq![toggle_start()];
    let all = opening + ls + closing;
    crate::text::lemma_newline_terminated_append(opening, ls);
    crate::text::lemma_newline_terminated_append(opening + ls, closing);
    assert(opening.drop_last() =~= Seq::<Seq<char>>::empty());
    assert(closing.drop_last() =~= Seq::<Seq<char>>::empty());
    assert(newline_terminated(Seq::<Seq<char>>::empty()) =~= Seq::<char>::empty());
    assert(newline_terminated(opening) =~= toggle_start() + alt + seq!['\n']);
    assert(newline_terminated(closing) =~= toggle_start() + seq!['\n']);
    assert(render_item(GemItem::Preformatted(alt, ls)) =~= newline_terminated(all));
    assert(!(toggle_start() + alt).contains('\n')) by {
        let o = toggle_start() + alt;
        if o.contains('\n') {
            let k = choose|k: int| 0 <= k < o.len() && o[k] == '\n';
            assert(alt[k - 3] == '\n');
        }
    }
    assert(all_single_lines(all)) by {
        assert forall|j: int| 0 <= j < all.len() implies !(#[trigger] all[j]).contains('\n') by {
            if j == 0 {
                assert(all[j] == toggle_start() + alt);
            } else if j <= ls.len() {
                assert(all[j] == ls[j - 1]);
            } else {
                assert(all[j] == toggle_start());
            }
        }
    }
    crate::text::lemma_split_newline_terminated(all);
    assert(all.push(Seq::<char>::empty()) =~= seq![toggle_start() + alt] + ls + seq![
        toggle_start(),
        Seq::<char>::empty(),
    ]);
}

/// The texts of `item` hold no `'\n'`, and it is not a preformatted block.
pub open spec fn has_single_line_fields(item: GemItem) -> bool {
    match item {
        GemItem::Text(t) => !t.contains('\n'),
        GemItem::Link(uri, label) => !uri.contains('\n') && match label {
            Some(l) => !l.contains('\n'),
            None => true,
        },
        GemItem::Preformatted(_, _) => false,
        GemItem::Heading(_, t) => !t.contains('\n'),
        GemItem::UnorderedListItem(t) => !t.contains('\n'),
        GemItem::Quote(t) => !t.contains('\n'),
    }
}

/// Two texts without `'\n'` make one without `'\n'`.
proof fn lemma_concat_single(a: Seq<char>, b: Seq<char>)
    requires
        !a.contains('\n'),
        !b.contains('\n'),
    ensures
        !(a + b).contains('\n'),
{
    if (a + b).contains('\n') {
        let k = choose|k: int| 0 <= k < (a + b).len() && (a + b)[k] == '\n';
        if k < a.len() {
            assert(a[k] == '\n');
        } else {
            assert(b[k - a.len()] == '\n');
        }
    }
}

/// Every item but a preformatted block renders as exactly one line, provided
/// its texts hold no newline (which the constructors of the item types and
/// the link adders of `Document` ensure).
pub proof fn lemma_single_line_item(item: GemItem)
    requires
        has_single_line_fields(item),
    ensures
        render_item(item).len() > 0,
        render_item(item).last() == '\n',
        split_on_newlines(render_item(item)) == seq![
            render_item(item).drop_last(),
            Seq::<char>::empty(),
        ],
{
    let r = render_item(item);
    let line = match item {
        GemItem::Text(t) => t,
        GemItem::Link(uri, label) => seq!['=', '>', ' '] + uri + match label {
            Some(l) => seq![' '] + l,
            None => Seq::empty(),
        },
        GemItem::Preformatted(_, _) => Seq::empty(),
        GemItem::Heading(level, t) => heading_marker(level) + seq![' '] + t,
        GemItem::UnorderedListItem(t) => seq!['*', ' '] + t,
        GemItem::Quote(t) => seq!['>', ' '] + t,
    };
    assert(r =~= line + seq!['\n']);
    assert(!line.contains('\n')) by {
        match item {
            GemItem::Link(uri, label) => {
                lemma_concat_single(seq!['=', '>', ' '], uri);
                match label {
                    Some(l) => {
                        lemma_concat_single(seq![' '], l);
                        lemma_concat_single(seq!['=', '>', ' '] + uri, seq![' '] + l);
                    },
                    None => {
                        lemma_concat_single(seq!['=', '>', ' '] + uri, Seq::empty());
                    },
                }
            },
            GemItem::Heading(level, t) => {
                lemma_concat_single(heading_marker(level), seq![' ']);
                lemma_concat_single(heading_marker(level) + seq![' '], t);
            },
            GemItem::UnorderedListItem(t) => {
                lemma_concat_single(seq!['*', ' '], t);
            },
            GemItem::Quote(t) => {
                lemma_concat_single(seq!['>', ' '], t);
            },
            _ => {},
        }
    }
    let one = seq![line];
    assert(one.drop_last() =~= Seq::<Seq<char>>::empty());
    assert(newline_terminated(Seq::<Seq<char>>::empty()) =~= Seq::<char>::empty());
    assert(newline_terminated(one) =~= r);
    assert(all_single_lines(one));
    crate::text::lemma_split_newline_terminated(one);
    assert(r.drop_last() =~= line);
    assert(one.push(Seq::<char>::empty()) =~= seq![line, Seq::<char>::empty()]);
}

// ---------------------------------------------------------------------------
// Laws of the adders, stated over the characters of the input
// ---------------------------------------------------------------------------

/// `l` opens with a gemtext line marker: `#`, `*`, `>`, `=>` or `` ``` ``.
pub open spec fn opens_with_line_marker(l: Seq<char>) -> bool {
    ||| l.len() >= 1 && (l[0] == '#' || l[0] == '*' || l[0] == '>')
    ||| l.len() >= 2 && l[0] == '=' && l[1] == '>'
    ||| l.len() >= 3 && l[0] == '`' && l[1] == '`' && l[2] == '`'
}

/// Opening with one of `special_starts()` is opening with a line marker.
proof fn lemma_marker_iff_special(l: Seq<char>)
    ensures
        opens_with_line_marker(l) <==> starts_with_any_of(l, special_starts()),
{
    let sp = special_starts();
    if opens_with_line_marker(l) {
        if l.len() >= 1 && l[0] == '#' {
            assert(l.subrange(0, 1) =~= sp[2]);
            assert(starts_with(l, sp[2]));
        } else if l.len() >= 1 && l[0] == '*' {
            assert(l.subrange(0, 1) =~= sp[3]);
            assert(starts_with(l, sp[3]));
        } else if l.len() >= 1 && l[0] == '>' {
            assert(l.subrange(0, 1) =~= sp[4]);
            assert(starts_with(l, sp[4]));
        } else if l.len() >= 2 && l[0] == '=' && l[1] == '>' {
            assert(l.subrange(0, 2) =~= sp[0]);
            assert(starts_with(l, sp[0]));
        } else {
            assert(l.subrange(0, 3) =~= sp[1]);
            assert(starts_with(l, sp[1]));
        }
    } else {
        if starts_with_any_of(l, sp) {
            let i = choose|i: int| 0 <= i < sp.len() && starts_with(l, #[trigger] sp[i]);
            assert(l.subrange(0, sp[i].len() as int)[0] == l[0]);
            if i == 0 || i == 1 {
                assert(l.subrange(0, sp[i].len() as int)[1] == l[1]);
            }
            if i == 1 {
                assert(l.subrange(0, sp[i].len() as int)[2] == l[2]);
            }
        }
    }
}

/// No text line made by `Text::new_lossy` opens with `#`, `*`, `>`, `=>` or
/// `` ``` ``, whatever the input; and from a line without a newline it makes
/// the line itself, behind a single space exactly where the line opens with
/// one of those markers.
pub proof fn lemma_text_line_escaping(l: Seq<char>)
    ensures
        !opens_with_line_marker(escape_line(l, special_starts())),
        !escape_line(l, special_starts()).contains('\n'),
        !l.contains('\n') ==> escape_line(l, special_starts()) == if opens_with_line_marker(l) {
            seq![' '] + l
        } else {
            l
        },
{
    crate::text::lemma_escape_line_clean(l, special_starts());
    lemma_marker_iff_special(l);
    lemma_marker_iff_special(escape_line(l, special_starts()));
    if !l.contains('\n') {
        crate::text::lemma_escape_single_line(l, special_starts());
    }
}

/// `Document::add_text` appends exactly one text line per line of the text,
/// empty lines included, in order; a line without carriage returns that
/// opens with `#`, `*`, `>`, `=>` or `` ``` `` gets a single space in front,
/// and any other line is kept as it is.
pub proof fn lemma_add_text_lines(text: Seq<char>)
    ensures
        text_items(lines(text)).len() == lines(text).len(),
        forall|j: int|
            0 <= j < lines(text).len() ==> #[trigger] text_items(lines(text))[j] == GemItem::Text(
                if opens_with_line_marker(lines(text)[j]) {
                    seq![' '] + lines(text)[j]
                } else {
                    lines(text)[j]
                },
            ),
{
    crate::text::lemma_lines_single(text);
    let ls = lines(text);
    assert forall|j: int| 0 <= j < ls.len() implies #[trigger] text_items(ls)[j] == GemItem::Text(
        if opens_with_line_marker(ls[j]) {
            seq![' '] + ls[j]
        } else {
            ls[j]
        },
    ) by {
        assert(!ls[j].contains('\n'));
        lemma_text_line_escaping(ls[j]);
    }
}

/// `Document::add_quote` appends exactly one quote per line of the text,
/// empty lines included, in order; a line that opens with `>` gets a single
/// space in front, and any other line is kept as it is.
pub proof fn lemma_add_quote_lines(text: Seq<char>)
    ensures
        quote_items(lines(text)).len() == lines(text).len(),
        forall|j: int|
            0 <= j < lines(text).len() ==> #[trigger] quote_items(lines(text))[j]
                == GemItem::Quote(
                if lines(text)[j].len() > 0 && lines(text)[j][0] == '>' {
                    seq![' '] + lines(text)[j]
                } else {
                    lines(text)[j]
                },
            ),
{
    crate::text::lemma_lines_single(text);
    let ls = lines(text);
    let starts = seq![seq!['>']];
    assert forall|j: int| 0 <= j < ls.len() implies #[trigger] quote_items(ls)[j] == GemItem::Quote(
        if ls[j].len() > 0 && ls[j][0] == '>' {
            seq![' '] + ls[j]
        } else {
            ls[j]
        },
    ) by {
        let l = ls[j];
        assert(!l.contains('\n'));
        crate::text::lemma_escape_single_line(l, starts);
        if l.len() > 0 && l[0] == '>' {
            assert(l.subrange(0, 1) =~= starts[0]);
            assert(starts_with(l, starts[0]));
        } else if starts_with_any_of(l, starts) {
            assert(starts_with(l, starts[0]));
            assert(l.subrange(0, 1)[0] == l[0]);
        }
    }
}

/// `Document::add_preformatted_with_alt` makes a block with exactly one line
/// per line of the text, empty lines included, in order; a line that opens
/// with `` ``` `` gets a single space in front, and any other line is kept
/// as it is.
pub proof fn lemma_add_preformatted_lines(text: Seq<char>)
    ensures
        preformatted_lines(lines(text)).len() == lines(text).len(),
        forall|j: int|
            0 <= j < lines(text).len() ==> #[trigger] preformatted_lines(lines(text))[j] == if {
                let l = lines(text)[j];
                l.len() >= 3 && l[0] == '`' && l[1] == '`' && l[2] == '`'
            } {
                seq![' '] + lines(text)[j]
            } else {
                lines(text)[j]
            },
{
    crate::text::lemma_lines_single(text);
    let ls = lines(text);
    let starts = seq![toggle_start()];
    assert forall|j: int|
        0 <= j < ls.len() implies #[trigger] preformatted_lines(ls)[j] == if {
            let l = ls[j];
            l.len() >= 3 && l[0] == '`' && l[1] == '`' && l[2] == '`'
        } {
            seq![' '] + ls[j]
        } else {
            ls[j]
        } by {
        let l = ls[j];
        assert(!l.contains('\n'));
        crate::text::lemma_escape_single_line(l, starts);
        if l.len() >= 3 && l[0] == '`' && l[1] == '`' && l[2] == '`' {
            assert(l.subrange(0, 3) =~= starts[0]);
            assert(starts_with(l, starts[0]));
        } else if starts_with_any_of(l, starts) {
            assert(starts_with(l, starts[0]));
            let p = l.subrange(0, 3);
            assert(p[0] == l[0] && p[1] == l[1] && p[2] == l[2]);
        }
    }
}

/// A link's target is exactly what `uriparse` renders the given reference
/// as, whenever it parses; only a reference that does not parse is replaced,
/// and then by the same target as a link to `.`.
pub proof fn lemma_link_target_is_rendered_reference(uri: Seq<char>)
    ensures
        uri_reference_text(uri) matches Some(t) ==> link_target(uri) == t,
        uri_reference_text(uri) is None ==> link_target(uri) == link_target(seq!['.']),
{
}

/// Each item renders as its own kind of gemtext line: a text line that is
/// plain opens with no line marker, a link with `=> `, a preformatted block
/// with `` ``` ``, a heading with `#`, a list item with `* ` and a quote
/// with `> `.
pub proof fn lemma_items_render_as_their_kind(item: GemItem)
    ensures
        item matches GemItem::Text(t) && !opens_with_line_marker(t) ==> !opens_with_line_marker(
            render_item(item),
        ),
        item is Link ==> render_item(item).len() >= 3 && render_item(item)[0] == '='
            && render_item(item)[1] == '>' && render_item(item)[2] == ' ',
        item is Preformatted ==> render_item(item).len() >= 3 && render_item(item)[0] == '`'
            && render_item(item)[1] == '`' && render_item(item)[2] == '`',
        item is Heading ==> render_item(item).len() >= 1 && render_item(item)[0] == '#',
        item is UnorderedListItem ==> render_item(item).len() >= 2 && render_item(item)[0] == '*'
            && render_item(item)[1] == ' ',
        item is Quote ==> render_item(item).len() >= 2 && render_item(item)[0] == '>'
            && render_item(item)[1] == ' ',
{
    let r = render_item(item);
    match item {
        GemItem::Text(t) => {
            assert(r =~= t + seq!['\n']);
            if t.len() == 0 {
                assert(r =~= seq!['\n']);
            } else {
                assert(r[0] == t[0]);
                if t.len() >= 2 {
                    assert(r[1] == t[1]);
                }
                if t.len() >= 3 {
                    assert(r[2] == t[2]);
                }
                if t.len() == 1 {
                    assert(r[1] == '\n');
                }
                if t.len() == 2 {
                    assert(r[2] == '\n');
                }
            }
        },
        GemItem::Heading(level, t) => {
            assert(r[0] == heading_marker(level)[0]);
        },
        _ => {},
    }
}

} // verus!
