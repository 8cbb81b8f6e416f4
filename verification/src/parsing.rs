//! Content extraction: from the bytes of a file, read as text, to the text
//! that is indexed. Plain text passes through; of markup only the text
//! and the comments remain.

use crate::text::str_eq;
use html_parser::{Dom, Node};
use vstd::prelude::*;
use vstd::string::StringExecFns;

verus! {

/// `std::io::Error`, carried through untouched.
#[verifier::external_type_specification]
#[verifier::external_body]
pub struct ExIoError(std::io::Error);

/// `html_parser::Error`, carried through untouched.
#[verifier::external_type_specification]
#[verifier::external_body]
pub struct ExHtmlError(html_parser::Error);

/// `html_parser::Node`, handed from the parser to the conversion.
#[verifier::external_type_specification]
#[verifier::external_body]
pub struct ExHtmlNode(html_parser::Node);

/// Why the content of a file could not be extracted.
#[derive(Debug)]
pub enum FileParsingError {
    ReadFileError(std::io::Error),
    ParseHtmlError(html_parser::Error),
    UnknownExtensionError(String),
    NoExtensionError,
}

/// A parsed markup document as far as content extraction reads it.
pub enum HtmlTree {
    Text(Seq<char>),
    Comment(Seq<char>),
    Element(Seq<HtmlTree>),
}

/// A node of a parsed markup document: a run of text, a comment, or an
/// element with its children.
#[derive(Debug)]
pub enum HtmlNode {
    Text(String),
    Comment(String),
    Element(Vec<HtmlNode>),
}

impl View for HtmlNode {
    type V = HtmlTree;

    open spec fn view(&self) -> HtmlTree
        decreases self,
    {
        match self {
            HtmlNode::Text(t) => HtmlTree::Text(t@),
            HtmlNode::Comment(t) => HtmlTree::Comment(t@),
            HtmlNode::Element(children) => HtmlTree::Element(
                Seq::new(
                    children@.len(),
                    |i: int|
                        if 0 <= i < children@.len() {
                            children@[i]@
                        } else {
                            HtmlTree::Element(Seq::empty())
                        },
                ),
            ),
        }
    }
}

/// The trees of a sequence of nodes.
pub open spec fn forest(nodes: Seq<HtmlNode>) -> Seq<HtmlTree> {
    Seq::new(nodes.len(), |i: int| nodes[i]@)
}

/// The text of a tree in document order: each run of text and each comment
/// followed by one space.
pub open spec fn tree_text(t: HtmlTree) -> Seq<char>
    decreases t,
{
    match t {
        HtmlTree::Text(s) => s.push(' '),
        HtmlTree::Comment(s) => s.push(' '),
        HtmlTree::Element(children) => forest_text(children),
    }
}

/// The texts of the trees of `ts`, one after the other.
pub open spec fn forest_text(ts: Seq<HtmlTree>) -> Seq<char>
    decreases ts,
{
    if ts.len() == 0 {
        Seq::empty()
    } else {
        forest_text(ts.drop_last()) + tree_text(ts.last())
    }
}

/// Copies the nodes that `html_parser` built into nodes of this library,
/// variant by variant, keeping of an element its children only.
#[verifier::external_body]
fn html_nodes(nodes: Vec<Node>) -> Vec<HtmlNode> {
    let mut converted = Vec::new();
    for node in nodes {
        converted.push(
            match node {
                Node::Text(text) => HtmlNode::Text(text),
                Node::Comment(text) => HtmlNode::Comment(text),
                Node::Element(element) => HtmlNode::Element(html_nodes(element.children)),
            },
        );
    }
    converted
}

/// `html_parser::Dom::parse`, with the nodes below the root where the
/// content parses. Nothing is claimed of it: the parser gives up where too
/// little of the stack is left, so that whether markup parses is not a
/// matter of the content alone.
#[verifier::external_body]
fn parse_html(content: &str) -> (r: Result<Vec<HtmlNode>, html_parser::Error>) {
    match Dom::parse(content) {
        Ok(dom) => Ok(html_nodes(dom.children)),
        Err(e) => Err(e),
    }
}

/// What `std::path::Path::extension` gives for the path that `path` spells,
/// on the platform that the library is built for: the part of the last
/// component behind its last dot, where there is one.
pub uninterp spec fn extension_of(path: Seq<char>) -> Option<Seq<char>>;

/// `Path::extension` of the path that `file_path` spells, as text: the
/// extension is a function of the path alone. Nothing is read but the
/// path, and a part of a string is a string, so that no character is lost
/// on the way back to text.
#[verifier::external_body]
pub(crate) fn path_extension(file_path: &str) -> (r: Option<String>)
    ensures
        option_text(r) == extension_of(file_path@),
{
    std::path::Path::new(file_path).extension().map(|ext| ext.to_string_lossy().to_string())
}

/// The text that `std::io::Error` displays.
#[verifier::external_body]
fn io_error_text(e: &std::io::Error) -> (r: String) {
    format!("{}", e)
}

/// The text that `html_parser::Error` displays.
#[verifier::external_body]
fn html_error_text(e: &html_parser::Error) -> (r: String) {
    format!("{}", e)
}

impl FileParsingError {
    /// The diagnostic for this failure: `ERROR: ` and what went wrong.
    pub fn message(&self) -> (r: String)
        ensures
            r@.take("ERROR: "@.len() as int) == "ERROR: "@,
            match self {
                FileParsingError::UnknownExtensionError(ext) => r@ == "ERROR: "@
                    + "Unkown extention "@ + ext@,
                FileParsingError::NoExtensionError => r@ == "ERROR: "@
                    + "Cannot read file without extension"@,
                _ => true,
            },
    {
        let mut text = String::from_str("ERROR: ");
        match self {
            FileParsingError::ReadFileError(e) => {
                let detail = io_error_text(e);
                text.append(detail.as_str());
                assert(text@.take("ERROR: "@.len() as int) == "ERROR: "@);
            },
            FileParsingError::ParseHtmlError(e) => {
                let detail = html_error_text(e);
                text.append(detail.as_str());
                assert(text@.take("ERROR: "@.len() as int) == "ERROR: "@);
            },
            FileParsingError::UnknownExtensionError(ext) => {
                text.append("Unkown extention ");
                text.append(ext.as_str());
            },
            FileParsingError::NoExtensionError => {
                text.append("Cannot read file without extension");
            },
        }
        text
    }
}

/// The text of a string that may be missing.
pub open spec fn option_text(o: Option<String>) -> Option<Seq<char>> {
    match o {
        Some(s) => Some(s@),
        None => None,
    }
}

/// The text of a string slice that may be missing.
pub open spec fn option_str_text(o: Option<&str>) -> Option<Seq<char>> {
    match o {
        Some(s) => Some(s@),
        None => None,
    }
}

/// The formats that content can be extracted from.
#[derive(Clone, Copy, Debug, PartialEq, Eq)]
pub enum ContentKind {
    /// Plain text, taken as it is.
    Text,
    /// Markup, of which the text and the comments are taken.
    Html,
}

/// The format that the extension `ext` stands for.
pub open spec fn kind_of(ext: Seq<char>) -> Option<ContentKind> {
    if ext == "txt"@ {
        Some(ContentKind::Text)
    } else if ext == "html"@ {
        Some(ContentKind::Html)
    } else {
        None
    }
}

/// How an attempt to extract content ends.
pub enum ReadOutcome {
    Content(Seq<char>),
    Unreadable(std::io::Error),
    Malformed,
    UnknownExtension(Seq<char>),
    NoExtension,
}

/// The outcome that a result of content extraction stands for.
pub open spec fn outcome(r: Result<String, FileParsingError>) -> ReadOutcome {
    match r {
        Ok(text) => ReadOutcome::Content(text@),
        Err(FileParsingError::ReadFileError(e)) => ReadOutcome::Unreadable(e),
        Err(FileParsingError::ParseHtmlError(_)) => ReadOutcome::Malformed,
        Err(FileParsingError::UnknownExtensionError(ext)) => ReadOutcome::UnknownExtension(ext@),
        Err(FileParsingError::NoExtensionError) => ReadOutcome::NoExtension,
    }
}

/// The outcome for plain text, of which `raw` is what reading the file
/// gave.
pub open spec fn text_outcome(raw: Result<String, std::io::Error>) -> ReadOutcome {
    match raw {
        Ok(content) => ReadOutcome::Content(content@),
        Err(e) => ReadOutcome::Unreadable(e),
    }
}

/// The outcome for markup, of which `raw` is what reading the file gave
/// and `parsed` is what the parser made of it: the trees below the root,
/// or `None` where it did not parse. A file that could not be read is not
/// parsed.
pub open spec fn html_outcome(
    raw: Result<String, std::io::Error>,
    parsed: Option<Seq<HtmlTree>>,
) -> ReadOutcome {
    match raw {
        Ok(_) => match parsed {
            Some(trees) => ReadOutcome::Content(forest_text(trees)),
            None => ReadOutcome::Malformed,
        },
        Err(e) => ReadOutcome::Unreadable(e),
    }
}

/// The outcome for a file of the format `kind`, of which `raw` is what
/// reading the file gave and `parsed` is what the parser made of markup.
pub open spec fn kind_outcome(
    kind: ContentKind,
    raw: Result<String, std::io::Error>,
    parsed: Option<Seq<HtmlTree>>,
) -> ReadOutcome {
    match kind {
        ContentKind::Text => text_outcome(raw),
        ContentKind::Html => html_outcome(raw, parsed),
    }
}

/// The outcome for a file with the extension `ext`, of which `raw` is what
/// reading the file gave and `parsed` is what the parser made of markup:
/// the extension decides first.
pub open spec fn read_outcome(
    ext: Option<Seq<char>>,
    raw: Result<String, std::io::Error>,
    parsed: Option<Seq<HtmlTree>>,
) -> ReadOutcome {
    match ext {
        None => ReadOutcome::NoExtension,
        Some(e) => match kind_of(e) {
            Some(kind) => kind_outcome(kind, raw, parsed),
            None => ReadOutcome::UnknownExtension(e),
        },
    }
}

/// What a result of the parser stands for: the trees below the root, or
/// `None` where the markup did not parse.
pub open spec fn parsed_trees(
    parsed: Result<Vec<HtmlNode>, html_parser::Error>,
) -> Option<Seq<HtmlTree>> {
    match parsed {
        Ok(nodes) => Some(forest(nodes@)),
        Err(_) => None,
    }
}

/// The text of one more tree follows that of the trees before it.
pub proof fn lemma_forest_text_push(ts: Seq<HtmlTree>, t: HtmlTree)
    ensures
        forest_text(ts.push(t)) == forest_text(ts) + tree_text(t),
{
    assert(ts.push(t).drop_last() == ts);
}

/// Appends to `out` the text of `nodes` in document order.
fn push_nodes_text(nodes: &Vec<HtmlNode>, out: &mut String)
    ensures
        final(out)@ == old(out)@ + forest_text(forest(nodes@)),
    decreases nodes,
{
    let mut i: usize = 0;
    assert(forest(nodes@.take(0)) == Seq::<HtmlTree>::empty());
    while i < nodes.len()
        invariant
            i <= nodes@.len(),
            out@ == old(out)@ + forest_text(forest(nodes@.take(i as int))),
        decreases nodes@.len() - i,
    {
        proof {
            assert(forest(nodes@.take(i + 1)) == forest(nodes@.take(i as int)).push(
                nodes@[i as int]@,
            ));
            lemma_forest_text_push(forest(nodes@.take(i as int)), nodes@[i as int]@);
        }
        match &nodes[i] {
            HtmlNode::Text(text) => {
                out.append(text.as_str());
                out.push(' ');
            },
            HtmlNode::Comment(text) => {
                out.append(text.as_str());
                out.push(' ');
            },
            HtmlNode::Element(children) => {
                assert(nodes@[i as int]@ matches HtmlTree::Element(ts) && ts =~= forest(
                    children@,
                ));
                push_nodes_text(children, out);
            },
        }
        i += 1;
    }
    assert(nodes@.take(i as int) == nodes@);
}

/// The text of `nodes` in document order: each run of text and each
/// comment followed by one space, and nothing of the markup.
pub fn html_text(nodes: &Vec<HtmlNode>) -> (r: String)
    ensures
        r@ == forest_text(forest(nodes@)),
{
    let mut text = String::new();
    push_nodes_text(nodes, &mut text);
    text
}

/// The content of a plain-text file: what was read.
pub fn read_text_file(raw: Result<String, std::io::Error>) -> (r: Result<String, FileParsingError>)
    ensures
        outcome(r) == text_outcome(raw),
        raw matches Ok(content) ==> r == Ok::<String, FileParsingError>(content),
{
    match raw {
        Ok(content) => Ok(content),
        Err(e) => Err(FileParsingError::ReadFileError(e)),
    }
}

/// The content of markup that was parsed: the text and the comments of
/// the nodes, in document order, each followed by a space. Markup that did
/// not parse is answered with the parser's error.
pub fn html_content(parsed: Result<Vec<HtmlNode>, html_parser::Error>) -> (r: Result<
    String,
    FileParsingError,
>)
    ensures
        match parsed {
            Ok(nodes) => r matches Ok(text) && text@ == forest_text(forest(nodes@)),
            Err(e) => r matches Err(FileParsingError::ParseHtmlError(e2)) && e2 == e,
        },
{
    match parsed {
        Ok(nodes) => Ok(html_text(&nodes)),
        Err(e) => Err(FileParsingError::ParseHtmlError(e)),
    }
}

/// The content of a markup file: the text and the comments of what was
/// read, in document order, each followed by a space. A file that could
/// not be read is answered with that error and is not parsed; what was
/// read either parses, and its text is the content, or is answered as
/// malformed.
pub fn read_html_file(raw: Result<String, std::io::Error>) -> (r: Result<String, FileParsingError>)
    ensures
        exists|parsed: Option<Seq<HtmlTree>>| outcome(r) == html_outcome(raw, parsed),
        raw matches Err(e) ==> r matches Err(FileParsingError::ReadFileError(e2)) && e2 == e,
{
    let html_content = match raw {
        Ok(content) => content,
        Err(e) => {
            assert(outcome(Err(FileParsingError::ReadFileError(e))) == html_outcome(raw, None));
            return Err(FileParsingError::ReadFileError(e));
        },
    };
    let parsed = parse_html(html_content.as_str());
    let ghost trees = parsed_trees(parsed);
    let r = self::html_content(parsed);
    assert(outcome(r) == html_outcome(raw, trees));
    r
}

/// The content of a file of the format `kind`, of which `raw` is what
/// reading the file gave.
pub fn read_kind(kind: ContentKind, raw: Result<String, std::io::Error>) -> (r: Result<
    String,
    FileParsingError,
>)
    ensures
        exists|parsed: Option<Seq<HtmlTree>>| outcome(r) == kind_outcome(kind, raw, parsed),
        kind == ContentKind::Text ==> outcome(r) == text_outcome(raw),
        raw matches Err(e) ==> r matches Err(FileParsingError::ReadFileError(e2)) && e2 == e,
{
    match kind {
        ContentKind::Text => {
            let r = read_text_file(raw);
            assert(outcome(r) == kind_outcome(kind, raw, None));
            r
        },
        ContentKind::Html => {
            let r = read_html_file(raw);
            let ghost parsed = choose|parsed: Option<Seq<HtmlTree>>|
                outcome(r) == html_outcome(raw, parsed);
            assert(outcome(r) == kind_outcome(kind, raw, parsed));
            r
        },
    }
}

/// The format of a file with the extension `extension`, or why such a file
/// cannot be read.
pub fn content_kind(extension: Option<&str>) -> (r: Result<ContentKind, FileParsingError>)
    ensures
        match extension {
            None => r matches Err(FileParsingError::NoExtensionError),
            Some(ext) => match kind_of(ext@) {
                Some(kind) => r == Ok::<ContentKind, FileParsingError>(kind),
                None => r matches Err(FileParsingError::UnknownExtensionError(e)) && e@ == ext@,
            },
        },
{
    match extension {
        None => Err(FileParsingError::NoExtensionError),
        Some(ext) => {
            if str_eq(ext, "txt") {
                Ok(ContentKind::Text)
            } else if str_eq(ext, "html") {
                Ok(ContentKind::Html)
            } else {
                Err(FileParsingError::UnknownExtensionError(String::from_str(ext)))
            }
        },
    }
}

/// The content of a file with the extension `extension`, of which `raw` is
/// what reading the file gave.
pub fn read_as(extension: Option<&str>, raw: Result<String, std::io::Error>) -> (r: Result<
    String,
    FileParsingError,
>)
    ensures
        exists|parsed: Option<Seq<HtmlTree>>|
            outcome(r) == #[trigger] read_outcome(option_str_text(extension), raw, parsed),
{
    let ghost ext = option_str_text(extension);
    match content_kind(extension) {
        Ok(kind) => {
            let r = read_kind(kind, raw);
            let ghost parsed = choose|parsed: Option<Seq<HtmlTree>>|
                outcome(r) == kind_outcome(kind, raw, parsed);
            assert(outcome(r) == read_outcome(ext, raw, parsed));
            r
        },
        Err(e) => {
            assert(outcome(Err(e)) == read_outcome(ext, raw, None));
            Err(e)
        },
    }
}

/// The content of the file at `file_path`, of which `raw` is what reading
/// the file gave. The extension of the path decides how `raw` is taken.
pub fn read_file(file_path: &str, raw: Result<String, std::io::Error>) -> (r: Result<
    String,
    FileParsingError,
>)
    ensures
        exists|parsed: Option<Seq<HtmlTree>>|
            outcome(r) == #[trigger] read_outcome(extension_of(file_path@), raw, parsed),
{
    match path_extension(file_path) {
        Some(ext) => {
            let r = read_as(Some(ext.as_str()), raw);
            let ghost parsed = choose|parsed: Option<Seq<HtmlTree>>|
                outcome(r) == read_outcome(Some(ext@), raw, parsed);
            assert(outcome(r) == read_outcome(extension_of(file_path@), raw, parsed));
            r
        },
        None => {
            let r = read_as(None, raw);
            let ghost parsed = choose|parsed: Option<Seq<HtmlTree>>|
                outcome(r) == read_outcome(None, raw, parsed);
            assert(outcome(r) == read_outcome(extension_of(file_path@), raw, parsed));
            r
        },
    }
}

} // verus!
