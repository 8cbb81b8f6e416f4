use std::io::{Error, ErrorKind};
use tfidf_search::parsing::{
    content_kind, html_content, html_text, read_as, read_file, read_html_file, read_kind,
    read_text_file, ContentKind, FileParsingError, HtmlNode,
};

fn read_ok(text: &str) -> Result<String, Error> {
    Ok(text.to_string())
}

fn read_failed() -> Result<String, Error> {
    Err(Error::new(ErrorKind::NotFound, "no such file"))
}

#[test]
fn text_files_pass_through() {
    assert_eq!(read_file("notes.txt", read_ok("Some  raw\ntext <b>")).unwrap(), "Some  raw\ntext <b>");
    assert_eq!(read_text_file(read_ok("")).unwrap(), "");
}

#[test]
fn markup_files_keep_text_and_comments_only() {
    let html = "<html><body><h1>Title</h1><p>First <b>bold</b> last</p><!-- note --></body></html>";
    assert_eq!(read_file("page.html", read_ok(html)).unwrap(), "Title First  bold  last note ");
}

#[test]
fn markup_text_comes_in_document_order() {
    assert_eq!(read_html_file(read_ok("<p>a<b>x</b>c<i>y</i></p>")).unwrap(), "a x c y ");
    assert_eq!(
        read_html_file(read_ok("<div><ul><li>one</li><li>two</li></ul>three</div><p>four</p>")).unwrap(),
        "one two three four "
    );
}

#[test]
fn markup_without_text_gives_nothing() {
    assert_eq!(read_html_file(read_ok("")).unwrap(), "");
    assert_eq!(read_html_file(read_ok("<div><br></div>")).unwrap(), "");
}

#[test]
fn every_fragment_is_followed_by_a_space() {
    assert_eq!(read_html_file(read_ok("plain")).unwrap(), "plain ");
    assert_eq!(read_html_file(read_ok("<!--c--><p>t</p>")).unwrap(), "c t ");
}

#[test]
fn malformed_markup_is_reported() {
    let r = read_file("page.html", read_ok("<head></head>"));
    assert!(matches!(r, Err(FileParsingError::ParseHtmlError(_))));
    let r = read_html_file(read_ok("<html></html><html></html>"));
    assert!(matches!(r, Err(FileParsingError::ParseHtmlError(_))));
}

#[test]
fn an_unreadable_file_is_reported() {
    assert!(matches!(read_file("notes.txt", read_failed()), Err(FileParsingError::ReadFileError(_))));
    assert!(matches!(read_file("page.html", read_failed()), Err(FileParsingError::ReadFileError(_))));
    assert!(matches!(read_text_file(read_failed()), Err(FileParsingError::ReadFileError(_))));
    assert!(matches!(read_html_file(read_failed()), Err(FileParsingError::ReadFileError(_))));
}

#[test]
fn an_unknown_extension_is_reported_with_the_extension() {
    match read_file("archive.tar.gz", read_ok("x")) {
        Err(FileParsingError::UnknownExtensionError(ext)) => assert_eq!(ext, "gz"),
        other => panic!("unexpected {:?}", other),
    }
    match read_as(Some("TXT"), read_ok("x")) {
        Err(FileParsingError::UnknownExtensionError(ext)) => assert_eq!(ext, "TXT"),
        other => panic!("unexpected {:?}", other),
    }
    match read_as(Some(""), read_ok("x")) {
        Err(FileParsingError::UnknownExtensionError(ext)) => assert_eq!(ext, ""),
        other => panic!("unexpected {:?}", other),
    }
}

#[test]
fn a_missing_extension_is_reported() {
    assert!(matches!(read_file("Makefile", read_ok("x")), Err(FileParsingError::NoExtensionError)));
    assert!(matches!(read_file("dir.d/README", read_ok("x")), Err(FileParsingError::NoExtensionError)));
    assert!(matches!(read_file(".hidden", read_ok("x")), Err(FileParsingError::NoExtensionError)));
    assert!(matches!(read_as(None, read_ok("x")), Err(FileParsingError::NoExtensionError)));
}

#[test]
fn the_extension_decides_before_the_content_does() {
    assert!(matches!(read_file("data.bin", read_failed()), Err(FileParsingError::UnknownExtensionError(_))));
    assert!(matches!(read_file("data", read_failed()), Err(FileParsingError::NoExtensionError)));
}

#[test]
fn the_extension_is_taken_from_the_last_component() {
    assert_eq!(read_file("some.dir/sub/notes.txt", read_ok("t")).unwrap(), "t");
    assert_eq!(read_file("a.html/b.txt", read_ok("<p>x</p>")).unwrap(), "<p>x</p>");
}

#[test]
fn content_kind_knows_two_formats() {
    assert_eq!(content_kind(Some("txt")).unwrap(), ContentKind::Text);
    assert_eq!(content_kind(Some("html")).unwrap(), ContentKind::Html);
    assert!(matches!(content_kind(Some("htm")), Err(FileParsingError::UnknownExtensionError(_))));
    assert!(matches!(content_kind(None), Err(FileParsingError::NoExtensionError)));
}

#[test]
fn read_as_goes_by_the_extension_given() {
    assert_eq!(read_as(Some("txt"), read_ok("<p>x</p>")).unwrap(), "<p>x</p>");
    assert_eq!(read_as(Some("html"), read_ok("<p>x</p>")).unwrap(), "x ");
}

#[test]
fn messages_say_what_went_wrong() {
    assert_eq!(
        FileParsingError::UnknownExtensionError("gz".to_string()).message(),
        "ERROR: Unkown extention gz"
    );
    assert_eq!(FileParsingError::NoExtensionError.message(), "ERROR: Cannot read file without extension");
    let unreadable = FileParsingError::ReadFileError(Error::new(ErrorKind::NotFound, "no such file"));
    assert_eq!(unreadable.message(), "ERROR: no such file");
    match read_html_file(read_ok("<head></head>")) {
        Err(e) => assert_eq!(e.message(), "ERROR: A document fragment should not include head"),
        Ok(text) => panic!("unexpected {:?}", text),
    }
}

#[test]
fn html_text_walks_the_tree_in_document_order() {
    let nodes = vec![
        HtmlNode::Text("a".to_string()),
        HtmlNode::Element(vec![
            HtmlNode::Text("b".to_string()),
            HtmlNode::Element(vec![HtmlNode::Comment("c".to_string()), HtmlNode::Element(Vec::new())]),
            HtmlNode::Text("d".to_string()),
        ]),
        HtmlNode::Comment("e".to_string()),
    ];
    assert_eq!(html_text(&nodes), "a b c d e ");
    assert_eq!(html_text(&Vec::new()), "");
    assert_eq!(html_text(&vec![HtmlNode::Text(String::new())]), " ");
}

#[test]
fn html_content_takes_what_the_parser_gave() {
    let nodes = vec![
        HtmlNode::Element(vec![HtmlNode::Text("a".to_string()), HtmlNode::Comment("b".to_string())]),
        HtmlNode::Text("c".to_string()),
    ];
    assert_eq!(html_content(Ok(nodes)).unwrap(), "a b c ");
    assert_eq!(html_content(Ok(Vec::new())).unwrap(), "");
    let failed = html_parser::Dom::parse("<head></head>").map(|_| Vec::new());
    assert!(failed.is_err());
    match html_content(failed) {
        Err(e) => assert_eq!(e.message(), "ERROR: A document fragment should not include head"),
        Ok(text) => panic!("unexpected {:?}", text),
    }
}

#[test]
fn read_kind_goes_by_the_format_given() {
    assert_eq!(read_kind(ContentKind::Text, read_ok("<p>x</p>")).unwrap(), "<p>x</p>");
    assert_eq!(read_kind(ContentKind::Html, read_ok("<p>x</p>")).unwrap(), "x ");
    assert!(matches!(read_kind(ContentKind::Text, read_failed()), Err(FileParsingError::ReadFileError(_))));
    assert!(matches!(read_kind(ContentKind::Html, read_failed()), Err(FileParsingError::ReadFileError(_))));
    assert!(matches!(
        read_kind(ContentKind::Html, read_ok("<head></head>")),
        Err(FileParsingError::ParseHtmlError(_))
    ));
}
