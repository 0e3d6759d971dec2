//! A KDL document as the dashboard walk reads it: plain values only.
//! The `kdl` crate does the parsing; what it hands back is lifted,
//! node for node and entry for entry, into these types, and every
//! rule the dashboard grammar applies runs over them.
use vstd::prelude::*;

verus! {

/// One value an entry holds, as the walk distinguishes them.
#[derive(Clone, PartialEq, Debug)]
pub enum KValue {
    Text(String),
    Int(i128),
    Flag(bool),
    /// A float or `#null` — a value no dashboard key takes.
    Other,
}

/// One entry of a node: a positional value or a `key=value` property.
#[derive(Clone, PartialEq, Debug)]
pub struct KEntry {
    /// The property's key; `None` for a positional value.
    pub name: Option<String>,
    /// A `(type)` annotation hung on the value.
    pub ty: Option<String>,
    pub value: KValue,
    /// How the value renders on its own (`3`, `#true`, `"x"`).
    pub written: String,
    /// The value exactly as the source spells it — a raw string keeps
    /// its `#` marks here — when the crate kept it.
    pub repr: Option<String>,
    /// Where the entry starts in the document, in bytes, and how long it is.
    pub offset: usize,
    pub len: usize,
}

/// One node: its name, annotation, entries and (possibly empty) block.
#[derive(PartialEq, Debug)]
pub struct KNode {
    pub name: String,
    pub ty: Option<String>,
    pub entries: Vec<KEntry>,
    /// `None` when no block was written; `Some(vec![])` for `{}`.
    pub children: Option<Vec<KNode>>,
}

/// One diagnostic of a failed parse: where it points, what it says,
/// and its rendered snippet block.
#[derive(Clone, PartialEq, Debug)]
pub struct KDiagnostic {
    pub offset: usize,
    pub message: Option<String>,
    pub block: Option<String>,
}

/// A document that did not parse.
#[derive(Clone, PartialEq, Debug)]
pub struct KdlFailure {
    pub diagnostics: Vec<KDiagnostic>,
    /// The crate's own one-line rendering of the failure.
    pub display: String,
}

#[verifier::external_type_specification]
#[verifier::external_body]
pub struct ExKdlNode(kdl::KdlNode);

#[verifier::external_type_specification]
#[verifier::external_body]
pub struct ExKdlEntry(kdl::KdlEntry);

#[verifier::external_type_specification]
#[verifier::external_body]
pub struct ExKdlError(kdl::KdlError);

#[verifier::external_type_specification]
#[verifier::external_body]
pub struct ExGraphicalReportHandler(miette::GraphicalReportHandler);

/// The top-level nodes `KdlDocument::parse` finds in a text, lifted,
/// or `None` when the text is not a KDL document.
pub uninterp spec fn kdl_nodes(text: Seq<char>) -> Option<Seq<KNode>>;

/// A text `KdlDocument::parse` refuses, as its failure: each
/// diagnostic with its snippet rendered by miette in the plain or the
/// colored theme, and the error's own sentence.
pub uninterp spec fn kdl_failure(text: Seq<char>, colored: bool) -> KdlFailure;

/// What `KdlDocument::parse` makes of a text: its top-level nodes, or
/// the failure rendered in the chosen theme.
pub open spec fn kdl_document(text: Seq<char>, colored: bool) -> Result<Seq<KNode>, KdlFailure> {
    match kdl_nodes(text) {
        Some(nodes) => Ok(nodes),
        None => Err(kdl_failure(text, colored)),
    }
}

/// `kdl::KdlDocument::parse` (through `str::parse`): the document's
/// nodes, slashdashed ones already gone, or the parse failure. The
/// result is named, not described: the KDL v2 grammar is the crate's.
/// The parse never sees `colored`; only the failure's snippets do.
#[verifier::external_body]
pub fn parse_kdl(text: &str, colored: bool) -> (r: Result<Vec<KNode>, KdlFailure>)
    ensures
        match r {
            Ok(nodes) => kdl_nodes(text@) == Some(nodes@),
            Err(e) => kdl_nodes(text@) is None && kdl_failure(text@, colored) == e,
        },
{
    match text.parse::<kdl::KdlDocument>() {
        Ok(doc) => Ok(doc.nodes().iter().map(lift_node).collect()),
        Err(err) => Err(lift_failure(&err, colored)),
    }
}

/// Lifts one `kdl::KdlNode`, and its block, into a [`KNode`]: name,
/// annotation and entries copied field for field.
#[verifier::external_body]
fn lift_node(node: &kdl::KdlNode) -> KNode {
    KNode {
        name: node.name().value().to_string(),
        ty: node.ty().map(|t| t.value().to_string()),
        entries: node.entries().iter().map(lift_entry).collect(),
        children: node.children().map(|doc| doc.nodes().iter().map(lift_node).collect()),
    }
}

/// Lifts one `kdl::KdlEntry` into a [`KEntry`], field for field.
#[verifier::external_body]
fn lift_entry(entry: &kdl::KdlEntry) -> KEntry {
    let value = match entry.value() {
        kdl::KdlValue::String(s) => KValue::Text(s.clone()),
        kdl::KdlValue::Integer(i) => KValue::Int(*i),
        kdl::KdlValue::Bool(b) => KValue::Flag(*b),
        _ => KValue::Other,
    };
    KEntry {
        name: entry.name().map(|n| n.value().to_string()),
        ty: entry.ty().map(|t| t.value().to_string()),
        value,
        written: entry.value().to_string(),
        repr: entry.format().map(|f| f.value_repr.clone()),
        offset: entry.span().offset(),
        len: entry.span().len(),
    }
}

/// Lifts a `kdl::KdlError`: each diagnostic's offset and message, and
/// its snippet block as `miette::GraphicalReportHandler` renders it at
/// width 80 (unicode theme; ANSI-styled when `colored`).
#[verifier::external_body]
fn lift_failure(err: &kdl::KdlError, colored: bool) -> KdlFailure {
    let handler = miette_handler(colored);
    let lift = |d: &kdl::KdlDiagnostic| {
        let mut block = String::new();
        let ok = handler.render_report(&mut block, d).is_ok();
        KDiagnostic { offset: d.span.offset(), message: d.message.clone(), block: ok.then_some(block) }
    };
    KdlFailure { diagnostics: err.diagnostics.iter().map(lift).collect(), display: err.to_string() }
}

/// The report handler both snippet renderers use: unicode glyphs, plain
/// or 16-color ANSI styles, fixed width 80.
#[verifier::external_body]
fn miette_handler(colored: bool) -> miette::GraphicalReportHandler {
    let theme = if colored {
        miette::GraphicalTheme { characters: miette::ThemeCharacters::unicode(), styles: miette::ThemeStyles::ansi() }
    } else {
        miette::GraphicalTheme::unicode_nocolor()
    };
    miette::GraphicalReportHandler::new_themed(theme).with_width(80)
}

/// An optional string by its chars.
pub open spec fn opt_text(o: Option<&str>) -> Option<Seq<char>> {
    match o {
        Some(h) => Some(h@),
        None => None,
    }
}

/// What miette renders for a diagnostic placed at the bytes
/// `start..start+len` of `text`, with `message`, `label` and `help`.
pub uninterp spec fn snippet_block(
    text: Seq<char>,
    start: usize,
    len: usize,
    message: Seq<char>,
    label: Seq<char>,
    help: Option<Seq<char>>,
    colored: bool,
) -> Option<Seq<char>>;

/// `miette::GraphicalReportHandler::render_report` on a
/// `kdl::KdlDiagnostic` built from the arguments: the snippet block that
/// echoes the offending line, or `None` when rendering fails. The span
/// lies inside the text: miette walks the text adding the span's end
/// to offsets, which would overflow past `usize::MAX`.
#[verifier::external_body]
pub fn render_snippet(
    text: &str,
    start: usize,
    len: usize,
    message: &str,
    label: &str,
    help: Option<&str>,
    colored: bool,
) -> (r: Option<String>)
    requires
        start + len <= crate::text::bytes_of(text@),
    ensures
        match r {
            Some(s) => snippet_block(text@, start, len, message@, label@, opt_text(help), colored) == Some(s@),
            None => snippet_block(text@, start, len, message@, label@, opt_text(help), colored) is None,
        },
{
    let diagnostic = kdl::KdlDiagnostic {
        input: std::sync::Arc::new(text.to_string()),
        span: (start, len).into(),
        message: Some(message.to_string()),
        label: Some(label.to_string()),
        help: help.map(str::to_string),
        severity: miette::Severity::Error,
    };
    let mut block = String::new();
    miette_handler(colored).render_report(&mut block, &diagnostic).is_ok().then_some(block)
}

} // verus!
