//! A whole hosts file: the ordered sequence of its line records, read from
//! text and written back to text.

use vstd::prelude::*;
use crate::line::{
    lemma_line_round_trip, lemma_reparse, parse_line_view, render_view, HostsFileLine, LineView, ParseError,
};
use crate::text::{
    chars_of, join, join_strings, lemma_join_lines, lemma_lines_no_nl, lemma_lines_of_joined,
    lines_of, nl_fields, no_nl, trim, push_char, split_lines, tokens, views,
};

verus! {

/// The records of a hosts file, one per line, in the order of the text.
#[derive(Debug, Clone, PartialEq, Eq)]
pub struct HostsFile {
    pub lines: Vec<HostsFileLine>,
}

/// The views of a sequence of line records.
pub open spec fn line_views(ls: Seq<HostsFileLine>) -> Seq<LineView> {
    ls.map_values(|l: HostsFileLine| l@)
}

impl View for HostsFile {
    type V = Seq<LineView>;

    open spec fn view(&self) -> Seq<LineView> {
        line_views(self.lines@)
    }
}

/// Whether every line of `text` parses.
pub open spec fn all_lines_parse(text: Seq<char>) -> bool {
    forall|i: int| 0 <= i < lines_of(text).len() ==> (#[trigger] parse_line_view(lines_of(text)[i])) is Some
}

/// The records that `text` parses to, one per line, or `None` where a line
/// does not parse.
pub open spec fn parse_document_view(text: Seq<char>) -> Option<Seq<LineView>> {
    if all_lines_parse(text) {
        Some(lines_of(text).map_values(|l: Seq<char>| parse_line_view(l)->0))
    } else {
        None
    }
}

/// The text of a document: its rendered lines, each followed by a newline,
/// where an empty document is a single newline.
pub open spec fn serialize_view(doc: Seq<LineView>) -> Seq<char> {
    join(doc.map_values(|v: LineView| render_view(v)), '\n').push('\n')
}

/// Text in canonical form: it ends with a newline, and each of its lines is
/// its tokens with single spaces between them and nothing around them.
pub open spec fn is_canonical(text: Seq<char>) -> bool {
    &&& text.len() > 0
    &&& text.last() == '\n'
    &&& forall|i: int|
        0 <= i < lines_of(text).len() ==> #[trigger] lines_of(text)[i] == join(
            tokens(lines_of(text)[i]),
            ' ',
        )
}

/// Text in canonical form that parses is written back exactly as it was.
pub proof fn lemma_round_trip(text: Seq<char>)
    requires
        is_canonical(text),
        parse_document_view(text) is Some,
    ensures
        serialize_view(parse_document_view(text)->0) == text,
{
    let ls = lines_of(text);
    let doc = parse_document_view(text)->0;
    let rendered = doc.map_values(|v: LineView| render_view(v));
    assert forall|i: int| 0 <= i < ls.len() implies rendered[i] == ls[i] by {
        assert(parse_line_view(ls[i]) is Some);
        lemma_line_round_trip(ls[i]);
    }
    assert(rendered =~= ls);
    lemma_join_lines(text);
}

/// Writing out a parsed document gives text that parses again and is
/// written out the same way: parse-then-serialize is idempotent on any
/// text that parses, whatever its spacing.
pub proof fn lemma_serialize_idempotent(text: Seq<char>)
    requires
        parse_document_view(text) is Some,
    ensures
        parse_document_view(serialize_view(parse_document_view(text)->0)) is Some,
        serialize_view(parse_document_view(serialize_view(parse_document_view(text)->0))->0)
            == serialize_view(parse_document_view(text)->0),
{
    let ls = lines_of(text);
    let d = parse_document_view(text)->0;
    let rs = d.map_values(|v: LineView| render_view(v));
    let s1 = serialize_view(d);
    if d.len() == 0 {
        let e = Seq::<char>::empty();
        assert(rs =~= Seq::<Seq<char>>::empty());
        assert(s1 =~= seq!['\n']);
        assert(s1.drop_last() =~= e);
        assert(nl_fields(e) == seq![e]);
        assert(nl_fields(s1) =~= seq![e, e]);
        assert(lines_of(s1) =~= seq![e]);
        assert(trim(e) =~= e);
        assert(parse_line_view(e) == Some(LineView::Empty));
        assert(all_lines_parse(s1));
        let d2 = parse_document_view(s1)->0;
        assert(d2 =~= seq![LineView::Empty]);
        assert(d2.map_values(|v: LineView| render_view(v)) =~= seq![e]);
    } else {
        lemma_lines_no_nl(text);
        assert forall|i: int| 0 <= i < rs.len() implies no_nl(#[trigger] rs[i])
            && parse_line_view(rs[i]) == Some(d[i]) by {
            assert(parse_line_view(ls[i]) is Some);
            lemma_reparse(ls[i]);
        }
        lemma_lines_of_joined(rs);
        assert(lines_of(s1) == rs);
        assert(all_lines_parse(s1));
        assert(parse_document_view(s1)->0 =~= d);
    }
}

impl HostsFile {
    /// Every line record is well formed.
    pub open spec fn well_formed(&self) -> bool {
        forall|i: int| 0 <= i < self@.len() ==> (#[trigger] self@[i]).well_formed()
    }

    /// Parses a whole document, line by line; the first line that does not
    /// parse makes the whole parse fail.
    pub fn from_string(s: &str) -> (r: Result<HostsFile, ParseError>)
        ensures
            r is Ok <==> parse_document_view(s@) is Some,
            r is Ok ==> r->Ok_0@ == parse_document_view(s@)->0,
            r is Ok ==> r->Ok_0.well_formed(),
    {
        let cs = chars_of(s);
        let raw = split_lines(&cs);
        let ghost ls = lines_of(s@);
        assert(ls.len() == raw@.len());
        let mut lines: Vec<HostsFileLine> = Vec::new();
        let mut i: usize = 0;
        while i < raw.len()
            invariant
                i <= raw@.len() == ls.len(),
                ls == lines_of(s@),
                forall|j: int| 0 <= j < ls.len() ==> ls[j] == (#[trigger] raw@[j])@,
                forall|j: int| 0 <= j < i ==> (#[trigger] parse_line_view(ls[j])) is Some,
                forall|j: int| 0 <= j < i ==> (#[trigger] line_views(lines@)[j]).well_formed(),
                line_views(lines@) == ls.take(i as int).map_values(
                    |l: Seq<char>| parse_line_view(l)->0,
                ),
            decreases raw@.len() - i,
        {
            assert(ls[i as int] == raw@[i as int]@);
            match HostsFileLine::from_string(raw[i].as_str()) {
                Ok(l) => {
                    let ghost before = line_views(lines@);
                    lines.push(l);
                    assert(line_views(lines@) =~= before.push(l@));
                    assert(ls.take(i + 1) =~= ls.take(i as int).push(ls[i as int]));
                    assert(line_views(lines@) =~= ls.take(i + 1).map_values(
                        |l: Seq<char>| parse_line_view(l)->0,
                    ));
                },
                Err(e) => {
                    assert(!all_lines_parse(s@));
                    return Err(e);
                },
            }
            i = i + 1;
        }
        assert(ls.take(i as int) =~= ls);
        Ok(HostsFile { lines })
    }

    /// The text of this document: each line rendered and followed by a
    /// newline; an empty document gives a single newline.
    pub fn serialize(&self) -> (r: String)
        ensures
            r@ == serialize_view(self@),
    {
        let mut parts: Vec<String> = Vec::new();
        let mut i: usize = 0;
        let ghost rendered = self@.map_values(|v: LineView| render_view(v));
        while i < self.lines.len()
            invariant
                i <= self.lines@.len(),
                rendered == self@.map_values(|v: LineView| render_view(v)),
                views(parts@) == rendered.take(i as int),
            decreases self.lines@.len() - i,
        {
            let ghost before = views(parts@);
            parts.push(self.lines[i].render());
            assert(views(parts@) =~= before.push(rendered[i as int]));
            assert(rendered.take(i + 1) =~= rendered.take(i as int).push(rendered[i as int]));
            i = i + 1;
        }
        assert(rendered.take(i as int) =~= rendered);
        let mut out = join_strings(&parts, '\n');
        push_char(&mut out, '\n');
        out
    }
}

impl std::str::FromStr for HostsFile {
    type Err = ParseError;

    fn from_str(s: &str) -> (r: Result<HostsFile, ParseError>)
        ensures
            r is Ok <==> parse_document_view(s@) is Some,
            r is Ok ==> r->Ok_0@ == parse_document_view(s@)->0,
            r is Ok ==> r->Ok_0.well_formed(),
    {
        HostsFile::from_string(s)
    }
}

impl std::str::FromStr for HostsFileLine {
    type Err = ParseError;

    fn from_str(s: &str) -> (r: Result<HostsFileLine, ParseError>)
        ensures
            r is Ok <==> parse_line_view(s@) is Some,
            r is Ok ==> r->Ok_0@ == parse_line_view(s@)->0,
            r is Ok ==> r->Ok_0@.well_formed(),
    {
        HostsFileLine::from_string(s)
    }
}

} // verus!
