//! One line of a hosts file: its record type, how a raw line is classified
//! and parsed into a record, and how a record is rendered back to text.

use vstd::prelude::*;
use crate::text::{
    chars_of, clone_range, is_ws, join, join_strings, lemma_join_concat, lemma_join_ends,
    lemma_join_no_nl, lemma_tokens_first, lemma_tokens_join, lemma_tokens_shape, lemma_tokens_trim,
    lemma_trim_blank, lemma_trim_shape, no_nl, no_ws, split_tokens, string_of, tokens, trim,
    trim_bounds, trim_end, trim_start, views,
};

verus! {

/// An address with the hostnames that map to it, and the comment that
/// followed them on the line, if any.
#[derive(Debug, Clone, PartialEq, Eq)]
pub struct HostsFileHost {
    pub ip: String,
    pub hosts: Vec<String>,
    pub comment: Option<String>,
}

/// One line of a hosts file.
#[derive(Debug, Clone, PartialEq, Eq)]
pub enum HostsFileLine {
    /// A blank line.
    Empty,
    /// A comment line, held trimmed and with its leading `#`.
    Comment(String),
    /// An address entry.
    Host(HostsFileHost),
}

/// A line that is neither blank, nor a comment, nor an address followed by
/// at least one hostname.
#[derive(Debug, Clone, Copy, PartialEq, Eq)]
pub struct ParseError;

/// The mathematical value of a line record.
pub enum LineView {
    Empty,
    Comment(Seq<char>),
    Host { ip: Seq<char>, hosts: Seq<Seq<char>>, comment: Option<Seq<char>> },
}

impl LineView {
    /// An entry has at least one hostname.
    pub open spec fn well_formed(self) -> bool {
        match self {
            LineView::Host { hosts, .. } => hosts.len() > 0,
            _ => true,
        }
    }
}

/// The view of an optional string.
pub open spec fn opt_view(o: Option<String>) -> Option<Seq<char>> {
    match o {
        Some(s) => Some(s@),
        None => None,
    }
}

impl View for HostsFileLine {
    type V = LineView;

    open spec fn view(&self) -> LineView {
        match self {
            HostsFileLine::Empty => LineView::Empty,
            HostsFileLine::Comment(t) => LineView::Comment(t@),
            HostsFileLine::Host(h) => LineView::Host {
                ip: h.ip@,
                hosts: views(h.hosts@),
                comment: opt_view(h.comment),
            },
        }
    }
}

/// Text that starts with `#`, the mark of a comment.
pub open spec fn is_comment_text(s: Seq<char>) -> bool {
    s.len() > 0 && s[0] == '#'
}

/// How many tokens at the start of `ts` are not comment tokens.
pub open spec fn host_prefix_len(ts: Seq<Seq<char>>) -> nat
    decreases ts.len(),
{
    if ts.len() == 0 || is_comment_text(ts[0]) {
        0
    } else {
        1 + host_prefix_len(ts.drop_first())
    }
}

/// The record that a raw line parses to, or `None` where it does not parse.
///
/// The line is trimmed. Nothing left gives a blank line; text starting with
/// `#` gives a comment holding that text. Otherwise the first token is the
/// address and the tokens after it, up to the first that starts with `#`,
/// are the hostnames, of which there must be at least one; the tokens from
/// that one on, joined by single spaces, are the comment.
pub open spec fn parse_line_view(line: Seq<char>) -> Option<LineView> {
    let t = trim(line);
    if t.len() == 0 {
        Some(LineView::Empty)
    } else if is_comment_text(t) {
        Some(LineView::Comment(t))
    } else {
        let toks = tokens(t);
        let rest = toks.drop_first();
        let k = host_prefix_len(rest);
        if toks.len() == 0 || k == 0 {
            None
        } else {
            Some(
                LineView::Host {
                    ip: toks[0],
                    hosts: rest.take(k as int),
                    comment: if k == rest.len() {
                        None
                    } else {
                        Some(join(rest.skip(k as int), ' '))
                    },
                },
            )
        }
    }
}

/// The pieces that a host entry is written as: address, hostnames, comment.
pub open spec fn host_parts(
    ip: Seq<char>,
    hosts: Seq<Seq<char>>,
    comment: Option<Seq<char>>,
) -> Seq<Seq<char>> {
    seq![ip] + hosts + match comment {
        Some(c) => seq![c],
        None => Seq::empty(),
    }
}

/// The text of a record, without a line ending.
pub open spec fn render_view(v: LineView) -> Seq<char> {
    match v {
        LineView::Empty => Seq::empty(),
        LineView::Comment(t) => t,
        LineView::Host { ip, hosts, comment } => join(host_parts(ip, hosts, comment), ' '),
    }
}

proof fn lemma_host_prefix_len(ts: Seq<Seq<char>>, i: int)
    requires
        0 <= i <= ts.len(),
        forall|j: int| 0 <= j < i ==> !is_comment_text(#[trigger] ts[j]),
        i == ts.len() || is_comment_text(ts[i]),
    ensures
        host_prefix_len(ts) == i,
    decreases i,
{
    if i > 0 {
        assert(!is_comment_text(ts[0]));
        assert forall|j: int| 0 <= j < i - 1 implies !is_comment_text(
            #[trigger] ts.drop_first()[j],
        ) by {
            assert(ts.drop_first()[j] == ts[j + 1]);
        }
        lemma_host_prefix_len(ts.drop_first(), i - 1);
    }
}

proof fn lemma_host_prefix_le(ts: Seq<Seq<char>>)
    ensures
        host_prefix_len(ts) <= ts.len(),
    decreases ts.len(),
{
    if ts.len() > 0 {
        lemma_host_prefix_le(ts.drop_first());
    }
}

/// A line made only of whitespace parses to a blank line, and a blank line
/// renders as nothing.
pub proof fn lemma_blank_line(line: Seq<char>)
    requires
        forall|j: int| 0 <= j < line.len() ==> is_ws(#[trigger] line[j]),
    ensures
        parse_line_view(line) == Some(LineView::Empty),
        render_view(LineView::Empty) == Seq::<char>::empty(),
{
    lemma_trim_blank(line);
}

/// An entry renders as the tokens of its line joined by single spaces,
/// however the tokens were spaced in the line.
pub proof fn lemma_host_render_normalized(line: Seq<char>)
    requires
        parse_line_view(line) is Some,
        parse_line_view(line)->0 is Host,
    ensures
        render_view(parse_line_view(line)->0) == join(tokens(line), ' '),
{
    lemma_tokens_trim(line);
    let t = trim(line);
    let toks = tokens(t);
    let rest = toks.drop_first();
    let k = host_prefix_len(rest) as int;
    lemma_host_prefix_le(rest);
    let v = parse_line_view(line)->0;
    match v {
        LineView::Host { ip, hosts, comment } => {
            let parts = host_parts(ip, hosts, comment);
            if k == rest.len() {
                assert(parts =~= toks);
            } else {
                let x = join(rest.skip(k), ' ');
                assert(parts =~= toks.take(k + 1) + seq![x]);
                lemma_join_concat(toks.take(k + 1), seq![x], ' ');
                assert(toks =~= toks.take(k + 1) + toks.skip(k + 1));
                assert(toks.skip(k + 1) =~= rest.skip(k));
                lemma_join_concat(toks.take(k + 1), toks.skip(k + 1), ' ');
            }
        },
        _ => {},
    }
}

/// A line in canonical form, its tokens with single spaces between them and
/// nothing around them, renders back to itself once parsed.
pub proof fn lemma_line_round_trip(line: Seq<char>)
    requires
        parse_line_view(line) is Some,
        line == join(tokens(line), ' '),
    ensures
        render_view(parse_line_view(line)->0) == line,
{
    let toks = tokens(line);
    if toks.len() == 0 {
        assert(line.len() == 0);
    } else {
        lemma_tokens_shape(line);
        lemma_join_ends(toks, ' ');
        assert(toks[0].len() > 0 && no_ws(toks[0]));
        assert(!is_ws(toks[0][0]));
        assert(toks.last().len() > 0 && no_ws(toks.last()));
        assert(!is_ws(toks.last().last()));
        assert(trim_start(line) == line);
        assert(trim_end(line) == line);
        if !is_comment_text(line) {
            lemma_host_render_normalized(line);
        }
    }
}

/// A parsed record, rendered and parsed again, is the same record; and a
/// line without a newline renders without one.
pub proof fn lemma_reparse(line: Seq<char>)
    requires
        parse_line_view(line) is Some,
    ensures
        parse_line_view(render_view(parse_line_view(line)->0)) == parse_line_view(line),
        no_nl(line) ==> no_nl(render_view(parse_line_view(line)->0)),
{
    let t = trim(line);
    let v = parse_line_view(line)->0;
    let r = render_view(v);
    lemma_trim_shape(line);
    if t.len() == 0 {
        assert(trim(r) =~= Seq::<char>::empty());
    } else if is_comment_text(t) {
        assert(r == t);
    } else {
        let ts = tokens(line);
        lemma_tokens_trim(line);
        lemma_host_render_normalized(line);
        lemma_tokens_shape(line);
        lemma_tokens_first(t);
        lemma_join_ends(ts, ' ');
        lemma_tokens_join(ts);
        assert(!is_ws(ts[0][0]));
        assert(no_ws(ts.last()) && ts.last().len() > 0);
        assert(!is_ws(ts.last().last()));
        assert(trim_start(r) == r);
        assert(trim_end(r) == r);
        assert(trim(r) == r);
        assert(tokens(trim(r)) == tokens(t));
        assert(r[0] == t[0]);
        assert forall|i: int| 0 <= i < ts.len() implies no_nl(#[trigger] ts[i]) by {
            assert(no_ws(ts[i]));
            assert forall|j: int| 0 <= j < ts[i].len() implies #[trigger] ts[i][j] != '\n' by {
                assert(!is_ws(ts[i][j]));
            }
        }
        lemma_join_no_nl(ts, ' ');
    }
}

fn starts_with_hash(s: &String) -> (r: bool)
    ensures
        r == is_comment_text(s@),
{
    let t = s.as_str();
    !t.is_empty() && t.get_char(0) == '#'
}

impl HostsFileLine {
    /// A blank line.
    pub fn from_empty() -> (r: HostsFileLine)
        ensures
            r@ == LineView::Empty,
    {
        HostsFileLine::Empty
    }

    /// A comment line holding `c` as it is.
    pub fn from_comment(c: &str) -> (r: HostsFileLine)
        ensures
            r@ == LineView::Comment(c@),
    {
        HostsFileLine::Comment(String::from_str(c))
    }

    /// Parses one raw line.
    pub fn from_string(line: &str) -> (r: Result<HostsFileLine, ParseError>)
        ensures
            r is Ok <==> parse_line_view(line@) is Some,
            r is Ok ==> r->Ok_0@ == parse_line_view(line@)->0,
            r is Ok ==> r->Ok_0@.well_formed(),
    {
        let cs = chars_of(line);
        let (a, b) = trim_bounds(&cs);
        let ghost t = trim(line@);
        if a == b {
            return Ok(HostsFileLine::Empty);
        }
        if cs[a] == '#' {
            return Ok(HostsFileLine::Comment(string_of(&cs, a, b)));
        }
        assert(!is_comment_text(t));
        let toks = split_tokens(&cs, a, b);
        let ghost vt = views(toks@);
        let ghost rest = vt.drop_first();
        if toks.len() == 0 {
            return Err(ParseError);
        }
        let n = toks.len();
        let mut k: usize = 1;
        while k < n && !starts_with_hash(&toks[k])
            invariant
                1 <= k <= n == toks@.len(),
                vt == views(toks@),
                rest == vt.drop_first(),
                forall|j: int| 0 <= j < k - 1 ==> !is_comment_text(#[trigger] rest[j]),
            decreases n - k,
        {
            assert(rest[k - 1] == toks@[k as int]@);
            k = k + 1;
        }
        proof {
            if k < n {
                assert(rest[k - 1] == toks@[k as int]@);
            }
            lemma_host_prefix_len(rest, k - 1);
        }
        if k == 1 {
            return Err(ParseError);
        }
        let ip = toks[0].clone();
        let hosts = clone_range(&toks, 1, k);
        assert(views(hosts@) =~= rest.take(k - 1));
        let comment = if k == n {
            None
        } else {
            let tail = clone_range(&toks, k, n);
            assert(views(tail@) =~= rest.skip(k - 1));
            Some(join_strings(&tail, ' '))
        };
        Ok(HostsFileLine::Host(HostsFileHost { ip, hosts, comment }))
    }

    /// The text of this line, without a line ending: nothing for a blank
    /// line, the comment for a comment line, and for an entry the address,
    /// the hostnames and the comment, if any, with single spaces between.
    pub fn render(&self) -> (r: String)
        ensures
            r@ == render_view(self@),
    {
        match self {
            HostsFileLine::Empty => String::new(),
            HostsFileLine::Comment(t) => t.clone(),
            HostsFileLine::Host(h) => {
                let mut parts: Vec<String> = Vec::new();
                parts.push(h.ip.clone());
                let mut hosts = clone_range(&h.hosts, 0, h.hosts.len());
                assert(views(h.hosts@).subrange(0, h.hosts@.len() as int) =~= views(h.hosts@));
                let ghost first = parts@;
                let ghost middle = hosts@;
                parts.append(&mut hosts);
                assert(parts@ =~= first + middle);
                assert(views(parts@) =~= seq![h.ip@] + views(h.hosts@));
                let ghost before = views(parts@);
                match &h.comment {
                    Some(c) => {
                        parts.push(c.clone());
                        assert(views(parts@) =~= before + seq![c@]);
                    },
                    None => {
                        assert(before =~= before + Seq::<Seq<char>>::empty());
                    },
                }
                join_strings(&parts, ' ')
            },
        }
    }

    /// The address of an entry; `None` for other lines.
    pub fn ip(&self) -> (r: Option<String>)
        ensures
            opt_view(r) == match self@ {
                LineView::Host { ip, .. } => Some(ip),
                _ => None,
            },
    {
        match self {
            HostsFileLine::Host(h) => Some(h.ip.clone()),
            _ => None,
        }
    }

    /// The hostnames of an entry; empty for other lines.
    pub fn hosts(&self) -> (r: Vec<String>)
        ensures
            views(r@) == match self@ {
                LineView::Host { hosts, .. } => hosts,
                _ => Seq::empty(),
            },
    {
        match self {
            HostsFileLine::Host(h) => clone_range(&h.hosts, 0, h.hosts.len()),
            _ => Vec::new(),
        }
    }

    /// The text of a comment line, or the comment that follows an entry.
    pub fn comment(&self) -> (r: Option<String>)
        ensures
            opt_view(r) == match self@ {
                LineView::Comment(t) => Some(t),
                LineView::Host { comment, .. } => comment,
                LineView::Empty => None,
            },
    {
        match self {
            HostsFileLine::Comment(t) => Some(t.clone()),
            HostsFileLine::Host(h) => match &h.comment {
                Some(c) => Some(c.clone()),
                None => None,
            },
            HostsFileLine::Empty => None,
        }
    }

    /// Whether this line is an entry.
    pub fn has_host(&self) -> (r: bool)
        ensures
            r == self@ is Host,
    {
        match self {
            HostsFileLine::Host(_) => true,
            _ => false,
        }
    }

    /// Whether this line carries a comment, alone or after an entry.
    pub fn has_comment(&self) -> (r: bool)
        ensures
            r == match self@ {
                LineView::Comment(_) => true,
                LineView::Host { comment, .. } => comment is Some,
                LineView::Empty => false,
            },
    {
        match self {
            HostsFileLine::Comment(_) => true,
            HostsFileLine::Host(h) => h.comment.is_some(),
            HostsFileLine::Empty => false,
        }
    }
}

} // verus!
