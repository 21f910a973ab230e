//! Tokenizer and event parser for device-tree source text. The tokenizer
//! classifies spans of the input; the event parser groups tokens into source
//! events: node open and close, property assignment, import request, define,
//! overlay directive, and label reference.

use vstd::prelude::*;
use vstd::string::StrSliceExecFns;
use vstd::string::StringExecFns;

use crate::dt_node::strs_view;

verus! {

/// A lexical class. A token is a span of the input with one of these kinds.
#[derive(Debug, PartialEq, Eq, Structural, Clone, Copy)]
pub enum Tok {
    /// End of input; scanning past the end yields this forever.
    End,
    /// A character no other class accepts.
    Bad,
    /// The import keyword, in its `#`-form or its slash-form.
    Import,
    /// The define keyword.
    Define,
    /// Opening delimiter of a block comment.
    BlockOpen,
    /// Closing delimiter of a block comment.
    BlockClose,
    /// Start of a line comment.
    LineComment,
    /// The reference marker `&`.
    Amp,
    /// The label marker `:`.
    Colon,
    /// Node open `{`.
    NodeStart,
    /// Node close `};`.
    NodeEnd,
    /// `=`.
    Equals,
    /// Statement end `;`.
    Stmt,
    /// `"`.
    Quote,
    /// `<`.
    AngleOpen,
    /// `>`.
    AngleClose,
    /// A slash-delimited directive such as a delete instruction.
    Directive,
    /// A line break.
    NewLine,
    /// A run of identifier-like characters.
    Text,
}

/// A source event handed to the tree builder.
#[derive(Debug, PartialEq)]
pub enum DTInfo {
    /// Splice the named source in place.
    Import(String),
    /// An overlay directive: its name (between the slashes) and its target.
    Directive(String, Option<String>),
    /// Open a node, optionally bound to a label.
    Node(Option<String>, String),
    /// Close the current node.
    NodeEnd,
    /// A property: a bare key, or a key with its joined value text.
    Property(String, Option<String>),
    /// A define: name and value.
    Define(String, String),
    /// End of one source's events.
    EOF,
    /// Re-open the node a label points at.
    RefNode(String),
}

/// A parse failure, with the byte offset in characters where it was seen.
#[derive(Debug, PartialEq)]
pub enum DTError {
    /// Input ended inside a construct.
    UnexpectedEOF(usize),
    /// A character no lexical class accepts.
    UnknownSymbol(String, usize),
    /// A define without a name, a separator, or a value.
    BadDefine(usize),
    /// A construct whose shape is wrong: the offending slice and its offset.
    Why(String, usize),
}

/// The mathematical value of a [`DTInfo`].
pub enum EventV {
    Import(Seq<char>),
    Directive(Seq<char>, Option<Seq<char>>),
    Node(Option<Seq<char>>, Seq<char>),
    NodeEnd,
    Property(Seq<char>, Option<Seq<char>>),
    Define(Seq<char>, Seq<char>),
    EOF,
    RefNode(Seq<char>),
}

/// The mathematical value of a [`DTError`].
pub enum ErrV {
    UnexpectedEOF(int),
    UnknownSymbol(Seq<char>, int),
    BadDefine(int),
    Why(Seq<char>, int),
}

pub open spec fn opt_view(o: Option<String>) -> Option<Seq<char>> {
    match o {
        Some(s) => Some(s@),
        None => None,
    }
}

impl View for DTInfo {
    type V = EventV;

    open spec fn view(&self) -> EventV {
        match self {
            DTInfo::Import(f) => EventV::Import(f@),
            DTInfo::Directive(d, t) => EventV::Directive(d@, opt_view(*t)),
            DTInfo::Node(l, n) => EventV::Node(opt_view(*l), n@),
            DTInfo::NodeEnd => EventV::NodeEnd,
            DTInfo::Property(k, v) => EventV::Property(k@, opt_view(*v)),
            DTInfo::Define(n, v) => EventV::Define(n@, v@),
            DTInfo::EOF => EventV::EOF,
            DTInfo::RefNode(n) => EventV::RefNode(n@),
        }
    }
}

impl View for DTError {
    type V = ErrV;

    open spec fn view(&self) -> ErrV {
        match self {
            DTError::UnexpectedEOF(p) => ErrV::UnexpectedEOF(*p as int),
            DTError::UnknownSymbol(t, p) => ErrV::UnknownSymbol(t@, *p as int),
            DTError::BadDefine(p) => ErrV::BadDefine(*p as int),
            DTError::Why(t, p) => ErrV::Why(t@, *p as int),
        }
    }
}

pub open spec fn events_view(s: Seq<DTInfo>) -> Seq<EventV> {
    s.map_values(|e: DTInfo| e@)
}

pub open spec fn lex_view(r: Result<Vec<DTInfo>, DTError>) -> Result<Seq<EventV>, ErrV> {
    match r {
        Ok(v) => Ok(events_view(v@)),
        Err(e) => Err(e@),
    }
}

/// Space, tab or carriage return: skipped between tokens.
pub open spec fn is_ws(c: char) -> bool {
    c == ' ' || c == '\t' || c == '\r'
}

pub open spec fn is_alnum(c: char) -> bool {
    (('a' as u32) <= (c as u32) && (c as u32) <= ('z' as u32)) || (('A' as u32) <= (c as u32) && (c
        as u32) <= ('Z' as u32)) || (('0' as u32) <= (c as u32) && (c as u32) <= ('9' as u32))
}

/// A character of a directive name: alphanumeric or a hyphen.
pub open spec fn is_dirchar(c: char) -> bool {
    is_alnum(c) || c == '-'
}

/// A character of a text run.
pub open spec fn is_textchar(c: char) -> bool {
    is_alnum(c) || c == '#' || c == '_' || c == '@' || c == ',' || c == '.' || c == '/' || c == '-'
}

/// First position at or after `pos` holding no skippable whitespace.
pub open spec fn skip_ws(s: Seq<char>, pos: int) -> int
    decreases s.len() - pos,
    when 0 <= pos <= s.len()
{
    if pos < s.len() && is_ws(s[pos]) {
        skip_ws(s, pos + 1)
    } else {
        pos
    }
}

proof fn lemma_skip_ws(s: Seq<char>, pos: int)
    requires
        0 <= pos <= s.len(),
    ensures
        pos <= skip_ws(s, pos) <= s.len(),
    decreases s.len() - pos,
{
    if pos < s.len() && is_ws(s[pos]) {
        lemma_skip_ws(s, pos + 1);
    }
}

/// End of the directive-name run starting at `pos`.
pub open spec fn run_end_dir(s: Seq<char>, pos: int) -> int
    decreases s.len() - pos,
    when 0 <= pos <= s.len()
{
    if pos < s.len() && is_dirchar(s[pos]) {
        run_end_dir(s, pos + 1)
    } else {
        pos
    }
}

proof fn lemma_run_end_dir(s: Seq<char>, pos: int)
    requires
        0 <= pos <= s.len(),
    ensures
        pos <= run_end_dir(s, pos) <= s.len(),
    decreases s.len() - pos,
{
    if pos < s.len() && is_dirchar(s[pos]) {
        lemma_run_end_dir(s, pos + 1);
    }
}

/// End of the text run starting at `pos`.
pub open spec fn run_end_text(s: Seq<char>, pos: int) -> int
    decreases s.len() - pos,
    when 0 <= pos <= s.len()
{
    if pos < s.len() && is_textchar(s[pos]) {
        run_end_text(s, pos + 1)
    } else {
        pos
    }
}

proof fn lemma_run_end_text(s: Seq<char>, pos: int)
    requires
        0 <= pos <= s.len(),
    ensures
        pos <= run_end_text(s, pos) <= s.len(),
    decreases s.len() - pos,
{
    if pos < s.len() && is_textchar(s[pos]) {
        lemma_run_end_text(s, pos + 1);
    }
}

/// The `#`-form of the import keyword starts at `pos`.
pub open spec fn at_import_hash(s: Seq<char>, pos: int) -> bool {
    &&& pos + 8 <= s.len()
    &&& s[pos] == '#'
    &&& s[pos + 1] == 'i'
    &&& s[pos + 2] == 'n'
    &&& s[pos + 3] == 'c'
    &&& s[pos + 4] == 'l'
    &&& s[pos + 5] == 'u'
    &&& s[pos + 6] == 'd'
    &&& s[pos + 7] == 'e'
}

/// The slash-form of the import keyword starts at `pos`.
pub open spec fn at_import_slash(s: Seq<char>, pos: int) -> bool {
    &&& pos + 9 <= s.len()
    &&& s[pos] == '/'
    &&& s[pos + 1] == 'i'
    &&& s[pos + 2] == 'n'
    &&& s[pos + 3] == 'c'
    &&& s[pos + 4] == 'l'
    &&& s[pos + 5] == 'u'
    &&& s[pos + 6] == 'd'
    &&& s[pos + 7] == 'e'
    &&& s[pos + 8] == '/'
}

/// The define keyword starts at `pos`.
pub open spec fn at_define_kw(s: Seq<char>, pos: int) -> bool {
    &&& pos + 7 <= s.len()
    &&& s[pos] == '#'
    &&& s[pos + 1] == 'd'
    &&& s[pos + 2] == 'e'
    &&& s[pos + 3] == 'f'
    &&& s[pos + 4] == 'i'
    &&& s[pos + 5] == 'n'
    &&& s[pos + 6] == 'e'
}

/// Classifies the token at the whitespace-free position `p`: its kind and its
/// end. Keywords win over text runs; a slash-delimited name is a directive;
/// what no class accepts is a one-character error token.
pub open spec fn spec_tok_at(s: Seq<char>, p: int) -> (Tok, int) {
    if p >= s.len() {
        (Tok::End, p)
    } else if at_import_hash(s, p) {
        (Tok::Import, p + 8)
    } else if at_import_slash(s, p) {
        (Tok::Import, p + 9)
    } else if at_define_kw(s, p) {
        (Tok::Define, p + 7)
    } else if p + 2 <= s.len() && s[p] == '/' && s[p + 1] == '*' {
        (Tok::BlockOpen, p + 2)
    } else if p + 2 <= s.len() && s[p] == '*' && s[p + 1] == '/' {
        (Tok::BlockClose, p + 2)
    } else if p + 2 <= s.len() && s[p] == '/' && s[p + 1] == '/' {
        (Tok::LineComment, p + 2)
    } else if p + 2 <= s.len() && s[p] == '}' && s[p + 1] == ';' {
        (Tok::NodeEnd, p + 2)
    } else if s[p] == '&' {
        (Tok::Amp, p + 1)
    } else if s[p] == ':' {
        (Tok::Colon, p + 1)
    } else if s[p] == '{' {
        (Tok::NodeStart, p + 1)
    } else if s[p] == '=' {
        (Tok::Equals, p + 1)
    } else if s[p] == ';' {
        (Tok::Stmt, p + 1)
    } else if s[p] == '"' {
        (Tok::Quote, p + 1)
    } else if s[p] == '<' {
        (Tok::AngleOpen, p + 1)
    } else if s[p] == '>' {
        (Tok::AngleClose, p + 1)
    } else if s[p] == '\n' {
        (Tok::NewLine, p + 1)
    } else if s[p] == '/' && run_end_dir(s, p + 1) > p + 1 && run_end_dir(s, p + 1) < s.len() && s[
        run_end_dir(s, p + 1)
    ] == '/' {
        (Tok::Directive, run_end_dir(s, p + 1) + 1)
    } else if is_textchar(s[p]) {
        (Tok::Text, run_end_text(s, p))
    } else {
        (Tok::Bad, p + 1)
    }
}

/// The token scanned from `pos`: kind, start after whitespace, and end.
pub open spec fn spec_scan(s: Seq<char>, pos: int) -> (Tok, int, int) {
    let p = skip_ws(s, pos);
    let t = spec_tok_at(s, p);
    (t.0, p, t.1)
}

proof fn lemma_scan_bounds(s: Seq<char>, pos: int)
    requires
        0 <= pos <= s.len(),
    ensures
        pos <= spec_scan(s, pos).1,
        spec_scan(s, pos).1 <= spec_scan(s, pos).2 <= s.len(),
        spec_scan(s, pos).0 != Tok::End ==> spec_scan(s, pos).2 > spec_scan(s, pos).1,
        spec_scan(s, pos).0 == Tok::End ==> spec_scan(s, pos).1 == s.len() && spec_scan(s, pos).2
            == s.len(),
{
    lemma_skip_ws(s, pos);
    let p = skip_ws(s, pos);
    if p < s.len() {
        if s[p] == '/' && run_end_dir(s, p + 1) > p + 1 && run_end_dir(s, p + 1) < s.len() && s[
            run_end_dir(s, p + 1)
        ] == '/' {
            lemma_run_end_dir(s, p + 1);
        }
        if is_textchar(s[p]) {
            lemma_run_end_text(s, p + 1);
            assert(run_end_text(s, p) == run_end_text(s, p + 1));
        }
    }
}

/// Skips tokens up to and over the next line break. The body of a line
/// comment ends the input early or holds an unclassifiable character only
/// with an error.
pub open spec fn spec_skip_line(s: Seq<char>, pos: int) -> Result<int, ErrV>
    decreases s.len() - pos,
    when 0 <= pos <= s.len()
    via spec_skip_line_dec
{
    let t = spec_scan(s, pos);
    if t.0 == Tok::NewLine {
        Ok(t.2)
    } else if t.0 == Tok::End {
        Err(ErrV::UnexpectedEOF(t.1))
    } else if t.0 == Tok::Bad {
        Err(ErrV::UnknownSymbol(s.subrange(t.1, t.2), t.1))
    } else {
        spec_skip_line(s, t.2)
    }
}

#[via_fn]
proof fn spec_skip_line_dec(s: Seq<char>, pos: int) {
    lemma_scan_bounds(s, pos);
}

/// Skips tokens up to and over the closing delimiter of a block comment,
/// with the same failure conditions as a line comment.
pub open spec fn spec_skip_block(s: Seq<char>, pos: int) -> Result<int, ErrV>
    decreases s.len() - pos,
    when 0 <= pos <= s.len()
    via spec_skip_block_dec
{
    let t = spec_scan(s, pos);
    if t.0 == Tok::BlockClose {
        Ok(t.2)
    } else if t.0 == Tok::End {
        Err(ErrV::UnexpectedEOF(t.1))
    } else if t.0 == Tok::Bad {
        Err(ErrV::UnknownSymbol(s.subrange(t.1, t.2), t.1))
    } else {
        spec_skip_block(s, t.2)
    }
}

#[via_fn]
proof fn spec_skip_block_dec(s: Seq<char>, pos: int) {
    lemma_scan_bounds(s, pos);
}

proof fn lemma_skip_line_bounds(s: Seq<char>, pos: int)
    requires
        0 <= pos <= s.len(),
    ensures
        spec_skip_line(s, pos) is Ok ==> pos < spec_skip_line(s, pos)->Ok_0 <= s.len(),
    decreases s.len() - pos,
{
    lemma_scan_bounds(s, pos);
    let t = spec_scan(s, pos);
    if t.0 == Tok::NewLine || t.0 == Tok::End || t.0 == Tok::Bad {
    } else {
        lemma_skip_line_bounds(s, t.2);
    }
}

proof fn lemma_skip_block_bounds(s: Seq<char>, pos: int)
    requires
        0 <= pos <= s.len(),
    ensures
        spec_skip_block(s, pos) is Ok ==> pos < spec_skip_block(s, pos)->Ok_0 <= s.len(),
    decreases s.len() - pos,
{
    lemma_scan_bounds(s, pos);
    let t = spec_scan(s, pos);
    if t.0 == Tok::BlockClose || t.0 == Tok::End || t.0 == Tok::Bad {
    } else {
        lemma_skip_block_bounds(s, t.2);
    }
}

/// Collects the pieces of a property value up to the closing `;`: text runs,
/// quote and angle characters as literal pieces, `&name` references as one
/// piece, comments skipped in place.
pub open spec fn spec_value(s: Seq<char>, pos: int, acc: Seq<Seq<char>>) -> Result<
    (Seq<Seq<char>>, int),
    ErrV,
>
    decreases s.len() - pos,
    when 0 <= pos <= s.len()
    via spec_value_dec
{
    let t = spec_scan(s, pos);
    if t.0 == Tok::Stmt {
        Ok((acc, t.2))
    } else if t.0 == Tok::NewLine {
        spec_value(s, t.2, acc)
    } else if t.0 == Tok::Text {
        spec_value(s, t.2, acc.push(s.subrange(t.1, t.2)))
    } else if t.0 == Tok::Bad {
        Err(ErrV::UnknownSymbol(s.subrange(t.1, t.2), t.1))
    } else if t.0 == Tok::End {
        Err(ErrV::UnexpectedEOF(t.1))
    } else if t.0 == Tok::BlockOpen {
        match spec_skip_block(s, t.2) {
            Ok(p2) => spec_value(s, p2, acc),
            Err(e) => Err(e),
        }
    } else if t.0 == Tok::LineComment {
        match spec_skip_line(s, t.2) {
            Ok(p2) => spec_value(s, p2, acc),
            Err(e) => Err(e),
        }
    } else if t.0 == Tok::Amp {
        let t2 = spec_scan(s, t.2);
        if t2.0 == Tok::Text {
            spec_value(s, t2.2, acc.push("&"@ + s.subrange(t2.1, t2.2)))
        } else {
            Err(ErrV::Why(s.subrange(t2.1, t2.2), t2.1))
        }
    } else if t.0 == Tok::Quote {
        spec_value(s, t.2, acc.push("\""@))
    } else if t.0 == Tok::AngleOpen {
        spec_value(s, t.2, acc.push("<"@))
    } else if t.0 == Tok::AngleClose {
        spec_value(s, t.2, acc.push(">"@))
    } else {
        Err(ErrV::Why(s.subrange(t.1, t.2), t.1))
    }
}

#[via_fn]
proof fn spec_value_dec(s: Seq<char>, pos: int, acc: Seq<Seq<char>>) {
    lemma_scan_bounds(s, pos);
    let t = spec_scan(s, pos);
    if t.0 == Tok::BlockOpen {
        lemma_skip_block_bounds(s, t.2);
    }
    if t.0 == Tok::LineComment {
        lemma_skip_line_bounds(s, t.2);
    }
    if t.0 == Tok::Amp {
        lemma_scan_bounds(s, t.2);
    }
}

proof fn lemma_value_bounds(s: Seq<char>, pos: int, acc: Seq<Seq<char>>)
    requires
        0 <= pos <= s.len(),
    ensures
        spec_value(s, pos, acc) is Ok ==> pos < spec_value(s, pos, acc)->Ok_0.1 <= s.len(),
    decreases s.len() - pos,
{
    lemma_scan_bounds(s, pos);
    let t = spec_scan(s, pos);
    if t.0 == Tok::Stmt || t.0 == Tok::Bad || t.0 == Tok::End {
    } else if t.0 == Tok::NewLine {
        lemma_value_bounds(s, t.2, acc);
    } else if t.0 == Tok::Text {
        lemma_value_bounds(s, t.2, acc.push(s.subrange(t.1, t.2)));
    } else if t.0 == Tok::BlockOpen {
        lemma_skip_block_bounds(s, t.2);
        if spec_skip_block(s, t.2) is Ok {
            lemma_value_bounds(s, spec_skip_block(s, t.2)->Ok_0, acc);
        }
    } else if t.0 == Tok::LineComment {
        lemma_skip_line_bounds(s, t.2);
        if spec_skip_line(s, t.2) is Ok {
            lemma_value_bounds(s, spec_skip_line(s, t.2)->Ok_0, acc);
        }
    } else if t.0 == Tok::Amp {
        lemma_scan_bounds(s, t.2);
        let t2 = spec_scan(s, t.2);
        if t2.0 == Tok::Text {
            lemma_value_bounds(s, t2.2, acc.push("&"@ + s.subrange(t2.1, t2.2)));
        }
    } else if t.0 == Tok::Quote {
        lemma_value_bounds(s, t.2, acc.push("\""@));
    } else if t.0 == Tok::AngleOpen {
        lemma_value_bounds(s, t.2, acc.push("<"@));
    } else if t.0 == Tok::AngleClose {
        lemma_value_bounds(s, t.2, acc.push(">"@));
    }
}

/// Scans a labeled node head up to its `{`: the last text run seen is the
/// node name; block comments are skipped; anything else is malformed.
pub open spec fn spec_label_scan(s: Seq<char>, pos: int, acc: Seq<char>) -> Result<
    (Seq<char>, int),
    ErrV,
>
    decreases s.len() - pos,
    when 0 <= pos <= s.len()
    via spec_label_scan_dec
{
    let t = spec_scan(s, pos);
    if t.0 == Tok::NodeStart {
        Ok((acc, t.2))
    } else if t.0 == Tok::Text {
        spec_label_scan(s, t.2, s.subrange(t.1, t.2))
    } else if t.0 == Tok::BlockOpen {
        match spec_skip_block(s, t.2) {
            Ok(p2) => spec_label_scan(s, p2, acc),
            Err(e) => Err(e),
        }
    } else {
        Err(ErrV::Why(s.subrange(t.1, t.2), t.1))
    }
}

#[via_fn]
proof fn spec_label_scan_dec(s: Seq<char>, pos: int, acc: Seq<char>) {
    lemma_scan_bounds(s, pos);
    let t = spec_scan(s, pos);
    if t.0 == Tok::BlockOpen {
        lemma_skip_block_bounds(s, t.2);
    }
}

proof fn lemma_label_scan_bounds(s: Seq<char>, pos: int, acc: Seq<char>)
    requires
        0 <= pos <= s.len(),
    ensures
        spec_label_scan(s, pos, acc) is Ok ==> pos < spec_label_scan(s, pos, acc)->Ok_0.1
            <= s.len(),
    decreases s.len() - pos,
{
    lemma_scan_bounds(s, pos);
    let t = spec_scan(s, pos);
    if t.0 == Tok::NodeStart {
    } else if t.0 == Tok::Text {
        lemma_label_scan_bounds(s, t.2, s.subrange(t.1, t.2));
    } else if t.0 == Tok::BlockOpen {
        lemma_skip_block_bounds(s, t.2);
        if spec_skip_block(s, t.2) is Ok {
            lemma_label_scan_bounds(s, spec_skip_block(s, t.2)->Ok_0, acc);
        }
    }
}

/// Scans an import line up to its line break: exactly one text run is the
/// target; quote and angle delimiters around it are dropped; a second target,
/// a missing target, or anything else is malformed.
pub open spec fn spec_import_scan(s: Seq<char>, pos: int, found: Option<Seq<char>>) -> Result<
    (Seq<char>, int),
    ErrV,
>
    decreases s.len() - pos,
    when 0 <= pos <= s.len()
    via spec_import_scan_dec
{
    let t = spec_scan(s, pos);
    if t.0 == Tok::NewLine {
        match found {
            Some(f) => Ok((f, t.2)),
            None => Err(ErrV::Why(s.subrange(t.1, t.2), t.1)),
        }
    } else if t.0 == Tok::Text {
        match found {
            Some(f) => Err(ErrV::Why(s.subrange(t.1, t.2), t.1)),
            None => spec_import_scan(s, t.2, Some(s.subrange(t.1, t.2))),
        }
    } else if t.0 == Tok::Quote || t.0 == Tok::AngleOpen || t.0 == Tok::AngleClose {
        spec_import_scan(s, t.2, found)
    } else {
        Err(ErrV::Why(s.subrange(t.1, t.2), t.1))
    }
}

#[via_fn]
proof fn spec_import_scan_dec(s: Seq<char>, pos: int, found: Option<Seq<char>>) {
    lemma_scan_bounds(s, pos);
}

proof fn lemma_import_scan_bounds(s: Seq<char>, pos: int, found: Option<Seq<char>>)
    requires
        0 <= pos <= s.len(),
    ensures
        spec_import_scan(s, pos, found) is Ok ==> pos < spec_import_scan(s, pos, found)->Ok_0.1
            <= s.len(),
    decreases s.len() - pos,
{
    lemma_scan_bounds(s, pos);
    let t = spec_scan(s, pos);
    if t.0 == Tok::Text && found is None {
        lemma_import_scan_bounds(s, t.2, Some(s.subrange(t.1, t.2)));
    } else if t.0 == Tok::Quote || t.0 == Tok::AngleOpen || t.0 == Tok::AngleClose {
        lemma_import_scan_bounds(s, t.2, found);
    }
}

/// Collects a directive's target pieces up to the closing `;`: text runs and
/// `&name` references, concatenated without separators; anything else is
/// malformed.
pub open spec fn spec_directive_scan(s: Seq<char>, pos: int, acc: Seq<Seq<char>>) -> Result<
    (Seq<Seq<char>>, int),
    ErrV,
>
    decreases s.len() - pos,
    when 0 <= pos <= s.len()
    via spec_directive_scan_dec
{
    let t = spec_scan(s, pos);
    if t.0 == Tok::Stmt {
        Ok((acc, t.2))
    } else if t.0 == Tok::Text {
        spec_directive_scan(s, t.2, acc.push(s.subrange(t.1, t.2)))
    } else if t.0 == Tok::Amp {
        let t2 = spec_scan(s, t.2);
        if t2.0 == Tok::Text {
            spec_directive_scan(s, t2.2, acc.push("&"@ + s.subrange(t2.1, t2.2)))
        } else {
            Err(ErrV::Why(s.subrange(t2.1, t2.2), t2.1))
        }
    } else {
        Err(ErrV::Why(s.subrange(t.1, t.2), t.1))
    }
}

#[via_fn]
proof fn spec_directive_scan_dec(s: Seq<char>, pos: int, acc: Seq<Seq<char>>) {
    lemma_scan_bounds(s, pos);
    let t = spec_scan(s, pos);
    if t.0 == Tok::Amp {
        lemma_scan_bounds(s, t.2);
    }
}

proof fn lemma_directive_scan_bounds(s: Seq<char>, pos: int, acc: Seq<Seq<char>>)
    requires
        0 <= pos <= s.len(),
    ensures
        spec_directive_scan(s, pos, acc) is Ok ==> pos < spec_directive_scan(s, pos, acc)->Ok_0.1
            <= s.len(),
    decreases s.len() - pos,
{
    lemma_scan_bounds(s, pos);
    let t = spec_scan(s, pos);
    if t.0 == Tok::Text {
        lemma_directive_scan_bounds(s, t.2, acc.push(s.subrange(t.1, t.2)));
    } else if t.0 == Tok::Amp {
        lemma_scan_bounds(s, t.2);
        let t2 = spec_scan(s, t.2);
        if t2.0 == Tok::Text {
            lemma_directive_scan_bounds(s, t2.2, acc.push("&"@ + s.subrange(t2.1, t2.2)));
        }
    }
}

/// Scans a label reference head: `&`, a text run naming the label, then `{`.
pub open spec fn spec_refnode(s: Seq<char>, pos: int) -> Result<(Seq<char>, int), ErrV> {
    let t = spec_scan(s, pos);
    if t.0 != Tok::Text {
        Err(ErrV::Why(s.subrange(t.1, t.2), t.1))
    } else {
        let t2 = spec_scan(s, t.2);
        if t2.0 == Tok::NodeStart {
            Ok((s.subrange(t.1, t.2), t2.2))
        } else {
            Err(ErrV::Why(s.subrange(t2.1, t2.2), t2.1))
        }
    }
}

proof fn lemma_refnode_bounds(s: Seq<char>, pos: int)
    requires
        0 <= pos <= s.len(),
    ensures
        spec_refnode(s, pos) is Ok ==> pos < spec_refnode(s, pos)->Ok_0.1 <= s.len(),
{
    lemma_scan_bounds(s, pos);
    let t = spec_scan(s, pos);
    if t.0 == Tok::Text {
        lemma_scan_bounds(s, t.2);
    }
}

/// The position of the next line break at or after `pos`, or the input's end.
pub open spec fn line_end(s: Seq<char>, pos: int) -> int
    decreases s.len() - pos,
    when 0 <= pos <= s.len()
{
    if pos < s.len() && s[pos] != '\n' {
        line_end(s, pos + 1)
    } else {
        pos
    }
}

proof fn lemma_line_end(s: Seq<char>, pos: int)
    requires
        0 <= pos <= s.len(),
    ensures
        pos <= line_end(s, pos) <= s.len(),
    decreases s.len() - pos,
{
    if pos < s.len() && s[pos] != '\n' {
        lemma_line_end(s, pos + 1);
    }
}

/// The end of the value once trailing whitespace is dropped.
pub open spec fn rtrim_ws(s: Seq<char>, lo: int, hi: int) -> int
    decreases hi - lo,
    when lo <= hi
{
    if hi > lo && is_ws(s[hi - 1]) {
        rtrim_ws(s, lo, hi - 1)
    } else {
        hi
    }
}

proof fn lemma_rtrim_ws(s: Seq<char>, lo: int, hi: int)
    requires
        lo <= hi,
    ensures
        lo <= rtrim_ws(s, lo, hi) <= hi,
    decreases hi - lo,
{
    if hi > lo && is_ws(s[hi - 1]) {
        lemma_rtrim_ws(s, lo, hi - 1);
    }
}

/// Parses the tail of a define line: a name, a whitespace run, and the value
/// running to the line break with trailing whitespace dropped. A missing
/// name, separator, or value is a bad define. The line break itself is left
/// unconsumed.
pub open spec fn spec_define_tail(s: Seq<char>, pos: int) -> Result<(Seq<char>, Seq<char>, int), ErrV> {
    let p0 = skip_ws(s, pos);
    let q = run_end_text(s, p0);
    if q == p0 {
        Err(ErrV::BadDefine(p0))
    } else if !(q < s.len() && is_ws(s[q])) {
        Err(ErrV::BadDefine(q))
    } else {
        let v0 = skip_ws(s, q);
        let le = line_end(s, v0);
        let ve = rtrim_ws(s, v0, le);
        if ve == v0 {
            Err(ErrV::BadDefine(v0))
        } else {
            Ok((s.subrange(p0, q), s.subrange(v0, ve), le))
        }
    }
}

proof fn lemma_define_tail_bounds(s: Seq<char>, pos: int)
    requires
        0 <= pos <= s.len(),
    ensures
        spec_define_tail(s, pos) is Ok ==> pos < spec_define_tail(s, pos)->Ok_0.2 <= s.len(),
{
    lemma_skip_ws(s, pos);
    let p0 = skip_ws(s, pos);
    lemma_run_end_text(s, p0);
    let q = run_end_text(s, p0);
    if q > p0 && q < s.len() && is_ws(s[q]) {
        lemma_skip_ws(s, q);
        let v0 = skip_ws(s, q);
        lemma_line_end(s, v0);
        lemma_rtrim_ws(s, v0, line_end(s, v0));
    }
}

/// Joins value pieces with single spaces.
pub open spec fn join_sp(ps: Seq<Seq<char>>) -> Seq<char>
    decreases ps.len(),
{
    if ps.len() == 0 {
        Seq::empty()
    } else if ps.len() == 1 {
        ps[0]
    } else {
        join_sp(ps.drop_last()) + " "@ + ps.last()
    }
}

/// Concatenates target pieces without separators.
pub open spec fn concat_all(ps: Seq<Seq<char>>) -> Seq<char>
    decreases ps.len(),
{
    if ps.len() == 0 {
        Seq::empty()
    } else {
        concat_all(ps.drop_last()) + ps.last()
    }
}

/// The events of one source text from `pos` on, appended to `acc`; the
/// sequence always ends with the end-of-input event. This is the meaning of
/// [`lex`].
pub open spec fn spec_lex(s: Seq<char>, pos: int, acc: Seq<EventV>) -> Result<Seq<EventV>, ErrV>
    decreases s.len() - pos,
    when 0 <= pos <= s.len()
    via spec_lex_dec
{
    let t = spec_scan(s, pos);
    if t.0 == Tok::End {
        Ok(acc.push(EventV::EOF))
    } else if t.0 == Tok::NewLine {
        spec_lex(s, t.2, acc)
    } else if t.0 == Tok::LineComment {
        match spec_skip_line(s, t.2) {
            Ok(p2) => spec_lex(s, p2, acc),
            Err(e) => Err(e),
        }
    } else if t.0 == Tok::BlockOpen {
        match spec_skip_block(s, t.2) {
            Ok(p2) => spec_lex(s, p2, acc),
            Err(e) => Err(e),
        }
    } else if t.0 == Tok::Define {
        match spec_define_tail(s, t.2) {
            Ok(nv) => spec_lex(s, nv.2, acc.push(EventV::Define(nv.0, nv.1))),
            Err(e) => Err(e),
        }
    } else if t.0 == Tok::Text {
        let lhs = s.subrange(t.1, t.2);
        let t2 = spec_scan(s, t.2);
        if t2.0 == Tok::Equals {
            match spec_value(s, t2.2, Seq::empty()) {
                Ok(pe) => spec_lex(s, pe.1, acc.push(EventV::Property(lhs, Some(join_sp(pe.0))))),
                Err(e) => Err(e),
            }
        } else if t2.0 == Tok::Stmt {
            spec_lex(s, t2.2, acc.push(EventV::Property(lhs, None)))
        } else if t2.0 == Tok::Colon {
            match spec_label_scan(s, t2.2, Seq::empty()) {
                Ok(ne) => spec_lex(s, ne.1, acc.push(EventV::Node(Some(lhs), ne.0))),
                Err(e) => Err(e),
            }
        } else if t2.0 == Tok::NodeStart {
            spec_lex(s, t2.2, acc.push(EventV::Node(None, lhs)))
        } else {
            Err(ErrV::Why(s.subrange(t2.1, t2.2), t2.1))
        }
    } else if t.0 == Tok::NodeEnd {
        spec_lex(s, t.2, acc.push(EventV::NodeEnd))
    } else if t.0 == Tok::Import {
        match spec_import_scan(s, t.2, None) {
            Ok(fe) => spec_lex(s, fe.1, acc.push(EventV::Import(fe.0))),
            Err(e) => Err(e),
        }
    } else if t.0 == Tok::Directive {
        let name = s.subrange(t.1 + 1, t.2 - 1);
        match spec_directive_scan(s, t.2, Seq::empty()) {
            Ok(pe) => spec_lex(
                s,
                pe.1,
                acc.push(
                    EventV::Directive(
                        name,
                        if pe.0.len() > 0 {
                            Some(concat_all(pe.0))
                        } else {
                            None
                        },
                    ),
                ),
            ),
            Err(e) => Err(e),
        }
    } else if t.0 == Tok::Amp {
        match spec_refnode(s, t.2) {
            Ok(ne) => spec_lex(s, ne.1, acc.push(EventV::RefNode(ne.0))),
            Err(e) => Err(e),
        }
    } else if t.0 == Tok::Bad {
        Err(ErrV::UnknownSymbol(s.subrange(t.1, t.2), t.1))
    } else {
        Err(ErrV::Why(s.subrange(t.1, t.2), t.1))
    }
}

#[via_fn]
proof fn spec_lex_dec(s: Seq<char>, pos: int, acc: Seq<EventV>) {
    lemma_scan_bounds(s, pos);
    let t = spec_scan(s, pos);
    if t.0 == Tok::LineComment {
        lemma_skip_line_bounds(s, t.2);
    }
    if t.0 == Tok::BlockOpen {
        lemma_skip_block_bounds(s, t.2);
    }
    if t.0 == Tok::Define {
        lemma_define_tail_bounds(s, t.2);
    }
    if t.0 == Tok::Text {
        lemma_scan_bounds(s, t.2);
        let t2 = spec_scan(s, t.2);
        if t2.0 == Tok::Equals {
            lemma_value_bounds(s, t2.2, Seq::empty());
        }
        if t2.0 == Tok::Colon {
            lemma_label_scan_bounds(s, t2.2, Seq::empty());
        }
    }
    if t.0 == Tok::Import {
        lemma_import_scan_bounds(s, t.2, None);
    }
    if t.0 == Tok::Directive {
        lemma_directive_scan_bounds(s, t.2, Seq::empty());
    }
    if t.0 == Tok::Amp {
        lemma_refnode_bounds(s, t.2);
    }
}


fn ws_c(c: char) -> (b: bool)
    ensures
        b == is_ws(c),
{
    c == ' ' || c == '\t' || c == '\r'
}

fn textchar_c(c: char) -> (b: bool)
    ensures
        b == is_textchar(c),
{
    let u = c as u32;
    (('a' as u32) <= u && u <= ('z' as u32)) || (('A' as u32) <= u && u <= ('Z' as u32)) || (('0'
        as u32) <= u && u <= ('9' as u32)) || c == '#' || c == '_' || c == '@' || c == ',' || c
        == '.' || c == '/' || c == '-'
}

fn dirchar_c(c: char) -> (b: bool)
    ensures
        b == is_dirchar(c),
{
    let u = c as u32;
    (('a' as u32) <= u && u <= ('z' as u32)) || (('A' as u32) <= u && u <= ('Z' as u32)) || (('0'
        as u32) <= u && u <= ('9' as u32)) || c == '-'
}

/// The slice between two character positions, as an owned string.
fn substr(s: &str, a: usize, b: usize) -> (r: String)
    requires
        a <= b,
        b <= s@.len(),
    ensures
        r@ == s@.subrange(a as int, b as int),
{
    s.substring_char(a, b).to_owned()
}

fn skip_ws_c(s: &str, n: usize, pos: usize) -> (p: usize)
    requires
        pos <= n,
        n == s@.len(),
    ensures
        p == skip_ws(s@, pos as int),
        pos <= p <= n,
{
    let mut p = pos;
    while p < n && ws_c(s.get_char(p))
        invariant
            pos <= p <= n,
            n == s@.len(),
            skip_ws(s@, pos as int) == skip_ws(s@, p as int),
        decreases n - p,
    {
        p = p + 1;
    }
    p
}

fn run_text_c(s: &str, n: usize, q0: usize) -> (e: usize)
    requires
        q0 <= n,
        n == s@.len(),
    ensures
        e == run_end_text(s@, q0 as int),
        q0 <= e <= n,
{
    let mut q = q0;
    while q < n && textchar_c(s.get_char(q))
        invariant
            q0 <= q <= n,
            n == s@.len(),
            run_end_text(s@, q0 as int) == run_end_text(s@, q as int),
        decreases n - q,
    {
        q = q + 1;
    }
    q
}

fn run_dir_c(s: &str, n: usize, q0: usize) -> (e: usize)
    requires
        q0 <= n,
        n == s@.len(),
    ensures
        e == run_end_dir(s@, q0 as int),
        q0 <= e <= n,
{
    let mut q = q0;
    while q < n && dirchar_c(s.get_char(q))
        invariant
            q0 <= q <= n,
            n == s@.len(),
            run_end_dir(s@, q0 as int) == run_end_dir(s@, q as int),
        decreases n - q,
    {
        q = q + 1;
    }
    q
}

fn kw_import_hash(s: &str, n: usize, p: usize) -> (b: bool)
    requires
        p <= n,
        n == s@.len(),
    ensures
        b == at_import_hash(s@, p as int),
{
    n - p >= 8 && s.get_char(p) == '#' && s.get_char(p + 1) == 'i' && s.get_char(p + 2) == 'n'
        && s.get_char(p + 3) == 'c' && s.get_char(p + 4) == 'l' && s.get_char(p + 5) == 'u'
        && s.get_char(p + 6) == 'd' && s.get_char(p + 7) == 'e'
}

fn kw_import_slash(s: &str, n: usize, p: usize) -> (b: bool)
    requires
        p <= n,
        n == s@.len(),
    ensures
        b == at_import_slash(s@, p as int),
{
    n - p >= 9 && s.get_char(p) == '/' && s.get_char(p + 1) == 'i' && s.get_char(p + 2) == 'n'
        && s.get_char(p + 3) == 'c' && s.get_char(p + 4) == 'l' && s.get_char(p + 5) == 'u'
        && s.get_char(p + 6) == 'd' && s.get_char(p + 7) == 'e' && s.get_char(p + 8) == '/'
}

fn kw_define(s: &str, n: usize, p: usize) -> (b: bool)
    requires
        p <= n,
        n == s@.len(),
    ensures
        b == at_define_kw(s@, p as int),
{
    n - p >= 7 && s.get_char(p) == '#' && s.get_char(p + 1) == 'd' && s.get_char(p + 2) == 'e'
        && s.get_char(p + 3) == 'f' && s.get_char(p + 4) == 'i' && s.get_char(p + 5) == 'n'
        && s.get_char(p + 6) == 'e'
}

/// The next token from `pos`: kind, start, end.
fn scan_token(s: &str, pos: usize) -> (r: (Tok, usize, usize))
    requires
        pos <= s@.len(),
    ensures
        ({
            let t = spec_scan(s@, pos as int);
            r.0 == t.0 && r.1 == t.1 && r.2 == t.2 && pos <= r.1 <= r.2 <= s@.len() && (r.0
                != Tok::End ==> r.2 > r.1) && (r.0 == Tok::End ==> r.1 == s@.len())
        }),
{
    proof {
        lemma_scan_bounds(s@, pos as int);
    }
    let n = s.unicode_len();
    let p = skip_ws_c(s, n, pos);
    if p == n {
        return (Tok::End, p, p);
    }
    let c = s.get_char(p);
    if kw_import_hash(s, n, p) {
        (Tok::Import, p, p + 8)
    } else if kw_import_slash(s, n, p) {
        (Tok::Import, p, p + 9)
    } else if kw_define(s, n, p) {
        (Tok::Define, p, p + 7)
    } else if n - p >= 2 && c == '/' && s.get_char(p + 1) == '*' {
        (Tok::BlockOpen, p, p + 2)
    } else if n - p >= 2 && c == '*' && s.get_char(p + 1) == '/' {
        (Tok::BlockClose, p, p + 2)
    } else if n - p >= 2 && c == '/' && s.get_char(p + 1) == '/' {
        (Tok::LineComment, p, p + 2)
    } else if n - p >= 2 && c == '}' && s.get_char(p + 1) == ';' {
        (Tok::NodeEnd, p, p + 2)
    } else if c == '&' {
        (Tok::Amp, p, p + 1)
    } else if c == ':' {
        (Tok::Colon, p, p + 1)
    } else if c == '{' {
        (Tok::NodeStart, p, p + 1)
    } else if c == '=' {
        (Tok::Equals, p, p + 1)
    } else if c == ';' {
        (Tok::Stmt, p, p + 1)
    } else if c == '"' {
        (Tok::Quote, p, p + 1)
    } else if c == '<' {
        (Tok::AngleOpen, p, p + 1)
    } else if c == '>' {
        (Tok::AngleClose, p, p + 1)
    } else if c == '\n' {
        (Tok::NewLine, p, p + 1)
    } else if c == '/' {
        let e = run_dir_c(s, n, p + 1);
        if e > p + 1 && e < n && s.get_char(e) == '/' {
            (Tok::Directive, p, e + 1)
        } else {
            let te = run_text_c(s, n, p);
            (Tok::Text, p, te)
        }
    } else if textchar_c(c) {
        let te = run_text_c(s, n, p);
        (Tok::Text, p, te)
    } else {
        (Tok::Bad, p, p + 1)
    }
}

fn skip_line_c(s: &str, pos: usize) -> (r: Result<usize, DTError>)
    requires
        pos <= s@.len(),
    ensures
        match r {
            Ok(p) => spec_skip_line(s@, pos as int) == Ok::<int, ErrV>(p as int) && pos < p
                <= s@.len(),
            Err(e) => spec_skip_line(s@, pos as int) == Err::<int, ErrV>(e@),
        },
    decreases s@.len() - pos,
{
    let t = scan_token(s, pos);
    if t.0 == Tok::NewLine {
        Ok(t.2)
    } else if t.0 == Tok::End {
        Err(DTError::UnexpectedEOF(t.1))
    } else if t.0 == Tok::Bad {
        Err(DTError::UnknownSymbol(substr(s, t.1, t.2), t.1))
    } else {
        skip_line_c(s, t.2)
    }
}

fn skip_block_c(s: &str, pos: usize) -> (r: Result<usize, DTError>)
    requires
        pos <= s@.len(),
    ensures
        match r {
            Ok(p) => spec_skip_block(s@, pos as int) == Ok::<int, ErrV>(p as int) && pos < p
                <= s@.len(),
            Err(e) => spec_skip_block(s@, pos as int) == Err::<int, ErrV>(e@),
        },
    decreases s@.len() - pos,
{
    let t = scan_token(s, pos);
    if t.0 == Tok::BlockClose {
        Ok(t.2)
    } else if t.0 == Tok::End {
        Err(DTError::UnexpectedEOF(t.1))
    } else if t.0 == Tok::Bad {
        Err(DTError::UnknownSymbol(substr(s, t.1, t.2), t.1))
    } else {
        skip_block_c(s, t.2)
    }
}

fn value_c(s: &str, pos: usize, acc: &mut Vec<String>) -> (r: Result<usize, DTError>)
    requires
        pos <= s@.len(),
    ensures
        match r {
            Ok(e) => spec_value(s@, pos as int, strs_view(old(acc)@)) == Ok::<
                (Seq<Seq<char>>, int),
                ErrV,
            >((strs_view(final(acc)@), e as int)) && pos < e <= s@.len(),
            Err(er) => spec_value(s@, pos as int, strs_view(old(acc)@)) == Err::<
                (Seq<Seq<char>>, int),
                ErrV,
            >(er@),
        },
    decreases s@.len() - pos,
{
    let t = scan_token(s, pos);
    if t.0 == Tok::Stmt {
        Ok(t.2)
    } else if t.0 == Tok::NewLine {
        value_c(s, t.2, acc)
    } else if t.0 == Tok::Text {
        let piece = substr(s, t.1, t.2);
        let ghost a0 = strs_view(acc@);
        acc.push(piece);
        proof {
            assert(strs_view(acc@) =~= a0.push(s@.subrange(t.1 as int, t.2 as int)));
        }
        value_c(s, t.2, acc)
    } else if t.0 == Tok::Bad {
        Err(DTError::UnknownSymbol(substr(s, t.1, t.2), t.1))
    } else if t.0 == Tok::End {
        Err(DTError::UnexpectedEOF(t.1))
    } else if t.0 == Tok::BlockOpen {
        match skip_block_c(s, t.2) {
            Ok(p2) => value_c(s, p2, acc),
            Err(e) => Err(e),
        }
    } else if t.0 == Tok::LineComment {
        match skip_line_c(s, t.2) {
            Ok(p2) => value_c(s, p2, acc),
            Err(e) => Err(e),
        }
    } else if t.0 == Tok::Amp {
        let t2 = scan_token(s, t.2);
        if t2.0 == Tok::Text {
            let mut piece: String = "&".to_owned();
            piece.append(s.substring_char(t2.1, t2.2));
            let ghost a0 = strs_view(acc@);
            acc.push(piece);
            proof {
                assert(strs_view(acc@) =~= a0.push("&"@ + s@.subrange(t2.1 as int, t2.2 as int)));
            }
            value_c(s, t2.2, acc)
        } else {
            Err(DTError::Why(substr(s, t2.1, t2.2), t2.1))
        }
    } else if t.0 == Tok::Quote {
        let ghost a0 = strs_view(acc@);
        acc.push("\"".to_owned());
        proof {
            assert(strs_view(acc@) =~= a0.push("\""@));
        }
        value_c(s, t.2, acc)
    } else if t.0 == Tok::AngleOpen {
        let ghost a0 = strs_view(acc@);
        acc.push("<".to_owned());
        proof {
            assert(strs_view(acc@) =~= a0.push("<"@));
        }
        value_c(s, t.2, acc)
    } else if t.0 == Tok::AngleClose {
        let ghost a0 = strs_view(acc@);
        acc.push(">".to_owned());
        proof {
            assert(strs_view(acc@) =~= a0.push(">"@));
        }
        value_c(s, t.2, acc)
    } else {
        Err(DTError::Why(substr(s, t.1, t.2), t.1))
    }
}

fn label_c(s: &str, pos: usize, acc: String) -> (r: Result<(String, usize), DTError>)
    requires
        pos <= s@.len(),
    ensures
        match r {
            Ok(ne) => spec_label_scan(s@, pos as int, acc@) == Ok::<(Seq<char>, int), ErrV>(
                (ne.0@, ne.1 as int),
            ) && pos < ne.1 <= s@.len(),
            Err(er) => spec_label_scan(s@, pos as int, acc@) == Err::<(Seq<char>, int), ErrV>(er@),
        },
    decreases s@.len() - pos,
{
    let t = scan_token(s, pos);
    if t.0 == Tok::NodeStart {
        Ok((acc, t.2))
    } else if t.0 == Tok::Text {
        label_c(s, t.2, substr(s, t.1, t.2))
    } else if t.0 == Tok::BlockOpen {
        match skip_block_c(s, t.2) {
            Ok(p2) => label_c(s, p2, acc),
            Err(e) => Err(e),
        }
    } else {
        Err(DTError::Why(substr(s, t.1, t.2), t.1))
    }
}

fn import_c(s: &str, pos: usize, found: Option<String>) -> (r: Result<(String, usize), DTError>)
    requires
        pos <= s@.len(),
    ensures
        match r {
            Ok(fe) => spec_import_scan(s@, pos as int, opt_view(found)) == Ok::<
                (Seq<char>, int),
                ErrV,
            >((fe.0@, fe.1 as int)) && pos < fe.1 <= s@.len(),
            Err(er) => spec_import_scan(s@, pos as int, opt_view(found)) == Err::<
                (Seq<char>, int),
                ErrV,
            >(er@),
        },
    decreases s@.len() - pos,
{
    let t = scan_token(s, pos);
    if t.0 == Tok::NewLine {
        match found {
            Some(f) => Ok((f, t.2)),
            None => Err(DTError::Why(substr(s, t.1, t.2), t.1)),
        }
    } else if t.0 == Tok::Text {
        match found {
            Some(f) => Err(DTError::Why(substr(s, t.1, t.2), t.1)),
            None => import_c(s, t.2, Some(substr(s, t.1, t.2))),
        }
    } else if t.0 == Tok::Quote || t.0 == Tok::AngleOpen || t.0 == Tok::AngleClose {
        import_c(s, t.2, found)
    } else {
        Err(DTError::Why(substr(s, t.1, t.2), t.1))
    }
}

fn directive_c(s: &str, pos: usize, acc: &mut Vec<String>) -> (r: Result<usize, DTError>)
    requires
        pos <= s@.len(),
    ensures
        match r {
            Ok(e) => spec_directive_scan(s@, pos as int, strs_view(old(acc)@)) == Ok::<
                (Seq<Seq<char>>, int),
                ErrV,
            >((strs_view(final(acc)@), e as int)) && pos < e <= s@.len(),
            Err(er) => spec_directive_scan(s@, pos as int, strs_view(old(acc)@)) == Err::<
                (Seq<Seq<char>>, int),
                ErrV,
            >(er@),
        },
    decreases s@.len() - pos,
{
    let t = scan_token(s, pos);
    if t.0 == Tok::Stmt {
        Ok(t.2)
    } else if t.0 == Tok::Text {
        let ghost a0 = strs_view(acc@);
        acc.push(substr(s, t.1, t.2));
        proof {
            assert(strs_view(acc@) =~= a0.push(s@.subrange(t.1 as int, t.2 as int)));
        }
        directive_c(s, t.2, acc)
    } else if t.0 == Tok::Amp {
        let t2 = scan_token(s, t.2);
        if t2.0 == Tok::Text {
            let mut piece: String = "&".to_owned();
            piece.append(s.substring_char(t2.1, t2.2));
            let ghost a0 = strs_view(acc@);
            acc.push(piece);
            proof {
                assert(strs_view(acc@) =~= a0.push("&"@ + s@.subrange(t2.1 as int, t2.2 as int)));
            }
            directive_c(s, t2.2, acc)
        } else {
            Err(DTError::Why(substr(s, t2.1, t2.2), t2.1))
        }
    } else {
        Err(DTError::Why(substr(s, t.1, t.2), t.1))
    }
}

fn refnode_c(s: &str, pos: usize) -> (r: Result<(String, usize), DTError>)
    requires
        pos <= s@.len(),
    ensures
        match r {
            Ok(ne) => spec_refnode(s@, pos as int) == Ok::<(Seq<char>, int), ErrV>(
                (ne.0@, ne.1 as int),
            ) && pos < ne.1 <= s@.len(),
            Err(er) => spec_refnode(s@, pos as int) == Err::<(Seq<char>, int), ErrV>(er@),
        },
{
    let t = scan_token(s, pos);
    if t.0 != Tok::Text {
        Err(DTError::Why(substr(s, t.1, t.2), t.1))
    } else {
        let t2 = scan_token(s, t.2);
        if t2.0 == Tok::NodeStart {
            Ok((substr(s, t.1, t.2), t2.2))
        } else {
            Err(DTError::Why(substr(s, t2.1, t2.2), t2.1))
        }
    }
}

fn line_end_c(s: &str, n: usize, pos: usize) -> (e: usize)
    requires
        pos <= n,
        n == s@.len(),
    ensures
        e == line_end(s@, pos as int),
        pos <= e <= n,
{
    let mut q = pos;
    while q < n && s.get_char(q) != '\n'
        invariant
            pos <= q <= n,
            n == s@.len(),
            line_end(s@, pos as int) == line_end(s@, q as int),
        decreases n - q,
    {
        q = q + 1;
    }
    q
}

fn rtrim_c(s: &str, n: usize, lo: usize, hi: usize) -> (e: usize)
    requires
        lo <= hi <= n,
        n == s@.len(),
    ensures
        e == rtrim_ws(s@, lo as int, hi as int),
        lo <= e <= hi,
{
    let mut h = hi;
    while h > lo && ws_c(s.get_char(h - 1))
        invariant
            lo <= h <= hi <= n,
            n == s@.len(),
            rtrim_ws(s@, lo as int, hi as int) == rtrim_ws(s@, lo as int, h as int),
        decreases h,
    {
        h = h - 1;
    }
    h
}

fn define_tail_c(s: &str, pos: usize) -> (r: Result<(String, String, usize), DTError>)
    requires
        pos <= s@.len(),
    ensures
        match r {
            Ok(nv) => spec_define_tail(s@, pos as int) == Ok::<(Seq<char>, Seq<char>, int), ErrV>(
                (nv.0@, nv.1@, nv.2 as int),
            ) && pos < nv.2 <= s@.len(),
            Err(er) => spec_define_tail(s@, pos as int) == Err::<(Seq<char>, Seq<char>, int), ErrV>(
                er@,
            ),
        },
{
    let n = s.unicode_len();
    let p0 = skip_ws_c(s, n, pos);
    let q = run_text_c(s, n, p0);
    if q == p0 {
        return Err(DTError::BadDefine(p0));
    }
    if !(q < n && ws_c(s.get_char(q))) {
        return Err(DTError::BadDefine(q));
    }
    let v0 = skip_ws_c(s, n, q);
    let le = line_end_c(s, n, v0);
    let ve = rtrim_c(s, n, v0, le);
    if ve == v0 {
        return Err(DTError::BadDefine(v0));
    }
    proof {
        assert(run_end_text(s@, p0 as int) > p0 as int);
    }
    Ok((substr(s, p0, q), substr(s, v0, ve), le))
}

/// Joins value pieces with single spaces, matching [`join_sp`].
fn join_sp_c(v: &Vec<String>) -> (r: String)
    ensures
        r@ == join_sp(strs_view(v@)),
{
    if v.len() == 0 {
        return String::new();
    }
    let mut r = v[0].clone();
    let mut j: usize = 1;
    while j < v.len()
        invariant
            1 <= j <= v@.len(),
            r@ == join_sp(strs_view(v@).subrange(0, j as int)),
        decreases v@.len() - j,
    {
        r.append(" ");
        r.append(v[j].as_str());
        proof {
            let pre = strs_view(v@).subrange(0, j as int + 1);
            assert(pre.drop_last() =~= strs_view(v@).subrange(0, j as int));
            assert(pre.last() == v@[j as int]@);
        }
        j = j + 1;
    }
    proof {
        assert(strs_view(v@).subrange(0, v@.len() as int) =~= strs_view(v@));
        assert(strs_view(v@).subrange(0, 1).len() == 1);
        assert(strs_view(v@).subrange(0, 1)[0] == v@[0]@);
    }
    r
}

/// Concatenates directive target pieces, matching [`concat_all`].
fn concat_c(v: &Vec<String>) -> (r: String)
    ensures
        r@ == concat_all(strs_view(v@)),
{
    let mut r = String::new();
    let mut j: usize = 0;
    while j < v.len()
        invariant
            j <= v@.len(),
            r@ == concat_all(strs_view(v@).subrange(0, j as int)),
        decreases v@.len() - j,
    {
        r.append(v[j].as_str());
        proof {
            let pre = strs_view(v@).subrange(0, j as int + 1);
            assert(pre.drop_last() =~= strs_view(v@).subrange(0, j as int));
            assert(pre.last() == v@[j as int]@);
        }
        j = j + 1;
    }
    proof {
        assert(strs_view(v@).subrange(0, v@.len() as int) =~= strs_view(v@));
    }
    r
}

fn lex_from(s: &str, pos: usize, acc: &mut Vec<DTInfo>) -> (r: Result<(), DTError>)
    requires
        pos <= s@.len(),
    ensures
        match r {
            Ok(u) => spec_lex(s@, pos as int, events_view(old(acc)@)) == Ok::<Seq<EventV>, ErrV>(
                events_view(final(acc)@),
            ),
            Err(e) => spec_lex(s@, pos as int, events_view(old(acc)@)) == Err::<Seq<EventV>, ErrV>(
                e@,
            ),
        },
    decreases s@.len() - pos,
{
    let t = scan_token(s, pos);
    if t.0 == Tok::End {
        let ghost a0 = events_view(acc@);
        acc.push(DTInfo::EOF);
        proof {
            assert(events_view(acc@) =~= a0.push(EventV::EOF));
        }
        Ok(())
    } else if t.0 == Tok::NewLine {
        lex_from(s, t.2, acc)
    } else if t.0 == Tok::LineComment {
        match skip_line_c(s, t.2) {
            Ok(p2) => lex_from(s, p2, acc),
            Err(e) => Err(e),
        }
    } else if t.0 == Tok::BlockOpen {
        match skip_block_c(s, t.2) {
            Ok(p2) => lex_from(s, p2, acc),
            Err(e) => Err(e),
        }
    } else if t.0 == Tok::Define {
        match define_tail_c(s, t.2) {
            Ok(nv) => {
                let (dn, dv, p2) = nv;
                let ghost a0 = events_view(acc@);
                let ghost dnv = dn@;
                let ghost dvv = dv@;
                acc.push(DTInfo::Define(dn, dv));
                proof {
                    assert(events_view(acc@) =~= a0.push(EventV::Define(dnv, dvv)));
                }
                lex_from(s, p2, acc)
            },
            Err(e) => Err(e),
        }
    } else if t.0 == Tok::Text {
        let lhs = substr(s, t.1, t.2);
        let t2 = scan_token(s, t.2);
        if t2.0 == Tok::Equals {
            let mut pieces: Vec<String> = Vec::new();
            proof {
                assert(strs_view(pieces@) =~= Seq::<Seq<char>>::empty());
            }
            match value_c(s, t2.2, &mut pieces) {
                Ok(p2) => {
                    let joined = join_sp_c(&pieces);
                    let ghost a0 = events_view(acc@);
                    let ghost lv = lhs@;
                    let ghost jv = joined@;
                    acc.push(DTInfo::Property(lhs, Some(joined)));
                    proof {
                        assert(events_view(acc@) =~= a0.push(EventV::Property(lv, Some(jv))));
                    }
                    lex_from(s, p2, acc)
                },
                Err(e) => Err(e),
            }
        } else if t2.0 == Tok::Stmt {
            let ghost a0 = events_view(acc@);
            let ghost lv = lhs@;
            acc.push(DTInfo::Property(lhs, None));
            proof {
                assert(events_view(acc@) =~= a0.push(EventV::Property(lv, None)));
            }
            lex_from(s, t2.2, acc)
        } else if t2.0 == Tok::Colon {
            match label_c(s, t2.2, String::new()) {
                Ok(ne) => {
                    let (nn, p2) = ne;
                    let ghost a0 = events_view(acc@);
                    let ghost lv = lhs@;
                    let ghost nv = nn@;
                    acc.push(DTInfo::Node(Some(lhs), nn));
                    proof {
                        assert(events_view(acc@) =~= a0.push(EventV::Node(Some(lv), nv)));
                    }
                    lex_from(s, p2, acc)
                },
                Err(e) => Err(e),
            }
        } else if t2.0 == Tok::NodeStart {
            let ghost a0 = events_view(acc@);
            let ghost lv = lhs@;
            acc.push(DTInfo::Node(None, lhs));
            proof {
                assert(events_view(acc@) =~= a0.push(EventV::Node(None, lv)));
            }
            lex_from(s, t2.2, acc)
        } else {
            Err(DTError::Why(substr(s, t2.1, t2.2), t2.1))
        }
    } else if t.0 == Tok::NodeEnd {
        let ghost a0 = events_view(acc@);
        acc.push(DTInfo::NodeEnd);
        proof {
            assert(events_view(acc@) =~= a0.push(EventV::NodeEnd));
        }
        lex_from(s, t.2, acc)
    } else if t.0 == Tok::Import {
        match import_c(s, t.2, None) {
            Ok(fe) => {
                let (fname, p2) = fe;
                let ghost a0 = events_view(acc@);
                let ghost fv = fname@;
                acc.push(DTInfo::Import(fname));
                proof {
                    assert(events_view(acc@) =~= a0.push(EventV::Import(fv)));
                }
                lex_from(s, p2, acc)
            },
            Err(e) => Err(e),
        }
    } else if t.0 == Tok::Directive {
        let name = substr(s, t.1 + 1, t.2 - 1);
        let mut pieces: Vec<String> = Vec::new();
        proof {
            assert(strs_view(pieces@) =~= Seq::<Seq<char>>::empty());
        }
        match directive_c(s, t.2, &mut pieces) {
            Ok(p2) => {
                let target = if pieces.len() > 0 {
                    Some(concat_c(&pieces))
                } else {
                    None
                };
                let ghost a0 = events_view(acc@);
                let ghost nv = name@;
                let ghost tv = opt_view(target);
                acc.push(DTInfo::Directive(name, target));
                proof {
                    assert(events_view(acc@) =~= a0.push(EventV::Directive(nv, tv)));
                }
                lex_from(s, p2, acc)
            },
            Err(e) => Err(e),
        }
    } else if t.0 == Tok::Amp {
        match refnode_c(s, t.2) {
            Ok(ne) => {
                let (nn, p2) = ne;
                let ghost a0 = events_view(acc@);
                let ghost nv = nn@;
                acc.push(DTInfo::RefNode(nn));
                proof {
                    assert(events_view(acc@) =~= a0.push(EventV::RefNode(nv)));
                }
                lex_from(s, p2, acc)
            },
            Err(e) => Err(e),
        }
    } else if t.0 == Tok::Bad {
        Err(DTError::UnknownSymbol(substr(s, t.1, t.2), t.1))
    } else {
        Err(DTError::Why(substr(s, t.1, t.2), t.1))
    }
}

/// Turns one source text into its sequence of events, ending with the
/// end-of-input event, or fails with the first error found; the result is
/// exactly [`spec_lex`] of the text.
pub fn lex(file_data: &String) -> (r: Result<Vec<DTInfo>, DTError>)
    ensures
        lex_view(r) == spec_lex(file_data@, 0, Seq::<EventV>::empty()),
{
    let mut acc: Vec<DTInfo> = Vec::new();
    proof {
        assert(events_view(acc@) =~= Seq::<EventV>::empty());
    }
    match lex_from(file_data.as_str(), 0, &mut acc) {
        Ok(u) => Ok(acc),
        Err(e) => Err(e),
    }
}


} // verus!
