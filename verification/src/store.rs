//! Snippets: a command taken from the first fenced block of a document,
//! together with what the metadata block of the document says about it.

use crate::config::yaml_parser::{document, parse_yaml_from_string, text_under, Value, YamlMap};
use crate::text::{
    blank, is_whitespace, join, join_lines, lemma_trim_start_skips, lines, lines_of, same_text,
    text_of, to_chars, trim_bounds, trim_start, views, whitespace,
};
use vstd::prelude::*;
use vstd::slice::slice_subrange;
use vstd::string::*;

verus! {

/// How far a delimited block of a document has got.
#[derive(Debug, Clone, Copy, PartialEq, Eq, Structural)]
pub enum Block {
    /// No delimiter was met yet.
    Unopened,
    /// The opening delimiter was met, the closing one not yet.
    Open,
    /// Both delimiters were met. A block does not open again.
    Closed,
}

impl Block {
    /// The state after one more delimiter.
    pub open spec fn advanced(self) -> Block {
        match self {
            Block::Unopened => Block::Open,
            Block::Open => Block::Closed,
            Block::Closed => Block::Closed,
        }
    }

    /// The state after one more delimiter.
    pub fn advance(self) -> (next: Block)
        ensures
            next == self.advanced(),
    {
        match self {
            Block::Unopened => Block::Open,
            Block::Open => Block::Closed,
            Block::Closed => Block::Closed,
        }
    }
}

/// Whether the line delimits the metadata block: it is `---` and nothing else.
pub open spec fn is_rule(line: Seq<char>) -> bool {
    line == seq!['-', '-', '-']
}

/// Whether the line delimits a code block: after leading whitespace it starts
/// with three backticks. What follows them, such as a language tag, is not
/// looked at.
pub open spec fn is_fence(line: Seq<char>) -> bool {
    let rest = trim_start(line);
    rest.len() >= 3 && rest[0] == '`' && rest[1] == '`' && rest[2] == '`'
}

/// What a scan has found of the two blocks of a document.
pub struct Scan {
    pub metadata: Block,
    pub code: Block,
    pub metadata_lines: Seq<Seq<char>>,
    pub code_lines: Seq<Seq<char>>,
}

/// The effect of one line on a scan.
///
/// Once the code block is closed, nothing changes any more. Before that, a
/// delimiter advances its own block and belongs to neither; any other line
/// joins the metadata block if that is open, else the code block if that is
/// open, and is passed over otherwise.
pub open spec fn scan_line(before: Scan, line: Seq<char>) -> Scan {
    if before.code is Closed {
        before
    } else if is_rule(line) {
        Scan { metadata: before.metadata.advanced(), ..before }
    } else if is_fence(line) {
        Scan { code: before.code.advanced(), ..before }
    } else if before.metadata is Open {
        Scan { metadata_lines: before.metadata_lines.push(line), ..before }
    } else if before.code is Open {
        Scan { code_lines: before.code_lines.push(line), ..before }
    } else {
        before
    }
}

/// The scan of the lines, in order, from two unopened blocks.
pub open spec fn scan_lines(lines: Seq<Seq<char>>) -> Scan
    decreases lines.len(),
{
    if lines.len() == 0 {
        Scan {
            metadata: Block::Unopened,
            code: Block::Unopened,
            metadata_lines: Seq::empty(),
            code_lines: Seq::empty(),
        }
    } else {
        scan_line(scan_lines(lines.drop_last()), lines.last())
    }
}

/// Once the code block is closed, the lines that follow change nothing.
pub proof fn lemma_scan_stops(lines: Seq<Seq<char>>, read: int)
    requires
        0 <= read <= lines.len(),
        scan_lines(lines.take(read)).code is Closed,
    ensures
        scan_lines(lines) == scan_lines(lines.take(read)),
    decreases lines.len() - read,
{
    if read == lines.len() {
        assert(lines.take(read) =~= lines);
    } else {
        let front = lines.drop_last();
        assert(front.take(read) =~= lines.take(read));
        lemma_scan_stops(front, read);
    }
}

/// Whether the line is `---` and nothing else.
pub fn line_is_rule(line: &str) -> (rule: bool)
    ensures
        rule == is_rule(line@),
{
    proof {
        reveal_strlit("---");
        assert("---"@ =~= seq!['-', '-', '-']);
    }
    same_text(line, "---")
}

/// Whether the line starts, after leading whitespace, with three backticks.
pub fn line_is_fence(line: &str) -> (fence: bool)
    ensures
        fence == is_fence(line@),
{
    let chars = to_chars(line);
    let count = chars.len();
    let mut first: usize = 0;
    while first < count && is_whitespace(chars[first])
        invariant
            first <= count == chars@.len(),
            forall|j: int| 0 <= j < first ==> whitespace(#[trigger] chars@[j]),
        decreases count - first,
    {
        first += 1;
    }
    proof {
        lemma_trim_start_skips(chars@, first as int);
    }
    count - first >= 3 && chars[first] == '`' && chars[first + 1] == '`' && chars[first + 2] == '`'
}

/// A scan in progress over the lines of one document.
pub struct Scanner<'a> {
    metadata: Block,
    code: Block,
    metadata_lines: Vec<&'a str>,
    code_lines: Vec<&'a str>,
}

impl<'a> View for Scanner<'a> {
    type V = Scan;

    closed spec fn view(&self) -> Scan {
        Scan {
            metadata: self.metadata,
            code: self.code,
            metadata_lines: views(self.metadata_lines@),
            code_lines: views(self.code_lines@),
        }
    }
}

impl<'a> Scanner<'a> {
    /// A scan that has read nothing.
    pub fn new() -> (scanner: Scanner<'a>)
        ensures
            scanner@ == scan_lines(Seq::empty()),
    {
        let scanner = Scanner {
            metadata: Block::Unopened,
            code: Block::Unopened,
            metadata_lines: Vec::new(),
            code_lines: Vec::new(),
        };
        assert(scanner@.metadata_lines =~= Seq::<Seq<char>>::empty());
        assert(scanner@.code_lines =~= Seq::<Seq<char>>::empty());
        scanner
    }

    /// Whether the code block is closed, so that no further line counts.
    pub fn finished(&self) -> (done: bool)
        ensures
            done == (self@.code is Closed),
    {
        match self.code {
            Block::Closed => true,
            _ => false,
        }
    }

    /// Reads one more line.
    pub fn feed(&mut self, line: &'a str)
        ensures
            final(self)@ == scan_line(old(self)@, line@),
    {
        if self.finished() {
        } else if line_is_rule(line) {
            self.metadata = self.metadata.advance();
        } else if line_is_fence(line) {
            self.code = self.code.advance();
        } else if self.metadata == Block::Open {
            self.metadata_lines.push(line);
            assert(views(self.metadata_lines@) =~= views(old(self).metadata_lines@).push(line@));
        } else if self.code == Block::Open {
            self.code_lines.push(line);
            assert(views(self.code_lines@) =~= views(old(self).code_lines@).push(line@));
        }
    }

    /// The lines of the metadata block.
    pub fn metadata_lines(&self) -> (found: &[&'a str])
        ensures
            views(found@) == self@.metadata_lines,
    {
        self.metadata_lines.as_slice()
    }

    /// The lines of the code block.
    pub fn code_lines(&self) -> (found: &[&'a str])
        ensures
            views(found@) == self@.code_lines,
    {
        self.code_lines.as_slice()
    }
}

/// Scans a document for its metadata block and its first code block.
pub fn scan<'a>(content: &'a str) -> (scanner: Scanner<'a>)
    ensures
        scanner@ == scan_lines(lines_of(content@)),
{
    let all = lines(content);
    let mut scanner = Scanner::new();
    let mut at: usize = 0;
    proof {
        assert(views(all@).take(0) =~= Seq::<Seq<char>>::empty());
    }
    while at < all.len() && !scanner.finished()
        invariant
            at <= all@.len(),
            scanner@ == scan_lines(views(all@).take(at as int)),
        decreases all@.len() - at,
    {
        proof {
            let now = views(all@).take(at + 1);
            assert(now.drop_last() =~= views(all@).take(at as int));
            assert(now.last() == all@[at as int]@);
        }
        scanner.feed(all[at]);
        at += 1;
    }
    proof {
        if at < all@.len() {
            lemma_scan_stops(views(all@), at as int);
        } else {
            assert(views(all@).take(at as int) =~= views(all@));
        }
    }
    scanner
}


/// The lines without the blank ones that begin them.
pub open spec fn drop_blank_start(lines: Seq<Seq<char>>) -> Seq<Seq<char>>
    decreases lines.len(),
{
    if lines.len() > 0 && blank(lines.first()) {
        drop_blank_start(lines.drop_first())
    } else {
        lines
    }
}

/// The lines without the blank ones that end them.
pub open spec fn drop_blank_end(lines: Seq<Seq<char>>) -> Seq<Seq<char>>
    decreases lines.len(),
{
    if lines.len() > 0 && blank(lines.last()) {
        drop_blank_end(lines.drop_last())
    } else {
        lines
    }
}

/// The body of a code block: its lines without the blank ones at either end.
/// The lines that stay are kept as they are.
pub open spec fn body_of(code_lines: Seq<Seq<char>>) -> Seq<Seq<char>> {
    drop_blank_end(drop_blank_start(code_lines))
}

/// `drop_blank_start` removes exactly the blank lines before the first line
/// that is none.
pub proof fn lemma_drop_blank_start_skips(lines: Seq<Seq<char>>, k: int)
    requires
        0 <= k <= lines.len(),
        forall|j: int| 0 <= j < k ==> blank(#[trigger] lines[j]),
        k < lines.len() ==> !blank(lines[k]),
    ensures
        drop_blank_start(lines) == lines.skip(k),
    decreases k,
{
    if k == 0 {
        assert(lines.skip(0) =~= lines);
    } else {
        let rest = lines.drop_first();
        assert forall|j: int| 0 <= j < k - 1 implies blank(#[trigger] rest[j]) by {
            assert(rest[j] == lines[j + 1]);
        }
        lemma_drop_blank_start_skips(rest, k - 1);
        assert(rest.skip(k - 1) =~= lines.skip(k));
    }
}

/// `drop_blank_end` removes exactly the blank lines after the last line that
/// is none.
pub proof fn lemma_drop_blank_end_takes(lines: Seq<Seq<char>>, k: int)
    requires
        0 <= k <= lines.len(),
        forall|j: int| k <= j < lines.len() ==> blank(#[trigger] lines[j]),
        k > 0 ==> !blank(lines[k - 1]),
    ensures
        drop_blank_end(lines) == lines.take(k),
    decreases lines.len() - k,
{
    if k == lines.len() {
        assert(lines.take(k) =~= lines);
    } else {
        let rest = lines.drop_last();
        assert forall|j: int| k <= j < rest.len() implies blank(#[trigger] rest[j]) by {
            assert(rest[j] == lines[j]);
        }
        lemma_drop_blank_end_takes(rest, k);
        assert(rest.take(k) =~= lines.take(k));
    }
}

/// Lines joined are at least as long as the first of them.
pub proof fn lemma_join_holds_first(lines: Seq<Seq<char>>)
    requires
        lines.len() > 0,
    ensures
        join_lines(lines).len() >= lines.first().len(),
    decreases lines.len(),
{
    if lines.len() > 1 {
        lemma_join_holds_first(lines.drop_last());
    }
}

/// Whether the line holds nothing but whitespace.
pub fn line_is_blank(line: &str) -> (is_blank: bool)
    ensures
        is_blank == blank(line@),
{
    let chars = to_chars(line);
    let (first, last) = trim_bounds(chars.as_slice(), 0, chars.len());
    assert(chars@.subrange(0, chars@.len() as int) =~= line@);
    first == last
}

/// The lines of a code block without the blank ones at either end.
pub fn body<'a, 'b>(code_lines: &'b [&'a str]) -> (kept: &'b [&'a str])
    ensures
        views(kept@) == body_of(views(code_lines@)),
{
    let count = code_lines.len();
    let ghost all = views(code_lines@);
    let mut first: usize = 0;
    while first < count && line_is_blank(code_lines[first])
        invariant
            first <= count == code_lines@.len(),
            all == views(code_lines@),
            forall|j: int| 0 <= j < first ==> blank(#[trigger] all[j]),
        decreases count - first,
    {
        first += 1;
    }
    let mut last: usize = count;
    while last > first && line_is_blank(code_lines[last - 1])
        invariant
            first <= last <= count == code_lines@.len(),
            all == views(code_lines@),
            forall|j: int| last <= j < count ==> blank(#[trigger] all[j]),
        decreases last,
    {
        last -= 1;
    }
    let kept = slice_subrange(code_lines, first, last);
    proof {
        lemma_drop_blank_start_skips(all, first as int);
        let front = all.skip(first as int);
        assert forall|j: int| last - first <= j < front.len() implies blank(
            #[trigger] front[j],
        ) by {
            assert(front[j] == all[first + j]);
        }
        lemma_drop_blank_end_takes(front, last - first);
        assert(views(kept@) =~= front.take(last - first));
    }
    kept
}

/// Whether the character is one of the decimal digits `0` to `9`.
pub open spec fn is_digit(c: char) -> bool {
    0x30 <= c as u32 <= 0x39
}

/// The number that a sequence of decimal digits writes.
pub open spec fn decimal(digits: Seq<char>) -> nat
    decreases digits.len(),
{
    if digits.len() == 0 {
        0
    } else {
        decimal(digits.drop_last()) * 10 + (digits.last() as u32 - 0x30) as nat
    }
}

/// The digits of a number written in decimal: the text itself, or what
/// follows the one `+` that may begin it.
pub open spec fn digits_of(text: Seq<char>) -> Seq<char> {
    if text.len() > 0 && text.first() == '+' {
        text.drop_first()
    } else {
        text
    }
}

/// The count that a text writes: one or more decimal digits, after an
/// optional `+`, whose number is at most 65535. Any other text writes none.
pub open spec fn count_of(text: Seq<char>) -> Option<u16> {
    let digits = digits_of(text);
    if digits.len() > 0 && (forall|i: int| 0 <= i < digits.len() ==> is_digit(#[trigger] digits[i]))
        && decimal(digits) <= u16::MAX {
        Some(decimal(digits) as u16)
    } else {
        None
    }
}

/// A number grows with each digit written after it.
pub proof fn lemma_decimal_grows(digits: Seq<char>, read: int)
    requires
        0 <= read <= digits.len(),
        forall|i: int| 0 <= i < digits.len() ==> is_digit(#[trigger] digits[i]),
    ensures
        decimal(digits.take(read)) <= decimal(digits),
    decreases digits.len() - read,
{
    if read == digits.len() {
        assert(digits.take(read) =~= digits);
    } else {
        let front = digits.drop_last();
        assert(front.take(read) =~= digits.take(read));
        assert forall|i: int| 0 <= i < front.len() implies is_digit(#[trigger] front[i]) by {
            assert(front[i] == digits[i]);
        }
        lemma_decimal_grows(front, read);
        assert(is_digit(digits[digits.len() - 1]));
    }
}

/// Reads a count from its decimal form.
pub fn parse_count(text: &str) -> (count: Option<u16>)
    ensures
        count == count_of(text@),
{
    let chars = to_chars(text);
    let end = chars.len();
    let start: usize = if end > 0 && chars[0] == '+' {
        1
    } else {
        0
    };
    let ghost digits = digits_of(text@);
    assert(digits =~= chars@.subrange(start as int, end as int));
    if start == end {
        return None;
    }
    let mut total: u32 = 0;
    let mut at: usize = start;
    proof {
        assert(digits.take(0) =~= Seq::<char>::empty());
    }
    while at < end
        invariant
            start <= at <= end == chars@.len(),
            digits == digits_of(text@),
            digits == chars@.subrange(start as int, end as int),
            forall|i: int| 0 <= i < at - start ==> is_digit(#[trigger] digits[i]),
            total == decimal(digits.take(at - start)),
            total <= u16::MAX,
        decreases end - at,
    {
        let code: u32 = chars[at] as u32;
        assert(digits[at - start] == chars@[at as int]);
        if code < 0x30 || code > 0x39 {
            assert(!is_digit(digits[at - start]));
            return None;
        }
        proof {
            let now = digits.take(at - start + 1);
            assert(now.drop_last() =~= digits.take(at - start));
            assert(now.last() == digits[at - start]);
        }
        total = total * 10 + (code - 0x30);
        if total > 0xFFFF {
            proof {
                if forall|i: int| 0 <= i < digits.len() ==> is_digit(#[trigger] digits[i]) {
                    lemma_decimal_grows(digits, at - start + 1);
                }
            }
            return None;
        }
        at += 1;
    }
    assert(digits.take(at - start) =~= digits);
    Some(total as u16)
}


/// An instant: the whole seconds since the start of 1970 in UTC, leap seconds
/// not counted, and the nanoseconds since the last whole second.
#[derive(Debug, Clone, Copy, PartialEq, Eq, Structural)]
pub struct Timestamp {
    pub seconds: i64,
    pub nanos: u32,
}

/// The instant that a text names in the date and time format of RFC 3339, as
/// `chrono` reads it; `None` for a text that it does not accept.
pub uninterp spec fn rfc3339_instant(text: Seq<char>) -> Option<Timestamp>;

/// Reads an RFC 3339 date and time with `chrono::DateTime::parse_from_rfc3339`
/// and hands back the instant it found, as `DateTime::timestamp` and
/// `DateTime::timestamp_subsec_nanos` give it. The contract only names that
/// result: which texts are accepted, and as which instants, is `chrono`'s to
/// say and is not proved here.
#[verifier::external_body]
fn parse_rfc3339(text: &str) -> (instant: Option<Timestamp>)
    ensures
        instant == rfc3339_instant(text@),
{
    match chrono::DateTime::parse_from_rfc3339(text) {
        Ok(moment) => Some(
            Timestamp { seconds: moment.timestamp(), nanos: moment.timestamp_subsec_nanos() },
        ),
        Err(_) => None,
    }
}

/// Why a document with a code block gives no snippet.
#[derive(Debug, Clone, Copy, PartialEq, Eq, Structural)]
pub enum SnippetError {
    /// The metadata holds a text under `used` that writes no count.
    InvalidUsed,
}

/// What a snippet holds.
pub struct SnippetView {
    pub title: Seq<char>,
    pub description: Seq<char>,
    pub command: Seq<char>,
    pub path: Seq<char>,
    pub used: u16,
    pub last_used: Option<Timestamp>,
}

/// A command with its title and what its document says about it. Neither the
/// title nor the command is ever empty.
#[derive(Debug)]
pub struct Snippet {
    title: String,
    description: String,
    command: String,
    path: String,
    used: u16,
    last_used: Option<Timestamp>,
}

impl View for Snippet {
    type V = SnippetView;

    closed spec fn view(&self) -> SnippetView {
        SnippetView {
            title: self.title@,
            description: self.description@,
            command: self.command@,
            path: self.path@,
            used: self.used,
            last_used: self.last_used,
        }
    }
}

impl Snippet {
    #[verifier::type_invariant]
    spec fn well_formed(self) -> bool {
        self.title@.len() > 0 && self.command@.len() > 0
    }

    /// The title: the name of the document the snippet came from.
    pub fn title(&self) -> (title: &str)
        ensures
            title@ == self@.title,
            title@.len() > 0,
    {
        proof {
            use_type_invariant(self);
        }
        self.title.as_str()
    }

    /// The description; empty where the document gives none.
    pub fn description(&self) -> (description: &str)
        ensures
            description@ == self@.description,
    {
        self.description.as_str()
    }

    /// The command.
    pub fn command(&self) -> (command: &str)
        ensures
            command@ == self@.command,
            command@.len() > 0,
    {
        proof {
            use_type_invariant(self);
        }
        self.command.as_str()
    }

    /// Where the document came from, as the caller named it.
    pub fn path(&self) -> (path: &str)
        ensures
            path@ == self@.path,
    {
        self.path.as_str()
    }

    /// How often the snippet was used.
    pub fn used(&self) -> (used: u16)
        ensures
            used == self@.used,
    {
        self.used
    }

    /// When the snippet was last used, if the document says so.
    pub fn last_used(&self) -> (last_used: Option<Timestamp>)
        ensures
            last_used == self@.last_used,
    {
        self.last_used
    }
}

/// The title of a snippet: the name of its document without extension, or
/// `untitled` where there is no such name.
pub open spec fn title_of(stem: Option<Seq<char>>) -> Seq<char> {
    match stem {
        Some(name) => if name.len() > 0 {
            name
        } else {
            "untitled"@
        },
        None => "untitled"@,
    }
}

/// The description that the metadata gives; empty where it gives none.
pub open spec fn description_of(metadata: Map<Seq<char>, Value>) -> Seq<char> {
    match text_under(metadata, "description"@) {
        Some(text) => text,
        None => Seq::empty(),
    }
}

/// The use count that the metadata gives: 0 where it gives none, nothing
/// where the text under `used` writes no count.
pub open spec fn used_of(metadata: Map<Seq<char>, Value>) -> Option<u16> {
    match text_under(metadata, "used"@) {
        Some(text) => count_of(text),
        None => Some(0u16),
    }
}

/// The snippet made of a command, the metadata of its document and the
/// instant of its last use.
pub open spec fn snippet_of(
    path: Seq<char>,
    stem: Option<Seq<char>>,
    command: Seq<char>,
    metadata: Map<Seq<char>, Value>,
    last_used: Option<Timestamp>,
) -> Result<SnippetView, SnippetError> {
    match used_of(metadata) {
        Some(used) => Ok(
            SnippetView {
                title: title_of(stem),
                description: description_of(metadata),
                command,
                path,
                used,
                last_used,
            },
        ),
        None => Err(SnippetError::InvalidUsed),
    }
}

/// What a document gives.
///
/// A document whose first code block has no body gives no snippet. Else the
/// body, joined, is the command; the lines of the metadata block, joined and
/// read as a document of keys and values, are the metadata. Metadata that
/// cannot be read counts as none: it stands for the empty mapping.
pub open spec fn extraction(path: Seq<char>, stem: Option<Seq<char>>, content: Seq<char>) -> Result<
    Option<SnippetView>,
    SnippetError,
> {
    let found = scan_lines(lines_of(content));
    let kept = body_of(found.code_lines);
    if kept.len() == 0 {
        Ok(None)
    } else {
        let metadata = document(join_lines(found.metadata_lines));
        let last_used = match text_under(metadata, "last_used"@) {
            Some(text) => rfc3339_instant(text),
            None => None,
        };
        match snippet_of(path, stem, join_lines(kept), metadata, last_used) {
            Ok(snippet) => Ok(Some(snippet)),
            Err(error) => Err(error),
        }
    }
}

/// Makes a snippet of a command, the metadata of its document and the instant
/// of its last use. `stem` is the name of the document without extension,
/// where it has one. Fails where the metadata holds a text under `used` that
/// writes no count.
pub fn build_snippet(
    path: &str,
    stem: Option<&str>,
    command: String,
    metadata: &YamlMap,
    last_used: Option<Timestamp>,
) -> (result: Result<Snippet, SnippetError>)
    requires
        command@.len() > 0,
    ensures
        match snippet_of(
            path@,
            text_of(stem),
            command@,
            metadata@,
            last_used,
        ) {
            Ok(view) => result is Ok && result->Ok_0@ == view,
            Err(error) => result == Err::<Snippet, SnippetError>(error),
        },
{
    let used = match metadata.text("used") {
        Some(text) => match parse_count(text) {
            Some(count) => count,
            None => {
                return Err(SnippetError::InvalidUsed);
            },
        },
        None => 0,
    };
    let description = match metadata.text("description") {
        Some(text) => text.to_owned(),
        None => String::new(),
    };
    proof {
        reveal_strlit("untitled");
    }
    let title = match stem {
        Some(name) => if name.is_empty() {
            "untitled".to_owned()
        } else {
            name.to_owned()
        },
        None => "untitled".to_owned(),
    };
    Ok(Snippet { title, description, command, path: path.to_owned(), used, last_used })
}

/// Takes the snippet out of a document.
///
/// `path` names where the document came from, and `stem` is its file name
/// without extension, if it has one. The command is the body of the first
/// fenced code block; a document without one gives `Ok(None)`. Description,
/// use count and time of last use come from the metadata block between two
/// `---` lines.
pub fn extract_snippet(path: &str, stem: Option<&str>, content: &str) -> (result: Result<
    Option<Snippet>,
    SnippetError,
>)
    ensures
        match extraction(path@, text_of(stem), content@) {
            Ok(Some(view)) => result is Ok && result->Ok_0 is Some && result->Ok_0->0@ == view,
            Ok(None) => result is Ok && result->Ok_0 is None,
            Err(error) => result == Err::<Option<Snippet>, SnippetError>(error),
        },
{
    let found = scan(content);
    let kept = body(found.code_lines());
    if kept.len() == 0 {
        return Ok(None);
    }
    let command = join(kept);
    proof {
        lemma_join_holds_first(views(kept@));
        lemma_body_starts(found@.code_lines);
    }
    let metadata_text = join(found.metadata_lines());
    let metadata = match parse_yaml_from_string(metadata_text.as_str()) {
        Ok(map) => map,
        Err(_) => YamlMap::new(),
    };
    let last_used = match metadata.text("last_used") {
        Some(text) => parse_rfc3339(text),
        None => None,
    };
    match build_snippet(path, stem, command, &metadata, last_used) {
        Ok(snippet) => Ok(Some(snippet)),
        Err(error) => Err(error),
    }
}

/// A snippet always has a title and a command: a document gives one only
/// with both.
pub proof fn lemma_snippet_is_never_empty(
    path: Seq<char>,
    stem: Option<Seq<char>>,
    content: Seq<char>,
)
    ensures
        extraction(path, stem, content) matches Ok(Some(snippet)) ==> snippet.title.len() > 0
            && snippet.command.len() > 0,
{
    reveal_strlit("untitled");
    let found = scan_lines(lines_of(content));
    let kept = body_of(found.code_lines);
    if kept.len() > 0 {
        lemma_body_starts(found.code_lines);
        lemma_join_holds_first(kept);
    }
}

/// The body of a code block neither begins nor ends with a blank line.
pub proof fn lemma_body_starts(code_lines: Seq<Seq<char>>)
    ensures
        body_of(code_lines).len() > 0 ==> !blank(body_of(code_lines).first()) && !blank(
            body_of(code_lines).last(),
        ),
{
    lemma_drop_blank_start_shape(code_lines);
    lemma_drop_blank_end_shape(drop_blank_start(code_lines));
}

proof fn lemma_drop_blank_start_shape(lines: Seq<Seq<char>>)
    ensures
        drop_blank_start(lines).len() > 0 ==> !blank(drop_blank_start(lines).first()),
    decreases lines.len(),
{
    if lines.len() > 0 && blank(lines.first()) {
        lemma_drop_blank_start_shape(lines.drop_first());
    }
}

proof fn lemma_drop_blank_end_shape(lines: Seq<Seq<char>>)
    ensures
        drop_blank_end(lines).len() > 0 ==> !blank(drop_blank_end(lines).last()),
        drop_blank_end(lines).len() > 0 ==> drop_blank_end(lines).first() == lines.first(),
    decreases lines.len(),
{
    if lines.len() > 0 && blank(lines.last()) {
        lemma_drop_blank_end_shape(lines.drop_last());
    }
}

} // verus!
