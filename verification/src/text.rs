//! Character-level text primitives: whitespace, trimming, line splitting and
//! joining. Every text is modelled by its sequence of characters.

use crate::slices::Indexed;
use vstd::prelude::*;
use vstd::string::*;

verus! {

/// The characters that carry the Unicode `White_Space` property.
pub open spec fn whitespace(c: char) -> bool {
    let code = c as u32;
    ||| 0x09 <= code <= 0x0D
    ||| code == 0x20
    ||| code == 0x85
    ||| code == 0xA0
    ||| code == 0x1680
    ||| 0x2000 <= code <= 0x200A
    ||| code == 0x2028
    ||| code == 0x2029
    ||| code == 0x202F
    ||| code == 0x205F
    ||| code == 0x3000
}

/// `s` without its leading whitespace.
pub open spec fn trim_start(s: Seq<char>) -> Seq<char>
    decreases s.len(),
{
    if s.len() > 0 && whitespace(s.first()) {
        trim_start(s.drop_first())
    } else {
        s
    }
}

/// `s` without its trailing whitespace.
pub open spec fn trim_end(s: Seq<char>) -> Seq<char>
    decreases s.len(),
{
    if s.len() > 0 && whitespace(s.last()) {
        trim_end(s.drop_last())
    } else {
        s
    }
}

/// `s` without its leading and trailing whitespace.
pub open spec fn trim(s: Seq<char>) -> Seq<char> {
    trim_end(trim_start(s))
}

/// A text is bare when whitespace neither begins nor ends it.
pub open spec fn bare(s: Seq<char>) -> bool {
    s.len() > 0 ==> !whitespace(s.first()) && !whitespace(s.last())
}

/// A line is blank when it holds nothing but whitespace.
pub open spec fn blank(s: Seq<char>) -> bool {
    trim(s).len() == 0
}

/// Index of the first line feed of `s`, or `s.len()` where it holds none.
pub open spec fn first_line_feed(s: Seq<char>) -> nat
    decreases s.len(),
{
    if s.len() == 0 || s.first() == '\n' {
        0
    } else {
        1 + first_line_feed(s.drop_first())
    }
}

/// `line` without the carriage return that may end it.
pub open spec fn without_carriage_return(line: Seq<char>) -> Seq<char> {
    if line.len() > 0 && line.last() == '\r' {
        line.drop_last()
    } else {
        line
    }
}

/// The lines of `s`. A line ends at a line feed, or at a carriage return
/// directly followed by one; neither belongs to the line. The last line needs
/// no line ending, and a text that ends in one has no empty line after it.
pub open spec fn lines_of(s: Seq<char>) -> Seq<Seq<char>>
    decreases s.len(),
{
    if s.len() == 0 {
        Seq::empty()
    } else {
        let end = first_line_feed(s);
        if end >= s.len() {
            seq![s]
        } else {
            seq![without_carriage_return(s.take(end as int))] + lines_of(s.skip(end as int + 1))
        }
    }
}

/// The lines joined by single line feeds.
pub open spec fn join_lines(lines: Seq<Seq<char>>) -> Seq<char>
    decreases lines.len(),
{
    if lines.len() == 0 {
        Seq::empty()
    } else if lines.len() == 1 {
        lines[0]
    } else {
        join_lines(lines.drop_last()) + seq!['\n'] + lines.last()
    }
}

/// The character sequences of a sequence of string slices.
pub open spec fn views(slices: Seq<&str>) -> Seq<Seq<char>> {
    Seq::new(slices.len(), |i: int| slices[i]@)
}

/// The text that an optional string slice holds.
pub open spec fn text_of(slice: Option<&str>) -> Option<Seq<char>> {
    match slice {
        Some(s) => Some(s@),
        None => None,
    }
}

/// The text that an optional string holds.
pub open spec fn string_of(string: Option<String>) -> Option<Seq<char>> {
    match string {
        Some(s) => Some(s@),
        None => None,
    }
}

/// `trim_start` removes exactly the whitespace before the first character
/// that is none.
pub proof fn lemma_trim_start_skips(s: Seq<char>, k: int)
    requires
        0 <= k <= s.len(),
        forall|j: int| 0 <= j < k ==> whitespace(#[trigger] s[j]),
        k < s.len() ==> !whitespace(s[k]),
    ensures
        trim_start(s) == s.skip(k),
    decreases k,
{
    if k == 0 {
        assert(s.skip(0) =~= s);
    } else {
        let rest = s.drop_first();
        assert forall|j: int| 0 <= j < k - 1 implies whitespace(#[trigger] rest[j]) by {
            assert(rest[j] == s[j + 1]);
        }
        lemma_trim_start_skips(rest, k - 1);
        assert(rest.skip(k - 1) =~= s.skip(k));
    }
}

/// `trim_end` removes exactly the whitespace after the last character that
/// is none.
pub proof fn lemma_trim_end_takes(s: Seq<char>, k: int)
    requires
        0 <= k <= s.len(),
        forall|j: int| k <= j < s.len() ==> whitespace(#[trigger] s[j]),
        k > 0 ==> !whitespace(s[k - 1]),
    ensures
        trim_end(s) == s.take(k),
    decreases s.len() - k,
{
    if k == s.len() {
        assert(s.take(k) =~= s);
    } else {
        let rest = s.drop_last();
        assert forall|j: int| k <= j < rest.len() implies whitespace(#[trigger] rest[j]) by {
            assert(rest[j] == s[j]);
        }
        lemma_trim_end_takes(rest, k);
        assert(rest.take(k) =~= s.take(k));
    }
}

/// What `trim_start` returns begins with no whitespace, ends as `s` does and
/// is a suffix of `s`.
pub proof fn lemma_trim_start_shape(s: Seq<char>)
    ensures
        trim_start(s).len() <= s.len(),
        trim_start(s) == s.skip(s.len() - trim_start(s).len()),
        trim_start(s).len() > 0 ==> !whitespace(trim_start(s).first()),
        forall|j: int| 0 <= j < s.len() - trim_start(s).len() ==> whitespace(#[trigger] s[j]),
    decreases s.len(),
{
    if s.len() > 0 && whitespace(s.first()) {
        let rest = s.drop_first();
        lemma_trim_start_shape(rest);
        let k = rest.len() - trim_start(rest).len();
        assert(rest.skip(k) =~= s.skip(k + 1));
        assert forall|j: int| 0 <= j < k + 1 implies whitespace(#[trigger] s[j]) by {
            if j > 0 {
                assert(s[j] == rest[j - 1]);
            }
        }
    } else {
        assert(s.skip(0) =~= s);
    }
}

/// What `trim_end` returns ends with no whitespace and is a prefix of `s`.
pub proof fn lemma_trim_end_shape(s: Seq<char>)
    ensures
        trim_end(s).len() <= s.len(),
        trim_end(s) == s.take(trim_end(s).len() as int),
        trim_end(s).len() > 0 ==> !whitespace(trim_end(s).last()),
        forall|j: int| trim_end(s).len() <= j < s.len() ==> whitespace(#[trigger] s[j]),
    decreases s.len(),
{
    if s.len() > 0 && whitespace(s.last()) {
        let rest = s.drop_last();
        lemma_trim_end_shape(rest);
        let k = trim_end(rest).len() as int;
        assert(rest.take(k) =~= s.take(k));
        assert forall|j: int| k <= j < s.len() implies whitespace(#[trigger] s[j]) by {
            if j < rest.len() {
                assert(s[j] == rest[j]);
            }
        }
    } else {
        assert(s.take(s.len() as int) =~= s);
    }
}

/// A trimmed text is bare and is a contiguous part of the text it came from.
pub proof fn lemma_trim_shape(s: Seq<char>)
    ensures
        bare(trim(s)),
        trim(s).len() <= s.len(),
        exists|from: int|
            0 <= from <= from + trim(s).len() <= s.len() && trim(s) == #[trigger] s.subrange(
                from,
                from + trim(s).len(),
            ),
{
    let front = trim_start(s);
    lemma_trim_start_shape(s);
    lemma_trim_end_shape(front);
    let from = s.len() - front.len();
    let kept = trim(s).len() as int;
    assert(front.take(kept) =~= s.subrange(from, from + kept));
    if kept > 0 {
        assert(trim(s).first() == front.first());
    }
}

/// Trimming leaves a bare text as it is.
pub proof fn lemma_trim_of_bare(s: Seq<char>)
    requires
        bare(s),
    ensures
        trim(s) == s,
{
}

/// Trimming twice is trimming once.
pub proof fn lemma_trim_idempotent(s: Seq<char>)
    ensures
        trim(trim(s)) == trim(s),
{
    lemma_trim_shape(s);
    lemma_trim_of_bare(trim(s));
}

/// `first_line_feed` finds the first line feed, or the end of the text.
pub proof fn lemma_first_line_feed(s: Seq<char>, k: int)
    requires
        0 <= k <= s.len(),
        forall|j: int| 0 <= j < k ==> #[trigger] s[j] != '\n',
        k < s.len() ==> s[k] == '\n',
    ensures
        first_line_feed(s) == k,
    decreases k,
{
    if k > 0 {
        let rest = s.drop_first();
        assert forall|j: int| 0 <= j < k - 1 implies #[trigger] rest[j] != '\n' by {
            assert(rest[j] == s[j + 1]);
        }
        lemma_first_line_feed(rest, k - 1);
    }
}

/// Whether `c` is whitespace.
pub fn is_whitespace(c: char) -> (b: bool)
    ensures
        b == whitespace(c),
{
    let code: u32 = c as u32;
    (0x09 <= code && code <= 0x0D) || code == 0x20 || code == 0x85 || code == 0xA0 || code
        == 0x1680 || (0x2000 <= code && code <= 0x200A) || code == 0x2028 || code == 0x2029 || code
        == 0x202F || code == 0x205F || code == 0x3000
}

/// The characters of `text`, in order.
pub fn to_chars(text: &str) -> (chars: Vec<char>)
    ensures
        chars@ == text@,
{
    broadcast use vstd::string::group_string_axioms;

    let mut chars: Vec<char> = Vec::new();
    let source = text.chars();
    for c in it: source
        invariant
            chars@ == text@.take(it.index() as int),
            it.seq() == text@,
    {
        chars.push(c);
    }
    chars
}

/// The bounds, within `chars[from..to]`, of what trimming that part leaves.
pub fn trim_bounds(chars: &[char], from: usize, to: usize) -> (bounds: (usize, usize))
    requires
        from <= to <= chars@.len(),
    ensures
        from <= bounds.0 <= bounds.1 <= to,
        chars@.subrange(bounds.0 as int, bounds.1 as int) == trim(
            chars@.subrange(from as int, to as int),
        ),
{
    let ghost part = chars@.subrange(from as int, to as int);
    let mut first: usize = from;
    while first < to && is_whitespace(chars[first])
        invariant
            from <= first <= to <= chars@.len(),
            forall|j: int| from <= j < first ==> whitespace(#[trigger] chars@[j]),
        decreases to - first,
    {
        first += 1;
    }
    let mut last: usize = to;
    while last > first && is_whitespace(chars[last - 1])
        invariant
            first <= last <= to <= chars@.len(),
            forall|j: int| last <= j < to ==> whitespace(#[trigger] chars@[j]),
        decreases last,
    {
        last -= 1;
    }
    proof {
        assert forall|j: int| 0 <= j < first - from implies whitespace(#[trigger] part[j]) by {
            assert(part[j] == chars@[from + j]);
        }
        lemma_trim_start_skips(part, first - from);
        let front = part.skip(first - from);
        assert forall|j: int| last - first <= j < front.len() implies whitespace(
            #[trigger] front[j],
        ) by {
            assert(front[j] == chars@[first + j]);
        }
        lemma_trim_end_takes(front, last - first);
        assert(front.take(last - first) =~= chars@.subrange(first as int, last as int));
    }
    (first, last)
}

/// `text` without its leading and trailing whitespace.
pub fn trim_str(text: &str) -> (trimmed: &str)
    ensures
        trimmed@ == trim(text@),
{
    let indexed = Indexed::new(text);
    let (first, last) = trim_bounds(indexed.chars(), 0, indexed.len());
    assert(text@.subrange(0, text@.len() as int) =~= text@);
    indexed.slice(first, last)
}

/// Whether the two texts hold the same characters.
pub fn same_chars(left: &[char], right: &[char]) -> (same: bool)
    ensures
        same == (left@ == right@),
{
    if left.len() != right.len() {
        return false;
    }
    let mut i: usize = 0;
    while i < left.len()
        invariant
            i <= left@.len() == right@.len(),
            left@.take(i as int) == right@.take(i as int),
        decreases left@.len() - i,
    {
        if left[i] != right[i] {
            return false;
        }
        assert(left@.take(i + 1) =~= left@.take(i as int).push(left@[i as int]));
        assert(right@.take(i + 1) =~= right@.take(i as int).push(right@[i as int]));
        i += 1;
    }
    assert(left@ =~= left@.take(i as int));
    assert(right@ =~= right@.take(i as int));
    true
}

/// Whether the two string slices hold the same text.
pub fn same_text(left: &str, right: &str) -> (same: bool)
    ensures
        same == (left@ == right@),
{
    let left_chars = to_chars(left);
    let right_chars = to_chars(right);
    same_chars(left_chars.as_slice(), right_chars.as_slice())
}

/// The lines of `text`, each a slice of it.
pub fn lines<'a>(text: &'a str) -> (found: Vec<&'a str>)
    ensures
        views(found@) == lines_of(text@),
{
    let indexed = Indexed::new(text);
    let chars = indexed.chars();
    let count = chars.len();
    let mut found: Vec<&'a str> = Vec::new();
    let mut start: usize = 0;
    let mut at: usize = 0;
    proof {
        assert(text@.skip(0) =~= text@);
        assert(views(found@) =~= Seq::<Seq<char>>::empty());
        assert(Seq::<Seq<char>>::empty() + lines_of(text@) =~= lines_of(text@));
    }
    while at < count
        invariant
            chars@ == text@,
            indexed@ == text@,
            count == chars@.len(),
            start <= at <= count,
            forall|j: int| start <= j < at ==> #[trigger] chars@[j] != '\n',
            views(found@) + lines_of(text@.skip(start as int)) == lines_of(text@),
        decreases count - at,
    {
        if chars[at] == '\n' {
            let end = if at > start && chars[at - 1] == '\r' {
                at - 1
            } else {
                at
            };
            let line = indexed.slice(start, end);
            proof {
                let rest = text@.skip(start as int);
                assert forall|j: int| 0 <= j < at - start implies #[trigger] rest[j] != '\n' by {
                    assert(rest[j] == chars@[start + j]);
                }
                lemma_first_line_feed(rest, at - start);
                assert(rest.take(at - start) =~= text@.subrange(start as int, at as int));
                assert(without_carriage_return(rest.take(at - start)) =~= line@);
                assert(rest.skip(at - start + 1) =~= text@.skip(at + 1));
                assert(views(found@.push(line)) =~= views(found@) + seq![line@]);
            }
            found.push(line);
            start = at + 1;
        }
        at += 1;
    }
    if start < count {
        let line = indexed.slice(start, count);
        proof {
            let rest = text@.skip(start as int);
            assert forall|j: int| 0 <= j < count - start implies #[trigger] rest[j] != '\n' by {
                assert(rest[j] == chars@[start + j]);
            }
            lemma_first_line_feed(rest, count - start);
            assert(rest =~= line@);
            assert(views(found@.push(line)) =~= views(found@) + seq![line@]);
        }
        found.push(line);
    } else {
        proof {
            assert(views(found@) + Seq::<Seq<char>>::empty() =~= views(found@));
        }
    }
    found
}

/// The lines joined by single line feeds.
pub fn join(lines: &[&str]) -> (joined: String)
    ensures
        joined@ == join_lines(views(lines@)),
{
    let mut joined = String::new();
    let mut i: usize = 0;
    while i < lines.len()
        invariant
            i <= lines@.len(),
            joined@ == join_lines(views(lines@).take(i as int)),
        decreases lines@.len() - i,
    {
        proof {
            reveal_strlit("\n");
            let before = views(lines@).take(i as int);
            let after = views(lines@).take(i + 1);
            assert(after.drop_last() =~= before);
            assert(after.last() == lines@[i as int]@);
            assert("\n"@ =~= seq!['\n']);
        }
        if i > 0 {
            joined.append("\n");
        }
        joined.append(lines[i]);
        proof {
            if i == 0 {
                assert(Seq::<char>::empty() + lines@[0]@ =~= lines@[0]@);
            }
        }
        i += 1;
    }
    assert(views(lines@).take(i as int) =~= views(lines@));
    joined
}

} // verus!
