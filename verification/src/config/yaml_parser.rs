//! A line-oriented reader for flat documents of `key: value` lines and
//! `key:` lines followed by `- item` lines.

use crate::slices::Indexed;
use crate::text::{
    lemma_trim_of_bare, lemma_trim_shape, lines, lines_of, same_text, text_of, trim, trim_bounds,
    views,
};
use vstd::prelude::*;
use vstd::string::*;

verus! {

/// Whether position `at` of `s` lies inside double quotes: an odd number of
/// `"` stands before it. A `"` always toggles; nothing escapes one.
pub open spec fn in_quotes(s: Seq<char>, at: int) -> bool
    decreases at,
{
    if at <= 0 {
        false
    } else {
        in_quotes(s, at - 1) != (s[at - 1] == '"')
    }
}

/// Whether `mark` stands at position `at` of `s`, outside quotes.
pub open spec fn unquoted_at(s: Seq<char>, mark: char, at: int) -> bool {
    s[at] == mark && !in_quotes(s, at)
}

/// The first position from `from` on at which `mark` stands outside quotes,
/// or `s.len()` where there is none.
pub open spec fn first_unquoted_from(s: Seq<char>, mark: char, from: int) -> int
    decreases s.len() - from,
{
    if from >= s.len() {
        s.len() as int
    } else if unquoted_at(s, mark, from) {
        from
    } else {
        first_unquoted_from(s, mark, from + 1)
    }
}

/// The first position at which `mark` stands outside quotes, or `s.len()`.
pub open spec fn first_unquoted(s: Seq<char>, mark: char) -> int {
    first_unquoted_from(s, mark, 0)
}

/// The line up to its comment, trimmed. A comment starts at the first `#`
/// outside quotes.
pub open spec fn without_comment(line: Seq<char>) -> Seq<char> {
    trim(line.take(first_unquoted(line, '#')))
}

/// Whether a pair of double quotes surrounds `s`.
pub open spec fn quoted(s: Seq<char>) -> bool {
    s.len() >= 2 && s.first() == '"' && s.last() == '"'
}

/// `s` without the one pair of double quotes that may surround it.
pub open spec fn unquoted(s: Seq<char>) -> Seq<char> {
    if quoted(s) {
        s.subrange(1, s.len() - 1)
    } else {
        s
    }
}

/// Whether `s` begins with the dash that marks a list item.
pub open spec fn dashed(s: Seq<char>) -> bool {
    s.len() > 0 && s.first() == '-'
}

/// `s` without the one dash that may begin it.
pub open spec fn undashed(s: Seq<char>) -> Seq<char> {
    if dashed(s) {
        s.drop_first()
    } else {
        s
    }
}

/// The cleaned form of a raw value: trimmed, freed of one surrounding pair of
/// quotes, then of one leading dash, and trimmed again.
pub open spec fn cleaned(value: Seq<char>) -> Seq<char> {
    trim(undashed(unquoted(trim(value))))
}

/// `Some(s)` for a text that holds something, `None` for the empty text.
pub open spec fn present(s: Seq<char>) -> Option<Seq<char>> {
    if s.len() == 0 {
        None
    } else {
        Some(s)
    }
}

/// The key and the value of a line that holds no comment. The first `:`
/// outside quotes parts the trimmed key from the raw value; a line without
/// one has no key and is a raw value as a whole. An empty cleaned value
/// counts as none.
pub open spec fn key_value(line: Seq<char>) -> (Option<Seq<char>>, Option<Seq<char>>) {
    let at = first_unquoted(line, ':');
    if at < line.len() {
        (Some(trim(line.take(at))), present(cleaned(line.skip(at + 1))))
    } else {
        (None, present(cleaned(line)))
    }
}

/// `first_unquoted_from` returns the least position from `from` on at which
/// the mark stands outside quotes.
pub proof fn lemma_first_unquoted_from(s: Seq<char>, mark: char, from: int, at: int)
    requires
        0 <= from <= at <= s.len(),
        forall|j: int| from <= j < at ==> !#[trigger] unquoted_at(s, mark, j),
        at < s.len() ==> unquoted_at(s, mark, at),
    ensures
        first_unquoted_from(s, mark, from) == at,
    decreases at - from,
{
    if from < at {
        assert(!unquoted_at(s, mark, from));
        lemma_first_unquoted_from(s, mark, from + 1, at);
    }
}

/// What `first_unquoted` returns: a position of the mark outside quotes
/// before which there is no other, or the length of the text.
pub proof fn lemma_first_unquoted(s: Seq<char>, mark: char)
    ensures
        0 <= first_unquoted(s, mark) <= s.len(),
        first_unquoted(s, mark) < s.len() ==> unquoted_at(s, mark, first_unquoted(s, mark)),
        forall|j: int| 0 <= j < first_unquoted(s, mark) ==> !#[trigger] unquoted_at(s, mark, j),
{
    lemma_first_unquoted_bounds(s, mark, 0);
}

proof fn lemma_first_unquoted_bounds(s: Seq<char>, mark: char, from: int)
    requires
        0 <= from,
    ensures
        from <= s.len() ==> from <= first_unquoted_from(s, mark, from) <= s.len(),
        first_unquoted_from(s, mark, from) < s.len() ==> unquoted_at(
            s,
            mark,
            first_unquoted_from(s, mark, from),
        ),
        forall|j: int|
            from <= j < first_unquoted_from(s, mark, from) ==> !#[trigger] unquoted_at(s, mark, j),
    decreases s.len() - from,
{
    if from < s.len() && !unquoted_at(s, mark, from) {
        lemma_first_unquoted_bounds(s, mark, from + 1);
    }
}

/// A line whose every `#` stands inside quotes is kept whole, but for the
/// whitespace around it.
pub proof fn lemma_quoted_hash_is_kept(line: Seq<char>)
    requires
        forall|j: int| 0 <= j < line.len() && line[j] == '#' ==> in_quotes(line, j),
    ensures
        without_comment(line) == trim(line),
{
    lemma_first_unquoted_from(line, '#', 0, line.len() as int);
    assert(line.take(line.len() as int) =~= line);
}

/// A cleaned value carries a further marker when quotes still surround it or
/// a dash still begins it.
pub open spec fn marked(s: Seq<char>) -> bool {
    quoted(s) || dashed(s)
}

/// Cleaning is a fixed point on every value whose cleaned form carries no
/// further marker: cleaning that form again yields the same text.
pub proof fn lemma_cleaning_is_idempotent(value: Seq<char>)
    requires
        !marked(cleaned(value)),
    ensures
        cleaned(cleaned(value)) == cleaned(value),
{
    let once = cleaned(value);
    lemma_trim_shape(undashed(unquoted(trim(value))));
    lemma_trim_of_bare(once);
}

/// Cleaning a cleaned value changes it exactly when it still carries a
/// marker: each round removes at most one pair of quotes and one dash.
pub proof fn lemma_cleaning_fixed_points(value: Seq<char>)
    ensures
        cleaned(cleaned(value)) == cleaned(value) <==> !marked(cleaned(value)),
{
    let once = cleaned(value);
    lemma_trim_shape(undashed(unquoted(trim(value))));
    lemma_trim_of_bare(once);
    if marked(once) {
        lemma_trim_shape(undashed(unquoted(once)));
        assert(undashed(unquoted(once)).len() < once.len());
    }
}

/// The first position of `chars` at which `mark` stands outside quotes, or
/// the length of `chars`.
fn find_unquoted(chars: &[char], mark: char) -> (at: usize)
    requires
        mark != '"',
    ensures
        at == first_unquoted(chars@, mark),
        at <= chars@.len(),
{
    let mut at: usize = 0;
    let mut inside = false;
    while at < chars.len()
        invariant
            at <= chars@.len(),
            mark != '"',
            inside == in_quotes(chars@, at as int),
            forall|j: int| 0 <= j < at ==> !#[trigger] unquoted_at(chars@, mark, j),
        decreases chars@.len() - at,
    {
        let c = chars[at];
        if c == '"' {
            inside = !inside;
        } else if c == mark && !inside {
            proof {
                lemma_first_unquoted_from(chars@, mark, 0, at as int);
            }
            return at;
        }
        at += 1;
    }
    proof {
        lemma_first_unquoted_from(chars@, mark, 0, at as int);
    }
    at
}

/// The bounds, within `chars[from..to]`, of the cleaned form of that part.
fn clean_bounds(chars: &[char], from: usize, to: usize) -> (bounds: (usize, usize))
    requires
        from <= to <= chars@.len(),
    ensures
        from <= bounds.0 <= bounds.1 <= to,
        chars@.subrange(bounds.0 as int, bounds.1 as int) == cleaned(
            chars@.subrange(from as int, to as int),
        ),
{
    let (mut first, mut last) = trim_bounds(chars, from, to);
    let ghost trimmed = chars@.subrange(first as int, last as int);
    if last - first >= 2 && chars[first] == '"' && chars[last - 1] == '"' {
        first += 1;
        last -= 1;
    }
    assert(chars@.subrange(first as int, last as int) =~= unquoted(trimmed));
    let ghost bared = chars@.subrange(first as int, last as int);
    if last > first && chars[first] == '-' {
        first += 1;
    }
    assert(chars@.subrange(first as int, last as int) =~= undashed(bared));
    trim_bounds(chars, first, last)
}

/// Removes the comment of a line: what follows the first `#` outside double
/// quotes, and that `#`. What is left is trimmed.
pub fn remove_yaml_comments(value: &str) -> (kept: &str)
    ensures
        kept@ == without_comment(value@),
{
    let line = Indexed::new(value);
    let end = find_unquoted(line.chars(), '#');
    let (first, last) = trim_bounds(line.chars(), 0, end);
    assert(value@.subrange(0, end as int) =~= value@.take(end as int));
    line.slice(first, last)
}

/// Cleans a raw value: trims it, removes one surrounding pair of double
/// quotes, then one leading dash, and trims again.
pub fn clear_yaml_value(value: &str) -> (clean: &str)
    ensures
        clean@ == cleaned(value@),
{
    let raw = Indexed::new(value);
    let (first, last) = clean_bounds(raw.chars(), 0, raw.len());
    assert(value@.subrange(0, value@.len() as int) =~= value@);
    raw.slice(first, last)
}

/// Parts a line that holds no comment into its key and its value.
pub fn get_key_value(value: &str) -> (pair: (Option<&str>, Option<&str>))
    ensures
        (text_of(pair.0), text_of(pair.1)) == key_value(value@),
{
    let line = Indexed::new(value);
    let chars = line.chars();
    let count = line.len();
    let at = find_unquoted(chars, ':');
    if at < count {
        let (key_first, key_last) = trim_bounds(chars, 0, at);
        let (first, last) = clean_bounds(chars, at + 1, count);
        assert(value@.subrange(0, at as int) =~= value@.take(at as int));
        assert(value@.subrange(at + 1, count as int) =~= value@.skip(at + 1));
        let key = line.slice(key_first, key_last);
        if first == last {
            (Some(key), None)
        } else {
            (Some(key), Some(line.slice(first, last)))
        }
    } else {
        let (first, last) = clean_bounds(chars, 0, count);
        assert(value@.subrange(0, count as int) =~= value@);
        if first == last {
            (None, None)
        } else {
            (None, Some(line.slice(first, last)))
        }
    }
}

/// What a key of a document stands for.
pub enum Value {
    /// A scalar.
    Text(Seq<char>),
    /// The items of a list, in the order of the document.
    List(Seq<Seq<char>>),
    /// Nothing.
    Absent,
}

/// The texts of a sequence of strings.
pub open spec fn texts(strings: Seq<String>) -> Seq<Seq<char>> {
    Seq::new(strings.len(), |i: int| strings[i]@)
}

/// Represents yaml value
#[derive(Debug)]
pub enum YamlValue {
    String(String),
    Array(Vec<String>),
    Null,
}

impl View for YamlValue {
    type V = Value;

    open spec fn view(&self) -> Value {
        match self {
            YamlValue::String(text) => Value::Text(text@),
            YamlValue::Array(items) => Value::List(texts(items@)),
            YamlValue::Null => Value::Absent,
        }
    }
}

impl YamlValue {
    /// The text of a scalar; nothing for a list and for the absent value.
    pub fn as_str(&self) -> (text: Option<&str>)
        ensures
            match self@ {
                Value::Text(t) => text_of(text) == Some(t),
                _ => text is None,
            },
    {
        match self {
            YamlValue::String(s) => Some(s.as_str()),
            _ => None,
        }
    }

    /// The items of a list; nothing for a scalar and for the absent value.
    pub fn as_vec(&self) -> (items: Option<&[String]>)
        ensures
            match self@ {
                Value::List(list) => items is Some && texts(items->0@) == list,
                _ => items is None,
            },
    {
        match self {
            YamlValue::Array(a) => Some(a.as_slice()),
            _ => None,
        }
    }
}

/// Represent errors for parsing yaml
#[derive(Debug, Clone, Copy, PartialEq, Eq, Structural)]
pub enum YamlParserError {
    FileNotFound,
    FileParseError,
}

/// Whether no two of the entries share a key.
spec fn keys_distinct(entries: Seq<(String, YamlValue)>) -> bool {
    forall|i: int, j: int|
        0 <= i < j < entries.len() ==> (#[trigger] entries[i]).0@ != (#[trigger] entries[j]).0@
}

/// Whether one of the entries has the key.
spec fn has_key(entries: Seq<(String, YamlValue)>, key: Seq<char>) -> bool {
    exists|i: int| 0 <= i < entries.len() && (#[trigger] entries[i]).0@ == key
}

/// The position of an entry that has the key.
spec fn index_of(entries: Seq<(String, YamlValue)>, key: Seq<char>) -> int {
    choose|i: int| 0 <= i < entries.len() && (#[trigger] entries[i]).0@ == key
}

/// The mapping that the entries stand for.
spec fn model(entries: Seq<(String, YamlValue)>) -> Map<Seq<char>, Value> {
    Map::new(
        |key: Seq<char>| has_key(entries, key),
        |key: Seq<char>| entries[index_of(entries, key)].1@,
    )
}

proof fn lemma_model_at(entries: Seq<(String, YamlValue)>, at: int)
    requires
        keys_distinct(entries),
        0 <= at < entries.len(),
    ensures
        model(entries).contains_key(entries[at].0@),
        model(entries)[entries[at].0@] == entries[at].1@,
        index_of(entries, entries[at].0@) == at,
{
    let key = entries[at].0@;
    assert(has_key(entries, key));
    let found = index_of(entries, key);
    if found < at {
        assert(entries[found].0@ != entries[at].0@);
    } else if at < found {
        assert(entries[at].0@ != entries[found].0@);
    }
}

proof fn lemma_model_push(entries: Seq<(String, YamlValue)>, entry: (String, YamlValue))
    requires
        keys_distinct(entries),
        !has_key(entries, entry.0@),
    ensures
        keys_distinct(entries.push(entry)),
        model(entries.push(entry)) == model(entries).insert(entry.0@, entry.1@),
{
    let grown = entries.push(entry);
    assert forall|i: int, j: int| 0 <= i < j < grown.len() implies (#[trigger] grown[i]).0@ != (
    #[trigger] grown[j]).0@ by {
        if j == entries.len() {
            assert(entries[i].0@ != entry.0@);
        } else {
            assert(entries[i].0@ != entries[j].0@);
        }
    }
    assert forall|key: Seq<char>| #[trigger]
        model(grown).contains_key(key) <==> model(entries).insert(entry.0@, entry.1@).contains_key(
            key,
        ) by {
        if has_key(grown, key) {
            let i = index_of(grown, key);
            if i < entries.len() {
                assert(entries[i].0@ == key);
            }
        }
        if has_key(entries, key) {
            let i = index_of(entries, key);
            assert(grown[i].0@ == key);
        }
        if key == entry.0@ {
            assert(grown[entries.len() as int].0@ == key);
        }
    }
    assert forall|key: Seq<char>| #[trigger] model(grown).contains_key(key) implies model(
        grown,
    )[key] == model(entries).insert(entry.0@, entry.1@)[key] by {
        let i = index_of(grown, key);
        lemma_model_at(grown, i);
        if i < entries.len() {
            lemma_model_at(entries, i);
        }
    }
    assert(model(grown) =~= model(entries).insert(entry.0@, entry.1@));
}

proof fn lemma_model_update(
    entries: Seq<(String, YamlValue)>,
    at: int,
    entry: (String, YamlValue),
)
    requires
        keys_distinct(entries),
        0 <= at < entries.len(),
        entry.0@ == entries[at].0@,
    ensures
        keys_distinct(entries.update(at, entry)),
        model(entries.update(at, entry)) == model(entries).insert(entry.0@, entry.1@),
{
    let changed = entries.update(at, entry);
    assert forall|i: int, j: int| 0 <= i < j < changed.len() implies (#[trigger] changed[i]).0@
        != (#[trigger] changed[j]).0@ by {
        assert(entries[i].0@ != entries[j].0@);
    }
    assert forall|key: Seq<char>| #[trigger]
        model(changed).contains_key(key) <==> model(entries).insert(
            entry.0@,
            entry.1@,
        ).contains_key(key) by {
        if has_key(changed, key) {
            let i = index_of(changed, key);
            assert(entries[i].0@ == key);
        }
        if has_key(entries, key) {
            let i = index_of(entries, key);
            assert(changed[i].0@ == key);
        }
        if key == entry.0@ {
            assert(changed[at].0@ == key);
        }
    }
    assert forall|key: Seq<char>| #[trigger] model(changed).contains_key(key) implies model(
        changed,
    )[key] == model(entries).insert(entry.0@, entry.1@)[key] by {
        let i = index_of(changed, key);
        lemma_model_at(changed, i);
        lemma_model_at(entries, i);
    }
    assert(model(changed) =~= model(entries).insert(entry.0@, entry.1@));
}

proof fn lemma_model_len(entries: Seq<(String, YamlValue)>)
    requires
        keys_distinct(entries),
    ensures
        model(entries).dom().finite(),
        model(entries).dom().len() == entries.len(),
    decreases entries.len(),
{
    if entries.len() == 0 {
        assert(model(entries).dom() =~= Set::<Seq<char>>::empty());
    } else {
        let front = entries.drop_last();
        let entry = entries.last();
        assert forall|i: int, j: int| 0 <= i < j < front.len() implies (#[trigger] front[i]).0@ != (
        #[trigger] front[j]).0@ by {
            assert(entries[i].0@ != entries[j].0@);
        }
        if has_key(front, entry.0@) {
            let i = index_of(front, entry.0@);
            assert(entries[i].0@ != entries[entries.len() - 1].0@);
        }
        lemma_model_len(front);
        lemma_model_push(front, entry);
        assert(front.push(entry) =~= entries);
        assert(model(entries).dom() =~= model(front).dom().insert(entry.0@));
    }
}

/// A mapping from keys to values in which no key occurs twice.
#[derive(Debug)]
pub struct YamlMap {
    entries: Vec<(String, YamlValue)>,
}

impl View for YamlMap {
    type V = Map<Seq<char>, Value>;

    closed spec fn view(&self) -> Map<Seq<char>, Value> {
        model(self.entries@)
    }
}

/// `map` with `value` under `key`, unless `map` holds the key already.
pub open spec fn with_first(map: Map<Seq<char>, Value>, key: Seq<char>, value: Value) -> Map<
    Seq<char>,
    Value,
> {
    if map.contains_key(key) {
        map
    } else {
        map.insert(key, value)
    }
}

/// `map` with `item` appended to the list under `key`; `map` itself where it
/// holds no list under that key.
pub open spec fn with_item(map: Map<Seq<char>, Value>, key: Seq<char>, item: Seq<char>) -> Map<
    Seq<char>,
    Value,
> {
    if map.contains_key(key) && map[key] is List {
        map.insert(key, Value::List(map[key]->List_0.push(item)))
    } else {
        map
    }
}

/// The text that stands under `key`; none where the key is missing or holds
/// no scalar.
pub open spec fn text_under(map: Map<Seq<char>, Value>, key: Seq<char>) -> Option<Seq<char>> {
    if map.contains_key(key) {
        match map[key] {
            Value::Text(text) => Some(text),
            _ => None,
        }
    } else {
        None
    }
}

impl YamlMap {
    #[verifier::type_invariant]
    spec fn well_formed(self) -> bool {
        keys_distinct(self.entries@)
    }

    /// The mapping without keys.
    pub fn new() -> (map: YamlMap)
        ensures
            map@ == Map::<Seq<char>, Value>::empty(),
    {
        let map = YamlMap { entries: Vec::new() };
        assert(map@ =~= Map::<Seq<char>, Value>::empty());
        map
    }

    /// The number of keys.
    pub fn len(&self) -> (count: usize)
        ensures
            self@.dom().finite(),
            count == self@.dom().len(),
    {
        proof {
            use_type_invariant(self);
            lemma_model_len(self.entries@);
        }
        self.entries.len()
    }

    /// Whether the mapping holds no key.
    pub fn is_empty(&self) -> (empty: bool)
        ensures
            empty == (self@ == Map::<Seq<char>, Value>::empty()),
    {
        proof {
            use_type_invariant(self);
            if self.entries@.len() > 0 {
                lemma_model_at(self.entries@, 0);
            } else {
                assert(self@ =~= Map::<Seq<char>, Value>::empty());
            }
        }
        self.entries.len() == 0
    }

    /// The position of the entry under `key`.
    fn position(&self, key: &str) -> (found: Option<usize>)
        ensures
            match found {
                Some(at) => at < self.entries@.len() && self.entries@[at as int].0@ == key@,
                None => !has_key(self.entries@, key@),
            },
    {
        let mut at: usize = 0;
        while at < self.entries.len()
            invariant
                at <= self.entries@.len(),
                forall|j: int| 0 <= j < at ==> (#[trigger] self.entries@[j]).0@ != key@,
            decreases self.entries@.len() - at,
        {
            if same_text(self.entries[at].0.as_str(), key) {
                return Some(at);
            }
            at += 1;
        }
        None
    }

    /// Whether the mapping holds `key`.
    pub fn contains_key(&self, key: &str) -> (held: bool)
        ensures
            held == self@.contains_key(key@),
    {
        proof {
            use_type_invariant(self);
        }
        match self.position(key) {
            Some(at) => {
                proof {
                    lemma_model_at(self.entries@, at as int);
                }
                true
            },
            None => false,
        }
    }

    /// The value under `key`.
    pub fn get(&self, key: &str) -> (value: Option<&YamlValue>)
        ensures
            match value {
                Some(v) => self@.contains_key(key@) && v@ == self@[key@],
                None => !self@.contains_key(key@),
            },
    {
        proof {
            use_type_invariant(self);
        }
        match self.position(key) {
            Some(at) => {
                proof {
                    lemma_model_at(self.entries@, at as int);
                }
                Some(&self.entries[at].1)
            },
            None => None,
        }
    }

    /// The text that stands under `key`, where a scalar stands there.
    pub fn text(&self, key: &str) -> (text: Option<&str>)
        ensures
            text_of(text) == text_under(self@, key@),
    {
        match self.get(key) {
            Some(value) => value.as_str(),
            None => None,
        }
    }

    /// Puts `value` under `key` unless the key is held already: the first
    /// assignment to a key wins.
    pub fn insert_if_absent(&mut self, key: String, value: YamlValue)
        ensures
            final(self)@ == with_first(old(self)@, key@, value@),
    {
        proof {
            use_type_invariant(&*self);
        }
        match self.position(key.as_str()) {
            Some(at) => {
                proof {
                    lemma_model_at(self.entries@, at as int);
                }
            },
            None => {
                proof {
                    lemma_model_push(self.entries@, (key, value));
                }
                let mut entries: Vec<(String, YamlValue)> = Vec::new();
                std::mem::swap(&mut entries, &mut self.entries);
                entries.push((key, value));
                self.entries = entries;
            },
        }
    }

    /// Appends `item` to the list under `key`. Where the mapping holds no
    /// list under that key, nothing changes.
    pub fn append_item(&mut self, key: &str, item: String)
        ensures
            final(self)@ == with_item(old(self)@, key@, item@),
    {
        proof {
            use_type_invariant(&*self);
        }
        if let Some(at) = self.position(key) {
            proof {
                lemma_model_at(self.entries@, at as int);
            }
            let mut entries: Vec<(String, YamlValue)> = Vec::new();
            std::mem::swap(&mut entries, &mut self.entries);
            let ghost before = entries@;
            match &mut entries[at].1 {
                YamlValue::Array(items) => {
                    items.push(item);
                },
                _ => {},
            }
            proof {
                if before[at as int].1 is Array {
                    assert(entries@ =~= before.update(at as int, entries@[at as int]));
                    lemma_model_update(before, at as int, entries@[at as int]);
                    assert(texts(entries@[at as int].1->Array_0@) =~= texts(
                        before[at as int].1->Array_0@,
                    ).push(item@));
                } else {
                    assert(entries@ =~= before);
                }
            }
            self.entries = entries;
        }
    }
}


/// What has been read of a document: the mapping so far, and the key whose
/// list the next items join.
pub struct Progress {
    pub map: Map<Seq<char>, Value>,
    pub list_key: Option<Seq<char>>,
}

/// The key and the value that a line of a document holds, its comment set
/// aside.
pub open spec fn entry_of(line: Seq<char>) -> (Option<Seq<char>>, Option<Seq<char>>) {
    key_value(without_comment(line))
}

/// The effect of one line.
///
/// - A key with a value puts the value under the key as a text.
/// - A key without a value puts an empty list under the key and makes the key
///   the one whose list the next items join.
/// - A value without a key is an item: it joins the list of the current key,
///   if there is such a list.
/// - A line with neither changes nothing.
///
/// A key that the mapping holds already keeps what it has.
pub open spec fn read_line(before: Progress, line: Seq<char>) -> Progress {
    match entry_of(line) {
        (Some(key), Some(value)) => Progress {
            map: with_first(before.map, key, Value::Text(value)),
            list_key: before.list_key,
        },
        (Some(key), None) => Progress {
            map: with_first(before.map, key, Value::List(Seq::empty())),
            list_key: Some(key),
        },
        (None, Some(item)) => match before.list_key {
            Some(key) => Progress {
                map: with_item(before.map, key, item),
                list_key: before.list_key,
            },
            None => before,
        },
        (None, None) => before,
    }
}

/// The effect of the lines, read in order from nothing.
pub open spec fn read_lines(lines: Seq<Seq<char>>) -> Progress
    decreases lines.len(),
{
    if lines.len() == 0 {
        Progress { map: Map::empty(), list_key: None }
    } else {
        read_line(read_lines(lines.drop_last()), lines.last())
    }
}

/// The mapping that a document stands for.
pub open spec fn document(text: Seq<char>) -> Map<Seq<char>, Value> {
    read_lines(lines_of(text)).map
}

/// Whether some line of the lines holds a key.
pub open spec fn holds_key(lines: Seq<Seq<char>>) -> bool {
    exists|i: int| 0 <= i < lines.len() && (#[trigger] entry_of(lines[i])).0 is Some
}

/// A key enters the mapping only through a line that holds it.
pub proof fn lemma_keys_come_from_lines(lines: Seq<Seq<char>>, key: Seq<char>)
    requires
        forall|i: int| 0 <= i < lines.len() ==> (#[trigger] entry_of(lines[i])).0 != Some(key),
    ensures
        !read_lines(lines).map.contains_key(key),
    decreases lines.len(),
{
    if lines.len() > 0 {
        let front = lines.drop_last();
        assert forall|i: int| 0 <= i < front.len() implies (#[trigger] entry_of(front[i])).0
            != Some(key) by {
            assert(front[i] == lines[i]);
        }
        lemma_keys_come_from_lines(front, key);
        assert(entry_of(lines[lines.len() - 1]).0 != Some(key));
    }
}

/// The key of every line is a key of the mapping.
pub proof fn lemma_lines_give_keys(lines: Seq<Seq<char>>, at: int)
    requires
        0 <= at < lines.len(),
        entry_of(lines[at]).0 is Some,
    ensures
        read_lines(lines).map.contains_key(entry_of(lines[at]).0->0),
    decreases lines.len(),
{
    let front = lines.drop_last();
    if at < lines.len() - 1 {
        assert(front[at] == lines[at]);
        lemma_lines_give_keys(front, at);
    }
}

/// What stands under a key after some of the lines stays there: a text as it
/// is, a list as a list.
pub proof fn lemma_first_value_stays(lines: Seq<Seq<char>>, read: int, key: Seq<char>)
    requires
        0 <= read <= lines.len(),
        read_lines(lines.take(read)).map.contains_key(key),
    ensures
        read_lines(lines).map.contains_key(key),
        read_lines(lines.take(read)).map[key] is Text ==> read_lines(lines).map[key] == read_lines(
            lines.take(read),
        ).map[key],
        read_lines(lines.take(read)).map[key] is List ==> read_lines(lines).map[key] is List,
        read_lines(lines.take(read)).map[key] is Absent ==> read_lines(lines).map[key] is Absent,
    decreases lines.len() - read,
{
    if read == lines.len() {
        assert(lines.take(read) =~= lines);
    } else {
        let front = lines.drop_last();
        assert(front.take(read) =~= lines.take(read));
        lemma_first_value_stays(front, read, key);
    }
}

/// Where a key occurs more than once, the first line that holds it decides:
/// its value stands under the key, whatever later lines give.
pub proof fn lemma_first_occurrence_wins(
    text: Seq<char>,
    first: int,
    key: Seq<char>,
    value: Seq<char>,
)
    requires
        0 <= first < lines_of(text).len(),
        entry_of(lines_of(text)[first]) == (Some(key), Some(value)),
        forall|i: int| 0 <= i < first ==> (#[trigger] entry_of(lines_of(text)[i])).0 != Some(key),
    ensures
        document(text).contains_key(key),
        document(text)[key] == Value::Text(value),
{
    let lines = lines_of(text);
    let before = lines.take(first);
    assert forall|i: int| 0 <= i < before.len() implies (#[trigger] entry_of(before[i])).0 != Some(
        key,
    ) by {
        assert(before[i] == lines[i]);
    }
    lemma_keys_come_from_lines(before, key);
    let with = lines.take(first + 1);
    assert(with.drop_last() =~= before);
    assert(with.last() == lines[first]);
    lemma_first_value_stays(lines, first + 1, key);
}

/// Where the first line that holds a key gives it no value, a list stands
/// under the key, whatever later lines give.
pub proof fn lemma_first_occurrence_opens_list(text: Seq<char>, first: int, key: Seq<char>)
    requires
        0 <= first < lines_of(text).len(),
        entry_of(lines_of(text)[first]) == (Some(key), None::<Seq<char>>),
        forall|i: int| 0 <= i < first ==> (#[trigger] entry_of(lines_of(text)[i])).0 != Some(key),
    ensures
        document(text).contains_key(key),
        document(text)[key] is List,
{
    let lines = lines_of(text);
    let before = lines.take(first);
    assert forall|i: int| 0 <= i < before.len() implies (#[trigger] entry_of(before[i])).0 != Some(
        key,
    ) by {
        assert(before[i] == lines[i]);
    }
    lemma_keys_come_from_lines(before, key);
    let with = lines.take(first + 1);
    assert(with.drop_last() =~= before);
    assert(with.last() == lines[first]);
    lemma_first_value_stays(lines, first + 1, key);
}

/// A line that holds a key without a value, followed by lines that each hold
/// an item and nothing else, gives that key alone, with the list of the items
/// in the order of the lines.
pub proof fn lemma_items_accumulate(
    text: Seq<char>,
    key: Seq<char>,
    items: Seq<Seq<char>>,
)
    requires
        lines_of(text).len() == 1 + items.len(),
        entry_of(lines_of(text)[0]) == (Some(key), None::<Seq<char>>),
        forall|i: int|
            0 <= i < items.len() ==> #[trigger] entry_of(lines_of(text)[i + 1]) == (
                None::<Seq<char>>,
                Some(#[trigger] items[i]),
            ),
    ensures
        document(text) == Map::<Seq<char>, Value>::empty().insert(key, Value::List(items)),
{
    lemma_items_accumulate_to(lines_of(text), key, items, items.len() as int);
    assert(lines_of(text).take(1 + items.len() as int) =~= lines_of(text));
    assert(items.take(items.len() as int) =~= items);
}

proof fn lemma_items_accumulate_to(
    lines: Seq<Seq<char>>,
    key: Seq<char>,
    items: Seq<Seq<char>>,
    read: int,
)
    requires
        lines.len() == 1 + items.len(),
        0 <= read <= items.len(),
        entry_of(lines[0]) == (Some(key), None::<Seq<char>>),
        forall|i: int|
            0 <= i < items.len() ==> #[trigger] entry_of(lines[i + 1]) == (
                None::<Seq<char>>,
                Some(#[trigger] items[i]),
            ),
    ensures
        read_lines(lines.take(1 + read)) == (Progress {
            map: Map::<Seq<char>, Value>::empty().insert(key, Value::List(items.take(read))),
            list_key: Some(key),
        }),
    decreases read,
{
    let now = lines.take(1 + read);
    let target = Map::<Seq<char>, Value>::empty().insert(key, Value::List(items.take(read)));
    if read == 0 {
        let nothing = Seq::<Seq<char>>::empty();
        assert(now.drop_last() =~= nothing);
        assert(now.last() == lines[0]);
        assert(items.take(0) =~= nothing);
        assert(read_lines(nothing).map =~= Map::<Seq<char>, Value>::empty());
        assert(read_lines(now) == read_line(read_lines(nothing), lines[0]));
        assert(read_lines(now).map =~= target);
    } else {
        lemma_items_accumulate_to(lines, key, items, read - 1);
        assert(now.drop_last() =~= lines.take(read));
        assert(now.last() == lines[read]);
        assert(entry_of(lines[(read - 1) + 1]) == (None::<Seq<char>>, Some(items[read - 1])));
        assert(items.take(read - 1).push(items[read - 1]) =~= items.take(read));
        let before = Map::<Seq<char>, Value>::empty().insert(
            key,
            Value::List(items.take(read - 1)),
        );
        assert(read_lines(now) == read_line(read_lines(lines.take(read)), lines[read]));
        assert(with_item(before, key, items[read - 1]) =~= target);
        assert(read_lines(now).map =~= target);
    }
}

/// Reading lines never leaves the absent value under a key: a key without a
/// value holds a list, be it an empty one.
pub proof fn lemma_nothing_absent(lines: Seq<Seq<char>>, key: Seq<char>)
    requires
        read_lines(lines).map.contains_key(key),
    ensures
        !(read_lines(lines).map[key] is Absent),
    decreases lines.len(),
{
    if lines.len() > 0 {
        let front = lines.drop_last();
        if read_lines(front).map.contains_key(key) {
            lemma_nothing_absent(front, key);
        }
    }
}

/// A document stands for the empty mapping exactly when none of its lines
/// holds a key.
pub proof fn lemma_empty_without_keys(text: Seq<char>)
    ensures
        document(text) == Map::<Seq<char>, Value>::empty() <==> !holds_key(lines_of(text)),
{
    let lines = lines_of(text);
    if holds_key(lines) {
        let at = choose|i: int| 0 <= i < lines.len() && (#[trigger] entry_of(lines[i])).0 is Some;
        lemma_lines_give_keys(lines, at);
    } else {
        assert forall|key: Seq<char>| !document(text).contains_key(key) by {
            assert forall|i: int| 0 <= i < lines.len() implies (#[trigger] entry_of(lines[i])).0
                != Some(key) by {}
            lemma_keys_come_from_lines(lines, key);
        }
        assert(document(text) =~= Map::<Seq<char>, Value>::empty());
    }
}

/// Parse yaml from string
///
/// Reads the document line by line and returns the mapping that it stands
/// for. A document that gives no key at all is refused.
pub fn parse_yaml_from_string(yaml_content: &str) -> (result: Result<YamlMap, YamlParserError>)
    ensures
        result is Err <==> document(yaml_content@) == Map::<Seq<char>, Value>::empty(),
        result is Err <==> !holds_key(lines_of(yaml_content@)),
        match result {
            Ok(map) => map@ == document(yaml_content@),
            Err(error) => error == YamlParserError::FileParseError,
        },
{
    let all = lines(yaml_content);
    let mut result = YamlMap::new();
    let mut multiline_key: Option<&str> = None;
    let mut at: usize = 0;
    proof {
        assert(views(all@).take(0) =~= Seq::<Seq<char>>::empty());
    }
    while at < all.len()
        invariant
            at <= all@.len(),
            result@ == read_lines(views(all@).take(at as int)).map,
            text_of(multiline_key) == read_lines(views(all@).take(at as int)).list_key,
        decreases all@.len() - at,
    {
        proof {
            let now = views(all@).take(at + 1);
            assert(now.drop_last() =~= views(all@).take(at as int));
            assert(now.last() == all@[at as int]@);
        }
        let line = remove_yaml_comments(all[at]);
        let (key, value) = get_key_value(line);
        match (key, value) {
            // key: value
            (Some(k), Some(v)) => {
                result.insert_if_absent(k.to_owned(), YamlValue::String(v.to_owned()));
            },
            // key:
            (Some(k), None) => {
                let list: Vec<String> = Vec::new();
                assert(texts(list@) =~= Seq::<Seq<char>>::empty());
                result.insert_if_absent(k.to_owned(), YamlValue::Array(list));
                multiline_key = Some(k);
            },
            // - value
            (None, Some(v)) => {
                if let Some(ml_key) = multiline_key {
                    result.append_item(ml_key, v.to_owned());
                }
            },
            // empty line or not match
            (None, None) => {},
        }
        at += 1;
    }
    proof {
        assert(views(all@).take(at as int) =~= lines_of(yaml_content@));
        lemma_empty_without_keys(yaml_content@);
    }
    if result.is_empty() {
        Err(YamlParserError::FileParseError)
    } else {
        Ok(result)
    }
}

} // verus!
