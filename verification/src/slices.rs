//! Access to the characters and the parts of a string slice by character
//! position, each in constant time once the slice has been read through.

use vstd::prelude::*;
use vstd::string::*;
use vstd::utf8::*;

verus! {

/// The number of bytes that the first `count` characters of `text` take in
/// UTF-8.
pub open spec fn offset_of(text: Seq<char>, count: int) -> nat {
    encode_utf8(text.take(count)).len()
}

/// What two texts take in UTF-8 when one follows the other is what the first
/// takes, followed by what the second takes.
pub proof fn lemma_encoding_of_parts(left: Seq<char>, right: Seq<char>)
    ensures
        encode_utf8(left + right) == encode_utf8(left) + encode_utf8(right),
    decreases left.len(),
{
    if left.len() == 0 {
        assert(left + right =~= right);
        assert(encode_utf8(left) + encode_utf8(right) =~= encode_utf8(right));
    } else {
        lemma_encoding_of_parts(left.drop_first(), right);
        assert((left + right).drop_first() =~= left.drop_first() + right);
        assert(encode_utf8(left + right) =~= encode_utf8(left) + encode_utf8(right));
    }
}

/// A single character takes between one and four bytes, by the range of its
/// code.
pub proof fn lemma_encoding_of_char(c: char)
    ensures
        encode_utf8(seq![c]) == encode_scalar(c as u32),
        encode_scalar(c as u32).len() == if c as u32 <= 0x7F {
            1nat
        } else if c as u32 <= 0x7FF {
            2nat
        } else if c as u32 <= 0xFFFF {
            3nat
        } else {
            4nat
        },
{
    char_is_scalar(c);
    let nothing = Seq::<char>::empty();
    assert(seq![c].drop_first() =~= nothing);
    assert(encode_utf8(nothing) =~= Seq::<u8>::empty());
    assert(seq![c][0] == c);
    assert(encode_utf8(seq![c]) =~= encode_scalar(c as u32) + encode_utf8(nothing));
    assert(encode_utf8(seq![c]) =~= encode_scalar(c as u32));
}

/// The bytes of a part of a text lie between the offsets of its ends.
pub proof fn lemma_encoding_of_subrange(text: Seq<char>, from: int, to: int)
    requires
        0 <= from <= to <= text.len(),
    ensures
        offset_of(text, from) <= offset_of(text, to) <= encode_utf8(text).len(),
        encode_utf8(text).subrange(offset_of(text, from) as int, offset_of(text, to) as int)
            == encode_utf8(text.subrange(from, to)),
{
    let head = text.take(from);
    let part = text.subrange(from, to);
    let tail = text.skip(to);
    assert(text.take(to) =~= head + part);
    assert(text =~= text.take(to) + tail);
    lemma_encoding_of_parts(head, part);
    lemma_encoding_of_parts(text.take(to), tail);
    assert(encode_utf8(text).subrange(offset_of(text, from) as int, offset_of(text, to) as int)
        =~= encode_utf8(part));
}

/// The offset of every character position is a character boundary of the
/// bytes of the text.
pub proof fn lemma_offset_is_boundary(text: Seq<char>, count: int)
    requires
        0 <= count <= text.len(),
    ensures
        is_char_boundary(encode_utf8(text), offset_of(text, count) as int),
    decreases count,
{
    let bytes = encode_utf8(text);
    encode_utf8_valid_utf8(text);
    if count == 0 {
        assert(text.take(0) =~= Seq::<char>::empty());
    } else {
        let rest = text.drop_first();
        encode_utf8_first_scalar(text);
        assert(pop_first_scalar(bytes) =~= encode_utf8(rest));
        lemma_offset_is_boundary(rest, count - 1);
        assert(text.take(count).drop_first() =~= rest.take(count - 1));
        lemma_encoding_of_char(text[0]);
        lemma_encoding_of_subrange(text, 0, count);
        assert(offset_of(text, count) == encode_scalar(text[0] as u32).len() + offset_of(
            rest,
            count - 1,
        ));
    }
}

/// A string slice is known by its bytes.
pub proof fn lemma_text_of_bytes(slice: &str, text: Seq<char>)
    requires
        slice.spec_bytes() == encode_utf8(text),
    ensures
        slice@ == text,
{
    encode_utf8_decode_utf8(slice@);
    encode_utf8_decode_utf8(text);
}

/// A string slice read through once: its characters, and for each character
/// position the byte at which it starts.
pub struct Indexed<'a> {
    source: &'a str,
    chars: Vec<char>,
    offsets: Vec<usize>,
}

impl<'a> View for Indexed<'a> {
    type V = Seq<char>;

    closed spec fn view(&self) -> Seq<char> {
        self.source@
    }
}

impl<'a> Indexed<'a> {
    #[verifier::type_invariant]
    spec fn well_formed(self) -> bool {
        &&& self.chars@ == self.source@
        &&& self.offsets@.len() == self.chars@.len() + 1
        &&& forall|k: int|
            0 <= k <= self.chars@.len() ==> #[trigger] self.offsets@[k] == offset_of(
                self.source@,
                k,
            )
    }

    /// Reads through `source`.
    pub fn new(source: &'a str) -> (indexed: Indexed<'a>)
        ensures
            indexed@ == source@,
    {
        broadcast use vstd::string::group_string_axioms;

        let size = source.as_bytes().len();
        let mut chars: Vec<char> = Vec::new();
        let mut offsets: Vec<usize> = Vec::new();
        let mut total: usize = 0;
        let walk = source.chars();
        proof {
            assert(source@.take(0) =~= Seq::<char>::empty());
        }
        for c in it: walk
            invariant
                it.seq() == source@,
                size == encode_utf8(source@).len(),
                chars@ == source@.take(it.index() as int),
                offsets@.len() == it.index(),
                total == offset_of(source@, it.index() as int),
                forall|k: int|
                    0 <= k < it.index() ==> #[trigger] offsets@[k] == offset_of(source@, k),
        {
            let ghost at = it.index() as int;
            proof {
                lemma_encoding_of_char(c);
                lemma_encoding_of_parts(source@.take(at), seq![c]);
                assert(source@.take(at + 1) =~= source@.take(at) + seq![c]);
                lemma_encoding_of_subrange(source@, 0, at + 1);
            }
            let code: u32 = c as u32;
            let width: usize = if code <= 0x7F {
                1
            } else if code <= 0x7FF {
                2
            } else if code <= 0xFFFF {
                3
            } else {
                4
            };
            chars.push(c);
            offsets.push(total);
            total += width;
        }
        offsets.push(total);
        proof {
            assert(source@.take(source@.len() as int) =~= source@);
        }
        Indexed { source, chars, offsets }
    }

    /// The number of characters.
    pub fn len(&self) -> (count: usize)
        ensures
            count == self@.len(),
    {
        proof {
            use_type_invariant(self);
        }
        self.chars.len()
    }

    /// The characters.
    pub fn chars(&self) -> (chars: &[char])
        ensures
            chars@ == self@,
    {
        proof {
            use_type_invariant(self);
        }
        self.chars.as_slice()
    }

    /// The part from character position `from` up to, and without, position
    /// `to`.
    pub fn slice(&self, from: usize, to: usize) -> (part: &'a str)
        requires
            from <= to <= self@.len(),
        ensures
            part@ == self@.subrange(from as int, to as int),
    {
        proof {
            use_type_invariant(self);
        }
        let ghost text = self.source@;
        let ghost front = text.take(to as int);
        proof {
            lemma_offset_is_boundary(text, to as int);
            lemma_encoding_of_subrange(text, 0, to as int);
            assert(text.take(0) =~= Seq::<char>::empty());
            assert(text.subrange(0, to as int) =~= front);
        }
        let (head, _) = self.source.split_at(self.offsets[to]);
        proof {
            lemma_text_of_bytes(head, front);
            lemma_offset_is_boundary(front, from as int);
            lemma_encoding_of_subrange(front, from as int, to as int);
            assert(front.take(from as int) =~= text.take(from as int));
            assert(front.take(to as int) =~= front);
            assert(front.subrange(from as int, to as int) =~= text.subrange(
                from as int,
                to as int,
            ));
        }
        let (_, part) = head.split_at(self.offsets[from]);
        proof {
            lemma_text_of_bytes(part, text.subrange(from as int, to as int));
        }
        part
    }
}

} // verus!
