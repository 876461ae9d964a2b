//! Identifiers as text: equality and the byte-wise order of `str`.

use vstd::prelude::*;
use vstd::string::StringExecFns;
use vstd::utf8::*;

verus! {

/// Appends one character to a string.
///
/// Trusted: `String::push` puts the character at the end of the string and
/// leaves what was there as it was.
pub assume_specification[ String::push ](s: &mut String, c: char)
    ensures
        final(s)@ == old(s)@.push(c),
;

/// How one identifier stands to another in the order of [`name_less`].
#[derive(Clone, Copy, Debug, PartialEq, Eq, Structural)]
pub enum Order {
    Less,
    Equal,
    Greater,
}

/// Strict lexicographic order on byte sequences: at the first position where
/// the two differ the smaller byte decides, and a proper prefix comes first.
pub open spec fn bytes_less(a: Seq<u8>, b: Seq<u8>) -> bool
    decreases a.len(),
{
    if b.len() == 0 {
        false
    } else if a.len() == 0 {
        true
    } else if a[0] != b[0] {
        a[0] < b[0]
    } else {
        bytes_less(a.drop_first(), b.drop_first())
    }
}

/// The order of identifiers: the lexicographic order of their UTF-8
/// encodings, which is the order that `str` itself has.
pub open spec fn name_less(a: Seq<char>, b: Seq<char>) -> bool {
    bytes_less(encode_utf8(a), encode_utf8(b))
}

/// What [`compare`] answers for two identifiers.
pub open spec fn order_of(a: Seq<char>, b: Seq<char>) -> Order {
    if a == b {
        Order::Equal
    } else if name_less(a, b) {
        Order::Less
    } else {
        Order::Greater
    }
}

pub proof fn lemma_bytes_less_irreflexive(a: Seq<u8>)
    ensures
        !bytes_less(a, a),
    decreases a.len(),
{
    if a.len() > 0 {
        lemma_bytes_less_irreflexive(a.drop_first());
    }
}

pub proof fn lemma_bytes_less_asymmetric(a: Seq<u8>, b: Seq<u8>)
    requires
        bytes_less(a, b),
    ensures
        !bytes_less(b, a),
    decreases a.len(),
{
    if a.len() > 0 && b.len() > 0 && a[0] == b[0] {
        lemma_bytes_less_asymmetric(a.drop_first(), b.drop_first());
    }
}

pub proof fn lemma_bytes_less_transitive(a: Seq<u8>, b: Seq<u8>, c: Seq<u8>)
    requires
        bytes_less(a, b),
        bytes_less(b, c),
    ensures
        bytes_less(a, c),
    decreases a.len(),
{
    if a.len() > 0 && b.len() > 0 && c.len() > 0 && a[0] == b[0] && b[0] == c[0] {
        lemma_bytes_less_transitive(a.drop_first(), b.drop_first(), c.drop_first());
    }
}

pub proof fn lemma_bytes_less_total(a: Seq<u8>, b: Seq<u8>)
    requires
        a != b,
    ensures
        bytes_less(a, b) || bytes_less(b, a),
    decreases a.len(),
{
    if a.len() == 0 || b.len() == 0 {
        if a.len() == 0 && b.len() == 0 {
            assert(a =~= b);
        }
    } else if a[0] == b[0] {
        if a.drop_first() == b.drop_first() {
            assert(a =~= seq![a[0]] + a.drop_first());
            assert(b =~= seq![b[0]] + b.drop_first());
        }
        lemma_bytes_less_total(a.drop_first(), b.drop_first());
    }
}

/// After a common prefix of length `i` the order is that of the rests.
pub proof fn lemma_bytes_less_skip(a: Seq<u8>, b: Seq<u8>, i: int)
    requires
        0 <= i <= a.len(),
        i <= b.len(),
        a.take(i) == b.take(i),
    ensures
        bytes_less(a, b) == bytes_less(a.skip(i), b.skip(i)),
    decreases i,
{
    if i == 0 {
        assert(a.skip(0) =~= a);
        assert(b.skip(0) =~= b);
    } else {
        assert(a[0] == a.take(i)[0]);
        assert(b[0] == b.take(i)[0]);
        assert(a.drop_first().take(i - 1) =~= a.take(i).drop_first());
        assert(b.drop_first().take(i - 1) =~= b.take(i).drop_first());
        lemma_bytes_less_skip(a.drop_first(), b.drop_first(), i - 1);
        assert(a.drop_first().skip(i - 1) =~= a.skip(i));
        assert(b.drop_first().skip(i - 1) =~= b.skip(i));
    }
}

/// Two identifiers with the same encoding are the same identifier.
pub proof fn lemma_encoding_injective(a: Seq<char>, b: Seq<char>)
    requires
        encode_utf8(a) == encode_utf8(b),
    ensures
        a == b,
{
    encode_utf8_decode_utf8(a);
    encode_utf8_decode_utf8(b);
}

/// Compares two identifiers in the order of [`name_less`].
pub fn compare(a: &str, b: &str) -> (r: Order)
    ensures
        r == order_of(a@, b@),
{
    let x = a.as_bytes();
    let y = b.as_bytes();
    let mut i: usize = 0;
    while i < x.len() && i < y.len()
        invariant
            i <= x@.len(),
            i <= y@.len(),
            x@.take(i as int) == y@.take(i as int),
            x@ == encode_utf8(a@),
            y@ == encode_utf8(b@),
        decreases x@.len() - i,
    {
        if x[i] != y[i] {
            proof {
                lemma_bytes_less_skip(x@, y@, i as int);
                lemma_bytes_less_skip(y@, x@, i as int);
                assert(x@.skip(i as int)[0] == x@[i as int]);
                assert(y@.skip(i as int)[0] == y@[i as int]);
                assert(a@ != b@);
            }
            if x[i] < y[i] {
                return Order::Less;
            } else {
                return Order::Greater;
            }
        }
        proof {
            assert(x@.take(i + 1) =~= x@.take(i as int).push(x@[i as int]));
            assert(y@.take(i + 1) =~= y@.take(i as int).push(y@[i as int]));
        }
        i = i + 1;
    }
    proof {
        lemma_bytes_less_skip(x@, y@, i as int);
        lemma_bytes_less_skip(y@, x@, i as int);
    }
    if i < y.len() {
        Order::Less
    } else if i < x.len() {
        Order::Greater
    } else {
        proof {
            assert(x@ =~= x@.take(i as int));
            assert(y@ =~= y@.take(i as int));
            lemma_encoding_injective(a@, b@);
        }
        Order::Equal
    }
}

/// Whether two identifiers are the same text.
pub fn same_text(a: &str, b: &str) -> (r: bool)
    ensures
        r == (a@ == b@),
{
    match compare(a, b) {
        Order::Equal => true,
        _ => false,
    }
}

/// What a list of borrowed strings holds, as texts.
pub open spec fn texts(list: Seq<&str>) -> Seq<Seq<char>> {
    Seq::new(list.len(), |i: int| list[i]@)
}

/// What a list of owned strings holds, as texts.
pub open spec fn string_texts(list: Seq<String>) -> Seq<Seq<char>> {
    Seq::new(list.len(), |i: int| list[i]@)
}

/// The pieces between the line breaks of a text. A text without a line break
/// is one piece, and so is the empty text; a line break at the end leaves an
/// empty piece behind it.
pub open spec fn pieces_of(text: Seq<char>) -> Seq<Seq<char>>
    decreases text.len(),
{
    if text.len() == 0 {
        seq![Seq::<char>::empty()]
    } else {
        let front = pieces_of(text.drop_last());
        if text.last() == '\n' {
            front.push(Seq::<char>::empty())
        } else {
            front.drop_last().push(front.last().push(text.last()))
        }
    }
}

/// The lines of a text: its pieces, without the last one where that is
/// empty, as it is after a line break at the end and in the empty text.
pub open spec fn lines_of(text: Seq<char>) -> Seq<Seq<char>> {
    let pieces = pieces_of(text);
    if pieces.last().len() == 0 {
        pieces.drop_last()
    } else {
        pieces
    }
}

/// Splits a text into its lines.
pub fn split_lines(text: &str) -> (lines: Vec<String>)
    ensures
        string_texts(lines@) == lines_of(text@),
{
    let mut lines: Vec<String> = Vec::new();
    let mut current = String::new();
    proof {
        assert(text@.take(0) =~= Seq::<char>::empty());
        assert(string_texts(lines@).push(current@) =~= pieces_of(text@.take(0)));
    }
    for c in it: text.chars()
        invariant
            it.seq() == text@,
            string_texts(lines@).push(current@) == pieces_of(text@.take(it.index() as int)),
    {
        let ghost i = it.index() as int;
        let ghost done = string_texts(lines@);
        let ghost line = current@;
        proof {
            assert(text@.take(i + 1).drop_last() =~= text@.take(i));
            assert(text@.take(i + 1).last() == c);
            assert(done.push(line).drop_last() =~= done);
        }
        if c == '\n' {
            lines.push(current);
            current = String::new();
            assert(string_texts(lines@) =~= done.push(line));
        } else {
            current.push(c);
            assert(string_texts(lines@) =~= done);
        }
    }
    proof {
        assert(text@.take(text@.len() as int) =~= text@);
    }
    let ghost done = string_texts(lines@);
    if !current.as_str().is_empty() {
        lines.push(current);
        assert(string_texts(lines@) =~= done.push(current@));
    } else {
        assert(done.push(current@).drop_last() =~= done);
    }
    lines
}

/// The texts of a list with a line break between each two.
pub open spec fn joined(list: Seq<Seq<char>>) -> Seq<char>
    decreases list.len(),
{
    if list.len() == 0 {
        Seq::<char>::empty()
    } else if list.len() == 1 {
        list[0]
    } else {
        joined(list.drop_last()).push('\n') + list.last()
    }
}

/// Joins the strings of a list with line breaks.
pub fn join_lines(list: &Vec<&str>) -> (text: String)
    ensures
        text@ == joined(texts(list@)),
{
    let mut text = String::new();
    let mut i: usize = 0;
    while i < list.len()
        invariant
            i <= list@.len(),
            text@ == joined(texts(list@).take(i as int)),
        decreases list@.len() - i,
    {
        proof {
            let upto = texts(list@).take(i + 1);
            assert(upto.drop_last() =~= texts(list@).take(i as int));
            assert(upto.last() == list@[i as int]@);
        }
        if i > 0 {
            text.push('\n');
        }
        text.append(list[i]);
        proof {
            if i == 0 {
                assert(text@ =~= list@[0]@);
            }
        }
        i = i + 1;
    }
    proof {
        assert(texts(list@).take(list@.len() as int) =~= texts(list@));
    }
    text
}

/// Whether a character is white space, as `char::is_whitespace` tells it:
/// one of the characters that Unicode marks `White_Space`.
pub uninterp spec fn is_white_space(c: char) -> bool;

/// Tells whether a character is white space.
///
/// Trusted: the result of `char::is_whitespace` depends on the character
/// alone; [`is_white_space`] is the name of that result.
#[verifier::external_body]
fn white_space(c: char) -> (r: bool)
    ensures
        r == is_white_space(c),
{
    c.is_whitespace()
}

/// A text without the white space at its start.
pub open spec fn without_leading_space(text: Seq<char>) -> Seq<char>
    decreases text.len(),
{
    if text.len() > 0 && is_white_space(text[0]) {
        without_leading_space(text.drop_first())
    } else {
        text
    }
}

/// A text without the white space at its end.
pub open spec fn without_trailing_space(text: Seq<char>) -> Seq<char>
    decreases text.len(),
{
    if text.len() > 0 && is_white_space(text.last()) {
        without_trailing_space(text.drop_last())
    } else {
        text
    }
}

/// A text without the white space around it.
pub open spec fn trimmed(text: Seq<char>) -> Seq<char> {
    without_trailing_space(without_leading_space(text))
}

/// What one more character at the end does to a text without its leading
/// white space.
proof fn lemma_leading_space_push(text: Seq<char>, c: char)
    ensures
        without_leading_space(text.push(c)) == if without_leading_space(text).len() > 0 {
            without_leading_space(text).push(c)
        } else if is_white_space(c) {
            Seq::<char>::empty()
        } else {
            seq![c]
        },
    decreases text.len(),
{
    let longer = text.push(c);
    if text.len() == 0 {
        assert(longer =~= seq![c]);
        assert(longer.drop_first() =~= Seq::<char>::empty());
        assert(without_leading_space(Seq::<char>::empty()) == Seq::<char>::empty());
        assert(without_leading_space(text) == text);
        if is_white_space(c) {
            assert(without_leading_space(longer) == without_leading_space(longer.drop_first()));
        } else {
            assert(without_leading_space(longer) == longer);
        }
    } else {
        assert(longer[0] == text[0]);
        assert(longer.drop_first() =~= text.drop_first().push(c));
        if is_white_space(text[0]) {
            lemma_leading_space_push(text.drop_first(), c);
            assert(without_leading_space(longer) == without_leading_space(longer.drop_first()));
            assert(without_leading_space(text) == without_leading_space(text.drop_first()));
        } else {
            assert(without_leading_space(longer) == longer);
            assert(without_leading_space(text) == text);
        }
    }
}

/// Takes the white space around a text away.
pub fn trim(text: &str) -> (r: String)
    ensures
        r@ == trimmed(text@),
{
    let mut kept = String::new();
    let mut pending = String::new();
    proof {
        assert(text@.take(0) =~= Seq::<char>::empty());
        assert(kept@ + pending@ =~= Seq::<char>::empty());
    }
    for c in it: text.chars()
        invariant
            it.seq() == text@,
            kept@ + pending@ == without_leading_space(text@.take(it.index() as int)),
            kept@ == without_trailing_space(kept@ + pending@),
            forall|k: int| 0 <= k < pending@.len() ==> is_white_space(#[trigger] pending@[k]),
            kept@.len() == 0 ==> pending@.len() == 0,
    {
        let ghost i = it.index() as int;
        let ghost head = kept@;
        let ghost tail = pending@;
        proof {
            assert(text@.take(i + 1) =~= text@.take(i).push(c));
            lemma_leading_space_push(text@.take(i), c);
        }
        if white_space(c) {
            if !kept.as_str().is_empty() {
                pending.push(c);
                proof {
                    assert(kept@ + pending@ =~= (head + tail).push(c));
                    assert((kept@ + pending@).drop_last() =~= head + tail);
                }
            }
        } else {
            kept.append(pending.as_str());
            kept.push(c);
            pending = String::new();
            proof {
                assert(kept@ + pending@ =~= (head + tail).push(c));
                assert(kept@ + pending@ =~= kept@);
            }
        }
    }
    proof {
        assert(text@.take(text@.len() as int) =~= text@);
    }
    kept
}

} // verus!
