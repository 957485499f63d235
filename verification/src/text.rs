//! Text as a sequence of characters, and the steps a parser takes through it.
//!
//! A `&str` is modelled by its view, a `Seq<char>`. The functions here cut a
//! prefix off a string slice without copying: the remainder they return
//! borrows from the input. Their contracts speak of characters only; the
//! UTF-8 bytes that the slicing works on stay inside the proofs.
use vstd::prelude::*;
use vstd::std_specs::iter::IteratorSpec;
use vstd::utf8::*;

verus! {

/// Encoding distributes over concatenation.
pub proof fn lemma_encode_concat(a: Seq<char>, b: Seq<char>)
    ensures
        encode_utf8(a + b) == encode_utf8(a) + encode_utf8(b),
    decreases a.len(),
{
    if a.len() > 0 {
        lemma_encode_concat(a.drop_first(), b);
        assert((a + b).drop_first() =~= a.drop_first() + b);
    }
}

/// The encoding of a text of one character is the encoding of that
/// character.
pub proof fn lemma_encode_one(c: char)
    ensures
        encode_utf8(seq![c]) == encode_scalar(c as u32),
{
    reveal_with_fuel(encode_utf8, 2);
}

/// The end of an encoded prefix is a character boundary of the whole
/// encoding.
pub proof fn lemma_boundary_after_prefix(a: Seq<char>, b: Seq<char>)
    ensures
        is_char_boundary(encode_utf8(a + b), encode_utf8(a).len() as int),
    decreases a.len(),
{
    let whole = encode_utf8(a + b);
    encode_utf8_valid_utf8(a + b);
    if a.len() > 0 {
        lemma_boundary_after_prefix(a.drop_first(), b);
        encode_utf8_first_scalar(a + b);
        assert((a + b).drop_first() =~= a.drop_first() + b);
        assert(pop_first_scalar(whole) =~= encode_utf8(a.drop_first() + b));
    }
}

/// Two texts with the same encoding are the same text.
pub proof fn lemma_encode_injective(a: Seq<char>, b: Seq<char>)
    requires
        encode_utf8(a) == encode_utf8(b),
    ensures
        a == b,
{
    encode_utf8_decode_utf8(a);
    encode_utf8_decode_utf8(b);
}

/// Cutting an encoding at a character boundary cuts the text in two.
pub proof fn lemma_split_text(whole: Seq<char>, head: Seq<char>, tail: Seq<char>, mid: int)
    requires
        is_char_boundary(encode_utf8(whole), mid),
        encode_utf8(head) =~= encode_utf8(whole).subrange(0, mid),
        encode_utf8(tail) =~= encode_utf8(whole).subrange(mid, encode_utf8(whole).len() as int),
    ensures
        whole == head + tail,
{
    let bytes = encode_utf8(whole);
    encode_utf8_valid_utf8(whole);
    decode_utf8_split(bytes, mid);
    encode_utf8_decode_utf8(whole);
    encode_utf8_decode_utf8(head);
    encode_utf8_decode_utf8(tail);
}

/// Both halves of a text cut after its first `k` characters are found in its
/// encoding, on either side of a character boundary.
pub proof fn lemma_cut(whole: Seq<char>, k: int)
    requires
        0 <= k <= whole.len(),
    ensures
        encode_utf8(whole.take(k)).len() <= encode_utf8(whole).len(),
        k < whole.len() ==> encode_utf8(whole.take(k)).len() < encode_utf8(whole).len(),
        is_char_boundary(encode_utf8(whole), encode_utf8(whole.take(k)).len() as int),
        encode_utf8(whole).subrange(0, encode_utf8(whole.take(k)).len() as int) == encode_utf8(
            whole.take(k),
        ),
        encode_utf8(whole).subrange(
            encode_utf8(whole.take(k)).len() as int,
            encode_utf8(whole).len() as int,
        ) == encode_utf8(whole.skip(k)),
{
    let head = whole.take(k);
    let tail = whole.skip(k);
    assert(whole =~= head + tail);
    lemma_encode_concat(head, tail);
    lemma_boundary_after_prefix(head, tail);
}

/// A text begins with another exactly when its encoding begins, byte for
/// byte, with the encoding of the other.
pub proof fn lemma_prefix_iff_bytes_prefix(head: Seq<char>, whole: Seq<char>)
    ensures
        head.is_prefix_of(whole) <==> encode_utf8(head).is_prefix_of(encode_utf8(whole)),
{
    let a = encode_utf8(head);
    let w = encode_utf8(whole);
    if head.is_prefix_of(whole) {
        let tail = whole.skip(head.len() as int);
        assert(whole =~= head + tail);
        lemma_encode_concat(head, tail);
    }
    if a.is_prefix_of(w) {
        let t = w.subrange(a.len() as int, w.len() as int);
        encode_utf8_valid_utf8(head);
        encode_utf8_valid_utf8(whole);
        if !valid_utf8(t) {
            partial_valid_partial_invalid_utf8(w, a.len() as int);
        }
        decode_utf8_encode_utf8(t);
        lemma_encode_concat(head, decode_utf8(t));
        assert(w =~= a + t);
        lemma_encode_injective(whole, head + decode_utf8(t));
    }
}

/// Being a suffix carries over: a suffix of a suffix is a suffix.
pub proof fn lemma_suffix_trans(a: Seq<char>, b: Seq<char>, c: Seq<char>)
    requires
        a.is_suffix_of(b),
        b.is_suffix_of(c),
    ensures
        a.is_suffix_of(c),
{
}

/// What is left when a prefix is taken off a text is a suffix of it.
pub proof fn lemma_rest_is_suffix(head: Seq<char>, rest: Seq<char>)
    ensures
        rest.is_suffix_of(head + rest),
{
}

/// A text is a suffix of itself.
pub proof fn lemma_suffix_refl(text: Seq<char>)
    ensures
        text.is_suffix_of(text),
{
}

/// Whether `c` is a letter: has the Unicode property `Alphabetic`.
pub uninterp spec fn alphabetic(c: char) -> bool;

/// `char::is_alphabetic` of the standard library tells whether a character
/// has the Unicode property `Alphabetic`. The tables behind it are not
/// restated here: the answer is named `alphabetic`, and the same character
/// always gets the same answer.
pub assume_specification[ char::is_alphabetic ](c: char) -> (b: bool)
    ensures
        b == alphabetic(c),
;

/// Whether `c` may stand inside an identifier, after its first character.
pub open spec fn ident_part(c: char) -> bool {
    alphabetic(c) || c == '-'
}

/// Whether the first `k` characters of `text` are the identifier at its
/// front: a letter, then letters and hyphens, as many as there are.
pub open spec fn ident_at(text: Seq<char>, k: int) -> bool {
    &&& 1 <= k <= text.len()
    &&& alphabetic(text[0])
    &&& forall|i: int| 0 < i < k ==> ident_part(#[trigger] text[i])
    &&& k < text.len() ==> !ident_part(text[k])
}

/// A text has at most one identifier at its front.
pub proof fn lemma_ident_unique(text: Seq<char>, j: int, k: int)
    requires
        ident_at(text, j),
        ident_at(text, k),
    ensures
        j == k,
{
}

/// The number of bytes that `c` takes in UTF-8.
pub fn utf8_width(c: char) -> (n: usize)
    ensures
        n == encode_scalar(c as u32).len(),
        1 <= n <= 4,
{
    let v: u32 = c as u32;
    if v < 0x80 {
        1
    } else if v < 0x800 {
        2
    } else if v < 0x10000 {
        3
    } else {
        4
    }
}

/// Cuts `input` after its first `k` characters, which take `end` bytes.
fn cut<'a>(input: &'a str, end: usize, Ghost(k): Ghost<int>) -> (r: (&'a str, &'a str))
    requires
        0 <= k <= input@.len(),
        end == encode_utf8(input@.take(k)).len(),
    ensures
        r.0@ == input@.take(k),
        r.1@ == input@.skip(k),
{
    proof {
        lemma_cut(input@, k);
    }
    let (head, rest) = input.split_at(end);
    proof {
        lemma_encode_injective(head@, input@.take(k));
        lemma_encode_injective(rest@, input@.skip(k));
    }
    (head, rest)
}

/// Takes `expected` off the front of `input`.
///
/// Returns the remainder when `input` begins with `expected`, and `None`
/// when it does not. The comparison is exact, byte for byte, which for two
/// texts is the same as character for character. The remainder borrows from
/// `input`.
pub fn strip_prefix<'a>(input: &'a str, expected: &str) -> (r: Option<&'a str>)
    ensures
        match r {
            Some(rest) => input@ == expected@ + rest@,
            None => !expected@.is_prefix_of(input@),
        },
{
    let bytes = input.as_bytes();
    let want = expected.as_bytes();
    let n: usize = want.len();
    proof {
        if expected@.is_prefix_of(input@) {
            let tail = input@.skip(expected@.len() as int);
            assert(input@ =~= expected@ + tail);
            lemma_encode_concat(expected@, tail);
            lemma_boundary_after_prefix(expected@, tail);
        }
    }
    if n > bytes.len() || !input.is_char_boundary(n) {
        return None;
    }
    let mut i: usize = 0;
    while i < n
        invariant
            n == want@.len(),
            n <= bytes@.len(),
            i <= n,
            bytes@.subrange(0, i as int) =~= want@.subrange(0, i as int),
            expected@.is_prefix_of(input@) ==> want@.is_prefix_of(bytes@),
        decreases n - i,
    {
        if bytes[i] != want[i] {
            return None;
        }
        i += 1;
    }
    let (head, rest) = input.split_at(n);
    proof {
        assert(want@ =~= want@.subrange(0, n as int));
        lemma_encode_injective(head@, expected@);
        lemma_split_text(input@, head@, rest@, n as int);
    }
    Some(rest)
}

/// Splits `input` into its first character and what follows it.
///
/// Returns `None` on the empty string. One character is one code point,
/// however many bytes it takes.
pub fn split_first<'a>(input: &'a str) -> (r: Option<(char, &'a str)>)
    ensures
        match r {
            Some((c, rest)) => input@.len() > 0 && c == input@[0] && rest@ == input@.drop_first(),
            None => input@.len() == 0,
        },
{
    let mut chars = input.chars();
    match chars.next() {
        Some(c) => {
            let width = utf8_width(c);
            proof {
                assert(input@.take(1) =~= seq![c]);
                lemma_encode_one(c);
            }
            let (_, rest) = cut(input, width, Ghost(1));
            Some((c, rest))
        },
        None => None,
    }
}

/// Decides whether `c` goes on an identifier that has begun, given whether
/// `c` is a letter.
pub fn continues_ident(c: char, letter: bool) -> (r: bool)
    ensures
        r == (letter || c == '-'),
{
    letter || c == '-'
}

/// Splits `input` into the identifier at its front and what follows it.
///
/// An identifier begins with a letter and goes on through letters and
/// hyphens. Whatever else comes next ends it and stays in the remainder.
/// Returns `None` when `input` is empty or begins with something other than
/// a letter.
pub fn split_ident<'a>(input: &'a str) -> (r: Option<(&'a str, &'a str)>)
    ensures
        match r {
            Some((name, rest)) => input@ == name@ + rest@ && ident_at(input@, name@.len() as int),
            None => input@.len() == 0 || !alphabetic(input@[0]),
        },
{
    let total: usize = input.as_bytes().len();
    let mut chars = input.chars();
    let mut end: usize = 0;
    let ghost mut k: int = 0;
    match chars.next() {
        Some(c) => {
            if !c.is_alphabetic() {
                return None;
            }
            end = utf8_width(c);
            proof {
                k = 1;
                assert(input@.take(1) =~= seq![c]);
                lemma_encode_one(c);
                lemma_cut(input@, 1);
            }
        },
        None => {
            return None;
        },
    }
    while end < total
        invariant_except_break
            chars.remaining() == input@.skip(k),
        invariant
            1 <= k <= input@.len(),
            total == encode_utf8(input@).len(),
            end == encode_utf8(input@.take(k)).len(),
            k < input@.len() ==> end < total,
            alphabetic(input@[0]),
            forall|i: int| 0 < i < k ==> ident_part(#[trigger] input@[i]),
        ensures
            ident_at(input@, k),
            end == encode_utf8(input@.take(k)).len(),
        decreases input@.len() - k,
    {
        match chars.next() {
            Some(c) => {
                if !continues_ident(c, c.is_alphabetic()) {
                    break ;
                }
                let width = utf8_width(c);
                proof {
                    lemma_cut(input@, k + 1);
                    assert(input@.take(k + 1) =~= input@.take(k) + seq![c]);
                    lemma_encode_concat(input@.take(k), seq![c]);
                    lemma_encode_one(c);
                    k = k + 1;
                }
                end = end + width;
            },
            None => {
                break ;
            },
        }
    }
    let (name, rest) = cut(input, end, Ghost(k));
    Some((name, rest))
}

} // verus!
