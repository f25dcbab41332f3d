//! Laws of stripped content, byte by byte: what each part of a content stream becomes.

use crate::comments::{
    lemma_line_length, line_length, outside, place_after, stripped, stripped_from, Place,
};
use vstd::prelude::*;

verus! {

/// Whether bytes are the rest of a literal string, with so many parentheses open, up to
/// the one that closes it. A backslash takes the byte behind it along.
pub open spec fn is_rest_of_string(s: Seq<u8>, open: nat) -> bool
    decreases s.len(),
{
    if s.len() == 0 {
        false
    } else if s[0] == 0x5c {
        s.len() >= 2 && is_rest_of_string(s.skip(2), open)
    } else if s[0] == 0x28 {
        is_rest_of_string(s.skip(1), open + 1)
    } else if s[0] == 0x29 {
        if open <= 1 {
            s.len() == 1
        } else {
            is_rest_of_string(s.skip(1), (open - 1) as nat)
        }
    } else {
        is_rest_of_string(s.skip(1), open)
    }
}

/// Whether bytes are a literal string, from its `(` to the `)` that closes it.
pub open spec fn is_literal_string(s: Seq<u8>) -> bool {
    s.len() > 0 && s[0] == 0x28 && is_rest_of_string(s.skip(1), 1)
}

/// Whether bytes are a hexadecimal string, from its `<` to the first `>`.
pub open spec fn is_hex_string(s: Seq<u8>) -> bool {
    &&& s.len() >= 2
    &&& s[0] == 0x3c
    &&& s[s.len() - 1] == 0x3e
    &&& forall|i: int| 0 < i < s.len() - 1 ==> #[trigger] s[i] != 0x3e
}

/// Whether bytes are a comment: a percent sign and what follows it on its line.
pub open spec fn is_comment(s: Seq<u8>) -> bool {
    &&& s.len() > 0
    &&& s[0] == 0x25
    &&& forall|i: int| 0 <= i < s.len() ==> #[trigger] s[i] != 0x0a && s[i] != 0x0d
}

proof fn lemma_step(data: Seq<u8>, at: Place)
    requires
        data.len() > 0,
        data[0] != 0x25 || at.depth > 0 || at.hex || at.escaped,
    ensures
        stripped_from(data, at) == seq![data[0]] + stripped_from(
            data.skip(1),
            place_after(at, data[0]),
        ),
{
    assert(data.skip(1) =~= data.drop_first());
}

proof fn lemma_rest_kept(s: Seq<u8>, open: nat, after: Seq<u8>)
    requires
        open > 0,
        is_rest_of_string(s, open),
    ensures
        stripped_from(s + after, (Place { depth: open, hex: false, escaped: false })) == s
            + stripped(after),
    decreases s.len(),
{
    let at = Place { depth: open, hex: false, escaped: false };
    let all = s + after;
    lemma_step(all, at);
    assert(all.skip(1) =~= s.skip(1) + after);
    if s[0] == 0x5c {
        let esc = Place { depth: open, hex: false, escaped: true };
        lemma_step(all.skip(1), esc);
        assert(all.skip(1).skip(1) =~= s.skip(2) + after);
        lemma_rest_kept(s.skip(2), open, after);
        assert(seq![s[0]] + (seq![s[1]] + (s.skip(2) + stripped(after))) =~= s + stripped(after));
    } else if s[0] == 0x28 {
        lemma_rest_kept(s.skip(1), open + 1, after);
        assert(seq![s[0]] + (s.skip(1) + stripped(after)) =~= s + stripped(after));
    } else if s[0] == 0x29 {
        if open <= 1 {
            assert(s.skip(1) + after =~= after);
            assert(s =~= seq![s[0]]);
        } else {
            lemma_rest_kept(s.skip(1), (open - 1) as nat, after);
            assert(seq![s[0]] + (s.skip(1) + stripped(after)) =~= s + stripped(after));
        }
    } else {
        lemma_rest_kept(s.skip(1), open, after);
        assert(seq![s[0]] + (s.skip(1) + stripped(after)) =~= s + stripped(after));
    }
}

/// A literal string is kept, byte for byte, whatever it holds: nested parentheses,
/// escaped ones, and percent signs. What follows it is stripped on its own.
pub proof fn law_literal_string_kept(s: Seq<u8>, after: Seq<u8>)
    requires
        is_literal_string(s),
    ensures
        stripped(s + after) == s + stripped(after),
{
    let all = s + after;
    lemma_step(all, outside());
    assert(all.skip(1) =~= s.skip(1) + after);
    lemma_rest_kept(s.skip(1), 1, after);
    assert(seq![s[0]] + (s.skip(1) + stripped(after)) =~= s + stripped(after));
}

proof fn lemma_rest_of_hex_kept(s: Seq<u8>, after: Seq<u8>)
    requires
        s.len() > 0,
        s[s.len() - 1] == 0x3e,
        forall|i: int| 0 <= i < s.len() - 1 ==> #[trigger] s[i] != 0x3e,
    ensures
        stripped_from(s + after, (Place { depth: 0, hex: true, escaped: false })) == s + stripped(
            after,
        ),
    decreases s.len(),
{
    let at = Place { depth: 0, hex: true, escaped: false };
    let all = s + after;
    lemma_step(all, at);
    assert(all.skip(1) =~= s.skip(1) + after);
    if s.len() > 1 {
        let rest = s.skip(1);
        assert(s[0] != 0x3e);
        assert forall|i: int| 0 <= i < rest.len() - 1 implies #[trigger] rest[i] != 0x3e by {
            assert(rest[i] == s[i + 1]);
        }
        lemma_rest_of_hex_kept(rest, after);
        assert(seq![s[0]] + (rest + stripped(after)) =~= s + stripped(after));
    } else {
        assert(s.skip(1) + after =~= after);
        assert(s =~= seq![s[0]]);
    }
}

/// A hexadecimal string is kept, byte for byte, and what follows it is stripped on its
/// own.
pub proof fn law_hex_string_kept(s: Seq<u8>, after: Seq<u8>)
    requires
        is_hex_string(s),
    ensures
        stripped(s + after) == s + stripped(after),
{
    let all = s + after;
    lemma_step(all, outside());
    assert(all.skip(1) =~= s.skip(1) + after);
    let rest = s.skip(1);
    assert forall|i: int| 0 <= i < rest.len() - 1 implies #[trigger] rest[i] != 0x3e by {
        assert(rest[i] == s[i + 1]);
    }
    lemma_rest_of_hex_kept(rest, after);
    assert(seq![s[0]] + (rest + stripped(after)) =~= s + stripped(after));
}

/// Any other byte outside strings is kept, and what follows it is stripped on its own.
pub proof fn law_plain_byte_kept(b: u8, after: Seq<u8>)
    requires
        b != 0x25,
        b != 0x28,
        b != 0x3c,
    ensures
        stripped(seq![b] + after) == seq![b] + stripped(after),
{
    let all = seq![b] + after;
    lemma_step(all, outside());
    assert(all.skip(1) =~= after);
}

/// A comment becomes one space; its line end is kept, and what follows is stripped on its
/// own.
pub proof fn law_comment_is_a_space(comment: Seq<u8>, after: Seq<u8>)
    requires
        is_comment(comment),
        after.len() == 0 || after[0] == 0x0a || after[0] == 0x0d,
    ensures
        stripped(comment + after) == seq![0x20u8] + stripped(after),
{
    let all = comment + after;
    let rest = all.drop_first();
    lemma_line_length(rest);
    let n = comment.len() - 1;
    let k = line_length(rest) as int;
    if k < n {
        assert(rest[k] == comment[k + 1]);
    }
    if k > n {
        assert(rest[n] == after[0]);
    }
    assert(rest.skip(n) =~= after);
}

/// No content, nothing left.
pub proof fn law_nothing_stripped()
    ensures
        stripped(Seq::empty()) == Seq::<u8>::empty(),
{
}

} // verus!
