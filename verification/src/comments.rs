//! Comments of content streams.

use vstd::prelude::*;

verus! {

/// `(`
pub const OPEN: u8 = 0x28;

/// `)`
pub const CLOSE: u8 = 0x29;

/// `<`
pub const OPEN_HEX: u8 = 0x3c;

/// `>`
pub const CLOSE_HEX: u8 = 0x3e;

/// `%`
pub const PERCENT: u8 = 0x25;

/// `\`
pub const BACKSLASH: u8 = 0x5c;

pub const SPACE: u8 = 0x20;

pub open spec fn is_line_end(b: u8) -> bool {
    b == 0x0a || b == 0x0d
}

/// The number of bytes before the first line end.
pub open spec fn line_length(data: Seq<u8>) -> nat
    decreases data.len(),
{
    if data.len() == 0 || is_line_end(data[0]) {
        0
    } else {
        1 + line_length(data.drop_first())
    }
}

/// Where a byte stands: the nesting of parentheses around it, whether it is in a
/// hexadecimal string, and whether a backslash in a literal string escapes it.
pub struct Place {
    pub depth: nat,
    pub hex: bool,
    pub escaped: bool,
}

/// Outside any string.
pub open spec fn outside() -> Place {
    Place { depth: 0, hex: false, escaped: false }
}

/// Whether a byte starts a comment: a percent sign outside any string.
pub open spec fn starts_comment(at: Place, b: u8) -> bool {
    b == PERCENT && at == outside()
}

/// The place after a byte that starts no comment.
pub open spec fn place_after(at: Place, b: u8) -> Place {
    if at.escaped {
        Place { escaped: false, ..at }
    } else if at.hex {
        Place { hex: b != CLOSE_HEX, ..at }
    } else if b == BACKSLASH && at.depth > 0 {
        Place { escaped: true, ..at }
    } else if b == OPEN {
        Place { depth: at.depth + 1, ..at }
    } else if b == CLOSE && at.depth > 0 {
        Place { depth: (at.depth - 1) as nat, ..at }
    } else if b == OPEN_HEX && at.depth == 0 {
        Place { hex: true, ..at }
    } else {
        at
    }
}

/// `data`, read from the place `at`, with each comment turned into a space.
pub open spec fn stripped_from(data: Seq<u8>, at: Place) -> Seq<u8>
    decreases data.len(),
{
    if data.len() == 0 {
        Seq::empty()
    } else if starts_comment(at, data[0]) {
        proof {
            lemma_line_length(data.drop_first());
        }
        seq![SPACE] + stripped_from(data.drop_first().skip(line_length(data.drop_first()) as int), at)
    } else {
        seq![data[0]] + stripped_from(data.drop_first(), place_after(at, data[0]))
    }
}

/// `data` with each comment outside strings turned into a space.
pub open spec fn stripped(data: Seq<u8>) -> Seq<u8> {
    stripped_from(data, outside())
}

pub proof fn lemma_line_length(data: Seq<u8>)
    ensures
        line_length(data) <= data.len(),
        forall|i: int| 0 <= i < line_length(data) ==> !is_line_end(#[trigger] data[i]),
        line_length(data) < data.len() ==> is_line_end(data[line_length(data) as int]),
    decreases data.len(),
{
    if data.len() > 0 && !is_line_end(data[0]) {
        let rest = data.drop_first();
        lemma_line_length(rest);
        assert forall|i: int| 0 <= i < line_length(data) implies !is_line_end(
            #[trigger] data[i],
        ) by {
            if i > 0 {
                assert(data[i] == rest[i - 1]);
            }
        }
    }
}

/// Strips comments (a percent sign to the end of its line) from the bytes of a
/// content stream. A comment leaves one space, so that tokens stay apart; a
/// percent sign in a literal or hexadecimal string starts none. A parenthesis
/// behind a backslash neither opens nor closes a string.
pub fn strip_pdf_comments(data: &[u8]) -> (result: Vec<u8>)
    ensures
        result@ == stripped(data@),
{
    let mut result: Vec<u8> = Vec::new();
    let mut i: usize = 0;
    let mut depth: usize = 0;
    let mut hex = false;
    let mut escaped = false;
    assert(data@.skip(0) =~= data@);
    while i < data.len()
        invariant
            i <= data@.len(),
            depth <= i,
            stripped(data@) == result@ + stripped_from(
                data@.skip(i as int),
                Place { depth: depth as nat, hex, escaped },
            ),
        decreases data@.len() - i,
    {
        let b: u8 = data[i];
        let ghost at = Place { depth: depth as nat, hex, escaped };
        let ghost rest = data@.skip(i as int);
        let ghost before = result@;
        assert(rest[0] == b);
        assert(rest.drop_first() =~= data@.skip(i + 1));
        if b == PERCENT && depth == 0 && !hex && !escaped {
            i = i + 1;
            let ghost start = i as int;
            while i < data.len() && data[i] != 0x0a && data[i] != 0x0d
                invariant
                    start <= i <= data@.len(),
                    line_length(data@.skip(start)) == (i - start) + line_length(
                        data@.skip(i as int),
                    ),
                decreases data@.len() - i,
            {
                assert(data@.skip(i as int).drop_first() =~= data@.skip(i + 1));
                i = i + 1;
            }
            assert(line_length(data@.skip(i as int)) == 0);
            assert(data@.skip(start).skip(i - start) =~= data@.skip(i as int));
            result.push(SPACE);
            assert(result@ =~= before + seq![SPACE]);
        } else {
            if escaped {
                escaped = false;
            } else if hex {
                if b == CLOSE_HEX {
                    hex = false;
                }
            } else if b == BACKSLASH && depth > 0 {
                escaped = true;
            } else if b == OPEN {
                depth = depth + 1;
            } else if b == CLOSE && depth > 0 {
                depth = depth - 1;
            } else if b == OPEN_HEX && depth == 0 {
                hex = true;
            }
            result.push(b);
            i = i + 1;
            assert(place_after(at, b) == Place { depth: depth as nat, hex, escaped });
            assert(result@ =~= before + seq![b]);
        }
        let ghost tail = stripped_from(data@.skip(i as int), Place { depth: depth as nat, hex, escaped });
        assert(stripped_from(rest, at) =~= seq![result@.last()] + tail);
        assert(before + (seq![result@.last()] + tail) =~= result@ + tail);
    }
    assert(data@.skip(i as int) =~= Seq::empty());
    assert(result@ + Seq::<u8>::empty() =~= result@);
    result
}

/// Whether no byte of `data`, read from `at`, starts a comment.
pub open spec fn comment_free(data: Seq<u8>, at: Place) -> bool
    decreases data.len(),
{
    data.len() == 0 || (!starts_comment(at, data[0]) && comment_free(
        data.drop_first(),
        place_after(at, data[0]),
    ))
}

/// What holds no comment is kept as it is, percent signs in strings included.
pub proof fn law_comment_free_unchanged(data: Seq<u8>, at: Place)
    requires
        comment_free(data, at),
    ensures
        stripped_from(data, at) == data,
    decreases data.len(),
{
    if data.len() > 0 {
        law_comment_free_unchanged(data.drop_first(), place_after(at, data[0]));
        assert(seq![data[0]] + data.drop_first() =~= data);
    } else {
        assert(data =~= Seq::empty());
    }
}

/// Without a percent sign nothing changes.
pub proof fn law_no_percent_unchanged(data: Seq<u8>, at: Place)
    requires
        !data.contains(PERCENT),
    ensures
        stripped_from(data, at) == data,
{
    lemma_no_percent_comment_free(data, at);
    law_comment_free_unchanged(data, at);
}

proof fn lemma_no_percent_comment_free(data: Seq<u8>, at: Place)
    requires
        !data.contains(PERCENT),
    ensures
        comment_free(data, at),
    decreases data.len(),
{
    if data.len() > 0 {
        let rest = data.drop_first();
        assert forall|i: int| 0 <= i < rest.len() implies rest[i] != PERCENT by {
            assert(rest[i] == data[i + 1]);
        }
        assert(data[0] != PERCENT);
        lemma_no_percent_comment_free(rest, place_after(at, data[0]));
    }
}

/// The place after bytes that start no comment.
pub open spec fn place_through(data: Seq<u8>, at: Place) -> Place
    decreases data.len(),
{
    if data.len() == 0 {
        at
    } else {
        place_through(data.drop_first(), place_after(at, data[0]))
    }
}

/// Bytes that all stand in strings are kept as they are, and what follows them is
/// read from the place behind them.
pub proof fn law_strings_kept(data: Seq<u8>, at: Place, after: Seq<u8>)
    requires
        forall|i: int|
            0 <= i < data.len() ==> #[trigger] place_through(data.take(i), at) != outside(),
    ensures
        stripped_from(data + after, at) == data + stripped_from(after, place_through(data, at)),
    decreases data.len(),
{
    let all = data + after;
    if data.len() > 0 {
        let rest = data.drop_first();
        let next = place_after(at, data[0]);
        assert(place_through(data.take(0), at) != outside());
        assert forall|i: int| 0 <= i < rest.len() implies #[trigger] place_through(
            rest.take(i),
            next,
        ) != outside() by {
            assert(data.take(i + 1).drop_first() =~= rest.take(i));
            assert(place_through(data.take(i + 1), at) != outside());
        }
        law_strings_kept(rest, next, after);
        assert(all.drop_first() =~= rest + after);
        assert(all[0] == data[0]);
        assert(seq![data[0]] + (rest + stripped_from(after, place_through(rest, next)))
            =~= data + stripped_from(after, place_through(data, at)));
    } else {
        assert(all =~= after);
        assert(data + stripped_from(after, at) =~= stripped_from(after, at));
    }
}

/// A backslash in a literal string, and the byte behind it, leave the string as deep
/// as it is: an escaped parenthesis closes nothing.
pub proof fn law_escapes_keep_depth(at: Place, b: u8)
    requires
        at.depth > 0,
        !at.hex,
        !at.escaped,
    ensures
        place_through(seq![BACKSLASH, b], at) == at,
{
    let pair = seq![BACKSLASH, b];
    reveal_with_fuel(place_through, 3);
    assert(pair.drop_first()[0] == b);
}

/// Stripping never lengthens.
pub proof fn law_never_longer(data: Seq<u8>, at: Place)
    ensures
        stripped_from(data, at).len() <= data.len(),
    decreases data.len(),
{
    if data.len() > 0 {
        let rest = data.drop_first();
        if starts_comment(at, data[0]) {
            lemma_line_length(rest);
            law_never_longer(rest.skip(line_length(rest) as int), at);
        } else {
            law_never_longer(rest, place_after(at, data[0]));
        }
    }
}

/// Stripped data holds no comment: stripping it again changes nothing.
pub proof fn law_idempotent(data: Seq<u8>, at: Place)
    ensures
        stripped_from(stripped_from(data, at), at) == stripped_from(data, at),
    decreases data.len(),
{
    if data.len() > 0 {
        let rest = data.drop_first();
        let out = stripped_from(data, at);
        if starts_comment(at, data[0]) {
            lemma_line_length(rest);
            let tail = rest.skip(line_length(rest) as int);
            law_idempotent(tail, at);
            assert(out.drop_first() =~= stripped_from(tail, at));
            assert(out[0] == SPACE);
            assert(place_after(at, SPACE) == at);
        } else {
            let next = place_after(at, data[0]);
            law_idempotent(rest, next);
            assert(out.drop_first() =~= stripped_from(rest, next));
            assert(out[0] == data[0]);
        }
    }
}

/// The place after `data` has been read from `at`, comments skipped.
pub open spec fn place_at_end(data: Seq<u8>, at: Place) -> Place
    decreases data.len(),
{
    if data.len() == 0 {
        at
    } else if starts_comment(at, data[0]) {
        proof {
            lemma_line_length(data.drop_first());
        }
        place_at_end(data.drop_first().skip(line_length(data.drop_first()) as int), at)
    } else {
        place_at_end(data.drop_first(), place_after(at, data[0]))
    }
}

/// Whether `data`, read from `at`, stops within a comment.
pub open spec fn ends_in_comment(data: Seq<u8>, at: Place) -> bool
    decreases data.len(),
{
    if data.len() == 0 {
        false
    } else if starts_comment(at, data[0]) {
        proof {
            lemma_line_length(data.drop_first());
        }
        let rest = data.drop_first();
        line_length(rest) == rest.len() || ends_in_comment(rest.skip(line_length(rest) as int), at)
    } else {
        ends_in_comment(data.drop_first(), place_after(at, data[0]))
    }
}

/// A comment that follows text ending outside any string becomes one space; the
/// text before it and, from its line end on, the text after it are stripped on
/// their own. (The text before must not itself stop within a comment.)
pub proof fn law_comment_becomes_space(
    before: Seq<u8>,
    at: Place,
    comment: Seq<u8>,
    after: Seq<u8>,
)
    requires
        place_at_end(before, at) == outside(),
        !ends_in_comment(before, at),
        comment.len() > 0,
        comment[0] == PERCENT,
        forall|i: int| 0 <= i < comment.len() ==> !is_line_end(#[trigger] comment[i]),
        after.len() == 0 || is_line_end(after[0]),
    ensures
        stripped_from(before + comment + after, at) == stripped_from(before, at) + seq![SPACE]
            + stripped_from(after, outside()),
    decreases before.len(),
{
    let all = before + comment + after;
    if before.len() == 0 {
        let tail = all.drop_first();
        lemma_line_length_exact(tail, (comment.len() - 1) as nat);
        assert(tail.skip(comment.len() - 1) =~= after);
        assert(seq![SPACE] + stripped_from(after, outside()) =~= stripped_from(before, at)
            + seq![SPACE] + stripped_from(after, outside()));
    } else {
        let rest = before.drop_first();
        assert(all.drop_first() =~= rest + comment + after);
        if starts_comment(at, before[0]) {
            lemma_line_length(rest);
            let n = line_length(rest);
            assert(n < rest.len());
            lemma_line_length_exact(rest + comment + after, n);
            let tail = rest.skip(n as int);
            assert((rest + comment + after).skip(n as int) =~= tail + comment + after);
            law_comment_becomes_space(tail, at, comment, after);
            let inner = stripped_from(tail, at);
            assert(seq![SPACE] + (inner + seq![SPACE] + stripped_from(after, outside()))
                =~= (seq![SPACE] + inner) + seq![SPACE] + stripped_from(after, outside()));
        } else {
            let next = place_after(at, before[0]);
            law_comment_becomes_space(rest, next, comment, after);
            let inner = stripped_from(rest, next);
            assert(seq![before[0]] + (inner + seq![SPACE] + stripped_from(after, outside()))
                =~= (seq![before[0]] + inner) + seq![SPACE] + stripped_from(after, outside()));
        }
    }
}

proof fn lemma_line_length_exact(data: Seq<u8>, n: nat)
    requires
        n <= data.len(),
        forall|i: int| 0 <= i < n ==> !is_line_end(#[trigger] data[i]),
        n < data.len() ==> is_line_end(data[n as int]),
    ensures
        line_length(data) == n,
    decreases n,
{
    if n > 0 {
        let rest = data.drop_first();
        assert forall|i: int| 0 <= i < n - 1 implies !is_line_end(#[trigger] rest[i]) by {
            assert(rest[i] == data[i + 1]);
        }
        lemma_line_length_exact(rest, (n - 1) as nat);
    }
}

} // verus!
