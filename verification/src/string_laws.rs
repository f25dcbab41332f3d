//! Laws of texts: which are blank, and what their digits stand for.

use crate::texts::{decimal, ends_in_space, is_blank};
use vstd::prelude::*;

verus! {

/// Whether a code point is white space: the controls from tab to carriage return, the
/// spaces, and the separators of lines and paragraphs.
pub open spec fn is_white_point(c: int) -> bool {
    ||| 9 <= c <= 13
    ||| c == 32
    ||| c == 133
    ||| c == 160
    ||| c == 5760
    ||| 8192 <= c <= 8202
    ||| c == 8232
    ||| c == 8233
    ||| c == 8239
    ||| c == 8287
    ||| c == 12288
}

/// A text is blank where it has no other characters than white space; the empty one is.
pub proof fn law_blank(text: Seq<char>)
    ensures
        is_blank(text) <==> forall|i: int|
            0 <= i < text.len() ==> is_white_point(#[trigger] text[i] as int),
{
    if is_blank(text) {
        assert forall|i: int| 0 <= i < text.len() implies is_white_point(
            #[trigger] text[i] as int,
        ) by {
            assert(crate::texts::is_white(text[i]));
        }
    }
    if forall|i: int| 0 <= i < text.len() ==> is_white_point(#[trigger] text[i] as int) {
        assert forall|i: int| 0 <= i < text.len() implies crate::texts::is_white(
            #[trigger] text[i],
        ) by {
            assert(is_white_point(text[i] as int));
        }
    }
}

/// A text ends in a space where its last character is the one with the code 32.
pub proof fn law_ends_in_space(text: Seq<char>, c: char)
    ensures
        !ends_in_space(Seq::empty()),
        ends_in_space(text.push(c)) <==> c as int == 32,
{
}

/// The number that digits stand for, the first of them the highest.
pub open spec fn value_of_digits(s: Seq<char>) -> int
    decreases s.len(),
{
    if s.len() == 0 {
        0
    } else {
        value_of_digits(s.drop_last()) * 10 + (s.last() as int - 48)
    }
}

/// A number is written in the digits `0` to `9`, which stand for it, without a leading
/// zero.
pub proof fn law_decimal(n: nat)
    ensures
        decimal(n).len() > 0,
        forall|i: int| 0 <= i < decimal(n).len() ==> 48 <= (#[trigger] decimal(n)[i]) as int <= 57,
        value_of_digits(decimal(n)) == n,
        n > 0 ==> decimal(n)[0] as int != 48,
        n == 0 ==> decimal(n).len() == 1,
    decreases n,
{
    if n < 10 {
        let s = decimal(n);
        assert(s.drop_last().len() == 0);
        assert(value_of_digits(s.drop_last()) == 0);
        assert(s.last() as int == n + 48);
    } else {
        law_decimal(n / 10);
        let s = decimal(n);
        let front = decimal(n / 10);
        assert(s.drop_last() =~= front);
        assert(s.last() as int == n % 10 + 48);
        assert forall|i: int| 0 <= i < s.len() implies 48 <= (#[trigger] s[i]) as int <= 57 by {
            if i < front.len() {
                assert(s[i] == front[i]);
            }
        }
        assert(s[0] == front[0]);
    }
}

} // verus!
