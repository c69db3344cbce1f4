//! Text helpers for presenting the graph in a terminal: column padding and
//! title suggestions.

use vstd::prelude::*;
use vstd::string::StrSliceExecFns;
use vstd::string::StringExecFns;

verus! {

/// A Unicode whitespace character, as the whitespace splitting of titles
/// understands it.
pub open spec fn is_space(c: char) -> bool {
    ||| (0x09 <= (c as u32) <= 0x0D)
    ||| c as u32 == 0x20
    ||| c as u32 == 0x85
    ||| c as u32 == 0xA0
    ||| c as u32 == 0x1680
    ||| (0x2000 <= (c as u32) <= 0x200A)
    ||| c as u32 == 0x2028
    ||| c as u32 == 0x2029
    ||| c as u32 == 0x202F
    ||| c as u32 == 0x205F
    ||| c as u32 == 0x3000
}

/// Executable check for [`is_space`].
fn space_char(c: char) -> (r: bool)
    ensures
        r == is_space(c),
{
    let x = c as u32;
    (0x09 <= x && x <= 0x0D) || x == 0x20 || x == 0x85 || x == 0xA0 || x == 0x1680 || (0x2000 <= x
        && x <= 0x200A) || x == 0x2028 || x == 0x2029 || x == 0x202F || x == 0x205F || x == 0x3000
}

/// A text padded with spaces on the right up to the given width; text at
/// least that wide stays as it is.
pub open spec fn spec_padded(text: Seq<char>, width: int) -> Seq<char> {
    if text.len() >= width {
        text
    } else {
        text + Seq::new((width - text.len()) as nat, |i: int| ' ')
    }
}

/// Formats a string into a column of the given width, left aligned.
pub fn format_column(text: &str, width: usize) -> (r: String)
    ensures
        r@ == spec_padded(text@, width as int),
{
    let mut r = text.to_owned();
    let mut n = text.unicode_len();
    proof {
        reveal_strlit(" ");
    }
    if n >= width {
        return r;
    }
    while n < width
        invariant
            text@.len() <= n <= width,
            r@ == text@ + Seq::new((n - text@.len()) as nat, |i: int| ' '),
        decreases width - n,
    {
        r.append(" ");
        proof {
            reveal_strlit(" ");
            assert(" "@ =~= seq![' ']);
            assert(r@ =~= text@ + Seq::new((n + 1 - text@.len()) as nat, |i: int| ' '));
        }
        n = n + 1;
    }
    proof {
        assert(r@ == spec_padded(text@, width as int));
    }
    r
}

/// The end of the run of non-whitespace characters starting at `k`.
pub open spec fn word_end(s: Seq<char>, k: int) -> int
    decreases s.len() - k,
    when 0 <= k <= s.len()
{
    if k >= s.len() {
        k
    } else if is_space(s[k]) {
        k
    } else {
        word_end(s, k + 1)
    }
}

/// The word run starting at `k` stays within bounds and ends at the first
/// whitespace character.
pub proof fn lemma_word_end(s: Seq<char>, k: int)
    requires
        0 <= k <= s.len(),
    ensures
        k <= word_end(s, k) <= s.len(),
        forall|m: int| k <= m < word_end(s, k) ==> !is_space(#[trigger] s[m]),
        word_end(s, k) < s.len() ==> is_space(s[word_end(s, k)]),
    decreases s.len() - k,
{
    if k < s.len() && !is_space(s[k]) {
        lemma_word_end(s, k + 1);
    }
}

/// The whitespace-separated words of a text from position `i` on, in
/// order.
pub open spec fn words_from(s: Seq<char>, i: int) -> Seq<Seq<char>>
    decreases s.len() - i,
    when 0 <= i <= s.len()
    via words_from_decreases
{
    if i >= s.len() {
        Seq::empty()
    } else if is_space(s[i]) {
        words_from(s, i + 1)
    } else {
        seq![s.subrange(i, word_end(s, i))] + words_from(s, word_end(s, i))
    }
}

#[via_fn]
proof fn words_from_decreases(s: Seq<char>, i: int) {
    if 0 <= i < s.len() && !is_space(s[i]) {
        lemma_word_end(s, i);
    }
}

/// Words joined by single spaces.
pub open spec fn join_spaced(ws: Seq<Seq<char>>) -> Seq<char>
    decreases ws.len(),
{
    if ws.len() == 0 {
        Seq::empty()
    } else if ws.len() == 1 {
        ws[0]
    } else {
        join_spaced(ws.drop_last()) + seq![' '] + ws.last()
    }
}

/// The first words of a text: all of them if there are fewer than asked
/// for.
pub open spec fn first_words(s: Seq<char>, n: int) -> Seq<Seq<char>> {
    let ws = words_from(s, 0);
    if ws.len() <= n {
        ws
    } else {
        ws.take(n)
    }
}

/// Suggests a title: the first five whitespace-separated words of the
/// content, joined by single spaces.
pub fn suggest_title_from_content(content: &str) -> (r: String)
    ensures
        r@ == join_spaced(first_words(content@, 5)),
{
    let ghost ws = words_from(content@, 0);
    let n = content.unicode_len();
    let mut out = String::new();
    let mut count: usize = 0;
    let mut i: usize = 0;
    proof {
        reveal_strlit(" ");
        assert(ws.take(0) =~= Seq::<Seq<char>>::empty());
    }
    while i < n && count < 5
        invariant
            0 <= i <= n,
            n == content@.len(),
            0 <= count <= 5,
            ws == words_from(content@, 0),
            out@ == join_spaced(ws.take(count as int)),
            words_from(content@, i as int) == ws.skip(count as int),
            count as int <= ws.len(),
        decreases n - i,
    {
        if space_char(content.get_char(i)) {
            proof {
                assert(words_from(content@, i as int) == words_from(content@, i as int + 1));
            }
            i = i + 1;
        } else {
            proof {
                lemma_word_end(content@, i as int);
            }
            let mut j = i + 1;
            proof {
                assert(word_end(content@, i as int) == word_end(content@, i as int + 1)) by {
                    assert(!is_space(content@[i as int]));
                }
            }
            while j < n && !space_char(content.get_char(j))
                invariant
                    i < j <= n,
                    n == content@.len(),
                    word_end(content@, i as int) == word_end(content@, j as int),
                decreases n - j,
            {
                j = j + 1;
            }
            proof {
                assert(word_end(content@, i as int) == j as int);
            }
            let word = content.substring_char(i, j);
            proof {
                let rest = words_from(content@, i as int);
                assert(rest == seq![content@.subrange(i as int, j as int)] + words_from(
                    content@,
                    j as int,
                ));
                assert(rest[0] == word@);
                assert(rest.len() > 0);
                assert((count as int) < ws.len());
                assert(ws.skip(count as int)[0] == ws[count as int]);
                assert(ws[count as int] == word@);
                assert(words_from(content@, j as int) =~= ws.skip(count as int + 1)) by {
                    let tail = words_from(content@, j as int);
                    assert(ws.skip(count as int) =~= seq![word@] + tail);
                    assert forall|m: int|
                        0 <= m < tail.len() implies ws.skip(count as int + 1)[m] == tail[m] by {
                        assert(ws.skip(count as int)[m + 1] == tail[m]);
                    }
                    assert(ws.skip(count as int + 1).len() == tail.len());
                }
            }
            if count == 0 {
                out.append(word);
                proof {
                    assert(ws.take(1).len() == 1);
                    assert(ws.take(1)[0] == ws[0]);
                    assert(out@ =~= join_spaced(ws.take(1)));
                }
            } else {
                out.append(" ");
                out.append(word);
                proof {
                    let next = ws.take(count as int + 1);
                    assert(next.drop_last() =~= ws.take(count as int));
                    assert(next.last() == ws[count as int]);
                    reveal_strlit(" ");
                    assert(" "@ =~= seq![' ']);
                    assert(out@ =~= join_spaced(next));
                }
            }
            count = count + 1;
            i = j;
        }
    }
    proof {
        if count < 5 {
            assert(i == n);
            assert(words_from(content@, n as int) =~= Seq::<Seq<char>>::empty());
            assert(ws.skip(count as int).len() == 0);
            assert(count as int == ws.len());
            assert(ws.take(count as int) =~= ws);
        } else {
            assert(first_words(content@, 5) == if ws.len() <= 5 {
                ws
            } else {
                ws.take(5)
            });
            if ws.len() <= 5 {
                assert(ws.skip(count as int).len() == 0) by {
                    assert(count as int == 5 && ws.len() <= 5 && count as int <= ws.len());
                }
                assert(ws.take(count as int) =~= ws);
            }
        }
    }
    out
}

} // verus!
