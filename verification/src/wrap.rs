//! Word-aware text wrapping onto a bounded number of lines.

use vstd::prelude::*;
use vstd::arithmetic::div_mod::{lemma_basic_div, lemma_div_plus_one, lemma_div_pos_is_pos};

verus! {

/// The characters the wrapper treats as word separators: the Unicode
/// `White_Space` set, the same set `str::split_whitespace` splits on.
pub open spec fn is_wspace(c: char) -> bool {
    let u = c as u32;
    ||| u == 0x09
    ||| u == 0x0A
    ||| u == 0x0B
    ||| u == 0x0C
    ||| u == 0x0D
    ||| u == 0x20
    ||| u == 0x85
    ||| u == 0xA0
    ||| u == 0x1680
    ||| (0x2000 <= u && u <= 0x200A)
    ||| u == 0x2028
    ||| u == 0x2029
    ||| u == 0x202F
    ||| u == 0x205F
    ||| u == 0x3000
}

/// Whether `c` separates words.
fn is_whitespace_char(c: char) -> (r: bool)
    ensures
        r == is_wspace(c),
{
    let u = c as u32;
    u == 0x09 || u == 0x0A || u == 0x0B || u == 0x0C || u == 0x0D || u == 0x20 || u == 0x85
        || u == 0xA0 || u == 0x1680 || (0x2000 <= u && u <= 0x200A) || u == 0x2028 || u == 0x2029
        || u == 0x202F || u == 0x205F || u == 0x3000
}

/// The words still to be read from `s` when the run of non-separator
/// characters `cur` has already been read: `cur` extended by the leading run
/// of `s`, then the maximal separator-free runs of the rest, in order.
pub open spec fn words_from(s: Seq<char>, cur: Seq<char>) -> Seq<Seq<char>>
    decreases s.len(),
{
    if s.len() == 0 {
        if cur.len() > 0 {
            seq![cur]
        } else {
            Seq::<Seq<char>>::empty()
        }
    } else if is_wspace(s[0]) {
        if cur.len() > 0 {
            seq![cur] + words_from(s.drop_first(), Seq::<char>::empty())
        } else {
            words_from(s.drop_first(), Seq::<char>::empty())
        }
    } else {
        words_from(s.drop_first(), cur.push(s[0]))
    }
}

/// The whitespace-separated words of `s`, in order.
pub open spec fn words_of(s: Seq<char>) -> Seq<Seq<char>> {
    words_from(s, Seq::<char>::empty())
}

/// The character sequences of a vector of lines (or of words).
pub open spec fn line_views(lines: Seq<String>) -> Seq<Seq<char>> {
    Seq::new(lines.len(), |i: int| lines[i]@)
}

proof fn lemma_line_views_push(lines: Seq<String>, s: String)
    ensures
        line_views(lines.push(s)) == line_views(lines).push(s@),
{
    assert(line_views(lines.push(s)) =~= line_views(lines).push(s@));
}

/// Splits `text` into its whitespace-separated words.
fn split_words(text: &str) -> (words: Vec<String>)
    ensures
        line_views(words@) == words_of(text@),
{
    let n = text.unicode_len();
    let mut words: Vec<String> = Vec::new();
    let mut start: usize = 0;
    let mut i: usize = 0;
    proof {
        assert(text@.skip(0) =~= text@);
        assert(text@.subrange(0, 0) =~= Seq::<char>::empty());
        assert(line_views(words@) =~= Seq::<Seq<char>>::empty());
    }
    while i < n
        invariant
            n == text@.len(),
            start <= i <= n,
            words_of(text@) == line_views(words@) + words_from(
                text@.skip(i as int),
                text@.subrange(start as int, i as int),
            ),
        decreases n - i,
    {
        let ghost pre_views = line_views(words@);
        let ghost cur = text@.subrange(start as int, i as int);
        proof {
            assert(text@.skip(i as int)[0] == text@[i as int]);
            assert(text@.skip(i as int).drop_first() =~= text@.skip(i as int + 1));
        }
        let c = text.get_char(i);
        if is_whitespace_char(c) {
            if start < i {
                let w = text.substring_char(start, i).to_owned();
                proof {
                    lemma_line_views_push(words@, w);
                }
                words.push(w);
                proof {
                    assert(pre_views + (seq![cur] + words_from(
                        text@.skip(i as int + 1),
                        Seq::<char>::empty(),
                    )) =~= line_views(words@) + words_from(
                        text@.skip(i as int + 1),
                        Seq::<char>::empty(),
                    ));
                }
            }
            start = i + 1;
            proof {
                assert(text@.subrange(start as int, i as int + 1) =~= Seq::<char>::empty());
            }
        } else {
            proof {
                assert(cur.push(text@[i as int]) =~= text@.subrange(start as int, i as int + 1));
            }
        }
        i = i + 1;
    }
    proof {
        assert(text@.skip(n as int) =~= Seq::<char>::empty());
    }
    if start < n {
        let w = text.substring_char(start, n).to_owned();
        proof {
            lemma_line_views_push(words@, w);
            assert(line_views(words@) + seq![w@] =~= line_views(words@).push(w@));
        }
        words.push(w);
    } else {
        proof {
            assert(line_views(words@) + Seq::<Seq<char>>::empty() =~= line_views(words@));
        }
    }
    words
}

/// Hard-splits the long word `w` into chunks of exactly `width` characters
/// (the last chunk may be shorter), appending each chunk as a line to `lines`
/// and stopping once `max_lines` lines exist.
pub open spec fn chunked(w: Seq<char>, width: int, max_lines: int, lines: Seq<Seq<char>>) -> Seq<
    Seq<char>,
>
    decreases w.len(),
{
    if width <= 0 || w.len() == 0 || lines.len() >= max_lines {
        lines
    } else if w.len() <= width {
        lines.push(w)
    } else {
        chunked(w.skip(width), width, max_lines, lines.push(w.take(width)))
    }
}

/// Greedy packing of `words` onto lines of at most `width` characters, one
/// step per word, starting from the lines already produced and the current
/// unfinished line `cur`:
/// - once `max_lines` lines exist, everything left is truncated;
/// - a word longer than `width` flushes `cur` and is hard-split by `chunked`;
/// - a word fits when the line, a separating space and the word stay within
///   `width`; it is appended to `cur`;
/// - otherwise `cur` is flushed and the word starts the next line;
/// - at the end an unfinished non-empty `cur` becomes the last line.
pub open spec fn packed(
    words: Seq<Seq<char>>,
    width: int,
    max_lines: int,
    lines: Seq<Seq<char>>,
    cur: Seq<char>,
) -> Seq<Seq<char>>
    decreases words.len(),
{
    if lines.len() >= max_lines {
        lines
    } else if words.len() == 0 {
        if cur.len() > 0 {
            lines.push(cur)
        } else {
            lines
        }
    } else {
        let w = words[0];
        let rest = words.drop_first();
        if w.len() > width {
            let flushed = if cur.len() > 0 {
                lines.push(cur)
            } else {
                lines
            };
            packed(rest, width, max_lines, chunked(w, width, max_lines, flushed), Seq::<
                char,
            >::empty())
        } else if cur.len() + w.len() + 1 <= width {
            packed(
                rest,
                width,
                max_lines,
                lines,
                if cur.len() > 0 {
                    cur + seq![' '] + w
                } else {
                    w
                },
            )
        } else {
            let flushed = if cur.len() > 0 {
                lines.push(cur)
            } else {
                lines
            };
            packed(rest, width, max_lines, flushed, w)
        }
    }
}

/// The lines `wrap_text` returns, as character sequences: for a zero width a
/// single empty line; otherwise the words of `text` packed greedily onto at
/// most `max_lines` lines, with one empty line substituted when no line was
/// produced, so the result is never empty.
pub open spec fn wrap_spec(text: Seq<char>, width: int, max_lines: int) -> Seq<Seq<char>> {
    if width <= 0 {
        seq![Seq::<char>::empty()]
    } else {
        let r = packed(
            words_of(text),
            width,
            max_lines,
            Seq::<Seq<char>>::empty(),
            Seq::<char>::empty(),
        );
        if r.len() == 0 {
            seq![Seq::<char>::empty()]
        } else {
            r
        }
    }
}

/// Wraps `text` onto lines of at most `width` characters, breaking at word
/// boundaries, hard-splitting words longer than `width` into `width`-sized
/// chunks, and truncating the remainder once `max_lines` lines have been
/// produced. Returns at least one (possibly empty) line; for `width == 0` it
/// returns a single empty line.
pub fn wrap_text(text: &str, width: usize, max_lines: usize) -> (lines: Vec<String>)
    ensures
        line_views(lines@) == wrap_spec(text@, width as int, max_lines as int),
{
    if width == 0 {
        let mut lines: Vec<String> = Vec::new();
        lines.push(String::new());
        proof {
            assert(line_views(lines@) =~= seq![Seq::<char>::empty()]);
        }
        return lines;
    }
    let words = split_words(text);
    let ghost goal = packed(
        words_of(text@),
        width as int,
        max_lines as int,
        Seq::<Seq<char>>::empty(),
        Seq::<char>::empty(),
    );
    let mut lines: Vec<String> = Vec::new();
    let mut cur = String::new();
    let mut cur_len: usize = 0;
    let mut i: usize = 0;
    proof {
        assert(line_views(lines@) =~= Seq::<Seq<char>>::empty());
        assert(line_views(words@).skip(0) =~= line_views(words@));
    }
    while i < words.len() && lines.len() < max_lines
        invariant
            width >= 1,
            i <= words.len(),
            cur_len == cur@.len(),
            cur_len <= width,
            line_views(words@) == words_of(text@),
            packed(
                line_views(words@).skip(i as int),
                width as int,
                max_lines as int,
                line_views(lines@),
                cur@,
            ) == goal,
        decreases words.len() - i,
    {
        let ghost pre_words = line_views(words@).skip(i as int);
        let ghost pre_lines = line_views(lines@);
        let ghost pre_cur = cur@;
        let w = &words[i];
        let ws = w.as_str();
        let wlen = ws.unicode_len();
        proof {
            assert(pre_words[0] == w@);
            assert(pre_words.drop_first() =~= line_views(words@).skip(i as int + 1));
        }
        if wlen > width {
            if cur_len > 0 {
                proof {
                    lemma_line_views_push(lines@, cur);
                }
                lines.push(cur);
                cur = String::new();
                cur_len = 0;
            }
            let ghost flushed = line_views(lines@);
            proof {
                assert(ws@.skip(0) =~= ws@);
            }
            let mut pos: usize = 0;
            while pos < wlen && lines.len() < max_lines
                invariant
                    width >= 1,
                    pos <= wlen,
                    wlen == ws@.len(),
                    chunked(
                        ws@.skip(pos as int),
                        width as int,
                        max_lines as int,
                        line_views(lines@),
                    ) == chunked(ws@, width as int, max_lines as int, flushed),
                decreases wlen - pos,
            {
                let chunk = if wlen - pos > width {
                    width
                } else {
                    wlen - pos
                };
                let piece = ws.substring_char(pos, pos + chunk).to_owned();
                proof {
                    assert(ws@.subrange(pos as int, pos as int + chunk as int) =~= ws@.skip(
                        pos as int,
                    ).take(chunk as int));
                    assert(ws@.skip(pos as int).skip(chunk as int) =~= ws@.skip(
                        pos as int + chunk as int,
                    ));
                    lemma_line_views_push(lines@, piece);
                }
                lines.push(piece);
                pos = pos + chunk;
            }
            proof {
                assert(ws@.skip(pos as int).len() == 0 || line_views(lines@).len()
                    >= max_lines as int);
                assert(chunked(ws@, width as int, max_lines as int, flushed) == line_views(
                    lines@,
                ));
                assert(cur@ =~= Seq::<char>::empty());
            }
            i = i + 1;
        } else if wlen < width && cur_len <= width - wlen - 1 {
            if cur_len > 0 {
                cur.append(" ");
                proof {
                    reveal_strlit(" ");
                    assert(" "@ =~= seq![' ']);
                }
                cur_len = cur_len + 1;
            }
            cur.append(ws);
            cur_len = cur_len + wlen;
            proof {
                if pre_cur.len() > 0 {
                    assert(cur@ =~= pre_cur + seq![' '] + w@);
                } else {
                    assert(cur@ =~= w@);
                }
            }
            i = i + 1;
        } else {
            if cur_len > 0 {
                proof {
                    lemma_line_views_push(lines@, cur);
                }
                lines.push(cur);
                cur = String::new();
                cur_len = 0;
            }
            proof {
                assert(!(pre_cur.len() + w@.len() + 1 <= width as int));
            }
            cur.append(ws);
            cur_len = wlen;
            proof {
                assert(cur@ =~= w@);
            }
            i = i + 1;
        }
    }
    proof {
        if line_views(lines@).len() < max_lines as int {
            assert(i == words.len());
            assert(line_views(words@).skip(i as int) =~= Seq::<Seq<char>>::empty());
        }
    }
    if cur_len > 0 && lines.len() < max_lines {
        proof {
            lemma_line_views_push(lines@, cur);
        }
        lines.push(cur);
    }
    if lines.len() == 0 {
        let empty_line = String::new();
        proof {
            lemma_line_views_push(lines@, empty_line);
            assert(line_views(lines@).push(empty_line@) =~= seq![Seq::<char>::empty()]);
        }
        lines.push(empty_line);
    }
    lines
}

/// The ceiling of `a / b`.
pub open spec fn div_ceil(a: int, b: int) -> int {
    (a + b - 1) / b
}

/// Wrapping the empty text gives a single empty line, whatever the width and
/// line limit.
pub proof fn lemma_wrap_empty(width: int, max_lines: int)
    ensures
        wrap_spec(Seq::<char>::empty(), width, max_lines) == seq![Seq::<char>::empty()],
{
}

/// Wrapping to width zero gives a single empty line, whatever the text and
/// line limit.
pub proof fn lemma_wrap_zero_width(text: Seq<char>, max_lines: int)
    ensures
        wrap_spec(text, 0, max_lines) == seq![Seq::<char>::empty()],
{
}

/// The wrapper always produces at least one (possibly empty) line.
pub proof fn lemma_wrap_never_empty(text: Seq<char>, width: int, max_lines: int)
    ensures
        wrap_spec(text, width, max_lines).len() >= 1,
{
}

/// Hard-splitting never grows the line list past the limit it was given.
proof fn lemma_chunked_len_bound(w: Seq<char>, width: int, max_lines: int, lines: Seq<Seq<char>>)
    requires
        lines.len() <= max_lines,
    ensures
        chunked(w, width, max_lines, lines).len() <= max_lines,
    decreases w.len(),
{
    if !(width <= 0 || w.len() == 0 || lines.len() >= max_lines) && w.len() > width {
        lemma_chunked_len_bound(w.skip(width), width, max_lines, lines.push(w.take(width)));
    }
}

/// Packing never grows the line list past the limit it was given.
proof fn lemma_packed_len_bound(
    words: Seq<Seq<char>>,
    width: int,
    max_lines: int,
    lines: Seq<Seq<char>>,
    cur: Seq<char>,
)
    requires
        lines.len() <= max_lines,
    ensures
        packed(words, width, max_lines, lines, cur).len() <= max_lines,
    decreases words.len(),
{
    if lines.len() < max_lines && words.len() > 0 {
        let w = words[0];
        let rest = words.drop_first();
        let flushed = if cur.len() > 0 {
            lines.push(cur)
        } else {
            lines
        };
        if w.len() > width {
            lemma_chunked_len_bound(w, width, max_lines, flushed);
            lemma_packed_len_bound(
                rest,
                width,
                max_lines,
                chunked(w, width, max_lines, flushed),
                Seq::<char>::empty(),
            );
        } else if cur.len() + w.len() + 1 <= width {
            lemma_packed_len_bound(
                rest,
                width,
                max_lines,
                lines,
                if cur.len() > 0 {
                    cur + seq![' '] + w
                } else {
                    w
                },
            );
        } else {
            lemma_packed_len_bound(rest, width, max_lines, flushed, w);
        }
    }
}

/// The wrapper never returns more than `max_lines` lines (the limit must
/// allow the one line that is always produced).
pub proof fn lemma_wrap_max_lines(text: Seq<char>, width: int, max_lines: int)
    requires
        max_lines >= 1,
    ensures
        wrap_spec(text, width, max_lines).len() <= max_lines,
{
    if width > 0 {
        lemma_packed_len_bound(
            words_of(text),
            width,
            max_lines,
            Seq::<Seq<char>>::empty(),
            Seq::<char>::empty(),
        );
    }
}

/// Every line of `lines` fits within `width` characters.
pub open spec fn all_within(lines: Seq<Seq<char>>, width: int) -> bool {
    forall|k: int| 0 <= k < lines.len() ==> #[trigger] lines[k].len() <= width
}

proof fn lemma_all_within_push(lines: Seq<Seq<char>>, line: Seq<char>, width: int)
    requires
        all_within(lines, width),
        line.len() <= width,
    ensures
        all_within(lines.push(line), width),
{
    let r = lines.push(line);
    assert forall|k: int| 0 <= k < r.len() implies #[trigger] r[k].len() <= width by {
        if k < lines.len() {
            assert(r[k] == lines[k]);
        }
    }
}

/// Hard-splitting adds only lines of at most `width` characters.
proof fn lemma_chunked_width_bound(w: Seq<char>, width: int, max_lines: int, lines: Seq<Seq<char>>)
    requires
        all_within(lines, width),
    ensures
        all_within(chunked(w, width, max_lines, lines), width),
    decreases w.len(),
{
    if !(width <= 0 || w.len() == 0 || lines.len() >= max_lines) {
        if w.len() <= width {
            lemma_all_within_push(lines, w, width);
        } else {
            lemma_all_within_push(lines, w.take(width), width);
            lemma_chunked_width_bound(w.skip(width), width, max_lines, lines.push(w.take(width)));
        }
    }
}

/// Packing produces only lines of at most `width` characters, provided the
/// lines produced so far and the unfinished line respect the width.
proof fn lemma_packed_width_bound(
    words: Seq<Seq<char>>,
    width: int,
    max_lines: int,
    lines: Seq<Seq<char>>,
    cur: Seq<char>,
)
    requires
        cur.len() <= width,
        all_within(lines, width),
    ensures
        all_within(packed(words, width, max_lines, lines, cur), width),
    decreases words.len(),
{
    if lines.len() < max_lines && words.len() == 0 && cur.len() > 0 {
        lemma_all_within_push(lines, cur, width);
    }
    if lines.len() < max_lines && words.len() > 0 {
        let w = words[0];
        let rest = words.drop_first();
        let flushed = if cur.len() > 0 {
            lines.push(cur)
        } else {
            lines
        };
        if cur.len() > 0 {
            lemma_all_within_push(lines, cur, width);
        }
        if w.len() > width {
            lemma_chunked_width_bound(w, width, max_lines, flushed);
            lemma_packed_width_bound(
                rest,
                width,
                max_lines,
                chunked(w, width, max_lines, flushed),
                Seq::<char>::empty(),
            );
        } else if cur.len() + w.len() + 1 <= width {
            lemma_packed_width_bound(
                rest,
                width,
                max_lines,
                lines,
                if cur.len() > 0 {
                    cur + seq![' '] + w
                } else {
                    w
                },
            );
        } else {
            lemma_packed_width_bound(rest, width, max_lines, flushed, w);
        }
    }
}

/// No line the wrapper returns is longer than the target width.
pub proof fn lemma_wrap_line_width(text: Seq<char>, width: int, max_lines: int)
    requires
        width >= 1,
    ensures
        all_within(wrap_spec(text, width, max_lines), width),
{
    let single = seq![Seq::<char>::empty()];
    assert(all_within(single, width)) by {
        assert(single[0].len() == 0);
    }
    lemma_packed_width_bound(
        words_of(text),
        width,
        max_lines,
        Seq::<Seq<char>>::empty(),
        Seq::<char>::empty(),
    );
}

/// A text with no separator characters is a single word.
proof fn lemma_words_from_no_ws(s: Seq<char>, cur: Seq<char>)
    requires
        forall|k: int| 0 <= k < s.len() ==> !is_wspace(s[k]),
    ensures
        words_from(s, cur) == if cur.len() + s.len() > 0 {
            seq![cur + s]
        } else {
            Seq::<Seq<char>>::empty()
        },
    decreases s.len(),
{
    if s.len() == 0 {
        if cur.len() > 0 {
            assert(cur + s =~= cur);
        }
    } else {
        lemma_words_from_no_ws(s.drop_first(), cur.push(s[0]));
        assert(cur.push(s[0]) + s.drop_first() =~= cur + s);
    }
}

/// Hard-splitting a non-empty word with room for every chunk appends exactly
/// `div_ceil(len, width)` chunks of at most `width` characters each, whose
/// concatenation is the word; the lines already present are untouched.
proof fn lemma_chunked_exact(w: Seq<char>, width: int, max_lines: int, lines: Seq<Seq<char>>)
    requires
        width >= 1,
        w.len() >= 1,
        lines.len() + div_ceil(w.len() as int, width) <= max_lines,
    ensures
        ({
            let r = chunked(w, width, max_lines, lines);
            &&& r.len() == lines.len() + div_ceil(w.len() as int, width)
            &&& r.take(lines.len() as int) == lines
            &&& r.skip(lines.len() as int).flatten() == w
            &&& forall|k: int| lines.len() <= k < r.len() ==> #[trigger] r[k].len() <= width
        }),
    decreases w.len(),
{
    let r = chunked(w, width, max_lines, lines);
    let l = w.len() as int;
    lemma_div_plus_one(l - 1, width);
    lemma_div_pos_is_pos(l - 1, width);
    if l <= width {
        lemma_basic_div(l - 1, width);
        assert(div_ceil(l, width) == 1);
        assert(lines.len() < max_lines);
        assert(r == lines.push(w));
        assert(r.take(lines.len() as int) =~= lines);
        assert(r.skip(lines.len() as int) =~= seq![w]);
        seq![w].lemma_flatten_one_element();
    } else {
        let head = w.take(width);
        let tail = w.skip(width);
        assert(div_ceil(tail.len() as int, width) == div_ceil(l, width) - 1);
        lemma_chunked_exact(tail, width, max_lines, lines.push(head));
        let pushed = lines.push(head);
        assert(r == chunked(tail, width, max_lines, pushed));
        assert(r.take(lines.len() as int) =~= pushed.take(lines.len() as int));
        assert(pushed.take(lines.len() as int) =~= lines);
        assert(r[lines.len() as int] == pushed[lines.len() as int]);
        let rest = r.skip(lines.len() as int);
        assert(rest.drop_first() =~= r.skip(lines.len() as int + 1));
        assert(rest.first() == head);
        assert(rest.flatten() == head + r.skip(lines.len() as int + 1).flatten());
        assert(head + tail =~= w);
    }
}

/// A single word longer than the width is hard-split into
/// `div_ceil(len, width)` chunks: each chunk is at most `width` characters
/// and the chunks concatenate back to the word, so no character is lost.
pub proof fn lemma_long_word_hard_split(text: Seq<char>, width: int, max_lines: int)
    requires
        width >= 1,
        text.len() > width,
        forall|k: int| 0 <= k < text.len() ==> !is_wspace(text[k]),
        max_lines >= div_ceil(text.len() as int, width),
    ensures
        ({
            let r = wrap_spec(text, width, max_lines);
            &&& r.len() == div_ceil(text.len() as int, width)
            &&& r.flatten() == text
            &&& forall|k: int| 0 <= k < r.len() ==> #[trigger] r[k].len() <= width
        }),
{
    lemma_words_from_no_ws(text, Seq::<char>::empty());
    assert(Seq::<char>::empty() + text =~= text);
    assert(words_of(text) == seq![text]);
    let l = text.len() as int;
    lemma_div_plus_one(l - 1, width);
    lemma_div_pos_is_pos(l - 1, width);
    assert(div_ceil(l, width) >= 1);
    let none: Seq<Seq<char>> = Seq::<Seq<char>>::empty();
    lemma_chunked_exact(text, width, max_lines, none);
    let chunks = chunked(text, width, max_lines, none);
    let ws = words_of(text);
    assert(ws.len() == 1 && ws[0] == text);
    assert(packed(ws, width, max_lines, none, Seq::<char>::empty()) == packed(
        ws.drop_first(),
        width,
        max_lines,
        chunks,
        Seq::<char>::empty(),
    ));
    assert(ws.drop_first().len() == 0);
    assert(packed(ws.drop_first(), width, max_lines, chunks, Seq::<char>::empty()) == chunks);
    assert(chunks.skip(0) =~= chunks);
}

} // verus!
