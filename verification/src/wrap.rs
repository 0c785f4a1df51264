//! Greedy caption wrapping: split a caption into whitespace-separated words
//! and pack them into lines that fit a width budget.
//!
//! Widths are measured additively, one advance width per character, plus one
//! space advance between adjacent words of a line. A word that fits the
//! budget joins the current line; one that does not starts a new line; a
//! word wider than the whole budget stands alone on its own line, never
//! split.

use vstd::prelude::*;

use crate::font::FontModel;

verus! {

/// The characters the wrapper treats as word separators: the code points
/// with the Unicode White_Space property.
pub open spec fn is_space_char(c: char) -> bool {
    ||| c == ' '
    ||| c == '\t'
    ||| c == '\n'
    ||| c == '\r'
    ||| c == '\u{b}'
    ||| c == '\u{c}'
    ||| c == '\u{85}'
    ||| c == '\u{a0}'
    ||| c == '\u{1680}'
    ||| c == '\u{2000}'
    ||| c == '\u{2001}'
    ||| c == '\u{2002}'
    ||| c == '\u{2003}'
    ||| c == '\u{2004}'
    ||| c == '\u{2005}'
    ||| c == '\u{2006}'
    ||| c == '\u{2007}'
    ||| c == '\u{2008}'
    ||| c == '\u{2009}'
    ||| c == '\u{200a}'
    ||| c == '\u{2028}'
    ||| c == '\u{2029}'
    ||| c == '\u{202f}'
    ||| c == '\u{205f}'
    ||| c == '\u{3000}'
}

/// Whether `c` separates words.
pub fn is_space(c: char) -> (r: bool)
    ensures
        r == is_space_char(c),
{
    c == ' ' || c == '\t' || c == '\n' || c == '\r' || c == '\u{b}' || c == '\u{c}' || c == '\u{85}'
        || c == '\u{a0}' || c == '\u{1680}' || (c >= '\u{2000}' && c <= '\u{200a}') || c
        == '\u{2028}' || c == '\u{2029}' || c == '\u{202f}' || c == '\u{205f}' || c == '\u{3000}'
}

/// The words of `s` still to be produced, given the partial word `cur`
/// scanned so far: a left-to-right scan that closes `cur` at each separator
/// and at the end.
pub open spec fn words_acc(s: Seq<char>, cur: Seq<char>) -> Seq<Seq<char>>
    decreases s.len(),
{
    if s.len() == 0 {
        if cur.len() > 0 {
            seq![cur]
        } else {
            Seq::empty()
        }
    } else if is_space_char(s[0]) {
        if cur.len() > 0 {
            seq![cur] + words_acc(s.drop_first(), Seq::empty())
        } else {
            words_acc(s.drop_first(), Seq::empty())
        }
    } else {
        words_acc(s.drop_first(), cur.push(s[0]))
    }
}

/// The whitespace-separated words of `s`, in order, with empty tokens
/// discarded.
pub open spec fn words(s: Seq<char>) -> Seq<Seq<char>> {
    words_acc(s, Seq::empty())
}

/// Relies on `String::push`: appends exactly the one character to the end.
#[verifier::external_body]
fn push_char(s: &mut String, c: char)
    ensures
        final(s)@ == old(s)@.push(c),
{
    s.push(c);
}

/// Split a caption into its whitespace-separated words.
pub fn split_words(caption: &str) -> (out: Vec<String>)
    ensures
        out.deep_view() == words(caption@),
{
    let n = caption.unicode_len();
    let mut out: Vec<String> = Vec::new();
    let mut cur = String::new();
    let mut cur_len: usize = 0;
    let mut i: usize = 0;
    proof {
        assert(caption@.subrange(0, n as int) =~= caption@);
    }
    while i < n
        invariant
            i <= n,
            n == caption@.len(),
            cur_len == cur@.len(),
            cur_len <= i,
            out.deep_view() + words_acc(caption@.subrange(i as int, n as int), cur@) == words(
                caption@,
            ),
        decreases n - i,
    {
        let ghost sub = caption@.subrange(i as int, n as int);
        let ghost prev_out = out.deep_view();
        let ghost prev_cur = cur@;
        proof {
            assert(sub.drop_first() =~= caption@.subrange(i as int + 1, n as int));
            assert(sub[0] == caption@[i as int]);
        }
        let c = caption.get_char(i);
        if is_space(c) {
            if cur_len > 0 {
                proof {
                    assert(words_acc(sub, prev_cur) == seq![prev_cur] + words_acc(
                        sub.drop_first(),
                        Seq::empty(),
                    ));
                }
                out.push(cur);
                cur = String::new();
                cur_len = 0;
                proof {
                    assert(out.deep_view() =~= prev_out.push(prev_cur));
                    assert(out.deep_view() + words_acc(sub.drop_first(), cur@) =~= prev_out + (
                    seq![prev_cur] + words_acc(sub.drop_first(), Seq::empty())));
                }
            } else {
                proof {
                    assert(words_acc(sub, prev_cur) == words_acc(sub.drop_first(), Seq::empty()));
                    assert(cur@ =~= Seq::<char>::empty());
                }
            }
        } else {
            proof {
                assert(words_acc(sub, prev_cur) == words_acc(
                    sub.drop_first(),
                    prev_cur.push(sub[0]),
                ));
            }
            push_char(&mut cur, c);
            cur_len = cur_len + 1;
        }
        i = i + 1;
    }
    proof {
        assert(caption@.subrange(n as int, n as int) =~= Seq::<char>::empty());
    }
    if cur_len > 0 {
        let ghost prev_out = out.deep_view();
        let ghost prev_cur = cur@;
        out.push(cur);
        proof {
            assert(out.deep_view() =~= prev_out.push(prev_cur));
            assert(out.deep_view() =~= prev_out + seq![prev_cur]);
        }
    } else {
        proof {
            assert(out.deep_view() + Seq::<Seq<char>>::empty() =~= out.deep_view());
        }
    }
    out
}

/// The measured width of a word, in units: the sum of the advance widths of
/// its characters.
pub open spec fn word_width_spec(f: &FontModel, w: Seq<char>) -> int
    decreases w.len(),
{
    if w.len() == 0 {
        0
    } else {
        f.advance_of(w[0]) + word_width_spec(f, w.drop_first())
    }
}

/// A word's measured width is never negative.
pub proof fn lemma_word_width_nonneg(f: &FontModel, w: Seq<char>)
    ensures
        word_width_spec(f, w) >= 0,
    decreases w.len(),
{
    if w.len() > 0 {
        lemma_word_width_nonneg(f, w.drop_first());
    }
}

/// Measure a word, in units.
pub fn word_width(font: &FontModel, w: &str) -> (wd: u128)
    requires
        font.wf(),
    ensures
        wd as int == word_width_spec(font, w@),
        wd < 0x10_0000_0000_0000_0000_0000,
{
    let n = w.unicode_len();
    let mut acc: u128 = 0;
    let mut i: usize = 0;
    proof {
        assert(w@.subrange(0, n as int) =~= w@);
    }
    while i < n
        invariant
            i <= n,
            n == w@.len(),
            font.wf(),
            acc <= i * 0x10_0000,
            word_width_spec(font, w@) == acc + word_width_spec(
                font,
                w@.subrange(i as int, n as int),
            ),
        decreases n - i,
    {
        let ghost sub = w@.subrange(i as int, n as int);
        proof {
            assert(sub.drop_first() =~= w@.subrange(i as int + 1, n as int));
            crate::font::lemma_glyph_of_wf(font, w@[i as int]);
        }
        let c = w.get_char(i);
        let adv = font.advance_width(c);
        acc = acc + adv as u128;
        i = i + 1;
    }
    proof {
        assert(w@.subrange(n as int, n as int) =~= Seq::<char>::empty());
    }
    acc
}

/// The measured width of a line, in units: the widths of its words plus one
/// space advance between each adjacent pair.
pub open spec fn line_width_spec(f: &FontModel, ws: Seq<Seq<char>>) -> int
    decreases ws.len(),
{
    if ws.len() == 0 {
        0
    } else if ws.len() == 1 {
        word_width_spec(f, ws[0])
    } else {
        word_width_spec(f, ws[0]) + f.space_advance() + line_width_spec(f, ws.drop_first())
    }
}

/// Appending a word to a line adds the word's width, plus one space advance
/// when the line was not empty.
pub proof fn lemma_line_width_push(f: &FontModel, ws: Seq<Seq<char>>, w: Seq<char>)
    ensures
        line_width_spec(f, ws.push(w)) == if ws.len() == 0 {
            word_width_spec(f, w)
        } else {
            line_width_spec(f, ws) + f.space_advance() + word_width_spec(f, w)
        },
    decreases ws.len(),
{
    if ws.len() == 0 {
        assert(ws.push(w)[0] == w);
    } else {
        assert(ws.push(w).drop_first() =~= ws.drop_first().push(w));
        lemma_line_width_push(f, ws.drop_first(), w);
    }
}

/// A line's measured width is never negative.
pub proof fn lemma_line_width_nonneg(f: &FontModel, ws: Seq<Seq<char>>)
    ensures
        line_width_spec(f, ws) >= 0,
    decreases ws.len(),
{
    if ws.len() == 1 {
        lemma_word_width_nonneg(f, ws[0]);
    } else if ws.len() > 1 {
        lemma_word_width_nonneg(f, ws[0]);
        lemma_line_width_nonneg(f, ws.drop_first());
    }
}

/// The wrapped lines still to be produced from the words `ws`, given the
/// open line `cur`: greedy, one pass, a word joins the open line exactly
/// when the line would still fit the budget (equality fits); a word too
/// wide for an empty line stands alone.
pub open spec fn wrap_acc(f: &FontModel, ws: Seq<Seq<char>>, max: int, cur: Seq<Seq<char>>) -> Seq<
    Seq<Seq<char>>,
>
    decreases ws.len(),
{
    if ws.len() == 0 {
        if cur.len() > 0 {
            seq![cur]
        } else {
            Seq::empty()
        }
    } else {
        let w = ws[0];
        let ww = word_width_spec(f, w);
        let prospective = if cur.len() > 0 {
            line_width_spec(f, cur) + f.space_advance() + ww
        } else {
            ww
        };
        if prospective <= max {
            wrap_acc(f, ws.drop_first(), max, cur.push(w))
        } else if cur.len() == 0 {
            seq![seq![w]] + wrap_acc(f, ws.drop_first(), max, Seq::empty())
        } else {
            seq![cur] + wrap_acc(f, ws.drop_first(), max, seq![w])
        }
    }
}

/// The greedy wrapping of the words `ws` under the budget `max`.
pub open spec fn wrap_words_spec(f: &FontModel, ws: Seq<Seq<char>>, max: int) -> Seq<
    Seq<Seq<char>>,
> {
    wrap_acc(f, ws, max, Seq::empty())
}

/// Wrap words into lines, greedily, under a budget of `max_units`.
pub fn wrap_words(font: &FontModel, ws: &Vec<String>, max_units: u64) -> (lines: Vec<Vec<String>>)
    requires
        font.wf(),
    ensures
        lines.deep_view() == wrap_words_spec(font, ws.deep_view(), max_units as int),
{
    let n = ws.len();
    let mut lines: Vec<Vec<String>> = Vec::new();
    let mut cur: Vec<String> = Vec::new();
    let mut cur_w: u128 = 0;
    let mut j: usize = 0;
    proof {
        assert(ws.deep_view().subrange(0, n as int) =~= ws.deep_view());
        assert(lines.deep_view() =~= Seq::<Seq<Seq<char>>>::empty());
        assert(cur.deep_view() =~= Seq::<Seq<char>>::empty());
        assert(lines.deep_view() + wrap_acc(
            font,
            ws.deep_view(),
            max_units as int,
            cur.deep_view(),
        ) =~= wrap_acc(font, ws.deep_view(), max_units as int, Seq::empty()));
    }
    while j < n
        invariant
            j <= n,
            n == ws@.len(),
            ws.deep_view().len() == n,
            font.wf(),
            cur_w == line_width_spec(font, cur.deep_view()),
            cur_w < 0x1_0000_0000_0000_0000_0000_0000,
            wrap_words_spec(font, ws.deep_view(), max_units as int) == lines.deep_view()
                + wrap_acc(
                font,
                ws.deep_view().subrange(j as int, n as int),
                max_units as int,
                cur.deep_view(),
            ),
        decreases n - j,
    {
        let ghost sub = ws.deep_view().subrange(j as int, n as int);
        let ghost prev_lines = lines.deep_view();
        let ghost prev_cur = cur.deep_view();
        proof {
            assert(sub.drop_first() =~= ws.deep_view().subrange(j as int + 1, n as int));
            assert(sub[0] == ws.deep_view()[j as int]);
            assert(ws.deep_view()[j as int] == ws@[j as int]@);
            lemma_word_width_nonneg(font, ws@[j as int]@);
            lemma_line_width_nonneg(font, cur.deep_view());
            crate::font::lemma_glyph_of_wf(font, ' ');
        }
        let w = &ws[j];
        let ww = word_width(font, w);
        let space_w = font.advance_width(' ');
        let prospective: u128 = if cur.len() > 0 {
            cur_w + space_w as u128 + ww
        } else {
            ww
        };
        if prospective <= max_units as u128 {
            proof {
                lemma_line_width_push(font, cur.deep_view(), ws@[j as int]@);
                assert(wrap_acc(font, sub, max_units as int, prev_cur) == wrap_acc(
                    font,
                    sub.drop_first(),
                    max_units as int,
                    prev_cur.push(ws@[j as int]@),
                ));
            }
            cur.push(w.clone());
            cur_w = prospective;
            proof {
                assert(cur.deep_view() =~= prev_cur.push(ws@[j as int]@));
            }
        } else if cur.len() == 0 {
            proof {
                assert(prev_cur =~= Seq::<Seq<char>>::empty());
                assert(wrap_acc(font, sub, max_units as int, prev_cur) == seq![
                    seq![ws@[j as int]@],
                ] + wrap_acc(font, sub.drop_first(), max_units as int, Seq::empty()));
            }
            let mut line: Vec<String> = Vec::new();
            line.push(w.clone());
            proof {
                assert(line.deep_view() =~= seq![ws@[j as int]@]);
            }
            lines.push(line);
            proof {
                assert(lines.deep_view() =~= prev_lines.push(seq![ws@[j as int]@]));
                assert(lines.deep_view() + wrap_acc(
                    font,
                    sub.drop_first(),
                    max_units as int,
                    Seq::empty(),
                ) =~= prev_lines + (seq![seq![ws@[j as int]@]] + wrap_acc(
                    font,
                    sub.drop_first(),
                    max_units as int,
                    Seq::empty(),
                )));
            }
        } else {
            proof {
                assert(wrap_acc(font, sub, max_units as int, prev_cur) == seq![prev_cur]
                    + wrap_acc(font, sub.drop_first(), max_units as int, seq![ws@[j as int]@]));
            }
            lines.push(cur);
            cur = Vec::new();
            cur.push(w.clone());
            cur_w = ww;
            proof {
                assert(lines.deep_view() =~= prev_lines.push(prev_cur));
                assert(cur.deep_view() =~= seq![ws@[j as int]@]);
                assert(lines.deep_view() + wrap_acc(
                    font,
                    sub.drop_first(),
                    max_units as int,
                    seq![ws@[j as int]@],
                ) =~= prev_lines + (seq![prev_cur] + wrap_acc(
                    font,
                    sub.drop_first(),
                    max_units as int,
                    seq![ws@[j as int]@],
                )));
                assert(line_width_spec(font, cur.deep_view()) == word_width_spec(
                    font,
                    ws@[j as int]@,
                ));
            }
        }
        j = j + 1;
    }
    proof {
        assert(ws.deep_view().subrange(n as int, n as int) =~= Seq::<Seq<char>>::empty());
    }
    if cur.len() > 0 {
        let ghost prev_lines = lines.deep_view();
        let ghost prev_cur = cur.deep_view();
        lines.push(cur);
        proof {
            assert(lines.deep_view() =~= prev_lines.push(prev_cur));
            assert(lines.deep_view() =~= prev_lines + seq![prev_cur]);
        }
    } else {
        proof {
            assert(lines.deep_view() + Seq::<Seq<Seq<char>>>::empty() =~= lines.deep_view());
        }
    }
    lines
}

/// The text of a line: its words joined by single spaces.
pub open spec fn join_words(ws: Seq<Seq<char>>) -> Seq<char>
    decreases ws.len(),
{
    if ws.len() == 0 {
        Seq::empty()
    } else if ws.len() == 1 {
        ws[0]
    } else {
        ws[0] + seq![' '] + join_words(ws.drop_first())
    }
}

/// Appending a word to a line appends the word to the line's text, behind a
/// single space when the line was not empty.
pub proof fn lemma_join_push(ws: Seq<Seq<char>>, w: Seq<char>)
    ensures
        join_words(ws.push(w)) == if ws.len() == 0 {
            w
        } else {
            join_words(ws) + seq![' '] + w
        },
    decreases ws.len(),
{
    if ws.len() == 0 {
        assert(ws.push(w)[0] == w);
    } else if ws.len() == 1 {
        assert(ws.push(w).drop_first() =~= seq![w]);
        assert(ws.push(w)[0] == ws[0]);
        assert(join_words(seq![w]) == w);
        assert(join_words(ws.push(w)) =~= ws[0] + seq![' '] + w);
    } else {
        assert(ws.push(w).drop_first() =~= ws.drop_first().push(w));
        lemma_join_push(ws.drop_first(), w);
        assert(join_words(ws.push(w)) =~= join_words(ws) + seq![' '] + w);
    }
}

/// Join a line's words with single spaces.
pub fn join_line(line: &Vec<String>) -> (s: String)
    ensures
        s@ == join_words(line.deep_view()),
{
    let mut out = String::new();
    let mut j: usize = 0;
    proof {
        assert(line.deep_view().subrange(0, 0) =~= Seq::<Seq<char>>::empty());
    }
    while j < line.len()
        invariant
            j <= line@.len(),
            line.deep_view().len() == line@.len(),
            out@ == join_words(line.deep_view().subrange(0, j as int)),
        decreases line@.len() - j,
    {
        let ghost prefix = line.deep_view().subrange(0, j as int);
        proof {
            assert(line.deep_view().subrange(0, j as int + 1) =~= prefix.push(
                line.deep_view()[j as int],
            ));
            lemma_join_push(prefix, line.deep_view()[j as int]);
            reveal_strlit(" ");
            assert(" "@ =~= seq![' ']);
        }
        if j > 0 {
            out.append(" ");
        }
        out.append(line[j].as_str());
        j = j + 1;
    }
    proof {
        assert(line.deep_view().subrange(0, line@.len() as int) =~= line.deep_view());
    }
    out
}

/// The wrapped line texts of a caption: its words wrapped under the budget,
/// each line joined by single spaces.
pub open spec fn lines_spec(f: &FontModel, caption: Seq<char>, max: int) -> Seq<Seq<char>> {
    wrap_words_spec(f, words(caption), max).map_values(|l: Seq<Seq<char>>| join_words(l))
}

/// Wrap a caption into line texts under a budget of `max_units`: split it
/// into whitespace-separated words, pack them greedily into lines, and join
/// each line with single spaces. An empty caption yields no lines.
pub fn split_into_lines(caption: &str, font: &FontModel, max_units: u64) -> (lines: Vec<String>)
    requires
        font.wf(),
    ensures
        lines.deep_view() == lines_spec(font, caption@, max_units as int),
{
    let ws = split_words(caption);
    let wrapped = wrap_words(font, &ws, max_units);
    let ghost wl = wrapped.deep_view();
    let mut out: Vec<String> = Vec::new();
    let mut k: usize = 0;
    while k < wrapped.len()
        invariant
            k <= wrapped@.len(),
            wl == wrapped.deep_view(),
            wl.len() == wrapped@.len(),
            wl == wrap_words_spec(font, words(caption@), max_units as int),
            out.deep_view() == wl.subrange(0, k as int).map_values(
                (|l: Seq<Seq<char>>| join_words(l)),
            ),
        decreases wrapped@.len() - k,
    {
        let ghost prev_out = out.deep_view();
        let s = join_line(&wrapped[k]);
        out.push(s);
        proof {
            assert(wl.subrange(0, k as int + 1) =~= wl.subrange(0, k as int).push(wl[k as int]));
            assert(out.deep_view() =~= prev_out.push(join_words(wl[k as int])));
            assert(out.deep_view() =~= wl.subrange(0, k as int + 1).map_values(
                (|l: Seq<Seq<char>>| join_words(l)),
            ));
        }
        k = k + 1;
    }
    proof {
        assert(wl.subrange(0, wl.len() as int) =~= wl);
        assert(out.deep_view() =~= lines_spec(font, caption@, max_units as int));
    }
    out
}

proof fn lemma_wrap_acc_flatten(f: &FontModel, ws: Seq<Seq<char>>, max: int, cur: Seq<Seq<char>>)
    ensures
        wrap_acc(f, ws, max, cur).flatten() == cur + ws,
    decreases ws.len(),
{
    if ws.len() == 0 {
        if cur.len() > 0 {
            assert(seq![cur].drop_first() =~= Seq::<Seq<Seq<char>>>::empty());
            assert(Seq::<Seq<Seq<char>>>::empty().flatten() =~= Seq::<Seq<char>>::empty());
            assert(seq![cur].flatten() =~= cur + ws);
        } else {
            assert(Seq::<Seq<Seq<char>>>::empty().flatten() =~= cur + ws);
        }
    } else {
        let w = ws[0];
        let ww = word_width_spec(f, w);
        let prospective = if cur.len() > 0 {
            line_width_spec(f, cur) + f.space_advance() + ww
        } else {
            ww
        };
        if prospective <= max {
            lemma_wrap_acc_flatten(f, ws.drop_first(), max, cur.push(w));
            assert(cur.push(w) + ws.drop_first() =~= cur + ws);
        } else if cur.len() == 0 {
            let rest = wrap_acc(f, ws.drop_first(), max, Seq::empty());
            lemma_wrap_acc_flatten(f, ws.drop_first(), max, Seq::empty());
            assert((seq![seq![w]] + rest).drop_first() =~= rest);
            assert((seq![seq![w]] + rest).first() == seq![w]);
            assert(Seq::<Seq<char>>::empty() + ws.drop_first() =~= ws.drop_first());
            assert(seq![w] + ws.drop_first() =~= cur + ws);
        } else {
            let rest = wrap_acc(f, ws.drop_first(), max, seq![w]);
            lemma_wrap_acc_flatten(f, ws.drop_first(), max, seq![w]);
            assert((seq![cur] + rest).drop_first() =~= rest);
            assert((seq![cur] + rest).first() == cur);
            assert(cur + (seq![w] + ws.drop_first()) =~= cur + ws);
        }
    }
}

/// Law: wrapping loses, reorders and invents nothing — the words of the
/// wrapped lines, concatenated in line order, are exactly the words that
/// were wrapped.
pub proof fn lemma_wrap_preserves_words(f: &FontModel, ws: Seq<Seq<char>>, max: int)
    ensures
        wrap_words_spec(f, ws, max).flatten() == ws,
{
    lemma_wrap_acc_flatten(f, ws, max, Seq::empty());
    assert(Seq::<Seq<char>>::empty() + ws =~= ws);
}

proof fn lemma_wrap_acc_fits(f: &FontModel, ws: Seq<Seq<char>>, max: int, cur: Seq<Seq<char>>)
    requires
        cur.len() <= 1 || line_width_spec(f, cur) <= max,
    ensures
        forall|i: int|
            0 <= i < wrap_acc(f, ws, max, cur).len() ==> {
                let l = #[trigger] wrap_acc(f, ws, max, cur)[i];
                l.len() >= 1 && (l.len() == 1 || line_width_spec(f, l) <= max)
            },
    decreases ws.len(),
{
    if ws.len() == 0 {
        if cur.len() > 0 {
            assert(wrap_acc(f, ws, max, cur) == seq![cur]);
            assert(seq![cur][0] == cur);
        }
    } else {
        let w = ws[0];
        let ww = word_width_spec(f, w);
        let prospective = if cur.len() > 0 {
            line_width_spec(f, cur) + f.space_advance() + ww
        } else {
            ww
        };
        if prospective <= max {
            lemma_line_width_push(f, cur, w);
            lemma_word_width_nonneg(f, w);
            lemma_line_width_nonneg(f, cur);
            lemma_wrap_acc_fits(f, ws.drop_first(), max, cur.push(w));
            assert(wrap_acc(f, ws, max, cur) == wrap_acc(f, ws.drop_first(), max, cur.push(w)));
        } else if cur.len() == 0 {
            let rest = wrap_acc(f, ws.drop_first(), max, Seq::empty());
            lemma_wrap_acc_fits(f, ws.drop_first(), max, Seq::empty());
            assert forall|i: int| 0 <= i < (seq![seq![w]] + rest).len() implies {
                let l = #[trigger] (seq![seq![w]] + rest)[i];
                l.len() >= 1 && (l.len() == 1 || line_width_spec(f, l) <= max)
            } by {
                if i > 0 {
                    assert((seq![seq![w]] + rest)[i] == rest[i - 1]);
                }
            }
        } else {
            let rest = wrap_acc(f, ws.drop_first(), max, seq![w]);
            lemma_wrap_acc_fits(f, ws.drop_first(), max, seq![w]);
            assert forall|i: int| 0 <= i < (seq![cur] + rest).len() implies {
                let l = #[trigger] (seq![cur] + rest)[i];
                l.len() >= 1 && (l.len() == 1 || line_width_spec(f, l) <= max)
            } by {
                if i > 0 {
                    assert((seq![cur] + rest)[i] == rest[i - 1]);
                }
            }
        }
    }
}

/// Law: no wrapped line is wider than the budget, unless it is a single
/// word whose own width exceeds the budget; and no wrapped line is empty.
pub proof fn lemma_wrap_lines_fit(f: &FontModel, ws: Seq<Seq<char>>, max: int)
    ensures
        forall|i: int|
            0 <= i < wrap_words_spec(f, ws, max).len() ==> {
                let l = #[trigger] wrap_words_spec(f, ws, max)[i];
                l.len() >= 1 && (l.len() == 1 || line_width_spec(f, l) <= max)
            },
{
    lemma_wrap_acc_fits(f, ws, max, Seq::empty());
}

/// Every word a scan produces is nonempty and free of separators.
pub proof fn lemma_words_acc_wf(s: Seq<char>, cur: Seq<char>)
    requires
        forall|k: int| 0 <= k < cur.len() ==> !is_space_char(#[trigger] cur[k]),
    ensures
        forall|i: int|
            0 <= i < words_acc(s, cur).len() ==> {
                let w = #[trigger] words_acc(s, cur)[i];
                w.len() >= 1 && (forall|k: int| 0 <= k < w.len() ==> !is_space_char(#[trigger] w[k]))
            },
    decreases s.len(),
{
    if s.len() == 0 {
        if cur.len() > 0 {
            assert(words_acc(s, cur) == seq![cur]);
            assert(seq![cur][0] == cur);
        }
    } else if is_space_char(s[0]) {
        lemma_words_acc_wf(s.drop_first(), Seq::empty());
        if cur.len() > 0 {
            let rest = words_acc(s.drop_first(), Seq::empty());
            assert(words_acc(s, cur) == seq![cur] + rest);
            assert forall|i: int| 0 <= i < (seq![cur] + rest).len() implies {
                let w = #[trigger] (seq![cur] + rest)[i];
                w.len() >= 1 && (forall|k: int| 0 <= k < w.len() ==> !is_space_char(#[trigger] w[k]))
            } by {
                if i == 0 {
                    assert((seq![cur] + rest)[0] == cur);
                } else {
                    assert((seq![cur] + rest)[i] == rest[i - 1]);
                }
            }
        } else {
            assert(words_acc(s, cur) == words_acc(s.drop_first(), Seq::empty()));
        }
    } else {
        assert(forall|k: int|
            0 <= k < cur.push(s[0]).len() ==> !is_space_char(#[trigger] cur.push(s[0])[k]));
        lemma_words_acc_wf(s.drop_first(), cur.push(s[0]));
        assert(words_acc(s, cur) == words_acc(s.drop_first(), cur.push(s[0])));
    }
}

/// Scanning a separator-free run prepended to a text simply extends the
/// word being accumulated.
proof fn lemma_words_acc_absorb(w: Seq<char>, s: Seq<char>, cur: Seq<char>)
    requires
        forall|k: int| 0 <= k < w.len() ==> !is_space_char(#[trigger] w[k]),
    ensures
        words_acc(w + s, cur) == words_acc(s, cur + w),
    decreases w.len(),
{
    if w.len() == 0 {
        assert(w + s =~= s);
        assert(cur + w =~= cur);
    } else {
        assert((w + s)[0] == w[0]);
        assert(!is_space_char(w[0]));
        assert((w + s).drop_first() =~= w.drop_first() + s);
        assert(forall|k: int|
            0 <= k < w.drop_first().len() ==> !is_space_char(#[trigger] w.drop_first()[k]));
        lemma_words_acc_absorb(w.drop_first(), s, cur.push(w[0]));
        assert(cur.push(w[0]) + w.drop_first() =~= cur + w);
    }
}

/// Law: splitting is the inverse of joining — for any sequence of nonempty,
/// separator-free words, the words of the text they form when joined by
/// single spaces are exactly those words again.
pub proof fn lemma_words_join_roundtrip(ws: Seq<Seq<char>>)
    requires
        forall|i: int|
            0 <= i < ws.len() ==> {
                let w = #[trigger] ws[i];
                w.len() >= 1 && (forall|k: int| 0 <= k < w.len() ==> !is_space_char(#[trigger] w[k]))
            },
    ensures
        words(join_words(ws)) == ws,
    decreases ws.len(),
{
    if ws.len() == 0 {
        assert(words(join_words(ws)) =~= ws);
    } else if ws.len() == 1 {
        assert(ws[0] + Seq::<char>::empty() =~= ws[0]);
        lemma_words_acc_absorb(ws[0], Seq::empty(), Seq::empty());
        assert(Seq::<char>::empty() + ws[0] =~= ws[0]);
        assert(words_acc(Seq::empty(), ws[0]) =~= seq![ws[0]]);
        assert(seq![ws[0]] =~= ws);
    } else {
        let rest = ws.drop_first();
        let tail = seq![' '] + join_words(rest);
        assert(join_words(ws) =~= ws[0] + tail);
        lemma_words_acc_absorb(ws[0], tail, Seq::empty());
        assert(Seq::<char>::empty() + ws[0] =~= ws[0]);
        assert(tail[0] == ' ');
        assert(tail.drop_first() =~= join_words(rest));
        assert(forall|i: int|
            0 <= i < rest.len() ==> {
                let w = #[trigger] rest[i];
                w.len() >= 1 && (forall|k: int| 0 <= k < w.len() ==> !is_space_char(#[trigger] w[k]))
            });
        lemma_words_join_roundtrip(rest);
        assert(words_acc(tail, ws[0]) =~= seq![ws[0]] + words(join_words(rest)));
        assert(seq![ws[0]] + rest =~= ws);
    }
}

/// Joining two nonempty runs of words equals joining each and putting one
/// space between the results.
proof fn lemma_join_concat(a: Seq<Seq<char>>, b: Seq<Seq<char>>)
    requires
        a.len() > 0,
        b.len() > 0,
    ensures
        join_words(a + b) == join_words(a) + seq![' '] + join_words(b),
    decreases a.len(),
{
    assert((a + b)[0] == a[0]);
    if a.len() == 1 {
        assert((a + b).drop_first() =~= b);
        assert(join_words(a + b) =~= a[0] + seq![' '] + join_words(b));
    } else {
        assert((a + b).drop_first() =~= a.drop_first() + b);
        lemma_join_concat(a.drop_first(), b);
        assert(join_words(a + b) =~= join_words(a) + seq![' '] + join_words(b));
    }
}

/// Joining line texts (each line's words joined by spaces) with single
/// spaces gives the same text as joining all the words at once, provided no
/// line is empty.
proof fn lemma_join_of_line_texts(lines: Seq<Seq<Seq<char>>>)
    requires
        forall|i: int| 0 <= i < lines.len() ==> (#[trigger] lines[i]).len() > 0,
    ensures
        join_words(lines.map_values(|l: Seq<Seq<char>>| join_words(l))) == join_words(
            lines.flatten(),
        ),
    decreases lines.len(),
{
    let texts = lines.map_values(|l: Seq<Seq<char>>| join_words(l));
    if lines.len() == 0 {
        assert(lines.flatten() =~= Seq::<Seq<char>>::empty());
        assert(join_words(texts) =~= join_words(lines.flatten()));
    } else if lines.len() == 1 {
        assert(lines.drop_first().len() == 0);
        assert(lines.drop_first().flatten() =~= Seq::<Seq<char>>::empty());
        assert(lines.flatten() =~= lines[0]);
        assert(texts =~= seq![join_words(lines[0])]);
        assert(join_words(texts) == join_words(lines[0]));
    } else {
        let rest = lines.drop_first();
        assert(forall|i: int| 0 <= i < rest.len() ==> (#[trigger] rest[i]).len() > 0);
        lemma_join_of_line_texts(rest);
        assert(texts[0] == join_words(lines[0]));
        assert(texts.drop_first() =~= rest.map_values(|l: Seq<Seq<char>>| join_words(l)));
        assert(join_words(texts) == join_words(lines[0]) + seq![' '] + join_words(
            rest.map_values(|l: Seq<Seq<char>>| join_words(l)),
        ));
        assert(lines.flatten() == lines[0] + rest.flatten());
        assert(rest.flatten().len() > 0) by {
            assert(rest.flatten() == rest[0] + rest.drop_first().flatten());
        }
        lemma_join_concat(lines[0], rest.flatten());
    }
}

/// Law: wrapping is idempotent — rebuild the caption text from the wrapped
/// line texts, in order, joined by single spaces, and wrapping that text
/// with the same budget reproduces exactly the same line texts.
pub proof fn lemma_wrap_idempotent(f: &FontModel, caption: Seq<char>, max: int)
    ensures
        lines_spec(f, join_words(lines_spec(f, caption, max)), max) == lines_spec(f, caption, max),
{
    let ws = words(caption);
    let wrapped = wrap_words_spec(f, ws, max);
    lemma_words_acc_wf(caption, Seq::empty());
    lemma_wrap_preserves_words(f, ws, max);
    lemma_wrap_lines_fit(f, ws, max);
    lemma_join_of_line_texts(wrapped);
    lemma_words_join_roundtrip(ws);
}

} // verus!
