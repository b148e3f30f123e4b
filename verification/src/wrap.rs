//! Word wrapping of input text into display lines.
//!
//! A line is assembled from a group of words, each word followed by one
//! separator space. The wrap policy is a left fold over the word sequence:
//! whenever the running character count of the current group plus the next
//! word and its separator would exceed the limit, the current group is
//! flushed to the output before the word starts a new group.

use vstd::prelude::*;

verus! {

/// Characters treated as word separators.
pub open spec fn is_space_char(c: char) -> bool {
    c == ' ' || c == '\t' || c == '\n' || c == '\r' || c == '\u{b}' || c == '\u{c}'
}

/// Left fold splitting a character sequence into words: `acc` holds the
/// finished words, `cur` the run of non-separator characters being read.
pub open spec fn words_go(acc: Seq<Seq<char>>, cur: Seq<char>, s: Seq<char>) -> Seq<Seq<char>>
    decreases s.len(),
{
    if s.len() == 0 {
        if cur.len() == 0 {
            acc
        } else {
            acc.push(cur)
        }
    } else if is_space_char(s[0]) {
        if cur.len() == 0 {
            words_go(acc, cur, s.drop_first())
        } else {
            words_go(acc.push(cur), Seq::empty(), s.drop_first())
        }
    } else {
        words_go(acc, cur.push(s[0]), s.drop_first())
    }
}

/// The words of `s`: maximal runs of non-separator characters, in order.
pub open spec fn words_of(s: Seq<char>) -> Seq<Seq<char>> {
    words_go(Seq::empty(), Seq::empty(), s)
}

/// The character count of the line assembled from word group `g`:
/// every word is followed by one separator space.
pub open spec fn group_cost(g: Seq<Seq<char>>) -> int
    decreases g.len(),
{
    if g.len() == 0 {
        0
    } else {
        g[0].len() + 1 + group_cost(g.drop_first())
    }
}

/// The text of the line assembled from word group `g`.
pub open spec fn group_text(g: Seq<Seq<char>>) -> Seq<char>
    decreases g.len(),
{
    if g.len() == 0 {
        Seq::empty()
    } else {
        g[0] + seq![' '] + group_text(g.drop_first())
    }
}

/// Left fold of the wrap policy over a word sequence. `done` holds the
/// flushed groups and `cur` the group being accumulated.
pub open spec fn wrap_go(
    done: Seq<Seq<Seq<char>>>,
    cur: Seq<Seq<char>>,
    words: Seq<Seq<char>>,
    max: int,
) -> Seq<Seq<Seq<char>>>
    decreases words.len(),
{
    if words.len() == 0 {
        if cur.len() == 0 {
            done
        } else {
            done.push(cur)
        }
    } else {
        let w = words[0];
        if group_cost(cur) + w.len() + 1 > max {
            wrap_go(done.push(cur), seq![w], words.drop_first(), max)
        } else {
            wrap_go(done, cur.push(w), words.drop_first(), max)
        }
    }
}

/// The word groups of the wrapped text.
pub open spec fn wrap_groups(words: Seq<Seq<char>>, max: int) -> Seq<Seq<Seq<char>>> {
    wrap_go(Seq::empty(), Seq::empty(), words, max)
}

/// The display lines of `s` wrapped at `max` characters.
pub open spec fn wrap_lines(s: Seq<char>, max: int) -> Seq<Seq<char>> {
    wrap_groups(words_of(s), max).map_values(|g: Seq<Seq<char>>| group_text(g))
}

/// The character sequences of a vector of owned strings.
pub open spec fn line_views(v: Seq<String>) -> Seq<Seq<char>> {
    v.map_values(|s: String| s@)
}

/// A line's character count is never negative.
pub proof fn lemma_group_cost_nonneg(g: Seq<Seq<char>>)
    ensures
        group_cost(g) >= 0,
    decreases g.len(),
{
    if g.len() > 0 {
        lemma_group_cost_nonneg(g.drop_first());
    }
}

/// Appending a word to a group adds the word's length plus one separator
/// to the group's character count.
pub proof fn lemma_group_cost_push(g: Seq<Seq<char>>, w: Seq<char>)
    ensures
        group_cost(g.push(w)) == group_cost(g) + w.len() + 1,
    decreases g.len(),
{
    if g.len() == 0 {
        assert(g.push(w).drop_first() =~= Seq::<Seq<char>>::empty());
        assert(group_cost(Seq::<Seq<char>>::empty()) == 0);
        assert(g.push(w)[0] == w);
    } else {
        assert(g.push(w).drop_first() =~= g.drop_first().push(w));
        assert(g.push(w)[0] == g[0]);
        lemma_group_cost_push(g.drop_first(), w);
    }
}

/// Appending a word to a group appends the word and one separator space
/// to the group's line text.
pub proof fn lemma_group_text_push(g: Seq<Seq<char>>, w: Seq<char>)
    ensures
        group_text(g.push(w)) == group_text(g) + w + seq![' '],
    decreases g.len(),
{
    if g.len() == 0 {
        assert(g.push(w).drop_first() =~= Seq::<Seq<char>>::empty());
        assert(group_text(Seq::<Seq<char>>::empty()) == Seq::<char>::empty());
        assert(g.push(w)[0] == w);
        assert(group_text(g.push(w)) =~= group_text(g) + w + seq![' ']);
    } else {
        assert(g.push(w).drop_first() =~= g.drop_first().push(w));
        assert(g.push(w)[0] == g[0]);
        lemma_group_text_push(g.drop_first(), w);
        assert(group_text(g.push(w)) == g[0] + seq![' '] + group_text(g.drop_first().push(w)));
        assert(group_text(g.push(w)) =~= group_text(g) + w + seq![' ']);
    }
}

/// A group's line text is exactly as long as the group's character count.
pub proof fn lemma_group_text_len(g: Seq<Seq<char>>)
    ensures
        group_text(g).len() == group_cost(g),
    decreases g.len(),
{
    if g.len() > 0 {
        lemma_group_text_len(g.drop_first());
    }
}

/// Whether `c` is a word separator.
pub fn is_space(c: char) -> (r: bool)
    ensures
        r == is_space_char(c),
{
    c == ' ' || c == '\t' || c == '\n' || c == '\r' || c == '\u{b}' || c == '\u{c}'
}

/// Splits `input` into its whitespace-separated words.
pub fn split_words(input: &str) -> (words: Vec<String>)
    ensures
        line_views(words@) == words_of(input@),
{
    let n: usize = input.unicode_len();
    let mut words: Vec<String> = Vec::new();
    let mut cur: String = String::new();
    let mut i: usize = 0;
    proof {
        assert(line_views(words@) =~= Seq::<Seq<char>>::empty());
        assert(input@.skip(0) =~= input@);
    }
    while i < n
        invariant
            n == input@.len(),
            i <= n,
            words_go(line_views(words@), cur@, input@.skip(i as int)) == words_of(input@),
        decreases n - i,
    {
        let c = input.get_char(i);
        proof {
            assert(input@.skip(i as int)[0] == c);
            assert(input@.skip(i as int).drop_first() =~= input@.skip(i + 1));
        }
        if is_space(c) {
            if !cur.as_str().is_empty() {
                let ghost prev_words = words@;
                let ghost prev_cur = cur@;
                words.push(cur);
                cur = String::new();
                proof {
                    assert(line_views(words@) =~= line_views(prev_words).push(prev_cur));
                }
            }
        } else {
            let piece = input.substring_char(i, i + 1);
            proof {
                assert(piece@ =~= seq![c]);
            }
            let ghost prev_cur = cur@;
            cur.append(piece);
            proof {
                assert(cur@ =~= prev_cur.push(c));
            }
        }
        i = i + 1;
    }
    proof {
        assert(input@.skip(n as int) =~= Seq::<char>::empty());
    }
    if !cur.as_str().is_empty() {
        let ghost prev_words = words@;
        let ghost prev_cur = cur@;
        words.push(cur);
        proof {
            assert(line_views(words@) =~= line_views(prev_words).push(prev_cur));
        }
    }
    words
}

/// Wraps `input` at `wrap_at` characters. Words are accumulated into lines,
/// each word followed by one space; a line is flushed before the word whose
/// addition would push the running count past the limit, and a word longer
/// than the limit is never split.
pub fn wrap_text(input: &str, wrap_at: u32) -> (r: Vec<String>)
    ensures
        line_views(r@) == wrap_lines(input@, wrap_at as int),
{
    let words = split_words(input);
    let ghost wordseq = words_of(input@);
    let max: u64 = wrap_at as u64;
    let mut out: Vec<String> = Vec::new();
    let mut line: String = String::new();
    let mut count: u64 = 0;
    let ghost mut done: Seq<Seq<Seq<char>>> = Seq::empty();
    let ghost mut cur: Seq<Seq<char>> = Seq::empty();
    let mut j: usize = 0;
    proof {
        assert(line_views(out@) =~= done.map_values(|g: Seq<Seq<char>>| group_text(g)));
        assert(wordseq.skip(0) =~= wordseq);
    }
    while j < words.len()
        invariant
            j <= words@.len(),
            line_views(words@) == wordseq,
            max == wrap_at,
            line_views(out@) == done.map_values(|g: Seq<Seq<char>>| group_text(g)),
            line@ == group_text(cur),
            count as int == (if group_cost(cur) <= max as int {
                group_cost(cur)
            } else {
                max as int + 1
            }),
            wrap_go(done, cur, wordseq.skip(j as int), max as int) == wrap_groups(
                wordseq,
                max as int,
            ),
        decreases words@.len() - j,
    {
        let ghost prev_done = done;
        let ghost prev_cur = cur;
        let ghost prev_line = line@;
        let ghost prev_out = out@;
        let w = &words[j];
        let wl_usize: usize = w.as_str().unicode_len();
        let wl: u64 = wl_usize as u64;
        proof {
            assert(wordseq.skip(j as int)[0] == w@);
            assert(wordseq.skip(j as int).drop_first() =~= wordseq.skip(j + 1));
            lemma_group_cost_nonneg(cur);
        }
        let exceeds: bool = if wl >= max {
            true
        } else {
            count + wl + 1 > max
        };
        proof {
            assert(exceeds == (group_cost(cur) + w@.len() + 1 > max as int));
        }
        if exceeds {
            out.push(line);
            line = String::new();
            line.append(w.as_str());
            line.append(" ");
            count = if wl >= max {
                max + 1
            } else {
                wl + 1
            };
            proof {
                done = prev_done.push(prev_cur);
                cur = seq![w@];
                reveal_strlit(" ");
                assert(" "@ =~= seq![' ']);
                assert(cur.drop_first() =~= Seq::<Seq<char>>::empty());
                assert(group_text(Seq::<Seq<char>>::empty()) == Seq::<char>::empty());
                assert(group_cost(Seq::<Seq<char>>::empty()) == 0);
                assert(cur[0] == w@);
                assert(group_text(cur) =~= w@ + seq![' ']);
                assert(group_cost(cur) == w@.len() + 1);
                assert(line@ =~= group_text(cur));
                assert(line_views(out@) =~= line_views(prev_out).push(prev_line));
                assert(done.map_values(|g: Seq<Seq<char>>| group_text(g)) =~= prev_done.map_values(
                    |g: Seq<Seq<char>>| group_text(g),
                ).push(group_text(prev_cur)));
                assert(line_views(prev_out) =~= prev_done.map_values(
                    |g: Seq<Seq<char>>| group_text(g),
                ));
                assert(line_views(out@) =~= done.map_values(|g: Seq<Seq<char>>| group_text(g)));
            }
        } else {
            line.append(w.as_str());
            line.append(" ");
            count = count + wl + 1;
            proof {
                cur = prev_cur.push(w@);
                lemma_group_cost_push(prev_cur, w@);
                lemma_group_text_push(prev_cur, w@);
                reveal_strlit(" ");
                assert(" "@ =~= seq![' ']);
                assert(line@ =~= group_text(cur));
            }
        }
        j = j + 1;
    }
    proof {
        assert(wordseq.skip(words@.len() as int) =~= Seq::<Seq<char>>::empty());
    }
    if !line.as_str().is_empty() {
        let ghost prev_done = done;
        let ghost prev_line = line@;
        let ghost prev_out = out@;
        out.push(line);
        proof {
            done = prev_done.push(cur);
            lemma_group_text_len(cur);
            assert(cur.len() != 0);
            assert(line_views(out@) =~= line_views(prev_out).push(prev_line));
            assert(done.map_values(|g: Seq<Seq<char>>| group_text(g)) =~= prev_done.map_values(
                |g: Seq<Seq<char>>| group_text(g),
            ).push(group_text(cur)));
            assert(line_views(prev_out) =~= prev_done.map_values(
                |g: Seq<Seq<char>>| group_text(g),
            ));
            assert(line_views(out@) =~= done.map_values(|g: Seq<Seq<char>>| group_text(g)));
        }
    } else {
        proof {
            lemma_group_text_len(cur);
            if cur.len() > 0 {
                lemma_group_cost_nonneg(cur.drop_first());
            }
            assert(cur.len() == 0);
        }
    }
    out
}

/// A word group fits the wrap limit when its line stays within `max`
/// characters, or it holds a single (over-long) word.
pub open spec fn group_fits(g: Seq<Seq<char>>, max: int) -> bool {
    group_cost(g) <= max || g.len() == 1
}

proof fn lemma_wrap_go_flatten(
    done: Seq<Seq<Seq<char>>>,
    cur: Seq<Seq<char>>,
    words: Seq<Seq<char>>,
    max: int,
)
    ensures
        wrap_go(done, cur, words, max).flatten() == done.flatten() + cur + words,
    decreases words.len(),
{
    broadcast use vstd::prelude::Seq::lemma_flatten_push;

    if words.len() == 0 {
        if cur.len() == 0 {
            assert(done.flatten() =~= done.flatten() + cur + words);
        } else {
            assert(done.push(cur).flatten() =~= done.flatten() + cur + words);
        }
    } else {
        let w = words[0];
        if group_cost(cur) + w.len() + 1 > max {
            lemma_wrap_go_flatten(done.push(cur), seq![w], words.drop_first(), max);
            assert(done.push(cur).flatten() + seq![w] + words.drop_first() =~= done.flatten()
                + cur + words);
        } else {
            lemma_wrap_go_flatten(done, cur.push(w), words.drop_first(), max);
            assert(done.flatten() + cur.push(w) + words.drop_first() =~= done.flatten() + cur
                + words);
        }
    }
}

/// Wrapping loses, duplicates and reorders nothing: concatenating the word
/// groups of all output lines yields the input's word sequence exactly.
pub proof fn lemma_wrap_preserves_words(words: Seq<Seq<char>>, max: int)
    ensures
        wrap_groups(words, max).flatten() == words,
{
    lemma_wrap_go_flatten(Seq::empty(), Seq::empty(), words, max);
    assert(Seq::<Seq<Seq<char>>>::empty().flatten() =~= Seq::<Seq<char>>::empty());
    assert(Seq::<Seq<Seq<char>>>::empty().flatten() + Seq::<Seq<char>>::empty() + words =~= words);
}

proof fn lemma_wrap_go_fits(
    done: Seq<Seq<Seq<char>>>,
    cur: Seq<Seq<char>>,
    words: Seq<Seq<char>>,
    max: int,
)
    requires
        max >= 0,
        forall|i: int| 0 <= i < done.len() ==> group_fits(#[trigger] done[i], max),
        group_fits(cur, max),
    ensures
        forall|i: int|
            0 <= i < wrap_go(done, cur, words, max).len() ==> group_fits(
                #[trigger] wrap_go(done, cur, words, max)[i],
                max,
            ),
    decreases words.len(),
{
    assert forall|i: int| 0 <= i < done.push(cur).len() implies group_fits(
        #[trigger] done.push(cur)[i],
        max,
    ) by {
        if i < done.len() {
            assert(done.push(cur)[i] == done[i]);
        } else {
            assert(done.push(cur)[i] == cur);
        }
    }
    if words.len() == 0 {
        if cur.len() == 0 {
            assert(wrap_go(done, cur, words, max) == done);
        } else {
            assert(wrap_go(done, cur, words, max) == done.push(cur));
        }
    } else {
        let w = words[0];
        if group_cost(cur) + w.len() + 1 > max {
            assert(group_cost(seq![w]) == w.len() + 1) by {
                assert(seq![w].drop_first() =~= Seq::<Seq<char>>::empty());
                assert(group_cost(Seq::<Seq<char>>::empty()) == 0);
            }
            lemma_wrap_go_fits(done.push(cur), seq![w], words.drop_first(), max);
            assert(wrap_go(done, cur, words, max) == wrap_go(
                done.push(cur),
                seq![w],
                words.drop_first(),
                max,
            ));
        } else {
            lemma_group_cost_push(cur, w);
            lemma_group_cost_nonneg(cur);
            lemma_wrap_go_fits(done, cur.push(w), words.drop_first(), max);
            assert(wrap_go(done, cur, words, max) == wrap_go(
                done,
                cur.push(w),
                words.drop_first(),
                max,
            ));
        }
    }
}

/// No output line overflows the wrap limit unless it holds a single word
/// that is itself longer than the limit.
pub proof fn lemma_wrap_line_lengths(words: Seq<Seq<char>>, max: int)
    requires
        max >= 0,
    ensures
        forall|i: int|
            0 <= i < wrap_groups(words, max).len() ==> group_fits(
                #[trigger] wrap_groups(words, max)[i],
                max,
            ),
{
    lemma_wrap_go_fits(Seq::empty(), Seq::empty(), words, max);
}

/// No character of `w` is a word separator.
pub open spec fn space_free(w: Seq<char>) -> bool {
    forall|i: int| 0 <= i < w.len() ==> !is_space_char(#[trigger] w[i])
}

/// Every word is nonempty and free of separators, as the words of any
/// input are.
pub open spec fn good_words(ws: Seq<Seq<char>>) -> bool {
    forall|i: int| 0 <= i < ws.len() ==> (#[trigger] ws[i]).len() > 0 && space_free(ws[i])
}

proof fn lemma_words_go_good(acc: Seq<Seq<char>>, cur: Seq<char>, s: Seq<char>)
    requires
        good_words(acc),
        space_free(cur),
    ensures
        good_words(words_go(acc, cur, s)),
    decreases s.len(),
{
    if s.len() == 0 {
        if cur.len() > 0 {
            assert forall|i: int| 0 <= i < acc.push(cur).len() implies (#[trigger] acc.push(
                cur,
            )[i]).len() > 0 && space_free(acc.push(cur)[i]) by {
                if i < acc.len() {
                    assert(acc.push(cur)[i] == acc[i]);
                } else {
                    assert(acc.push(cur)[i] == cur);
                }
            }
        }
    } else if is_space_char(s[0]) {
        if cur.len() == 0 {
            lemma_words_go_good(acc, cur, s.drop_first());
        } else {
            assert forall|i: int| 0 <= i < acc.push(cur).len() implies (#[trigger] acc.push(
                cur,
            )[i]).len() > 0 && space_free(acc.push(cur)[i]) by {
                if i < acc.len() {
                    assert(acc.push(cur)[i] == acc[i]);
                } else {
                    assert(acc.push(cur)[i] == cur);
                }
            }
            lemma_words_go_good(acc.push(cur), Seq::empty(), s.drop_first());
        }
    } else {
        assert(space_free(cur.push(s[0]))) by {
            assert forall|i: int| 0 <= i < cur.push(s[0]).len() implies !is_space_char(
                #[trigger] cur.push(s[0])[i],
            ) by {
                if i < cur.len() {
                    assert(cur.push(s[0])[i] == cur[i]);
                } else {
                    assert(cur.push(s[0])[i] == s[0]);
                }
            }
        }
        lemma_words_go_good(acc, cur.push(s[0]), s.drop_first());
    }
}

/// The words of any input are nonempty and separator-free.
pub proof fn lemma_words_of_good(s: Seq<char>)
    ensures
        good_words(words_of(s)),
{
    lemma_words_go_good(Seq::empty(), Seq::empty(), s);
}

proof fn lemma_words_go_word(acc: Seq<Seq<char>>, cur: Seq<char>, w: Seq<char>, rest: Seq<char>)
    requires
        space_free(w),
    ensures
        words_go(acc, cur, w + rest) == words_go(acc, cur + w, rest),
    decreases w.len(),
{
    if w.len() == 0 {
        assert(w + rest =~= rest);
        assert(cur + w =~= cur);
    } else {
        let s = w + rest;
        assert(s[0] == w[0]);
        assert(!is_space_char(s[0]));
        assert(s.drop_first() =~= w.drop_first() + rest);
        assert(space_free(w.drop_first())) by {
            assert forall|i: int| 0 <= i < w.drop_first().len() implies !is_space_char(
                #[trigger] w.drop_first()[i],
            ) by {
                assert(w.drop_first()[i] == w[i + 1]);
            }
        }
        lemma_words_go_word(acc, cur.push(w[0]), w.drop_first(), rest);
        assert(cur.push(w[0]) + w.drop_first() =~= cur + w);
    }
}

proof fn lemma_words_go_group(acc: Seq<Seq<char>>, g: Seq<Seq<char>>, rest: Seq<char>)
    requires
        good_words(g),
    ensures
        words_go(acc, Seq::empty(), group_text(g) + rest) == words_go(acc + g, Seq::empty(), rest),
    decreases g.len(),
{
    if g.len() == 0 {
        assert(group_text(g) + rest =~= rest);
        assert(acc + g =~= acc);
    } else {
        let tail = group_text(g.drop_first());
        assert(group_text(g) + rest =~= g[0] + (seq![' '] + (tail + rest)));
        lemma_words_go_word(acc, Seq::empty(), g[0], seq![' '] + (tail + rest));
        assert(Seq::<char>::empty() + g[0] =~= g[0]);
        let sp = seq![' '] + (tail + rest);
        assert(sp[0] == ' ');
        assert(is_space_char(sp[0]));
        assert(g[0].len() > 0);
        assert(words_go(acc, g[0], sp) == words_go(
            acc.push(g[0]),
            Seq::empty(),
            sp.drop_first(),
        ));
        assert(sp.drop_first() =~= tail + rest);
        assert(good_words(g.drop_first())) by {
            assert forall|i: int| 0 <= i < g.drop_first().len() implies (#[trigger] g.drop_first()[
                i
            ]).len() > 0 && space_free(g.drop_first()[i]) by {
                assert(g.drop_first()[i] == g[i + 1]);
            }
        }
        lemma_words_go_group(acc.push(g[0]), g.drop_first(), rest);
        assert(acc.push(g[0]) + g.drop_first() =~= acc + g);
    }
}

proof fn lemma_words_go_groups(acc: Seq<Seq<char>>, gs: Seq<Seq<Seq<char>>>, rest: Seq<char>)
    requires
        forall|i: int| 0 <= i < gs.len() ==> good_words(#[trigger] gs[i]),
    ensures
        words_go(acc, Seq::empty(), gs.map_values(|g: Seq<Seq<char>>| group_text(g)).flatten()
            + rest) == words_go(acc + gs.flatten(), Seq::empty(), rest),
    decreases gs.len(),
{
    let lines = gs.map_values(|g: Seq<Seq<char>>| group_text(g));
    if gs.len() == 0 {
        assert(lines.flatten() =~= Seq::<char>::empty());
        assert(lines.flatten() + rest =~= rest);
        assert(gs.flatten() =~= Seq::<Seq<char>>::empty());
        assert(acc + gs.flatten() =~= acc);
    } else {
        let lines_rest = gs.drop_first().map_values(|g: Seq<Seq<char>>| group_text(g));
        assert(lines.drop_first() =~= lines_rest);
        assert(lines.flatten() == lines[0] + lines.drop_first().flatten());
        assert(lines[0] == group_text(gs[0]));
        assert(lines.flatten() + rest =~= group_text(gs[0]) + (lines_rest.flatten() + rest));
        lemma_words_go_group(acc, gs[0], lines_rest.flatten() + rest);
        assert(forall|i: int|
            0 <= i < gs.drop_first().len() ==> good_words(#[trigger] gs.drop_first()[i]));
        lemma_words_go_groups(acc + gs[0], gs.drop_first(), rest);
        assert(gs.flatten() == gs[0] + gs.drop_first().flatten());
        assert((acc + gs[0]) + gs.drop_first().flatten() =~= acc + gs.flatten());
    }
}

proof fn lemma_wrap_go_good(
    done: Seq<Seq<Seq<char>>>,
    cur: Seq<Seq<char>>,
    words: Seq<Seq<char>>,
    max: int,
)
    requires
        forall|i: int| 0 <= i < done.len() ==> good_words(#[trigger] done[i]),
        good_words(cur),
        good_words(words),
    ensures
        forall|i: int|
            0 <= i < wrap_go(done, cur, words, max).len() ==> good_words(
                #[trigger] wrap_go(done, cur, words, max)[i],
            ),
    decreases words.len(),
{
    assert forall|i: int| 0 <= i < done.push(cur).len() implies good_words(
        #[trigger] done.push(cur)[i],
    ) by {
        if i < done.len() {
            assert(done.push(cur)[i] == done[i]);
        } else {
            assert(done.push(cur)[i] == cur);
        }
    }
    if words.len() == 0 {
        if cur.len() == 0 {
            assert(wrap_go(done, cur, words, max) == done);
        } else {
            assert(wrap_go(done, cur, words, max) == done.push(cur));
        }
    } else {
        let w = words[0];
        assert(w.len() > 0 && space_free(w));
        assert(good_words(words.drop_first())) by {
            assert forall|i: int| 0 <= i < words.drop_first().len() implies (
            #[trigger] words.drop_first()[i]).len() > 0 && space_free(words.drop_first()[i]) by {
                assert(words.drop_first()[i] == words[i + 1]);
            }
        }
        if group_cost(cur) + w.len() + 1 > max {
            assert(good_words(seq![w])) by {
                assert(seq![w][0] == w);
            }
            lemma_wrap_go_good(done.push(cur), seq![w], words.drop_first(), max);
            assert(wrap_go(done, cur, words, max) == wrap_go(
                done.push(cur),
                seq![w],
                words.drop_first(),
                max,
            ));
        } else {
            assert(good_words(cur.push(w))) by {
                assert forall|i: int| 0 <= i < cur.push(w).len() implies (#[trigger] cur.push(
                    w,
                )[i]).len() > 0 && space_free(cur.push(w)[i]) by {
                    if i < cur.len() {
                        assert(cur.push(w)[i] == cur[i]);
                    } else {
                        assert(cur.push(w)[i] == w);
                    }
                }
            }
            lemma_wrap_go_good(done, cur.push(w), words.drop_first(), max);
            assert(wrap_go(done, cur, words, max) == wrap_go(
                done,
                cur.push(w),
                words.drop_first(),
                max,
            ));
        }
    }
}

/// The full wrap round trip: concatenating all output lines and splitting
/// the result on whitespace again yields exactly the words of the input.
pub proof fn lemma_wrap_round_trip(s: Seq<char>, max: int)
    ensures
        words_of(wrap_lines(s, max).flatten()) == words_of(s),
{
    let ws = words_of(s);
    let gs = wrap_groups(ws, max);
    lemma_words_of_good(s);
    lemma_wrap_go_good(Seq::empty(), Seq::empty(), ws, max);
    lemma_wrap_preserves_words(ws, max);
    lemma_words_go_groups(Seq::empty(), gs, Seq::empty());
    assert(wrap_lines(s, max).flatten() + Seq::<char>::empty() =~= wrap_lines(s, max).flatten());
    assert(Seq::<Seq<char>>::empty() + gs.flatten() =~= gs.flatten());
    assert(words_go(gs.flatten(), Seq::empty(), Seq::<char>::empty()) == gs.flatten());
}

/// The wrap invariant over whole inputs: the words of `s` survive wrapping
/// unchanged, and every output line is as long as its group's running count,
/// which exceeds `max` only on a line holding one over-long word.
pub proof fn lemma_wrap_invariant(s: Seq<char>, max: int)
    requires
        max >= 0,
    ensures
        wrap_groups(words_of(s), max).flatten() == words_of(s),
        wrap_lines(s, max).len() == wrap_groups(words_of(s), max).len(),
        forall|i: int|
            0 <= i < wrap_lines(s, max).len() ==> #[trigger] wrap_lines(s, max)[i].len()
                == group_cost(wrap_groups(words_of(s), max)[i]),
        forall|i: int|
            0 <= i < wrap_lines(s, max).len() ==> (wrap_lines(s, max)[i].len() > max
                ==> wrap_groups(words_of(s), max)[i].len() == 1),
{
    lemma_wrap_preserves_words(words_of(s), max);
    lemma_wrap_line_lengths(words_of(s), max);
    assert forall|i: int| 0 <= i < wrap_lines(s, max).len() implies #[trigger] wrap_lines(s, max)[i].len()
        == group_cost(wrap_groups(words_of(s), max)[i]) by {
        lemma_group_text_len(wrap_groups(words_of(s), max)[i]);
    }
}

/// Wrapping empty input yields no lines at all, whatever the limit.
pub proof fn lemma_wrap_empty(max: int)
    ensures
        wrap_lines(Seq::<char>::empty(), max) == Seq::<Seq<char>>::empty(),
{
    assert(words_of(Seq::<char>::empty()) =~= Seq::<Seq<char>>::empty());
    assert(wrap_go(
        Seq::<Seq<Seq<char>>>::empty(),
        Seq::<Seq<char>>::empty(),
        Seq::<Seq<char>>::empty(),
        max,
    ) =~= Seq::<Seq<Seq<char>>>::empty());
    assert(wrap_lines(Seq::<char>::empty(), max) =~= Seq::<Seq<char>>::empty());
}

/// The length of the longest line in `lines`.
pub open spec fn max_len_of(lines: Seq<Seq<char>>) -> int
    decreases lines.len(),
{
    if lines.len() == 0 {
        0
    } else {
        let rest = max_len_of(lines.drop_last());
        if lines.last().len() > rest {
            lines.last().len() as int
        } else {
            rest
        }
    }
}

/// No line is longer than the longest.
pub proof fn lemma_max_len_ge(lines: Seq<Seq<char>>, i: int)
    requires
        0 <= i < lines.len(),
    ensures
        lines[i].len() <= max_len_of(lines),
        0 <= max_len_of(lines),
    decreases lines.len(),
{
    if i < lines.len() - 1 {
        lemma_max_len_ge(lines.drop_last(), i);
        assert(lines.drop_last()[i] == lines[i]);
    }
}

/// The character count of the longest line of `input`.
pub fn get_max_line_len(input: &Vec<String>) -> (r: u32)
    requires
        forall|i: int| 0 <= i < input@.len() ==> input@[i]@.len() <= u32::MAX,
    ensures
        r as int == max_len_of(line_views(input@)),
{
    let mut max_len: u32 = 0;
    let mut i: usize = 0;
    proof {
        assert(line_views(input@).take(0) =~= Seq::<Seq<char>>::empty());
    }
    while i < input.len()
        invariant
            i <= input@.len(),
            forall|k: int| 0 <= k < input@.len() ==> input@[k]@.len() <= u32::MAX,
            max_len as int == max_len_of(line_views(input@).take(i as int)),
        decreases input@.len() - i,
    {
        let len: usize = input[i].as_str().unicode_len();
        proof {
            let lv = line_views(input@);
            assert(lv.take(i + 1).drop_last() =~= lv.take(i as int));
            assert(lv.take(i + 1).last() == input@[i as int]@);
        }
        if len > max_len as usize {
            max_len = len as u32;
        }
        i = i + 1;
    }
    proof {
        assert(line_views(input@).take(input@.len() as int) =~= line_views(input@));
    }
    max_len
}

} // verus!
