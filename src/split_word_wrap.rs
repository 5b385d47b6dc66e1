use vstd::prelude::*;

verus! {

/// Whether `c` has the Unicode `White_Space` property, as `char::is_whitespace` decides.
pub uninterp spec fn white_space(c: char) -> bool;

/// Relies on `char::is_whitespace`, whose answer depends on the character alone.
#[verifier::external_body]
fn is_white_space(c: char) -> (r: bool)
    ensures
        r == white_space(c),
{
    c.is_whitespace()
}

/// State of the greedy wrapper after a prefix of the text: where the current line
/// starts, how many non-blank characters run up to the current position, and the
/// lines emitted so far as `(start, end)` character positions.
pub struct WrapState {
    pub start: int,
    pub run: int,
    pub lines: Seq<(int, int)>,
}

/// One character of the greedy wrapper. A newline closes the line before it; a line
/// that reaches `width` characters is closed at the current blank, else after the
/// last blank inside it, else (one word fills it) right here.
pub open spec fn wrap_step(st: WrapState, idx: int, c: char, width: int) -> WrapState {
    if c == '\n' {
        WrapState { start: idx, run: st.run, lines: st.lines.push((st.start, idx)) }
    } else if idx - st.start == width {
        if white_space(c) {
            WrapState { start: idx, run: 0, lines: st.lines.push((st.start, idx)) }
        } else if idx - st.run > st.start {
            WrapState {
                start: idx - st.run,
                run: 0,
                lines: st.lines.push((st.start, idx - st.run)),
            }
        } else {
            WrapState { start: idx, run: 1, lines: st.lines.push((st.start, idx)) }
        }
    } else if white_space(c) {
        WrapState { run: 0, ..st }
    } else {
        WrapState { run: st.run + 1, ..st }
    }
}

/// The wrapper's state after the first `n` characters of `s`.
pub open spec fn wrap_prefix(s: Seq<char>, width: int, n: nat) -> WrapState
    decreases n,
{
    if n == 0 {
        WrapState { start: 0, run: 0, lines: Seq::empty() }
    } else {
        let idx = (n - 1) as nat;
        wrap_step(wrap_prefix(s, width, idx), idx as int, s[idx as int], width)
    }
}

/// The lines of `s` wrapped at `width`: those the wrapper closed, then the rest of
/// the text if any is left.
pub open spec fn wrap_lines(s: Seq<char>, width: int) -> Seq<(int, int)> {
    let st = wrap_prefix(s, width, s.len());
    if st.start != s.len() {
        st.lines.push((st.start, s.len() as int))
    } else {
        st.lines
    }
}

/// `lines` are consecutive ranges that start at position 0 and end at `end`.
pub open spec fn tiles(lines: Seq<(int, int)>, end: int) -> bool {
    &&& forall|i: int| 0 <= i < lines.len() ==> #[trigger] lines[i].0 <= lines[i].1
    &&& forall|i: int| 0 < i < lines.len() ==> #[trigger] lines[i].0 == lines[i - 1].1
    &&& lines.len() == 0 ==> end == 0
    &&& lines.len() > 0 ==> lines[0].0 == 0 && lines.last().1 == end
}

/// Every range in `lines` spans at most `width` positions.
pub open spec fn within_width(lines: Seq<(int, int)>, width: int) -> bool {
    forall|i: int| 0 <= i < lines.len() ==> #[trigger] lines[i].1 - lines[i].0 <= width
}

/// The ranges as `(start, end)` pairs.
pub open spec fn range_pairs(r: Seq<std::ops::Range<usize>>) -> Seq<(int, int)> {
    r.map_values(|x: std::ops::Range<usize>| (x.start as int, x.end as int))
}

proof fn lemma_wrap_prefix(s: Seq<char>, width: int, n: nat)
    requires
        n <= s.len(),
        width >= 0,
    ensures
        0 <= wrap_prefix(s, width, n).start <= n,
        0 <= wrap_prefix(s, width, n).run <= n,
        tiles(wrap_prefix(s, width, n).lines, wrap_prefix(s, width, n).start),
        width > 0 ==> n - wrap_prefix(s, width, n).start <= width,
        width > 0 ==> within_width(wrap_prefix(s, width, n).lines, width),
    decreases n,
{
    if n > 0 {
        lemma_wrap_prefix(s, width, (n - 1) as nat);
        let prev = wrap_prefix(s, width, (n - 1) as nat);
        let cur = wrap_prefix(s, width, n);
        if cur.lines.len() > prev.lines.len() {
            assert(cur.lines.drop_last() == prev.lines);
            assert forall|i: int| 0 < i < cur.lines.len() implies #[trigger] cur.lines[i].0
                == cur.lines[i - 1].1 by {
                if i < prev.lines.len() {
                    assert(cur.lines[i] == prev.lines[i]);
                    assert(cur.lines[i - 1] == prev.lines[i - 1]);
                }
            }
        } else {
            assert(cur.lines == prev.lines);
        }
    }
}

/// Splits `stream` into lines of at most `width` characters, breaking after blanks
/// where it can. Each range gives character positions in `stream`; together the
/// ranges cover the text in order.
pub fn split_word_wrap(stream: &str, width: usize) -> (r: Vec<std::ops::Range<usize>>)
    ensures
        range_pairs(r@) == wrap_lines(stream@, width as int),
        tiles(range_pairs(r@), stream@.len() as int),
        width > 0 ==> within_width(range_pairs(r@), width as int),
{
    let mut output: Vec<std::ops::Range<usize>> = Vec::new();
    let len = stream.unicode_len();
    let mut start: usize = 0;
    let mut dst_to_last: usize = 0;
    let mut idx: usize = 0;
    assert(range_pairs(output@) =~= Seq::<(int, int)>::empty());
    while idx < len
        invariant
            len == stream@.len(),
            idx <= len,
            wrap_prefix(stream@, width as int, idx as nat) == (WrapState {
                start: start as int,
                run: dst_to_last as int,
                lines: range_pairs(output@),
            }),
        decreases len - idx,
    {
        proof {
            lemma_wrap_prefix(stream@, width as int, idx as nat);
        }
        let c = stream.get_char(idx);
        let ghost before = output@;
        if c == '\n' {
            output.push(start..idx);
            start = idx;
        } else if idx - start == width {
            if is_white_space(c) {
                output.push(start..idx);
                start = idx;
                dst_to_last = 0;
            } else {
                let end = idx - dst_to_last;
                if end > start {
                    output.push(start..end);
                    start = end;
                    dst_to_last = 0;
                } else {
                    output.push(start..idx);
                    start = idx;
                    dst_to_last = 1;
                }
            }
        } else if is_white_space(c) {
            dst_to_last = 0;
        } else {
            dst_to_last = dst_to_last + 1;
        }
        proof {
            if output@.len() > before.len() {
                assert(range_pairs(output@) == range_pairs(before).push(
                    range_pairs(output@).last(),
                ));
            } else {
                assert(range_pairs(output@) == range_pairs(before));
            }
        }
        idx = idx + 1;
    }
    proof {
        lemma_wrap_prefix(stream@, width as int, len as nat);
    }
    if start != len {
        let ghost before = output@;
        output.push(start..len);
        assert(range_pairs(output@) == range_pairs(before).push((start as int, len as int)));
    }
    output
}

} // verus!
