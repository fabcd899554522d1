//! Cutting a message into lines that fit a byte budget, never inside a
//! character.
use vstd::prelude::*;

use crate::text::chars_of;

verus! {

/// Bytes that `c` takes in UTF-8.
pub open spec fn utf8_len(c: char) -> nat {
    let u = c as u32;
    if u < 0x80 {
        1
    } else if u < 0x800 {
        2
    } else if u < 0x10000 {
        3
    } else {
        4
    }
}

/// Bytes that `s` takes in UTF-8.
pub open spec fn utf8_size(s: Seq<char>) -> nat
    decreases s.len(),
{
    if s.len() == 0 {
        0
    } else {
        utf8_len(s[0]) + utf8_size(s.drop_first())
    }
}

/// How many characters from the start of `s`, taken in order, fit in `budget`
/// bytes.
pub open spec fn fit_count(s: Seq<char>, budget: nat) -> nat
    decreases s.len(),
{
    if s.len() == 0 || utf8_len(s[0]) > budget {
        0
    } else {
        1 + fit_count(s.drop_first(), (budget - utf8_len(s[0])) as nat)
    }
}

/// Characters on a line after the first: at least the one that did not fit
/// on the line before.
pub open spec fn later_len(s: Seq<char>, width: nat) -> nat {
    if fit_count(s, width) == 0 {
        1
    } else {
        fit_count(s, width)
    }
}

/// The lines after the first: each starts with the character that did not
/// fit on the line before and takes what fits after it within `width` bytes;
/// a character wider than `width` stands alone.
pub open spec fn later_chunks(s: Seq<char>, width: nat) -> Seq<Seq<char>>
    decreases s.len(),
    via later_chunks_decreases
{
    if s.len() == 0 {
        Seq::empty()
    } else {
        let k = later_len(s, width) as int;
        seq![s.subrange(0, k)] + later_chunks(s.subrange(k, s.len() as int), width)
    }
}

#[via_fn]
proof fn later_chunks_decreases(s: Seq<char>, width: nat) {
    if s.len() > 0 {
        lemma_fit_count_bound(s, width);
    }
}

/// The lines of `s` within `width` bytes each: the first takes what fits;
/// it is empty where the first character alone is wider than `width`.
pub open spec fn wrap_chunks(s: Seq<char>, width: nat) -> Seq<Seq<char>> {
    let k = fit_count(s, width) as int;
    seq![s.subrange(0, k)] + later_chunks(s.subrange(k, s.len() as int), width)
}

/// A line break followed by `indent` spaces.
pub open spec fn line_break(indent: nat) -> Seq<char> {
    seq!['\n'] + Seq::new(indent, |i: int| ' ')
}

/// Each of `lines`, preceded by a line break and `indent` spaces.
pub open spec fn tail_lines(lines: Seq<Seq<char>>, indent: nat) -> Seq<char>
    decreases lines.len(),
{
    if lines.len() == 0 {
        Seq::empty()
    } else {
        line_break(indent) + lines[0] + tail_lines(lines.drop_first(), indent)
    }
}

/// `lines` joined by line breaks, each line after the first indented by
/// `indent` spaces.
pub open spec fn join_lines(lines: Seq<Seq<char>>, indent: nat) -> Seq<char> {
    if lines.len() == 0 {
        Seq::empty()
    } else {
        lines[0] + tail_lines(lines.drop_first(), indent)
    }
}

pub proof fn lemma_fit_count_bound(s: Seq<char>, budget: nat)
    ensures
        fit_count(s, budget) <= s.len(),
    decreases s.len(),
{
    if s.len() > 0 && utf8_len(s[0]) <= budget {
        lemma_fit_count_bound(s.drop_first(), (budget - utf8_len(s[0])) as nat);
    }
}

proof fn lemma_size_first(s: Seq<char>, k: int)
    requires
        0 <= k < s.len(),
    ensures
        utf8_size(s.subrange(0, k + 1)) == utf8_size(s.subrange(0, k)) + utf8_len(s[k]),
    decreases k,
{
    let a = s.subrange(0, k + 1);
    assert(a[0] == s[0]);
    if k > 0 {
        lemma_size_first(s.drop_first(), k - 1);
        assert(a.drop_first() =~= s.drop_first().subrange(0, k));
        assert(s.subrange(0, k)[0] == s[0]);
        assert(s.subrange(0, k).drop_first() =~= s.drop_first().subrange(0, k - 1));
        assert(s.drop_first()[k - 1] == s[k]);
    } else {
        assert(a.drop_first() =~= Seq::<char>::empty());
        assert(s.subrange(0, k) =~= Seq::<char>::empty());
        assert(utf8_size(Seq::<char>::empty()) == 0);
    }
}

/// What fits is within budget, and the next character would not fit.
proof fn lemma_fit(s: Seq<char>, budget: nat)
    ensures
        fit_count(s, budget) <= s.len(),
        utf8_size(s.subrange(0, fit_count(s, budget) as int)) <= budget,
        fit_count(s, budget) < s.len() ==> utf8_size(s.subrange(0, fit_count(s, budget) as int))
            + utf8_len(s[fit_count(s, budget) as int]) > budget,
    decreases s.len(),
{
    let k = fit_count(s, budget);
    if s.len() == 0 || utf8_len(s[0]) > budget {
        assert(s.subrange(0, 0) =~= Seq::<char>::empty());
    } else {
        let b = (budget - utf8_len(s[0])) as nat;
        let t = s.drop_first();
        lemma_fit(t, b);
        let k1 = fit_count(t, b) as int;
        assert(s.subrange(0, k as int).drop_first() =~= t.subrange(0, k1));
        if k < s.len() {
            assert(s[k as int] == t[k1]);
        }
    }
}

proof fn lemma_flatten_cons(a: Seq<char>, rest: Seq<Seq<char>>)
    ensures
        (seq![a] + rest).flatten() == a + rest.flatten(),
{
    assert((seq![a] + rest).drop_first() =~= rest);
}

/// Facts on the lines after the first.
proof fn lemma_later(t: Seq<char>, w: nat)
    ensures
        later_chunks(t, w).flatten() == t,
        forall|i: int| 0 <= i < later_chunks(t, w).len() ==> (#[trigger] later_chunks(t, w)[i]).len() >= 1,
        forall|i: int|
            0 <= i < later_chunks(t, w).len() ==> utf8_size(#[trigger] later_chunks(t, w)[i]) <= w
                || later_chunks(t, w)[i].len() == 1,
        forall|i: int|
            0 <= i < later_chunks(t, w).len() - 1 ==> utf8_size(#[trigger] later_chunks(t, w)[i])
                + utf8_len(later_chunks(t, w)[i + 1][0]) > w,
    decreases t.len(),
{
    let cs = later_chunks(t, w);
    if t.len() > 0 {
        lemma_fit(t, w);
        let m = later_len(t, w) as int;
        let rest = t.subrange(m, t.len() as int);
        lemma_later(rest, w);
        let tail = later_chunks(rest, w);
        assert(cs == seq![t.subrange(0, m)] + tail);
        lemma_flatten_cons(t.subrange(0, m), tail);
        assert(t.subrange(0, m) + rest =~= t);
        if fit_count(t, w) == 0 {
            assert(utf8_size(t.subrange(0, 1)) == utf8_len(t[0])) by {
                lemma_size_first(t, 0);
                assert(t.subrange(0, 0) =~= Seq::<char>::empty());
            }
        }
        assert forall|i: int| 0 <= i < cs.len() - 1 implies utf8_size(#[trigger] cs[i]) + utf8_len(
            cs[i + 1][0],
        ) > w by {
            if i == 0 {
                assert(tail[0][0] == rest[0]);
                assert(rest[0] == t[m]);
            } else {
                assert(cs[i] == tail[i - 1]);
                assert(cs[i + 1] == tail[i]);
            }
        }
        assert forall|i: int| 0 <= i < cs.len() implies (#[trigger] cs[i]).len() >= 1 && (utf8_size(
            cs[i],
        ) <= w || cs[i].len() == 1) by {
            if i > 0 {
                assert(cs[i] == tail[i - 1]);
            }
        }
    } else {
        assert(cs =~= Seq::<Seq<char>>::empty());
    }
}

/// Wrapping keeps the text whole and never splits a character: the lines,
/// put together, give the message back; each line takes at most `width`
/// bytes, but for a single character wider than that; and a character that
/// would overflow a line starts the next one, whole.
pub proof fn law_wrap_chunks(s: Seq<char>, width: nat)
    ensures
        wrap_chunks(s, width).flatten() == s,
        forall|i: int|
            0 <= i < wrap_chunks(s, width).len() ==> utf8_size(#[trigger] wrap_chunks(s, width)[i])
                <= width || wrap_chunks(s, width)[i].len() == 1,
        forall|i: int|
            1 <= i < wrap_chunks(s, width).len() ==> (#[trigger] wrap_chunks(s, width)[i]).len() >= 1,
        forall|i: int|
            0 <= i < wrap_chunks(s, width).len() - 1 ==> utf8_size(
                #[trigger] wrap_chunks(s, width)[i],
            ) + utf8_len(wrap_chunks(s, width)[i + 1][0]) > width,
{
    let cs = wrap_chunks(s, width);
    lemma_fit(s, width);
    let k = fit_count(s, width) as int;
    let rest = s.subrange(k, s.len() as int);
    lemma_later(rest, width);
    let tail = later_chunks(rest, width);
    lemma_flatten_cons(s.subrange(0, k), tail);
    assert(s.subrange(0, k) + rest =~= s);
    assert forall|i: int| 0 <= i < cs.len() - 1 implies utf8_size(#[trigger] cs[i]) + utf8_len(
        cs[i + 1][0],
    ) > width by {
        if i == 0 {
            assert(tail[0][0] == rest[0]);
        } else {
            assert(cs[i] == tail[i - 1]);
            assert(cs[i + 1] == tail[i]);
        }
    }
    assert forall|i: int| 0 <= i < cs.len() implies utf8_size(#[trigger] cs[i]) <= width
        || cs[i].len() == 1 by {
        if i > 0 {
            assert(cs[i] == tail[i - 1]);
        }
    }
    assert forall|i: int| 1 <= i < cs.len() implies (#[trigger] cs[i]).len() >= 1 by {
        assert(cs[i] == tail[i - 1]);
    }
}

pub open spec fn all_single_byte(s: Seq<char>) -> bool {
    forall|i: int| 0 <= i < s.len() ==> utf8_len(#[trigger] s[i]) == 1
}

proof fn lemma_fit_single_byte(s: Seq<char>, budget: nat)
    requires
        all_single_byte(s),
    ensures
        fit_count(s, budget) == if s.len() < budget { s.len() } else { budget },
    decreases s.len(),
{
    if s.len() > 0 && budget > 0 {
        let t = s.drop_first();
        assert(utf8_len(s[0]) == 1);
        assert forall|i: int| 0 <= i < t.len() implies utf8_len(#[trigger] t[i]) == 1 by {
            assert(t[i] == s[i + 1]);
        }
        lemma_fit_single_byte(t, (budget - 1) as nat);
    }
}

proof fn lemma_later_single_byte(t: Seq<char>, w: nat)
    requires
        all_single_byte(t),
        w > 0,
    ensures
        forall|i: int|
            0 <= i < later_chunks(t, w).len() - 1 ==> (#[trigger] later_chunks(t, w)[i]).len() == w,
        later_chunks(t, w).len() > 0 ==> 1 <= later_chunks(t, w).last().len() <= w,
    decreases t.len(),
{
    let cs = later_chunks(t, w);
    if t.len() > 0 {
        lemma_fit_single_byte(t, w);
        let m = later_len(t, w) as int;
        let rest = t.subrange(m, t.len() as int);
        assert forall|i: int| 0 <= i < rest.len() implies utf8_len(#[trigger] rest[i]) == 1 by {
            assert(rest[i] == t[i + m]);
        }
        lemma_later_single_byte(rest, w);
        let tail = later_chunks(rest, w);
        assert(cs == seq![t.subrange(0, m)] + tail);
        assert forall|i: int| 0 <= i < cs.len() - 1 implies (#[trigger] cs[i]).len() == w by {
            if i > 0 {
                assert(cs[i] == tail[i - 1]);
            } else {
                assert(tail.len() > 0);
                assert(rest.len() > 0);
            }
        }
        if tail.len() > 0 {
            assert(cs.last() == tail.last());
        } else {
            assert(rest.len() == 0) by {
                if rest.len() > 0 {
                    assert(tail.len() > 0);
                }
            }
        }
    }
}

/// Where each character takes one byte, every line but the last is exactly
/// `width` characters long, and the last holds between one and `width`.
pub proof fn law_wrap_single_byte(s: Seq<char>, width: nat)
    requires
        width > 0,
        s.len() > 0,
        all_single_byte(s),
    ensures
        wrap_chunks(s, width).flatten() == s,
        forall|i: int|
            0 <= i < wrap_chunks(s, width).len() - 1 ==> (#[trigger] wrap_chunks(s, width)[i]).len()
                == width,
        1 <= wrap_chunks(s, width).last().len() <= width,
{
    law_wrap_chunks(s, width);
    let cs = wrap_chunks(s, width);
    lemma_fit_single_byte(s, width);
    let k = fit_count(s, width) as int;
    let rest = s.subrange(k, s.len() as int);
    assert forall|i: int| 0 <= i < rest.len() implies utf8_len(#[trigger] rest[i]) == 1 by {
        assert(rest[i] == s[i + k]);
    }
    lemma_later_single_byte(rest, width);
    let tail = later_chunks(rest, width);
    assert forall|i: int| 0 <= i < cs.len() - 1 implies (#[trigger] cs[i]).len() == width by {
        if i > 0 {
            assert(cs[i] == tail[i - 1]);
        } else {
            assert(rest.len() > 0) by {
                if rest.len() == 0 {
                    assert(tail =~= Seq::<Seq<char>>::empty());
                }
            }
        }
    }
    if tail.len() > 0 {
        assert(cs.last() == tail.last());
    } else {
        assert(rest.len() == 0) by {
            if rest.len() > 0 {
                assert(tail.len() > 0);
            }
        }
    }
}

proof fn lemma_single_byte_subrange(s: Seq<char>, a: int, b: int)
    requires
        all_single_byte(s),
        0 <= a <= b <= s.len(),
    ensures
        all_single_byte(s.subrange(a, b)),
{
    assert forall|i: int| 0 <= i < b - a implies utf8_len(#[trigger] s.subrange(a, b)[i]) == 1 by {
        assert(s.subrange(a, b)[i] == s[a + i]);
    }
}

/// A message of 25 single-byte characters wrapped at 10 bytes takes three
/// lines, of 10, 10 and 5 characters, each after the first on a new line
/// indented by `indent` spaces.
pub proof fn law_wrap_ten_ten_five(s: Seq<char>, indent: nat)
    requires
        s.len() == 25,
        all_single_byte(s),
    ensures
        wrap_chunks(s, 10) == seq![s.subrange(0, 10), s.subrange(10, 20), s.subrange(20, 25)],
        join_lines(wrap_chunks(s, 10), indent) == s.subrange(0, 10) + line_break(indent)
            + s.subrange(10, 20) + line_break(indent) + s.subrange(20, 25),
{
    lemma_fit_single_byte(s, 10);
    let r1 = s.subrange(10, 25);
    lemma_single_byte_subrange(s, 10, 25);
    lemma_fit_single_byte(r1, 10);
    let r2 = r1.subrange(10, 15);
    lemma_single_byte_subrange(r1, 10, 15);
    lemma_fit_single_byte(r2, 10);
    let r3 = r2.subrange(5, 5);
    assert(r2.len() == 5);
    assert(later_len(r2, 10) == 5);
    assert(r2.subrange(0, 5) =~= r2);
    assert(later_chunks(r3, 10) =~= Seq::<Seq<char>>::empty());
    assert(later_chunks(r2, 10) =~= seq![r2.subrange(0, 5)] + later_chunks(r3, 10));
    assert(later_chunks(r2, 10) =~= seq![r2]);
    assert(later_len(r1, 10) == 10);
    assert(r1.subrange(0, 10) =~= s.subrange(10, 20));
    assert(r2 =~= s.subrange(20, 25));
    assert(later_chunks(r1, 10) =~= seq![s.subrange(10, 20), s.subrange(20, 25)]);
    let cs = wrap_chunks(s, 10);
    assert(cs =~= seq![s.subrange(0, 10), s.subrange(10, 20), s.subrange(20, 25)]);
    let t1 = cs.drop_first();
    assert(t1.drop_first().drop_first() =~= Seq::<Seq<char>>::empty());
    assert(tail_lines(t1.drop_first().drop_first(), indent) == Seq::<char>::empty());
    assert(tail_lines(t1.drop_first(), indent) =~= line_break(indent) + s.subrange(20, 25));
    assert(tail_lines(t1, indent) =~= line_break(indent) + s.subrange(10, 20) + line_break(indent)
        + s.subrange(20, 25));
    assert(join_lines(cs, indent) =~= s.subrange(0, 10) + line_break(indent) + s.subrange(10, 20)
        + line_break(indent) + s.subrange(20, 25));
}

/// Bytes that `c` takes in UTF-8.
pub fn char_len(c: char) -> (r: usize)
    ensures
        r == utf8_len(c),
{
    let u = c as u32;
    if u < 0x80 {
        1
    } else if u < 0x800 {
        2
    } else if u < 0x10000 {
        3
    } else {
        4
    }
}

/// End of the run of characters of `s` from `from` that fits in `budget` bytes.
fn fit_end(s: &Vec<char>, from: usize, budget: usize) -> (end: usize)
    requires
        from <= s.len(),
    ensures
        from <= end <= s.len(),
        end - from == fit_count(s@.subrange(from as int, s.len() as int), budget as nat),
{
    let n = s.len();
    let mut i = from;
    let mut left = budget;
    while i < n && char_len(s[i]) <= left
        invariant
            n == s.len(),
            from <= i <= n,
            fit_count(s@.subrange(from as int, n as int), budget as nat) == (i - from) + fit_count(
                s@.subrange(i as int, n as int),
                left as nat,
            ),
        decreases n - i,
    {
        let l = char_len(s[i]);
        proof {
            let t = s@.subrange(i as int, n as int);
            assert(t[0] == s@[i as int]);
            assert(t.drop_first() =~= s@.subrange(i + 1, n as int));
        }
        left = left - l;
        i = i + 1;
    }
    proof {
        let t = s@.subrange(i as int, n as int);
        if i < n {
            assert(t[0] == s@[i as int]);
        }
    }
    i
}

/// A line break followed by `indent` spaces.
fn line_break_text(indent: usize) -> (r: String)
    ensures
        r@ == line_break(indent as nat),
{
    let mut r = String::new();
    r.append("\n");
    proof {
        reveal_strlit("\n");
        assert(r@ =~= seq!['\n'] + Seq::new(0, |j: int| ' '));
    }
    let mut i: usize = 0;
    while i < indent
        invariant
            i <= indent,
            r@ == seq!['\n'] + Seq::new(i as nat, |j: int| ' '),
        decreases indent - i,
    {
        r.append(" ");
        proof {
            reveal_strlit(" ");
            assert(seq!['\n'] + Seq::new(i as nat, |j: int| ' ') + " "@ =~= seq!['\n'] + Seq::new(
                (i + 1) as nat,
                |j: int| ' ',
            ));
        }
        i = i + 1;
    }
    proof {
        reveal_strlit("\n");
        assert(r@ =~= line_break(indent as nat));
    }
    r
}

/// `msg` cut into lines of at most `width` bytes, no character split, each
/// line after the first on a new line indented by `indent` spaces.
pub fn wrap_message(msg: &str, width: usize, indent: usize) -> (r: String)
    ensures
        r@ == join_lines(wrap_chunks(msg@, width as nat), indent as nat),
{
    let s = chars_of(msg);
    let n = s.len();
    let ghost w = width as nat;
    let ghost target = join_lines(wrap_chunks(msg@, w), indent as nat);
    let first = fit_end(&s, 0, width);
    let sep = line_break_text(indent);
    let mut out = String::new();
    out.append(msg.substring_char(0, first));
    proof {
        assert(s@.subrange(0, n as int) =~= s@);
        let cs = wrap_chunks(msg@, w);
        assert(cs.drop_first() =~= later_chunks(s@.subrange(first as int, n as int), w));
        assert(out@ =~= s@.subrange(0, first as int));
    }
    let mut pos = first;
    while pos < n
        invariant
            n == s.len(),
            s@ == msg@,
            sep@ == line_break(indent as nat),
            w == width as nat,
            pos <= n,
            out@ + tail_lines(later_chunks(s@.subrange(pos as int, n as int), w), indent as nat)
                == target,
        decreases n - pos,
    {
        let fit = fit_end(&s, pos, width);
        let end = if fit == pos {
            pos + 1
        } else {
            fit
        };
        let ghost t = s@.subrange(pos as int, n as int);
        let ghost old_out = out@;
        out.append(sep.as_str());
        out.append(msg.substring_char(pos, end));
        proof {
            assert(fit - pos == fit_count(t, w));
            let k = later_len(t, w) as int;
            assert(k == end - pos);
            assert(t.subrange(0, k) =~= s@.subrange(pos as int, end as int));
            assert(t.subrange(k, t.len() as int) =~= s@.subrange(end as int, n as int));
            let cs = later_chunks(t, w);
            assert(cs[0] == s@.subrange(pos as int, end as int));
            assert(cs.drop_first() == later_chunks(s@.subrange(end as int, n as int), w));
            assert(tail_lines(cs, indent as nat) == line_break(indent as nat) + cs[0] + tail_lines(
                cs.drop_first(),
                indent as nat,
            ));
            assert(out@ =~= old_out + line_break(indent as nat) + cs[0]);
            assert(old_out + tail_lines(cs, indent as nat) =~= out@ + tail_lines(
                cs.drop_first(),
                indent as nat,
            ));
        }
        pos = end;
    }
    proof {
        assert(s@.subrange(pos as int, n as int) =~= Seq::<char>::empty());
        assert(out@ + Seq::<char>::empty() =~= out@);
    }
    out
}

} // verus!
