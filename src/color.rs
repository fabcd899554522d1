//! Stable colors for log tags, drawn from a rotating palette of six colors.
//! Every tag takes its color from the rotation: no tag name is treated
//! specially, so a tag that names an error gets whichever color comes next.
use vstd::prelude::*;

verus! {

/// A terminal color.
#[derive(Clone, Copy, Debug, PartialEq, Eq, Structural)]
pub enum Color {
    Black,
    Blue,
    Green,
    Red,
    Cyan,
    Magenta,
    Yellow,
    White,
}

/// Number of colors in the tag palette.
pub const PALETTE_LEN: usize = 6;

/// The tag palette, in the order in which new tags receive its colors.
pub open spec fn palette() -> Seq<Color> {
    seq![Color::Red, Color::Green, Color::Yellow, Color::Blue, Color::Magenta, Color::Cyan]
}

/// Color given to the tag first seen after `n` other distinct tags.
pub open spec fn nth_color(n: nat) -> Color {
    palette()[(n % (PALETTE_LEN as nat)) as int]
}

/// Position of `tag` among the distinct tags seen so far, if it was seen.
pub open spec fn seen_at(seen: Seq<Seq<char>>, tag: Seq<char>) -> Option<nat> {
    if exists|i: int| 0 <= i < seen.len() && seen[i] == tag {
        Some((choose|i: int| 0 <= i < seen.len() && seen[i] == tag) as nat)
    } else {
        None
    }
}

/// One request for a tag's color: the tags seen afterwards, and the color.
/// A known tag keeps its color; a new one takes the color at the front of the
/// ring and the ring turns by one.
pub open spec fn color_step(seen: Seq<Seq<char>>, tag: Seq<char>) -> (Seq<Seq<char>>, Color) {
    match seen_at(seen, tag) {
        Some(i) => (seen, nth_color(i)),
        None => (seen.push(tag), nth_color(seen.len())),
    }
}

/// A sequence of requests, in order: the tags seen afterwards, and the color
/// returned for each request.
pub open spec fn color_run(seen: Seq<Seq<char>>, tags: Seq<Seq<char>>) -> (Seq<Seq<char>>, Seq<Color>)
    decreases tags.len(),
{
    if tags.len() == 0 {
        (seen, Seq::empty())
    } else {
        let (next, c) = color_step(seen, tags[0]);
        let (last, cs) = color_run(next, tags.drop_first());
        (last, seq![c] + cs)
    }
}

proof fn lemma_seen_at_index(seen: Seq<Seq<char>>, tag: Seq<char>, i: int)
    requires
        seen.no_duplicates(),
        0 <= i < seen.len(),
        seen[i] == tag,
    ensures
        seen_at(seen, tag) == Some(i as nat),
{
    let k = choose|k: int| 0 <= k < seen.len() && seen[k] == tag;
    assert(seen[k] == seen[i]);
}

proof fn lemma_step_grows(seen: Seq<Seq<char>>, tag: Seq<char>)
    requires
        seen.no_duplicates(),
    ensures
        color_step(seen, tag).0.no_duplicates(),
        color_step(seen, tag).0.len() >= seen.len(),
        color_step(seen, tag).0.subrange(0, seen.len() as int) == seen,
        color_step(seen, tag).0.contains(tag),
{
    let next = color_step(seen, tag).0;
    if seen_at(seen, tag) is Some {
        let k = choose|k: int| 0 <= k < seen.len() && seen[k] == tag;
        assert(seen[k] == tag);
        assert(next.subrange(0, seen.len() as int) =~= seen);
    } else {
        assert(next[seen.len() as int] == tag);
        assert(next.subrange(0, seen.len() as int) =~= seen);
        assert forall|a: int, b: int| 0 <= a < next.len() && 0 <= b < next.len() && a != b
            implies next[a] != next[b] by {
            if a == seen.len() && b < seen.len() {
                assert(seen[b] == next[b]);
            } else if b == seen.len() && a < seen.len() {
                assert(seen[a] == next[a]);
            }
        }
    }
}

proof fn lemma_run_grows(seen: Seq<Seq<char>>, tags: Seq<Seq<char>>)
    requires
        seen.no_duplicates(),
    ensures
        color_run(seen, tags).0.no_duplicates(),
        color_run(seen, tags).0.len() >= seen.len(),
        color_run(seen, tags).0.subrange(0, seen.len() as int) == seen,
        color_run(seen, tags).1.len() == tags.len(),
    decreases tags.len(),
{
    if tags.len() > 0 {
        let next = color_step(seen, tags[0]).0;
        lemma_step_grows(seen, tags[0]);
        lemma_run_grows(next, tags.drop_first());
        let last = color_run(next, tags.drop_first()).0;
        assert(last.subrange(0, seen.len() as int) =~= next.subrange(0, next.len() as int).subrange(
            0,
            seen.len() as int,
        ));
        assert(last.subrange(0, seen.len() as int) =~= last.subrange(0, next.len() as int).subrange(
            0,
            seen.len() as int,
        ));
    }
}

proof fn lemma_palette_distinct(a: nat, b: nat)
    requires
        a % (PALETTE_LEN as nat) != b % (PALETTE_LEN as nat),
    ensures
        nth_color(a) != nth_color(b),
{
}

/// Rotation is cyclic: from an empty assignment, the `i`-th of a sequence of
/// distinct tags receives palette color `i` modulo the palette's length, so
/// the seventh distinct tag receives the first tag's color again.
pub proof fn law_rotation_cycle(tags: Seq<Seq<char>>)
    requires
        tags.no_duplicates(),
    ensures
        color_run(Seq::empty(), tags).1.len() == tags.len(),
        forall|i: int| 0 <= i < tags.len()
            ==> #[trigger] color_run(Seq::empty(), tags).1[i] == palette()[i % (PALETTE_LEN as int)],
        forall|i: int| PALETTE_LEN <= i < tags.len()
            ==> #[trigger] color_run(Seq::empty(), tags).1[i] == color_run(Seq::empty(), tags).1[i
                - PALETTE_LEN],
{
    lemma_run_fresh(Seq::empty(), tags);
    assert forall|i: int| PALETTE_LEN <= i < tags.len()
        implies #[trigger] color_run(Seq::empty(), tags).1[i] == color_run(Seq::empty(), tags).1[i
            - PALETTE_LEN] by {
        assert((i - 6) % 6 == i % 6);
    }
}

proof fn lemma_run_fresh(seen: Seq<Seq<char>>, tags: Seq<Seq<char>>)
    requires
        tags.no_duplicates(),
        forall|i: int| 0 <= i < tags.len() ==> !seen.contains(#[trigger] tags[i]),
    ensures
        color_run(seen, tags).1.len() == tags.len(),
        forall|i: int| 0 <= i < tags.len()
            ==> #[trigger] color_run(seen, tags).1[i] == nth_color((seen.len() + i) as nat),
    decreases tags.len(),
{
    if tags.len() > 0 {
        let t = tags[0];
        assert(!seen.contains(t));
        assert(seen_at(seen, t) is None);
        let next = seen.push(t);
        let rest = tags.drop_first();
        assert forall|i: int| 0 <= i < rest.len() implies !next.contains(#[trigger] rest[i]) by {
            assert(rest[i] == tags[i + 1]);
            assert(!seen.contains(tags[i + 1]));
            if next[seen.len() as int] == rest[i] {
                assert(tags[0] == tags[i + 1]);
            }
            if next.contains(rest[i]) {
                let k = choose|k: int| 0 <= k < next.len() && next[k] == rest[i];
                if k < seen.len() {
                    assert(seen[k] == rest[i]);
                }
            }
        }
        assert(rest.no_duplicates()) by {
            assert forall|a: int, b: int| 0 <= a < rest.len() && 0 <= b < rest.len() && a != b
                implies rest[a] != rest[b] by {
                assert(rest[a] == tags[a + 1] && rest[b] == tags[b + 1]);
            }
        }
        lemma_run_fresh(next, rest);
    }
}

/// Two different tags seen for the first time, `first` and then `second`,
/// with any requests in between, get different colors unless exactly five
/// more than a multiple of the palette's length of other new tags came
/// between them; and `first` keeps its color through any later requests.
pub proof fn law_distinct_and_memoized(
    seen: Seq<Seq<char>>,
    first: Seq<char>,
    between: Seq<Seq<char>>,
    second: Seq<char>,
    after: Seq<Seq<char>>,
)
    requires
        seen.no_duplicates(),
        !seen.contains(first),
        first != second,
        !color_run(color_step(seen, first).0, between).0.contains(second),
        (color_run(color_step(seen, first).0, between).0.len() - seen.len() - 1) % (PALETTE_LEN as int)
            != PALETTE_LEN - 1,
    ensures
        ({
            let (s1, c1) = color_step(seen, first);
            let s2 = color_run(s1, between).0;
            let (s3, c2) = color_step(s2, second);
            let s4 = color_run(s3, after).0;
            &&& c1 != c2
            &&& color_step(s2, first) == (s2, c1)
            &&& color_step(s4, first) == (s4, c1)
        }),
{
    let (s1, c1) = color_step(seen, first);
    assert(seen_at(seen, first) is None);
    lemma_step_grows(seen, first);
    lemma_run_grows(s1, between);
    let s2 = color_run(s1, between).0;
    let (s3, c2) = color_step(s2, second);
    lemma_step_grows(s2, second);
    lemma_run_grows(s3, after);
    let s4 = color_run(s3, after).0;
    let i = seen.len() as int;
    assert(s1[i] == first);
    assert(s2[i] == first) by {
        assert(s2.subrange(0, s1.len() as int)[i] == s1[i]);
    }
    assert(s3.subrange(0, s2.len() as int) == s2);
    assert(s3[i] == first) by {
        assert(s3.subrange(0, s2.len() as int)[i] == s2[i]);
    }
    assert(s4[i] == first) by {
        assert(s4.subrange(0, s3.len() as int)[i] == s3[i]);
    }
    lemma_seen_at_index(s2, first, i);
    lemma_seen_at_index(s4, first, i);
    assert(seen_at(s2, second) is None);
    lemma_palette_distinct(i as nat, s2.len());
}

/// A tag keeps its color: once `tag` has been given `color`, any later
/// requests, for any tags, leave it seen, and asking for it again gives the
/// same color and changes nothing.
pub proof fn law_seen_tag_keeps_color(seen: Seq<Seq<char>>, tag: Seq<char>, later: Seq<Seq<char>>)
    requires
        seen.no_duplicates(),
    ensures
        ({
            let (s1, color) = color_step(seen, tag);
            let s2 = color_run(s1, later).0;
            color_step(s2, tag) == (s2, color)
        }),
{
    let (s1, color) = color_step(seen, tag);
    lemma_step_grows(seen, tag);
    lemma_run_grows(s1, later);
    let s2 = color_run(s1, later).0;
    let i = choose|i: int| 0 <= i < s1.len() && s1[i] == tag;
    lemma_seen_at_index(s1, tag, i);
    if seen_at(seen, tag) is Some {
        let k = choose|k: int| 0 <= k < seen.len() && seen[k] == tag;
        lemma_seen_at_index(seen, tag, k);
        assert(s1 == seen);
    }
    assert(s2[i] == tag) by {
        assert(s2.subrange(0, s1.len() as int)[i] == s1[i]);
    }
    lemma_seen_at_index(s2, tag, i);
}

fn palette_color(i: usize) -> (c: Color)
    requires
        i < PALETTE_LEN,
    ensures
        c == palette()[i as int],
{
    match i {
        0 => Color::Red,
        1 => Color::Green,
        2 => Color::Yellow,
        3 => Color::Blue,
        4 => Color::Magenta,
        _ => Color::Cyan,
    }
}

/// Memoizing assignment of palette colors to tags.
pub struct Stack {
    /// Position of the front of the ring in the palette.
    next: usize,
    /// Tags in the order in which they were first seen.
    tags: Vec<String>,
    /// Color given to each of `tags`.
    colors: Vec<Color>,
}

impl View for Stack {
    type V = Seq<Seq<char>>;

    /// The distinct tags seen so far, in order of first sight.
    closed spec fn view(&self) -> Seq<Seq<char>> {
        self.tags@.map_values(|t: String| t@)
    }
}

impl Stack {
    pub closed spec fn wf(&self) -> bool {
        &&& self.tags.len() == self.colors.len()
        &&& self.next < PALETTE_LEN
        &&& self.next as nat == (self.tags.len() as nat) % (PALETTE_LEN as nat)
        &&& forall|i: int| 0 <= i < self.colors.len() ==> self.colors[i] == nth_color(i as nat)
        &&& self@.no_duplicates()
    }

    /// An empty assignment: the first new tag will be red.
    pub fn new() -> (s: Self)
        ensures
            s.wf(),
            s@ == Seq::<Seq<char>>::empty(),
            s@.no_duplicates(),
    {
        let s = Stack { next: 0, tags: Vec::new(), colors: Vec::new() };
        assert(s@ =~= Seq::<Seq<char>>::empty());
        s
    }

    /// The color of `tag`: the one it was given before, or else the next
    /// color of the ring, which then turns by one.
    pub fn get_color(&mut self, tag: &str) -> (c: Color)
        requires
            old(self).wf(),
        ensures
            final(self).wf(),
            final(self)@.no_duplicates(),
            (final(self)@, c) == color_step(old(self)@, tag@),
    {
        let ghost seen = self@;
        let key = tag.to_owned();
        let mut i: usize = 0;
        while i < self.tags.len()
            invariant
                self.wf(),
                self@ == seen,
                key@ == tag@,
                i <= self.tags.len(),
                forall|j: int| 0 <= j < i ==> seen[j] != tag@,
            decreases self.tags.len() - i,
        {
            if self.tags[i] == key {
                proof {
                    assert(seen[i as int] == tag@);
                    let k = choose|k: int| 0 <= k < seen.len() && seen[k] == tag@;
                    assert(seen[k] == seen[i as int]);
                    assert(k == i);
                }
                return self.colors[i];
            }
            i = i + 1;
        }
        let c = palette_color(self.next);
        self.tags.push(key);
        self.colors.push(c);
        self.next = if self.next + 1 == PALETTE_LEN { 0 } else { self.next + 1 };
        proof {
            assert(self@ =~= seen.push(tag@));
            assert(!(exists|j: int| 0 <= j < seen.len() && seen[j] == tag@));
            assert forall|a: int, b: int| 0 <= a < self@.len() && 0 <= b < self@.len() && a != b
                implies self@[a] != self@[b] by {
                if a < seen.len() && b < seen.len() {
                    assert(seen.no_duplicates());
                }
            }
        }
        c
    }
}

} // verus!
