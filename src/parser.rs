//! Parser for one line of `logcat -v time` output:
//! `<date> <time> <level>/<tag> ( <pid> ): <message>`.
use vstd::prelude::*;

use crate::text::{
    chars_of, find_char, find_in, lemma_find_in, lemma_skip_in, skip_char, skip_in, trim_bounds, trim_end, trim_start, trimmed,
};

verus! {

/// Logcat line
pub struct LogCatLine<'a> {
    pub date: &'a str,
    pub time: &'a str,
    pub level: &'a str,
    pub tag: &'a str,
    pub msg: &'a str,
}

/// The fields of a parsed line, as text.
pub struct LineFields {
    pub date: Seq<char>,
    pub time: Seq<char>,
    pub level: Seq<char>,
    pub tag: Seq<char>,
    pub msg: Seq<char>,
}

impl<'a> View for LogCatLine<'a> {
    type V = LineFields;

    open spec fn view(&self) -> LineFields {
        LineFields {
            date: self.date@,
            time: self.time@,
            level: self.level@,
            tag: self.tag@,
            msg: self.msg@,
        }
    }
}

/// The fields of `s` once the date and time tokens are read: the first token
/// ends at `p1`; the second starts at `q1`, after the run of spaces, and ends
/// at `p2`; the rest starts at `q2`. The level and tag stand before the first
/// `(` of the rest, trimmed, split at the first `/`, the tag trimmed again;
/// the message follows the first `:` after that `(`, trimmed.
pub open spec fn fields_after_time(s: Seq<char>, p1: int, q1: int, p2: int, q2: int) -> Option<
    LineFields,
> {
    let n = s.len() as int;
    match find_in(s, q2, n, '(') {
        None => None,
        Some(o) => match find_in(s, o, n, ':') {
            None => None,
            Some(m) => {
                let a = trim_start(s, q2, o);
                let b = trim_end(s, q2, o);
                match find_in(s, a, b, '/') {
                    None => None,
                    Some(k) => Some(
                        LineFields {
                            date: s.subrange(0, p1),
                            time: s.subrange(q1, p2),
                            level: s.subrange(a, k),
                            tag: trimmed(s, k + 1, b),
                            msg: trimmed(s, m + 1, n),
                        },
                    ),
                }
            },
        },
    }
}

/// Where the date and time tokens end, as `(p1, q1, p2, q2)`: the first
/// token of `s` ends at `p1` with the first space; the second starts at `q1`,
/// after the run of spaces, and ends at `p2`; after its run of spaces the
/// rest starts at `q2`. `None` where a token has no space after it, or nothing
/// follows the spaces.
pub open spec fn time_end(s: Seq<char>) -> Option<(int, int, int, int)> {
    let n = s.len() as int;
    match find_in(s, 0, n, ' ') {
        None => None,
        Some(p1) => {
            let q1 = skip_in(s, p1, n, ' ');
            if q1 >= n {
                None
            } else {
                match find_in(s, q1, n, ' ') {
                    None => None,
                    Some(p2) => {
                        let q2 = skip_in(s, p2, n, ' ');
                        if q2 >= n {
                            None
                        } else {
                            Some((p1, q1, p2, q2))
                        }
                    },
                }
            }
        },
    }
}

/// What `parse` reads from the line `s`, or `None` where `s` does not follow
/// the grammar.
pub open spec fn parse_line(s: Seq<char>) -> Option<LineFields> {
    match time_end(s) {
        None => None,
        Some((p1, q1, p2, q2)) => fields_after_time(s, p1, q1, p2, q2),
    }
}

proof fn lemma_time_end(s: Seq<char>)
    ensures
        time_end(s) matches Some((p1, q1, p2, q2)) ==> 0 <= q2 < s.len(),
{
    let n = s.len() as int;
    lemma_find_in(s, 0, n, ' ');
    if let Some(p1) = find_in(s, 0, n, ' ') {
        lemma_skip_in(s, p1, n, ' ');
        let q1 = skip_in(s, p1, n, ' ');
        if q1 < n {
            lemma_find_in(s, q1, n, ' ');
            if let Some(p2) = find_in(s, q1, n, ' ') {
                lemma_skip_in(s, p2, n, ' ');
            }
        }
    }
}

/// A line without `(` does not parse.
pub proof fn law_needs_paren(s: Seq<char>)
    requires
        forall|i: int| 0 <= i < s.len() ==> s[i] != '(',
    ensures
        parse_line(s) is None,
{
    lemma_time_end(s);
    if let Some((p1, q1, p2, q2)) = time_end(s) {
        lemma_find_in(s, q2, s.len() as int, '(');
    }
}

/// A line without `:` after its first `(` does not parse.
pub proof fn law_needs_colon(s: Seq<char>)
    requires
        forall|i: int, j: int| 0 <= i <= j < s.len() && s[i] == '(' ==> s[j] != ':',
    ensures
        parse_line(s) is None,
{
    let n = s.len() as int;
    lemma_time_end(s);
    if let Some((p1, q1, p2, q2)) = time_end(s) {
        lemma_find_in(s, q2, n, '(');
        if let Some(o) = find_in(s, q2, n, '(') {
            lemma_find_in(s, o, n, ':');
            if let Some(m) = find_in(s, o, n, ':') {
                assert(s[o] == '(' && s[m] == ':');
            }
        }
    }
}

/// Reads the next space-delimited token of `s` from `from`: its end, and the
/// start of the text after the run of spaces that follows it. `None` where no
/// space follows, or nothing follows the spaces.
fn next_part(s: &Vec<char>, from: usize) -> (r: Option<(usize, usize)>)
    requires
        from <= s.len(),
    ensures
        r matches Some((p, q)) ==> from <= p < q < s.len(),
        r matches Some((p, q)) ==> find_in(s@, from as int, s@.len() as int, ' ') == Some(p as int)
            && skip_in(s@, p as int, s@.len() as int, ' ') == q as int,
        r is None ==> match find_in(s@, from as int, s@.len() as int, ' ') {
            None => true,
            Some(p) => skip_in(s@, p, s@.len() as int, ' ') >= s@.len(),
        },
{
    match find_char(s, from, s.len(), ' ') {
        None => None,
        Some(p) => {
            let q = skip_char(s, p, s.len(), ' ');
            if q >= s.len() {
                None
            } else {
                Some((p, q))
            }
        },
    }
}

///Parses line from output of logcat -v time
pub fn parse<'a>(text: &'a str) -> (r: Option<LogCatLine<'a>>)
    ensures
        r is Some <==> parse_line(text@) is Some,
        r matches Some(l) ==> parse_line(text@) == Some(l@),
{
    let s = chars_of(text);
    let n = s.len();
    let (p1, q1) = match next_part(&s, 0) {
        Some(pq) => pq,
        None => return None,
    };
    let (p2, q2) = match next_part(&s, q1) {
        Some(pq) => pq,
        None => return None,
    };
    let o = match find_char(&s, q2, n, '(') {
        Some(o) => o,
        None => return None,
    };
    let m = match find_char(&s, o, n, ':') {
        Some(m) => m,
        None => return None,
    };
    let (a, b) = trim_bounds(&s, q2, o);
    let k = match find_char(&s, a, b, '/') {
        Some(k) => k,
        None => return None,
    };
    let (ta, tb) = trim_bounds(&s, k + 1, b);
    let (x, y) = trim_bounds(&s, m + 1, n);
    let line = LogCatLine {
        date: text.substring_char(0, p1),
        time: text.substring_char(q1, p2),
        level: text.substring_char(a, k),
        tag: text.substring_char(ta, tb),
        msg: text.substring_char(x, y),
    };
    Some(line)
}

} // verus!
