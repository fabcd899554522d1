//! Reading what `adb shell dumpsys activity activities` and `adb shell ps`
//! print: the application in front, and the process id of an application.
use vstd::prelude::*;

use crate::cli::{decimal_u64, parse_u64_chars, App};
use crate::text::{
    chars_of, find_char, has_text, index_of, index_of_text, index_of_text_from, lemma_index_of, trim_bounds,
    trimmed,
};

verus! {

pub open spec fn is_column_sep(c: char) -> bool {
    c == ' ' || c == '\t'
}

/// Position of the first space or tab in `s`.
pub open spec fn index_of_sep(s: Seq<char>) -> Option<nat>
    decreases s.len(),
{
    if s.len() == 0 {
        None
    } else if is_column_sep(s[0]) {
        Some(0)
    } else {
        match index_of_sep(s.drop_first()) {
            Some(i) => Some(i + 1),
            None => None,
        }
    }
}

proof fn lemma_index_of_sep_bound(s: Seq<char>)
    ensures
        index_of_sep(s) matches Some(i) ==> i < s.len(),
    decreases s.len(),
{
    if s.len() > 0 && !is_column_sep(s[0]) {
        lemma_index_of_sep_bound(s.drop_first());
    }
}

/// The name of the application in front, as `dumpsys activity activities`
/// shows it: the text after the first ` A=` that follows the first
/// `TaskRecord`, up to the next space or the end.
pub open spec fn front_app_name(s: Seq<char>) -> Option<Seq<char>> {
    match index_of_text(s, "TaskRecord"@) {
        None => None,
        Some(r) => {
            let after = s.subrange((r + "TaskRecord"@.len()) as int, s.len() as int);
            match index_of_text(after, " A="@) {
                None => None,
                Some(a) => {
                    let rest = after.subrange((a + " A="@.len()) as int, after.len() as int);
                    match index_of(rest, ' ') {
                        Some(e) => Some(rest.subrange(0, e as int)),
                        None => Some(rest),
                    }
                },
            }
        },
    }
}

/// The lines of `s` as `str::lines` gives them: split at each `\n`, with a
/// `\r` before it dropped, and no empty line after a final `\n`.
pub open spec fn text_lines(s: Seq<char>) -> Seq<Seq<char>>
    decreases s.len(),
    via text_lines_decreases
{
    if s.len() == 0 {
        Seq::empty()
    } else {
        match index_of(s, '\n') {
            None => seq![s],
            Some(i) => {
                let line = s.subrange(0, i as int);
                let line = if line.len() > 0 && line.last() == '\r' {
                    line.drop_last()
                } else {
                    line
                };
                seq![line] + text_lines(s.subrange((i + 1) as int, s.len() as int))
            },
        }
    }
}

#[via_fn]
proof fn text_lines_decreases(s: Seq<char>) {
    lemma_index_of(s, '\n');
}

/// The columns of `s`, split at each space and at each tab.
pub open spec fn columns(s: Seq<char>) -> Seq<Seq<char>>
    decreases s.len(),
    via columns_decreases
{
    match index_of_sep(s) {
        None => seq![s],
        Some(i) => seq![s.subrange(0, i as int)] + columns(s.subrange((i + 1) as int, s.len() as int)),
    }
}

#[via_fn]
proof fn columns_decreases(s: Seq<char>) {
    lemma_index_of_sep_bound(s);
}

/// The first of `cols` that holds more than white space, trimmed.
pub open spec fn first_filled(cols: Seq<Seq<char>>) -> Option<Seq<char>>
    decreases cols.len(),
{
    if cols.len() == 0 {
        None
    } else if has_text(cols[0], 0, cols[0].len() as int) {
        Some(trimmed(cols[0], 0, cols[0].len() as int))
    } else {
        first_filled(cols.drop_first())
    }
}

/// What a line of `ps` says of the application `name`: nothing where the line
/// does not hold the name, or has no filled column after the first; else the
/// first such column read as a process id, if it reads as one.
pub open spec fn line_pid(line: Seq<char>, name: Seq<char>) -> Option<Option<u64>> {
    if index_of_text(line, name) is None {
        None
    } else {
        match first_filled(columns(line).drop_first()) {
            None => None,
            Some(col) => Some(decimal_u64(col)),
        }
    }
}

/// The process id that the first line of `lines` to say anything of `name`
/// gives.
pub open spec fn pid_in_lines(lines: Seq<Seq<char>>, name: Seq<char>) -> Option<u64>
    decreases lines.len(),
{
    if lines.len() == 0 {
        None
    } else {
        match line_pid(lines[0], name) {
            Some(r) => r,
            None => pid_in_lines(lines.drop_first(), name),
        }
    }
}

proof fn lemma_first_filled_cons(c: Seq<char>, tail: Seq<Seq<char>>)
    ensures
        first_filled(seq![c] + tail) == if has_text(c, 0, c.len() as int) {
            Some(trimmed(c, 0, c.len() as int))
        } else {
            first_filled(tail)
        },
{
    assert((seq![c] + tail)[0] == c);
    assert((seq![c] + tail).drop_first() =~= tail);
}

/// The characters of `s` in `from..to`.
fn copy_range(s: &Vec<char>, from: usize, to: usize) -> (r: Vec<char>)
    requires
        from <= to <= s.len(),
    ensures
        r@ == s@.subrange(from as int, to as int),
{
    let mut r: Vec<char> = Vec::new();
    let mut i = from;
    while i < to
        invariant
            from <= i <= to <= s.len(),
            r@ == s@.subrange(from as int, i as int),
        decreases to - i,
    {
        r.push(s[i]);
        assert(r@ =~= s@.subrange(from as int, i + 1));
        i = i + 1;
    }
    r
}

/// The application in front, from the output of
/// `dumpsys activity activities`: the package named after the first ` A=`
/// that follows the first `TaskRecord`.
pub fn front_app(output: &str) -> (r: Option<App>)
    ensures
        front_app_name(output@) is None ==> r is None,
        front_app_name(output@) matches Some(name) ==> (r matches Some(App::PackageName(n))
            && n@ == name),
{
    let s = chars_of(output);
    let record = chars_of("TaskRecord");
    let marker = chars_of(" A=");
    let n = s.len();
    proof {
        assert(s@.subrange(0, n as int) =~= s@);
    }
    let r = match index_of_text_from(&s, 0, &record) {
        Some(r) => r,
        None => return None,
    };
    let start = r + record.len();
    let a = match index_of_text_from(&s, start, &marker) {
        Some(a) => a,
        None => return None,
    };
    let name_start = start + a + marker.len();
    let ghost after = s@.subrange(start as int, n as int);
    proof {
        assert(after.subrange(a + marker.len(), after.len() as int) =~= s@.subrange(
            name_start as int,
            n as int,
        ));
    }
    let end = match find_char(&s, name_start, n, ' ') {
        Some(e) => e,
        None => n,
    };
    proof {
        reveal(crate::text::find_in);
        let rest = s@.subrange(name_start as int, n as int);
        if let Some(e) = index_of(rest, ' ') {
            assert(rest.subrange(0, e as int) =~= s@.subrange(name_start as int, name_start + e));
        }
    }
    let name = output.substring_char(name_start, end).to_owned();
    Some(App::PackageName(name))
}

/// Position of the first space or tab in `s` from `from`, counted from
/// `from`.
fn sep_from(s: &Vec<char>, from: usize) -> (r: Option<usize>)
    requires
        from <= s.len(),
    ensures
        r matches Some(i) ==> index_of_sep(s@.subrange(from as int, s.len() as int)) == Some(
            i as nat,
        ) && from + i < s.len(),
        r is None ==> index_of_sep(s@.subrange(from as int, s.len() as int)) is None,
{
    let n = s.len();
    let mut j = from;
    while j < n && s[j] != ' ' && s[j] != '\t'
        invariant
            n == s.len(),
            from <= j <= n,
            index_of_sep(s@.subrange(from as int, n as int)) == match index_of_sep(
                s@.subrange(j as int, n as int),
            ) {
                Some(k) => Some((k + (j - from)) as nat),
                None => None::<nat>,
            },
        decreases n - j,
    {
        proof {
            let t = s@.subrange(j as int, n as int);
            assert(t.drop_first() =~= s@.subrange(j + 1, n as int));
        }
        j = j + 1;
    }
    if j == n {
        proof {
            assert(s@.subrange(j as int, n as int).len() == 0);
        }
        None
    } else {
        proof {
            assert(is_column_sep(s@.subrange(j as int, n as int)[0]));
        }
        Some(j - from)
    }
}

/// What the line `line` of `ps` says of the application `name`.
fn pid_of_line(line: &Vec<char>, name: &Vec<char>) -> (r: Option<Option<u64>>)
    ensures
        r == line_pid(line@, name@),
{
    let n = line.len();
    proof {
        assert(line@.subrange(0, n as int) =~= line@);
    }
    if index_of_text_from(line, 0, name).is_none() {
        return None;
    }
    let first = match sep_from(line, 0) {
        Some(f) => f,
        None => {
            proof {
                assert(columns(line@).drop_first() =~= Seq::<Seq<char>>::empty());
            }
            return None;
        },
    };
    proof {
        assert(columns(line@).drop_first() =~= columns(line@.subrange(first + 1, n as int)));
    }
    let mut start = first + 1;
    loop
        invariant
            n == line.len(),
            start <= n,
            index_of_text(line@, name@) is Some,
            first_filled(columns(line@).drop_first()) == first_filled(
                columns(line@.subrange(start as int, n as int)),
            ),
        decreases n - start,
    {
        let ghost rest = line@.subrange(start as int, n as int);
        let end = match sep_from(line, start) {
            Some(e) => start + e,
            None => n,
        };
        let col = copy_range(line, start, end);
        let ghost tail = if end < n {
            columns(line@.subrange(end + 1, n as int))
        } else {
            Seq::<Seq<char>>::empty()
        };
        proof {
            match index_of_sep(rest) {
                Some(e) => {
                    assert(rest.subrange(0, e as int) =~= col@);
                    assert(rest.subrange((e + 1) as int, rest.len() as int) =~= line@.subrange(
                        end + 1,
                        n as int,
                    ));
                },
                None => {
                    assert(rest =~= col@);
                    assert(seq![col@] =~= seq![col@] + tail);
                },
            }
            assert(columns(rest) == seq![col@] + tail);
            lemma_first_filled_cons(col@, tail);
        }
        let (a, b) = trim_bounds(&col, 0, col.len());
        if a < b {
            let digits = copy_range(&col, a, b);
            return Some(parse_u64_chars(&digits));
        }
        if end == n {
            return None;
        }
        assert(tail == columns(line@.subrange(end + 1, n as int)));
        start = end + 1;
    }
}

/// The process id of the application `name`, from the output of `ps`: the
/// second column of the first line that holds the name and has one, where
/// that column reads as a number.
pub fn app_pid(output: &str, name: &str) -> (r: Option<u64>)
    ensures
        r == pid_in_lines(text_lines(output@), name@),
{
    let s = chars_of(output);
    let m = chars_of(name);
    let n = s.len();
    let mut pos: usize = 0;
    proof {
        assert(s@.subrange(0, n as int) =~= s@);
    }
    while pos < n
        invariant
            n == s.len(),
            pos <= n,
            s@ == output@,
            m@ == name@,
            pid_in_lines(text_lines(output@), name@) == pid_in_lines(
                text_lines(s@.subrange(pos as int, n as int)),
                name@,
            ),
        decreases n - pos,
    {
        let ghost rest = s@.subrange(pos as int, n as int);
        let (end, next) = match find_char(&s, pos, n, '\n') {
            Some(e) => {
                let end = e;
                if end > pos && s[end - 1] == '\r' {
                    (end - 1, end + 1)
                } else {
                    (end, end + 1)
                }
            },
            None => (n, n),
        };
        let line = copy_range(&s, pos, end);
        proof {
            reveal(crate::text::find_in);
            match index_of(rest, '\n') {
                Some(e) => {
                    let raw = rest.subrange(0, e as int);
                    if raw.len() > 0 && raw.last() == '\r' {
                        assert(raw.drop_last() =~= line@);
                    } else {
                        assert(raw =~= line@);
                    }
                    assert(rest.subrange((e + 1) as int, rest.len() as int) =~= s@.subrange(
                        next as int,
                        n as int,
                    ));
                    assert(text_lines(rest).drop_first() == text_lines(s@.subrange(next as int, n as int)));
                },
                None => {
                    assert(rest =~= line@);
                    assert(text_lines(rest) == seq![line@]);
                    assert(s@.subrange(next as int, n as int) =~= Seq::<char>::empty());
                    assert(text_lines(Seq::<char>::empty()) =~= Seq::<Seq<char>>::empty());
                    assert(text_lines(rest).drop_first() =~= text_lines(s@.subrange(next as int, n as int)));
                },
            }
            assert(text_lines(rest)[0] == line@);
        }
        match pid_of_line(&line, &m) {
            Some(r) => {
                return r;
            },
            None => {},
        }
        pos = next;
    }
    proof {
        assert(s@.subrange(pos as int, n as int) =~= Seq::<char>::empty());
        assert(text_lines(Seq::<char>::empty()) =~= Seq::<Seq<char>>::empty());
    }
    None
}

} // verus!
