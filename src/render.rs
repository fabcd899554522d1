//! Rendering of one logcat line: noise and tag filters, tag and level colors,
//! the header and the message wrapped to the terminal width.
use vstd::prelude::*;

use crate::color::{color_step, Color, Stack};
use crate::parser::{parse, parse_line, LineFields};
use crate::text::{chars_of, contains_text, occurs, push_spaces, spaces, texts};
use crate::wrap::{
    all_single_byte, join_lines, law_wrap_chunks, law_wrap_ten_ten_five, line_break, utf8_len, utf8_size,
    wrap_chunks, wrap_message,
};

verus! {

/// Width of the time column: `15:39:59.337`.
pub const TIME_LEN: usize = 12;

/// How a piece of output is colored.
#[derive(Clone, Copy, Debug, PartialEq, Eq, Structural)]
pub enum Style {
    /// No color.
    Plain,
    /// A foreground color.
    Fg(Color),
    /// A foreground and a background color.
    FgBg(Color, Color),
}

/// A piece of output text with its coloring.
pub struct Segment {
    pub text: String,
    pub style: Style,
}

impl View for Segment {
    type V = (Seq<char>, Style);

    open spec fn view(&self) -> (Seq<char>, Style) {
        (self.text@, self.style)
    }
}

/// The settings and the color assignment of a renderer.
pub struct RenderState {
    pub tag_width: nat,
    pub include_time: bool,
    pub term_width: nat,
    pub tag_include: Seq<Seq<char>>,
    pub tag_exclude: Seq<Seq<char>>,
    /// Tags seen so far, in order of first sight.
    pub seen: Seq<Seq<char>>,
}

/// Text of a diagnostic line of the log source that is never shown.
pub open spec fn noise_marker() -> Seq<char> {
    "nativeGetEnabledTags"@
}

/// Columns before the message: the tag, two separators, the level and two
/// more separators; with the time, also the bracketed time and a separator.
pub open spec fn header_size(tag_width: nat, include_time: bool) -> nat {
    if include_time {
        tag_width + 5 + TIME_LEN as nat + 3
    } else {
        tag_width + 5
    }
}

/// The tag right-aligned in `width` columns, cut to `width` where longer.
pub open spec fn pad_tag(tag: Seq<char>, width: nat) -> Seq<char> {
    if tag.len() < width {
        spaces((width - tag.len()) as nat) + tag
    } else {
        tag.subrange(0, width as int)
    }
}

/// The time left-aligned in the time column.
pub open spec fn pad_time(time: Seq<char>) -> Seq<char> {
    if time.len() < TIME_LEN {
        time + spaces((TIME_LEN - time.len()) as nat)
    } else {
        time
    }
}

/// Colors of a level: white on black for `V`, black on blue for `D`, on green
/// for `I`, on yellow for `W`, on red for `E` and `F`; none for the others.
pub open spec fn level_style(level: Seq<char>) -> Style {
    if level == seq!['V'] {
        Style::FgBg(Color::White, Color::Black)
    } else if level == seq!['D'] {
        Style::FgBg(Color::Black, Color::Blue)
    } else if level == seq!['I'] {
        Style::FgBg(Color::Black, Color::Green)
    } else if level == seq!['W'] {
        Style::FgBg(Color::Black, Color::Yellow)
    } else if level == seq!['E'] || level == seq!['F'] {
        Style::FgBg(Color::Black, Color::Red)
    } else {
        Style::Plain
    }
}

/// The message as printed: whole where the terminal is narrower than the
/// header (or its width unknown, zero); else wrapped to what is left of the
/// width, continuation lines indented by the header's size.
pub open spec fn message_body(msg: Seq<char>, term_width: nat, header: nat) -> Seq<char> {
    if term_width < header {
        msg
    } else {
        join_lines(wrap_chunks(msg, (term_width - header) as nat), header)
    }
}

/// Whether a line with `tag` passes the filters: it is not excluded, and it
/// is included where an inclusion list is given.
pub open spec fn tag_shown(tag: Seq<char>, inclusion: Seq<Seq<char>>, exclusion: Seq<Seq<char>>) -> bool {
    !exclusion.contains(tag) && (inclusion.len() == 0 || inclusion.contains(tag))
}

/// The output of a record whose tag has `color`.
pub open spec fn record_segments(rec: LineFields, color: Color, st: RenderState) -> Seq<
    (Seq<char>, Style),
> {
    let header = header_size(st.tag_width, st.include_time);
    let tag = seq![(pad_tag(rec.tag, st.tag_width), Style::Fg(color)), (seq![' '], Style::Plain)];
    let time = if st.include_time {
        seq![(seq!['['] + pad_time(rec.time) + seq![']', ' '], Style::Plain)]
    } else {
        Seq::empty()
    };
    tag + time + seq![
        (seq![' '] + rec.level + seq![' '], level_style(rec.level)),
        (seq![' '] + message_body(rec.msg, st.term_width, header) + seq!['\n'], Style::Plain),
    ]
}

/// Rendering of one raw line: the state afterwards and the output, if any.
/// Noise lines, lines that do not parse and lines whose tag is filtered out
/// give no output and leave the state as it is.
pub open spec fn render_step(st: RenderState, line: Seq<char>) -> (RenderState, Option<
    Seq<(Seq<char>, Style)>,
>) {
    if occurs(line, noise_marker()) {
        (st, None)
    } else {
        match parse_line(line) {
            None => (st, None),
            Some(rec) => if !tag_shown(rec.tag, st.tag_include, st.tag_exclude) {
                (st, None)
            } else {
                let (seen, color) = color_step(st.seen, rec.tag);
                (RenderState { seen, ..st }, Some(record_segments(rec, color, st)))
            },
        }
    }
}

/// A line whose tag is both excluded and included is dropped: exclusion
/// wins, and the color assignment stays as it was.
pub proof fn law_exclusion_wins(st: RenderState, line: Seq<char>)
    requires
        parse_line(line) matches Some(rec) && st.tag_exclude.contains(rec.tag) && st.tag_include.contains(
            rec.tag,
        ),
    ensures
        render_step(st, line) == (st, None::<Seq<(Seq<char>, Style)>>),
{
}

/// A line holding the noise marker is dropped, whatever else it holds.
pub proof fn law_noise_dropped(st: RenderState, line: Seq<char>)
    requires
        occurs(line, noise_marker()),
    ensures
        render_step(st, line) == (st, None::<Seq<(Seq<char>, Style)>>),
{
}

/// Where the terminal leaves 10 columns after the header, a message of 25
/// single-byte characters prints as lines of 10, 10 and 5 characters, each
/// line after the first indented by the header's size.
pub proof fn law_body_ten_ten_five(msg: Seq<char>, term_width: nat, header: nat)
    requires
        msg.len() == 25,
        all_single_byte(msg),
        header <= term_width,
        term_width - header == 10,
    ensures
        message_body(msg, term_width, header) == msg.subrange(0, 10) + line_break(header)
            + msg.subrange(10, 20) + line_break(header) + msg.subrange(20, 25),
{
    law_wrap_ten_ten_five(msg, header);
}

/// Where the terminal is as wide as the header or wider, the message body is
/// the message's lines joined by line breaks and header-wide indentation;
/// the lines put together give the message back, each fits what is left of
/// the width (but for a single wider character), and a character that would
/// not fit starts the next line, whole.
pub proof fn law_body_keeps_characters_whole(msg: Seq<char>, term_width: nat, header: nat)
    requires
        header <= term_width,
    ensures
        ({
            let width = (term_width - header) as nat;
            let lines = wrap_chunks(msg, width);
            &&& message_body(msg, term_width, header) == join_lines(lines, header)
            &&& lines.flatten() == msg
            &&& forall|i: int|
                0 <= i < lines.len() ==> utf8_size(#[trigger] lines[i]) <= width || lines[i].len() == 1
            &&& forall|i: int|
                0 <= i < lines.len() - 1 ==> utf8_size(#[trigger] lines[i]) + utf8_len(lines[i + 1][0])
                    > width
        }),
{
    law_wrap_chunks(msg, (term_width - header) as nat);
}

pub open spec fn segments_view(r: Option<Vec<Segment>>) -> Option<Seq<(Seq<char>, Style)>> {
    match r {
        Some(v) => Some(v@.map_values(|s: Segment| s@)),
        None => None,
    }
}

/// Renders log lines for a terminal.
pub struct Plogcat {
    include_time: bool,
    tag_colors: Stack,
    ///Max possible space to allocate for printing tag.
    pub tag_width: usize,
    ///Terminal width; zero where it is unknown, which turns wrapping off.
    pub term_width: usize,
    ///By default none, which means all tags are shown.
    pub tag_include: Vec<String>,
    ///By default none, which means exclude none.
    pub tag_exclude: Vec<String>,
}

impl View for Plogcat {
    type V = RenderState;

    closed spec fn view(&self) -> RenderState {
        RenderState {
            tag_width: self.tag_width as nat,
            include_time: self.include_time,
            term_width: self.term_width as nat,
            tag_include: texts(self.tag_include@),
            tag_exclude: texts(self.tag_exclude@),
            seen: self.tag_colors@,
        }
    }
}

/// Whether `tags` holds `tag`.
fn has_tag(tags: &Vec<String>, tag: &String) -> (r: bool)
    ensures
        r == texts(tags@).contains(tag@),
{
    let mut i: usize = 0;
    while i < tags.len()
        invariant
            i <= tags.len(),
            forall|j: int| 0 <= j < i ==> tags@[j]@ != tag@,
        decreases tags.len() - i,
    {
        if tags[i] == *tag {
            assert(texts(tags@)[i as int] == tag@);
            return true;
        }
        i = i + 1;
    }
    proof {
        if texts(tags@).contains(tag@) {
            let k = choose|k: int| 0 <= k < tags.len() && texts(tags@)[k] == tag@;
            assert(tags@[k]@ == tag@);
        }
    }
    false
}

fn level_style_of(level: &str) -> (r: Style)
    ensures
        r == level_style(level@),
{
    if level.unicode_len() != 1 {
        return Style::Plain;
    }
    let c = level.get_char(0);
    proof {
        assert(level@ =~= seq![c]);
    }
    if c == 'V' {
        Style::FgBg(Color::White, Color::Black)
    } else if c == 'D' {
        Style::FgBg(Color::Black, Color::Blue)
    } else if c == 'I' {
        Style::FgBg(Color::Black, Color::Green)
    } else if c == 'W' {
        Style::FgBg(Color::Black, Color::Yellow)
    } else if c == 'E' || c == 'F' {
        Style::FgBg(Color::Black, Color::Red)
    } else {
        Style::Plain
    }
}

fn padded_tag(tag: &str, width: usize) -> (r: String)
    ensures
        r@ == pad_tag(tag@, width as nat),
{
    let n = tag.unicode_len();
    let mut r = String::new();
    if n < width {
        push_spaces(&mut r, width - n);
        r.append(tag);
    } else {
        r.append(tag.substring_char(0, width));
    }
    r
}

impl Plogcat {
    pub closed spec fn wf(&self) -> bool {
        self.tag_colors.wf()
    }

    /// A renderer with no tag filters and no tag seen yet.
    pub fn new(tag_width: usize, include_time: bool, term_width: usize) -> (p: Self)
        ensures
            p.wf(),
            p@ == (RenderState {
                tag_width: tag_width as nat,
                include_time,
                term_width: term_width as nat,
                tag_include: Seq::empty(),
                tag_exclude: Seq::empty(),
                seen: Seq::empty(),
            }),
    {
        let p = Plogcat {
            include_time,
            tag_colors: Stack::new(),
            tag_width,
            term_width,
            tag_include: Vec::new(),
            tag_exclude: Vec::new(),
        };
        assert(p@.tag_include =~= Seq::empty());
        assert(p@.tag_exclude =~= Seq::empty());
        p
    }

    /// Sets the terminal width; zero turns wrapping off.
    pub fn set_term_width(&mut self, term_width: usize)
        requires
            old(self).wf(),
        ensures
            final(self).wf(),
            final(self)@ == (RenderState { term_width: term_width as nat, ..old(self)@ }),
    {
        self.term_width = term_width;
    }

    /// Sets the width of the tag column.
    pub fn set_tag_width(&mut self, tag_width: usize)
        requires
            old(self).wf(),
        ensures
            final(self).wf(),
            final(self)@ == (RenderState { tag_width: tag_width as nat, ..old(self)@ }),
    {
        self.tag_width = tag_width;
    }

    /// Sets the tags to show; an empty list shows all.
    pub fn set_tag_include(&mut self, tags: Vec<String>)
        requires
            old(self).wf(),
        ensures
            final(self).wf(),
            final(self)@ == (RenderState { tag_include: texts(tags@), ..old(self)@ }),
    {
        self.tag_include = tags;
    }

    /// Sets the tags to hide.
    pub fn set_tag_exclude(&mut self, tags: Vec<String>)
        requires
            old(self).wf(),
        ensures
            final(self).wf(),
            final(self)@ == (RenderState { tag_exclude: texts(tags@), ..old(self)@ }),
    {
        self.tag_exclude = tags;
    }

    /// Columns before the message.
    pub fn header_size(&self) -> (r: usize)
        requires
            self@.tag_width + TIME_LEN + 8 <= usize::MAX,
        ensures
            r == header_size(self@.tag_width, self@.include_time),
    {
        if self.include_time {
            self.tag_width + 5 + TIME_LEN + 3
        } else {
            self.tag_width + 5
        }
    }

    /// Renders one raw line into colored pieces of output, or nothing where
    /// the line is noise, does not parse or its tag is filtered out.
    pub fn handle_line(&mut self, line: &str) -> (r: Option<Vec<Segment>>)
        requires
            old(self).wf(),
            old(self)@.tag_width + TIME_LEN + 8 <= usize::MAX,
        ensures
            final(self).wf(),
            (final(self)@, segments_view(r)) == render_step(old(self)@, line@),
    {
        let marker = chars_of("nativeGetEnabledTags");
        let text = chars_of(line);
        if contains_text(&text, &marker) {
            return None;
        }
        let rec = match parse(line) {
            Some(rec) => rec,
            None => return None,
        };
        let tag = rec.tag.to_owned();
        if has_tag(&self.tag_exclude, &tag) {
            return None;
        }
        if self.tag_include.len() > 0 && !has_tag(&self.tag_include, &tag) {
            return None;
        }
        let ghost st = self@;
        let color = self.tag_colors.get_color(rec.tag);
        let header = self.header_size();
        let mut out: Vec<Segment> = Vec::new();
        proof {
            reveal_strlit(" ");
            reveal_strlit("[");
            reveal_strlit("] ");
            reveal_strlit("\n");
        }

        out.push(Segment { text: padded_tag(rec.tag, self.tag_width), style: Style::Fg(color) });
        out.push(Segment { text: String::from_str(" "), style: Style::Plain });
        if self.include_time {
            let mut t = String::from_str("[");
            t.append(rec.time);
            let n = rec.time.unicode_len();
            if n < TIME_LEN {
                push_spaces(&mut t, TIME_LEN - n);
            }
            t.append("] ");
            assert(t@ =~= seq!['['] + pad_time(rec.time@) + seq![']', ' ']);
            out.push(Segment { text: t, style: Style::Plain });
        }
        let mut lv = String::from_str(" ");
        lv.append(rec.level);
        lv.append(" ");
        assert(lv@ =~= seq![' '] + rec.level@ + seq![' ']);
        out.push(Segment { text: lv, style: level_style_of(rec.level) });

        let mut body = String::from_str(" ");
        if self.term_width < header {
            body.append(rec.msg);
        } else {
            let wrapped = wrap_message(rec.msg, self.term_width - header, header);
            body.append(wrapped.as_str());
        }
        body.append("\n");
        assert(body@ =~= seq![' '] + message_body(rec.msg@, st.term_width, header as nat) + seq!['\n']);
        out.push(Segment { text: body, style: Style::Plain });
        proof {
            let expected = record_segments(rec@, color, st);
            assert(pad_time(rec.time@) == pad_time(rec@.time));
            let m = out@.map_values(|s: Segment| s@);
            assert(m[0] == expected[0]);
            assert(m[1] == expected[1]);
            assert(m.len() == expected.len());
            if st.include_time {
                assert(m[2] == expected[2]);
                assert(m[3] == expected[3]);
                assert(m[4] == expected[4]);
            } else {
                assert(m[2] == expected[2]);
                assert(m[3] == expected[3]);
            }
            assert(m =~= expected);
        }
        Some(out)
    }
}

} // verus!
