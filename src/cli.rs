//! Values given on the command line: the minimum log level and the
//! application whose lines are shown.
use vstd::prelude::*;

use crate::text::{chars_of, texts};

verus! {

/// `a` and `b` are the same character once ASCII upper case is lowered.
pub open spec fn same_ignoring_case(a: char, b: char) -> bool {
    a == b || ('A' <= a <= 'Z' && a as u32 + 32 == b as u32) || ('A' <= b <= 'Z' && b as u32 + 32
        == a as u32)
}

/// `a` and `b` are the same text once ASCII upper case is lowered.
pub open spec fn same_text_ignoring_case(a: Seq<char>, b: Seq<char>) -> bool {
    a.len() == b.len() && forall|i: int| 0 <= i < a.len() ==> same_ignoring_case(#[trigger] a[i], b[i])
}

/// Whether `text` is the short or the long name of a level, in any case.
pub open spec fn names_level(text: Seq<char>, short: Seq<char>, long: Seq<char>) -> bool {
    same_text_ignoring_case(text, short) || same_text_ignoring_case(text, long)
}

/// The letter of the level that `text` names: `v` or `verbose`, `d` or
/// `debug`, `i` or `info`, `w` or `warning`, `e` or `error`, `f` or `fatal`,
/// in any case.
pub open spec fn level_letter(text: Seq<char>) -> Option<char> {
    if names_level(text, "v"@, "verbose"@) {
        Some('V')
    } else if names_level(text, "d"@, "debug"@) {
        Some('D')
    } else if names_level(text, "i"@, "info"@) {
        Some('I')
    } else if names_level(text, "w"@, "warning"@) {
        Some('W')
    } else if names_level(text, "e"@, "error"@) {
        Some('E')
    } else if names_level(text, "f"@, "fatal"@) {
        Some('F')
    } else {
        None
    }
}

pub open spec fn is_level_letter(c: char) -> bool {
    c == 'V' || c == 'D' || c == 'I' || c == 'W' || c == 'E' || c == 'F'
}

fn eq_ignore_ascii_case(a: &str, b: &str) -> (r: bool)
    ensures
        r == same_text_ignoring_case(a@, b@),
{
    let x = chars_of(a);
    let y = chars_of(b);
    if x.len() != y.len() {
        return false;
    }
    let mut i: usize = 0;
    while i < x.len()
        invariant
            x@ == a@,
            y@ == b@,
            x.len() == y.len(),
            i <= x.len(),
            forall|j: int| 0 <= j < i ==> same_ignoring_case(#[trigger] x@[j], y@[j]),
        decreases x.len() - i,
    {
        let c = x[i];
        let d = y[i];
        let same = c == d || ('A' <= c && c <= 'Z' && c as u32 + 32 == d as u32) || ('A' <= d && d
            <= 'Z' && d as u32 + 32 == c as u32);
        if !same {
            return false;
        }
        i = i + 1;
    }
    true
}

fn names_level_exec(text: &str, short: &str, long: &str) -> (r: bool)
    ensures
        r == names_level(text@, short@, long@),
{
    eq_ignore_ascii_case(text, short) || eq_ignore_ascii_case(text, long)
}

/// Minimum Android log level.
#[derive(Debug)]
pub struct Level(char);

impl View for Level {
    type V = char;

    closed spec fn view(&self) -> char {
        self.0
    }
}

impl Level {
    #[verifier::type_invariant]
    spec fn letter_is_known(&self) -> bool {
        is_level_letter(self.0)
    }

    /// The level named by `text`, or an error where it names none.
    pub fn from_name(text: &str) -> (r: Result<Level, ()>)
        ensures
            r is Ok <==> level_letter(text@) is Some,
            r matches Ok(l) ==> level_letter(text@) == Some(l@),
    {
        if names_level_exec(text, "v", "verbose") {
            Ok(Level('V'))
        } else if names_level_exec(text, "d", "debug") {
            Ok(Level('D'))
        } else if names_level_exec(text, "i", "info") {
            Ok(Level('I'))
        } else if names_level_exec(text, "w", "warning") {
            Ok(Level('W'))
        } else if names_level_exec(text, "e", "error") {
            Ok(Level('E'))
        } else if names_level_exec(text, "f", "fatal") {
            Ok(Level('F'))
        } else {
            Err(())
        }
    }

    /// The level's letter: one of `V`, `D`, `I`, `W`, `E`, `F`.
    pub fn letter(&self) -> (c: char)
        ensures
            c == self@,
            is_level_letter(c),
    {
        proof {
            use_type_invariant(self);
        }
        self.0
    }

    /// The logcat filter for this level: none for verbose, which shows all;
    /// else `*:` and the level's letter.
    pub fn filter_spec(&self) -> (r: Option<String>)
        ensures
            self@ == 'V' ==> r is None,
            self@ != 'V' ==> (r matches Some(s) && s@ == seq!['*', ':', self@]),
    {
        proof {
            use_type_invariant(self);
            reveal_strlit("*:D");
            reveal_strlit("*:I");
            reveal_strlit("*:W");
            reveal_strlit("*:E");
            reveal_strlit("*:F");
        }
        let spec_text = match self.0 {
            'V' => return None,
            'D' => "*:D",
            'I' => "*:I",
            'W' => "*:W",
            'E' => "*:E",
            _ => "*:F",
        };
        let r = String::from_str(spec_text);
        assert(r@ =~= seq!['*', ':', self@]);
        Some(r)
    }
}

impl core::str::FromStr for Level {
    type Err = ();

    fn from_str(text: &str) -> (r: Result<Self, Self::Err>)
        ensures
            r is Ok <==> level_letter(text@) is Some,
            r matches Ok(l) ==> level_letter(text@) == Some(l@),
    {
        Level::from_name(text)
    }
}

impl Default for Level {
    fn default() -> (r: Self)
        ensures
            r@ == 'V',
    {
        Level('V')
    }
}

pub open spec fn is_digit(c: char) -> bool {
    '0' <= c <= '9'
}

/// `s` without a leading `+`.
pub open spec fn unsigned_digits(s: Seq<char>) -> Seq<char> {
    if s.len() > 0 && s[0] == '+' {
        s.drop_first()
    } else {
        s
    }
}

pub open spec fn all_digits(d: Seq<char>) -> bool {
    forall|i: int| 0 <= i < d.len() ==> is_digit(#[trigger] d[i])
}

/// Value of a run of decimal digits.
pub open spec fn digits_value(s: Seq<char>) -> nat
    decreases s.len(),
{
    if s.len() == 0 {
        0
    } else {
        digits_value(s.drop_last()) * 10 + (s.last() as u32 - '0' as u32) as nat
    }
}

/// What `u64`'s `from_str` reads: an optional `+`, then one or more decimal
/// digits whose value fits in a `u64`.
pub open spec fn decimal_u64(s: Seq<char>) -> Option<u64> {
    let d = unsigned_digits(s);
    if d.len() > 0 && all_digits(d) && digits_value(d) <= u64::MAX {
        Some(digits_value(d) as u64)
    } else {
        None
    }
}

proof fn lemma_digits_grow(d: Seq<char>, k: int)
    requires
        0 <= k <= d.len(),
        forall|i: int| 0 <= i < d.len() ==> is_digit(#[trigger] d[i]),
    ensures
        digits_value(d.subrange(0, k)) <= digits_value(d),
    decreases d.len() - k,
{
    if k < d.len() {
        lemma_digits_grow(d, k + 1);
        let p = d.subrange(0, k + 1);
        assert(p.drop_last() =~= d.subrange(0, k));
    } else {
        assert(d.subrange(0, k) =~= d);
    }
}

/// The number that `text` holds, as `u64`'s `from_str` reads it.
pub fn parse_u64(text: &str) -> (r: Option<u64>)
    ensures
        r == decimal_u64(text@),
{
    let s = chars_of(text);
    parse_u64_chars(&s)
}

/// The number that `s` holds, as `u64`'s `from_str` reads it.
pub fn parse_u64_chars(s: &Vec<char>) -> (r: Option<u64>)
    ensures
        r == decimal_u64(s@),
{
    let start: usize = if s.len() > 0 && s[0] == '+' {
        1
    } else {
        0
    };
    let ghost d = s@.subrange(start as int, s@.len() as int);
    proof {
        if start == 1 {
            assert(d =~= s@.drop_first());
        } else {
            assert(d =~= s@);
        }
    }
    if start == s.len() {
        return None;
    }
    let mut i = start;
    while i < s.len()
        invariant
            start <= i <= s.len(),
            d == s@.subrange(start as int, s@.len() as int),
            d == unsigned_digits(s@),
            forall|j: int| 0 <= j < i - start ==> is_digit(#[trigger] d[j]),
        decreases s.len() - i,
    {
        if !('0' <= s[i] && s[i] <= '9') {
            assert(d[i - start] == s@[i as int]);
            assert(!is_digit(d[i - start]));
            return None;
        }
        i = i + 1;
    }
    let mut value: u64 = 0;
    let mut k = start;
    proof {
        assert(d.subrange(0, 0) =~= Seq::<char>::empty());
    }
    while k < s.len()
        invariant
            start <= k <= s.len(),
            d == s@.subrange(start as int, s@.len() as int),
            d == unsigned_digits(s@),
            forall|j: int| 0 <= j < d.len() ==> is_digit(#[trigger] d[j]),
            value as nat == digits_value(d.subrange(0, k - start)),
        decreases s.len() - k,
    {
        assert(d[k - start] == s@[k as int]);
        let digit = (s[k] as u32 - '0' as u32) as u64;
        proof {
            let p = d.subrange(0, k - start + 1);
            assert(p.drop_last() =~= d.subrange(0, k - start));
            assert(p.last() == s@[k as int]);
        }
        match value.checked_mul(10) {
            Some(tens) => match tens.checked_add(digit) {
                Some(v) => {
                    value = v;
                },
                None => {
                    proof {
                        lemma_digits_grow(d, k - start + 1);
                    }
                    return None;
                },
            },
            None => {
                proof {
                    lemma_digits_grow(d, k - start + 1);
                }
                return None;
            },
        }
        k = k + 1;
    }
    proof {
        assert(d.subrange(0, d.len() as int) =~= d);
    }
    Some(value)
}

/// Application whose lines are shown: by process id or by package name.
#[derive(Debug)]
pub enum App {
    Pid(u64),
    PackageName(String),
}

impl App {
    /// A process id where `text` reads as one, else a package name.
    pub fn from_text(text: &str) -> (r: App)
        ensures
            decimal_u64(text@) matches Some(n) ==> r == App::Pid(n),
            decimal_u64(text@) is None ==> (r matches App::PackageName(name) && name@ == text@),
    {
        match parse_u64(text) {
            Some(pid) => App::Pid(pid),
            None => App::PackageName(text.to_owned()),
        }
    }
}

impl core::str::FromStr for App {
    type Err = ();

    fn from_str(text: &str) -> (r: Result<Self, Self::Err>)
        ensures
            decimal_u64(text@) matches Some(n) ==> r == Ok::<App, ()>(App::Pid(n)),
            decimal_u64(text@) is None ==> (r matches Ok(App::PackageName(name)) && name@ == text@),
    {
        Ok(App::from_text(text))
    }
}

/// Decimal digits.
pub open spec fn digit_chars() -> Seq<char> {
    seq!['0', '1', '2', '3', '4', '5', '6', '7', '8', '9']
}

/// `n` written in decimal, without leading zeros.
pub open spec fn decimal_text(n: nat) -> Seq<char>
    decreases n,
{
    if n < 10 {
        seq![digit_chars()[n as int]]
    } else {
        decimal_text(n / 10) + seq![digit_chars()[(n % 10) as int]]
    }
}

fn digit_text(d: u64) -> (r: &'static str)
    requires
        d < 10,
    ensures
        r@ == seq![digit_chars()[d as int]],
{
    proof {
        reveal_strlit("0");
        reveal_strlit("1");
        reveal_strlit("2");
        reveal_strlit("3");
        reveal_strlit("4");
        reveal_strlit("5");
        reveal_strlit("6");
        reveal_strlit("7");
        reveal_strlit("8");
        reveal_strlit("9");
    }
    let r = match d {
        0 => "0",
        1 => "1",
        2 => "2",
        3 => "3",
        4 => "4",
        5 => "5",
        6 => "6",
        7 => "7",
        8 => "8",
        _ => "9",
    };
    assert(r@ =~= seq![digit_chars()[d as int]]);
    r
}

/// `n` written in decimal.
pub fn decimal_string(n: u64) -> (r: String)
    ensures
        r@ == decimal_text(n as nat),
    decreases n,
{
    if n < 10 {
        String::from_str(digit_text(n))
    } else {
        let mut r = decimal_string(n / 10);
        r.append(digit_text(n % 10));
        r
    }
}

/// Each of `values` preceded by `flag`.
pub open spec fn flagged(flag: Seq<char>, values: Seq<Seq<char>>) -> Seq<Seq<char>>
    decreases values.len(),
{
    if values.len() == 0 {
        Seq::empty()
    } else {
        flagged(flag, values.drop_last()) + seq![flag, values.last()]
    }
}

/// `flag` when `on`.
pub open spec fn switch(flag: Seq<char>, on: bool) -> Seq<Seq<char>> {
    if on {
        seq![flag]
    } else {
        Seq::empty()
    }
}

/// `flag` and the value, where there is one.
pub open spec fn option_arg(flag: Seq<char>, value: Option<Seq<char>>) -> Seq<Seq<char>> {
    match value {
        Some(v) => seq![flag, v],
        None => Seq::empty(),
    }
}

/// Arguments of `adb` that choose the device: `-s` and the serial number,
/// `-d` for the USB device, `-e` for the TCP/IP one.
pub open spec fn device_args_text(serial: Option<Seq<char>>, device: bool, emulator: bool) -> Seq<
    Seq<char>,
> {
    option_arg("-s"@, serial) + switch("-d"@, device) + switch("-e"@, emulator)
}

/// Arguments of `adb` for `logcat`: the device, `logcat`, `-b` before each
/// buffer, `-e` before each expression, `-m` and the line count, `-d` to
/// dump, `-L` for the last boot, `-T` and the start time.
pub open spec fn logcat_args_text(
    device: Seq<Seq<char>>,
    buffers: Seq<Seq<char>>,
    regexes: Seq<Seq<char>>,
    max_count: Option<u64>,
    dump: bool,
    last: bool,
    since: Option<Seq<char>>,
) -> Seq<Seq<char>> {
    device + seq!["logcat"@] + flagged("-b"@, buffers) + flagged("-e"@, regexes) + option_arg(
        "-m"@,
        match max_count {
            Some(n) => Some(decimal_text(n as nat)),
            None => None,
        },
    ) + switch("-d"@, dump) + switch("-L"@, last) + option_arg("-T"@, since)
}

pub open spec fn opt_text(v: Option<String>) -> Option<Seq<char>> {
    match v {
        Some(s) => Some(s@),
        None => None,
    }
}

fn push_text(args: &mut Vec<String>, text: &str)
    ensures
        texts(final(args)@) == texts(old(args)@) + seq![text@],
{
    args.push(String::from_str(text));
    assert(texts(final(args)@) =~= texts(old(args)@) + seq![text@]);
}

fn push_flagged(args: &mut Vec<String>, flag: &str, values: &Vec<String>)
    ensures
        texts(final(args)@) == texts(old(args)@) + flagged(flag@, texts(values@)),
{
    let ghost start = texts(args@);
    let mut i: usize = 0;
    proof {
        assert(texts(values@).subrange(0, 0) =~= Seq::<Seq<char>>::empty());
        assert(texts(args@) =~= start + flagged(flag@, Seq::<Seq<char>>::empty()));
    }
    while i < values.len()
        invariant
            i <= values.len(),
            texts(args@) == start + flagged(flag@, texts(values@).subrange(0, i as int)),
        decreases values.len() - i,
    {
        push_text(args, flag);
        push_text(args, values[i].as_str());
        proof {
            let vs = texts(values@).subrange(0, i + 1);
            assert(vs.drop_last() =~= texts(values@).subrange(0, i as int));
            assert(vs.last() == values@[i as int]@);
            assert(texts(args@) =~= start + flagged(flag@, vs));
        }
        i = i + 1;
    }
    proof {
        assert(texts(values@).subrange(0, values.len() as int) =~= texts(values@));
    }
}

/// Arguments of `adb` that choose the device.
pub fn adb_args(serial: &Option<String>, device: bool, emulator: bool) -> (r: Vec<String>)
    ensures
        texts(r@) == device_args_text(opt_text(*serial), device, emulator),
{
    let mut args: Vec<String> = Vec::new();
    if let Some(serial) = serial {
        push_text(&mut args, "-s");
        push_text(&mut args, serial.as_str());
    }
    if device {
        push_text(&mut args, "-d");
    }
    if emulator {
        push_text(&mut args, "-e");
    }
    assert(texts(args@) =~= device_args_text(opt_text(*serial), device, emulator));
    args
}

/// Arguments of `adb` for `logcat`, after those in `device`; `since` is the
/// start time, already written out.
pub fn logcat_args(
    device: Vec<String>,
    buffers: &Vec<String>,
    regexes: &Vec<String>,
    max_count: Option<u64>,
    dump: bool,
    last: bool,
    since: &Option<String>,
) -> (r: Vec<String>)
    ensures
        texts(r@) == logcat_args_text(
            texts(device@),
            texts(buffers@),
            texts(regexes@),
            max_count,
            dump,
            last,
            opt_text(*since),
        ),
{
    let mut args = device;
    push_text(&mut args, "logcat");
    push_flagged(&mut args, "-b", buffers);
    push_flagged(&mut args, "-e", regexes);
    if let Some(n) = max_count {
        push_text(&mut args, "-m");
        let count = decimal_string(n);
        push_text(&mut args, count.as_str());
    }
    if dump {
        push_text(&mut args, "-d");
    }
    if last {
        push_text(&mut args, "-L");
    }
    if let Some(since) = since {
        push_text(&mut args, "-T");
        push_text(&mut args, since.as_str());
    }
    assert(texts(args@) =~= logcat_args_text(
        texts(device@),
        texts(buffers@),
        texts(regexes@),
        max_count,
        dump,
        last,
        opt_text(*since),
    ));
    args
}

} // verus!
