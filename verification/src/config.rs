//! Graph configurations: the text that describes the nodes and links of a graph.
//!
//! A configuration is made of commands, separated by new lines or commas. The words of a
//! command are separated by white space:
//! - `A` adds node `A`; `A 10 -20` adds it at (10, -20), its position frozen (`A _ _` adds it
//!   without a position);
//! - `A - B 5` adds a link between `A` and `B`, both ways, of value 5;
//! - `A > B 5` (or `B < A 5`) adds a link from `A` to `B` only;
//! - the value of a link may be left out (or written `_`): it is then 0.
use vstd::prelude::*;
use crate::text::{dec_int, dec_nat, digit_char};

verus! {

/// A command of a configuration.
#[derive(Clone, Copy, PartialEq, Eq, Debug)]
pub enum Command {
    /// A node, with its frozen position if one is given.
    AddNode(char, Option<(i16, i16)>),
    /// A link: from, to, whether it goes both ways, value.
    AddLink(char, char, bool, i8),
}

/// Why a configuration is refused, with the index of the line (from 0) where it happens.
#[derive(Clone, Copy, PartialEq, Eq, Structural, Debug)]
pub enum ConfigError {
    /// The words of a command match no form of command.
    InvalidCommand(usize),
    /// A node name is not one character.
    InvalidNodeName(usize),
    /// A coordinate is not an `i16`.
    InvalidCoordinate(usize),
    /// A link value is not an `i8`.
    InvalidValue(usize),
}

/// Whether `c` is white space: the characters of the Unicode `White_Space` property, which
/// `char::is_whitespace` tests.
pub open spec fn is_white(c: char) -> bool {
    let u = c as u32;
    ||| 0x09 <= u <= 0x0D
    ||| u == 0x20
    ||| u == 0x85
    ||| u == 0xA0
    ||| u == 0x1680
    ||| 0x2000 <= u <= 0x200A
    ||| u == 0x2028
    ||| u == 0x2029
    ||| u == 0x202F
    ||| u == 0x205F
    ||| u == 0x3000
}

/// Whether `c` is white space (see `is_white`).
pub fn white(c: char) -> (b: bool)
    ensures
        b == is_white(c),
{
    let u = c as u32;
    (0x09 <= u && u <= 0x0D) || u == 0x20 || u == 0x85 || u == 0xA0 || u == 0x1680 || (0x2000 <= u
        && u <= 0x200A) || u == 0x2028 || u == 0x2029 || u == 0x202F || u == 0x205F || u == 0x3000
}

/// The pieces of `s` between the occurrences of `sep`, in order (as `str::split` gives them:
/// `n` separators make `n + 1` pieces, some maybe empty).
pub open spec fn split_at_char(s: Seq<char>, sep: char) -> Seq<Seq<char>>
    decreases s.len(),
{
    if s.len() == 0 {
        seq![Seq::<char>::empty()]
    } else {
        let r = split_at_char(s.drop_last(), sep);
        if s.last() == sep {
            r.push(Seq::<char>::empty())
        } else {
            r.update(r.len() - 1, r.last().push(s.last()))
        }
    }
}

/// The words of `s`: its maximal runs of characters that are not white space, in order (as
/// `str::split_whitespace` gives them).
pub open spec fn words(s: Seq<char>) -> Seq<Seq<char>>
    decreases s.len(),
{
    if s.len() == 0 {
        Seq::empty()
    } else {
        let r = words(s.drop_last());
        let c = s.last();
        if is_white(c) {
            r
        } else if s.len() >= 2 && !is_white(s[s.len() - 2]) {
            r.update(r.len() - 1, r.last().push(c))
        } else {
            r.push(seq![c])
        }
    }
}

/// The value of the decimal digit `c` (the digits '0' to '9' have the code points 48 to 57).
pub open spec fn digit_value(c: char) -> int {
    (c as u32) - 48
}

/// Whether `c` is a decimal digit ('0' to '9').
pub open spec fn is_digit(c: char) -> bool {
    48 <= c as u32 <= 57
}

/// The value of the decimal digits `d`.
pub open spec fn digits_value(d: Seq<char>) -> int
    decreases d.len(),
{
    if d.len() == 0 {
        0
    } else {
        digits_value(d.drop_last()) * 10 + digit_value(d.last())
    }
}

/// `s` without its sign, if it begins with one.
pub open spec fn unsigned_part(s: Seq<char>) -> Seq<char> {
    if s.len() > 0 && (s[0] == '-' || s[0] == '+') {
        s.skip(1)
    } else {
        s
    }
}

/// Whether every character of `d` is a decimal digit.
pub open spec fn all_digits(d: Seq<char>) -> bool {
    forall|i: int| 0 <= i < d.len() ==> is_digit(#[trigger] d[i])
}

/// The integer that `s` writes in decimal, with an optional sign (as `i64::from_str` reads
/// it, without bounds).
pub open spec fn int_of(s: Seq<char>) -> Option<int> {
    let digits = unsigned_part(s);
    if digits.len() == 0 || !all_digits(digits) {
        None
    } else if s[0] == '-' {
        Some(-digits_value(digits))
    } else {
        Some(digits_value(digits))
    }
}

/// The integer that `s` writes, when it lies in `lo..=hi` (as `i8::from_str` or
/// `i16::from_str` read it for their bounds).
pub open spec fn int_in(s: Seq<char>, lo: int, hi: int) -> Option<int> {
    match int_of(s) {
        Some(v) => if lo <= v <= hi {
            Some(v)
        } else {
            None
        },
        None => None,
    }
}

/// The command of a node named `name`, with the coordinates `coords` when they are given.
pub open spec fn node_command(name: Seq<char>, coords: Option<(Seq<char>, Seq<char>)>, line: nat) -> Result<Command, ConfigError> {
    if name.len() != 1 {
        Err(ConfigError::InvalidNodeName(line as usize))
    } else {
        match coords {
            Some((cx, cy)) => if cx == "_"@ {
                Ok(Command::AddNode(name[0], None))
            } else {
                match (int_in(cx, -32768, 32767), int_in(cy, -32768, 32767)) {
                    (Some(x), Some(y)) => Ok(Command::AddNode(name[0], Some((x as i16, y as i16)))),
                    _ => Err(ConfigError::InvalidCoordinate(line as usize)),
                }
            },
            None => Ok(Command::AddNode(name[0], None)),
        }
    }
}

/// The command of a link from `from` to `to`, of value `value` when one is given.
pub open spec fn link_command(from: Seq<char>, to: Seq<char>, bidirect: bool, value: Option<Seq<char>>, line: nat) -> Result<Command, ConfigError> {
    if from.len() != 1 || to.len() != 1 {
        Err(ConfigError::InvalidNodeName(line as usize))
    } else {
        match value {
            Some(v) => if v == "_"@ {
                Ok(Command::AddLink(from[0], to[0], bidirect, 0))
            } else {
                match int_in(v, -128, 127) {
                    Some(x) => Ok(Command::AddLink(from[0], to[0], bidirect, x as i8)),
                    None => Err(ConfigError::InvalidValue(line as usize)),
                }
            },
            None => Ok(Command::AddLink(from[0], to[0], bidirect, 0)),
        }
    }
}

/// The command that the words `w` (of line `line`) write, if any.
pub open spec fn command_of(w: Seq<Seq<char>>, line: nat) -> Result<Option<Command>, ConfigError> {
    let r = if w.len() == 4 && w[1] == "-"@ {
        link_command(w[0], w[2], true, Some(w[3]), line)
    } else if w.len() == 3 && w[1] == "-"@ {
        link_command(w[0], w[2], true, None, line)
    } else if w.len() == 4 && w[1] == ">"@ {
        link_command(w[0], w[2], false, Some(w[3]), line)
    } else if w.len() == 3 && w[1] == ">"@ {
        link_command(w[0], w[2], false, None, line)
    } else if w.len() == 4 && w[1] == "<"@ {
        link_command(w[2], w[0], false, Some(w[3]), line)
    } else if w.len() == 3 && w[1] == "<"@ {
        link_command(w[2], w[0], false, None, line)
    } else if w.len() == 3 {
        node_command(w[0], Some((w[1], w[2])), line)
    } else if w.len() == 1 {
        node_command(w[0], None, line)
    } else {
        Err(ConfigError::InvalidCommand(line as usize))
    };
    if w.len() == 0 {
        Ok(None)
    } else {
        match r {
            Ok(c) => Ok(Some(c)),
            Err(e) => Err(e),
        }
    }
}

/// The commands of the pieces `cmds` of line `line`, in order, or the first error.
pub open spec fn commands_of_line(cmds: Seq<Seq<char>>, line: nat) -> Result<Seq<Command>, ConfigError>
    decreases cmds.len(),
{
    if cmds.len() == 0 {
        Ok(Seq::empty())
    } else {
        match commands_of_line(cmds.drop_last(), line) {
            Err(e) => Err(e),
            Ok(cs) => match command_of(words(cmds.last()), line) {
                Err(e) => Err(e),
                Ok(None) => Ok(cs),
                Ok(Some(c)) => Ok(cs.push(c)),
            },
        }
    }
}

/// The commands of the lines `lines`, in order, or the first error.
pub open spec fn commands_of_lines(lines: Seq<Seq<char>>) -> Result<Seq<Command>, ConfigError>
    decreases lines.len(),
{
    if lines.len() == 0 {
        Ok(Seq::empty())
    } else {
        match commands_of_lines(lines.drop_last()) {
            Err(e) => Err(e),
            Ok(cs) => match commands_of_line(split_at_char(lines.last(), ','), (lines.len() - 1) as nat) {
                Err(e) => Err(e),
                Ok(more) => Ok(cs + more),
            },
        }
    }
}

/// The commands of the configuration `text`, in order, or the first error.
pub open spec fn commands_of(text: Seq<char>) -> Result<Seq<Command>, ConfigError> {
    commands_of_lines(split_at_char(text, '\n'))
}

/// The characters of `s`.
pub fn chars_of(s: &str) -> (v: Vec<char>)
    ensures
        v@ == s@,
{
    let n = s.unicode_len();
    let mut v: Vec<char> = Vec::new();
    let mut i: usize = 0;
    while i < n
        invariant
            n == s@.len(),
            i <= n,
            v@ == s@.take(i as int),
        decreases n - i,
    {
        v.push(s.get_char(i));
        assert(v@ =~= s@.take(i + 1));
        i = i + 1;
    }
    assert(s@.take(i as int) =~= s@);
    v
}

/// The pieces of `s` between the occurrences of `sep` (see `split_at_char`).
pub fn split_chars(s: &Vec<char>, sep: char) -> (r: Vec<Vec<char>>)
    ensures
        r@.len() == split_at_char(s@, sep).len(),
        forall|i: int| 0 <= i < r@.len() ==> (#[trigger] r@[i])@ == split_at_char(s@, sep)[i],
{
    let mut r: Vec<Vec<char>> = Vec::new();
    let mut cur: Vec<char> = Vec::new();
    let mut i: usize = 0;
    while i < s.len()
        invariant
            i <= s@.len(),
            r@.len() + 1 == split_at_char(s@.take(i as int), sep).len(),
            forall|j: int| 0 <= j < r@.len() ==> (#[trigger] r@[j])@ == split_at_char(s@.take(i as int), sep)[j],
            cur@ == split_at_char(s@.take(i as int), sep).last(),
        decreases s@.len() - i,
    {
        let c = s[i];
        assert(s@.take(i + 1).drop_last() =~= s@.take(i as int));
        if c == sep {
            r.push(cur);
            cur = Vec::new();
        } else {
            cur.push(c);
        }
        i = i + 1;
    }
    assert(s@.take(i as int) =~= s@);
    r.push(cur);
    r
}

/// The words of `s` (see `words`).
pub fn split_words(s: &Vec<char>) -> (r: Vec<Vec<char>>)
    ensures
        r@.len() == words(s@).len(),
        forall|i: int| 0 <= i < r@.len() ==> (#[trigger] r@[i])@ == words(s@)[i],
{
    let mut r: Vec<Vec<char>> = Vec::new();
    let mut cur: Vec<char> = Vec::new();
    let mut i: usize = 0;
    while i < s.len()
        invariant
            i <= s@.len(),
            cur@.len() > 0 ==> i > 0 && !is_white(s@[i - 1]),
            i > 0 && !is_white(s@[i - 1]) ==> cur@.len() > 0,
            r@.len() + (if cur@.len() > 0 { 1int } else { 0 }) == words(s@.take(i as int)).len(),
            forall|j: int| 0 <= j < r@.len() ==> (#[trigger] r@[j])@ == words(s@.take(i as int))[j],
            cur@.len() > 0 ==> cur@ == words(s@.take(i as int)).last(),
        decreases s@.len() - i,
    {
        let c = s[i];
        let ghost t = s@.take(i + 1);
        assert(t.drop_last() =~= s@.take(i as int));
        assert(t.last() == c);
        if white(c) {
            if cur.len() > 0 {
                r.push(cur);
                cur = Vec::new();
            }
        } else {
            if i > 0 {
                assert(t[t.len() - 2] == s@[i - 1]);
            }
            cur.push(c);
        }
        i = i + 1;
    }
    assert(s@.take(i as int) =~= s@);
    if cur.len() > 0 {
        r.push(cur);
    }
    r
}

/// Whether the characters `w` are the text `t`.
fn is_text(w: &Vec<char>, t: &str) -> (b: bool)
    ensures
        b == (w@ == t@),
{
    let n = t.unicode_len();
    if w.len() != n {
        return false;
    }
    let mut i: usize = 0;
    while i < n
        invariant
            n == t@.len(),
            n == w@.len(),
            i <= n,
            forall|j: int| 0 <= j < i ==> w@[j] == t@[j],
        decreases n - i,
    {
        if w[i] != t.get_char(i) {
            return false;
        }
        i = i + 1;
    }
    assert(w@ =~= t@);
    true
}

/// Bound on the values kept while reading digits: beyond it, a value only grows.
const DIGITS_CAP: i64 = 100000;

/// The integer that `w` writes, when it lies in `lo..=hi` (see `int_in`).
pub fn parse_int_in(w: &Vec<char>, lo: i32, hi: i32) -> (r: Option<i32>)
    requires
        -100000 < lo <= hi < 100000,
    ensures
        match int_in(w@, lo as int, hi as int) {
            Some(v) => r == Some(v as i32),
            None => r is None,
        },
{
    if w.len() == 0 {
        return None;
    }
    let signed = w[0] == '-' || w[0] == '+';
    let start: usize = if signed { 1 } else { 0 };
    let ghost digits = unsigned_part(w@);
    if start == w.len() {
        assert(digits.len() == 0);
        return None;
    }
    let mut acc: i64 = 0;
    let mut i: usize = start;
    while i < w.len()
        invariant
            start <= i <= w@.len(),
            start == (if signed { 1int } else { 0 }),
            signed == (w@[0] == '-' || w@[0] == '+'),
            digits == unsigned_part(w@),
            forall|j: int| start <= j < i ==> is_digit(#[trigger] w@[j]),
            digits_value(w@.subrange(start as int, i as int)) <= DIGITS_CAP ==> acc == digits_value(w@.subrange(start as int, i as int)),
            digits_value(w@.subrange(start as int, i as int)) > DIGITS_CAP ==> DIGITS_CAP < acc <= 10 * DIGITS_CAP + 9,
            0 <= acc <= 10 * DIGITS_CAP + 9,
            0 <= digits_value(w@.subrange(start as int, i as int)),
        decreases w@.len() - i,
    {
        let c = w[i];
        let u = c as u32;
        if u < 48 || u > 57 {
            proof {
                assert(digits[i - start] == c);
                assert(!is_digit(digits[i - start]));
                assert(!all_digits(digits));
            }
            return None;
        }
        let ghost prev = w@.subrange(start as int, i as int);
        assert(w@.subrange(start as int, i + 1).drop_last() =~= prev);
        if acc <= DIGITS_CAP {
            acc = acc * 10 + (u - 48) as i64;
        }
        i = i + 1;
    }
    proof {
        assert(w@.subrange(start as int, i as int) =~= digits);
        assert(w@[0] == '-' ==> signed);
        assert forall|j: int| 0 <= j < digits.len() implies is_digit(#[trigger] digits[j]) by {
            assert(digits[j] == w@[start + j]);
        }
        assert(all_digits(digits));
    }
    let v: i64 = if w[0] == '-' { -acc } else { acc };
    if lo as i64 <= v && v <= hi as i64 {
        Some(v as i32)
    } else {
        None
    }
}

/// The command of a node (see `node_command`).
fn node_command_of(name: &Vec<char>, coords: Option<(&Vec<char>, &Vec<char>)>, line: usize) -> (r: Result<Command, ConfigError>)
    ensures
        r == node_command(name@, match coords {
            Some((cx, cy)) => Some((cx@, cy@)),
            None => None,
        }, line as nat),
{
    if name.len() != 1 {
        return Err(ConfigError::InvalidNodeName(line));
    }
    match coords {
        Some((cx, cy)) => {
            if is_text(cx, "_") {
                Ok(Command::AddNode(name[0], None))
            } else {
                match (parse_int_in(cx, -32768, 32767), parse_int_in(cy, -32768, 32767)) {
                    (Some(x), Some(y)) => Ok(Command::AddNode(name[0], Some((x as i16, y as i16)))),
                    _ => Err(ConfigError::InvalidCoordinate(line)),
                }
            }
        },
        None => Ok(Command::AddNode(name[0], None)),
    }
}

/// The command of a link (see `link_command`).
fn link_command_of(from: &Vec<char>, to: &Vec<char>, bidirect: bool, value: Option<&Vec<char>>, line: usize) -> (r: Result<Command, ConfigError>)
    ensures
        r == link_command(from@, to@, bidirect, match value {
            Some(v) => Some(v@),
            None => None,
        }, line as nat),
{
    if from.len() != 1 || to.len() != 1 {
        return Err(ConfigError::InvalidNodeName(line));
    }
    match value {
        Some(v) => {
            if is_text(v, "_") {
                Ok(Command::AddLink(from[0], to[0], bidirect, 0))
            } else {
                match parse_int_in(v, -128, 127) {
                    Some(x) => Ok(Command::AddLink(from[0], to[0], bidirect, x as i8)),
                    None => Err(ConfigError::InvalidValue(line)),
                }
            }
        },
        None => Ok(Command::AddLink(from[0], to[0], bidirect, 0)),
    }
}

/// The command that the words `w` write, if any (see `command_of`).
fn parse_command(w: &Vec<Vec<char>>, line: usize) -> (r: Result<Option<Command>, ConfigError>)
    ensures
        r == command_of(w@.map_values(|x: Vec<char>| x@), line as nat),
{
    let ghost ws = w@.map_values(|x: Vec<char>| x@);
    if w.len() == 0 {
        return Ok(None);
    }
    let n = w.len();
    let r = if n == 4 && is_text(&w[1], "-") {
        link_command_of(&w[0], &w[2], true, Some(&w[3]), line)
    } else if n == 3 && is_text(&w[1], "-") {
        link_command_of(&w[0], &w[2], true, None, line)
    } else if n == 4 && is_text(&w[1], ">") {
        link_command_of(&w[0], &w[2], false, Some(&w[3]), line)
    } else if n == 3 && is_text(&w[1], ">") {
        link_command_of(&w[0], &w[2], false, None, line)
    } else if n == 4 && is_text(&w[1], "<") {
        link_command_of(&w[2], &w[0], false, Some(&w[3]), line)
    } else if n == 3 && is_text(&w[1], "<") {
        link_command_of(&w[2], &w[0], false, None, line)
    } else if n == 3 {
        node_command_of(&w[0], Some((&w[1], &w[2])), line)
    } else if n == 1 {
        node_command_of(&w[0], None, line)
    } else {
        Err(ConfigError::InvalidCommand(line))
    };
    match r {
        Ok(c) => Ok(Some(c)),
        Err(e) => Err(e),
    }
}

/// Reads the configuration `text`: its commands in order, or the first error (see
/// `commands_of`).
pub fn parse_config(text: &str) -> (r: Result<Vec<Command>, ConfigError>)
    ensures
        match commands_of(text@) {
            Ok(cs) => r matches Ok(v) && v@ == cs,
            Err(e) => r == Err::<Vec<Command>, ConfigError>(e),
        },
{
    let chars = chars_of(text);
    let lines = split_chars(&chars, '\n');
    let ghost ls = split_at_char(text@, '\n');
    let mut cmds: Vec<Command> = Vec::new();
    let mut li: usize = 0;
    while li < lines.len()
        invariant
            lines@.len() == ls.len(),
            forall|i: int| 0 <= i < lines@.len() ==> (#[trigger] lines@[i])@ == ls[i],
            li <= lines@.len(),
            ls == split_at_char(text@, '\n'),
            commands_of_lines(ls.take(li as int)) == Ok::<Seq<Command>, ConfigError>(cmds@),
        decreases lines@.len() - li,
    {
        let pieces = split_chars(&lines[li], ',');
        let ghost ps = split_at_char(ls[li as int], ',');
        let ghost before = cmds@;
        assert(ls.take(li + 1).drop_last() =~= ls.take(li as int));
        assert(ls.take(li + 1).last() == ls[li as int]);
        let mut pi: usize = 0;
        while pi < pieces.len()
            invariant
                pieces@.len() == ps.len(),
                forall|i: int| 0 <= i < pieces@.len() ==> (#[trigger] pieces@[i])@ == ps[i],
                li < ls.len(),
                ls == split_at_char(text@, '\n'),
                ps == split_at_char(ls[li as int], ','),
                commands_of_lines(ls.take(li as int)) == Ok::<Seq<Command>, ConfigError>(before),
                pi <= pieces@.len(),
                commands_of_line(ps.take(pi as int), li as nat) matches Ok(more) && cmds@ == before + more,
            decreases pieces@.len() - pi,
        {
            let w = split_words(&pieces[pi]);
            let ghost ws = w@.map_values(|x: Vec<char>| x@);
            assert(ws =~= words(ps[pi as int]));
            assert(ps.take(pi + 1).drop_last() =~= ps.take(pi as int));
            assert(ps.take(pi + 1).last() == ps[pi as int]);
            match parse_command(&w, li) {
                Err(e) => {
                    proof {
                        lemma_line_error(ps, pi as int, li as nat, e);
                        lemma_lines_error(ls, li as int, e);
                        assert(commands_of_lines(ls) == Err::<Seq<Command>, ConfigError>(e));
                        assert(ls == split_at_char(text@, '\n'));
                        assert(commands_of(text@) == Err::<Seq<Command>, ConfigError>(e));
                    }
                    return Err(e);
                },
                Ok(None) => {},
                Ok(Some(c)) => {
                    cmds.push(c);
                    proof {
                        let more = commands_of_line(ps.take(pi as int), li as nat)->Ok_0;
                        assert(cmds@ =~= before + more.push(c));
                    }
                },
            }
            pi = pi + 1;
        }
        assert(ps.take(pi as int) =~= ps);
        li = li + 1;
    }
    assert(ls.take(li as int) =~= ls);
    Ok(cmds)
}

/// An error on a piece of a line is the error of the line.
proof fn lemma_line_error(ps: Seq<Seq<char>>, i: int, line: nat, e: ConfigError)
    requires
        0 <= i < ps.len(),
        commands_of_line(ps.take(i), line) is Ok,
        command_of(words(ps[i]), line) == Err::<Option<Command>, ConfigError>(e),
    ensures
        commands_of_line(ps, line) == Err::<Seq<Command>, ConfigError>(e),
    decreases ps.len() - i,
{
    if i + 1 == ps.len() {
        assert(ps.drop_last() =~= ps.take(i));
    } else {
        let qs = ps.drop_last();
        assert(qs.take(i) =~= ps.take(i));
        assert(qs[i] == ps[i]);
        lemma_line_error(qs, i, line, e);
    }
}

/// An error on a line is the error of the configuration.
proof fn lemma_lines_error(ls: Seq<Seq<char>>, i: int, e: ConfigError)
    requires
        0 <= i < ls.len(),
        commands_of_lines(ls.take(i)) is Ok,
        commands_of_line(split_at_char(ls[i], ','), i as nat) == Err::<Seq<Command>, ConfigError>(e),
    ensures
        commands_of_lines(ls) == Err::<Seq<Command>, ConfigError>(e),
    decreases ls.len() - i,
{
    if i + 1 == ls.len() {
        assert(ls.drop_last() =~= ls.take(i));
    } else {
        let qs = ls.drop_last();
        assert(qs.take(i) =~= ls.take(i));
        assert(qs[i] == ls[i]);
        lemma_lines_error(qs, i, e);
    }
}


/// Splitting a text without separator gives the text itself.
pub proof fn lemma_split_none(s: Seq<char>, sep: char)
    requires
        !s.contains(sep),
    ensures
        split_at_char(s, sep) == seq![s],
    decreases s.len(),
{
    if s.len() > 0 {
        assert(!s.drop_last().contains(sep)) by {
            if s.drop_last().contains(sep) {
                let i = s.drop_last().index_of(sep);
                assert(s[i] == sep);
            }
        }
        lemma_split_none(s.drop_last(), sep);
        assert(s.last() != sep) by {
            assert(s[s.len() - 1] == s.last());
        }
        assert(s.drop_last().push(s.last()) =~= s);
        assert(seq![s.drop_last()].update(0, s.drop_last().push(s.last())) =~= seq![s]);
    } else {
        assert(s =~= Seq::<char>::empty());
    }
}

/// Text without separator appended to `s` goes on its last piece.
pub proof fn lemma_split_append(s: Seq<char>, t: Seq<char>, sep: char)
    requires
        !t.contains(sep),
    ensures
        split_at_char(s + t, sep) == split_at_char(s, sep).update(
            split_at_char(s, sep).len() - 1,
            split_at_char(s, sep).last() + t,
        ),
        split_at_char(s, sep).len() >= 1,
    decreases t.len(),
{
    lemma_split_len(s, sep);
    if t.len() == 0 {
        assert(s + t =~= s);
        let r = split_at_char(s, sep);
        assert(r.last() + t =~= r.last());
        assert(r.update(r.len() - 1, r.last()) =~= r);
    } else {
        let t0 = t.drop_last();
        assert(!t0.contains(sep)) by {
            if t0.contains(sep) {
                let i = t0.index_of(sep);
                assert(t[i] == sep);
            }
        }
        lemma_split_append(s, t0, sep);
        assert((s + t).drop_last() =~= s + t0);
        assert((s + t).last() == t.last());
        assert(t.last() != sep) by {
            assert(t[t.len() - 1] == t.last());
        }
        let r = split_at_char(s, sep);
        lemma_split_len(s + t0, sep);
        assert(split_at_char(s + t, sep) =~= r.update(r.len() - 1, r.last() + t)) by {
            assert((r.last() + t0).push(t.last()) =~= r.last() + t);
        }
    }
}

/// Splitting gives at least one piece.
pub proof fn lemma_split_len(s: Seq<char>, sep: char)
    ensures
        split_at_char(s, sep).len() >= 1,
    decreases s.len(),
{
    if s.len() > 0 {
        lemma_split_len(s.drop_last(), sep);
    }
}

/// A line ended by a new line, appended to a text whose last piece is empty, adds that line
/// as a piece, then an empty one.
pub proof fn lemma_split_line(s: Seq<char>, line: Seq<char>)
    requires
        split_at_char(s, '\n').last() == Seq::<char>::empty(),
        !line.contains('\n'),
    ensures
        split_at_char(s + line + seq!['\n'], '\n') == split_at_char(s, '\n').drop_last().push(line).push(Seq::<char>::empty()),
{
    lemma_split_append(s, line, '\n');
    let r = split_at_char(s, '\n');
    assert((s + line + seq!['\n']).drop_last() =~= s + line);
    assert(r.last() + line =~= line);
    assert(r.update(r.len() - 1, line) =~= r.drop_last().push(line));
}

/// The words of a text that ends with white space (or is empty), followed by a word.
pub proof fn lemma_words_append(s: Seq<char>, w: Seq<char>)
    requires
        s.len() == 0 || is_white(s.last()),
        w.len() > 0,
        forall|i: int| 0 <= i < w.len() ==> !is_white(#[trigger] w[i]),
    ensures
        words(s + w) == words(s).push(w),
    decreases w.len(),
{
    let c = w.last();
    assert(w[w.len() - 1] == c);
    if w.len() == 1 {
        assert((s + w).drop_last() =~= s);
        assert((s + w).last() == c);
        if s.len() > 0 {
            assert((s + w)[(s + w).len() - 2] == s.last());
        }
        assert(w =~= seq![c]);
    } else {
        let w0 = w.drop_last();
        assert forall|i: int| 0 <= i < w0.len() implies !is_white(#[trigger] w0[i]) by {
            assert(w0[i] == w[i]);
        }
        lemma_words_append(s, w0);
        assert((s + w).drop_last() =~= s + w0);
        assert((s + w).last() == c);
        assert((s + w)[(s + w).len() - 2] == w[w.len() - 2]);
        assert(w0.push(c) =~= w);
        let ws = words(s).push(w0);
        assert(ws.len() - 1 == words(s).len());
        assert(ws.last() == w0);
        assert(ws.update(ws.len() - 1, ws.last().push(c)) =~= words(s).push(w));
    }
}

/// White space at the end of a text adds no word.
pub proof fn lemma_words_white(s: Seq<char>, c: char)
    requires
        is_white(c),
    ensures
        words(s.push(c)) == words(s),
{
    assert(s.push(c).drop_last() =~= s);
}


/// An empty piece holds no command.
pub proof fn lemma_empty_piece(n: nat)
    ensures
        commands_of_line(split_at_char(Seq::<char>::empty(), ','), n) == Ok::<Seq<Command>, ConfigError>(Seq::empty()),
{
    let e = Seq::<char>::empty();
    assert(split_at_char(e, ',') == seq![e]);
    assert(seq![e].drop_last() =~= Seq::<Seq<char>>::empty());
    assert(seq![e].last() == e);
    assert(words(e) == Seq::<Seq<char>>::empty());
    assert(command_of(words(e), n) == Ok::<Option<Command>, ConfigError>(None));
    assert(commands_of_line(Seq::<Seq<char>>::empty(), n) == Ok::<Seq<Command>, ConfigError>(Seq::empty()));
}

/// A text whose last piece is empty, followed by a line and a new line: its commands, then
/// those of the line.
pub proof fn lemma_commands_line(s: Seq<char>, line: Seq<char>, cs: Seq<Command>, lc: Seq<Command>)
    requires
        split_at_char(s, '\n').last() == Seq::<char>::empty(),
        !line.contains('\n'),
        commands_of(s) == Ok::<Seq<Command>, ConfigError>(cs),
        forall|n: nat| #[trigger] commands_of_line(split_at_char(line, ','), n) == Ok::<Seq<Command>, ConfigError>(lc),
    ensures
        commands_of(s + line + seq!['\n']) == Ok::<Seq<Command>, ConfigError>(cs + lc),
        split_at_char(s + line + seq!['\n'], '\n').last() == Seq::<char>::empty(),
{
    let x = split_at_char(s, '\n');
    lemma_split_len(s, '\n');
    lemma_split_line(s, line);
    let y = x.drop_last().push(line).push(Seq::<char>::empty());
    let x0 = x.drop_last();
    lemma_empty_piece((x.len() - 1) as nat);
    lemma_empty_piece((y.len() - 1) as nat);
    assert(x0.push(x.last()) =~= x);
    match commands_of_lines(x0) {
        Ok(c0) => {
            assert(c0 + Seq::<Command>::empty() =~= c0);
            assert(c0 == cs);
            assert(y.drop_last() =~= x0.push(line));
            assert(x0.push(line).drop_last() =~= x0);
            assert(commands_of_line(split_at_char(line, ','), (x0.push(line).len() - 1) as nat) == Ok::<Seq<Command>, ConfigError>(lc));
            assert(commands_of_lines(x0.push(line)) == Ok::<Seq<Command>, ConfigError>(cs + lc));
            assert(cs + lc + Seq::<Command>::empty() =~= cs + lc);
        },
        Err(e) => {
            assert(commands_of_lines(x) == Err::<Seq<Command>, ConfigError>(e));
        },
    }
}


/// The decimal representation of a natural number is made of digits, and reads back as it.
pub proof fn lemma_dec_nat(n: nat)
    ensures
        dec_nat(n).len() >= 1,
        all_digits(dec_nat(n)),
        digits_value(dec_nat(n)) == n,
    decreases n,
{
    assert(is_digit('0') && digit_value('0') == 0) by {
        assert('0' as u32 == 48);
    }
    if n < 10 {
        let c = digit_char(n);
        assert(is_digit(c) && digit_value(c) == n) by {
            assert('1' as u32 == 49);
            assert('2' as u32 == 50);
            assert('3' as u32 == 51);
            assert('4' as u32 == 52);
            assert('5' as u32 == 53);
            assert('6' as u32 == 54);
            assert('7' as u32 == 55);
            assert('8' as u32 == 56);
            assert('9' as u32 == 57);
        }
        assert(seq![c].drop_last() =~= Seq::<char>::empty());
        assert(seq![c].last() == c);
        assert(dec_nat(n) == seq![c]);
        assert(digits_value(seq![c]) == digits_value(Seq::<char>::empty()) * 10 + digit_value(c));
    } else {
        lemma_dec_nat(n / 10);
        let d = (n % 10) as nat;
        lemma_dec_nat(d);
        let c = digit_char(d);
        assert(dec_nat(d) == seq![c]);
        assert(seq![c][0] == c);
        let s = dec_nat(n / 10);
        assert(s.push(c).drop_last() =~= s);
        assert(s.push(c).last() == c);
        assert forall|i: int| 0 <= i < s.push(c).len() implies is_digit(#[trigger] s.push(c)[i]) by {
            if i < s.len() {
                assert(s.push(c)[i] == s[i]);
            }
        }
        assert(digits_value(seq![c]) == digits_value(Seq::<char>::empty()) * 10 + digit_value(c)) by {
            assert(seq![c].drop_last() =~= Seq::<char>::empty());
        }
        assert(digit_value(c) == d);
        assert(dec_nat(n) == s.push(c));
        assert(digits_value(s.push(c)) == digits_value(s) * 10 + digit_value(c));
        assert((n / 10) * 10 + d == n);
    }
}

/// The decimal representation of an integer is made of digits, after a `-` when it is
/// negative, and reads back as it.
pub proof fn lemma_dec_int(v: int)
    ensures
        int_of(dec_int(v)) == Some(v),
        dec_int(v).len() >= 1,
        forall|i: int| 0 <= i < dec_int(v).len() ==> is_digit(#[trigger] dec_int(v)[i]) || dec_int(v)[i] == '-',
        dec_int(v)[0] == '-' ==> dec_int(v).len() >= 2,
{
    if v < 0 {
        let m = (-v) as nat;
        lemma_dec_nat(m);
        let s = seq!['-'] + dec_nat(m);
        assert(s[0] == '-');
        assert(unsigned_part(s) =~= dec_nat(m));
        assert forall|i: int| 0 <= i < s.len() implies is_digit(#[trigger] s[i]) || s[i] == '-' by {
            if i > 0 {
                assert(s[i] == dec_nat(m)[i - 1]);
            }
        }
    } else {
        lemma_dec_nat(v as nat);
        let s = dec_nat(v as nat);
        assert(is_digit(s[0]));
        assert(s[0] != '-' && s[0] != '+') by {
            assert('-' as u32 == 45);
            assert('+' as u32 == 43);
        }
        assert(unsigned_part(s) == s);
    }
}

/// The decimal representation of an integer is one word, with no separator, and neither
/// `-`, `>`, `<` nor `_` alone.
pub proof fn lemma_dec_word(v: int)
    ensures
        dec_int(v).len() >= 1,
        forall|i: int| 0 <= i < dec_int(v).len() ==> !is_white(#[trigger] dec_int(v)[i]),
        !dec_int(v).contains(','),
        !dec_int(v).contains('\n'),
        dec_int(v) != "-"@,
        dec_int(v) != ">"@,
        dec_int(v) != "<"@,
        dec_int(v) != "_"@,
{
    lemma_dec_int(v);
    let s = dec_int(v);
    assert forall|i: int| 0 <= i < s.len() implies !is_white(#[trigger] s[i]) && s[i] != ',' && s[i] != '\n' by {
        assert('-' as u32 == 45);
        assert(',' as u32 == 44);
        assert('\n' as u32 == 10);
    }
    reveal_strlit("-");
    reveal_strlit(">");
    reveal_strlit("<");
    reveal_strlit("_");
    assert('-' as u32 == 45);
    assert('>' as u32 == 62);
    assert('<' as u32 == 60);
    assert('_' as u32 == 95);
    if s == "-"@ {
        assert(s.len() == 1 && s[0] == '-');
    }
    if s == ">"@ {
        assert(s[0] == '>');
    }
    if s == "<"@ {
        assert(s[0] == '<');
    }
    if s == "_"@ {
        assert(s[0] == '_');
    }
}


/// A line that is one command: its words, when they give that command.
proof fn lemma_one_command(line: Seq<char>, c: Command, k: nat)
    requires
        !line.contains(','),
        command_of(words(line), k) == Ok::<Option<Command>, ConfigError>(Some(c)),
    ensures
        commands_of_line(split_at_char(line, ','), k) == Ok::<Seq<Command>, ConfigError>(seq![c]),
{
    lemma_split_none(line, ',');
    assert(seq![line].drop_last() =~= Seq::<Seq<char>>::empty());
    assert(seq![line].last() == line);
    assert(commands_of_line(Seq::<Seq<char>>::empty(), k) == Ok::<Seq<Command>, ConfigError>(Seq::empty()));
    assert(Seq::<Command>::empty().push(c) =~= seq![c]);
}

/// A character that is neither white space, a comma nor a new line.
pub open spec fn plain(c: char) -> bool {
    !is_white(c) && c != ','
}

/// The line of a node named `n` reads as that node.
pub proof fn lemma_node_line(n: char, k: nat)
    requires
        plain(n),
    ensures
        commands_of_line(split_at_char(seq![n], ','), k) == Ok::<Seq<Command>, ConfigError>(seq![Command::AddNode(n, None)]),
        !seq![n].contains('\n'),
        !seq![n].contains(','),
{
    assert('\n' as u32 == 10);
    assert(!seq![n].contains('\n')) by {
        if seq![n].contains('\n') {
            assert(seq![n][seq![n].index_of('\n')] == n);
        }
    }
    assert(!seq![n].contains(',')) by {
        if seq![n].contains(',') {
            assert(seq![n][seq![n].index_of(',')] == n);
        }
    }
    lemma_words_append(Seq::<char>::empty(), seq![n]);
    assert(Seq::<char>::empty() + seq![n] =~= seq![n]);
    assert(words(Seq::<char>::empty()) == Seq::<Seq<char>>::empty());
    assert(words(seq![n]) =~= seq![seq![n]]);
    lemma_one_command(seq![n], Command::AddNode(n, None), k);
}

/// The line of a node named `n` at (x, y) reads as that node there.
pub proof fn lemma_placed_node_line(n: char, x: int, y: int, k: nat)
    requires
        plain(n),
        -32768 <= x <= 32767,
        -32768 <= y <= 32767,
    ensures
        commands_of_line(split_at_char(seq![n, ' '] + dec_int(x) + seq![' '] + dec_int(y), ','), k)
            == Ok::<Seq<Command>, ConfigError>(seq![Command::AddNode(n, Some((x as i16, y as i16)))]),
        !(seq![n, ' '] + dec_int(x) + seq![' '] + dec_int(y)).contains('\n'),
        !(seq![n, ' '] + dec_int(x) + seq![' '] + dec_int(y)).contains(','),
{
    let dx = dec_int(x);
    let dy = dec_int(y);
    lemma_dec_word(x);
    lemma_dec_word(y);
    lemma_dec_int(x);
    lemma_dec_int(y);
    let line = seq![n, ' '] + dx + seq![' '] + dy;
    assert(' ' as u32 == 32);
    assert(is_white(' '));
    assert('\n' as u32 == 10);
    assert forall|i: int| 0 <= i < line.len() implies line[i] != '\n' && line[i] != ',' by {
        if i >= 2 && i < 2 + dx.len() {
            assert(line[i] == dx[i - 2]);
            assert(dx.contains(dx[i - 2]));
        } else if i >= 3 + dx.len() {
            assert(line[i] == dy[i - 3 - dx.len()]);
            assert(dy.contains(dy[i - 3 - dx.len()]));
        }
    }
    assert(!line.contains('\n'));
    assert(!line.contains(','));
    let e = Seq::<char>::empty();
    lemma_words_append(e, seq![n]);
    assert(e + seq![n] =~= seq![n]);
    lemma_words_white(seq![n], ' ');
    assert(seq![n].push(' ') =~= seq![n, ' ']);
    lemma_words_append(seq![n, ' '], dx);
    lemma_words_white(seq![n, ' '] + dx, ' ');
    assert((seq![n, ' '] + dx).push(' ') =~= seq![n, ' '] + dx + seq![' ']);
    lemma_words_append(seq![n, ' '] + dx + seq![' '], dy);
    let w = words(line);
    assert(w =~= seq![seq![n], dx, dy]);
    reveal_strlit("-");
    reveal_strlit(">");
    reveal_strlit("<");
    reveal_strlit("_");
    assert(w[1] != "-"@ && w[1] != ">"@ && w[1] != "<"@);
    assert(dx != "_"@);
    assert(command_of(w, k) == Ok::<Option<Command>, ConfigError>(Some(Command::AddNode(n, Some((x as i16, y as i16))))));
    lemma_one_command(line, Command::AddNode(n, Some((x as i16, y as i16))), k);
}

/// The line of a link from `a` to `b` (both ways or not) of value `v` reads as that link.
pub proof fn lemma_link_line(a: char, b: char, both: bool, v: int, k: nat)
    requires
        plain(a),
        plain(b),
        -128 <= v <= 127,
    ensures
        commands_of_line(split_at_char(seq![a, ' ', if both { '-' } else { '>' }, ' ', b, ' '] + dec_int(v), ','), k)
            == Ok::<Seq<Command>, ConfigError>(seq![Command::AddLink(a, b, both, v as i8)]),
        !(seq![a, ' ', if both { '-' } else { '>' }, ' ', b, ' '] + dec_int(v)).contains('\n'),
{
    let sym = if both { '-' } else { '>' };
    let dv = dec_int(v);
    lemma_dec_word(v);
    lemma_dec_int(v);
    let line = seq![a, ' ', sym, ' ', b, ' '] + dv;
    assert(' ' as u32 == 32);
    assert(is_white(' '));
    assert('\n' as u32 == 10);
    assert('-' as u32 == 45);
    assert('>' as u32 == 62);
    assert(!is_white(sym) && sym != ',' && sym != '\n');
    assert forall|i: int| 0 <= i < line.len() implies line[i] != '\n' && line[i] != ',' by {
        if i >= 6 {
            assert(line[i] == dv[i - 6]);
            assert(dv.contains(dv[i - 6]));
        }
    }
    assert(!line.contains('\n'));
    assert(!line.contains(','));
    let e = Seq::<char>::empty();
    lemma_words_append(e, seq![a]);
    assert(e + seq![a] =~= seq![a]);
    lemma_words_white(seq![a], ' ');
    assert(seq![a].push(' ') =~= seq![a, ' ']);
    lemma_words_append(seq![a, ' '], seq![sym]);
    assert(seq![a, ' '] + seq![sym] =~= seq![a, ' ', sym]);
    lemma_words_white(seq![a, ' ', sym], ' ');
    assert(seq![a, ' ', sym].push(' ') =~= seq![a, ' ', sym, ' ']);
    lemma_words_append(seq![a, ' ', sym, ' '], seq![b]);
    assert(seq![a, ' ', sym, ' '] + seq![b] =~= seq![a, ' ', sym, ' ', b]);
    lemma_words_white(seq![a, ' ', sym, ' ', b], ' ');
    assert(seq![a, ' ', sym, ' ', b].push(' ') =~= seq![a, ' ', sym, ' ', b, ' ']);
    lemma_words_append(seq![a, ' ', sym, ' ', b, ' '], dv);
    let w = words(line);
    assert(w =~= seq![seq![a], seq![sym], seq![b], dv]);
    reveal_strlit("-");
    reveal_strlit(">");
    reveal_strlit("_");
    assert(dv != "_"@);
    if both {
        assert(w[1] =~= "-"@);
    } else {
        assert(w[1] != "-"@);
        assert(w[1] =~= ">"@);
    }
    assert(command_of(w, k) == Ok::<Option<Command>, ConfigError>(Some(Command::AddLink(a, b, both, v as i8))));
    lemma_one_command(line, Command::AddLink(a, b, both, v as i8), k);
}

/// The words of `a`, `s` and `b` (three characters that are not white space) separated by
/// spaces, then the words of `t` after a space when `t` is not empty.
proof fn lemma_three_words(a: char, sym: char, b: char, t: Seq<char>)
    requires
        !is_white(a),
        !is_white(sym),
        !is_white(b),
        forall|i: int| 0 <= i < t.len() ==> !is_white(#[trigger] t[i]),
    ensures
        words(seq![a, ' ', sym, ' ', b]) == seq![seq![a], seq![sym], seq![b]],
        t.len() > 0 ==> words(seq![a, ' ', sym, ' ', b, ' '] + t) == seq![seq![a], seq![sym], seq![b], t],
{
    assert(' ' as u32 == 32);
    assert(is_white(' '));
    let e = Seq::<char>::empty();
    lemma_words_append(e, seq![a]);
    assert(e + seq![a] =~= seq![a]);
    lemma_words_white(seq![a], ' ');
    assert(seq![a].push(' ') =~= seq![a, ' ']);
    lemma_words_append(seq![a, ' '], seq![sym]);
    assert(seq![a, ' '] + seq![sym] =~= seq![a, ' ', sym]);
    lemma_words_white(seq![a, ' ', sym], ' ');
    assert(seq![a, ' ', sym].push(' ') =~= seq![a, ' ', sym, ' ']);
    lemma_words_append(seq![a, ' ', sym, ' '], seq![b]);
    assert(seq![a, ' ', sym, ' '] + seq![b] =~= seq![a, ' ', sym, ' ', b]);
    assert(words(seq![a, ' ', sym, ' ', b]) =~= seq![seq![a], seq![sym], seq![b]]);
    if t.len() > 0 {
        lemma_words_white(seq![a, ' ', sym, ' ', b], ' ');
        assert(seq![a, ' ', sym, ' ', b].push(' ') =~= seq![a, ' ', sym, ' ', b, ' ']);
        lemma_words_append(seq![a, ' ', sym, ' ', b, ' '], t);
        assert(words(seq![a, ' ', sym, ' ', b, ' '] + t) =~= seq![seq![a], seq![sym], seq![b], t]);
    }
}

/// A text of one line (no new line) that is one command: its commands are that command.
proof fn lemma_one_line_text(line: Seq<char>, c: Command)
    requires
        !line.contains('\n'),
        !line.contains(','),
        command_of(words(line), 0) == Ok::<Option<Command>, ConfigError>(Some(c)),
    ensures
        commands_of(line) == Ok::<Seq<Command>, ConfigError>(seq![c]),
{
    lemma_one_command(line, c, 0);
    lemma_split_none(line, '\n');
    let ls = seq![line];
    assert(ls.drop_last() =~= Seq::<Seq<char>>::empty());
    assert(ls.last() == line);
    assert(commands_of_lines(Seq::<Seq<char>>::empty()) == Ok::<Seq<Command>, ConfigError>(Seq::empty()));
    assert(Seq::<Command>::empty() + seq![c] =~= seq![c]);
}

/// A link written with `<` goes the other way: `a < b` is the link from `b` to `a`, as
/// `b > a` writes it; with no value it carries the value 0, as with the value `_`, and with
/// a value `v` it carries `v`.
pub proof fn law_left_arrow(a: char, b: char, v: int)
    requires
        plain(a),
        plain(b),
        -128 <= v <= 127,
    ensures
        commands_of(seq![a, ' ', '<', ' ', b]) == Ok::<Seq<Command>, ConfigError>(seq![Command::AddLink(b, a, false, 0)]),
        commands_of(seq![a, ' ', '<', ' ', b]) == commands_of(seq![b, ' ', '>', ' ', a]),
        commands_of(seq![a, ' ', '<', ' ', b, ' ', '_']) == commands_of(seq![a, ' ', '<', ' ', b]),
        commands_of(seq![a, ' ', '<', ' ', b, ' '] + crate::text::dec_int(v))
            == Ok::<Seq<Command>, ConfigError>(seq![Command::AddLink(b, a, false, v as i8)]),
{
    assert('<' as u32 == 60);
    assert('>' as u32 == 62);
    assert('_' as u32 == 95);
    assert(' ' as u32 == 32);
    assert('\n' as u32 == 10);
    assert(!is_white('<') && !is_white('>') && !is_white('_'));
    reveal_strlit("-");
    reveal_strlit(">");
    reveal_strlit("<");
    reveal_strlit("_");
    let e = Seq::<char>::empty();
    lemma_three_words(a, '<', b, e);
    lemma_three_words(b, '>', a, e);
    lemma_three_words(a, '<', b, seq!['_']);
    lemma_dec_word(v);
    lemma_dec_int(v);
    let dv = crate::text::dec_int(v);
    lemma_three_words(a, '<', b, dv);
    let l1 = seq![a, ' ', '<', ' ', b];
    let l2 = seq![b, ' ', '>', ' ', a];
    let l3 = seq![a, ' ', '<', ' ', b, ' ', '_'];
    let l4 = seq![a, ' ', '<', ' ', b, ' '] + dv;
    assert(seq![a, ' ', '<', ' ', b, ' '] + seq!['_'] =~= l3);
    assert(seq!['<'] != "-"@ && seq!['<'] != ">"@ && seq!['<'] =~= "<"@);
    assert(seq!['>'] != "-"@ && seq!['>'] =~= ">"@);
    assert(seq!['_'] =~= "_"@);
    assert(dv != "_"@);
    assert forall|i: int| 0 <= i < l1.len() implies l1[i] != '\n' && l1[i] != ',' by {}
    assert forall|i: int| 0 <= i < l2.len() implies l2[i] != '\n' && l2[i] != ',' by {}
    assert forall|i: int| 0 <= i < l3.len() implies l3[i] != '\n' && l3[i] != ',' by {}
    assert forall|i: int| 0 <= i < l4.len() implies l4[i] != '\n' && l4[i] != ',' by {
        if i >= 6 {
            assert(l4[i] == dv[i - 6]);
            assert(dv.contains(dv[i - 6]));
        }
    }
    assert(command_of(words(l1), 0) == Ok::<Option<Command>, ConfigError>(Some(Command::AddLink(b, a, false, 0))));
    assert(command_of(words(l2), 0) == Ok::<Option<Command>, ConfigError>(Some(Command::AddLink(b, a, false, 0))));
    assert(command_of(words(l3), 0) == Ok::<Option<Command>, ConfigError>(Some(Command::AddLink(b, a, false, 0))));
    assert(command_of(words(l4), 0) == Ok::<Option<Command>, ConfigError>(Some(Command::AddLink(b, a, false, v as i8))));
    lemma_one_line_text(l1, Command::AddLink(b, a, false, 0));
    lemma_one_line_text(l2, Command::AddLink(b, a, false, 0));
    lemma_one_line_text(l3, Command::AddLink(b, a, false, 0));
    lemma_one_line_text(l4, Command::AddLink(b, a, false, v as i8));
}

/// A link written without a value carries the value 0, as with the value `_`: `a - b` is the
/// link between `a` and `b` both ways, `a > b` the link from `a` to `b`.
pub proof fn law_link_without_value(a: char, b: char)
    requires
        plain(a),
        plain(b),
    ensures
        commands_of(seq![a, ' ', '-', ' ', b]) == Ok::<Seq<Command>, ConfigError>(seq![Command::AddLink(a, b, true, 0)]),
        commands_of(seq![a, ' ', '>', ' ', b]) == Ok::<Seq<Command>, ConfigError>(seq![Command::AddLink(a, b, false, 0)]),
        commands_of(seq![a, ' ', '-', ' ', b, ' ', '_']) == commands_of(seq![a, ' ', '-', ' ', b]),
        commands_of(seq![a, ' ', '>', ' ', b, ' ', '_']) == commands_of(seq![a, ' ', '>', ' ', b]),
{
    assert('-' as u32 == 45);
    assert('>' as u32 == 62);
    assert('_' as u32 == 95);
    assert(' ' as u32 == 32);
    assert('\n' as u32 == 10);
    assert(!is_white('-') && !is_white('>') && !is_white('_'));
    reveal_strlit("-");
    reveal_strlit(">");
    reveal_strlit("<");
    reveal_strlit("_");
    let e = Seq::<char>::empty();
    lemma_three_words(a, '-', b, e);
    lemma_three_words(a, '>', b, e);
    lemma_three_words(a, '-', b, seq!['_']);
    lemma_three_words(a, '>', b, seq!['_']);
    let l1 = seq![a, ' ', '-', ' ', b];
    let l2 = seq![a, ' ', '>', ' ', b];
    let l3 = seq![a, ' ', '-', ' ', b, ' ', '_'];
    let l4 = seq![a, ' ', '>', ' ', b, ' ', '_'];
    assert(seq![a, ' ', '-', ' ', b, ' '] + seq!['_'] =~= l3);
    assert(seq![a, ' ', '>', ' ', b, ' '] + seq!['_'] =~= l4);
    assert(seq!['-'] =~= "-"@);
    assert(seq!['>'] != "-"@ && seq!['>'] =~= ">"@);
    assert(seq!['_'] =~= "_"@);
    assert forall|i: int| 0 <= i < l1.len() implies l1[i] != '\n' && l1[i] != ',' by {}
    assert forall|i: int| 0 <= i < l2.len() implies l2[i] != '\n' && l2[i] != ',' by {}
    assert forall|i: int| 0 <= i < l3.len() implies l3[i] != '\n' && l3[i] != ',' by {}
    assert forall|i: int| 0 <= i < l4.len() implies l4[i] != '\n' && l4[i] != ',' by {}
    assert(command_of(words(l1), 0) == Ok::<Option<Command>, ConfigError>(Some(Command::AddLink(a, b, true, 0))));
    assert(command_of(words(l2), 0) == Ok::<Option<Command>, ConfigError>(Some(Command::AddLink(a, b, false, 0))));
    assert(command_of(words(l3), 0) == Ok::<Option<Command>, ConfigError>(Some(Command::AddLink(a, b, true, 0))));
    assert(command_of(words(l4), 0) == Ok::<Option<Command>, ConfigError>(Some(Command::AddLink(a, b, false, 0))));
    lemma_one_line_text(l1, Command::AddLink(a, b, true, 0));
    lemma_one_line_text(l2, Command::AddLink(a, b, false, 0));
    lemma_one_line_text(l3, Command::AddLink(a, b, true, 0));
    lemma_one_line_text(l4, Command::AddLink(a, b, false, 0));
}

} // verus!
