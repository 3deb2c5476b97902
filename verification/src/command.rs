//! The command interface: one line of operator input, read as a command for
//! the node.

use vstd::prelude::*;
use vstd::string::*;

verus! {

/// A command typed by the operator. Text arguments borrow from the line.
#[derive(Clone, Copy, Debug, PartialEq, Eq)]
pub enum Command<'a> {
    /// `connect <address>`: dial the peer at `address`, given as typed.
    Connect(&'a str),
    /// `send <text>`: encrypt `text` and broadcast it to every peer.
    Send(&'a str),
    /// `quit`: leave.
    Quit,
    /// `connect` with no address after it.
    ConnectWithoutAddress,
    /// `send` with no text after it.
    SendWithoutText,
    /// Anything else, the empty line included.
    Unknown,
}

/// What a line means, over sequences of characters.
pub enum Parsed {
    Connect(Seq<char>),
    Send(Seq<char>),
    Quit,
    ConnectWithoutAddress,
    SendWithoutText,
    Unknown,
}

impl<'a> View for Command<'a> {
    type V = Parsed;

    open spec fn view(&self) -> Parsed {
        match *self {
            Command::Connect(address) => Parsed::Connect(address@),
            Command::Send(text) => Parsed::Send(text@),
            Command::Quit => Parsed::Quit,
            Command::ConnectWithoutAddress => Parsed::ConnectWithoutAddress,
            Command::SendWithoutText => Parsed::SendWithoutText,
            Command::Unknown => Parsed::Unknown,
        }
    }
}

/// Whether `c` has the Unicode property `White_Space`.
pub open spec fn is_whitespace(c: char) -> bool {
    let n = c as u32;
    ||| 0x09 <= n <= 0x0D
    ||| n == 0x20
    ||| n == 0x85
    ||| n == 0xA0
    ||| n == 0x1680
    ||| 0x2000 <= n <= 0x200A
    ||| n == 0x2028
    ||| n == 0x2029
    ||| n == 0x202F
    ||| n == 0x205F
    ||| n == 0x3000
}

/// `s` without its leading whitespace.
pub open spec fn trim_start(s: Seq<char>) -> Seq<char>
    decreases s.len(),
{
    if s.len() > 0 && is_whitespace(s.first()) {
        trim_start(s.drop_first())
    } else {
        s
    }
}

/// `s` without its trailing whitespace.
pub open spec fn trim_end(s: Seq<char>) -> Seq<char>
    decreases s.len(),
{
    if s.len() > 0 && is_whitespace(s.last()) {
        trim_end(s.drop_last())
    } else {
        s
    }
}

/// `s` without whitespace at either end.
pub open spec fn trimmed(s: Seq<char>) -> Seq<char> {
    trim_end(trim_start(s))
}

/// The number of characters of `s` before its first space; its length where
/// it has none.
pub open spec fn verb_len(s: Seq<char>) -> int
    decreases s.len(),
{
    if s.len() > 0 && s.first() != ' ' {
        1 + verb_len(s.drop_first())
    } else {
        0
    }
}

/// The verb `connect`.
pub open spec fn word_connect() -> Seq<char> {
    seq!['c', 'o', 'n', 'n', 'e', 'c', 't']
}

/// The verb `send`.
pub open spec fn word_send() -> Seq<char> {
    seq!['s', 'e', 'n', 'd']
}

/// The verb `quit`.
pub open spec fn word_quit() -> Seq<char> {
    seq!['q', 'u', 'i', 't']
}

/// The meaning of a line. The line is trimmed and split at its first space:
/// the verb stands before it, the argument is all that follows it. `quit`
/// is obeyed whatever follows; `connect` and `send` need an argument.
pub open spec fn parsed(line: Seq<char>) -> Parsed {
    let text = trimmed(line);
    let n = verb_len(text);
    let verb = text.take(n);
    let argument = text.skip(n + 1);
    if verb == word_connect() {
        if n < text.len() {
            Parsed::Connect(argument)
        } else {
            Parsed::ConnectWithoutAddress
        }
    } else if verb == word_send() {
        if n < text.len() {
            Parsed::Send(argument)
        } else {
            Parsed::SendWithoutText
        }
    } else if verb == word_quit() {
        Parsed::Quit
    } else {
        Parsed::Unknown
    }
}

proof fn lemma_trim_start(s: Seq<char>, from: int)
    requires
        0 <= from <= s.len(),
        forall|j: int| 0 <= j < from ==> is_whitespace(#[trigger] s[j]),
        from < s.len() ==> !is_whitespace(s[from]),
    ensures
        trim_start(s) == s.skip(from),
    decreases from,
{
    if from == 0 {
        assert(s.skip(0) =~= s);
    } else {
        let rest = s.drop_first();
        assert forall|j: int| 0 <= j < from - 1 implies is_whitespace(#[trigger] rest[j]) by {
            assert(rest[j] == s[j + 1]);
        }
        lemma_trim_start(rest, from - 1);
        assert(rest.skip(from - 1) =~= s.skip(from));
    }
}

proof fn lemma_trim_end(s: Seq<char>, to: int)
    requires
        0 <= to <= s.len(),
        forall|j: int| to <= j < s.len() ==> is_whitespace(#[trigger] s[j]),
        0 < to ==> !is_whitespace(s[to - 1]),
    ensures
        trim_end(s) == s.take(to),
    decreases s.len() - to,
{
    if to == s.len() {
        assert(s.take(to) =~= s);
    } else {
        let rest = s.drop_last();
        lemma_trim_end(rest, to);
        assert(rest.take(to) =~= s.take(to));
    }
}

proof fn lemma_verb_len(s: Seq<char>, n: int)
    requires
        0 <= n <= s.len(),
        forall|j: int| 0 <= j < n ==> #[trigger] s[j] != ' ',
        n < s.len() ==> s[n] == ' ',
    ensures
        verb_len(s) == n,
    decreases n,
{
    if n > 0 {
        let rest = s.drop_first();
        assert forall|j: int| 0 <= j < n - 1 implies #[trigger] rest[j] != ' ' by {
            assert(rest[j] == s[j + 1]);
        }
        lemma_verb_len(rest, n - 1);
    }
}

fn whitespace(c: char) -> (b: bool)
    ensures
        b == is_whitespace(c),
{
    let n: u32 = c as u32;
    (0x09 <= n && n <= 0x0D) || n == 0x20 || n == 0x85 || n == 0xA0 || n == 0x1680 || (0x2000 <= n
        && n <= 0x200A) || n == 0x2028 || n == 0x2029 || n == 0x202F || n == 0x205F || n == 0x3000
}

/// Whether the characters of `text` from `from` up to `to` spell `word`.
fn spells(text: &Vec<char>, from: usize, to: usize, word: &[char]) -> (b: bool)
    requires
        from <= to <= text.len(),
    ensures
        b == (text@.subrange(from as int, to as int) == word@),
{
    if to - from != word.len() {
        return false;
    }
    let mut i: usize = 0;
    while i < word.len()
        invariant
            from <= to <= text.len(),
            to - from == word.len(),
            i <= word.len(),
            forall|j: int| 0 <= j < i ==> text@[from + j] == word@[j],
        decreases word.len() - i,
    {
        if text[from + i] != word[i] {
            assert(text@.subrange(from as int, to as int)[i as int] != word@[i as int]);
            return false;
        }
        i += 1;
    }
    assert(text@.subrange(from as int, to as int) =~= word@);
    true
}

/// Reads one line of operator input.
pub fn parse_command<'a>(line: &'a str) -> (command: Command<'a>)
    ensures
        command@ == parsed(line@),
{
    let mut text: Vec<char> = Vec::new();
    for c in chars: line.chars()
        invariant
            chars.seq() == line@,
            text@ == line@.take(chars.index() as int),
    {
        text.push(c);
        assert(text@ =~= line@.take(chars.index() + 1));
    }
    let n: usize = text.len();
    assert(text@ =~= line@);
    let mut start: usize = 0;
    while start < n && whitespace(text[start])
        invariant
            text@ == line@,
            n == line@.len(),
            start <= n,
            forall|j: int| 0 <= j < start ==> is_whitespace(#[trigger] line@[j]),
        decreases n - start,
    {
        start += 1;
    }
    let mut end: usize = n;
    while end > start && whitespace(text[end - 1])
        invariant
            text@ == line@,
            n == line@.len(),
            start <= end <= n,
            forall|j: int| end <= j < n ==> is_whitespace(#[trigger] line@[j]),
        decreases end,
    {
        end -= 1;
    }
    let mut space: usize = start;
    while space < end && text[space] != ' '
        invariant
            text@ == line@,
            start <= space <= end <= n,
            n == line@.len(),
            forall|j: int| start <= j < space ==> #[trigger] line@[j] != ' ',
        decreases end - space,
    {
        space += 1;
    }
    proof {
        let body = line@.subrange(start as int, end as int);
        lemma_trim_start(line@, start as int);
        if start == end {
            assert(line@.skip(start as int) =~= line@.skip(n as int)) by {
                assert forall|j: int| start <= j < n implies is_whitespace(line@[j]) by {}
                lemma_trim_start(line@, n as int);
            }
            assert(trimmed(line@) =~= body);
        } else {
            assert(line@.skip(start as int)[end - 1 - start] == line@[end - 1]);
            assert forall|j: int| end - start <= j < n - start implies is_whitespace(
                #[trigger] line@.skip(start as int)[j],
            ) by {
                assert(line@.skip(start as int)[j] == line@[j + start]);
            }
            lemma_trim_end(line@.skip(start as int), end - start);
            assert(line@.skip(start as int).take(end - start) =~= body);
        }
        assert(trimmed(line@) == body);
        assert forall|j: int| 0 <= j < space - start implies #[trigger] body[j] != ' ' by {
            assert(body[j] == line@[j + start]);
        }
        lemma_verb_len(body, space - start);
        assert(body.take(space - start) =~= line@.subrange(start as int, space as int));
        if space < end {
            assert(body.skip(space - start + 1) =~= line@.subrange(space + 1, end as int));
        }
    }
    let connect: [char; 7] = ['c', 'o', 'n', 'n', 'e', 'c', 't'];
    let send: [char; 4] = ['s', 'e', 'n', 'd'];
    let quit: [char; 4] = ['q', 'u', 'i', 't'];
    assert(connect@ =~= word_connect());
    assert(send@ =~= word_send());
    assert(quit@ =~= word_quit());
    if spells(&text, start, space, connect.as_slice()) {
        if space < end {
            Command::Connect(line.substring_char(space + 1, end))
        } else {
            Command::ConnectWithoutAddress
        }
    } else if spells(&text, start, space, send.as_slice()) {
        if space < end {
            Command::Send(line.substring_char(space + 1, end))
        } else {
            Command::SendWithoutText
        }
    } else if spells(&text, start, space, quit.as_slice()) {
        Command::Quit
    } else {
        Command::Unknown
    }
}

} // verus!
