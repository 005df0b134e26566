//! The commands that a resident runner takes, and its answers.

use vstd::prelude::*;
use vstd::string::StringSliceAdditionalSpecFns;

use crate::slices::part;

verus! {

/// What a character becomes in a single line.
pub open spec fn escaped_char(c: char) -> Seq<char> {
    if c == '\\' {
        seq!['\\', '\\']
    } else if c == '\n' {
        seq!['\\', 'n']
    } else if c == '\r' {
        seq!['\\', 'r']
    } else {
        seq![c]
    }
}

/// What text becomes in a single line.
pub open spec fn escaped(s: Seq<char>) -> Seq<char>
    decreases s.len(),
{
    if s.len() == 0 {
        Seq::empty()
    } else {
        escaped(s.drop_last()) + escaped_char(s.last())
    }
}

/// Escape a message to one line, so it cannot be mistaken for extra output.
pub fn escape_line(s: &str) -> (r: String)
    ensures
        r@ == escaped(s@),
{
    let mut out = String::new();
    assert(s@.subrange(0, 0) =~= Seq::<char>::empty());
    assert(out@ =~= escaped(s@.subrange(0, 0)));
    for c in it: s.chars()
        invariant
            it.seq() == s@,
            out@ == escaped(s@.subrange(0, it.index() as int)),
    {
        let ghost t = s@.subrange(0, it.index() + 1);
        assert(t.drop_last() =~= s@.subrange(0, it.index() as int));
        assert(t.last() == c);
        if c == '\\' {
            out.push('\\');
            out.push('\\');
        } else if c == '\n' {
            out.push('\\');
            out.push('n');
        } else if c == '\r' {
            out.push('\\');
            out.push('r');
        } else {
            out.push(c);
        }
        assert(out@ =~= escaped(t));
    }
    assert(s@.subrange(0, s@.len() as int) =~= s@);
    out
}

/// The value of a hexadecimal digit.
pub open spec fn digit_value(b: u8) -> Option<u8> {
    if 0x30 <= b <= 0x39 {
        Some((b - 0x30) as u8)
    } else if 0x41 <= b <= 0x46 {
        Some((b - 0x37) as u8)
    } else if 0x61 <= b <= 0x66 {
        Some((b - 0x57) as u8)
    } else {
        None
    }
}

/// The value of two characters: two digits, or a plus sign and a digit.
pub open spec fn pair_value(a: u8, b: u8) -> Option<u8> {
    match digit_value(b) {
        None => None,
        Some(low) => if a == 0x2b {
            Some(low)
        } else {
            match digit_value(a) {
                None => None,
                Some(high) => Some((16 * high + low) as u8),
            }
        },
    }
}

/// The bytes that the first `n` pairs of characters stand for, where all do.
pub open spec fn pairs_value(s: Seq<u8>, n: nat) -> Option<Seq<u8>>
    decreases n,
{
    if n == 0 {
        Some(Seq::empty())
    } else {
        match pairs_value(s, (n - 1) as nat) {
            None => None,
            Some(v) => match pair_value(s[2 * n - 2], s[2 * n - 1]) {
                None => None,
                Some(b) => Some(v.push(b)),
            },
        }
    }
}

fn digit(b: u8) -> (r: Option<u8>)
    ensures
        r == digit_value(b),
{
    if 0x30 <= b && b <= 0x39 {
        Some(b - 0x30)
    } else if 0x41 <= b && b <= 0x46 {
        Some(b - 0x37)
    } else if 0x61 <= b && b <= 0x66 {
        Some(b - 0x57)
    } else {
        None
    }
}

/// No pair of characters that are told apart lies across a longer character: the byte behind the
/// pairs that stand for bytes, and behind the one after them, does not go on with a character.
pub open spec fn pairs_apart(s: Seq<u8>) -> bool {
    forall|n: nat|
        2 * n + 2 < s.len() && #[trigger] pairs_value(s, n) is Some ==> !(0x80 <= s[(2 * n + 2) as int]
            < 0xc0)
}

/// Whether the text of an input can be told apart into pairs of characters.
pub fn has_pairs(s: &str) -> (r: bool)
    ensures
        r == (s.spec_bytes().len() % 2 == 0 ==> pairs_apart(s.spec_bytes())),
{
    let bytes = s.as_bytes();
    let ghost b = bytes@;
    let len = bytes.len();
    if len % 2 != 0 {
        return true;
    }
    let mut n: usize = 0;
    while n < len / 2
        invariant
            n <= len / 2,
            len == b.len(),
            len % 2 == 0,
            b == bytes@,
            b == s.spec_bytes(),
            pairs_value(b, n as nat) is Some,
            forall|m: nat|
                m < n && 2 * m + 2 < b.len() && #[trigger] pairs_value(b, m) is Some ==> !(0x80
                    <= b[(2 * m + 2) as int] < 0xc0),
        decreases len / 2 - n,
    {
        if n + 1 < len / 2 && 0x80 <= bytes[2 * n + 2] && bytes[2 * n + 2] < 0xc0 {
            assert(pairs_value(b, n as nat) is Some);
            return false;
        }
        let low = digit(bytes[2 * n + 1]);
        let high = if bytes[2 * n] == 0x2b {
            Some(0)
        } else {
            digit(bytes[2 * n])
        };
        if high.is_none() || low.is_none() {
            proof {
                assert forall|m: nat|
                    2 * m + 2 < b.len() && #[trigger] pairs_value(b, m) is Some implies !(0x80
                    <= b[(2 * m + 2) as int] < 0xc0) by {
                    if m > n {
                        lemma_pairs_none(b, (n + 1) as nat, m);
                    }
                }
            }
            return true;
        }
        n = n + 1;
    }
    true
}

/// Decodes hexadecimal text, two characters for a byte.
pub fn hex_decode(s: &str) -> (r: Option<Vec<u8>>)
    requires
        s.spec_bytes().len() % 2 == 0 ==> pairs_apart(s.spec_bytes()),
    ensures
        match r {
            Some(v) => {
                &&& s.spec_bytes().len() % 2 == 0
                &&& pairs_value(s.spec_bytes(), s.spec_bytes().len() / 2) == Some(v@)
            },
            None => s.spec_bytes().len() % 2 != 0 || pairs_value(
                s.spec_bytes(),
                s.spec_bytes().len() / 2,
            ) is None,
        },
{
    let bytes = s.as_bytes();
    let ghost b = bytes@;
    let len = bytes.len();
    if len % 2 != 0 {
        return None;
    }
    let mut v: Vec<u8> = Vec::new();
    let mut n: usize = 0;
    while n < len / 2
        invariant
            n <= len / 2,
            len == b.len(),
            len % 2 == 0,
            b == bytes@,
            b == s.spec_bytes(),
            pairs_value(b, n as nat) == Some(v@),
        decreases len / 2 - n,
    {
        let low = digit(bytes[2 * n + 1]);
        let high = if bytes[2 * n] == 0x2b {
            Some(0)
        } else {
            digit(bytes[2 * n])
        };
        match (high, low) {
            (Some(high), Some(low)) => {
                v.push(16 * high + low);
            },
            _ => {
                proof {
                    lemma_pairs_none(b, (n + 1) as nat, (len / 2) as nat);
                }
                return None;
            },
        }
        n = n + 1;
    }
    Some(v)
}

proof fn lemma_pairs_none(s: Seq<u8>, m: nat, n: nat)
    requires
        m <= n,
        pairs_value(s, m) is None,
    ensures
        pairs_value(s, n) is None,
    decreases n,
{
    if m < n {
        lemma_pairs_none(s, m, (n - 1) as nat);
    }
}

/// A command.
pub enum Command {
    /// To stop.
    Quit,
    /// To run the bytes that the text stands for, for so many milliseconds at most.
    RunInput { ms: u64, hex: Vec<u8> },
    /// Nothing that is known.
    Unknown,
}

/// What a command says.
pub enum CommandView {
    Quit,
    RunInput { ms: u64, hex: Seq<u8> },
    Unknown,
}

impl View for Command {
    type V = CommandView;

    open spec fn view(&self) -> CommandView {
        match self {
            Command::Quit => CommandView::Quit,
            Command::RunInput { ms, hex } => CommandView::RunInput { ms: *ms, hex: hex@ },
            Command::Unknown => CommandView::Unknown,
        }
    }
}

/// Where the first space is, from `from` on, or the end.
pub open spec fn space_from(s: Seq<u8>, from: nat) -> nat
    decreases s.len() - from,
{
    if from >= s.len() || s[from as int] == 0x20 {
        from
    } else {
        space_from(s, from + 1)
    }
}

/// The number that decimal digits spell, where it is below the limit of a word.
pub open spec fn digits_value(s: Seq<u8>) -> Option<nat>
    decreases s.len(),
{
    if s.len() == 0 {
        Some(0)
    } else {
        match digits_value(s.drop_last()) {
            None => None,
            Some(n) => if 0x30 <= s.last() <= 0x39 && 10 * n + (s.last() - 0x30) <= u64::MAX {
                Some((10 * n + (s.last() - 0x30)) as nat)
            } else {
                None
            },
        }
    }
}

/// The number that text spells: digits, perhaps behind a plus sign. Other text counts as zero.
pub open spec fn number_or_zero(s: Seq<u8>) -> u64 {
    let digits = if s.len() > 0 && s[0] == 0x2b {
        s.drop_first()
    } else {
        s
    };
    if digits.len() == 0 {
        0
    } else {
        match digits_value(digits) {
            Some(n) => n as u64,
            None => 0,
        }
    }
}

/// The word that asks to run an input.
pub open spec fn run_input() -> Seq<u8> {
    seq![0x72u8, 0x75, 0x6e, 0x2d, 0x69, 0x6e, 0x70, 0x75, 0x74]
}

/// The word that asks to stop.
pub open spec fn quit() -> Seq<u8> {
    seq![0x71u8, 0x75, 0x69, 0x74]
}

/// What a line asks for: up to three words, of which the last may hold spaces.
pub open spec fn command_of(s: Seq<u8>) -> CommandView {
    if s == quit() {
        CommandView::Quit
    } else {
        let a = space_from(s, 0) as int;
        if a < s.len() && s.subrange(0, a) == run_input() {
            let b = space_from(s, (a + 1) as nat) as int;
            let ms = number_or_zero(s.subrange(a + 1, b));
            CommandView::RunInput {
                ms,
                hex: if b < s.len() {
                    s.subrange(b + 1, s.len() as int)
                } else {
                    Seq::empty()
                },
            }
        } else {
            CommandView::Unknown
        }
    }
}

proof fn lemma_space_from(s: Seq<u8>, from: nat)
    requires
        from <= s.len(),
    ensures
        from <= space_from(s, from) <= s.len(),
    decreases s.len() - from,
{
    if from < s.len() && s[from as int] != 0x20 {
        lemma_space_from(s, from + 1);
    }
}

fn find_space(s: &[u8], from: usize) -> (i: usize)
    requires
        from <= s@.len(),
    ensures
        i == space_from(s@, from as nat),
        from <= i <= s@.len(),
{
    let mut i = from;
    proof {
        lemma_space_from(s@, from as nat);
    }
    while i < s.len() && s[i] != 0x20
        invariant
            from <= i <= s@.len(),
            space_from(s@, i as nat) == space_from(s@, from as nat),
        decreases s@.len() - i,
    {
        i = i + 1;
    }
    i
}

fn parse_number(s: &[u8]) -> (n: u64)
    ensures
        n == number_or_zero(s@),
{
    let start: usize = if s.len() > 0 && s[0] == 0x2b {
        1
    } else {
        0
    };
    let ghost digits = if s@.len() > 0 && s@[0] == 0x2b {
        s@.drop_first()
    } else {
        s@
    };
    assert(digits =~= s@.subrange(start as int, s@.len() as int));
    if start == s.len() {
        return 0;
    }
    let mut n: u64 = 0;
    let mut i: usize = start;
    assert(s@.subrange(start as int, start as int) =~= Seq::<u8>::empty());
    while i < s.len()
        invariant
            start <= i <= s@.len(),
            start < s@.len(),
            digits == if s@.len() > 0 && s@[0] == 0x2b {
                s@.drop_first()
            } else {
                s@
            },
            digits == s@.subrange(start as int, s@.len() as int),
            digits_value(s@.subrange(start as int, i as int)) == Some(n as nat),
        decreases s@.len() - i,
    {
        let ghost t = s@.subrange(start as int, i + 1);
        assert(t.drop_last() =~= s@.subrange(start as int, i as int));
        let c = s[i];
        if c < 0x30 || c > 0x39 || n > (u64::MAX - (c - 0x30) as u64) / 10 {
            proof {
                assert(digits_value(t) is None);
                lemma_digits_none(s@, start as int, i + 1);
            }
            return 0;
        }
        n = 10 * n + (c - 0x30) as u64;
        i = i + 1;
    }
    n
}

proof fn lemma_digits_none(s: Seq<u8>, start: int, i: int)
    requires
        0 <= start <= i <= s.len(),
        digits_value(s.subrange(start, i)) is None,
    ensures
        digits_value(s.subrange(start, s.len() as int)) is None,
    decreases s.len() - i,
{
    if i < s.len() {
        assert(s.subrange(start, i + 1).drop_last() =~= s.subrange(start, i));
        lemma_digits_none(s, start, i + 1);
    }
}

/// Reads a command from a line without the white space at its end.
pub fn parse_command(line: &str) -> (r: Command)
    ensures
        r@ == command_of(line.spec_bytes()),
{
    let s = line.as_bytes();
    let ghost b = s@;
    let is_quit = s.len() == 4 && s[0] == 0x71 && s[1] == 0x75 && s[2] == 0x69 && s[3] == 0x74;
    proof {
        if is_quit {
            assert(b =~= quit());
        }
    }
    if is_quit {
        return Command::Quit;
    }
    let first = find_space(s, 0);
    let word = part(s, 0, first);
    let known = first < s.len() && word.len() == 9 && word[0] == 0x72 && word[1] == 0x75 && word[2]
        == 0x6e && word[3] == 0x2d && word[4] == 0x69 && word[5] == 0x6e && word[6] == 0x70
        && word[7] == 0x75 && word[8] == 0x74;
    proof {
        if known {
            assert(word@ =~= run_input());
        }
    }
    if !known {
        return Command::Unknown;
    }
    let second = find_space(s, first + 1);
    let ms = parse_number(part(s, first + 1, second));
    let mut hex: Vec<u8> = Vec::new();
    if second < s.len() {
        crate::slices::push_slice(&mut hex, part(s, second + 1, s.len()));
        assert(hex@ =~= b.subrange(second + 1, b.len() as int));
    }
    assert(second >= b.len() ==> hex@ =~= Seq::<u8>::empty());
    Command::RunInput { ms, hex }
}

/// How running an input ended.
pub enum Outcome {
    /// The trace is complete.
    Done,
    /// It took too long.
    Timeout,
    /// It unwound, with a message.
    Panic(String),
    /// The text of the input stands for no bytes.
    BadHex,
    /// The command is not known.
    UnknownCommand(String),
}

/// The line that ends an answer.
pub open spec fn terminator_of(o: Outcome) -> Seq<char> {
    match o {
        Outcome::Done => "!DONE"@,
        Outcome::Timeout => "!TIMEOUT"@,
        Outcome::Panic(msg) => "!PANIC "@ + escaped(msg@),
        Outcome::BadHex => "!PANIC bad hex in run-input"@,
        Outcome::UnknownCommand(line) => "!PANIC unknown command: "@ + escaped(line@),
    }
}

/// The line that ends an answer.
pub fn terminator(o: &Outcome) -> (r: String)
    ensures
        r@ == terminator_of(*o),
{
    match o {
        Outcome::Done => "!DONE".to_owned(),
        Outcome::Timeout => "!TIMEOUT".to_owned(),
        Outcome::BadHex => "!PANIC bad hex in run-input".to_owned(),
        Outcome::Panic(msg) => {
            let mut s = "!PANIC ".to_owned();
            s.push_str(escape_line(msg.as_str()).as_str());
            s
        },
        Outcome::UnknownCommand(line) => {
            let mut s = "!PANIC unknown command: ".to_owned();
            s.push_str(escape_line(line.as_str()).as_str());
            s
        },
    }
}

} // verus!
