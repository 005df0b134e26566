//! What commands and answers say.

use vstd::prelude::*;

use crate::harness::server::{
    command_of, digits_value, escaped, escaped_char, number_or_zero, pair_value, pairs_apart, pairs_value,
    quit,
    run_input, space_from, terminator_of, CommandView, Outcome,
};
use crate::harness::show::path_text;
use crate::laws::texts::{hex_number, hex_value, law_hex, law_path_text};
use crate::text::hex;

verus! {

/// Escaped text is a single line.
pub proof fn law_escaped_is_one_line(s: Seq<char>)
    ensures
        forall|i: int|
            0 <= i < escaped(s).len() ==> #[trigger] escaped(s)[i] != '\n' && escaped(s)[i] != '\r',
    decreases s.len(),
{
    if s.len() > 0 {
        law_escaped_is_one_line(s.drop_last());
        let e = escaped(s.drop_last());
        assert forall|i: int| 0 <= i < escaped(s).len() implies #[trigger] escaped(s)[i] != '\n'
            && escaped(s)[i] != '\r' by {
            if i < e.len() {
                assert(escaped(s)[i] == e[i]);
            } else {
                assert(escaped(s)[i] == escaped_char(s.last())[i - e.len()]);
            }
        }
    }
}

/// The text can be told from what it was escaped to.
pub proof fn law_escaped_is_distinct(a: Seq<char>, b: Seq<char>)
    requires
        escaped(a) == escaped(b),
    ensures
        a == b,
    decreases a.len(),
{
    if a.len() == 0 {
        if b.len() > 0 {
            lemma_escaped_front(b);
        }
        assert(a =~= b);
    } else if b.len() == 0 {
        lemma_escaped_front(a);
    } else {
        lemma_escaped_front(a);
        lemma_escaped_front(b);
        let (x, y) = (escaped_char(a[0]), escaped_char(b[0]));
        let (ra, rb) = (escaped(a.drop_first()), escaped(b.drop_first()));
        assert(x + ra == y + rb);
        assert((x + ra)[0] == x[0]);
        assert((y + rb)[0] == y[0]);
        if x.len() == 2 {
            assert((x + ra)[1] == x[1]);
        }
        if y.len() == 2 {
            assert((y + rb)[1] == y[1]);
        }
        assert(a[0] == b[0]);
        assert(ra =~= (x + ra).subrange(x.len() as int, (x + ra).len() as int));
        assert(rb =~= (y + rb).subrange(y.len() as int, (y + rb).len() as int));
        law_escaped_is_distinct(a.drop_first(), b.drop_first());
        assert(a =~= seq![a[0]] + a.drop_first());
        assert(b =~= seq![b[0]] + b.drop_first());
    }
}

/// Text is escaped one character after the other.
proof fn lemma_escaped_front(s: Seq<char>)
    requires
        s.len() > 0,
    ensures
        escaped(s) == escaped_char(s[0]) + escaped(s.drop_first()),
        escaped(s).len() > 0,
    decreases s.len(),
{
    if s.len() == 1 {
        assert(s.drop_last() =~= Seq::<char>::empty());
        assert(s.drop_first() =~= Seq::<char>::empty());
        assert(escaped(s) =~= escaped_char(s[0]) + escaped(s.drop_first()));
    } else {
        lemma_escaped_front(s.drop_last());
        assert(s.drop_last().drop_first() =~= s.drop_first().drop_last());
        assert(s.drop_first().last() == s.last());
        assert(escaped(s) =~= escaped_char(s[0]) + escaped(s.drop_first()));
    }
}

/// Text is escaped character by character: a backslash is doubled, and the ends of lines are told by
/// letters.
pub proof fn law_escaping_goes_by_characters(s: Seq<char>, c: char)
    ensures
        escaped(Seq::empty()) == Seq::<char>::empty(),
        escaped(s.push('\\')) == escaped(s) + seq!['\\', '\\'],
        escaped(s.push('\n')) == escaped(s) + seq!['\\', 'n'],
        escaped(s.push('\r')) == escaped(s) + seq!['\\', 'r'],
        c != '\\' && c != '\n' && c != '\r' ==> escaped(s.push(c)) == escaped(s) + seq![c],
{
    assert(s.push('\\').drop_last() =~= s);
    assert(s.push('\n').drop_last() =~= s);
    assert(s.push('\r').drop_last() =~= s);
    assert(s.push(c).drop_last() =~= s);
}

/// What a hexadecimal digit in either case stands for, where the byte is one.
pub open spec fn nibble(b: u8) -> int {
    if 48 <= b <= 57 {
        b - 48
    } else if 65 <= b <= 70 {
        b - 55
    } else if 97 <= b <= 102 {
        b - 87
    } else {
        16
    }
}

/// Two bytes stand for one where both are digits, or the first is a plus sign.
pub proof fn law_pair_of_digits(a: u8, b: u8)
    ensures
        nibble(a) < 16 && nibble(b) < 16 ==> pair_value(a, b) == Some(
            (16 * nibble(a) + nibble(b)) as u8,
        ),
        a == 43 && nibble(b) < 16 ==> pair_value(a, b) == Some(nibble(b) as u8),
        nibble(b) == 16 || (nibble(a) == 16 && a != 43) ==> pair_value(a, b) is None,
{
}

/// The pairs stand for bytes in their order, and for none where one of them does not.
pub proof fn law_pairs_in_order(s: Seq<u8>, n: nat)
    requires
        2 * n <= s.len(),
    ensures
        pairs_value(s, n) matches Some(v) ==> v.len() == n && forall|i: int|
            0 <= i < n ==> Some(#[trigger] v[i]) == pair_value(s[2 * i], s[2 * i + 1]),
        pairs_value(s, n) is None ==> exists|i: int|
            0 <= i < n && pair_value(#[trigger] s[2 * i], s[2 * i + 1]) is None,
    decreases n,
{
    if n > 0 {
        let k = (n - 1) as nat;
        law_pairs_in_order(s, k);
        match pairs_value(s, k) {
            None => {
                let i = choose|i: int|
                    0 <= i < k && pair_value(#[trigger] s[2 * i], s[2 * i + 1]) is None;
                assert(0 <= i < n && pair_value(s[2 * i], s[2 * i + 1]) is None);
            },
            Some(v) => {
                let i = n - 1;
                assert(s[2 * n - 2] == s[2 * i] && s[2 * n - 1] == s[2 * i + 1]);
            },
        }
    }
}

/// What is told in hexadecimal is read back.
pub proof fn law_hex_reads_back(p: Seq<u8>)
    requires
        p.len() > 0,
    ensures
        ({
            let text = path_text(p);
            pairs_value(Seq::new(text.len(), |i: int| text[i] as u8), p.len()) == Some(p)
        }),
{
    let text = path_text(p);
    let s = Seq::new(text.len(), |i: int| text[i] as u8);
    law_path_text(p, 0);
    assert forall|i: int| 0 <= i < p.len() implies pair_value(
        #[trigger] s[2 * i],
        s[2 * i + 1],
    ) == Some(p[i]) by {
        law_path_text(p, i);
        law_hex(p[i] as nat, 2);
        let h = hex(p[i] as nat, 2);
        let part = text.subrange(2 * i, 2 * i + 2);
        assert(h[0] == text[2 * i] && h[1] == text[2 * i + 1]);
        assert(h.drop_last().drop_last() =~= Seq::empty());
        assert(hex_number(h) == 16 * hex_number(h.drop_last()) + hex_value(h[1]));
        assert(hex_number(h.drop_last()) == 16 * hex_number(h.drop_last().drop_last())
            + hex_value(h[0]));
        law_pair_of_digits(s[2 * i], s[2 * i + 1]);
    }
    law_pairs_in_order(s, p.len());
    assert(pairs_value(s, p.len())->Some_0 =~= p) by {
        let v = pairs_value(s, p.len())->Some_0;
        assert forall|i: int| 0 <= i < p.len() implies v[i] == p[i] by {
            assert(Some(v[i]) == pair_value(s[2 * i], s[2 * i + 1]));
        }
    }
}

/// The number that decimal digits stand for.
pub open spec fn digits_number(s: Seq<u8>) -> int
    decreases s.len(),
{
    if s.len() == 0 {
        0
    } else {
        10 * digits_number(s.drop_last()) + (s.last() - 48)
    }
}

/// All bytes are decimal digits.
pub open spec fn all_digits(s: Seq<u8>) -> bool {
    forall|i: int| 0 <= i < s.len() ==> 48 <= #[trigger] s[i] <= 57
}

/// Digits stand for their number, also behind a plus sign, and everything else for zero.
pub proof fn law_number_or_zero(s: Seq<u8>)
    ensures
        s.len() > 0 && all_digits(s) && digits_number(s) <= u64::MAX ==> number_or_zero(s)
            == digits_number(s) && number_or_zero(seq![43u8] + s) == digits_number(s),
        s.len() > 0 && all_digits(s) && digits_number(s) > u64::MAX ==> number_or_zero(s) == 0,
        !all_digits(s) && s[0] != 43 ==> number_or_zero(s) == 0,
        number_or_zero(Seq::empty()) == 0,
{
    lemma_digits(s);
    assert((seq![43u8] + s).drop_first() =~= s);
    if all_digits(s) && s.len() > 0 {
        assert(48 <= s[0]);
    }
    if !all_digits(s) {
        assert(s.len() > 0);
    }
}

proof fn lemma_digits(s: Seq<u8>)
    ensures
        digits_value(s) == if all_digits(s) && digits_number(s) <= u64::MAX {
            Some(digits_number(s) as nat)
        } else {
            None
        },
        all_digits(s) ==> digits_number(s) >= 0,
    decreases s.len(),
{
    if s.len() > 0 {
        let t = s.drop_last();
        lemma_digits(t);
        if all_digits(s) {
            assert forall|i: int| 0 <= i < t.len() implies 48 <= #[trigger] t[i] <= 57 by {
                assert(t[i] == s[i]);
            }
            assert(48 <= s[s.len() - 1] <= 57);
        } else if all_digits(t) && 48 <= s.last() <= 57 {
            assert forall|i: int| 0 <= i < s.len() implies 48 <= #[trigger] s[i] <= 57 by {
                if i < t.len() {
                    assert(t[i] == s[i]);
                }
            }
        }
    }
}

/// A command to run an input says for how long and what, with spaces between; the rest of the line is
/// the input. What is neither that nor to quit is not known.
pub proof fn law_commands(ms: Seq<u8>, input: Seq<u8>, line: Seq<u8>)
    requires
        forall|i: int| 0 <= i < ms.len() ==> #[trigger] ms[i] != 32,
    ensures
        ({
            let word = seq![114u8, 117, 110, 45, 105, 110, 112, 117, 116];
            let stop = seq![113u8, 117, 105, 116];
            &&& command_of(stop) == CommandView::Quit
            &&& command_of(word + seq![32u8] + ms + seq![32u8] + input) == (CommandView::RunInput {
                ms: number_or_zero(ms),
                hex: input,
            })
            &&& command_of(word + seq![32u8] + ms) == (CommandView::RunInput {
                ms: number_or_zero(ms),
                hex: Seq::empty(),
            })
            &&& line != stop && !(line.len() >= 10 && line.subrange(0, 10) == word.push(32u8))
                ==> command_of(line) == CommandView::Unknown
        }),
{
    let word = seq![114u8, 117, 110, 45, 105, 110, 112, 117, 116];
    let stop = seq![113u8, 117, 105, 116];
    let long = word + seq![32u8] + ms + seq![32u8] + input;
    let short = word + seq![32u8] + ms;
    assert(quit() =~= stop);
    assert(run_input() =~= word);
    assert(long[0] == 114 && short[0] == 114 && stop[0] == 113);
    assert forall|i: int| 0 <= i < 9 implies #[trigger] long[i] == word[i] && short[i]
        == word[i] by {}
    assert(long[9] == 32 && short[9] == 32);
    lemma_space(long, 0, 9);
    lemma_space(short, 0, 9);
    assert(long.subrange(0, 9) =~= word);
    assert(short.subrange(0, 9) =~= word);
    let n = 10 + ms.len() as int;
    assert forall|i: int| 10 <= i < n implies #[trigger] long[i] != 32 by {
        assert(long[i] == ms[i - 10]);
    }
    assert forall|i: int| 10 <= i < n implies #[trigger] short[i] != 32 by {
        assert(short[i] == ms[i - 10]);
    }
    assert(long[n] == 32);
    lemma_space(long, 10, n);
    lemma_space(short, 10, n);
    assert(long.subrange(10, n) =~= ms);
    assert(short.subrange(10, n) =~= ms);
    assert(long.subrange(n + 1, long.len() as int) =~= input);
    let a = space_from(line, 0) as int;
    lemma_space_is(line, 0);
    if a < line.len() && line.subrange(0, a) == word {
        assert(line.subrange(0, a).len() == 9);
        assert(line.subrange(0, 10) =~= word.push(32u8)) by {
            assert forall|i: int| 0 <= i < 9 implies line[i] == word[i] by {
                assert(line.subrange(0, a)[i] == line[i]);
            }
        }
    }
}

/// The space that is found is the first.
proof fn lemma_space(s: Seq<u8>, from: int, to: int)
    requires
        0 <= from <= to <= s.len(),
        forall|i: int| from <= i < to ==> #[trigger] s[i] != 32,
        to < s.len() ==> s[to] == 32,
    ensures
        space_from(s, from as nat) == to,
    decreases to - from,
{
    if from < to {
        lemma_space(s, from + 1, to);
    }
}

proof fn lemma_space_is(s: Seq<u8>, from: nat)
    ensures
        space_from(s, from) < s.len() ==> s[space_from(s, from) as int] == 32,
    decreases s.len() - from,
{
    if from < s.len() && s[from as int] != 32 {
        lemma_space_is(s, from + 1);
    }
}

/// How an answer ends tells what became of the input, on a line of its own.
pub proof fn law_ends_of_answers(message: String)
    ensures
        terminator_of(Outcome::Done) == "!DONE"@,
        terminator_of(Outcome::Timeout) == "!TIMEOUT"@,
        terminator_of(Outcome::Panic(message)) == "!PANIC "@ + escaped(message@),
        terminator_of(Outcome::BadHex) == "!PANIC bad hex in run-input"@,
        terminator_of(Outcome::UnknownCommand(message)) == "!PANIC unknown command: "@ + escaped(
            message@,
        ),
{
}

/// Text can be taken apart into pairs of bytes where no character lies across two pairs, as far as the
/// pairs before it stand for bytes.
pub proof fn law_pairs_apart(s: Seq<u8>)
    ensures
        pairs_apart(s) <==> forall|n: nat|
            2 * n + 2 < s.len() && #[trigger] pairs_value(s, n) is Some ==> s[(2 * n + 2) as int]
                < 128 || s[(2 * n + 2) as int] >= 192,
{
}

} // verus!
