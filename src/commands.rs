//! Parsing of the commands typed at the interactive prompt.
use vstd::prelude::*;
use vstd::string::*;

verus! {

/// A command typed at the prompt.
#[derive(Debug)]
pub enum Command {
    /// `quit`.
    Quit,
    /// `open <path>`: open a disk image.
    Open(String),
    /// `print`: print the disk layout.
    Print,
    /// `part <n>`: analyse partition `n`, counted from 1.
    Partition(u8),
    /// `skip`: stop validating boot sectors.
    Skip,
    /// `write <file> <sector>`: write a file from a sector on.
    Write((String, u64)),
    /// `tree`: print the directory tree of each volume.
    Tree,
    /// An unknown command word.
    Unknown(String),
    /// A known command with missing or malformed arguments; the message.
    Invalid(String),
    /// Nothing but whitespace.
    Empty,
}

/// Whether `c` has the Unicode White_Space property.
pub open spec fn is_ws(c: char) -> bool {
    ('\u{9}' <= c <= '\u{d}') || c == ' ' || c == '\u{85}' || c == '\u{a0}' || c == '\u{1680}'
        || ('\u{2000}' <= c <= '\u{200a}') || c == '\u{2028}' || c == '\u{2029}' || c
        == '\u{202f}' || c == '\u{205f}' || c == '\u{3000}'
}

/// The whitespace-separated words of `s`, after the word `cur` that is
/// being read.
pub open spec fn words_from(s: Seq<char>, cur: Seq<char>) -> Seq<Seq<char>>
    decreases s.len(),
{
    if s.len() == 0 {
        if cur.len() > 0 {
            seq![cur]
        } else {
            Seq::empty()
        }
    } else if is_ws(s[0]) {
        (if cur.len() > 0 {
            seq![cur]
        } else {
            Seq::empty()
        }) + words_from(s.drop_first(), Seq::empty())
    } else {
        words_from(s.drop_first(), cur.push(s[0]))
    }
}

/// The whitespace-separated words of `s`.
pub open spec fn words(s: Seq<char>) -> Seq<Seq<char>> {
    words_from(s, Seq::empty())
}

/// The value of a non-empty string of decimal digits.
pub open spec fn digits_value(s: Seq<char>) -> Option<nat>
    decreases s.len(),
{
    if s.len() == 0 || !('0' <= s.last() <= '9') {
        None
    } else if s.len() == 1 {
        Some((s.last() as nat - '0' as nat) as nat)
    } else {
        match digits_value(s.drop_last()) {
            Some(v) => Some(v * 10 + (s.last() as nat - '0' as nat) as nat),
            None => None,
        }
    }
}

/// The value of an unsigned decimal number with an optional `+` sign.
pub open spec fn unsigned_value(s: Seq<char>) -> Option<nat> {
    if s.len() > 0 && s[0] == '+' {
        digits_value(s.drop_first())
    } else {
        digits_value(s)
    }
}

/// The number `s` holds when it is at most `limit`.
pub open spec fn parse_bounded(s: Seq<char>, limit: nat) -> Option<nat> {
    match unsigned_value(s) {
        Some(v) => if v <= limit {
            Some(v)
        } else {
            None
        },
        None => None,
    }
}

/// Parses the characters `[from, to)` of `s` as an unsigned decimal number
/// of at most `limit`.
fn parse_unsigned(s: &str, from: usize, to: usize, limit: u64) -> (r: Option<u64>)
    requires
        from <= to <= s@.len(),
    ensures
        r matches Some(v) ==> parse_bounded(s@.subrange(from as int, to as int), limit as nat)
            == Some(v as nat),
        r is None ==> parse_bounded(s@.subrange(from as int, to as int), limit as nat) is None,
{
    let ghost t = s@.subrange(from as int, to as int);
    let mut i = from;
    if i < to && s.get_char(i) == '+' {
        i = i + 1;
    }
    let ghost d = s@.subrange(i as int, to as int);
    assert(unsigned_value(t) == digits_value(d)) by {
        if t.len() > 0 && t[0] == '+' {
            assert(t.drop_first() =~= d);
        } else {
            assert(t =~= d);
        }
    }
    if i == to {
        return None;
    }
    let mut acc: u64 = 0;
    let start = i;
    while i < to
        invariant
            start < to <= s@.len(),
            start <= i <= to,
            d == s@.subrange(start as int, to as int),
            unsigned_value(s@.subrange(from as int, to as int)) == digits_value(d),
            i > start ==> digits_value(s@.subrange(start as int, i as int)) == Some(acc as nat),
            i == start ==> acc == 0,
            acc <= limit,
        decreases to - i,
    {
        let c = s.get_char(i);
        let ghost p = s@.subrange(start as int, i + 1);
        assert(p.drop_last() =~= s@.subrange(start as int, i as int));
        if !('0' <= c && c <= '9') {
            proof {
                assert(d.take((i - start + 1) as int) =~= p);
                lemma_digits_none_extends(d, (i - start + 1) as int);
            }
            return None;
        }
        let digit = (c as u32 - '0' as u32) as u64;
        assert(p.last() == c);
        assert(digit == (c as nat - '0' as nat));
        assert(digits_value(p) == Some((acc * 10 + digit) as nat)) by {
            if i > start {
                assert(p.len() > 1);
            } else {
                assert(p.len() == 1);
            }
        }
        if digit > limit || acc > (limit - digit) / 10 {
            proof {
                assert(acc * 10 + digit > limit) by (nonlinear_arith)
                    requires
                        digit > limit || acc > (limit - digit) / 10,
                        acc >= 0,
                ;
                assert(d.take((i - start + 1) as int) =~= p);
                lemma_digits_grow(d, (i - start + 1) as int, limit as nat);
            }
            return None;
        }
        assert(acc * 10 + digit <= limit) by (nonlinear_arith)
            requires
                acc <= (limit - digit) / 10,
                digit <= limit,
        ;
        acc = acc * 10 + digit;
        i = i + 1;
    }
    assert(s@.subrange(start as int, i as int) =~= d);
    Some(acc)
}

/// A prefix that is not a number keeps the whole from being one.
proof fn lemma_digits_none_extends(d: Seq<char>, k: int)
    requires
        0 < k <= d.len(),
        digits_value(d.take(k)) is None,
    ensures
        digits_value(d) is None,
    decreases d.len(),
{
    if k < d.len() {
        assert(d.drop_last().take(k) =~= d.take(k));
        lemma_digits_none_extends(d.drop_last(), k);
    } else {
        assert(d.take(k) =~= d);
    }
}

/// The value of a number only grows as digits are added.
proof fn lemma_digits_grow(d: Seq<char>, k: int, limit: nat)
    requires
        0 < k <= d.len(),
        digits_value(d.take(k)) matches Some(v) && v > limit || digits_value(d.take(k)) is None,
    ensures
        digits_value(d) matches Some(v) ==> v > limit,
    decreases d.len(),
{
    if k < d.len() {
        assert(d.drop_last().take(k) =~= d.take(k));
        lemma_digits_grow(d.drop_last(), k, limit);
    } else {
        assert(d.take(k) =~= d);
    }
}

/// The bounds of the whitespace-separated words of `s`, in order.
fn word_bounds(s: &str) -> (r: Vec<(usize, usize)>)
    ensures
        r@.len() == words(s@).len(),
        forall|j: int|
            0 <= j < r@.len() ==> {
                &&& (#[trigger] r@[j]).0 <= r@[j].1 <= s@.len()
                &&& s@.subrange(r@[j].0 as int, r@[j].1 as int) == words(s@)[j]
            },
{
    let n = s.unicode_len();
    let mut out: Vec<(usize, usize)> = Vec::new();
    let mut cur_start: usize = 0;
    let mut i: usize = 0;
    let ghost mut acc: Seq<Seq<char>> = Seq::empty();
    assert(s@.skip(0) =~= s@);
    assert(s@.subrange(0, 0) =~= Seq::<char>::empty());
    while i < n
        invariant
            n == s@.len(),
            cur_start <= i <= n,
            words(s@) == acc + words_from(s@.skip(i as int), s@.subrange(cur_start as int, i as int)),
            out@.len() == acc.len(),
            forall|j: int|
                0 <= j < out@.len() ==> {
                    &&& (#[trigger] out@[j]).0 <= out@[j].1 <= s@.len()
                    &&& s@.subrange(out@[j].0 as int, out@[j].1 as int) == acc[j]
                },
        decreases n - i,
    {
        let c = s.get_char(i);
        let ghost cur = s@.subrange(cur_start as int, i as int);
        assert(s@.skip(i as int).drop_first() =~= s@.skip(i + 1));
        assert(s@.skip(i as int)[0] == c);
        if ('\u{9}' <= c && c <= '\u{d}') || c == ' ' || c == '\u{85}' || c == '\u{a0}' || c
            == '\u{1680}' || ('\u{2000}' <= c && c <= '\u{200a}') || c == '\u{2028}' || c
            == '\u{2029}' || c == '\u{202f}' || c == '\u{205f}' || c == '\u{3000}' {
            if cur_start < i {
                out.push((cur_start, i));
                proof {
                    acc = acc.push(cur);
                    assert(acc.drop_last() + (seq![cur] + words_from(s@.skip(i + 1), Seq::empty()))
                        =~= acc + words_from(s@.skip(i + 1), Seq::empty()));
                }
            } else {
                assert(Seq::<Seq<char>>::empty() + words_from(s@.skip(i + 1), Seq::empty())
                    =~= words_from(s@.skip(i + 1), Seq::empty()));
            }
            cur_start = i + 1;
            assert(s@.subrange((i + 1) as int, (i + 1) as int) =~= Seq::<char>::empty());
        } else {
            assert(cur.push(c) =~= s@.subrange(cur_start as int, i + 1));
        }
        i = i + 1;
    }
    if cur_start < n {
        out.push((cur_start, n));
        proof {
            acc = acc.push(s@.subrange(cur_start as int, n as int));
        }
    }
    proof {
        assert(s@.skip(n as int) =~= Seq::<char>::empty());
        if cur_start < n {
            assert(acc =~= acc.drop_last() + seq![s@.subrange(cur_start as int, n as int)]);
        } else {
            assert(acc + Seq::<Seq<char>>::empty() =~= acc);
        }
    }
    out
}

/// The word `[from, to)` of `s` as a `String`.
fn word_string(s: &str, from: usize, to: usize) -> (r: String)
    requires
        from <= to <= s@.len(),
    ensures
        r@ == s@.subrange(from as int, to as int),
{
    String::from_str(s.substring_char(from, to))
}

impl Command {
    /// Parses a line typed at the prompt. The first word selects the
    /// command: `quit`, `open <file>`, `print`, `part <n>`, `skip`, or
    /// `write <file> <sector>`, or `tree`; further words are ignored. A known command
    /// with a missing or malformed argument is `Invalid`, another word is
    /// `Unknown`, and a blank line is `Empty`.
    pub fn from_string(s: &str) -> (r: Command)
        ensures
            words(s@).len() == 0 ==> r is Empty,
            words(s@).len() > 0 ==> {
                let w = words(s@);
                if w[0] == "quit"@ {
                    r is Quit
                } else if w[0] == "open"@ {
                    if w.len() > 1 {
                        r matches Command::Open(p) && p@ == w[1]
                    } else {
                        r matches Command::Invalid(m) && m@
                            == "Missing arg: 'open' expects the path to a '.img' file."@
                    }
                } else if w[0] == "print"@ {
                    r is Print
                } else if w[0] == "part"@ {
                    if w.len() > 1 {
                        match parse_bounded(w[1], 0xff) {
                            Some(v) => r == Command::Partition(v as u8),
                            None => r matches Command::Invalid(m) && m@
                                == "Arg parsing error: 'part' expects the partition number as an unsigned integer."@,
                        }
                    } else {
                        r matches Command::Invalid(m) && m@
                            == "Missing arg: 'part' expects the partition number."@
                    }
                } else if w[0] == "skip"@ {
                    r is Skip
                } else if w[0] == "tree"@ {
                    r is Tree
                } else if w[0] == "write"@ {
                    if w.len() > 2 {
                        match parse_bounded(w[2], 0xffff_ffff_ffff_ffff) {
                            Some(v) => r matches Command::Write((p, n)) && p@ == w[1] && n == v,
                            None => r matches Command::Invalid(m) && m@
                                == "Arg parsing error: 'write' expects the starting sector as an unsigned integer."@,
                        }
                    } else {
                        r matches Command::Invalid(m) && m@
                            == "Missing arg: 'write' expects the file and the starting sector to write it."@
                    }
                } else {
                    r matches Command::Unknown(u) && u@ == w[0]
                }
            },
    {
        let b = word_bounds(s);
        if b.len() == 0 {
            return Command::Empty;
        }
        let (a0, e0) = b[0];
        let first = word_string(s, a0, e0);
        if first.eq(&String::from_str("quit")) {
            Command::Quit
        } else if first.eq(&String::from_str("open")) {
            if b.len() > 1 {
                let (a1, e1) = b[1];
                Command::Open(word_string(s, a1, e1))
            } else {
                Command::Invalid(
                    String::from_str("Missing arg: 'open' expects the path to a '.img' file."),
                )
            }
        } else if first.eq(&String::from_str("print")) {
            Command::Print
        } else if first.eq(&String::from_str("part")) {
            if b.len() > 1 {
                let (a1, e1) = b[1];
                match parse_unsigned(s, a1, e1, 0xff) {
                    Some(nb) => Command::Partition(nb as u8),
                    None => Command::Invalid(
                        String::from_str(
                            "Arg parsing error: 'part' expects the partition number as an unsigned integer.",
                        ),
                    ),
                }
            } else {
                Command::Invalid(String::from_str("Missing arg: 'part' expects the partition number."))
            }
        } else if first.eq(&String::from_str("skip")) {
            Command::Skip
        } else if first.eq(&String::from_str("tree")) {
            Command::Tree
        } else if first.eq(&String::from_str("write")) {
            if b.len() > 2 {
                let (a1, e1) = b[1];
                let (a2, e2) = b[2];
                match parse_unsigned(s, a2, e2, 0xffff_ffff_ffff_ffff) {
                    Some(sector) => Command::Write((word_string(s, a1, e1), sector)),
                    None => Command::Invalid(
                        String::from_str(
                            "Arg parsing error: 'write' expects the starting sector as an unsigned integer.",
                        ),
                    ),
                }
            } else {
                Command::Invalid(
                    String::from_str(
                        "Missing arg: 'write' expects the file and the starting sector to write it.",
                    ),
                )
            }
        } else {
            Command::Unknown(first)
        }
    }
}

} // verus!
