//! The lock that keeps a second instance from starting.
//!
//! The lock is a file that holds the process id of its owner. It is in force only
//! if a path for it is given. A file whose process is gone, or that holds no
//! process id, is taken over.

use crate::text;
use vstd::prelude::*;

verus! {

/// Whether a character has the Unicode property `White_Space`.
pub open spec fn is_white(c: char) -> bool {
    ||| 0x9 <= c as u32 <= 0xd
    ||| c as u32 == 0x20
    ||| c as u32 == 0x85
    ||| c as u32 == 0xa0
    ||| c as u32 == 0x1680
    ||| 0x2000 <= c as u32 <= 0x200a
    ||| c as u32 == 0x2028
    ||| c as u32 == 0x2029
    ||| c as u32 == 0x202f
    ||| c as u32 == 0x205f
    ||| c as u32 == 0x3000
}

/// The text without white space at its end.
pub open spec fn trim_end(s: Seq<char>) -> Seq<char>
    decreases s.len(),
{
    if s.len() > 0 && is_white(s.last()) {
        trim_end(s.drop_last())
    } else {
        s
    }
}

/// The text without white space at its start.
pub open spec fn trim_start(s: Seq<char>) -> Seq<char>
    decreases s.len(),
{
    if s.len() > 0 && is_white(s[0]) {
        trim_start(s.drop_first())
    } else {
        s
    }
}

/// Whether every character is a decimal digit.
pub open spec fn all_digits(s: Seq<char>) -> bool {
    forall|i: int| 0 <= i < s.len() ==> '0' <= #[trigger] s[i] <= '9'
}

/// The number that decimal digits write.
pub open spec fn number_in(s: Seq<char>) -> nat
    decreases s.len(),
{
    if s.len() == 0 {
        0
    } else {
        (number_in(s.drop_last()) * 10 + (s.last() as u32 - '0' as u32)) as nat
    }
}

/// The digits of a number: the text without a plus sign in front.
pub open spec fn without_sign(s: Seq<char>) -> Seq<char> {
    if s.len() > 0 && s[0] == '+' {
        s.drop_first()
    } else {
        s
    }
}

/// The number of 32 bits that a text writes, a plus sign in front allowed.
pub open spec fn parsed_u32(s: Seq<char>) -> Option<u32> {
    let digits = without_sign(s);
    if digits.len() > 0 && all_digits(digits) && number_in(digits) <= u32::MAX {
        Some(number_in(digits) as u32)
    } else {
        None
    }
}

/// The process id that a lock file holds.
pub open spec fn pid_in(content: Seq<char>) -> Option<u32> {
    parsed_u32(trim_end(trim_start(content)))
}

/// Whether a character has the Unicode property `White_Space`.
fn check_white(c: char) -> (r: bool)
    ensures
        r == is_white(c),
{
    let n: u32 = c as u32;
    (0x9 <= n && n <= 0xd) || n == 0x20 || n == 0x85 || n == 0xa0 || n == 0x1680 || (0x2000 <= n
        && n <= 0x200a) || n == 0x2028 || n == 0x2029 || n == 0x202f || n == 0x205f || n == 0x3000
}

/// The characters of a text.
fn chars_of(s: &str) -> (r: Vec<char>)
    ensures
        r@ == s@,
{
    let mut out: Vec<char> = Vec::new();
    for c in it: s.chars()
        invariant
            out@ == it.seq().take(it.index()),
            it.seq() == s@,
    {
        out.push(c);
    }
    out
}

/// The more digits, the greater the number.
proof fn lemma_number_grows(s: Seq<char>, k: int)
    requires
        all_digits(s),
        0 <= k <= s.len(),
    ensures
        number_in(s.take(k)) <= number_in(s),
    decreases s.len() - k,
{
    if k < s.len() {
        assert(s.take(k + 1).drop_last() =~= s.take(k));
        assert('0' <= s[k] <= '9');
        lemma_number_grows(s, k + 1);
    } else {
        assert(s.take(k) =~= s);
    }
}

/// The number of 32 bits that the characters from `start` to `end` write.
fn parse_digits(chars: &Vec<char>, start: usize, end: usize) -> (r: Option<u32>)
    requires
        start <= end <= chars@.len(),
    ensures
        r == ({
            let digits = chars@.subrange(start as int, end as int);
            if digits.len() > 0 && all_digits(digits) && number_in(digits) <= u32::MAX {
                Some(number_in(digits) as u32)
            } else {
                None
            }
        }),
{
    let ghost digits = chars@.subrange(start as int, end as int);
    if start == end {
        return None;
    }
    let mut value: u64 = 0;
    let mut i: usize = start;
    while i < end
        invariant
            start <= i <= end <= chars@.len(),
            digits == chars@.subrange(start as int, end as int),
            all_digits(digits.take(i - start)),
            value == number_in(digits.take(i - start)),
            value <= u32::MAX,
        decreases end - i,
    {
        let c: char = chars[i];
        let ghost k: int = i - start;
        assert(digits[k] == c);
        assert(digits.take(k + 1).drop_last() =~= digits.take(k));
        assert(digits.take(k + 1).last() == c);
        if c < '0' || c > '9' {
            return None;
        }
        assert(all_digits(digits.take(k + 1))) by {
            assert forall|j: int| 0 <= j < k + 1 implies '0' <= #[trigger] digits.take(k + 1)[j]
                <= '9' by {
                if j < k {
                    assert(digits.take(k)[j] == digits.take(k + 1)[j]);
                }
            }
        }
        value = value * 10 + (c as u32 - '0' as u32) as u64;
        if value > u32::MAX as u64 {
            proof {
                if all_digits(digits) {
                    lemma_number_grows(digits, k + 1);
                }
            }
            return None;
        }
        i = i + 1;
    }
    assert(digits.take(digits.len() as int) =~= digits);
    Some(value as u32)
}

/// The process id that a lock file holds, white space around it allowed.
pub fn read_pid(content: &str) -> (r: Option<u32>)
    ensures
        r == pid_in(content@),
{
    let chars = chars_of(content);
    let ghost all = chars@;
    let mut start: usize = 0;
    assert(all.skip(0) =~= all);
    while start < chars.len() && check_white(chars[start])
        invariant
            start <= chars@.len(),
            all == chars@,
            trim_start(all) == trim_start(all.skip(start as int)),
        decreases chars@.len() - start,
    {
        assert(all.skip(start as int).drop_first() =~= all.skip(start + 1));
        start = start + 1;
    }
    assert(trim_start(all) == all.skip(start as int));
    let mut end: usize = chars.len();
    assert(all.subrange(start as int, end as int) =~= all.skip(start as int));
    while end > start && check_white(chars[end - 1])
        invariant
            start <= end <= chars@.len(),
            all == chars@,
            trim_end(trim_start(all)) == trim_end(all.subrange(start as int, end as int)),
        decreases end,
    {
        assert(all.subrange(start as int, end as int).drop_last() =~= all.subrange(
            start as int,
            end - 1,
        ));
        end = end - 1;
    }
    let ghost trimmed = all.subrange(start as int, end as int);
    assert(trim_end(trim_start(all)) == trimmed);
    if start < end && chars[start] == '+' {
        assert(without_sign(trimmed) =~= all.subrange(start + 1, end as int));
        start = start + 1;
    }
    parse_digits(&chars, start, end)
}

/// The text of a lock file for a process.
pub fn pid_text(pid: u32) -> (r: String)
    ensures
        r@ == text::decimal(pid as nat),
{
    text::decimal_text(pid as u64)
}

/// What to do about the lock.
#[derive(Debug, Clone, Copy, PartialEq, Eq, Structural)]
pub enum LockStep {
    /// No lock is wanted.
    Skip,
    /// Take the lock.
    Take,
    /// Find out whether this process is alive, then `settle_probe`.
    Probe(u32),
}

/// What to do about the lock.
pub open spec fn step_for(wanted: bool, content: Option<Seq<char>>) -> LockStep {
    if !wanted {
        LockStep::Skip
    } else {
        match content {
            Some(held) => match pid_in(held) {
                Some(pid) => LockStep::Probe(pid),
                None => LockStep::Take,
            },
            None => LockStep::Take,
        }
    }
}

/// Say what to do about the lock, given whether one is wanted and what its file
/// holds, if it can be read.
pub fn lock_step(wanted: bool, content: Option<&str>) -> (r: LockStep)
    ensures
        r == step_for(
            wanted,
            match content {
                Some(held) => Some(held@),
                None => None,
            },
        ),
        r == if !wanted {
            LockStep::Skip
        } else {
            match content {
                Some(held) => match pid_in(held@) {
                    Some(pid) => LockStep::Probe(pid),
                    None => LockStep::Take,
                },
                None => LockStep::Take,
            }
        },
{
    if !wanted {
        return LockStep::Skip;
    }
    match content {
        Some(held) => match read_pid(held) {
            Some(pid) => LockStep::Probe(pid),
            None => LockStep::Take,
        },
        None => LockStep::Take,
    }
}

/// Whether the lock may be taken from a process: not if it is alive. The error
/// names the program, the process and the file.
pub fn settle_probe(pid: u32, alive: bool, who: &str, path: &str) -> (r: Result<(), String>)
    ensures
        r is Ok <==> !alive,
        r matches Err(message) ==> message@ == who@ + " уже запущен (PID "@ + text::decimal(
            pid as nat,
        ) + "). PID-файл: "@ + path@,
{
    if alive {
        let mut message: String = who.to_string();
        message.append(" уже запущен (PID ");
        message.append(text::decimal_text(pid as u64).as_str());
        message.append("). PID-файл: ");
        message.append(path);
        Err(message)
    } else {
        Ok(())
    }
}

/// The decimal notation of a number consists of digits and writes that number.
proof fn lemma_decimal_reads_back(n: nat)
    ensures
        text::decimal(n).len() > 0,
        all_digits(text::decimal(n)),
        number_in(text::decimal(n)) == n,
    decreases n,
{
    if n < 10 {
        assert(text::decimal(n).drop_last() =~= Seq::empty());
        assert(number_in(text::decimal(n).drop_last()) == 0);
    } else {
        lemma_decimal_reads_back(n / 10);
        let head = text::decimal(n / 10);
        assert(text::decimal(n).drop_last() =~= head);
        assert forall|i: int| 0 <= i < text::decimal(n).len() implies '0'
            <= #[trigger] text::decimal(n)[i] <= '9' by {
            if i < head.len() {
                assert('0' <= head[i] <= '9');
            }
        }
    }
}

/// What one instance writes into the lock file, the next one reads back.
pub proof fn law_pid_reads_back(pid: u32)
    ensures
        pid_in(text::decimal(pid as nat)) == Some(pid),
{
    let s = text::decimal(pid as nat);
    lemma_decimal_reads_back(pid as nat);
    assert('0' <= s[0] <= '9');
    assert('0' <= s[s.len() - 1] <= '9');
}

/// White space in front is taken off.
proof fn lemma_trim_start(w: Seq<char>, s: Seq<char>)
    requires
        forall|i: int| 0 <= i < w.len() ==> is_white(#[trigger] w[i]),
        s.len() > 0 ==> !is_white(s[0]),
    ensures
        trim_start(w + s) == s,
    decreases w.len(),
{
    if w.len() > 0 {
        assert((w + s)[0] == w[0]);
        assert((w + s).drop_first() =~= w.drop_first() + s);
        assert forall|i: int| 0 <= i < w.drop_first().len() implies is_white(
            #[trigger] w.drop_first()[i],
        ) by {
            assert(is_white(w[i + 1]));
        }
        lemma_trim_start(w.drop_first(), s);
    } else {
        assert(w + s =~= s);
    }
}

/// White space behind is taken off.
proof fn lemma_trim_end(s: Seq<char>, w: Seq<char>)
    requires
        forall|i: int| 0 <= i < w.len() ==> is_white(#[trigger] w[i]),
        s.len() > 0 ==> !is_white(s.last()),
    ensures
        trim_end(s + w) == s,
    decreases w.len(),
{
    if w.len() > 0 {
        assert((s + w).last() == w.last());
        assert((s + w).drop_last() =~= s + w.drop_last());
        assert forall|i: int| 0 <= i < w.drop_last().len() implies is_white(
            #[trigger] w.drop_last()[i],
        ) by {
            assert(is_white(w[i]));
        }
        lemma_trim_end(s, w.drop_last());
    } else {
        assert(s + w =~= s);
    }
}

/// The process id in a lock file is found with blanks, tabs and line ends around it,
/// and with a plus sign in front of it.
pub proof fn law_pid_is_found_among_blanks(before: Seq<char>, pid: u32, after: Seq<char>)
    requires
        forall|i: int|
            0 <= i < before.len() ==> #[trigger] before[i] == ' ' || before[i] == '\t'
                || before[i] == '\n' || before[i] == '\r',
        forall|i: int|
            0 <= i < after.len() ==> #[trigger] after[i] == ' ' || after[i] == '\t' || after[i]
                == '\n' || after[i] == '\r',
    ensures
        pid_in(before + text::decimal(pid as nat) + after) == Some(pid),
        pid_in(before + (seq!['+'] + text::decimal(pid as nat)) + after) == Some(pid),
{
    let s = text::decimal(pid as nat);
    let signed = seq!['+'] + s;
    lemma_decimal_reads_back(pid as nat);
    assert('0' <= s[0] <= '9');
    assert('0' <= s[s.len() - 1] <= '9');
    assert(before + s + after =~= before + (s + after));
    assert(before + signed + after =~= before + (signed + after));
    assert((s + after)[0] == s[0]);
    assert((signed + after)[0] == '+');
    lemma_trim_start(before, s + after);
    lemma_trim_end(s, after);
    lemma_trim_start(before, signed + after);
    assert(signed.last() == s.last());
    lemma_trim_end(signed, after);
    assert(without_sign(signed) =~= s);
}

/// What is not white space is not taken off.
proof fn lemma_trim_keeps(s: Seq<char>, c: char)
    requires
        s.contains(c),
        !is_white(c),
    ensures
        trim_start(s).contains(c),
        trim_end(s).contains(c),
    decreases s.len(),
{
    let i = choose|i: int| 0 <= i < s.len() && s[i] == c;
    if s.len() > 0 && is_white(s[0]) {
        assert(s.drop_first()[i - 1] == c);
        lemma_trim_keeps(s.drop_first(), c);
    }
    if s.len() > 0 && is_white(s.last()) {
        assert(s.drop_last()[i] == c);
        lemma_trim_keeps(s.drop_last(), c);
    }
}

/// A lock file with a letter or a minus sign in it holds no process id, and neither
/// does an empty one or one with a number that is too great.
pub proof fn law_other_content_holds_no_pid(content: Seq<char>, c: char, n: nat)
    ensures
        content.contains(c) && ('a' <= c <= 'z' || 'A' <= c <= 'Z' || c == '-') ==> pid_in(
            content,
        ) is None,
        content.len() == 0 ==> pid_in(content) is None,
        n > u32::MAX ==> pid_in(text::decimal(n)) is None,
{
    if content.contains(c) && ('a' <= c <= 'z' || 'A' <= c <= 'Z' || c == '-') {
        lemma_trim_keeps(content, c);
        lemma_trim_keeps(trim_start(content), c);
        let s = trim_end(trim_start(content));
        let i = choose|i: int| 0 <= i < s.len() && s[i] == c;
        let digits = without_sign(s);
        if s[0] == '+' {
            assert(digits[i - 1] == c);
        } else {
            assert(digits[i] == c);
        }
    }
    let d = text::decimal(n);
    lemma_decimal_reads_back(n);
    assert('0' <= d[0] <= '9');
    assert('0' <= d[d.len() - 1] <= '9');
}

/// A lock that an instance has written is not taken without a look at that
/// instance, and one that is not wanted is left alone. A file that cannot be read,
/// is empty or holds no number is taken over.
pub proof fn law_lock_of_an_instance_is_probed(pid: u32, content: Seq<char>, c: char)
    ensures
        step_for(true, Some(text::decimal(pid as nat))) == LockStep::Probe(pid),
        step_for(true, Some(text::decimal(pid as nat) + seq!['\n'])) == LockStep::Probe(pid),
        step_for(false, Some(content)) == LockStep::Skip,
        step_for(false, None) == LockStep::Skip,
        step_for(true, None) == LockStep::Take,
        content.len() == 0 ==> step_for(true, Some(content)) == LockStep::Take,
        content.contains(c) && 'a' <= c <= 'z' ==> step_for(true, Some(content)) == LockStep::Take,
{
    law_pid_reads_back(pid);
    law_pid_is_found_among_blanks(Seq::empty(), pid, seq!['\n']);
    assert(Seq::<char>::empty() + text::decimal(pid as nat) + seq!['\n'] =~= text::decimal(
        pid as nat,
    ) + seq!['\n']);
    law_other_content_holds_no_pid(content, c, 0);
}

/// Digits with anything between them are no number, so a lock file that holds such
/// is taken over.
pub proof fn law_broken_number_is_no_pid(a: nat, c: char, b: nat)
    requires
        !('0' <= c <= '9'),
    ensures
        pid_in(text::decimal(a) + seq![c] + text::decimal(b)) is None,
{
    let x = text::decimal(a);
    let y = text::decimal(b);
    let s = x + seq![c] + y;
    lemma_decimal_reads_back(a);
    lemma_decimal_reads_back(b);
    assert('0' <= x[0] <= '9' && '0' <= y[y.len() - 1] <= '9');
    assert(s[0] == x[0] && s.last() == y.last());
    assert(s[x.len() as int] == c);
    assert(trim_start(s) == s);
    assert(trim_end(s) == s);
    assert(without_sign(s) == s);
    assert(!all_digits(s));
}

} // verus!
