//! How the files of a segment are named: the id in decimal digits, a dot, and
//! `data` or `hint`.

use vstd::prelude::*;
use vstd::string::StrSliceExecFns;
use vstd::string::StringExecFns;

verus! {

/// Which of the two logs of a segment a file holds.
#[derive(Clone, Copy, Debug, PartialEq, Eq, Structural)]
pub enum FileKind {
    Data,
    Hint,
}

/// Whether `c` is one of `0` to `9`.
pub open spec fn is_digit(c: char) -> bool {
    48 <= c as u32 <= 57
}

/// The digit that stands for `d`, for `d` below 10.
pub open spec fn digit_char(d: nat) -> char {
    (48 + d) as u8 as char
}

/// Whether `s` is made of digits alone.
pub open spec fn all_digits(s: Seq<char>) -> bool {
    forall|i: int| 0 <= i < s.len() ==> is_digit(#[trigger] s[i])
}

/// The number that the digits of `s` write in base ten; leading zeros count
/// for nothing.
pub open spec fn decimal_value(s: Seq<char>) -> nat
    decreases s.len(),
{
    if s.len() == 0 {
        0
    } else {
        (decimal_value(s.drop_last()) * 10 + (s.last() as u32 - 48)) as nat
    }
}

/// `n` in base ten, without leading zeros.
pub open spec fn decimal_chars(n: nat) -> Seq<char>
    decreases n,
{
    if n < 10 {
        seq![digit_char(n)]
    } else {
        decimal_chars(n / 10).push(digit_char(n % 10))
    }
}

/// What follows the id in the name of a file of the given kind.
pub open spec fn suffix(kind: FileKind) -> Seq<char> {
    match kind {
        FileKind::Data => seq!['.', 'd', 'a', 't', 'a'],
        FileKind::Hint => seq!['.', 'h', 'i', 'n', 't'],
    }
}

/// The name of the file of segment `file_id` that holds the log of the given
/// kind.
pub open spec fn file_name(file_id: u32, kind: FileKind) -> Seq<char> {
    decimal_chars(file_id as nat) + suffix(kind)
}

/// Whether `s` writes a number the one way that `decimal_chars` writes it:
/// in digits, at least one, and without leading zeros.
pub open spec fn canonical(s: Seq<char>) -> bool {
    s.len() > 0 && all_digits(s) && (s.len() == 1 || s[0] as u32 != 48)
}

/// The segment and the kind of log that a file name stands for. A name
/// counts where it is a number without leading zeros, whose value fits in 32
/// bits, followed by `.data` or `.hint`: the name that the file of that
/// segment is given, and no other. Any other name stands for nothing.
pub open spec fn segment_name(name: Seq<char>) -> Option<(u32, FileKind)> {
    if name.len() > 5 {
        let stem = name.subrange(0, name.len() - 5);
        let ext = name.subrange(name.len() - 5, name.len() as int);
        if canonical(stem) && decimal_value(stem) <= u32::MAX {
            if ext == suffix(FileKind::Data) {
                Some((decimal_value(stem) as u32, FileKind::Data))
            } else if ext == suffix(FileKind::Hint) {
                Some((decimal_value(stem) as u32, FileKind::Hint))
            } else {
                None
            }
        } else {
            None
        }
    } else {
        None
    }
}

/// A longer run of digits writes no smaller number.
pub proof fn lemma_decimal_value_grows(s: Seq<char>, n: int)
    requires
        all_digits(s),
        0 <= n <= s.len(),
    ensures
        decimal_value(s.take(n)) <= decimal_value(s),
    decreases s.len() - n,
{
    if n < s.len() {
        lemma_decimal_value_grows(s, n + 1);
        assert(s.take(n + 1).drop_last() =~= s.take(n));
        assert(is_digit(s[n]));
        assert(s.take(n + 1).last() == s[n]);
    } else {
        assert(s.take(n) =~= s);
    }
}

/// The digits of a number write that number, without leading zeros.
pub proof fn lemma_decimal_chars(n: nat)
    ensures
        decimal_chars(n).len() > 0,
        all_digits(decimal_chars(n)),
        decimal_value(decimal_chars(n)) == n,
        canonical(decimal_chars(n)),
        n >= 10 ==> decimal_chars(n).len() > 1,
    decreases n,
{
    if n < 10 {
        let s = decimal_chars(n);
        assert(s.drop_last() =~= Seq::<char>::empty());
        assert(decimal_value(s.drop_last()) == 0);
        assert(s.last() == digit_char(n));
    } else {
        lemma_decimal_chars(n / 10);
        let s = decimal_chars(n);
        let front = decimal_chars(n / 10);
        assert(s.drop_last() =~= front);
        assert(s.last() == digit_char(n % 10));
        assert(s[0] == front[0]);
        if front.len() == 1 {
            // a single digit that writes n / 10, which is not zero
            assert(front.drop_last() =~= Seq::<char>::empty());
            assert(decimal_value(front.drop_last()) == 0);
            assert(front.last() == front[0]);
        }
    }
}

/// A number that is written without leading zeros and with more than one
/// digit is ten or more.
pub proof fn lemma_canonical_value(s: Seq<char>)
    requires
        canonical(s),
    ensures
        s.len() > 1 ==> decimal_value(s) >= 10,
        s.len() == 1 ==> decimal_value(s) < 10,
        s.len() > 1 || s[0] as u32 != 48 ==> decimal_value(s) >= 1,
    decreases s.len(),
{
    let front = s.drop_last();
    assert(is_digit(s[s.len() - 1]));
    if s.len() == 1 {
        assert(front =~= Seq::<char>::empty());
        assert(decimal_value(front) == 0);
    } else {
        assert(front[0] == s[0]);
        assert forall|i: int| 0 <= i < front.len() implies is_digit(#[trigger] front[i]) by {
            assert(front[i] == s[i]);
        }
        lemma_canonical_value(front);
    }
}

/// There is one way to write a number without leading zeros: the way of
/// `decimal_chars`.
pub proof fn lemma_canonical_is_decimal_chars(s: Seq<char>)
    requires
        canonical(s),
    ensures
        decimal_chars(decimal_value(s)) == s,
    decreases s.len(),
{
    let front = s.drop_last();
    let last = s[s.len() - 1];
    assert(is_digit(last));
    let digit = (last as u32 - 48) as nat;
    assert(digit_char(digit) == last) by {
        vstd::utf8::char_u32_cast(last, last as u32);
        assert((48 + digit) as u8 == last as u32);
    }
    lemma_canonical_value(s);
    if s.len() == 1 {
        assert(front =~= Seq::<char>::empty());
        assert(decimal_value(front) == 0);
        assert(decimal_chars(decimal_value(s)) =~= s);
    } else {
        assert(front[0] == s[0]);
        assert forall|i: int| 0 <= i < front.len() implies is_digit(#[trigger] front[i]) by {
            assert(front[i] == s[i]);
        }
        lemma_canonical_value(front);
        lemma_canonical_is_decimal_chars(front);
        let n = decimal_value(s);
        assert(n == decimal_value(front) * 10 + digit);
        assert(n / 10 == decimal_value(front));
        assert(n % 10 == digit);
        assert(decimal_chars(n) =~= s);
    }
}

/// A name that stands for a segment file is the name that this file is
/// given: no two names stand for the same file.
pub proof fn law_segment_name_is_file_name(name: Seq<char>)
    requires
        segment_name(name) is Some,
    ensures
        name == file_name(segment_name(name).unwrap().0, segment_name(name).unwrap().1),
{
    let stem = name.subrange(0, name.len() - 5);
    let ext = name.subrange(name.len() - 5, name.len() as int);
    lemma_canonical_is_decimal_chars(stem);
    assert(name =~= stem + ext);
}

/// The name that a file of a segment is given is read back as that segment
/// and that kind.
pub proof fn lemma_file_name_parses(file_id: u32, kind: FileKind)
    ensures
        segment_name(file_name(file_id, kind)) == Some((file_id, kind)),
{
    lemma_decimal_chars(file_id as nat);
    let name = file_name(file_id, kind);
    let digits = decimal_chars(file_id as nat);
    assert(name.subrange(0, name.len() - 5) =~= digits);
    assert(name.subrange(name.len() - 5, name.len() as int) =~= suffix(kind));
    assert(suffix(FileKind::Data)[1] != suffix(FileKind::Hint)[1]);
}

/// Reads a run of digits as a number; `None` where the run is empty, holds
/// anything but digits, or writes a number that does not fit in 32 bits.
pub fn parse_decimal(name: &str, len: usize) -> (out: Option<u32>)
    requires
        len <= name@.len(),
    ensures
        out == if len > 0 && all_digits(name@.take(len as int)) && decimal_value(
            name@.take(len as int),
        ) <= u32::MAX {
            Some(decimal_value(name@.take(len as int)) as u32)
        } else {
            None
        },
{
    if len == 0 {
        return None;
    }
    let ghost stem = name@.take(len as int);
    let mut acc: u64 = 0;
    let mut i: usize = 0;
    while i < len
        invariant
            i <= len <= name@.len(),
            stem == name@.take(len as int),
            all_digits(stem.take(i as int)),
            acc == decimal_value(stem.take(i as int)),
            acc <= u32::MAX,
        decreases len - i,
    {
        let c = name.get_char(i);
        let code = c as u32;
        assert(stem[i as int] == c);
        assert(stem.take(i + 1).drop_last() =~= stem.take(i as int));
        assert(stem.take(i + 1).last() == c);
        if code < 48 || code > 57 {
            assert(!is_digit(stem[i as int]));
            return None;
        }
        assert(all_digits(stem.take(i + 1))) by {
            assert forall|j: int| 0 <= j < i + 1 implies is_digit(#[trigger] stem.take(i + 1)[j]) by {
                if j < i {
                    assert(stem.take(i as int)[j] == stem.take(i + 1)[j]);
                }
            }
        }
        let next = acc * 10 + (code - 48) as u64;
        if next > u32::MAX as u64 {
            proof {
                if all_digits(stem) {
                    lemma_decimal_value_grows(stem, i + 1);
                }
            }
            return None;
        }
        acc = next;
        i = i + 1;
    }
    assert(stem.take(len as int) =~= stem);
    Some(acc as u32)
}

/// Reads a file name: the segment and the kind of log that it stands for, or
/// `None` for a name that is not that of a segment file.
pub fn parse_segment_name(name: &str) -> (out: Option<(u32, FileKind)>)
    ensures
        out == segment_name(name@),
{
    let len = name.unicode_len();
    if len <= 5 {
        return None;
    }
    let stem_len = len - 5;
    let ghost ext = name@.subrange(len - 5, len as int);
    assert(name@.subrange(0, len - 5) =~= name@.take(stem_len as int));
    if name.get_char(stem_len) != '.' {
        assert(ext[0] != '.');
        return None;
    }
    let c1 = name.get_char(stem_len + 1);
    let c2 = name.get_char(stem_len + 2);
    let c3 = name.get_char(stem_len + 3);
    let c4 = name.get_char(stem_len + 4);
    assert(ext[0] == '.' && ext[1] == c1 && ext[2] == c2 && ext[3] == c3 && ext[4] == c4);
    let kind = if c1 == 'd' && c2 == 'a' && c3 == 't' && c4 == 'a' {
        assert(ext =~= suffix(FileKind::Data));
        FileKind::Data
    } else if c1 == 'h' && c2 == 'i' && c3 == 'n' && c4 == 't' {
        assert(ext =~= suffix(FileKind::Hint));
        assert(suffix(FileKind::Data)[1] != suffix(FileKind::Hint)[1]);
        FileKind::Hint
    } else {
        assert(suffix(FileKind::Data)[1] == 'd' && suffix(FileKind::Data)[2] == 'a' && suffix(
            FileKind::Data,
        )[3] == 't' && suffix(FileKind::Data)[4] == 'a');
        assert(suffix(FileKind::Hint)[1] == 'h' && suffix(FileKind::Hint)[2] == 'i' && suffix(
            FileKind::Hint,
        )[3] == 'n' && suffix(FileKind::Hint)[4] == 't');
        return None;
    };
    if stem_len > 1 && name.get_char(0) == '0' {
        assert(name@.take(stem_len as int)[0] == name@[0]);
        return None;
    }
    assert(name@.take(stem_len as int)[0] == name@[0]);
    match parse_decimal(name, stem_len) {
        Some(file_id) => Some((file_id, kind)),
        None => None,
    }
}

fn digit_str(d: u32) -> (s: &'static str)
    requires
        d < 10,
    ensures
        s@ == seq![digit_char(d as nat)],
{
    proof {
        reveal_strlit("0");
        reveal_strlit("1");
        reveal_strlit("2");
        reveal_strlit("3");
        reveal_strlit("4");
        reveal_strlit("5");
        reveal_strlit("6");
        reveal_strlit("7");
        reveal_strlit("8");
        reveal_strlit("9");
    }
    let s = if d == 0 {
        "0"
    } else if d == 1 {
        "1"
    } else if d == 2 {
        "2"
    } else if d == 3 {
        "3"
    } else if d == 4 {
        "4"
    } else if d == 5 {
        "5"
    } else if d == 6 {
        "6"
    } else if d == 7 {
        "7"
    } else if d == 8 {
        "8"
    } else {
        "9"
    };
    assert(s@ =~= seq![digit_char(d as nat)]);
    s
}

/// Appends `n` in base ten, without leading zeros.
pub fn push_decimal(out: &mut String, n: u32)
    ensures
        final(out)@ == old(out)@ + decimal_chars(n as nat),
    decreases n,
{
    if n >= 10 {
        push_decimal(out, n / 10);
    }
    out.append(digit_str(n % 10));
    assert(out@ =~= old(out)@ + decimal_chars(n as nat));
}

/// The name of the file of segment `file_id` that holds the log of the given
/// kind: `7.data` for the data log of segment 7.
pub fn segment_file_name(file_id: u32, kind: FileKind) -> (name: String)
    ensures
        name@ == file_name(file_id, kind),
        segment_name(name@) == Some((file_id, kind)),
{
    proof {
        reveal_strlit(".data");
        reveal_strlit(".hint");
        lemma_file_name_parses(file_id, kind);
    }
    let mut name = String::new();
    push_decimal(&mut name, file_id);
    match kind {
        FileKind::Data => {
            name.append(".data");
        },
        FileKind::Hint => {
            name.append(".hint");
        },
    }
    assert(name@ =~= file_name(file_id, kind));
    name
}

} // verus!
