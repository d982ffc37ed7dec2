//! Small verified helpers on strings and byte sequences.

use vstd::prelude::*;
use vstd::std_specs::iter::IteratorSpec;
use vstd::string::StringExecFns;
use vstd::utf8::*;

verus! {

/// Compares two string slices by content.
pub fn str_eq(a: &str, b: &str) -> (same: bool)
    ensures
        same == (a@ == b@),
{
    let x = a.as_bytes();
    let y = b.as_bytes();
    proof {
        encode_utf8_decode_utf8(a@);
        encode_utf8_decode_utf8(b@);
        assert(x@ == encode_utf8(a@));
        assert(y@ == encode_utf8(b@));
    }
    if x.len() != y.len() {
        return false;
    }
    let mut i: usize = 0;
    while i < x.len()
        invariant
            i <= x.len(),
            x.len() == y.len(),
            x@ == encode_utf8(a@),
            y@ == encode_utf8(b@),
            forall|j: int| 0 <= j < i ==> x@[j] == y@[j],
        decreases x.len() - i,
    {
        if x[i] != y[i] {
            assert(x@[i as int] != y@[i as int]);
            return false;
        }
        i += 1;
    }
    assert(x@ =~= y@);
    true
}

/// The last position at which `c` stands in `s`; -1 where it does not occur.
pub open spec fn last_index_of(s: Seq<char>, c: char) -> int
    decreases s.len(),
{
    if s.len() == 0 {
        -1
    } else if s.last() == c {
        s.len() - 1
    } else {
        last_index_of(s.drop_last(), c)
    }
}

/// The last occurrence of a character lies within the sequence and holds that
/// character; behind it the character does not occur.
pub proof fn lemma_last_index_of(s: Seq<char>, c: char)
    ensures
        -1 <= last_index_of(s, c) < s.len(),
        last_index_of(s, c) >= 0 ==> s[last_index_of(s, c)] == c,
        forall|j: int| last_index_of(s, c) < j < s.len() ==> s[j] != c,
    decreases s.len(),
{
    if s.len() > 0 && s.last() != c {
        lemma_last_index_of(s.drop_last(), c);
        assert forall|j: int| last_index_of(s, c) < j < s.len() implies s[j] != c by {
            if j < s.len() - 1 {
                assert(s.drop_last()[j] == s[j]);
            }
        }
    }
}

/// The extension of the file that a path names: what stands behind the last
/// dot of the last component, where that dot is not the component's first
/// character. Components are separated by `/`.
pub open spec fn extension_of(path: Seq<char>) -> Option<Seq<char>> {
    let start = last_index_of(path, '/') + 1;
    let dot = last_index_of(path, '.');
    if dot > start {
        Some(path.subrange(dot + 1, path.len() as int))
    } else {
        None
    }
}

/// The extension of the file that `path` names.
pub fn get_file_extension(path: &str) -> (ext: Option<&str>)
    ensures
        match ext {
            Some(e) => extension_of(path@) == Some(e@),
            None => extension_of(path@).is_none(),
        },
{
    broadcast use vstd::string::group_string_axioms;

    let n = path.unicode_len();
    let mut chars = path.chars();
    let mut start: usize = 0;
    let mut after_dot: usize = 0;
    let mut i: usize = 0;
    while i < n
        invariant
            i <= n,
            n == path@.len(),
            chars.remaining() == path@.skip(i as int),
            start == last_index_of(path@.take(i as int), '/') + 1,
            after_dot == last_index_of(path@.take(i as int), '.') + 1,
            start <= i,
            after_dot <= i,
        decreases n - i,
    {
        let ghost before = chars.remaining();
        let next = chars.next();
        proof {
            assert(before[0] == path@[i as int]);
            assert(path@.skip(i as int).drop_first() =~= path@.skip(i + 1));
            assert(path@.take(i + 1).drop_last() =~= path@.take(i as int));
            assert(path@.take(i + 1).last() == path@[i as int]);
        }
        match next {
            Some(c) => {
                if c == '/' {
                    start = i + 1;
                }
                if c == '.' {
                    after_dot = i + 1;
                }
            },
            None => {
                assert(false);
            },
        }
        i += 1;
    }
    assert(path@.take(n as int) =~= path@);
    if after_dot > start && after_dot - start > 1 {
        Some(path.substring_char(after_dot, n))
    } else {
        None
    }
}

/// `text` written `times` times in a row.
pub open spec fn repeated(text: Seq<char>, times: nat) -> Seq<char>
    decreases times,
{
    if times == 0 {
        Seq::empty()
    } else {
        repeated(text, (times - 1) as nat) + text
    }
}

/// Appends `text` to `line`, `times` times.
pub fn append_repeated(line: &mut String, text: &str, times: usize)
    ensures
        final(line)@ == old(line)@ + repeated(text@, times as nat),
{
    let ghost start = line@;
    let mut i: usize = 0;
    assert(line@ =~= start + repeated(text@, 0));
    while i < times
        invariant
            i <= times,
            line@ == start + repeated(text@, i as nat),
        decreases times - i,
    {
        line.append(text);
        assert(line@ =~= start + repeated(text@, (i + 1) as nat));
        i += 1;
    }
}

/// The character of a decimal digit.
pub open spec fn digit_char(d: int) -> char {
    if d == 0 {
        '0'
    } else if d == 1 {
        '1'
    } else if d == 2 {
        '2'
    } else if d == 3 {
        '3'
    } else if d == 4 {
        '4'
    } else if d == 5 {
        '5'
    } else if d == 6 {
        '6'
    } else if d == 7 {
        '7'
    } else if d == 8 {
        '8'
    } else {
        '9'
    }
}

/// The decimal digits of a number, without leading zeros.
pub open spec fn decimal(n: nat) -> Seq<char>
    decreases n,
{
    if n < 10 {
        seq![digit_char(n as int)]
    } else {
        decimal(n / 10).push(digit_char((n % 10) as int))
    }
}

/// The decimal digits of a number, in groups of three from the right with a
/// comma between the groups.
pub open spec fn separated(n: nat) -> Seq<char>
    decreases n,
{
    if n < 1000 {
        decimal(n)
    } else {
        separated(n / 1000) + seq![
            ',',
            digit_char((n % 1000) as int / 100),
            digit_char((n % 100) as int / 10),
            digit_char((n % 10) as int),
        ]
    }
}

fn digit_str(d: usize) -> (s: &'static str)
    requires
        d < 10,
    ensures
        s@ == seq![digit_char(d as int)],
{
    proof {
        reveal_strlit("0");
        reveal_strlit("1");
        reveal_strlit("2");
        reveal_strlit("3");
        reveal_strlit("4");
        reveal_strlit("5");
        reveal_strlit("6");
        reveal_strlit("7");
        reveal_strlit("8");
        reveal_strlit("9");
    }
    let s = if d == 0 {
        "0"
    } else if d == 1 {
        "1"
    } else if d == 2 {
        "2"
    } else if d == 3 {
        "3"
    } else if d == 4 {
        "4"
    } else if d == 5 {
        "5"
    } else if d == 6 {
        "6"
    } else if d == 7 {
        "7"
    } else if d == 8 {
        "8"
    } else {
        "9"
    };
    assert(s@ =~= seq![digit_char(d as int)]);
    s
}

/// A number in decimal digits.
pub fn decimal_string(n: usize) -> (s: String)
    ensures
        s@ == decimal(n as nat),
    decreases n,
{
    if n < 10 {
        String::from_str(digit_str(n))
    } else {
        let mut s = decimal_string(n / 10);
        s.append(digit_str(n % 10));
        assert(s@ =~= decimal(n as nat));
        s
    }
}

/// A number in decimal digits, with a comma before each group of three
/// digits but the first.
pub fn with_seperators(n: usize) -> (s: String)
    ensures
        s@ == separated(n as nat),
    decreases n,
{
    if n < 1000 {
        decimal_string(n)
    } else {
        let mut s = with_seperators(n / 1000);
        proof {
            reveal_strlit(",");
        }
        s.append(",");
        s.append(digit_str(n % 1000 / 100));
        s.append(digit_str(n % 100 / 10));
        s.append(digit_str(n % 10));
        assert(s@ =~= separated(n as nat));
        s
    }
}

} // verus!
