//! Small helpers on text.

use vstd::prelude::*;
use vstd::string::{StrSliceExecFns, StringExecFns};

verus! {

/// Whether two texts are the same.
pub fn same_text(a: &str, b: &str) -> (out: bool)
    ensures
        out == (a@ == b@),
{
    a.to_owned() == b.to_owned()
}

/// The decimal digit of a number below ten.
pub open spec fn digit(n: nat) -> char {
    if n == 0 {
        '0'
    } else if n == 1 {
        '1'
    } else if n == 2 {
        '2'
    } else if n == 3 {
        '3'
    } else if n == 4 {
        '4'
    } else if n == 5 {
        '5'
    } else if n == 6 {
        '6'
    } else if n == 7 {
        '7'
    } else if n == 8 {
        '8'
    } else {
        '9'
    }
}

/// The decimal digits of a number, without leading zeroes.
pub open spec fn digits(n: nat) -> Seq<char>
    decreases n,
{
    if n < 10 {
        seq![digit(n)]
    } else {
        digits(n / 10).push(digit(n % 10))
    }
}

/// The text of one decimal digit.
fn digit_text(n: u64) -> (out: &'static str)
    requires
        n < 10,
    ensures
        out@ == seq![digit(n as nat)],
{
    proof {
        reveal_strlit("0");
        reveal_strlit("1");
        reveal_strlit("2");
        reveal_strlit("3");
        reveal_strlit("4");
        reveal_strlit("5");
        reveal_strlit("6");
        reveal_strlit("7");
        reveal_strlit("8");
        reveal_strlit("9");
    }
    let out: &'static str = if n == 0 {
        "0"
    } else if n == 1 {
        "1"
    } else if n == 2 {
        "2"
    } else if n == 3 {
        "3"
    } else if n == 4 {
        "4"
    } else if n == 5 {
        "5"
    } else if n == 6 {
        "6"
    } else if n == 7 {
        "7"
    } else if n == 8 {
        "8"
    } else {
        "9"
    };
    assert(out@ =~= seq![digit(n as nat)]);
    out
}

/// A number in decimal.
pub fn decimal(n: u64) -> (out: String)
    ensures
        out@ == digits(n as nat),
    decreases n,
{
    if n < 10 {
        digit_text(n).to_owned()
    } else {
        let head: String = decimal(n / 10);
        let out: String = head.concat(digit_text(n % 10));
        assert(out@ =~= digits(n as nat));
        out
    }
}

/// Every number has digits, and no two numbers have the same.
pub proof fn law_digits(m: nat, n: nat)
    ensures
        digits(m).len() > 0,
        digits(m) == digits(n) ==> m == n,
    decreases m + n,
{
    if m < 10 {
        if n >= 10 {
            law_digits(n / 10, n / 10);
            assert(digits(n).len() == digits(n / 10).len() + 1);
        } else {
            assert(digits(m)[0] == digit(m));
            assert(digits(n)[0] == digit(n));
        }
    } else {
        law_digits(m / 10, n / 10);
        if digits(m) == digits(n) {
            if n < 10 {
                assert(digits(m).len() == digits(m / 10).len() + 1);
            } else {
                assert(digits(m).drop_last() =~= digits(m / 10));
                assert(digits(n).drop_last() =~= digits(n / 10));
                assert(digits(m).last() == digit(m % 10));
                assert(digits(n).last() == digit(n % 10));
            }
        }
    }
}

/// A signed number in decimal.
pub open spec fn signed_digits(n: int) -> Seq<char> {
    if n < 0 {
        "-"@ + digits((-n) as nat)
    } else {
        digits(n as nat)
    }
}

/// A signed number in decimal.
pub fn signed_decimal(n: i64) -> (out: String)
    ensures
        out@ == signed_digits(n as int),
{
    if n >= 0 {
        decimal(n as u64)
    } else {
        let size: u64 = if n == i64::MIN {
            0x8000_0000_0000_0000
        } else {
            (-n) as u64
        };
        let mut out: String = "-".to_owned();
        out.append(&decimal(size));
        out
    }
}

/// The lower case of an ASCII letter; any other character as it is.
pub open spec fn ascii_lower(c: char) -> char {
    if 'A' <= c && c <= 'Z' {
        ((c as u32) + 32) as char
    } else {
        c
    }
}

/// The upper case of an ASCII letter; any other character as it is.
pub open spec fn ascii_upper(c: char) -> char {
    if 'a' <= c && c <= 'z' {
        ((c as u32) - 32) as char
    } else {
        c
    }
}

/// Whether every character of a text is ASCII.
pub open spec fn all_ascii(t: Seq<char>) -> bool {
    forall|i: int| 0 <= i < t.len() ==> (#[trigger] t[i]) as u32 <= 127
}

/// A text in lower case.
pub uninterp spec fn lowercase(t: Seq<char>) -> Seq<char>;

/// A text in upper case.
pub uninterp spec fn uppercase(t: Seq<char>) -> Seq<char>;

/// `str::to_lowercase`. On ASCII text it maps each character by itself; what Unicode
/// makes of other text is only named.
#[verifier::external_body]
pub(crate) fn to_lowercase(t: &str) -> (out: String)
    ensures
        out@ == lowercase(t@),
        all_ascii(t@) ==> out@ == Seq::new(t@.len(), |i: int| ascii_lower(t@[i])),
{
    t.to_lowercase()
}

/// `str::to_uppercase`. On ASCII text it maps each character by itself; what Unicode
/// makes of other text is only named.
#[verifier::external_body]
pub(crate) fn to_uppercase(t: &str) -> (out: String)
    ensures
        out@ == uppercase(t@),
        all_ascii(t@) ==> out@ == Seq::new(t@.len(), |i: int| ascii_upper(t@[i])),
{
    t.to_uppercase()
}

/// The characters that Unicode counts as white space.
pub open spec fn is_white(c: char) -> bool {
    ||| 0x9 <= c as u32 <= 0xd
    ||| c as u32 == 0x20
    ||| c as u32 == 0x85
    ||| c as u32 == 0xa0
    ||| c as u32 == 0x1680
    ||| 0x2000 <= c as u32 <= 0x200a
    ||| c as u32 == 0x2028
    ||| c as u32 == 0x2029
    ||| c as u32 == 0x202f
    ||| c as u32 == 0x205f
    ||| c as u32 == 0x3000
}

fn white(c: char) -> (out: bool)
    ensures
        out == is_white(c),
{
    let n: u32 = c as u32;
    (0x9 <= n && n <= 0xd) || n == 0x20 || n == 0x85 || n == 0xa0 || n == 0x1680 || (0x2000 <= n
        && n <= 0x200a) || n == 0x2028 || n == 0x2029 || n == 0x202f || n == 0x205f || n == 0x3000
}

/// A text without the white space at its start.
pub open spec fn trimmed_start(t: Seq<char>) -> Seq<char>
    decreases t.len(),
{
    if t.len() > 0 && is_white(t[0]) {
        trimmed_start(t.subrange(1, t.len() as int))
    } else {
        t
    }
}

/// A text without the white space at its end.
pub open spec fn trimmed_end(t: Seq<char>) -> Seq<char>
    decreases t.len(),
{
    if t.len() > 0 && is_white(t.last()) {
        trimmed_end(t.drop_last())
    } else {
        t
    }
}

/// A text without the white space at its ends.
pub open spec fn trimmed(t: Seq<char>) -> Seq<char> {
    trimmed_end(trimmed_start(t))
}

/// A text without the white space at its ends.
pub fn trim(t: &str) -> (out: &str)
    ensures
        out@ == trimmed(t@),
{
    let n: usize = t.unicode_len();
    let mut from: usize = 0;
    proof {
        assert(t@.subrange(0, n as int) =~= t@);
    }
    while from < n && white(t.get_char(from))
        invariant
            from <= n,
            n == t@.len(),
            trimmed_start(t@.subrange(from as int, n as int)) == trimmed_start(t@),
        decreases n - from,
    {
        proof {
            let rest = t@.subrange(from as int, n as int);
            assert(rest.subrange(1, rest.len() as int) =~= t@.subrange(from + 1, n as int));
        }
        from = from + 1;
    }
    let ghost start = t@.subrange(from as int, n as int);
    assert(trimmed_start(t@) == start);
    let mut to: usize = n;
    while to > from && white(t.get_char(to - 1))
        invariant
            from <= to <= n,
            n == t@.len(),
            trimmed_end(t@.subrange(from as int, to as int)) == trimmed(t@),
        decreases to,
    {
        proof {
            let rest = t@.subrange(from as int, to as int);
            assert(rest.drop_last() =~= t@.subrange(from as int, to - 1));
        }
        to = to - 1;
    }
    t.substring_char(from, to)
}

/// Whether two texts are the same but for the case of ASCII letters.
pub open spec fn same_but_for_case(a: Seq<char>, b: Seq<char>) -> bool {
    a.len() == b.len() && forall|i: int|
        0 <= i < a.len() ==> ascii_lower(#[trigger] a[i]) == ascii_lower(b[i])
}

fn lower(c: char) -> (out: u32)
    ensures
        out == ascii_lower(c) as u32,
{
    let n: u32 = c as u32;
    if 65 <= n && n <= 90 {
        n + 32
    } else {
        n
    }
}

/// Whether two texts are the same but for the case of ASCII letters.
pub fn eq_ignore_ascii_case(a: &str, b: &str) -> (out: bool)
    ensures
        out == same_but_for_case(a@, b@),
{
    let n: usize = a.unicode_len();
    if n != b.unicode_len() {
        return false;
    }
    let mut i: usize = 0;
    while i < n
        invariant
            i <= n,
            n == a@.len(),
            n == b@.len(),
            forall|j: int| 0 <= j < i ==> ascii_lower(#[trigger] a@[j]) == ascii_lower(b@[j]),
        decreases n - i,
    {
        if lower(a.get_char(i)) != lower(b.get_char(i)) {
            assert(ascii_lower(a@[i as int]) != ascii_lower(b@[i as int]));
            return false;
        }
        assert(ascii_lower(a@[i as int]) == ascii_lower(b@[i as int]));
        i = i + 1;
    }
    true
}

/// The number that decimal digits stand for.
pub open spec fn number_read(t: Seq<char>) -> int
    decreases t.len(),
{
    if t.len() == 0 {
        0
    } else {
        number_read(t.drop_last()) * 10 + (t.last() as u32 - '0' as u32)
    }
}

/// The digits of a number read as that number, without a zero in front of a longer one.
pub proof fn law_digits_read_as_their_number(n: nat)
    ensures
        number_read(digits(n)) == n,
        digits(n).len() > 1 ==> digits(n)[0] != '0',
    decreases n,
{
    reveal_with_fuel(number_read, 2);
    if n >= 10 {
        law_digits_read_as_their_number(n / 10);
        law_digits(n / 10, n / 10);
        assert(digits(n).drop_last() =~= digits(n / 10));
        assert(digits(n)[0] == digits(n / 10)[0]);
    } else {
        assert(digits(n).drop_last() =~= Seq::empty());
    }
}

/// Trimming takes away white space at both ends only: what stays starts and ends with none,
/// and all that went in front of it and behind it is white.
pub proof fn law_trimmed(t: Seq<char>) -> (cut: (int, int))
    ensures
        0 <= cut.0 <= cut.1 <= t.len(),
        trimmed(t) == t.subrange(cut.0, cut.1),
        forall|i: int| 0 <= i < cut.0 || cut.1 <= i < t.len() ==> is_white(#[trigger] t[i]),
        trimmed(t).len() > 0 ==> !is_white(trimmed(t)[0]) && !is_white(trimmed(t).last()),
{
    let a = lemma_trimmed_start(t);
    let rest = trimmed_start(t);
    let b = lemma_trimmed_end(rest);
    assert(trimmed(t) =~= t.subrange(a, a + b));
    assert forall|i: int| 0 <= i < a || a + b <= i < t.len() implies is_white(#[trigger] t[i]) by {
        if i >= a + b {
            assert(rest[i - a] == t[i]);
        }
    }
    if b > 0 {
        assert(trimmed(t)[0] == rest[0]);
    }
    (a, a + b)
}

proof fn lemma_trimmed_start(t: Seq<char>) -> (k: int)
    ensures
        0 <= k <= t.len(),
        trimmed_start(t) == t.subrange(k, t.len() as int),
        forall|i: int| 0 <= i < k ==> is_white(#[trigger] t[i]),
        k < t.len() ==> !is_white(t[k]),
    decreases t.len(),
{
    if t.len() > 0 && is_white(t[0]) {
        let rest = t.subrange(1, t.len() as int);
        let k = lemma_trimmed_start(rest) + 1;
        assert(rest.subrange(k - 1, rest.len() as int) =~= t.subrange(k, t.len() as int));
        assert forall|i: int| 0 <= i < k implies is_white(#[trigger] t[i]) by {
            if i > 0 {
                assert(rest[i - 1] == t[i]);
            }
        }
        if k < t.len() {
            assert(rest[k - 1] == t[k]);
        }
        k
    } else {
        assert(t.subrange(0, t.len() as int) =~= t);
        0
    }
}

proof fn lemma_trimmed_end(t: Seq<char>) -> (k: int)
    ensures
        0 <= k <= t.len(),
        trimmed_end(t) == t.subrange(0, k),
        forall|i: int| k <= i < t.len() ==> is_white(#[trigger] t[i]),
        k > 0 ==> !is_white(t[k - 1]),
    decreases t.len(),
{
    if t.len() > 0 && is_white(t.last()) {
        let rest = t.drop_last();
        let k = lemma_trimmed_end(rest);
        assert(rest.subrange(0, k) =~= t.subrange(0, k));
        assert forall|i: int| k <= i < t.len() implies is_white(#[trigger] t[i]) by {
            if i < rest.len() {
                assert(rest[i] == t[i]);
            }
        }
        if k > 0 {
            assert(rest[k - 1] == t[k - 1]);
        }
        k
    } else {
        assert(t.subrange(0, t.len() as int) =~= t);
        t.len() as int
    }
}

/// Upper and lower case undo one another on letters, and leave all else as it is.
pub proof fn law_case(c: char)
    ensures
        'a' <= c <= 'z' ==> ascii_lower(ascii_upper(c)) == c && ascii_upper(c) != c
            && ascii_lower(c) == c,
        'A' <= c <= 'Z' ==> ascii_upper(ascii_lower(c)) == c && ascii_lower(c) != c
            && ascii_upper(c) == c,
        !('a' <= c <= 'z') && !('A' <= c <= 'Z') ==> ascii_lower(c) == c && ascii_upper(c) == c,
        'A' <= c <= 'Z' ==> ascii_lower(c) as u32 - 'a' as u32 == c as u32 - 'A' as u32,
{
}

/// Texts that are the same but for case stay so in whatever case their letters are written.
pub proof fn law_same_but_for_case(a: Seq<char>, b: Seq<char>)
    ensures
        same_but_for_case(a, b) <==> a.len() == b.len() && (forall|i: int|
            0 <= i < a.len() ==> #[trigger] a[i] == b[i] || a[i] == ascii_upper(b[i]) || b[i]
                == ascii_upper(a[i])),
{
    assert forall|i: int| 0 <= i < a.len() && a.len() == b.len() implies (ascii_lower(
        #[trigger] a[i],
    ) == ascii_lower(b[i]) <==> a[i] == b[i] || a[i] == ascii_upper(b[i]) || b[i] == ascii_upper(
        a[i],
    )) by {
        law_case(a[i]);
        law_case(b[i]);
    }
}

} // verus!
