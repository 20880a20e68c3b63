//! Small text-building helpers shared by the command parser, the renderer
//! and the message lines: characters, decimal numbers, padding and color
//! names.
use vstd::prelude::*;
use vstd::string::{StrSliceExecFns, StringExecFns};
use crate::board::Color;

verus! {

/// `String::push`: the contract claims that the text grows by exactly the
/// character `c` at its end.
#[verifier::external_body]
pub(crate) fn push_char(s: &mut String, c: char)
    ensures
        final(s)@ == old(s)@.push(c),
{
    s.push(c);
}

/// Appends a string slice.
pub fn push_str(s: &mut String, t: &str)
    ensures
        final(s)@ == old(s)@ + t@,
{
    s.append(t);
}

/// Appends a whole `String`.
pub fn push_string(s: &mut String, t: &String)
    ensures
        final(s)@ == old(s)@ + t@,
{
    s.append(t.as_str());
}

/// A new string holding `t`.
pub fn text(t: &str) -> (s: String)
    ensures
        s@ == t@,
{
    String::from_str(t)
}

/// The decimal digit character for `d < 10`.
pub open spec fn digit_char(d: int) -> char {
    if d == 0 {
        '0'
    } else if d == 1 {
        '1'
    } else if d == 2 {
        '2'
    } else if d == 3 {
        '3'
    } else if d == 4 {
        '4'
    } else if d == 5 {
        '5'
    } else if d == 6 {
        '6'
    } else if d == 7 {
        '7'
    } else if d == 8 {
        '8'
    } else {
        '9'
    }
}

/// The decimal notation of `n`, without leading zeros.
pub open spec fn decimal(n: nat) -> Seq<char>
    decreases n,
{
    if n < 10 {
        seq![digit_char(n as int)]
    } else {
        decimal(n / 10).push(digit_char((n % 10) as int))
    }
}

/// `n` right-aligned in a field of two characters.
pub open spec fn right2(n: nat) -> Seq<char> {
    if n < 10 {
        seq![' '] + decimal(n)
    } else {
        decimal(n)
    }
}

/// `n` left-aligned in a field of two characters.
pub open spec fn left2(n: nat) -> Seq<char> {
    if n < 10 {
        decimal(n) + seq![' ']
    } else {
        decimal(n)
    }
}

/// `n` (below 100) centered in a field of `width` characters, the odd
/// space going to the right.
pub open spec fn centered(n: nat, width: nat) -> Seq<char> {
    let d = decimal(n);
    let pad = width - d.len();
    let left = pad / 2;
    Seq::new(left as nat, |i: int| ' ') + d + Seq::new((pad - left) as nat, |i: int| ' ')
}

fn digit(d: u64) -> (c: char)
    requires
        d < 10,
    ensures
        c == digit_char(d as int),
{
    if d == 0 {
        '0'
    } else if d == 1 {
        '1'
    } else if d == 2 {
        '2'
    } else if d == 3 {
        '3'
    } else if d == 4 {
        '4'
    } else if d == 5 {
        '5'
    } else if d == 6 {
        '6'
    } else if d == 7 {
        '7'
    } else if d == 8 {
        '8'
    } else {
        '9'
    }
}

/// Appends the decimal notation of `n`.
pub fn push_decimal(s: &mut String, n: u64)
    ensures
        final(s)@ == old(s)@ + decimal(n as nat),
    decreases n,
{
    if n >= 10 {
        push_decimal(s, n / 10);
    }
    push_char(s, digit(n % 10));
    proof {
        if n >= 10 {
            assert(decimal(n as nat) == decimal((n / 10) as nat).push(digit_char((n % 10) as int)));
        }
    }
}

/// The decimal notation of `n`.
pub fn decimal_string(n: u64) -> (s: String)
    ensures
        s@ == decimal(n as nat),
{
    let mut s = String::new();
    push_decimal(&mut s, n);
    proof {
        assert(Seq::<char>::empty() + decimal(n as nat) =~= decimal(n as nat));
    }
    s
}

/// The decimal notation of a number below 100 has one or two digits.
pub proof fn lemma_decimal_len(n: nat)
    requires
        n < 100,
    ensures
        decimal(n).len() == if n < 10 {
            1nat
        } else {
            2nat
        },
{
    if n >= 10 {
        assert(decimal(n / 10).len() == 1);
    }
}

/// Appends `n` right-aligned in two characters.
pub fn push_right2(s: &mut String, n: u64)
    requires
        n < 100,
    ensures
        final(s)@ == old(s)@ + right2(n as nat),
{
    if n < 10 {
        push_char(s, ' ');
    }
    push_decimal(s, n);
    proof {
        if n < 10 {
            assert(old(s)@.push(' ') + decimal(n as nat) =~= old(s)@ + right2(n as nat));
        }
    }
}

/// Appends `n` left-aligned in two characters.
pub fn push_left2(s: &mut String, n: u64)
    requires
        n < 100,
    ensures
        final(s)@ == old(s)@ + left2(n as nat),
{
    push_decimal(s, n);
    if n < 10 {
        push_char(s, ' ');
    }
    proof {
        if n < 10 {
            assert((old(s)@ + decimal(n as nat)).push(' ') =~= old(s)@ + left2(n as nat));
        }
    }
}

/// Appends `k` spaces.
pub fn push_spaces(s: &mut String, k: usize)
    ensures
        final(s)@ == old(s)@ + Seq::new(k as nat, |i: int| ' '),
{
    let ghost start = s@;
    let mut j: usize = 0;
    while j < k
        invariant
            j <= k,
            s@ == start + Seq::new(j as nat, |i: int| ' '),
        decreases k - j,
    {
        push_char(s, ' ');
        j = j + 1;
        proof {
            assert(start + Seq::new(j as nat, |i: int| ' ') =~= (start + Seq::new((j - 1) as nat, |i: int| ' ')).push(' '));
        }
    }
}

/// Appends `n` centered in a field of `width` characters.
pub fn push_centered(s: &mut String, n: u64, width: usize)
    requires
        n < 100,
        2 <= width <= 8,
    ensures
        final(s)@ == old(s)@ + centered(n as nat, width as nat),
{
    proof {
        lemma_decimal_len(n as nat);
    }
    let len: usize = if n < 10 {
        1
    } else {
        2
    };
    let pad = width - len;
    let left = pad / 2;
    let ghost s0 = s@;
    push_spaces(s, left);
    push_decimal(s, n);
    push_spaces(s, pad - left);
    proof {
        assert(s@ =~= s0 + centered(n as nat, width as nat));
    }
}

/// The name of a color as the messages spell it.
pub open spec fn color_word(c: Color) -> Seq<char> {
    match c {
        Color::Black => "Black"@,
        Color::White => "White"@,
    }
}

/// The name of a color as the messages spell it.
pub fn color_name(c: Color) -> (s: &'static str)
    ensures
        s@ == color_word(c),
{
    match c {
        Color::Black => "Black",
        Color::White => "White",
    }
}


/// Unicode's `White_Space` property: the 25 code points that `str::trim`
/// removes.
pub open spec fn is_white_space(c: char) -> bool {
    let n = c as u32;
    ||| 0x9 <= n <= 0xd
    ||| n == 0x20
    ||| n == 0x85
    ||| n == 0xa0
    ||| n == 0x1680
    ||| 0x2000 <= n <= 0x200a
    ||| n == 0x2028
    ||| n == 0x2029
    ||| n == 0x202f
    ||| n == 0x205f
    ||| n == 0x3000
}

/// A text without its leading white space.
pub open spec fn trim_start(s: Seq<char>) -> Seq<char>
    decreases s.len(),
{
    if s.len() > 0 && is_white_space(s[0]) {
        trim_start(s.drop_first())
    } else {
        s
    }
}

/// A text without its trailing white space.
pub open spec fn trim_end(s: Seq<char>) -> Seq<char>
    decreases s.len(),
{
    if s.len() > 0 && is_white_space(s.last()) {
        trim_end(s.drop_last())
    } else {
        s
    }
}

/// What `str::trim` leaves of a text: leading and trailing white space
/// removed.
pub open spec fn trimmed(s: Seq<char>) -> Seq<char> {
    trim_end(trim_start(s))
}

/// The character is white space.
fn white_space(c: char) -> (b: bool)
    ensures
        b == is_white_space(c),
{
    let n = c as u32;
    (0x9 <= n && n <= 0xd) || n == 0x20 || n == 0x85 || n == 0xa0 || n == 0x1680 || (0x2000 <= n
        && n <= 0x200a) || n == 0x2028 || n == 0x2029 || n == 0x202f || n == 0x205f || n == 0x3000
}

/// The text with leading and trailing white space removed, as `str::trim`
/// gives it.
pub(crate) fn trim_text(s: &str) -> (r: String)
    ensures
        r@ == trimmed(s@),
{
    let n = s.unicode_len();
    let mut lo: usize = 0;
    proof {
        assert(s@.subrange(0, n as int) =~= s@);
    }
    while lo < n && white_space(s.get_char(lo))
        invariant
            lo <= n,
            n == s@.len(),
            trim_start(s@) == trim_start(s@.subrange(lo as int, n as int)),
        decreases n - lo,
    {
        proof {
            let sub = s@.subrange(lo as int, n as int);
            assert(sub[0] == s@[lo as int]);
            assert(sub.drop_first() =~= s@.subrange(lo + 1, n as int));
        }
        lo = lo + 1;
    }
    proof {
        let sub = s@.subrange(lo as int, n as int);
        if lo < n {
            assert(sub[0] == s@[lo as int]);
        } else {
            assert(sub.len() == 0);
        }
        assert(trim_start(s@) == sub);
    }
    let mut hi: usize = n;
    while hi > lo && white_space(s.get_char(hi - 1))
        invariant
            lo <= hi <= n,
            n == s@.len(),
            trim_start(s@) == s@.subrange(lo as int, n as int),
            trimmed(s@) == trim_end(s@.subrange(lo as int, hi as int)),
        decreases hi - lo,
    {
        proof {
            let sub = s@.subrange(lo as int, hi as int);
            assert(sub.last() == s@[hi - 1]);
            assert(sub.drop_last() =~= s@.subrange(lo as int, hi - 1));
        }
        hi = hi - 1;
    }
    proof {
        let sub = s@.subrange(lo as int, hi as int);
        if hi > lo {
            assert(sub.last() == s@[hi - 1]);
        }
        assert(trimmed(s@) == sub);
    }
    String::from_str(s.substring_char(lo, hi))
}

/// What `str::to_lowercase` makes of a text: Unicode lowercase mapping.
pub uninterp spec fn lowercased(s: Seq<char>) -> Seq<char>;

/// `str::to_lowercase`: the contract claims only that the result is
/// `lowercased` of the text, a function of the text alone; the Unicode
/// case mapping itself is left unsaid.
#[verifier::external_body]
pub(crate) fn lowercase_text(s: &str) -> (r: String)
    ensures
        r@ == lowercased(s@),
{
    s.to_lowercase()
}

/// The two texts are equal, character by character.
pub fn str_eq(a: &str, b: &str) -> (r: bool)
    ensures
        r == (a@ == b@),
{
    let n = a.unicode_len();
    if n != b.unicode_len() {
        return false;
    }
    let mut i: usize = 0;
    while i < n
        invariant
            i <= n,
            n == a@.len(),
            n == b@.len(),
            forall|j: int| 0 <= j < i ==> a@[j] == b@[j],
        decreases n - i,
    {
        if a.get_char(i) != b.get_char(i) {
            return false;
        }
        i = i + 1;
    }
    proof {
        assert(a@ =~= b@);
    }
    true
}

} // verus!
