//! Character-level text helpers: Unicode white space, trimming.

use vstd::prelude::*;

verus! {

/// The characters with the Unicode `White_Space` property.
pub open spec fn is_white_space(c: char) -> bool {
    let u = c as u32;
    ||| (0x09 <= u && u <= 0x0d)
    ||| u == 0x20
    ||| u == 0x85
    ||| u == 0xa0
    ||| u == 0x1680
    ||| (0x2000 <= u && u <= 0x200a)
    ||| u == 0x2028
    ||| u == 0x2029
    ||| u == 0x202f
    ||| u == 0x205f
    ||| u == 0x3000
}

/// `c` has the Unicode `White_Space` property.
pub fn white_space(c: char) -> (r: bool)
    ensures
        r == is_white_space(c),
{
    let u = c as u32;
    (0x09 <= u && u <= 0x0d) || u == 0x20 || u == 0x85 || u == 0xa0 || u == 0x1680 || (0x2000
        <= u && u <= 0x200a) || u == 0x2028 || u == 0x2029 || u == 0x202f || u == 0x205f || u
        == 0x3000
}


/// `s` without its trailing white space.
pub open spec fn trim_end_chars(s: Seq<char>) -> Seq<char>
    decreases s.len(),
{
    if s.len() > 0 && is_white_space(s.last()) {
        trim_end_chars(s.drop_last())
    } else {
        s
    }
}

/// `s` without its leading white space.
pub open spec fn trim_start_chars(s: Seq<char>) -> Seq<char>
    decreases s.len(),
{
    if s.len() > 0 && is_white_space(s[0]) {
        trim_start_chars(s.drop_first())
    } else {
        s
    }
}

/// `s` without its leading and trailing white space.
pub open spec fn trim_chars(s: Seq<char>) -> Seq<char> {
    trim_start_chars(trim_end_chars(s))
}

/// Every character of `s` is white space.
pub open spec fn is_blank(s: Seq<char>) -> bool {
    forall|i: int| 0 <= i < s.len() ==> is_white_space(#[trigger] s[i])
}

/// Number of characters of `s` left once its trailing white space is cut.
fn trimmed_end_len(s: &str) -> (e: usize)
    ensures
        e <= s@.len(),
        trim_end_chars(s@) == s@.subrange(0, e as int),
{
    let n = s.unicode_len();
    let mut e: usize = n;
    assert(s@.subrange(0, n as int) =~= s@);
    loop
        invariant
            e <= n,
            n == s@.len(),
            trim_end_chars(s@) == trim_end_chars(s@.subrange(0, e as int)),
        ensures
            e <= n,
            trim_end_chars(s@) == s@.subrange(0, e as int),
        decreases e,
    {
        if e == 0 {
            assert(trim_end_chars(s@.subrange(0, 0)) == s@.subrange(0, 0));
            break;
        }
        let c = s.get_char(e - 1);
        if !white_space(c) {
            assert(s@.subrange(0, e as int).last() == c);
            break;
        }
        assert(s@.subrange(0, e as int).drop_last() =~= s@.subrange(0, e - 1));
        e = e - 1;
    }
    e
}

/// Index of the first character of `s` at or after `from` that is not white
/// space, `to` if there is none before `to`.
fn first_non_white(s: &str, from: usize, to: usize) -> (b: usize)
    requires
        from <= to <= s@.len(),
    ensures
        from <= b <= to,
        trim_start_chars(s@.subrange(from as int, to as int)) == s@.subrange(b as int, to as int),
{
    let mut b: usize = from;
    loop
        invariant
            from <= b <= to,
            to <= s@.len(),
            trim_start_chars(s@.subrange(from as int, to as int)) == trim_start_chars(
                s@.subrange(b as int, to as int),
            ),
        ensures
            from <= b <= to,
            trim_start_chars(s@.subrange(from as int, to as int)) == s@.subrange(b as int, to as int),
        decreases to - b,
    {
        if b == to {
            assert(trim_start_chars(s@.subrange(b as int, to as int)) == s@.subrange(b as int, to as int));
            break;
        }
        let c = s.get_char(b);
        if !white_space(c) {
            assert(s@.subrange(b as int, to as int)[0] == c);
            break;
        }
        assert(s@.subrange(b as int, to as int).drop_first() =~= s@.subrange(b + 1, to as int));
        b = b + 1;
    }
    b
}

/// `s` without its trailing white space (`str::trim_end`).
pub fn trim_end(s: &str) -> (r: String)
    ensures
        r@ == trim_end_chars(s@),
{
    let e = trimmed_end_len(s);
    s.substring_char(0, e).to_owned()
}

/// `s` without its leading and trailing white space (`str::trim`).
pub fn trim(s: &str) -> (r: String)
    ensures
        r@ == trim_chars(s@),
{
    let e = trimmed_end_len(s);
    let b = first_non_white(s, 0, e);
    s.substring_char(b, e).to_owned()
}

/// Trimming leaves nothing exactly when every character is white space.
pub proof fn lemma_trim_empty_iff_blank(s: Seq<char>)
    ensures
        trim_chars(s).len() == 0 <==> is_blank(s),
        trim_end_chars(s).len() == 0 <==> is_blank(s),
    decreases s.len(),
{
    lemma_trim_start_empty_iff_blank(trim_end_chars(s));
    lemma_trim_end_blank(s);
}

proof fn lemma_trim_start_empty_iff_blank(s: Seq<char>)
    ensures
        trim_start_chars(s).len() == 0 <==> is_blank(s),
    decreases s.len(),
{
    if s.len() > 0 && is_white_space(s[0]) {
        lemma_trim_start_empty_iff_blank(s.drop_first());
        if is_blank(s.drop_first()) {
            assert forall|i: int| 0 <= i < s.len() implies is_white_space(#[trigger] s[i]) by {
                if i > 0 {
                    assert(s[i] == s.drop_first()[i - 1]);
                }
            }
        }
    }
}

/// Trimming the end leaves nothing exactly when the string is blank, and
/// keeps a string blank or not blank.
pub proof fn lemma_trim_end_blank(s: Seq<char>)
    ensures
        trim_end_chars(s).len() == 0 <==> is_blank(s),
        is_blank(trim_end_chars(s)) <==> is_blank(s),
    decreases s.len(),
{
    if s.len() > 0 && is_white_space(s.last()) {
        lemma_trim_end_blank(s.drop_last());
        if is_blank(s.drop_last()) {
            assert forall|i: int| 0 <= i < s.len() implies is_white_space(#[trigger] s[i]) by {
                if i < s.len() - 1 {
                    assert(s[i] == s.drop_last()[i]);
                }
            }
        }
    }
}

/// Every character of `s` is white space (`s.trim().is_empty()`).
pub fn blank(s: &str) -> (r: bool)
    ensures
        r == is_blank(s@),
{
    let e = trimmed_end_len(s);
    proof {
        lemma_trim_end_blank(s@);
    }
    e == 0
}

/// Appends `c` to `s` (`String::push`, documented as appending the given
/// char to the end of the string).
#[verifier::external_body]
pub(crate) fn push_char(s: &mut String, c: char)
    ensures
        final(s)@ == old(s)@.push(c),
{
    s.push(c);
}

/// `s` without its last character, if it has one.
pub open spec fn backspaced(s: Seq<char>) -> Seq<char> {
    if s.len() > 0 {
        s.drop_last()
    } else {
        s
    }
}

/// Removes the last character of `s` and returns it, `None` when `s` is
/// empty (`String::pop`, documented so).
#[verifier::external_body]
pub(crate) fn pop_char(s: &mut String) -> (r: Option<char>)
    ensures
        final(s)@ == backspaced(old(s)@),
        r == if old(s)@.len() > 0 {
            Some(old(s)@.last())
        } else {
            None::<char>
        },
{
    s.pop()
}

/// The decimal digit for `d`.
pub open spec fn digit(d: nat) -> char {
    (d + 48) as char
}

/// Decimal representation of `n`, no leading zeros.
pub open spec fn decimal(n: nat) -> Seq<char>
    decreases n,
{
    if n < 10 {
        seq![digit(n)]
    } else {
        decimal(n / 10).push(digit(n % 10))
    }
}

/// Appends the decimal representation of `n` to `s`.
pub fn push_decimal(s: &mut String, n: u64)
    ensures
        final(s)@ == old(s)@ + decimal(n as nat),
    decreases n,
{
    if n >= 10 {
        push_decimal(s, n / 10);
    }
    let d: u8 = (n % 10) as u8;
    let c = (48u8 + d) as char;
    push_char(s, c);
    proof {
        if n < 10 {
            assert(decimal(n as nat) =~= seq![digit(n as nat)]);
        }
    }
    assert(s@ =~= old(s)@ + decimal(n as nat));
}

} // verus!
